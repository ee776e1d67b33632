//! Bookkeeping of a tunnel relay: two byte streams copied in both
//! directions. The relay ends at the first end-of-stream on either side,
//! or at the first error; the other direction is then dropped too.
use vstd::prelude::*;

verus! {

/// What happened on one of the two streams.
#[derive(Clone, Copy, Debug, PartialEq, Eq, Structural)]
pub enum RelayEvent {
    /// The client sent this many bytes.
    FromClient(u64),
    /// The upstream side sent this many bytes.
    FromUpstream(u64),
    ClientClosed,
    UpstreamClosed,
    /// Reading or writing either stream failed.
    Failed,
}

/// What the relay does next.
#[derive(Clone, Copy, Debug, PartialEq, Eq, Structural)]
pub enum RelayAction {
    /// Write this many bytes just read from the client to upstream.
    ToUpstream(u64),
    /// Write this many bytes just read from upstream to the client.
    ToClient(u64),
    /// Close both sides; report the bytes copied from the client and from
    /// upstream.
    Done(u64, u64),
    /// Close both sides after an error.
    Abort,
}

/// Byte counts of a running relay.
#[derive(Clone, Copy, Debug, PartialEq, Eq, Structural)]
pub struct Relay {
    pub from_client: u64,
    pub from_upstream: u64,
    pub finished: bool,
}

/// The event fits the counters: adding its bytes overflows neither.
pub open spec fn fits(s: Relay, e: RelayEvent) -> bool {
    match e {
        RelayEvent::FromClient(n) => s.from_client + n <= u64::MAX,
        RelayEvent::FromUpstream(n) => s.from_upstream + n <= u64::MAX,
        _ => true,
    }
}

/// One step of the relay.
pub open spec fn relay_step(s: Relay, e: RelayEvent) -> (Relay, RelayAction) {
    match e {
        RelayEvent::FromClient(n) => (
            Relay { from_client: (s.from_client + n) as u64, ..s },
            RelayAction::ToUpstream(n),
        ),
        RelayEvent::FromUpstream(n) => (
            Relay { from_upstream: (s.from_upstream + n) as u64, ..s },
            RelayAction::ToClient(n),
        ),
        RelayEvent::ClientClosed | RelayEvent::UpstreamClosed => (
            Relay { finished: true, ..s },
            RelayAction::Done(s.from_client, s.from_upstream),
        ),
        RelayEvent::Failed => (Relay { finished: true, ..s }, RelayAction::Abort),
    }
}

/// The relay after each event of `events` in turn.
pub open spec fn replay(s: Relay, events: Seq<RelayEvent>) -> Relay
    decreases events.len(),
{
    if events.len() == 0 {
        s
    } else {
        replay(relay_step(s, events[0]).0, events.drop_first())
    }
}

/// Bytes that `events` carry from the client.
pub open spec fn client_bytes(events: Seq<RelayEvent>) -> nat
    decreases events.len(),
{
    if events.len() == 0 {
        0
    } else {
        (match events[0] {
            RelayEvent::FromClient(n) => n as nat,
            _ => 0,
        }) + client_bytes(events.drop_first())
    }
}

/// Bytes that `events` carry from upstream.
pub open spec fn upstream_bytes(events: Seq<RelayEvent>) -> nat
    decreases events.len(),
{
    if events.len() == 0 {
        0
    } else {
        (match events[0] {
            RelayEvent::FromUpstream(n) => n as nat,
            _ => 0,
        }) + upstream_bytes(events.drop_first())
    }
}

pub open spec fn is_data(e: RelayEvent) -> bool {
    e is FromClient || e is FromUpstream
}

impl Relay {
    pub fn new() -> (r: Relay)
        ensures
            r == (Relay { from_client: 0, from_upstream: 0, finished: false }),
    {
        Relay { from_client: 0, from_upstream: 0, finished: false }
    }

    /// Takes one event of a relay that has not finished.
    pub fn step(&mut self, e: RelayEvent) -> (r: RelayAction)
        requires
            !old(self).finished,
            fits(*old(self), e),
        ensures
            (*final(self), r) == relay_step(*old(self), e),
    {
        match e {
            RelayEvent::FromClient(n) => {
                self.from_client = self.from_client + n;
                RelayAction::ToUpstream(n)
            },
            RelayEvent::FromUpstream(n) => {
                self.from_upstream = self.from_upstream + n;
                RelayAction::ToClient(n)
            },
            RelayEvent::ClientClosed | RelayEvent::UpstreamClosed => {
                self.finished = true;
                RelayAction::Done(self.from_client, self.from_upstream)
            },
            RelayEvent::Failed => {
                self.finished = true;
                RelayAction::Abort
            },
        }
    }
}

/// Feeding data events to a fresh relay and then a close on either side
/// reports exactly the bytes fed from each side; an error instead ends it
/// with `Abort`. Either way the relay is finished.
pub proof fn lemma_relay_reports_totals(events: Seq<RelayEvent>, last: RelayEvent)
    requires
        forall|i: int| 0 <= i < events.len() ==> is_data(#[trigger] events[i]),
        client_bytes(events) <= u64::MAX,
        upstream_bytes(events) <= u64::MAX,
        !is_data(last),
    ensures
        ({
            let s = replay(Relay { from_client: 0, from_upstream: 0, finished: false }, events);
            &&& s.from_client == client_bytes(events)
            &&& s.from_upstream == upstream_bytes(events)
            &&& !s.finished
            &&& relay_step(s, last).0.finished
            &&& relay_step(s, last).1 == (if last is Failed {
                RelayAction::Abort
            } else {
                RelayAction::Done(client_bytes(events) as u64, upstream_bytes(events) as u64)
            })
        }),
{
    lemma_replay_data(Relay { from_client: 0, from_upstream: 0, finished: false }, events);
}

proof fn lemma_replay_data(s: Relay, events: Seq<RelayEvent>)
    requires
        !s.finished,
        forall|i: int| 0 <= i < events.len() ==> is_data(#[trigger] events[i]),
        s.from_client + client_bytes(events) <= u64::MAX,
        s.from_upstream + upstream_bytes(events) <= u64::MAX,
    ensures
        replay(s, events).from_client == s.from_client + client_bytes(events),
        replay(s, events).from_upstream == s.from_upstream + upstream_bytes(events),
        !replay(s, events).finished,
    decreases events.len(),
{
    if events.len() > 0 {
        let rest = events.drop_first();
        assert forall|i: int| 0 <= i < rest.len() implies is_data(#[trigger] rest[i]) by {
            assert(rest[i] == events[i + 1]);
        }
        assert(is_data(events[0]));
        lemma_replay_data(relay_step(s, events[0]).0, rest);
    }
}

} // verus!
