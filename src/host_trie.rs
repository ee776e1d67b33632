//! Host-name trie, stored as one flat array of node slots.
//!
//! Each slot is `MATCHED`, `NOT_MATCHED`, or the index of the first slot of
//! a block of `NUM_CHILDREN` child slots, one per class: the 38 classes of
//! host bytes, and one more for the start of a name. Names are walked from
//! their last byte to their first and then the start of the name, so a
//! walk that reaches a matched slot has consumed a stored key, and every
//! key ends at a boundary: a `.` or the start of the name. A stored name
//! thus matches itself and its subdomains, and a name that starts with
//! `.` matches every name that ends with it.
use vstd::prelude::*;

verus! {

pub const NUM_ALPHABET: usize = 26;

pub const NUM_DIGIT: usize = 10;

pub const NUM_SPECIAL: usize = 2;

/// Class of `.`.
pub const DOT_CLASS: usize = 36;

/// Class that stands for the start of a name, past its first byte.
pub const START_CLASS: usize = 38;

pub const NUM_CHILDREN: usize = 39;

pub const MATCHED: usize = usize::MAX;

pub const NOT_MATCHED: usize = usize::MAX - 1;

/// Class of a host byte: letters (either case) 0..26, digits 26..36,
/// `.` 36, `-` 37, and -1 for any other byte.
pub open spec fn char_class(b: u8) -> int {
    if 65 <= b <= 90 {
        b - 65
    } else if 97 <= b <= 122 {
        b - 97
    } else if 48 <= b <= 57 {
        b - 48 + 26
    } else if b == 46 {
        36
    } else if b == 45 {
        37
    } else {
        -1
    }
}

pub open spec fn valid_host(s: Seq<u8>) -> bool {
    forall|j: int| 0 <= j < s.len() ==> char_class(#[trigger] s[j]) >= 0
}

/// `p` is a suffix of `h`, comparing bytes by class (so letters match
/// regardless of case), and every byte of `p` is an accepted one.
pub open spec fn suffix_match(p: Seq<u8>, h: Seq<u8>) -> bool {
    &&& p.len() <= h.len()
    &&& forall|j: int|
        0 <= j < p.len() ==> char_class(#[trigger] p[j]) >= 0 && char_class(p[j]) == char_class(
            h[h.len() - p.len() + j],
        )
}

/// The stored name `p` matches host `h`: `h` is `p`, or a subdomain of
/// `p` (it ends with `.` followed by `p`), or `p` starts with `.` and `h`
/// ends with `p`. Letters compare without regard to case.
pub open spec fn domain_match(p: Seq<u8>, h: Seq<u8>) -> bool {
    &&& suffix_match(p, h)
    &&& (h.len() == p.len() || h[h.len() - p.len() - 1] == 46u8 || (p.len() > 0 && p[0] == 46u8))
}

/// Some stored name matches `h`.
pub open spec fn host_matches(names: Set<Seq<u8>>, h: Seq<u8>) -> bool {
    exists|p: Seq<u8>| names.contains(p) && domain_match(p, h)
}

/// The classes of `s`, last byte first.
pub open spec fn classes_rev(s: Seq<u8>) -> Seq<int> {
    Seq::new(s.len(), |j: int| char_class(s[s.len() - 1 - j]))
}

/// What a lookup of `h` walks: its classes last byte first, then the
/// start of the name.
pub open spec fn walk_of(h: Seq<u8>) -> Seq<int> {
    classes_rev(h).push(START_CLASS as int)
}

pub open spec fn prefix_of(a: Seq<int>, b: Seq<int>) -> bool {
    a.len() <= b.len() && forall|j: int| 0 <= j < a.len() ==> #[trigger] a[j] == b[j]
}

/// Some key stored for the name `p` is a prefix of the walk `q`. A name
/// starting with `.` is stored as itself; any other name as itself
/// followed by a `.`, and as itself followed by the start of the name.
pub open spec fn key_covers(p: Seq<u8>, q: Seq<int>) -> bool {
    if p.len() > 0 && p[0] == 46u8 {
        prefix_of(classes_rev(p), q)
    } else {
        prefix_of(classes_rev(p).push(DOT_CLASS as int), q) || prefix_of(
            classes_rev(p).push(START_CLASS as int),
            q,
        )
    }
}

/// Some name of `names` has a key that is a prefix of `q`.
pub open spec fn covered(names: Set<Seq<u8>>, q: Seq<int>) -> bool {
    exists|p: Seq<u8>| names.contains(p) && key_covers(p, q)
}

pub open spec fn is_child(x: usize) -> bool {
    x != MATCHED && x != NOT_MATCHED
}

/// What a walk from slot `i` over the classes `q` answers.
pub open spec fn accepts(v: Seq<usize>, i: int, q: Seq<int>) -> bool
    decreases q.len(),
{
    if v[i] == MATCHED {
        true
    } else if q.len() == 0 || v[i] == NOT_MATCHED || !(0 <= q[0] < 39) {
        false
    } else {
        accepts(v, v[i] + q[0], q.drop_first())
    }
}

/// Walking `q` from slot `i` passes through child links only and ends at `t`.
pub open spec fn follows(v: Seq<usize>, i: int, q: Seq<int>, t: int) -> bool
    decreases q.len(),
{
    if q.len() == 0 {
        i == t
    } else {
        is_child(v[i]) && 0 <= q[0] < 39 && follows(v, v[i] + q[0], q.drop_first(), t)
    }
}

/// A walk from slot `i` over `q` arrives at slot `t` before it stops.
pub open spec fn reaches(v: Seq<usize>, i: int, q: Seq<int>, t: int) -> bool
    decreases q.len(),
{
    if i == t {
        true
    } else if !is_child(v[i]) || q.len() == 0 || !(0 <= q[0] < 39) {
        false
    } else {
        reaches(v, v[i] + q[0], q.drop_first(), t)
    }
}

/// Shape of the slot array: the root exists, every child link points to a
/// later block that fits in the array, and `lab` gives each slot the
/// classes on the path from the root to it.
pub open spec fn shaped(v: Seq<usize>, lab: Seq<Seq<int>>) -> bool {
    &&& v.len() >= 1
    &&& lab.len() == v.len()
    &&& lab[0] == Seq::<int>::empty()
    &&& forall|i: int|
        0 <= i < v.len() && is_child(#[trigger] v[i]) ==> i < v[i] && v[i] + 39 <= v.len()
    &&& forall|i: int, k: int|
        0 <= i < v.len() && is_child(v[i]) && 0 <= k < 39 ==> lab[v[i] + k] == #[trigger] lab[i].push(
            k,
        )
}

/// The slot array after giving slot `cur` a fresh block of unmatched children.
pub open spec fn extended(v: Seq<usize>, cur: int) -> Seq<usize> {
    (v + Seq::new(39, |k: int| NOT_MATCHED)).update(cur, v.len() as usize)
}

pub open spec fn extended_labels(lab: Seq<Seq<int>>, cur: int) -> Seq<Seq<int>> {
    lab + Seq::new(39, |k: int| lab[cur].push(k))
}

pub open spec fn links_in_bounds(v: Seq<usize>) -> bool {
    forall|i: int| 0 <= i < v.len() && is_child(#[trigger] v[i]) ==> v[i] + 39 <= v.len()
}

proof fn lemma_follows_then(v: Seq<usize>, i: int, a: Seq<int>, t: int, r: Seq<int>)
    requires
        follows(v, i, a, t),
    ensures
        accepts(v, i, a + r) == accepts(v, t, r),
        reaches(v, i, a + r, t),
    decreases a.len(),
{
    if a.len() > 0 {
        assert((a + r).drop_first() =~= a.drop_first() + r);
        lemma_follows_then(v, v[i] + a[0], a.drop_first(), t, r);
    } else {
        assert(a + r =~= r);
    }
}

proof fn lemma_follows_label(v: Seq<usize>, lab: Seq<Seq<int>>, i: int, a: Seq<int>, t: int)
    requires
        shaped(v, lab),
        0 <= i < v.len(),
        follows(v, i, a, t),
    ensures
        0 <= t < v.len(),
        lab[t] =~= lab[i] + a,
    decreases a.len(),
{
    if a.len() > 0 {
        let j = v[i] + a[0];
        assert(lab[j] == lab[i].push(a[0]));
        lemma_follows_label(v, lab, j, a.drop_first(), t);
        assert(lab[t] =~= lab[i] + a);
    } else {
        assert(lab[i] + a =~= lab[i]);
    }
}

proof fn lemma_reaches_label(v: Seq<usize>, lab: Seq<Seq<int>>, i: int, q: Seq<int>, t: int)
    requires
        shaped(v, lab),
        0 <= i < v.len(),
        reaches(v, i, q, t),
    ensures
        lab[i].len() <= lab[t].len() <= lab[i].len() + q.len(),
        lab[t] =~= lab[i] + q.subrange(0, lab[t].len() - lab[i].len()),
    decreases q.len(),
{
    if i == t {
        assert(lab[i] + q.subrange(0, 0) =~= lab[i]);
    } else {
        let j = v[i] + q[0];
        assert(lab[j] == lab[i].push(q[0]));
        lemma_reaches_label(v, lab, j, q.drop_first(), t);
        let m = lab[t].len() - lab[i].len();
        assert(lab[t] =~= lab[i] + q.subrange(0, m));
    }
}

proof fn lemma_follows_push(v: Seq<usize>, i: int, a: Seq<int>, t: int, k: int)
    requires
        follows(v, i, a, t),
        is_child(v[t]),
        0 <= k < 39,
    ensures
        follows(v, i, a.push(k), v[t] + k),
    decreases a.len(),
{
    if a.len() > 0 {
        assert(a.push(k).drop_first() =~= a.drop_first().push(k));
        lemma_follows_push(v, v[i] + a[0], a.drop_first(), t, k);
    } else {
        assert(a.push(k).drop_first() =~= Seq::<int>::empty());
        assert(follows(v, v[i] + k, Seq::<int>::empty(), v[t] + k));
    }
}

proof fn lemma_extend_accepts(v: Seq<usize>, cur: int, i: int, q: Seq<int>)
    requires
        links_in_bounds(v),
        v.len() + 39 < NOT_MATCHED,
        0 <= cur < v.len(),
        v[cur] == NOT_MATCHED,
        0 <= i < v.len(),
    ensures
        accepts(extended(v, cur), i, q) == accepts(v, i, q),
    decreases q.len(),
{
    let w = extended(v, cur);
    if i == cur {
        if q.len() > 0 && 0 <= q[0] < 39 {
            assert(w[v.len() + q[0]] == NOT_MATCHED);
            assert(!accepts(w, v.len() + q[0], q.drop_first()));
        }
    } else if is_child(v[i]) && q.len() > 0 && 0 <= q[0] < 39 {
        lemma_extend_accepts(v, cur, v[i] + q[0], q.drop_first());
    }
}

proof fn lemma_extend_follows(v: Seq<usize>, cur: int, i: int, a: Seq<int>, t: int)
    requires
        links_in_bounds(v),
        v.len() + 39 < NOT_MATCHED,
        0 <= cur < v.len(),
        v[cur] == NOT_MATCHED,
        0 <= i < v.len(),
        follows(v, i, a, t),
    ensures
        follows(extended(v, cur), i, a, t),
    decreases a.len(),
{
    if a.len() > 0 {
        lemma_extend_follows(v, cur, v[i] + a[0], a.drop_first(), t);
    }
}

proof fn lemma_extend_shape(v: Seq<usize>, lab: Seq<Seq<int>>, cur: int)
    requires
        shaped(v, lab),
        v.len() + 39 < NOT_MATCHED,
        0 <= cur < v.len(),
        v[cur] == NOT_MATCHED,
    ensures
        shaped(extended(v, cur), extended_labels(lab, cur)),
        links_in_bounds(extended(v, cur)),
{
    let w = extended(v, cur);
    let lw = extended_labels(lab, cur);
    assert forall|i: int, k: int|
        0 <= i < w.len() && is_child(w[i]) && 0 <= k < 39 implies lw[w[i] + k]
        == #[trigger] lw[i].push(k) by {
        if i != cur {
            assert(w[i] == v[i]);
        }
    }
}

proof fn lemma_mark(v: Seq<usize>, t: int, i: int, q: Seq<int>)
    requires
        links_in_bounds(v),
        0 <= t < v.len(),
        0 <= i < v.len(),
    ensures
        accepts(v.update(t, MATCHED), i, q) == (accepts(v, i, q) || reaches(v, i, q, t)),
    decreases q.len(),
{
    if i != t && is_child(v[i]) && q.len() > 0 && 0 <= q[0] < 39 {
        lemma_mark(v, t, v[i] + q[0], q.drop_first());
    }
}

proof fn lemma_classes_prefix(p: Seq<u8>, h: Seq<u8>)
    requires
        valid_host(p),
    ensures
        prefix_of(classes_rev(p), classes_rev(h)) == suffix_match(p, h),
{
    let a = classes_rev(p);
    let b = classes_rev(h);
    if prefix_of(a, b) {
        assert forall|j: int| 0 <= j < p.len() implies char_class(#[trigger] p[j]) >= 0
            && char_class(p[j]) == char_class(h[h.len() - p.len() + j]) by {
            assert(a[p.len() - 1 - j] == b[p.len() - 1 - j]);
        }
    }
    if suffix_match(p, h) {
        assert forall|j: int| 0 <= j < a.len() implies #[trigger] a[j] == b[j] by {
            assert(char_class(p[p.len() - 1 - j]) == char_class(h[h.len() - p.len() + (p.len() - 1 - j)]));
        }
    }
}

proof fn lemma_key_walk(p: Seq<u8>, h: Seq<u8>)
    requires
        valid_host(p),
    ensures
        key_covers(p, walk_of(h)) == domain_match(p, h),
{
    let a = classes_rev(p);
    let r = classes_rev(h);
    let w = walk_of(h);
    lemma_classes_prefix(p, h);
    assert forall|j: int| 0 <= j < h.len() implies #[trigger] w[j] == r[j] by {}
    assert(w[h.len() as int] == 38);
    if p.len() <= h.len() {
        assert(prefix_of(a, w) == prefix_of(a, r));
    }
    if p.len() > 0 && p[0] == 46u8 {
        if prefix_of(a, w) {
            if p.len() == h.len() + 1 {
                assert(a[h.len() as int] == char_class(p[0]));
                assert(false);
            }
        }
    } else {
        let ad = a.push(36);
        let as_ = a.push(38);
        if prefix_of(ad, w) {
            assert(ad[p.len() as int] == 36);
            assert(p.len() < h.len());
            assert forall|j: int| 0 <= j < a.len() implies #[trigger] a[j] == w[j] by {
                assert(ad[j] == a[j]);
            }
            assert(w[p.len() as int] == char_class(h[h.len() - p.len() - 1]));
        }
        if prefix_of(as_, w) {
            assert(as_[p.len() as int] == 38);
            assert forall|j: int| 0 <= j < a.len() implies #[trigger] a[j] == w[j] by {
                assert(as_[j] == a[j]);
            }
            if p.len() < h.len() {
                assert(w[p.len() as int] == char_class(h[h.len() - p.len() - 1]));
            }
        }
        if domain_match(p, h) {
            if p.len() == h.len() {
                assert forall|j: int| 0 <= j < as_.len() implies #[trigger] as_[j] == w[j] by {
                    if j < a.len() {
                        assert(a[j] == r[j]);
                    }
                }
            } else {
                assert(w[p.len() as int] == char_class(h[h.len() - p.len() - 1]));
                assert forall|j: int| 0 <= j < ad.len() implies #[trigger] ad[j] == w[j] by {
                    if j < a.len() {
                        assert(a[j] == r[j]);
                    }
                }
            }
        }
    }
}

proof fn lemma_insert_name(names: Set<Seq<u8>>, name: Seq<u8>, v0: Seq<usize>, v1: Seq<usize>)
    requires
        forall|q: Seq<int>| #[trigger] accepts(v0, 0, q) == covered(names, q),
        forall|q: Seq<int>| #[trigger] accepts(v1, 0, q) == (accepts(v0, 0, q) || key_covers(name, q)),
    ensures
        forall|q: Seq<int>| #[trigger] accepts(v1, 0, q) == covered(names.insert(name), q),
{
    assert forall|q: Seq<int>| #[trigger] accepts(v1, 0, q) == covered(names.insert(name), q) by {
        if key_covers(name, q) {
            assert(names.insert(name).contains(name));
        }
        if accepts(v0, 0, q) {
            let p = choose|p: Seq<u8>| names.contains(p) && key_covers(p, q);
            assert(names.insert(name).contains(p));
        }
        if covered(names.insert(name), q) {
            let p = choose|p: Seq<u8>| names.insert(name).contains(p) && key_covers(p, q);
            if p != name {
                assert(names.contains(p));
            }
        }
    }
}

pub struct HostTrie {
    nodes: Vec<usize>,
    labels: Ghost<Seq<Seq<int>>>,
    names: Ghost<Set<Seq<u8>>>,
}

impl HostTrie {
    /// The names stored so far.
    pub closed spec fn names(&self) -> Set<Seq<u8>> {
        self.names@
    }

    pub closed spec fn size(&self) -> nat {
        self.nodes@.len()
    }

    /// Slot `i` exists and is matched.
    pub closed spec fn slot_matched(&self, i: int) -> bool {
        0 <= i < self.nodes@.len() && self.nodes@[i] == MATCHED
    }

    closed spec fn shape_ok(&self) -> bool {
        &&& shaped(self.nodes@, self.labels@)
        &&& links_in_bounds(self.nodes@)
        &&& self.nodes@.len() < NOT_MATCHED
    }

    pub closed spec fn wf(&self) -> bool {
        &&& self.shape_ok()
        &&& forall|p: Seq<u8>| #[trigger] self.names@.contains(p) ==> valid_host(p)
        &&& forall|q: Seq<int>| #[trigger] accepts(self.nodes@, 0, q) == covered(self.names@, q)
    }

    /// Every stored name holds accepted bytes only.
    pub proof fn lemma_names_valid(&self)
        requires
            self.wf(),
        ensures
            forall|p: Seq<u8>| #[trigger] self.names().contains(p) ==> valid_host(p),
    {
    }

    pub fn new() -> (r: HostTrie)
        ensures
            r.wf(),
            r.names() == Set::<Seq<u8>>::empty(),
            r.size() == 1,
    {
        let mut nodes: Vec<usize> = Vec::new();
        nodes.push(NOT_MATCHED);
        let ghost lab = seq![Seq::<int>::empty()];
        let r = HostTrie { nodes, labels: Ghost(lab), names: Ghost(Set::empty()) };
        assert forall|q: Seq<int>| !#[trigger] accepts(r.nodes@, 0, q) by {
            reveal_with_fuel(accepts, 2);
        }
        r
    }

    /// True when some stored name matches `host`: `host` is that name or
    /// one of its subdomains, or the name starts with `.` and `host` ends
    /// with it. Letters compare without regard to case. The walk answers
    /// true at the first matched slot, and false at an unmatched slot or at
    /// a byte that no host name may hold.
    pub fn contains(&self, host: &[u8]) -> (r: bool)
        requires
            self.wf(),
        ensures
            r == host_matches(self.names(), host@),
    {
        let ghost q = walk_of(host@);
        let n = host.len();
        let mut j: usize = 0;
        let mut cur: usize = 0;
        while j < n
            invariant
                self.wf(),
                n == host@.len(),
                q == walk_of(host@),
                0 <= j <= n,
                0 <= cur < self.nodes@.len(),
                accepts(self.nodes@, 0, q) == accepts(
                    self.nodes@,
                    cur as int,
                    q.subrange(j as int, n + 1),
                ),
            decreases n - j,
        {
            let ghost rest = q.subrange(j as int, n + 1);
            assert(rest.drop_first() =~= q.subrange(j + 1, n + 1));
            let slot = self.nodes[cur];
            if slot == MATCHED {
                proof { self.lemma_answer(host@); }
                return true;
            }
            if slot == NOT_MATCHED {
                proof { self.lemma_answer(host@); }
                return false;
            }
            match Self::codec(host[n - 1 - j]) {
                Some(k) => {
                    cur = slot + k;
                },
                None => {
                    proof { self.lemma_answer(host@); }
                    return false;
                },
            }
            j = j + 1;
        }
        let slot = self.nodes[cur];
        proof {
            self.lemma_answer(host@);
            let rest = q.subrange(n as int, n + 1);
            assert(rest.len() == 1);
            assert(rest[0] == q[n as int]);
            assert(q[n as int] == 38);
            assert(rest.drop_first() =~= Seq::<int>::empty());
            if is_child(slot) {
                assert(accepts(self.nodes@, cur as int, rest) == accepts(
                    self.nodes@,
                    slot + 38,
                    Seq::<int>::empty(),
                ));
            }
        }
        if slot == MATCHED {
            true
        } else if slot == NOT_MATCHED {
            false
        } else {
            self.nodes[slot + START_CLASS] == MATCHED
        }
    }

    proof fn lemma_answer(&self, h: Seq<u8>)
        requires
            self.wf(),
        ensures
            accepts(self.nodes@, 0, walk_of(h)) == host_matches(self.names(), h),
    {
        let q = walk_of(h);
        if accepts(self.nodes@, 0, q) {
            let p = choose|p: Seq<u8>| self.names@.contains(p) && key_covers(p, q);
            lemma_key_walk(p, h);
        }
        if host_matches(self.names(), h) {
            let p = choose|p: Seq<u8>| self.names@.contains(p) && domain_match(p, h);
            lemma_key_walk(p, h);
        }
    }

    /// Stores `name`. A name with a byte outside `A`-`Z`, `a`-`z`, `0`-`9`,
    /// `.`, `-` is refused and leaves the trie as it was.
    pub fn add(&mut self, name: &[u8]) -> (r: bool)
        requires
            old(self).wf(),
            old(self).size() + 78 * (name@.len() + 1) < NOT_MATCHED,
        ensures
            final(self).wf(),
            r == valid_host(name@),
            r ==> final(self).names() == old(self).names().insert(name@),
            !r ==> final(self).names() == old(self).names(),
            old(self).size() <= final(self).size(),
            final(self).size() <= old(self).size() + 78 * (name@.len() + 1),
            forall|i: int| #[trigger] old(self).slot_matched(i) ==> final(self).slot_matched(i),
    {
        let n = name.len();
        let mut j: usize = 0;
        while j < n
            invariant
                n == name@.len(),
                0 <= j <= n,
                forall|i: int| 0 <= i < j ==> char_class(#[trigger] name@[i]) >= 0,
                self.wf(),
                self.nodes@ == old(self).nodes@,
                self.labels == old(self).labels,
                self.names == old(self).names,
            decreases n - j,
        {
            if Self::codec(name[j]).is_none() {
                return false;
            }
            j = j + 1;
        }
        let ghost v0 = self.nodes@;
        if n > 0 && name[0] == 46 {
            self.add_key(name, 1, DOT_CLASS);
            assert(classes_rev(name@.subrange(1, n as int)).push(36) =~= classes_rev(name@));
        } else {
            self.add_key(name, 0, DOT_CLASS);
            self.add_key(name, 0, START_CLASS);
            assert(name@.subrange(0, n as int) =~= name@);
        }
        proof {
            assert forall|q2: Seq<int>| #[trigger] accepts(self.nodes@, 0, q2) == (accepts(v0, 0, q2)
                || key_covers(name@, q2)) by {}
            lemma_insert_name(self.names@, name@, v0, self.nodes@);
            self.names = Ghost(self.names@.insert(name@));
        }
        true
    }

    /// Stores the key made of the classes of `name[lo..]`, last byte
    /// first, followed by `tail`. A walk that meets a matched slot stops
    /// early: a shorter key already covers this one.
    fn add_key(&mut self, name: &[u8], lo: usize, tail: usize)
        requires
            old(self).shape_ok(),
            lo <= name@.len(),
            forall|i: int| lo <= i < name@.len() ==> char_class(#[trigger] name@[i]) >= 0,
            tail < 39,
            old(self).size() + 39 * (name@.len() - lo + 1) < NOT_MATCHED,
        ensures
            final(self).shape_ok(),
            final(self).names == old(self).names,
            forall|q2: Seq<int>| #[trigger] accepts(final(self).nodes@, 0, q2) == (accepts(
                old(self).nodes@,
                0,
                q2,
            ) || prefix_of(classes_rev(name@.subrange(lo as int, name@.len() as int)).push(tail as int), q2)),
            old(self).size() <= final(self).size(),
            final(self).size() <= old(self).size() + 39 * (name@.len() - lo + 1),
            forall|i: int| #[trigger] old(self).slot_matched(i) ==> final(self).slot_matched(i),
    {
        let n = name.len();
        let m = n - lo + 1;
        let ghost q = classes_rev(name@.subrange(lo as int, n as int)).push(tail as int);
        let ghost v0 = self.nodes@;
        let ghost len0 = self.nodes@.len();
        let mut j: usize = 0;
        let mut cur: usize = 0;
        assert(follows(self.nodes@, 0, q.subrange(0, 0), 0));
        while j < m
            invariant
                n == name@.len(),
                lo <= n,
                m == n - lo + 1,
                forall|i: int| lo <= i < n ==> char_class(#[trigger] name@[i]) >= 0,
                tail < 39,
                q == classes_rev(name@.subrange(lo as int, n as int)).push(tail as int),
                q.len() == m,
                0 <= j <= m,
                self.names == old(self).names,
                len0 == old(self).nodes@.len(),
                v0 == old(self).nodes@,
                shaped(self.nodes@, self.labels@),
                links_in_bounds(self.nodes@),
                len0 <= self.nodes@.len() <= len0 + 39 * j,
                len0 + 39 * m < NOT_MATCHED,
                0 <= cur < self.nodes@.len(),
                follows(self.nodes@, 0, q.subrange(0, j as int), cur as int),
                forall|q2: Seq<int>| #[trigger] accepts(self.nodes@, 0, q2) == accepts(v0, 0, q2),
                forall|i: int| 0 <= i < v0.len() && v0[i] == MATCHED ==> #[trigger] self.nodes@[i] == MATCHED,
            decreases m - j,
        {
            let k = if j < n - lo {
                match Self::codec(name[n - 1 - j]) {
                    Some(k) => k,
                    None => {
                        assert(char_class(name@[n - 1 - j]) >= 0);
                        0
                    },
                }
            } else {
                tail
            };
            assert(q[j as int] == k);
            let slot = self.nodes[cur];
            if slot == MATCHED {
                proof {
                    let a = q.subrange(0, j as int);
                    assert forall|q2: Seq<int>| #[trigger] accepts(self.nodes@, 0, q2) == (accepts(
                        v0,
                        0,
                        q2,
                    ) || prefix_of(q, q2)) by {
                        if prefix_of(q, q2) {
                            assert(q2 =~= a + q2.subrange(j as int, q2.len() as int));
                            lemma_follows_then(
                                self.nodes@,
                                0,
                                a,
                                cur as int,
                                q2.subrange(j as int, q2.len() as int),
                            );
                        }
                    }
                }
                return;
            }
            let child = if slot == NOT_MATCHED {
                let ghost v = self.nodes@;
                let ghost labels_before = self.labels@;
                let child = self.nodes.len();
                let mut c: usize = 0;
                while c < NUM_CHILDREN
                    invariant
                        0 <= c <= 39,
                        self.nodes@ =~= v + Seq::new(c as nat, |i: int| NOT_MATCHED),
                        self.labels@ == labels_before,
                        self.names == old(self).names,
                    decreases 39 - c,
                {
                    self.nodes.push(NOT_MATCHED);
                    c = c + 1;
                }
                self.nodes.set(cur, child);
                proof {
                    assert(self.nodes@ =~= extended(v, cur as int));
                    assert forall|i: int| 0 <= i < v0.len() && v0[i] == MATCHED implies #[trigger] self.nodes@[i] == MATCHED by {
                        assert(v[i] == MATCHED);
                    }
                    lemma_extend_shape(v, self.labels@, cur as int);
                    lemma_extend_follows(v, cur as int, 0, q.subrange(0, j as int), cur as int);
                    assert forall|q2: Seq<int>| #[trigger] accepts(self.nodes@, 0, q2) == accepts(
                        v,
                        0,
                        q2,
                    ) by {
                        lemma_extend_accepts(v, cur as int, 0, q2);
                    }
                    self.labels = Ghost(extended_labels(self.labels@, cur as int));
                }
                child
            } else {
                slot
            };
            proof {
                lemma_follows_push(self.nodes@, 0, q.subrange(0, j as int), cur as int, k as int);
                assert(q.subrange(0, j as int).push(k as int) =~= q.subrange(0, j + 1));
            }
            cur = child + k;
            j = j + 1;
        }
        let ghost v = self.nodes@;
        self.nodes.set(cur, MATCHED);
        proof {
            assert(q.subrange(0, m as int) =~= q);
            lemma_follows_label(v, self.labels@, 0, q, cur as int);
            assert forall|q2: Seq<int>| #[trigger] accepts(self.nodes@, 0, q2) == (accepts(v, 0, q2)
                || prefix_of(q, q2)) by {
                lemma_mark(v, cur as int, 0, q2);
                if reaches(v, 0, q2, cur as int) {
                    lemma_reaches_label(v, self.labels@, 0, q2, cur as int);
                    assert(self.labels@[0] + q2.subrange(0, q.len() as int) =~= q2.subrange(
                        0,
                        q.len() as int,
                    ));
                    assert forall|i: int| 0 <= i < q.len() implies #[trigger] q[i] == q2[i] by {
                        assert(q[i] == q2.subrange(0, q.len() as int)[i]);
                    }
                }
                if prefix_of(q, q2) {
                    assert(q2 =~= q + q2.subrange(m as int, q2.len() as int));
                    lemma_follows_then(v, 0, q, cur as int, q2.subrange(m as int, q2.len() as int));
                }
            }
            assert forall|q2: Seq<int>| #[trigger] accepts(self.nodes@, 0, q2) == (accepts(v0, 0, q2)
                || prefix_of(q, q2)) by {
                assert(accepts(v, 0, q2) == accepts(v0, 0, q2));
            }
            assert(shaped(self.nodes@, self.labels@));
            assert forall|i: int| #[trigger] old(self).slot_matched(i) implies self.slot_matched(i) by {
                if i != cur {
                    assert(v[i] == MATCHED);
                }
            }
        }
    }

    /// Index of the class of `ch` (`A`-`Z`, `a`-`z`, `0`-`9`, `.`, `-`),
    /// or `None` for a byte that no host name may hold.
    pub fn codec(ch: u8) -> (r: Option<usize>)
        ensures
            r == (if char_class(ch) >= 0 {
                Some(char_class(ch) as usize)
            } else {
                None
            }),
    {
        if 65 <= ch && ch <= 90 {
            Some((ch - 65) as usize)
        } else if 97 <= ch && ch <= 122 {
            Some((ch - 97) as usize)
        } else if 48 <= ch && ch <= 57 {
            Some((ch - 48) as usize + NUM_ALPHABET)
        } else if ch == 46 {
            Some(NUM_ALPHABET + NUM_DIGIT)
        } else if ch == 45 {
            Some(NUM_ALPHABET + NUM_DIGIT + 1)
        } else {
            None
        }
    }
}

} // verus!
