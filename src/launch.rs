//! Decisions of the launch orchestrator: whether a local proxy is needed,
//! the environment the child gets when it is, and the exit code that the
//! race between child, proxy and interrupt ends with.
use crate::setup::{Setup, SocketAddress};
use vstd::prelude::*;

verus! {

/// Exit code when the child ended without one (killed by a signal).
pub const NO_EXIT_CODE: i32 = 127;

/// Exit code when an interrupt ends a proxied run.
pub const INTERRUPTED: i32 = 1;

/// The two ways a command is launched.
#[derive(Clone, Copy, Debug, PartialEq, Eq, Structural)]
pub enum LaunchPlan {
    /// Run the command with the environment unchanged.
    Direct,
    /// Start a local proxy that forwards through this SOCKS5 address, then
    /// run the command pointed at it.
    Proxied(SocketAddress),
}

/// What ended a proxied run first.
#[derive(Clone, Copy, Debug, PartialEq, Eq, Structural)]
pub enum RaceWinner {
    /// The child exited, with its exit code if it had one.
    ChildExited(Option<i32>),
    /// The proxy server stopped with a fatal error.
    ProxyFailed,
    /// An interrupt signal arrived.
    Interrupted,
}

#[derive(Clone, Copy, Debug, PartialEq, Eq, Structural)]
pub enum LaunchError {
    /// The proxy server failed; the routing guarantee no longer holds.
    ProxyFailed,
}

/// The character of a decimal digit.
pub open spec fn digit_char(d: int) -> char {
    seq!['0', '1', '2', '3', '4', '5', '6', '7', '8', '9'][d]
}

/// The decimal digits of `n`, most significant first.
pub open spec fn decimal(n: nat) -> Seq<char>
    decreases n,
{
    if n < 10 {
        seq![digit_char(n as int)]
    } else {
        decimal(n / 10).push(digit_char((n % 10) as int))
    }
}

/// The proxy URL for a local port: `http://127.0.0.1:<port>`.
pub open spec fn proxy_url(port: u16) -> Seq<char> {
    "http://127.0.0.1:"@ + decimal(port as nat)
}

/// The variables set for a proxied child, in the order they are set.
pub open spec fn proxy_env_spec(port: u16, no_proxy: Seq<char>) -> Seq<(Seq<char>, Seq<char>)> {
    seq![
        ("HTTP_PROXY"@, proxy_url(port)),
        ("HTTPS_PROXY"@, proxy_url(port)),
        ("http_proxy"@, proxy_url(port)),
        ("NO_PROXY"@, no_proxy),
        ("no_proxy"@, no_proxy),
    ]
}

/// Relies on `String`'s `FromIterator<char>`: the string holds the
/// characters in order.
#[verifier::external_body]
fn string_of(chars: &Vec<char>) -> (r: String)
    ensures
        r@ == chars@,
{
    chars.iter().collect()
}

/// Appends the decimal digits of `n`.
fn push_decimal(out: &mut Vec<char>, n: u16)
    ensures
        final(out)@ == old(out)@ + decimal(n as nat),
    decreases n,
{
    if n >= 10 {
        push_decimal(out, n / 10);
    }
    let digits: Vec<char> = vec!['0', '1', '2', '3', '4', '5', '6', '7', '8', '9'];
    assert(digits@ =~= seq!['0', '1', '2', '3', '4', '5', '6', '7', '8', '9']);
    out.push(digits[(n % 10) as usize]);
}

/// `http://127.0.0.1:<port>`.
fn proxy_url_string(port: u16) -> (r: String)
    ensures
        r@ == proxy_url(port),
{
    let mut url: Vec<char> = vec![
        'h', 't', 't', 'p', ':', '/', '/', '1', '2', '7', '.', '0', '.', '0', '.', '1', ':',
    ];
    proof {
        reveal_strlit("http://127.0.0.1:");
    }
    assert(url@ =~= "http://127.0.0.1:"@);
    push_decimal(&mut url, port);
    string_of(&url)
}

/// Direct when the active context has no SOCKS5 address, proxied through
/// it otherwise.
pub fn plan_launch(setup: &Setup) -> (r: LaunchPlan)
    ensures
        r == (match setup.socks_address {
            Some(a) => LaunchPlan::Proxied(a),
            None => LaunchPlan::Direct,
        }),
{
    match setup.socks_address {
        Some(a) => LaunchPlan::Proxied(a),
        None => LaunchPlan::Direct,
    }
}

/// The environment variables a proxied child gets once the local proxy
/// is bound to `port`.
pub fn proxy_env(port: u16, no_proxy: &String) -> (r: Vec<(String, String)>)
    ensures
        r@.map_values(|p: (String, String)| (p.0@, p.1@)) == proxy_env_spec(port, no_proxy@),
{
    let url = proxy_url_string(port);
    let mut r: Vec<(String, String)> = Vec::new();
    r.push(("HTTP_PROXY".to_owned(), url.clone()));
    r.push(("HTTPS_PROXY".to_owned(), url.clone()));
    r.push(("http_proxy".to_owned(), url));
    r.push(("NO_PROXY".to_owned(), no_proxy.clone()));
    r.push(("no_proxy".to_owned(), no_proxy.clone()));
    assert(r@.map_values(|p: (String, String)| (p.0@, p.1@)) =~= proxy_env_spec(port, no_proxy@));
    r
}

/// The child's exit code, or `NO_EXIT_CODE` when it had none.
pub fn exit_code(code: Option<i32>) -> (r: i32)
    ensures
        r == (match code {
            Some(c) => c,
            None => NO_EXIT_CODE,
        }),
{
    match code {
        Some(c) => c,
        None => NO_EXIT_CODE,
    }
}

/// How a proxied run ends: the child's exit code, a failure when the
/// proxy server failed, or `INTERRUPTED` on an interrupt.
pub fn race_result(winner: RaceWinner) -> (r: Result<i32, LaunchError>)
    ensures
        r == (match winner {
            RaceWinner::ChildExited(Some(c)) => Ok::<i32, LaunchError>(c),
            RaceWinner::ChildExited(None) => Ok(NO_EXIT_CODE),
            RaceWinner::ProxyFailed => Err(LaunchError::ProxyFailed),
            RaceWinner::Interrupted => Ok(INTERRUPTED),
        }),
{
    match winner {
        RaceWinner::ChildExited(code) => Ok(exit_code(code)),
        RaceWinner::ProxyFailed => Err(LaunchError::ProxyFailed),
        RaceWinner::Interrupted => Ok(INTERRUPTED),
    }
}

} // verus!
