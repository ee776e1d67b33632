//! The configuration as plain data: proxy patterns, the no-proxy list,
//! and the context rules in file order.
use vstd::prelude::*;

verus! {

/// The configuration read at startup.
pub struct Config {
    /// Patterns that must go through the proxy: CIDR blocks or host-name
    /// suffixes.
    pub proxy: Vec<String>,
    /// Handed to the child process as `NO_PROXY` / `no_proxy`.
    pub no_proxy: String,
    /// Context rules, tried in order.
    pub contexts: Vec<Context>,
}

/// A context rule: a regular expression over context names, and the
/// SOCKS5 address to use when it matches (none: connect directly).
pub struct Context {
    pub name: String,
    pub address: Option<String>,
}

} // verus!
