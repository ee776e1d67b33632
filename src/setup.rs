//! The resolved run configuration, and the routing decision for each
//! `CONNECT` request the local proxy receives.
use crate::config::Config;
use crate::host_trie::{host_matches, NOT_MATCHED};
use crate::ip_set::{Cidr, IpAddress};
use crate::pattern::{
    hosts_of, ip_covered, item_ok, nets_of, str_views, total_bytes, Pattern, PatternError,
};
use vstd::prelude::*;

verus! {

/// A socket address: an IP address and a port.
#[derive(Clone, Copy, Debug, PartialEq, Eq, Structural)]
pub struct SocketAddress {
    pub ip: IpAddress,
    pub port: u16,
}

/// The views of a list of strings.
pub open spec fn string_views(items: Seq<String>) -> Seq<Seq<char>> {
    items.map_values(|s: String| s@)
}

/// The run configuration, built once at startup and read-only afterwards.
pub struct Setup {
    /// The SOCKS5 address of the active context; `Some` exactly when a
    /// local proxy is started.
    pub socks_address: Option<SocketAddress>,
    pub proxy: Pattern,
    pub no_proxy: String,
    pub config_path: String,
}

/// Where a `CONNECT` tunnel goes.
#[derive(Clone, Copy, Debug, PartialEq, Eq, Structural)]
pub enum Route {
    /// Through the SOCKS5 proxy at this address.
    Socks5(SocketAddress),
    /// Straight to the destination.
    Direct,
    /// The host name alone does not decide: look it up, then ask
    /// `route_ip` with its first address.
    ResolveFirst,
}

impl Setup {
    pub open spec fn wf(&self) -> bool {
        self.proxy.wf()
    }

    /// Builds the setup from the configuration, the SOCKS5 address that
    /// the active context resolved to, and where the configuration came
    /// from. Fails when a proxy pattern is neither a CIDR block nor a host
    /// name of accepted bytes.
    pub fn from_config(config: &Config, socks_address: Option<SocketAddress>, config_path: String) -> (r: Result<Setup, PatternError>)
        requires
            1 + 78 * total_bytes(string_views(config.proxy@)) < NOT_MATCHED,
        ensures
            r is Ok <==> forall|i: int|
                0 <= i < config.proxy@.len() ==> item_ok(#[trigger] config.proxy@[i]@),
            r is Err ==> r == Err::<Setup, PatternError>(PatternError::InvalidCharacter),
            r matches Ok(s) ==> {
                &&& s.wf()
                &&& s.proxy.hosts() == hosts_of(string_views(config.proxy@))
                &&& s.proxy.nets() == nets_of(string_views(config.proxy@))
                &&& s.socks_address == socks_address
                &&& s.no_proxy@ == config.no_proxy@
                &&& s.config_path == config_path
            },
    {
        let mut items: Vec<&str> = Vec::new();
        let n = config.proxy.len();
        let mut i: usize = 0;
        while i < n
            invariant
                n == config.proxy@.len(),
                0 <= i <= n,
                items@.len() == i,
                forall|j: int| 0 <= j < i ==> (#[trigger] items@[j])@ == config.proxy@[j]@,
            decreases n - i,
        {
            items.push(config.proxy[i].as_str());
            i = i + 1;
        }
        assert(str_views(items@) =~= string_views(config.proxy@));
        let ghost item_seq = items@;
        assert((forall|i: int| 0 <= i < n ==> item_ok(#[trigger] item_seq[i]@)) == (forall|i: int|
            0 <= i < n ==> item_ok(#[trigger] config.proxy@[i]@))) by {
            if forall|i: int| 0 <= i < n ==> item_ok(#[trigger] item_seq[i]@) {
                assert forall|i: int| 0 <= i < n implies item_ok(#[trigger] config.proxy@[i]@) by {
                    assert(item_ok(item_seq[i]@));
                }
            }
            if forall|i: int| 0 <= i < n ==> item_ok(#[trigger] config.proxy@[i]@) {
                assert forall|i: int| 0 <= i < n implies item_ok(#[trigger] item_seq[i]@) by {
                    assert(item_ok(config.proxy@[i]@));
                }
            }
        }
        match Pattern::from_strs(items) {
            Ok(proxy) => Ok(Setup {
                socks_address,
                proxy,
                no_proxy: config.no_proxy.clone(),
                config_path,
            }),
            Err(e) => Err(e),
        }
    }

    /// First step for a `CONNECT` to `host`: a host that matches a proxy
    /// pattern goes through SOCKS5; any other must be looked up first.
    pub fn route_host(&self, host: &[u8]) -> (r: Route)
        requires
            self.wf(),
            self.socks_address is Some,
        ensures
            r == (if host_matches(self.proxy.hosts(), host@) {
                Route::Socks5(self.socks_address.unwrap())
            } else {
                Route::ResolveFirst
            }),
    {
        let socks = self.socks_address.unwrap();
        if self.proxy.contain_host(host) {
            Route::Socks5(socks)
        } else {
            Route::ResolveFirst
        }
    }

    /// Second step, with the first address the host resolved to: an
    /// address in a proxy block goes through SOCKS5, any other directly.
    pub fn route_ip(&self, ip: &IpAddress) -> (r: Route)
        requires
            self.wf(),
            self.socks_address is Some,
        ensures
            r == (if ip_covered(self.proxy.nets(), *ip) {
                Route::Socks5(self.socks_address.unwrap())
            } else {
                Route::Direct
            }),
    {
        let socks = self.socks_address.unwrap();
        if self.proxy.contain_ip(ip) {
            Route::Socks5(socks)
        } else {
            Route::Direct
        }
    }
}

} // verus!
