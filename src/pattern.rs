//! The routing pattern: which destinations must go through the proxy.
//!
//! A pattern holds host-name suffixes (in a `HostTrie`) and CIDR blocks
//! (in one address set per family).
use crate::host_trie::{domain_match, host_matches, suffix_match, valid_host, HostTrie, NOT_MATCHED};
use crate::ip_set::{
    add_v4, add_v6, block_holds, cidr_well_formed, contains_v4, contains_v6, empty_v4, empty_v6,
    in_block_v4, in_block_v6, parse_net, parsed_net, simplify_v4, simplify_v6, v4_members, v6_members, Cidr, IpAddress,
    Ipv4Ranges, Ipv6Ranges,
};
use vstd::prelude::*;
use vstd::string::StringSliceAdditionalSpecFns;
use vstd::utf8::encode_utf8;

verus! {

#[derive(Clone, Copy, Debug, PartialEq, Eq, Structural)]
pub enum PatternError {
    /// A host name held a byte outside `A`-`Z`, `a`-`z`, `0`-`9`, `.`, `-`.
    InvalidCharacter,
}

/// Some block of `nets` holds `ip`.
pub open spec fn ip_covered(nets: Set<Cidr>, ip: IpAddress) -> bool {
    exists|c: Cidr| nets.contains(c) && block_holds(c, ip)
}

/// The item is a CIDR block or a host name of accepted bytes.
pub open spec fn item_ok(s: Seq<char>) -> bool {
    parsed_net(s) is Some || valid_host(encode_utf8(s))
}

/// The host names among `items`: those that are not CIDR blocks.
pub open spec fn hosts_of(items: Seq<Seq<char>>) -> Set<Seq<u8>>
    decreases items.len(),
{
    if items.len() == 0 {
        Set::empty()
    } else if parsed_net(items.last()) is None {
        hosts_of(items.drop_last()).insert(encode_utf8(items.last()))
    } else {
        hosts_of(items.drop_last())
    }
}

/// The CIDR blocks among `items`.
pub open spec fn nets_of(items: Seq<Seq<char>>) -> Set<Cidr>
    decreases items.len(),
{
    if items.len() == 0 {
        Set::empty()
    } else if let Some(c) = parsed_net(items.last()) {
        nets_of(items.drop_last()).insert(c)
    } else {
        nets_of(items.drop_last())
    }
}

/// The UTF-8 length of all items together, plus one for each item.
pub open spec fn total_bytes(items: Seq<Seq<char>>) -> nat
    decreases items.len(),
{
    if items.len() == 0 {
        0
    } else {
        total_bytes(items.drop_last()) + encode_utf8(items.last()).len() + 1
    }
}

/// The views of a list of string slices.
pub open spec fn str_views(items: Seq<&str>) -> Seq<Seq<char>> {
    items.map_values(|s: &str| s@)
}

proof fn lemma_total_bytes_prefix(items: Seq<Seq<char>>, i: int)
    requires
        0 <= i <= items.len(),
    ensures
        total_bytes(items.take(i)) <= total_bytes(items),
    decreases items.len() - i,
{
    if i < items.len() {
        lemma_total_bytes_prefix(items, i + 1);
        assert(items.take(i + 1).drop_last() =~= items.take(i));
    } else {
        assert(items.take(i) =~= items);
    }
}

pub struct Pattern {
    host_trie: HostTrie,
    ipv4: Ipv4Ranges,
    ipv6: Ipv6Ranges,
    nets: Ghost<Set<Cidr>>,
}

impl Pattern {
    /// The host names added so far (as bytes).
    pub closed spec fn hosts(&self) -> Set<Seq<u8>> {
        self.host_trie.names()
    }

    /// The CIDR blocks added so far.
    pub closed spec fn nets(&self) -> Set<Cidr> {
        self.nets@
    }

    /// The address sets hold `ip`.
    pub closed spec fn holds_address(&self, ip: IpAddress) -> bool {
        match ip {
            IpAddress::V4(a) => v4_members(self.ipv4).contains(a),
            IpAddress::V6(a) => v6_members(self.ipv6).contains(a),
        }
    }

    pub closed spec fn trie_size(&self) -> nat {
        self.host_trie.size()
    }

    /// Slot `i` of the host trie exists and is matched.
    pub closed spec fn slot_matched(&self, i: int) -> bool {
        self.host_trie.slot_matched(i)
    }

    pub closed spec fn wf(&self) -> bool {
        &&& self.host_trie.wf()
        &&& forall|c: Cidr| #[trigger] self.nets@.contains(c) ==> cidr_well_formed(c)
        &&& forall|ip: IpAddress| #[trigger] self.holds_address(ip) == ip_covered(self.nets@, ip)
    }

    /// An address is held exactly when some added block holds it.
    pub proof fn lemma_addresses_are_added_blocks(&self, ip: IpAddress)
        requires
            self.wf(),
        ensures
            self.holds_address(ip) == ip_covered(self.nets(), ip),
    {
    }

    /// A host added as a pattern matches itself and every name that ends
    /// with `.` followed by it.
    pub proof fn lemma_suffix_rule_matches(&self, s: Seq<u8>, h: Seq<u8>)
        requires
            self.wf(),
            self.hosts().contains(s),
            h == s || (h.len() > s.len() && h[h.len() - s.len() - 1] == 46u8 && h.subrange(
                h.len() - s.len(),
                h.len() as int,
            ) == s),
        ensures
            host_matches(self.hosts(), h),
    {
        self.host_trie.lemma_names_valid();
        assert(valid_host(s));
        assert forall|j: int| 0 <= j < s.len() implies s[j] == h[h.len() - s.len() + j] by {
            if h != s {
                assert(h.subrange(h.len() - s.len(), h.len() as int)[j] == s[j]);
            }
        }
        assert(suffix_match(s, h));
        assert(domain_match(s, h));
    }

    /// A host that merely ends with an added name, with no `.` before it,
    /// is not matched by that name, unless the name itself starts with
    /// `.`: `ample.com` does not match `example.com`.
    pub proof fn lemma_no_match_inside_label(&self, s: Seq<u8>, h: Seq<u8>)
        requires
            self.wf(),
            h.len() > s.len(),
            h[h.len() - s.len() - 1] != 46u8,
            !(s.len() > 0 && s[0] == 46u8),
        ensures
            !domain_match(s, h),
    {
    }

    /// True when some added host name matches `uri`: `uri` is that name or
    /// one of its subdomains, or the name starts with `.` and `uri` ends
    /// with it. Letters compare without regard to case.
    pub fn contain_host(&self, uri: &[u8]) -> (r: bool)
        requires
            self.wf(),
        ensures
            r == host_matches(self.hosts(), uri@),
    {
        self.host_trie.contains(uri)
    }

    /// True when some added block holds `ip`.
    pub fn contain_ip(&self, ip: &IpAddress) -> (r: bool)
        requires
            self.wf(),
        ensures
            r == self.holds_address(*ip),
            r == ip_covered(self.nets(), *ip),
    {
        let r = match ip {
            IpAddress::V4(a) => contains_v4(&self.ipv4, *a),
            IpAddress::V6(a) => contains_v6(&self.ipv6, *a),
        };
        assert(self.holds_address(*ip) == ip_covered(self.nets@, *ip));
        r
    }

    /// Adds a pattern. A string in CIDR notation goes to the address set
    /// of its family; any other string is a host-name suffix, refused
    /// when it holds a byte outside `A`-`Z`, `a`-`z`, `0`-`9`, `.`, `-`.
    pub fn add(&mut self, host_or_ip: &str) -> (r: Result<(), PatternError>)
        requires
            old(self).wf(),
            old(self).trie_size() + 78 * (host_or_ip.spec_bytes().len() + 1) < NOT_MATCHED,
        ensures
            final(self).wf(),
            old(self).trie_size() <= final(self).trie_size(),
            final(self).trie_size() <= old(self).trie_size() + 78 * (host_or_ip.spec_bytes().len() + 1),
            forall|i: int| #[trigger] old(self).slot_matched(i) ==> final(self).slot_matched(i),
            match parsed_net(host_or_ip@) {
                Some(c) => {
                    &&& r is Ok
                    &&& final(self).nets() == old(self).nets().insert(c)
                    &&& final(self).hosts() == old(self).hosts()
                },
                None => {
                    &&& (r is Ok <==> valid_host(host_or_ip.spec_bytes()))
                    &&& r is Err ==> r == Err::<(), PatternError>(PatternError::InvalidCharacter)
                    &&& final(self).nets() == old(self).nets()
                    &&& final(self).hosts() == (if r is Ok {
                        old(self).hosts().insert(host_or_ip.spec_bytes())
                    } else {
                        old(self).hosts()
                    })
                },
            },
    {
        match parse_net(host_or_ip) {
            Some(c) => {
                let ghost before = *self;
                match c {
                    Cidr::V4(addr, prefix) => {
                        add_v4(&mut self.ipv4, addr, prefix);
                        assert forall|ip: IpAddress| #[trigger] self.holds_address(ip) == (
                        before.holds_address(ip) || block_holds(c, ip)) by {
                            if let IpAddress::V4(a) = ip {
                                assert(v4_members(self.ipv4).contains(a) == (v4_members(
                                    before.ipv4,
                                ).contains(a) || in_block_v4(a, addr, prefix)));
                            }
                        }
                    },
                    Cidr::V6(addr, prefix) => {
                        add_v6(&mut self.ipv6, addr, prefix);
                        assert forall|ip: IpAddress| #[trigger] self.holds_address(ip) == (
                        before.holds_address(ip) || block_holds(c, ip)) by {
                            if let IpAddress::V6(a) = ip {
                                assert(v6_members(self.ipv6).contains(a) == (v6_members(
                                    before.ipv6,
                                ).contains(a) || in_block_v6(a, addr, prefix)));
                            }
                        }
                    },
                }
                proof {
                    assert(cidr_well_formed(c));
                    self.nets = Ghost(self.nets@.insert(c));
                    assert forall|ip: IpAddress| #[trigger] self.holds_address(ip) == ip_covered(
                        self.nets@,
                        ip,
                    ) by {
                        assert(before.holds_address(ip) == ip_covered(before.nets@, ip));
                        assert(self.holds_address(ip) == (before.holds_address(ip) || block_holds(c, ip)));
                        if ip_covered(self.nets@, ip) {
                            let d = choose|d: Cidr| self.nets@.contains(d) && block_holds(d, ip);
                            if d != c {
                                assert(before.nets@.contains(d));
                            }
                        }
                        if ip_covered(before.nets@, ip) {
                            let d = choose|d: Cidr| before.nets@.contains(d) && block_holds(d, ip);
                            assert(self.nets@.contains(d));
                        }
                    }
                }
                Ok(())
            },
            None => {
                let ghost before = *self;
                let added = self.host_trie.add(host_or_ip.as_bytes());
                assert forall|ip: IpAddress| #[trigger] self.holds_address(ip) == ip_covered(
                    self.nets@,
                    ip,
                ) by {
                    assert(before.holds_address(ip) == ip_covered(before.nets@, ip));
                }
                if added {
                    Ok(())
                } else {
                    Err(PatternError::InvalidCharacter)
                }
            },
        }
    }

    /// Finishes construction: merges the stored blocks. Every answer of
    /// `contain_host` and `contain_ip` stays the same.
    pub fn build(&mut self)
        requires
            old(self).wf(),
        ensures
            final(self).wf(),
            final(self).hosts() == old(self).hosts(),
            final(self).nets() == old(self).nets(),
            final(self).trie_size() == old(self).trie_size(),
            forall|ip: IpAddress| #[trigger]
                final(self).holds_address(ip) == old(self).holds_address(ip),
    {
        let ghost before = *self;
        simplify_v4(&mut self.ipv4);
        simplify_v6(&mut self.ipv6);
        assert forall|ip: IpAddress| #[trigger] self.holds_address(ip) == before.holds_address(ip) by {}
    }
    /// Builds a pattern from a list of items, each a CIDR block or a
    /// host-name suffix, then finishes it with `build`. Fails on the first
    /// item that is neither.
    pub fn from_strs(iter: Vec<&str>) -> (r: Result<Pattern, PatternError>)
        requires
            1 + 78 * total_bytes(str_views(iter@)) < NOT_MATCHED,
        ensures
            r is Ok <==> forall|i: int| 0 <= i < iter@.len() ==> item_ok(#[trigger] iter@[i]@),
            r is Err ==> r == Err::<Pattern, PatternError>(PatternError::InvalidCharacter),
            r matches Ok(p) ==> {
                &&& p.wf()
                &&& p.hosts() == hosts_of(str_views(iter@))
                &&& p.nets() == nets_of(str_views(iter@))
            },
    {
        let mut pattern = Pattern::default();
        let ghost views = str_views(iter@);
        let n = iter.len();
        let mut i: usize = 0;
        while i < n
            invariant
                n == iter@.len(),
                0 <= i <= n,
                views == str_views(iter@),
                1 + 78 * total_bytes(views) < NOT_MATCHED,
                pattern.wf(),
                pattern.trie_size() <= 1 + 78 * total_bytes(views.take(i as int)),
                pattern.hosts() == hosts_of(views.take(i as int)),
                pattern.nets() == nets_of(views.take(i as int)),
                forall|j: int| 0 <= j < i ==> item_ok(#[trigger] iter@[j]@),
            decreases n - i,
        {
            let item = iter[i];
            proof {
                lemma_total_bytes_prefix(views, i + 1);
                assert(views.take(i + 1).drop_last() =~= views.take(i as int));
                assert(views.take(i + 1).last() == item@);
            }
            match pattern.add(item) {
                Ok(()) => {},
                Err(e) => {
                    return Err(e);
                },
            }
            i = i + 1;
        }
        pattern.build();
        assert(views.take(n as int) =~= views);
        Ok(pattern)
    }
}

impl Default for Pattern {
    fn default() -> (r: Pattern)
        ensures
            r.wf(),
            r.hosts() == Set::<Seq<u8>>::empty(),
            r.nets() == Set::<Cidr>::empty(),
            r.trie_size() == 1,
    {
        let r = Pattern {
            host_trie: HostTrie::new(),
            ipv4: empty_v4(),
            ipv6: empty_v6(),
            nets: Ghost(Set::empty()),
        };
        assert forall|ip: IpAddress| #[trigger] r.holds_address(ip) == ip_covered(r.nets@, ip) by {}
        r
    }
}

} // verus!
