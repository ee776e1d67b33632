//! Addresses, CIDR blocks, and the address sets that hold them.
//!
//! The sets are `iprange::IpRange` values, each in a struct whose inside
//! Verus does not see; what each one holds is named by
//! `v4_members` / `v6_members`, and the wrappers below say how each call
//! changes or reads it.
use ipnet::{Ipv4Net, Ipv6Net};
use iprange::IpRange;
use vstd::arithmetic::power2::pow2;
use vstd::prelude::*;

verus! {

/// An IP address as plain bits.
#[derive(Clone, Copy, Debug, PartialEq, Eq, Structural)]
pub enum IpAddress {
    V4(u32),
    V6(u128),
}

/// A CIDR block: an address and how many of its leading bits are fixed
/// (the prefix length). The remaining bits of the address may be nonzero;
/// they do not matter.
#[derive(Clone, Copy, Debug, PartialEq, Eq, Structural)]
pub enum Cidr {
    V4(u32, u8),
    V6(u128, u8),
}

/// `a` agrees with `net` on its first `prefix` of `width` bits.
pub open spec fn same_prefix(a: int, net: int, prefix: int, width: int) -> bool {
    a / (pow2((width - prefix) as nat) as int) == net / (pow2((width - prefix) as nat) as int)
}

pub open spec fn in_block_v4(a: u32, net: u32, prefix: u8) -> bool {
    same_prefix(a as int, net as int, prefix as int, 32)
}

pub open spec fn in_block_v6(a: u128, net: u128, prefix: u8) -> bool {
    same_prefix(a as int, net as int, prefix as int, 128)
}

pub open spec fn cidr_well_formed(c: Cidr) -> bool {
    match c {
        Cidr::V4(_, prefix) => prefix <= 32,
        Cidr::V6(_, prefix) => prefix <= 128,
    }
}

/// The block `c` holds the address `ip` (of the same family).
pub open spec fn block_holds(c: Cidr, ip: IpAddress) -> bool {
    match (c, ip) {
        (Cidr::V4(net, prefix), IpAddress::V4(a)) => in_block_v4(a, net, prefix),
        (Cidr::V6(net, prefix), IpAddress::V6(a)) => in_block_v6(a, net, prefix),
        _ => false,
    }
}

/// A set of IPv4 blocks, kept in an `iprange::IpRange<Ipv4Net>`.
#[verifier::external_body]
pub struct Ipv4Ranges {
    inner: IpRange<Ipv4Net>,
}

/// A set of IPv6 blocks, kept in an `iprange::IpRange<Ipv6Net>`.
#[verifier::external_body]
pub struct Ipv6Ranges {
    inner: IpRange<Ipv6Net>,
}

/// The IPv4 addresses that the range holds.
pub uninterp spec fn v4_members(r: Ipv4Ranges) -> Set<u32>;

/// The IPv6 addresses that the range holds.
pub uninterp spec fn v6_members(r: Ipv6Ranges) -> Set<u128>;

/// What `ipnet::IpNet`'s `FromStr` makes of a string, if it accepts it.
pub uninterp spec fn parsed_net(s: Seq<char>) -> Option<Cidr>;

/// Relies on `<ipnet::IpNet as FromStr>::from_str`: CIDR notation
/// (`addr/len`), accepted with a length of at most 32 for IPv4 and 128
/// for IPv6; the address bits are kept as written.
#[verifier::external_body]
pub(crate) fn parse_net(s: &str) -> (r: Option<Cidr>)
    ensures
        r == parsed_net(s@),
        r matches Some(c) ==> cidr_well_formed(c),
{
    match s.parse::<ipnet::IpNet>() {
        Ok(ipnet::IpNet::V4(n)) => Some(Cidr::V4(u32::from(n.addr()), n.prefix_len())),
        Ok(ipnet::IpNet::V6(n)) => Some(Cidr::V6(u128::from(n.addr()), n.prefix_len())),
        Err(_) => None,
    }
}

/// Relies on `IpRange::new`: a new range holds no address.
#[verifier::external_body]
pub(crate) fn empty_v4() -> (r: Ipv4Ranges)
    ensures
        v4_members(r) == Set::<u32>::empty(),
{
    Ipv4Ranges { inner: IpRange::new() }
}

/// Relies on `IpRange::new`: a new range holds no address.
#[verifier::external_body]
pub(crate) fn empty_v6() -> (r: Ipv6Ranges)
    ensures
        v6_members(r) == Set::<u128>::empty(),
{
    Ipv6Ranges { inner: IpRange::new() }
}

/// Relies on `IpRange::add` (with `Ipv4Net::new`): the range gains every
/// address whose first `prefix` bits are those of `addr`.
#[verifier::external_body]
pub(crate) fn add_v4(r: &mut Ipv4Ranges, addr: u32, prefix: u8)
    requires
        prefix <= 32,
    ensures
        v4_members(*final(r)) == v4_members(*old(r)).union(
            Set::new(|a: u32| in_block_v4(a, addr, prefix)),
        ),
{
    r.inner.add(Ipv4Net::new(addr.into(), prefix).unwrap());
}

/// Relies on `IpRange::add` (with `Ipv6Net::new`): the range gains every
/// address whose first `prefix` bits are those of `addr`.
#[verifier::external_body]
pub(crate) fn add_v6(r: &mut Ipv6Ranges, addr: u128, prefix: u8)
    requires
        prefix <= 128,
    ensures
        v6_members(*final(r)) == v6_members(*old(r)).union(
            Set::new(|a: u128| in_block_v6(a, addr, prefix)),
        ),
{
    r.inner.add(Ipv6Net::new(addr.into(), prefix).unwrap());
}

/// Relies on `IpRange::simplify`: it merges networks and keeps the
/// addresses held.
#[verifier::external_body]
pub(crate) fn simplify_v4(r: &mut Ipv4Ranges)
    ensures
        v4_members(*final(r)) == v4_members(*old(r)),
{
    r.inner.simplify();
}

/// Relies on `IpRange::simplify`: it merges networks and keeps the
/// addresses held.
#[verifier::external_body]
pub(crate) fn simplify_v6(r: &mut Ipv6Ranges)
    ensures
        v6_members(*final(r)) == v6_members(*old(r)),
{
    r.inner.simplify();
}

/// Relies on `IpRange::contains` for a `u32` address.
#[verifier::external_body]
pub(crate) fn contains_v4(r: &Ipv4Ranges, a: u32) -> (b: bool)
    ensures
        b == v4_members(*r).contains(a),
{
    r.inner.contains(&a)
}

/// Relies on `IpRange::contains` for a `u128` address.
#[verifier::external_body]
pub(crate) fn contains_v6(r: &Ipv6Ranges, a: u128) -> (b: bool)
    ensures
        b == v6_members(*r).contains(a),
{
    r.inner.contains(&a)
}

} // verus!
