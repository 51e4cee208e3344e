//! IP prefixes.
use crate::net::{same_prefix, same_prefix4, same_prefix6, IpAddr};
use vstd::prelude::*;

verus! {

/// An IP prefix.
#[derive(Copy, Clone, Debug, PartialEq, Eq, Hash, Structural)]
pub struct IpCidr {
    addr: IpAddr,
    prefix_len: u8,
}

/// The width of an address in bits.
pub open spec fn width_of(addr: IpAddr) -> u8 {
    match addr {
        IpAddr::V4(_) => 32,
        IpAddr::V6(_) => 128,
    }
}

/// Whether `other` is in the prefix of `addr` with this length. The families
/// must match: an IPv4-mapped IPv6 address is an IPv6 address.
pub open spec fn prefix_contains(addr: IpAddr, prefix_len: u8, other: IpAddr) -> bool {
    match (addr, other) {
        (IpAddr::V4(a), IpAddr::V4(b)) => same_prefix(a as nat, b as nat, 32, prefix_len as nat),
        (IpAddr::V6(a), IpAddr::V6(b)) => same_prefix(a as nat, b as nat, 128, prefix_len as nat),
        _ => false,
    }
}

impl View for IpCidr {
    type V = (IpAddr, u8);

    closed spec fn view(&self) -> (IpAddr, u8) {
        (self.addr, self.prefix_len)
    }
}

impl IpCidr {
    #[verifier::type_invariant]
    closed spec fn inv(self) -> bool {
        self.prefix_len <= width_of(self.addr)
    }

    /// A prefix, or `None` when `prefix_len` exceeds the family's width.
    #[must_use]
    pub fn new(addr: IpAddr, prefix_len: u8) -> (r: Option<IpCidr>)
        ensures
            match r {
                Some(c) => prefix_len <= width_of(addr) && c@ == (addr, prefix_len),
                None => prefix_len > width_of(addr),
            },
    {
        let width: u8 = match addr {
            IpAddr::V4(_) => 32,
            IpAddr::V6(_) => 128,
        };
        if prefix_len > width {
            None
        } else {
            Some(IpCidr { addr, prefix_len })
        }
    }

    /// Whether `other` is in this prefix.
    #[must_use]
    pub fn contains(&self, other: IpAddr) -> (r: bool)
        ensures
            r == prefix_contains(self@.0, self@.1, other),
    {
        proof {
            use_type_invariant(self);
        }
        match (self.addr, other) {
            (IpAddr::V4(a), IpAddr::V4(b)) => same_prefix4(a, b, self.prefix_len),
            (IpAddr::V6(a), IpAddr::V6(b)) => same_prefix6(a, b, self.prefix_len),
            _ => false,
        }
    }

    /// The prefix length.
    #[must_use]
    pub fn prefix_len(&self) -> (r: u8)
        ensures
            r == self@.1,
    {
        self.prefix_len
    }
}

/// No prefix of one family holds an address of the other, whatever its
/// length.
pub proof fn law_families_do_not_mix(a: u32, b: u128, len: u8)
    ensures
        !prefix_contains(IpAddr::V4(a), len, IpAddr::V6(b)),
        !prefix_contains(IpAddr::V6(b), len, IpAddr::V4(a)),
{
}

/// A prefix holds its own address.
pub proof fn law_prefix_contains_itself(addr: IpAddr, len: u8)
    ensures
        prefix_contains(addr, len, addr),
{
}

} // verus!
