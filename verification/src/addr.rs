use vstd::prelude::*;

verus! {

/// An IP address: an IPv4 address as its 32 bits in network order, or an
/// IPv6 address as its 128 bits in network order. The derived order (all
/// IPv4 addresses before all IPv6 ones, then by value) is the order of the
/// addresses' octets.
#[derive(Debug, Clone, Copy, PartialEq, Eq, Hash, PartialOrd, Ord, Structural)]
pub enum IpAddr {
    V4(u32),
    V6(u128),
}

impl IpAddr {
    /// The IPv4 address `a.b.c.d`.
    pub fn v4(a: u8, b: u8, c: u8, d: u8) -> (r: IpAddr)
        ensures
            r == IpAddr::V4((a as int * 0x100_0000 + b as int * 0x1_0000 + c as int * 0x100 + d as int) as u32),
    {
        IpAddr::V4((a as u32) * 0x100_0000 + (b as u32) * 0x1_0000 + (c as u32) * 0x100 + (d as u32))
    }

    pub open spec fn is_ipv4_spec(&self) -> bool {
        self is V4
    }

    pub fn is_ipv4(&self) -> (b: bool)
        ensures
            b == self.is_ipv4_spec(),
    {
        matches!(self, IpAddr::V4(_))
    }

    pub fn is_ipv6(&self) -> (b: bool)
        ensures
            b == !self.is_ipv4_spec(),
    {
        matches!(self, IpAddr::V6(_))
    }

    /// The address as a plain value: whether it is IPv6, and its bits.
    pub open spec fn key_spec(&self) -> (bool, u128) {
        match self {
            IpAddr::V4(b) => (false, *b as u128),
            IpAddr::V6(b) => (true, *b),
        }
    }

    pub fn key(&self) -> (k: (bool, u128))
        ensures
            k == self.key_spec(),
    {
        match self {
            IpAddr::V4(b) => (false, *b as u128),
            IpAddr::V6(b) => (true, *b),
        }
    }

    pub open spec fn from_key_spec(k: (bool, u128)) -> IpAddr {
        if k.0 { IpAddr::V6(k.1) } else { IpAddr::V4(k.1 as u32) }
    }

    pub fn from_key(k: (bool, u128)) -> (a: IpAddr)
        requires
            !k.0 ==> k.1 <= u32::MAX,
        ensures
            a == Self::from_key_spec(k),
            a.key_spec() == k,
    {
        if k.0 { IpAddr::V6(k.1) } else { IpAddr::V4(k.1 as u32) }
    }

    /// Strict order of addresses: every IPv4 address before every IPv6 one,
    /// then by numeric value.
    pub open spec fn lt_spec(self, other: IpAddr) -> bool {
        match (self, other) {
            (IpAddr::V4(a), IpAddr::V4(b)) => a < b,
            (IpAddr::V4(_), IpAddr::V6(_)) => true,
            (IpAddr::V6(_), IpAddr::V4(_)) => false,
            (IpAddr::V6(a), IpAddr::V6(b)) => a < b,
        }
    }

    pub fn less_than(&self, other: &IpAddr) -> (b: bool)
        ensures
            b == self.lt_spec(*other),
    {
        match (self, other) {
            (IpAddr::V4(a), IpAddr::V4(b)) => *a < *b,
            (IpAddr::V4(_), IpAddr::V6(_)) => true,
            (IpAddr::V6(_), IpAddr::V4(_)) => false,
            (IpAddr::V6(a), IpAddr::V6(b)) => *a < *b,
        }
    }
}

/// The key of an address is a faithful encoding of it.
pub proof fn lemma_key_injective(a: IpAddr, b: IpAddr)
    ensures
        a.key_spec() == b.key_spec() <==> a == b,
        IpAddr::from_key_spec(a.key_spec()) == a,
{
}

} // verus!
