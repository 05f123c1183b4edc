//! Socket addresses of DHT nodes, as plain values.
use vstd::prelude::*;

verus! {

broadcast use vstd::array::group_array_axioms;

/// An IP address: four octets for IPv4, sixteen for IPv6.
#[derive(Clone, Copy, Debug, PartialEq, Eq, Hash)]
pub enum IpAddress {
    V4([u8; 4]),
    V6([u8; 16]),
}

/// A UDP socket address of a DHT node.
#[derive(Clone, Copy, Debug, PartialEq, Eq, Hash)]
pub struct NodeAddr {
    pub ip: IpAddress,
    pub port: u16,
}

impl NodeAddr {
    pub open spec fn spec_is_ipv6(&self) -> bool {
        self.ip is V6
    }

    /// Whether the address is an IPv6 address.
    #[verifier::when_used_as_spec(spec_is_ipv6)]
    pub fn is_ipv6(&self) -> (r: bool)
        ensures
            r == self.spec_is_ipv6(),
    {
        match self.ip {
            IpAddress::V4(_) => false,
            IpAddress::V6(_) => true,
        }
    }

    /// Whether two addresses are the same address.
    pub fn same_as(&self, other: &NodeAddr) -> (r: bool)
        ensures
            r == (*self == *other),
    {
        if self.port != other.port {
            return false;
        }
        match (self.ip, other.ip) {
            (IpAddress::V4(a), IpAddress::V4(b)) => bytes_equal4(&a, &b),
            (IpAddress::V6(a), IpAddress::V6(b)) => bytes_equal16(&a, &b),
            _ => false,
        }
    }
}

fn bytes_equal4(a: &[u8; 4], b: &[u8; 4]) -> (r: bool)
    ensures
        r == (*a == *b),
{
    let mut i: usize = 0;
    while i < 4
        invariant
            0 <= i <= 4,
            forall|j: int| 0 <= j < i ==> a[j] == b[j],
        decreases 4 - i,
    {
        if a[i] != b[i] {
            return false;
        }
        i = i + 1;
    }
    assert(*a =~= *b);
    true
}

fn bytes_equal16(a: &[u8; 16], b: &[u8; 16]) -> (r: bool)
    ensures
        r == (*a == *b),
{
    let mut i: usize = 0;
    while i < 16
        invariant
            0 <= i <= 16,
            forall|j: int| 0 <= j < i ==> a[j] == b[j],
        decreases 16 - i,
    {
        if a[i] != b[i] {
            return false;
        }
        i = i + 1;
    }
    assert(*a =~= *b);
    true
}

} // verus!
