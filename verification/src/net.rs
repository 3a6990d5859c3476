use vstd::prelude::*;

verus! {

/// The outcome of comparing two keys.
#[derive(Clone, Copy, Debug, PartialEq, Eq)]
pub enum KeyOrder {
    Less,
    Equal,
    Greater,
}

/// The key order for the integer ranks `a` and `b`.
pub open spec fn order_of(a: int, b: int) -> KeyOrder {
    if a < b {
        KeyOrder::Less
    } else if a == b {
        KeyOrder::Equal
    } else {
        KeyOrder::Greater
    }
}

/// Keys that are ordered by an integer rank, one rank per key.
pub trait OrderedKey: Sized {
    /// The position of this key in the key order.
    spec fn rank(&self) -> int;

    /// Distinct keys have distinct ranks.
    proof fn lemma_rank_injective(&self, other: &Self)
        ensures
            self.rank() == other.rank() ==> *self == *other,
    ;

    /// Three-way comparison of two keys by rank.
    fn compare(&self, other: &Self) -> (order: KeyOrder)
        ensures
            order == order_of(self.rank(), other.rank()),
    ;
}

/// An IP address: IPv4 as its 32-bit number, IPv6 as its 128-bit number.
#[derive(Clone, Copy, Debug, PartialEq, Eq, Structural, Hash)]
pub enum IpAddr {
    V4(u32),
    V6(u128),
}

/// An IP address with a port.
#[derive(Clone, Copy, Debug, PartialEq, Eq, Structural, Hash)]
pub struct SocketAddr {
    pub ip: IpAddr,
    pub port: u16,
}

/// Addresses order as the standard library orders them: every IPv4 address
/// before every IPv6 address, and numerically within a family.
pub open spec fn ip_rank(ip: IpAddr) -> int {
    match ip {
        IpAddr::V4(a) => a as int,
        IpAddr::V6(a) => 0x1_0000_0000 + a,
    }
}

/// Socket addresses order by address, then by port.
pub open spec fn socket_rank(addr: SocketAddr) -> int {
    ip_rank(addr.ip) * 65536 + addr.port
}

impl OrderedKey for IpAddr {
    open spec fn rank(&self) -> int {
        ip_rank(*self)
    }

    proof fn lemma_rank_injective(&self, other: &Self) {
    }

    fn compare(&self, other: &Self) -> (order: KeyOrder) {
        match (self, other) {
            (IpAddr::V4(a), IpAddr::V4(b)) => {
                if *a < *b {
                    KeyOrder::Less
                } else if *a == *b {
                    KeyOrder::Equal
                } else {
                    KeyOrder::Greater
                }
            },
            (IpAddr::V4(_), IpAddr::V6(_)) => KeyOrder::Less,
            (IpAddr::V6(_), IpAddr::V4(_)) => KeyOrder::Greater,
            (IpAddr::V6(a), IpAddr::V6(b)) => {
                if *a < *b {
                    KeyOrder::Less
                } else if *a == *b {
                    KeyOrder::Equal
                } else {
                    KeyOrder::Greater
                }
            },
        }
    }
}

impl OrderedKey for SocketAddr {
    open spec fn rank(&self) -> int {
        socket_rank(*self)
    }

    proof fn lemma_rank_injective(&self, other: &Self) {
        let (a, b) = (ip_rank(self.ip), ip_rank(other.ip));
        let (p, q) = (self.port as int, other.port as int);
        if a * 65536 + p == b * 65536 + q {
            assert(a == b && p == q) by (nonlinear_arith)
                requires
                    a * 65536 + p == b * 65536 + q,
                    0 <= p < 65536,
                    0 <= q < 65536,
            ;
        }
    }

    fn compare(&self, other: &Self) -> (order: KeyOrder) {
        let by_ip = self.ip.compare(&other.ip);
        let ghost (a, b) = (ip_rank(self.ip), ip_rank(other.ip));
        let ghost (p, q) = (self.port as int, other.port as int);
        match by_ip {
            KeyOrder::Equal => {
                if self.port < other.port {
                    KeyOrder::Less
                } else if self.port == other.port {
                    KeyOrder::Equal
                } else {
                    KeyOrder::Greater
                }
            },
            KeyOrder::Less => {
                assert(a * 65536 + p < b * 65536 + q) by (nonlinear_arith)
                    requires
                        a < b,
                        0 <= p < 65536,
                        0 <= q < 65536,
                ;
                KeyOrder::Less
            },
            KeyOrder::Greater => {
                assert(a * 65536 + p > b * 65536 + q) by (nonlinear_arith)
                    requires
                        a > b,
                        0 <= p < 65536,
                        0 <= q < 65536,
                ;
                KeyOrder::Greater
            },
        }
    }
}

} // verus!
