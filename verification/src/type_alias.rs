use core::cmp::Ordering;
use vstd::prelude::*;
use vstd::std_specs::cmp::PartialOrdIs;
use vstd::std_specs::cmp::PartialOrdSpecImpl;
use vstd::std_specs::convert::FromSpec;

verus! {

/// Identifier of a node of the overlay network.
#[derive(Debug, Clone, Copy, PartialEq, Eq, Structural, Ord, Hash)]
pub struct NodeId(pub u32);

impl From<u32> for NodeId {
    fn from(value: u32) -> (id: Self) {
        NodeId(value)
    }
}

impl vstd::std_specs::convert::FromSpecImpl<u32> for NodeId {
    open spec fn obeys_from_spec() -> bool {
        true
    }

    open spec fn from_spec(value: u32) -> Self {
        NodeId(value)
    }
}

/// Node identifiers are ordered by the integer they hold.
impl PartialOrd for NodeId {
    fn partial_cmp(&self, other: &Self) -> (order: Option<Ordering>) {
        if self.0 < other.0 {
            Some(Ordering::Less)
        } else if self.0 == other.0 {
            Some(Ordering::Equal)
        } else {
            Some(Ordering::Greater)
        }
    }
}

impl PartialOrdSpecImpl for NodeId {
    open spec fn obeys_partial_cmp_spec() -> bool {
        true
    }

    open spec fn partial_cmp_spec(&self, other: &Self) -> Option<Ordering> {
        if self.0 < other.0 {
            Some(Ordering::Less)
        } else if self.0 == other.0 {
            Some(Ordering::Equal)
        } else {
            Some(Ordering::Greater)
        }
    }
}

/// A node identifier made from an integer holds that integer, and identifiers
/// made from two integers compare (`<`, `<=`, `>`, `>=`, `==`) as the integers do.
pub proof fn lemma_node_id_follows_u32(a: u32, b: u32)
    ensures
        NodeId::from_spec(a).0 == a,
        NodeId::from_spec(a).is_lt(&NodeId::from_spec(b)) <==> a < b,
        NodeId::from_spec(a).is_le(&NodeId::from_spec(b)) <==> a <= b,
        NodeId::from_spec(a).is_gt(&NodeId::from_spec(b)) <==> a > b,
        NodeId::from_spec(a).is_ge(&NodeId::from_spec(b)) <==> a >= b,
        (NodeId::from_spec(a) == NodeId::from_spec(b)) <==> a == b,
{
}

} // verus!
