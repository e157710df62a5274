//! The order in which the nodes of a forest are picked for merging.

use super::huff_helper::{node_lt, HuffmanNode, Node};
use core::cmp::Ordering;
use vstd::prelude::*;
use vstd::std_specs::cmp::PartialOrdSpec;
use vstd::std_specs::cmp::PartialOrdSpecImpl;

verus! {

/// Two nodes are compared by their frequencies; at equal frequency an
/// internal node comes before a leaf, and leaves come by their bytes. Two
/// internal nodes of one frequency compare as equal, whatever is below them.
impl PartialOrd for HuffmanNode {
    fn partial_cmp(&self, other: &Self) -> (order: Option<Ordering>) {
        if self.frequency < other.frequency {
            Some(Ordering::Less)
        } else if self.frequency > other.frequency {
            Some(Ordering::Greater)
        } else {
            match (self.byte, other.byte) {
                (Node::Leaf(b1), Node::Leaf(b2)) => if b1 < b2 {
                    Some(Ordering::Less)
                } else if b1 > b2 {
                    Some(Ordering::Greater)
                } else {
                    Some(Ordering::Equal)
                },
                (Node::Leaf(_), Node::Internal(_)) => Some(Ordering::Greater),
                (Node::Internal(_), Node::Leaf(_)) => Some(Ordering::Less),
                (Node::Internal(_), Node::Internal(_)) => Some(Ordering::Equal),
            }
        }
    }
}

impl PartialOrdSpecImpl for HuffmanNode {
    open spec fn obeys_partial_cmp_spec() -> bool {
        true
    }

    open spec fn partial_cmp_spec(&self, other: &Self) -> Option<Ordering> {
        if self.frequency < other.frequency {
            Some(Ordering::Less)
        } else if self.frequency > other.frequency {
            Some(Ordering::Greater)
        } else {
            match (self.byte, other.byte) {
                (Node::Leaf(b1), Node::Leaf(b2)) => if b1 < b2 {
                    Some(Ordering::Less)
                } else if b1 > b2 {
                    Some(Ordering::Greater)
                } else {
                    Some(Ordering::Equal)
                },
                (Node::Leaf(_), Node::Internal(_)) => Some(Ordering::Greater),
                (Node::Internal(_), Node::Leaf(_)) => Some(Ordering::Less),
                (Node::Internal(_), Node::Internal(_)) => Some(Ordering::Equal),
            }
        }
    }
}

/// `<` on nodes is the order in which they are picked.
pub proof fn lemma_less_is_picked_first(a: HuffmanNode, b: HuffmanNode)
    ensures
        node_lt(a, b) <==> PartialOrdSpec::partial_cmp_spec(&a, &b) == Some(Ordering::Less),
{
}

} // verus!
