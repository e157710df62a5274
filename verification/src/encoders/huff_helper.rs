//! The code tree: its nodes, its traversals, the path to a leaf, and the
//! rebuilding of a tree from its traversals.

use crate::error::{Fault, ParseError, Stage};
use crate::utils::position_of;
use vstd::prelude::*;

verus! {

/// The label of a tree node, as it is written into the container.
#[derive(Debug, Clone, Copy, PartialEq, Eq, Structural, Hash)]
pub enum Node {
    /// A leaf and the byte it stands for.
    Leaf(u8),
    /// An internal node and its id.
    Internal(u8),
}

/// A node of the code tree. A leaf has no children; an internal node of a
/// well-formed tree has two.
#[derive(Debug, Eq, PartialEq)]
pub struct HuffmanNode {
    pub frequency: usize,
    pub byte: Node,
    pub left: Option<Box<HuffmanNode>>,
    pub right: Option<Box<HuffmanNode>>,
}

/// The order in which nodes are picked for merging: by frequency; at equal
/// frequency an internal node before a leaf, and leaves by their byte. Two
/// internal nodes of one frequency are not ordered.
pub open spec fn node_lt(a: HuffmanNode, b: HuffmanNode) -> bool {
    if a.frequency != b.frequency {
        a.frequency < b.frequency
    } else {
        match (a.byte, b.byte) {
            (Node::Leaf(x), Node::Leaf(y)) => x < y,
            (Node::Internal(_), Node::Leaf(_)) => true,
            _ => false,
        }
    }
}

impl Clone for HuffmanNode {
    /// A copy of the node and of everything below it.
    fn clone(&self) -> (copy: Self)
        ensures
            copy == *self,
        decreases *self,
    {
        let left = match &self.left {
            None => None,
            Some(child) => Some(Box::new((**child).clone())),
        };
        let right = match &self.right {
            None => None,
            Some(child) => Some(Box::new((**child).clone())),
        };
        HuffmanNode { frequency: self.frequency, byte: self.byte, left, right }
    }
}

impl HuffmanNode {
    /// Whether `self` is picked strictly before `other`.
    pub fn lighter_than(&self, other: &HuffmanNode) -> (before: bool)
        ensures
            before == node_lt(*self, *other),
    {
        if self.frequency != other.frequency {
            self.frequency < other.frequency
        } else {
            match (self.byte, other.byte) {
                (Node::Leaf(x), Node::Leaf(y)) => x < y,
                (Node::Internal(_), Node::Leaf(_)) => true,
                _ => false,
            }
        }
    }
}

/// The labels of a tree, each node before its children.
pub open spec fn pre_order_of(node: Option<Box<HuffmanNode>>) -> Seq<Node>
    decreases node,
{
    match node {
        None => Seq::empty(),
        Some(n) => seq![n.byte] + pre_order_of(n.left) + pre_order_of(n.right),
    }
}

/// The labels of a tree, each node between its children.
pub open spec fn in_order_of(node: Option<Box<HuffmanNode>>) -> Seq<Node>
    decreases node,
{
    match node {
        None => Seq::empty(),
        Some(n) => in_order_of(n.left) + seq![n.byte] + in_order_of(n.right),
    }
}

/// Whether a leaf for `byte` can be reached from `node`. Nothing below a
/// leaf counts.
pub open spec fn has_leaf(node: Option<Box<HuffmanNode>>, byte: u8) -> bool
    decreases node,
{
    match node {
        None => false,
        Some(n) => match n.byte {
            Node::Leaf(b) => b == byte,
            Node::Internal(_) => has_leaf(n.left, byte) || has_leaf(n.right, byte),
        },
    }
}

/// The turns from the leftmost leaf for `byte` up to `node`: 0 where the
/// path comes from a left child, 1 where it comes from a right one. Empty
/// where `node` is that leaf, or has none.
pub open spec fn path_up(node: Option<Box<HuffmanNode>>, byte: u8) -> Seq<u8>
    decreases node,
{
    match node {
        None => Seq::empty(),
        Some(n) => match n.byte {
            Node::Leaf(_) => Seq::empty(),
            Node::Internal(_) => if has_leaf(n.left, byte) {
                path_up(n.left, byte).push(0u8)
            } else if has_leaf(n.right, byte) {
                path_up(n.right, byte).push(1u8)
            } else {
                Seq::empty()
            },
        },
    }
}

/// Traces the path to the leftmost leaf for `byte` and appends it to `path`,
/// last turn first. Returns whether there is such a leaf.
pub fn encode_byte(node: &Option<Box<HuffmanNode>>, byte: u8, path: &mut Vec<u8>) -> (found: bool)
    ensures
        found == has_leaf(*node, byte),
        final(path)@ == old(path)@ + path_up(*node, byte),
    decreases *node,
{
    match node {
        None => {
            assert(path@ + Seq::<u8>::empty() =~= path@);
            false
        },
        Some(n) => match n.byte {
            Node::Leaf(b) => {
                assert(path@ + Seq::<u8>::empty() =~= path@);
                b == byte
            },
            Node::Internal(_) => {
                let ghost before = path@;
                if encode_byte(&n.left, byte, path) {
                    path.push(0);
                    assert(path@ =~= before + path_up(n.left, byte).push(0u8));
                    true
                } else {
                    assert(path@ =~= before);
                    if encode_byte(&n.right, byte, path) {
                        path.push(1);
                        assert(path@ =~= before + path_up(n.right, byte).push(1u8));
                        true
                    } else {
                        assert(path@ =~= before);
                        false
                    }
                }
            },
        },
    }
}

/// Appends the labels of the tree to `arr`, each node before its children.
pub fn pre_order(node: &Option<Box<HuffmanNode>>, arr: &mut Vec<Node>)
    ensures
        final(arr)@ == old(arr)@ + pre_order_of(*node),
    decreases *node,
{
    match node {
        None => {
            assert(arr@ + Seq::<Node>::empty() =~= arr@);
        },
        Some(n) => {
            let ghost before = arr@;
            arr.push(n.byte);
            pre_order(&n.left, arr);
            pre_order(&n.right, arr);
            assert(arr@ =~= before + (seq![n.byte] + pre_order_of(n.left) + pre_order_of(
                n.right,
            )));
        },
    }
}

/// Appends the labels of the tree to `arr`, each node between its children.
pub fn in_order(node: &Option<Box<HuffmanNode>>, arr: &mut Vec<Node>)
    ensures
        final(arr)@ == old(arr)@ + in_order_of(*node),
    decreases *node,
{
    match node {
        None => {
            assert(arr@ + Seq::<Node>::empty() =~= arr@);
        },
        Some(n) => {
            let ghost before = arr@;
            in_order(&n.left, arr);
            arr.push(n.byte);
            in_order(&n.right, arr);
            assert(arr@ =~= before + (in_order_of(n.left) + seq![n.byte] + in_order_of(
                n.right,
            )));
        },
    }
}

/// A decoded node: the frequency is of no use when decoding and is 0.
pub open spec fn joined(
    label: Node,
    left: Option<Box<HuffmanNode>>,
    right: Option<Box<HuffmanNode>>,
) -> Option<Box<HuffmanNode>> {
    Some(Box::new(HuffmanNode { frequency: 0, byte: label, left, right }))
}

/// The tree that has the two traversals, built from the root down: the root
/// is the first label of the pre-order, and its first place in the in-order
/// parts the labels of the left subtree from those of the right. `None`
/// where a root is missing from the in-order, or the pre-order is too short
/// for the left subtree. Empty traversals give the empty tree.
pub open spec fn tree_from(pre: Seq<Node>, ino: Seq<Node>) -> Option<Option<Box<HuffmanNode>>>
    decreases ino.len(),
{
    if pre.len() == 0 || ino.len() == 0 {
        Some(None)
    } else {
        let mid = position_of(ino, pre[0]) as int;
        if mid >= ino.len() || mid + 1 > pre.len() {
            None
        } else {
            match (
                tree_from(pre.subrange(1, mid + 1), ino.subrange(0, mid)),
                tree_from(pre.skip(mid + 1), ino.skip(mid + 1)),
            ) {
                (Some(left), Some(right)) => Some(joined(pre[0], left, right)),
                _ => None,
            }
        }
    }
}

/// What `build_tree` answers for two traversals.
pub open spec fn tree_built(pre: Seq<Node>, ino: Seq<Node>) -> Result<
    Option<Box<HuffmanNode>>,
    ParseError,
> {
    match tree_from(pre, ino) {
        Some(tree) => Ok(tree),
        None => Err(ParseError { stage: Stage::Huff, fault: Fault::BadTraversal }),
    }
}

/// Rebuilds the tree of the pre-order between `pre_lo` and `pre_hi` and the
/// in-order between `in_lo` and `in_hi`.
fn build_range(
    pre: &[Node],
    pre_lo: usize,
    pre_hi: usize,
    ino: &[Node],
    in_lo: usize,
    in_hi: usize,
) -> (result: Result<Option<Box<HuffmanNode>>, ParseError>)
    requires
        pre_lo <= pre_hi <= pre.len(),
        in_lo <= in_hi <= ino.len(),
    ensures
        result == tree_built(
            pre@.subrange(pre_lo as int, pre_hi as int),
            ino@.subrange(in_lo as int, in_hi as int),
        ),
    decreases in_hi - in_lo,
{
    let ghost p = pre@.subrange(pre_lo as int, pre_hi as int);
    let ghost q = ino@.subrange(in_lo as int, in_hi as int);
    if pre_lo == pre_hi || in_lo == in_hi {
        return Ok(None);
    }
    let root: Node = pre[pre_lo];
    assert(p[0] == root);
    let mut mid: usize = in_lo;
    proof {
        assert(q.skip(0) =~= q);
    }
    while mid < in_hi && ino[mid] != root
        invariant
            in_lo <= mid <= in_hi <= ino.len(),
            q == ino@.subrange(in_lo as int, in_hi as int),
            position_of(q, root) == (mid - in_lo) + position_of(q.skip(mid - in_lo), root),
        decreases in_hi - mid,
    {
        proof {
            let tail = q.skip(mid - in_lo);
            assert(tail[0] == ino[mid as int]);
            assert(tail.skip(1) =~= q.skip(mid + 1 - in_lo));
        }
        mid += 1;
    }
    proof {
        let tail = q.skip(mid - in_lo);
        if mid < in_hi {
            assert(tail[0] == ino[mid as int]);
        }
        assert(position_of(tail, root) == 0);
        assert(position_of(q, root) == mid - in_lo);
    }
    if mid == in_hi {
        return Err(ParseError { stage: Stage::Huff, fault: Fault::BadTraversal });
    }
    let left_len: usize = mid - in_lo;
    if left_len >= pre_hi - pre_lo {
        return Err(ParseError { stage: Stage::Huff, fault: Fault::BadTraversal });
    }
    proof {
        assert(p.subrange(1, left_len + 1) =~= pre@.subrange(
            pre_lo + 1,
            pre_lo + 1 + left_len,
        ));
        assert(q.subrange(0, left_len as int) =~= ino@.subrange(in_lo as int, mid as int));
        assert(p.skip(left_len + 1) =~= pre@.subrange(pre_lo + 1 + left_len, pre_hi as int));
        assert(q.skip(left_len + 1) =~= ino@.subrange(mid + 1, in_hi as int));
    }
    let left = match build_range(pre, pre_lo + 1, pre_lo + 1 + left_len, ino, in_lo, mid) {
        Ok(tree) => tree,
        Err(e) => {
            return Err(e);
        },
    };
    let right = match build_range(pre, pre_lo + 1 + left_len, pre_hi, ino, mid + 1, in_hi) {
        Ok(tree) => tree,
        Err(e) => {
            return Err(e);
        },
    };
    Ok(Some(Box::new(HuffmanNode { frequency: 0, byte: root, left, right })))
}

/// Rebuilds a tree from its pre-order and in-order traversals. Fails where
/// the two do not fit together.
pub fn build_tree(preorder: &[Node], inorder: &[Node]) -> (result: Result<
    Option<Box<HuffmanNode>>,
    ParseError,
>)
    ensures
        result == tree_built(preorder@, inorder@),
{
    proof {
        assert(preorder@.subrange(0, preorder@.len() as int) =~= preorder@);
        assert(inorder@.subrange(0, inorder@.len() as int) =~= inorder@);
    }
    build_range(preorder, 0, preorder.len(), inorder, 0, inorder.len())
}

} // verus!
