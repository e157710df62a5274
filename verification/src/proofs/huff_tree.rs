//! The code tree is built as a Huffman tree is: the nodes are picked in
//! ascending order, the lighter of two merged nodes goes left, and each
//! node weighs what its leaves weigh.

use crate::encoders::huff_helper::{node_lt, HuffmanNode, Node};
use crate::encoders::huff_tree::{
    histogram, huffman_tree, insert_position, leaves_of, lemma_insert_position_bounded,
    lemma_leaves_weight, lemma_sorted_onto_len, lemma_total_weight_push,
    lemma_total_weight_reverse, lemma_total_weight_sorted_onto, merge_step, merged, merged_down,
    sorted_onto, stable_sorted, total_weight,
};
use crate::proofs::huff::{lemma_leaves_members, lemma_sorted_onto_members, tree_of};
use crate::utils::{count_of, lemma_count_of_bounded};
use vstd::prelude::*;

verus! {

/// The place of a node in the picking order as a number: the frequency
/// first, then an internal node before a leaf, then the byte of the leaf.
pub open spec fn order_key(n: HuffmanNode) -> int {
    n.frequency * 257 + match n.byte {
        Node::Internal(_) => 0int,
        Node::Leaf(b) => b + 1,
    }
}

/// A node is picked before another where its key is lower.
pub proof fn lemma_node_lt_is_key_order(a: HuffmanNode, b: HuffmanNode)
    ensures
        node_lt(a, b) <==> order_key(a) < order_key(b),
{
}

/// Whether no node of the sequence is picked before one in front of it.
pub open spec fn ordered(f: Seq<HuffmanNode>) -> bool {
    forall|i: int, j: int| 0 <= i < j < f.len() ==> order_key(f[i]) <= order_key(f[j])
}

/// Where a node goes: behind all nodes that are not picked after it, and in
/// front of a node that is.
pub proof fn lemma_insert_position(sorted: Seq<HuffmanNode>, x: HuffmanNode)
    ensures
        insert_position(sorted, x) <= sorted.len(),
        forall|i: int|
            0 <= i < insert_position(sorted, x) ==> order_key(#[trigger] sorted[i]) <= order_key(x),
        insert_position(sorted, x) < sorted.len() ==> order_key(x) < order_key(
            sorted[insert_position(sorted, x) as int],
        ),
    decreases sorted.len(),
{
    if sorted.len() > 0 {
        lemma_node_lt_is_key_order(x, sorted[0]);
        if !node_lt(x, sorted[0]) {
            let rest = sorted.skip(1);
            lemma_insert_position(rest, x);
            let at = insert_position(sorted, x);
            assert forall|i: int| 0 <= i < at implies order_key(#[trigger] sorted[i]) <= order_key(
                x,
            ) by {
                if i > 0 {
                    assert(sorted[i] == rest[i - 1]);
                }
            }
            if at < sorted.len() {
                assert(sorted[at as int] == rest[at - 1]);
            }
        }
    }
}

/// Inserting nodes into an ordered sequence leaves it ordered.
pub proof fn lemma_sorted_onto_ordered(done: Seq<HuffmanNode>, rest: Seq<HuffmanNode>)
    requires
        ordered(done),
    ensures
        ordered(sorted_onto(done, rest)),
    decreases rest.len(),
{
    if rest.len() > 0 {
        let x = rest[0];
        lemma_insert_position(done, x);
        let at = insert_position(done, x) as int;
        let grown = done.insert(at, x);
        assert(ordered(grown)) by {
            assert forall|i: int, j: int| 0 <= i < j < grown.len() implies order_key(grown[i])
                <= order_key(grown[j]) by {
                if j < at {
                    assert(grown[i] == done[i] && grown[j] == done[j]);
                } else if j == at {
                    assert(grown[i] == done[i]);
                } else if i < at {
                    assert(grown[i] == done[i] && grown[j] == done[j - 1]);
                } else if i == at {
                    assert(grown[j] == done[j - 1]);
                    assert(order_key(done[at]) <= order_key(done[j - 1]) || at == j - 1);
                } else {
                    assert(grown[i] == done[i - 1] && grown[j] == done[j - 1]);
                }
            }
        }
        lemma_sorted_onto_ordered(grown, rest.skip(1));
    }
}

/// The nodes are picked in ascending order: by frequency, at equal
/// frequency an internal node before a leaf, and leaves by their byte.
pub proof fn lemma_picked_in_order(forest: Seq<HuffmanNode>)
    ensures
        ordered(stable_sorted(forest)),
        stable_sorted(forest).len() == forest.len(),
{
    lemma_sorted_onto_ordered(Seq::empty(), forest);
    lemma_sorted_onto_len(Seq::empty(), forest);
}

/// Whether the tree weighs what the buffer says: a leaf as much as its
/// byte occurs, which is at least once; an internal node as much as its
/// two children together, of which the left one is not the heavier.
pub open spec fn weighs(node: Option<Box<HuffmanNode>>, s: Seq<u8>) -> bool
    decreases node,
{
    match node {
        None => false,
        Some(n) => match n.byte {
            Node::Leaf(b) => n.frequency == count_of(s, b) && n.frequency > 0,
            Node::Internal(_) => {
                &&& weighs(n.left, s)
                &&& weighs(n.right, s)
                &&& n.left.unwrap().frequency <= n.right.unwrap().frequency
                &&& n.frequency == n.left.unwrap().frequency + n.right.unwrap().frequency
            },
        },
    }
}

/// Whether all trees of the forest weigh what the buffer says, and no more
/// together than a machine can count.
pub open spec fn weighed_forest(f: Seq<HuffmanNode>, s: Seq<u8>) -> bool {
    &&& total_weight(f) <= usize::MAX
    &&& forall|x: HuffmanNode| #[trigger] f.contains(x) ==> weighs(tree_of(x), s)
}

/// Merging the two nodes picked first keeps the weights right.
pub proof fn lemma_merge_step_weighs(f: Seq<HuffmanNode>, id: u8, s: Seq<u8>)
    requires
        weighed_forest(f, s),
        f.no_duplicates(),
        f.len() >= 2,
    ensures
        weighed_forest(merge_step(f, id), s),
        total_weight(merge_step(f, id)) == total_weight(f),
{
    let q = stable_sorted(f);
    assert(Seq::<HuffmanNode>::empty() + f =~= f);
    lemma_sorted_onto_members(Seq::empty(), f);
    lemma_picked_in_order(f);
    lemma_total_weight_sorted_onto(Seq::empty(), f);
    let a = q[0];
    let b = q[1];
    let m = merged(a, b, id);
    let g = merge_step(f, id);
    assert(total_weight(q) == a.frequency + total_weight(q.skip(1)));
    assert(total_weight(q.skip(1)) == b.frequency + total_weight(q.skip(1).skip(1)));
    assert(q.skip(1).skip(1) =~= q.skip(2));
    lemma_total_weight_reverse(q.skip(2));
    lemma_total_weight_push(q.skip(2).reverse(), m);
    assert(q.contains(a) && q.contains(b));
    assert(order_key(a) <= order_key(b));
    assert(a.frequency <= b.frequency);
    assert(weighs(tree_of(m), s));
    let kept = q.len() - 2;
    assert forall|x: HuffmanNode| #[trigger] g.contains(x) implies weighs(tree_of(x), s) by {
        let p = choose|p: int| 0 <= p < g.len() && g[p] == x;
        if p < kept {
            assert(g[p] == q[q.len() - 1 - p]);
            assert(q.contains(x));
        }
    }
}

/// Merging down keeps the weights right.
pub proof fn lemma_merged_down_weighs(f: Seq<HuffmanNode>, id: nat, s: Seq<u8>)
    requires
        weighed_forest(f, s),
        crate::proofs::huff::sound_forest(f, id),
        f.len() + id <= 256,
    ensures
        weighed_forest(merged_down(f, id), s),
        total_weight(merged_down(f, id)) == total_weight(f),
    decreases f.len(),
{
    if f.len() >= 2 {
        lemma_merge_step_weighs(f, id as u8, s);
        crate::proofs::huff::lemma_merge_step_sound(f, id);
        lemma_merged_down_weighs(merge_step(f, id as u8), id + 1, s);
    }
}

/// The code tree of a buffer is a Huffman tree of it: its leaves weigh as
/// much as their bytes occur, each internal node weighs as much as its
/// children together, the left child is never the heavier one, and the
/// root weighs as much as the buffer is long.
pub proof fn lemma_huffman_tree_weighs(s: Seq<u8>)
    requires
        0 < s.len() <= usize::MAX,
    ensures
        weighs(huffman_tree(s), s),
        huffman_tree(s).unwrap().frequency == s.len(),
{
    let leaves = leaves_of(histogram(s), 256);
    lemma_leaves_members(s, 256);
    lemma_leaves_weight(s, 256);
    crate::encoders::huff_tree::lemma_count_below_all(s);
    crate::proofs::huff::lemma_huffman_tree_sound(s);
    assert(weighed_forest(leaves, s)) by {
        assert forall|x: HuffmanNode| #[trigger] leaves.contains(x) implies weighs(
            tree_of(x),
            s,
        ) by {
            let b = crate::encoders::huff::node_value(x.byte);
            lemma_count_of_bounded(s, b);
            assert(x == crate::encoders::huff_tree::leaf(b, count_of(s, b) as usize));
            assert(count_of(s, b) > 0);
        }
    }
    crate::proofs::huff::lemma_leaves_sound(s);
    crate::proofs::huff::lemma_merged_down_sound(leaves, 0);
    lemma_merged_down_weighs(leaves, 0, s);
    let forest = merged_down(leaves, 0);
    assert(forest.len() == 1);
    assert(forest.contains(forest[0]));
    assert(total_weight(forest) == forest[0].frequency + total_weight(forest.skip(1)));
    assert(total_weight(forest.skip(1)) == 0);
}

} // verus!
