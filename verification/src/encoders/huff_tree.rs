//! Building the code tree: the leaves of a histogram are merged, the two
//! nodes picked first in each round, until one tree is left.

use super::huff_helper::{node_lt, HuffmanNode, Node};
use crate::utils::count_of;
use vstd::prelude::*;

verus! {

/// The leaf for `byte` with its frequency.
pub open spec fn leaf(byte: u8, frequency: usize) -> HuffmanNode {
    HuffmanNode { frequency, byte: Node::Leaf(byte), left: None, right: None }
}

/// The histogram of `s` as a sequence of 256 counts.
pub open spec fn histogram(s: Seq<u8>) -> Seq<usize> {
    Seq::new(256, |b: int| count_of(s, b as u8) as usize)
}

/// One leaf for each byte under `limit` that has a count, in ascending
/// order of the bytes.
pub open spec fn leaves_of(counts: Seq<usize>, limit: nat) -> Seq<HuffmanNode>
    decreases limit,
{
    if limit == 0 {
        Seq::empty()
    } else {
        let rest = leaves_of(counts, (limit - 1) as nat);
        if counts[limit - 1] > 0 {
            rest.push(leaf((limit - 1) as u8, counts[limit - 1]))
        } else {
            rest
        }
    }
}

/// The sum of the frequencies of the nodes of `forest`.
pub open spec fn total_weight(forest: Seq<HuffmanNode>) -> nat
    decreases forest.len(),
{
    if forest.len() == 0 {
        0
    } else {
        forest[0].frequency as nat + total_weight(forest.skip(1))
    }
}

/// Where `x` goes into `sorted` so that it stands behind every node that is
/// not picked after it: the index of the first node that `x` is picked
/// strictly before, or the length where there is none.
pub open spec fn insert_position(sorted: Seq<HuffmanNode>, x: HuffmanNode) -> nat
    decreases sorted.len(),
{
    if sorted.len() == 0 || node_lt(x, sorted[0]) {
        0
    } else {
        1 + insert_position(sorted.skip(1), x)
    }
}

/// `done` after the nodes of `rest` have been inserted into it, one by one
/// from the front.
pub open spec fn sorted_onto(done: Seq<HuffmanNode>, rest: Seq<HuffmanNode>) -> Seq<HuffmanNode>
    decreases rest.len(),
{
    if rest.len() == 0 {
        done
    } else {
        sorted_onto(done.insert(insert_position(done, rest[0]) as int, rest[0]), rest.skip(1))
    }
}

/// The nodes of `forest` in the order in which they are picked. Nodes that
/// are not ordered keep the order they had.
pub open spec fn stable_sorted(forest: Seq<HuffmanNode>) -> Seq<HuffmanNode> {
    sorted_onto(Seq::empty(), forest)
}

/// The parent of two picked nodes: `a`, picked first, goes left.
pub open spec fn merged(a: HuffmanNode, b: HuffmanNode, id: u8) -> HuffmanNode {
    HuffmanNode {
        frequency: (a.frequency + b.frequency) as usize,
        byte: Node::Internal(id),
        left: Some(Box::new(a)),
        right: Some(Box::new(b)),
    }
}

/// One round: the two nodes picked first leave the forest, and their parent
/// joins it at its end. The others are left in reverse picking order.
pub open spec fn merge_step(forest: Seq<HuffmanNode>, id: u8) -> Seq<HuffmanNode> {
    let picked = stable_sorted(forest);
    picked.skip(2).reverse().push(merged(picked[0], picked[1], id))
}

/// The forest after rounds of merging have left at most one node. The
/// parents get the ids `id`, `id + 1` and so on.
pub open spec fn merged_down(forest: Seq<HuffmanNode>, id: nat) -> Seq<HuffmanNode>
    decreases forest.len(),
{
    if forest.len() < 2 {
        forest
    } else {
        proof {
            lemma_sorted_onto_len(Seq::empty(), forest);
        }
        merged_down(merge_step(forest, id as u8), id + 1)
    }
}

/// The code tree of a buffer: empty for the empty buffer, a lone leaf where
/// only one byte occurs.
pub open spec fn huffman_tree(s: Seq<u8>) -> Option<Box<HuffmanNode>> {
    let forest = merged_down(leaves_of(histogram(s), 256), 0);
    if forest.len() == 0 {
        None
    } else {
        Some(Box::new(forest[0]))
    }
}

/// A node goes into a sequence at one of its indices, or at its end.
pub proof fn lemma_insert_position_bounded(sorted: Seq<HuffmanNode>, x: HuffmanNode)
    ensures
        insert_position(sorted, x) <= sorted.len(),
    decreases sorted.len(),
{
    if sorted.len() > 0 && !node_lt(x, sorted[0]) {
        lemma_insert_position_bounded(sorted.skip(1), x);
    }
}

/// Sorting keeps the number of nodes.
pub proof fn lemma_sorted_onto_len(done: Seq<HuffmanNode>, rest: Seq<HuffmanNode>)
    ensures
        sorted_onto(done, rest).len() == done.len() + rest.len(),
    decreases rest.len(),
{
    if rest.len() > 0 {
        lemma_insert_position_bounded(done, rest[0]);
        lemma_sorted_onto_len(
            done.insert(insert_position(done, rest[0]) as int, rest[0]),
            rest.skip(1),
        );
    }
}

/// A node that is put in adds its frequency to the weight.
pub proof fn lemma_total_weight_insert(forest: Seq<HuffmanNode>, at: int, x: HuffmanNode)
    requires
        0 <= at <= forest.len(),
    ensures
        total_weight(forest.insert(at, x)) == total_weight(forest) + x.frequency,
    decreases at,
{
    let grown = forest.insert(at, x);
    if at == 0 {
        assert(grown.skip(1) =~= forest);
    } else {
        assert(grown.skip(1) =~= forest.skip(1).insert(at - 1, x));
        lemma_total_weight_insert(forest.skip(1), at - 1, x);
    }
}

/// So does a node that is put at the end.
pub proof fn lemma_total_weight_push(forest: Seq<HuffmanNode>, x: HuffmanNode)
    ensures
        total_weight(forest.push(x)) == total_weight(forest) + x.frequency,
{
    assert(forest.push(x) =~= forest.insert(forest.len() as int, x));
    lemma_total_weight_insert(forest, forest.len() as int, x);
}

/// The weight does not depend on the order of the nodes.
pub proof fn lemma_total_weight_reverse(forest: Seq<HuffmanNode>)
    ensures
        total_weight(forest.reverse()) == total_weight(forest),
    decreases forest.len(),
{
    if forest.len() > 0 {
        assert(forest.reverse() =~= forest.skip(1).reverse().push(forest[0]));
        lemma_total_weight_push(forest.skip(1).reverse(), forest[0]);
        lemma_total_weight_reverse(forest.skip(1));
    } else {
        assert(forest.reverse() =~= forest);
    }
}

/// Sorting keeps the weight.
pub proof fn lemma_total_weight_sorted_onto(done: Seq<HuffmanNode>, rest: Seq<HuffmanNode>)
    ensures
        total_weight(sorted_onto(done, rest)) == total_weight(done) + total_weight(rest),
    decreases rest.len(),
{
    if rest.len() > 0 {
        lemma_insert_position_bounded(done, rest[0]);
        let at = insert_position(done, rest[0]) as int;
        lemma_total_weight_insert(done, at, rest[0]);
        lemma_total_weight_sorted_onto(done.insert(at, rest[0]), rest.skip(1));
    }
}

/// How many bytes of `s` are below `limit`.
pub open spec fn count_below(s: Seq<u8>, limit: nat) -> nat
    decreases s.len(),
{
    if s.len() == 0 {
        0
    } else {
        count_below(s.drop_last(), limit) + if (s.last() as nat) < limit {
            1nat
        } else {
            0nat
        }
    }
}

/// The bytes below `b + 1` are those below `b` and the bytes `b`.
pub proof fn lemma_count_below_step(s: Seq<u8>, b: u8)
    ensures
        count_below(s, b as nat + 1) == count_below(s, b as nat) + count_of(s, b),
    decreases s.len(),
{
    if s.len() > 0 {
        lemma_count_below_step(s.drop_last(), b);
    }
}

/// No byte is below 0.
pub proof fn lemma_count_below_none(s: Seq<u8>)
    ensures
        count_below(s, 0) == 0,
    decreases s.len(),
{
    if s.len() > 0 {
        lemma_count_below_none(s.drop_last());
    }
}

/// Every byte is below 256.
pub proof fn lemma_count_below_all(s: Seq<u8>)
    ensures
        count_below(s, 256) == s.len(),
    decreases s.len(),
{
    if s.len() > 0 {
        lemma_count_below_all(s.drop_last());
    }
}

/// The leaves for the bytes under `limit` weigh as much as there are such
/// bytes in the buffer, and there are at most `limit` of them.
pub proof fn lemma_leaves_weight(s: Seq<u8>, limit: nat)
    requires
        limit <= 256,
        s.len() <= usize::MAX,
    ensures
        total_weight(leaves_of(histogram(s), limit)) == count_below(s, limit),
        leaves_of(histogram(s), limit).len() <= limit,
    decreases limit,
{
    if limit > 0 {
        let b = (limit - 1) as u8;
        lemma_leaves_weight(s, (limit - 1) as nat);
        lemma_count_below_step(s, b);
        crate::utils::lemma_count_of_bounded(s, b);
        let rest = leaves_of(histogram(s), (limit - 1) as nat);
        assert(histogram(s)[limit - 1] == count_of(s, b));
        if count_of(s, b) > 0 {
            lemma_total_weight_push(rest, leaf(b, count_of(s, b) as usize));
        }
    } else {
        lemma_count_below_none(s);
    }
}

/// Makes the leaves of the histogram.
pub fn make_leaves(counts: &Vec<usize>) -> (leaves: Vec<HuffmanNode>)
    requires
        counts.len() == 256,
    ensures
        leaves@ == leaves_of(counts@, 256),
{
    let mut leaves: Vec<HuffmanNode> = Vec::new();
    let mut b: usize = 0;
    while b < 256
        invariant
            b <= 256,
            counts.len() == 256,
            leaves@ == leaves_of(counts@, b as nat),
        decreases 256 - b,
    {
        if counts[b] > 0 {
            leaves.push(
                HuffmanNode {
                    frequency: counts[b],
                    byte: Node::Leaf(b as u8),
                    left: None,
                    right: None,
                },
            );
        }
        b += 1;
    }
    leaves
}

/// Finds where `x` goes into `sorted`.
fn find_position(sorted: &Vec<HuffmanNode>, x: &HuffmanNode) -> (at: usize)
    ensures
        at == insert_position(sorted@, *x),
        at <= sorted.len(),
{
    let mut at: usize = 0;
    proof {
        assert(sorted@.skip(0) =~= sorted@);
    }
    while at < sorted.len() && !x.lighter_than(&sorted[at])
        invariant
            at <= sorted.len(),
            insert_position(sorted@, *x) == at + insert_position(sorted@.skip(at as int), *x),
        decreases sorted.len() - at,
    {
        proof {
            let tail = sorted@.skip(at as int);
            assert(tail[0] == sorted@[at as int]);
            assert(tail.skip(1) =~= sorted@.skip(at + 1));
        }
        at += 1;
    }
    proof {
        let tail = sorted@.skip(at as int);
        if at < sorted.len() {
            assert(tail[0] == sorted@[at as int]);
        }
    }
    at
}

/// Puts the nodes into the order in which they are picked.
pub fn sort_nodes(forest: Vec<HuffmanNode>) -> (picked: Vec<HuffmanNode>)
    ensures
        picked@ == stable_sorted(forest@),
{
    let ghost given = forest@;
    let mut rest = forest;
    let mut done: Vec<HuffmanNode> = Vec::new();
    while rest.len() > 0
        invariant
            sorted_onto(done@, rest@) == stable_sorted(given),
        decreases rest.len(),
    {
        let ghost before = rest@;
        let x = rest.remove(0);
        proof {
            assert(rest@ =~= before.skip(1));
            assert(x == before[0]);
        }
        let at = find_position(&done, &x);
        done.insert(at, x);
    }
    done
}

/// Builds the code tree from its leaves.
pub fn merge_all(leaves: Vec<HuffmanNode>) -> (forest: Vec<HuffmanNode>)
    requires
        leaves.len() <= 256,
        total_weight(leaves@) <= usize::MAX,
    ensures
        forest@ == merged_down(leaves@, 0),
        forest.len() <= 1,
        leaves.len() > 0 ==> forest.len() == 1,
{
    let ghost given = leaves@;
    let mut forest = leaves;
    let mut internal_count: u8 = 0;
    while forest.len() > 1
        invariant
            merged_down(forest@, internal_count as nat) == merged_down(given, 0),
            forest.len() + internal_count <= 256,
            given.len() > 0 ==> forest.len() > 0,
            total_weight(forest@) <= usize::MAX,
        decreases forest.len(),
    {
        let ghost before = forest@;
        let mut picked = sort_nodes(forest);
        proof {
            lemma_sorted_onto_len(Seq::empty(), before);
            lemma_total_weight_sorted_onto(Seq::empty(), before);
            assert(total_weight(picked@) == picked@[0].frequency + total_weight(picked@.skip(1)));
            assert(total_weight(picked@.skip(1)) == picked@[1].frequency + total_weight(
                picked@.skip(1).skip(1),
            ));
            assert(picked@.skip(1).skip(1) =~= picked@.skip(2));
        }
        let ghost sorted = picked@;
        let n1 = picked.remove(0);
        let n2 = picked.remove(0);
        assert(picked@ =~= sorted.skip(2));
        let mut others = reversed(picked);
        let combined = HuffmanNode {
            frequency: n1.frequency + n2.frequency,
            byte: Node::Internal(internal_count),
            left: Some(Box::new(n1)),
            right: Some(Box::new(n2)),
        };
        proof {
            lemma_total_weight_reverse(sorted.skip(2));
            lemma_total_weight_push(others@, combined);
        }
        others.push(combined);
        forest = others;
        internal_count += 1;
    }
    forest
}

/// The nodes in the opposite order.
fn reversed(nodes: Vec<HuffmanNode>) -> (turned: Vec<HuffmanNode>)
    ensures
        turned@ == nodes@.reverse(),
{
    let ghost given = nodes@;
    let mut rest = nodes;
    let mut turned: Vec<HuffmanNode> = Vec::new();
    while rest.len() > 0
        invariant
            rest.len() <= given.len(),
            turned.len() == given.len() - rest.len(),
            rest@ == given.take(rest.len() as int),
            forall|i: int| 0 <= i < turned.len() ==> turned[i] == given[given.len() - 1 - i],
        decreases rest.len(),
    {
        let x = rest.pop().unwrap();
        turned.push(x);
    }
    assert(turned@ =~= given.reverse());
    turned
}

} // verus!
