//! The Huffman container brings the buffer back: the tree is rebuilt from its
//! traversals, and the walk along the packed codes finds each byte.

use crate::encoders::bits::{
    be64, be_value, bit_at, bit_or_zero, packed, packed_value, place_value, stream_of,
};
use crate::encoders::huff::{
    body_decoded, code_table, huff_decoded, huff_encoded, is_lone_leaf, node_bytes, node_of,
    node_tag, node_value, nodes_parsed, symbol_code, symbol_read, symbols_read, walk,
};
use crate::encoders::huff_helper::{
    has_leaf, in_order_of, joined, path_up, pre_order_of, tree_from, HuffmanNode, Node,
};
use crate::encoders::huff_tree::{
    histogram, huffman_tree, insert_position, leaf, leaves_of, lemma_insert_position_bounded,
    lemma_sorted_onto_len, merge_step, merged, merged_down, sorted_onto, stable_sorted,
};
use crate::error::{led_by, Fault, ParseError};
use crate::utils::{count_of, lemma_count_of_bounded};
use vstd::set_lib::{lemma_int_range, lemma_len_subset, set_int_range};
use crate::utils::{lemma_position_of_is};
use vstd::prelude::*;

verus! {

/// The labels of the nodes of a tree.
pub open spec fn labels(node: Option<Box<HuffmanNode>>) -> Set<Node>
    decreases node,
{
    match node {
        None => Set::empty(),
        Some(n) => labels(n.left).union(labels(n.right)).insert(n.byte),
    }
}

/// Whether no label stands at two nodes of the tree.
pub open spec fn distinct_tree(node: Option<Box<HuffmanNode>>) -> bool
    decreases node,
{
    match node {
        None => true,
        Some(n) => {
            &&& !labels(n.left).contains(n.byte)
            &&& !labels(n.right).contains(n.byte)
            &&& labels(n.left).disjoint(labels(n.right))
            &&& distinct_tree(n.left)
            &&& distinct_tree(n.right)
        },
    }
}

/// The tree with all frequencies set to 0, as a decoder rebuilds it.
pub open spec fn zeroed(node: Option<Box<HuffmanNode>>) -> Option<Box<HuffmanNode>>
    decreases node,
{
    match node {
        None => None,
        Some(n) => joined(n.byte, zeroed(n.left), zeroed(n.right)),
    }
}

/// Both traversals list the labels of the tree, and are equally long.
pub proof fn lemma_traversals_hold_labels(node: Option<Box<HuffmanNode>>)
    ensures
        forall|x: Node| pre_order_of(node).contains(x) <==> labels(node).contains(x),
        forall|x: Node| in_order_of(node).contains(x) <==> labels(node).contains(x),
        pre_order_of(node).len() == in_order_of(node).len(),
    decreases node,
{
    match node {
        None => {},
        Some(n) => {
            lemma_traversals_hold_labels(n.left);
            lemma_traversals_hold_labels(n.right);
            let pl = pre_order_of(n.left);
            let pr = pre_order_of(n.right);
            let il = in_order_of(n.left);
            let ir = in_order_of(n.right);
            let pre = pre_order_of(node);
            let ino = in_order_of(node);
            assert forall|x: Node| pre.contains(x) <==> labels(node).contains(x) by {
                if pre.contains(x) {
                    let i = choose|i: int| 0 <= i < pre.len() && pre[i] == x;
                    if i == 0 {
                    } else if i < 1 + pl.len() {
                        assert(pl[i - 1] == x);
                        assert(pl.contains(x));
                    } else {
                        assert(pr[i - 1 - pl.len()] == x);
                        assert(pr.contains(x));
                    }
                }
                if pl.contains(x) {
                    let i = choose|i: int| 0 <= i < pl.len() && pl[i] == x;
                    assert(pre[i + 1] == x);
                }
                if pr.contains(x) {
                    let i = choose|i: int| 0 <= i < pr.len() && pr[i] == x;
                    assert(pre[i + 1 + pl.len()] == x);
                }
                if x == n.byte {
                    assert(pre[0] == x);
                }
            }
            assert forall|x: Node| ino.contains(x) <==> labels(node).contains(x) by {
                if ino.contains(x) {
                    let i = choose|i: int| 0 <= i < ino.len() && ino[i] == x;
                    if i < il.len() {
                        assert(il[i] == x);
                        assert(il.contains(x));
                    } else if i == il.len() {
                    } else {
                        assert(ir[i - 1 - il.len()] == x);
                        assert(ir.contains(x));
                    }
                }
                if il.contains(x) {
                    let i = choose|i: int| 0 <= i < il.len() && il[i] == x;
                    assert(ino[i] == x);
                }
                if ir.contains(x) {
                    let i = choose|i: int| 0 <= i < ir.len() && ir[i] == x;
                    assert(ino[i + 1 + il.len()] == x);
                }
                if x == n.byte {
                    assert(ino[il.len() as int] == x);
                }
            }
        },
    }
}

/// A tree whose labels are all different is rebuilt from its two
/// traversals, but for the frequencies.
pub proof fn lemma_tree_from_traversals(node: Option<Box<HuffmanNode>>)
    requires
        distinct_tree(node),
    ensures
        tree_from(pre_order_of(node), in_order_of(node)) == Some(zeroed(node)),
    decreases node,
{
    match node {
        None => {},
        Some(n) => {
            lemma_traversals_hold_labels(n.left);
            lemma_traversals_hold_labels(n.right);
            lemma_tree_from_traversals(n.left);
            lemma_tree_from_traversals(n.right);
            let pl = pre_order_of(n.left);
            let pr = pre_order_of(n.right);
            let il = in_order_of(n.left);
            let ir = in_order_of(n.right);
            let pre = pre_order_of(node);
            let ino = in_order_of(node);
            let mid = il.len() as int;
            assert(pre[0] == n.byte);
            assert(ino[mid] == n.byte);
            assert forall|j: int| 0 <= j < mid implies ino[j] != n.byte by {
                assert(ino[j] == il[j]);
                assert(il.contains(il[j]));
            }
            lemma_position_of_is(ino, n.byte, mid);
            assert(pre.subrange(1, mid + 1) =~= pl);
            assert(ino.subrange(0, mid) =~= il);
            assert(pre.skip(mid + 1) =~= pr);
            assert(ino.skip(mid + 1) =~= ir);
        },
    }
}

/// Reading the records of nodes gives the nodes back.
pub proof fn lemma_nodes_round_trip(nodes: Seq<Node>)
    ensures
        nodes_parsed(node_bytes(nodes)) == Ok::<Seq<Node>, Fault>(nodes),
    decreases nodes.len(),
{
    let bytes = node_bytes(nodes);
    if nodes.len() == 0 {
        assert(nodes =~= Seq::<Node>::empty());
    } else {
        assert(bytes[0] == node_tag(nodes[0]));
        assert(bytes[1] == node_value(nodes[0]));
        assert(node_of(bytes[0], bytes[1]) == nodes[0]);
        assert(bytes.skip(2) =~= node_bytes(nodes.skip(1)));
        lemma_nodes_round_trip(nodes.skip(1));
        assert(seq![nodes[0]] + nodes.skip(1) =~= nodes);
    }
}

/// A number is the sum of its eight bytes, each at its place.
proof fn lemma_bytes_of_u64(x: u64)
    by (bit_vector)
    ensures
        ((x / 0x0100_0000_0000_0000) % 256) * 0x0100_0000_0000_0000 + ((x / 0x0001_0000_0000_0000)
            % 256) * 0x0001_0000_0000_0000 + ((x / 0x0000_0100_0000_0000) % 256)
            * 0x0000_0100_0000_0000 + ((x / 0x0000_0001_0000_0000) % 256) * 0x0000_0001_0000_0000
            + ((x / 0x0000_0000_0100_0000) % 256) * 0x0000_0000_0100_0000 + ((x
            / 0x0000_0000_0001_0000) % 256) * 0x0000_0000_0001_0000 + ((x / 0x0000_0000_0000_0100)
            % 256) * 0x0000_0000_0000_0100 + (x % 256) == x,
{
}

/// Reading eight bytes that were written for a number gives the number.
pub proof fn lemma_be64_round_trip(x: nat)
    requires
        x <= u64::MAX,
    ensures
        be_value(be64(x)) == x,
        be64(x).len() == 8,
{
    let y = x as u64;
    lemma_bytes_of_u64(y);
    let b = be64(x);
    assert(b[0] == (y / 0x0100_0000_0000_0000) % 256);
    assert(b[1] == (y / 0x0001_0000_0000_0000) % 256);
    assert(b[2] == (y / 0x0000_0100_0000_0000) % 256);
    assert(b[3] == (y / 0x0000_0001_0000_0000) % 256);
    assert(b[4] == (y / 0x0000_0000_0100_0000) % 256);
    assert(b[5] == (y / 0x0000_0000_0001_0000) % 256);
    assert(b[6] == (y / 0x0000_0000_0000_0100) % 256);
    assert(b[7] == y % 256);
}

/// What bit `k` of a byte is, where the byte was made of eight bits.
proof fn lemma_bit_of_byte(b: Seq<nat>, k: int)
    requires
        b.len() == 8,
        forall|i: int| 0 <= i < 8 ==> b[i] <= 1,
        0 <= k < 8,
    ensures
        ((128 * b[0] + 64 * b[1] + 32 * b[2] + 16 * b[3] + 8 * b[4] + 4 * b[5] + 2 * b[6] + b[7])
            / place_value(k)) % 2 == b[k],
        128 * b[0] + 64 * b[1] + 32 * b[2] + 16 * b[3] + 8 * b[4] + 4 * b[5] + 2 * b[6] + b[7]
            <= 255,
{
    assert(b[0] <= 1 && b[1] <= 1 && b[2] <= 1 && b[3] <= 1 && b[4] <= 1 && b[5] <= 1 && b[6] <= 1
        && b[7] <= 1);
    let v = 128 * b[0] + 64 * b[1] + 32 * b[2] + 16 * b[3] + 8 * b[4] + 4 * b[5] + 2 * b[6] + b[7];
    if k == 0 {
        assert(v / 128 == b[0]);
    } else if k == 1 {
        assert(v / 64 == 2 * b[0] + b[1]);
    } else if k == 2 {
        assert(v / 32 == 4 * b[0] + 2 * b[1] + b[2]);
    } else if k == 3 {
        assert(v / 16 == 8 * b[0] + 4 * b[1] + 2 * b[2] + b[3]);
    } else if k == 4 {
        assert(v / 8 == 16 * b[0] + 8 * b[1] + 4 * b[2] + 2 * b[3] + b[4]);
    } else if k == 5 {
        assert(v / 4 == 32 * b[0] + 16 * b[1] + 8 * b[2] + 4 * b[3] + 2 * b[4] + b[5]);
    } else if k == 6 {
        assert(v / 2 == 64 * b[0] + 32 * b[1] + 16 * b[2] + 8 * b[3] + 4 * b[4] + 2 * b[5] + b[6]);
    } else {
        assert(v / 1 == v);
    }
}

/// The bits of the packed bytes are the bits that were packed, and zeros
/// behind them.
pub proof fn lemma_packed_bits(bits: Seq<u8>, i: int)
    requires
        0 <= i < 8 * packed(bits).len(),
    ensures
        bit_at(packed(bits), i) == bit_or_zero(bits, i),
{
    let j = i / 8;
    let k = i % 8;
    let b = Seq::new(8, |m: int| bit_or_zero(bits, 8 * j + m));
    lemma_bit_of_byte(b, k);
    assert(packed_value(bits, j) == 128 * b[0] + 64 * b[1] + 32 * b[2] + 16 * b[3] + 8 * b[4] + 4
        * b[5] + 2 * b[6] + b[7]);
    assert(packed(bits)[j] == packed_value(bits, j) as u8);
    assert(b[k] == bit_or_zero(bits, i));
}

/// Zeroing the frequencies changes neither the leaves nor the paths.
pub proof fn lemma_zeroed_keeps_paths(node: Option<Box<HuffmanNode>>, byte: u8)
    ensures
        has_leaf(zeroed(node), byte) == has_leaf(node, byte),
        path_up(zeroed(node), byte) == path_up(node, byte),
        is_lone_leaf(zeroed(node)) == is_lone_leaf(node),
    decreases node,
{
    match node {
        None => {},
        Some(n) => {
            lemma_zeroed_keeps_paths(n.left, byte);
            lemma_zeroed_keeps_paths(n.right, byte);
        },
    }
}

/// A path holds only the turns 0 and 1, and is empty only at a leaf.
pub proof fn lemma_path_turns(node: Option<Box<HuffmanNode>>, byte: u8)
    ensures
        forall|j: int| 0 <= j < path_up(node, byte).len() ==> path_up(node, byte)[j] <= 1,
        has_leaf(node, byte) && !is_lone_leaf(node) ==> path_up(node, byte).len() > 0,
    decreases node,
{
    let whole = path_up(node, byte);
    match node {
        None => {
            assert(whole.len() == 0);
        },
        Some(n) => match n.byte {
            Node::Leaf(_) => {
                assert(whole.len() == 0);
            },
            Node::Internal(_) => {
                lemma_path_turns(n.left, byte);
                lemma_path_turns(n.right, byte);
                if has_leaf(n.left, byte) {
                    let below = path_up(n.left, byte);
                    assert(whole == below.push(0u8));
                    assert forall|j: int| 0 <= j < whole.len() implies whole[j] <= 1 by {
                        if j < below.len() {
                            assert(whole[j] == below[j]);
                        }
                    }
                } else if has_leaf(n.right, byte) {
                    let below = path_up(n.right, byte);
                    assert(whole == below.push(1u8));
                    assert forall|j: int| 0 <= j < whole.len() implies whole[j] <= 1 by {
                        if j < below.len() {
                            assert(whole[j] == below[j]);
                        }
                    }
                } else {
                    assert(whole.len() == 0);
                }
            },
        },
    }
}

/// Whether bit `pos + j` of `data` is there and is bit `j` of `code`.
pub open spec fn bit_matches(data: Seq<u8>, pos: nat, code: Seq<u8>, j: int) -> bool {
    pos + j < 8 * data.len() && bit_at(data, pos + j) == code[j]
}

/// Whether the bits of `data` from `pos` on are `code`.
pub open spec fn bits_match(data: Seq<u8>, pos: nat, code: Seq<u8>) -> bool {
    forall|j: int| 0 <= j < code.len() ==> #[trigger] bit_matches(data, pos, code, j)
}

/// Where the bits from `pos` on are `code`, those from the next bit on are
/// the rest of `code`.
pub proof fn lemma_bits_match_tail(data: Seq<u8>, pos: nat, code: Seq<u8>)
    requires
        bits_match(data, pos, code),
        code.len() > 0,
    ensures
        bits_match(data, (pos + 1) as nat, code.skip(1)),
{
    let tail = code.skip(1);
    let next = (pos + 1) as nat;
    assert forall|j: int| 0 <= j < tail.len() implies #[trigger] bit_matches(
        data,
        next,
        tail,
        j,
    ) by {
        assert(bit_matches(data, pos, code, j + 1));
        assert(tail[j] == code[j + 1]);
        assert(next + j == pos + (j + 1));
    }
}

/// Where the bits from `pos` on are the path from the root to the leaf of
/// `byte`, the walk ends at that leaf, behind those bits.
pub proof fn lemma_walk_follows_path(
    node: Option<Box<HuffmanNode>>,
    data: Seq<u8>,
    pos: nat,
    byte: u8,
    code: Seq<u8>,
)
    requires
        has_leaf(node, byte),
        code == path_up(node, byte).reverse(),
        bits_match(data, pos, code),
    ensures
        walk(node, data, pos) == Ok::<(u8, nat), Fault>((byte, pos + code.len())),
    decreases node,
{
    match node {
        None => {},
        Some(n) => match n.byte {
            Node::Leaf(_) => {},
            Node::Internal(_) => {
                let whole = path_up(node, byte);
                let child = if has_leaf(n.left, byte) {
                    n.left
                } else {
                    n.right
                };
                let below = path_up(child, byte);
                let turn = whole.last();
                assert(whole == below.push(turn));
                assert(code[0] == turn);
                assert(bit_matches(data, pos, code, 0));
                let next = (pos + 1) as nat;
                let tail = below.reverse();
                assert(tail =~= code.skip(1));
                lemma_bits_match_tail(data, pos, code);
                lemma_walk_follows_path(child, data, next, byte, tail);
            },
        },
    }
}

/// Where the bits from `pos` on are the code of `byte`, one symbol is read:
/// `byte`, and the position moves behind its code.
pub proof fn lemma_symbol_read(tree: Option<Box<HuffmanNode>>, data: Seq<u8>, pos: nat, byte: u8)
    requires
        has_leaf(tree, byte),
        bits_match(data, pos, symbol_code(tree, byte)),
    ensures
        symbol_read(zeroed(tree), data, pos) == Ok::<(u8, nat), Fault>(
            (byte, pos + symbol_code(tree, byte).len()),
        ),
        symbol_code(tree, byte).len() > 0,
{
    lemma_zeroed_keeps_paths(tree, byte);
    lemma_path_turns(tree, byte);
    let code = symbol_code(tree, byte);
    if is_lone_leaf(tree) {
        assert(code[0] == 0);
        assert(bit_matches(data, pos, code, 0));
    } else {
        lemma_walk_follows_path(zeroed(tree), data, pos, byte, code);
    }
}

/// A code holds only the bits 0 and 1.
pub proof fn lemma_code_bits(tree: Option<Box<HuffmanNode>>, byte: u8)
    ensures
        forall|j: int| 0 <= j < symbol_code(tree, byte).len() ==> symbol_code(tree, byte)[j] <= 1,
{
    lemma_path_turns(tree, byte);
    if !is_lone_leaf(tree) {
        let up = path_up(tree, byte);
        assert forall|j: int| 0 <= j < up.reverse().len() implies up.reverse()[j] <= 1 by {
            assert(up.reverse()[j] == up[up.len() - 1 - j]);
        }
    }
}

/// The packed bytes hold a code at the place where it was packed.
proof fn lemma_packed_code(front: Seq<u8>, code: Seq<u8>, behind: Seq<u8>, j: int)
    requires
        0 <= j < code.len(),
        code[j] <= 1,
    ensures
        front.len() + j < 8 * packed(front + code + behind).len(),
        bit_at(packed(front + code + behind), front.len() + j) == code[j],
{
    let bits = front + code + behind;
    assert(bits[front.len() + j] == code[j]);
    assert(bits.len() >= front.len() + code.len());
    lemma_packed_bits(bits, front.len() + j);
}

/// Reading as many symbols as `s` has bytes, from the packed codes of `s`
/// behind the bits `front`, gives `s`.
pub proof fn lemma_symbols_read(tree: Option<Box<HuffmanNode>>, front: Seq<u8>, s: Seq<u8>)
    requires
        forall|i: int| 0 <= i < s.len() ==> has_leaf(tree, #[trigger] s[i]),
    ensures
        symbols_read(
            zeroed(tree),
            packed(front + stream_of(code_table(tree), s)),
            front.len(),
            s.len(),
        ) == Ok::<Seq<u8>, Fault>(s),
        stream_of(code_table(tree), s).len() >= s.len(),
    decreases s.len(),
{
    let table = code_table(tree);
    let bits = front + stream_of(table, s);
    let data = packed(bits);
    if s.len() == 0 {
        assert(s =~= Seq::<u8>::empty());
    } else {
        let byte = s[0];
        let rest = s.skip(1);
        let code = symbol_code(tree, byte);
        let behind = stream_of(table, rest);
        let pos = front.len();
        assert(table[byte as int] == code);
        assert(stream_of(table, s) == code + behind);
        assert(bits =~= front + code + behind);
        assert(has_leaf(tree, s[0]));
        assert(bits_match(data, pos, code)) by {
            lemma_code_bits(tree, byte);
            assert forall|j: int| 0 <= j < code.len() implies #[trigger] bit_matches(
                data,
                pos,
                code,
                j,
            ) by {
                lemma_packed_code(front, code, behind, j);
            }
        }
        lemma_symbol_read(tree, data, pos, byte);
        assert forall|i: int| 0 <= i < rest.len() implies has_leaf(tree, #[trigger] rest[i]) by {
            assert(rest[i] == s[i + 1]);
        }
        assert((front + code) + behind =~= bits);
        lemma_symbols_read(tree, front + code, rest);
        let next = (pos + code.len()) as nat;
        assert(symbol_read(zeroed(tree), data, pos) == Ok::<(u8, nat), Fault>((byte, next)));
        assert(symbols_read(zeroed(tree), data, next, rest.len()) == Ok::<Seq<u8>, Fault>(rest));
        assert(seq![byte] + rest =~= s);
        assert(symbols_read(zeroed(tree), data, pos, s.len()) == led_by(
            seq![byte],
            symbols_read(zeroed(tree), data, next, (s.len() - 1) as nat),
        ));
    }
}

/// A node as a tree.
pub open spec fn tree_of(n: HuffmanNode) -> Option<Box<HuffmanNode>> {
    Some(Box::new(n))
}

/// Whether all ids of internal nodes of the tree are below `id`.
pub open spec fn ids_below(node: Option<Box<HuffmanNode>>, id: nat) -> bool {
    forall|k: u8| #[trigger] labels(node).contains(Node::Internal(k)) ==> (k as nat) < id
}

/// Whether the trees of a forest can be merged into a tree with different
/// labels: no tree stands twice, no label stands twice in a tree or in two
/// trees, and the ids below `id` are the only ones in use.
pub open spec fn sound_forest(f: Seq<HuffmanNode>, id: nat) -> bool {
    &&& f.no_duplicates()
    &&& forall|x: HuffmanNode| #[trigger]
        f.contains(x) ==> distinct_tree(tree_of(x)) && ids_below(tree_of(x), id)
    &&& forall|x: HuffmanNode, y: HuffmanNode|
        #![trigger f.contains(x), f.contains(y)]
        f.contains(x) && f.contains(y) && x != y ==> labels(tree_of(x)).disjoint(
            labels(tree_of(y)),
        )
}

/// Whether some tree of the forest has a leaf for `byte`.
pub open spec fn covers(f: Seq<HuffmanNode>, byte: u8) -> bool {
    exists|x: HuffmanNode| #[trigger] f.contains(x) && has_leaf(tree_of(x), byte)
}

/// A sequence that holds the entries of another in another order has no
/// entry twice if the other has none, and has the same entries. `phi` says
/// where each entry comes from, `psi` where it goes.
pub proof fn lemma_rearranged<T>(
    f: Seq<T>,
    g: Seq<T>,
    phi: spec_fn(int) -> int,
    psi: spec_fn(int) -> int,
)
    requires
        f.no_duplicates(),
        forall|p: int| 0 <= p < g.len() ==> 0 <= #[trigger] phi(p) < f.len() && g[p] == f[phi(p)],
        forall|p: int, q: int|
            0 <= p < g.len() && 0 <= q < g.len() && p != q ==> #[trigger] phi(p) != #[trigger] phi(
                q,
            ),
        forall|q: int| 0 <= q < f.len() ==> 0 <= #[trigger] psi(q) < g.len() && g[psi(q)] == f[q],
    ensures
        g.no_duplicates(),
        forall|x: T| g.contains(x) <==> f.contains(x),
{
    assert forall|p: int, q: int| 0 <= p < g.len() && 0 <= q < g.len() && p != q implies g[p]
        != g[q] by {
        assert(g[p] == f[phi(p)] && g[q] == f[phi(q)]);
    }
    assert forall|x: T| g.contains(x) <==> f.contains(x) by {
        if g.contains(x) {
            let p = choose|p: int| 0 <= p < g.len() && g[p] == x;
            assert(f[phi(p)] == x);
        }
        if f.contains(x) {
            let q = choose|q: int| 0 <= q < f.len() && f[q] == x;
            assert(g[psi(q)] == x);
        }
    }
}

/// Sorting moves the nodes and neither loses nor doubles one.
pub proof fn lemma_sorted_onto_members(done: Seq<HuffmanNode>, rest: Seq<HuffmanNode>)
    requires
        (done + rest).no_duplicates(),
    ensures
        sorted_onto(done, rest).no_duplicates(),
        forall|x: HuffmanNode| sorted_onto(done, rest).contains(x) <==> (done + rest).contains(x),
    decreases rest.len(),
{
    if rest.len() == 0 {
        assert(done + rest =~= done);
    } else {
        let x = rest[0];
        lemma_insert_position_bounded(done, x);
        let at = insert_position(done, x) as int;
        let done2 = done.insert(at, x);
        let rest2 = rest.skip(1);
        let f = done + rest;
        let g = done2 + rest2;
        let n = done.len() as int;
        let phi = |p: int|
            if p < at {
                p
            } else if p == at {
                n
            } else if p <= n {
                p - 1
            } else {
                p
            };
        let psi = |q: int|
            if q < at {
                q
            } else if q < n {
                q + 1
            } else if q == n {
                at
            } else {
                q
            };
        assert(g.len() == f.len());
        assert forall|p: int| 0 <= p < g.len() implies 0 <= #[trigger] phi(p) < f.len() && g[p]
            == f[phi(p)] by {}
        assert forall|q: int| 0 <= q < f.len() implies 0 <= #[trigger] psi(q) < g.len() && g[psi(
            q,
        )] == f[q] by {}
        lemma_rearranged(f, g, phi, psi);
        lemma_sorted_onto_members(done2, rest2);
    }
}

/// Merging the two nodes picked first keeps a forest sound, and keeps the
/// leaves that it has.
pub proof fn lemma_merge_step_sound(f: Seq<HuffmanNode>, id: nat)
    requires
        sound_forest(f, id),
        f.len() >= 2,
        id <= 255,
    ensures
        sound_forest(merge_step(f, id as u8), id + 1),
        merge_step(f, id as u8).len() == f.len() - 1,
        forall|byte: u8| covers(f, byte) ==> covers(merge_step(f, id as u8), byte),
{
    let q = stable_sorted(f);
    assert(Seq::<HuffmanNode>::empty() + f =~= f);
    lemma_sorted_onto_members(Seq::empty(), f);
    lemma_sorted_onto_len(Seq::empty(), f);
    let a = q[0];
    let b = q[1];
    let m = merged(a, b, id as u8);
    let g = merge_step(f, id as u8);
    let kept = q.len() - 2;
    assert(g.len() == kept + 1);
    assert(g[kept] == m);
    assert forall|p: int| 0 <= p < kept implies g[p] == q[q.len() - 1 - p] by {}
    assert(q.contains(a) && q.contains(b) && a != b);
    assert(f.contains(a) && f.contains(b));
    let label = Node::Internal(id as u8);
    assert(labels(tree_of(m)) =~= labels(tree_of(a)).union(labels(tree_of(b))).insert(label));
    assert(!labels(tree_of(a)).contains(label) && !labels(tree_of(b)).contains(label));
    assert(distinct_tree(tree_of(m)));
    assert(ids_below(tree_of(m), id + 1)) by {
        assert forall|k: u8| #[trigger]
            labels(tree_of(m)).contains(Node::Internal(k)) implies (k as nat) < id + 1 by {
            if labels(tree_of(a)).contains(Node::Internal(k)) {
            } else if labels(tree_of(b)).contains(Node::Internal(k)) {
            }
        }
    }
    // every node of the new forest is the parent or a node that was kept
    assert forall|x: HuffmanNode| #[trigger] g.contains(x) implies x == m || (f.contains(x) && x
        != a && x != b) by {
        let p = choose|p: int| 0 <= p < g.len() && g[p] == x;
        if p < kept {
            assert(x == q[q.len() - 1 - p]);
            assert(q.contains(x));
        }
    }
    assert forall|x: HuffmanNode| f.contains(x) && x != a && x != b implies g.contains(x) by {
        assert(q.contains(x));
        let i = choose|i: int| 0 <= i < q.len() && q[i] == x;
        assert(i >= 2);
        assert(g[q.len() - 1 - i] == x);
    }
    assert forall|x: HuffmanNode| f.contains(x) implies x != m by {
        assert(labels(tree_of(m)).contains(label));
        assert(!labels(tree_of(x)).contains(label));
    }
    assert(g.no_duplicates()) by {
        assert forall|p: int, r: int| 0 <= p < g.len() && 0 <= r < g.len() && p != r implies g[p]
            != g[r] by {
            if p < kept {
                assert(q.contains(g[p]));
            }
            if r < kept {
                assert(q.contains(g[r]));
            }
        }
    }
    assert forall|x: HuffmanNode| #[trigger] g.contains(x) implies distinct_tree(tree_of(x))
        && ids_below(tree_of(x), id + 1) by {
        if x != m {
            assert(f.contains(x));
            assert(ids_below(tree_of(x), id));
        }
    }
    assert forall|x: HuffmanNode, y: HuffmanNode|
        #![trigger g.contains(x), g.contains(y)]
        g.contains(x) && g.contains(y) && x != y implies labels(tree_of(x)).disjoint(
        labels(tree_of(y)),
    ) by {
        if x == m {
            assert(f.contains(y) && y != a && y != b);
            assert(labels(tree_of(a)).disjoint(labels(tree_of(y))));
            assert(labels(tree_of(b)).disjoint(labels(tree_of(y))));
            assert(!labels(tree_of(y)).contains(label));
        } else if y == m {
            assert(f.contains(x) && x != a && x != b);
            assert(labels(tree_of(a)).disjoint(labels(tree_of(x))));
            assert(labels(tree_of(b)).disjoint(labels(tree_of(x))));
            assert(!labels(tree_of(x)).contains(label));
        } else {
            assert(f.contains(x) && f.contains(y));
        }
    }
    assert forall|byte: u8| covers(f, byte) implies covers(g, byte) by {
        let x = choose|x: HuffmanNode| #[trigger] f.contains(x) && has_leaf(tree_of(x), byte);
        if x == a || x == b {
            assert(has_leaf(tree_of(m), byte));
            assert(g.contains(m));
        } else {
            assert(g.contains(x));
        }
    }
}

/// Merging a sound forest down leaves a tree with different labels that
/// has all the leaves of the forest.
pub proof fn lemma_merged_down_sound(f: Seq<HuffmanNode>, id: nat)
    requires
        sound_forest(f, id),
        f.len() + id <= 256,
    ensures
        merged_down(f, id).len() <= 1,
        f.len() > 0 ==> merged_down(f, id).len() == 1,
        merged_down(f, id).len() == 1 ==> distinct_tree(tree_of(merged_down(f, id)[0])),
        forall|byte: u8|
            covers(f, byte) ==> merged_down(f, id).len() == 1 && has_leaf(
                tree_of(merged_down(f, id)[0]),
                byte,
            ),
    decreases f.len(),
{
    if f.len() < 2 {
        if f.len() == 1 {
            assert(f.contains(f[0]));
            assert forall|byte: u8| covers(f, byte) implies has_leaf(tree_of(f[0]), byte) by {
                let x = choose|x: HuffmanNode| #[trigger]
                    f.contains(x) && has_leaf(tree_of(x), byte);
                let i = choose|i: int| 0 <= i < f.len() && f[i] == x;
                assert(i == 0);
            }
        } else {
            assert forall|byte: u8| !covers(f, byte) by {
                if covers(f, byte) {
                    let x = choose|x: HuffmanNode| #[trigger]
                        f.contains(x) && has_leaf(tree_of(x), byte);
                    let i = choose|i: int| 0 <= i < f.len() && f[i] == x;
                }
            }
        }
    } else {
        lemma_merge_step_sound(f, id);
        lemma_merged_down_sound(merge_step(f, id as u8), id + 1);
    }
}

/// What the leaves of a histogram are: one leaf for each byte under
/// `limit` that occurs, and nothing else.
pub proof fn lemma_leaves_members(s: Seq<u8>, limit: nat)
    requires
        limit <= 256,
        s.len() <= usize::MAX,
    ensures
        forall|x: HuffmanNode| #[trigger]
            leaves_of(histogram(s), limit).contains(x) ==> x == leaf(
                node_value(x.byte),
                count_of(s, node_value(x.byte)) as usize,
            ) && (node_value(x.byte) as nat) < limit && count_of(s, node_value(x.byte)) > 0,
        forall|b: u8|
            (b as nat) < limit && count_of(s, b) > 0 ==> leaves_of(histogram(s), limit).contains(
                #[trigger] leaf(b, count_of(s, b) as usize),
            ),
        leaves_of(histogram(s), limit).no_duplicates(),
    decreases limit,
{
    let all = leaves_of(histogram(s), limit);
    if limit > 0 {
        let b = (limit - 1) as u8;
        let rest = leaves_of(histogram(s), (limit - 1) as nat);
        lemma_leaves_members(s, (limit - 1) as nat);
        lemma_count_of_bounded(s, b);
        assert(histogram(s)[limit - 1] == count_of(s, b));
        let new = leaf(b, count_of(s, b) as usize);
        if count_of(s, b) > 0 {
            assert(all == rest.push(new));
            assert(!rest.contains(new));
            assert forall|x: HuffmanNode| #[trigger] all.contains(x) implies x == leaf(
                node_value(x.byte),
                count_of(s, node_value(x.byte)) as usize,
            ) && (node_value(x.byte) as nat) < limit && count_of(s, node_value(x.byte)) > 0 by {
                let i = choose|i: int| 0 <= i < all.len() && all[i] == x;
                if i < rest.len() {
                    assert(rest[i] == x);
                    assert(rest.contains(x));
                }
            }
            assert forall|c: u8| (c as nat) < limit && count_of(s, c) > 0 implies all.contains(
                #[trigger] leaf(c, count_of(s, c) as usize),
            ) by {
                if c == b {
                    assert(all[rest.len() as int] == new);
                } else {
                    let l = leaf(c, count_of(s, c) as usize);
                    assert(rest.contains(l));
                    let i = choose|i: int| 0 <= i < rest.len() && rest[i] == l;
                    assert(all[i] == l);
                }
            }
            assert(all.no_duplicates()) by {
                assert forall|i: int, j: int|
                    0 <= i < all.len() && 0 <= j < all.len() && i != j implies all[i] != all[j] by {
                    if i < rest.len() {
                        assert(rest.contains(rest[i]));
                    }
                    if j < rest.len() {
                        assert(rest.contains(rest[j]));
                    }
                }
            }
        } else {
            assert(all == rest);
        }
    }
}

/// A byte that stands in a buffer has a count.
pub proof fn lemma_count_of_member(s: Seq<u8>, i: int)
    requires
        0 <= i < s.len(),
    ensures
        count_of(s, s[i]) > 0,
    decreases s.len(),
{
    if i < s.len() - 1 {
        lemma_count_of_member(s.drop_last(), i);
    }
}

/// A leaf as a tree: its label is its only label.
pub proof fn lemma_leaf_tree(byte: u8, frequency: usize)
    ensures
        labels(tree_of(leaf(byte, frequency))) == Set::<Node>::empty().insert(Node::Leaf(byte)),
        distinct_tree(tree_of(leaf(byte, frequency))),
        ids_below(tree_of(leaf(byte, frequency)), 0),
        has_leaf(tree_of(leaf(byte, frequency)), byte),
{
    let l = leaf(byte, frequency);
    assert(labels(l.left) =~= Set::<Node>::empty());
    assert(labels(l.right) =~= Set::<Node>::empty());
    assert(labels(tree_of(l)) =~= Set::<Node>::empty().insert(Node::Leaf(byte)));
    assert(distinct_tree(l.left) && distinct_tree(l.right));
}

/// The leaves of a buffer make a sound forest.
pub proof fn lemma_leaves_sound(s: Seq<u8>)
    requires
        s.len() <= usize::MAX,
    ensures
        sound_forest(leaves_of(histogram(s), 256), 0),
        leaves_of(histogram(s), 256).len() <= 256,
{
    let leaves = leaves_of(histogram(s), 256);
    lemma_leaves_members(s, 256);
    crate::encoders::huff_tree::lemma_leaves_weight(s, 256);
    assert(sound_forest(leaves, 0)) by {
        assert forall|x: HuffmanNode| #[trigger] leaves.contains(x) implies distinct_tree(
            tree_of(x),
        ) && ids_below(tree_of(x), 0) by {
            lemma_leaf_tree(node_value(x.byte), count_of(s, node_value(x.byte)) as usize);
        }
        assert forall|x: HuffmanNode, y: HuffmanNode|
            #![trigger leaves.contains(x), leaves.contains(y)]
            leaves.contains(x) && leaves.contains(y) && x != y implies labels(
            tree_of(x),
        ).disjoint(labels(tree_of(y))) by {
            lemma_leaf_tree(node_value(x.byte), count_of(s, node_value(x.byte)) as usize);
            lemma_leaf_tree(node_value(y.byte), count_of(s, node_value(y.byte)) as usize);
        }
    }
}

/// The code tree of a buffer has different labels at all its nodes, and a
/// leaf for every byte of the buffer.
pub proof fn lemma_huffman_tree_sound(s: Seq<u8>)
    requires
        0 < s.len() <= usize::MAX,
    ensures
        huffman_tree(s) is Some,
        distinct_tree(huffman_tree(s)),
        forall|i: int| 0 <= i < s.len() ==> has_leaf(huffman_tree(s), #[trigger] s[i]),
{
    let leaves = leaves_of(histogram(s), 256);
    lemma_leaves_members(s, 256);
    lemma_leaves_sound(s);
    lemma_merged_down_sound(leaves, 0);
    assert forall|i: int| 0 <= i < s.len() implies has_leaf(huffman_tree(s), #[trigger] s[i]) by {
        lemma_count_of_member(s, i);
        let l = leaf(s[i], count_of(s, s[i]) as usize);
        assert(leaves.contains(l));
        lemma_leaf_tree(s[i], count_of(s, s[i]) as usize);
        assert(covers(leaves, s[i]));
    }
    assert(covers(leaves, s[0])) by {
        lemma_count_of_member(s, 0);
        let l = leaf(s[0], count_of(s, s[0]) as usize);
        assert(leaves.contains(l));
        lemma_leaf_tree(s[0], count_of(s, s[0]) as usize);
    }
}

/// A tree with different labels lists no label twice.
pub proof fn lemma_distinct_pre_order(node: Option<Box<HuffmanNode>>)
    requires
        distinct_tree(node),
    ensures
        pre_order_of(node).no_duplicates(),
    decreases node,
{
    match node {
        None => {},
        Some(n) => {
            lemma_distinct_pre_order(n.left);
            lemma_distinct_pre_order(n.right);
            lemma_traversals_hold_labels(n.left);
            lemma_traversals_hold_labels(n.right);
            let pl = pre_order_of(n.left);
            let pr = pre_order_of(n.right);
            let pre = pre_order_of(node);
            assert forall|i: int, j: int| 0 <= i < pre.len() && 0 <= j < pre.len() && i
                != j implies pre[i] != pre[j] by {
                if 1 <= i < 1 + pl.len() {
                    assert(pl.contains(pl[i - 1]));
                }
                if 1 <= j < 1 + pl.len() {
                    assert(pl.contains(pl[j - 1]));
                }
                if i >= 1 + pl.len() {
                    assert(pr.contains(pr[i - 1 - pl.len()]));
                }
                if j >= 1 + pl.len() {
                    assert(pr.contains(pr[j - 1 - pl.len()]));
                }
            }
        },
    }
}

/// There are 512 labels, so no more than 512 different ones in a sequence.
pub proof fn lemma_distinct_nodes_bounded(nodes: Seq<Node>)
    requires
        nodes.no_duplicates(),
    ensures
        nodes.len() <= 512,
{
    let f = |n: Node|
        match n {
            Node::Leaf(b) => b as int,
            Node::Internal(id) => 256 + id as int,
        };
    assert(vstd::relations::injective(f));
    nodes.lemma_no_duplicates_injective(f);
    let m = nodes.map_values(f);
    m.unique_seq_to_set();
    lemma_int_range(0, 512);
    assert(m.to_set().subset_of(set_int_range(0, 512))) by {
        assert forall|x: int| m.to_set().contains(x) implies set_int_range(0, 512).contains(x) by {
            let i = choose|i: int| 0 <= i < m.len() && m[i] == x;
            assert(m[i] == f(nodes[i]));
        }
    }
    lemma_len_subset(m.to_set(), set_int_range(0, 512));
}

/// Decoding undoes encoding on every buffer.
pub proof fn lemma_huff_round_trip(s: Seq<u8>)
    requires
        s.len() <= usize::MAX,
    ensures
        huff_decoded(huff_encoded(s)) == Ok::<Seq<u8>, ParseError>(s),
{
    if s.len() > 0 {
        let tree = huffman_tree(s);
        lemma_huffman_tree_sound(s);
        let pre_nodes = pre_order_of(tree);
        let in_nodes = in_order_of(tree);
        lemma_traversals_hold_labels(tree);
        lemma_distinct_pre_order(tree);
        lemma_distinct_nodes_bounded(pre_nodes);
        let pre = node_bytes(pre_nodes);
        let ino = node_bytes(in_nodes);
        let tree_len = pre.len() as int;
        let stream = stream_of(code_table(tree), s);
        let data = packed(stream);
        let coded = huff_encoded(s);
        assert(coded == be64(tree_len as nat) + pre + ino + be64(s.len()) + data);
        lemma_be64_round_trip(tree_len as nat);
        lemma_be64_round_trip(s.len());
        assert(coded.subrange(0, 8) =~= be64(tree_len as nat));
        assert(coded.subrange(8, 8 + tree_len) =~= pre);
        assert(coded.subrange(8 + tree_len, 8 + 2 * tree_len) =~= ino);
        assert(coded.subrange(8 + 2 * tree_len, 16 + 2 * tree_len) =~= be64(s.len()));
        assert(coded.skip(16 + 2 * tree_len) =~= data);
        lemma_nodes_round_trip(pre_nodes);
        lemma_nodes_round_trip(in_nodes);
        lemma_tree_from_traversals(tree);
        assert(Seq::<u8>::empty() + stream =~= stream);
        lemma_symbols_read(tree, Seq::empty(), s);
        assert(s.len() <= 8 * data.len());
        assert(body_decoded(coded, tree_len) == Ok::<Seq<u8>, Fault>(s));
    }
}

/// Reading `n` symbols gives `n` bytes.
pub proof fn lemma_symbols_read_len(
    tree: Option<Box<HuffmanNode>>,
    data: Seq<u8>,
    pos: nat,
    n: nat,
)
    ensures
        symbols_read(tree, data, pos, n) matches Ok(bytes) ==> bytes.len() == n,
    decreases n,
{
    if n > 0 {
        if let Ok((byte, next)) = symbol_read(tree, data, pos) {
            lemma_symbols_read_len(tree, data, next, (n - 1) as nat);
        }
    }
}

/// A walk that ends at a leaf ends there whatever follows the buffer.
pub proof fn lemma_walk_ignores_tail(
    node: Option<Box<HuffmanNode>>,
    data: Seq<u8>,
    extra: Seq<u8>,
    pos: nat,
)
    requires
        walk(node, data, pos) is Ok,
    ensures
        walk(node, data + extra, pos) == walk(node, data, pos),
    decreases node,
{
    match node {
        None => {},
        Some(n) => match n.byte {
            Node::Leaf(_) => {},
            Node::Internal(_) => {
                assert((data + extra)[pos as int / 8] == data[pos as int / 8]);
                if bit_at(data, pos as int) == 0 {
                    lemma_walk_ignores_tail(n.left, data, extra, pos + 1);
                } else {
                    lemma_walk_ignores_tail(n.right, data, extra, pos + 1);
                }
            },
        },
    }
}

/// Symbols that can be read are read alike whatever follows the buffer.
pub proof fn lemma_symbols_ignore_tail(
    tree: Option<Box<HuffmanNode>>,
    data: Seq<u8>,
    extra: Seq<u8>,
    pos: nat,
    n: nat,
)
    requires
        symbols_read(tree, data, pos, n) is Ok,
    ensures
        symbols_read(tree, data + extra, pos, n) == symbols_read(tree, data, pos, n),
    decreases n,
{
    if n > 0 {
        if is_lone_leaf(tree) {
        } else {
            lemma_walk_ignores_tail(tree, data, extra, pos);
        }
        assert(symbol_read(tree, data + extra, pos) == symbol_read(tree, data, pos));
        if let Ok((byte, next)) = symbol_read(tree, data, pos) {
            lemma_symbols_ignore_tail(tree, data, extra, next, (n - 1) as nat);
        }
    }
}

/// The length of the buffer that a container declares.
pub open spec fn declared_length(container: Seq<u8>) -> nat {
    let tree_len = be_value(container.subrange(0, 8)) as int;
    be_value(container.subrange(8 + 2 * tree_len, 16 + 2 * tree_len))
}

/// The decoder gives as many bytes as the container declares, and does not
/// look at what follows the bits of the last of them: bytes behind a
/// container that can be decoded do not change what is decoded.
pub proof fn lemma_huff_length_honest(container: Seq<u8>, extra: Seq<u8>)
    requires
        container.len() > 0,
        huff_decoded(container) is Ok,
    ensures
        huff_decoded(container + extra) == huff_decoded(container),
        huff_decoded(container) matches Ok(bytes) && bytes.len() == declared_length(container),
{
    let longer = container + extra;
    let tree_len = be_value(container.subrange(0, 8)) as int;
    assert(longer.subrange(0, 8) =~= container.subrange(0, 8));
    assert(longer.subrange(8, 8 + tree_len) =~= container.subrange(8, 8 + tree_len));
    assert(longer.subrange(8 + tree_len, 8 + 2 * tree_len) =~= container.subrange(
        8 + tree_len,
        8 + 2 * tree_len,
    ));
    assert(longer.subrange(8 + 2 * tree_len, 16 + 2 * tree_len) =~= container.subrange(
        8 + 2 * tree_len,
        16 + 2 * tree_len,
    ));
    assert(longer.skip(16 + 2 * tree_len) =~= container.skip(16 + 2 * tree_len) + extra);
    let pre = nodes_parsed(container.subrange(8, 8 + tree_len)).unwrap();
    let ino = nodes_parsed(container.subrange(8 + tree_len, 8 + 2 * tree_len)).unwrap();
    let tree = tree_from(pre, ino).unwrap();
    let n = be_value(container.subrange(8 + 2 * tree_len, 16 + 2 * tree_len));
    let data = container.skip(16 + 2 * tree_len);
    lemma_symbols_ignore_tail(tree, data, extra, 0, n);
    lemma_symbols_read_len(tree, data, 0, n);
}

} // verus!
