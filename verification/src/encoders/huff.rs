//! The Huffman stage: the container with the code tree and the packed codes.

use super::bits::{
    be64, be_value, bit_at, pack_codes, packed, push_be64, read_be64, read_bit, stream_of,
    table_view,
};
use super::huff_helper::{
    build_tree, encode_byte, in_order, in_order_of, path_up, pre_order, pre_order_of, tree_from,
    HuffmanNode, Node,
};
use super::huff_tree::{
    histogram, huffman_tree, lemma_count_below_all, lemma_leaves_weight, make_leaves,
    merge_all, total_weight,
};
use crate::error::{
    led_by, lemma_led_by_nothing, lemma_led_by_twice, result_view, Fault, ParseError, Stage,
};
use crate::proofs::huff::{declared_length, lemma_huff_length_honest, lemma_huff_round_trip};
use crate::utils::byte_histogram;
use vstd::prelude::*;

verus! {

/// The first byte of a node's record: 1 for a leaf, 0 for an internal node.
pub open spec fn node_tag(node: Node) -> u8 {
    match node {
        Node::Leaf(_) => 1,
        Node::Internal(_) => 0,
    }
}

/// The second byte of a node's record: the leaf's byte, or the node's id.
pub open spec fn node_value(node: Node) -> u8 {
    match node {
        Node::Leaf(b) => b,
        Node::Internal(id) => id,
    }
}

/// The records of the nodes, two bytes each.
pub open spec fn node_bytes(nodes: Seq<Node>) -> Seq<u8> {
    Seq::new(
        2 * nodes.len(),
        |i: int|
            if i % 2 == 0 {
                node_tag(nodes[i / 2])
            } else {
                node_value(nodes[i / 2])
            },
    )
}

/// The node that a record stands for. The tag is 0 or 1.
pub open spec fn node_of(tag: u8, value: u8) -> Node {
    if tag == 0 {
        Node::Internal(value)
    } else {
        Node::Leaf(value)
    }
}

/// The nodes that the records of `s` stand for. Fails at the first record
/// with a tag other than 0 and 1, or at a record cut short.
pub open spec fn nodes_parsed(s: Seq<u8>) -> Result<Seq<Node>, Fault>
    decreases s.len(),
{
    if s.len() == 0 {
        Ok(Seq::empty())
    } else if s[0] > 1 {
        Err(Fault::BadNodeTag)
    } else if s.len() < 2 {
        Err(Fault::Truncated)
    } else {
        led_by(seq![node_of(s[0], s[1])], nodes_parsed(s.skip(2)))
    }
}

/// Whether the tree is a lone leaf.
pub open spec fn is_lone_leaf(tree: Option<Box<HuffmanNode>>) -> bool {
    match tree {
        Some(n) => n.byte is Leaf,
        None => false,
    }
}

/// The code of `byte`: the turns from the root to its leaf, 0 for left and 1
/// for right. Where the tree is a lone leaf, the code is a single 0.
pub open spec fn symbol_code(tree: Option<Box<HuffmanNode>>, byte: u8) -> Seq<u8> {
    if is_lone_leaf(tree) {
        seq![0u8]
    } else {
        path_up(tree, byte).reverse()
    }
}

/// The codes of all 256 bytes.
pub open spec fn code_table(tree: Option<Box<HuffmanNode>>) -> Seq<Seq<u8>> {
    Seq::new(256, |b: int| symbol_code(tree, b as u8))
}

/// The container of a buffer: the length of one traversal, the pre-order and
/// the in-order of the code tree, the length of the buffer, the packed
/// codes. The empty buffer has the empty container.
pub open spec fn huff_encoded(s: Seq<u8>) -> Seq<u8> {
    if s.len() == 0 {
        s
    } else {
        let tree = huffman_tree(s);
        let pre = node_bytes(pre_order_of(tree));
        let ino = node_bytes(in_order_of(tree));
        be64(pre.len()) + pre + ino + be64(s.len()) + packed(stream_of(code_table(tree), s))
    }
}

/// Follows the bits from `pos` on down the tree to a leaf: its byte and the
/// position behind the bits used.
pub open spec fn walk(node: Option<Box<HuffmanNode>>, data: Seq<u8>, pos: nat) -> Result<
    (u8, nat),
    Fault,
>
    decreases node,
{
    match node {
        None => Err(Fault::BadTree),
        Some(n) => match n.byte {
            Node::Leaf(b) => Ok((b, pos)),
            Node::Internal(_) => if pos >= 8 * data.len() {
                Err(Fault::Truncated)
            } else if bit_at(data, pos as int) == 0 {
                walk(n.left, data, pos + 1)
            } else {
                walk(n.right, data, pos + 1)
            },
        },
    }
}

/// Reads one symbol at `pos`. Under a lone leaf one bit is used up.
pub open spec fn symbol_read(tree: Option<Box<HuffmanNode>>, data: Seq<u8>, pos: nat) -> Result<
    (u8, nat),
    Fault,
> {
    if is_lone_leaf(tree) {
        if pos >= 8 * data.len() {
            Err(Fault::Truncated)
        } else {
            Ok((node_value(tree.unwrap().byte), pos + 1))
        }
    } else {
        walk(tree, data, pos)
    }
}

/// Reads `n` symbols from `pos` on.
pub open spec fn symbols_read(
    tree: Option<Box<HuffmanNode>>,
    data: Seq<u8>,
    pos: nat,
    n: nat,
) -> Result<Seq<u8>, Fault>
    decreases n,
{
    if n == 0 {
        Ok(Seq::empty())
    } else {
        match symbol_read(tree, data, pos) {
            Err(fault) => Err(fault),
            Ok((byte, next)) => led_by(seq![byte], symbols_read(tree, data, next, (n - 1) as nat)),
        }
    }
}

/// What the container holds behind its first eight bytes, which gave
/// `tree_len`.
pub open spec fn body_decoded(s: Seq<u8>, tree_len: int) -> Result<Seq<u8>, Fault> {
    if s.len() < 16 + 2 * tree_len {
        Err(Fault::Truncated)
    } else {
        match nodes_parsed(s.subrange(8, 8 + tree_len)) {
            Err(fault) => Err(fault),
            Ok(pre) => match nodes_parsed(s.subrange(8 + tree_len, 8 + 2 * tree_len)) {
                Err(fault) => Err(fault),
                Ok(ino) => match tree_from(pre, ino) {
                    None => Err(Fault::BadTraversal),
                    Some(tree) => {
                        let n = be_value(s.subrange(8 + 2 * tree_len, 16 + 2 * tree_len));
                        let data = s.skip(16 + 2 * tree_len);
                        if n > 8 * data.len() {
                            Err(Fault::Truncated)
                        } else {
                            symbols_read(tree, data, 0, n)
                        }
                    },
                },
            },
        }
    }
}

/// What decoding a container gives. The empty container holds the empty
/// buffer.
pub open spec fn huff_decoded(s: Seq<u8>) -> Result<Seq<u8>, ParseError> {
    if s.len() == 0 {
        Ok(s)
    } else if s.len() < 8 {
        Err(ParseError { stage: Stage::Huff, fault: Fault::Truncated })
    } else {
        crate::error::staged(Stage::Huff, body_decoded(s, be_value(s.subrange(0, 8)) as int))
    }
}

/// Writes the records of the nodes.
pub fn write_nodes(nodes: &Vec<Node>) -> (bytes: Vec<u8>)
    ensures
        bytes@ == node_bytes(nodes@),
{
    let mut bytes: Vec<u8> = Vec::new();
    let mut i: usize = 0;
    while i < nodes.len()
        invariant
            i <= nodes.len(),
            bytes@ == node_bytes(nodes@.take(i as int)),
        decreases nodes.len() - i,
    {
        match nodes[i] {
            Node::Leaf(b) => {
                bytes.push(1);
                bytes.push(b);
            },
            Node::Internal(id) => {
                bytes.push(0);
                bytes.push(id);
            },
        }
        assert(bytes@ =~= node_bytes(nodes@.take(i + 1)));
        i += 1;
    }
    assert(nodes@.take(nodes.len() as int) =~= nodes@);
    bytes
}

/// Reads the records between `lo` and `hi`.
pub fn parse_nodes(data: &Vec<u8>, lo: usize, hi: usize) -> (result: Result<Vec<Node>, ParseError>)
    requires
        lo <= hi <= data.len(),
    ensures
        match result {
            Ok(nodes) => nodes_parsed(data@.subrange(lo as int, hi as int)) == Ok::<
                Seq<Node>,
                Fault,
            >(nodes@),
            Err(e) => e.stage == Stage::Huff && nodes_parsed(data@.subrange(lo as int, hi as int))
                == Err::<Seq<Node>, Fault>(e.fault),
        },
{
    let ghost records = data@.subrange(lo as int, hi as int);
    let mut nodes: Vec<Node> = Vec::new();
    let mut at: usize = lo;
    proof {
        assert(records.skip(0) =~= records);
        assert(nodes@ + Seq::<Node>::empty() =~= nodes@);
        lemma_led_by_nothing(nodes_parsed(records));
    }
    while at < hi
        invariant
            lo <= at <= hi <= data.len(),
            records == data@.subrange(lo as int, hi as int),
            nodes_parsed(records) == led_by(nodes@, nodes_parsed(records.skip(at - lo))),
        decreases hi - at,
    {
        let ghost rest = records.skip(at - lo);
        let tag: u8 = data[at];
        assert(rest[0] == tag);
        if tag > 1 {
            return Err(ParseError { stage: Stage::Huff, fault: Fault::BadNodeTag });
        }
        if hi - at < 2 {
            return Err(ParseError { stage: Stage::Huff, fault: Fault::Truncated });
        }
        let value: u8 = data[at + 1];
        let node = if tag == 0 {
            Node::Internal(value)
        } else {
            Node::Leaf(value)
        };
        proof {
            assert(rest[1] == value);
            assert(rest.skip(2) =~= records.skip(at + 2 - lo));
            lemma_led_by_twice(nodes@, seq![node], nodes_parsed(rest.skip(2)));
            assert(nodes@ + seq![node] =~= nodes@.push(node));
        }
        nodes.push(node);
        at += 2;
    }
    proof {
        assert(records.skip(at - lo).len() == 0);
        assert(nodes@ + Seq::<Node>::empty() =~= nodes@);
    }
    Ok(nodes)
}

/// The bytes in the opposite order.
fn reversed_bytes(bytes: &Vec<u8>) -> (turned: Vec<u8>)
    ensures
        turned@ == bytes@.reverse(),
{
    let mut turned: Vec<u8> = Vec::new();
    let mut left: usize = bytes.len();
    while left > 0
        invariant
            left <= bytes.len(),
            turned.len() == bytes.len() - left,
            forall|i: int| 0 <= i < turned.len() ==> turned[i] == bytes[bytes.len() - 1 - i],
        decreases left,
    {
        left -= 1;
        turned.push(bytes[left]);
    }
    assert(turned@ =~= bytes@.reverse());
    turned
}

/// Computes the code of every byte.
pub fn make_codes(root: &Option<Box<HuffmanNode>>) -> (codes: Vec<Vec<u8>>)
    ensures
        codes.len() == 256,
        table_view(codes@) == code_table(*root),
{
    let lone = match root {
        Some(n) => match n.byte {
            Node::Leaf(_) => true,
            Node::Internal(_) => false,
        },
        None => false,
    };
    let mut codes: Vec<Vec<u8>> = Vec::new();
    let mut b: usize = 0;
    while b < 256
        invariant
            b <= 256,
            codes.len() == b,
            lone == is_lone_leaf(*root),
            forall|c: int| 0 <= c < b ==> codes[c]@ == symbol_code(*root, c as u8),
        decreases 256 - b,
    {
        let mut code: Vec<u8> = Vec::new();
        if lone {
            code.push(0);
            assert(code@ =~= seq![0u8]);
        } else {
            let mut path: Vec<u8> = Vec::new();
            let _found = encode_byte(root, b as u8, &mut path);
            assert(path@ =~= path_up(*root, b as u8));
            code = reversed_bytes(&path);
        }
        codes.push(code);
        b += 1;
    }
    assert(table_view(codes@) =~= code_table(*root));
    codes
}

/// Copies the bytes between `lo` and `hi`.
fn copy_range(data: &Vec<u8>, lo: usize, hi: usize) -> (part: Vec<u8>)
    requires
        lo <= hi <= data.len(),
    ensures
        part@ == data@.subrange(lo as int, hi as int),
{
    let mut part: Vec<u8> = Vec::new();
    let mut at: usize = lo;
    while at < hi
        invariant
            lo <= at <= hi <= data.len(),
            part@ == data@.subrange(lo as int, at as int),
        decreases hi - at,
    {
        part.push(data[at]);
        assert(part@ =~= data@.subrange(lo as int, at + 1));
        at += 1;
    }
    part
}

/// Follows the bits down the tree to a leaf. The position is byte `at`, bit
/// `used`.
fn walk_tree(node: &Option<Box<HuffmanNode>>, data: &Vec<u8>, at: usize, used: u8) -> (result:
    Result<(u8, usize, u8), ParseError>)
    requires
        used < 8,
        at <= data.len(),
        at == data.len() ==> used == 0,
    ensures
        match result {
            Ok((byte, at2, used2)) => {
                &&& walk(*node, data@, (8 * at + used) as nat) == Ok::<(u8, nat), Fault>(
                    (byte, (8 * at2 + used2) as nat),
                )
                &&& used2 < 8
                &&& at2 <= data.len()
                &&& at2 == data.len() ==> used2 == 0
            },
            Err(e) => e.stage == Stage::Huff && walk(*node, data@, (8 * at + used) as nat) == Err::<
                (u8, nat),
                Fault,
            >(e.fault),
        },
    decreases *node,
{
    match node {
        None => Err(ParseError { stage: Stage::Huff, fault: Fault::BadTree }),
        Some(n) => match n.byte {
            Node::Leaf(b) => Ok((b, at, used)),
            Node::Internal(_) => {
                if at >= data.len() {
                    return Err(ParseError { stage: Stage::Huff, fault: Fault::Truncated });
                }
                let bit = read_bit(data, at, used);
                let (at2, used2) = if used == 7 {
                    (at + 1, 0u8)
                } else {
                    (at, used + 1)
                };
                if bit == 0 {
                    walk_tree(&n.left, data, at2, used2)
                } else {
                    walk_tree(&n.right, data, at2, used2)
                }
            },
        },
    }
}

/// The Huffman stage.
pub struct Huff;

impl Huff {
    /// Huffman-codes a buffer into its container, from which `decode` brings
    /// the buffer back.
    pub fn encode(input: Vec<u8>) -> (output: Vec<u8>)
        ensures
            output@ == huff_encoded(input@),
            huff_decoded(output@) == Ok::<Seq<u8>, ParseError>(input@),
    {
        let length: usize = input.len();
        proof {
            lemma_huff_round_trip(input@);
        }
        if length == 0 {
            return input;
        }
        let counts = byte_histogram(&input);
        proof {
            assert(counts@ =~= histogram(input@)) by {
                assert forall|b: int| 0 <= b < 256 implies counts@[b] == histogram(input@)[b] by {
                    assert(counts[(b as u8) as int] == crate::utils::count_of(input@, b as u8));
                }
            }
            lemma_leaves_weight(input@, 256);
            lemma_count_below_all(input@);
        }
        let leaves = make_leaves(&counts);
        assert(leaves.len() > 0) by {
            if leaves.len() == 0 {
                assert(total_weight(leaves@) == 0);
            }
        }
        let mut forest = merge_all(leaves);
        let top = forest.pop().unwrap();
        let root: Option<Box<HuffmanNode>> = Some(Box::new(top));
        assert(root == huffman_tree(input@));

        let mut preorder: Vec<Node> = Vec::new();
        pre_order(&root, &mut preorder);
        let mut inorder: Vec<Node> = Vec::new();
        in_order(&root, &mut inorder);
        assert(preorder@ =~= pre_order_of(root));
        assert(inorder@ =~= in_order_of(root));
        let mut prebytes = write_nodes(&preorder);
        let mut inbytes = write_nodes(&inorder);

        let mut file_contents: Vec<u8> = Vec::new();
        push_be64(&mut file_contents, prebytes.len() as u64);
        file_contents.append(&mut prebytes);
        file_contents.append(&mut inbytes);
        push_be64(&mut file_contents, input.len() as u64);

        let codes = make_codes(&root);
        let mut output_data = pack_codes(&input, &codes);
        file_contents.append(&mut output_data);
        assert(file_contents@ =~= huff_encoded(input@));
        file_contents
    }

    /// Reads `n` symbols from the start of `data`.
    fn decode_symbols(root: &Option<Box<HuffmanNode>>, data: &Vec<u8>, n: u64) -> (result: Result<
        Vec<u8>,
        ParseError,
    >)
        ensures
            match result {
                Ok(bytes) => symbols_read(*root, data@, 0, n as nat) == Ok::<Seq<u8>, Fault>(
                    bytes@,
                ),
                Err(e) => e.stage == Stage::Huff && symbols_read(*root, data@, 0, n as nat) == Err::<
                    Seq<u8>,
                    Fault,
                >(e.fault),
            },
    {
        let mut output: Vec<u8> = Vec::new();
        let mut at: usize = 0;
        let mut used: u8 = 0;
        let mut produced: u64 = 0;
        let lone: Option<u8> = match root {
            Some(node) => match node.byte {
                Node::Leaf(b) => Some(b),
                Node::Internal(_) => None,
            },
            None => None,
        };
        proof {
            lemma_led_by_nothing(symbols_read(*root, data@, 0, n as nat));
        }
        while produced < n
            invariant
                produced <= n,
                used < 8,
                at <= data.len(),
                at == data.len() ==> used == 0,
                lone is Some <==> is_lone_leaf(*root),
                lone is Some ==> lone.unwrap() == node_value(root.unwrap().byte),
                symbols_read(*root, data@, 0, n as nat) == led_by(
                    output@,
                    symbols_read(*root, data@, (8 * at + used) as nat, (n - produced) as nat),
                ),
            decreases n - produced,
        {
            let ghost pos = (8 * at + used) as nat;
            let ghost before = output@;
            let (byte, at2, used2) = match lone {
                Some(b) => {
                    if at >= data.len() {
                        return Err(ParseError { stage: Stage::Huff, fault: Fault::Truncated });
                    }
                    if used == 7 {
                        (b, at + 1, 0u8)
                    } else {
                        (b, at, used + 1)
                    }
                },
                None => match walk_tree(root, data, at, used) {
                    Ok(found) => found,
                    Err(e) => {
                        return Err(e);
                    },
                },
            };
            proof {
                let next = (8 * at2 + used2) as nat;
                assert(symbol_read(*root, data@, pos) == Ok::<(u8, nat), Fault>((byte, next)));
                lemma_led_by_twice(
                    before,
                    seq![byte],
                    symbols_read(*root, data@, next, (n - produced - 1) as nat),
                );
                assert(before + seq![byte] =~= before.push(byte));
            }
            output.push(byte);
            at = at2;
            used = used2;
            produced += 1;
        }
        proof {
            assert(output@ + Seq::<u8>::empty() =~= output@);
        }
        Ok(output)
    }

    /// Undoes `encode`: reads the tree and the length, then exactly that many
    /// symbols. Bits behind the last symbol are not looked at.
    pub fn decode(input: Vec<u8>) -> (result: Result<Vec<u8>, ParseError>)
        ensures
            result_view(result) == huff_decoded(input@),
            input.len() > 0 ==> (result matches Ok(bytes) ==> bytes.len() == declared_length(
                input@,
            )),
    {
        proof {
            if input.len() > 0 && huff_decoded(input@) is Ok {
                lemma_huff_length_honest(input@, Seq::empty());
            }
        }
        if input.len() == 0 {
            return Ok(input);
        }
        let truncated = ParseError { stage: Stage::Huff, fault: Fault::Truncated };
        if input.len() < 8 {
            return Err(truncated);
        }
        let tree_len: u64 = read_be64(&input, 0);
        let room: usize = input.len() - 8;
        if room < 8 || tree_len > ((room - 8) / 2) as u64 {
            return Err(truncated);
        }
        let tree_len: usize = tree_len as usize;
        let preorder = match parse_nodes(&input, 8, 8 + tree_len) {
            Ok(nodes) => nodes,
            Err(e) => {
                return Err(e);
            },
        };
        let inorder = match parse_nodes(&input, 8 + tree_len, 8 + 2 * tree_len) {
            Ok(nodes) => nodes,
            Err(e) => {
                return Err(e);
            },
        };
        let root = match build_tree(preorder.as_slice(), inorder.as_slice()) {
            Ok(tree) => tree,
            Err(e) => {
                return Err(e);
            },
        };
        let file_len: u64 = read_be64(&input, 8 + 2 * tree_len);
        let data = copy_range(&input, 16 + 2 * tree_len, input.len());
        assert(data@ =~= input@.skip(16 + 2 * tree_len));
        if file_len as u128 > 8 * (data.len() as u128) {
            return Err(truncated);
        }
        Self::decode_symbols(&root, &data, file_len)
    }
}

} // verus!
