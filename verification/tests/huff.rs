use pkz::encoders::bits::{pack_codes, place, push_be64, read_be64, read_bit};
use pkz::encoders::huff::{make_codes, parse_nodes, write_nodes, Huff};
use pkz::encoders::huff_helper::{
    build_tree, encode_byte, in_order, pre_order, HuffmanNode, Node,
};
use pkz::encoders::huff_tree::{make_leaves, merge_all, sort_nodes};
use pkz::error::{Fault, ParseError, Stage};
use pkz::utils::byte_histogram;

fn huff_error(fault: Fault) -> ParseError {
    ParseError { stage: Stage::Huff, fault }
}

fn leaf(byte: u8, frequency: usize) -> HuffmanNode {
    HuffmanNode { frequency, byte: Node::Leaf(byte), left: None, right: None }
}

fn internal(id: u8, left: HuffmanNode, right: HuffmanNode) -> HuffmanNode {
    HuffmanNode {
        frequency: left.frequency + right.frequency,
        byte: Node::Internal(id),
        left: Some(Box::new(left)),
        right: Some(Box::new(right)),
    }
}

fn sample_tree() -> Option<Box<HuffmanNode>> {
    // ((c, d), (a, b)) with ids 1, 0, 2
    let low = internal(0, leaf(b'c', 1), leaf(b'd', 1));
    let high = internal(1, leaf(b'a', 2), leaf(b'b', 3));
    Some(Box::new(internal(2, low, high)))
}

#[test]
fn test_map() {
    let p = vec![3, 9, 20, 15, 7];
    let i = vec![9, 3, 15, 20, 7];
    let preorder: Vec<Node> = p.iter().map(|&id| Node::Internal(id)).collect();
    let inorder: Vec<Node> = i.iter().map(|&id| Node::Internal(id)).collect();
    let root = build_tree(&preorder, &inorder).unwrap();
    let mut pre_mapped = Vec::new();
    pre_order(&root, &mut pre_mapped);
    let mut in_mapped = Vec::new();
    in_order(&root, &mut in_mapped);
    println!("Pre = {:?}\nIn = {:?}", pre_mapped, in_mapped);
    let top = root.unwrap();
    assert!(
        pre_mapped == preorder
            && in_mapped == inorder
            && top.byte == Node::Internal(3)
            && top.left.as_ref().unwrap().byte == Node::Internal(9)
            && top.right.as_ref().unwrap().byte == Node::Internal(20)
            && top.right.as_ref().unwrap().left.as_ref().unwrap().byte == Node::Internal(15)
            && top.right.as_ref().unwrap().right.as_ref().unwrap().byte == Node::Internal(7)
    );
}

#[test]
fn traversals_of_a_tree() {
    let root = sample_tree();
    let mut pre = Vec::new();
    pre_order(&root, &mut pre);
    let mut ino = Vec::new();
    in_order(&root, &mut ino);
    assert_eq!(
        pre,
        vec![
            Node::Internal(2),
            Node::Internal(0),
            Node::Leaf(b'c'),
            Node::Leaf(b'd'),
            Node::Internal(1),
            Node::Leaf(b'a'),
            Node::Leaf(b'b')
        ]
    );
    assert_eq!(
        ino,
        vec![
            Node::Leaf(b'c'),
            Node::Internal(0),
            Node::Leaf(b'd'),
            Node::Internal(2),
            Node::Leaf(b'a'),
            Node::Internal(1),
            Node::Leaf(b'b')
        ]
    );
    let mut kept = vec![Node::Leaf(1)];
    pre_order(&None, &mut kept);
    in_order(&None, &mut kept);
    assert_eq!(kept, vec![Node::Leaf(1)]);
}

#[test]
fn build_tree_inverts_the_traversals() {
    let root = sample_tree();
    let mut pre = Vec::new();
    pre_order(&root, &mut pre);
    let mut ino = Vec::new();
    in_order(&root, &mut ino);
    let rebuilt = build_tree(&pre, &ino).unwrap();
    let mut pre2 = Vec::new();
    pre_order(&rebuilt, &mut pre2);
    let mut ino2 = Vec::new();
    in_order(&rebuilt, &mut ino2);
    assert_eq!(pre, pre2);
    assert_eq!(ino, ino2);
    assert_eq!(rebuilt.as_ref().unwrap().frequency, 0);
    assert_eq!(rebuilt.as_ref().unwrap().left.as_ref().unwrap().byte, Node::Internal(0));
}

#[test]
fn build_tree_of_nothing_is_empty() {
    assert_eq!(build_tree(&[], &[]), Ok(None));
    assert_eq!(build_tree(&[Node::Leaf(1)], &[]), Ok(None));
    assert_eq!(build_tree(&[], &[Node::Leaf(1)]), Ok(None));
}

#[test]
fn build_tree_rejects_a_root_missing_from_the_in_order() {
    let bad = huff_error(Fault::BadTraversal);
    assert_eq!(build_tree(&[Node::Leaf(1)], &[Node::Leaf(2)]), Err(bad));
    assert_eq!(
        build_tree(
            &[Node::Internal(0), Node::Leaf(1), Node::Leaf(2)],
            &[Node::Leaf(1), Node::Internal(0), Node::Leaf(3)]
        ),
        Err(bad)
    );
}

#[test]
fn build_tree_rejects_a_short_pre_order() {
    let bad = huff_error(Fault::BadTraversal);
    assert_eq!(
        build_tree(&[Node::Internal(0)], &[Node::Leaf(1), Node::Leaf(2), Node::Internal(0)]),
        Err(bad)
    );
}

#[test]
fn encode_byte_traces_the_path_backwards() {
    let root = sample_tree();
    let mut path = Vec::new();
    assert!(encode_byte(&root, b'a', &mut path));
    assert_eq!(path, vec![0, 1]);
    let mut path = vec![9];
    assert!(encode_byte(&root, b'd', &mut path));
    assert_eq!(path, vec![9, 1, 0]);
    let mut path = Vec::new();
    assert!(encode_byte(&root, b'b', &mut path));
    assert_eq!(path, vec![1, 1]);
    let mut path = Vec::new();
    assert!(!encode_byte(&root, b'z', &mut path));
    assert!(path.is_empty());
    assert!(!encode_byte(&None, b'a', &mut path));
}

#[test]
fn encode_byte_on_a_lone_leaf() {
    let root = Some(Box::new(leaf(b'q', 4)));
    let mut path = Vec::new();
    assert!(encode_byte(&root, b'q', &mut path));
    assert!(path.is_empty());
    assert!(!encode_byte(&root, b'r', &mut path));
}

#[test]
fn nodes_are_ordered_by_frequency_kind_and_byte() {
    let a = leaf(b'a', 2);
    let b = leaf(b'b', 2);
    let c = leaf(b'c', 1);
    let i = internal(0, leaf(b'x', 1), leaf(b'y', 1));
    let j = internal(1, leaf(b'v', 1), leaf(b'w', 1));
    assert!(c.lighter_than(&a));
    assert!(!a.lighter_than(&c));
    assert!(a.lighter_than(&b));
    assert!(!b.lighter_than(&a));
    assert!(!a.lighter_than(&a));
    assert!(i.lighter_than(&a));
    assert!(!a.lighter_than(&i));
    assert!(!i.lighter_than(&j));
    assert!(!j.lighter_than(&i));
    // `<` is the same order
    assert!(c < a && a < b && i < a);
    assert!(!(a < c) && !(b < a) && !(a < i) && !(i < j) && !(j < i));
    assert!(a > c && a >= a && i <= j && j <= i);
}

#[test]
fn leaves_skip_bytes_that_do_not_occur() {
    let counts = byte_histogram(&b"banana".to_vec());
    let leaves = make_leaves(&counts);
    assert_eq!(leaves, vec![leaf(b'a', 3), leaf(b'b', 1), leaf(b'n', 2)]);
}

#[test]
fn sort_keeps_unordered_nodes_in_place() {
    let i = internal(0, leaf(b'x', 1), leaf(b'y', 1));
    let j = internal(1, leaf(b'v', 1), leaf(b'w', 1));
    let sorted = sort_nodes(vec![leaf(b'b', 2), j, leaf(b'a', 2), i, leaf(b'z', 1)]);
    let labels: Vec<Node> = sorted.iter().map(|n| n.byte).collect();
    assert_eq!(
        labels,
        vec![
            Node::Leaf(b'z'),
            Node::Internal(1),
            Node::Internal(0),
            Node::Leaf(b'a'),
            Node::Leaf(b'b')
        ]
    );
}

#[test]
fn merging_puts_the_node_picked_first_on_the_left() {
    let counts = byte_histogram(&b"aab".to_vec());
    let forest = merge_all(make_leaves(&counts));
    assert_eq!(forest, vec![internal(0, leaf(b'b', 1), leaf(b'a', 2))]);
    assert!(merge_all(Vec::new()).is_empty());
    assert_eq!(merge_all(vec![leaf(b'a', 9)]), vec![leaf(b'a', 9)]);
}

#[test]
fn merged_tree_weighs_what_the_buffer_holds() {
    let input = b"this is an example of a huffman tree".to_vec();
    let counts = byte_histogram(&input);
    let mut forest = merge_all(make_leaves(&counts));
    let root = forest.pop().unwrap();
    assert!(forest.is_empty());
    assert_eq!(root.frequency, input.len());
    let mut stack = vec![&root];
    let mut leaves = 0;
    while let Some(node) = stack.pop() {
        match node.byte {
            Node::Leaf(b) => {
                assert_eq!(node.frequency, counts[b as usize]);
                assert!(node.left.is_none() && node.right.is_none());
                leaves += 1;
            }
            Node::Internal(_) => {
                let left = node.left.as_ref().unwrap();
                let right = node.right.as_ref().unwrap();
                assert!(left.frequency <= right.frequency);
                assert_eq!(node.frequency, left.frequency + right.frequency);
                stack.push(left);
                stack.push(right);
            }
        }
    }
    assert_eq!(leaves, counts.iter().filter(|&&c| c > 0).count());
}

#[test]
fn a_copy_of_a_tree_is_equal_to_it() {
    let root = sample_tree().unwrap();
    let copy = (*root).clone();
    assert_eq!(copy, *root);
    let mut pre = Vec::new();
    pre_order(&Some(Box::new(copy)), &mut pre);
    assert_eq!(pre.len(), 7);
}

#[test]
fn merging_four_equal_leaves() {
    let counts = byte_histogram(&b"abcd".to_vec());
    let mut forest = merge_all(make_leaves(&counts));
    let root = Some(Box::new(forest.pop().unwrap()));
    let mut pre = Vec::new();
    pre_order(&root, &mut pre);
    assert_eq!(
        pre,
        vec![
            Node::Internal(2),
            Node::Internal(0),
            Node::Leaf(b'a'),
            Node::Leaf(b'b'),
            Node::Internal(1),
            Node::Leaf(b'c'),
            Node::Leaf(b'd')
        ]
    );
    assert_eq!(root.unwrap().frequency, 4);
}

#[test]
fn node_records_are_two_bytes_each() {
    let nodes = vec![Node::Internal(7), Node::Leaf(b'x'), Node::Leaf(0)];
    let bytes = write_nodes(&nodes);
    assert_eq!(bytes, vec![0, 7, 1, b'x', 1, 0]);
    assert_eq!(parse_nodes(&bytes, 0, 6), Ok(nodes));
    assert_eq!(parse_nodes(&bytes, 2, 4), Ok(vec![Node::Leaf(b'x')]));
    assert_eq!(parse_nodes(&bytes, 3, 3), Ok(Vec::new()));
}

#[test]
fn node_records_with_bad_tags_are_rejected() {
    assert_eq!(parse_nodes(&vec![0, 7, 2, 1], 0, 4), Err(huff_error(Fault::BadNodeTag)));
    assert_eq!(parse_nodes(&vec![0, 7, 1], 0, 3), Err(huff_error(Fault::Truncated)));
    assert_eq!(parse_nodes(&vec![0, 7, 9], 0, 3), Err(huff_error(Fault::BadNodeTag)));
}

#[test]
fn codes_run_from_the_root_to_the_leaf() {
    let codes = make_codes(&sample_tree());
    assert_eq!(codes.len(), 256);
    assert_eq!(codes[b'a' as usize], vec![1, 0]);
    assert_eq!(codes[b'b' as usize], vec![1, 1]);
    assert_eq!(codes[b'c' as usize], vec![0, 0]);
    assert_eq!(codes[b'd' as usize], vec![0, 1]);
    assert!(codes[b'e' as usize].is_empty());
    let lone = make_codes(&Some(Box::new(leaf(b'q', 1))));
    assert_eq!(lone[b'q' as usize], vec![0]);
}

#[test]
fn bits_are_packed_from_the_top() {
    let codes = make_codes(&sample_tree());
    // a b c d a -> 10 11 00 01 10, padded with six zero bits
    assert_eq!(pack_codes(&b"abcda".to_vec(), &codes), vec![0b1011_0001, 0b1000_0000]);
    assert_eq!(pack_codes(&b"abcd".to_vec(), &codes), vec![0b1011_0001]);
    assert!(pack_codes(&Vec::new(), &codes).is_empty());
}

#[test]
fn bits_are_read_from_the_top() {
    let data = vec![0b1010_0001u8, 0xFF];
    let read: Vec<u8> = (0u8..8).map(|k| read_bit(&data, 0, k)).collect();
    assert_eq!(read, vec![1, 0, 1, 0, 0, 0, 0, 1]);
    assert_eq!(read_bit(&data, 1, 3), 1);
    assert_eq!(place(0), 128);
    assert_eq!(place(7), 1);
}

#[test]
fn lengths_are_eight_bytes_big_endian() {
    let mut out = vec![9u8];
    push_be64(&mut out, 0x0102_0304_0506_0708);
    assert_eq!(out, vec![9, 1, 2, 3, 4, 5, 6, 7, 8]);
    assert_eq!(read_be64(&out, 1), 0x0102_0304_0506_0708);
    let mut out = Vec::new();
    push_be64(&mut out, 6);
    assert_eq!(out, vec![0, 0, 0, 0, 0, 0, 0, 6]);
    let mut out = Vec::new();
    push_be64(&mut out, u64::MAX);
    assert_eq!(read_be64(&out, 0), u64::MAX);
}

#[test]
fn huff_container_layout() {
    let encoded = Huff::encode(b"aab".to_vec());
    let expected: Vec<u8> = vec![
        0, 0, 0, 0, 0, 0, 0, 6, // length of one traversal
        0, 0, 1, b'b', 1, b'a', // pre-order
        1, b'b', 0, 0, 1, b'a', // in-order
        0, 0, 0, 0, 0, 0, 0, 3, // length of the buffer
        0b1100_0000, // a = 1, a = 1, b = 0
    ];
    assert_eq!(encoded, expected);
    assert_eq!(Huff::decode(encoded), Ok(b"aab".to_vec()));
}

#[test]
fn huff_empty_input() {
    assert_eq!(Huff::encode(Vec::new()), Vec::<u8>::new());
    assert_eq!(Huff::decode(Vec::new()), Ok(Vec::new()));
}

#[test]
fn huff_single_symbol_uses_one_bit_each() {
    let encoded = Huff::encode(vec![b'k'; 9]);
    let expected: Vec<u8> = vec![
        0, 0, 0, 0, 0, 0, 0, 2, 1, b'k', 1, b'k', 0, 0, 0, 0, 0, 0, 0, 9, 0, 0,
    ];
    assert_eq!(encoded, expected);
    assert_eq!(Huff::decode(encoded), Ok(vec![b'k'; 9]));
    for x in 0u8..=255 {
        assert_eq!(Huff::decode(Huff::encode(vec![x])), Ok(vec![x]));
    }
}

#[test]
fn huff_round_trips() {
    for input in [
        b"abracadabra".to_vec(),
        b"the quick brown fox jumps over the lazy dog".to_vec(),
        (0u8..=255).collect::<Vec<u8>>(),
        vec![0u8, 0, 0, 1, 1, 2, 255, 255, 255, 255],
    ] {
        assert_eq!(Huff::decode(Huff::encode(input.clone())), Ok(input));
    }
}

#[test]
fn huff_round_trips_a_long_monochrome_buffer() {
    let input = vec![b'm'; 1_000_000];
    let encoded = Huff::encode(input.clone());
    assert_eq!(encoded.len(), 8 + 2 + 2 + 8 + 125_000);
    assert_eq!(Huff::decode(encoded), Ok(input));
}

#[test]
fn huff_decoder_stops_at_the_declared_length() {
    let mut encoded = Huff::encode(b"aab".to_vec());
    encoded.extend([0xFF, 0x12, 0x00]);
    assert_eq!(Huff::decode(encoded), Ok(b"aab".to_vec()));
    let mut shorter = Huff::encode(b"aab".to_vec());
    shorter[27] = 2;
    assert_eq!(Huff::decode(shorter), Ok(b"aa".to_vec()));
    let mut none = Huff::encode(b"aab".to_vec());
    none[27] = 0;
    assert_eq!(Huff::decode(none), Ok(Vec::new()));
}

#[test]
fn huff_decode_rejects_truncated_containers() {
    let truncated = huff_error(Fault::Truncated);
    let encoded = Huff::encode(b"aab".to_vec());
    assert_eq!(Huff::decode(encoded[..5].to_vec()), Err(truncated));
    assert_eq!(Huff::decode(encoded[..12].to_vec()), Err(truncated));
    assert_eq!(Huff::decode(encoded[..27].to_vec()), Err(truncated));
    // the bits run out before three symbols are read
    assert_eq!(Huff::decode(encoded[..28].to_vec()), Err(truncated));
    let mut longer = encoded.clone();
    longer[27] = 9;
    assert_eq!(Huff::decode(longer), Err(truncated));
    let mut huge = encoded.clone();
    huge[0] = 0xFF;
    assert_eq!(Huff::decode(huge), Err(truncated));
}

#[test]
fn huff_decode_rejects_bad_trees() {
    let mut bad_tag = Huff::encode(b"aab".to_vec());
    bad_tag[8] = 5;
    assert_eq!(Huff::decode(bad_tag), Err(huff_error(Fault::BadNodeTag)));
    let mut bad_root = Huff::encode(b"aab".to_vec());
    bad_root[9] = 1; // the pre-order root is no longer in the in-order
    assert_eq!(Huff::decode(bad_root), Err(huff_error(Fault::BadTraversal)));
    // an odd traversal length cuts a record short
    let odd: Vec<u8> = vec![0, 0, 0, 0, 0, 0, 0, 1, 1, 1, 0, 0, 0, 0, 0, 0, 0, 0];
    assert_eq!(Huff::decode(odd), Err(huff_error(Fault::Truncated)));
}

#[test]
fn huff_decode_rejects_walking_off_the_tree() {
    // no tree at all, but one symbol declared
    let no_tree: Vec<u8> = vec![0, 0, 0, 0, 0, 0, 0, 0, 0, 0, 0, 0, 0, 0, 0, 1, 0];
    assert_eq!(Huff::decode(no_tree), Err(huff_error(Fault::BadTree)));
    // a lone internal node has no children
    let childless: Vec<u8> =
        vec![0, 0, 0, 0, 0, 0, 0, 2, 0, 0, 0, 0, 0, 0, 0, 0, 0, 0, 0, 1, 0];
    assert_eq!(Huff::decode(childless), Err(huff_error(Fault::BadTree)));
}
