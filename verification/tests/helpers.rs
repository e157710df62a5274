use pkz::encoders::bwt::BwtToken;
use pkz::utils::{
    byte_histogram, enumerate_duplicates, format_radix, get_least_used_byte, index_of,
    insert_before_target, radix_bytes,
};

#[test]
fn index_of_finds_the_first_match() {
    let v = vec![5u8, 7, 9, 7];
    assert_eq!(index_of(&v, &7), Some(1));
    assert_eq!(index_of(&v, &5), Some(0));
    assert_eq!(index_of(&v, &9), Some(2));
}

#[test]
fn index_of_misses() {
    let v = vec![5u8, 7, 9];
    assert_eq!(index_of(&v, &1), None);
    assert_eq!(index_of(&Vec::<u8>::new(), &1), None);
}

#[test]
fn index_of_works_on_other_types() {
    let words = vec!["run", "move", "run"];
    assert_eq!(index_of(&words, &"run"), Some(0));
    assert_eq!(index_of(&words, &"move"), Some(1));
    assert_eq!(index_of(&words, &"sort"), None);
    let tokens = vec![BwtToken::Byte(1), BwtToken::Delim];
    assert_eq!(index_of(&tokens, &BwtToken::Delim), Some(1));
}

#[test]
fn format_radix_base_36() {
    assert_eq!(format_radix(0, 36), "0");
    assert_eq!(format_radix(9, 36), "9");
    assert_eq!(format_radix(10, 36), "a");
    assert_eq!(format_radix(35, 36), "z");
    assert_eq!(format_radix(36, 36), "10");
    assert_eq!(format_radix(1295, 36), "zz");
    assert_eq!(format_radix(1296, 36), "100");
    assert_eq!(format_radix(u32::MAX, 36), "1z141z3");
}

#[test]
fn format_radix_other_bases() {
    assert_eq!(format_radix(5, 2), "101");
    assert_eq!(format_radix(255, 16), "ff");
    assert_eq!(format_radix(1234, 10), "1234");
}

#[test]
fn radix_bytes_are_the_digits() {
    assert_eq!(radix_bytes(71, 36), b"1z".to_vec());
    assert_eq!(radix_bytes(0, 2), b"0".to_vec());
}

#[test]
fn histogram_counts_every_byte() {
    let counts = byte_histogram(&b"abracadabra".to_vec());
    assert_eq!(counts.len(), 256);
    assert_eq!(counts[b'a' as usize], 5);
    assert_eq!(counts[b'b' as usize], 2);
    assert_eq!(counts[b'r' as usize], 2);
    assert_eq!(counts[b'c' as usize], 1);
    assert_eq!(counts[b'd' as usize], 1);
    assert_eq!(counts[0], 0);
    assert_eq!(counts.iter().sum::<usize>(), 11);
}

#[test]
fn least_used_byte_of_empty_input_is_zero() {
    assert_eq!(get_least_used_byte(&Vec::new()), 0);
}

#[test]
fn least_used_byte_is_the_lowest_unused() {
    assert_eq!(get_least_used_byte(&vec![0u8, 1, 2, 4]), 3);
    assert_eq!(get_least_used_byte(&b"hello".to_vec()), 0);
}

#[test]
fn least_used_byte_in_the_upper_half() {
    let input: Vec<u8> = (0u8..=199).collect();
    assert_eq!(get_least_used_byte(&input), 200);
}

#[test]
fn least_used_byte_when_all_bytes_occur() {
    let mut input: Vec<u8> = (0u8..=255).collect();
    input.extend((0u8..=255).filter(|b| *b != 17 && *b != 200));
    assert_eq!(get_least_used_byte(&input), 17);
    let once: Vec<u8> = (0u8..=255).collect();
    assert_eq!(get_least_used_byte(&once), 0);
}

#[test]
fn insert_before_target_escapes_each_target() {
    let mut v = b"a\\b\\\\c".to_vec();
    insert_before_target(&mut v, b'\\', b'\\');
    assert_eq!(v, b"a\\\\b\\\\\\\\c".to_vec());
}

#[test]
fn insert_before_target_with_another_byte() {
    let mut v = vec![1u8, 2, 1, 3, 1];
    insert_before_target(&mut v, 1, 9);
    assert_eq!(v, vec![9, 1, 2, 9, 1, 3, 9, 1]);
    let mut untouched = vec![4u8, 5];
    insert_before_target(&mut untouched, 1, 9);
    assert_eq!(untouched, vec![4, 5]);
    let mut empty: Vec<u8> = Vec::new();
    insert_before_target(&mut empty, 1, 9);
    assert!(empty.is_empty());
}

#[test]
fn enumerate_duplicates_counts_from_zero() {
    let v = vec![
        BwtToken::Byte(b'a'),
        BwtToken::Byte(b'n'),
        BwtToken::Delim,
        BwtToken::Byte(b'a'),
        BwtToken::Byte(b'a'),
        BwtToken::Byte(b'n'),
    ];
    let ranked = enumerate_duplicates(v);
    assert_eq!(
        ranked,
        vec![
            (BwtToken::Byte(b'a'), 0),
            (BwtToken::Byte(b'n'), 0),
            (BwtToken::Delim, 0),
            (BwtToken::Byte(b'a'), 1),
            (BwtToken::Byte(b'a'), 2),
            (BwtToken::Byte(b'n'), 1),
        ]
    );
    assert!(enumerate_duplicates(Vec::new()).is_empty());
}
