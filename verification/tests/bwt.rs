use pkz::encoders::bwt::{Bwt, BwtToken};
use pkz::error::{Fault, ParseError, Stage};

fn bwt_error(fault: Fault) -> ParseError {
    ParseError { stage: Stage::Bwt, fault }
}

fn bwt_round_trip(input: Vec<u8>) {
    let encoded = Bwt::encode(input.clone());
    assert_eq!(Bwt::decode(encoded), Ok(input));
}

#[test]
fn bwt_banana() {
    let encoded = Bwt::encode(b"banana".to_vec());
    assert_eq!(encoded, b"4|annbaa".to_vec());
    assert_eq!(Bwt::decode(encoded), Ok(b"banana".to_vec()));
}

#[test]
fn bwt_empty_input() {
    assert_eq!(Bwt::encode(Vec::new()), b"0|".to_vec());
    assert_eq!(Bwt::decode(b"0|".to_vec()), Ok(Vec::new()));
}

#[test]
fn bwt_single_bytes() {
    assert_eq!(Bwt::encode(b"x".to_vec()), b"1|x".to_vec());
    for x in 0u8..=255 {
        bwt_round_trip(vec![x]);
    }
}

#[test]
fn bwt_primary_index_is_within_the_rows() {
    for input in [b"banana".to_vec(), b"abracadabra".to_vec(), b"zyxwv".to_vec(), vec![7u8; 50]] {
        let n = input.len();
        let encoded = Bwt::encode(input);
        let bar = encoded.iter().position(|&b| b == b'|').unwrap();
        let header = String::from_utf8(encoded[..bar].to_vec()).unwrap();
        let p = usize::from_str_radix(&header, 36).unwrap();
        assert!(p <= n);
        assert_eq!(encoded.len() - bar - 1, n);
    }
}

#[test]
fn bwt_header_is_base_36() {
    let input = vec![b'a'; 40];
    // the whole text is the longest suffix of equal bytes and sorts last
    let encoded = Bwt::encode(input.clone());
    assert_eq!(&encoded[..3], b"14|");
    assert_eq!(Bwt::decode(encoded), Ok(input));
}

#[test]
fn bwt_round_trips() {
    bwt_round_trip(b"abracadabra".to_vec());
    bwt_round_trip(b"mississippi".to_vec());
    bwt_round_trip(b"a|b|c||".to_vec());
    bwt_round_trip((0u8..=255).collect());
    bwt_round_trip((0u8..=255).rev().cycle().take(2000).collect());
    bwt_round_trip(b"AAAAABBBBBCCCCC".to_vec());
}

#[test]
fn bwt_round_trips_a_long_monochrome_buffer() {
    bwt_round_trip(vec![b'm'; 1_000_000]);
}

#[test]
fn bwt_decode_accepts_upper_case_and_a_sign() {
    assert_eq!(Bwt::decode(b"+4|annbaa".to_vec()), Ok(b"banana".to_vec()));
    assert_eq!(Bwt::decode(b"004|annbaa".to_vec()), Ok(b"banana".to_vec()));
    let input = vec![b'a'; 12];
    assert_eq!(Bwt::encode(input.clone()), b"c|aaaaaaaaaaaa".to_vec());
    assert_eq!(Bwt::decode(b"C|aaaaaaaaaaaa".to_vec()), Ok(input));
}

#[test]
fn bwt_decode_rejects_a_missing_separator() {
    assert_eq!(Bwt::decode(Vec::new()), Err(bwt_error(Fault::MissingSeparator)));
    assert_eq!(Bwt::decode(b"4annbaa".to_vec()), Err(bwt_error(Fault::MissingSeparator)));
}

#[test]
fn bwt_decode_rejects_a_bad_header() {
    let bad = bwt_error(Fault::BadHeader);
    assert_eq!(Bwt::decode(b"|annbaa".to_vec()), Err(bad));
    assert_eq!(Bwt::decode(b"+|annbaa".to_vec()), Err(bad));
    assert_eq!(Bwt::decode(b"-4|annbaa".to_vec()), Err(bad));
    assert_eq!(Bwt::decode(b"4 |annbaa".to_vec()), Err(bad));
    assert_eq!(Bwt::decode(b"4+|annbaa".to_vec()), Err(bad));
    assert_eq!(Bwt::decode(vec![0xE9, b'|', b'a']), Err(bad));
}

#[test]
fn bwt_decode_rejects_an_index_past_the_column() {
    let past = bwt_error(Fault::IndexOutOfRange);
    assert_eq!(Bwt::decode(b"7|annbaa".to_vec()), Err(past));
    assert_eq!(Bwt::decode(b"1|".to_vec()), Err(past));
    assert_eq!(Bwt::decode(b"zzzzzzzzzzzzzzzzzzzzzzzzzzzzzz|annbaa".to_vec()), Err(past));
    assert_eq!(Bwt::decode(b"6|annbaa".to_vec()).map(|v| v.len() <= 6), Ok(true));
}

#[test]
fn bwt_decode_of_a_column_that_is_no_transform() {
    // the chain from the mark closes before all rows were met
    assert_eq!(Bwt::decode(b"0|abc".to_vec()), Ok(Vec::new()));
    assert_eq!(Bwt::decode(b"1|ab".to_vec()), Ok(b"a".to_vec()));
    assert_eq!(Bwt::decode(b"1|bca".to_vec()), Ok(b"acb".to_vec()));
}

#[test]
fn the_mark_sorts_before_every_byte() {
    assert!(BwtToken::Delim < BwtToken::Byte(0));
    assert!(BwtToken::Byte(0) < BwtToken::Byte(1));
    assert!(BwtToken::Byte(254) < BwtToken::Byte(255));
    let mut tokens = vec![BwtToken::Byte(b'n'), BwtToken::Delim, BwtToken::Byte(b'a')];
    tokens.sort();
    assert_eq!(tokens, vec![BwtToken::Delim, BwtToken::Byte(b'a'), BwtToken::Byte(b'n')]);
}
