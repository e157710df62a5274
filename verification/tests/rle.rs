use pkz::encoders::rle::Rle;
use pkz::error::{Fault, ParseError, Stage};

fn rle_round_trip(input: Vec<u8>) {
    let encoded = Rle::encode(input.clone());
    assert_eq!(Rle::decode(encoded), Ok(input));
}

#[test]
fn rle_eight_equal_bytes() {
    let encoded = Rle::encode(b"aaaaaaaa".to_vec());
    assert_eq!(encoded, vec![0x00, 0x00, 0x08, b'a']);
    assert_eq!(Rle::decode(encoded), Ok(b"aaaaaaaa".to_vec()));
}

#[test]
fn rle_every_byte_once() {
    let input: Vec<u8> = (0u8..=255).collect();
    let encoded = Rle::encode(input.clone());
    let mut expected: Vec<u8> = vec![0x00, 0x5C, 0x00];
    for b in 1u8..=255 {
        if b == 0x5C {
            expected.push(0x5C);
        }
        expected.push(b);
    }
    assert_eq!(encoded, expected);
    assert_eq!(encoded[0], 0);
    assert_eq!(encoded.len(), 1 + 256 + 2);
    assert_eq!(Rle::decode(encoded), Ok(input));
}

#[test]
fn rle_short_inputs_pass_through() {
    assert_eq!(Rle::encode(Vec::new()), Vec::<u8>::new());
    assert_eq!(Rle::encode(vec![7]), vec![7]);
    assert_eq!(Rle::decode(Vec::new()), Ok(Vec::new()));
    assert_eq!(Rle::decode(vec![7]), Ok(vec![7]));
    for x in 0u8..=255 {
        rle_round_trip(vec![x]);
    }
}

#[test]
fn rle_runs_below_four_stay_literal() {
    assert_eq!(Rle::encode(b"aaabbb".to_vec()), b"\x00aaabbb".to_vec());
    assert_eq!(Rle::encode(b"ab".to_vec()), b"\x00ab".to_vec());
}

#[test]
fn rle_run_of_exactly_four() {
    assert_eq!(Rle::encode(b"xaaaay".to_vec()), vec![0, b'x', 0, 4, b'a', b'y']);
}

#[test]
fn rle_runs_are_cut_at_255() {
    let input = vec![b'z'; 600];
    let encoded = Rle::encode(input.clone());
    assert_eq!(encoded, vec![0, 0, 255, b'z', 0, 255, b'z', 0, 90, b'z']);
    assert_eq!(Rle::decode(encoded), Ok(input));
    let just_over = vec![b'z'; 256];
    assert_eq!(Rle::encode(just_over), vec![0, 0, 255, b'z', b'z']);
}

#[test]
fn rle_picks_the_lowest_unused_delimiter() {
    let encoded = Rle::encode(vec![0, 1, 2, 9, 9, 9, 9, 9]);
    assert_eq!(encoded, vec![3, 0, 1, 2, 3, 5, 9]);
    assert_eq!(Rle::decode(encoded), Ok(vec![0, 1, 2, 9, 9, 9, 9, 9]));
}

#[test]
fn rle_doubles_the_escape_byte() {
    assert_eq!(Rle::encode(b"a\\b".to_vec()), b"\x00a\\\\b".to_vec());
    rle_round_trip(b"a\\b".to_vec());
    assert_eq!(Rle::encode(b"\\\\".to_vec()), vec![0, 0, 4, 0x5C]);
    rle_round_trip(b"\\\\".to_vec());
    rle_round_trip(b"\\\\\\ and \\\\\\\\\\\\\\ more".to_vec());
}

#[test]
fn rle_decode_halves_a_run_of_escapes() {
    assert_eq!(Rle::decode(vec![0, 0, 6, 0x5C]), Ok(vec![0x5C; 3]));
    assert_eq!(Rle::decode(vec![0, 0, 7, 0x5C]), Ok(vec![0x5C; 3]));
    assert_eq!(Rle::decode(vec![0, 0, 7, b'q']), Ok(vec![b'q'; 7]));
}

#[test]
fn rle_decode_takes_escaped_bytes_literally() {
    assert_eq!(Rle::decode(vec![9, 0x5C, 9, 1, 0x5C, 0x5C]), Ok(vec![9, 1, 0x5C]));
}

#[test]
fn rle_decode_rejects_a_cut_token() {
    let truncated = ParseError { stage: Stage::Rle, fault: Fault::Truncated };
    assert_eq!(Rle::decode(vec![0, 0, 8]), Err(truncated));
    assert_eq!(Rle::decode(vec![0, 0]), Err(truncated));
    assert_eq!(Rle::decode(vec![0, b'a', 0x5C]), Err(truncated));
}

#[test]
fn rle_round_trips_text() {
    rle_round_trip(b"the quick brown fox jumps over the lazy dog".to_vec());
    rle_round_trip(b"aaaaaaaaaabbbbbbbbbbbbccccccccccccccccdddd".to_vec());
    rle_round_trip(vec![0u8; 1000]);
    rle_round_trip(vec![255u8; 254]);
}

#[test]
fn rle_round_trips_a_long_monochrome_buffer() {
    rle_round_trip(vec![b'm'; 1_000_000]);
}

#[test]
fn rle_payload_holds_the_delimiter_only_in_tokens() {
    let input = b"aaaaaaaabcccccccccccdefffffg".to_vec();
    let encoded = Rle::encode(input);
    let delim = encoded[0];
    assert_eq!(delim, 0);
    let mut at = 1;
    while at < encoded.len() {
        if encoded[at] == delim {
            assert!(encoded[at + 1] >= 4);
            at += 3;
        } else {
            at += 1;
        }
    }
    assert_eq!(at, encoded.len());
}

#[test]
fn rle_with_the_escape_byte_as_delimiter() {
    // every byte below the escape byte occurs, so the escape byte is the rarest
    let input: Vec<u8> = (0u8..0x5C).collect();
    let encoded = Rle::encode(input.clone());
    assert_eq!(encoded[0], 0x5C);
    assert_eq!(&encoded[1..], &input[..]);
    assert_eq!(Rle::decode(encoded), Ok(input));
}

#[test]
fn rle_long_runs_of_escapes_do_not_come_back() {
    // 128 escape bytes make 256, which are cut into runs of 255 and 1
    let input = vec![0x5Cu8; 128];
    let encoded = Rle::encode(input.clone());
    assert_eq!(encoded, vec![0, 0, 255, 0x5C, 0x5C]);
    assert_ne!(Rle::decode(encoded), Ok(input));
    let shorter = vec![0x5Cu8; 127];
    assert_eq!(Rle::encode(shorter.clone()), vec![0, 0, 254, 0x5C]);
    assert_eq!(Rle::decode(Rle::encode(shorter.clone())), Ok(shorter));
}

#[test]
fn rle_escapes_in_front_of_a_delimiter_do_not_come_back() {
    // all bytes occur, 0 is the rarest, and two escape bytes stand in front of it
    let mut input: Vec<u8> = (1u8..=255).collect();
    input.extend((1u8..=255).rev());
    input.extend([0x5C, 0x5C, 0x00, 7, 7]);
    let encoded = Rle::encode(input.clone());
    assert_eq!(encoded[0], 0);
    assert_ne!(Rle::decode(encoded), Ok(input));
}
