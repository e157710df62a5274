use pkz::encoders::encoder::Tokens;
use pkz::encoders::mtf::Mtf;
use pkz::error::{Fault, ParseError, Stage};

#[test]
fn mtf_abracadabra() {
    let input = b"abracadabra".to_vec();
    let encoded = Tokens::encode_mtf(input.clone());
    assert_eq!(&encoded[..5], b"arbdc");
    assert_eq!(encoded[5], b'a');
    assert_eq!(encoded.len() - 6, 11);
    assert_eq!(&encoded[6..], &[0, 1, 2, 2, 3, 1, 4, 1, 4, 4, 2]);
    assert_eq!(Tokens::decode_mtf(encoded), Ok(input));
}

#[test]
fn mtf_empty_input() {
    assert_eq!(Tokens::encode_mtf(Vec::new()), Vec::<u8>::new());
    assert_eq!(Tokens::decode_mtf(Vec::new()), Ok(Vec::new()));
}

#[test]
fn mtf_alphabet_holds_each_byte_once() {
    let input = b"mississippi river".to_vec();
    let encoded = Tokens::encode_mtf(input.clone());
    let mut distinct: Vec<u8> = input.clone();
    distinct.sort();
    distinct.dedup();
    let mut alphabet = encoded[..distinct.len()].to_vec();
    assert_eq!(encoded[distinct.len()], alphabet[0]);
    assert_eq!(alphabet[0], *input.last().unwrap());
    alphabet.sort();
    assert_eq!(alphabet, distinct);
    assert_eq!(encoded.len(), distinct.len() + 1 + input.len());
}

#[test]
fn mtf_two_bytes() {
    assert_eq!(Tokens::encode_mtf(b"ab".to_vec()), vec![b'b', b'a', b'b', 0, 1]);
    assert_eq!(Tokens::decode_mtf(vec![b'b', b'a', b'b', 0, 1]), Ok(b"ab".to_vec()));
}

#[test]
fn mtf_all_bytes_round_trip() {
    let mut input: Vec<u8> = (0u8..=255).collect();
    input.extend((0u8..=255).rev());
    input.extend([3u8, 3, 3, 200, 200, 7]);
    let encoded = Tokens::encode_mtf(input.clone());
    assert_eq!(encoded.len(), 256 + 1 + input.len());
    assert_eq!(Tokens::decode_mtf(encoded), Ok(input));
}

#[test]
fn mtf_round_trips_text() {
    let input = b"she sells sea shells by the sea shore".to_vec();
    assert_eq!(Tokens::decode_mtf(Tokens::encode_mtf(input.clone())), Ok(input));
}

#[test]
fn mtf_single_symbol_alphabet_is_not_closed() {
    let encoded = Tokens::encode_mtf(b"aaa".to_vec());
    assert_eq!(encoded, vec![b'a', b'a', 0, 0, 0]);
    assert_eq!(
        Tokens::decode_mtf(encoded),
        Err(ParseError { stage: Stage::Mtf, fault: Fault::MissingTerminator })
    );
}

#[test]
fn mtf_decode_rejects_a_missing_terminator() {
    let missing = ParseError { stage: Stage::Mtf, fault: Fault::MissingTerminator };
    assert_eq!(Tokens::decode_mtf(vec![1]), Err(missing));
    assert_eq!(Tokens::decode_mtf(vec![1, 2, 3, 4]), Err(missing));
    assert_eq!(Tokens::decode_mtf(vec![1, 1]), Err(missing));
}

#[test]
fn mtf_decode_rejects_an_index_past_the_alphabet() {
    assert_eq!(
        Tokens::decode_mtf(vec![b'b', b'a', b'b', 0, 2]),
        Err(ParseError { stage: Stage::Mtf, fault: Fault::IndexOutOfRange })
    );
}

#[test]
fn mtf_decode_with_no_indices() {
    assert_eq!(Tokens::decode_mtf(vec![b'b', b'a', b'b']), Ok(Vec::new()));
}
