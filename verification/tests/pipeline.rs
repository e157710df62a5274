use pkz::encoders::encoder::{Encoding, Tokens};
use pkz::error::{Fault, ParseError, Stage};

fn full() -> Vec<Encoding> {
    vec![Encoding::Bwt, Encoding::Mtf, Encoding::Rle, Encoding::Huff]
}

fn round_trip(pipeline: Vec<Encoding>, input: Vec<u8>) -> Vec<u8> {
    let mut tokens = Tokens::new(pipeline);
    let container = tokens.compress(input.clone());
    assert_eq!(tokens.decompress(container.clone()), Ok(input));
    container
}

#[test]
fn stage_tags() {
    assert_eq!(Encoding::Bwt.tag(), 0);
    assert_eq!(Encoding::Mtf.tag(), 1);
    assert_eq!(Encoding::Rle.tag(), 2);
    assert_eq!(Encoding::Huff.tag(), 3);
    assert_eq!(Encoding::try_from(0), Ok(Encoding::Bwt));
    assert_eq!(Encoding::try_from(1), Ok(Encoding::Mtf));
    assert_eq!(Encoding::try_from(2), Ok(Encoding::Rle));
    assert_eq!(Encoding::try_from(3), Ok(Encoding::Huff));
    assert_eq!(Encoding::try_from(4), Err(()));
    assert_eq!(Encoding::try_from(0x7C), Err(()));
}

#[test]
fn new_keeps_the_pipeline() {
    let tokens = Tokens::new(vec![Encoding::Rle, Encoding::Bwt]);
    assert_eq!(tokens.pipeline, vec![Encoding::Rle, Encoding::Bwt]);
}

#[test]
fn container_of_a_bwt_pipeline() {
    let container = round_trip(vec![Encoding::Bwt], b"banana".to_vec());
    assert_eq!(container, b"\x00|4|annbaa".to_vec());
}

#[test]
fn container_of_an_rle_pipeline() {
    let container = round_trip(vec![Encoding::Rle], b"aaaaaaaa".to_vec());
    assert_eq!(container, vec![2, 0x7C, 0, 0, 8, b'a']);
}

#[test]
fn container_of_an_mtf_pipeline() {
    let container = round_trip(vec![Encoding::Mtf], b"abracadabra".to_vec());
    assert_eq!(&container[..2], &[1, 0x7C]);
    assert_eq!(&container[2..7], b"arbdc");
    assert_eq!(container.len(), 2 + 5 + 1 + 11);
}

#[test]
fn container_of_the_empty_pipeline() {
    let container = round_trip(Vec::new(), b"as it is".to_vec());
    assert_eq!(container, b"|as it is".to_vec());
}

#[test]
fn full_pipeline_on_runs_of_letters() {
    let container = round_trip(full(), b"AAAAABBBBBCCCCC".to_vec());
    assert_eq!(&container[..5], &[0, 1, 2, 3, 0x7C]);
    // the Huffman container alone holds two lengths of eight bytes and the tree
    assert!(container.len() > 5 + 16);
}

#[test]
fn full_pipeline_on_the_empty_buffer() {
    let container = round_trip(full(), Vec::new());
    assert_eq!(&container[..5], &[0x00, 0x01, 0x02, 0x03, 0x7C]);
    // the transform of the empty buffer is "0|", and the later stages code that
    let mut tokens = Tokens::new(vec![Encoding::Bwt]);
    assert_eq!(tokens.compress(Vec::new()), b"\x00|0|".to_vec());
}

#[test]
fn every_single_stage_inverts_the_empty_buffer() {
    for stage in full() {
        round_trip(vec![stage], Vec::new());
    }
    round_trip(vec![Encoding::Huff, Encoding::Rle, Encoding::Mtf], Vec::new());
}

#[test]
fn full_pipeline_on_single_bytes() {
    for x in 0u8..=255 {
        round_trip(full(), vec![x]);
    }
}

#[test]
fn single_stages_on_single_bytes() {
    for x in 0u8..=255 {
        round_trip(vec![Encoding::Bwt], vec![x]);
        round_trip(vec![Encoding::Rle], vec![x]);
        round_trip(vec![Encoding::Huff], vec![x]);
    }
}

#[test]
fn full_pipeline_on_a_long_monochrome_buffer() {
    let container = round_trip(full(), vec![b'm'; 1_000_000]);
    assert!(container.len() < 1_000_000);
    round_trip(full(), vec![0x5C; 300]);
    round_trip(full(), vec![0u8; 4096]);
}

#[test]
fn full_pipeline_on_text() {
    let text = b"It was the best of times, it was the worst of times, it was the age of \
wisdom, it was the age of foolishness, it was the epoch of belief, it was the epoch of \
incredulity, it was the season of Light, it was the season of Darkness"
        .to_vec();
    let container = round_trip(full(), text.clone());
    assert_eq!(&container[..5], &[0, 1, 2, 3, 0x7C]);
    round_trip(vec![Encoding::Huff, Encoding::Bwt], text.clone());
    round_trip(vec![Encoding::Rle, Encoding::Rle], text.clone());
    round_trip(vec![Encoding::Bwt, Encoding::Bwt, Encoding::Mtf], text);
}

#[test]
fn compress_gives_the_same_bytes_each_time() {
    let input = b"one and the same".to_vec();
    let mut first = Tokens::new(full());
    let mut second = Tokens::new(full());
    assert_eq!(first.compress(input.clone()), second.compress(input.clone()));
    assert_eq!(first.compress(input.clone()), first.compress(input));
}

#[test]
fn try_compress_agrees_with_compress() {
    let input = b"checked".to_vec();
    let mut tokens = Tokens::new(full());
    assert_eq!(tokens.try_compress(input.clone()), Some(tokens.compress(input)));
}

#[test]
fn decompress_reads_the_stages_from_the_header() {
    let mut writer = Tokens::new(vec![Encoding::Rle, Encoding::Huff]);
    let container = writer.compress(b"header decides".to_vec());
    let mut reader = Tokens::new(vec![Encoding::Bwt]);
    assert_eq!(reader.decompress(container), Ok(b"header decides".to_vec()));
    assert_eq!(reader.pipeline, vec![Encoding::Bwt]);
}

#[test]
fn decompress_rejects_a_missing_separator() {
    let mut tokens = Tokens::new(full());
    let missing = ParseError { stage: Stage::Container, fault: Fault::MissingSeparator };
    assert_eq!(tokens.decompress(Vec::new()), Err(missing));
    assert_eq!(tokens.decompress(vec![0, 1, 2, 3]), Err(missing));
}

#[test]
fn decompress_rejects_an_unknown_stage() {
    let mut tokens = Tokens::new(full());
    let unknown = ParseError { stage: Stage::Container, fault: Fault::UnknownStage };
    assert_eq!(tokens.decompress(vec![0, 4, 0x7C, 1, 2]), Err(unknown));
    assert_eq!(tokens.decompress(b"x|abc".to_vec()), Err(unknown));
}

#[test]
fn decompress_hands_on_the_error_of_a_stage() {
    let mut tokens = Tokens::new(full());
    assert_eq!(
        tokens.decompress(vec![0, 0x7C, b'9', b'9']),
        Err(ParseError { stage: Stage::Bwt, fault: Fault::MissingSeparator })
    );
    assert_eq!(
        tokens.decompress(vec![3, 0x7C, 1, 2, 3]),
        Err(ParseError { stage: Stage::Huff, fault: Fault::Truncated })
    );
    // the header without a payload: the inverse transform finds no "|"
    assert_eq!(
        tokens.decompress(vec![0, 1, 2, 3, 0x7C]),
        Err(ParseError { stage: Stage::Bwt, fault: Fault::MissingSeparator })
    );
}

#[test]
fn error_messages() {
    let e = ParseError { stage: Stage::Bwt, fault: Fault::BadHeader };
    assert_eq!(e.message(), "header is not a base-36 number");
    let e = ParseError { stage: Stage::Container, fault: Fault::UnknownStage };
    assert_eq!(e.message(), "unknown stage tag in the header");
}
