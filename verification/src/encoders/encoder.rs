//! The pipeline driver and the container that records the stages.

use super::bwt::{bwt_decoded, bwt_encoded, Bwt, MAX_LENGTH};
use super::huff::{huff_decoded, huff_encoded, Huff};
use super::mtf::{mtf_decoded, mtf_encoded, Mtf};
use super::rle::{rle_decoded, rle_encoded, Rle};
use crate::error::{result_view, Fault, ParseError, Stage};
use crate::proofs::pipeline::{lemma_round_trip, pipeline_reversible};
use crate::utils::{lemma_position_of_is, position_of};
use vstd::prelude::*;
use vstd::std_specs::convert::TryFromSpecImpl;

verus! {

/// The stages that a pipeline can be made of.
#[derive(Clone, Copy, Debug, PartialEq, Eq, Structural)]
pub enum Encoding {
    /// The Burrows-Wheeler transform, tag 0.
    Bwt,
    /// Move-to-front coding, tag 1.
    Mtf,
    /// Run-length coding, tag 2.
    Rle,
    /// Huffman coding, tag 3.
    Huff,
}

/// The byte that separates the stage header from the payload.
pub const SEPARATOR: u8 = 0x7C;

impl Encoding {
    /// The byte that stands for the stage in the header.
    pub open spec fn spec_tag(self) -> u8 {
        match self {
            Encoding::Bwt => 0,
            Encoding::Mtf => 1,
            Encoding::Rle => 2,
            Encoding::Huff => 3,
        }
    }

    /// The stage that a header byte stands for.
    pub open spec fn spec_from_tag(value: u8) -> Option<Encoding> {
        if value == 0 {
            Some(Encoding::Bwt)
        } else if value == 1 {
            Some(Encoding::Mtf)
        } else if value == 2 {
            Some(Encoding::Rle)
        } else if value == 3 {
            Some(Encoding::Huff)
        } else {
            None
        }
    }

    /// The byte that stands for the stage in the header.
    pub fn tag(self) -> (value: u8)
        ensures
            value == self.spec_tag(),
            Self::spec_from_tag(value) == Some(self),
    {
        match self {
            Encoding::Bwt => 0,
            Encoding::Mtf => 1,
            Encoding::Rle => 2,
            Encoding::Huff => 3,
        }
    }

}

/// The stage that a header byte stands for, if it stands for one.
impl TryFrom<u8> for Encoding {
    type Error = ();

    fn try_from(value: u8) -> (stage: Result<Self, Self::Error>) {
        match value {
            0 => Ok(Encoding::Bwt),
            1 => Ok(Encoding::Mtf),
            2 => Ok(Encoding::Rle),
            3 => Ok(Encoding::Huff),
            _ => Err(()),
        }
    }
}

impl TryFromSpecImpl<u8> for Encoding {
    open spec fn obeys_try_from_spec() -> bool {
        true
    }

    open spec fn try_from_spec(value: u8) -> Result<Self, Self::Error> {
        match Encoding::spec_from_tag(value) {
            Some(stage) => Ok(stage),
            None => Err(()),
        }
    }
}

/// What a stage makes of a buffer.
pub open spec fn stage_encoded(stage: Encoding, s: Seq<u8>) -> Seq<u8> {
    match stage {
        Encoding::Bwt => bwt_encoded(s),
        Encoding::Mtf => mtf_encoded(s),
        Encoding::Rle => rle_encoded(s),
        Encoding::Huff => huff_encoded(s),
    }
}

/// What the inverse of a stage makes of a buffer.
pub open spec fn stage_decoded(stage: Encoding, s: Seq<u8>) -> Result<Seq<u8>, ParseError> {
    match stage {
        Encoding::Bwt => bwt_decoded(s),
        Encoding::Mtf => mtf_decoded(s),
        Encoding::Rle => rle_decoded(s),
        Encoding::Huff => huff_decoded(s),
    }
}

/// The buffer after the stages of the pipeline, applied from the first to
/// the last.
pub open spec fn stages_applied(pipeline: Seq<Encoding>, s: Seq<u8>) -> Seq<u8>
    decreases pipeline.len(),
{
    if pipeline.len() == 0 {
        s
    } else {
        stage_encoded(pipeline.last(), stages_applied(pipeline.drop_last(), s))
    }
}

/// Whether every Burrows-Wheeler stage of the pipeline gets a buffer that
/// it can take: one shorter than `MAX_LENGTH`.
pub open spec fn stage_inputs_fit(pipeline: Seq<Encoding>, s: Seq<u8>) -> bool
    decreases pipeline.len(),
{
    if pipeline.len() == 0 {
        true
    } else {
        &&& stage_inputs_fit(pipeline.drop_last(), s)
        &&& pipeline.last() == Encoding::Bwt ==> stages_applied(pipeline.drop_last(), s).len()
            < MAX_LENGTH
    }
}

/// The stage header of a pipeline: one tag for each stage.
pub open spec fn tags_of(pipeline: Seq<Encoding>) -> Seq<u8> {
    Seq::new(pipeline.len(), |i: int| pipeline[i].spec_tag())
}

/// The container: the stage header, the separator, the payload.
pub open spec fn compressed(pipeline: Seq<Encoding>, s: Seq<u8>) -> Seq<u8> {
    tags_of(pipeline) + seq![SEPARATOR] + stages_applied(pipeline, s)
}

/// The buffer after the inverses of the stages, applied from the last
/// stage back to the first. The first failure is the answer.
pub open spec fn stages_undone(pipeline: Seq<Encoding>, s: Seq<u8>) -> Result<Seq<u8>, ParseError>
    decreases pipeline.len(),
{
    if pipeline.len() == 0 {
        Ok(s)
    } else {
        match stage_decoded(pipeline.last(), s) {
            Ok(inner) => stages_undone(pipeline.drop_last(), inner),
            Err(e) => Err(e),
        }
    }
}

/// Whether every byte of a header names a stage.
pub open spec fn all_tags(header: Seq<u8>) -> bool {
    forall|i: int| 0 <= i < header.len() ==> #[trigger] header[i] <= 3
}

/// The stages that a header names.
pub open spec fn stages_named(header: Seq<u8>) -> Seq<Encoding> {
    Seq::new(header.len(), |i: int| Encoding::spec_from_tag(header[i]).unwrap())
}

/// What a container holds: the header ends at the first separator, and
/// every byte of it must name a stage.
pub open spec fn decompressed(s: Seq<u8>) -> Result<Seq<u8>, ParseError> {
    let end = position_of(s, SEPARATOR) as int;
    if end >= s.len() {
        Err(ParseError { stage: Stage::Container, fault: Fault::MissingSeparator })
    } else if !all_tags(s.take(end)) {
        Err(ParseError { stage: Stage::Container, fault: Fault::UnknownStage })
    } else {
        stages_undone(stages_named(s.take(end)), s.skip(end + 1))
    }
}

/// The pipeline driver: an ordered list of stages.
#[derive(Clone, Debug)]
pub struct Tokens {
    pub pipeline: Vec<Encoding>,
}

impl Tokens {
    /// A driver for the given stages, which `compress` applies in this order.
    pub fn new(pipeline: Vec<Encoding>) -> (tokens: Tokens)
        ensures
            tokens.pipeline == pipeline,
    {
        Self { pipeline }
    }

    /// Applies the stages in order and puts the stage header in front.
    /// `None` where a Burrows-Wheeler stage would get a buffer of
    /// `MAX_LENGTH` bytes or more. `decompress` brings the buffer back from
    /// the container where each stage can be undone on what it gets.
    pub fn try_compress(&self, data: Vec<u8>) -> (container: Option<Vec<u8>>)
        ensures
            match container {
                Some(bytes) => {
                    &&& stage_inputs_fit(self.pipeline@, data@)
                    &&& bytes@ == compressed(self.pipeline@, data@)
                    &&& pipeline_reversible(self.pipeline@, data@) ==> decompressed(bytes@) == Ok::<
                        Seq<u8>,
                        ParseError,
                    >(data@)
                },
                None => !stage_inputs_fit(self.pipeline@, data@),
            },
    {
        let ghost given = data@;
        let mut output = data;
        let mut i: usize = 0;
        proof {
            assert(self.pipeline@.take(0) =~= Seq::<Encoding>::empty());
        }
        while i < self.pipeline.len()
            invariant
                i <= self.pipeline.len(),
                given == data@,
                output@ == stages_applied(self.pipeline@.take(i as int), given),
                stage_inputs_fit(self.pipeline@.take(i as int), given),
            decreases self.pipeline.len() - i,
        {
            let stage = self.pipeline[i];
            proof {
                assert(self.pipeline@.take(i + 1).drop_last() =~= self.pipeline@.take(i as int));
                assert(self.pipeline@.take(i + 1).last() == stage);
            }
            match stage {
                Encoding::Bwt => {
                    if output.len() >= MAX_LENGTH {
                        proof {
                            if stage_inputs_fit(self.pipeline@, given) {
                                lemma_fit_prefix(self.pipeline@, given, i + 1);
                            }
                        }
                        return None;
                    }
                    output = Bwt::encode(output);
                },
                Encoding::Rle => {
                    output = Rle::encode(output);
                },
                Encoding::Mtf => {
                    output = Tokens::encode_mtf(output);
                },
                Encoding::Huff => {
                    output = Huff::encode(output);
                },
            }
            i += 1;
        }
        proof {
            assert(self.pipeline@.take(self.pipeline.len() as int) =~= self.pipeline@);
        }
        let mut encoding_header: Vec<u8> = Vec::new();
        let mut k: usize = 0;
        while k < self.pipeline.len()
            invariant
                k <= self.pipeline.len(),
                encoding_header@ == tags_of(self.pipeline@.take(k as int)),
            decreases self.pipeline.len() - k,
        {
            encoding_header.push(self.pipeline[k].tag());
            assert(encoding_header@ =~= tags_of(self.pipeline@.take(k + 1)));
            k += 1;
        }
        encoding_header.push(SEPARATOR);
        encoding_header.append(&mut output);
        proof {
            assert(encoding_header@ == compressed(self.pipeline@, given));
            if pipeline_reversible(self.pipeline@, given) {
                lemma_round_trip(self.pipeline@, given);
            }
        }
        Some(encoding_header)
    }

    /// Applies the stages in order and puts the stage header in front.
    /// `decompress` brings the buffer back from the container where each
    /// stage can be undone on what it gets.
    pub fn compress(&mut self, data: Vec<u8>) -> (container: Vec<u8>)
        requires
            stage_inputs_fit(old(self).pipeline@, data@),
        ensures
            container@ == compressed(old(self).pipeline@, data@),
            pipeline_reversible(old(self).pipeline@, data@) ==> decompressed(container@) == Ok::<
                Seq<u8>,
                ParseError,
            >(data@),
            final(self).pipeline@ == old(self).pipeline@,
    {
        match self.try_compress(data) {
            Some(bytes) => bytes,
            None => Vec::new(),
        }
    }

    /// Reads the stage header and applies the inverses of the stages, from
    /// the last back to the first.
    pub fn decompress(&mut self, data: Vec<u8>) -> (result: Result<Vec<u8>, ParseError>)
        ensures
            result_view(result) == decompressed(data@),
            final(self).pipeline@ == old(self).pipeline@,
    {
        let mut split_index: usize = 0;
        while split_index < data.len() && data[split_index] != SEPARATOR
            invariant
                split_index <= data.len(),
                forall|j: int| 0 <= j < split_index ==> data[j] != SEPARATOR,
            decreases data.len() - split_index,
        {
            split_index += 1;
        }
        proof {
            lemma_position_of_is(data@, SEPARATOR, split_index as int);
        }
        if split_index >= data.len() {
            return Err(ParseError { stage: Stage::Container, fault: Fault::MissingSeparator });
        }
        let ghost header = data@.take(split_index as int);
        let mut pipeline: Vec<Encoding> = Vec::new();
        let mut k: usize = 0;
        while k < split_index
            invariant
                k <= split_index < data.len(),
                header == data@.take(split_index as int),
                split_index == position_of(data@, SEPARATOR),
                pipeline.len() == k,
                forall|j: int| 0 <= j < k ==> #[trigger] header[j] <= 3,
                forall|j: int|
                    0 <= j < k ==> pipeline[j] == Encoding::spec_from_tag(header[j]).unwrap(),
            decreases split_index - k,
        {
            match Encoding::try_from(data[k]) {
                Ok(stage) => {
                    pipeline.push(stage);
                },
                Err(_) => {
                    assert(header[k as int] > 3);
                    return Err(ParseError { stage: Stage::Container, fault: Fault::UnknownStage });
                },
            }
            k += 1;
        }
        assert(all_tags(header));
        assert(pipeline@ =~= stages_named(header));
        let mut output: Vec<u8> = Vec::new();
        let mut at: usize = split_index + 1;
        while at < data.len()
            invariant
                split_index + 1 <= at <= data.len(),
                output@ == data@.subrange(split_index + 1, at as int),
            decreases data.len() - at,
        {
            output.push(data[at]);
            assert(output@ =~= data@.subrange(split_index + 1, at + 1));
            at += 1;
        }
        assert(output@ =~= data@.skip(split_index + 1));
        let ghost payload = output@;
        let mut left: usize = pipeline.len();
        proof {
            assert(pipeline@.take(left as int) =~= pipeline@);
        }
        while left > 0
            invariant
                left <= pipeline.len(),
                stages_undone(pipeline@, payload) == stages_undone(
                    pipeline@.take(left as int),
                    output@,
                ),
                decompressed(data@) == stages_undone(pipeline@, payload),
            decreases left,
        {
            proof {
                assert(pipeline@.take(left as int).drop_last() =~= pipeline@.take(left - 1));
                assert(pipeline@.take(left as int).last() == pipeline[left - 1]);
            }
            left -= 1;
            let decoded = match pipeline[left] {
                Encoding::Bwt => Bwt::decode(output),
                Encoding::Rle => Rle::decode(output),
                Encoding::Mtf => Tokens::decode_mtf(output),
                Encoding::Huff => Huff::decode(output),
            };
            match decoded {
                Ok(bytes) => {
                    output = bytes;
                },
                Err(e) => {
                    return Err(e);
                },
            }
        }
        proof {
            assert(pipeline@.take(0) =~= Seq::<Encoding>::empty());
        }
        Ok(output)
    }
}

/// Where the inputs of a pipeline fit, those of each shorter pipeline fit.
pub proof fn lemma_fit_prefix(pipeline: Seq<Encoding>, s: Seq<u8>, upto: int)
    requires
        0 <= upto <= pipeline.len(),
        stage_inputs_fit(pipeline, s),
    ensures
        stage_inputs_fit(pipeline.take(upto), s),
    decreases pipeline.len(),
{
    if upto < pipeline.len() {
        assert(pipeline.drop_last().take(upto) =~= pipeline.take(upto));
        lemma_fit_prefix(pipeline.drop_last(), s, upto);
    } else {
        assert(pipeline.take(upto) =~= pipeline);
    }
}

} // verus!
