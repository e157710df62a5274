//! Decompressing undoes compressing wherever each stage can be undone.

use crate::encoders::encoder::{
    all_tags, compressed, decompressed, stage_decoded, stage_encoded, stages_applied,
    stages_named, stages_undone, tags_of, Encoding, SEPARATOR,
};
use crate::error::ParseError;
use crate::proofs::bwt::lemma_bwt_round_trip;
use crate::proofs::huff::lemma_huff_round_trip;
use crate::proofs::mtf::{lemma_mtf_round_trip, mtf_reversible};
use crate::proofs::rle::{lemma_rle_round_trip, rle_reversible};
use crate::utils::{lemma_position_of_is, position_of};
use vstd::prelude::*;

verus! {

/// Whether the inverse of a stage brings back `s`. The transform and the
/// Huffman stage take every buffer whose length the machine can hold; see
/// the other two stages for what they ask of a buffer.
pub open spec fn stage_reversible(stage: Encoding, s: Seq<u8>) -> bool {
    match stage {
        Encoding::Bwt => s.len() <= u32::MAX,
        Encoding::Mtf => mtf_reversible(s),
        Encoding::Rle => rle_reversible(s),
        Encoding::Huff => s.len() <= usize::MAX,
    }
}

/// Whether every stage of the pipeline gets a buffer that its inverse
/// brings back.
pub open spec fn pipeline_reversible(pipeline: Seq<Encoding>, s: Seq<u8>) -> bool
    decreases pipeline.len(),
{
    if pipeline.len() == 0 {
        true
    } else {
        &&& pipeline_reversible(pipeline.drop_last(), s)
        &&& stage_reversible(pipeline.last(), stages_applied(pipeline.drop_last(), s))
    }
}

/// The inverse of a stage undoes the stage.
pub proof fn lemma_stage_round_trip(stage: Encoding, s: Seq<u8>)
    requires
        stage_reversible(stage, s),
    ensures
        stage_decoded(stage, stage_encoded(stage, s)) == Ok::<Seq<u8>, ParseError>(s),
{
    match stage {
        Encoding::Bwt => lemma_bwt_round_trip(s),
        Encoding::Mtf => lemma_mtf_round_trip(s),
        Encoding::Rle => lemma_rle_round_trip(s),
        Encoding::Huff => lemma_huff_round_trip(s),
    }
}

/// The inverses, applied from the last stage back, undo the stages.
pub proof fn lemma_stages_round_trip(pipeline: Seq<Encoding>, s: Seq<u8>)
    requires
        pipeline_reversible(pipeline, s),
    ensures
        stages_undone(pipeline, stages_applied(pipeline, s)) == Ok::<Seq<u8>, ParseError>(s),
    decreases pipeline.len(),
{
    if pipeline.len() > 0 {
        let inner = stages_applied(pipeline.drop_last(), s);
        lemma_stage_round_trip(pipeline.last(), inner);
        lemma_stages_round_trip(pipeline.drop_last(), s);
    }
}

/// The stage header of a container is read back as the pipeline, and what
/// follows it is the payload.
pub proof fn lemma_header_round_trip(pipeline: Seq<Encoding>, payload: Seq<u8>)
    ensures
        position_of(tags_of(pipeline) + seq![SEPARATOR] + payload, SEPARATOR) == pipeline.len(),
        all_tags(tags_of(pipeline)),
        stages_named(tags_of(pipeline)) == pipeline,
        (tags_of(pipeline) + seq![SEPARATOR] + payload).take(pipeline.len() as int) == tags_of(
            pipeline,
        ),
        (tags_of(pipeline) + seq![SEPARATOR] + payload).skip(pipeline.len() as int + 1) == payload,
{
    let tags = tags_of(pipeline);
    let container = tags + seq![SEPARATOR] + payload;
    let end = pipeline.len() as int;
    assert(container[end] == SEPARATOR);
    assert forall|j: int| 0 <= j < end implies container[j] != SEPARATOR by {
        assert(container[j] == pipeline[j].spec_tag());
    }
    lemma_position_of_is(container, SEPARATOR, end);
    assert(stages_named(tags) =~= pipeline);
    assert(container.take(end) =~= tags);
    assert(container.skip(end + 1) =~= payload);
}

/// Decompressing undoes compressing, for every pipeline and every buffer
/// on which each stage can be undone.
pub proof fn lemma_round_trip(pipeline: Seq<Encoding>, s: Seq<u8>)
    requires
        pipeline_reversible(pipeline, s),
    ensures
        decompressed(compressed(pipeline, s)) == Ok::<Seq<u8>, ParseError>(s),
{
    lemma_header_round_trip(pipeline, stages_applied(pipeline, s));
    lemma_stages_round_trip(pipeline, s);
}

/// A pipeline of one stage brings back the empty buffer, whatever the
/// stage.
pub proof fn lemma_empty_round_trip(stage: Encoding)
    ensures
        decompressed(compressed(seq![stage], Seq::<u8>::empty())) == Ok::<Seq<u8>, ParseError>(
            Seq::<u8>::empty(),
        ),
{
    let empty = Seq::<u8>::empty();
    let pipeline = seq![stage];
    assert(pipeline.drop_last() =~= Seq::<Encoding>::empty());
    assert(stages_applied(pipeline.drop_last(), empty) == empty);
    assert(pipeline_reversible(pipeline.drop_last(), empty));
    assert(pipeline_reversible(pipeline, empty));
    lemma_round_trip(pipeline, empty);
}

/// A pipeline of one stage brings back a buffer of one byte, unless the
/// stage is move-to-front.
pub proof fn lemma_single_byte_round_trip(stage: Encoding, x: u8)
    requires
        stage != Encoding::Mtf,
    ensures
        decompressed(compressed(seq![stage], seq![x])) == Ok::<Seq<u8>, ParseError>(seq![x]),
{
    let s = seq![x];
    let pipeline = seq![stage];
    assert(pipeline.drop_last() =~= Seq::<Encoding>::empty());
    assert(stages_applied(pipeline.drop_last(), s) == s);
    assert(pipeline_reversible(pipeline.drop_last(), s));
    assert(pipeline_reversible(pipeline, s));
    lemma_round_trip(pipeline, s);
}

/// A pipeline of the transform alone or of the Huffman stage alone brings
/// back every buffer, one of equal bytes too.
pub proof fn lemma_unconditional_round_trip(stage: Encoding, s: Seq<u8>)
    requires
        stage == Encoding::Bwt || stage == Encoding::Huff,
        s.len() <= u32::MAX,
    ensures
        decompressed(compressed(seq![stage], s)) == Ok::<Seq<u8>, ParseError>(s),
{
    let pipeline = seq![stage];
    assert(pipeline.drop_last() =~= Seq::<Encoding>::empty());
    assert(stages_applied(pipeline.drop_last(), s) == s);
    assert(pipeline_reversible(pipeline.drop_last(), s));
    assert(pipeline_reversible(pipeline, s));
    lemma_round_trip(pipeline, s);
}

} // verus!
