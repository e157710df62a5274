//! The adaptive move-to-front stage. The alphabet is found in the input, and
//! is written in front of the indices.

use super::encoder::Tokens;
use crate::error::{
    followed_by, lemma_followed_by_nothing, lemma_followed_by_twice, result_view, staged, Fault,
    ParseError, Stage,
};
use crate::proofs::mtf::{lemma_mtf_round_trip, mtf_reversible};
use crate::utils::{index_of, lemma_position_of, lemma_position_of_is, position_of};
use vstd::prelude::*;
use vstd::std_specs::cmp::PartialEqSpec;
use vstd::set_lib::{lemma_int_range, lemma_len_subset, set_int_range};

verus! {

/// The alphabet after `b` was met: `b` stands first, taken from where it
/// stood before, if it stood anywhere.
pub open spec fn moved_to_front(alphabet: Seq<u8>, b: u8) -> Seq<u8> {
    let at = position_of(alphabet, b) as int;
    if at < alphabet.len() {
        alphabet.remove(at).insert(0, b)
    } else {
        alphabet.insert(0, b)
    }
}

/// The alphabet after the bytes of `s` were met in order: the distinct
/// bytes of `s`, the one met last standing first.
pub open spec fn mtf_alphabet(s: Seq<u8>) -> Seq<u8>
    decreases s.len(),
{
    if s.len() == 0 {
        Seq::empty()
    } else {
        moved_to_front(mtf_alphabet(s.drop_last()), s.last())
    }
}

/// The index written for each byte of `s`: where the byte stood in the
/// alphabet before it was met, or the length of that alphabet where it was
/// new.
pub open spec fn mtf_indices(s: Seq<u8>) -> Seq<u8>
    decreases s.len(),
{
    if s.len() == 0 {
        Seq::empty()
    } else {
        mtf_indices(s.drop_last()).push(
            position_of(mtf_alphabet(s.drop_last()), s.last()) as u8,
        )
    }
}

/// The move-to-front coding of `s`: the final alphabet, its first byte once
/// more to close it, then the indices. The empty buffer stays empty.
pub open spec fn mtf_encoded(s: Seq<u8>) -> Seq<u8> {
    if s.len() == 0 {
        s
    } else {
        mtf_alphabet(s) + seq![mtf_alphabet(s)[0]] + mtf_indices(s)
    }
}

/// The bytes that the indices stand for, found by undoing the moves from
/// the last index back: the head of the alphabet is the byte, and it goes
/// back to where the index says. Fails at an index past the alphabet.
pub open spec fn mtf_replayed(alphabet: Seq<u8>, indices: Seq<u8>) -> Result<Seq<u8>, Fault>
    decreases indices.len(),
{
    if indices.len() == 0 {
        Ok(Seq::empty())
    } else if indices.last() >= alphabet.len() {
        Err(Fault::IndexOutOfRange)
    } else {
        followed_by(
            mtf_replayed(
                alphabet.remove(0).insert(indices.last() as int, alphabet[0]),
                indices.drop_last(),
            ),
            seq![alphabet[0]],
        )
    }
}

/// Where the alphabet of `s` ends: at the first byte from index 2 on that
/// equals the first byte. The length of `s` where there is none.
pub open spec fn terminator_at(s: Seq<u8>) -> int {
    if s.len() < 2 {
        s.len() as int
    } else {
        2 + position_of(s.skip(2), s[0]) as int
    }
}

/// What decoding `s` gives. The empty buffer stays empty.
pub open spec fn mtf_decoded(s: Seq<u8>) -> Result<Seq<u8>, ParseError> {
    if s.len() == 0 {
        Ok(s)
    } else if terminator_at(s) >= s.len() {
        Err(ParseError { stage: Stage::Mtf, fault: Fault::MissingTerminator })
    } else {
        staged(
            Stage::Mtf,
            mtf_replayed(s.take(terminator_at(s)), s.skip(terminator_at(s) + 1)),
        )
    }
}

/// There are at most 256 distinct bytes.
pub proof fn lemma_distinct_bytes_bounded(s: Seq<u8>)
    requires
        s.no_duplicates(),
    ensures
        s.len() <= 256,
{
    let f = |b: u8| b as int;
    assert(vstd::relations::injective(f));
    s.lemma_no_duplicates_injective(f);
    let m = s.map_values(f);
    m.unique_seq_to_set();
    lemma_int_range(0, 256);
    assert(m.to_set().subset_of(set_int_range(0, 256))) by {
        assert forall|x: int| m.to_set().contains(x) implies set_int_range(0, 256).contains(x) by {
            let i = choose|i: int| 0 <= i < m.len() && m[i] == x;
            assert(m[i] == s[i] as int);
        }
    }
    lemma_len_subset(m.to_set(), set_int_range(0, 256));
}

/// Moving to the front keeps the bytes distinct, adds `b` and nothing else.
pub proof fn lemma_moved_to_front(alphabet: Seq<u8>, b: u8)
    requires
        alphabet.no_duplicates(),
    ensures
        moved_to_front(alphabet, b).no_duplicates(),
        moved_to_front(alphabet, b).len() > 0,
        moved_to_front(alphabet, b)[0] == b,
        forall|x: u8| moved_to_front(alphabet, b).contains(x) <==> alphabet.contains(x) || x == b,
        alphabet.contains(b) ==> moved_to_front(alphabet, b).len() == alphabet.len(),
        !alphabet.contains(b) ==> moved_to_front(alphabet, b).len() == alphabet.len() + 1,
        alphabet.contains(b) <==> position_of(alphabet, b) < alphabet.len(),
{
    lemma_position_of(alphabet, b);
    let at = position_of(alphabet, b) as int;
    let moved = moved_to_front(alphabet, b);
    if at < alphabet.len() {
        let without = alphabet.remove(at);
        assert forall|i: int| 0 <= i < without.len() implies without[i] != b && without[i] == (if i
            < at {
            alphabet[i]
        } else {
            alphabet[i + 1]
        }) by {}
        assert forall|i: int| 1 <= i < moved.len() implies moved[i] == without[i - 1] by {}
        assert(moved[0] == b);
        assert forall|x: u8| moved.contains(x) <==> alphabet.contains(x) || x == b by {
            if moved.contains(x) {
                let i = choose|i: int| 0 <= i < moved.len() && moved[i] == x;
                if i > 0 {
                    assert(moved[i] == without[i - 1]);
                }
            }
            if alphabet.contains(x) && x != b {
                let i = choose|i: int| 0 <= i < alphabet.len() && alphabet[i] == x;
                if i < at {
                    assert(moved[i + 1] == x);
                } else {
                    assert(moved[i] == without[i - 1]);
                    assert(moved[i] == x);
                }
            }
        }
        assert(alphabet.contains(b));
    } else {
        assert(!alphabet.contains(b));
        assert forall|i: int| 1 <= i < moved.len() implies moved[i] == alphabet[i - 1] by {}
        assert forall|x: u8| moved.contains(x) <==> alphabet.contains(x) || x == b by {
            if moved.contains(x) {
                let i = choose|i: int| 0 <= i < moved.len() && moved[i] == x;
                if i > 0 {
                    assert(moved[i] == alphabet[i - 1]);
                }
            }
            if alphabet.contains(x) {
                let i = choose|i: int| 0 <= i < alphabet.len() && alphabet[i] == x;
                assert(moved[i + 1] == x);
            }
            if x == b {
                assert(moved[0] == x);
            }
        }
    }
}

/// The alphabet of a buffer holds each byte of the buffer once, and no
/// other byte.
pub proof fn lemma_mtf_alphabet_exact(s: Seq<u8>)
    ensures
        mtf_alphabet(s).no_duplicates(),
        forall|x: u8| mtf_alphabet(s).contains(x) <==> s.contains(x),
        mtf_alphabet(s).len() <= 256,
        s.len() > 0 ==> mtf_alphabet(s).len() > 0 && mtf_alphabet(s)[0] == s.last(),
    decreases s.len(),
{
    if s.len() > 0 {
        let before = mtf_alphabet(s.drop_last());
        lemma_mtf_alphabet_exact(s.drop_last());
        lemma_moved_to_front(before, s.last());
        assert forall|x: u8| mtf_alphabet(s).contains(x) <==> s.contains(x) by {
            if s.contains(x) {
                let i = choose|i: int| 0 <= i < s.len() && s[i] == x;
                if i < s.len() - 1 {
                    assert(s.drop_last()[i] == x);
                }
            }
            if s.drop_last().contains(x) {
                let i = choose|i: int| 0 <= i < s.drop_last().len() && s.drop_last()[i] == x;
                assert(s[i] == x);
            }
            if x == s.last() {
                assert(s[s.len() - 1] == x);
            }
        }
    }
    lemma_distinct_bytes_bounded(mtf_alphabet(s));
}

/// The adaptive move-to-front stage. The alphabet is not fixed beforehand:
/// it is found in the input and written in front of the indices.
pub trait Mtf {
    /// Codes a buffer by move-to-front. `decode_mtf` brings the buffer
    /// back, unless all its bytes are equal.
    fn encode_mtf(input: Vec<u8>) -> (output: Vec<u8>)
        ensures
            output@ == mtf_encoded(input@),
            mtf_reversible(input@) ==> mtf_decoded(output@) == Ok::<Seq<u8>, ParseError>(input@),
    ;

    /// Undoes `encode_mtf`. Fails where the alphabet is not closed, or an
    /// index points past it.
    fn decode_mtf(input: Vec<u8>) -> (result: Result<Vec<u8>, ParseError>)
        ensures
            result_view(result) == mtf_decoded(input@),
    ;
}

impl Mtf for Tokens {
    fn encode_mtf(input: Vec<u8>) -> (output: Vec<u8>) {
        if input.len() == 0 {
            proof {
                lemma_mtf_round_trip(input@);
            }
            return input;
        }
        let mut alphabet: Vec<u8> = Vec::new();
        let mut data: Vec<u8> = Vec::new();
        let mut i: usize = 0;
        proof {
            assert(input@.take(0) =~= Seq::<u8>::empty());
        }
        while i < input.len()
            invariant
                i <= input.len(),
                alphabet@ == mtf_alphabet(input@.take(i as int)),
                data@ == mtf_indices(input@.take(i as int)),
            decreases input.len() - i,
        {
            let byte: u8 = input[i];
            proof {
                assert(input@.take(i + 1).drop_last() =~= input@.take(i as int));
                assert(input@.take(i + 1).last() == byte);
                lemma_mtf_alphabet_exact(input@.take(i as int));
                lemma_mtf_alphabet_exact(input@.take(i + 1));
                lemma_moved_to_front(alphabet@, byte);
                lemma_position_of(alphabet@, byte);
            }
            let found = index_of(&alphabet, &byte);
            proof {
                match found {
                    Some(at) => {
                        assert(alphabet[at as int].eq_spec(&byte));
                        assert forall|j: int| 0 <= j < at implies alphabet[j] != byte by {
                            assert(!alphabet[j].eq_spec(&byte));
                        }
                        lemma_position_of_is(alphabet@, byte, at as int);
                    },
                    None => {
                        assert forall|j: int| 0 <= j < alphabet.len() implies alphabet[j]
                            != byte by {
                            assert(!alphabet[j].eq_spec(&byte));
                        }
                        lemma_position_of_is(alphabet@, byte, alphabet.len() as int);
                    },
                }
            }
            match found {
                Some(index) => {
                    alphabet.remove(index);
                    alphabet.insert(0, byte);
                    data.push(index as u8);
                },
                None => {
                    alphabet.insert(0, byte);
                    data.push((alphabet.len() - 1) as u8);
                },
            }
            i += 1;
        }
        proof {
            assert(input@.take(input.len() as int) =~= input@);
            lemma_mtf_alphabet_exact(input@);
        }
        let first: u8 = alphabet[0];
        alphabet.push(first);
        alphabet.append(&mut data);
        proof {
            assert(alphabet@ == mtf_encoded(input@));
            if mtf_reversible(input@) {
                lemma_mtf_round_trip(input@);
            }
        }
        alphabet
    }

    fn decode_mtf(input: Vec<u8>) -> (result: Result<Vec<u8>, ParseError>) {
        if input.len() == 0 {
            return Ok(input);
        }
        if input.len() < 2 {
            return Err(ParseError { stage: Stage::Mtf, fault: Fault::MissingTerminator });
        }
        let first: u8 = input[0];
        let ghost tail = input@.skip(2);
        let mut end: usize = 2;
        while end < input.len() && input[end] != first
            invariant
                2 <= end <= input.len(),
                first == input[0],
                forall|j: int| 0 <= j < end - 2 ==> input@.skip(2)[j] != first,
            decreases input.len() - end,
        {
            end += 1;
        }
        proof {
            if end < input.len() {
                assert(input@.skip(2)[end - 2] == first);
            }
            lemma_position_of_is(input@.skip(2), first, end - 2);
        }
        if end >= input.len() {
            return Err(ParseError { stage: Stage::Mtf, fault: Fault::MissingTerminator });
        }
        let mut alphabet: Vec<u8> = Vec::new();
        let mut j: usize = 0;
        while j < end
            invariant
                j <= end < input.len(),
                alphabet@ == input@.take(j as int),
            decreases end - j,
        {
            alphabet.push(input[j]);
            assert(alphabet@ =~= input@.take(j + 1));
            j += 1;
        }
        let ghost indices = input@.skip(end + 1);
        let ghost start = alphabet@;
        let mut output: Vec<u8> = Vec::new();
        let mut k: usize = input.len();
        proof {
            assert(indices.take(indices.len() as int) =~= indices);
            lemma_followed_by_nothing(mtf_replayed(start, indices));
            assert(output@.reverse() =~= Seq::<u8>::empty());
        }
        while k > end + 1
            invariant
                end + 1 <= k <= input.len(),
                indices == input@.skip(end + 1),
                start == input@.take(end as int),
                terminator_at(input@) == end,
                mtf_replayed(start, indices) == followed_by(
                    mtf_replayed(alphabet@, indices.take(k - end - 1)),
                    output@.reverse(),
                ),
            decreases k,
        {
            let ghost left = indices.take(k - end - 1);
            let ghost before = output@;
            k -= 1;
            let index: usize = input[k] as usize;
            proof {
                assert(left.last() == input[k as int]);
                assert(left.drop_last() =~= indices.take(k - end - 1));
            }
            if index >= alphabet.len() {
                return Err(ParseError { stage: Stage::Mtf, fault: Fault::IndexOutOfRange });
            }
            let head = alphabet.remove(0);
            alphabet.insert(index, head);
            output.push(head);
            proof {
                assert(seq![head] + before.reverse() =~= output@.reverse());
                lemma_followed_by_twice(
                    mtf_replayed(alphabet@, left.drop_last()),
                    seq![head],
                    before.reverse(),
                );
            }
        }
        proof {
            assert(indices.take(0) =~= Seq::<u8>::empty());
        }
        let mut turned: Vec<u8> = Vec::new();
        let mut left: usize = output.len();
        while left > 0
            invariant
                left <= output.len(),
                turned.len() == output.len() - left,
                forall|i: int| 0 <= i < turned.len() ==> turned[i] == output[output.len() - 1 - i],
            decreases left,
        {
            left -= 1;
            turned.push(output[left]);
        }
        proof {
            assert(turned@ =~= output@.reverse());
            assert(Seq::<u8>::empty() + output@.reverse() =~= output@.reverse());
        }
        Ok(turned)
    }
}

} // verus!
