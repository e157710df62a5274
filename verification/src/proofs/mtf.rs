//! Move-to-front coding can be undone wherever the alphabet has two bytes.

use crate::encoders::mtf::{
    lemma_distinct_bytes_bounded, lemma_moved_to_front, lemma_mtf_alphabet_exact, mtf_alphabet,
    mtf_decoded, mtf_encoded, mtf_indices, mtf_replayed, terminator_at,
};
use crate::error::{Fault, ParseError};
use crate::utils::{lemma_position_of, lemma_position_of_is, position_of};
use vstd::prelude::*;

verus! {

/// Whether move-to-front coding can be undone on `s`: the buffer is empty,
/// or holds at least two different bytes. An alphabet of one byte is not
/// told from its terminator.
pub open spec fn mtf_reversible(s: Seq<u8>) -> bool {
    s.len() == 0 || exists|i: int| 0 <= i < s.len() && #[trigger] s[i] != s[0]
}

/// Undoing the moves from the final alphabet gives the buffer back. Bytes
/// behind the alphabet, different from its bytes and from each other, do
/// not disturb this.
proof fn lemma_replay_undoes(s: Seq<u8>, rest: Seq<u8>)
    requires
        (mtf_alphabet(s) + rest).no_duplicates(),
    ensures
        mtf_replayed(mtf_alphabet(s) + rest, mtf_indices(s)) == Ok::<Seq<u8>, Fault>(s),
    decreases s.len(),
{
    if s.len() == 0 {
        assert(mtf_indices(s) =~= Seq::<u8>::empty());
        assert(s =~= Seq::<u8>::empty());
    } else {
        let before = s.drop_last();
        let b = s.last();
        let a0 = mtf_alphabet(before);
        let a1 = mtf_alphabet(s);
        let idx = position_of(a0, b) as int;
        lemma_mtf_alphabet_exact(before);
        lemma_moved_to_front(a0, b);
        lemma_position_of(a0, b);
        let full = a1 + rest;
        lemma_distinct_bytes_bounded(full);
        let indices = mtf_indices(s);
        assert(indices.drop_last() =~= mtf_indices(before));
        assert(indices.last() == idx as u8);
        assert(full[0] == b);
        let shifted = full.remove(0).insert(idx, b);
        if idx < a0.len() {
            assert(a0[idx] == b);
            assert(shifted =~= a0 + rest);
            lemma_replay_undoes(before, rest);
        } else {
            let rest2 = seq![b] + rest;
            assert(a1 =~= seq![b] + a0);
            assert(shifted =~= a0 + rest2);
            assert((a0 + rest2).no_duplicates()) by {
                let moved = a0 + rest2;
                assert forall|i: int, j: int|
                    0 <= i < moved.len() && 0 <= j < moved.len() && i != j implies moved[i]
                    != moved[j] by {
                    let fi = if i < a0.len() {
                        i + 1
                    } else if i == a0.len() {
                        0
                    } else {
                        i
                    };
                    let fj = if j < a0.len() {
                        j + 1
                    } else if j == a0.len() {
                        0
                    } else {
                        j
                    };
                    assert(moved[i] == full[fi]);
                    assert(moved[j] == full[fj]);
                }
            }
            lemma_replay_undoes(before, rest2);
        }
        assert(before + seq![b] =~= s);
    }
}

/// Decoding undoes encoding on every buffer that is empty or holds two
/// different bytes.
pub proof fn lemma_mtf_round_trip(s: Seq<u8>)
    requires
        mtf_reversible(s),
    ensures
        mtf_decoded(mtf_encoded(s)) == Ok::<Seq<u8>, ParseError>(s),
{
    if s.len() > 0 {
        let alphabet = mtf_alphabet(s);
        let indices = mtf_indices(s);
        let coded = mtf_encoded(s);
        lemma_mtf_alphabet_exact(s);
        let i = choose|i: int| 0 <= i < s.len() && #[trigger] s[i] != s[0];
        assert(s.contains(s[i]) && s.contains(s[0]));
        assert(alphabet.contains(s[i]) && alphabet.contains(s[0]));
        let p = choose|p: int| 0 <= p < alphabet.len() && alphabet[p] == s[i];
        let q = choose|q: int| 0 <= q < alphabet.len() && alphabet[q] == s[0];
        assert(p != q);
        let k = alphabet.len() as int;
        assert(k >= 2);
        assert(coded[0] == alphabet[0]);
        assert(coded[k] == alphabet[0]);
        assert forall|j: int| 0 <= j < k - 2 implies coded.skip(2)[j] != alphabet[0] by {
            assert(coded.skip(2)[j] == alphabet[j + 2]);
        }
        assert(coded.skip(2)[k - 2] == alphabet[0]);
        lemma_position_of_is(coded.skip(2), alphabet[0], k - 2);
        assert(terminator_at(coded) == k);
        assert(coded.take(k) =~= alphabet);
        assert(coded.skip(k + 1) =~= indices);
        assert(alphabet + Seq::<u8>::empty() =~= alphabet);
        lemma_replay_undoes(s, Seq::empty());
    }
}

/// The alphabet that is written in front of the indices holds exactly the
/// bytes that occur in the buffer, each of them once.
pub proof fn lemma_mtf_alphabet_is_written(s: Seq<u8>)
    requires
        s.len() > 0,
    ensures
        mtf_encoded(s).take(mtf_alphabet(s).len() as int) == mtf_alphabet(s),
        mtf_alphabet(s).no_duplicates(),
        forall|x: u8| mtf_alphabet(s).contains(x) <==> s.contains(x),
        mtf_encoded(s).len() == mtf_alphabet(s).len() + 1 + s.len(),
{
    lemma_mtf_alphabet_exact(s);
    lemma_mtf_indices_len(s);
    assert(mtf_encoded(s).take(mtf_alphabet(s).len() as int) =~= mtf_alphabet(s));
}

/// There is one index for each byte.
pub proof fn lemma_mtf_indices_len(s: Seq<u8>)
    ensures
        mtf_indices(s).len() == s.len(),
    decreases s.len(),
{
    if s.len() > 0 {
        lemma_mtf_indices_len(s.drop_last());
    }
}

} // verus!
