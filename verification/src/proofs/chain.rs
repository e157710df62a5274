//! The chain that the inverse transform follows ends at the mark, whatever the
//! last column is.

use crate::encoders::bwt::{
    chain, count_in, first_column, has_row, is_row, lemma_count_in_grows, lemma_row_unique,
    rank_in, row_of, sorted_bytes, tokens_of, BwtToken,
};
use crate::proofs::bwt::lemma_count_in_is_occurrences;
use crate::proofs::counting::{lemma_occurrences_multiset, lemma_occurrences_remove, occurrences};
use vstd::prelude::*;
use vstd::set_lib::{lemma_int_range, lemma_len_subset, set_int_range};

verus! {

/// Whether two columns can be the last and the first column of one table:
/// they hold the same tokens equally often, the mark once, and the first
/// column holds it in row 0.
pub open spec fn columns_fit(last: Seq<BwtToken>, first: Seq<BwtToken>) -> bool {
    &&& last.len() == first.len()
    &&& first.len() >= 1
    &&& first[0] == BwtToken::Delim
    &&& count_in(last, BwtToken::Delim) == 1
    &&& forall|token: BwtToken| count_in(last, token) == #[trigger] count_in(first, token)
}

/// The row that the chain goes to from row `r`: the row of the first
/// column that holds the pair of row `r` of the last column.
pub open spec fn turn(last: Seq<BwtToken>, first: Seq<BwtToken>, r: int) -> int {
    row_of(first, last[r], rank_in(last, r))
}

/// A token has a row for every rank below its count.
pub proof fn lemma_rank_has_row(column: Seq<BwtToken>, token: BwtToken, k: nat)
    requires
        k < count_in(column, token),
    ensures
        has_row(column, token, k),
    decreases column.len(),
{
    let shorter = column.drop_last();
    if k < count_in(shorter, token) {
        lemma_rank_has_row(shorter, token, k);
        let r = choose|r: int| is_row(shorter, token, k, r);
        assert(shorter.take(r) =~= column.take(r));
        assert(is_row(column, token, k, r));
    } else {
        let r = column.len() - 1;
        assert(column.take(r) =~= shorter);
        assert(is_row(column, token, k, r));
    }
}

/// The pair of every row of the last column has its row in the first
/// column.
pub proof fn lemma_turn(last: Seq<BwtToken>, first: Seq<BwtToken>, r: int)
    requires
        columns_fit(last, first),
        0 <= r < last.len(),
    ensures
        has_row(first, last[r], rank_in(last, r)),
        is_row(first, last[r], rank_in(last, r), turn(last, first, r)),
        last[r] == BwtToken::Delim <==> turn(last, first, r) == 0,
{
    let token = last[r];
    let k = rank_in(last, r);
    lemma_count_in_grows(last, token, r);
    assert(count_in(last, token) == count_in(first, token));
    lemma_rank_has_row(first, token, k);
    let to = turn(last, first, r);
    assert(first.take(0) =~= Seq::<BwtToken>::empty());
    assert(rank_in(first, 0) == 0);
    if token == BwtToken::Delim {
        assert(k == 0);
        assert(is_row(first, token, k, 0));
        lemma_row_unique(first, token, k, 0, to);
    }
}

/// The chain comes to a row from one row only.
pub proof fn lemma_turn_injective(last: Seq<BwtToken>, first: Seq<BwtToken>, a: int, b: int)
    requires
        columns_fit(last, first),
        0 <= a < last.len(),
        0 <= b < last.len(),
        turn(last, first, a) == turn(last, first, b),
    ensures
        a == b,
{
    lemma_turn(last, first, a);
    lemma_turn(last, first, b);
    let to = turn(last, first, a);
    assert(is_row(last, first[to], rank_in(first, to), a));
    assert(is_row(last, first[to], rank_in(first, to), b));
    lemma_row_unique(last, first[to], rank_in(first, to), a, b);
}

/// Whether `rows` are the rows that the chain has met so far, from row 0
/// on, none of them but the last one holding the mark.
pub open spec fn is_way(last: Seq<BwtToken>, first: Seq<BwtToken>, rows: Seq<int>) -> bool {
    &&& rows.len() >= 1
    &&& rows[0] == 0
    &&& forall|i: int| 0 <= i < rows.len() ==> 0 <= #[trigger] rows[i] < last.len()
    &&& forall|i: int|
        0 <= i < rows.len() - 1 ==> last[#[trigger] rows[i]] != BwtToken::Delim && rows[i + 1]
            == turn(last, first, rows[i])
}

/// The chain meets no row twice.
pub proof fn lemma_way_is_new(last: Seq<BwtToken>, first: Seq<BwtToken>, rows: Seq<int>)
    requires
        columns_fit(last, first),
        is_way(last, first, rows),
    ensures
        rows.no_duplicates(),
        rows.len() <= last.len(),
    decreases rows.len(),
{
    if rows.len() > 1 {
        let before = rows.drop_last();
        assert(is_way(last, first, before)) by {
            assert forall|i: int| 0 <= i < before.len() - 1 implies last[#[trigger] before[i]]
                != BwtToken::Delim && before[i + 1] == turn(last, first, before[i]) by {
                assert(before[i] == rows[i]);
            }
            assert forall|i: int| 0 <= i < before.len() implies 0 <= #[trigger] before[i]
                < last.len() by {
                assert(before[i] == rows[i]);
            }
        }
        lemma_way_is_new(last, first, before);
        let end = rows.len() - 1;
        let from = rows[end - 1];
        assert(rows[end] == turn(last, first, from));
        assert forall|j: int| 0 <= j < end implies rows[j] != rows[end] by {
            if rows[j] == rows[end] {
                if j == 0 {
                    lemma_turn(last, first, from);
                } else {
                    assert(rows[j] == turn(last, first, rows[j - 1]));
                    lemma_turn_injective(last, first, rows[j - 1], from);
                    assert(before[j - 1] == before[end - 1]);
                }
            }
        }
        assert forall|i: int, j: int| 0 <= i < rows.len() && 0 <= j < rows.len() && i
            != j implies rows[i] != rows[j] by {
            if i < end && j < end {
                assert(before[i] != before[j]);
            }
        }
    }
    rows.unique_seq_to_set();
    lemma_int_range(0, last.len() as int);
    assert(rows.to_set().subset_of(set_int_range(0, last.len() as int))) by {
        assert forall|x: int| rows.to_set().contains(x) implies set_int_range(
            0,
            last.len() as int,
        ).contains(x) by {
            let i = choose|i: int| 0 <= i < rows.len() && rows[i] == x;
            assert(0 <= rows[i] < last.len());
        }
    }
    lemma_len_subset(rows.to_set(), set_int_range(0, last.len() as int));
}

/// From the last row of a way the chain comes to the mark, where it has as
/// many steps left as there are rows not met yet.
pub proof fn lemma_way_ends(
    last: Seq<BwtToken>,
    first: Seq<BwtToken>,
    rows: Seq<int>,
    fuel: nat,
)
    requires
        columns_fit(last, first),
        is_way(last, first, rows),
        fuel + rows.len() >= last.len() + 1,
    ensures
        chain(last, first, first[rows.last()], rank_in(first, rows.last()), fuel) is Some,
    decreases fuel,
{
    lemma_way_is_new(last, first, rows);
    let r = rows.last();
    assert(0 <= rows[rows.len() - 1] < last.len());
    let token = first[r];
    let k = rank_in(first, r);
    assert(is_row(first, token, k, r));
    lemma_row_unique(first, token, k, r, row_of(first, token, k));
    if last[r] != BwtToken::Delim {
        lemma_turn(last, first, r);
        let to = turn(last, first, r);
        let longer = rows.push(to);
        assert(is_way(last, first, longer)) by {
            assert forall|i: int| 0 <= i < longer.len() implies 0 <= #[trigger] longer[i]
                < last.len() by {
                if i < rows.len() {
                    assert(longer[i] == rows[i]);
                }
            }
            assert forall|i: int| 0 <= i < longer.len() - 1 implies last[#[trigger] longer[i]]
                != BwtToken::Delim && longer[i + 1] == turn(last, first, longer[i]) by {
                assert(longer[i] == rows[i]);
                if i < rows.len() - 1 {
                    assert(longer[i + 1] == rows[i + 1]);
                }
            }
        }
        lemma_way_is_new(last, first, longer);
        lemma_way_ends(last, first, longer, (fuel - 1) as nat);
    }
}

/// The bytes of a column as tokens.
pub open spec fn as_tokens(column: Seq<u8>) -> Seq<BwtToken> {
    Seq::new(column.len(), |i: int| BwtToken::Byte(column[i]))
}

/// The tokens of the bytes occur as often as the bytes, and the mark is
/// not among them.
pub proof fn lemma_as_tokens_counts(column: Seq<u8>, token: BwtToken)
    ensures
        occurrences(as_tokens(column), token) == match token {
            BwtToken::Delim => 0,
            BwtToken::Byte(b) => occurrences(column, b),
        },
    decreases column.len(),
{
    if column.len() > 0 {
        lemma_as_tokens_counts(column.drop_last(), token);
        assert(as_tokens(column).drop_last() =~= as_tokens(column.drop_last()));
    }
}

/// How often a token occurs in a column with the mark.
pub proof fn lemma_tokens_of_counts(column: Seq<u8>, p: int, token: BwtToken)
    requires
        0 <= p <= column.len(),
    ensures
        count_in(tokens_of(column, p), token) == match token {
            BwtToken::Delim => 1,
            BwtToken::Byte(b) => occurrences(column, b),
        },
{
    let whole = tokens_of(column, p);
    lemma_occurrences_remove(whole, p, token);
    assert(whole.remove(p) =~= as_tokens(column));
    lemma_as_tokens_counts(column, token);
    lemma_count_in_is_occurrences(whole, token);
}

/// The columns that the decoder makes fit each other.
pub proof fn lemma_decoder_columns_fit(column: Seq<u8>, p: int)
    requires
        0 <= p <= column.len(),
    ensures
        columns_fit(tokens_of(column, p), first_column(column)),
{
    broadcast use vstd::seq_lib::group_to_multiset_ensures;

    let last = tokens_of(column, p);
    let first = first_column(column);
    let sorted = sorted_bytes(column);
    let leq = |a: u8, b: u8| a <= b;
    assert(vstd::relations::total_ordering(leq));
    column.lemma_sort_by_ensures(leq);
    assert(sorted.len() == column.len()) by {
        sorted.to_multiset_ensures();
        column.to_multiset_ensures();
    }
    lemma_tokens_of_counts(column, p, BwtToken::Delim);
    assert forall|token: BwtToken| count_in(last, token) == #[trigger] count_in(first, token) by {
        lemma_tokens_of_counts(column, p, token);
        lemma_tokens_of_counts(sorted, 0, token);
        if let BwtToken::Byte(b) = token {
            lemma_occurrences_multiset(column, b);
            lemma_occurrences_multiset(sorted, b);
        }
    }
}

/// The chain of the decoder never breaks: it comes to the mark from every
/// last column and every primary index within it.
pub proof fn lemma_every_column_unwinds(column: Seq<u8>, p: int)
    requires
        0 <= p <= column.len(),
    ensures
        chain(
            tokens_of(column, p),
            first_column(column),
            BwtToken::Delim,
            0,
            column.len() + 1,
        ) is Some,
{
    let last = tokens_of(column, p);
    let first = first_column(column);
    lemma_decoder_columns_fit(column, p);
    let rows = seq![0int];
    assert(is_way(last, first, rows));
    assert(first.take(0) =~= Seq::<BwtToken>::empty());
    assert(rank_in(first, 0) == 0);
    lemma_way_ends(last, first, rows, column.len() + 1);
}

} // verus!
