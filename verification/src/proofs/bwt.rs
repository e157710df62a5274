//! The inverse transform brings the text back: the rows of the sorted suffixes
//! are followed from the empty suffix to the whole text.

use crate::encoders::bwt::{
    all_digits, bwt_decoded, bwt_encoded, chain, count_in, digit_value, digits_value,
    first_column, header_digits, header_value, is_row, is_suffix_array, last_column,
    lemma_row_unique, lemma_suffix_lt_asymmetric, lemma_suffix_lt_irreflexive, lists,
    primary_index, rank_in, row_of, sorted_bytes, suffix_array, suffix_lt, tokens_of, unwound,
    BwtToken, HEADER_END,
};
use crate::error::ParseError;
use crate::proofs::counting::{lemma_occurrences_injection, lemma_same_occurrences, occurrences};
use crate::utils::{digit_byte, lemma_position_of_is, position_of, radix_digits};
use vstd::prelude::*;

verus! {

/// The row of the suffix that starts at `k`.
pub open spec fn row(sa: Seq<u32>, k: int) -> int {
    choose|i: int| 0 <= i < sa.len() && #[trigger] sa[i] == k
}

/// Every suffix has one row, and the empty suffix has row 0.
pub proof fn lemma_rows(s: Seq<u8>, sa: Seq<u32>)
    requires
        is_suffix_array(s, sa),
    ensures
        forall|k: int|
            0 <= k <= s.len() ==> 0 <= #[trigger] row(sa, k) < sa.len() && sa[row(sa, k)] == k,
        forall|i: int| 0 <= i < sa.len() ==> #[trigger] row(sa, sa[i] as int) == i,
        forall|i: int, j: int| 0 <= i < sa.len() && 0 <= j < sa.len() && i != j ==> sa[i] != sa[j],
        sa[0] == s.len(),
{
    assert forall|i: int, j: int| 0 <= i < sa.len() && 0 <= j < sa.len() && i != j implies sa[i]
        != sa[j] by {
        lemma_suffix_lt_irreflexive(s, sa[i] as int);
        if i < j {
            assert(suffix_lt(s, sa[i] as int, sa[j] as int));
        } else {
            assert(suffix_lt(s, sa[j] as int, sa[i] as int));
        }
    }
    assert forall|k: int| 0 <= k <= s.len() implies 0 <= #[trigger] row(sa, k) < sa.len()
        && sa[row(sa, k)] == k by {
        assert(lists(sa, k));
    }
    assert forall|i: int| 0 <= i < sa.len() implies #[trigger] row(sa, sa[i] as int) == i by {
        assert(sa[i] <= s.len());
        assert(lists(sa, sa[i] as int));
    }
    let top = row(sa, s.len() as int);
    if top > 0 {
        assert(suffix_lt(s, sa[0] as int, sa[top] as int));
    }
}

/// A suffix that sorts before another has its row above the other's.
pub proof fn lemma_row_order(s: Seq<u8>, sa: Seq<u32>, a: int, b: int)
    requires
        is_suffix_array(s, sa),
        0 <= a <= s.len(),
        0 <= b <= s.len(),
        suffix_lt(s, a, b),
    ensures
        row(sa, a) < row(sa, b),
{
    lemma_rows(s, sa);
    let i = row(sa, a);
    let j = row(sa, b);
    lemma_suffix_lt_irreflexive(s, a);
    lemma_suffix_lt_asymmetric(s, a, b);
    if j < i {
        assert(suffix_lt(s, sa[j] as int, sa[i] as int));
    }
}

/// The token in front of the suffix of row `r`: the mark in front of the
/// whole text.
pub open spec fn last_token(s: Seq<u8>, sa: Seq<u32>, r: int) -> BwtToken {
    if sa[r] == 0 {
        BwtToken::Delim
    } else {
        BwtToken::Byte(s[sa[r] - 1])
    }
}

/// The token that the suffix of row `r` starts with: the mark for the empty
/// suffix.
pub open spec fn first_token(s: Seq<u8>, sa: Seq<u32>, r: int) -> BwtToken {
    if sa[r] >= s.len() {
        BwtToken::Delim
    } else {
        BwtToken::Byte(s[sa[r] as int])
    }
}

/// The last column of the sorted suffixes, with the mark.
pub open spec fn last_tokens(s: Seq<u8>, sa: Seq<u32>) -> Seq<BwtToken> {
    Seq::new(sa.len(), |r: int| last_token(s, sa, r))
}

/// The first column of the sorted suffixes, with the mark.
pub open spec fn first_tokens(s: Seq<u8>, sa: Seq<u32>) -> Seq<BwtToken> {
    Seq::new(sa.len(), |r: int| first_token(s, sa, r))
}

/// The row of a byte of the last column, which has no entry for the row of
/// the whole text.
pub open spec fn row_behind(p: int, j: int) -> int {
    if j < p {
        j
    } else {
        j + 1
    }
}

/// What the encoder collects over the first `m` rows.
proof fn lemma_last_column_prefix(s: Seq<u8>, sa: Seq<u32>, m: int)
    requires
        is_suffix_array(s, sa),
        0 <= m <= sa.len(),
    ensures
        ({
            let p = row(sa, 0);
            let column = last_column(s, sa.take(m));
            &&& p < m ==> primary_index(sa.take(m)) == p
            &&& column.len() == if p < m {
                m - 1
            } else {
                m
            }
            &&& forall|j: int|
                0 <= j < column.len() ==> #[trigger] column[j] == s[sa[row_behind(p, j)] - 1]
        }),
    decreases m,
{
    lemma_rows(s, sa);
    let p = row(sa, 0);
    if m > 0 {
        lemma_last_column_prefix(s, sa, m - 1);
        let pre = sa.take(m);
        assert(pre.drop_last() =~= sa.take(m - 1));
        assert(pre.last() == sa[m - 1]);
        if sa[m - 1] == 0 {
            assert(row(sa, sa[m - 1] as int) == m - 1);
        } else {
            assert(p != m - 1);
        }
    }
}

/// The tokens that the decoder makes of the last column and the primary
/// index are the last column of the sorted suffixes.
pub proof fn lemma_tokens_are_last(s: Seq<u8>, sa: Seq<u32>)
    requires
        is_suffix_array(s, sa),
    ensures
        primary_index(sa) == row(sa, 0),
        last_column(s, sa).len() == s.len(),
        tokens_of(last_column(s, sa), primary_index(sa) as int) == last_tokens(s, sa),
{
    lemma_rows(s, sa);
    lemma_last_column_prefix(s, sa, sa.len() as int);
    assert(sa.take(sa.len() as int) =~= sa);
    let p = row(sa, 0);
    let column = last_column(s, sa);
    let made = tokens_of(column, p);
    let wanted = last_tokens(s, sa);
    assert(made.len() == wanted.len());
    assert forall|r: int| 0 <= r < made.len() implies made[r] == wanted[r] by {
        if r < p {
            assert(column[r] == s[sa[row_behind(p, r)] - 1]);
            assert(sa[r] != 0);
        } else if r > p {
            assert(column[r - 1] == s[sa[row_behind(p, r - 1)] - 1]);
            assert(sa[r] != 0);
        }
    }
    assert(made =~= wanted);
}

/// The first bytes of the sorted suffixes but the empty one.
pub open spec fn first_bytes(s: Seq<u8>, sa: Seq<u32>) -> Seq<u8> {
    Seq::new(s.len(), |i: int| s[sa[i + 1] as int])
}

/// The last column holds the bytes of the first column.
proof fn lemma_columns_hold_the_same(s: Seq<u8>, sa: Seq<u32>)
    requires
        is_suffix_array(s, sa),
    ensures
        first_bytes(s, sa).to_multiset() == last_column(s, sa).to_multiset(),
{
    lemma_rows(s, sa);
    lemma_tokens_are_last(s, sa);
    lemma_last_column_prefix(s, sa, sa.len() as int);
    assert(sa.take(sa.len() as int) =~= sa);
    let p = row(sa, 0);
    let first = first_bytes(s, sa);
    let last = last_column(s, sa);
    // last[j] is the byte in front of the suffix of row row_behind(p, j)
    let to_last = |i: int|
        {
            let r = row(sa, sa[i + 1] + 1);
            if r < p {
                r
            } else {
                r - 1
            }
        };
    let to_first = |j: int| row(sa, sa[row_behind(p, j)] - 1) - 1;
    assert forall|i: int| 0 <= i < first.len() implies 0 <= #[trigger] to_last(i) < last.len()
        && last[to_last(i)] == first[i] && to_first(to_last(i)) == i by {
        assert(sa[i + 1] != sa[0]);
        let r = row(sa, sa[i + 1] + 1);
        assert(sa[r] == sa[i + 1] + 1);
        assert(r != p);
        let j = to_last(i);
        assert(row_behind(p, j) == r);
        assert(last[j] == s[sa[row_behind(p, j)] - 1]);
        assert(row(sa, sa[i + 1] as int) == i + 1);
    }
    assert forall|j: int| 0 <= j < last.len() implies 0 <= #[trigger] to_first(j) < first.len()
        && first[to_first(j)] == last[j] && to_last(to_first(j)) == j by {
        let r = row_behind(p, j);
        assert(sa[r] != 0) by {
            if sa[r] == 0 {
                assert(row(sa, sa[r] as int) == r);
            }
        }
        let q = row(sa, sa[r] - 1);
        assert(sa[q] == sa[r] - 1);
        assert(q != 0);
        assert(last[j] == s[sa[row_behind(p, j)] - 1]);
        assert(row(sa, sa[r] as int) == r);
    }
    assert forall|v: u8| occurrences(first, v) == occurrences(last, v) by {
        assert forall|i: int, k: int|
            0 <= i < k < first.len() && first[i] == v && first[k] == v implies #[trigger] to_last(
            i,
        ) != #[trigger] to_last(k) by {
            assert(to_first(to_last(i)) == i);
            assert(to_first(to_last(k)) == k);
        }
        lemma_occurrences_injection(first, last, v, to_last);
        assert forall|i: int, k: int|
            0 <= i < k < last.len() && last[i] == v && last[k] == v implies #[trigger] to_first(i)
            != #[trigger] to_first(k) by {
            assert(to_last(to_first(i)) == i);
            assert(to_last(to_first(k)) == k);
        }
        lemma_occurrences_injection(last, first, v, to_first);
    }
    lemma_same_occurrences(first, last);
}

/// The first column that the decoder makes of the last column is the first
/// column of the sorted suffixes.
pub proof fn lemma_first_column_is_first(s: Seq<u8>, sa: Seq<u32>)
    requires
        is_suffix_array(s, sa),
    ensures
        first_column(last_column(s, sa)) == first_tokens(s, sa),
{
    lemma_rows(s, sa);
    lemma_tokens_are_last(s, sa);
    lemma_columns_hold_the_same(s, sa);
    let first = first_bytes(s, sa);
    let last = last_column(s, sa);
    let leq = |a: u8, b: u8| a <= b;
    assert(vstd::relations::total_ordering(leq));
    last.lemma_sort_by_ensures(leq);
    assert(vstd::relations::sorted_by(first, leq)) by {
        assert forall|i: int, j: int| 0 <= i < j < first.len() implies #[trigger] leq(
            first[i],
            first[j],
        ) by {
            assert(suffix_lt(s, sa[i + 1] as int, sa[j + 1] as int));
            assert(sa[i + 1] != sa[0] && sa[j + 1] != sa[0]);
        }
    }
    vstd::seq_lib::lemma_sorted_unique(first, last.sort_by(leq), leq);
    assert(sorted_bytes(last) == first);
    assert(tokens_of(first, 0) =~= first_tokens(s, sa)) by {
        assert forall|r: int| 0 <= r < sa.len() implies tokens_of(first, 0)[r] == first_tokens(
            s,
            sa,
        )[r] by {
            if r > 0 {
                assert(sa[r] != sa[0]);
            }
        }
    }
}

/// Counting tokens is counting occurrences.
pub proof fn lemma_count_in_is_occurrences(column: Seq<BwtToken>, token: BwtToken)
    ensures
        count_in(column, token) == occurrences(column, token),
    decreases column.len(),
{
    if column.len() > 0 {
        lemma_count_in_is_occurrences(column.drop_last(), token);
    }
}

/// Suffixes that start with the same byte sort as what follows that byte.
pub proof fn lemma_suffix_lt_step(s: Seq<u8>, a: int, b: int)
    requires
        0 <= a < s.len(),
        0 <= b < s.len(),
        s[a] == s[b],
    ensures
        suffix_lt(s, a, b) == suffix_lt(s, a + 1, b + 1),
{
}

/// The pair of a row in the last column is the pair, in the first column,
/// of the row of the suffix that is longer by one byte.
pub proof fn lemma_turn_keeps_pair(s: Seq<u8>, sa: Seq<u32>, r: int)
    requires
        is_suffix_array(s, sa),
        0 <= r < sa.len(),
        sa[r] >= 1,
    ensures
        ({
            let longer = row(sa, sa[r] - 1);
            &&& first_tokens(s, sa)[longer] == last_tokens(s, sa)[r]
            &&& rank_in(first_tokens(s, sa), longer) == rank_in(last_tokens(s, sa), r)
        }),
{
    lemma_rows(s, sa);
    let last = last_tokens(s, sa);
    let first = first_tokens(s, sa);
    let longer = row(sa, sa[r] - 1);
    let token = last[r];
    assert(sa[longer] == sa[r] - 1);
    assert(first[longer] == token);
    let above_last = last.take(r);
    let above_first = first.take(longer);
    let up = |q: int| row(sa, sa[q] - 1);
    let down = |q: int| row(sa, sa[q] + 1);
    assert forall|q: int| 0 <= q < above_last.len() && above_last[q] == token implies 0
        <= #[trigger] up(q) < above_first.len() && above_first[up(q)] == token by {
        assert(last[q] == token);
        assert(sa[q] >= 1);
        assert(suffix_lt(s, sa[q] as int, sa[r] as int));
        lemma_suffix_lt_step(s, sa[q] - 1, sa[r] - 1);
        lemma_row_order(s, sa, sa[q] - 1, sa[r] - 1);
        assert(sa[up(q)] == sa[q] - 1);
        assert(first[up(q)] == token);
    }
    assert forall|q: int, t: int|
        0 <= q < t < above_last.len() && above_last[q] == token && above_last[t]
            == token implies #[trigger] up(q) != #[trigger] up(t) by {
        assert(last[q] == token && last[t] == token);
        assert(sa[up(q)] == sa[q] - 1);
        assert(sa[up(t)] == sa[t] - 1);
    }
    lemma_occurrences_injection(above_last, above_first, token, up);
    assert forall|q: int| 0 <= q < above_first.len() && above_first[q] == token implies 0
        <= #[trigger] down(q) < above_last.len() && above_last[down(q)] == token by {
        assert(first[q] == token);
        assert(sa[q] < s.len());
        assert(suffix_lt(s, sa[q] as int, sa[longer] as int));
        lemma_suffix_lt_step(s, sa[q] as int, sa[longer] as int);
        lemma_row_order(s, sa, sa[q] + 1, sa[r] as int);
        assert(row(sa, sa[r] as int) == r);
        assert(sa[down(q)] == sa[q] + 1);
        assert(last[down(q)] == token);
    }
    assert forall|q: int, t: int|
        0 <= q < t < above_first.len() && above_first[q] == token && above_first[t]
            == token implies #[trigger] down(q) != #[trigger] down(t) by {
        assert(first[q] == token && first[t] == token);
        assert(sa[down(q)] == sa[q] + 1);
        assert(sa[down(t)] == sa[t] + 1);
    }
    lemma_occurrences_injection(above_first, above_last, token, down);
    lemma_count_in_is_occurrences(above_last, token);
    lemma_count_in_is_occurrences(above_first, token);
}

/// From the row of the suffix that starts at `k`, the chain meets the bytes
/// in front of that suffix, the nearest first.
pub proof fn lemma_chain_reads_back(s: Seq<u8>, sa: Seq<u32>, k: int, fuel: nat)
    requires
        is_suffix_array(s, sa),
        0 <= k <= s.len(),
        fuel > k,
    ensures
        chain(
            last_tokens(s, sa),
            first_tokens(s, sa),
            first_tokens(s, sa)[row(sa, k)],
            rank_in(first_tokens(s, sa), row(sa, k)),
            fuel,
        ) == Some(s.take(k).reverse()),
    decreases k,
{
    lemma_rows(s, sa);
    let last = last_tokens(s, sa);
    let first = first_tokens(s, sa);
    let r = row(sa, k);
    let token = first[r];
    let rank = rank_in(first, r);
    assert(is_row(first, token, rank, r));
    lemma_row_unique(first, token, rank, r, row_of(first, token, rank));
    if k == 0 {
        assert(last[r] == BwtToken::Delim);
        assert(s.take(0).reverse() =~= Seq::<u8>::empty());
    } else {
        assert(last[r] == BwtToken::Byte(s[k - 1]));
        lemma_turn_keeps_pair(s, sa, r);
        lemma_chain_reads_back(s, sa, k - 1, (fuel - 1) as nat);
        assert(seq![s[k - 1]] + s.take(k - 1).reverse() =~= s.take(k).reverse());
    }
}

/// The decoder finds the text in its last column and primary index.
pub proof fn lemma_unwound_is_text(s: Seq<u8>, sa: Seq<u32>)
    requires
        is_suffix_array(s, sa),
    ensures
        unwound(last_column(s, sa), primary_index(sa) as int) == s,
        primary_index(sa) <= s.len(),
        last_column(s, sa).len() == s.len(),
{
    lemma_rows(s, sa);
    lemma_tokens_are_last(s, sa);
    lemma_first_column_is_first(s, sa);
    let first = first_tokens(s, sa);
    assert(row(sa, sa[0] as int) == 0);
    assert(first[0] == BwtToken::Delim);
    assert(first.take(0) =~= Seq::<BwtToken>::empty());
    assert(rank_in(first, 0) == 0);
    lemma_chain_reads_back(s, sa, s.len() as int, s.len() + 1);
    assert(s.take(s.len() as int) =~= s);
    assert(s.reverse().reverse() =~= s);
}

/// The digits of a number in base 36 are digits, none of them a `+` or a
/// `|`, and stand for the number.
pub proof fn lemma_radix_digits_36(x: nat)
    ensures
        radix_digits(x, 36).len() >= 1,
        all_digits(radix_digits(x, 36)),
        forall|i: int|
            0 <= i < radix_digits(x, 36).len() ==> #[trigger] radix_digits(x, 36)[i] != 43
                && radix_digits(x, 36)[i] != HEADER_END,
        digits_value(radix_digits(x, 36)) == x,
    decreases x,
{
    let d = radix_digits(x, 36);
    if x < 36 {
        assert(d =~= seq![digit_byte(x)]);
        assert(digit_value(digit_byte(x)) == Some(x));
        assert(d.drop_last() =~= Seq::<u8>::empty());
        assert(digits_value(d.drop_last()) == 0);
    } else {
        let rest = radix_digits(x / 36, 36);
        let low = digit_byte(x % 36);
        lemma_radix_digits_36(x / 36);
        assert(d == rest.push(low));
        assert(digit_value(low) == Some(x % 36));
        assert(d.drop_last() =~= rest);
        assert forall|i: int| 0 <= i < d.len() implies (#[trigger] digit_value(d[i])) is Some by {
            if i < rest.len() {
                assert(d[i] == rest[i]);
            }
        }
        assert forall|i: int| 0 <= i < d.len() implies #[trigger] d[i] != 43 && d[i]
            != HEADER_END by {
            if i < rest.len() {
                assert(d[i] == rest[i]);
            }
        }
    }
}

/// Whether the text has a suffix array.
pub open spec fn has_suffix_array(s: Seq<u8>) -> bool {
    exists|sa: Seq<u32>| is_suffix_array(s, sa)
}

/// What sorts before what sorts before a third suffix sorts before it.
pub proof fn lemma_suffix_lt_transitive(s: Seq<u8>, a: int, b: int, c: int)
    requires
        suffix_lt(s, a, b),
        suffix_lt(s, b, c),
    ensures
        suffix_lt(s, a, c),
    decreases s.len() - a,
{
    if 0 <= a < s.len() && 0 <= b < s.len() && 0 <= c < s.len() && s[a] == s[b] && s[b] == s[c] {
        lemma_suffix_lt_transitive(s, a + 1, b + 1, c + 1);
    }
}

/// Of two suffixes one sorts before the other.
pub proof fn lemma_suffix_lt_total(s: Seq<u8>, a: int, b: int)
    requires
        0 <= a <= s.len(),
        0 <= b <= s.len(),
        a != b,
    ensures
        suffix_lt(s, a, b) || suffix_lt(s, b, a),
    decreases s.len() - a,
{
    if a < s.len() && b < s.len() && s[a] == s[b] {
        lemma_suffix_lt_total(s, a + 1, b + 1);
    }
}

/// The order of the starts of suffixes, carried on to all numbers: a start
/// comes before what is no start.
pub open spec fn start_leq(s: Seq<u8>) -> spec_fn(u32, u32) -> bool {
    |a: u32, b: u32|
        if a <= s.len() && b <= s.len() {
            a == b || suffix_lt(s, a as int, b as int)
        } else if a <= s.len() {
            true
        } else if b <= s.len() {
            false
        } else {
            a <= b
        }
}

/// Every text that is not longer than a `u32` can say has a suffix array.
pub proof fn lemma_suffix_array_exists(s: Seq<u8>)
    requires
        s.len() <= u32::MAX,
    ensures
        has_suffix_array(s),
        is_suffix_array(s, suffix_array(s)),
{
    broadcast use vstd::seq_lib::group_to_multiset_ensures;

    let leq = start_leq(s);
    assert(vstd::relations::total_ordering(leq)) by {
        assert forall|a: u32, b: u32| #[trigger] leq(a, b) && #[trigger] leq(b, a) implies a
            == b by {
            lemma_suffix_lt_asymmetric(s, a as int, b as int);
        }
        assert forall|a: u32, b: u32, c: u32| #[trigger] leq(a, b) && #[trigger] leq(
            b,
            c,
        ) implies leq(a, c) by {
            if a <= s.len() && b <= s.len() && c <= s.len() && a != b && b != c {
                lemma_suffix_lt_transitive(s, a as int, b as int, c as int);
            }
        }
        assert forall|a: u32, b: u32| #[trigger] leq(a, b) || #[trigger] leq(b, a) by {
            if a <= s.len() && b <= s.len() && a != b {
                lemma_suffix_lt_total(s, a as int, b as int);
            }
        }
    }
    let starts = Seq::new(s.len() + 1, |i: int| i as u32);
    let sa = starts.sort_by(leq);
    starts.lemma_sort_by_ensures(leq);
    assert(sa.len() == starts.len()) by {
        sa.to_multiset_ensures();
        starts.to_multiset_ensures();
    }
    assert(starts.no_duplicates());
    starts.lemma_multiset_has_no_duplicates();
    sa.lemma_multiset_has_no_duplicates_conv();
    assert forall|i: int| 0 <= i < sa.len() implies #[trigger] sa[i] <= s.len() by {
        assert(sa.contains(sa[i]));
        assert(sa.to_multiset().count(sa[i]) > 0);
        assert(starts.contains(sa[i]));
    }
    assert forall|i: int, j: int| 0 <= i < j < sa.len() implies suffix_lt(
        s,
        sa[i] as int,
        sa[j] as int,
    ) by {
        assert(leq(sa[i], sa[j]));
        assert(sa[i] <= s.len() && sa[j] <= s.len());
    }
    assert forall|k: int| 0 <= k <= s.len() implies #[trigger] lists(sa, k) by {
        assert(starts[k] == k as u32);
        assert(starts.contains(k as u32));
        assert(starts.to_multiset().count(k as u32) > 0);
        assert(sa.contains(k as u32));
        let i = choose|i: int| 0 <= i < sa.len() && sa[i] == k as u32;
        assert(sa[i] == k);
    }
    assert(is_suffix_array(s, sa));
}

/// The primary index that is written is a row of the sorted suffixes: it
/// is at most the length of the text. The header gives it back, and the
/// last column is as long as the text.
pub proof fn lemma_primary_index_in_range(s: Seq<u8>)
    requires
        s.len() <= u32::MAX,
    ensures
        0 <= primary_index(suffix_array(s)) <= s.len(),
        position_of(bwt_encoded(s), HEADER_END) < bwt_encoded(s).len(),
        header_value(bwt_encoded(s).take(position_of(bwt_encoded(s), HEADER_END) as int)) == Some(
            primary_index(suffix_array(s)),
        ),
        bwt_encoded(s).skip(position_of(bwt_encoded(s), HEADER_END) as int + 1) == last_column(
            s,
            suffix_array(s),
        ),
        last_column(s, suffix_array(s)).len() == s.len(),
{
    let sa = suffix_array(s);
    lemma_suffix_array_exists(s);
    lemma_unwound_is_text(s, sa);
    let p = primary_index(sa);
    let digits = radix_digits(p, 36);
    let column = last_column(s, sa);
    let coded = bwt_encoded(s);
    lemma_radix_digits_36(p);
    assert(coded == digits + seq![HEADER_END] + column);
    let end = digits.len() as int;
    assert(coded[end] == HEADER_END);
    assert forall|j: int| 0 <= j < end implies coded[j] != HEADER_END by {
        assert(coded[j] == digits[j]);
    }
    lemma_position_of_is(coded, HEADER_END, end);
    assert(coded.take(end) =~= digits);
    assert(coded.skip(end + 1) =~= column);
    assert(digits[0] != 43);
    assert(header_digits(digits) == digits);
}

/// Decoding undoes the transform on every text that is not longer than a
/// `u32` can say.
pub proof fn lemma_bwt_round_trip(s: Seq<u8>)
    requires
        s.len() <= u32::MAX,
    ensures
        bwt_decoded(bwt_encoded(s)) == Ok::<Seq<u8>, ParseError>(s),
{
    let sa = suffix_array(s);
    lemma_suffix_array_exists(s);
    lemma_unwound_is_text(s, sa);
    lemma_primary_index_in_range(s);
}

} // verus!
