//! The Burrows-Wheeler stage. The forward transform sorts the suffixes of the
//! text with a suffix array and writes the byte in front of each; the inverse
//! pairs the last column with its sorted copy and follows the pairs back.

use crate::error::{result_view, staged, Fault, ParseError, Stage};
use crate::proofs::bwt::{lemma_bwt_round_trip, lemma_primary_index_in_range};
use crate::proofs::chain::lemma_every_column_unwinds;
use crate::utils::{enumerate_duplicates, position_of, radix_bytes, radix_digits};
use suffix_array::SuffixArray;
use vstd::prelude::*;

verus! {

/// A symbol of the transform: a byte of the text, or the end-of-text mark
/// that sorts before every byte.
#[derive(Debug, Clone, Copy, PartialEq, Eq, Structural, PartialOrd, Ord, Hash)]
pub enum BwtToken {
    /// The end-of-text mark.
    Delim,
    /// A byte of the text.
    Byte(u8),
}

/// The byte between the header and the last column.
pub const HEADER_END: u8 = 0x7C;

/// Texts of this length and longer cannot be transformed.
pub const MAX_LENGTH: usize = 0x7fff_ffff;

/// Whether the suffix of `s` that starts at `i` sorts strictly before the
/// one that starts at `j`: bytes decide from the left, and a suffix that
/// runs out first sorts first.
pub open spec fn suffix_lt(s: Seq<u8>, i: int, j: int) -> bool
    decreases s.len() - i,
{
    if j >= s.len() || i < 0 || j < 0 {
        false
    } else if i >= s.len() {
        true
    } else if s[i] != s[j] {
        s[i] < s[j]
    } else {
        suffix_lt(s, i + 1, j + 1)
    }
}

/// `sa` lists the starts of all suffixes of `s`, the empty one included, in
/// sorted order.
pub open spec fn is_suffix_array(s: Seq<u8>, sa: Seq<u32>) -> bool {
    &&& sa.len() == s.len() + 1
    &&& forall|i: int| 0 <= i < sa.len() ==> #[trigger] sa[i] <= s.len()
    &&& forall|i: int, j: int| 0 <= i < j < sa.len() ==> suffix_lt(s, sa[i] as int, sa[j] as int)
    &&& forall|k: int| 0 <= k <= s.len() ==> #[trigger] lists(sa, k)
}

/// Whether `sa` has the entry `k`.
pub open spec fn lists(sa: Seq<u32>, k: int) -> bool {
    exists|i: int| 0 <= i < sa.len() && #[trigger] sa[i] == k
}

/// The suffix array of `s`.
pub open spec fn suffix_array(s: Seq<u8>) -> Seq<u32> {
    choose|sa: Seq<u32>| is_suffix_array(s, sa)
}

/// The row of the sorted suffixes that holds the whole text: the last index
/// of `sa` that holds 0.
pub open spec fn primary_index(sa: Seq<u32>) -> nat
    decreases sa.len(),
{
    if sa.len() == 0 {
        0
    } else if sa.last() == 0 {
        (sa.len() - 1) as nat
    } else {
        primary_index(sa.drop_last())
    }
}

/// For each sorted suffix but the whole text, the byte in front of it.
pub open spec fn last_column(s: Seq<u8>, sa: Seq<u32>) -> Seq<u8>
    decreases sa.len(),
{
    if sa.len() == 0 {
        Seq::empty()
    } else if sa.last() > 0 {
        last_column(s, sa.drop_last()).push(s[sa.last() - 1])
    } else {
        last_column(s, sa.drop_last())
    }
}

/// The transform of `s`: the primary index in base 36, a `|`, and the last
/// column.
pub open spec fn bwt_encoded(s: Seq<u8>) -> Seq<u8> {
    radix_digits(primary_index(suffix_array(s)), 36) + seq![HEADER_END] + last_column(
        s,
        suffix_array(s),
    )
}

/// No suffix sorts before itself.
pub proof fn lemma_suffix_lt_irreflexive(s: Seq<u8>, i: int)
    ensures
        !suffix_lt(s, i, i),
    decreases s.len() - i,
{
    if 0 <= i < s.len() {
        lemma_suffix_lt_irreflexive(s, i + 1);
    }
}

/// Of two suffixes at most one sorts before the other.
pub proof fn lemma_suffix_lt_asymmetric(s: Seq<u8>, i: int, j: int)
    ensures
        !(suffix_lt(s, i, j) && suffix_lt(s, j, i)),
    decreases s.len() - i,
{
    if 0 <= i < s.len() && 0 <= j < s.len() && s[i] == s[j] {
        lemma_suffix_lt_asymmetric(s, i + 1, j + 1);
    }
}

/// Two suffix arrays of one text agree in their first `upto` entries.
proof fn lemma_suffix_arrays_agree(s: Seq<u8>, a: Seq<u32>, b: Seq<u32>, upto: int)
    requires
        is_suffix_array(s, a),
        is_suffix_array(s, b),
        0 <= upto <= a.len(),
    ensures
        forall|k: int| 0 <= k < upto ==> a[k] == b[k],
    decreases upto,
{
    if upto > 0 {
        lemma_suffix_arrays_agree(s, a, b, upto - 1);
        let i = upto - 1;
        let x = a[i];
        let y = b[i];
        if x != y {
            assert(x <= s.len() && y <= s.len());
            assert(lists(a, y as int));
            assert(lists(b, x as int));
            let j = choose|j: int| 0 <= j < a.len() && a[j] == y as int;
            let k = choose|k: int| 0 <= k < b.len() && b[k] == x as int;
            lemma_suffix_lt_irreflexive(s, x as int);
            lemma_suffix_lt_irreflexive(s, y as int);
            lemma_suffix_lt_asymmetric(s, x as int, y as int);
            if j < i {
                assert(b[j] == a[j]);
                assert(suffix_lt(s, b[j] as int, b[i] as int));
            } else {
                assert(suffix_lt(s, a[i] as int, a[j] as int));
            }
            if k < i {
                assert(a[k] == b[k]);
                assert(suffix_lt(s, a[k] as int, a[i] as int));
            } else {
                assert(suffix_lt(s, b[i] as int, b[k] as int));
            }
        }
    }
}

/// A text has one suffix array.
pub proof fn lemma_suffix_array_unique(s: Seq<u8>, a: Seq<u32>, b: Seq<u32>)
    requires
        is_suffix_array(s, a),
        is_suffix_array(s, b),
    ensures
        a == b,
{
    lemma_suffix_arrays_agree(s, a, b, a.len() as int);
    assert(a =~= b);
}

/// `SuffixArray::new` of the crate `suffix_array`, and `into_parts` to take
/// the array out of it. The array has one entry more than the text has
/// bytes: it lists the starts of all suffixes, the empty one first, so that
/// the suffixes come in strictly ascending order as byte slices.
#[verifier::external_body]
fn suffix_array_of(input: &Vec<u8>) -> (sa: Vec<u32>)
    requires
        input.len() < MAX_LENGTH,
    ensures
        is_suffix_array(input@, sa@),
{
    SuffixArray::new(input).into_parts().1
}

/// The place of a token in the order of tokens: the mark first, then the
/// bytes by value.
pub open spec fn token_code(token: BwtToken) -> nat {
    match token {
        BwtToken::Delim => 0,
        BwtToken::Byte(b) => b as nat + 1,
    }
}

/// How often `token` occurs in `column`.
pub open spec fn count_in(column: Seq<BwtToken>, token: BwtToken) -> nat
    decreases column.len(),
{
    if column.len() == 0 {
        0
    } else {
        count_in(column.drop_last(), token) + if column.last() == token {
            1nat
        } else {
            0nat
        }
    }
}

/// The rank of row `i`: how many rows above it hold the same token.
pub open spec fn rank_in(column: Seq<BwtToken>, i: int) -> nat {
    count_in(column.take(i), column[i])
}

/// No token occurs more often than the column is long.
pub proof fn lemma_count_in_bounded(column: Seq<BwtToken>, token: BwtToken)
    ensures
        count_in(column, token) <= column.len(),
    decreases column.len(),
{
    if column.len() > 0 {
        lemma_count_in_bounded(column.drop_last(), token);
    }
}

/// A longer column holds a token at least as often.
pub proof fn lemma_count_in_grows(column: Seq<BwtToken>, token: BwtToken, i: int)
    requires
        0 <= i <= column.len(),
    ensures
        count_in(column.take(i), token) <= count_in(column, token),
        i < column.len() && column[i] == token ==> count_in(column.take(i), token) < count_in(
            column,
            token,
        ),
    decreases column.len(),
{
    if i < column.len() {
        let shorter = column.drop_last();
        if i < shorter.len() {
            assert(shorter.take(i) =~= column.take(i));
            assert(shorter[i] == column[i]);
            lemma_count_in_grows(shorter, token, i);
        } else {
            assert(shorter =~= column.take(i));
        }
    } else {
        assert(column.take(i) =~= column);
    }
}

/// The column of `column.len() + 1` tokens that has the mark in row `p`
/// and the bytes of `column` in the other rows, in their order.
pub open spec fn tokens_of(column: Seq<u8>, p: int) -> Seq<BwtToken> {
    Seq::new(
        column.len() + 1,
        |i: int|
            if i < p {
                BwtToken::Byte(column[i])
            } else if i == p {
                BwtToken::Delim
            } else {
                BwtToken::Byte(column[i - 1])
            },
    )
}

/// The bytes of `s` in ascending order.
pub open spec fn sorted_bytes(s: Seq<u8>) -> Seq<u8> {
    s.sort_by(|a: u8, b: u8| a <= b)
}

/// The first column that belongs to a last column: the mark, then the
/// bytes in ascending order.
pub open spec fn first_column(column: Seq<u8>) -> Seq<BwtToken> {
    tokens_of(sorted_bytes(column), 0)
}

/// Whether row `r` of `column` holds `token` with rank `k`.
pub open spec fn is_row(column: Seq<BwtToken>, token: BwtToken, k: nat, r: int) -> bool {
    0 <= r < column.len() && column[r] == token && rank_in(column, r) == k
}

/// Whether some row of `column` holds `token` with rank `k`.
pub open spec fn has_row(column: Seq<BwtToken>, token: BwtToken, k: nat) -> bool {
    exists|r: int| is_row(column, token, k, r)
}

/// The row of `column` that holds `token` with rank `k`.
pub open spec fn row_of(column: Seq<BwtToken>, token: BwtToken, k: nat) -> int {
    choose|r: int| is_row(column, token, k, r)
}

/// A token and a rank name at most one row.
pub proof fn lemma_row_unique(column: Seq<BwtToken>, token: BwtToken, k: nat, r1: int, r2: int)
    requires
        is_row(column, token, k, r1),
        is_row(column, token, k, r2),
    ensures
        r1 == r2,
{
    if r1 < r2 {
        let upper = column.take(r2);
        assert(upper.take(r1) =~= column.take(r1));
        assert(upper[r1] == token);
        lemma_count_in_grows(upper, token, r1);
    } else if r2 < r1 {
        let upper = column.take(r1);
        assert(upper.take(r2) =~= column.take(r2));
        assert(upper[r2] == token);
        lemma_count_in_grows(upper, token, r2);
    }
}

/// `b` in front of the bytes met later, where the chain did not break.
pub open spec fn met_before(b: Seq<u8>, later: Option<Seq<u8>>) -> Option<Seq<u8>> {
    match later {
        Some(bytes) => Some(b + bytes),
        None => None,
    }
}

/// The bytes met on the way from the pair (`token`, `k`): the row that
/// holds the pair in the first column holds, in the last column, the pair
/// to go on with, and its byte is the next one met. The way ends at the
/// mark. `None` where a pair has no row, or where the mark has not come
/// after `fuel` rows.
pub open spec fn chain(
    last: Seq<BwtToken>,
    first: Seq<BwtToken>,
    token: BwtToken,
    k: nat,
    fuel: nat,
) -> Option<Seq<u8>>
    decreases fuel,
{
    if fuel == 0 || !has_row(first, token, k) {
        None
    } else {
        let r = row_of(first, token, k);
        match last[r] {
            BwtToken::Delim => Some(Seq::empty()),
            BwtToken::Byte(b) => met_before(
                seq![b],
                chain(last, first, last[r], rank_in(last, r), (fuel - 1) as nat),
            ),
        }
    }
}

/// The text that a last column and a primary index stand for: the bytes
/// met on the way from the mark, in reverse. The way always ends at the
/// mark where the primary index is a row of the column.
pub open spec fn unwound(column: Seq<u8>, p: int) -> Seq<u8> {
    match chain(
        tokens_of(column, p),
        first_column(column),
        BwtToken::Delim,
        0,
        column.len() + 1,
    ) {
        Some(met) => met.reverse(),
        None => Seq::empty(),
    }
}

/// What a byte is worth as a digit in base 36: `0`-`9`, then the letters in
/// either case.
pub open spec fn digit_value(b: u8) -> Option<nat> {
    if 48 <= b <= 57 {
        Some((b - 48) as nat)
    } else if 97 <= b <= 122 {
        Some((b - 87) as nat)
    } else if 65 <= b <= 90 {
        Some((b - 55) as nat)
    } else {
        None
    }
}

/// Whether all bytes are digits in base 36.
pub open spec fn all_digits(s: Seq<u8>) -> bool {
    forall|i: int| 0 <= i < s.len() ==> (#[trigger] digit_value(s[i])) is Some
}

/// The number that the digits stand for.
pub open spec fn digits_value(s: Seq<u8>) -> nat
    decreases s.len(),
{
    if s.len() == 0 {
        0
    } else {
        digits_value(s.drop_last()) * 36 + match digit_value(s.last()) {
            Some(d) => d,
            None => 0,
        }
    }
}

/// The digits of a header: a `+` in front of them is left out.
pub open spec fn header_digits(header: Seq<u8>) -> Seq<u8> {
    if header.len() > 0 && header[0] == 43 {
        header.skip(1)
    } else {
        header
    }
}

/// The number that a header stands for: at least one digit in base 36,
/// nothing else. `None` for any other header.
pub open spec fn header_value(header: Seq<u8>) -> Option<nat> {
    if header_digits(header).len() == 0 || !all_digits(header_digits(header)) {
        None
    } else {
        Some(digits_value(header_digits(header)))
    }
}

/// What is decoded from the header and the last column behind it.
pub open spec fn column_decoded(header: Seq<u8>, column: Seq<u8>) -> Result<Seq<u8>, Fault> {
    match header_value(header) {
        None => Err(Fault::BadHeader),
        Some(p) => if p > column.len() {
            Err(Fault::IndexOutOfRange)
        } else {
            Ok(unwound(column, p as int))
        },
    }
}

/// What decoding `s` gives: the header ends at the first `|`.
pub open spec fn bwt_decoded(s: Seq<u8>) -> Result<Seq<u8>, ParseError> {
    let end = position_of(s, HEADER_END) as int;
    if end >= s.len() {
        Err(ParseError { stage: Stage::Bwt, fault: Fault::MissingSeparator })
    } else {
        staged(Stage::Bwt, column_decoded(s.take(end), s.skip(end + 1)))
    }
}

/// More digits do not make a smaller number.
pub proof fn lemma_digits_value_grows(s: Seq<u8>, k: int)
    requires
        0 <= k <= s.len(),
    ensures
        digits_value(s.take(k)) <= digits_value(s),
    decreases s.len(),
{
    if k < s.len() {
        assert(s.drop_last().take(k) =~= s.take(k));
        lemma_digits_value_grows(s.drop_last(), k);
        let shorter = digits_value(s.drop_last());
        assert(shorter * 36 >= shorter) by (nonlinear_arith);
    } else {
        assert(s.take(k) =~= s);
    }
}

/// `radsort::sort` on bytes: the slice is put into ascending order, and
/// holds the same bytes as before, each as often as before.
#[verifier::external_body]
fn sort_bytes(bytes: &mut Vec<u8>)
    ensures
        forall|i: int, j: int|
            0 <= i < j < final(bytes).len() ==> final(bytes)[i] <= final(bytes)[j],
        final(bytes)@.to_multiset() == old(bytes)@.to_multiset(),
{
    radsort::sort(bytes);
}

/// The bytes in ascending order.
fn sorted_copy(bytes: &Vec<u8>) -> (sorted: Vec<u8>)
    ensures
        sorted@ == sorted_bytes(bytes@),
        sorted.len() == bytes.len(),
{
    let mut sorted: Vec<u8> = Vec::new();
    let mut i: usize = 0;
    while i < bytes.len()
        invariant
            i <= bytes.len(),
            sorted@ == bytes@.take(i as int),
        decreases bytes.len() - i,
    {
        sorted.push(bytes[i]);
        assert(sorted@ =~= bytes@.take(i + 1));
        i += 1;
    }
    assert(bytes@.take(bytes.len() as int) =~= bytes@);
    sort_bytes(&mut sorted);
    proof {
        let leq = |a: u8, b: u8| a <= b;
        assert(vstd::relations::total_ordering(leq));
        bytes@.lemma_sort_by_ensures(leq);
        assert(vstd::relations::sorted_by(sorted@, leq));
        vstd::seq_lib::lemma_sorted_unique(sorted@, bytes@.sort_by(leq), leq);
        sorted@.to_multiset_ensures();
        bytes@.to_multiset_ensures();
    }
    sorted
}

/// The column of tokens with the mark in row `p`.
fn make_tokens(column: &Vec<u8>, p: usize) -> (tokens: Vec<BwtToken>)
    requires
        p <= column.len(),
    ensures
        tokens@ == tokens_of(column@, p as int),
{
    let mut tokens: Vec<BwtToken> = Vec::new();
    let mut i: usize = 0;
    while i < column.len()
        invariant
            i <= column.len(),
            p <= column.len(),
            tokens.len() == if i <= p { i as int } else { i + 1 },
            forall|j: int| 0 <= j < tokens.len() ==> tokens[j] == tokens_of(column@, p as int)[j],
        decreases column.len() - i,
    {
        if i == p {
            tokens.push(BwtToken::Delim);
        }
        tokens.push(BwtToken::Byte(column[i]));
        i += 1;
    }
    if p == column.len() {
        tokens.push(BwtToken::Delim);
    }
    assert(tokens@ =~= tokens_of(column@, p as int));
    tokens
}

/// The slot of a token in a table of 257.
fn slot_of(token: BwtToken) -> (slot: usize)
    ensures
        slot == token_code(token),
        slot < 257,
{
    match token {
        BwtToken::Delim => 0,
        BwtToken::Byte(b) => b as usize + 1,
    }
}

/// What the table of rows holds: for each token its rows in `column`, by
/// rank.
pub open spec fn rows_indexed(rows: Seq<Vec<usize>>, column: Seq<BwtToken>, upto: int) -> bool {
    &&& rows.len() == 257
    &&& forall|token: BwtToken| #[trigger]
        rows[token_code(token) as int].len() == count_in(column.take(upto), token)
    &&& forall|token: BwtToken, k: int|
        0 <= k < rows[token_code(token) as int].len() ==> (#[trigger] rows[token_code(
            token,
        ) as int][k]) < upto && is_row(column, token, k as nat, rows[token_code(token) as int][k] as int)
}

/// Lists, for each token, the rows of `column` that hold it.
fn index_rows(column: &Vec<BwtToken>) -> (rows: Vec<Vec<usize>>)
    ensures
        rows_indexed(rows@, column@, column.len() as int),
{
    let mut rows: Vec<Vec<usize>> = Vec::new();
    let mut c: usize = 0;
    while c < 257
        invariant
            c <= 257,
            rows.len() == c,
            forall|j: int| 0 <= j < c ==> rows[j].len() == 0,
        decreases 257 - c,
    {
        rows.push(Vec::new());
        c += 1;
    }
    let mut i: usize = 0;
    proof {
        assert(column@.take(0) =~= Seq::<BwtToken>::empty());
    }
    while i < column.len()
        invariant
            i <= column.len(),
            rows_indexed(rows@, column@, i as int),
        decreases column.len() - i,
    {
        let token = column[i];
        let slot = slot_of(token);
        let ghost before = rows@;
        proof {
            assert(column@.take(i + 1).drop_last() =~= column@.take(i as int));
            assert(column@.take(i + 1).last() == token);
            assert(before[token_code(token) as int].len() == count_in(
                column@.take(i as int),
                token,
            ));
        }
        rows[slot].push(i);
        proof {
            assert forall|other: BwtToken| #[trigger]
                rows@[token_code(other) as int].len() == count_in(
                    column@.take(i + 1),
                    other,
                ) by {
                assert(before[token_code(other) as int].len() == count_in(
                    column@.take(i as int),
                    other,
                ));
                if other != token {
                    assert(token_code(other) != token_code(token));
                }
            }
            assert forall|other: BwtToken, k: int|
                0 <= k < rows@[token_code(other) as int].len() implies (#[trigger] rows@[token_code(
                other,
            ) as int][k]) < i + 1 && is_row(
                column@,
                other,
                k as nat,
                rows@[token_code(other) as int][k] as int,
            ) by {
                if other != token {
                    assert(token_code(other) != token_code(token));
                    assert(rows@[token_code(other) as int] == before[token_code(other) as int]);
                    assert(before[token_code(other) as int][k] < i);
                } else if k < before[token_code(token) as int].len() {
                    assert(rows@[token_code(other) as int][k] == before[token_code(
                        other,
                    ) as int][k]);
                    assert(before[token_code(other) as int][k] < i);
                } else {
                    assert(rows@[token_code(other) as int][k] == i);
                }
            }
        }
        i += 1;
    }
    rows
}

/// The Burrows-Wheeler stage.
pub struct Bwt;

impl Bwt {
    /// The Burrows-Wheeler transform of a buffer, from which `decode` brings
    /// the buffer back. The primary index that is written is at most the
    /// length of the buffer.
    pub fn encode(input: Vec<u8>) -> (output: Vec<u8>)
        requires
            input.len() < MAX_LENGTH,
        ensures
            output@ == bwt_encoded(input@),
            bwt_decoded(output@) == Ok::<Seq<u8>, ParseError>(input@),
            primary_index(suffix_array(input@)) <= input.len(),
    {
        let suffix_array = suffix_array_of(&input);
        proof {
            lemma_suffix_array_unique(input@, suffix_array@, self::suffix_array(input@));
        }
        let mut delim_pos: usize = 0;
        let mut encoded_output: Vec<u8> = Vec::new();
        let mut index: usize = 0;
        proof {
            assert(suffix_array@.take(0) =~= Seq::<u32>::empty());
        }
        while index < suffix_array.len()
            invariant
                index <= suffix_array.len(),
                is_suffix_array(input@, suffix_array@),
                delim_pos == primary_index(suffix_array@.take(index as int)),
                delim_pos <= index,
                encoded_output@ == last_column(input@, suffix_array@.take(index as int)),
            decreases suffix_array.len() - index,
        {
            let position: u32 = suffix_array[index];
            proof {
                assert(suffix_array@.take(index + 1).drop_last() =~= suffix_array@.take(
                    index as int,
                ));
                assert(suffix_array@.take(index + 1).last() == position);
            }
            if position > 0 {
                encoded_output.push(input[position as usize - 1]);
            } else {
                delim_pos = index;
            }
            index += 1;
        }
        proof {
            assert(suffix_array@.take(suffix_array.len() as int) =~= suffix_array@);
        }
        let mut output = radix_bytes(delim_pos as u32, 36);
        output.push(HEADER_END);
        output.append(&mut encoded_output);
        proof {
            assert(output@ == bwt_encoded(input@));
            lemma_bwt_round_trip(input@);
            lemma_primary_index_in_range(input@);
        }
        output
    }

    /// Reads the primary index from the header, which ends before byte
    /// `end`. An index over `limit` is refused.
    fn parse_header(input: &Vec<u8>, end: usize, limit: usize) -> (result: Result<
        usize,
        ParseError,
    >)
        requires
            end <= input.len(),
        ensures
            match result {
                Ok(p) => header_value(input@.take(end as int)) == Some(p as nat) && p <= limit,
                Err(e) => e.stage == Stage::Bwt && match header_value(input@.take(end as int)) {
                    None => e.fault == Fault::BadHeader,
                    Some(p) => p > limit && e.fault == Fault::IndexOutOfRange,
                },
            },
    {
        let ghost header = input@.take(end as int);
        let start: usize = if end > 0 && input[0] == 43 {
            1
        } else {
            0
        };
        let ghost digits = header_digits(header);
        assert(digits =~= input@.subrange(start as int, end as int));
        if start == end {
            return Err(ParseError { stage: Stage::Bwt, fault: Fault::BadHeader });
        }
        let mut at: usize = start;
        while at < end
            invariant
                start <= at <= end <= input.len(),
                digits == input@.subrange(start as int, end as int),
                digits == header_digits(input@.take(end as int)),
                forall|j: int| 0 <= j < at - start ==> (#[trigger] digit_value(digits[j])) is Some,
            decreases end - at,
        {
            let b: u8 = input[at];
            if !((48 <= b && b <= 57) || (97 <= b && b <= 122) || (65 <= b && b <= 90)) {
                assert(digit_value(digits[at - start]) is None);
                return Err(ParseError { stage: Stage::Bwt, fault: Fault::BadHeader });
            }
            at += 1;
        }
        assert(all_digits(digits));
        let mut value: usize = 0;
        let mut at: usize = start;
        proof {
            assert(digits.take(0) =~= Seq::<u8>::empty());
        }
        while at < end
            invariant
                start <= at <= end <= input.len(),
                digits == input@.subrange(start as int, end as int),
                digits == header_digits(input@.take(end as int)),
                all_digits(digits),
                value == digits_value(digits.take(at - start)),
                value <= limit,
            decreases end - at,
        {
            let b: u8 = input[at];
            assert(digit_value(digits[at - start]) is Some);
            let d: u8 = if b <= 57 {
                b - 48
            } else if b >= 97 {
                b - 87
            } else {
                b - 55
            };
            proof {
                assert(digits.take(at + 1 - start).drop_last() =~= digits.take(at - start));
                assert(digits.take(at + 1 - start).last() == b);
                lemma_digits_value_grows(digits, at + 1 - start);
            }
            let next: u128 = (value as u128) * 36 + (d as u128);
            if next > limit as u128 {
                return Err(ParseError { stage: Stage::Bwt, fault: Fault::IndexOutOfRange });
            }
            value = next as usize;
            at += 1;
        }
        assert(digits.take(end - start) =~= digits);
        Ok(value)
    }

    /// Follows the chain from the mark and collects the bytes met.
    fn unwind(column: &Vec<u8>, p: usize) -> (text: Vec<u8>)
        requires
            p <= column.len(),
        ensures
            text@ == unwound(column@, p as int),
    {
        let tokens = make_tokens(column, p);
        let ghost last = tokens@;
        let unsorted = enumerate_duplicates(tokens);
        let sorted = sorted_copy(column);
        let first_tokens = make_tokens(&sorted, 0);
        let ghost first = first_tokens@;
        let rows = index_rows(&first_tokens);
        let mut met: Vec<u8> = Vec::new();
        let mut current: (BwtToken, usize) = (BwtToken::Delim, 0);
        let mut fuel: usize = unsorted.len();
        let ghost whole = chain(last, first, BwtToken::Delim, 0, (column.len() + 1) as nat);
        proof {
            assert(first_tokens@.take(first_tokens.len() as int) =~= first_tokens@);
            lemma_every_column_unwinds(column@, p as int);
            assert(met@ + whole.unwrap() =~= whole.unwrap());
        }
        loop
            invariant_except_break
                whole == met_before(
                    met@,
                    chain(last, first, current.0, current.1 as nat, fuel as nat),
                ),
            invariant
                last.len() == column.len() + 1,
                first.len() == last.len(),
                unsorted.len() == last.len(),
                forall|i: int|
                    0 <= i < last.len() ==> #[trigger] unsorted[i] == (
                        last[i],
                        rank_in(last, i) as usize,
                    ),
                rows_indexed(rows@, first, first.len() as int),
                first.take(first.len() as int) == first,
                whole is Some,
            ensures
                whole == Some(met@),
            decreases fuel,
        {
            let slot = slot_of(current.0);
            proof {
                // the chain goes on, so the pair has a row and a step is left
                assert(fuel > 0 && has_row(first, current.0, current.1 as nat));
                let r = row_of(first, current.0, current.1 as nat);
                lemma_count_in_grows(first, current.0, r);
                assert(rows@[token_code(current.0) as int].len() == count_in(
                    first.take(first.len() as int),
                    current.0,
                ));
            }
            let row: usize = rows[slot][current.1];
            proof {
                assert(rows@[token_code(current.0) as int][current.1 as int] == row);
                assert(is_row(first, current.0, current.1 as nat, row as int));
                lemma_row_unique(
                    first,
                    current.0,
                    current.1 as nat,
                    row as int,
                    row_of(first, current.0, current.1 as nat),
                );
                lemma_count_in_bounded(last.take(row as int), last[row as int]);
            }
            let next = unsorted[row];
            match next.0 {
                BwtToken::Delim => {
                    proof {
                        assert(met@ + Seq::<u8>::empty() =~= met@);
                    }
                    break ;
                },
                BwtToken::Byte(b) => {
                    proof {
                        let later = chain(last, first, next.0, next.1 as nat, (fuel - 1) as nat);
                        if let Some(bytes) = later {
                            assert(met@ + (seq![b] + bytes) =~= met@.push(b) + bytes);
                        }
                    }
                    met.push(b);
                },
            }
            current = next;
            fuel -= 1;
        }
        let mut text: Vec<u8> = Vec::new();
        let mut left: usize = met.len();
        while left > 0
            invariant
                left <= met.len(),
                text.len() == met.len() - left,
                forall|i: int| 0 <= i < text.len() ==> text[i] == met[met.len() - 1 - i],
            decreases left,
        {
            left -= 1;
            text.push(met[left]);
        }
        assert(text@ =~= met@.reverse());
        text
    }

    /// Undoes `encode`. Fails where the header is missing or is no number,
    /// or where the primary index is past the column. From any column the
    /// chain of rows is followed to its end; it cannot break.
    pub fn decode(input: Vec<u8>) -> (result: Result<Vec<u8>, ParseError>)
        ensures
            result_view(result) == bwt_decoded(input@),
    {
        let mut end: usize = 0;
        while end < input.len() && input[end] != HEADER_END
            invariant
                end <= input.len(),
                forall|j: int| 0 <= j < end ==> input[j] != HEADER_END,
            decreases input.len() - end,
        {
            end += 1;
        }
        proof {
            crate::utils::lemma_position_of_is(input@, HEADER_END, end as int);
        }
        if end >= input.len() {
            return Err(ParseError { stage: Stage::Bwt, fault: Fault::MissingSeparator });
        }
        let mut column: Vec<u8> = Vec::new();
        let mut at: usize = end + 1;
        while at < input.len()
            invariant
                end + 1 <= at <= input.len(),
                column@ == input@.subrange(end + 1, at as int),
            decreases input.len() - at,
        {
            column.push(input[at]);
            assert(column@ =~= input@.subrange(end + 1, at + 1));
            at += 1;
        }
        assert(column@ =~= input@.skip(end + 1));
        let p = match Self::parse_header(&input, end, column.len()) {
            Ok(p) => p,
            Err(e) => {
                return Err(e);
            },
        };
        Ok(Self::unwind(&column, p))
    }
}

} // verus!
