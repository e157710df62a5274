//! Run-length coding can be undone on all buffers but a few, which are named
//! here.

use crate::encoders::rle::{
    escaped, lemma_run_length_bounds, repeated, rle_decoded, rle_encoded, rle_expanded,
    rle_runs, run_length, run_token, ESCAPE, MAX_REPEAT_COUNT, MIN_REPEAT_COUNT,
};
use crate::error::{led_by, Fault, ParseError};
use crate::utils::{count_of, is_least_used, least_used, with_inserted};
use vstd::prelude::*;

verus! {

/// What a byte becomes when the buffer is escaped.
pub open spec fn unit(b: u8, delim: u8) -> Seq<u8> {
    if b == ESCAPE {
        seq![ESCAPE, ESCAPE]
    } else if b == delim {
        seq![ESCAPE, delim]
    } else {
        seq![b]
    }
}

/// The escaped buffer, byte by byte.
pub open spec fn units(s: Seq<u8>, delim: u8) -> Seq<u8>
    decreases s.len(),
{
    if s.len() == 0 {
        Seq::empty()
    } else {
        unit(s[0], delim) + units(s.skip(1), delim)
    }
}

/// Inserting goes through a concatenation.
pub proof fn lemma_with_inserted_concat(a: Seq<u8>, b: Seq<u8>, target: u8, ins: u8)
    ensures
        with_inserted(a + b, target, ins) == with_inserted(a, target, ins) + with_inserted(
            b,
            target,
            ins,
        ),
    decreases a.len(),
{
    if a.len() == 0 {
        assert(a + b =~= b);
        assert(with_inserted(a, target, ins) + with_inserted(b, target, ins) =~= with_inserted(
            b,
            target,
            ins,
        ));
    } else {
        assert((a + b).skip(1) =~= a.skip(1) + b);
        assert((a + b)[0] == a[0]);
        lemma_with_inserted_concat(a.skip(1), b, target, ins);
        let head = if a[0] == target {
            seq![ins, target]
        } else {
            seq![a[0]]
        };
        assert(head + (with_inserted(a.skip(1), target, ins) + with_inserted(b, target, ins)) =~= (
        head + with_inserted(a.skip(1), target, ins)) + with_inserted(b, target, ins));
    }
}

/// Inserting into one byte or two.
proof fn lemma_with_inserted_short(a: Seq<u8>, target: u8, ins: u8)
    requires
        a.len() <= 2,
    ensures
        a.len() == 0 ==> with_inserted(a, target, ins) == a,
        a.len() == 1 && a[0] != target ==> with_inserted(a, target, ins) == a,
        a.len() == 1 && a[0] == target ==> with_inserted(a, target, ins) == seq![ins, target],
        a.len() == 2 && a[0] != target && a[1] != target ==> with_inserted(a, target, ins) == a,
{
    if a.len() == 1 {
        assert(a.skip(1).len() == 0);
        assert(with_inserted(a.skip(1), target, ins) =~= Seq::<u8>::empty());
        if a[0] == target {
            assert(with_inserted(a, target, ins) =~= seq![ins, target]);
        } else {
            assert(with_inserted(a, target, ins) =~= a);
        }
    } else if a.len() == 2 {
        let b = a.skip(1);
        assert(b.len() == 1 && b[0] == a[1]);
        assert(b.skip(1).len() == 0);
        assert(with_inserted(b.skip(1), target, ins) =~= Seq::<u8>::empty());
        if a[0] != target && a[1] != target {
            assert(with_inserted(b, target, ins) =~= b);
            assert(with_inserted(a, target, ins) =~= a);
        }
    }
}

/// Where the delimiter is not the escape byte, escaping works byte by byte:
/// an escape byte is doubled, a delimiter gets an escape byte in front.
pub proof fn lemma_escaped_is_units(s: Seq<u8>, delim: u8)
    requires
        delim != ESCAPE,
    ensures
        escaped(s, delim) == units(s, delim),
    decreases s.len(),
{
    if s.len() == 0 {
        assert(with_inserted(s, ESCAPE, ESCAPE) =~= Seq::<u8>::empty());
    } else {
        let head = if s[0] == ESCAPE {
            seq![ESCAPE, ESCAPE]
        } else {
            seq![s[0]]
        };
        let rest = with_inserted(s.skip(1), ESCAPE, ESCAPE);
        assert(with_inserted(s, ESCAPE, ESCAPE) == head + rest);
        lemma_with_inserted_concat(head, rest, delim, ESCAPE);
        lemma_with_inserted_short(head, delim, ESCAPE);
        assert(with_inserted(head, delim, ESCAPE) == unit(s[0], delim));
        lemma_escaped_is_units(s.skip(1), delim);
    }
}

/// What the length of a run says: the bytes of the run are equal, and the
/// run ends at the cap, at the end, or at another byte.
pub proof fn lemma_run_length_facts(s: Seq<u8>, cap: nat)
    requires
        s.len() > 0,
        cap > 0,
    ensures
        1 <= run_length(s, cap) <= s.len(),
        run_length(s, cap) <= cap,
        forall|j: int| 0 <= j < run_length(s, cap) ==> #[trigger] s[j] == s[0],
        run_length(s, cap) == cap || run_length(s, cap) == s.len() || s[run_length(s, cap) as int]
            != s[0],
    decreases s.len(),
{
    if s.len() >= 2 && s[1] == s[0] {
        if cap > 1 {
            lemma_run_length_facts(s.skip(1), (cap - 1) as nat);
            let c = run_length(s, cap);
            assert forall|j: int| 0 <= j < c implies #[trigger] s[j] == s[0] by {
                if j > 0 {
                    assert(s.skip(1)[j - 1] == s[j]);
                }
            }
            if c != cap && c != s.len() {
                assert(s.skip(1)[c - 1] == s[c as int]);
            }
        } else {
            assert(run_length(s.skip(1), 0) == 0);
        }
    }
}

/// A length that has what the length of a run has is the length of the run.
pub proof fn lemma_run_length_is(s: Seq<u8>, cap: nat, c: nat)
    requires
        1 <= c <= s.len(),
        c <= cap,
        forall|j: int| 0 <= j < c ==> #[trigger] s[j] == s[0],
        c == cap || c == s.len() || s[c as int] != s[0],
    ensures
        run_length(s, cap) == c,
    decreases c,
{
    if c == 1 {
        if s.len() >= 2 && s[1] == s[0] {
            assert(cap == 1);
            assert(run_length(s.skip(1), 0) == 0);
        }
    } else {
        let t = s.skip(1);
        assert(s[1] == s[0]);
        assert forall|j: int| 0 <= j < c - 1 implies #[trigger] t[j] == t[0] by {
            assert(t[j] == s[j + 1]);
        }
        if c != cap && c != s.len() {
            assert(t[c - 1] == s[c as int]);
        }
        lemma_run_length_is(t, (cap - 1) as nat, (c - 1) as nat);
    }
}

/// The escaped buffer starts with the escape byte where the buffer starts
/// with it or with the delimiter, and else with the byte the buffer starts
/// with.
pub proof fn lemma_units_first(s: Seq<u8>, delim: u8)
    requires
        s.len() > 0,
    ensures
        units(s, delim).len() > 0,
        units(s, delim)[0] == if s[0] == delim {
            ESCAPE
        } else {
            s[0]
        },
{
}

/// A run of an ordinary byte is escaped as it is.
pub proof fn lemma_units_of_run(s: Seq<u8>, delim: u8, c: nat)
    requires
        c <= s.len(),
        s.len() > 0,
        s[0] != ESCAPE,
        s[0] != delim,
        forall|j: int| 0 <= j < c ==> #[trigger] s[j] == s[0],
    ensures
        units(s, delim) == repeated(s[0], c) + units(s.skip(c as int), delim),
    decreases c,
{
    if c == 0 {
        assert(s.skip(0) =~= s);
        assert(repeated(s[0], 0) + units(s, delim) =~= units(s, delim));
    } else {
        let t = s.skip(1);
        if c > 1 {
            assert forall|j: int| 0 <= j < c - 1 implies #[trigger] t[j] == t[0] by {
                assert(t[j] == s[j + 1]);
            }
            assert(t[0] == s[1]);
            lemma_units_of_run(t, delim, (c - 1) as nat);
            assert(t.skip(c - 1) =~= s.skip(c as int));
            assert(seq![s[0]] + (repeated(s[0], (c - 1) as nat) + units(s.skip(c as int), delim))
                =~= repeated(s[0], c) + units(s.skip(c as int), delim));
        } else {
            assert(seq![s[0]] + units(t, delim) =~= repeated(s[0], 1) + units(t, delim));
        }
    }
}

/// A run of escape bytes is escaped as a run of twice the length.
pub proof fn lemma_units_of_escapes(s: Seq<u8>, delim: u8, k: nat)
    requires
        k <= s.len(),
        forall|j: int| 0 <= j < k ==> #[trigger] s[j] == ESCAPE,
    ensures
        units(s, delim) == repeated(ESCAPE, 2 * k) + units(s.skip(k as int), delim),
    decreases k,
{
    if k == 0 {
        assert(s.skip(0) =~= s);
        assert(repeated(ESCAPE, 0) + units(s, delim) =~= units(s, delim));
    } else {
        let t = s.skip(1);
        assert forall|j: int| 0 <= j < k - 1 implies #[trigger] t[j] == ESCAPE by {
            assert(t[j] == s[j + 1]);
        }
        lemma_units_of_escapes(t, delim, (k - 1) as nat);
        assert(t.skip(k - 1) =~= s.skip(k as int));
        assert(seq![ESCAPE, ESCAPE] + (repeated(ESCAPE, (2 * (k - 1)) as nat) + units(
            s.skip(k as int),
            delim,
        )) =~= repeated(ESCAPE, 2 * k) + units(s.skip(k as int), delim));
    }
}

/// A byte that is neither the escape byte nor the delimiter stands for
/// itself.
pub proof fn lemma_expand_literal(x: u8, rest: Seq<u8>, delim: u8)
    requires
        x != ESCAPE,
        x != delim,
    ensures
        rle_expanded(seq![x] + rest, delim) == led_by(seq![x], rle_expanded(rest, delim)),
{
    let s = seq![x] + rest;
    assert(s[0] == x);
    assert(s.skip(1) =~= rest);
}

/// Such bytes stand for themselves also where they come in a row.
pub proof fn lemma_expand_literals(x: u8, c: nat, rest: Seq<u8>, delim: u8)
    requires
        x != ESCAPE,
        x != delim,
    ensures
        rle_expanded(repeated(x, c) + rest, delim) == led_by(
            repeated(x, c),
            rle_expanded(rest, delim),
        ),
    decreases c,
{
    if c == 0 {
        assert(repeated(x, 0) + rest =~= rest);
        if let Ok(tail) = rle_expanded(rest, delim) {
            assert(repeated(x, 0) + tail =~= tail);
        }
    } else {
        let shorter = repeated(x, (c - 1) as nat) + rest;
        assert(repeated(x, c) + rest =~= seq![x] + shorter);
        lemma_expand_literal(x, shorter, delim);
        lemma_expand_literals(x, (c - 1) as nat, rest, delim);
        if let Ok(tail) = rle_expanded(rest, delim) {
            assert(seq![x] + (repeated(x, (c - 1) as nat) + tail) =~= repeated(x, c) + tail);
        }
    }
}

/// An escape byte makes the byte behind it stand for itself.
pub proof fn lemma_expand_pair(y: u8, rest: Seq<u8>, delim: u8)
    ensures
        rle_expanded(seq![ESCAPE, y] + rest, delim) == led_by(
            seq![y],
            rle_expanded(rest, delim),
        ),
{
    let s = seq![ESCAPE, y] + rest;
    assert(s[0] == ESCAPE && s[1] == y);
    assert(s.skip(2) =~= rest);
}

/// A token stands for its byte, as often as it says; half as often where
/// the byte is the escape byte.
pub proof fn lemma_expand_token(count: u8, x: u8, rest: Seq<u8>, delim: u8)
    requires
        delim != ESCAPE,
    ensures
        rle_expanded(seq![delim, count, x] + rest, delim) == led_by(
            repeated(
                x,
                if x == ESCAPE {
                    (count / 2) as nat
                } else {
                    count as nat
                },
            ),
            rle_expanded(rest, delim),
        ),
{
    let s = seq![delim, count, x] + rest;
    assert(s[0] == delim && s[1] == count && s[2] == x);
    assert(s.skip(3) =~= rest);
}

/// Whether `n` escape bytes stand in `s` from index `i` on.
pub open spec fn escapes_at(s: Seq<u8>, i: int, n: int) -> bool {
    forall|j: int| i <= j < i + n ==> #[trigger] s[j] == ESCAPE
}

/// Whether the buffer has neither of the two things that run-length coding
/// with the delimiter `delim` does not bring back: 128 escape bytes in a
/// row, and two escape bytes in front of a delimiter.
pub open spec fn calm(s: Seq<u8>, delim: u8) -> bool {
    &&& forall|i: int| 0 <= i && i + 128 <= s.len() ==> !#[trigger] escapes_at(s, i, 128)
    &&& forall|i: int|
        0 <= i && i + 2 < s.len() ==> !(#[trigger] s[i] == ESCAPE && s[i + 1] == ESCAPE && s[i + 2]
            == delim)
}

/// What is calm stays calm without its first bytes.
pub proof fn lemma_calm_skip(s: Seq<u8>, delim: u8, k: int)
    requires
        calm(s, delim),
        0 <= k <= s.len(),
    ensures
        calm(s.skip(k), delim),
{
    let t = s.skip(k);
    assert forall|i: int| 0 <= i && i + 128 <= t.len() implies !#[trigger] escapes_at(
        t,
        i,
        128,
    ) by {
        if escapes_at(t, i, 128) {
            assert forall|j: int| i + k <= j < i + k + 128 implies #[trigger] s[j] == ESCAPE by {
                assert(t[j - k] == s[j]);
            }
            assert(escapes_at(s, i + k, 128));
        }
    }
    assert forall|i: int| 0 <= i && i + 2 < t.len() implies !(#[trigger] t[i] == ESCAPE && t[i + 1]
        == ESCAPE && t[i + 2] == delim) by {
        assert(t[i] == s[i + k] && t[i + 1] == s[i + k + 1] && t[i + 2] == s[i + k + 2]);
    }
}

/// The tokens of a buffer that starts with a run of `c` equal bytes, where
/// the run ends there or is cut there.
proof fn lemma_runs_of_run(x: u8, c: nat, rest: Seq<u8>, delim: u8)
    requires
        1 <= c <= MAX_REPEAT_COUNT,
        c == MAX_REPEAT_COUNT || rest.len() == 0 || rest[0] != x,
    ensures
        rle_runs(repeated(x, c) + rest, delim) == run_token(delim, c, x) + rle_runs(rest, delim),
{
    let p = repeated(x, c) + rest;
    assert(p[0] == x);
    if c < p.len() {
        assert(p[c as int] == rest[0]);
    }
    lemma_run_length_is(p, MAX_REPEAT_COUNT as nat, c);
    assert(p.skip(c as int) =~= rest);
}

/// Whether the tokens of `s` stand for `s`.
pub open spec fn comes_back(s: Seq<u8>, delim: u8) -> bool {
    rle_expanded(rle_runs(units(s, delim), delim), delim) == Ok::<Seq<u8>, Fault>(s)
}

/// A delimiter in front of a buffer that comes back.
proof fn lemma_delimiter_comes_back(s: Seq<u8>, delim: u8)
    requires
        delim != ESCAPE,
        s.len() > 0,
        s[0] == delim,
        comes_back(s.skip(1), delim),
    ensures
        comes_back(s, delim),
{
    let t = s.skip(1);
    let behind = units(t, delim);
    assert(units(s, delim) =~= repeated(ESCAPE, 1) + (seq![delim] + behind));
    lemma_runs_of_run(ESCAPE, 1, seq![delim] + behind, delim);
    if t.len() > 0 {
        lemma_units_first(t, delim);
    }
    assert(seq![delim] + behind =~= repeated(delim, 1) + behind);
    lemma_runs_of_run(delim, 1, behind, delim);
    let tokens = rle_runs(behind, delim);
    assert(repeated(ESCAPE, 1) + (repeated(delim, 1) + tokens) =~= seq![ESCAPE, delim] + tokens);
    lemma_expand_pair(delim, tokens, delim);
    assert(seq![delim] + t =~= s);
}

/// An escape byte and a delimiter in front of a buffer that comes back.
proof fn lemma_escape_delimiter_comes_back(s: Seq<u8>, delim: u8)
    requires
        delim != ESCAPE,
        s.len() >= 2,
        s[0] == ESCAPE,
        s[1] == delim,
        comes_back(s.skip(2), delim),
    ensures
        comes_back(s, delim),
{
    let u = s.skip(2);
    let behind = units(u, delim);
    assert(s.skip(1).skip(1) =~= u);
    assert(s.skip(1)[0] == delim);
    assert(units(s.skip(1), delim) == seq![ESCAPE, delim] + behind);
    assert(units(s, delim) =~= repeated(ESCAPE, 3) + (seq![delim] + behind));
    lemma_runs_of_run(ESCAPE, 3, seq![delim] + behind, delim);
    if u.len() > 0 {
        lemma_units_first(u, delim);
    }
    assert(seq![delim] + behind =~= repeated(delim, 1) + behind);
    lemma_runs_of_run(delim, 1, behind, delim);
    let tokens = rle_runs(behind, delim);
    assert(repeated(ESCAPE, 3) + (repeated(delim, 1) + tokens) =~= seq![ESCAPE, ESCAPE] + (
    seq![ESCAPE, delim] + tokens));
    lemma_expand_pair(ESCAPE, seq![ESCAPE, delim] + tokens, delim);
    lemma_expand_pair(delim, tokens, delim);
    assert(seq![ESCAPE] + (seq![delim] + u) =~= s);
}

/// Up to 127 escape bytes in front of a buffer that comes back and starts
/// with neither an escape byte nor a delimiter.
proof fn lemma_escapes_come_back(s: Seq<u8>, delim: u8, k: nat)
    requires
        delim != ESCAPE,
        1 <= k <= 127,
        k <= s.len(),
        forall|j: int| 0 <= j < k ==> #[trigger] s[j] == ESCAPE,
        k == s.len() || (s[k as int] != ESCAPE && s[k as int] != delim),
        comes_back(s.skip(k as int), delim),
    ensures
        comes_back(s, delim),
{
    let t = s.skip(k as int);
    lemma_units_of_escapes(s, delim, k);
    let behind = units(t, delim);
    if t.len() > 0 {
        assert(t[0] == s[k as int]);
        lemma_units_first(t, delim);
    }
    lemma_runs_of_run(ESCAPE, 2 * k, behind, delim);
    let tokens = rle_runs(behind, delim);
    if k == 1 {
        assert(repeated(ESCAPE, 2) + tokens =~= seq![ESCAPE, ESCAPE] + tokens);
        lemma_expand_pair(ESCAPE, tokens, delim);
        assert(seq![ESCAPE] + t =~= s);
    } else {
        let count = (2 * k) as u8;
        assert(run_token(delim, 2 * k, ESCAPE) =~= seq![delim, count, ESCAPE]);
        lemma_expand_token(count, ESCAPE, tokens, delim);
        assert(count / 2 == k);
        assert(repeated(ESCAPE, k) + t =~= s);
    }
}

/// A run of an ordinary byte in front of a buffer that comes back.
proof fn lemma_run_comes_back(s: Seq<u8>, delim: u8, c: nat)
    requires
        delim != ESCAPE,
        s.len() > 0,
        s[0] != ESCAPE,
        s[0] != delim,
        c == run_length(s, MAX_REPEAT_COUNT as nat),
        comes_back(s.skip(c as int), delim),
    ensures
        comes_back(s, delim),
{
    let x = s[0];
    lemma_run_length_facts(s, MAX_REPEAT_COUNT as nat);
    let t = s.skip(c as int);
    lemma_units_of_run(s, delim, c);
    let behind = units(t, delim);
    if t.len() > 0 {
        assert(t[0] == s[c as int]);
        lemma_units_first(t, delim);
    }
    lemma_runs_of_run(x, c, behind, delim);
    let tokens = rle_runs(behind, delim);
    if c < MIN_REPEAT_COUNT {
        lemma_expand_literals(x, c, tokens, delim);
    } else {
        let count = c as u8;
        assert(run_token(delim, c, x) =~= seq![delim, count, x]);
        lemma_expand_token(count, x, tokens, delim);
    }
    assert(repeated(x, c) + t =~= s);
}

/// The tokens of a calm buffer stand for the buffer.
pub proof fn lemma_runs_expand(s: Seq<u8>, delim: u8)
    requires
        delim != ESCAPE,
        calm(s, delim),
    ensures
        comes_back(s, delim),
    decreases s.len(),
{
    if s.len() == 0 {
        assert(s =~= Seq::<u8>::empty());
    } else if s[0] == delim {
        lemma_calm_skip(s, delim, 1);
        lemma_runs_expand(s.skip(1), delim);
        lemma_delimiter_comes_back(s, delim);
    } else if s[0] == ESCAPE {
        let k = run_length(s, s.len());
        lemma_run_length_facts(s, s.len());
        assert(k <= 127) by {
            if k >= 128 {
                assert(escapes_at(s, 0, 128));
            }
        }
        if k < s.len() && s[k as int] == delim {
            assert(k == 1) by {
                if k >= 2 {
                    assert(s[k - 2] == ESCAPE && s[k - 2 + 1] == ESCAPE && s[k - 2 + 2] == delim);
                }
            }
            lemma_calm_skip(s, delim, 2);
            lemma_runs_expand(s.skip(2), delim);
            lemma_escape_delimiter_comes_back(s, delim);
        } else {
            lemma_calm_skip(s, delim, k as int);
            lemma_runs_expand(s.skip(k as int), delim);
            lemma_escapes_come_back(s, delim, k);
        }
    } else {
        let c = run_length(s, MAX_REPEAT_COUNT as nat);
        lemma_run_length_bounds(s, MAX_REPEAT_COUNT as nat);
        lemma_calm_skip(s, delim, c as int);
        lemma_runs_expand(s.skip(c as int), delim);
        lemma_run_comes_back(s, delim, c);
    }
}

/// Whether `b` does not stand in `s`.
pub open spec fn lacks(s: Seq<u8>, b: u8) -> bool {
    forall|j: int| 0 <= j < s.len() ==> #[trigger] s[j] != b
}

/// Whether no four equal bytes stand in a row.
pub open spec fn runs_are_short(s: Seq<u8>) -> bool {
    forall|i: int|
        0 <= i && i + 3 < s.len() ==> !(#[trigger] s[i] == s[i + 1] && s[i] == s[i + 2] && s[i]
            == s[i + 3])
}

/// A buffer without the escape byte and without a run of four comes back
/// also where the escape byte is the delimiter: nothing is escaped, and
/// no token is written.
pub proof fn lemma_plain_comes_back(s: Seq<u8>)
    requires
        lacks(s, ESCAPE),
        runs_are_short(s),
    ensures
        rle_expanded(rle_runs(s, ESCAPE), ESCAPE) == Ok::<Seq<u8>, Fault>(s),
    decreases s.len(),
{
    if s.len() == 0 {
        assert(s =~= Seq::<u8>::empty());
    } else {
        let c = run_length(s, MAX_REPEAT_COUNT as nat);
        lemma_run_length_facts(s, MAX_REPEAT_COUNT as nat);
        assert(c < MIN_REPEAT_COUNT) by {
            if c >= 4 {
                let i = 0int;
                assert(s[i] == s[i + 1] && s[i] == s[i + 2] && s[i] == s[i + 3]);
            }
        }
        let t = s.skip(c as int);
        assert forall|j: int| 0 <= j < t.len() implies #[trigger] t[j] != ESCAPE by {
            assert(t[j] == s[j + c]);
        }
        assert forall|i: int| 0 <= i && i + 3 < t.len() implies !(#[trigger] t[i] == t[i + 1]
            && t[i] == t[i + 2] && t[i] == t[i + 3]) by {
            assert(t[i] == s[i + c] && t[i + 1] == s[i + c + 1] && t[i + 2] == s[i + c + 2] && t[i
                + 3] == s[i + c + 3]);
        }
        lemma_plain_comes_back(t);
        assert(s[0] != ESCAPE);
        lemma_expand_literals(s[0], c, rle_runs(t, ESCAPE), ESCAPE);
        assert(repeated(s[0], c) =~= s.take(c as int)) by {
            assert forall|j: int| 0 <= j < c implies repeated(s[0], c)[j] == s.take(c as int)[j] by {
                assert(s[j] == s[0]);
            }
        }
        assert(s.take(c as int) + t =~= s);
    }
}

/// Whether run-length coding can be undone on `s`. It can where the buffer
/// has less than two bytes. Where the rarest byte is not the escape byte,
/// it can unless the buffer has 128 escape bytes in a row, or two escape
/// bytes in front of its rarest byte. Where the rarest byte is the escape
/// byte, it can if that byte does not occur and no four equal bytes stand
/// in a row.
pub open spec fn rle_reversible(s: Seq<u8>) -> bool {
    ||| s.len() < 2
    ||| least_used(s) != ESCAPE && calm(s, least_used(s))
    ||| least_used(s) == ESCAPE && lacks(s, ESCAPE) && runs_are_short(s)
}

/// Decoding undoes encoding on every such buffer.
pub proof fn lemma_rle_round_trip(s: Seq<u8>)
    requires
        rle_reversible(s),
    ensures
        rle_decoded(rle_encoded(s)) == Ok::<Seq<u8>, ParseError>(s),
{
    if s.len() >= 2 {
        let delim = least_used(s);
        let coded = rle_encoded(s);
        let tokens = rle_runs(escaped(s, delim), delim);
        assert(coded == seq![delim] + tokens);
        if delim != ESCAPE {
            lemma_escaped_is_units(s, delim);
            lemma_runs_expand(s, delim);
        } else {
            lemma_with_inserted_lacks(s, ESCAPE, ESCAPE, ESCAPE);
            lemma_plain_comes_back(s);
        }
        assert(tokens.len() > 0) by {
            if tokens.len() == 0 {
                assert(rle_expanded(tokens, delim) == Ok::<Seq<u8>, Fault>(tokens));
            }
        }
        assert(coded[0] == delim);
        assert(coded.skip(1) =~= tokens);
    }
}

/// A buffer of equal bytes holds its byte as often as it is long, and no
/// other byte.
pub proof fn lemma_count_of_repeated(x: u8, n: nat, b: u8)
    ensures
        count_of(repeated(x, n), b) == if b == x {
            n
        } else {
            0
        },
    decreases n,
{
    if n > 0 {
        assert(repeated(x, n).drop_last() =~= repeated(x, (n - 1) as nat));
        lemma_count_of_repeated(x, (n - 1) as nat, b);
    }
}

/// The rarest byte of a buffer is the only byte that is the rarest and the
/// lowest of the rarest.
pub proof fn lemma_least_used_is(s: Seq<u8>, d: u8)
    requires
        is_least_used(s, d),
    ensures
        least_used(s) == d,
{
    let chosen = least_used(s);
    if chosen < d {
        assert(count_of(s, chosen) > count_of(s, d));
    } else if d < chosen {
        assert(count_of(s, d) > count_of(s, chosen));
    }
}

/// Decoding undoes encoding on every buffer of equal bytes, but for 128
/// escape bytes and more.
pub proof fn lemma_rle_monochrome_round_trip(x: u8, n: nat)
    requires
        x != ESCAPE || n < 128,
    ensures
        rle_decoded(rle_encoded(repeated(x, n))) == Ok::<Seq<u8>, ParseError>(repeated(x, n)),
{
    let s = repeated(x, n);
    if n >= 2 {
        let d: u8 = if x == 0 {
            1
        } else {
            0
        };
        assert(is_least_used(s, d)) by {
            assert forall|b: u8| count_of(s, d) <= #[trigger] count_of(s, b) by {
                lemma_count_of_repeated(x, n, d);
            }
            assert forall|b: u8| b < d implies #[trigger] count_of(s, b) > count_of(s, d) by {
                lemma_count_of_repeated(x, n, d);
                lemma_count_of_repeated(x, n, b);
            }
        }
        lemma_least_used_is(s, d);
        assert(calm(s, d)) by {
            assert forall|i: int| 0 <= i && i + 128 <= s.len() implies !#[trigger] escapes_at(
                s,
                i,
                128,
            ) by {
                if escapes_at(s, i, 128) {
                    assert(s[i] == ESCAPE);
                }
            }
        }
    }
    lemma_rle_round_trip(s);
}

/// Whether the delimiter stands in the payload only as the first byte of
/// a token of three bytes. The payload is read token by token; the count
/// of a token is not looked at.
pub open spec fn delimiter_in_tokens_only(payload: Seq<u8>, delim: u8) -> bool
    decreases payload.len(),
{
    if payload.len() == 0 {
        true
    } else if payload[0] == delim {
        payload.len() >= 3 && payload[2] != delim && delimiter_in_tokens_only(
            payload.skip(3),
            delim,
        )
    } else {
        delimiter_in_tokens_only(payload.skip(1), delim)
    }
}

/// Inserting leaves a buffer without the target as it is, and brings in no
/// byte but the inserted one.
pub proof fn lemma_with_inserted_lacks(s: Seq<u8>, target: u8, ins: u8, b: u8)
    ensures
        lacks(s, target) ==> with_inserted(s, target, ins) == s,
        lacks(s, b) && b != ins ==> lacks(with_inserted(s, target, ins), b),
    decreases s.len(),
{
    if s.len() > 0 {
        let t = s.skip(1);
        lemma_with_inserted_lacks(t, target, ins, b);
        if lacks(s, target) {
            assert forall|j: int| 0 <= j < t.len() implies #[trigger] t[j] != target by {
                assert(t[j] == s[j + 1]);
            }
            assert(s[0] != target);
            assert(seq![s[0]] + t =~= s);
        }
        if lacks(s, b) && b != ins {
            assert forall|j: int| 0 <= j < t.len() implies #[trigger] t[j] != b by {
                assert(t[j] == s[j + 1]);
            }
            assert(s[0] != b);
            let w = with_inserted(s, target, ins);
            let wt = with_inserted(t, target, ins);
            assert forall|j: int| 0 <= j < w.len() implies #[trigger] w[j] != b by {
                if s[0] == target {
                    if j >= 2 {
                        assert(w[j] == wt[j - 2]);
                    }
                } else {
                    if j >= 1 {
                        assert(w[j] == wt[j - 1]);
                    }
                }
            }
        }
    }
}

/// Bytes other than the delimiter in front of a payload do no harm.
proof fn lemma_literals_free(x: u8, c: nat, rest: Seq<u8>, delim: u8)
    requires
        x != delim,
        delimiter_in_tokens_only(rest, delim),
    ensures
        delimiter_in_tokens_only(repeated(x, c) + rest, delim),
    decreases c,
{
    if c == 0 {
        assert(repeated(x, 0) + rest =~= rest);
    } else {
        let p = repeated(x, c) + rest;
        assert(p[0] == x);
        assert(p.skip(1) =~= repeated(x, (c - 1) as nat) + rest);
        lemma_literals_free(x, (c - 1) as nat, rest, delim);
    }
}

/// The tokens of a buffer without the delimiter hold the delimiter only at
/// their start.
pub proof fn lemma_runs_free(p: Seq<u8>, delim: u8)
    requires
        lacks(p, delim),
    ensures
        delimiter_in_tokens_only(rle_runs(p, delim), delim),
    decreases p.len(),
{
    if p.len() > 0 {
        let c = run_length(p, MAX_REPEAT_COUNT as nat);
        lemma_run_length_bounds(p, MAX_REPEAT_COUNT as nat);
        let rest = p.skip(c as int);
        assert forall|j: int| 0 <= j < rest.len() implies #[trigger] rest[j] != delim by {
            assert(rest[j] == p[j + c]);
        }
        lemma_runs_free(rest, delim);
        let tokens = rle_runs(rest, delim);
        assert(p[0] != delim);
        if c < MIN_REPEAT_COUNT {
            lemma_literals_free(p[0], c, tokens, delim);
        } else {
            let whole = seq![delim, c as u8, p[0]] + tokens;
            assert(whole[0] == delim && whole[2] == p[0]);
            assert(whole.skip(3) =~= tokens);
        }
    }
}

/// Where some byte does not occur in the buffer, the delimiter is such a
/// byte, it is the first byte of the coded buffer, and behind it stands
/// only as the first byte of tokens.
pub proof fn lemma_rle_delimiter_free(s: Seq<u8>)
    requires
        s.len() >= 2,
        exists|b: u8| count_of(s, b) == 0,
    ensures
        count_of(s, least_used(s)) == 0,
        rle_encoded(s)[0] == least_used(s),
        delimiter_in_tokens_only(rle_encoded(s).skip(1), least_used(s)),
{
    let delim = least_used(s);
    lemma_least_used_exists(s);
    let unused = choose|b: u8| count_of(s, b) == 0;
    assert(count_of(s, delim) <= count_of(s, unused));
    assert(lacks(s, delim)) by {
        assert forall|j: int| 0 <= j < s.len() implies #[trigger] s[j] != delim by {
            crate::proofs::huff::lemma_count_of_member(s, j);
        }
    }
    let doubled = with_inserted(s, ESCAPE, ESCAPE);
    if delim == ESCAPE {
        lemma_with_inserted_lacks(s, ESCAPE, ESCAPE, delim);
    } else {
        lemma_with_inserted_lacks(s, ESCAPE, ESCAPE, delim);
    }
    assert(lacks(doubled, delim));
    lemma_with_inserted_lacks(doubled, delim, ESCAPE, delim);
    assert(escaped(s, delim) == doubled);
    lemma_runs_free(doubled, delim);
    let coded = rle_encoded(s);
    assert(coded.skip(1) =~= rle_runs(doubled, delim));
}

/// Every buffer has a rarest byte.
pub proof fn lemma_least_used_exists(s: Seq<u8>)
    ensures
        crate::utils::is_least_used(s, least_used(s)),
{
    lemma_rarest_below(s, 255);
    let d = choose|d: u8| rarest_below(s, d, 255);
    assert(crate::utils::is_least_used(s, d));
}

/// Whether `d` is the lowest among the rarest of the bytes up to `top`.
pub open spec fn rarest_below(s: Seq<u8>, d: u8, top: u8) -> bool {
    &&& d <= top
    &&& forall|b: u8| b <= top ==> count_of(s, d) <= #[trigger] count_of(s, b)
    &&& forall|b: u8| b < d ==> #[trigger] count_of(s, b) > count_of(s, d)
}

/// Among the bytes up to `top` there is a rarest one of lowest value.
proof fn lemma_rarest_below(s: Seq<u8>, top: u8)
    ensures
        exists|d: u8| rarest_below(s, d, top),
    decreases top,
{
    if top == 0 {
        assert(rarest_below(s, 0, 0));
    } else {
        let lower = (top - 1) as u8;
        lemma_rarest_below(s, lower);
        let d = choose|d: u8| rarest_below(s, d, lower);
        if count_of(s, top) < count_of(s, d) {
            assert(rarest_below(s, top, top));
        } else {
            assert(rarest_below(s, d, top));
        }
    }
}

} // verus!
