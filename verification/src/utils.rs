//! Helpers that the stages share: counting bytes, finding the rarest byte,
//! escaping, finding an element, ranking equal tokens, and writing a number
//! in another base.

use crate::encoders::bwt::{count_in, lemma_count_in_bounded, rank_in, token_code, BwtToken};
use vstd::prelude::*;
use vstd::std_specs::cmp::PartialEqSpec;

verus! {

/// How often `b` occurs in `s`.
pub open spec fn count_of(s: Seq<u8>, b: u8) -> nat
    decreases s.len(),
{
    if s.len() == 0 {
        0
    } else {
        count_of(s.drop_last(), b) + if s.last() == b { 1nat } else { 0nat }
    }
}

/// No byte occurs more often than the buffer is long.
pub proof fn lemma_count_of_bounded(s: Seq<u8>, b: u8)
    ensures
        count_of(s, b) <= s.len(),
    decreases s.len(),
{
    if s.len() > 0 {
        lemma_count_of_bounded(s.drop_last(), b);
    }
}

/// The histogram of a buffer: entry `b` counts the occurrences of byte `b`.
pub fn byte_histogram(input: &Vec<u8>) -> (counts: Vec<usize>)
    ensures
        counts.len() == 256,
        forall|b: u8| #[trigger] counts[b as int] == count_of(input@, b),
{
    let mut counts: Vec<usize> = Vec::new();
    let mut k: usize = 0;
    while k < 256
        invariant
            k <= 256,
            counts.len() == k,
            forall|j: int| 0 <= j < k ==> counts[j] == 0,
        decreases 256 - k,
    {
        counts.push(0);
        k += 1;
    }
    let mut i: usize = 0;
    while i < input.len()
        invariant
            i <= input.len(),
            counts.len() == 256,
            forall|b: u8| #[trigger] counts[b as int] == count_of(input@.take(i as int), b),
        decreases input.len() - i,
    {
        let byte: u8 = input[i];
        proof {
            assert(input@.take(i + 1).drop_last() =~= input@.take(i as int));
            assert(input@.take(i + 1).last() == byte);
            lemma_count_of_bounded(input@.take(i as int), byte);
        }
        let old_count: usize = counts[byte as usize];
        counts.set(byte as usize, old_count + 1);
        i += 1;
    }
    proof {
        assert(input@.take(input.len() as int) =~= input@);
    }
    counts
}

/// `d` is the rarest byte of `s`, and the lowest among equally rare ones.
pub open spec fn is_least_used(s: Seq<u8>, d: u8) -> bool {
    &&& forall|b: u8| count_of(s, d) <= #[trigger] count_of(s, b)
    &&& forall|b: u8| b < d ==> #[trigger] count_of(s, b) > count_of(s, d)
}

/// The byte with the fewest occurrences in `s`; ties go to the lowest value.
pub open spec fn least_used(s: Seq<u8>) -> u8 {
    choose|d: u8| is_least_used(s, d)
}

/// Retrieves the least used byte of a buffer. A byte that does not occur at
/// all is returned whenever there is one, and always the lowest such.
pub fn get_least_used_byte(input: &Vec<u8>) -> (d: u8)
    ensures
        is_least_used(input@, d),
        d == least_used(input@),
{
    let counts = byte_histogram(input);
    let mut best: u8 = 0;
    let mut b: usize = 1;
    while b < 256
        invariant
            1 <= b <= 256,
            counts.len() == 256,
            best < b,
            forall|c: u8| c < b ==> counts[best as int] <= #[trigger] counts[c as int],
            forall|c: u8| c < best ==> #[trigger] counts[c as int] > counts[best as int],
        decreases 256 - b,
    {
        if counts[b] < counts[best as usize] {
            best = b as u8;
        }
        b += 1;
    }
    proof {
        assert forall|c: u8| count_of(input@, best) <= #[trigger] count_of(input@, c) by {
            assert(counts[c as int] == count_of(input@, c));
        }
        assert forall|c: u8| c < best implies #[trigger] count_of(input@, c) > count_of(
            input@,
            best,
        ) by {
            assert(counts[c as int] == count_of(input@, c));
        }
        assert(is_least_used(input@, best));
        let chosen = least_used(input@);
        assert(is_least_used(input@, chosen));
        assert(chosen == best) by {
            if chosen < best {
                assert(count_of(input@, chosen) > count_of(input@, best));
            } else if best < chosen {
                assert(count_of(input@, best) > count_of(input@, chosen));
            }
        }
    }
    best
}

/// `s` with `ins` put in front of every occurrence of `target`.
pub open spec fn with_inserted(s: Seq<u8>, target: u8, ins: u8) -> Seq<u8>
    decreases s.len(),
{
    if s.len() == 0 {
        s
    } else if s[0] == target {
        seq![ins, target] + with_inserted(s.skip(1), target, ins)
    } else {
        seq![s[0]] + with_inserted(s.skip(1), target, ins)
    }
}

/// Puts `insert_byte` in front of every `target_byte` of the buffer. Bytes
/// that the call itself puts in are not looked at again.
pub fn insert_before_target(input: &mut Vec<u8>, target_byte: u8, insert_byte: u8)
    ensures
        final(input)@ == with_inserted(old(input)@, target_byte, insert_byte),
{
    let mut output: Vec<u8> = Vec::new();
    let mut index: usize = 0;
    proof {
        assert(input@.skip(0) =~= input@);
        assert(output@ + input@ =~= input@);
        assert(output@ + with_inserted(input@, target_byte, insert_byte) =~= with_inserted(
            input@,
            target_byte,
            insert_byte,
        ));
    }
    while index < input.len()
        invariant
            index <= input.len(),
            input@ == old(input)@,
            output@ + with_inserted(input@.skip(index as int), target_byte, insert_byte)
                == with_inserted(input@, target_byte, insert_byte),
        decreases input.len() - index,
    {
        let byte: u8 = input[index];
        proof {
            assert(input@.skip(index as int).skip(1) =~= input@.skip(index + 1));
            assert(input@.skip(index as int)[0] == byte);
        }
        if byte == target_byte {
            output.push(insert_byte);
        }
        output.push(byte);
        index += 1;
    }
    *input = output;
}

/// The index of the first `x` in `s`, or the length of `s` where it has none.
pub open spec fn position_of<T>(s: Seq<T>, x: T) -> nat
    decreases s.len(),
{
    if s.len() == 0 || s[0] == x {
        0
    } else {
        1 + position_of(s.skip(1), x)
    }
}

/// `position_of` is the first index that holds `x`, or the length.
pub proof fn lemma_position_of<T>(s: Seq<T>, x: T)
    ensures
        position_of(s, x) <= s.len(),
        position_of(s, x) < s.len() ==> s[position_of(s, x) as int] == x,
        forall|j: int| 0 <= j < position_of(s, x) ==> s[j] != x,
    decreases s.len(),
{
    if s.len() > 0 && s[0] != x {
        lemma_position_of(s.skip(1), x);
        assert forall|j: int| 0 <= j < position_of(s, x) implies s[j] != x by {
            if j > 0 {
                assert(s.skip(1)[j - 1] == s[j]);
            }
        }
    }
}

/// An index that holds `x` and has no `x` before it is `position_of`.
pub proof fn lemma_position_of_is<T>(s: Seq<T>, x: T, i: int)
    requires
        0 <= i <= s.len(),
        i < s.len() ==> s[i] == x,
        forall|j: int| 0 <= j < i ==> s[j] != x,
    ensures
        position_of(s, x) == i,
{
    lemma_position_of(s, x);
    let p = position_of(s, x) as int;
    if p < i {
        assert(s[p] == x);
    } else if p > i {
        assert(s[i] == x);
    }
}

/// Returns the index of the first element equal to `obj`, for every type
/// whose `==` keeps to its specification.
pub fn index_of<T: Eq>(v: &Vec<T>, obj: &T) -> (found: Option<usize>)
    ensures
        T::obeys_eq_spec() ==> match found {
            Some(i) => {
                &&& i < v.len()
                &&& v[i as int].eq_spec(obj)
                &&& forall|j: int| 0 <= j < i ==> !#[trigger] v[j].eq_spec(obj)
            },
            None => forall|j: int| 0 <= j < v.len() ==> !#[trigger] v[j].eq_spec(obj),
        },
{
    let mut index: usize = 0;
    while index < v.len()
        invariant
            index <= v.len(),
            T::obeys_eq_spec() ==> forall|j: int| 0 <= j < index ==> !#[trigger] v[j].eq_spec(obj),
        decreases v.len() - index,
    {
        if v[index] == *obj {
            return Some(index);
        }
        index += 1;
    }
    None
}

/// Pairs each token with the number of equal tokens in front of it, so that
/// the pairs are all different. The count starts at 0.
pub fn enumerate_duplicates(v: Vec<BwtToken>) -> (ranked: Vec<(BwtToken, usize)>)
    ensures
        ranked.len() == v.len(),
        forall|i: int|
            0 <= i < v.len() ==> #[trigger] ranked[i] == (v[i], rank_in(v@, i) as usize),
{
    let mut counts: Vec<usize> = Vec::new();
    let mut c: usize = 0;
    while c < 257
        invariant
            c <= 257,
            counts.len() == c,
            forall|j: int| 0 <= j < c ==> counts[j] == 0,
        decreases 257 - c,
    {
        counts.push(0);
        c += 1;
    }
    let mut ranked: Vec<(BwtToken, usize)> = Vec::new();
    let mut i: usize = 0;
    proof {
        assert(v@.take(0) =~= Seq::<BwtToken>::empty());
    }
    while i < v.len()
        invariant
            i <= v.len(),
            counts.len() == 257,
            ranked.len() == i,
            forall|tok: BwtToken| #[trigger]
                counts[token_code(tok) as int] == count_in(v@.take(i as int), tok),
            forall|j: int| 0 <= j < i ==> #[trigger] ranked[j] == (v[j], rank_in(v@, j) as usize),
        decreases v.len() - i,
    {
        let token = v[i];
        let slot: usize = match token {
            BwtToken::Delim => 0,
            BwtToken::Byte(b) => b as usize + 1,
        };
        proof {
            assert(v@.take(i + 1).drop_last() =~= v@.take(i as int));
            assert(v@.take(i + 1).last() == token);
            lemma_count_in_bounded(v@.take(i as int), token);
            assert(counts[token_code(token) as int] == count_in(v@.take(i as int), token));
            assert forall|tok: BwtToken| tok != token implies token_code(tok) != token_code(
                token,
            ) by {}
        }
        let seen: usize = counts[slot];
        ranked.push((token, seen));
        counts.set(slot, seen + 1);
        i += 1;
    }
    ranked
}

/// The ASCII digit that stands for `m`: `0`-`9`, then `a`-`z`.
pub open spec fn digit_byte(m: nat) -> u8 {
    if m < 10 {
        (48 + m) as u8
    } else {
        (87 + m) as u8
    }
}

/// The shortest way to write `x` in the given radix, most significant digit
/// first.
pub open spec fn radix_digits(x: nat, radix: nat) -> Seq<u8>
    decreases x,
{
    if radix < 2 || x < radix {
        seq![digit_byte(x)]
    } else {
        proof {
            assert(x / radix < x) by (nonlinear_arith)
                requires
                    radix >= 2,
                    x >= radix,
            ;
        }
        radix_digits(x / radix, radix).push(digit_byte(x % radix))
    }
}

/// Writes `x` in the given radix as ASCII digits.
pub fn radix_bytes(x: u32, radix: u32) -> (digits: Vec<u8>)
    requires
        2 <= radix <= 36,
    ensures
        digits@ == radix_digits(x as nat, radix as nat),
{
    let mut digits: Vec<u8> = Vec::new();
    let mut rest: u32 = x;
    loop
        invariant_except_break
            radix_digits(rest as nat, radix as nat) + digits@ == radix_digits(
                x as nat,
                radix as nat,
            ),
        invariant
            2 <= radix <= 36,
        ensures
            digits@ == radix_digits(x as nat, radix as nat),
        decreases rest,
    {
        let m: u32 = rest % radix;
        let ghost before = rest;
        rest = rest / radix;
        let digit: u8 = if m < 10 {
            (48 + m) as u8
        } else {
            (87 + m) as u8
        };
        assert(digit == digit_byte(m as nat));
        let ghost old_digits = digits@;
        digits.insert(0, digit);
        if rest == 0 {
            proof {
                assert(before < radix) by (nonlinear_arith)
                    requires
                        before / radix == 0,
                        radix >= 2,
                ;
                assert(before % radix == before) by (nonlinear_arith)
                    requires
                        0 <= before < radix,
                ;
                assert(radix_digits(before as nat, radix as nat) =~= seq![digit]);
                assert(seq![digit] + old_digits =~= digits@);
            }
            break ;
        }
        proof {
            assert(before >= radix) by (nonlinear_arith)
                requires
                    before / radix != 0,
                    radix >= 2,
                    before >= 0,
            ;
            assert(rest < before) by (nonlinear_arith)
                requires
                    rest == before / radix,
                    radix >= 2,
                    before >= radix,
            ;
            assert(radix_digits(before as nat, radix as nat) == radix_digits(
                rest as nat,
                radix as nat,
            ).push(digit));
            assert(radix_digits(rest as nat, radix as nat).push(digit) + old_digits
                =~= radix_digits(rest as nat, radix as nat) + digits@);
        }
    }
    digits
}

/// `String::push`: the character is appended to the string.
#[verifier::external_body]
fn push_char(text: &mut String, c: char)
    ensures
        final(text)@ == old(text)@.push(c),
{
    text.push(c);
}

/// Helper function to convert a number to a different base (usually base 36).
pub fn format_radix(x: u32, radix: u32) -> (text: String)
    requires
        2 <= radix <= 36,
    ensures
        text@.len() == radix_digits(x as nat, radix as nat).len(),
        forall|i: int|
            0 <= i < text@.len() ==> text@[i] == radix_digits(x as nat, radix as nat)[i] as char,
{
    let digits = radix_bytes(x, radix);
    let mut text = String::new();
    let mut i: usize = 0;
    while i < digits.len()
        invariant
            i <= digits.len(),
            text@.len() == i,
            forall|j: int| 0 <= j < i ==> text@[j] == digits[j] as char,
        decreases digits.len() - i,
    {
        push_char(&mut text, digits[i] as char);
        i += 1;
    }
    text
}

} // verus!
