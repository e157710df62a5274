//! The run-length stage: the rarest byte marks the runs, and a fixed escape
//! byte protects literal bytes.

use crate::error::{
    led_by, lemma_led_by_nothing, lemma_led_by_twice, result_view, staged, Fault, ParseError,
    Stage,
};
use crate::proofs::rle::{lemma_rle_round_trip, rle_reversible};
use crate::utils::{get_least_used_byte, insert_before_target, least_used, with_inserted};
use vstd::prelude::*;

verus! {

/// Runs shorter than this are written out as they are.
pub const MIN_REPEAT_COUNT: u8 = 4;

/// The byte that makes the byte after it a literal.
pub const ESCAPE: u8 = 0x5C;

/// The longest run that one token can hold.
pub const MAX_REPEAT_COUNT: u8 = 255;

/// The number of equal bytes that `s` starts with, counted up to `cap`.
pub open spec fn run_length(s: Seq<u8>, cap: nat) -> nat
    decreases s.len(),
{
    if s.len() == 0 || cap == 0 {
        0
    } else if s.len() >= 2 && s[1] == s[0] {
        1 + run_length(s.skip(1), (cap - 1) as nat)
    } else {
        1
    }
}

/// A run never reaches past the buffer nor the cap.
pub proof fn lemma_run_length_bounds(s: Seq<u8>, cap: nat)
    ensures
        run_length(s, cap) <= s.len(),
        run_length(s, cap) <= cap,
        s.len() > 0 && cap > 0 ==> run_length(s, cap) >= 1,
    decreases s.len(),
{
    if s.len() >= 2 && cap > 0 && s[1] == s[0] {
        lemma_run_length_bounds(s.skip(1), (cap - 1) as nat);
    }
}

/// `byte` written `count` times.
pub open spec fn repeated(byte: u8, count: nat) -> Seq<u8> {
    Seq::new(count, |i: int| byte)
}

/// How one run is written: short runs as they are, longer ones as the
/// delimiter, the count and the byte.
pub open spec fn run_token(delim: u8, count: nat, byte: u8) -> Seq<u8> {
    if count < MIN_REPEAT_COUNT {
        repeated(byte, count)
    } else {
        seq![delim, count as u8, byte]
    }
}

/// The tokens of all the runs of `s`, in order.
pub open spec fn rle_runs(s: Seq<u8>, delim: u8) -> Seq<u8>
    decreases s.len(),
{
    if s.len() == 0 {
        s
    } else {
        let count = run_length(s, MAX_REPEAT_COUNT as nat);
        proof {
            lemma_run_length_bounds(s, MAX_REPEAT_COUNT as nat);
        }
        run_token(delim, count, s[0]) + rle_runs(s.skip(count as int), delim)
    }
}

/// `s` with every escape byte doubled and every delimiter escaped.
pub open spec fn escaped(s: Seq<u8>, delim: u8) -> Seq<u8> {
    with_inserted(with_inserted(s, ESCAPE, ESCAPE), delim, ESCAPE)
}

/// The run-length encoding of `s`: the delimiter, then the tokens of the
/// escaped buffer. Buffers of less than two bytes stay as they are.
pub open spec fn rle_encoded(s: Seq<u8>) -> Seq<u8> {
    if s.len() < 2 {
        s
    } else {
        seq![least_used(s)] + rle_runs(escaped(s, least_used(s)), least_used(s))
    }
}

/// What the tokens of `s` stand for. Fails where `s` ends inside an escape
/// pair or a run token. A run of escape bytes counts half.
pub open spec fn rle_expanded(s: Seq<u8>, delim: u8) -> Result<Seq<u8>, Fault>
    decreases s.len(),
{
    if s.len() == 0 {
        Ok(s)
    } else if s[0] == ESCAPE {
        if s.len() < 2 {
            Err(Fault::Truncated)
        } else {
            led_by(seq![s[1]], rle_expanded(s.skip(2), delim))
        }
    } else if s[0] == delim {
        if s.len() < 3 {
            Err(Fault::Truncated)
        } else {
            let count = if s[2] == ESCAPE {
                s[1] / 2
            } else {
                s[1]
            };
            led_by(repeated(s[2], count as nat), rle_expanded(s.skip(3), delim))
        }
    } else {
        led_by(seq![s[0]], rle_expanded(s.skip(1), delim))
    }
}

/// What decoding `s` gives: the first byte is the delimiter, the rest the
/// tokens. Buffers of less than two bytes stay as they are.
pub open spec fn rle_decoded(s: Seq<u8>) -> Result<Seq<u8>, ParseError> {
    if s.len() < 2 {
        Ok(s)
    } else {
        staged(Stage::Rle, rle_expanded(s.skip(1), s[0]))
    }
}

/// The run-length stage.
pub struct Rle;

impl Rle {
    /// Appends `count` copies of `byte`.
    fn push_repeated(output: &mut Vec<u8>, byte: u8, count: u8)
        ensures
            final(output)@ == old(output)@ + repeated(byte, count as nat),
    {
        let mut done: u8 = 0;
        while done < count
            invariant
                done <= count,
                output@ == old(output)@ + repeated(byte, done as nat),
            decreases count - done,
        {
            output.push(byte);
            done += 1;
        }
    }

    /// Counts the equal bytes from `start` on, up to 255.
    fn measure_run(input: &Vec<u8>, start: usize) -> (count: u8)
        requires
            start < input.len(),
        ensures
            count as nat == run_length(input@.skip(start as int), MAX_REPEAT_COUNT as nat),
            count >= 1,
            start + count <= input.len(),
    {
        let byte: u8 = input[start];
        let ghost run = input@.skip(start as int);
        let mut count: u8 = 1;
        proof {
            assert(run.skip(0) =~= run);
        }
        while count < MAX_REPEAT_COUNT && start + (count as usize) < input.len() && input[start
            + (count as usize)] == byte
            invariant
                1 <= count <= MAX_REPEAT_COUNT,
                start + count <= input.len(),
                run == input@.skip(start as int),
                byte == input[start as int],
                input[start + count - 1] == byte,
                run_length(run, MAX_REPEAT_COUNT as nat) == (count - 1) + run_length(
                    run.skip(count - 1),
                    (MAX_REPEAT_COUNT - (count - 1)) as nat,
                ),
            decreases MAX_REPEAT_COUNT - count,
        {
            proof {
                let tail = run.skip(count - 1);
                assert(tail.len() >= 2);
                assert(tail[0] == byte && tail[1] == byte);
                assert(tail.skip(1) =~= run.skip(count as int));
            }
            count += 1;
        }
        proof {
            let tail = run.skip(count - 1);
            assert(tail.len() >= 1);
            assert(tail[0] == byte);
            if tail.len() >= 2 && tail[1] == tail[0] {
                assert(count == MAX_REPEAT_COUNT);
                assert(run_length(tail.skip(1), 0) == 0);
            }
            assert(run_length(tail, (MAX_REPEAT_COUNT - (count - 1)) as nat) == 1);
        }
        count
    }

    /// Run-length encodes a buffer. `decode` brings the buffer back, unless
    /// it is one of the buffers that `rle_reversible` leaves out.
    pub fn encode(mut input: Vec<u8>) -> (output: Vec<u8>)
        ensures
            output@ == rle_encoded(input@),
            rle_reversible(input@) ==> rle_decoded(output@) == Ok::<Seq<u8>, ParseError>(input@),
    {
        if input.len() < 2 {
            proof {
                lemma_rle_round_trip(input@);
            }
            return input;
        }
        let ghost given = input@;
        let delim = get_least_used_byte(&input);
        insert_before_target(&mut input, ESCAPE, ESCAPE);
        insert_before_target(&mut input, delim, ESCAPE);
        assert(input@ == escaped(given, delim));
        let mut output: Vec<u8> = Vec::new();
        output.push(delim);
        let mut start: usize = 0;
        proof {
            assert(input@.skip(0) =~= input@);
        }
        while start < input.len()
            invariant
                start <= input.len(),
                output@ + rle_runs(input@.skip(start as int), delim) == seq![delim] + rle_runs(
                    input@,
                    delim,
                ),
            decreases input.len() - start,
        {
            let byte: u8 = input[start];
            let count = Self::measure_run(&input, start);
            let ghost before = output@;
            let ghost run = input@.skip(start as int);
            if count < MIN_REPEAT_COUNT {
                Self::push_repeated(&mut output, byte, count);
            } else {
                output.push(delim);
                output.push(count);
                output.push(byte);
            }
            proof {
                assert(output@ =~= before + run_token(delim, count as nat, byte));
                assert(run.skip(count as int) =~= input@.skip(start + count));
                assert(run[0] == byte);
                assert(before + (run_token(delim, count as nat, byte) + rle_runs(
                    run.skip(count as int),
                    delim,
                )) =~= output@ + rle_runs(input@.skip(start + count), delim));
            }
            start += count as usize;
        }
        proof {
            assert(input@.skip(start as int) =~= Seq::<u8>::empty());
            assert(output@ + Seq::<u8>::empty() =~= output@);
            assert(output@ == rle_encoded(given));
            if rle_reversible(given) {
                lemma_rle_round_trip(given);
            }
        }
        output
    }

    /// Undoes `encode`. Fails where the buffer ends inside an escape pair or
    /// a run token.
    pub fn decode(input: Vec<u8>) -> (result: Result<Vec<u8>, ParseError>)
        ensures
            result_view(result) == rle_decoded(input@),
    {
        if input.len() < 2 {
            return Ok(input);
        }
        let delim: u8 = input[0];
        let ghost payload = input@.skip(1);
        let mut output: Vec<u8> = Vec::new();
        let mut at: usize = 1;
        proof {
            assert(payload.skip(0) =~= payload);
            lemma_led_by_nothing(rle_expanded(payload, delim));
        }
        while at < input.len()
            invariant
                1 <= at <= input.len(),
                payload == input@.skip(1),
                delim == input[0],
                rle_expanded(payload, delim) == led_by(
                    output@,
                    rle_expanded(payload.skip(at - 1), delim),
                ),
            decreases input.len() - at,
        {
            let byte: u8 = input[at];
            let ghost rest = payload.skip(at - 1);
            let ghost before = output@;
            proof {
                assert(rest.len() == input.len() - at);
                assert(rest[0] == byte);
            }
            if byte == ESCAPE {
                if input.len() - at < 2 {
                    return Err(ParseError { stage: Stage::Rle, fault: Fault::Truncated });
                }
                output.push(input[at + 1]);
                proof {
                    assert(rest[1] == input[at + 1]);
                    assert(rest.skip(2) =~= payload.skip(at + 1));
                    lemma_led_by_twice(before, seq![rest[1]], rle_expanded(rest.skip(2), delim));
                    assert(before + seq![rest[1]] =~= output@);
                }
                at += 2;
            } else if byte == delim {
                if input.len() - at < 3 {
                    return Err(ParseError { stage: Stage::Rle, fault: Fault::Truncated });
                }
                let repeat: u8 = input[at + 2];
                let count: u8 = if repeat == ESCAPE {
                    input[at + 1] / 2
                } else {
                    input[at + 1]
                };
                Self::push_repeated(&mut output, repeat, count);
                proof {
                    assert(rest[1] == input[at + 1]);
                    assert(rest[2] == input[at + 2]);
                    assert(rest.skip(3) =~= payload.skip(at + 2));
                    lemma_led_by_twice(
                        before,
                        repeated(repeat, count as nat),
                        rle_expanded(rest.skip(3), delim),
                    );
                }
                at += 3;
            } else {
                output.push(byte);
                proof {
                    assert(rest.skip(1) =~= payload.skip(at as int));
                    lemma_led_by_twice(before, seq![byte], rle_expanded(rest.skip(1), delim));
                    assert(before + seq![byte] =~= output@);
                }
                at += 1;
            }
        }
        proof {
            assert(payload.skip(at - 1).len() == 0);
            assert(output@ + payload.skip(at - 1) =~= output@);
        }
        Ok(output)
    }
}

} // verus!
