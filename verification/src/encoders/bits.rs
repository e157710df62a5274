//! Bits and bytes for the Huffman container: packing codes into bytes, reading
//! single bits, and lengths of eight bytes.

use vstd::prelude::*;

verus! {

/// What bit `k` of a byte is worth, the most significant bit being bit 0.
pub open spec fn place_value(k: int) -> nat {
    if k == 0 {
        128
    } else if k == 1 {
        64
    } else if k == 2 {
        32
    } else if k == 3 {
        16
    } else if k == 4 {
        8
    } else if k == 5 {
        4
    } else if k == 6 {
        2
    } else if k == 7 {
        1
    } else {
        0
    }
}

/// Computes `place_value`.
pub fn place(k: u8) -> (worth: u8)
    requires
        k < 8,
    ensures
        worth == place_value(k as int),
{
    if k == 0 {
        128
    } else if k == 1 {
        64
    } else if k == 2 {
        32
    } else if k == 3 {
        16
    } else if k == 4 {
        8
    } else if k == 5 {
        4
    } else if k == 6 {
        2
    } else {
        1
    }
}

/// Bit `i` of a bit sequence, as 0 or 1; past its end, 0. A bit is set where
/// its entry is not 0.
pub open spec fn bit_or_zero(bits: Seq<u8>, i: int) -> nat {
    if 0 <= i < bits.len() && bits[i] != 0 {
        1
    } else {
        0
    }
}

/// The byte made of the eight bits from `8 * j` on, the first of them being
/// the most significant.
pub open spec fn packed_value(bits: Seq<u8>, j: int) -> nat {
    128 * bit_or_zero(bits, 8 * j) + 64 * bit_or_zero(bits, 8 * j + 1) + 32 * bit_or_zero(
        bits,
        8 * j + 2,
    ) + 16 * bit_or_zero(bits, 8 * j + 3) + 8 * bit_or_zero(bits, 8 * j + 4) + 4 * bit_or_zero(
        bits,
        8 * j + 5,
    ) + 2 * bit_or_zero(bits, 8 * j + 6) + bit_or_zero(bits, 8 * j + 7)
}

/// The bits packed into bytes, most significant bit first; the last byte is
/// filled up with zero bits.
pub open spec fn packed(bits: Seq<u8>) -> Seq<u8> {
    Seq::new(((bits.len() + 7) / 8) as nat, |j: int| packed_value(bits, j) as u8)
}

/// Bit `i` of a buffer, the most significant bit of byte 0 being bit 0.
pub open spec fn bit_at(data: Seq<u8>, i: int) -> u8 {
    ((data[i / 8] as nat / place_value(i % 8)) % 2) as u8
}

/// Reads bit `used` of byte `at`.
pub fn read_bit(data: &Vec<u8>, at: usize, used: u8) -> (bit: u8)
    requires
        at < data.len(),
        used < 8,
    ensures
        bit == bit_at(data@, 8 * at + used),
        bit <= 1,
{
    (data[at] / place(used)) % 2
}

/// The codes of the bytes of `s`, one after the other. `table[b]` is the code
/// of byte `b`.
pub open spec fn stream_of(table: Seq<Seq<u8>>, s: Seq<u8>) -> Seq<u8>
    decreases s.len(),
{
    if s.len() == 0 {
        Seq::empty()
    } else {
        table[s[0] as int] + stream_of(table, s.skip(1))
    }
}

/// Appending a byte appends its code.
pub proof fn lemma_stream_of_push(table: Seq<Seq<u8>>, s: Seq<u8>, x: u8)
    ensures
        stream_of(table, s.push(x)) == stream_of(table, s) + table[x as int],
    decreases s.len(),
{
    if s.len() == 0 {
        let one = s.push(x);
        assert(one.len() == 1 && one[0] == x);
        assert(one.skip(1).len() == 0);
        assert(stream_of(table, one.skip(1)) =~= Seq::<u8>::empty());
        assert(stream_of(table, one) == table[x as int] + stream_of(table, one.skip(1)));
        assert(stream_of(table, one) =~= table[x as int]);
        assert(stream_of(table, s) =~= Seq::<u8>::empty());
        assert(stream_of(table, s) + table[x as int] =~= table[x as int]);
    } else {
        assert(s.push(x).skip(1) =~= s.skip(1).push(x));
        lemma_stream_of_push(table, s.skip(1), x);
        assert(table[s[0] as int] + (stream_of(table, s.skip(1)) + table[x as int]) =~= (table[s[0] as int]
            + stream_of(table, s.skip(1))) + table[x as int]);
    }
}

/// The codes of a table of vectors.
pub open spec fn table_view(codes: Seq<Vec<u8>>) -> Seq<Seq<u8>> {
    Seq::new(codes.len(), |b: int| codes[b]@)
}

/// What the packer holds after the bits `bits`: the full bytes in `out`,
/// the bits of the byte in progress in `current`, their number in `used`.
pub open spec fn packer_holds(bits: Seq<u8>, out: Seq<u8>, current: u8, used: u8) -> bool {
    &&& used < 8
    &&& used == bits.len() % 8
    &&& out.len() == bits.len() / 8
    &&& forall|j: int| 0 <= j < out.len() ==> out[j] == packed_value(bits, j) as u8
    &&& current == packed_value(bits, (bits.len() / 8) as int)
}

/// One more bit: it goes into the byte in progress, which is full after
/// eight bits and joins the bytes written.
proof fn lemma_packer_step(bits: Seq<u8>, out: Seq<u8>, current: u8, used: u8, bit: u8)
    requires
        packer_holds(bits, out, current, used),
    ensures
        current + bit_or_zero(seq![bit], 0) * place_value(used as int) <= 255,
        used == 7 ==> packer_holds(
            bits.push(bit),
            out.push((current + bit_or_zero(seq![bit], 0) * place_value(used as int)) as u8),
            0,
            0,
        ),
        used < 7 ==> packer_holds(
            bits.push(bit),
            out,
            (current + bit_or_zero(seq![bit], 0) * place_value(used as int)) as u8,
            (used + 1) as u8,
        ),
{
    let grown = bits.push(bit);
    let n = bits.len() as int;
    let j = n / 8;
    assert(n == 8 * j + used);
    assert(forall|i: int| i != n ==> bit_or_zero(grown, i) == bit_or_zero(bits, i));
    assert(bit_or_zero(grown, n) == bit_or_zero(seq![bit], 0));
    assert(bit_or_zero(bits, n) == 0);
    assert(packed_value(grown, j) == packed_value(bits, j) + bit_or_zero(seq![bit], 0)
        * place_value(used as int));
    assert forall|k: int| 0 <= k < j implies packed_value(grown, k) == packed_value(bits, k) by {}
    if used == 7 {
        assert(packed_value(grown, j + 1) == 0);
    }
}

/// Packs the codes of the bytes of `input` into bytes.
pub fn pack_codes(input: &Vec<u8>, codes: &Vec<Vec<u8>>) -> (out: Vec<u8>)
    requires
        codes.len() == 256,
    ensures
        out@ == packed(stream_of(table_view(codes@), input@)),
{
    let ghost table = table_view(codes@);
    let mut out: Vec<u8> = Vec::new();
    let mut current: u8 = 0;
    let mut used: u8 = 0;
    let ghost mut bits: Seq<u8> = Seq::empty();
    let mut i: usize = 0;
    proof {
        assert(input@.take(0) =~= Seq::<u8>::empty());
    }
    while i < input.len()
        invariant
            i <= input.len(),
            codes.len() == 256,
            table == table_view(codes@),
            bits == stream_of(table, input@.take(i as int)),
            packer_holds(bits, out@, current, used),
        decreases input.len() - i,
    {
        let code = &codes[input[i] as usize];
        let ghost before = bits;
        let mut k: usize = 0;
        proof {
            assert(code@.take(0) =~= Seq::<u8>::empty());
            assert(before + code@.take(0) =~= before);
        }
        while k < code.len()
            invariant
                k <= code.len(),
                bits == before + code@.take(k as int),
                packer_holds(bits, out@, current, used),
            decreases code.len() - k,
        {
            let bit: u8 = code[k];
            proof {
                lemma_packer_step(bits, out@, current, used, bit);
                assert(code@.take(k + 1) =~= code@.take(k as int).push(bit));
                assert(before + code@.take(k + 1) =~= bits.push(bit));
                bits = bits.push(bit);
            }
            if bit != 0 {
                current = current + place(used);
            }
            used += 1;
            if used == 8 {
                out.push(current);
                current = 0;
                used = 0;
            }
            k += 1;
        }
        proof {
            assert(code@.take(code.len() as int) =~= code@);
            assert(input@.take(i + 1) =~= input@.take(i as int).push(input[i as int]));
            lemma_stream_of_push(table, input@.take(i as int), input[i as int]);
        }
        i += 1;
    }
    proof {
        assert(input@.take(input.len() as int) =~= input@);
    }
    if used > 0 {
        out.push(current);
    }
    assert(out@ =~= packed(bits));
    out
}

/// The eight bytes of `x`, most significant first.
pub open spec fn be64(x: nat) -> Seq<u8> {
    seq![
        ((x / 0x0100_0000_0000_0000) % 256) as u8,
        ((x / 0x0001_0000_0000_0000) % 256) as u8,
        ((x / 0x0000_0100_0000_0000) % 256) as u8,
        ((x / 0x0000_0001_0000_0000) % 256) as u8,
        ((x / 0x0000_0000_0100_0000) % 256) as u8,
        ((x / 0x0000_0000_0001_0000) % 256) as u8,
        ((x / 0x0000_0000_0000_0100) % 256) as u8,
        (x % 256) as u8,
    ]
}

/// The number that eight bytes stand for, most significant first.
pub open spec fn be_value(s: Seq<u8>) -> nat {
    (s[0] as nat) * 0x0100_0000_0000_0000 + (s[1] as nat) * 0x0001_0000_0000_0000 + (s[2] as nat)
        * 0x0000_0100_0000_0000 + (s[3] as nat) * 0x0000_0001_0000_0000 + (s[4] as nat)
        * 0x0000_0000_0100_0000 + (s[5] as nat) * 0x0000_0000_0001_0000 + (s[6] as nat)
        * 0x0000_0000_0000_0100 + (s[7] as nat)
}

/// Appends the eight bytes of `x`, most significant first.
pub fn push_be64(out: &mut Vec<u8>, x: u64)
    ensures
        final(out)@ == old(out)@ + be64(x as nat),
{
    out.push(((x / 0x0100_0000_0000_0000) % 256) as u8);
    out.push(((x / 0x0001_0000_0000_0000) % 256) as u8);
    out.push(((x / 0x0000_0100_0000_0000) % 256) as u8);
    out.push(((x / 0x0000_0001_0000_0000) % 256) as u8);
    out.push(((x / 0x0000_0000_0100_0000) % 256) as u8);
    out.push(((x / 0x0000_0000_0001_0000) % 256) as u8);
    out.push(((x / 0x0000_0000_0000_0100) % 256) as u8);
    out.push((x % 256) as u8);
    assert(out@ =~= old(out)@ + be64(x as nat));
}

/// Reads the number that the eight bytes from `at` on stand for.
pub fn read_be64(data: &Vec<u8>, at: usize) -> (x: u64)
    requires
        at + 8 <= data.len(),
    ensures
        x == be_value(data@.subrange(at as int, at + 8)),
{
    let ghost s = data@.subrange(at as int, at + 8);
    assert(s[0] == data[at as int] && s[1] == data[at + 1] && s[2] == data[at + 2] && s[3]
        == data[at + 3] && s[4] == data[at + 4] && s[5] == data[at + 5] && s[6] == data[at + 6]
        && s[7] == data[at + 7]);
    (data[at] as u64) * 0x0100_0000_0000_0000 + (data[at + 1] as u64) * 0x0001_0000_0000_0000 + (
    data[at + 2] as u64) * 0x0000_0100_0000_0000 + (data[at + 3] as u64) * 0x0000_0001_0000_0000
        + (data[at + 4] as u64) * 0x0000_0000_0100_0000 + (data[at + 5] as u64)
        * 0x0000_0000_0001_0000 + (data[at + 6] as u64) * 0x0000_0000_0000_0100 + (data[at
        + 7] as u64)
}

} // verus!
