//! The operand of `PushInt`: a signed 64-bit integer in eight bytes, most significant
//! byte first, negative numbers in two's complement.

use vstd::prelude::*;

verus! {

/// The number of bytes of an operand.
pub const OPERAND_LEN: usize = 8;

/// The unsigned number with the same 64 bits as `v` in two's complement.
pub open spec fn twos_complement(v: i64) -> nat {
    if v < 0 {
        (v + 0x1_0000_0000_0000_0000) as nat
    } else {
        v as nat
    }
}

/// The signed number that the 64 bits of `u` denote in two's complement.
pub open spec fn from_twos_complement(u: nat) -> i64
    recommends
        u < 0x1_0000_0000_0000_0000,
{
    if u >= 0x8000_0000_0000_0000 {
        (u - 0x1_0000_0000_0000_0000) as i64
    } else {
        u as i64
    }
}

/// The number whose base-256 digits, most significant first, are `bytes`.
pub open spec fn be_unsigned(bytes: Seq<u8>) -> nat
    decreases bytes.len(),
{
    if bytes.len() == 0 {
        0
    } else {
        256 * be_unsigned(bytes.drop_last()) + bytes.last() as nat
    }
}

/// The eight bytes that encode `v`.
pub open spec fn be_bytes(v: i64) -> Seq<u8> {
    let u = twos_complement(v);
    seq![
        (u / 0x100_0000_0000_0000 % 256) as u8,
        (u / 0x1_0000_0000_0000 % 256) as u8,
        (u / 0x100_0000_0000 % 256) as u8,
        (u / 0x1_0000_0000 % 256) as u8,
        (u / 0x100_0000 % 256) as u8,
        (u / 0x1_0000 % 256) as u8,
        (u / 0x100 % 256) as u8,
        (u % 256) as u8,
    ]
}

/// The integer that eight bytes encode.
pub open spec fn be_value(bytes: Seq<u8>) -> i64
    recommends
        bytes.len() == 8,
{
    from_twos_complement(be_unsigned(bytes))
}

/// The value of eight bytes, written out.
pub proof fn lemma_be_unsigned_eight(bytes: Seq<u8>)
    requires
        bytes.len() == 8,
    ensures
        be_unsigned(bytes) == bytes[0] * 0x100_0000_0000_0000 + bytes[1] * 0x1_0000_0000_0000
            + bytes[2] * 0x100_0000_0000 + bytes[3] * 0x1_0000_0000 + bytes[4] * 0x100_0000
            + bytes[5] * 0x1_0000 + bytes[6] * 0x100 + bytes[7],
        be_unsigned(bytes) < 0x1_0000_0000_0000_0000,
{
    let b7 = bytes.drop_last();
    let b6 = b7.drop_last();
    let b5 = b6.drop_last();
    let b4 = b5.drop_last();
    let b3 = b4.drop_last();
    let b2 = b3.drop_last();
    let b1 = b2.drop_last();
    let b0 = b1.drop_last();
    assert(be_unsigned(b0) == 0);
    assert(be_unsigned(b1) == bytes[0]);
    assert(be_unsigned(b2) == 256 * be_unsigned(b1) + bytes[1]);
    assert(be_unsigned(b3) == 256 * be_unsigned(b2) + bytes[2]);
    assert(be_unsigned(b4) == 256 * be_unsigned(b3) + bytes[3]);
    assert(be_unsigned(b5) == 256 * be_unsigned(b4) + bytes[4]);
    assert(be_unsigned(b6) == 256 * be_unsigned(b5) + bytes[5]);
    assert(be_unsigned(b7) == 256 * be_unsigned(b6) + bytes[6]);
    assert(be_unsigned(bytes) == 256 * be_unsigned(b7) + bytes[7]);
}

/// One base-256 digit of `u`: what stands above the digit at weight `m`.
proof fn lemma_peel_digit(u: nat, m: nat)
    requires
        m > 0,
    ensures
        u / m == 256 * (u / (m * 256)) + (u / m) % 256,
{
    vstd::arithmetic::div_mod::lemma_div_denominator(u as int, m as int, 256);
    vstd::arithmetic::div_mod::lemma_fundamental_div_mod((u / m) as int, 256);
}

/// A number below 2^64 is the sum of its eight base-256 digits, each at its weight.
proof fn lemma_digits_sum(u: nat)
    requires
        u < 0x1_0000_0000_0000_0000,
    ensures
        u == (u / 0x100_0000_0000_0000 % 256) * 0x100_0000_0000_0000 + (u / 0x1_0000_0000_0000
            % 256) * 0x1_0000_0000_0000 + (u / 0x100_0000_0000 % 256) * 0x100_0000_0000 + (u
            / 0x1_0000_0000 % 256) * 0x1_0000_0000 + (u / 0x100_0000 % 256) * 0x100_0000 + (u
            / 0x1_0000 % 256) * 0x1_0000 + (u / 0x100 % 256) * 0x100 + u % 256,
{
    lemma_peel_digit(u, 1);
    lemma_peel_digit(u, 0x100);
    lemma_peel_digit(u, 0x1_0000);
    lemma_peel_digit(u, 0x100_0000);
    lemma_peel_digit(u, 0x1_0000_0000);
    lemma_peel_digit(u, 0x100_0000_0000);
    lemma_peel_digit(u, 0x1_0000_0000_0000);
    lemma_peel_digit(u, 0x100_0000_0000_0000);
    assert(u / 0x1_0000_0000_0000_0000 == 0);
}

/// Decoding undoes encoding.
pub proof fn lemma_operand_round_trip(v: i64)
    ensures
        be_bytes(v).len() == 8,
        be_value(be_bytes(v)) == v,
{
    lemma_be_unsigned_eight(be_bytes(v));
    lemma_digits_sum(twos_complement(v));
}

/// The base-256 digits of a number given as `256 * high + low`.
proof fn lemma_digit_of_sum(high: nat, low: u8)
    ensures
        (256 * high + low) / 256 == high,
        (256 * high + low) % 256 == low,
{
    vstd::arithmetic::div_mod::lemma_fundamental_div_mod_converse(
        (256 * high + low) as int,
        256,
        high as int,
        low as int,
    );
}

/// Encoding undoes decoding: eight bytes encode one integer, and no other eight bytes
/// encode it.
pub proof fn lemma_operand_unique(bytes: Seq<u8>)
    requires
        bytes.len() == 8,
    ensures
        be_bytes(be_value(bytes)) == bytes,
{
    lemma_be_unsigned_eight(bytes);
    let u = be_unsigned(bytes);
    let u7 = be_unsigned(bytes.take(7));
    let u6 = be_unsigned(bytes.take(6));
    let u5 = be_unsigned(bytes.take(5));
    let u4 = be_unsigned(bytes.take(4));
    let u3 = be_unsigned(bytes.take(3));
    let u2 = be_unsigned(bytes.take(2));
    let u1 = be_unsigned(bytes.take(1));
    assert(bytes.drop_last() =~= bytes.take(7));
    assert(bytes.take(7).drop_last() =~= bytes.take(6));
    assert(bytes.take(6).drop_last() =~= bytes.take(5));
    assert(bytes.take(5).drop_last() =~= bytes.take(4));
    assert(bytes.take(4).drop_last() =~= bytes.take(3));
    assert(bytes.take(3).drop_last() =~= bytes.take(2));
    assert(bytes.take(2).drop_last() =~= bytes.take(1));
    assert(bytes.take(1).drop_last() =~= Seq::<u8>::empty());
    assert(be_unsigned(Seq::<u8>::empty()) == 0);
    lemma_digit_of_sum(u7, bytes[7]);
    lemma_digit_of_sum(u6, bytes[6]);
    lemma_digit_of_sum(u5, bytes[5]);
    lemma_digit_of_sum(u4, bytes[4]);
    lemma_digit_of_sum(u3, bytes[3]);
    lemma_digit_of_sum(u2, bytes[2]);
    lemma_digit_of_sum(u1, bytes[1]);
    lemma_digit_of_sum(0, bytes[0]);
    vstd::arithmetic::div_mod::lemma_div_denominator(u as int, 256, 256);
    vstd::arithmetic::div_mod::lemma_div_denominator(u as int, 0x1_0000, 256);
    vstd::arithmetic::div_mod::lemma_div_denominator(u as int, 0x100_0000, 256);
    vstd::arithmetic::div_mod::lemma_div_denominator(u as int, 0x1_0000_0000, 256);
    vstd::arithmetic::div_mod::lemma_div_denominator(u as int, 0x100_0000_0000, 256);
    vstd::arithmetic::div_mod::lemma_div_denominator(u as int, 0x1_0000_0000_0000, 256);
    assert(u / 0x100 == u7);
    assert(u / 0x1_0000 == u6);
    assert(u / 0x100_0000 == u5);
    assert(u / 0x1_0000_0000 == u4);
    assert(u / 0x100_0000_0000 == u3);
    assert(u / 0x1_0000_0000_0000 == u2);
    assert(u / 0x100_0000_0000_0000 == u1);
    let v = be_value(bytes);
    assert(twos_complement(v) == u);
    assert(be_bytes(v) =~= bytes);
}

/// Appends the encoding of `v` to `out`.
pub fn push_operand(out: &mut Vec<u8>, v: i64)
    ensures
        final(out)@ == old(out)@ + be_bytes(v),
{
    let u: u64 = if v < 0 {
        (v - i64::MIN) as u64 + 0x8000_0000_0000_0000
    } else {
        v as u64
    };
    assert(u == twos_complement(v));
    out.push((u / 0x100_0000_0000_0000 % 256) as u8);
    out.push((u / 0x1_0000_0000_0000 % 256) as u8);
    out.push((u / 0x100_0000_0000 % 256) as u8);
    out.push((u / 0x1_0000_0000 % 256) as u8);
    out.push((u / 0x100_0000 % 256) as u8);
    out.push((u / 0x1_0000 % 256) as u8);
    out.push((u / 0x100 % 256) as u8);
    out.push((u % 256) as u8);
    assert(out@ =~= old(out)@ + be_bytes(v));
}

/// Reads the operand that starts at `at`.
pub fn read_operand(chunk: &Vec<u8>, at: usize) -> (v: i64)
    requires
        at + 8 <= chunk.len(),
    ensures
        v == be_value(chunk@.subrange(at as int, at + 8)),
{
    proof {
        lemma_be_unsigned_eight(chunk@.subrange(at as int, at + 8));
    }
    let mut u: u64 = 0;
    let mut i: usize = 0;
    while i < 8
        invariant
            i <= 8,
            at + 8 <= chunk.len(),
            u == be_unsigned(chunk@.subrange(at as int, at + i)),
            i < 8 ==> u < 0x100_0000_0000_0000,
        decreases 8 - i,
    {
        proof {
            let next = chunk@.subrange(at as int, at + i + 1);
            assert(next.drop_last() =~= chunk@.subrange(at as int, at + i));
            lemma_be_unsigned_bound(chunk@.subrange(at as int, at + i));
            lemma_be_unsigned_bound(next);
        }
        u = u * 256 + chunk[at + i] as u64;
        i = i + 1;
    }
    if u >= 0x8000_0000_0000_0000 {
        (u - 0x8000_0000_0000_0000) as i64 + i64::MIN
    } else {
        u as i64
    }
}

/// Seven bytes or fewer stay below 2^56, so one more byte fits in 64 bits.
proof fn lemma_be_unsigned_bound(bytes: Seq<u8>)
    requires
        bytes.len() <= 8,
    ensures
        bytes.len() <= 7 ==> be_unsigned(bytes) < 0x100_0000_0000_0000,
        be_unsigned(bytes) < 0x1_0000_0000_0000_0000,
    decreases bytes.len(),
{
    if bytes.len() > 0 {
        lemma_be_unsigned_bound(bytes.drop_last());
        if bytes.len() <= 7 {
            lemma_be_unsigned_small(bytes);
        }
    }
}

/// `n` bytes stay below 256^n, spelled out for up to seven bytes.
proof fn lemma_be_unsigned_small(bytes: Seq<u8>)
    requires
        bytes.len() <= 7,
    ensures
        bytes.len() == 0 ==> be_unsigned(bytes) < 1,
        bytes.len() == 1 ==> be_unsigned(bytes) < 0x100,
        bytes.len() == 2 ==> be_unsigned(bytes) < 0x1_0000,
        bytes.len() == 3 ==> be_unsigned(bytes) < 0x100_0000,
        bytes.len() == 4 ==> be_unsigned(bytes) < 0x1_0000_0000,
        bytes.len() == 5 ==> be_unsigned(bytes) < 0x100_0000_0000,
        bytes.len() == 6 ==> be_unsigned(bytes) < 0x1_0000_0000_0000,
        bytes.len() == 7 ==> be_unsigned(bytes) < 0x100_0000_0000_0000,
    decreases bytes.len(),
{
    if bytes.len() > 0 {
        lemma_be_unsigned_small(bytes.drop_last());
    }
}

} // verus!
