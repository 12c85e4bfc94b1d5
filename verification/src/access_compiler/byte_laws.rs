//! How numbers lie in bytes, and bytes in bits.
#[allow(unused_imports)]
use super::bytes::{
    bits_at, byte_bit, lemma_small_powers, lemma_u32_bytes, lemma_u64_bytes, ones_below, signed,
    u32_at, u32_bytes, u64_at, u64_bytes, unsigned,
};
use vstd::arithmetic::power2::pow2;
use vstd::prelude::*;

verus! {

/// A number of four bytes lies in them from the least on: the first is what is left over
/// when it is divided by 256, and the others are those of the quotient.
pub proof fn law_numbers_lie_from_the_least_byte(value: u32, i: int)
    requires
        0 <= i < 3,
    ensures
        u32_bytes(value).len() == 4,
        u32_bytes(value)[0] == value % 256,
        u32_bytes(value)[i + 1] == u32_bytes(value / 256)[i],
        u32_at(u32_bytes(value), 0) == value,
{
    reveal(u32_bytes);
    lemma_u32_bytes(value);
}

/// A number of eight bytes is read back from them, and lies in them as two numbers of four,
/// the lesser first.
pub proof fn law_long_numbers_lie_from_the_least_byte(low: u32, high: u32)
    ensures
        u64_bytes((low + high * 0x1_0000_0000) as u64) == u32_bytes(low) + u32_bytes(high),
        u64_at(u32_bytes(low) + u32_bytes(high), 0) == low + high * 0x1_0000_0000,
{
    reveal(u64_bytes);
    let value = (low + high * 0x1_0000_0000) as u64;
    assert((value % 0x1_0000_0000) as u32 == low);
    assert((value / 0x1_0000_0000) as u32 == high);
    lemma_u64_bytes(value);
}

/// What is read where a number stands is more by one where its first byte is, and by 256
/// where its second is.
pub proof fn law_bytes_count_by_their_place(bytes: Seq<u8>, at: int, i: int)
    requires
        0 <= at,
        at + 8 <= bytes.len(),
        0 <= i < 8,
        bytes[at + i] < 255,
    ensures
        ({
            let more = bytes.update(at + i, (bytes[at + i] + 1) as u8);
            &&& u64_at(more, at) - u64_at(bytes, at) == pow2((8 * i) as nat)
            &&& i < 4 ==> u32_at(more, at) - u32_at(bytes, at) == pow2((8 * i) as nat)
        }),
{
    vstd::arithmetic::power2::lemma2_to64();
    let more = bytes.update(at + i, (bytes[at + i] + 1) as u8);
    assert(pow2(40) == 0x100_0000_0000 && pow2(48) == 0x1_0000_0000_0000 && pow2(56)
        == 0x100_0000_0000_0000) by {
        vstd::arithmetic::power2::lemma_pow2_adds(32, 8);
        vstd::arithmetic::power2::lemma_pow2_adds(32, 16);
        vstd::arithmetic::power2::lemma_pow2_adds(32, 24);
    }
    if i < 4 {
        assert(u32_at(more, at + 4) == u32_at(bytes, at + 4));
    } else {
        assert(u32_at(more, at) == u32_at(bytes, at));
    }
}

/// A number with a sign and one without are the same but for a multiple of two to the 64th,
/// and each is read back from the other.
pub proof fn law_signs_come_back(value: i64, code: u64)
    ensures
        signed(unsigned(value)) == value,
        unsigned(signed(code)) == code,
        unsigned(value) == value || unsigned(value) == value + 0x1_0000_0000_0000_0000,
        value >= 0 ==> unsigned(value) == value,
        signed(code) >= 0 <==> code < 0x8000_0000_0000_0000,
{
}

/// The bits of a byte are counted from the least.
pub proof fn law_bits_are_counted_from_the_least(byte: u8, k: int)
    requires
        0 <= k < 7,
    ensures
        byte_bit(byte, 0) <==> byte % 2 == 1,
        byte_bit(byte, k + 1) == byte_bit(byte / 2, k),
{
    lemma_small_powers();
    let p = pow2(k as nat) as int;
    vstd::arithmetic::power2::lemma_pow2_pos(k as nat);
    vstd::arithmetic::power2::lemma_pow2_unfold((k + 1) as nat);
    vstd::arithmetic::div_mod::lemma_div_denominator(byte as int, 2, p);
    vstd::arithmetic::div_mod::lemma_div_basics(byte as int);
}

/// Bits that stand in a row make a number, the first counting one: it is odd where the first
/// is set, its half is that of the others, and it has no more bits than there are.
pub proof fn law_bits_make_a_number(bytes: Seq<u8>, p: int, width: nat)
    requires
        width > 0,
    ensures
        bits_at(bytes, p, width) % 2 == if byte_bit(bytes[p / 8], p % 8) {
            1nat
        } else {
            0
        },
        bits_at(bytes, p, width) / 2 == bits_at(bytes, p + 1, (width - 1) as nat),
        bits_at(bytes, p, width) < pow2(width),
    decreases width,
{
    vstd::arithmetic::power2::lemma_pow2_unfold(width);
    vstd::arithmetic::power2::lemma2_to64();
    if width > 1 {
        law_bits_make_a_number(bytes, p + 1, (width - 1) as nat);
    } else {
        assert(bits_at(bytes, p + 1, 0) == 0);
    }
}

/// A bit of a number is not that of what it lacks to a byte of ones.
proof fn lemma_mirrored(n: int, m: int, k: int)
    requires
        0 <= n <= 255,
        n + m == 255,
        0 <= k < 8,
    ensures
        n / pow2(k as nat) as int % 2 != m / pow2(k as nat) as int % 2,
{
    lemma_small_powers();
    let p = pow2(k as nat) as int;
    if k == 0 {
        assert(n / p == n / 1 && m / p == m / 1);
    } else if k == 1 {
        assert(n / p == n / 2 && m / p == m / 2);
    } else if k == 2 {
        assert(n / p == n / 4 && m / p == m / 4);
    } else if k == 3 {
        assert(n / p == n / 8 && m / p == m / 8);
    } else if k == 4 {
        assert(n / p == n / 16 && m / p == m / 16);
    } else if k == 5 {
        assert(n / p == n / 32 && m / p == m / 32);
    } else if k == 6 {
        assert(n / p == n / 64 && m / p == m / 64);
    } else {
        assert(n / p == n / 128 && m / p == m / 128);
    }
}

/// The bits of a byte that are set, and those that are not, are together as many as were
/// looked at.
pub proof fn law_set_bits_are_counted(byte: u8, limit: int)
    requires
        0 <= limit <= 8,
    ensures
        ones_below(byte, limit) + ones_below((255 - byte) as u8, limit) == limit,
        ones_below(0, limit) == 0,
        limit > 0 ==> ones_below(byte, limit) - ones_below(byte, limit - 1) == if byte_bit(
            byte,
            limit - 1,
        ) {
            1int
        } else {
            0
        },
    decreases limit,
{
    lemma_small_powers();
    if limit > 0 {
        law_set_bits_are_counted(byte, limit - 1);
        let k = limit - 1;
        let (n, m) = (byte as int, 255 - byte);
        assert(byte_bit(byte, k) != byte_bit(m as u8, k)) by {
            lemma_mirrored(n, m, k);
        }
        assert(!byte_bit(0, k)) by {
            vstd::arithmetic::power2::lemma_pow2_pos(k as nat);
            vstd::arithmetic::div_mod::lemma_div_basics(pow2(k as nat) as int);
        }
    }
}

} // verus!
