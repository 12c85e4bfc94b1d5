//! Little-endian integers and bits in byte strings.
use vstd::arithmetic::power2::pow2;
use vstd::prelude::*;

verus! {

/// The unsigned number in the four bytes from `at`, least significant first.
pub open spec fn u32_at(bytes: Seq<u8>, at: int) -> u32 {
    (bytes[at] + bytes[at + 1] * 0x100 + bytes[at + 2] * 0x1_0000 + bytes[at + 3]
        * 0x100_0000) as u32
}

/// The unsigned number in the eight bytes from `at`, least significant first.
pub open spec fn u64_at(bytes: Seq<u8>, at: int) -> u64 {
    (u32_at(bytes, at) + u32_at(bytes, at + 4) * 0x1_0000_0000) as u64
}

/// The two's complement reading of a number.
pub open spec fn signed(value: u64) -> i64 {
    if value < 0x8000_0000_0000_0000 {
        value as i64
    } else {
        (value - 0x1_0000_0000_0000_0000) as i64
    }
}

/// The number whose two's complement reading is `value`.
pub open spec fn unsigned(value: i64) -> u64 {
    if value >= 0 {
        value as u64
    } else {
        (value + 0x1_0000_0000_0000_0000) as u64
    }
}

pub open spec fn i64_at(bytes: Seq<u8>, at: int) -> i64 {
    signed(u64_at(bytes, at))
}

/// The four bytes of a number, least significant first.
#[verifier::opaque]
pub open spec fn u32_bytes(value: u32) -> Seq<u8> {
    seq![
        (value % 0x100) as u8,
        (value / 0x100 % 0x100) as u8,
        (value / 0x1_0000 % 0x100) as u8,
        (value / 0x100_0000) as u8,
    ]
}

/// The eight bytes of a number, least significant first.
#[verifier::opaque]
pub open spec fn u64_bytes(value: u64) -> Seq<u8> {
    u32_bytes((value % 0x1_0000_0000) as u32) + u32_bytes((value / 0x1_0000_0000) as u32)
}

/// The bytes of a list of 32-bit numbers.
pub open spec fn u32s_bytes(values: Seq<u32>) -> Seq<u8> {
    Seq::new(4 * values.len(), |i: int| u32_bytes(values[i / 4])[i % 4])
}

/// The bytes of a list of signed 64-bit numbers.
pub open spec fn i64s_bytes(values: Seq<i64>) -> Seq<u8> {
    Seq::new(8 * values.len(), |i: int| u64_bytes(unsigned(values[i / 8]))[i % 8])
}

pub broadcast proof fn lemma_u32_len(value: u32)
    ensures
        (#[trigger] u32_bytes(value)).len() == 4,
{
    reveal(u32_bytes);
}

pub broadcast proof fn lemma_u64_len(value: u64)
    ensures
        (#[trigger] u64_bytes(value)).len() == 8,
{
    reveal(u64_bytes);
    reveal(u32_bytes);
}

pub proof fn lemma_u32_bytes(value: u32)
    ensures
        u32_bytes(value).len() == 4,
        u32_at(u32_bytes(value), 0) == value,
{
    reveal(u32_bytes);
}

pub proof fn lemma_u64_bytes(value: u64)
    ensures
        u64_bytes(value).len() == 8,
        u64_at(u64_bytes(value), 0) == value,
{
    reveal(u64_bytes);
    let low = (value % 0x1_0000_0000) as u32;
    let high = (value / 0x1_0000_0000) as u32;
    let bytes = u64_bytes(value);
    lemma_u32_bytes(low);
    lemma_u32_bytes(high);
    assert(bytes[0] == u32_bytes(low)[0] && bytes[1] == u32_bytes(low)[1] && bytes[2]
        == u32_bytes(low)[2] && bytes[3] == u32_bytes(low)[3]);
    assert(bytes[4] == u32_bytes(high)[0] && bytes[5] == u32_bytes(high)[1] && bytes[6]
        == u32_bytes(high)[2] && bytes[7] == u32_bytes(high)[3]);
    assert(u32_at(bytes, 0) == low);
    assert(u32_at(bytes, 4) == high);
}

pub proof fn lemma_signed(value: i64)
    ensures
        signed(unsigned(value)) == value,
{
}

/// Number `k` of a list is read back.
pub proof fn lemma_u32s_read(values: Seq<u32>, k: int)
    requires
        0 <= k < values.len(),
    ensures
        u32_at(u32s_bytes(values), 4 * k) == values[k],
{
    let bytes = u32s_bytes(values);
    lemma_u32_bytes(values[k]);
    assert((4 * k) / 4 == k && (4 * k + 1) / 4 == k && (4 * k + 2) / 4 == k && (4 * k + 3) / 4 == k);
    assert(bytes[4 * k] == u32_bytes(values[k])[0]);
    assert(bytes[4 * k + 1] == u32_bytes(values[k])[1]);
    assert(bytes[4 * k + 2] == u32_bytes(values[k])[2]);
    assert(bytes[4 * k + 3] == u32_bytes(values[k])[3]);
}

pub proof fn lemma_i64s_read(values: Seq<i64>, k: int)
    requires
        0 <= k < values.len(),
    ensures
        i64_at(i64s_bytes(values), 8 * k) == values[k],
{
    let bytes = i64s_bytes(values);
    let one = u64_bytes(unsigned(values[k]));
    lemma_u64_bytes(unsigned(values[k]));
    lemma_signed(values[k]);
    assert forall|j: int| 0 <= j < 8 implies bytes[8 * k + j] == #[trigger] one[j] by {
        assert((8 * k + j) / 8 == k && (8 * k + j) % 8 == j);
    }
    assert(one[0] == bytes[8 * k] && one[1] == bytes[8 * k + 1] && one[2] == bytes[8 * k + 2]
        && one[3] == bytes[8 * k + 3] && one[4] == bytes[8 * k + 4] && one[5] == bytes[8 * k + 5]
        && one[6] == bytes[8 * k + 6] && one[7] == bytes[8 * k + 7]);
}

pub fn get_u32(bytes: &[u8], at: usize) -> (r: u32)
    requires
        at + 4 <= bytes@.len(),
    ensures
        r == u32_at(bytes@, at as int),
{
    bytes[at] as u32 + bytes[at + 1] as u32 * 0x100 + bytes[at + 2] as u32 * 0x1_0000 + bytes[at
        + 3] as u32 * 0x100_0000
}

pub fn get_u64(bytes: &[u8], at: usize) -> (r: u64)
    requires
        at + 8 <= bytes@.len(),
    ensures
        r == u64_at(bytes@, at as int),
{
    let len: usize = bytes.len();
    assert(at + 8 <= len);
    get_u32(bytes, at) as u64 + get_u32(bytes, at + 4) as u64 * 0x1_0000_0000
}

pub fn to_signed(value: u64) -> (r: i64)
    ensures
        r == signed(value),
{
    if value < 0x8000_0000_0000_0000 {
        value as i64
    } else {
        -((u64::MAX - value) as i64) - 1
    }
}

pub fn to_unsigned(value: i64) -> (r: u64)
    ensures
        r == unsigned(value),
{
    if value >= 0 {
        value as u64
    } else {
        u64::MAX - (-(value + 1)) as u64
    }
}

pub fn push_u32(bytes: &mut Vec<u8>, value: u32)
    ensures
        final(bytes)@ == old(bytes)@ + u32_bytes(value),
{
    bytes.push((value % 0x100) as u8);
    bytes.push((value / 0x100 % 0x100) as u8);
    bytes.push((value / 0x1_0000 % 0x100) as u8);
    bytes.push((value / 0x100_0000) as u8);
    assert(bytes@ =~= old(bytes)@ + u32_bytes(value)) by {
        reveal(u32_bytes);
    }
}

pub fn push_u64(bytes: &mut Vec<u8>, value: u64)
    ensures
        final(bytes)@ == old(bytes)@ + u64_bytes(value),
{
    push_u32(bytes, (value % 0x1_0000_0000) as u32);
    push_u32(bytes, (value / 0x1_0000_0000) as u32);
    assert(bytes@ =~= old(bytes)@ + u64_bytes(value)) by {
        reveal(u64_bytes);
    }
}

pub proof fn lemma_u32s_push(values: Seq<u32>, value: u32)
    ensures
        u32s_bytes(values.push(value)) == u32s_bytes(values) + u32_bytes(value),
{
    broadcast use lemma_u32_len;

    let all = u32s_bytes(values.push(value));
    let n = values.len() as int;
    assert forall|i: int| 0 <= i < all.len() implies all[i] == (u32s_bytes(values) + u32_bytes(
        value,
    ))[i] by {
        if i < 4 * n {
            assert(i / 4 < n);
        } else {
            assert(i / 4 == n && i % 4 == i - 4 * n);
        }
    }
    assert(all =~= u32s_bytes(values) + u32_bytes(value));
}

pub proof fn lemma_i64s_push(values: Seq<i64>, value: i64)
    ensures
        i64s_bytes(values.push(value)) == i64s_bytes(values) + u64_bytes(unsigned(value)),
{
    let all = i64s_bytes(values.push(value));
    let n = values.len() as int;
    let sum = i64s_bytes(values) + u64_bytes(unsigned(value));
    lemma_u64_bytes(unsigned(value));
    assert forall|i: int| 0 <= i < all.len() implies all[i] == sum[i] by {
        if i < 8 * n {
            assert(i / 8 < n);
        } else {
            assert(i / 8 == n && i % 8 == i - 8 * n);
        }
    }
    assert(all =~= sum);
}

// ----- bits -----

/// Bit `k` of a byte.
pub open spec fn byte_bit(byte: u8, k: int) -> bool {
    (byte as int / pow2(k as nat) as int) % 2 == 1
}

/// Bit `p` of a byte string, least significant first.
pub open spec fn bit_at(bytes: Seq<u8>, p: int) -> bool {
    byte_bit(bytes[p / 8], p % 8)
}

/// The number in the `width` bits from bit `p`.
pub open spec fn bits_at(bytes: Seq<u8>, p: int, width: nat) -> nat
    decreases width,
{
    if width == 0 {
        0
    } else {
        (if bit_at(bytes, p) {
            1nat
        } else {
            0nat
        }) + 2 * bits_at(bytes, p + 1, (width - 1) as nat)
    }
}

/// Bit `k` of a number.
pub open spec fn number_bit(value: nat, k: nat) -> bool {
    (value / pow2(k)) % 2 == 1
}

/// The byte whose bit `k` is `bits(k)`.
pub open spec fn byte_of(bits: spec_fn(int) -> bool) -> u8 {
    (weight(bits(0), 1) + weight(bits(1), 2) + weight(bits(2), 4) + weight(bits(3), 8) + weight(
        bits(4),
        16,
    ) + weight(bits(5), 32) + weight(bits(6), 64) + weight(bits(7), 128)) as u8
}

pub open spec fn weight(bit: bool, power: int) -> int {
    if bit {
        power
    } else {
        0
    }
}

pub proof fn lemma_small_powers()
    ensures
        pow2(0) == 1,
        pow2(1) == 2,
        pow2(2) == 4,
        pow2(3) == 8,
        pow2(4) == 16,
        pow2(5) == 32,
        pow2(6) == 64,
        pow2(7) == 128,
        pow2(8) == 256,
{
    vstd::arithmetic::power2::lemma2_to64();
}

pub proof fn lemma_byte_of(bits: spec_fn(int) -> bool, k: int)
    requires
        0 <= k < 8,
    ensures
        byte_bit(byte_of(bits), k) == bits(k),
{
    lemma_small_powers();
    let w = Seq::new(8, |j: int| weight(bits(j), 1));
    let n = byte_of(bits) as int;
    assert(n == w[0] + 2 * w[1] + 4 * w[2] + 8 * w[3] + 16 * w[4] + 32 * w[5] + 64 * w[6] + 128
        * w[7]);
    if k == 0 {
        lemma_pick(n, 0, w[0], w[1] + 2 * w[2] + 4 * w[3] + 8 * w[4] + 16 * w[5] + 32 * w[6] + 64 * w[7], 1);
    } else if k == 1 {
        lemma_pick(n, w[0], w[1], w[2] + 2 * w[3] + 4 * w[4] + 8 * w[5] + 16 * w[6] + 32 * w[7], 2);
    } else if k == 2 {
        lemma_pick(n, w[0] + 2 * w[1], w[2], w[3] + 2 * w[4] + 4 * w[5] + 8 * w[6] + 16 * w[7], 4);
    } else if k == 3 {
        lemma_pick(n, w[0] + 2 * w[1] + 4 * w[2], w[3], w[4] + 2 * w[5] + 4 * w[6] + 8 * w[7], 8);
    } else if k == 4 {
        lemma_pick(n, w[0] + 2 * w[1] + 4 * w[2] + 8 * w[3], w[4], w[5] + 2 * w[6] + 4 * w[7], 16);
    } else if k == 5 {
        lemma_pick(n, w[0] + 2 * w[1] + 4 * w[2] + 8 * w[3] + 16 * w[4], w[5], w[6] + 2 * w[7], 32);
    } else if k == 6 {
        lemma_pick(n, w[0] + 2 * w[1] + 4 * w[2] + 8 * w[3] + 16 * w[4] + 32 * w[5], w[6], w[7], 64);
    } else {
        lemma_pick(
            n,
            w[0] + 2 * w[1] + 4 * w[2] + 8 * w[3] + 16 * w[4] + 32 * w[5] + 64 * w[6],
            w[7],
            0,
            128,
        );
    }
}

proof fn lemma_pick(n: int, low: int, bit: int, high: int, p: int)
    requires
        0 <= low < p,
        0 <= bit <= 1,
        n == low + p * bit + p * 2 * high,
    ensures
        (n / p) % 2 == bit,
{
    let q = bit + 2 * high;
    assert(n == q * p + low) by (nonlinear_arith)
        requires
            n == low + p * bit + p * 2 * high,
            q == bit + 2 * high,
    ;
    vstd::arithmetic::div_mod::lemma_fundamental_div_mod_converse(n, p, q, low);
}

/// Power of two below 256.
pub fn power(k: u8) -> (r: u8)
    requires
        k < 8,
    ensures
        r == pow2(k as nat),
        r > 0,
{
    proof {
        lemma_small_powers();
    }
    if k == 0 {
        1
    } else if k == 1 {
        2
    } else if k == 2 {
        4
    } else if k == 3 {
        8
    } else if k == 4 {
        16
    } else if k == 5 {
        32
    } else if k == 6 {
        64
    } else {
        128
    }
}

pub fn test_bit(byte: u8, k: u8) -> (r: bool)
    requires
        k < 8,
    ensures
        r == byte_bit(byte, k as int),
{
    let p: u8 = power(k);
    byte / p % 2 == 1
}

/// The number of set bits of a byte below bit `limit`.
pub open spec fn ones_below(byte: u8, limit: int) -> nat
    decreases limit,
{
    if limit <= 0 {
        0
    } else {
        ones_below(byte, limit - 1) + (if byte_bit(byte, limit - 1) {
            1nat
        } else {
            0nat
        })
    }
}

pub fn count_below(byte: u8, limit: u8) -> (r: usize)
    requires
        limit <= 8,
    ensures
        r == ones_below(byte, limit as int),
        r <= limit,
{
    let mut count: usize = 0;
    let mut k: u8 = 0;
    while k < limit
        invariant
            k <= limit <= 8,
            count == ones_below(byte, k as int),
            count <= k,
        decreases limit - k,
    {
        if test_bit(byte, k) {
            count = count + 1;
        }
        k = k + 1;
    }
    count
}

/// A number is the number of its own bits.
pub proof fn lemma_bits_of_number(bytes: Seq<u8>, p: int, width: nat, value: nat)
    requires
        value < pow2(width),
        forall|j: int| 0 <= j < width ==> #[trigger] bit_at(bytes, p + j) == number_bit(value, j as nat),
    ensures
        bits_at(bytes, p, width) == value,
    decreases width,
{
    vstd::arithmetic::power2::lemma_pow2(0);
    lemma_small_powers();
    if width > 0 {
        vstd::arithmetic::power2::lemma_pow2_unfold(width);
        let rest = (width - 1) as nat;
        let half = value / 2;
        assert forall|j: int| 0 <= j < rest implies #[trigger] bit_at(bytes, p + 1 + j)
            == number_bit(half, j as nat) by {
            assert(bit_at(bytes, p + (j + 1)) == number_bit(value, (j + 1) as nat));
            vstd::arithmetic::power2::lemma_pow2_unfold((j + 1) as nat);
            vstd::arithmetic::power2::lemma_pow2_pos(j as nat);
            vstd::arithmetic::div_mod::lemma_div_denominator(
                value as int,
                2,
                pow2(j as nat) as int,
            );
        }
        lemma_bits_of_number(bytes, p + 1, rest, half);
        assert(bit_at(bytes, p + 0) == number_bit(value, 0));
        assert(value as int / 1 == value);
    }
}

pub proof fn lemma_bits_bound(bytes: Seq<u8>, p: int, width: nat)
    ensures
        bits_at(bytes, p, width) < pow2(width),
    decreases width,
{
    lemma_small_powers();
    if width > 0 {
        vstd::arithmetic::power2::lemma_pow2_unfold(width);
        lemma_bits_bound(bytes, p + 1, (width - 1) as nat);
    }
}

/// Bits depend only on the bytes that hold them.
pub proof fn lemma_bits_same(a: Seq<u8>, b: Seq<u8>, p: int, q: int, width: nat)
    requires
        0 <= p,
        0 <= q,
        p % 8 == q % 8,
        forall|i: int|
            p / 8 <= i && 8 * i < p + width ==> #[trigger] a[i] == b[i - p / 8 + q / 8],
    ensures
        bits_at(a, p, width) == bits_at(b, q, width),
    decreases width,
{
    if width > 0 {
        assert(a[p / 8] == b[p / 8 - p / 8 + q / 8]);
        assert forall|i: int| (p + 1) / 8 <= i && 8 * i < p + width implies #[trigger] a[i] == b[i - (p
            + 1) / 8 + (q + 1) / 8] by {
            assert(a[i] == b[i - p / 8 + q / 8]);
        }
        lemma_bits_same(a, b, p + 1, q + 1, (width - 1) as nat);
    }
}

/// The number in the `width` bits from bit `p`.
pub fn get_bits(bytes: &[u8], p: usize, width: u8) -> (r: u64)
    requires
        width <= 64,
        p + width <= 8 * bytes@.len(),
        p + width <= usize::MAX,
    ensures
        r == bits_at(bytes@, p as int, width as nat),
{
    let mut value: u64 = 0;
    let mut left: u8 = width;
    proof {
        lemma_bits_bound(bytes@, p as int, width as nat);
        vstd::arithmetic::power2::lemma2_to64();
        vstd::arithmetic::power2::lemma2_to64_rest();
        if width < 64 {
            vstd::arithmetic::power2::lemma_pow2_strictly_increases(width as nat, 64);
        }
    }
    while left > 0
        invariant
            left <= width <= 64,
            p + width <= 8 * bytes@.len(),
            p + width <= usize::MAX,
            value == bits_at(bytes@, p + left, (width - left) as nat),
        decreases left,
    {
        left = left - 1;
        let at: usize = p + left as usize;
        let bit: bool = test_bit(bytes[at / 8], (at % 8) as u8);
        proof {
            lemma_bits_bound(bytes@, p + left, (width - left) as nat);
            vstd::arithmetic::power2::lemma2_to64();
            vstd::arithmetic::power2::lemma2_to64_rest();
            if width - left < 64 {
                vstd::arithmetic::power2::lemma_pow2_strictly_increases((width - left) as nat, 64);
            }
        }
        value = 2 * value + if bit { 1u64 } else { 0u64 };
    }
    value
}

} // verus!
