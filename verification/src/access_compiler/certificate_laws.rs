//! What the summaries of a column by blocks are good for.
#[allow(unused_imports)]
use super::bytes::bit_at;
#[allow(unused_imports)]
use super::certificates::{
    all_bounds, block_end, block_range, bloom_block_bytes, bloom_pick, bloom_pick_in, bloom_place,
    bounds_of, chosen, eq_hit, falls_on, fence_first, fence_keys, fence_last, fence_stride,
    first_hash, hash_count, in_hit, increasing, is_bloom, law_bloom_keeps, law_chosen,
    law_min_max_keeps, law_refined_exactly, lemma_blocks, lemma_bounds, lemma_cut, may_hold,
    min_max_pick, min_max_pick_in, mixed, non_decreasing, all_present, refined, row_sets, rows_in,
    rows_in_all, rows_set, second_hash, within, Bloom,
};
#[allow(unused_imports)]
use super::layout::{lemma_floor, lemma_quotient, lemma_scale, lemma_scale_next};
#[allow(unused_imports)]
use super::runtime::{ceil_div, lemma_ceil, lemma_ceil_floor};
#[allow(unused_imports)]
use super::span::{canonical, covers, Span};
#[allow(unused_imports)]
use super::support::{law_ranges_where, ranges_where};
use vstd::prelude::*;

verus! {

// ----- mixing -----

/// What the mixing of a number is undone by.
pub open spec fn unmixed(value: u64) -> u64 {
    let c = value ^ (value >> 31) ^ (value >> 62);
    let b = c.wrapping_mul(0x3196_42b2_d24d_8ec3);
    let x = b ^ (b >> 27) ^ (b >> 54);
    let a = x.wrapping_mul(0x96de_1b17_3f11_9089);
    (a ^ (a >> 30) ^ (a >> 60)).wrapping_sub(0x9e37_79b9_7f4a_7c15)
}

/// A product is undone by the inverse of its factor.
proof fn lemma_inverse(x: u64, factor: u64, inverse: u64)
    requires
        (factor as int * inverse as int) % 0x1_0000_0000_0000_0000 == 1,
    ensures
        x.wrapping_mul(factor).wrapping_mul(inverse) == x,
{
    let m = 0x1_0000_0000_0000_0000int;
    let p = x as int * factor as int;
    let (f, i) = (factor as int, inverse as int);
    vstd::arithmetic::div_mod::lemma_mul_mod_noop_left(p, i, m);
    assert((p % m) * i % m == p * i % m);
    vstd::arithmetic::mul::lemma_mul_is_associative(x as int, f, i);
    assert(p * i == x as int * (f * i));
    vstd::arithmetic::div_mod::lemma_mul_mod_noop_right(x as int, f * i, m);
    assert(x as int * (f * i) % m == x as int * 1 % m);
    vstd::arithmetic::div_mod::lemma_small_mod(x as nat, m as nat);
    let q = x.wrapping_mul(factor);
    assert(q as int == p % m);
}

proof fn lemma_shifted_30(a: u64)
    ensures
        ({
            let s = a ^ (a >> 30);
            s ^ (s >> 30) ^ (s >> 60)
        }) == a,
        ({
            let s = a ^ (a >> 30) ^ (a >> 60);
            s ^ (s >> 30)
        }) == a,
{
    assert(({
        let s = a ^ (a >> 30);
        s ^ (s >> 30) ^ (s >> 60)
    }) == a && ({
        let s = a ^ (a >> 30) ^ (a >> 60);
        s ^ (s >> 30)
    }) == a) by (bit_vector);
}

proof fn lemma_shifted_27(a: u64)
    ensures
        ({
            let s = a ^ (a >> 27);
            s ^ (s >> 27) ^ (s >> 54)
        }) == a,
        ({
            let s = a ^ (a >> 27) ^ (a >> 54);
            s ^ (s >> 27)
        }) == a,
{
    assert(({
        let s = a ^ (a >> 27);
        s ^ (s >> 27) ^ (s >> 54)
    }) == a && ({
        let s = a ^ (a >> 27) ^ (a >> 54);
        s ^ (s >> 27)
    }) == a) by (bit_vector);
}

proof fn lemma_shifted_31(a: u64)
    ensures
        ({
            let s = a ^ (a >> 31);
            s ^ (s >> 31) ^ (s >> 62)
        }) == a,
        ({
            let s = a ^ (a >> 31) ^ (a >> 62);
            s ^ (s >> 31)
        }) == a,
{
    assert(({
        let s = a ^ (a >> 31);
        s ^ (s >> 31) ^ (s >> 62)
    }) == a && ({
        let s = a ^ (a >> 31) ^ (a >> 62);
        s ^ (s >> 31)
    }) == a) by (bit_vector);
}

/// Mixing is undone, and undoing is undone by mixing: every number is the mixing of
/// exactly one.
pub proof fn law_mixing_is_undone(value: u64)
    ensures
        unmixed(mixed(value)) == value,
        mixed(unmixed(value)) == value,
{
    assert((0xbf58_476d_1ce4_e5b9int * 0x96de_1b17_3f11_9089int) % 0x1_0000_0000_0000_0000 == 1);
    assert((0x94d0_49bb_1331_11ebint * 0x3196_42b2_d24d_8ec3int) % 0x1_0000_0000_0000_0000 == 1);
    let a = value.wrapping_add(0x9e37_79b9_7f4a_7c15);
    let x = a ^ (a >> 30);
    let b = x.wrapping_mul(0xbf58_476d_1ce4_e5b9);
    let y = b ^ (b >> 27);
    let c = y.wrapping_mul(0x94d0_49bb_1331_11eb);
    lemma_shifted_30(a);
    lemma_shifted_27(b);
    lemma_shifted_31(c);
    lemma_inverse(x, 0xbf58_476d_1ce4_e5b9, 0x96de_1b17_3f11_9089);
    lemma_inverse(y, 0x94d0_49bb_1331_11eb, 0x3196_42b2_d24d_8ec3);
    assert(a.wrapping_sub(0x9e37_79b9_7f4a_7c15) == value);
    let p = value ^ (value >> 31) ^ (value >> 62);
    let q = p.wrapping_mul(0x3196_42b2_d24d_8ec3);
    let r = q ^ (q >> 27) ^ (q >> 54);
    let s = r.wrapping_mul(0x96de_1b17_3f11_9089);
    let t = s ^ (s >> 30) ^ (s >> 60);
    lemma_shifted_31(value);
    lemma_shifted_27(q);
    lemma_shifted_30(s);
    lemma_inverse(r, 0x96de_1b17_3f11_9089, 0xbf58_476d_1ce4_e5b9);
    lemma_inverse(p, 0x3196_42b2_d24d_8ec3, 0x94d0_49bb_1331_11eb);
    assert(t.wrapping_sub(0x9e37_79b9_7f4a_7c15).wrapping_add(0x9e37_79b9_7f4a_7c15) == t);
}

/// Different numbers are mixed to different numbers.
pub proof fn law_mixing_keeps_numbers_apart(a: u64, b: u64)
    requires
        a != b,
    ensures
        mixed(a) != mixed(b),
{
    law_mixing_is_undone(a);
    law_mixing_is_undone(b);
}

/// Different values have different first hashes, and different second hashes.
pub proof fn law_hashes_keep_values_apart(a: i64, b: i64)
    requires
        a != b,
    ensures
        first_hash(a) != first_hash(b),
        second_hash(a) != second_hash(b),
{
    let (x, y) = (a as u64, b as u64);
    assert(x != y && x ^ 0x9e37_79b9_7f4a_7c15 != y ^ 0x9e37_79b9_7f4a_7c15) by (bit_vector)
        requires
            a != b,
            x == a as u64,
            y == b as u64,
    ;
    law_mixing_keeps_numbers_apart(x ^ 0x9e37_79b9_7f4a_7c15, y ^ 0x9e37_79b9_7f4a_7c15);
    let (p, q) = (first_hash(a), first_hash(b));
    assert(p ^ 0xd6e8_feb8_6659_fd93 != q ^ 0xd6e8_feb8_6659_fd93) by (bit_vector)
        requires
            p != q,
    ;
    law_mixing_keeps_numbers_apart(p ^ 0xd6e8_feb8_6659_fd93, q ^ 0xd6e8_feb8_6659_fd93);
}

/// The first numbers of the sequence that the mixing is known for, from nought on.
pub proof fn law_mixing_starts_its_sequence()
    ensures
        mixed(0) == 0xe220_a839_7b1d_cdaf,
        mixed(0x9e37_79b9_7f4a_7c15) == 0x6e78_9e6a_a1b9_65f4,
        mixed(0x3c6e_f372_fe94_f82a) == 0x06c4_5d18_8009_454f,
{
    assert(0x9e37_79b9_7f4a_7c15u64 ^ (0x9e37_79b9_7f4a_7c15u64 >> 30) == 0x9e37_79bb_0797_9af0u64
        && 0x6f68_261b_57e7_a770u64 ^ (0x6f68_261b_57e7_a770u64 >> 27) == 0x6f68_2616_bae3_641au64
        && 0xe220_a838_bf5c_9ddeu64 ^ (0xe220_a838_bf5c_9ddeu64 >> 31) == 0xe220_a839_7b1d_cdafu64
        && 0x3c6e_f372_fe94_f82au64 ^ (0x3c6e_f372_fe94_f82au64 >> 30) == 0x3c6e_f372_0f2f_35e1u64
        && 0x2a94_fcbf_ccb4_3499u64 ^ (0x2a94_fcbf_ccb4_3499u64 >> 27) == 0x2a94_fcba_9e2b_a360u64
        && 0x6e78_9e6a_7d48_5920u64 ^ (0x6e78_9e6a_7d48_5920u64 >> 31) == 0x6e78_9e6a_a1b9_65f4u64
        && 0xdaa6_6d2c_7ddf_743fu64 ^ (0xdaa6_6d2c_7ddf_743fu64 >> 30) == 0xdaa6_6d2f_1746_c08eu64
        && 0xf1c3_dd63_22d8_2c9eu64 ^ (0xf1c3_dd63_22d8_2c9eu64 >> 27) == 0xf1c3_dd7d_1aa3_80fau64
        && 0x06c4_5d18_8d81_ff7eu64 ^ (0x06c4_5d18_8d81_ff7eu64 >> 31) == 0x06c4_5d18_8009_454fu64) by (bit_vector);
    assert(0x0000_0000_0000_0000u64.wrapping_add(0x9e37_79b9_7f4a_7c15) == 0x9e37_79b9_7f4a_7c15u64);
    assert(0x9e37_79bb_0797_9af0u64.wrapping_mul(0xbf58_476d_1ce4_e5b9) == 0x6f68_261b_57e7_a770u64);
    assert(0x6f68_2616_bae3_641au64.wrapping_mul(0x94d0_49bb_1331_11eb) == 0xe220_a838_bf5c_9ddeu64);
    assert(0x9e37_79b9_7f4a_7c15u64.wrapping_add(0x9e37_79b9_7f4a_7c15) == 0x3c6e_f372_fe94_f82au64);
    assert(0x3c6e_f372_0f2f_35e1u64.wrapping_mul(0xbf58_476d_1ce4_e5b9) == 0x2a94_fcbf_ccb4_3499u64);
    assert(0x2a94_fcba_9e2b_a360u64.wrapping_mul(0x94d0_49bb_1331_11eb) == 0x6e78_9e6a_7d48_5920u64);
    assert(0x3c6e_f372_fe94_f82au64.wrapping_add(0x9e37_79b9_7f4a_7c15) == 0xdaa6_6d2c_7ddf_743fu64);
    assert(0xdaa6_6d2f_1746_c08eu64.wrapping_mul(0xbf58_476d_1ce4_e5b9) == 0xf1c3_dd63_22d8_2c9eu64);
    assert(0xf1c3_dd7d_1aa3_80fau64.wrapping_mul(0x94d0_49bb_1331_11eb) == 0x06c4_5d18_8d81_ff7eu64);
}

/// The hashes of nought and of one.
pub proof fn law_hashes_start_where_they_are_known_to()
    ensures
        first_hash(0) == 0x6e78_9e6a_a1b9_65f4,
        second_hash(0) == 0x714d_b6c0_9eb0_3576,
        first_hash(1) == 0xe99f_f867_dbf6_82c9,
        second_hash(1) == 0xe7a1_dc19_7013_d6e5,
{
    assert(0x0000_0000_0000_0000u64 ^ 0x9e37_79b9_7f4a_7c15 == 0x9e37_79b9_7f4a_7c15u64
        && 0x3c6e_f372_fe94_f82au64 ^ (0x3c6e_f372_fe94_f82au64 >> 30) == 0x3c6e_f372_0f2f_35e1u64
        && 0x2a94_fcbf_ccb4_3499u64 ^ (0x2a94_fcbf_ccb4_3499u64 >> 27) == 0x2a94_fcba_9e2b_a360u64
        && 0x6e78_9e6a_7d48_5920u64 ^ (0x6e78_9e6a_7d48_5920u64 >> 31) == 0x6e78_9e6a_a1b9_65f4u64
        && 0x6e78_9e6a_a1b9_65f4u64 ^ 0xd6e8_feb8_6659_fd93 == 0xb890_60d2_c7e0_9867u64
        && 0x56c7_da8c_472b_147cu64 ^ (0x56c7_da8c_472b_147cu64 >> 30) == 0x56c7_da8d_1c34_7e4du64
        && 0x0089_288e_3f7e_26a5u64 ^ (0x0089_288e_3f7e_26a5u64 >> 27) == 0x0089_288e_2e5b_3762u64
        && 0x714d_b6c0_7c2b_58f6u64 ^ (0x714d_b6c0_7c2b_58f6u64 >> 31) == 0x714d_b6c0_9eb0_3576u64
        && 0x0000_0000_0000_0001u64 ^ 0x9e37_79b9_7f4a_7c15 == 0x9e37_79b9_7f4a_7c14u64
        && 0x3c6e_f372_fe94_f829u64 ^ (0x3c6e_f372_fe94_f829u64 >> 30) == 0x3c6e_f372_0f2f_35e2u64
        && 0xe9ed_442c_e999_1a52u64 ^ (0xe9ed_442c_e999_1a52u64 >> 27) == 0xe9ed_4431_d431_9fcfu64
        && 0xe99f_f866_08c9_7205u64 ^ (0xe99f_f866_08c9_7205u64 >> 31) == 0xe99f_f867_dbf6_82c9u64
        && 0xe99f_f867_dbf6_82c9u64 ^ 0xd6e8_feb8_6659_fd93 == 0x3f77_06df_bdaf_7f5au64
        && 0xddae_8099_3cf9_fb6fu64 ^ (0xddae_8099_3cf9_fb6fu64 >> 30) == 0xddae_809a_4a43_f90bu64
        && 0xff79_9e64_7ab1_cff3u64 ^ (0xff79_9e64_7ab1_cff3u64 >> 27) == 0xff79_9e7b_9582_037cu64
        && 0xe7a1_dc18_bf50_6ed4u64 ^ (0xe7a1_dc18_bf50_6ed4u64 >> 31) == 0xe7a1_dc19_7013_d6e5u64) by (bit_vector);
    assert(0x9e37_79b9_7f4a_7c15u64.wrapping_add(0x9e37_79b9_7f4a_7c15) == 0x3c6e_f372_fe94_f82au64);
    assert(0x3c6e_f372_0f2f_35e1u64.wrapping_mul(0xbf58_476d_1ce4_e5b9) == 0x2a94_fcbf_ccb4_3499u64);
    assert(0x2a94_fcba_9e2b_a360u64.wrapping_mul(0x94d0_49bb_1331_11eb) == 0x6e78_9e6a_7d48_5920u64);
    assert(0xb890_60d2_c7e0_9867u64.wrapping_add(0x9e37_79b9_7f4a_7c15) == 0x56c7_da8c_472b_147cu64);
    assert(0x56c7_da8d_1c34_7e4du64.wrapping_mul(0xbf58_476d_1ce4_e5b9) == 0x0089_288e_3f7e_26a5u64);
    assert(0x0089_288e_2e5b_3762u64.wrapping_mul(0x94d0_49bb_1331_11eb) == 0x714d_b6c0_7c2b_58f6u64);
    assert(0x9e37_79b9_7f4a_7c14u64.wrapping_add(0x9e37_79b9_7f4a_7c15) == 0x3c6e_f372_fe94_f829u64);
    assert(0x3c6e_f372_0f2f_35e2u64.wrapping_mul(0xbf58_476d_1ce4_e5b9) == 0xe9ed_442c_e999_1a52u64);
    assert(0xe9ed_4431_d431_9fcfu64.wrapping_mul(0x94d0_49bb_1331_11eb) == 0xe99f_f866_08c9_7205u64);
    assert(0x3f77_06df_bdaf_7f5au64.wrapping_add(0x9e37_79b9_7f4a_7c15) == 0xddae_8099_3cf9_fb6fu64);
    assert(0xddae_809a_4a43_f90bu64.wrapping_mul(0xbf58_476d_1ce4_e5b9) == 0xff79_9e64_7ab1_cff3u64);
    assert(0xff79_9e7b_9582_037cu64.wrapping_mul(0x94d0_49bb_1331_11eb) == 0xe7a1_dc18_bf50_6ed4u64);
    assert(0i64 as u64 == 0 && 1i64 as u64 == 1);
}

// ----- the bits of a filter -----

/// A number that shares a power of two with an odd multiple of it holds that power itself.
proof fn lemma_odd_multiple(d: int, s: int, k: nat)
    requires
        d * s % (vstd::arithmetic::power2::pow2(k) as int) == 0,
        s % 2 == 1,
    ensures
        d % (vstd::arithmetic::power2::pow2(k) as int) == 0,
    decreases k,
{
    let p = vstd::arithmetic::power2::pow2(k) as int;
    vstd::arithmetic::power2::lemma_pow2_pos(k);
    vstd::arithmetic::power2::lemma2_to64();
    if k > 0 {
        let h = vstd::arithmetic::power2::pow2((k - 1) as nat) as int;
        vstd::arithmetic::power2::lemma_pow2_pos((k - 1) as nat);
        vstd::arithmetic::power2::lemma_pow2_unfold(k);
        let q = d * s / p;
        let t = s / 2;
        vstd::arithmetic::div_mod::lemma_fundamental_div_mod(d * s, p);
        assert(d * s == p * q && s == 2 * t + 1 && p == 2 * h);
        assert(d == 2 * (h * q - d * t)) by (nonlinear_arith)
            requires
                d * s == p * q,
                s == 2 * t + 1,
                p == 2 * h,
        ;
        let e = h * q - d * t;
        assert(e * s == h * q) by (nonlinear_arith)
            requires
                d == 2 * e,
                d * s == p * q,
                p == 2 * h,
        ;
        vstd::arithmetic::div_mod::lemma_mod_multiples_basic(q, h);
        vstd::arithmetic::mul::lemma_mul_is_commutative(q, h);
        lemma_odd_multiple(e, s, (k - 1) as nat);
        vstd::arithmetic::div_mod::lemma_fundamental_div_mod(e, h);
        let w = e / h;
        assert(d == w * p) by (nonlinear_arith)
            requires
                d == 2 * e,
                e == h * w,
                p == 2 * h,
        ;
        vstd::arithmetic::div_mod::lemma_mod_multiples_basic(w, p);
    }
}

/// The last eight bits of the place of a hash.
proof fn lemma_place_low(value: i64, hash: u8, bit_count: int)
    requires
        bit_count > 0,
        bit_count % 256 == 0,
    ensures
        bloom_place(value, hash, bit_count) % 256 == (first_hash(value) as int + hash as int * (
        second_hash(value) | 1) as int) % 256,
{
    let first = first_hash(value);
    let step = second_hash(value) | 1;
    let product = (hash as u64).wrapping_mul(step);
    let x = first.wrapping_add(product);
    let u = x as usize;
    assert((x as usize) % 256 == x % 256) by (bit_vector);
    let m = 0x1_0000_0000_0000_0000int;
    assert(m % 256 == 0);
    let whole = hash as int * step as int;
    vstd::arithmetic::div_mod::lemma_mod_mod(whole, 256, m / 256);
    assert(product as int == whole % m);
    assert(whole % m % 256 == whole % 256);
    let blocks = bit_count / 256;
    vstd::arithmetic::div_mod::lemma_fundamental_div_mod(bit_count, 256);
    vstd::arithmetic::div_mod::lemma_mod_mod(u as int, 256, blocks);
    assert(u as int % bit_count % 256 == u as int % 256);
    assert(x as int % 256 == (first as int + product as int) % 256);
    vstd::arithmetic::div_mod::lemma_add_mod_noop(first as int, product as int, 256);
    vstd::arithmetic::div_mod::lemma_add_mod_noop(first as int, whole, 256);
}

/// Different hashes of a value fall on different bits of a block.
pub proof fn law_hashes_fall_on_different_bits(value: i64, a: u8, b: u8, bit_count: int)
    requires
        a < b,
        bit_count > 0,
        bit_count % 256 == 0,
    ensures
        bloom_place(value, a, bit_count) != bloom_place(value, b, bit_count),
        0 <= bloom_place(value, a, bit_count) < bit_count,
{
    let first = first_hash(value) as int;
    let second = second_hash(value);
    let step = (second | 1) as int;
    assert((second | 1) % 2 == 1) by (bit_vector);
    lemma_place_low(value, a, bit_count);
    lemma_place_low(value, b, bit_count);
    if bloom_place(value, a, bit_count) == bloom_place(value, b, bit_count) {
        let (x, y) = (first + b as int * step, first + a as int * step);
        vstd::arithmetic::div_mod::lemma_mod_equivalence(x, y, 256);
        vstd::arithmetic::mul::lemma_mul_is_distributive_sub_other_way(step, b as int, a as int);
        assert(x - y == (b - a) * step);
        vstd::arithmetic::power2::lemma2_to64();
        lemma_odd_multiple(b - a, step, 8);
    }
}

/// The number of hashes is the one nearest to the bits for each value times the logarithm
/// of two, which lies between 0.69314718 and 0.69314719, and no more than 16.
pub proof fn law_hashes_are_nearest_to_the_best(bits: int)
    requires
        bits > 0,
    ensures
        1 <= hash_count(bits) <= 16,
        hash_count(bits) < 16 ==> {
            &&& (2 * hash_count(bits) - 1) * 100_000_000 < 2 * bits * 69_314_718
            &&& 2 * bits * 69_314_719 < (2 * hash_count(bits) + 1) * 100_000_000
        },
        hash_count(bits) == 16 ==> 31 * 100_000_000 < 2 * bits * 69_314_718,
{
}

/// A block of a filter has at least the bits that its rows are to have, in whole groups of
/// 256, and no group more than it needs.
pub proof fn law_filter_blocks_are_least(block_rows: int, bits: int)
    requires
        block_rows > 0,
        bits > 0,
    ensures
        bloom_block_bytes(block_rows, bits) % 32 == 0,
        8 * bloom_block_bytes(block_rows, bits) >= block_rows * bits,
        8 * bloom_block_bytes(block_rows, bits) < block_rows * bits + 256,
{
    assert(block_rows * bits > 0) by (nonlinear_arith)
        requires
            block_rows > 0,
            bits > 0,
    ;
}

/// A row of a block has a value one of whose hashes falls on a bit.
pub open spec fn block_falls_on(
    values: Seq<Option<i64>>,
    block_rows: int,
    block: int,
    hashes: int,
    bit_count: int,
    bit: int,
) -> bool {
    exists|row: int, hash: u8|
        0 <= row < values.len() && row / block_rows == block && values[row] is Some && hash < hashes
            && #[trigger] bloom_place(values[row]->0, hash, bit_count) == bit
}

/// The bits of a filter that are set.
proof fn lemma_filter_bit(
    bloom: Bloom,
    values: Seq<Option<i64>>,
    block_rows: int,
    bits_per_value: int,
    block: int,
    bit: int,
)
    requires
        block_rows > 0,
        bits_per_value > 0,
        0 < values.len() <= usize::MAX,
        is_bloom(bloom, values, block_rows, bits_per_value),
        0 <= block < bloom.blocks,
        0 <= bit < 8 * bloom.block_bytes,
    ensures
        bit_at(bloom.bits, block * (8 * bloom.block_bytes) + bit) == block_falls_on(
            values,
            block_rows,
            block,
            bloom.hashes,
            8 * bloom.block_bytes,
            bit,
        ),
{
    let count = 8 * bloom.block_bytes;
    let hashes = bloom.hashes;
    let n = values.len() as int;
    let p = block * count + bit;
    assert(bloom.blocks * count == 8 * bloom.bits.len()) by (nonlinear_arith)
        requires
            count == 8 * bloom.block_bytes,
            bloom.bits.len() == bloom.blocks * bloom.block_bytes,
    ;
    lemma_quotient(p, block, count);
    vstd::arithmetic::div_mod::lemma_fundamental_div_mod(p, count);
    vstd::arithmetic::mul::lemma_mul_is_commutative(block, count);
    assert(p % count == bit && p / count == block);
    lemma_scale(block + 1, bloom.blocks, count);
    lemma_scale_next(block, count);
    lemma_scale(0, block, count);
    assert(0 <= p < 8 * bloom.bits.len());
    assert(bit_at(bloom.bits, p) == rows_set(values, n, block_rows, hashes, count, p));
    if rows_set(values, n, block_rows, hashes, count, p) {
        let row = choose|row: int|
            0 <= row < n && #[trigger] row_sets(values, row, block_rows, hashes, count, p);
        let hash = choose|hash: u8|
            hash < hashes && #[trigger] bloom_place(values[row]->0, hash, count) == bit;
        assert(bloom_place(values[row]->0, hash, count) == bit);
    }
    if block_falls_on(values, block_rows, block, hashes, count, bit) {
        let (row, hash) = choose|row: int, hash: u8|
            0 <= row < values.len() && row / block_rows == block && values[row] is Some && hash
                < hashes && #[trigger] bloom_place(values[row]->0, hash, count) == bit;
        assert(falls_on(values[row]->0, hashes, count, bit));
        assert(row_sets(values, row, block_rows, hashes, count, p));
    }
}

/// A filter names a block exactly where, for each hash of the value, a row of the block has
/// a value one of whose hashes falls on the same bit.
pub proof fn law_filters_name_blocks_by_their_rows(
    bloom: Bloom,
    values: Seq<Option<i64>>,
    block_rows: int,
    bits_per_value: int,
    value: i64,
    block: int,
)
    requires
        block_rows > 0,
        bits_per_value > 0,
        0 < values.len() <= usize::MAX,
        is_bloom(bloom, values, block_rows, bits_per_value),
        0 <= block < bloom.blocks,
    ensures
        chosen(bloom_pick(bloom, value), bloom.blocks).contains(block as usize) <==> forall|hash: u8|
            hash < bloom.hashes ==> block_falls_on(
                values,
                block_rows,
                block,
                bloom.hashes,
                8 * bloom.block_bytes,
                #[trigger] bloom_place(value, hash, 8 * bloom.block_bytes),
            ),
{
    let count = 8 * bloom.block_bytes;
    let pick = bloom_pick(bloom, value);
    lemma_blocks(values.len() as int, block_rows);
    law_chosen(pick, bloom.blocks);
    law_filter_blocks_are_least(block_rows, bits_per_value);
    assert(count > 0) by {
        assert(block_rows * bits_per_value > 0) by (nonlinear_arith)
            requires
                block_rows > 0,
                bits_per_value > 0,
        ;
    }
    assert forall|hash: u8| hash < bloom.hashes implies bit_at(
        bloom.bits,
        block * count + #[trigger] bloom_place(value, hash, count),
    ) == block_falls_on(
        values,
        block_rows,
        block,
        bloom.hashes,
        count,
        bloom_place(value, hash, count),
    ) by {
        lemma_filter_bit(
            bloom,
            values,
            block_rows,
            bits_per_value,
            block,
            bloom_place(value, hash, count),
        );
    }
    assert(pick(block) == may_hold(bloom, block, value));
}

/// A filter never names a block without values.
pub proof fn law_filters_name_no_empty_block(
    bloom: Bloom,
    values: Seq<Option<i64>>,
    block_rows: int,
    bits_per_value: int,
    value: i64,
    block: int,
)
    requires
        block_rows > 0,
        bits_per_value > 0,
        0 < values.len() <= usize::MAX,
        is_bloom(bloom, values, block_rows, bits_per_value),
        0 <= block < bloom.blocks,
        forall|row: int|
            0 <= row < values.len() && row / block_rows == block ==> (
            #[trigger] values[row]) is None,
    ensures
        !chosen(bloom_pick(bloom, value), bloom.blocks).contains(block as usize),
{
    law_filters_name_blocks_by_their_rows(bloom, values, block_rows, bits_per_value, value, block);
    law_hashes_are_nearest_to_the_best(bits_per_value);
    let place = bloom_place(value, 0, 8 * bloom.block_bytes);
    assert(!block_falls_on(
        values,
        block_rows,
        block,
        bloom.hashes,
        8 * bloom.block_bytes,
        place,
    ));
}

// ----- probes and what they are refined to -----

/// Ranges in merged form that hold exactly the rows whose value is among the targets.
pub open spec fn finds(values: Seq<Option<i64>>, targets: Seq<i64>, found: Seq<Span>) -> bool {
    &&& canonical(found)
    &&& forall|row: int| #[trigger]
        covers(found, row) <==> 0 <= row < values.len() && values[row] is Some && targets.contains(
            values[row]->0,
        )
}

/// Candidates that increase, that are blocks of the column, and that miss no row with a
/// target are refined to the rows with a target.
proof fn lemma_refined_to_targets(
    values: Seq<Option<i64>>,
    blocks: Seq<usize>,
    block_rows: int,
    targets: Seq<i64>,
)
    requires
        block_rows > 0,
        0 < values.len() <= usize::MAX,
        increasing(blocks),
        forall|i: int|
            0 <= i < blocks.len() ==> #[trigger] blocks[i] < ceil_div(
                values.len() as int,
                block_rows,
            ),
        forall|row: int|
            0 <= row < values.len() && (#[trigger] values[row]) is Some && targets.contains(
                values[row]->0,
            ) ==> blocks.contains((row / block_rows) as usize),
    ensures
        refined(
            values.len() as int,
            blocks,
            block_rows,
            in_hit(values, targets),
            blocks.len() as int,
        ) matches Ok(found) && finds(values, targets, found),
{
    let rows = values.len() as int;
    let hit = in_hit(values, targets);
    lemma_ceil_floor(rows, block_rows);
    lemma_floor(rows - 1, block_rows);
    assert forall|i: int| 0 <= i < blocks.len() implies #[trigger] blocks[i] * block_rows < rows by {
        lemma_scale(blocks[i] as int, (rows - 1) / block_rows, block_rows);
    }
    assert forall|row: int| 0 <= row < rows && #[trigger] hit(row) implies blocks.contains(
        (row / block_rows) as usize,
    ) by {
        assert(values[row] is Some);
    }
    law_refined_exactly(rows, blocks, block_rows, hit);
    law_ranges_where(hit, 0, rows);
    let found = ranges_where(hit, 0, rows);
    assert forall|row: int| #[trigger] covers(found, row) <==> 0 <= row < values.len()
        && values[row] is Some && targets.contains(values[row]->0) by {
        assert(covers(found, row) == (0 <= row < rows && hit(row)));
    }
}

/// Where a search for one value gives the ranges of the rows that equal it, it gives
/// exactly the rows that hold it.
pub proof fn law_equal_rows_hold_the_value(values: Seq<Option<i64>>, value: i64)
    requires
        values.len() <= usize::MAX,
    ensures
        finds(values, seq![value], ranges_where(eq_hit(values, value), 0, values.len() as int)),
{
    let rows = values.len() as int;
    let hit = eq_hit(values, value);
    let found = ranges_where(hit, 0, rows);
    law_ranges_where(hit, 0, rows);
    assert(seq![value][0] == value);
    assert forall|row: int| #[trigger] covers(found, row) <==> 0 <= row < values.len()
        && values[row] is Some && seq![value].contains(values[row]->0) by {
        assert(covers(found, row) == (0 <= row < rows && hit(row)));
    }
}

/// The blocks that the bounds name for a list of targets hold every row whose value is a
/// target, and refined they give exactly those rows.
pub proof fn law_min_max_finds_every_target(
    values: Seq<Option<i64>>,
    block_rows: int,
    targets: Seq<i64>,
)
    requires
        block_rows > 0,
        0 < values.len() <= usize::MAX,
    ensures
        ({
            let bounds = all_bounds(values, block_rows);
            let blocks = chosen(min_max_pick_in(bounds, targets), bounds.len() as int);
            &&& increasing(blocks)
            &&& forall|row: int|
                0 <= row < values.len() && (#[trigger] values[row]) is Some && targets.contains(
                    values[row]->0,
                ) ==> blocks.contains((row / block_rows) as usize)
            &&& refined(
                values.len() as int,
                blocks,
                block_rows,
                in_hit(values, targets),
                blocks.len() as int,
            ) matches Ok(found) && finds(values, targets, found)
        }),
{
    let bounds = all_bounds(values, block_rows);
    let pick = min_max_pick_in(bounds, targets);
    let blocks = chosen(pick, bounds.len() as int);
    lemma_blocks(values.len() as int, block_rows);
    law_chosen(pick, bounds.len() as int);
    assert forall|row: int|
        0 <= row < values.len() && (#[trigger] values[row]) is Some && targets.contains(
            values[row]->0,
        ) implies blocks.contains((row / block_rows) as usize) by {
        let value = values[row]->0;
        let one = min_max_pick(bounds, value);
        let block = (row / block_rows) as usize;
        law_min_max_keeps(values, block_rows, row);
        law_chosen(one, bounds.len() as int);
        assert(chosen(one, bounds.len() as int).contains(block));
        assert(one(block as int));
        let i = choose|i: int| 0 <= i < targets.len() && targets[i] == value;
        assert(within(bounds[block as int], targets[i]));
        assert(pick(block as int));
    }
    lemma_refined_to_targets(values, blocks, block_rows, targets);
}

/// The blocks that a filter names for a list of targets hold every row whose value is a
/// target, and refined they give exactly those rows.
pub proof fn law_bloom_finds_every_target(
    bloom: Bloom,
    values: Seq<Option<i64>>,
    block_rows: int,
    bits_per_value: int,
    targets: Seq<i64>,
)
    requires
        block_rows > 0,
        bits_per_value > 0,
        0 < values.len() <= usize::MAX,
        is_bloom(bloom, values, block_rows, bits_per_value),
    ensures
        ({
            let blocks = chosen(bloom_pick_in(bloom, targets), bloom.blocks);
            &&& increasing(blocks)
            &&& forall|row: int|
                0 <= row < values.len() && (#[trigger] values[row]) is Some && targets.contains(
                    values[row]->0,
                ) ==> blocks.contains((row / block_rows) as usize)
            &&& refined(
                values.len() as int,
                blocks,
                block_rows,
                in_hit(values, targets),
                blocks.len() as int,
            ) matches Ok(found) && finds(values, targets, found)
        }),
{
    let pick = bloom_pick_in(bloom, targets);
    let blocks = chosen(pick, bloom.blocks);
    lemma_blocks(values.len() as int, block_rows);
    law_chosen(pick, bloom.blocks);
    assert forall|row: int|
        0 <= row < values.len() && (#[trigger] values[row]) is Some && targets.contains(
            values[row]->0,
        ) implies blocks.contains((row / block_rows) as usize) by {
        let value = values[row]->0;
        let one = bloom_pick(bloom, value);
        let block = (row / block_rows) as usize;
        law_bloom_keeps(bloom, values, block_rows, bits_per_value, row);
        law_chosen(one, bloom.blocks);
        assert(chosen(one, bloom.blocks).contains(block));
        assert(one(block as int));
        let i = choose|i: int| 0 <= i < targets.len() && targets[i] == value;
        assert(may_hold(bloom, block as int, targets[i]));
        assert(pick(block as int));
    }
    lemma_refined_to_targets(values, blocks, block_rows, targets);
}

/// A probe for a list of targets names the blocks that the probes for each of them name.
pub proof fn law_probes_for_lists_are_probes_for_each(
    bounds: Seq<Option<(i64, i64)>>,
    bloom: Bloom,
    targets: Seq<i64>,
    block: usize,
)
    requires
        bounds.len() <= usize::MAX,
        0 <= bloom.blocks <= usize::MAX,
    ensures
        chosen(min_max_pick_in(bounds, targets), bounds.len() as int).contains(block)
            <==> exists|i: int|
            0 <= i < targets.len() && chosen(
                min_max_pick(bounds, #[trigger] targets[i]),
                bounds.len() as int,
            ).contains(block),
        chosen(bloom_pick_in(bloom, targets), bloom.blocks).contains(block) <==> exists|i: int|
            0 <= i < targets.len() && chosen(
                bloom_pick(bloom, #[trigger] targets[i]),
                bloom.blocks,
            ).contains(block),
{
    let n = bounds.len() as int;
    let b = block as int;
    law_chosen(min_max_pick_in(bounds, targets), n);
    law_chosen(bloom_pick_in(bloom, targets), bloom.blocks);
    assert forall|i: int| 0 <= i < targets.len() implies chosen(
        min_max_pick(bounds, #[trigger] targets[i]),
        n,
    ).contains(block) == (block < n && within(bounds[b], targets[i])) by {
        let pick = min_max_pick(bounds, targets[i]);
        law_chosen(pick, n);
        assert(pick(b) == within(bounds[b], targets[i]));
    }
    assert forall|i: int| 0 <= i < targets.len() implies chosen(
        bloom_pick(bloom, #[trigger] targets[i]),
        bloom.blocks,
    ).contains(block) == (block < bloom.blocks && may_hold(bloom, b, targets[i])) by {
        let pick = bloom_pick(bloom, targets[i]);
        law_chosen(pick, bloom.blocks);
        assert(pick(b) == may_hold(bloom, b, targets[i]));
    }
    assert(min_max_pick_in(bounds, targets)(b) == exists|i: int|
        0 <= i < targets.len() && #[trigger] within(bounds[b], targets[i]));
    assert(bloom_pick_in(bloom, targets)(b) == exists|i: int|
        0 <= i < targets.len() && #[trigger] may_hold(bloom, b, targets[i]));
}

// ----- how few blocks are named -----

/// The bounds of rows are values of those rows.
proof fn lemma_bounds_held(values: Seq<Option<i64>>, from: int, to: int)
    requires
        0 <= from <= to <= values.len(),
    ensures
        match bounds_of(values, from, to) {
            None => forall|row: int| from <= row < to ==> (#[trigger] values[row]) is None,
            Some((low, high)) => {
                &&& exists|row: int| from <= row < to && #[trigger] values[row] == Some(low)
                &&& exists|row: int| from <= row < to && #[trigger] values[row] == Some(high)
                &&& low <= high
            },
        },
    decreases to - from,
{
    if from < to {
        lemma_bounds_held(values, from, to - 1);
        assert(values[to - 1] == values[to - 1]);
        if let Some((low, high)) = bounds_of(values, from, to - 1) {
            let i = choose|row: int| from <= row < to - 1 && #[trigger] values[row] == Some(low);
            let j = choose|row: int| from <= row < to - 1 && #[trigger] values[row] == Some(high);
            assert(values[i] == Some(low) && values[j] == Some(high));
        }
    }
}

/// The bounds name a block exactly where it has a value that is not above the target and
/// one that is not below it.
pub proof fn law_min_max_names_blocks_around_the_target(
    values: Seq<Option<i64>>,
    block_rows: int,
    value: i64,
    block: int,
)
    requires
        block_rows > 0,
        0 < values.len() <= usize::MAX,
        0 <= block < ceil_div(values.len() as int, block_rows),
    ensures
        chosen(
            min_max_pick(all_bounds(values, block_rows), value),
            all_bounds(values, block_rows).len() as int,
        ).contains(block as usize) <==> {
            &&& exists|row: int|
                0 <= row < values.len() && row / block_rows == block && (
                #[trigger] values[row]) is Some && values[row]->0 <= value
            &&& exists|row: int|
                0 <= row < values.len() && row / block_rows == block && (
                #[trigger] values[row]) is Some && values[row]->0 >= value
        },
        all_bounds(values, block_rows).len() == ceil_div(values.len() as int, block_rows),
{
    let n = values.len() as int;
    let bounds = all_bounds(values, block_rows);
    let pick = min_max_pick(bounds, value);
    let from = block * block_rows;
    let to = block_end(block, block_rows, n);
    lemma_blocks(n, block_rows);
    law_chosen(pick, bounds.len() as int);
    lemma_ceil_floor(n, block_rows);
    lemma_floor(n - 1, block_rows);
    lemma_scale(block, (n - 1) / block_rows, block_rows);
    lemma_scale(0, block, block_rows);
    lemma_scale_next(block, block_rows);
    assert(0 <= from < to <= n);
    lemma_bounds_held(values, from, to);
    assert(pick(block) == within(bounds_of(values, from, to), value));
    assert forall|row: int| 0 <= row < n implies (#[trigger] (row / block_rows) == block) == (from
        <= row < to) by {
        lemma_floor(row, block_rows);
        if from <= row < to {
            lemma_quotient(row, block, block_rows);
        }
    }
    assert forall|row: int| from <= row < to && (#[trigger] values[row]) is Some implies within(
        bounds_of(values, from, to),
        values[row]->0,
    ) && row / block_rows == block by {
        lemma_bounds(values, from, to, row);
        lemma_quotient(row, block, block_rows);
    }
    if let Some((low, high)) = bounds_of(values, from, to) {
        let i = choose|row: int| from <= row < to && #[trigger] values[row] == Some(low);
        let j = choose|row: int| from <= row < to && #[trigger] values[row] == Some(high);
        assert(values[i] is Some && i / block_rows == block);
        assert(values[j] is Some && j / block_rows == block);
    }
}

/// A fence names a block exactly where the block starts with a value that is not above the
/// target, and the next block, if there is one, with a value that is not below it.
pub proof fn law_fence_names_blocks_around_the_target(
    values: Seq<Option<i64>>,
    stride: int,
    value: i64,
    block: int,
)
    requires
        stride > 0,
        all_present(values),
        non_decreasing(values),
        0 < values.len() <= usize::MAX,
        0 <= block < ceil_div(values.len() as int, stride),
    ensures
        ({
            let keys = fence_keys(values, stride);
            block_range(fence_first(keys, value), fence_last(keys, value)).contains(block as usize)
        }) <==> values[block * stride]->0 <= value && ((block + 1) * stride < values.len()
            ==> values[(block + 1) * stride]->0 >= value),
{
    let keys = fence_keys(values, stride);
    let n = keys.len() as int;
    let rows = values.len() as int;
    lemma_blocks(rows, stride);
    lemma_ceil_floor(rows, stride);
    lemma_floor(rows - 1, stride);
    assert forall|i: int, j: int| 0 <= i <= j < n implies (#[trigger] keys[i]) <= (
    #[trigger] keys[j]) by {
        lemma_scale(0, i, stride);
        lemma_scale(i, j, stride);
        lemma_scale(j, n - 1, stride);
        assert(values[i * stride]->0 <= values[j * stride]->0);
    }
    lemma_cut(keys, value, n);
    let first = fence_first(keys, value);
    let last = fence_last(keys, value);
    let range = block_range(first, last);
    assert(keys[block] == values[block * stride]->0);
    assert(((block + 1) * stride < rows) == (block + 1 < n)) by {
        if block + 1 < n {
            lemma_scale(block + 1, n - 1, stride);
        } else {
            lemma_scale(n, block + 1, stride);
            lemma_scale_next(n - 1, stride);
        }
    }
    if block + 1 < n {
        assert(keys[block + 1] == values[(block + 1) * stride]->0);
    }
    if first <= block < last {
        assert(range[block - first] == block as usize);
        assert(range.contains(block as usize));
    }
    if range.contains(block as usize) {
        let i = choose|i: int| 0 <= i < range.len() && range[i] == block as usize;
        assert(range[i] == (first + i) as usize);
    }
}

/// The number of the first `n` rows that lie in one of the blocks.
pub open spec fn rows_named(blocks: Seq<usize>, block_rows: int, n: int) -> int
    decreases n,
{
    if n <= 0 {
        0
    } else {
        rows_named(blocks, block_rows, n - 1) + if blocks.contains(
            ((n - 1) / block_rows) as usize,
        ) {
            1int
        } else {
            0
        }
    }
}

proof fn lemma_rows_named_by_more(blocks: Seq<usize>, last: usize, block_rows: int, n: int)
    requires
        block_rows > 0,
        0 <= n <= usize::MAX,
        !blocks.contains(last),
    ensures
        rows_named(blocks.push(last), block_rows, n) == rows_named(blocks, block_rows, n) + rows_in(
            last as int,
            block_rows,
            n,
        ),
    decreases n,
{
    let more = blocks.push(last);
    lemma_scale(0, last as int, block_rows);
    if n > 0 {
        lemma_rows_named_by_more(blocks, last, block_rows, n - 1);
        let q = (n - 1) / block_rows;
        let start = last * block_rows;
        lemma_floor(n - 1, block_rows);
        vstd::arithmetic::div_mod::lemma_div_nonincreasing(n - 1, block_rows);
        vstd::seq_lib::lemma_seq_contains_after_push(blocks, last, q as usize);
        assert((q == last) == (start <= n - 1 < start + block_rows)) by {
            if start <= n - 1 < start + block_rows {
                lemma_quotient(n - 1, last as int, block_rows);
            }
        }
    }
}

/// The rows of candidates are counted: as many as there are rows in the blocks.
pub proof fn law_candidate_rows_are_those_of_the_blocks(
    blocks: Seq<usize>,
    block_rows: int,
    rows: int,
)
    requires
        block_rows > 0,
        0 <= rows <= usize::MAX,
        increasing(blocks),
    ensures
        rows_in_all(blocks, block_rows, rows, blocks.len() as int) == rows_named(
            blocks,
            block_rows,
            rows,
        ),
    decreases blocks.len(),
{
    if blocks.len() == 0 {
        lemma_none_named(blocks, block_rows, rows);
    } else {
        let before = blocks.drop_last();
        let last = blocks.last();
        assert(before.push(last) =~= blocks);
        assert forall|i: int, j: int| 0 <= i < j < before.len() implies #[trigger] before[i]
            < #[trigger] before[j] by {
            assert(blocks[i] < blocks[j]);
        }
        if before.contains(last) {
            let i = choose|i: int| 0 <= i < before.len() && before[i] == last;
            assert(blocks[i] < blocks[blocks.len() - 1]);
        }
        law_candidate_rows_are_those_of_the_blocks(before, block_rows, rows);
        lemma_rows_named_by_more(before, last, block_rows, rows);
        lemma_same_rows(blocks, before, block_rows, rows, before.len() as int);
    }
}

proof fn lemma_none_named(blocks: Seq<usize>, block_rows: int, n: int)
    requires
        blocks.len() == 0,
    ensures
        rows_named(blocks, block_rows, n) == 0,
    decreases n,
{
    if n > 0 {
        lemma_none_named(blocks, block_rows, n - 1);
    }
}

proof fn lemma_same_rows(a: Seq<usize>, b: Seq<usize>, block_rows: int, rows: int, n: int)
    requires
        0 <= n <= a.len(),
        n <= b.len(),
        forall|i: int| 0 <= i < n ==> a[i] == b[i],
    ensures
        rows_in_all(a, block_rows, rows, n) == rows_in_all(b, block_rows, rows, n),
    decreases n,
{
    if n > 0 {
        lemma_same_rows(a, b, block_rows, rows, n - 1);
    }
}

/// A fence takes no more than its budget, at 16 bytes for each key, and a fence of any more
/// keys at equal distances would; each key is the value of the row that it stands for.
pub proof fn law_fences_keep_to_their_budget(values: Seq<Option<i64>>, budget: int, i: int)
    requires
        values.len() > 0,
        budget >= 16,
        0 <= i < fence_keys(values, fence_stride(values.len() as int, budget)).len(),
    ensures
        ({
            let rows = values.len() as int;
            let stride = fence_stride(rows, budget);
            let keys = fence_keys(values, stride);
            &&& stride > 0
            &&& 16 * keys.len() <= budget
            &&& stride > 1 ==> fence_keys(values, stride - 1).len() > budget / 16
            &&& i * stride < rows
            &&& keys[i] == values[i * stride]->0
        }),
{
    let rows = values.len() as int;
    let entries = budget / 16;
    let stride = fence_stride(rows, budget);
    lemma_ceil(rows, entries);
    assert(stride > 0) by {
        if stride <= 0 {
            lemma_scale(stride, 0, entries);
        }
    }
    let n = ceil_div(rows, stride);
    lemma_ceil(rows, stride);
    lemma_scale_next(n - 1, stride);
    if n > entries {
        lemma_scale(entries, n - 1, stride);
        vstd::arithmetic::mul::lemma_mul_is_commutative(entries, stride);
    }
    if n < 0 {
        lemma_scale(n, 0, stride);
    }
    lemma_scale(i, n - 1, stride);
    if stride > 1 {
        let less = stride - 1;
        let m = ceil_div(rows, less);
        lemma_ceil(rows, less);
        lemma_scale_next(less, entries);
        if m <= entries {
            lemma_scale(m, entries, less);
            vstd::arithmetic::mul::lemma_mul_is_commutative(entries, less);
        }
    }
}

} // verus!
