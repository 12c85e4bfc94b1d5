//! Summaries of a column by blocks, which name the blocks that may hold a value.
#[allow(unused_imports)]
use super::bytes::bit_at;
use super::bytes::test_bit;
use super::error::Error;
#[allow(unused_imports)]
use super::layout::{lemma_floor, lemma_quotient, lemma_scale, lemma_scale_next};
use super::plan::OutputGuarantee;
#[allow(unused_imports)]
use super::runtime::{ceil_div, lemma_ceil, lemma_ceil_floor};
use super::span::Span;
use super::support::push_range;
#[allow(unused_imports)]
use super::support::{lemma_pushed_join, pushed_where, ranges_where};
use vstd::prelude::*;

verus! {

/// Blocks that may hold a matching row.
#[derive(Clone, Debug, PartialEq, Eq)]
pub struct CandidatePlan {
    pub blocks: Vec<usize>,
    pub block_rows: usize,
    pub metadata_bytes: usize,
    pub guarantee: OutputGuarantee,
}

/// The number of a block's rows that are among the first `rows`.
pub open spec fn rows_in(block: int, block_rows: int, rows: int) -> int {
    let start = block * block_rows;
    if start >= rows {
        0
    } else if block_rows < rows - start {
        block_rows
    } else {
        rows - start
    }
}

/// The number of rows in the first `n` blocks of a list.
pub open spec fn rows_in_all(blocks: Seq<usize>, block_rows: int, rows: int, n: int) -> int
    decreases n,
{
    if n <= 0 {
        0
    } else {
        rows_in_all(blocks, block_rows, rows, n - 1) + rows_in(
            blocks[n - 1] as int,
            block_rows,
            rows,
        )
    }
}

proof fn lemma_rows_in(blocks: Seq<usize>, block_rows: int, rows: int, m: int, n: int)
    requires
        0 <= m <= n,
        block_rows >= 0,
    ensures
        rows_in_all(blocks, block_rows, rows, m) <= rows_in_all(blocks, block_rows, rows, n),
    decreases n,
{
    if m < n {
        lemma_rows_in(blocks, block_rows, rows, m, n - 1);
    }
}

impl CandidatePlan {
    /// The number of rows in the blocks, of a column with `rows` rows.
    pub fn candidate_rows(&self, rows: usize) -> (r: usize)
        requires
            rows_in_all(
                self.blocks@,
                self.block_rows as int,
                rows as int,
                self.blocks@.len() as int,
            ) <= usize::MAX,
        ensures
            r == rows_in_all(
                self.blocks@,
                self.block_rows as int,
                rows as int,
                self.blocks@.len() as int,
            ),
    {
        let mut sum: usize = 0;
        let mut i: usize = 0;
        while i < self.blocks.len()
            invariant
                i <= self.blocks@.len(),
                sum == rows_in_all(self.blocks@, self.block_rows as int, rows as int, i as int),
                rows_in_all(
                    self.blocks@,
                    self.block_rows as int,
                    rows as int,
                    self.blocks@.len() as int,
                ) <= usize::MAX,
            decreases self.blocks@.len() - i,
        {
            let part: usize = match self.blocks[i].checked_mul(self.block_rows) {
                Some(start) => if start >= rows {
                    0
                } else if self.block_rows < rows - start {
                    self.block_rows
                } else {
                    rows - start
                },
                None => 0,
            };
            proof {
                lemma_rows_in(
                    self.blocks@,
                    self.block_rows as int,
                    rows as int,
                    i + 1,
                    self.blocks@.len() as int,
                );
            }
            sum = sum + part;
            i = i + 1;
        }
        sum
    }
}

/// A plan states these blocks as candidates.
pub open spec fn is_plan(
    plan: CandidatePlan,
    blocks: Seq<usize>,
    block_rows: int,
    metadata: int,
) -> bool {
    &&& plan.blocks@ == blocks
    &&& plan.block_rows == block_rows
    &&& plan.metadata_bytes == metadata
    &&& plan.guarantee == OutputGuarantee::CandidateBitmap
}

/// Those of the blocks `0..n` that are chosen.
pub open spec fn chosen(pick: spec_fn(int) -> bool, n: int) -> Seq<usize>
    decreases n,
{
    if n <= 0 {
        Seq::empty()
    } else if pick(n - 1) {
        chosen(pick, n - 1).push((n - 1) as usize)
    } else {
        chosen(pick, n - 1)
    }
}

/// The blocks increase.
pub open spec fn increasing(blocks: Seq<usize>) -> bool {
    forall|i: int, j: int|
        0 <= i < j < blocks.len() ==> #[trigger] blocks[i] < #[trigger] blocks[j]
}

/// The chosen blocks increase, and are those that were picked.
pub proof fn law_chosen(pick: spec_fn(int) -> bool, n: int)
    requires
        0 <= n <= usize::MAX,
    ensures
        increasing(chosen(pick, n)),
        forall|i: int| 0 <= i < chosen(pick, n).len() ==> #[trigger] chosen(pick, n)[i] < n,
        forall|block: usize| #[trigger]
            chosen(pick, n).contains(block) == (block < n && pick(block as int)),
    decreases n,
{
    let all = chosen(pick, n);
    if n > 0 {
        law_chosen(pick, n - 1);
        let before = chosen(pick, n - 1);
        assert forall|block: usize| #[trigger] all.contains(block) == (block < n && pick(
            block as int,
        )) by {
            if all.contains(block) {
                let i = choose|i: int| 0 <= i < all.len() && all[i] == block;
                if i < before.len() {
                    assert(before[i] == block);
                    assert(before.contains(block));
                }
            }
            if block < n - 1 && pick(block as int) {
                assert(before.contains(block));
                let i = choose|i: int| 0 <= i < before.len() && before[i] == block;
                assert(all[i] == block);
            }
            if block == n - 1 && pick(block as int) {
                assert(all[all.len() - 1] == block);
            }
        }
    }
}

/// What a filter holds.
#[verifier::ext_equal]
pub ghost struct Bloom {
    pub block_rows: int,
    pub block_bytes: int,
    pub hashes: int,
    pub blocks: int,
    pub bits: Seq<u8>,
}

pub open spec fn mixed(value: u64) -> u64 {
    let a = value.wrapping_add(0x9e37_79b9_7f4a_7c15);
    let b = (a ^ (a >> 30)).wrapping_mul(0xbf58_476d_1ce4_e5b9);
    let c = (b ^ (b >> 27)).wrapping_mul(0x94d0_49bb_1331_11eb);
    c ^ (c >> 31)
}

pub open spec fn first_hash(value: i64) -> u64 {
    mixed(value as u64 ^ 0x9e37_79b9_7f4a_7c15)
}

pub open spec fn second_hash(value: i64) -> u64 {
    mixed(first_hash(value) ^ 0xd6e8_feb8_6659_fd93)
}

/// The bit of a block that a hash of a value falls on.
pub open spec fn bloom_place(value: i64, hash: u8, bit_count: int) -> int {
    (first_hash(value).wrapping_add((hash as u64).wrapping_mul(second_hash(value) | 1))
        as usize) as int % bit_count
}

/// One of the first `hashes` hashes of a value falls on a bit.
pub open spec fn falls_on(value: i64, hashes: int, bit_count: int, bit: int) -> bool {
    exists|hash: u8| hash < hashes && #[trigger] bloom_place(value, hash, bit_count) == bit
}

/// A row sets bit `p` of the filter.
pub open spec fn row_sets(
    values: Seq<Option<i64>>,
    row: int,
    block_rows: int,
    hashes: int,
    bit_count: int,
    p: int,
) -> bool {
    row / block_rows == p / bit_count && (values[row] matches Some(value) && falls_on(
        value,
        hashes,
        bit_count,
        p % bit_count,
    ))
}

/// One of the first `n` rows sets bit `p` of the filter.
pub open spec fn rows_set(
    values: Seq<Option<i64>>,
    n: int,
    block_rows: int,
    hashes: int,
    bit_count: int,
    p: int,
) -> bool {
    exists|row: int|
        0 <= row < n && #[trigger] row_sets(values, row, block_rows, hashes, bit_count, p)
}

/// Nearest to the number of bits for each value times the logarithm of two,
/// from 1 to 16.
pub open spec fn hash_count(bits_per_value: int) -> int {
    if bits_per_value > 22 {
        16
    } else {
        (bits_per_value * 69315 + 50000) / 100000
    }
}

/// A block has this many bytes, so that its bits are a multiple of 256.
pub open spec fn bloom_block_bytes(block_rows: int, bits_per_value: int) -> int {
    ceil_div(block_rows * bits_per_value, 256) * 32
}

pub open spec fn bloom_error(rows: int, block_rows: int, bits_per_value: int) -> Option<Error> {
    if rows == 0 || block_rows == 0 || bits_per_value == 0 {
        Some(Error::BloomArguments)
    } else if bloom_block_bytes(block_rows, bits_per_value) * 8 > usize::MAX || ceil_div(
        rows,
        block_rows,
    ) * bloom_block_bytes(block_rows, bits_per_value) > usize::MAX {
        Some(Error::BloomTooLarge)
    } else {
        None
    }
}

/// The filter is the one of these values.
pub open spec fn is_bloom(
    bloom: Bloom,
    values: Seq<Option<i64>>,
    block_rows: int,
    bits_per_value: int,
) -> bool {
    &&& bloom.block_rows == block_rows
    &&& bloom.block_bytes == bloom_block_bytes(block_rows, bits_per_value)
    &&& bloom.hashes == hash_count(bits_per_value)
    &&& bloom.blocks == ceil_div(values.len() as int, block_rows)
    &&& bloom.bits.len() == bloom.blocks * bloom.block_bytes
    &&& forall|p: int|
        0 <= p < 8 * bloom.bits.len() ==> #[trigger] bit_at(bloom.bits, p) == rows_set(
            values,
            values.len() as int,
            block_rows,
            bloom.hashes,
            8 * bloom.block_bytes,
            p,
        )
}

/// Every bit that the value needs is set in a block.
pub open spec fn may_hold(bloom: Bloom, block: int, value: i64) -> bool {
    forall|hash: u8|
        hash < bloom.hashes ==> bit_at(
            bloom.bits,
            block * (8 * bloom.block_bytes) + #[trigger] bloom_place(
                value,
                hash,
                8 * bloom.block_bytes,
            ),
        )
}

pub open spec fn bloom_pick(bloom: Bloom, value: i64) -> spec_fn(int) -> bool {
    |block: int| may_hold(bloom, block, value)
}

pub open spec fn bloom_pick_in(bloom: Bloom, values: Seq<i64>) -> spec_fn(int) -> bool {
    |block: int|
        exists|i: int| 0 <= i < values.len() && #[trigger] may_hold(bloom, block, values[i])
}

/// One filter for each block of rows.
#[derive(Clone, Debug)]
pub struct BlockBloom {
    block_rows: usize,
    bytes_per_block: usize,
    hashes: u8,
    bits: Vec<u8>,
    blocks: usize,
}

impl View for BlockBloom {
    type V = Bloom;

    closed spec fn view(&self) -> Bloom {
        Bloom {
            block_rows: self.block_rows as int,
            block_bytes: self.bytes_per_block as int,
            hashes: self.hashes as int,
            blocks: self.blocks as int,
            bits: self.bits@,
        }
    }
}

impl BlockBloom {
    pub closed spec fn wf(self) -> bool {
        &&& self.bytes_per_block > 0
        &&& self.bytes_per_block * 8 <= usize::MAX
        &&& self.block_rows > 0
        &&& 1 <= self.hashes <= 16
        &&& self.bits@.len() == self.blocks * self.bytes_per_block
    }

    pub fn build(values: &[Option<i64>], block_rows: usize, bits_per_value: usize) -> (r: Result<
        Self,
        Error,
    >)
        ensures
            match bloom_error(values@.len() as int, block_rows as int, bits_per_value as int) {
                None => r matches Ok(bloom) && bloom.wf() && is_bloom(
                    bloom@,
                    values@,
                    block_rows as int,
                    bits_per_value as int,
                ),
                Some(e) => r matches Err(found) && found == e,
            },
    {
        let rows: usize = values.len();
        if rows == 0 || block_rows == 0 || bits_per_value == 0 {
            return Err(Error::BloomArguments);
        }
        let ghost wanted = block_rows * bits_per_value;
        assert(wanted > 0) by (nonlinear_arith)
            requires
                wanted == block_rows * bits_per_value,
                block_rows > 0,
                bits_per_value > 0,
        ;
        proof {
            lemma_ceil(wanted, 256);
            lemma_ceil_floor(wanted, 256);
            lemma_ceil_floor(rows as int, block_rows as int);
        }
        let block_bits: usize = match block_rows.checked_mul(bits_per_value) {
            Some(bits) => if (bits - 1) / 256 >= usize::MAX / 256 {
                return Err(Error::BloomTooLarge);
            } else {
                ((bits - 1) / 256 + 1) * 256
            },
            None => {
                return Err(Error::BloomTooLarge);
            },
        };
        let bytes_per_block: usize = block_bits / 8;
        let blocks: usize = (rows - 1) / block_rows + 1;
        let length: usize = match blocks.checked_mul(bytes_per_block) {
            Some(length) => length,
            None => {
                return Err(Error::BloomTooLarge);
            },
        };
        let hashes: u8 = if bits_per_value > 22 {
            16
        } else {
            ((bits_per_value as u32 * 69315 + 50000) / 100000) as u8
        };
        let bits: Vec<u8> = vec![0u8;length];
        let mut output = Self { block_rows, bytes_per_block, hashes, bits, blocks };
        let ghost count = 8 * bytes_per_block;
        proof {
            assert forall|p: int| 0 <= p < 8 * length implies !(#[trigger] bit_at(output.bits@, p)) by {
                assert(output.bits@[p / 8] == 0);
                vstd::arithmetic::power2::lemma_pow2_pos((p % 8) as nat);
                vstd::arithmetic::div_mod::lemma_div_of0(
                    vstd::arithmetic::power2::pow2((p % 8) as nat) as int,
                );
            }
        }
        let mut row: usize = 0;
        while row < rows
            invariant
                rows == values@.len(),
                row <= rows,
                output.wf(),
                output.block_rows == block_rows,
                output.bytes_per_block == bytes_per_block,
                output.hashes == hashes,
                output.blocks == blocks,
                blocks == (rows - 1) as int / block_rows as int + 1,
                count == 8 * bytes_per_block,
                output.bits@.len() == length,
                forall|p: int|
                    0 <= p < 8 * length ==> #[trigger] bit_at(output.bits@, p) == rows_set(
                        values@,
                        row as int,
                        block_rows as int,
                        hashes as int,
                        count,
                        p,
                    ),
            decreases rows - row,
        {
            let ghost before = output.bits@;
            let block: usize = row / block_rows;
            proof {
                vstd::arithmetic::div_mod::lemma_div_is_ordered(
                    row as int,
                    rows - 1,
                    block_rows as int,
                );
            }
            if let Some(value) = values[row] {
                output.insert(block, value);
            }
            assert forall|p: int| 0 <= p < 8 * length implies #[trigger] bit_at(output.bits@, p)
                == rows_set(
                values@,
                row + 1,
                block_rows as int,
                hashes as int,
                count,
                p,
            ) by {
                assert(bit_at(before, p) == rows_set(
                    values@,
                    row as int,
                    block_rows as int,
                    hashes as int,
                    count,
                    p,
                ));
                let ours = row_sets(
                    values@,
                    row as int,
                    block_rows as int,
                    hashes as int,
                    count,
                    p,
                );
                assert(bit_at(output.bits@, p) == (bit_at(before, p) || ours));
                if bit_at(before, p) {
                    let r = choose|r: int|
                        0 <= r < row && #[trigger] row_sets(
                            values@,
                            r,
                            block_rows as int,
                            hashes as int,
                            count,
                            p,
                        );
                    assert(0 <= r < row + 1);
                }
            }
            row = row + 1;
        }
        Ok(output)
    }

    /// The blocks that may hold a value.
    pub fn probe_eq(&self, value: i64) -> (r: CandidatePlan)
        requires
            self.wf(),
        ensures
            is_plan(
                r,
                chosen(bloom_pick(self@, value), self@.blocks),
                self@.block_rows,
                self@.bits.len() as int,
            ),
    {
        let mut blocks: Vec<usize> = Vec::new();
        let ghost pick = bloom_pick(self@, value);
        let mut block: usize = 0;
        while block < self.blocks
            invariant
                self.wf(),
                block <= self.blocks,
                pick == bloom_pick(self@, value),
                blocks@ == chosen(pick, block as int),
            decreases self.blocks - block,
        {
            assert(pick(block as int) == may_hold(self@, block as int, value));
            if self.may_contain(block, value) {
                blocks.push(block);
            }
            block = block + 1;
        }
        CandidatePlan {
            blocks,
            block_rows: self.block_rows,
            metadata_bytes: self.bits.len(),
            guarantee: OutputGuarantee::CandidateBitmap,
        }
    }

    /// The blocks that may hold one of the values.
    pub fn probe_in(&self, values: &[i64]) -> (r: CandidatePlan)
        requires
            self.wf(),
        ensures
            is_plan(
                r,
                chosen(bloom_pick_in(self@, values@), self@.blocks),
                self@.block_rows,
                self@.bits.len() as int,
            ),
    {
        let mut blocks: Vec<usize> = Vec::new();
        let ghost pick = bloom_pick_in(self@, values@);
        let mut block: usize = 0;
        while block < self.blocks
            invariant
                self.wf(),
                block <= self.blocks,
                pick == bloom_pick_in(self@, values@),
                blocks@ == chosen(pick, block as int),
            decreases self.blocks - block,
        {
            let mut any = false;
            let mut i: usize = 0;
            while i < values.len() && !any
                invariant
                    self.wf(),
                    block < self.blocks,
                    i <= values@.len(),
                    any == exists|k: int|
                        0 <= k < i && #[trigger] may_hold(self@, block as int, values@[k]),
                decreases values@.len() - i,
            {
                any = self.may_contain(block, values[i]);
                i = i + 1;
            }
            assert(pick(block as int) == exists|k: int|
                0 <= k < values@.len() && #[trigger] may_hold(self@, block as int, values@[k]));
            if any {
                blocks.push(block);
            }
            block = block + 1;
        }
        CandidatePlan {
            blocks,
            block_rows: self.block_rows,
            metadata_bytes: self.bits.len(),
            guarantee: OutputGuarantee::CandidateBitmap,
        }
    }

    pub fn bytes(&self) -> (r: usize)
        ensures
            r == self@.bits.len(),
    {
        self.bits.len()
    }

    /// Sets the bits of a value in a block.
    fn insert(&mut self, block: usize, value: i64)
        requires
            old(self).wf(),
            block < old(self).blocks,
        ensures
            final(self).wf(),
            final(self).block_rows == old(self).block_rows,
            final(self).bytes_per_block == old(self).bytes_per_block,
            final(self).hashes == old(self).hashes,
            final(self).blocks == old(self).blocks,
            final(self).bits@.len() == old(self).bits@.len(),
            forall|p: int|
                0 <= p < 8 * old(self).bits@.len() ==> #[trigger] bit_at(final(self).bits@, p) == (
                bit_at(old(self).bits@, p) || (block == p / (8 * old(self).bytes_per_block)
                    && falls_on(
                    value,
                    old(self).hashes as int,
                    8 * old(self).bytes_per_block,
                    p % (8 * old(self).bytes_per_block),
                ))),
    {
        let bit_count: usize = self.bytes_per_block * 8;
        let (first, second) = bloom_hashes(value);
        let mut hash: u8 = 0;
        while hash < self.hashes
            invariant
                self.wf(),
                block < self.blocks,
                first == first_hash(value),
                second == second_hash(value),
                bit_count == self.bytes_per_block * 8,
                hash <= self.hashes,
                self.block_rows == old(self).block_rows,
                self.bytes_per_block == old(self).bytes_per_block,
                self.hashes == old(self).hashes,
                self.blocks == old(self).blocks,
                self.bits@.len() == old(self).bits@.len(),
                forall|p: int|
                    0 <= p < 8 * self.bits@.len() ==> #[trigger] bit_at(self.bits@, p) == (bit_at(
                        old(self).bits@,
                        p,
                    ) || (block == p / bit_count as int && falls_on(
                        value,
                        hash as int,
                        bit_count as int,
                        p % bit_count as int,
                    ))),
            decreases self.hashes - hash,
        {
            let bit: usize = first.wrapping_add((hash as u64).wrapping_mul(second | 1)) as usize
                % bit_count;
            proof {
                lemma_block_fits(
                    block as int,
                    self.blocks as int,
                    self.bytes_per_block as int,
                    bit as int,
                );
            }
            let length: usize = self.bits.len();
            assert(length == self.blocks * self.bytes_per_block);
            let at: usize = block * self.bytes_per_block + bit / 8;
            let ghost before = self.bits@;
            let byte: u8 = self.bits[at];
            let k: u8 = (bit % 8) as u8;
            self.bits.set(at, byte | (1u8 << k));
            let ghost given = *old(self);
            assert forall|p: int| 0 <= p < 8 * self.bits@.len() implies #[trigger] bit_at(
                self.bits@,
                p,
            ) == (bit_at(given.bits@, p) || (block == p / bit_count as int && falls_on(
                value,
                hash + 1,
                bit_count as int,
                p % bit_count as int,
            ))) by {
                lemma_set_bit(before, at as int, k, p);
                lemma_falls(value, hash, bit_count as int, block as int, p);
                assert(block * bit_count == 8 * (block * self.bytes_per_block)) by (nonlinear_arith)
                    requires
                        bit_count == self.bytes_per_block * 8,
                ;
                assert((p == 8 * at + k) == (p == block * bit_count + bit));
                assert(bit_at(before, p) == (bit_at(given.bits@, p) || (block == p
                    / bit_count as int && falls_on(
                    value,
                    hash as int,
                    bit_count as int,
                    p % bit_count as int,
                ))));
            }
            hash = hash + 1;
        }
    }

    /// Whether every bit of a value is set in a block.
    fn may_contain(&self, block: usize, value: i64) -> (r: bool)
        requires
            self.wf(),
            block < self.blocks,
        ensures
            r == may_hold(self@, block as int, value),
    {
        let bit_count: usize = self.bytes_per_block * 8;
        let (first, second) = bloom_hashes(value);
        let mut hash: u8 = 0;
        while hash < self.hashes
            invariant
                self.wf(),
                block < self.blocks,
                first == first_hash(value),
                second == second_hash(value),
                bit_count == self.bytes_per_block * 8,
                hash <= self.hashes,
                forall|h: u8|
                    h < hash ==> bit_at(
                        self.bits@,
                        block * bit_count + #[trigger] bloom_place(value, h, bit_count as int),
                    ),
            decreases self.hashes - hash,
        {
            let bit: usize = first.wrapping_add((hash as u64).wrapping_mul(second | 1)) as usize
                % bit_count;
            proof {
                lemma_block_fits(
                    block as int,
                    self.blocks as int,
                    self.bytes_per_block as int,
                    bit as int,
                );
            }
            let length: usize = self.bits.len();
            assert(length == self.blocks * self.bytes_per_block);
            let at: usize = block * self.bytes_per_block + bit / 8;
            let ghost place = block * bit_count + bloom_place(value, hash, bit_count as int);
            proof {
                assert(block * bit_count == 8 * (block * self.bytes_per_block)) by (nonlinear_arith)
                    requires
                        bit_count == self.bytes_per_block * 8,
                ;
                assert(place / 8 == at && place % 8 == bit % 8);
            }
            if !test_bit(self.bits[at], (bit % 8) as u8) {
                proof {
                    let count = 8 * self@.block_bytes;
                    assert(count == bit_count);
                    assert(!bit_at(self@.bits, block * count + bloom_place(value, hash, count)));
                }
                return false;
            }
            hash = hash + 1;
        }
        true
    }
}

proof fn lemma_block_fits(block: int, blocks: int, bytes: int, bit: int)
    requires
        0 <= block < blocks,
        0 <= bit < 8 * bytes,
    ensures
        0 <= block * bytes,
        block * bytes + bit / 8 < blocks * bytes,
{
    lemma_scale(block + 1, blocks, bytes);
    lemma_scale_next(block, bytes);
    lemma_scale(0, block, bytes);
}

/// One more hash falls on one more bit of the block.
proof fn lemma_falls(value: i64, hash: u8, bit_count: int, block: int, p: int)
    requires
        bit_count > 0,
        block >= 0,
        p >= 0,
    ensures
        (block == p / bit_count && falls_on(value, hash + 1, bit_count, p % bit_count)) == ((block
            == p / bit_count && falls_on(value, hash as int, bit_count, p % bit_count)) || p
            == block * bit_count + bloom_place(value, hash, bit_count)),
{
    let place = bloom_place(value, hash, bit_count);
    vstd::arithmetic::div_mod::lemma_fundamental_div_mod(p, bit_count);
    vstd::arithmetic::div_mod::lemma_mod_bound(p, bit_count);
    vstd::arithmetic::mul::lemma_mul_is_commutative(block, bit_count);
    if p == block * bit_count + place {
        lemma_quotient(p, block, bit_count);
        assert(p % bit_count == place);
        assert(falls_on(value, hash + 1, bit_count, p % bit_count));
    }
    if falls_on(value, hash + 1, bit_count, p % bit_count) {
        let h = choose|h: u8|
            h < hash + 1 && #[trigger] bloom_place(value, h, bit_count) == p % bit_count;
        if h != hash {
            assert(h < hash);
        }
    }
    if falls_on(value, hash as int, bit_count, p % bit_count) {
        let h = choose|h: u8|
            h < hash && #[trigger] bloom_place(value, h, bit_count) == p % bit_count;
        assert(h < hash + 1);
    }
}

proof fn lemma_set_bit(bytes: Seq<u8>, at: int, k: u8, p: int)
    requires
        0 <= at < bytes.len(),
        k < 8,
        0 <= p < 8 * bytes.len(),
    ensures
        bit_at(bytes.update(at, bytes[at] | (1u8 << k)), p) == (p == 8 * at + k || bit_at(
            bytes,
            p,
        )),
{
    if p / 8 == at {
        let byte = bytes[at];
        let j = (p % 8) as u8;
        let set = byte | (1u8 << k);
        assert(((set >> j) % 2 == 1) == (j == k || (byte >> j) % 2 == 1)) by (bit_vector)
            requires
                set == byte | (1u8 << k),
                k < 8,
                j < 8,
        ;
        vstd::bits::lemma_u8_shr_is_div(set, j);
        vstd::bits::lemma_u8_shr_is_div(byte, j);
    }
}

fn splitmix64(value: u64) -> (r: u64)
    ensures
        r == mixed(value),
{
    let a: u64 = value.wrapping_add(0x9e37_79b9_7f4a_7c15);
    let b: u64 = (a ^ (a >> 30)).wrapping_mul(0xbf58_476d_1ce4_e5b9);
    let c: u64 = (b ^ (b >> 27)).wrapping_mul(0x94d0_49bb_1331_11eb);
    c ^ (c >> 31)
}

fn bloom_hashes(value: i64) -> (r: (u64, u64))
    ensures
        r.0 == first_hash(value),
        r.1 == second_hash(value),
{
    let first: u64 = splitmix64(#[verifier::truncate] (value as u64) ^ 0x9e37_79b9_7f4a_7c15);
    (first, splitmix64(first ^ 0xd6e8_feb8_6659_fd93))
}

/// A filter names the block of every row that holds the value.
pub proof fn law_bloom_keeps(
    bloom: Bloom,
    values: Seq<Option<i64>>,
    block_rows: int,
    bits_per_value: int,
    row: int,
)
    requires
        block_rows > 0,
        bits_per_value > 0,
        is_bloom(bloom, values, block_rows, bits_per_value),
        bloom.blocks <= usize::MAX,
        0 <= row < values.len(),
        values[row] is Some,
    ensures
        chosen(bloom_pick(bloom, values[row]->0), bloom.blocks).contains(
            (row / block_rows) as usize,
        ),
{
    let value = values[row]->0;
    let block = row / block_rows;
    let count = 8 * bloom.block_bytes;
    let pick = bloom_pick(bloom, value);
    lemma_floor(row, block_rows);
    lemma_ceil_floor(values.len() as int, block_rows);
    vstd::arithmetic::div_mod::lemma_div_is_ordered(row, values.len() - 1, block_rows);
    assert(block_rows * bits_per_value > 0) by (nonlinear_arith)
        requires
            block_rows > 0,
            bits_per_value > 0,
    ;
    lemma_ceil(block_rows * bits_per_value, 256);
    assert(count > 0);
    assert forall|hash: u8| hash < bloom.hashes implies bit_at(
        bloom.bits,
        block * count + #[trigger] bloom_place(value, hash, count),
    ) by {
        let place = bloom_place(value, hash, count);
        let p = block * count + place;
        lemma_quotient(p, block, count);
        vstd::arithmetic::div_mod::lemma_fundamental_div_mod(p, count);
        vstd::arithmetic::mul::lemma_mul_is_commutative(block, count);
        assert(p % count == place);
        assert(falls_on(value, bloom.hashes, count, p % count));
        assert(row_sets(values, row, block_rows, bloom.hashes, count, p));
        lemma_scale(block + 1, bloom.blocks, count);
        lemma_scale_next(block, count);
        lemma_scale(0, block, count);
        assert(bloom.blocks * count == 8 * bloom.bits.len()) by (nonlinear_arith)
            requires
                count == 8 * bloom.block_bytes,
                bloom.bits.len() == bloom.blocks * bloom.block_bytes,
        ;
        assert(0 <= p < 8 * bloom.bits.len());
        assert(rows_set(
            values,
            values.len() as int,
            block_rows,
            bloom.hashes,
            8 * bloom.block_bytes,
            p,
        ));
    }
    assert(may_hold(bloom, block, value));
    assert(pick(block));
    law_chosen(pick, bloom.blocks);
}

/// The least and the greatest of the values in rows `from..to`.
pub open spec fn bounds_of(values: Seq<Option<i64>>, from: int, to: int) -> Option<(i64, i64)>
    decreases to - from,
{
    if to <= from {
        None
    } else {
        match (bounds_of(values, from, to - 1), values[to - 1]) {
            (before, None) => before,
            (None, Some(value)) => Some((value, value)),
            (Some((low, high)), Some(value)) => Some(
                (
                    if value < low {
                        value
                    } else {
                        low
                    },
                    if high < value {
                        value
                    } else {
                        high
                    },
                ),
            ),
        }
    }
}

/// The row after block `block`.
pub open spec fn block_end(block: int, block_rows: int, rows: int) -> int {
    if (block + 1) * block_rows < rows {
        (block + 1) * block_rows
    } else {
        rows
    }
}

/// The bounds of each block of rows.
pub open spec fn all_bounds(values: Seq<Option<i64>>, block_rows: int) -> Seq<Option<(i64, i64)>> {
    Seq::new(
        ceil_div(values.len() as int, block_rows) as nat,
        |block: int|
            bounds_of(
                values,
                block * block_rows,
                block_end(block, block_rows, values.len() as int),
            ),
    )
}

pub open spec fn within(bounds: Option<(i64, i64)>, value: i64) -> bool {
    bounds matches Some((low, high)) && low <= value <= high
}

pub open spec fn min_max_pick(bounds: Seq<Option<(i64, i64)>>, value: i64) -> spec_fn(int) -> bool {
    |block: int| within(bounds[block], value)
}

pub open spec fn min_max_pick_in(
    bounds: Seq<Option<(i64, i64)>>,
    values: Seq<i64>,
) -> spec_fn(int) -> bool {
    |block: int|
        exists|i: int| 0 <= i < values.len() && #[trigger] within(bounds[block], values[i])
}

pub open spec fn min_max_error(rows: int, block_rows: int) -> Option<Error> {
    if rows == 0 || block_rows == 0 {
        Some(Error::MinMaxArguments)
    } else if ceil_div(rows, block_rows) * 16 > usize::MAX {
        Some(Error::MinMaxTooLarge)
    } else {
        None
    }
}

/// The least and the greatest value of each block of rows.
#[derive(Clone, Debug)]
pub struct BlockMinMax {
    block_rows: usize,
    bounds: Vec<Option<(i64, i64)>>,
}

impl BlockMinMax {
    pub closed spec fn rows_per_block(self) -> int {
        self.block_rows as int
    }

    pub closed spec fn bounds(self) -> Seq<Option<(i64, i64)>> {
        self.bounds@
    }

    pub closed spec fn wf(self) -> bool {
        self.bounds@.len() * 16 <= usize::MAX
    }

    pub fn build(values: &[Option<i64>], block_rows: usize) -> (r: Result<Self, Error>)
        ensures
            match min_max_error(values@.len() as int, block_rows as int) {
                None => r matches Ok(built) && built.wf() && built.rows_per_block() == block_rows
                    && built.bounds() == all_bounds(values@, block_rows as int),
                Some(e) => r matches Err(found) && found == e,
            },
    {
        let rows: usize = values.len();
        if rows == 0 || block_rows == 0 {
            return Err(Error::MinMaxArguments);
        }
        proof {
            lemma_ceil_floor(rows as int, block_rows as int);
            lemma_floor(rows - 1, block_rows as int);
        }
        let last: usize = (rows - 1) / block_rows;
        if last >= usize::MAX / 16 {
            return Err(Error::MinMaxTooLarge);
        }
        let mut bounds: Vec<Option<(i64, i64)>> = Vec::new();
        let mut block: usize = 0;
        while block <= last
            invariant
                rows == values@.len(),
                rows > 0,
                block_rows > 0,
                last == (rows - 1) as int / block_rows as int,
                last < usize::MAX / 16,
                last * block_rows <= rows - 1 < last * block_rows + block_rows,
                block <= last + 1,
                bounds@.len() == block,
                forall|k: int|
                    0 <= k < block ==> #[trigger] bounds@[k] == bounds_of(
                        values@,
                        k * block_rows,
                        block_end(k, block_rows as int, rows as int),
                    ),
            decreases last + 1 - block,
        {
            proof {
                lemma_scale(block as int, last as int, block_rows as int);
                lemma_scale_next(block as int, block_rows as int);
                lemma_scale(0, block as int, block_rows as int);
                if block < last {
                    lemma_scale(block + 1, last as int, block_rows as int);
                }
            }
            let start: usize = block * block_rows;
            let end: usize = if block_rows < rows - start {
                start + block_rows
            } else {
                rows
            };
            let found = block_bounds(values, start, end);
            bounds.push(found);
            block = block + 1;
        }
        assert(bounds@ =~= all_bounds(values@, block_rows as int));
        Ok(Self { block_rows, bounds })
    }

    /// The blocks whose bounds hold a value.
    pub fn probe_eq(&self, value: i64) -> (r: CandidatePlan)
        requires
            self.wf(),
        ensures
            is_plan(
                r,
                chosen(min_max_pick(self.bounds(), value), self.bounds().len() as int),
                self.rows_per_block(),
                16 * (self.bounds().len() as int),
            ),
    {
        let mut blocks: Vec<usize> = Vec::new();
        let ghost pick = min_max_pick(self.bounds@, value);
        let count: usize = self.bounds.len();
        let mut block: usize = 0;
        while block < count
            invariant
                count == self.bounds@.len(),
                block <= count,
                pick == min_max_pick(self.bounds@, value),
                blocks@ == chosen(pick, block as int),
            decreases count - block,
        {
            assert(pick(block as int) == within(self.bounds@[block as int], value));
            let inside = match self.bounds[block] {
                Some((low, high)) => low <= value && value <= high,
                None => false,
            };
            if inside {
                blocks.push(block);
            }
            block = block + 1;
        }
        CandidatePlan {
            blocks,
            block_rows: self.block_rows,
            metadata_bytes: count * 16,
            guarantee: OutputGuarantee::CandidateBitmap,
        }
    }

    /// The blocks whose bounds hold one of the values.
    pub fn probe_in(&self, values: &[i64]) -> (r: CandidatePlan)
        requires
            self.wf(),
        ensures
            is_plan(
                r,
                chosen(min_max_pick_in(self.bounds(), values@), self.bounds().len() as int),
                self.rows_per_block(),
                16 * (self.bounds().len() as int),
            ),
    {
        let mut blocks: Vec<usize> = Vec::new();
        let ghost pick = min_max_pick_in(self.bounds@, values@);
        let count: usize = self.bounds.len();
        let mut block: usize = 0;
        while block < count
            invariant
                count == self.bounds@.len(),
                block <= count,
                pick == min_max_pick_in(self.bounds@, values@),
                blocks@ == chosen(pick, block as int),
            decreases count - block,
        {
            let mut any = false;
            if let Some((low, high)) = self.bounds[block] {
                let mut i: usize = 0;
                while i < values.len() && !any
                    invariant
                        block < self.bounds@.len(),
                        self.bounds@[block as int] == Some((low, high)),
                        i <= values@.len(),
                        any == exists|k: int|
                            0 <= k < i && #[trigger] within(
                                self.bounds@[block as int],
                                values@[k],
                            ),
                    decreases values@.len() - i,
                {
                    let value: i64 = values[i];
                    any = low <= value && value <= high;
                    assert(any == within(self.bounds@[block as int], values@[i as int]));
                    i = i + 1;
                }
            }
            assert(pick(block as int) == exists|k: int|
                0 <= k < values@.len() && #[trigger] within(
                    self.bounds@[block as int],
                    values@[k],
                ));
            if any {
                blocks.push(block);
            }
            block = block + 1;
        }
        CandidatePlan {
            blocks,
            block_rows: self.block_rows,
            metadata_bytes: count * 16,
            guarantee: OutputGuarantee::CandidateBitmap,
        }
    }

    pub fn bytes(&self) -> (r: usize)
        requires
            self.wf(),
        ensures
            r == self.bounds().len() * 16,
    {
        self.bounds.len() * 16
    }
}

/// The least and the greatest of the values in a range of rows.
fn block_bounds(values: &[Option<i64>], start: usize, end: usize) -> (r: Option<(i64, i64)>)
    requires
        start <= end <= values@.len(),
    ensures
        r == bounds_of(values@, start as int, end as int),
{
    let mut found: Option<(i64, i64)> = None;
    let mut row: usize = start;
    while row < end
        invariant
            start <= row <= end <= values@.len(),
            found == bounds_of(values@, start as int, row as int),
        decreases end - row,
    {
        if let Some(value) = values[row] {
            found = match found {
                None => Some((value, value)),
                Some((low, high)) => {
                    let least: i64 = if value < low {
                        value
                    } else {
                        low
                    };
                    let greatest: i64 = if high < value {
                        value
                    } else {
                        high
                    };
                    Some((least, greatest))
                },
            };
        }
        row = row + 1;
    }
    found
}

pub proof fn lemma_bounds(values: Seq<Option<i64>>, from: int, to: int, row: int)
    requires
        0 <= from <= row < to <= values.len(),
        values[row] is Some,
    ensures
        within(bounds_of(values, from, to), values[row]->0),
    decreases to - from,
{
    if row < to - 1 {
        lemma_bounds(values, from, to - 1, row);
    }
}

/// The bounds name the block of every row that holds the value.
pub proof fn law_min_max_keeps(values: Seq<Option<i64>>, block_rows: int, row: int)
    requires
        block_rows > 0,
        0 <= row < values.len(),
        values[row] is Some,
        values.len() <= usize::MAX,
    ensures
        chosen(
            min_max_pick(all_bounds(values, block_rows), values[row]->0),
            all_bounds(values, block_rows).len() as int,
        ).contains((row / block_rows) as usize),
{
    let bounds = all_bounds(values, block_rows);
    let block = row / block_rows;
    let pick = min_max_pick(bounds, values[row]->0);
    lemma_floor(row, block_rows);
    lemma_scale_next(block, block_rows);
    lemma_ceil_floor(values.len() as int, block_rows);
    vstd::arithmetic::div_mod::lemma_div_is_ordered(row, values.len() - 1, block_rows);
    vstd::arithmetic::div_mod::lemma_div_nonincreasing(values.len() - 1, block_rows);
    lemma_bounds(
        values,
        block * block_rows,
        block_end(block, block_rows, values.len() as int),
        row,
    );
    assert(pick(block));
    law_chosen(pick, bounds.len() as int);
}

/// The number of keys among the first `n` that are less than a value.
pub open spec fn less_than(keys: Seq<i64>, value: i64, n: int) -> int
    decreases n,
{
    if n <= 0 {
        0
    } else {
        less_than(keys, value, n - 1) + if keys[n - 1] < value {
            1int
        } else {
            0
        }
    }
}

/// The number of keys among the first `n` that are at most a value.
pub open spec fn at_most(keys: Seq<i64>, value: i64, n: int) -> int
    decreases n,
{
    if n <= 0 {
        0
    } else {
        at_most(keys, value, n - 1) + if keys[n - 1] <= value {
            1int
        } else {
            0
        }
    }
}

/// Every row has a value.
pub open spec fn all_present(values: Seq<Option<i64>>) -> bool {
    forall|i: int| 0 <= i < values.len() ==> (#[trigger] values[i]) is Some
}

/// No value is less than one before it.
pub open spec fn non_decreasing(values: Seq<Option<i64>>) -> bool {
    forall|i: int, j: int|
        0 <= i <= j < values.len() ==> (#[trigger] values[i])->0 <= (#[trigger] values[j])->0
}

pub open spec fn fence_stride(rows: int, byte_budget: int) -> int {
    ceil_div(rows, byte_budget / 16)
}

pub open spec fn fence_keys(values: Seq<Option<i64>>, stride: int) -> Seq<i64> {
    Seq::new(ceil_div(values.len() as int, stride) as nat, |i: int| values[i * stride]->0)
}

pub open spec fn fence_error(values: Seq<Option<i64>>, byte_budget: int) -> Option<Error> {
    if values.len() == 0 || byte_budget < 16 || !all_present(values) {
        Some(Error::FenceArguments)
    } else if !non_decreasing(values) {
        Some(Error::FenceDecreases)
    } else {
        None
    }
}

/// The first block of a probe.
pub open spec fn fence_first(keys: Seq<i64>, value: i64) -> int {
    let lower = less_than(keys, value, keys.len() as int);
    if lower == 0 {
        0
    } else {
        lower - 1
    }
}

/// The block after the last of a probe.
pub open spec fn fence_last(keys: Seq<i64>, value: i64) -> int {
    at_most(keys, value, keys.len() as int)
}

pub open spec fn block_range(first: int, last: int) -> Seq<usize> {
    Seq::new(
        if first < last {
            (last - first) as nat
        } else {
            0
        },
        |i: int| (first + i) as usize,
    )
}

/// Every `stride`-th value of a sorted column, with its row.
#[derive(Clone, Debug)]
pub struct SparseFence {
    stride: usize,
    entries: Vec<(i64, usize)>,
    rows: usize,
}

impl SparseFence {
    pub closed spec fn rows_per_block(self) -> int {
        self.stride as int
    }

    pub closed spec fn keys(self) -> Seq<i64> {
        Seq::new(self.entries@.len(), |i: int| self.entries@[i].0)
    }

    pub closed spec fn wf(self) -> bool {
        &&& self.stride > 0
        &&& self.rows > 0
        &&& self.entries@.len() == ceil_div(self.rows as int, self.stride as int)
        &&& self.entries@.len() * 16 <= usize::MAX
        &&& forall|i: int|
            0 <= i < self.entries@.len() ==> (#[trigger] self.entries@[i]).1 == i * self.stride
        &&& forall|i: int, j: int|
            0 <= i <= j < self.entries@.len() ==> (#[trigger] self.entries@[i]).0 <= (
            #[trigger] self.entries@[j]).0
    }

    pub fn build_equal_budget(values: &[Option<i64>], byte_budget: usize) -> (r: Result<
        Self,
        Error,
    >)
        ensures
            match fence_error(values@, byte_budget as int) {
                None => r matches Ok(fence) && fence.wf() && fence.rows_per_block()
                    == fence_stride(values@.len() as int, byte_budget as int) && fence.keys()
                    == fence_keys(values@, fence.rows_per_block()),
                Some(e) => r matches Err(found) && found == e,
            },
    {
        let rows: usize = values.len();
        if rows == 0 || byte_budget < 16 {
            return Err(Error::FenceArguments);
        }
        let mut row: usize = 0;
        while row < rows
            invariant
                rows == values@.len(),
                rows > 0,
                byte_budget >= 16,
                row <= rows,
                forall|i: int| 0 <= i < row ==> (#[trigger] values@[i]) is Some,
            decreases rows - row,
        {
            if values[row].is_none() {
                assert(!all_present(values@));
                return Err(Error::FenceArguments);
            }
            row = row + 1;
        }
        if !rises(values) {
            return Err(Error::FenceDecreases);
        }
        let max_entries: usize = byte_budget / 16;
        let stride: usize = (rows - 1) / max_entries + 1;
        proof {
            lemma_ceil_floor(rows as int, max_entries as int);
            lemma_ceil_floor(rows as int, stride as int);
            lemma_fence_size(rows as int, max_entries as int);
        }
        let last: usize = (rows - 1) / stride;
        let mut entries: Vec<(i64, usize)> = Vec::new();
        let mut i: usize = 0;
        proof {
            lemma_floor(rows - 1, stride as int);
        }
        while i <= last
            invariant
                rows == values@.len(),
                rows > 0,
                stride > 0,
                last == (rows - 1) as int / stride as int,
                last * stride <= rows - 1,
                last < max_entries,
                max_entries * 16 <= usize::MAX,
                i <= last + 1,
                all_present(values@),
                entries@.len() == i,
                forall|k: int|
                    0 <= k < i ==> (#[trigger] entries@[k]).1 == k * stride && entries@[k].0
                        == values@[k * stride]->0,
            decreases last + 1 - i,
        {
            proof {
                lemma_scale(i as int, last as int, stride as int);
                lemma_scale(0, i as int, stride as int);
            }
            let at: usize = i * stride;
            assert(values@[at as int] is Some);
            if let Some(value) = values[at] {
                entries.push((value, at));
            }
            i = i + 1;
        }
        let fence = Self { stride, entries, rows };
        proof {
            assert(fence.keys() =~= fence_keys(values@, stride as int));
            assert forall|i: int, j: int| 0 <= i <= j < entries@.len() implies (
            #[trigger] entries@[i]).0 <= (#[trigger] entries@[j]).0 by {
                lemma_scale(0, i, stride as int);
                lemma_scale(i, j, stride as int);
                lemma_scale(j, last as int, stride as int);
                assert(values@[i * stride]->0 <= values@[j * stride]->0);
            }
        }
        Ok(fence)
    }

    /// The blocks that may hold a value.
    pub fn probe_eq(&self, value: i64) -> (r: CandidatePlan)
        requires
            self.wf(),
        ensures
            is_plan(
                r,
                block_range(fence_first(self.keys(), value), fence_last(self.keys(), value)),
                self.rows_per_block(),
                16 * (self.keys().len() as int),
            ),
    {
        let lower: usize = self.point(value, false);
        let upper: usize = self.point(value, true);
        proof {
            lemma_points(self.keys(), value, lower as int, upper as int);
            lemma_ceil_floor(self.rows as int, self.stride as int);
        }
        let start: usize = if lower == 0 {
            0
        } else {
            self.entries[lower - 1].1
        };
        let end: usize = if upper < self.entries.len() {
            self.entries[upper].1
        } else {
            self.rows
        };
        let first_block: usize = start / self.stride;
        let last_block: usize = if end == 0 {
            0
        } else {
            (end - 1) / self.stride + 1
        };
        proof {
            let stride = self.stride as int;
            if lower > 0 {
                vstd::arithmetic::div_mod::lemma_div_multiples_vanish(lower - 1, stride);
                vstd::arithmetic::mul::lemma_mul_is_commutative(lower - 1, stride);
            } else {
                vstd::arithmetic::div_mod::lemma_div_of0(stride);
            }
            if upper < self.entries@.len() && upper > 0 {
                lemma_scale_next(upper - 1, stride);
                lemma_scale(1, upper as int, stride);
                lemma_quotient(upper * stride - 1, upper - 1, stride);
            }
            assert(first_block == fence_first(self.keys(), value));
            if upper < self.entries@.len() {
                assert(end == upper * stride);
                if upper == 0 {
                    assert(upper * stride == 0) by (nonlinear_arith)
                        requires
                            upper == 0,
                    ;
                } else {
                    assert((end - 1) as int / stride == upper - 1);
                }
            } else {
                assert(end == self.rows);
            }
            assert(last_block == upper);
        }
        let mut blocks: Vec<usize> = Vec::new();
        let mut block: usize = first_block;
        while block < last_block
            invariant
                first_block <= block,
                first_block <= last_block ==> block <= last_block,
                blocks@.len() == block - first_block,
                forall|i: int| 0 <= i < blocks@.len() ==> #[trigger] blocks@[i] == first_block + i,
            decreases last_block - block,
        {
            blocks.push(block);
            block = block + 1;
        }
        assert(blocks@ =~= block_range(first_block as int, last_block as int));
        CandidatePlan {
            blocks,
            block_rows: self.stride,
            metadata_bytes: self.entries.len() * 16,
            guarantee: OutputGuarantee::CandidateBitmap,
        }
    }

    pub fn bytes(&self) -> (r: usize)
        requires
            self.wf(),
        ensures
            r == self.keys().len() * 16,
    {
        self.entries.len() * 16
    }

    /// The first entry whose key is not less than a value, or is greater.
    fn point(&self, value: i64, past: bool) -> (r: usize)
        requires
            self.wf(),
        ensures
            r <= self.entries@.len(),
            forall|i: int|
                0 <= i < r ==> (#[trigger] self.entries@[i]).0 < value || (past
                    && self.entries@[i].0 == value),
            forall|i: int|
                r <= i < self.entries@.len() ==> (#[trigger] self.entries@[i]).0 > value || (!past
                    && self.entries@[i].0 == value),
    {
        let mut low: usize = 0;
        let mut high: usize = self.entries.len();
        while low < high
            invariant
                self.wf(),
                low <= high <= self.entries@.len(),
                forall|i: int|
                    0 <= i < low ==> (#[trigger] self.entries@[i]).0 < value || (past
                        && self.entries@[i].0 == value),
                forall|i: int|
                    high <= i < self.entries@.len() ==> (#[trigger] self.entries@[i]).0 > value
                        || (!past && self.entries@[i].0 == value),
            decreases high - low,
        {
            let middle: usize = low + (high - low) / 2;
            let key: i64 = self.entries[middle].0;
            if key < value || (past && key == value) {
                low = middle + 1;
            } else {
                high = middle;
            }
        }
        low
    }
}

/// Whether no value is less than the one before it.
fn rises(values: &[Option<i64>]) -> (r: bool)
    requires
        all_present(values@),
    ensures
        r == non_decreasing(values@),
{
    let mut row: usize = 1;
    while row < values.len()
        invariant
            row >= 1,
            all_present(values@),
            values@.len() > 0 ==> row <= values@.len(),
            forall|i: int, j: int|
                0 <= i <= j < row && j < values@.len() ==> (#[trigger] values@[i])->0 <= (
                #[trigger] values@[j])->0,
        decreases values@.len() - row,
    {
        assert(values@[row as int] is Some && values@[row - 1] is Some);
        if let (Some(before), Some(value)) = (values[row - 1], values[row]) {
            if before > value {
                assert(!(values@[row - 1]->0 <= values@[row as int]->0));
                return false;
            }
        }
        row = row + 1;
    }
    true
}

proof fn lemma_fence_size(rows: int, max_entries: int)
    requires
        rows > 0,
        max_entries > 0,
    ensures
        (rows - 1) / ((rows - 1) / max_entries + 1) < max_entries,
{
    let stride = (rows - 1) / max_entries + 1;
    lemma_floor(rows - 1, max_entries);
    lemma_floor(rows - 1, stride);
    let last = (rows - 1) / stride;
    if last >= max_entries {
        lemma_scale(max_entries, last, stride);
        assert(max_entries * stride == (rows - 1) / max_entries * max_entries + max_entries)
            by (nonlinear_arith)
            requires
                stride == (rows - 1) / max_entries + 1,
        ;
    }
}

/// Sorted keys are cut at their counts.
proof fn lemma_points(keys: Seq<i64>, value: i64, lower: int, upper: int)
    requires
        0 <= lower <= keys.len(),
        0 <= upper <= keys.len(),
        forall|i: int| 0 <= i < lower ==> (#[trigger] keys[i]) < value,
        forall|i: int| lower <= i < keys.len() ==> (#[trigger] keys[i]) >= value,
        forall|i: int| 0 <= i < upper ==> (#[trigger] keys[i]) <= value,
        forall|i: int| upper <= i < keys.len() ==> (#[trigger] keys[i]) > value,
    ensures
        less_than(keys, value, keys.len() as int) == lower,
        at_most(keys, value, keys.len() as int) == upper,
{
    lemma_counts(keys, value, lower, upper, keys.len() as int);
}

proof fn lemma_counts(keys: Seq<i64>, value: i64, lower: int, upper: int, n: int)
    requires
        0 <= n <= keys.len(),
        0 <= lower <= keys.len(),
        0 <= upper <= keys.len(),
        forall|i: int| 0 <= i < lower ==> (#[trigger] keys[i]) < value,
        forall|i: int| lower <= i < keys.len() ==> (#[trigger] keys[i]) >= value,
        forall|i: int| 0 <= i < upper ==> (#[trigger] keys[i]) <= value,
        forall|i: int| upper <= i < keys.len() ==> (#[trigger] keys[i]) > value,
    ensures
        less_than(keys, value, n) == if n < lower {
            n
        } else {
            lower
        },
        at_most(keys, value, n) == if n < upper {
            n
        } else {
            upper
        },
    decreases n,
{
    if n > 0 {
        lemma_counts(keys, value, lower, upper, n - 1);
    }
}

/// With sorted keys the counts cut the keys in two.
pub proof fn lemma_cut(keys: Seq<i64>, value: i64, n: int)
    requires
        0 <= n <= keys.len(),
        forall|i: int, j: int|
            0 <= i <= j < keys.len() ==> (#[trigger] keys[i]) <= (#[trigger] keys[j]),
    ensures
        0 <= less_than(keys, value, n) <= n,
        forall|i: int| 0 <= i < less_than(keys, value, n) ==> (#[trigger] keys[i]) < value,
        forall|i: int| less_than(keys, value, n) <= i < n ==> (#[trigger] keys[i]) >= value,
        0 <= at_most(keys, value, n) <= n,
        forall|i: int| 0 <= i < at_most(keys, value, n) ==> (#[trigger] keys[i]) <= value,
        forall|i: int| at_most(keys, value, n) <= i < n ==> (#[trigger] keys[i]) > value,
    decreases n,
{
    if n > 0 {
        lemma_cut(keys, value, n - 1);
    }
}

/// A fence names the block of every row that holds the value.
pub proof fn law_fence_keeps(values: Seq<Option<i64>>, stride: int, row: int)
    requires
        stride > 0,
        all_present(values),
        non_decreasing(values),
        0 <= row < values.len(),
        values.len() <= usize::MAX,
    ensures
        block_range(
            fence_first(fence_keys(values, stride), values[row]->0),
            fence_last(fence_keys(values, stride), values[row]->0),
        ).contains((row / stride) as usize),
{
    let keys = fence_keys(values, stride);
    let value = values[row]->0;
    let q = row / stride;
    let n = keys.len() as int;
    lemma_floor(row, stride);
    lemma_scale_next(q, stride);
    lemma_ceil_floor(values.len() as int, stride);
    lemma_floor(values.len() - 1, stride);
    vstd::arithmetic::div_mod::lemma_div_is_ordered(row, values.len() - 1, stride);
    vstd::arithmetic::div_mod::lemma_div_nonincreasing(values.len() - 1, stride);
    assert forall|i: int, j: int| 0 <= i <= j < n implies (#[trigger] keys[i]) <= (
    #[trigger] keys[j]) by {
        lemma_scale(0, i, stride);
        lemma_scale(i, j, stride);
        lemma_scale(j, n - 1, stride);
        assert(values[i * stride]->0 <= values[j * stride]->0);
    }
    lemma_cut(keys, value, n);
    lemma_scale(0, q, stride);
    assert(keys[q] == values[q * stride]->0);
    if fence_first(keys, value) > q {
        assert(keys[q + 1] < value);
        lemma_scale(q + 1, n - 1, stride);
        assert(values[row]->0 <= values[(q + 1) * stride]->0);
    }
    let first = fence_first(keys, value);
    let range = block_range(first, fence_last(keys, value));
    assert(range[q - first] == q as usize);
}

/// One of the blocks of a list, by halving.
fn among(blocks: &Vec<usize>, block: usize) -> (r: bool)
    requires
        forall|i: int, j: int|
            0 <= i <= j < blocks@.len() ==> (#[trigger] blocks@[i]) <= (#[trigger] blocks@[j]),
    ensures
        r == blocks@.contains(block),
{
    let mut low: usize = 0;
    let mut high: usize = blocks.len();
    while low < high
        invariant
            low <= high <= blocks@.len(),
            forall|i: int, j: int|
                0 <= i <= j < blocks@.len() ==> (#[trigger] blocks@[i]) <= (#[trigger] blocks@[j]),
            forall|i: int| 0 <= i < low ==> (#[trigger] blocks@[i]) < block,
            forall|i: int| high <= i < blocks@.len() ==> (#[trigger] blocks@[i]) > block,
        decreases high - low,
    {
        let middle: usize = low + (high - low) / 2;
        if blocks[middle] == block {
            assert(blocks@[middle as int] == block);
            return true;
        }
        if blocks[middle] < block {
            low = middle + 1;
        } else {
            high = middle;
        }
    }
    false
}

/// Those of the first `n` blocks of one list that are in the other.
pub open spec fn common(left: Seq<usize>, right: Seq<usize>, n: int) -> Seq<usize>
    decreases n,
{
    if n <= 0 {
        Seq::empty()
    } else if right.contains(left[n - 1]) {
        common(left, right, n - 1).push(left[n - 1])
    } else {
        common(left, right, n - 1)
    }
}

/// The blocks that both plans name, in the order of the first.
pub fn intersect_candidates(left: &CandidatePlan, right: &CandidatePlan) -> (r: CandidatePlan)
    requires
        left.block_rows == right.block_rows,
        forall|i: int, j: int|
            0 <= i <= j < right.blocks@.len() ==> (#[trigger] right.blocks@[i]) <= (
            #[trigger] right.blocks@[j]),
        left.metadata_bytes + right.metadata_bytes <= usize::MAX,
    ensures
        is_plan(
            r,
            common(left.blocks@, right.blocks@, left.blocks@.len() as int),
            left.block_rows as int,
            left.metadata_bytes + right.metadata_bytes,
        ),
{
    let mut blocks: Vec<usize> = Vec::new();
    let mut i: usize = 0;
    while i < left.blocks.len()
        invariant
            i <= left.blocks@.len(),
            forall|i: int, j: int|
                0 <= i <= j < right.blocks@.len() ==> (#[trigger] right.blocks@[i]) <= (
                #[trigger] right.blocks@[j]),
            blocks@ == common(left.blocks@, right.blocks@, i as int),
        decreases left.blocks@.len() - i,
    {
        let block: usize = left.blocks[i];
        if among(&right.blocks, block) {
            blocks.push(block);
        }
        i = i + 1;
    }
    CandidatePlan {
        blocks,
        block_rows: left.block_rows,
        metadata_bytes: left.metadata_bytes + right.metadata_bytes,
        guarantee: OutputGuarantee::CandidateBitmap,
    }
}

/// A block is in the intersection exactly if it is in both lists, and the
/// intersection of lists that increase increases.
pub proof fn law_common(left: Seq<usize>, right: Seq<usize>, n: int)
    requires
        0 <= n <= left.len(),
    ensures
        forall|block: usize| #[trigger]
            common(left, right, n).contains(block) == (left.take(n).contains(block)
                && right.contains(block)),
        increasing(left) ==> increasing(common(left, right, n)),
        increasing(left) ==> forall|i: int|
            0 <= i < common(left, right, n).len() ==> (#[trigger] common(left, right, n)[i])
                <= left[n - 1],
    decreases n,
{
    let all = common(left, right, n);
    if n > 0 {
        law_common(left, right, n - 1);
        let before = common(left, right, n - 1);
        if n > 1 && increasing(left) {
            assert(left[n - 2] < left[n - 1]);
        }
        assert(left.take(n) =~= left.take(n - 1).push(left[n - 1]));
        assert forall|block: usize| #[trigger] all.contains(block) == (left.take(n).contains(block)
            && right.contains(block)) by {
            vstd::seq_lib::lemma_seq_contains_after_push(left.take(n - 1), left[n - 1], block);
            if right.contains(left[n - 1]) {
                vstd::seq_lib::lemma_seq_contains_after_push(before, left[n - 1], block);
            }
        }
    }
}

/// The rows that equal a value.
pub open spec fn eq_hit(values: Seq<Option<i64>>, value: i64) -> spec_fn(int) -> bool {
    |row: int| values[row] == Some(value)
}

/// The rows that equal one of the targets.
pub open spec fn in_hit(values: Seq<Option<i64>>, targets: Seq<i64>) -> spec_fn(int) -> bool {
    |row: int| values[row] matches Some(value) && targets.contains(value)
}

/// The matching rows of the first `n` blocks.
pub open spec fn refined(
    rows: int,
    blocks: Seq<usize>,
    block_rows: int,
    hit: spec_fn(int) -> bool,
    n: int,
) -> Result<Seq<Span>, Error>
    decreases n,
{
    if n <= 0 {
        Ok(Seq::empty())
    } else {
        match refined(rows, blocks, block_rows, hit, n - 1) {
            Err(e) => Err(e),
            Ok(before) => {
                let block = blocks[n - 1] as int;
                if block * block_rows > usize::MAX {
                    Err(Error::CandidateOverflow)
                } else if block * block_rows >= rows {
                    Err(Error::CandidateOutside)
                } else {
                    Ok(
                        pushed_where(
                            before,
                            hit,
                            block * block_rows,
                            block_end(block, block_rows, rows),
                        ),
                    )
                }
            },
        }
    }
}

proof fn lemma_refined_stop(
    rows: int,
    blocks: Seq<usize>,
    block_rows: int,
    hit: spec_fn(int) -> bool,
    m: int,
    n: int,
)
    requires
        m <= n,
        refined(rows, blocks, block_rows, hit, m) is Err,
    ensures
        refined(rows, blocks, block_rows, hit, n) == refined(rows, blocks, block_rows, hit, m),
    decreases n,
{
    if m < n {
        lemma_refined_stop(rows, blocks, block_rows, hit, m, n - 1);
    }
}

/// The rows of a candidate block, or why there are none.
fn candidate_range(rows: usize, block: usize, block_rows: usize) -> (r: Result<
    (usize, usize),
    Error,
>)
    ensures
        match r {
            Ok((start, end)) => start == block * block_rows && start < rows && end == block_end(
                block as int,
                block_rows as int,
                rows as int,
            ) && start <= end <= rows,
            Err(e) => if block * block_rows > usize::MAX {
                e == Error::CandidateOverflow
            } else {
                block * block_rows >= rows && e == Error::CandidateOutside
            },
        },
{
    let start: usize = match block.checked_mul(block_rows) {
        Some(start) => start,
        None => {
            return Err(Error::CandidateOverflow);
        },
    };
    if start >= rows {
        return Err(Error::CandidateOutside);
    }
    proof {
        lemma_scale_next(block as int, block_rows as int);
    }
    let end: usize = if block_rows < rows - start {
        start + block_rows
    } else {
        rows
    };
    Ok((start, end))
}

pub open spec fn refine_result(
    values: Seq<Option<i64>>,
    candidates: CandidatePlan,
    hit: spec_fn(int) -> bool,
) -> Result<Seq<Span>, Error> {
    refined(
        values.len() as int,
        candidates.blocks@,
        candidates.block_rows as int,
        hit,
        candidates.blocks@.len() as int,
    )
}

/// The rows of the candidate blocks that equal a value.
pub fn refine_eq(values: &[Option<i64>], candidates: &CandidatePlan, value: i64) -> (r: Result<
    Vec<Span>,
    Error,
>)
    ensures
        if candidates.guarantee != OutputGuarantee::CandidateBitmap {
            r matches Err(e) && e == Error::EqNotCandidates
        } else {
            match refine_result(values@, *candidates, eq_hit(values@, value)) {
                Ok(ranges) => r matches Ok(found) && found@ == ranges,
                Err(e) => r matches Err(found) && found == e,
            }
        },
{
    if candidates.guarantee != OutputGuarantee::CandidateBitmap {
        return Err(Error::EqNotCandidates);
    }
    let ghost hit = eq_hit(values@, value);
    let mut ranges: Vec<Span> = Vec::new();
    let mut i: usize = 0;
    while i < candidates.blocks.len()
        invariant
            i <= candidates.blocks@.len(),
            hit == eq_hit(values@, value),
            refined(
                values@.len() as int,
                candidates.blocks@,
                candidates.block_rows as int,
                hit,
                i as int,
            ) == Ok::<Seq<Span>, Error>(ranges@),
            candidates.guarantee == OutputGuarantee::CandidateBitmap,
        decreases candidates.blocks@.len() - i,
    {
        match candidate_range(values.len(), candidates.blocks[i], candidates.block_rows) {
            Ok((start, end)) => {
                let ghost before = ranges@;
                let mut row: usize = start;
                while row < end
                    invariant
                        start <= row <= end <= values@.len(),
                        hit == eq_hit(values@, value),
                        ranges@ == pushed_where(before, hit, start as int, row as int),
                    decreases end - row,
                {
                    let matched = match values[row] {
                        Some(found) => found == value,
                        None => false,
                    };
                    assert(hit(row as int) == matched);
                    if matched {
                        push_range(&mut ranges, row, row + 1);
                    }
                    row = row + 1;
                }
            },
            Err(e) => {
                proof {
                    lemma_refined_stop(
                        values@.len() as int,
                        candidates.blocks@,
                        candidates.block_rows as int,
                        hit,
                        i + 1,
                        candidates.blocks@.len() as int,
                    );
                }
                return Err(e);
            },
        }
        i = i + 1;
    }
    Ok(ranges)
}

/// The rows of the candidate blocks that equal one of the targets.
pub fn refine_in(values: &[Option<i64>], candidates: &CandidatePlan, targets: &[i64]) -> (r: Result<
    Vec<Span>,
    Error,
>)
    ensures
        if candidates.guarantee != OutputGuarantee::CandidateBitmap {
            r matches Err(e) && e == Error::InNotCandidates
        } else {
            match refine_result(values@, *candidates, in_hit(values@, targets@)) {
                Ok(ranges) => r matches Ok(found) && found@ == ranges,
                Err(e) => r matches Err(found) && found == e,
            }
        },
{
    if candidates.guarantee != OutputGuarantee::CandidateBitmap {
        return Err(Error::InNotCandidates);
    }
    let ghost hit = in_hit(values@, targets@);
    let mut ranges: Vec<Span> = Vec::new();
    let mut i: usize = 0;
    while i < candidates.blocks.len()
        invariant
            i <= candidates.blocks@.len(),
            hit == in_hit(values@, targets@),
            refined(
                values@.len() as int,
                candidates.blocks@,
                candidates.block_rows as int,
                hit,
                i as int,
            ) == Ok::<Seq<Span>, Error>(ranges@),
            candidates.guarantee == OutputGuarantee::CandidateBitmap,
        decreases candidates.blocks@.len() - i,
    {
        match candidate_range(values.len(), candidates.blocks[i], candidates.block_rows) {
            Ok((start, end)) => {
                let ghost before = ranges@;
                let mut row: usize = start;
                while row < end
                    invariant
                        start <= row <= end <= values@.len(),
                        hit == in_hit(values@, targets@),
                        ranges@ == pushed_where(before, hit, start as int, row as int),
                    decreases end - row,
                {
                    let matched = match values[row] {
                        Some(found) => holds(targets, found),
                        None => false,
                    };
                    assert(hit(row as int) == matched);
                    if matched {
                        push_range(&mut ranges, row, row + 1);
                    }
                    row = row + 1;
                }
            },
            Err(e) => {
                proof {
                    lemma_refined_stop(
                        values@.len() as int,
                        candidates.blocks@,
                        candidates.block_rows as int,
                        hit,
                        i + 1,
                        candidates.blocks@.len() as int,
                    );
                }
                return Err(e);
            },
        }
        i = i + 1;
    }
    Ok(ranges)
}

/// Whether a value is in a list.
pub(crate) fn holds(values: &[i64], value: i64) -> (r: bool)
    ensures
        r == values@.contains(value),
{
    let mut i: usize = 0;
    while i < values.len()
        invariant
            i <= values@.len(),
            forall|k: int| 0 <= k < i ==> values@[k] != value,
        decreases values@.len() - i,
    {
        if values[i] == value {
            assert(values@[i as int] == value);
            return true;
        }
        i = i + 1;
    }
    false
}

proof fn lemma_no_hits(ranges: Seq<Span>, hit: spec_fn(int) -> bool, from: int, to: int)
    requires
        forall|row: int| from <= row < to ==> !(#[trigger] hit(row)),
    ensures
        pushed_where(ranges, hit, from, to) == ranges,
    decreases to - from,
{
    if from < to {
        lemma_no_hits(ranges, hit, from, to - 1);
        assert(!hit(to - 1));
    }
}

proof fn lemma_refined(
    rows: int,
    blocks: Seq<usize>,
    block_rows: int,
    hit: spec_fn(int) -> bool,
    n: int,
)
    requires
        block_rows > 0,
        0 <= rows <= usize::MAX,
        0 <= n <= blocks.len(),
        increasing(blocks),
        forall|i: int| 0 <= i < blocks.len() ==> #[trigger] blocks[i] * block_rows < rows,
        forall|row: int| 0 <= row < rows && #[trigger] hit(row) ==> blocks.contains(
            (row / block_rows) as usize,
        ),
    ensures
        refined(rows, blocks, block_rows, hit, n) == Ok::<Seq<Span>, Error>(
            ranges_where(
                hit,
                0,
                if n == 0 {
                    0
                } else {
                    block_end(blocks[n - 1] as int, block_rows, rows)
                },
            ),
        ),
    decreases n,
{
    if n > 0 {
        lemma_refined(rows, blocks, block_rows, hit, n - 1);
        let block = blocks[n - 1] as int;
        let start = block * block_rows;
        let end = block_end(block, block_rows, rows);
        let done = if n == 1 {
            0
        } else {
            block_end(blocks[n - 2] as int, block_rows, rows)
        };
        lemma_scale(0, block, block_rows);
        lemma_scale_next(block, block_rows);
        if n > 1 {
            assert(blocks[n - 2] < blocks[n - 1]);
            lemma_scale(blocks[n - 2] + 1, block, block_rows);
            lemma_scale(0, blocks[n - 2] + 1, block_rows);
        }
        assert(blocks[n - 1] * block_rows < rows);
        assert forall|row: int| done <= row < start implies !(#[trigger] hit(row)) by {
            if hit(row) {
                let q = (row / block_rows) as usize;
                lemma_floor(row, block_rows);
                vstd::arithmetic::div_mod::lemma_div_nonincreasing(row, block_rows);
                let k = choose|k: int| 0 <= k < blocks.len() && blocks[k] == q;
                if k >= n - 1 {
                    if k > n - 1 {
                        assert(blocks[n - 1] < blocks[k]);
                    }
                    lemma_scale(block, q as int, block_rows);
                } else {
                    if k < n - 2 {
                        assert(blocks[k] < blocks[n - 2]);
                    }
                    lemma_scale(q + 1, blocks[n - 2] + 1, block_rows);
                    lemma_scale_next(q as int, block_rows);
                }
            }
        }
        let before = ranges_where(hit, 0, done);
        lemma_no_hits(before, hit, done, start);
        lemma_pushed_join(Seq::empty(), hit, 0, done, start);
        lemma_pushed_join(Seq::empty(), hit, 0, start, end);
    }
}

/// Blocks that miss no matching row are refined to the matching rows.
pub proof fn law_refined_exactly(
    rows: int,
    blocks: Seq<usize>,
    block_rows: int,
    hit: spec_fn(int) -> bool,
)
    requires
        block_rows > 0,
        0 <= rows <= usize::MAX,
        increasing(blocks),
        forall|i: int| 0 <= i < blocks.len() ==> #[trigger] blocks[i] * block_rows < rows,
        forall|row: int| 0 <= row < rows && #[trigger] hit(row) ==> blocks.contains(
            (row / block_rows) as usize,
        ),
    ensures
        refined(rows, blocks, block_rows, hit, blocks.len() as int) == Ok::<Seq<Span>, Error>(
            ranges_where(hit, 0, rows),
        ),
{
    let n = blocks.len() as int;
    lemma_refined(rows, blocks, block_rows, hit, n);
    let done = if n == 0 {
        0
    } else {
        block_end(blocks[n - 1] as int, block_rows, rows)
    };
    if n > 0 {
        lemma_scale(0, blocks[n - 1] + 1, block_rows);
    }
    assert forall|row: int| done <= row < rows implies !(#[trigger] hit(row)) by {
        if hit(row) {
            let q = (row / block_rows) as usize;
            lemma_floor(row, block_rows);
            vstd::arithmetic::div_mod::lemma_div_nonincreasing(row, block_rows);
            let k = choose|k: int| 0 <= k < blocks.len() && blocks[k] == q;
            if k < n - 1 {
                assert(blocks[k] < blocks[n - 1]);
            }
            lemma_scale(q + 1, blocks[n - 1] + 1, block_rows);
            lemma_scale_next(q as int, block_rows);
        }
    }
    lemma_no_hits(ranges_where(hit, 0, done), hit, done, rows);
    lemma_pushed_join(Seq::empty(), hit, 0, done, rows);
}

/// Blocks that increase hold no more rows than there are.
pub proof fn law_candidate_rows(blocks: Seq<usize>, block_rows: int, rows: int, n: int)
    requires
        increasing(blocks),
        block_rows >= 0,
        rows >= 0,
        0 <= n <= blocks.len(),
    ensures
        0 <= rows_in_all(blocks, block_rows, rows, n) <= rows,
        n > 0 ==> rows_in_all(blocks, block_rows, rows, n) <= (blocks[n - 1] + 1) * block_rows,
    decreases n,
{
    if n > 0 {
        law_candidate_rows(blocks, block_rows, rows, n - 1);
        let block = blocks[n - 1] as int;
        lemma_scale_next(block, block_rows);
        lemma_scale(0, block, block_rows);
        if n > 1 {
            assert(blocks[n - 2] < blocks[n - 1]);
            lemma_scale(blocks[n - 2] + 1, block, block_rows);
        }
    }
}

/// Candidates that increase, that are blocks of the column, and that miss no row
/// with the value are refined to the rows with the value.
proof fn lemma_candidates(
    values: Seq<Option<i64>>,
    blocks: Seq<usize>,
    block_rows: int,
    value: i64,
)
    requires
        block_rows > 0,
        0 < values.len() <= usize::MAX,
        increasing(blocks),
        forall|i: int|
            0 <= i < blocks.len() ==> #[trigger] blocks[i] < ceil_div(
                values.len() as int,
                block_rows,
            ),
        forall|row: int|
            0 <= row < values.len() && #[trigger] values[row] == Some(value) ==> blocks.contains(
                (row / block_rows) as usize,
            ),
    ensures
        refined(
            values.len() as int,
            blocks,
            block_rows,
            eq_hit(values, value),
            blocks.len() as int,
        ) == Ok::<Seq<Span>, Error>(ranges_where(eq_hit(values, value), 0, values.len() as int)),
{
    let rows = values.len() as int;
    let hit = eq_hit(values, value);
    lemma_ceil_floor(rows, block_rows);
    lemma_floor(rows - 1, block_rows);
    assert forall|i: int| 0 <= i < blocks.len() implies #[trigger] blocks[i] * block_rows < rows by {
        lemma_scale(blocks[i] as int, (rows - 1) / block_rows, block_rows);
    }
    assert forall|row: int| 0 <= row < rows && #[trigger] hit(row) implies blocks.contains(
        (row / block_rows) as usize,
    ) by {
        assert(values[row] == Some(value));
    }
    law_refined_exactly(rows, blocks, block_rows, hit);
}

/// A column has no more blocks than rows.
pub proof fn lemma_blocks(rows: int, block_rows: int)
    requires
        block_rows > 0,
        rows > 0,
    ensures
        0 < ceil_div(rows, block_rows) <= rows,
{
    lemma_ceil_floor(rows, block_rows);
    lemma_floor(rows - 1, block_rows);
    vstd::arithmetic::div_mod::lemma_div_nonincreasing(rows - 1, block_rows);
}

/// A probe of a filter, refined, gives the rows that hold the value.
pub proof fn law_bloom_search_is_exact(
    bloom: Bloom,
    values: Seq<Option<i64>>,
    block_rows: int,
    bits_per_value: int,
    value: i64,
)
    requires
        block_rows > 0,
        bits_per_value > 0,
        0 < values.len() <= usize::MAX,
        is_bloom(bloom, values, block_rows, bits_per_value),
    ensures
        increasing(chosen(bloom_pick(bloom, value), bloom.blocks)),
        refined(
            values.len() as int,
            chosen(bloom_pick(bloom, value), bloom.blocks),
            block_rows,
            eq_hit(values, value),
            chosen(bloom_pick(bloom, value), bloom.blocks).len() as int,
        ) == Ok::<Seq<Span>, Error>(ranges_where(eq_hit(values, value), 0, values.len() as int)),
{
    let blocks = chosen(bloom_pick(bloom, value), bloom.blocks);
    lemma_blocks(values.len() as int, block_rows);
    law_chosen(bloom_pick(bloom, value), bloom.blocks);
    assert forall|row: int|
        0 <= row < values.len() && #[trigger] values[row] == Some(value) implies blocks.contains(
        (row / block_rows) as usize,
    ) by {
        law_bloom_keeps(bloom, values, block_rows, bits_per_value, row);
    }
    lemma_candidates(values, blocks, block_rows, value);
}

/// A probe of the bounds, refined, gives the rows that hold the value.
pub proof fn law_min_max_search_is_exact(
    values: Seq<Option<i64>>,
    block_rows: int,
    value: i64,
)
    requires
        block_rows > 0,
        0 < values.len() <= usize::MAX,
    ensures
        increasing(
            chosen(
                min_max_pick(all_bounds(values, block_rows), value),
                all_bounds(values, block_rows).len() as int,
            ),
        ),
        refined(
            values.len() as int,
            chosen(
                min_max_pick(all_bounds(values, block_rows), value),
                all_bounds(values, block_rows).len() as int,
            ),
            block_rows,
            eq_hit(values, value),
            chosen(
                min_max_pick(all_bounds(values, block_rows), value),
                all_bounds(values, block_rows).len() as int,
            ).len() as int,
        ) == Ok::<Seq<Span>, Error>(ranges_where(eq_hit(values, value), 0, values.len() as int)),
{
    let bounds = all_bounds(values, block_rows);
    let blocks = chosen(min_max_pick(bounds, value), bounds.len() as int);
    lemma_blocks(values.len() as int, block_rows);
    law_chosen(min_max_pick(bounds, value), bounds.len() as int);
    assert forall|row: int|
        0 <= row < values.len() && #[trigger] values[row] == Some(value) implies blocks.contains(
        (row / block_rows) as usize,
    ) by {
        law_min_max_keeps(values, block_rows, row);
    }
    lemma_candidates(values, blocks, block_rows, value);
}

/// A probe of a fence, refined, gives the rows that hold the value.
pub proof fn law_fence_search_is_exact(values: Seq<Option<i64>>, stride: int, value: i64)
    requires
        stride > 0,
        0 < values.len() <= usize::MAX,
        all_present(values),
        non_decreasing(values),
    ensures
        ({
            let keys = fence_keys(values, stride);
            let blocks = block_range(fence_first(keys, value), fence_last(keys, value));
            &&& increasing(blocks)
            &&& refined(
                values.len() as int,
                blocks,
                stride,
                eq_hit(values, value),
                blocks.len() as int,
            ) == Ok::<Seq<Span>, Error>(
                ranges_where(eq_hit(values, value), 0, values.len() as int),
            )
        }),
{
    let keys = fence_keys(values, stride);
    let n = keys.len() as int;
    let first = fence_first(keys, value);
    let last = fence_last(keys, value);
    let blocks = block_range(first, last);
    lemma_blocks(values.len() as int, stride);
    lemma_key_counts(keys, value, n);
    assert forall|i: int| 0 <= i < blocks.len() implies #[trigger] blocks[i] == first + i by {}
    assert forall|row: int|
        0 <= row < values.len() && #[trigger] values[row] == Some(value) implies blocks.contains(
        (row / stride) as usize,
    ) by {
        law_fence_keeps(values, stride, row);
    }
    lemma_candidates(values, blocks, stride, value);
}

/// No more keys are counted than there are.
pub proof fn lemma_key_counts(keys: Seq<i64>, value: i64, n: int)
    requires
        0 <= n,
    ensures
        0 <= less_than(keys, value, n) <= n,
        0 <= at_most(keys, value, n) <= n,
    decreases n,
{
    if n > 0 {
        lemma_key_counts(keys, value, n - 1);
    }
}

} // verus!
