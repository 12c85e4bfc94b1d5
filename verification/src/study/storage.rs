//! Where pages are stored and how they are laid out in one file.
use super::error::StudyError;
#[allow(unused_imports)]
use crate::access_compiler::runtime::ceil_div;
use vstd::prelude::*;

verus! {

#[derive(Clone, Copy, Debug, PartialEq, Eq, PartialOrd, Ord, Structural)]
pub enum StorageTier {
    Memory,
    MmapHot,
    BufferedHot,
    BufferedCold,
}

impl StorageTier {
    pub fn all() -> (r: [StorageTier; 4])
        ensures
            r@ == seq![
                StorageTier::Memory,
                StorageTier::MmapHot,
                StorageTier::BufferedHot,
                StorageTier::BufferedCold,
            ],
    {
        let r = [
            StorageTier::Memory,
            StorageTier::MmapHot,
            StorageTier::BufferedHot,
            StorageTier::BufferedCold,
        ];
        assert(r@ =~= seq![
            StorageTier::Memory,
            StorageTier::MmapHot,
            StorageTier::BufferedHot,
            StorageTier::BufferedCold,
        ]);
        r
    }

    pub fn name(self) -> (r: &'static str)
        ensures
            r@ == match self {
                StorageTier::Memory => "memory_warm"@,
                StorageTier::MmapHot => "mmap_hot"@,
                StorageTier::BufferedHot => "buffered_hot"@,
                StorageTier::BufferedCold => "buffered_drop_cache"@,
            },
    {
        match self {
            StorageTier::Memory => "memory_warm",
            StorageTier::MmapHot => "mmap_hot",
            StorageTier::BufferedHot => "buffered_hot",
            StorageTier::BufferedCold => "buffered_drop_cache",
        }
    }

    pub fn is_cold(self) -> (r: bool)
        ensures
            r == (self is BufferedCold),
    {
        matches!(self, StorageTier::BufferedCold)
    }
}

/// The first multiple of the alignment that is not below the value, if the value
/// and the alignment less one can be added.
pub open spec fn aligned(value: int, alignment: int) -> Option<int> {
    if value + alignment - 1 > u64::MAX {
        None
    } else {
        Some((value + alignment - 1) / alignment * alignment)
    }
}

pub fn align_up(value: u64, alignment: u64) -> (r: Result<u64, StudyError>)
    requires
        alignment > 0,
    ensures
        match aligned(value as int, alignment as int) {
            Some(at) => r matches Ok(found) && found == at,
            None => r matches Err(StudyError::BundleAlignmentOverflow),
        },
{
    match value.checked_add(alignment - 1) {
        Some(sum) => {
            assert(0 <= sum / alignment * alignment <= sum) by (nonlinear_arith)
                requires
                    alignment > 0,
            ;
            Ok(sum / alignment * alignment)
        },
        None => Err(StudyError::BundleAlignmentOverflow),
    }
}

/// A multiple of the alignment, at most an alignment less one above the value.
pub proof fn law_aligned(value: int, alignment: int)
    requires
        value >= 0,
        alignment > 0,
    ensures
        aligned(value, alignment) matches Some(at) ==> {
            &&& at % alignment == 0
            &&& value <= at < value + alignment
        },
{
    if let Some(at) = aligned(value, alignment) {
        let sum = value + alignment - 1;
        vstd::arithmetic::div_mod::lemma_fundamental_div_mod(sum, alignment);
        vstd::arithmetic::div_mod::lemma_mod_bound(sum, alignment);
        vstd::arithmetic::mul::lemma_mul_is_commutative(alignment, sum / alignment);
        vstd::arithmetic::div_mod::lemma_mod_multiples_basic(sum / alignment, alignment);
    }
}

pub open spec fn is_power_of_two(value: int) -> bool {
    exists|n: nat| #[trigger] vstd::arithmetic::power2::pow2(n) == value
}

fn power_of_two(value: usize) -> (r: bool)
    ensures
        r == is_power_of_two(value as int),
{
    if value == 0 {
        proof {
            assert forall|n: nat| #[trigger] vstd::arithmetic::power2::pow2(n) != 0 by {
                vstd::arithmetic::power2::lemma_pow2_pos(n);
            }
        }
        return false;
    }
    let mut rest: usize = value;
    let ghost mut n: nat = 0;
    proof {
        vstd::arithmetic::power2::lemma2_to64();
    }
    while rest % 2 == 0
        invariant
            rest > 0,
            value == rest * vstd::arithmetic::power2::pow2(n),
        decreases rest,
    {
        proof {
            vstd::arithmetic::power2::lemma_pow2_unfold(n + 1);
            let p = vstd::arithmetic::power2::pow2(n);
            assert(rest * p == rest / 2 * (2 * p)) by (nonlinear_arith)
                requires
                    rest % 2 == 0,
            ;
            n = n + 1;
        }
        rest = rest / 2;
    }
    proof {
        if rest != 1 {
            assert forall|m: nat| #[trigger] vstd::arithmetic::power2::pow2(m) != value by {
                vstd::arithmetic::power2::lemma_pow2_pos(n);
                vstd::arithmetic::power2::lemma_pow2_pos(m);
                let p = vstd::arithmetic::power2::pow2(n);
                if m <= n {
                    if m < n {
                        vstd::arithmetic::power2::lemma_pow2_strictly_increases(m, n);
                    }
                    assert(rest * p > p) by (nonlinear_arith)
                        requires
                            rest > 1,
                            p > 0,
                    ;
                } else {
                    let k = (m - n - 1) as nat;
                    vstd::arithmetic::power2::lemma_pow2_adds(n, k + 1);
                    vstd::arithmetic::power2::lemma_pow2_unfold(k + 1);
                    let q = vstd::arithmetic::power2::pow2(k);
                    if vstd::arithmetic::power2::pow2(m) == value {
                        assert(rest == 2 * q) by (nonlinear_arith)
                            requires
                                p > 0,
                                p * (2 * q) == rest * p,
                        ;
                        assert(rest % 2 == 0);
                    }
                }
            }
        } else {
            assert(vstd::arithmetic::power2::pow2(n) == value);
        }
    }
    rest == 1
}

/// Where the first `n` pages start, and where the last of them ends; or what stops
/// them from being laid out.
pub open spec fn laid_out(lengths: Seq<usize>, alignment: int, n: int) -> Result<
    (Seq<u64>, u64),
    StudyError,
>
    decreases n,
{
    if n <= 0 {
        Ok((Seq::empty(), 0))
    } else {
        match laid_out(lengths, alignment, n - 1) {
            Err(e) => Err(e),
            Ok((offsets, end)) => match aligned(end as int, alignment) {
                None => Err(StudyError::BundleAlignmentOverflow),
                Some(at) => if at + lengths[n - 1] > u64::MAX {
                    Err(StudyError::BundleLengthOverflow)
                } else {
                    Ok((offsets.push(at as u64), (at + lengths[n - 1]) as u64))
                },
            },
        }
    }
}

pub open spec fn bundle_of(lengths: Seq<usize>, alignment: int) -> Result<
    (Seq<u64>, u64),
    StudyError,
> {
    if lengths.len() == 0 || !is_power_of_two(alignment) {
        Err(StudyError::BundleInvalid)
    } else {
        laid_out(lengths, alignment, lengths.len() as int)
    }
}

proof fn lemma_laid_out(lengths: Seq<usize>, alignment: int, i: int, n: int)
    requires
        0 <= i <= n,
        laid_out(lengths, alignment, i) is Err,
    ensures
        laid_out(lengths, alignment, n) == laid_out(lengths, alignment, i),
    decreases n,
{
    if i < n {
        lemma_laid_out(lengths, alignment, i, n - 1);
    }
}

/// Where pages lie in one file.
#[derive(Clone, Debug)]
pub struct Bundle {
    pub offsets: Vec<u64>,
    pub lengths: Vec<usize>,
    pub len: u64,
}

impl Bundle {
    /// Lays pages out one after the other, each at a multiple of the alignment.
    pub fn lay_out(lengths: Vec<usize>, alignment: usize) -> (r: Result<Bundle, StudyError>)
        ensures
            match bundle_of(lengths@, alignment as int) {
                Ok((offsets, len)) => r matches Ok(bundle) && bundle.offsets@ == offsets
                    && bundle.lengths@ == lengths@ && bundle.len == len,
                Err(e) => r matches Err(found) && found == e,
            },
    {
        if lengths.len() == 0 || !power_of_two(alignment) {
            return Err(StudyError::BundleInvalid);
        }
        proof {
            assert(alignment > 0) by {
                let n = choose|n: nat|
                    #[trigger] vstd::arithmetic::power2::pow2(n) == alignment as int;
                vstd::arithmetic::power2::lemma_pow2_pos(n);
            }
        }
        let mut offsets: Vec<u64> = Vec::new();
        let mut cursor: u64 = 0;
        let mut i: usize = 0;
        while i < lengths.len()
            invariant
                i <= lengths@.len(),
                alignment > 0,
                lengths@.len() > 0,
                is_power_of_two(alignment as int),
                laid_out(lengths@, alignment as int, i as int) == Ok::<(Seq<u64>, u64), StudyError>(
                    (offsets@, cursor),
                ),
            decreases lengths@.len() - i,
        {
            let at: u64 = match align_up(cursor, alignment as u64) {
                Ok(at) => at,
                Err(_) => {
                    proof {
                        lemma_laid_out(
                            lengths@,
                            alignment as int,
                            i + 1,
                            lengths@.len() as int,
                        );
                    }
                    return Err(StudyError::BundleAlignmentOverflow);
                },
            };
            offsets.push(at);
            cursor = match at.checked_add(lengths[i] as u64) {
                Some(end) => end,
                None => {
                    proof {
                        lemma_laid_out(
                            lengths@,
                            alignment as int,
                            i + 1,
                            lengths@.len() as int,
                        );
                    }
                    return Err(StudyError::BundleLengthOverflow);
                },
            };
            i = i + 1;
        }
        Ok(Bundle { offsets, lengths, len: cursor })
    }

    /// Where a page starts.
    pub fn offset_of(&self, page_index: usize) -> (r: Result<u64, StudyError>)
        ensures
            if page_index < self.offsets@.len() {
                r == Ok::<u64, StudyError>(self.offsets@[page_index as int])
            } else {
                r matches Err(StudyError::BundlePageAbsent)
            },
    {
        if page_index < self.offsets.len() {
            Ok(self.offsets[page_index])
        } else {
            Err(StudyError::BundlePageAbsent)
        }
    }
}

/// Every page starts at a multiple of the alignment, after the pages before it,
/// and ends before the pages after it and within the file.
pub proof fn law_pages_apart(lengths: Seq<usize>, alignment: int, n: int)
    requires
        0 <= n <= lengths.len(),
        alignment > 0,
        laid_out(lengths, alignment, n) is Ok,
    ensures
        ({
            let (offsets, len) = laid_out(lengths, alignment, n)->Ok_0;
            &&& offsets.len() == n
            &&& forall|i: int|
                0 <= i < n ==> (#[trigger] offsets[i]) as int % alignment == 0 && offsets[i]
                    + lengths[i] <= len
            &&& forall|i: int, j: int|
                0 <= i < j < n ==> #[trigger] offsets[i] + lengths[i] <= #[trigger] offsets[j]
        }),
    decreases n,
{
    if n > 0 {
        law_pages_apart(lengths, alignment, n - 1);
        let (_, end) = laid_out(lengths, alignment, n - 1)->Ok_0;
        law_aligned(end as int, alignment);
    }
}

/// The size of a page of memory.
pub const MEMORY_PAGE: usize = 4_096;

/// The pages of memory that hold a range of a file, as far as the file goes.
pub open spec fn memory_pages(offset: int, length: int, file_len: int) -> (int, int) {
    let whole = ceil_div(offset + length, MEMORY_PAGE as int) * MEMORY_PAGE;
    let end = if whole > usize::MAX {
        usize::MAX as int
    } else {
        whole
    };
    (
        offset / MEMORY_PAGE as int * MEMORY_PAGE,
        if end < file_len {
            end
        } else {
            file_len
        },
    )
}

/// The pages of memory to give up for a range of a file.
pub fn eviction_range(offset: usize, length: usize, file_len: usize) -> (r: Result<
    (usize, usize),
    StudyError,
>)
    ensures
        if offset + length > usize::MAX {
            r matches Err(StudyError::EvictionOverflow)
        } else {
            r matches Ok(range) && (range.0 as int, range.1 as int) == memory_pages(
                offset as int,
                length as int,
                file_len as int,
            )
        },
{
    let start: usize = offset / MEMORY_PAGE * MEMORY_PAGE;
    match offset.checked_add(length) {
        None => Err(StudyError::EvictionOverflow),
        Some(end) => {
            let pages: usize = if end % MEMORY_PAGE == 0 {
                end / MEMORY_PAGE
            } else {
                end / MEMORY_PAGE + 1
            };
            assert(pages == ceil_div(end as int, MEMORY_PAGE as int));
            let whole: usize = match pages.checked_mul(MEMORY_PAGE) {
                Some(whole) => whole,
                None => usize::MAX,
            };
            Ok((
                start,
                if whole < file_len {
                    whole
                } else {
                    file_len
                },
            ))
        },
    }
}

/// The name of a kind of file system.
pub fn filesystem_kind(kind: u64) -> (r: &'static str)
    ensures
        r@ == if kind == 0x5846_5342 {
            "xfs"@
        } else if kind == 0xef53 {
            "ext4"@
        } else if kind == 0x0102_1994 {
            "tmpfs"@
        } else {
            "other"@
        },
{
    if kind == 0x5846_5342 {
        "xfs"
    } else if kind == 0xef53 {
        "ext4"
    } else if kind == 0x0102_1994 {
        "tmpfs"
    } else {
        "other"
    }
}

} // verus!
