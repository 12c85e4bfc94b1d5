//! A search of values in order finds what a scan of them would.
#[allow(unused_imports)]
use super::encode::{nulls_first, nulls_last, placement_of, present_in, values_rise};
#[allow(unused_imports)]
use super::error::Error;
#[allow(unused_imports)]
use super::execute::{answer_of, listed, matching, Reply};
#[allow(unused_imports)]
use super::invariants::NullPlacement;
#[allow(unused_imports)]
use super::plan::{Predicate, Query};
#[allow(unused_imports)]
use super::runtime::Context;
#[allow(unused_imports)]
use super::span::Span;
#[allow(unused_imports)]
use super::static_baseline::StaticDecoder;
#[allow(unused_imports)]
use super::static_queries::{
    block_end, blocks_outcome, boundary_outcome, comes_before, monotone_outcome, range_reply,
    segment_outcome, with_range,
};
#[allow(unused_imports)]
use super::support::{lemma_pushed_join, pushed_range, pushed_where, ranges_where};
#[allow(unused_imports)]
use vstd::arithmetic::power2::pow2;
use vstd::prelude::*;

verus! {

/// A value as a number.
pub open spec fn wide(value: Option<i64>) -> Option<int> {
    match value {
        Some(value) => Some(value as int),
        None => None,
    }
}

/// Every row decodes to its value.
pub open spec fn decodes<D: StaticDecoder>(context: Context, values: Seq<Option<i64>>) -> bool {
    forall|row: int|
        0 <= row < values.len() ==> (#[trigger] D::value(context, row)).result == Ok::<
            Option<int>,
            Error,
        >(wide(values[row]))
}

/// How often a number can be halved.
pub open spec fn halvings(n: int) -> int
    decreases n,
{
    if n <= 0 {
        0
    } else {
        halvings(n / 2) + 1
    }
}

pub proof fn lemma_halvings_grow(a: int, b: int)
    requires
        a <= b,
    ensures
        0 <= halvings(a) <= halvings(b),
    decreases b,
{
    if b > 0 {
        lemma_halvings_grow(a / 2, b / 2);
    }
}

proof fn lemma_halvings_few(n: int, k: nat)
    requires
        n < pow2(k),
    ensures
        halvings(n) <= k,
    decreases k,
{
    if n > 0 {
        if k == 0 {
            vstd::arithmetic::power2::lemma2_to64();
        } else {
            vstd::arithmetic::power2::lemma_pow2_unfold(k);
            lemma_halvings_few(n / 2, (k - 1) as nat);
        }
    }
}

/// Two searches of addressable rows look at few rows.
pub proof fn lemma_searches_countable(n: int)
    requires
        n <= usize::MAX,
    ensures
        2 * halvings(n) <= 128,
{
    vstd::arithmetic::power2::lemma2_to64();
    vstd::arithmetic::power2::lemma2_to64_rest();
    lemma_halvings_few(n, 64);
}

// ----- ranges -----

/// Rows that hit from one row to another, and no others, are one range.
pub proof fn lemma_one_range(
    ranges: Seq<Span>,
    hit: spec_fn(int) -> bool,
    from: int,
    start: int,
    end: int,
    to: int,
)
    requires
        0 <= from <= start <= end,
        from <= to <= usize::MAX,
        forall|row: int| from <= row < to ==> #[trigger] hit(row) == (start <= row < end),
    ensures
        pushed_where(ranges, hit, from, to) == with_range(
            ranges,
            start,
            if end < to {
                end
            } else {
                to
            },
        ),
    decreases to - from,
{
    if from < to {
        lemma_one_range(ranges, hit, from, start, end, to - 1);
        let before = pushed_where(ranges, hit, from, to - 1);
        assert(hit(to - 1) == (start <= to - 1 < end));
        if start < to - 1 && to - 1 < end {
            assert(before == pushed_range(ranges, start, to - 1));
            assert(pushed_range(before, to - 1, to) =~= pushed_range(ranges, start, to));
        }
    }
}

// ----- values in order -----

/// A row comes before a boundary.
pub open spec fn is_before(
    values: Seq<Option<i64>>,
    row: int,
    bound: int,
    inclusive: bool,
    nulls: NullPlacement,
) -> bool {
    comes_before(wide(values[row]), bound, inclusive, nulls) == Ok::<bool, Error>(true)
}

/// The search ends at the first row that does not come before the boundary.
proof fn lemma_boundary<D: StaticDecoder>(
    context: Context,
    values: Seq<Option<i64>>,
    left: int,
    right: int,
    bound: int,
    inclusive: bool,
    nulls: NullPlacement,
    decoded: int,
)
    requires
        decodes::<D>(context, values),
        0 <= left <= right <= values.len(),
        0 <= decoded,
        decoded + halvings(right - left) <= usize::MAX,
        forall|row: int|
            left <= row < right ==> comes_before(
                wide(#[trigger] values[row]),
                bound,
                inclusive,
                nulls,
            ) is Ok,
        forall|i: int, j: int|
            left <= i <= j < right && #[trigger] is_before(values, j, bound, inclusive, nulls)
                ==> #[trigger] is_before(values, i, bound, inclusive, nulls),
    ensures
        boundary_outcome::<D>(
            context,
            left,
            right,
            bound,
            inclusive,
            nulls,
            decoded,
        ).result matches Ok((at, count)) && {
            &&& left <= at <= right
            &&& decoded <= count <= decoded + halvings(right - left)
            &&& forall|row: int|
                left <= row < at ==> #[trigger] is_before(values, row, bound, inclusive, nulls)
            &&& forall|row: int|
                at <= row < right ==> !#[trigger] is_before(values, row, bound, inclusive, nulls)
        },
    decreases right - left,
{
    if left < right {
        let mid = left + (right - left) / 2;
        let half = (right - left) / 2;
        lemma_halvings_grow(right - (mid + 1), half);
        lemma_halvings_grow(mid - left, half);
        lemma_halvings_grow(0, half);
        assert(D::value(context, mid).result == Ok::<Option<int>, Error>(wide(values[mid])));
        assert(comes_before(wide(values[mid]), bound, inclusive, nulls) is Ok);
        if is_before(values, mid, bound, inclusive, nulls) {
            lemma_boundary::<D>(
                context,
                values,
                mid + 1,
                right,
                bound,
                inclusive,
                nulls,
                decoded + 1,
            );
        } else {
            lemma_boundary::<D>(context, values, left, mid, bound, inclusive, nulls, decoded + 1);
            assert forall|row: int| mid <= row < right implies !#[trigger] is_before(
                values,
                row,
                bound,
                inclusive,
                nulls,
            ) by {
                if is_before(values, row, bound, inclusive, nulls) {
                    assert(is_before(values, mid, bound, inclusive, nulls));
                }
            }
        }
    }
}

/// Where the nulls stand is known, and it is at one end.
proof fn lemma_placement(values: Seq<Option<i64>>, i: int, j: int)
    requires
        0 <= i <= j < values.len(),
        placement_of(values) != NullPlacement::Arbitrary,
    ensures
        placement_of(values) == NullPlacement::NoNulls ==> values[i] is Some && values[j] is Some,
        placement_of(values) == NullPlacement::First && values[j] is None ==> values[i] is None,
        placement_of(values) == NullPlacement::Last && values[i] is None ==> values[j] is None,
{
    if placement_of(values) == NullPlacement::First {
        let k = choose|k: int| nulls_first(values, k);
        assert(nulls_first(values, k));
    } else if placement_of(values) == NullPlacement::Last {
        let k = choose|k: int| nulls_last(values, k);
        assert(nulls_last(values, k));
    }
}

pub proof fn lemma_before_is_monotone(
    values: Seq<Option<i64>>,
    left: int,
    bound: int,
    inclusive: bool,
)
    requires
        values_rise(values),
        placement_of(values) != NullPlacement::Arbitrary,
        0 <= left <= values.len(),
    ensures
        forall|row: int|
            left <= row < values.len() ==> comes_before(
                wide(#[trigger] values[row]),
                bound,
                inclusive,
                placement_of(values),
            ) is Ok,
        forall|i: int, j: int|
            left <= i <= j < values.len() && #[trigger] is_before(
                values,
                j,
                bound,
                inclusive,
                placement_of(values),
            ) ==> #[trigger] is_before(values, i, bound, inclusive, placement_of(values)),
{
    let nulls = placement_of(values);
    assert forall|row: int| left <= row < values.len() implies comes_before(
        wide(#[trigger] values[row]),
        bound,
        inclusive,
        nulls,
    ) is Ok by {
        lemma_placement(values, row, row);
    }
    assert forall|i: int, j: int|
        left <= i <= j < values.len() && #[trigger] is_before(values, j, bound, inclusive, nulls)
        implies #[trigger] is_before(values, i, bound, inclusive, nulls) by {
        lemma_placement(values, i, j);
    }
}

/// On a column whose values are in order and whose nulls, if any, stand at one
/// end, the search for the rows between two bounds answers as a scan would, and
/// it decodes no more rows than the number of rows can be halved, twice.
pub proof fn law_monotone_search_is_exact<D: StaticDecoder>(
    context: Context,
    values: Seq<Option<i64>>,
    low: i64,
    high: i64,
)
    requires
        decodes::<D>(context, values),
        values.len() <= usize::MAX,
        values_rise(values),
        placement_of(values) != NullPlacement::Arbitrary,
        low <= high,
    ensures
        monotone_outcome::<D>(
            context,
            values.len() as int,
            low as int,
            high as int,
            placement_of(values),
        ).result matches Ok((reply, decoded)) && {
            &&& reply == answer_of(
                Query::Filter { predicate: Predicate::Between { low, high } },
                values.len() as int,
                listed(values),
            )
            &&& 0 <= decoded <= 2 * halvings(values.len() as int)
        },
{
    let len = values.len() as int;
    let nulls = placement_of(values);
    lemma_searches_countable(len);
    lemma_halvings_grow(0, len);
    lemma_before_is_monotone(values, 0, low as int, false);
    lemma_boundary::<D>(context, values, 0, len, low as int, false, nulls, 0);
    let first = boundary_outcome::<D>(context, 0, len, low as int, false, nulls, 0);
    let (start, counted) = first.result->Ok_0;
    lemma_halvings_grow(len - start, len);
    lemma_before_is_monotone(values, start, high as int, true);
    lemma_boundary::<D>(context, values, start, len, high as int, true, nulls, counted);
    let second = boundary_outcome::<D>(context, start, len, high as int, true, nulls, counted);
    let (end, count) = second.result->Ok_0;
    let hit = matching(listed(values), Predicate::Between { low, high });
    assert forall|row: int| 0 <= row < len implies #[trigger] hit(row) == (start <= row < end) by {
        lemma_placement(values, row, row);
        if row < start {
            assert(is_before(values, row, low as int, false, nulls));
        } else {
            assert(!is_before(values, row, low as int, false, nulls));
            if row < end {
                assert(is_before(values, row, high as int, true, nulls));
            } else {
                assert(!is_before(values, row, high as int, true, nulls));
            }
        }
    }
    lemma_one_range(Seq::empty(), hit, 0, start, end, len);
    assert(with_range(Seq::empty(), start, end) =~= range_reply(start, end)->Ranges_0);
}

// ----- values in order within blocks -----

/// A row that has a value comes before a boundary.
pub open spec fn lies_before(
    values: Seq<Option<i64>>,
    row: int,
    bound: int,
    inclusive: bool,
) -> bool {
    values[row]->0 < bound || (inclusive && values[row]->0 == bound)
}

proof fn lemma_segment<D: StaticDecoder>(
    context: Context,
    values: Seq<Option<i64>>,
    left: int,
    right: int,
    bound: int,
    inclusive: bool,
    decoded: int,
)
    requires
        decodes::<D>(context, values),
        0 <= left <= right <= values.len(),
        0 <= decoded,
        decoded + (right - left) <= usize::MAX,
        forall|row: int| left <= row < right ==> (#[trigger] values[row]) is Some,
        forall|i: int, j: int|
            left <= i <= j < right ==> (#[trigger] values[i])->0 <= (#[trigger] values[j])->0,
    ensures
        segment_outcome::<D>(
            context,
            left,
            right,
            bound,
            inclusive,
            decoded,
        ).result matches Ok((at, count)) && {
            &&& left <= at <= right
            &&& decoded <= count <= decoded + (right - left)
            &&& forall|row: int|
                left <= row < at ==> #[trigger] lies_before(values, row, bound, inclusive)
            &&& forall|row: int|
                at <= row < right ==> !#[trigger] lies_before(values, row, bound, inclusive)
        },
    decreases right - left,
{
    if left < right {
        let mid = left + (right - left) / 2;
        assert(D::value(context, mid).result == Ok::<Option<int>, Error>(wide(values[mid])));
        assert(values[mid] is Some);
        if lies_before(values, mid, bound, inclusive) {
            lemma_segment::<D>(context, values, mid + 1, right, bound, inclusive, decoded + 1);
            assert forall|row: int| left <= row <= mid implies #[trigger] lies_before(
                values,
                row,
                bound,
                inclusive,
            ) by {
                assert(values[row]->0 <= values[mid]->0);
            }
        } else {
            lemma_segment::<D>(context, values, left, mid, bound, inclusive, decoded + 1);
            assert forall|row: int| mid <= row < right implies !#[trigger] lies_before(
                values,
                row,
                bound,
                inclusive,
            ) by {
                assert(values[mid]->0 <= values[row]->0);
            }
        }
    }
}

/// No value is less than one before it in the same block.
pub open spec fn rises_in_blocks(values: Seq<Option<i64>>, rows: int) -> bool {
    forall|i: int, j: int|
        0 <= i <= j < values.len() && i / rows == j / rows ==> (#[trigger] values[i])->0 <= (
        #[trigger] values[j])->0
}

proof fn lemma_blocks<D: StaticDecoder>(
    context: Context,
    values: Seq<Option<i64>>,
    low: i64,
    high: i64,
    max_rows: int,
    block_start: int,
    decoded: int,
)
    requires
        decodes::<D>(context, values),
        2 * values.len() <= usize::MAX,
        present_in(values, 0, values.len() as int),
        max_rows > 0,
        rises_in_blocks(values, max_rows),
        low <= high,
        0 <= block_start <= values.len(),
        block_start % max_rows == 0 || block_start == values.len(),
        0 <= decoded <= 2 * block_start,
    ensures
        ({
            let hit = matching(listed(values), Predicate::Between { low, high });
            blocks_outcome::<D>(
                context,
                values.len() as int,
                low as int,
                high as int,
                max_rows,
                block_start,
                ranges_where(hit, 0, block_start),
                decoded,
            ).result matches Ok((reply, count)) && reply == Reply::Ranges(
                ranges_where(hit, 0, values.len() as int),
            ) && 0 <= count <= 2 * values.len()
        }),
    decreases values.len() - block_start,
{
    let len = values.len() as int;
    let hit = matching(listed(values), Predicate::Between { low, high });
    if block_start < len {
        let stop = block_end(block_start, max_rows, len);
        let ranges = ranges_where(hit, 0, block_start);
        assert forall|i: int, j: int| block_start <= i <= j < stop implies (
        #[trigger] values[i])->0 <= (#[trigger] values[j])->0 by {
            lemma_same_block(block_start, i, max_rows);
            lemma_same_block(block_start, j, max_rows);
        }
        assert forall|row: int| block_start <= row < stop implies (
        #[trigger] values[row]) is Some by {}
        lemma_segment::<D>(context, values, block_start, stop, low as int, false, decoded);
        let first = segment_outcome::<D>(
            context,
            block_start,
            stop,
            low as int,
            false,
            decoded,
        );
        let (start, counted) = first.result->Ok_0;
        lemma_segment::<D>(context, values, start, stop, high as int, true, counted);
        let second = segment_outcome::<D>(context, start, stop, high as int, true, counted);
        let (end, count) = second.result->Ok_0;
        assert forall|row: int| block_start <= row < stop implies #[trigger] hit(row) == (start
            <= row < end) by {
            assert(values[row] is Some);
            if row < start {
                assert(lies_before(values, row, low as int, false));
            } else {
                assert(!lies_before(values, row, low as int, false));
                if row < end {
                    assert(lies_before(values, row, high as int, true));
                } else {
                    assert(!lies_before(values, row, high as int, true));
                }
            }
        }
        lemma_one_range(ranges, hit, block_start, start, end, stop);
        lemma_pushed_join(Seq::empty(), hit, 0, block_start, stop);
        if stop < len {
            vstd::arithmetic::div_mod::lemma_mod_add_multiples_vanish(block_start, max_rows);
        }
        lemma_blocks::<D>(context, values, low, high, max_rows, stop, count);
    }
}

pub proof fn lemma_same_block(block_start: int, row: int, max_rows: int)
    requires
        max_rows > 0,
        0 <= block_start <= row < block_start + max_rows,
        block_start % max_rows == 0,
    ensures
        row / max_rows == block_start / max_rows,
{
    vstd::arithmetic::div_mod::lemma_fundamental_div_mod(block_start, max_rows);
    let q = block_start / max_rows;
    vstd::arithmetic::mul::lemma_mul_is_commutative(max_rows, q);
    vstd::arithmetic::div_mod::lemma_fundamental_div_mod_converse(
        row,
        max_rows,
        q,
        row - block_start,
    );
}

/// On a column without nulls whose values are in order within blocks of rows, the
/// search of each block for the rows between two bounds answers as a scan would.
pub proof fn law_piecewise_search_is_exact<D: StaticDecoder>(
    context: Context,
    values: Seq<Option<i64>>,
    low: i64,
    high: i64,
    max_rows: int,
)
    requires
        decodes::<D>(context, values),
        2 * values.len() <= usize::MAX,
        present_in(values, 0, values.len() as int),
        max_rows > 0,
        rises_in_blocks(values, max_rows),
        low <= high,
    ensures
        blocks_outcome::<D>(
            context,
            values.len() as int,
            low as int,
            high as int,
            max_rows,
            0,
            Seq::empty(),
            0,
        ).result matches Ok((reply, decoded)) && {
            &&& reply == answer_of(
                Query::Filter { predicate: Predicate::Between { low, high } },
                values.len() as int,
                listed(values),
            )
            &&& 0 <= decoded <= 2 * values.len()
        },
{
    lemma_blocks::<D>(context, values, low, high, max_rows, 0, 0);
}

} // verus!
