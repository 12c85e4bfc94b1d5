//! What encoders write: no wider, longer or looser than the values need, and tied to their
//! indexes.
#[allow(unused_imports)]
use super::bytes::{bit_at, byte_of};
#[allow(unused_imports)]
use super::coding::{
    all_positions, bit_width, compact, delta_node, greatest, least, miniblock_size, nearest,
    nullable_fields, offsets, packed_width, patch_fields, patch_positions, rank_values,
    regular_values, restart_values, rle_fields, rows_before, runs, stream_len, validity_bytes,
    Build, MINIBLOCK_ROWS,
};
#[allow(unused_imports)]
use super::decoder::{DecoderNode, DeltaCoding};
#[allow(unused_imports)]
use super::encode::{lemma_runs_total, nulls_first, nulls_last, present_in, statements_of};
#[allow(unused_imports)]
use super::ids::{FieldId, NodeId};
#[allow(unused_imports)]
use super::invariants::NullPlacement;
#[allow(unused_imports)]
use super::layout::{lemma_quotient, lemma_scale, lemma_scale_next, DependencyRule};
#[allow(unused_imports)]
use super::runtime::{ceil_div, lemma_ceil, packed_byte};
use vstd::arithmetic::power2::pow2;
use vstd::prelude::*;

verus! {

// ----- packed values -----

proof fn lemma_greatest(values: Seq<int>, n: int)
    requires
        0 <= n <= values.len(),
        forall|i: int| 0 <= i < n ==> #[trigger] values[i] >= 0,
    ensures
        greatest(values, n) >= 0,
        forall|i: int| 0 <= i < n ==> #[trigger] values[i] <= greatest(values, n),
        greatest(values, n) > 0 ==> exists|i: int|
            0 <= i < n && #[trigger] values[i] == greatest(values, n),
    decreases n,
{
    if n > 0 {
        lemma_greatest(values, n - 1);
    }
}

proof fn lemma_width_least(n: nat)
    requires
        n > 0,
    ensures
        bit_width(n) > 0,
        pow2((bit_width(n) - 1) as nat) <= n < pow2(bit_width(n)),
    decreases n,
{
    vstd::arithmetic::power2::lemma2_to64();
    if n == 1 {
        reveal_with_fuel(bit_width, 2);
    } else {
        lemma_width_least(n / 2);
        let k = bit_width(n / 2);
        vstd::arithmetic::power2::lemma_pow2_unfold(k);
        vstd::arithmetic::power2::lemma_pow2_unfold((k + 1) as nat);
    }
}

/// Values are packed as wide as the greatest of them needs, and no wider.
pub proof fn law_widths_are_least(values: Seq<int>, i: int)
    requires
        0 <= i < values.len(),
        forall|k: int| 0 <= k < values.len() ==> #[trigger] values[k] >= 0,
    ensures
        values[i] < pow2(packed_width(values)),
        packed_width(values) > 0 ==> exists|k: int|
            0 <= k < values.len() && #[trigger] values[k] >= pow2(
                (packed_width(values) - 1) as nat,
            ),
{
    let n = values.len() as int;
    lemma_greatest(values, n);
    let most = greatest(values, n);
    vstd::arithmetic::power2::lemma2_to64();
    if most > 0 {
        lemma_width_least(most as nat);
        let k = choose|k: int| 0 <= k < n && #[trigger] values[k] == most;
        assert(values[k] >= pow2((packed_width(values) - 1) as nat));
    } else {
        assert(packed_width(values) == 0);
    }
}

/// A miniblock has room for 128 values, and for no more; a stream has as many miniblocks as
/// hold its rows.
pub proof fn law_miniblocks_hold_128_values(rows: int, width: nat)
    requires
        rows > 0,
        width > 0,
    ensures
        8 * miniblock_size(width) == 128 * width,
        stream_len(rows, 0) == 0,
        exists|blocks: int|
            stream_len(rows, width) == #[trigger] (blocks * miniblock_size(width)) && 128 * (blocks
                - 1) < rows <= 128 * blocks,
{
    lemma_ceil(rows, 128);
    let blocks = ceil_div(rows, 128);
    assert(stream_len(rows, width) == blocks * miniblock_size(width));
}

// ----- bases and runs -----

proof fn lemma_least(values: Seq<int>, n: int)
    requires
        0 < n <= values.len(),
    ensures
        forall|i: int| 0 <= i < n ==> least(values, n) <= #[trigger] values[i],
        exists|i: int| 0 <= i < n && least(values, n) == #[trigger] values[i],
    decreases n,
{
    if n > 1 {
        lemma_least(values, n - 1);
        if values[n - 1] >= least(values, n - 1) {
            let i = choose|i: int| 0 <= i < n - 1 && least(values, n - 1) == #[trigger] values[i];
            assert(least(values, n) == values[i]);
        } else {
            assert(least(values, n) == values[n - 1]);
        }
    } else {
        assert(least(values, n) == values[0]);
    }
}

/// The offsets from a base are as far apart as the values, none is below nought, and one is
/// nought.
pub proof fn law_offsets_start_at_nought(values: Seq<int>, i: int, j: int)
    requires
        0 <= i < values.len(),
        0 <= j < values.len(),
    ensures
        offsets(values).len() == values.len(),
        offsets(values)[i] >= 0,
        offsets(values)[i] - offsets(values)[j] == values[i] - values[j],
        exists|k: int| 0 <= k < values.len() && #[trigger] offsets(values)[k] == 0,
{
    let n = values.len() as int;
    lemma_least(values, n);
    let k = choose|k: int| 0 <= k < n && least(values, n) == #[trigger] values[k];
    assert(offsets(values)[k] == 0);
}

/// Runs are as long as they can be: each has rows, no two that meet have the same value, and
/// together they have all the rows.
pub proof fn law_runs_are_as_long_as_can_be(values: Seq<int>, n: int)
    requires
        0 <= n <= values.len(),
    ensures
        ({
            let list = runs(values, n);
            &&& rows_before(list, list.len() as int) == n
            &&& forall|k: int| 0 <= k < list.len() ==> (#[trigger] list[k]).1 > 0
            &&& forall|k: int|
                0 <= k < list.len() - 1 ==> (#[trigger] list[k]).0 != list[k + 1].0
            &&& n > 0 ==> list.len() > 0 && list.last().0 == values[n - 1]
        }),
    decreases n,
{
    lemma_runs_total(values, n);
    if n > 0 {
        law_runs_are_as_long_as_can_be(values, n - 1);
    }
}

// ----- exceptions -----

/// The positions of exceptions are the rows that are marked, each once and in order.
pub proof fn law_positions_are_the_marked_rows(patched: Seq<bool>, row: int)
    ensures
        all_positions(patched).contains(row) <==> 0 <= row < patched.len() && patched[row],
        forall|i: int, j: int|
            0 <= i < j < all_positions(patched).len() ==> #[trigger] all_positions(patched)[i]
                < #[trigger] all_positions(patched)[j],
{
    lemma_marked(patched, patched.len() as int, row);
}

proof fn lemma_marked(patched: Seq<bool>, n: int, row: int)
    requires
        0 <= n <= patched.len(),
    ensures
        patch_positions(patched, n).contains(row) <==> 0 <= row < n && patched[row],
        forall|i: int, j: int|
            0 <= i < j < patch_positions(patched, n).len() ==> #[trigger] patch_positions(
                patched,
                n,
            )[i] < #[trigger] patch_positions(patched, n)[j],
        forall|i: int|
            0 <= i < patch_positions(patched, n).len() ==> 0 <= #[trigger] patch_positions(
                patched,
                n,
            )[i] < n,
    decreases n,
{
    if n > 0 {
        lemma_marked(patched, n - 1, row);
        let before = patch_positions(patched, n - 1);
        let all = patch_positions(patched, n);
        if patched[n - 1] {
            assert(all[all.len() - 1] == n - 1);
            if before.contains(row) {
                let i = before.index_of(row);
                assert(all[i] == row);
            }
            if all.contains(row) && row != n - 1 {
                let i = all.index_of(row);
                assert(before[i] == row);
            }
        }
    }
}

/// The value that stands in for an exception is that of the nearest row that is none, and of
/// two as near that of the earlier; where every row is one it is nought.
pub proof fn law_exceptions_take_the_nearest_value(
    values: Seq<int>,
    patched: Seq<bool>,
    row: int,
    near: int,
)
    requires
        0 <= row < values.len(),
        values.len() == patched.len(),
        patched[row],
        0 <= near < values.len(),
        !patched[near],
        forall|other: int|
            0 <= other < values.len() && !#[trigger] patched[other] ==> (if near <= row {
                row - near
            } else {
                near - row
            }) <= (if other <= row {
                row - other
            } else {
                other - row
            }),
        near > row && 2 * row - near >= 0 ==> patched[2 * row - near],
    ensures
        regular_values(values, patched)[row] == values[near],
        regular_values(values, patched)[near] == values[near],
{
    let far = if near <= row {
        row - near
    } else {
        near - row
    };
    lemma_nearest(values, patched, row, near, 1, far);
}

proof fn lemma_nearest(
    values: Seq<int>,
    patched: Seq<bool>,
    row: int,
    near: int,
    distance: int,
    far: int,
)
    requires
        0 <= row < values.len(),
        values.len() == patched.len(),
        0 <= near < values.len(),
        !patched[near],
        near == row - far || near == row + far,
        1 <= distance <= far,
        near > row && row - far >= 0 ==> patched[row - far],
        forall|other: int|
            0 <= other < values.len() && !#[trigger] patched[other] ==> other <= row - far || other
                >= row + far,
    ensures
        nearest(values, patched, row, distance) == values[near],
    decreases far - distance,
{
    if distance < far {
        lemma_nearest(values, patched, row, near, distance + 1, far);
    }
}

// ----- nulls -----

/// A row is valid where its bit is set, and no bit is set behind the last row.
pub proof fn law_validity_is_a_bit_for_each_row(values: Seq<Option<int>>, row: int)
    requires
        0 <= row < 8 * validity_bytes(values).len(),
    ensures
        bit_at(validity_bytes(values), row) <==> row < values.len() && values[row] is Some,
        values.len() <= 8 * validity_bytes(values).len() < values.len() + 8,
{
    lemma_ceil(values.len() as int, 8);
    let bytes = validity_bytes(values);
    let i = row / 8;
    let bits = |k: int| 8 * i + k < values.len() && values[8 * i + k] is Some;
    assert(bytes[i] == byte_of(bits));
    super::bytes::lemma_byte_of(bits, row % 8);
    assert(8 * i + row % 8 == row);
}

/// A rank is the number of rows before its block that are not null; the last is that of all.
pub proof fn law_ranks_count_what_is_not_null(values: Seq<Option<int>>, interval: int, b: int)
    requires
        interval > 0,
        0 <= b < rank_values(values, interval).len() - 1,
        compact(values, values.len() as int).len() <= u32::MAX,
    ensures
        rank_values(values, interval)[0] == 0,
        rank_values(values, interval).last() == compact(values, values.len() as int).len(),
        ({
            let ranks = rank_values(values, interval);
            let end = if (b + 1) * interval < values.len() {
                (b + 1) * interval
            } else {
                values.len() as int
            };
            &&& b * interval < values.len()
            &&& ranks[b + 1] - ranks[b] == compact(
                values.subrange(b * interval, end),
                end - b * interval,
            ).len()
        }),
{
    let n = values.len() as int;
    let ranks = rank_values(values, interval);
    lemma_ceil(n, interval);
    let blocks = ceil_div(n, interval);
    assert(0 <= blocks) by {
        if blocks < 0 {
            lemma_scale(blocks, -1, interval);
        }
    }
    lemma_scale_next(b, interval);
    lemma_scale_next(blocks - 1, interval);
    lemma_scale(b, blocks - 1, interval);
    vstd::arithmetic::mul::lemma_mul_nonnegative(b, interval);
    assert(0 * interval == 0);
    let start = b * interval;
    let end = if (b + 1) * interval < n {
        (b + 1) * interval
    } else {
        n
    };
    lemma_compact_part(values, start, end);
    lemma_compact_bounds(values, start, n);
    lemma_compact_bounds(values, end, n);
}

proof fn lemma_compact_part(values: Seq<Option<int>>, start: int, end: int)
    requires
        0 <= start <= end <= values.len(),
    ensures
        compact(values, end).len() == compact(values, start).len() + compact(
            values.subrange(start, end),
            end - start,
        ).len(),
    decreases end - start,
{
    if start < end {
        lemma_compact_part(values, start, end - 1);
        lemma_compact_same(
            values.subrange(start, end),
            values.subrange(start, end - 1),
            end - 1 - start,
        );
    }
}

proof fn lemma_compact_same(a: Seq<Option<int>>, b: Seq<Option<int>>, n: int)
    requires
        0 <= n <= a.len(),
        n <= b.len(),
        forall|i: int| 0 <= i < n ==> a[i] == b[i],
    ensures
        compact(a, n) == compact(b, n),
    decreases n,
{
    if n > 0 {
        lemma_compact_same(a, b, n - 1);
    }
}

proof fn lemma_compact_bounds(values: Seq<Option<int>>, m: int, n: int)
    requires
        0 <= m <= n <= values.len(),
    ensures
        compact(values, m).len() <= compact(values, n).len(),
    decreases n - m,
{
    if m < n {
        lemma_compact_bounds(values, m, n - 1);
    }
}

/// The first row from one on that is null, or that is not; the number of rows where none is.
spec fn first_row(values: Seq<Option<i64>>, null: bool, from: int) -> int
    decreases values.len() - from,
{
    if from >= values.len() || (values[from] is None) == null {
        from
    } else {
        first_row(values, null, from + 1)
    }
}

proof fn lemma_first_row(values: Seq<Option<i64>>, null: bool, from: int)
    requires
        0 <= from <= values.len(),
    ensures
        from <= first_row(values, null, from) <= values.len(),
        first_row(values, null, from) < values.len() ==> (values[first_row(values, null, from)]
            is None) == null,
        forall|i: int|
            from <= i < first_row(values, null, from) ==> ((#[trigger] values[i]) is None) != null,
    decreases values.len() - from,
{
    if from < values.len() && (values[from] is None) != null {
        lemma_first_row(values, null, from + 1);
    }
}

/// Whether a column has nulls and values, and every null stands before every value.
pub open spec fn nulls_lead(values: Seq<Option<i64>>) -> bool {
    &&& exists|i: int| 0 <= i < values.len() && (#[trigger] values[i]) is None
    &&& exists|i: int| 0 <= i < values.len() && (#[trigger] values[i]) is Some
    &&& forall|i: int, j: int|
        0 <= i < values.len() && 0 <= j < values.len() && (#[trigger] values[i]) is None && (
        #[trigger] values[j]) is Some ==> i < j
}

/// Whether a column has nulls and values, and every null stands behind every value.
pub open spec fn nulls_trail(values: Seq<Option<i64>>) -> bool {
    &&& exists|i: int| 0 <= i < values.len() && (#[trigger] values[i]) is None
    &&& exists|i: int| 0 <= i < values.len() && (#[trigger] values[i]) is Some
    &&& forall|i: int, j: int|
        0 <= i < values.len() && 0 <= j < values.len() && (#[trigger] values[i]) is None && (
        #[trigger] values[j]) is Some ==> j < i
}

proof fn lemma_leading(values: Seq<Option<i64>>)
    ensures
        (exists|k: int| nulls_first(values, k)) <==> nulls_lead(values),
        (exists|k: int| nulls_last(values, k)) <==> nulls_trail(values),
{
    let n = values.len() as int;
    if exists|k: int| nulls_first(values, k) {
        let k = choose|k: int| nulls_first(values, k);
        assert(values[0] is None);
        assert(values[k] is Some);
        assert forall|i: int, j: int|
            0 <= i < n && 0 <= j < n && (#[trigger] values[i]) is None && (#[trigger] values[j])
                is Some implies i < j by {}
    }
    if nulls_lead(values) {
        lemma_first_row(values, false, 0);
        let k = first_row(values, false, 0);
        let i = choose|i: int| 0 <= i < n && (#[trigger] values[i]) is None;
        let j = choose|j: int| 0 <= j < n && (#[trigger] values[j]) is Some;
        assert(k <= j);
        assert(i < k);
        assert(nulls_first(values, k)) by {
            assert forall|r: int| k <= r < n implies (#[trigger] values[r]) is Some by {}
        }
    }
    if exists|k: int| nulls_last(values, k) {
        let k = choose|k: int| nulls_last(values, k);
        assert(values[0] is Some);
        assert(values[k] is None);
        assert forall|i: int, j: int|
            0 <= i < n && 0 <= j < n && (#[trigger] values[i]) is None && (#[trigger] values[j])
                is Some implies j < i by {}
    }
    if nulls_trail(values) {
        lemma_first_row(values, true, 0);
        let k = first_row(values, true, 0);
        let i = choose|i: int| 0 <= i < n && (#[trigger] values[i]) is None;
        let j = choose|j: int| 0 <= j < n && (#[trigger] values[j]) is Some;
        assert(k <= i);
        assert(j < k);
        assert(nulls_last(values, k)) by {
            assert forall|r: int| k <= r < n implies (#[trigger] values[r]) is None by {}
        }
    }
}

/// What is stated of values: that none is null, that the nulls lead, or that they trail, each
/// where it is so; that the values never fall where no value is below one before it; and both
/// where both are so.
pub proof fn law_statements_say_what_holds(values: Seq<Option<i64>>)
    requires
        values.len() > 0,
    ensures
        ({
            let stated = statements_of(values);
            let rises = forall|i: int, j: int|
                0 <= i < j < values.len() && (#[trigger] values[i]) is Some && (
                #[trigger] values[j]) is Some ==> values[i]->0 <= values[j]->0;
            let dense = forall|i: int| 0 <= i < values.len() ==> (#[trigger] values[i]) is Some;
            &&& stated.non_decreasing_non_null <==> rises
            &&& stated.non_decreasing <==> rises && dense
            &&& stated.null_placement == NullPlacement::NoNulls <==> dense
            &&& stated.null_placement == NullPlacement::First <==> nulls_lead(values)
            &&& stated.null_placement == NullPlacement::Last <==> nulls_trail(values)
        }),
{
    lemma_leading(values);
    let n = values.len() as int;
    if nulls_lead(values) && nulls_trail(values) {
        let i = choose|i: int| 0 <= i < n && (#[trigger] values[i]) is None;
        let j = choose|j: int| 0 <= j < n && (#[trigger] values[j]) is Some;
        assert(i < j && j < i);
    }
    let dense = forall|i: int| 0 <= i < values.len() ==> (#[trigger] values[i]) is Some;
    assert(present_in(values, 0, n) <==> dense);
    if dense {
        assert(!nulls_lead(values));
        assert(!nulls_trail(values));
    }
}

// ----- rules -----

/// The rule of a run index is of its grain: the length of a run comes with the entry of the
/// group that the run is in, a row and a run of four bytes each.
pub proof fn law_run_rules_are_of_the_index(
    values: Seq<int>,
    interval: usize,
    build: Build,
    run: int,
    b: int,
)
    requires
        rle_fields(values, interval, build) is Ok,
        0 <= run,
        4 * run <= b < 4 * run + 4,
    ensures
        ({
            let (next, lengths, index) = rle_fields(values, interval, build)->Ok_0;
            next.plan.dependencies.last() matches DependencyRule::IndexedStream {
                data,
                index: by,
                data_block_bytes,
                index_entry_bytes,
            } && data == lengths && by == index && b / data_block_bytes as int == run
                / interval as int && index_entry_bytes == 8
        }),
{
    lemma_grain(run, b, 4, interval as int);
}

/// A byte of a number lies in the block that its number, divided by the block's, gives.
proof fn lemma_grain(k: int, b: int, width: int, interval: int)
    requires
        0 <= k,
        width > 0,
        interval > 0,
        k * width <= b < k * width + width,
    ensures
        b / (interval * width) == k / interval,
{
    lemma_quotient(b, k, width);
    vstd::arithmetic::mul::lemma_mul_nonnegative(k, width);
    vstd::arithmetic::div_mod::lemma_div_denominator(b, width, interval);
    vstd::arithmetic::mul::lemma_mul_is_commutative(width, interval);
}

/// The rule of an index of exceptions is of its grain.
pub proof fn law_exception_rules_are_of_the_index(
    values: Seq<int>,
    patched: Seq<bool>,
    interval: usize,
    build: Build,
    k: int,
    b: int,
)
    requires
        patch_fields(values, patched, interval, build) is Ok,
        0 <= k,
        4 * k <= b < 4 * k + 4,
    ensures
        ({
            let (next, positions, index, _) = patch_fields(
                values,
                patched,
                interval,
                build,
            )->Ok_0;
            next.plan.dependencies.last() matches DependencyRule::IndexedStream {
                data,
                index: by,
                data_block_bytes,
                index_entry_bytes,
            } && data == positions && by == index && b / data_block_bytes as int == k
                / interval as int && index_entry_bytes == 8
        }),
{
    lemma_grain(k, b, 4, interval as int);
}

/// The rule of ranks is of their grain: the validity of a row comes with the rank of its
/// block, of four bytes.
pub proof fn law_rank_rules_are_of_the_ranks(
    values: Seq<Option<int>>,
    interval: usize,
    build: Build,
    row: int,
)
    requires
        nullable_fields(values, interval, build) is Ok,
        0 <= row,
    ensures
        ({
            let (next, validity, ranks) = nullable_fields(values, interval, build)->Ok_0;
            next.plan.dependencies.last() matches DependencyRule::IndexedStream {
                data,
                index,
                data_block_bytes,
                index_entry_bytes,
            } && data == validity && index == ranks && row / 8 / data_block_bytes as int == row
                / interval as int && index_entry_bytes == 4
        }),
{
    let e = interval as int / 8;
    assert(interval == 8 * e && e > 0);
    vstd::arithmetic::div_mod::lemma_div_denominator(row, 8, e);
}

/// The rule of restarts is of their grain: the packed difference of a row lies in the bytes
/// of the restart before it, which takes eight bytes.
pub proof fn law_restart_rules_are_of_the_restarts(
    rows: usize,
    interval: usize,
    coding: DeltaCoding,
    restarts: FieldId,
    deltas: NodeId,
    build: Build,
    row: int,
)
    requires
        delta_node(rows, interval, coding, restarts, deltas, build) is Ok,
        interval > 0,
        interval % MINIBLOCK_ROWS == 0,
        0 <= row,
        build.nodes[deltas.0 as int] matches DecoderNode::BitUnpack {
            width,
            miniblock_rows,
            miniblock_bytes,
            ..
        } && width > 0 && miniblock_rows == MINIBLOCK_ROWS && miniblock_bytes == miniblock_size(
            width as nat,
        ),
    ensures
        ({
            let (next, _) = delta_node(rows, interval, coding, restarts, deltas, build)->Ok_0;
            let codes = build.nodes[deltas.0 as int];
            next.plan.dependencies.last() matches DependencyRule::Restart {
                data,
                restarts: by,
                data_bytes_per_restart,
                bytes_per_restart,
            } && data == codes->stream && by == restarts && packed_byte(
                row,
                codes->width as int,
                128,
                codes->miniblock_bytes as int,
            ) / data_bytes_per_restart as int == row / interval as int && bytes_per_restart == 8
        }),
{
    reveal(packed_byte);
    let codes = build.nodes[deltas.0 as int];
    let w = codes->width as int;
    let bytes = codes->miniblock_bytes as int;
    assert(bytes == 16 * w);
    let block = row / 128;
    let inside = row % 128 * w / 8;
    assert(0 <= row % 128 * w < 128 * w) by {
        vstd::arithmetic::mul::lemma_mul_nonnegative(row % 128, w);
        lemma_scale(row % 128, 127, w);
        lemma_scale_next(127, w);
    }
    assert(0 <= inside < bytes);
    let e = interval as int / 128;
    assert(interval == 128 * e && e > 0);
    vstd::arithmetic::mul::lemma_mul_is_commutative(block, bytes);
    lemma_grain(block, block * bytes + inside, bytes, e);
    vstd::arithmetic::div_mod::lemma_div_denominator(row, 128, e);
}

/// The restarts are the values at the restarts' rows.
pub proof fn law_restarts_are_values(values: Seq<int>, interval: int, row: int)
    requires
        interval > 0,
        0 <= row < values.len(),
        row % interval == 0,
        i64::MIN <= values[row] <= i64::MAX,
    ensures
        ({
            let list = restart_values(values, interval);
            &&& row / interval < list.len()
            &&& list[row / interval] == values[row]
        }),
{
    vstd::arithmetic::div_mod::lemma_fundamental_div_mod(row, interval);
    vstd::arithmetic::mul::lemma_mul_is_commutative(interval, row / interval);
    lemma_ceil(values.len() as int, interval);
    let k = row / interval;
    let n = ceil_div(values.len() as int, interval);
    vstd::arithmetic::div_mod::lemma_div_pos_is_pos(row, interval);
    if k >= n {
        lemma_scale(n, k, interval);
    }
}

} // verus!
