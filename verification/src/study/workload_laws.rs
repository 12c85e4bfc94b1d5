//! What the workloads ask: which rows they select, how wide they are, and where they lie.
#[allow(unused_imports)]
use super::certificate::{block_hit, fence_holds, hits, idle_blocks};
#[allow(unused_imports)]
use super::crossover::{
    checksum_of, expected_bytes, expected_operations, quartiles, PlanKind, StructureFeatures, ROWS,
};
#[allow(unused_imports)]
use super::order::{in_order, lemma_ordered, present};
#[allow(unused_imports)]
use super::queries::{narrow_rows, wide_rows};
#[allow(unused_imports)]
use super::scan::{fixed_width, middle, moved_range, placed, plan_for, scatter, share_width, turn};
#[allow(unused_imports)]
use super::storage::memory_pages;
#[allow(unused_imports)]
use super::workload::{
    centred, distinct_predicates, rows_in, same_bounds, selected, selects, share, with_predicate,
    PredicateText,
};
#[allow(unused_imports)]
use crate::access_compiler::certificates::{
    all_present, block_end, block_range, fence_keys, in_hit, law_fence_keeps, non_decreasing,
};
#[allow(unused_imports)]
use crate::access_compiler::execute::{sum_of, Reply};
#[allow(unused_imports)]
use crate::access_compiler::layout::{lemma_scale, lemma_scale_next};
#[allow(unused_imports)]
use crate::access_compiler::runtime::{ceil_div, lemma_ceil};
#[allow(unused_imports)]
use crate::access_compiler::span::{covers, Span};
#[allow(unused_imports)]
use crate::access_compiler::support::{law_ranges_where, ranges_where};
use vstd::prelude::*;

verus! {

// ----- order -----

/// A sorted list holds each value as often as the list, and no value before a lesser one.
pub proof fn law_sorting_puts_in_order(values: Seq<i64>)
    ensures
        in_order(values).to_multiset() == values.to_multiset(),
        in_order(values).len() == values.len(),
        forall|i: int, j: int|
            0 <= i < j < values.len() ==> #[trigger] in_order(values)[i] <= #[trigger] in_order(
                values,
            )[j],
{
    lemma_ordered(values);
    in_order(values).to_multiset_ensures();
    values.to_multiset_ensures();
}

/// The values of two columns one after the other are those of the first and then those of
/// the second.
pub proof fn law_present_values_join(a: Seq<Option<i64>>, b: Seq<Option<i64>>)
    ensures
        present(a + b) == present(a) + present(b),
    decreases b.len(),
{
    if b.len() == 0 {
        assert(a + b =~= a);
        assert(present(a) + present(b) =~= present(a));
    } else {
        law_present_values_join(a, b.drop_last());
        assert((a + b).drop_last() =~= a + b.drop_last());
        assert(present(a + b) =~= present(a) + present(b));
    }
}

/// Of one row that is null there is no value, and of any other its own.
pub proof fn law_present_value_of_a_row(row: Option<i64>)
    ensures
        present(seq![row]) == match row {
            Some(value) => seq![value],
            None => Seq::empty(),
        },
{
    assert(seq![row].drop_last() =~= Seq::empty());
    reveal_with_fuel(present, 2);
    assert(present(Seq::<Option<i64>>::empty()) =~= Seq::empty());
    if let Some(value) = row {
        assert(Seq::<i64>::empty().push(value) =~= seq![value]);
    }
}

/// The quartiles have at most a quarter of the values below, and at most a quarter above.
pub proof fn law_quartiles_part_the_values(values: Seq<i64>, k: int)
    requires
        0 <= k < values.len(),
    ensures
        ({
            let list = in_order(values);
            let n = values.len() as int;
            let (low, high) = quartiles(list);
            &&& low <= high
            &&& list[k] < low ==> 4 * (k + 1) <= n
            &&& list[k] > low ==> 4 * k > n - 4
            &&& list[k] < high ==> 4 * (k + 1) <= 3 * n
            &&& list[k] > high ==> 4 * (n - k) <= n + 3
        }),
{
    law_sorting_puts_in_order(values);
}

// ----- predicates -----

/// The share of the rows, in thousandths, that each predicate asks for.
pub open spec fn per_thousand(k: int) -> int {
    seq![1int, 10, 100, 500][k]
}

/// A predicate selects at least its share of the values, and one value where that is none;
/// as many are left below as above, but for one.
pub proof fn law_predicates_are_centred(values: Seq<i64>, k: int, asked: int)
    requires
        0 < values.len(),
        0 <= k < 4,
        asked == per_thousand(k) * values.len() / 1_000 || (asked == 1 && per_thousand(k)
            * values.len() < 1_000),
        asked > 0,
    ensures
        ({
            let list = in_order(values);
            let one = centred(list, k);
            &&& one.low <= one.high
            &&& exists|below: int, above: int|
                {
                    &&& 0 <= below
                    &&& 0 <= above
                    &&& below <= above <= below + 1
                    &&& below + asked + above == values.len()
                    &&& one.low == #[trigger] list[below]
                    &&& one.high == #[trigger] list[values.len() - above - 1]
                }
        }),
{
    law_sorting_puts_in_order(values);
    let list = in_order(values);
    let n = values.len() as int;
    let below = (n - asked) / 2;
    let above = n - asked - below;
    assert(per_thousand(k) * n <= 500 * n) by (nonlinear_arith)
        requires
            per_thousand(k) <= 500,
            n > 0,
    ;
    assert(per_thousand(k) == share(k).0);
    assert(list.len() * share(k).0 == per_thousand(k) * n) by (nonlinear_arith)
        requires
            list.len() == n,
            share(k).0 == per_thousand(k),
    ;
    assert(asked <= n);
    assert(centred(list, k).low == list[below]);
    assert(centred(list, k).high == list[n - above - 1]);
}

/// Whether the bounds of a predicate are among some.
pub open spec fn has_bounds(list: Seq<PredicateText>, low: i64, high: i64) -> bool {
    exists|i: int| 0 <= i < list.len() && (#[trigger] list[i]).low == low && list[i].high == high
}

proof fn lemma_same_bounds(list: Seq<PredicateText>, one: PredicateText, n: int)
    requires
        0 <= n <= list.len(),
    ensures
        match same_bounds(list, one, n) {
            Some(i) => 0 <= i < n && list[i].low == one.low && list[i].high == one.high,
            None => forall|i: int|
                0 <= i < n ==> !((#[trigger] list[i]).low == one.low && list[i].high == one.high),
        },
    decreases n,
{
    if n > 0 {
        lemma_same_bounds(list, one, n - 1);
    }
}

/// No two predicates have the same bounds, each share has its bounds among them, and there
/// are no others.
pub proof fn law_predicates_are_distinct(list: Seq<i64>, n: int)
    requires
        0 <= n <= 4,
    ensures
        ({
            let all = distinct_predicates(list, n);
            &&& forall|i: int, j: int|
                0 <= i < j < all.len() ==> (#[trigger] all[i]).low != (#[trigger] all[j]).low
                    || all[i].high != all[j].high
            &&& forall|k: int|
                0 <= k < n ==> has_bounds(
                    all,
                    (#[trigger] centred(list, k)).low,
                    centred(list, k).high,
                )
            &&& forall|i: int|
                0 <= i < all.len() ==> exists|k: int|
                    0 <= k < n && (#[trigger] centred(list, k)).low == (#[trigger] all[i]).low
                        && centred(list, k).high == all[i].high
        }),
    decreases n,
{
    if n > 0 {
        law_predicates_are_distinct(list, n - 1);
        let before = distinct_predicates(list, n - 1);
        let one = centred(list, n - 1);
        let all = with_predicate(before, one);
        lemma_same_bounds(before, one, before.len() as int);
        match same_bounds(before, one, before.len() as int) {
            None => {
                assert(all[all.len() - 1] == one);
                assert forall|k: int| 0 <= k < n implies has_bounds(
                    all,
                    (#[trigger] centred(list, k)).low,
                    centred(list, k).high,
                ) by {
                    if k < n - 1 {
                        assert(has_bounds(before, centred(list, k).low, centred(list, k).high));
                        let i = choose|i: int|
                            0 <= i < before.len() && (#[trigger] before[i]).low == centred(
                                list,
                                k,
                            ).low && before[i].high == centred(list, k).high;
                        assert(all[i] == before[i]);
                    }
                }
                assert forall|i: int| 0 <= i < all.len() implies exists|k: int|
                    0 <= k < n && (#[trigger] centred(list, k)).low == (#[trigger] all[i]).low
                        && centred(list, k).high == all[i].high by {
                    if i < before.len() {
                        assert(all[i] == before[i]);
                    }
                }
            },
            Some(at) => {
                assert(all.len() == before.len());
                assert forall|i: int| 0 <= i < all.len() implies (#[trigger] all[i]).low
                    == before[i].low && all[i].high == before[i].high by {}
                assert forall|k: int| 0 <= k < n implies has_bounds(
                    all,
                    (#[trigger] centred(list, k)).low,
                    centred(list, k).high,
                ) by {
                    if k < n - 1 {
                        assert(has_bounds(before, centred(list, k).low, centred(list, k).high));
                        let i = choose|i: int|
                            0 <= i < before.len() && (#[trigger] before[i]).low == centred(
                                list,
                                k,
                            ).low && before[i].high == centred(list, k).high;
                        assert(all[i].low == before[i].low);
                    } else {
                        assert(all[at].low == one.low);
                    }
                }
                assert forall|i: int| 0 <= i < all.len() implies exists|k: int|
                    0 <= k < n && (#[trigger] centred(list, k)).low == (#[trigger] all[i]).low
                        && centred(list, k).high == all[i].high by {
                    let k = choose|k: int|
                        0 <= k < n - 1 && (#[trigger] centred(list, k)).low == (
                        #[trigger] before[i]).low && centred(list, k).high == before[i].high;
                    assert(centred(list, k).low == all[i].low);
                }
            },
        }
    }
}

// ----- selection -----

/// The rows of the truth are those whose selector lies between the bounds, both of which
/// belong.
pub proof fn law_truth_selects_between_the_bounds(
    selector: Seq<Option<i64>>,
    low: i64,
    high: i64,
    row: int,
)
    requires
        selector.len() <= usize::MAX,
    ensures
        covers(ranges_where(selects(selector, low, high), 0, selector.len() as int), row) <==> 0
            <= row < selector.len() && selector[row] is Some && low <= selector[row]->0 <= high,
{
    law_ranges_where(selects(selector, low, high), 0, selector.len() as int);
}

/// The sum over a range of selectors is that over its two parts.
pub proof fn law_truth_sums_in_parts(
    selector: Seq<Option<i64>>,
    values: Seq<Option<i64>>,
    low: i64,
    middle: i64,
    high: i64,
    n: int,
)
    requires
        0 <= n <= selector.len(),
        selector.len() == values.len(),
        low <= middle < high,
    ensures
        sum_of(selected(selector, values, low, high), 0, n) == sum_of(
            selected(selector, values, low, middle),
            0,
            n,
        ) + sum_of(selected(selector, values, (middle + 1) as i64, high), 0, n),
    decreases n,
{
    if n > 0 {
        law_truth_sums_in_parts(selector, values, low, middle, high, n - 1);
    }
}

/// The sum over every selector is that of the values whose selector is not null.
pub proof fn law_truth_sums_every_value(
    selector: Seq<Option<i64>>,
    values: Seq<Option<i64>>,
    n: int,
)
    requires
        0 <= n <= selector.len(),
        selector.len() == values.len(),
    ensures
        (forall|row: int| 0 <= row < n ==> (#[trigger] selector[row]) is Some) ==> sum_of(
            selected(selector, values, i64::MIN, i64::MAX),
            0,
            n,
        ) == sum_of(|row: int| values[row], 0, n),
    decreases n,
{
    if n > 0 {
        law_truth_sums_every_value(selector, values, n - 1);
        if forall|row: int| 0 <= row < n ==> (#[trigger] selector[row]) is Some {
            assert(selector[n - 1] is Some);
        }
    }
}

proof fn lemma_rows_pushed(ranges: Seq<Span>, span: Span, n: int)
    requires
        0 <= n <= ranges.len(),
    ensures
        rows_in(ranges.push(span), n) == rows_in(ranges, n),
    decreases n,
{
    if n > 0 {
        lemma_rows_pushed(ranges, span, n - 1);
    }
}

proof fn lemma_rows_same(a: Seq<Span>, b: Seq<Span>, n: int)
    requires
        0 <= n <= a.len(),
        n <= b.len(),
        forall|i: int| 0 <= i < n ==> a[i] == b[i],
    ensures
        rows_in(a, n) == rows_in(b, n),
    decreases n,
{
    if n > 0 {
        lemma_rows_same(a, b, n - 1);
    }
}

/// As many rows lie in the ranges of a selection as are selected.
pub proof fn law_ranges_hold_as_many_rows(hit: spec_fn(int) -> bool, n: int)
    requires
        0 <= n <= usize::MAX,
    ensures
        ({
            let ranges = ranges_where(hit, 0, n);
            rows_in(ranges, ranges.len() as int) == hits(hit, n)
        }),
    decreases n,
{
    if n > 0 {
        law_ranges_hold_as_many_rows(hit, n - 1);
        law_ranges_where(hit, 0, n - 1);
        law_ranges_where(hit, 0, n);
        let before = ranges_where(hit, 0, n - 1);
        let all = ranges_where(hit, 0, n);
        if hit(n - 1) {
            if before.len() > 0 && before.last().end == n - 1 {
                lemma_rows_same(before, all, before.len() - 1);
            } else {
                lemma_rows_same(before, all, before.len() as int);
            }
        }
    }
}

proof fn lemma_hits_counted(hit: spec_fn(int) -> bool, n: int, rows: Set<int>)
    requires
        0 <= n,
        forall|row: int| #[trigger] rows.contains(row) <==> 0 <= row < n && hit(row),
    ensures
        rows.finite(),
        rows.len() == hits(hit, n),
    decreases n,
{
    if n == 0 {
        assert(rows =~= Set::empty());
    } else {
        let before = rows.remove(n - 1);
        lemma_hits_counted(hit, n - 1, before);
        if hit(n - 1) {
            assert(rows =~= before.insert(n - 1));
        } else {
            assert(rows =~= before);
        }
    }
}

/// The matching rows are counted once each: those that hold one of the targets.
pub proof fn law_matching_rows_hold_a_target(
    values: Seq<Option<i64>>,
    targets: Seq<i64>,
    rows: Set<int>,
)
    requires
        forall|row: int| #[trigger]
            rows.contains(row) <==> 0 <= row < values.len() && values[row] is Some
                && targets.contains(values[row]->0),
    ensures
        rows.finite(),
        rows.len() == hits(
            in_hit(values, targets),
            values.len() as int,
        ),
{
    let hit = in_hit(values, targets);
    assert forall|row: int| #[trigger] rows.contains(row) <==> 0 <= row < values.len() && hit(
        row,
    ) by {
        if 0 <= row < values.len() && values[row] is Some && targets.contains(values[row]->0) {
            let i = targets.index_of(values[row]->0);
            assert(targets[i] == values[row]->0);
        }
    }
    lemma_hits_counted(hit, values.len() as int, rows);
}

/// The checksum of rows given as ranges is that of their number.
pub proof fn law_ranges_sum_up_as_counts(hit: spec_fn(int) -> bool, n: int)
    requires
        0 <= n <= usize::MAX,
    ensures
        checksum_of(Reply::Ranges(ranges_where(hit, 0, n))) == checksum_of(
            Reply::Count(hits(hit, n)),
        ),
        checksum_of(Reply::Count(hits(hit, n))) == hits(hit, n),
{
    law_ranges_hold_as_many_rows(hit, n);
}

/// The blocks that are named for nothing are counted once each: those with no row that holds
/// a target.
pub proof fn law_idle_blocks_hold_no_target(
    values: Seq<Option<i64>>,
    targets: Seq<i64>,
    blocks: Seq<usize>,
    block_rows: int,
    idle: Set<int>,
    n: int,
)
    requires
        0 <= n <= blocks.len(),
        block_rows > 0,
        forall|i: int| #[trigger]
            idle.contains(i) <==> 0 <= i < n && forall|row: int|
                0 <= row < values.len() && row / block_rows == blocks[i] ==> !((
                #[trigger] values[row]) is Some && targets.contains(values[row]->0)),
    ensures
        idle.finite(),
        idle.len() == idle_blocks(
            in_hit(values, targets),
            blocks,
            block_rows,
            values.len() as int,
            n,
        ),
    decreases n,
{
    if n == 0 {
        assert(idle =~= Set::empty());
    } else {
        let before = idle.remove(n - 1);
        law_idle_blocks_hold_no_target(values, targets, blocks, block_rows, before, n - 1);
        let block = blocks[n - 1] as int;
        let rows = values.len() as int;
        let hit = in_hit(values, targets);
        assert forall|row: int|
            #![trigger values[row]]
            0 <= row < rows && row / block_rows == block <==> block * block_rows <= row < block_end(
                block,
                block_rows,
                rows,
            ) by {
            vstd::arithmetic::div_mod::lemma_fundamental_div_mod(row, block_rows);
            vstd::arithmetic::div_mod::lemma_mod_bound(row, block_rows);
            vstd::arithmetic::mul::lemma_mul_is_commutative(block_rows, row / block_rows);
            vstd::arithmetic::mul::lemma_mul_is_distributive_add_other_way(block_rows, block, 1);
            vstd::arithmetic::mul::lemma_mul_nonnegative(block, block_rows);
            if block * block_rows <= row < block_end(block, block_rows, rows) {
                vstd::arithmetic::div_mod::lemma_fundamental_div_mod_converse(
                    row,
                    block_rows,
                    block,
                    row - block * block_rows,
                );
            }
        }
        assert(idle.contains(n - 1) <==> !block_hit(hit, block, block_rows, rows)) by {
            if block_hit(hit, block, block_rows, rows) {
                let row = choose|row: int|
                    block * block_rows <= row < block_end(block, block_rows, rows)
                        && #[trigger] hit(row);
                assert(values[row] is Some && targets.contains(values[row]->0));
            } else {
                assert forall|row: int|
                    0 <= row < values.len() && row / block_rows == blocks[n - 1] implies !((
                #[trigger] values[row]) is Some && targets.contains(values[row]->0)) by {
                    assert(!hit(row));
                }
            }
        }
        if idle.contains(n - 1) {
            assert(idle =~= before.insert(n - 1));
        } else {
            assert(idle =~= before);
        }
    }
}

/// The blocks that a fence names for some targets hold every row with one of them.
pub proof fn law_fences_name_every_target(
    values: Seq<Option<i64>>,
    stride: int,
    targets: Seq<i64>,
    row: int,
)
    requires
        stride > 0,
        all_present(values),
        non_decreasing(values),
        0 <= row < values.len() <= usize::MAX,
        targets.contains(values[row]->0),
    ensures
        fence_holds(
            fence_keys(values, stride),
            targets,
            targets.len() as int,
            (row / stride) as usize,
        ),
{
    law_fence_keeps(values, stride, row);
    let i = targets.index_of(values[row]->0);
    assert(targets[i] == values[row]->0);
}

// ----- widths -----

/// The rows of a width in the middle: so many, with as many before as after, but for one.
pub proof fn law_middles_are_centred(width: int, rows: int)
    requires
        0 <= width <= rows <= usize::MAX,
    ensures
        ({
            let span = middle(width, rows);
            &&& span.start + width == span.end <= rows
            &&& span.start <= rows - span.end <= span.start + 1
        }),
{
}

/// The narrow rows are a hundredth, or one row, about the middle; the wide ones leave a
/// seventh at each end, but for a row.
pub proof fn law_study_rows_are_about_the_middle(rows: int)
    requires
        0 < rows,
        6 * rows <= usize::MAX,
    ensures
        ({
            let narrow = narrow_rows(rows);
            let wide = wide_rows(rows);
            &&& narrow.end <= rows
            &&& narrow.start < narrow.end
            &&& rows >= 100 ==> 100 * (narrow.end - narrow.start) <= rows
            &&& 100 * (narrow.end - narrow.start + 1) > rows
            &&& 2 * narrow.start <= rows <= 2 * narrow.end
            &&& narrow.start + narrow.end - 2 * (rows / 2) <= 1
            &&& narrow.start + narrow.end - 2 * (rows / 2) >= 0
            &&& wide.end <= rows
            &&& 7 * wide.start <= rows < 7 * (wide.start + 1)
            &&& 7 * (rows - wide.end) >= rows > 7 * (rows - wide.end - 1)
        }),
{
}

// ----- estimates -----

/// Bytes that are expected to be delivered: all of the file where it is read whole or for
/// all of its rows, only the description for none, and never fewer for more rows.
pub proof fn law_expected_bytes_grow_to_the_file(
    fewer: int,
    more: int,
    total: int,
    file: int,
    metadata: int,
)
    requires
        0 <= fewer <= more <= total,
        0 < total,
        0 <= metadata <= file <= usize::MAX,
        (file - metadata) * total <= usize::MAX,
    ensures
        expected_bytes(more, total, file, metadata, true) == file,
        expected_bytes(total, total, file, metadata, false) == file,
        expected_bytes(0, total, file, metadata, false) == metadata,
        expected_bytes(fewer, total, file, metadata, false) <= expected_bytes(
            more,
            total,
            file,
            metadata,
            false,
        ) <= file,
        (expected_bytes(more, total, file, metadata, false) - metadata) * total >= (file - metadata)
            * more,
        (expected_bytes(more, total, file, metadata, false) - metadata - 1) * total < (file
            - metadata) * more,
{
    let payload = file - metadata;
    lemma_scale(more, total, payload);
    lemma_scale(fewer, more, payload);
    vstd::arithmetic::mul::lemma_mul_is_commutative(payload, more);
    vstd::arithmetic::mul::lemma_mul_is_commutative(payload, fewer);
    vstd::arithmetic::mul::lemma_mul_is_commutative(payload, total);
    vstd::arithmetic::mul::lemma_mul_nonnegative(payload, fewer);
    vstd::arithmetic::mul::lemma_mul_nonnegative(payload, more);
    lemma_ceil(payload * more, total);
    lemma_ceil(payload * fewer, total);
    lemma_ceil(payload * total, total);
    lemma_ceil(0, total);
    lemma_ceil_least(payload * fewer, payload * more, total);
    lemma_ceil_least(payload * more, payload * total, total);
    lemma_scale_next(ceil_div(payload * more, total) - 1, total);
    lemma_whole_ceil(payload, total);
    lemma_whole_ceil(0, total);
    assert(0 * total == 0);
    assert(payload * 0 == 0);
}

/// A multiple is divided without a rest.
proof fn lemma_whole_ceil(k: int, d: int)
    requires
        k >= 0,
        d > 0,
    ensures
        ceil_div(k * d, d) == k,
{
    vstd::arithmetic::mul::lemma_mul_nonnegative(k, d);
    lemma_ceil(k * d, d);
    let c = ceil_div(k * d, d);
    if c < k {
        lemma_scale(c + 1, k, d);
        lemma_scale_next(c, d);
    }
    if c > k {
        lemma_scale(k + 1, c, d);
        lemma_scale_next(k, d);
    }
}

proof fn lemma_ceil_least(a: int, b: int, d: int)
    requires
        0 <= a <= b,
        d > 0,
    ensures
        ceil_div(a, d) <= ceil_div(b, d),
{
    vstd::arithmetic::div_mod::lemma_div_is_ordered(a + d - 1, b + d - 1, d);
}

/// Transfers that are expected: one for a page that is read whole; else one, one for each
/// frame, one for each node with nulls, and one for restarts, runs, entries and exceptions
/// where there are any.
pub proof fn law_expected_transfers_add_up(
    frames: int,
    structure: StructureFeatures,
    restarts: usize,
    runs: usize,
    entries: usize,
    patches: usize,
)
    requires
        structure.restart_entries == 0,
        structure.rle_runs == 0,
        structure.dictionary_entries == 0,
        structure.patch_count == 0,
        structure.nullable_nodes == 0,
        restarts > 0,
        runs > 0,
        entries > 0,
        patches > 0,
    ensures
        expected_operations(frames, PlanKind::Fused, structure) == 1,
        expected_operations(0, PlanKind::Selective, structure) == 1,
        expected_operations(frames + 1, PlanKind::Selective, structure) == expected_operations(
            frames,
            PlanKind::Selective,
            structure,
        ) + 1,
        expected_operations(
            0,
            PlanKind::Selective,
            (StructureFeatures { restart_entries: restarts, ..structure }),
        ) == 2,
        expected_operations(
            0,
            PlanKind::Selective,
            (StructureFeatures { rle_runs: runs, ..structure }),
        ) == 2,
        expected_operations(
            0,
            PlanKind::Selective,
            (StructureFeatures { dictionary_entries: entries, ..structure }),
        ) == 2,
        expected_operations(
            0,
            PlanKind::Selective,
            (StructureFeatures { patch_count: patches, ..structure }),
        ) == 2,
        expected_operations(
            0,
            PlanKind::Selective,
            (StructureFeatures { nullable_nodes: runs, ..structure }),
        ) == 1 + runs,
        expected_operations(
            frames,
            PlanKind::Selective,
            (StructureFeatures {
                restart_entries: restarts,
                rle_runs: runs,
                dictionary_entries: entries,
                patch_count: patches,
                nullable_nodes: 0,
            }),
        ) == 5 + frames,
{
}

/// The widths of fixed tasks grow from one row to the page in six turns, and start again; a
/// task takes the page whole where it is as wide.
pub proof fn law_fixed_widths_grow_to_the_page(page: int)
    requires
        0 <= page,
    ensures
        fixed_width(page + 6) == fixed_width(page),
        page % 6 == 0 ==> fixed_width(page) == 1,
        page % 6 == 5 ==> fixed_width(page) == ROWS,
        page % 6 != 5 ==> fixed_width(page) < fixed_width(page + 1),
        page % 6 == 2 ==> 100 * fixed_width(page) <= ROWS < 100 * (fixed_width(page) + 1),
        page % 6 == 3 ==> 10 * fixed_width(page) <= ROWS < 10 * (fixed_width(page) + 1),
        page % 6 == 4 ==> 2 * fixed_width(page) <= ROWS < 2 * (fixed_width(page) + 1),
        plan_for(fixed_width(page), ROWS as int) == PlanKind::Fused <==> page % 6 == 5,
        turn(page) != turn(page + 1),
{
}

/// The widths of tasks by share never pass the rows of the column, grow over five turns, and
/// start again.
pub proof fn law_share_widths_grow_to_the_column(page: int, rows: int)
    requires
        0 <= page,
        10 <= rows,
    ensures
        share_width(page + 5, rows) == share_width(page, rows),
        1 <= share_width(page, rows) <= rows,
        page % 5 == 0 ==> share_width(page, rows) == 1,
        page % 5 == 4 ==> share_width(page, rows) == rows,
        page % 5 != 4 ==> share_width(page, rows) <= share_width(page + 1, rows),
        page % 5 == 1 && rows >= 100 ==> 100 * share_width(page, rows) <= rows < 100 * (share_width(
            page,
            rows,
        ) + 1),
        page % 5 == 2 ==> 10 * share_width(page, rows) <= rows < 10 * (share_width(page, rows) + 1),
        page % 5 == 3 ==> 2 * share_width(page, rows) <= rows < 2 * (share_width(page, rows) + 1),
{
}

// ----- pages -----

/// The memory that is given up for a range of a file is whole pages that hold the range, as
/// far as the file goes, and no page more.
pub proof fn law_evictions_hold_the_range(offset: int, length: int, file_len: int)
    requires
        0 <= offset,
        0 < length,
        offset + length <= file_len <= usize::MAX,
    ensures
        ({
            let (start, end) = memory_pages(offset, length, file_len);
            &&& start <= offset < start + 4_096
            &&& start % 4_096 == 0
            &&& offset + length <= end < offset + length + 4_096
            &&& end % 4_096 == 0 || end == file_len
            &&& end <= file_len
        }),
{
    lemma_ceil(offset + length, 4_096);
    let k = ceil_div(offset + length, 4_096);
    assert(k * 4_096 % 4_096 == 0);
    assert(offset / 4_096 * 4_096 % 4_096 == 0);
}

/// A scan names the block of every row, and no block without rows.
pub proof fn law_scans_name_every_block(rows: int, block_rows: int, block: int)
    requires
        0 <= rows <= usize::MAX,
        block_rows > 0,
        0 <= block <= usize::MAX,
    ensures
        block_range(0, ceil_div(rows, block_rows)).contains(block as usize) <==> block * block_rows
            < rows,
{
    lemma_ceil(rows, block_rows);
    let n = ceil_div(rows, block_rows);
    let blocks = block_range(0, n);
    if block < n {
        lemma_scale(block, n - 1, block_rows);
        lemma_scale_next(n - 1, block_rows);
    } else {
        lemma_scale(n, block, block_rows);
    }
    vstd::arithmetic::div_mod::lemma_div_pos_is_pos(rows + (block_rows - 1), block_rows);
    if block < n {
        assert(n <= rows) by {
            if n > rows {
                lemma_scale(rows, n - 1, block_rows);
                lemma_scale_next(n - 1, block_rows);
                lemma_scale(1, block_rows, rows);
                vstd::arithmetic::mul::lemma_mul_is_commutative(rows, block_rows);
            }
        }
        assert(blocks[block] == block as usize);
    }
    if blocks.contains(block as usize) {
        let i = blocks.index_of(block as usize);
        assert(n <= rows) by {
            if n > rows {
                lemma_scale(rows, n - 1, block_rows);
                lemma_scale_next(n - 1, block_rows);
                lemma_scale(1, block_rows, rows);
                vstd::arithmetic::mul::lemma_mul_is_commutative(rows, block_rows);
            }
        }
        assert(blocks[i] == i as usize);
    }
}

/// The ranges of pages that are placed in a bundle: a byte is in them where a byte of a
/// page is that is so far before it as the page's place.
pub proof fn law_placed_ranges_are_moved(
    closures: Seq<Seq<Span>>,
    offsets: Seq<usize>,
    n: int,
    b: int,
)
    requires
        0 <= n <= closures.len(),
        closures.len() == offsets.len(),
        forall|page: int, k: int|
            0 <= page < closures.len() && 0 <= k < closures[page].len() ==> {
                let range = #[trigger] closures[page][k];
                range.start <= range.end && offsets[page] + range.end <= usize::MAX
            },
    ensures
        covers(placed(closures, offsets, n), b) <==> exists|page: int|
            0 <= page < n && covers(#[trigger] closures[page], b - offsets[page]),
    decreases n,
{
    if n > 0 {
        law_placed_ranges_are_moved(closures, offsets, n - 1, b);
        let before = placed(closures, offsets, n - 1);
        let offset = offsets[n - 1] as int;
        let last = closures[n - 1];
        let moved = last.map_values(|range: Span| moved_range(range, offset));
        let all = placed(closures, offsets, n);
        assert(all == before + moved);
        if covers(all, b) {
            let i = choose|i: int| 0 <= i < all.len() && (#[trigger] all[i]).has(b);
            if i < before.len() {
                assert(before[i].has(b));
            } else {
                let k = i - before.len();
                assert(all[i] == moved_range(closures[n - 1][k], offset));
                assert(last[k].has(b - offset));
                assert(covers(closures[n - 1], b - offsets[n - 1]));
            }
        }
        if exists|page: int|
            0 <= page < n && covers(#[trigger] closures[page], b - offsets[page]) {
            let page = choose|page: int|
                0 <= page < n && covers(#[trigger] closures[page], b - offsets[page]);
            if page < n - 1 {
                assert(covers(before, b));
                let i = choose|i: int| 0 <= i < before.len() && (#[trigger] before[i]).has(b);
                assert(all[i].has(b));
            } else {
                let k = choose|k: int| 0 <= k < last.len() && (#[trigger] last[k]).has(b - offset);
                assert(closures[n - 1][k] == last[k]);
                assert(all[before.len() + k] == moved_range(last[k], offset));
                assert(all[before.len() + k].has(b));
            }
        }
    }
}

/// Pages that differ are scattered apart, so that the order in which they are visited at
/// random does not depend on where they stand.
pub proof fn law_pages_scatter_apart(a: usize, b: usize)
    requires
        a != b,
    ensures
        scatter(a) != scatter(b),
{
    let (x, y) = (a as u64, b as u64);
    let p = x.wrapping_mul(6_364_136_223_846_793_005);
    let q = y.wrapping_mul(6_364_136_223_846_793_005);
    assert(x.wrapping_mul(6_364_136_223_846_793_005) == p);
    lemma_unscattered(x);
    lemma_unscattered(y);
    assert(p != q);
    assert(p << 17 | p >> 47 != q << 17 | q >> 47) by (bit_vector)
        requires
            p != q,
    ;
}

/// A number times the scattering factor, times what undoes it, is the number.
proof fn lemma_unscattered(x: u64)
    ensures
        x.wrapping_mul(6_364_136_223_846_793_005).wrapping_mul(0xc097_ef87_329e_28a5) == x,
{
    let m: int = 6_364_136_223_846_793_005;
    let w: int = 0xc097_ef87_329e_28a5;
    let n: int = 0x1_0000_0000_0000_0000;
    let p = x.wrapping_mul(6_364_136_223_846_793_005) as int;
    assert(p == x * m % n);
    vstd::arithmetic::div_mod::lemma_mul_mod_noop_left(x * m, w, n);
    vstd::arithmetic::mul::lemma_mul_is_associative(x as int, m, w);
    assert(m * w == n * (m * w / n) + 1);
    let k = m * w / n;
    vstd::arithmetic::mul::lemma_mul_is_distributive_add(x as int, n * k, 1);
    vstd::arithmetic::mul::lemma_mul_is_associative(x as int, n, k);
    vstd::arithmetic::mul::lemma_mul_is_commutative(x as int, n);
    vstd::arithmetic::mul::lemma_mul_is_associative(n, x as int, k);
    vstd::arithmetic::div_mod::lemma_mod_multiples_vanish(x * k, x as int, n);
    vstd::arithmetic::div_mod::lemma_small_mod(x as nat, n as nat);
}

} // verus!
