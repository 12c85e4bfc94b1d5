//! A filter that follows what is proved about a column finds what a scan would.
#[allow(unused_imports)]
use super::answers::{law_scans_answer_from_the_values, lemma_header_reads};
#[allow(unused_imports)]
use super::builder::empty_plan;
#[allow(unused_imports)]
use super::coding::{
    coded, delta_codes, dense_values, dictionary_ids, dictionary_of, fits_i64, narrowed, offsets,
    Build, Recipe,
};
#[allow(unused_imports)]
use super::compiler::{
    column_facts, holds_step, holds_steps, is_least_piece, middle_draft, plan_draft, planned_rows,
};
#[allow(unused_imports)]
use super::decoder::{lemma_arena, DecoderNode, DeltaCoding};
#[allow(unused_imports)]
use super::encode::{
    lemma_place, marked, placement_of, present_in, statements_of, values_rise, widened,
    EncodedColumn,
};
#[allow(unused_imports)]
use super::error::Error;
#[allow(unused_imports)]
use super::execute::{answer_of, listed, matching, Reply};
#[allow(unused_imports)]
use super::filters::{
    cut_outcome, cuts_outcome, filter_outcome, filter_query, filter_way, ids_outcome,
    lemma_filter_scans, pieces_outcome, search_outcome, translate_outcome, FilterWay,
};
#[allow(unused_imports)]
use super::growth::lemma_dictionary_holds;
#[allow(unused_imports)]
use super::ids::{FieldId, NodeId};
#[allow(unused_imports)]
use super::interpreter::get_outcome;
#[allow(unused_imports)]
use super::invariants::{
    piecewise_stated, placement_stated, states, Fact, FactScope, NullPlacement, Property,
    ValueInvariant,
};
#[allow(unused_imports)]
use super::kernels::{entry_before, entry_value, lemma_entry_found, lemma_pushed_none};
#[allow(unused_imports)]
use super::plan::{PlanNode, PlanOp, Predicate};
#[allow(unused_imports)]
use super::restore::lemma_read_i64;
#[allow(unused_imports)]
use super::roundtrip::{law_decodes_what_was_encoded, lemma_entries_in_order, narrow, narrow_column};
#[allow(unused_imports)]
use super::runtime::{page_context, ClosureMode, Context};
#[allow(unused_imports)]
use super::searches::{
    halvings, is_before, lemma_before_is_monotone, lemma_halvings_grow, lemma_one_range,
    lemma_same_block, lemma_searches_countable, rises_in_blocks, wide,
};
#[allow(unused_imports)]
use super::soundness::{
    agrees, law_nothing_else_is_decoded, law_scans_answer_nothing_else, lemma_column_tells_entries,
    rows_numbered, tells, tells_entries,
};
#[allow(unused_imports)]
use super::static_baseline::entry_of;
#[allow(unused_imports)]
use super::static_queries::{block_end, comes_before, range_reply, with_range};
#[allow(unused_imports)]
use super::support::{lemma_pushed_join, ranges_where};
#[allow(unused_imports)]
use super::truths::{law_proved_facts_hold, true_of};
use vstd::prelude::*;

verus! {

/// A row of a node that decodes has its value.
pub open spec fn told(
    context: Context,
    nodes: Seq<DecoderNode>,
    id: int,
    values: Seq<Option<i64>>,
) -> bool {
    forall|row: int|
        0 <= row < values.len() ==> ((#[trigger] get_outcome(context, nodes, id, row)).result
            matches Ok(value) ==> value == values[row])
}

/// A row of a node does not decode, for this reason.
pub open spec fn row_faults(
    context: Context,
    nodes: Seq<DecoderNode>,
    id: int,
    len: int,
    e: Error,
) -> bool {
    exists|row: int|
        0 <= row < len && (#[trigger] get_outcome(context, nodes, id, row)).result == Err::<
            Option<i64>,
            Error,
        >(e)
}

proof fn lemma_halvings_bounded(n: int)
    requires
        n >= 0,
    ensures
        0 <= halvings(n) <= n,
    decreases n,
{
    if n > 0 {
        lemma_halvings_bounded(n / 2);
    }
}

// ----- boundaries -----

/// A search that ends does so at the first row that does not come before the boundary.
proof fn lemma_cut(
    context: Context,
    nodes: Seq<DecoderNode>,
    id: int,
    values: Seq<Option<i64>>,
    left: int,
    right: int,
    bound: int,
    inclusive: bool,
    nulls: NullPlacement,
    decoded: int,
)
    requires
        told(context, nodes, id, values),
        0 <= left <= right <= values.len(),
        0 <= decoded,
        forall|row: int|
            left <= row < right ==> comes_before(
                wide(#[trigger] values[row]),
                bound,
                inclusive,
                nulls,
            ) is Ok,
        forall|i: int, j: int|
            left <= i <= j < right && #[trigger] is_before(values, j, bound, inclusive, nulls)
                ==> #[trigger] is_before(values, i, bound, inclusive, nulls),
    ensures
        match cut_outcome(
            context,
            nodes,
            id,
            left,
            right,
            bound,
            inclusive,
            nulls,
            decoded,
        ).result {
            Ok((at, count)) => {
                &&& left <= at <= right
                &&& decoded <= count <= decoded + halvings(right - left)
                &&& forall|row: int|
                    left <= row < at ==> #[trigger] is_before(values, row, bound, inclusive, nulls)
                &&& forall|row: int|
                    at <= row < right ==> !#[trigger] is_before(
                        values,
                        row,
                        bound,
                        inclusive,
                        nulls,
                    )
            },
            Err(e) => {
                ||| e == Error::DecodedRowsOverflow && decoded + halvings(right - left) > usize::MAX
                ||| row_faults(context, nodes, id, values.len() as int, e)
            },
        },
    decreases right - left,
{
    if left < right {
        let mid = left + (right - left) / 2;
        let half = (right - left) / 2;
        lemma_halvings_grow(right - (mid + 1), half);
        lemma_halvings_grow(mid - left, half);
        lemma_halvings_grow(0, half);
        let read = get_outcome(context, nodes, id, mid);
        if read.result is Ok {
            assert(read.result->Ok_0 == values[mid]);
            assert(comes_before(wide(values[mid]), bound, inclusive, nulls) is Ok);
            if is_before(values, mid, bound, inclusive, nulls) {
                lemma_cut(
                    context,
                    nodes,
                    id,
                    values,
                    mid + 1,
                    right,
                    bound,
                    inclusive,
                    nulls,
                    decoded + 1,
                );
            } else {
                lemma_cut(
                    context,
                    nodes,
                    id,
                    values,
                    left,
                    mid,
                    bound,
                    inclusive,
                    nulls,
                    decoded + 1,
                );
                assert forall|row: int| mid <= row < right implies !#[trigger] is_before(
                    values,
                    row,
                    bound,
                    inclusive,
                    nulls,
                ) by {
                    if is_before(values, row, bound, inclusive, nulls) {
                        assert(is_before(values, mid, bound, inclusive, nulls));
                    }
                }
            }
        }
    }
}

/// Rows come before a boundary in order.
spec fn parted(
    values: Seq<Option<i64>>,
    from: int,
    to: int,
    bound: int,
    inclusive: bool,
    nulls: NullPlacement,
) -> bool {
    &&& forall|row: int|
        from <= row < to ==> comes_before(wide(#[trigger] values[row]), bound, inclusive, nulls) is Ok
    &&& forall|i: int, j: int|
        from <= i <= j < to && #[trigger] is_before(values, j, bound, inclusive, nulls)
            ==> #[trigger] is_before(values, i, bound, inclusive, nulls)
}

/// Between two boundaries lie the rows whose values lie between the bounds.
#[verifier::spinoff_prover]
#[verifier::rlimit(60)]
proof fn lemma_cuts(
    context: Context,
    nodes: Seq<DecoderNode>,
    id: int,
    values: Seq<Option<i64>>,
    from: int,
    to: int,
    low: i64,
    high: i64,
    nulls: NullPlacement,
    decoded: int,
)
    requires
        told(context, nodes, id, values),
        0 <= from <= to <= values.len(),
        0 <= decoded,
        low <= high,
        parted(values, from, to, low as int, false, nulls),
        parted(values, from, to, high as int, true, nulls),
    ensures
        match cuts_outcome(
            context,
            nodes,
            id,
            from,
            to,
            low as int,
            high as int,
            nulls,
            decoded,
        ).result {
            Ok((start, end, count)) => {
                &&& from <= start <= end <= to
                &&& decoded <= count <= decoded + 2 * halvings(to - from)
                &&& forall|row: int|
                    from <= row < to ==> #[trigger] matching(
                        listed(values),
                        Predicate::Between { low, high },
                    )(row) == (start <= row < end)
            },
            Err(e) => {
                ||| e == Error::DecodedRowsOverflow && decoded + 2 * halvings(to - from)
                    > usize::MAX
                ||| row_faults(context, nodes, id, values.len() as int, e)
            },
        },
{
    lemma_halvings_grow(0, to - from);
    lemma_cut(context, nodes, id, values, from, to, low as int, false, nulls, decoded);
    let first = cut_outcome(context, nodes, id, from, to, low as int, false, nulls, decoded);
    if first.result is Ok {
        let (start, counted) = first.result->Ok_0;
        lemma_halvings_grow(to - start, to - from);
        lemma_cut(context, nodes, id, values, start, to, high as int, true, nulls, counted);
        let second = cut_outcome(context, nodes, id, start, to, high as int, true, nulls, counted);
        if second.result is Ok {
            let (end, count) = second.result->Ok_0;
            let hit = matching(listed(values), Predicate::Between { low, high });
            assert forall|row: int| from <= row < to implies #[trigger] hit(row) == (start <= row
                < end) by {
                assert(comes_before(wide(values[row]), low as int, false, nulls) is Ok);
                if row < start {
                    assert(is_before(values, row, low as int, false, nulls));
                } else {
                    assert(!is_before(values, row, low as int, false, nulls));
                    if row < end {
                        assert(is_before(values, row, high as int, true, nulls));
                    } else {
                        assert(!is_before(values, row, high as int, true, nulls));
                    }
                }
            }
        }
    }
}

/// The answer of a filter is that of the values, and the fault of one is that of a row,
/// or that more rows are decoded than can be counted.
spec fn answers_right(
    context: Context,
    nodes: Seq<DecoderNode>,
    id: int,
    values: Seq<Option<i64>>,
    low: i64,
    high: i64,
    most: int,
    result: Result<(Reply, int), Error>,
) -> bool {
    match result {
        Ok((reply, decoded)) => {
            &&& reply == answer_of(filter_query(low, high), values.len() as int, listed(values))
            &&& 0 <= decoded <= most
        },
        Err(e) => {
            ||| e == Error::DecodedRowsOverflow && most > usize::MAX
            ||| row_faults(context, nodes, id, values.len() as int, e)
        },
    }
}

proof fn lemma_search(
    context: Context,
    nodes: Seq<DecoderNode>,
    id: int,
    values: Seq<Option<i64>>,
    low: i64,
    high: i64,
)
    requires
        told(context, nodes, id, values),
        values.len() <= usize::MAX,
        values_rise(values),
        placement_of(values) != NullPlacement::Arbitrary,
        low <= high,
    ensures
        answers_right(
            context,
            nodes,
            id,
            values,
            low,
            high,
            2 * halvings(values.len() as int),
            search_outcome(
                context,
                nodes,
                id,
                values.len() as int,
                low as int,
                high as int,
                placement_of(values),
            ).result,
        ),
{
    let len = values.len() as int;
    let nulls = placement_of(values);
    lemma_before_is_monotone(values, 0, low as int, false);
    lemma_before_is_monotone(values, 0, high as int, true);
    lemma_cuts(context, nodes, id, values, 0, len, low, high, nulls, 0);
    let cuts = cuts_outcome(context, nodes, id, 0, len, low as int, high as int, nulls, 0);
    if cuts.result is Ok {
        let (start, end, count) = cuts.result->Ok_0;
        let hit = matching(listed(values), Predicate::Between { low, high });
        lemma_one_range(Seq::empty(), hit, 0, start, end, len);
        assert(with_range(Seq::empty(), start, end) =~= range_reply(start, end)->Ranges_0);
    }
}

#[verifier::spinoff_prover]
#[verifier::rlimit(60)]
proof fn lemma_pieces(
    context: Context,
    nodes: Seq<DecoderNode>,
    id: int,
    values: Seq<Option<i64>>,
    low: i64,
    high: i64,
    max_rows: int,
    block_start: int,
    decoded: int,
)
    requires
        told(context, nodes, id, values),
        values.len() <= usize::MAX,
        present_in(values, 0, values.len() as int),
        max_rows > 0,
        rises_in_blocks(values, max_rows),
        low <= high,
        0 <= block_start <= values.len(),
        block_start % max_rows == 0 || block_start == values.len(),
        0 <= decoded <= 2 * block_start,
    ensures
        answers_right(
            context,
            nodes,
            id,
            values,
            low,
            high,
            2 * values.len() as int,
            pieces_outcome(
                context,
                nodes,
                id,
                values.len() as int,
                low as int,
                high as int,
                max_rows,
                block_start,
                ranges_where(
                    matching(listed(values), Predicate::Between { low, high }),
                    0,
                    block_start,
                ),
                decoded,
            ).result,
        ),
    decreases values.len() - block_start,
{
    let len = values.len() as int;
    let hit = matching(listed(values), Predicate::Between { low, high });
    if block_start < len {
        let stop = block_end(block_start, max_rows, len);
        let ranges = ranges_where(hit, 0, block_start);
        let nulls = NullPlacement::NoNulls;
        assert forall|i: int, j: int| block_start <= i <= j < stop implies (
        #[trigger] values[i])->0 <= (#[trigger] values[j])->0 by {
            lemma_same_block(block_start, i, max_rows);
            lemma_same_block(block_start, j, max_rows);
        }
        assert forall|row: int| block_start <= row < stop implies (
        #[trigger] values[row]) is Some by {}
        lemma_halvings_bounded(stop - block_start);
        lemma_cuts(context, nodes, id, values, block_start, stop, low, high, nulls, decoded);
        let cuts = cuts_outcome(
            context,
            nodes,
            id,
            block_start,
            stop,
            low as int,
            high as int,
            nulls,
            decoded,
        );
        if cuts.result is Ok {
            let (start, end, count) = cuts.result->Ok_0;
            lemma_one_range(ranges, hit, block_start, start, end, stop);
            lemma_pushed_join(Seq::empty(), hit, 0, block_start, stop);
            if stop < len {
                vstd::arithmetic::div_mod::lemma_mod_add_multiples_vanish(block_start, max_rows);
            }
            lemma_pieces(context, nodes, id, values, low, high, max_rows, stop, count);
        }
    }
}

// ----- dictionaries -----

/// The rows whose identifiers lie in the range that was found are those whose values lie
/// between the bounds.
proof fn lemma_ids(
    context: Context,
    nodes: Seq<DecoderNode>,
    ids: NodeId,
    places: Seq<int>,
    entries: int,
    hit: spec_fn(int) -> bool,
    low_id: int,
    high_id: int,
    row: int,
)
    requires
        agrees(context, nodes, ids, places),
        0 <= row <= places.len() <= usize::MAX,
        entries <= usize::MAX,
        forall|k: int|
            0 <= k < places.len() ==> 0 <= (#[trigger] places[k]) < entries && hit(k) == (low_id
                <= places[k] < high_id),
    ensures
        match ids_outcome(
            context,
            nodes,
            ids.0 as int,
            entries,
            low_id,
            high_id,
            row,
            places.len() as int,
            ranges_where(hit, 0, row),
        ).result {
            Ok(ranges) => ranges == ranges_where(hit, 0, places.len() as int),
            Err(e) => row_faults(context, nodes, ids.0 as int, places.len() as int, e),
        },
    decreases places.len() - row,
{
    if row < places.len() {
        let read = get_outcome(context, nodes, ids.0 as int, row);
        assert(tells(read.result, places[row]));
        assert(0 <= places[row] < entries);
        if read.result is Ok {
            assert(entry_of(entries, wide(read.result->Ok_0)) == Ok::<int, Error>(places[row]));
            lemma_ids(context, nodes, ids, places, entries, hit, low_id, high_id, row + 1);
        }
    }
}

/// The translation of the bounds into identifiers finds the rows whose values lie between
/// them.
#[verifier::spinoff_prover]
#[verifier::rlimit(60)]
proof fn lemma_translate(
    context: Context,
    nodes: Seq<DecoderNode>,
    id: NodeId,
    values: Seq<Option<i64>>,
    low: i64,
    high: i64,
)
    requires
        dense_values(widened(values)) is Ok,
        tells_entries(context, nodes, id, dense_values(widened(values))->Ok_0),
        values.len() <= usize::MAX,
        low <= high,
    ensures
        answers_right(
            context,
            nodes,
            nodes[id.0 as int]->ids.0 as int,
            values,
            low,
            high,
            values.len() as int,
            translate_outcome(
                context,
                nodes,
                nodes[id.0 as int]->ids.0 as int,
                nodes[id.0 as int]->dictionary.0,
                nodes[id.0 as int]->entries as int,
                values.len() as int,
                low as int,
                high as int,
            ).result,
        ),
{
    let ids = nodes[id.0 as int]->ids;
    let dictionary = nodes[id.0 as int]->dictionary;
    let entries = nodes[id.0 as int]->entries as int;
    let len = values.len() as int;
    let dense = dense_values(widened(values))->Ok_0;
    let d = dictionary_of(dense);
    let places = dictionary_ids(dense);
    let hit = matching(listed(values), Predicate::Between { low, high });
    let field = dictionary.0;
    assert(FieldId(field) == dictionary);
    lemma_dictionary_holds(dense);
    lemma_entries_in_order(context, dense, dictionary);
    let low_id = lemma_entry_found(context, field, entries, 0, entries, low as int, false);
    assert forall|k: int| 0 <= k < low_id implies #[trigger] entry_before(
        context,
        field,
        high as int,
        true,
        k,
    ) by {
        assert(entry_before(context, field, low as int, false, k));
    }
    let high_id = lemma_entry_found(context, field, entries, low_id, entries, high as int, true);
    assert(dense.len() == len);
    assert forall|row: int| 0 <= row < len implies 0 <= (#[trigger] places[row]) < entries && hit(
        row,
    ) == (low_id <= places[row] < high_id) by {
        let value = dense[row];
        assert(dense.contains(value));
        assert(d.contains(value));
        let k = choose|k: int| 0 <= k < d.len() && d[k] == value;
        lemma_place(d, k);
        assert(places[row] == k);
        lemma_read_i64(context, dictionary, narrowed(d), k);
        assert(fits_i64(dense[row]));
        assert(entry_value(context, field, k) == value);
        assert(widened(values)[row] == Some(value));
        assert(values[row] == Some(value as i64));
        assert(entry_before(context, field, low as int, false, k) == (k < low_id));
        assert(entry_before(context, field, high as int, true, k) == (k < high_id));
        assert(listed(values)(row) == values[row]);
    }
    if low_id < high_id {
        lemma_ids(context, nodes, ids, places, entries, hit, low_id, high_id, 0);
    } else {
        assert forall|row: int| 0 <= row < len implies !#[trigger] hit(row) by {
            assert(0 <= places[row] < entries);
        }
        lemma_pushed_none(Seq::empty(), hit, 0, len);
    }
}

// ----- columns -----

/// A fact that is stated of the top node is true of the values.
proof fn lemma_stated(
    column: EncodedColumn,
    recipe: Recipe,
    values: Seq<Option<i64>>,
    patch_rows: Set<usize>,
    scope: FactScope,
    property: Property,
)
    requires
        column.encodes(recipe, values, patch_rows),
        states(column_facts(column), column.decoder.top(), scope, property),
    ensures
        true_of(values, scope, property),
{
    let f = choose|f: Fact| #[trigger]
        column_facts(column).contains(f) && f.node == column.decoder.top() && f.scope == scope
            && f.property == property;
    assert(values.len() == column.truth.len());
    law_proved_facts_hold(column, recipe, values, patch_rows, f);
}

/// The way that is followed fits the values.
#[verifier::spinoff_prover]
#[verifier::rlimit(60)]
proof fn lemma_way_fits(
    column: EncodedColumn,
    recipe: Recipe,
    values: Seq<Option<i64>>,
    patch_rows: Set<usize>,
)
    requires
        column.encodes(recipe, values, patch_rows),
    ensures
        match filter_way(column) {
            FilterWay::Search { nulls } => values_rise(values) && nulls == placement_of(values)
                && nulls != NullPlacement::Arbitrary,
            FilterWay::Blocks { max_rows } => max_rows > 0 && present_in(
                values,
                0,
                values.len() as int,
            ) && rises_in_blocks(values, max_rows as int),
            FilterWay::Translate { ids, dictionary, entries } => {
                let node = column.decoder.arena()[column.decoder.top().0 as int];
                node is Dictionary && node->ids == ids && node->dictionary == dictionary
                    && node->entries == entries
            },
            FilterWay::Scan => true,
        },
{
    reveal(filter_way);
    let facts = column_facts(column);
    let root = column.decoder.top();
    let monotone = Property::Value(ValueInvariant::NonDecreasing);
    match filter_way(column) {
        FilterWay::Search { nulls } => {
            if states(facts, root, FactScope::AllRows, monotone) {
                lemma_stated(column, recipe, values, patch_rows, FactScope::AllRows, monotone);
            } else {
                lemma_stated(column, recipe, values, patch_rows, FactScope::NonNullRows, monotone);
                assert(placement_stated(facts, root, nulls));
                lemma_stated(
                    column,
                    recipe,
                    values,
                    patch_rows,
                    FactScope::AllRows,
                    Property::Value(ValueInvariant::NullPlacement(nulls)),
                );
            }
        },
        FilterWay::Blocks { max_rows } => {
            assert(is_least_piece(facts, root, max_rows));
            assert(piecewise_stated(facts, root, max_rows));
            lemma_stated(
                column,
                recipe,
                values,
                patch_rows,
                FactScope::AllRows,
                Property::Value(ValueInvariant::PiecewiseNonDecreasing { max_rows }),
            );
        },
        _ => {},
    }
}

/// No row of a column is kept as an exception that cannot be numbered.
proof fn lemma_narrow_numbered(recipe: Recipe, values: Seq<int>, patched: Seq<bool>)
    requires
        narrow(recipe, values, patched),
    ensures
        rows_numbered(recipe, values.len()),
    decreases recipe,
{
    match recipe {
        Recipe::Dictionary(child) => {
            lemma_narrow_numbered(*child, dictionary_ids(values), patched);
        },
        Recipe::Delta { restart_interval, deltas } => {
            lemma_narrow_numbered(
                *deltas,
                delta_codes(
                    values,
                    restart_interval as int,
                    DeltaCoding::ZigZag,
                ),
                patched,
            );
        },
        Recipe::UnsignedDelta { restart_interval, deltas } => {
            lemma_narrow_numbered(
                *deltas,
                delta_codes(
                    values,
                    restart_interval as int,
                    DeltaCoding::Unsigned,
                ),
                patched,
            );
        },
        Recipe::For(child) => {
            lemma_narrow_numbered(*child, offsets(values), patched);
        },
        Recipe::Frame(child) => {
            lemma_narrow_numbered(*child, values, patched);
        },
        _ => {},
    }
}

proof fn lemma_column_numbered(
    recipe: Recipe,
    values: Seq<Option<int>>,
    patched: Seq<bool>,
    build: Build,
)
    requires
        narrow_column(recipe, values, patched),
        coded(recipe, values, patched, build) is Ok,
    ensures
        rows_numbered(recipe, values.len()),
    decreases recipe,
{
    match recipe {
        Recipe::Frame(child) => {
            lemma_column_numbered(*child, values, patched, build);
        },
        Recipe::Nullable { .. } => {},
        _ => {
            lemma_narrow_numbered(recipe, dense_values(values)->Ok_0, patched);
        },
    }
}

/// A filter of an encoded column that succeeds, in whichever way the facts about it allow,
/// gives the rows whose values lie between the bounds, whatever the recipe and the values.
/// It decodes no more rows than their number can be halved, twice, where the values are in
/// order, no more than twice the rows where they are in order within blocks, and no more
/// than all rows otherwise.
#[verifier::spinoff_prover]
#[verifier::rlimit(60)]
pub proof fn law_filters_tell_the_truth(
    column: EncodedColumn,
    recipe: Recipe,
    values: Seq<Option<i64>>,
    patch_rows: Set<usize>,
    mode: ClosureMode,
    accounted: bool,
    low: i64,
    high: i64,
)
    requires
        column.encodes(recipe, values, patch_rows),
        rows_numbered(recipe, values.len()),
        low <= high,
    ensures
        filter_outcome(
            column,
            page_context(&column.page, mode, accounted),
            low,
            high,
        ).result matches Ok((reply, decoded)) ==> {
            &&& reply == answer_of(filter_query(low, high), values.len() as int, listed(values))
            &&& 0 <= decoded <= most_decoded(filter_way(column), values.len() as int)
        },
{
    lemma_filter_right(column, recipe, values, patch_rows, mode, accounted, low, high);
}

/// The most rows that a filter decodes.
pub open spec fn most_decoded(way: FilterWay, len: int) -> int {
    match way {
        FilterWay::Search { .. } => 2 * halvings(len),
        FilterWay::Blocks { .. } => 2 * len,
        FilterWay::Translate { .. } => len,
        FilterWay::Scan => len,
    }
}

#[verifier::spinoff_prover]
#[verifier::rlimit(60)]
proof fn lemma_told(
    column: EncodedColumn,
    recipe: Recipe,
    values: Seq<Option<i64>>,
    patch_rows: Set<usize>,
    mode: ClosureMode,
    accounted: bool,
)
    requires
        column.encodes(recipe, values, patch_rows),
        rows_numbered(recipe, values.len()),
    ensures
        told(
            page_context(&column.page, mode, accounted),
            column.decoder.arena(),
            column.decoder.top().0 as int,
            values,
        ),
{
    let context = page_context(&column.page, mode, accounted);
    let nodes = column.decoder.arena();
    let top = column.decoder.top().0 as int;
    assert forall|row: int| 0 <= row < values.len() implies ((#[trigger] get_outcome(
        context,
        nodes,
        top,
        row,
    )).result matches Ok(value) ==> value == values[row]) by {
        law_nothing_else_is_decoded(column, recipe, values, patch_rows, mode, accounted, row);
    }
}

/// What a filter comes to, and where its fault lies.
#[verifier::spinoff_prover]
#[verifier::rlimit(60)]
proof fn lemma_filter_right(
    column: EncodedColumn,
    recipe: Recipe,
    values: Seq<Option<i64>>,
    patch_rows: Set<usize>,
    mode: ClosureMode,
    accounted: bool,
    low: i64,
    high: i64,
)
    requires
        column.encodes(recipe, values, patch_rows),
        rows_numbered(recipe, values.len()),
        low <= high,
    ensures
        ({
            let context = page_context(&column.page, mode, accounted);
            let way = filter_way(column);
            let most = most_decoded(way, values.len() as int);
            let result = filter_outcome(column, context, low, high).result;
            if way == FilterWay::Scan {
                result matches Ok((reply, decoded)) ==> reply == answer_of(
                    filter_query(low, high),
                    values.len() as int,
                    listed(values),
                ) && decoded == values.len()
            } else {
                answers_right(
                    context,
                    column.decoder.arena(),
                    if way is Translate {
                        way->ids.0 as int
                    } else {
                        column.decoder.top().0 as int
                    },
                    values,
                    low,
                    high,
                    most,
                    result,
                )
            }
        }),
{
    reveal(filter_outcome);
    let context = page_context(&column.page, mode, accounted);
    let nodes = column.decoder.arena();
    let top = column.decoder.top();
    let len = values.len() as int;
    assert(values.len() == column.truth.len());
    lemma_way_fits(column, recipe, values, patch_rows);
    lemma_header_reads(column, recipe, values, patch_rows, mode, accounted);
    lemma_told(column, recipe, values, patch_rows, mode, accounted);
    match filter_way(column) {
        FilterWay::Search { .. } => {
            lemma_search(context, nodes, top.0 as int, values, low, high);
        },
        FilterWay::Blocks { max_rows } => {
            lemma_pieces(context, nodes, top.0 as int, values, low, high, max_rows as int, 0, 0);
        },
        FilterWay::Translate { .. } => {
            lemma_column_tells_entries(column, recipe, values, patch_rows, mode, accounted);
            lemma_translate(context, nodes, top, values, low, high);
        },
        FilterWay::Scan => {
            lemma_filter_scans(column, context, low, high);
            law_scans_answer_nothing_else(
                column,
                recipe,
                values,
                patch_rows,
                mode,
                accounted,
                filter_query(low, high),
                0,
                len,
            );
        },
    }
}

proof fn lemma_numbered(
    column: EncodedColumn,
    recipe: Recipe,
    values: Seq<Option<i64>>,
    patch_rows: Set<usize>,
)
    requires
        column.encodes(recipe, values, patch_rows),
        narrow_column(recipe, widened(values), marked(values.len(), patch_rows)),
    ensures
        rows_numbered(recipe, values.len()),
{
    lemma_column_numbered(
        recipe,
        widened(values),
        marked(values.len(), patch_rows),
        Build { plan: empty_plan(statements_of(values)), nodes: Seq::empty() },
    );
}

#[verifier::spinoff_prover]
#[verifier::rlimit(60)]
proof fn lemma_scan_right(
    column: EncodedColumn,
    recipe: Recipe,
    values: Seq<Option<i64>>,
    patch_rows: Set<usize>,
    mode: ClosureMode,
    accounted: bool,
    low: i64,
    high: i64,
)
    requires
        column.encodes(recipe, values, patch_rows),
        narrow_column(recipe, widened(values), marked(values.len(), patch_rows)),
        low <= high,
        filter_way(column) == FilterWay::Scan,
    ensures
        filter_outcome(
            column,
            page_context(&column.page, mode, accounted),
            low,
            high,
        ).result is Ok,
{
    lemma_filter_scans(column, page_context(&column.page, mode, accounted), low, high);
    assert(values.len() == column.truth.len());
    law_scans_answer_from_the_values(
        column,
        recipe,
        values,
        patch_rows,
        mode,
        accounted,
        filter_query(low, high),
        0,
        values.len() as int,
    );
}

/// Every row of a node decodes.
spec fn all_decode(context: Context, nodes: Seq<DecoderNode>, id: int, len: int) -> bool {
    forall|row: int|
        0 <= row < len ==> (#[trigger] get_outcome(context, nodes, id, row)).result is Ok
}

#[verifier::spinoff_prover]
#[verifier::rlimit(60)]
proof fn lemma_top_decodes(
    column: EncodedColumn,
    recipe: Recipe,
    values: Seq<Option<i64>>,
    patch_rows: Set<usize>,
    mode: ClosureMode,
    accounted: bool,
)
    requires
        column.encodes(recipe, values, patch_rows),
        narrow_column(recipe, widened(values), marked(values.len(), patch_rows)),
        values.len() <= usize::MAX,
    ensures
        all_decode(
            page_context(&column.page, mode, accounted),
            column.decoder.arena(),
            column.decoder.top().0 as int,
            values.len() as int,
        ),
{
    let context = page_context(&column.page, mode, accounted);
    let nodes = column.decoder.arena();
    let top = column.decoder.top().0 as int;
    assert forall|row: int| 0 <= row < values.len() implies (#[trigger] get_outcome(
        context,
        nodes,
        top,
        row,
    )).result is Ok by {
        law_decodes_what_was_encoded(column, recipe, values, patch_rows, mode, accounted, row);
    }
}

/// A row of a dictionary that decodes has an identifier that does.
proof fn lemma_ids_decode(context: Context, nodes: Seq<DecoderNode>, id: int, len: int)
    requires
        0 <= id < nodes.len(),
        nodes[id] is Dictionary,
        all_decode(context, nodes, id, len),
    ensures
        all_decode(context, nodes, nodes[id]->ids.0 as int, len),
{
    let ids = nodes[id]->ids.0 as int;
    assert forall|row: int| 0 <= row < len implies (#[trigger] get_outcome(
        context,
        nodes,
        ids,
        row,
    )).result is Ok by {
        assert(get_outcome(context, nodes, id, row).result is Ok);
    }
}

/// No row of a column decodes to a fault, nor does one of its identifiers.
#[verifier::spinoff_prover]
#[verifier::rlimit(60)]
proof fn lemma_rows_sound(
    column: EncodedColumn,
    recipe: Recipe,
    values: Seq<Option<i64>>,
    patch_rows: Set<usize>,
    mode: ClosureMode,
    accounted: bool,
)
    requires
        column.encodes(recipe, values, patch_rows),
        narrow_column(recipe, widened(values), marked(values.len(), patch_rows)),
        values.len() <= usize::MAX,
    ensures
        ({
            let context = page_context(&column.page, mode, accounted);
            let nodes = column.decoder.arena();
            let top = column.decoder.top().0 as int;
            let len = values.len() as int;
            &&& forall|e: Error| !#[trigger] row_faults(context, nodes, top, len, e)
            &&& filter_way(column) matches FilterWay::Translate { ids, .. } ==> forall|e: Error|
                !#[trigger] row_faults(context, nodes, ids.0 as int, len, e)
        }),
{
    let context = page_context(&column.page, mode, accounted);
    let nodes = column.decoder.arena();
    let top = column.decoder.top().0 as int;
    let len = values.len() as int;
    lemma_top_decodes(column, recipe, values, patch_rows, mode, accounted);
    lemma_way_fits(column, recipe, values, patch_rows);
    if filter_way(column) is Translate {
        lemma_arena(nodes, nodes.len() as int);
        lemma_ids_decode(context, nodes, top, len);
    }
}

/// Where no primitive is given more than a signed 64-bit number, the filter of an encoded
/// column succeeds, in whichever way the facts about it allow, and gives the rows whose
/// values lie between the bounds, as a scan of all rows does.
#[verifier::spinoff_prover]
#[verifier::rlimit(60)]
pub proof fn law_filters_are_exact(
    column: EncodedColumn,
    recipe: Recipe,
    values: Seq<Option<i64>>,
    patch_rows: Set<usize>,
    mode: ClosureMode,
    accounted: bool,
    low: i64,
    high: i64,
)
    requires
        column.encodes(recipe, values, patch_rows),
        narrow_column(recipe, widened(values), marked(values.len(), patch_rows)),
        2 * values.len() <= usize::MAX,
        low <= high,
    ensures
        filter_outcome(
            column,
            page_context(&column.page, mode, accounted),
            low,
            high,
        ).result matches Ok((reply, decoded)) && {
            &&& reply == answer_of(filter_query(low, high), values.len() as int, listed(values))
            &&& 0 <= decoded <= most_decoded(filter_way(column), values.len() as int)
        },
{
    lemma_numbered(column, recipe, values, patch_rows);
    lemma_filter_right(column, recipe, values, patch_rows, mode, accounted, low, high);
    if filter_way(column) == FilterWay::Scan {
        lemma_scan_right(column, recipe, values, patch_rows, mode, accounted, low, high);
    } else {
        lemma_searches_countable(values.len() as int);
        lemma_rows_sound(column, recipe, values, patch_rows, mode, accounted);
    }
}

/// The plan that is compiled for a filter takes the step that the filter follows: it
/// searches where the filter searches, and translates where the filter translates.
pub proof fn law_filters_follow_their_plans(column: EncodedColumn, nodes: Seq<PlanNode>, low: i64, high: i64)
    requires
        plan_draft(column, filter_query(low, high)).fault is None,
        holds_steps(
            nodes,
            0,
            plan_draft(column, filter_query(low, high)).steps,
            column.page.plan(),
        ),
    ensures
        match filter_way(column) {
            FilterWay::Search { nulls } => nodes.len() > 1 && nodes[1].op
                == (PlanOp::SearchMonotone { nulls }),
            FilterWay::Blocks { max_rows } => nodes.len() > 1 && nodes[1].op
                == (PlanOp::SearchPiecewiseMonotone { max_rows }),
            FilterWay::Translate { dictionary, entries, .. } => nodes.len() > 1 && nodes[1].op
                == (PlanOp::TranslateDictionaryRange { dictionary, entries }),
            FilterWay::Scan => true,
        },
{
    reveal(filter_way);
    let draft = plan_draft(column, filter_query(low, high));
    if filter_way(column) != FilterWay::Scan {
        let middle = middle_draft(
            column.page.plan(),
            column.decoder.arena(),
            column.decoder.top(),
            column_facts(column),
            filter_query(low, high),
            planned_rows(column.truth@.len() as int, filter_query(low, high)),
        );
        assert(draft.steps.len() > 1);
        assert(draft.steps[1] == middle.steps[0]);
        assert(holds_step(nodes[1], draft.steps[1], column.page.plan(), 1));
    }
}

} // verus!
