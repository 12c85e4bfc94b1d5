//! What a filter reads, compared with what a scan of all rows reads.
#[allow(unused_imports)]
use super::accounts::{
    asked_bytes, lemma_asked_finite, lemma_asked_sum, lemma_fewer_rows, lemma_logical,
};
#[allow(unused_imports)]
use super::answers::lemma_rows_each;
#[allow(unused_imports)]
use super::coding::{dense_values, dictionary_ids, dictionary_of, Recipe};
#[allow(unused_imports)]
use super::decoder::{lemma_arena, DecoderNode};
#[allow(unused_imports)]
use super::encode::{lemma_place, widened, EncodedColumn};
#[allow(unused_imports)]
use super::execute::{rows_outcome, scan_answer, scanned, Execution};
#[allow(unused_imports)]
use super::filter_laws::law_filters_tell_the_truth;
#[allow(unused_imports)]
use super::filters::{
    cut_outcome, cuts_outcome, filter_outcome, filter_query, filter_way, ids_outcome,
    pieces_outcome, translate_outcome, way_outcome, FilterWay,
};
#[allow(unused_imports)]
use super::growth::lemma_dictionary_holds;
#[allow(unused_imports)]
use super::ids::{FieldId, NodeId};
#[allow(unused_imports)]
use super::interpreter::{dictionary_value, get_outcome};
#[allow(unused_imports)]
use super::invariants::NullPlacement;
#[allow(unused_imports)]
use super::runtime::{i64_outcome, page_context, ClosureMode, Context, Event};
#[allow(unused_imports)]
use super::searches::wide;
#[allow(unused_imports)]
use super::soundness::{
    law_scans_answer_nothing_else, lemma_column_tells_entries, rows_numbered, tells, tells_entries,
};
#[allow(unused_imports)]
use super::span::Span;
#[allow(unused_imports)]
use super::static_baseline::entry_of;
#[allow(unused_imports)]
use super::static_queries::{block_end, comes_before, entry_outcome, tallied, with_range};
#[allow(unused_imports)]
use super::support::{metadata_outcome, pushed_range};
use vstd::prelude::*;

verus! {

/// Some steps ask for nothing beyond a set of bytes.
pub open spec fn within(context: Context, trace: Seq<Event>, all: Set<(FieldId, int)>) -> bool {
    asked_bytes(context, trace).subset_of(all)
}

pub proof fn lemma_within_sum(context: Context, a: Seq<Event>, b: Seq<Event>, all: Set<(FieldId, int)>)
    ensures
        within(context, a + b, all) == (within(context, a, all) && within(context, b, all)),
{
    lemma_asked_sum(context, a, b);
    let (x, y) = (asked_bytes(context, a), asked_bytes(context, b));
    if within(context, a + b, all) {
        assert forall|p: (FieldId, int)| x.contains(p) implies all.contains(p) by {
            assert(x.union(y).contains(p));
        }
        assert forall|p: (FieldId, int)| y.contains(p) implies all.contains(p) by {
            assert(x.union(y).contains(p));
        }
    }
}

/// Every row of a node is decoded within a set of bytes.
pub open spec fn rows_within(
    context: Context,
    nodes: Seq<DecoderNode>,
    id: int,
    len: int,
    all: Set<(FieldId, int)>,
) -> bool {
    forall|row: int|
        0 <= row < len ==> within(
            context,
            (#[trigger] get_outcome(context, nodes, id, row)).trace,
            all,
        )
}

/// Every row of a node decodes.
spec fn rows_decode(context: Context, nodes: Seq<DecoderNode>, id: int, len: int) -> bool {
    forall|row: int|
        0 <= row < len ==> (#[trigger] get_outcome(context, nodes, id, row)).result is Ok
}

proof fn lemma_rows_within(context: Context, nodes: Seq<DecoderNode>, id: int, len: int)
    requires
        rows_outcome(context, nodes, id, 0, len).result is Ok,
    ensures
        rows_within(
            context,
            nodes,
            id,
            len,
            asked_bytes(context, rows_outcome(context, nodes, id, 0, len).trace),
        ),
        rows_decode(context, nodes, id, len),
{
    let all = asked_bytes(context, rows_outcome(context, nodes, id, 0, len).trace);
    assert forall|row: int| 0 <= row < len implies (#[trigger] get_outcome(
        context,
        nodes,
        id,
        row,
    )).result is Ok && within(context, get_outcome(context, nodes, id, row).trace, all) by {
        lemma_rows_each(context, nodes, id, 0, len, row);
        lemma_fewer_rows(context, nodes, id, row, row + 1, len);
        let one = rows_outcome(context, nodes, id, row, row + 1).trace;
        let trace = get_outcome(context, nodes, id, row).trace;
        assert(rows_outcome(context, nodes, id, row, row).trace =~= Seq::<Event>::empty());
        assert(one =~= trace);
    }
}

proof fn lemma_cut_within(
    context: Context,
    nodes: Seq<DecoderNode>,
    id: int,
    len: int,
    all: Set<(FieldId, int)>,
    left: int,
    right: int,
    bound: int,
    inclusive: bool,
    nulls: NullPlacement,
    decoded: int,
)
    requires
        rows_within(context, nodes, id, len, all),
        0 <= left,
        right <= len,
    ensures
        within(
            context,
            cut_outcome(
                context,
                nodes,
                id,
                left,
                right,
                bound,
                inclusive,
                nulls,
                decoded,
            ).trace,
            all,
        ),
        cut_outcome(
            context,
            nodes,
            id,
            left,
            right,
            bound,
            inclusive,
            nulls,
            decoded,
        ).result matches Ok((at, _)) ==> left <= at,
    decreases right - left,
{
    if left < right {
        let mid = left + (right - left) / 2;
        let read = get_outcome(context, nodes, id, mid);
        assert(within(context, read.trace, all));
        let value = read.result->Ok_0;
        if read.result is Ok && decoded < usize::MAX && comes_before(wide(value), bound, inclusive, nulls) is Ok {
            let passed = comes_before(wide(value), bound, inclusive, nulls)->Ok_0;
            let (from, to) = if passed {
                (mid + 1, right)
            } else {
                (left, mid)
            };
            lemma_cut_within(
                context,
                nodes,
                id,
                len,
                all,
                from,
                to,
                bound,
                inclusive,
                nulls,
                decoded + 1,
            );
            let rest = cut_outcome(
                context,
                nodes,
                id,
                from,
                to,
                bound,
                inclusive,
                nulls,
                decoded + 1,
            );
            lemma_within_sum(context, read.trace, rest.trace, all);
        } else {
            assert(read.trace + Seq::<Event>::empty() =~= read.trace);
        }
    }
}

pub proof fn lemma_cuts_within(
    context: Context,
    nodes: Seq<DecoderNode>,
    id: int,
    len: int,
    all: Set<(FieldId, int)>,
    from: int,
    to: int,
    low: int,
    high: int,
    nulls: NullPlacement,
    decoded: int,
)
    requires
        rows_within(context, nodes, id, len, all),
        0 <= from,
        to <= len,
    ensures
        within(
            context,
            cuts_outcome(context, nodes, id, from, to, low, high, nulls, decoded).trace,
            all,
        ),
{
    lemma_cut_within(context, nodes, id, len, all, from, to, low, false, nulls, decoded);
    let one = cut_outcome(context, nodes, id, from, to, low, false, nulls, decoded);
    if let Ok((start, count)) = one.result {
        lemma_cut_within(context, nodes, id, len, all, start, to, high, true, nulls, count);
        let two = cut_outcome(context, nodes, id, start, to, high, true, nulls, count);
        assert(two.trace + Seq::<Event>::empty() =~= two.trace);
        lemma_within_sum(context, one.trace, two.trace, all);
    }
}

pub proof fn lemma_pieces_within(
    context: Context,
    nodes: Seq<DecoderNode>,
    id: int,
    len: int,
    all: Set<(FieldId, int)>,
    low: int,
    high: int,
    max_rows: int,
    block_start: int,
    ranges: Seq<Span>,
    decoded: int,
)
    requires
        rows_within(context, nodes, id, len, all),
        0 <= block_start,
    ensures
        within(
            context,
            pieces_outcome(
                context,
                nodes,
                id,
                len,
                low,
                high,
                max_rows,
                block_start,
                ranges,
                decoded,
            ).trace,
            all,
        ),
    decreases len - block_start,
{
    if block_start < len && max_rows > 0 {
        let stop = block_end(block_start, max_rows, len);
        let nulls = NullPlacement::NoNulls;
        lemma_cuts_within(
            context,
            nodes,
            id,
            len,
            all,
            block_start,
            stop,
            low,
            high,
            nulls,
            decoded,
        );
        let step = cuts_outcome(context, nodes, id, block_start, stop, low, high, nulls, decoded);
        if let Ok(place) = step.result {
            let more = with_range(ranges, place.0, place.1);
            lemma_pieces_within(
                context,
                nodes,
                id,
                len,
                all,
                low,
                high,
                max_rows,
                stop,
                more,
                place.2,
            );
            let rest = pieces_outcome(
                context,
                nodes,
                id,
                len,
                low,
                high,
                max_rows,
                stop,
                more,
                place.2,
            );
            lemma_within_sum(context, step.trace, rest.trace, all);
        }
    }
}

// ----- dictionaries -----

/// Every entry of a dictionary is read within a set of bytes.
pub open spec fn entries_within(
    context: Context,
    dictionary: usize,
    entries: int,
    all: Set<(FieldId, int)>,
) -> bool {
    forall|k: int|
        0 <= k < entries ==> within(
            context,
            (#[trigger] i64_outcome(context, FieldId(dictionary), k)).trace,
            all,
        )
}

proof fn lemma_entry_within(
    context: Context,
    dictionary: usize,
    entries: int,
    all: Set<(FieldId, int)>,
    left: int,
    right: int,
    bound: int,
    inclusive: bool,
)
    requires
        entries_within(context, dictionary, entries, all),
        0 <= left,
        right <= entries,
    ensures
        within(
            context,
            entry_outcome(context, dictionary, left, right, bound, inclusive).trace,
            all,
        ),
        entry_outcome(context, dictionary, left, right, bound, inclusive).result matches Ok(at)
            ==> left <= at,
    decreases right - left,
{
    if left < right {
        let mid = left + (right - left) / 2;
        let read = i64_outcome(context, FieldId(dictionary), mid);
        assert(within(context, read.trace, all));
        if let Ok(value) = read.result {
            let (from, to) = if value < bound || (inclusive && value == bound) {
                (mid + 1, right)
            } else {
                (left, mid)
            };
            lemma_entry_within(context, dictionary, entries, all, from, to, bound, inclusive);
            let rest = entry_outcome(context, dictionary, from, to, bound, inclusive);
            lemma_within_sum(context, read.trace, rest.trace, all);
        }
    }
}

proof fn lemma_ids_within(
    context: Context,
    nodes: Seq<DecoderNode>,
    ids: int,
    entries: int,
    low_id: int,
    high_id: int,
    row: int,
    len: int,
    ranges: Seq<Span>,
    all: Set<(FieldId, int)>,
)
    requires
        rows_within(context, nodes, ids, len, all),
        0 <= row,
    ensures
        within(
            context,
            ids_outcome(context, nodes, ids, entries, low_id, high_id, row, len, ranges).trace,
            all,
        ),
    decreases len - row,
{
    if row < len {
        let read = get_outcome(context, nodes, ids, row);
        assert(within(context, read.trace, all));
        assert(read.trace + Seq::<Event>::empty() =~= read.trace);
        match entry_of(entries, wide(read.result->Ok_0)) {
            Ok(entry) => if read.result is Ok {
                let more = if low_id <= entry < high_id {
                    pushed_range(ranges, row, row + 1)
                } else {
                    ranges
                };
                lemma_ids_within(
                    context,
                    nodes,
                    ids,
                    entries,
                    low_id,
                    high_id,
                    row + 1,
                    len,
                    more,
                    all,
                );
                let rest = ids_outcome(
                    context,
                    nodes,
                    ids,
                    entries,
                    low_id,
                    high_id,
                    row + 1,
                    len,
                    more,
                );
                lemma_within_sum(context, read.trace, rest.trace, all);
            },
            Err(_) => {},
        }
    }
}

/// The translation of bounds into identifiers reads entries and identifiers.
pub proof fn lemma_translation_within(
    context: Context,
    nodes: Seq<DecoderNode>,
    ids: int,
    dictionary: usize,
    entries: int,
    len: int,
    low: int,
    high: int,
    all: Set<(FieldId, int)>,
)
    requires
        entries_within(context, dictionary, entries, all),
        rows_within(context, nodes, ids, len, all),
    ensures
        within(
            context,
            translate_outcome(context, nodes, ids, dictionary, entries, len, low, high).trace,
            all,
        ),
{
    lemma_entry_within(context, dictionary, entries, all, 0, entries, low, false);
    let one = entry_outcome(context, dictionary, 0, entries, low, false);
    if let Ok(low_id) = one.result {
        lemma_entry_within(context, dictionary, entries, all, low_id, entries, high, true);
        let two = entry_outcome(context, dictionary, low_id, entries, high, true);
        if let Ok(high_id) = two.result {
            if low_id < high_id {
                lemma_ids_within(
                    context,
                    nodes,
                    ids,
                    entries,
                    low_id,
                    high_id,
                    0,
                    len,
                    Seq::empty(),
                    all,
                );
                let three = ids_outcome(
                    context,
                    nodes,
                    ids,
                    entries,
                    low_id,
                    high_id,
                    0,
                    len,
                    Seq::empty(),
                );
                assert(three.trace + Seq::<Event>::empty() =~= three.trace);
                lemma_within_sum(context, two.trace, three.trace, all);
                lemma_within_sum(context, one.trace, two.trace + three.trace, all);
            } else {
                assert(two.trace + Seq::<Event>::empty() =~= two.trace);
                lemma_within_sum(context, one.trace, two.trace, all);
            }
        } else {
            lemma_within_sum(context, one.trace, two.trace, all);
        }
    }
}

/// A row of a dictionary reads its identifier and the entry that has it.
#[verifier::spinoff_prover]
#[verifier::rlimit(60)]
proof fn lemma_dictionary_row(
    context: Context,
    nodes: Seq<DecoderNode>,
    id: int,
    row: int,
    all: Set<(FieldId, int)>,
)
    requires
        0 <= id < nodes.len(),
        nodes[id] is Dictionary,
        get_outcome(context, nodes, id, row).result is Ok,
        within(context, get_outcome(context, nodes, id, row).trace, all),
    ensures
        ({
            let inner = get_outcome(context, nodes, nodes[id]->ids.0 as int, row);
            &&& inner.result matches Ok(Some(entry)) && within(
                context,
                i64_outcome(context, nodes[id]->dictionary, entry as usize as int).trace,
                all,
            )
            &&& within(context, inner.trace, all)
        }),
{
    let inner = get_outcome(context, nodes, nodes[id]->ids.0 as int, row);
    let entry = inner.result->Ok_0;
    let rest = dictionary_value(context, nodes[id]->dictionary, nodes[id]->entries, entry);
    let read = i64_outcome(context, nodes[id]->dictionary, entry->0 as usize as int);
    assert(get_outcome(context, nodes, id, row).trace == inner.trace + rest.trace);
    lemma_within_sum(context, inner.trace, rest.trace, all);
    assert(read.trace + Seq::<Event>::empty() =~= read.trace);
    assert(rest.trace == read.trace);
}

/// The translation of bounds into identifiers reads nothing that a scan does not read.
#[verifier::spinoff_prover]
#[verifier::rlimit(60)]
proof fn lemma_translate_within(
    context: Context,
    nodes: Seq<DecoderNode>,
    id: NodeId,
    values: Seq<int>,
    all: Set<(FieldId, int)>,
    low: int,
    high: int,
)
    requires
        id.0 < nodes.len(),
        tells_entries(context, nodes, id, values),
        values.len() <= usize::MAX,
        rows_within(context, nodes, id.0 as int, values.len() as int, all),
        rows_decode(context, nodes, id.0 as int, values.len() as int),
    ensures
        within(
            context,
            translate_outcome(
                context,
                nodes,
                nodes[id.0 as int]->ids.0 as int,
                nodes[id.0 as int]->dictionary.0,
                nodes[id.0 as int]->entries as int,
                values.len() as int,
                low,
                high,
            ).trace,
            all,
        ),
{
    let ids = nodes[id.0 as int]->ids;
    let dictionary = nodes[id.0 as int]->dictionary;
    let entries = nodes[id.0 as int]->entries as int;
    let len = values.len() as int;
    let d = dictionary_of(values);
    lemma_dictionary_holds(values);
    assert forall|row: int| 0 <= row < len implies (#[trigger] get_outcome(
        context,
        nodes,
        ids.0 as int,
        row,
    )).result is Ok && within(
        context,
        get_outcome(context, nodes, ids.0 as int, row).trace,
        all,
    ) by {
        assert(get_outcome(context, nodes, id.0 as int, row).result is Ok);
        lemma_dictionary_row(context, nodes, id.0 as int, row, all);
    }
    assert(FieldId(dictionary.0) == dictionary);
    assert forall|k: int| 0 <= k < entries implies within(
        context,
        (#[trigger] i64_outcome(context, FieldId(dictionary.0), k)).trace,
        all,
    ) by {
        assert(d.contains(d[k]));
        assert(values.contains(d[k]));
        let row = choose|row: int| 0 <= row < values.len() && values[row] == d[k];
        lemma_place(d, k);
        assert(dictionary_ids(values)[row] == k);
        let inner = get_outcome(context, nodes, ids.0 as int, row);
        assert(tells(inner.result, k));
        assert(get_outcome(context, nodes, id.0 as int, row).result is Ok);
        lemma_dictionary_row(context, nodes, id.0 as int, row, all);
        assert((k as i64) as usize == k);
    }
    lemma_translation_within(
        context,
        nodes,
        ids.0 as int,
        dictionary.0,
        entries,
        len,
        low,
        high,
        all,
    );
}

// ----- columns -----

/// What follows the header is read by a scan too.
#[verifier::spinoff_prover]
#[verifier::rlimit(60)]
proof fn lemma_way_within(
    column: EncodedColumn,
    recipe: Recipe,
    values: Seq<Option<i64>>,
    patch_rows: Set<usize>,
    mode: ClosureMode,
    low: i64,
    high: i64,
)
    requires
        column.encodes(recipe, values, patch_rows),
        rows_numbered(recipe, values.len()),
        rows_outcome(
            page_context(&column.page, mode, true),
            column.decoder.arena(),
            column.decoder.top().0 as int,
            0,
            values.len() as int,
        ).result is Ok,
    ensures
        ({
            let context = page_context(&column.page, mode, true);
            let nodes = column.decoder.arena();
            let id = column.decoder.top().0 as int;
            let len = values.len() as int;
            within(
                context,
                way_outcome(context, nodes, id, filter_way(column), len, low, high).trace,
                asked_bytes(context, rows_outcome(context, nodes, id, 0, len).trace),
            )
        }),
{
    let context = page_context(&column.page, mode, true);
    let nodes = column.decoder.arena();
    let top = column.decoder.top();
    let id = top.0 as int;
    let len = values.len() as int;
    let all = asked_bytes(context, rows_outcome(context, nodes, id, 0, len).trace);
    assert(values.len() == column.truth.len());
    lemma_rows_within(context, nodes, id, len);
    match filter_way(column) {
        FilterWay::Search { nulls } => {
            lemma_cuts_within(
                context,
                nodes,
                id,
                len,
                all,
                0,
                len,
                low as int,
                high as int,
                nulls,
                0,
            );
            let cuts = cuts_outcome(context, nodes, id, 0, len, low as int, high as int, nulls, 0);
            assert(cuts.trace + Seq::<Event>::empty() =~= cuts.trace);
        },
        FilterWay::Blocks { max_rows } => {
            lemma_pieces_within(
                context,
                nodes,
                id,
                len,
                all,
                low as int,
                high as int,
                max_rows as int,
                0,
                Seq::empty(),
                0,
            );
        },
        FilterWay::Translate { .. } => {
            lemma_arena(nodes, nodes.len() as int);
            assert(nodes[id] is Dictionary && filter_way(column) == (FilterWay::Translate {
                ids: nodes[id]->ids,
                dictionary: nodes[id]->dictionary,
                entries: nodes[id]->entries,
            })) by {
                reveal(filter_way);
            }
            lemma_column_tells_entries(column, recipe, values, patch_rows, mode, true);
            let dense = dense_values(widened(values))->Ok_0;
            assert(dense.len() == len);
            lemma_translate_within(context, nodes, top, dense, all, low as int, high as int);
        },
        FilterWay::Scan => {
            let rows = rows_outcome(context, nodes, id, 0, len);
            assert(rows.trace + Seq::<Event>::empty() =~= rows.trace);
        },
    }
}

/// A filter of an encoded column, in whichever way the facts about it allow, and a scan of
/// all its rows give the same answer where both succeed, and the filter counts no more
/// bytes than the scan.
#[verifier::spinoff_prover]
#[verifier::rlimit(60)]
pub proof fn law_filters_read_no_more_than_scans(
    column: EncodedColumn,
    recipe: Recipe,
    values: Seq<Option<i64>>,
    patch_rows: Set<usize>,
    mode: ClosureMode,
    low: i64,
    high: i64,
    filter: Execution,
    scan: Execution,
)
    requires
        column.encodes(recipe, values, patch_rows),
        rows_numbered(recipe, values.len()),
        low <= high,
        tallied(
            Ok(filter),
            page_context(&column.page, mode, true),
            filter_outcome(column, page_context(&column.page, mode, true), low, high),
        ),
        scanned(Ok(scan), column, filter_query(low, high), mode, 0, values.len() as int),
    ensures
        filter.answer@ == scan.answer@,
        filter.metrics.logical_bytes <= scan.metrics.logical_bytes,
{
    let context = page_context(&column.page, mode, true);
    let nodes = column.decoder.arena();
    let id = column.decoder.top().0 as int;
    let len = values.len() as int;
    let query = filter_query(low, high);
    assert(values.len() == column.truth.len());
    law_filters_tell_the_truth(column, recipe, values, patch_rows, mode, true, low, high);
    law_scans_answer_nothing_else(column, recipe, values, patch_rows, mode, true, query, 0, len);
    lemma_way_within(column, recipe, values, patch_rows, mode, low, high);
    let header = metadata_outcome(context).trace;
    let rows = rows_outcome(context, nodes, id, 0, len).trace;
    let steps = way_outcome(context, nodes, id, filter_way(column), len, low, high).trace;
    let few = filter_outcome(column, context, low, high).trace;
    let many = scan_answer(context, nodes, id, query, len, 0, len).trace;
    assert(rows + Seq::<Event>::empty() =~= rows);
    assert(many == header + rows);
    assert(few == header + steps) by {
        reveal(filter_outcome);
    }
    lemma_asked_sum(context, header, rows);
    lemma_asked_sum(context, header, steps);
    lemma_logical(context, few);
    lemma_logical(context, many);
    lemma_asked_finite(context, many);
    assert(asked_bytes(context, few).subset_of(asked_bytes(context, many)));
    vstd::set_lib::lemma_len_subset(asked_bytes(context, few), asked_bytes(context, many));
}

} // verus!
