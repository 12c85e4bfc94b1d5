//! What plans are for: each names what its run reads, and little more.
#[allow(unused_imports)]
use super::access::field_bytes;
#[allow(unused_imports)]
use super::accounts::{asked_bytes, event_bytes, lemma_asked_sum};
#[allow(unused_imports)]
use super::compiler::{
    block_bytes, block_first, block_last, blocks_bytes, column_facts, counts_runs, from_restart,
    holds_step, holds_steps, last_restart, middle_draft, node_draft, packed_bytes, plan_draft,
    planned_rows, rank_bytes,
};
#[allow(unused_imports)]
use super::decoder::{lemma_arena, node_error, DecoderNode};
#[allow(unused_imports)]
use super::encode::EncodedColumn;
#[allow(unused_imports)]
use super::execute::{asked_rows, count_runs_answer, rows_outcome, runs_outcome, scan_answer};
#[allow(unused_imports)]
use super::filter_accounts::{
    lemma_cuts_within, lemma_pieces_within, lemma_translation_within, lemma_within_sum, rows_within,
    within,
};
#[allow(unused_imports)]
use super::filters::{
    cuts_outcome, filter_outcome, filter_query, filter_way, way_outcome, FilterWay,
};
#[allow(unused_imports)]
use super::ids::FieldId;
#[allow(unused_imports)]
use super::interpreter::get_outcome;
#[allow(unused_imports)]
use super::layout::{lemma_floor, lemma_quotient, lemma_scale, lemma_scale_next, Layout};
#[allow(unused_imports)]
use super::plan::{PlanNode, PlanOp, Query};
#[allow(unused_imports)]
use super::plan_accounts::{
    draft_names, holds_field, law_plans_name_what_queries_read, lemma_field_within,
    lemma_header_within, lemma_i64_within, lemma_middle_named, lemma_more_steps, lemma_node_within,
    lemma_none_within, lemma_plan_names, lemma_required, lemma_row_planned, lemma_translated_row,
    lemma_u32_within, plan_names, translates,
};
#[allow(unused_imports)]
use super::runtime::{
    ceil_div, i64_outcome, lemma_ceil, packed_bit, packed_byte, packed_end, page_context,
    u32_outcome, ClosureMode, Context, Event,
};
#[allow(unused_imports)]
use super::span::Span;
#[allow(unused_imports)]
use super::support::metadata_outcome;
use vstd::prelude::*;

verus! {

// ----- counts by runs -----

proof fn lemma_runs_within(
    context: Context,
    nodes: Seq<DecoderNode>,
    values: int,
    lengths: FieldId,
    target: i64,
    run: int,
    runs: int,
    count: int,
    all: Set<(FieldId, int)>,
)
    requires
        0 <= run,
        holds_field(context, lengths, all),
        rows_within(context, nodes, values, runs, all),
    ensures
        within(
            context,
            runs_outcome(context, nodes, values, lengths, target, run, runs, count).trace,
            all,
        ),
    decreases runs - run,
{
    lemma_none_within(context, all);
    if run < runs {
        let read = get_outcome(context, nodes, values, run);
        assert(within(context, read.trace, all));
        if let Ok(value) = read.result {
            if value == Some(target) {
                let length = u32_outcome(context, lengths, run);
                lemma_u32_within(context, lengths, run, all);
                assert(length.trace + Seq::<Event>::empty() =~= length.trace);
                lemma_within_sum(context, read.trace, length.trace, all);
                if let Ok(more) = length.result {
                    if count + more <= usize::MAX {
                        lemma_runs_within(
                            context,
                            nodes,
                            values,
                            lengths,
                            target,
                            run + 1,
                            runs,
                            count + more,
                            all,
                        );
                        let rest = runs_outcome(
                            context,
                            nodes,
                            values,
                            lengths,
                            target,
                            run + 1,
                            runs,
                            count + more,
                        );
                        lemma_within_sum(context, length.trace, rest.trace, all);
                        lemma_within_sum(context, read.trace, length.trace + rest.trace, all);
                    }
                }
            } else {
                lemma_runs_within(
                    context,
                    nodes,
                    values,
                    lengths,
                    target,
                    run + 1,
                    runs,
                    count,
                    all,
                );
                let rest = runs_outcome(
                    context,
                    nodes,
                    values,
                    lengths,
                    target,
                    run + 1,
                    runs,
                    count,
                );
                lemma_within_sum(context, read.trace, rest.trace, all);
            }
        }
    }
}

/// Every byte that is asked for to count the rows with a value by their runs is named by
/// the plan that is compiled for the count.
pub proof fn law_plans_name_what_counts_by_runs_read(
    column: EncodedColumn,
    query: Query,
    plan: Seq<PlanNode>,
    target: i64,
    mode: ClosureMode,
    accounted: bool,
)
    requires
        column.wf(),
        plan_draft(column, query).fault is None,
        holds_steps(plan, 0, plan_draft(column, query).steps, column.page.plan()),
        counts_runs(column.decoder.arena(), column.decoder.top(), query),
    ensures
        ({
            let context = page_context(&column.page, mode, accounted);
            asked_bytes(
                context,
                count_runs_answer(
                    context,
                    column.decoder.arena(),
                    column.decoder.top(),
                    target,
                ).trace,
            ).subset_of(plan_names(plan))
        }),
{
    let context = page_context(&column.page, mode, accounted);
    let layout = context.layout;
    let nodes = column.decoder.arena();
    let root = column.decoder.top();
    let top = root.0 as int;
    let rows = planned_rows(column.truth@.len() as int, query);
    let middle = middle_draft(layout, nodes, root, column_facts(column), query, rows);
    let all = draft_names(column, query);
    lemma_arena(nodes, nodes.len() as int);
    lemma_header_within(column, query, context);
    lemma_middle_named(column, query);
    if let DecoderNode::Rle { values, run_lengths, runs, .. } = nodes[top] {
        let child = values.0 as int;
        let asked = Span { start: 0, end: runs };
        let first = middle.steps.take(1);
        let rest = node_draft(layout, nodes, child, asked, true);
        assert(middle.steps =~= first + rest.steps);
        lemma_required(context, middle.steps, 0, run_lengths);
        assert forall|run: int| 0 <= run < runs implies within(
            context,
            (#[trigger] get_outcome(context, nodes, child, run)).trace,
            all,
        ) by {
            lemma_node_within(context, nodes, child, asked, true, run);
            lemma_more_steps(
                context,
                get_outcome(context, nodes, child, run).trace,
                first,
                rest.steps,
            );
        }
        assert(holds_field(context, run_lengths, all));
        lemma_runs_within(context, nodes, child, run_lengths, target, 0, runs as int, 0, all);
        let header = metadata_outcome(context);
        let steps = runs_outcome(
            context,
            nodes,
            child,
            run_lengths,
            target,
            0,
            runs as int,
            0,
        );
        assert(steps.trace + Seq::<Event>::empty() =~= steps.trace);
        lemma_within_sum(context, header.trace, steps.trace, all);
    }
    lemma_plan_names(plan, plan_draft(column, query).steps, column.page.plan());
}

// ----- filters -----

/// Every byte that a filter asks for, in whichever way the facts about the column allow, is
/// named by the plan that is compiled for it.
#[verifier::spinoff_prover]
#[verifier::rlimit(80)]
pub proof fn law_plans_name_what_filters_read(
    column: EncodedColumn,
    low: i64,
    high: i64,
    plan: Seq<PlanNode>,
    mode: ClosureMode,
    accounted: bool,
)
    requires
        column.wf(),
        plan_draft(column, filter_query(low, high)).fault is None,
        holds_steps(
            plan,
            0,
            plan_draft(column, filter_query(low, high)).steps,
            column.page.plan(),
        ),
    ensures
        ({
            let context = page_context(&column.page, mode, accounted);
            asked_bytes(context, filter_outcome(column, context, low, high).trace).subset_of(
                plan_names(plan),
            )
        }),
{
    let context = page_context(&column.page, mode, accounted);
    let query = filter_query(low, high);
    let nodes = column.decoder.arena();
    let root = column.decoder.top();
    let top = root.0 as int;
    let len = column.truth.len() as int;
    assert(len == column.truth@.len());
    let all = draft_names(column, query);
    let way = filter_way(column);
    let steps = way_outcome(context, nodes, top, way, len, low, high);
    lemma_arena(nodes, nodes.len() as int);
    lemma_header_within(column, query, context);
    assert forall|row: int| 0 <= row < len implies within(
        context,
        (#[trigger] get_outcome(context, nodes, top, row)).trace,
        all,
    ) by {
        lemma_row_planned(column, query, context, row);
    }
    assert(rows_within(context, nodes, top, len, all));
    match way {
        FilterWay::Search { nulls } => {
            lemma_cuts_within(
                context,
                nodes,
                top,
                len,
                all,
                0,
                len,
                low as int,
                high as int,
                nulls,
                0,
            );
            let cuts = cuts_outcome(context, nodes, top, 0, len, low as int, high as int, nulls, 0);
            assert(cuts.trace + Seq::<Event>::empty() =~= cuts.trace);
        },
        FilterWay::Blocks { max_rows } => {
            lemma_pieces_within(
                context,
                nodes,
                top,
                len,
                all,
                low as int,
                high as int,
                max_rows as int,
                0,
                Seq::empty(),
                0,
            );
        },
        FilterWay::Translate { ids, dictionary, entries } => {
            assert(translates(column, query) && nodes[top]->ids == ids && nodes[top]->dictionary
                == dictionary) by {
                reveal(filter_way);
            }
            assert forall|row: int| 0 <= row < len implies within(
                context,
                (#[trigger] get_outcome(context, nodes, ids.0 as int, row)).trace,
                all,
            ) by {
                lemma_translated_row(column, query, context, row);
            }
            lemma_dictionary_named(column, query, context);
            assert(FieldId(dictionary.0) == dictionary);
            assert forall|k: int| 0 <= k < entries implies within(
                context,
                (#[trigger] i64_outcome(context, FieldId(dictionary.0), k)).trace,
                all,
            ) by {
                lemma_field_within(context, dictionary, k * 8, k * 8 + 8, 1, all);
                lemma_i64_within(context, dictionary, k, all);
            }
            lemma_translation_within(
                context,
                nodes,
                ids.0 as int,
                dictionary.0,
                entries as int,
                len,
                low as int,
                high as int,
                all,
            );
        },
        FilterWay::Scan => {
            super::plan_accounts::lemma_scanned_within(context, nodes, top, 0, len, all);
            let rows = rows_outcome(context, nodes, top, 0, len);
            assert(rows.trace + Seq::<Event>::empty() =~= rows.trace);
        },
    }
    lemma_within_sum(context, metadata_outcome(context).trace, steps.trace, all);
    assert(within(context, filter_outcome(column, context, low, high).trace, all)) by {
        reveal(filter_outcome);
    }
    lemma_plan_names(plan, plan_draft(column, query).steps, column.page.plan());
}

/// The dictionary of a filter that translates is named.
proof fn lemma_dictionary_named(column: EncodedColumn, query: Query, context: Context)
    requires
        column.wf(),
        context.layout == column.page.plan(),
        plan_draft(column, query).fault is None,
        translates(column, query),
    ensures
        holds_field(
            context,
            column.decoder.arena()[column.decoder.top().0 as int]->dictionary,
            draft_names(column, query),
        ),
{
    let nodes = column.decoder.arena();
    let root = column.decoder.top();
    let rows = planned_rows(column.truth@.len() as int, query);
    let middle = middle_draft(context.layout, nodes, root, column_facts(column), query, rows);
    lemma_middle_named(column, query);
    lemma_required(context, middle.steps, 0, nodes[root.0 as int]->dictionary);
}

// ----- no more than is needed -----

/// Every byte that is planned for rows of packed numbers holds bits of one of the rows.
pub proof fn law_packed_steps_need_every_byte(
    stream: FieldId,
    rows: Span,
    width: int,
    per_block: int,
    bytes: int,
    p: (FieldId, int),
)
    requires
        rows.start <= rows.end,
        0 <= width,
        0 < per_block,
        0 <= bytes,
        packed_bytes(stream, rows, width, per_block, bytes) matches Ok(required)
            && required.contains(p),
    ensures
        p.0 == stream,
        exists|row: int|
            rows.start <= row < rows.end && #[trigger] packed_byte(row, width, per_block, bytes)
                <= p.1 < packed_end(row, width, per_block, bytes),
{
    let (from, to) = (rows.start as int / per_block, (rows.end - 1) / per_block + 1);
    lemma_block_of_byte(stream, rows, width, per_block, bytes, from, to, p);
    let block = choose|block: int|
        from <= block < to && #[trigger] block_bytes(
            stream,
            rows,
            width,
            per_block,
            bytes,
            block,
        ).contains(p);
    lemma_row_of_byte(rows, width, per_block, bytes, block, p.1 - block * bytes);
    let first = block_first(rows, per_block, block);
    let o = p.1 - block * bytes;
    let j = if 8 * o >= first * width {
        8 * o / width
    } else {
        first
    };
    let row = block * per_block + j;
    assert(packed_byte(row, width, per_block, bytes) <= p.1);
}

proof fn lemma_block_of_byte(
    stream: FieldId,
    rows: Span,
    width: int,
    per_block: int,
    bytes: int,
    from: int,
    to: int,
    p: (FieldId, int),
)
    requires
        blocks_bytes(stream, rows, width, per_block, bytes, from, to) matches Ok(all)
            && all.contains(p),
    ensures
        exists|block: int|
            from <= block < to && #[trigger] block_bytes(
                stream,
                rows,
                width,
                per_block,
                bytes,
                block,
            ).contains(p),
    decreases to - from,
{
    if from < to {
        if !block_bytes(stream, rows, width, per_block, bytes, to - 1).contains(p) {
            lemma_block_of_byte(stream, rows, width, per_block, bytes, from, to - 1, p);
            let block = choose|block: int|
                from <= block < to - 1 && #[trigger] block_bytes(
                    stream,
                    rows,
                    width,
                    per_block,
                    bytes,
                    block,
                ).contains(p);
            assert(block_bytes(stream, rows, width, per_block, bytes, block).contains(p));
        }
    }
}

/// A byte of a miniblock that rows need holds bits of the row that its bits belong to.
proof fn lemma_row_of_byte(
    rows: Span,
    width: int,
    per_block: int,
    bytes: int,
    block: int,
    o: int,
)
    requires
        rows.start < rows.end,
        0 < width,
        0 < per_block,
        0 <= bytes,
        rows.start as int / per_block <= block <= (rows.end - 1) / per_block,
        block_first(rows, per_block, block) * width / 8 <= o < ceil_div(
            block_last(rows, per_block, block) * width,
            8,
        ),
    ensures
        ({
            let first = block_first(rows, per_block, block);
            let j = if 8 * o >= first * width {
                8 * o / width
            } else {
                first
            };
            let row = block * per_block + j;
            &&& rows.start <= row < rows.end
            &&& packed_byte(row, width, per_block, bytes) <= block * bytes + o < packed_end(
                row,
                width,
                per_block,
                bytes,
            )
        }),
{
    let first = block_first(rows, per_block, block);
    let last = block_last(rows, per_block, block);
    let j = if 8 * o >= first * width {
        8 * o / width
    } else {
        first
    };
    let row = block * per_block + j;
    lemma_floor(rows.start as int, per_block);
    lemma_floor(rows.end - 1, per_block);
    lemma_scale(rows.start as int / per_block, block, per_block);
    lemma_scale(block, (rows.end - 1) / per_block, per_block);
    lemma_scale_next(rows.start as int / per_block, per_block);
    lemma_scale_next(block, per_block);
    if rows.start as int / per_block < block {
        lemma_scale(rows.start as int / per_block + 1, block, per_block);
    }
    if block < (rows.end - 1) / per_block {
        lemma_scale(block + 1, (rows.end - 1) / per_block, per_block);
    }
    assert(0 <= first < last <= per_block);
    lemma_scale(0, first, width);
    lemma_ceil(last * width, 8);
    assert(8 * o < last * width);
    assert(0 <= o);
    if 8 * o >= first * width {
        lemma_floor(8 * o, width);
        assert(first <= j) by {
            if j < first {
                lemma_scale(j + 1, first, width);
                lemma_scale_next(j, width);
            }
        }
        assert(j < last) by {
            if j >= last {
                lemma_scale(last, j, width);
            }
        }
    }
    lemma_scale_next(j, width);
    vstd::arithmetic::div_mod::lemma_fundamental_div_mod_converse(row, per_block, block, j);
    assert(row / per_block == block && row % per_block == j);
    assert(j * width <= 8 * o || j == first);
    assert(8 * o < (j + 1) * width);
    reveal(packed_byte);
    reveal(packed_bit);
}

/// Differences are planned from the last restart at or before the first row that is asked
/// for, and the restarts that are planned are those of the rows.
pub proof fn law_differences_are_planned_from_the_restart(
    layout: Layout,
    nodes: Seq<DecoderNode>,
    id: int,
    rows: Span,
    dynamic: bool,
    start: usize,
)
    requires
        0 <= id < nodes.len(),
        nodes[id] matches DecoderNode::Delta { deltas, restart_interval, .. } && deltas.0 < id
            && restart_interval > 0 && start as int % restart_interval as int == 0 && start
            <= rows.start < start + restart_interval,
        rows.start < rows.end,
        node_draft(layout, nodes, id, rows, dynamic).fault is None,
    ensures
        ({
            let steps = node_draft(layout, nodes, id, rows, dynamic).steps;
            let interval = nodes[id]->restart_interval;
            let restarts = nodes[id]->restarts;
            &&& steps.len() > 0
            &&& steps[0].op matches PlanOp::SeekRestart { field, restart } && field == restarts
                && restart * interval == start
            &&& forall|b: int| #[trigger]
                steps[0].required.contains((restarts, b)) <==> exists|row: int|
                    rows.start <= row < rows.end && #[trigger] (row / interval as int) == b / 8 && b
                        >= 0
            &&& steps.skip(1) == node_draft(
                layout,
                nodes,
                nodes[id]->deltas.0 as int,
                Span { start, end: rows.end },
                dynamic,
            ).steps
        }),
{
    let steps = node_draft(layout, nodes, id, rows, dynamic).steps;
    let interval = nodes[id]->restart_interval as int;
    let restarts = nodes[id]->restarts;
    let first = rows.start as int / interval;
    let last = last_restart(rows, interval);
    lemma_floor(rows.start as int, interval);
    vstd::arithmetic::div_mod::lemma_fundamental_div_mod(start as int, interval);
    vstd::arithmetic::mul::lemma_mul_is_commutative(interval, start as int / interval);
    lemma_floor(start as int, interval);
    lemma_quotient(rows.start as int, start as int / interval, interval);
    assert(first * interval == start);
    assert(from_restart(rows, interval) == Span { start, end: rows.end });
    let rest = node_draft(
        layout,
        nodes,
        nodes[id]->deltas.0 as int,
        Span { start, end: rows.end },
        dynamic,
    ).steps;
    assert(steps.skip(1) =~= rest);
    assert(steps[0].required == field_bytes(restarts, first * 8, (last + 1) * 8));
    lemma_floor(rows.end - 1, interval);
    assert forall|b: int| #[trigger] steps[0].required.contains((restarts, b)) <==> exists|row: int|
        rows.start <= row < rows.end && #[trigger] (row / interval) == b / 8 && b >= 0 by {
        if first * 8 <= b < (last + 1) * 8 {
            let k = b / 8;
            assert(first <= k <= last);
            let row = if k == first {
                rows.start as int
            } else {
                k * interval
            };
            if k > first {
                lemma_scale(first + 1, k, interval);
                lemma_scale_next(first, interval);
                lemma_scale(k, last, interval);
                lemma_quotient(k * interval, k, interval);
            }
            assert(row / interval == b / 8);
        }
        if exists|row: int|
            rows.start <= row < rows.end && #[trigger] (row / interval) == b / 8 && b >= 0 {
            let row = choose|row: int|
                rows.start <= row < rows.end && #[trigger] (row / interval) == b / 8 && b >= 0;
            vstd::arithmetic::div_mod::lemma_div_is_ordered(rows.start as int, row, interval);
            vstd::arithmetic::div_mod::lemma_div_is_ordered(row, rows.end - 1, interval);
        }
    }
}

/// The validity that is planned for rows is that of each row, and the ranks are those at
/// every position from the first row to the first one, at or after the last, that has one.
pub proof fn law_ranks_are_planned_for_the_rows(
    validity: FieldId,
    ranks: FieldId,
    rows: Span,
    interval: int,
    b: int,
)
    requires
        validity != ranks,
        rows.start < rows.end,
        interval > 0,
    ensures
        rank_bytes(validity, ranks, rows, interval).contains((validity, b)) <==> exists|row: int|
            rows.start <= row < rows.end && #[trigger] (row / 8) == b,
        rank_bytes(validity, ranks, rows, interval).contains((ranks, b)) <==> b >= 0
            && rows.start as int / interval <= b / 4 && (b / 4 - 1) * interval < rows.end,
{
    let all = rank_bytes(validity, ranks, rows, interval);
    let n = rows.end as int;
    if all.contains((validity, b)) {
        let row = if b == rows.start as int / 8 {
            rows.start as int
        } else {
            8 * b
        };
        assert(row / 8 == b);
    }
    lemma_floor(rows.start as int, interval);
    lemma_ceil(n, interval);
    let c = ceil_div(n, interval);
    if b >= 0 && b / 4 <= c {
        lemma_scale(b / 4 - 1, c - 1, interval);
        lemma_scale_next(c - 1, interval);
    }
    if (b / 4 - 1) * interval < n && b / 4 > c {
        lemma_scale(c, b / 4 - 1, interval);
    }
}

/// A row that is among some that decode asks for no more than they do.
proof fn lemma_row_among(
    context: Context,
    nodes: Seq<DecoderNode>,
    id: int,
    from: int,
    to: int,
    row: int,
)
    requires
        from <= row < to,
        rows_outcome(context, nodes, id, from, to).result is Ok,
    ensures
        get_outcome(context, nodes, id, row).result is Ok,
        asked_bytes(context, get_outcome(context, nodes, id, row).trace).subset_of(
            asked_bytes(context, rows_outcome(context, nodes, id, from, to).trace),
        ),
    decreases to - from,
{
    let before = rows_outcome(context, nodes, id, from, to - 1);
    let last = get_outcome(context, nodes, id, to - 1);
    assert(last.trace + Seq::<Event>::empty() =~= last.trace);
    assert(rows_outcome(context, nodes, id, from, to).trace == before.trace + last.trace);
    lemma_asked_sum(context, before.trace, last.trace);
    if row < to - 1 {
        lemma_row_among(context, nodes, id, from, to - 1, row);
    }
}

/// The plan of a query on packed numbers names nothing but what its run reads, where the
/// run succeeds.
#[verifier::spinoff_prover]
#[verifier::rlimit(60)]
pub proof fn law_plans_of_packed_columns_name_nothing_else(
    column: EncodedColumn,
    query: Query,
    plan: Seq<PlanNode>,
    mode: ClosureMode,
    accounted: bool,
)
    requires
        column.wf(),
        column.decoder.arena()[column.decoder.top().0 as int] is BitUnpack,
        query is Get || query is Sum || query is Between,
        plan_draft(column, query).fault is None,
        holds_steps(plan, 0, plan_draft(column, query).steps, column.page.plan()),
        ({
            let context = page_context(&column.page, mode, accounted);
            let (from, to) = asked_rows(column.truth@.len() as int, query);
            scan_answer(
                context,
                column.decoder.arena(),
                column.decoder.top().0 as int,
                query,
                column.truth@.len() as int,
                from,
                to,
            ).result is Ok
        }),
    ensures
        ({
            let context = page_context(&column.page, mode, accounted);
            let (from, to) = asked_rows(column.truth@.len() as int, query);
            asked_bytes(
                context,
                scan_answer(
                    context,
                    column.decoder.arena(),
                    column.decoder.top().0 as int,
                    query,
                    column.truth@.len() as int,
                    from,
                    to,
                ).trace,
            ) == plan_names(plan)
        }),
{
    let context = page_context(&column.page, mode, accounted);
    let layout = context.layout;
    let nodes = column.decoder.arena();
    let id = column.decoder.top().0 as int;
    let len = column.truth@.len() as int;
    let (from, to) = asked_rows(len, query);
    let rows = planned_rows(len, query);
    let steps = plan_draft(column, query).steps;
    let scan = scan_answer(context, nodes, id, query, len, from, to).trace;
    law_plans_name_what_queries_read(column, query, plan, mode, accounted);
    lemma_arena(nodes, nodes.len() as int);
    assert(node_error(nodes, id as usize) is None);
    let header = metadata_outcome(context);
    let part = rows_outcome(context, nodes, id, from, to);
    assert(part.trace + Seq::<Event>::empty() =~= part.trace);
    assert(scan == header.trace + part.trace);
    lemma_asked_sum(context, header.trace, part.trace);
    assert(len == column.truth.len());
    assert forall|p: (FieldId, int)| plan_names(plan).contains(p) implies asked_bytes(
        context,
        scan,
    ).contains(p) by {
        let i = choose|i: int|
            0 <= i < plan.len() && ((#[trigger] plan[i]).required_fields@.contains(p) || (
            plan[i].byte_closure matches super::plan::ClosureSpec::RuntimeRefined {
                possible_fields,
                ..
            } && possible_fields@.contains(p.0)));
        assert(holds_step(plan[i], steps[i], layout, i));
        assert(steps.len() == 3);
        if i == 0 {
            lemma_header_asked(column, context);
        } else if i == 1 {
            lemma_packed_asked(context, nodes, id, rows, p);
            let row = choose|row: int|
                rows.start <= row < rows.end && asked_bytes(
                    context,
                    (#[trigger] get_outcome(context, nodes, id, row)).trace,
                ).contains(p) || get_outcome(context, nodes, id, row).result is Err && rows.start
                    <= row < rows.end;
            lemma_row_among(context, nodes, id, from, to, row);
        }
    }
    assert(asked_bytes(context, scan) =~= plan_names(plan));
}

/// The header is asked for as a whole.
proof fn lemma_header_asked(column: EncodedColumn, context: Context)
    requires
        column.wf(),
        context.layout == column.page.plan(),
    ensures
        field_bytes(
            context.layout.metadata,
            0,
            context.layout.fields[context.layout.metadata.0 as int].length as int,
        ).subset_of(asked_bytes(context, metadata_outcome(context).trace)),
{
    let layout = context.layout;
    column.page.lemma_wf();
    super::layout::lemma_valid_field(layout, layout.metadata.0 as int);
    let field = layout.fields[layout.metadata.0 as int];
    let read = seq![Event::Read { field: field.id, start: 0, end: field.length as int }];
    reveal_with_fuel(asked_bytes, 2);
    assert(read.drop_last() =~= Seq::empty());
    assert(metadata_outcome(context).trace =~= read);
}

/// A byte that is planned for packed rows is asked for by one of them, or one of them does
/// not decode.
proof fn lemma_packed_asked(
    context: Context,
    nodes: Seq<DecoderNode>,
    id: int,
    rows: Span,
    p: (FieldId, int),
)
    requires
        0 <= id < nodes.len(),
        nodes[id] matches DecoderNode::BitUnpack {
            stream,
            width,
            miniblock_rows,
            miniblock_bytes,
            ..
        } && width <= 64 && miniblock_rows > 0 && miniblock_bytes > 0 && (packed_bytes(
            stream,
            rows,
            width as int,
            miniblock_rows as int,
            miniblock_bytes as int,
        ) matches Ok(required) && required.contains(p)),
        rows.start <= rows.end,
    ensures
        exists|row: int|
            rows.start <= row < rows.end && asked_bytes(
                context,
                (#[trigger] get_outcome(context, nodes, id, row)).trace,
            ).contains(p) || get_outcome(context, nodes, id, row).result is Err && rows.start <= row
                < rows.end,
{
    if let DecoderNode::BitUnpack { stream, width, miniblock_rows, miniblock_bytes, .. } = nodes[id] {
        let (w, r, b) = (width as int, miniblock_rows as int, miniblock_bytes as int);
        law_packed_steps_need_every_byte(stream, rows, w, r, b, p);
        let row = choose|row: int|
            rows.start <= row < rows.end && #[trigger] packed_byte(row, w, r, b) <= p.1
                < packed_end(row, w, r, b);
        let got = get_outcome(context, nodes, id, row);
        if got.result is Ok {
            let read = super::runtime::bits_outcome(context, stream, row, w, r, b);
            let event = Event::Read {
                field: stream,
                start: packed_byte(row, w, r, b),
                end: packed_end(row, w, r, b),
            };
            assert(read.trace + Seq::<Event>::empty() =~= read.trace);
            assert(read.trace == seq![Event::Values(1)] + seq![event]);
            assert(event_bytes(context, event).contains(p));
            lemma_asked_sum(context, seq![Event::Values(1)], seq![event]);
            reveal_with_fuel(asked_bytes, 2);
            assert(seq![event].drop_last() =~= Seq::empty());
            assert(asked_bytes(context, seq![event]).contains(p));
        }
    }
}

} // verus!
