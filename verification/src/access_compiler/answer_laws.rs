//! What queries answer, row by row, and how plans that differ in little differ.
#[allow(unused_imports)]
use super::compiler::{
    blocks_bytes, final_step, from_restart, metadata_step, middle_draft, node_draft, packed_bytes,
    plan_draft, plan_query_error, planned_output, planned_rows, Coverage, Step,
};
#[allow(unused_imports)]
use super::decoder::{child_of, node_len, DecoderNode};
#[allow(unused_imports)]
use super::encode::EncodedColumn;
#[allow(unused_imports)]
use super::error::Error;
#[allow(unused_imports)]
use super::execute::{answer_of, asked_rows, count_where, matching, query_error, sum_of, Reply};
#[allow(unused_imports)]
use super::ids::FieldId;
#[allow(unused_imports)]
use super::layout::Layout;
#[allow(unused_imports)]
use super::plan::{OutputGuarantee, PlanOp, Predicate, Query};
#[allow(unused_imports)]
use super::span::{canonical, covers, Span};
#[allow(unused_imports)]
use super::support::{law_ranges_where, ranges_where};
use vstd::prelude::*;

verus! {

// ----- answers -----

/// Rows between two bounds: those that were asked about whose value is neither null, nor
/// below the lower, nor above the upper.
pub proof fn law_between_answers_with_its_rows(
    rows: Span,
    low: i64,
    high: i64,
    len: int,
    row_value: spec_fn(int) -> Option<i64>,
    row: int,
)
    requires
        rows.start <= rows.end,
    ensures
        answer_of(Query::Between { rows, low, high }, len, row_value) matches Reply::Ranges(found)
            && canonical(found) && (covers(found, row) <==> rows.start <= row < rows.end && (
        row_value(row) matches Some(value) && low <= value && value <= high)),
{
    law_ranges_where(
        matching(row_value, Predicate::Between { low, high }),
        rows.start as int,
        rows.end as int,
    );
}

/// A filter answers with the rows that a query between its bounds does, over all rows; one
/// for a value is one between the value and itself.
pub proof fn law_filters_answer_with_their_rows(
    value: i64,
    low: i64,
    high: i64,
    len: int,
    row_value: spec_fn(int) -> Option<i64>,
    row: int,
)
    requires
        0 <= len <= usize::MAX,
    ensures
        answer_of(
            Query::Filter { predicate: Predicate::Between { low, high } },
            len,
            row_value,
        ) matches Reply::Ranges(found) && canonical(found) && (covers(found, row) <==> 0 <= row < len
            && (row_value(row) matches Some(held) && low <= held && held <= high)),
        answer_of(
            Query::Filter { predicate: Predicate::Equals { value } },
            len,
            row_value,
        ) matches Reply::Ranges(found) && canonical(found) && (covers(found, row) <==> 0 <= row < len
            && row_value(row) == Some(value)),
{
    law_ranges_where(matching(row_value, Predicate::Between { low, high }), 0, len);
    law_ranges_where(matching(row_value, Predicate::Equals { value }), 0, len);
}

proof fn lemma_counted(hit: spec_fn(int) -> bool, n: int, rows: Set<int>)
    requires
        0 <= n,
        forall|row: int| #[trigger] rows.contains(row) <==> 0 <= row < n && hit(row),
    ensures
        rows.finite(),
        rows.len() == count_where(hit, 0, n),
    decreases n,
{
    if n == 0 {
        assert(rows =~= Set::empty());
    } else {
        let before = rows.remove(n - 1);
        lemma_counted(hit, n - 1, before);
        if hit(n - 1) {
            assert(rows =~= before.insert(n - 1));
        } else {
            assert(rows =~= before);
        }
    }
}

/// A count is the number of the rows that a filter with its predicate answers with.
pub proof fn law_counts_answer_with_the_number(
    predicate: Predicate,
    len: int,
    row_value: spec_fn(int) -> Option<i64>,
    rows: Set<int>,
)
    requires
        0 <= len <= usize::MAX,
        answer_of(Query::Filter { predicate }, len, row_value) matches Reply::Ranges(found)
            && forall|row: int| #[trigger] rows.contains(row) <==> covers(found, row),
    ensures
        rows.finite(),
        answer_of(Query::Count { predicate }, len, row_value) == Reply::Count(rows.len() as int),
{
    let hit = matching(row_value, predicate);
    law_ranges_where(hit, 0, len);
    assert forall|row: int| #[trigger] rows.contains(row) <==> 0 <= row < len && hit(row) by {
        assert(covers(ranges_where(hit, 0, len), row) == (0 <= row < len && hit(row)));
    }
    lemma_counted(hit, len, rows);
}

proof fn lemma_sum_splits(row_value: spec_fn(int) -> Option<i64>, from: int, at: int, to: int)
    requires
        from <= at <= to,
    ensures
        sum_of(row_value, from, to) == sum_of(row_value, from, at) + sum_of(row_value, at, to),
    decreases to - at,
{
    if at < to {
        lemma_sum_splits(row_value, from, at, to - 1);
    }
}

/// The sum of rows is that of two parts of them; of one row it is its value, and of a null
/// row nothing.
pub proof fn law_sums_answer_in_parts(
    start: usize,
    at: usize,
    end: usize,
    len: int,
    row_value: spec_fn(int) -> Option<i64>,
)
    requires
        start <= at <= end,
        at < usize::MAX,
    ensures
        answer_of(Query::Sum { rows: Span { start, end } }, len, row_value)->Sum_0 == answer_of(
            Query::Sum { rows: Span { start, end: at } },
            len,
            row_value,
        )->Sum_0 + answer_of(Query::Sum { rows: Span { start: at, end } }, len, row_value)->Sum_0,
        answer_of(
            Query::Sum { rows: Span { start: at, end: (at + 1) as usize } },
            len,
            row_value,
        )->Sum_0 == match row_value(at as int) {
            Some(value) => value as int,
            None => 0,
        },
        answer_of(Query::Get { row: at }, len, row_value) == Reply::Value(row_value(at as int)),
{
    lemma_sum_splits(row_value, start as int, at as int, end as int);
    reveal_with_fuel(sum_of, 3);
}

/// A query is refused where it asks about rows that are not there or runs backwards, or
/// between bounds of which the lower is above the upper.
pub proof fn law_queries_are_refused(len: int, query: Query)
    requires
        0 <= len <= usize::MAX,
    ensures
        query_error(len, query) is None <==> {
            &&& 0 <= asked_rows(len, query).0 <= asked_rows(len, query).1 <= len
            &&& match query {
                Query::Between { low, high, .. } => low <= high,
                Query::Filter { predicate: Predicate::Between { low, high } } => low <= high,
                _ => true,
            }
        },
        query_error(len, query) matches Some(e) ==> (e == Error::GetRowOutside <==> query is Get)
            && (e == Error::BetweenBoundsInvalid ==> !(query is Get || query is Sum)),
{
}

/// The rows that a plan is for are those that its query asks about: the row, the rows, or
/// every row.
pub proof fn law_plans_are_for_the_rows_asked(len: int, query: Query, row: int)
    requires
        0 <= len <= usize::MAX,
        query_error(len, query) is None,
    ensures
        planned_rows(len, query).has(row) <==> match query {
            Query::Get { row: one } => row == one,
            Query::Sum { rows } => rows.start <= row < rows.end,
            Query::Between { rows, .. } => rows.start <= row < rows.end,
            Query::Filter { .. } => 0 <= row < len,
            Query::Count { .. } => 0 <= row < len,
        },
{
}

/// A plan states an exact bitmap where its query answers with ranges of rows, and an exact
/// scalar where it answers with a number.
pub proof fn law_plans_state_what_is_answered(
    query: Query,
    len: int,
    row_value: spec_fn(int) -> Option<i64>,
)
    ensures
        planned_output(query) == OutputGuarantee::ExactBitmap <==> answer_of(query, len, row_value)
            is Ranges,
        planned_output(query) == OutputGuarantee::ExactScalar <==> !(answer_of(
            query,
            len,
            row_value,
        ) is Ranges),
{
}

// ----- steps -----

/// Whether two steps differ at most in how well their bytes are known.
pub open spec fn same_but_for_coverage(a: Step, b: Step) -> bool {
    &&& a.op == b.op
    &&& a.rows == b.rows
    &&& a.required == b.required
    &&& a.guarantee == b.guarantee
    &&& a.licence == b.licence
}

proof fn lemma_node_steps(
    layout: Layout,
    nodes: Seq<DecoderNode>,
    id: int,
    rows: Span,
    dynamic: bool,
)
    ensures
        ({
            let draft = node_draft(layout, nodes, id, rows, dynamic);
            let firm = node_draft(layout, nodes, id, rows, false);
            &&& draft.fault == firm.fault
            &&& draft.steps.len() == firm.steps.len()
            &&& forall|i: int|
                0 <= i < draft.steps.len() ==> same_but_for_coverage(
                    #[trigger] draft.steps[i],
                    firm.steps[i],
                )
            &&& dynamic ==> forall|i: int|
                0 <= i < draft.steps.len() ==> (#[trigger] draft.steps[i]).coverage is Refined
            &&& forall|i: int|
                0 <= i < draft.steps.len() ==> (#[trigger] draft.steps[i]).guarantee
                    == OutputGuarantee::PhysicalBytes
            &&& forall|i: int|
                0 <= i < draft.steps.len() ==> ((#[trigger] draft.steps[i]).coverage
                    matches Coverage::Refined { seed, .. } ==> seed == draft.steps[i].required)
        }),
    decreases id,
{
    if 0 <= id < nodes.len() && !(child_of(nodes[id]) matches Some(child) && child.0 >= id) {
        match nodes[id] {
            DecoderNode::BitUnpack { .. } => {},
            DecoderNode::For { values, .. } => {
                lemma_node_steps(layout, nodes, values.0 as int, rows, dynamic);
                lemma_node_steps(layout, nodes, values.0 as int, rows, false);
            },
            DecoderNode::Delta { deltas, restart_interval, .. } => {
                let from = from_restart(rows, restart_interval as int);
                lemma_node_steps(layout, nodes, deltas.0 as int, from, dynamic);
                lemma_node_steps(layout, nodes, deltas.0 as int, from, false);
            },
            DecoderNode::Rle { values, runs, .. } => {
                lemma_node_steps(
                    layout,
                    nodes,
                    values.0 as int,
                    Span { start: 0, end: runs },
                    true,
                );
            },
            DecoderNode::Dictionary { ids, .. } => {
                lemma_node_steps(layout, nodes, ids.0 as int, rows, dynamic);
                lemma_node_steps(layout, nodes, ids.0 as int, rows, false);
            },
            DecoderNode::Patch { values, .. } => {
                lemma_node_steps(layout, nodes, values.0 as int, rows, dynamic);
                lemma_node_steps(layout, nodes, values.0 as int, rows, false);
            },
            DecoderNode::Nullable { values, .. } => {
                if let Ok(len) = node_len(nodes, nodes[values.0 as int]) {
                    lemma_node_steps(
                        layout,
                        nodes,
                        values.0 as int,
                        Span { start: 0, end: len },
                        true,
                    );
                }
            },
        }
    }
}

/// Where the rows of a node are only known as the query runs, none of its steps is exact;
/// the steps are otherwise those for rows that are known.
pub proof fn law_nothing_is_exact_where_rows_are_not(
    layout: Layout,
    nodes: Seq<DecoderNode>,
    id: int,
    rows: Span,
    i: int,
)
    requires
        0 <= i < node_draft(layout, nodes, id, rows, true).steps.len(),
    ensures
        ({
            let open = node_draft(layout, nodes, id, rows, true);
            let firm = node_draft(layout, nodes, id, rows, false);
            &&& open.fault == firm.fault
            &&& open.steps.len() == firm.steps.len()
            &&& open.steps[i].coverage is Refined
            &&& same_but_for_coverage(open.steps[i], firm.steps[i])
        }),
{
    lemma_node_steps(layout, nodes, id, rows, true);
}

/// Packed values and what only shifts or sums them up are planned exactly where their rows
/// are known.
pub proof fn law_known_rows_are_planned_exactly(
    layout: Layout,
    nodes: Seq<DecoderNode>,
    id: int,
    rows: Span,
    i: int,
)
    requires
        0 <= i < node_draft(layout, nodes, id, rows, false).steps.len(),
        forall|k: int|
            0 <= k <= id ==> #[trigger] nodes[k] is BitUnpack || nodes[k] is For || nodes[k] is Delta,
    ensures
        node_draft(layout, nodes, id, rows, false).steps[i].coverage is Exact,
    decreases id,
{
    if 0 <= id < nodes.len() && !(child_of(nodes[id]) matches Some(child) && child.0 >= id) {
        assert(nodes[id] is BitUnpack || nodes[id] is For || nodes[id] is Delta);
        let all = node_draft(layout, nodes, id, rows, false);
        match nodes[id] {
            DecoderNode::For { values, .. } => {
                if i > 0 {
                    law_known_rows_are_planned_exactly(
                        layout,
                        nodes,
                        values.0 as int,
                        rows,
                        i - 1,
                    );
                }
            },
            DecoderNode::Delta { deltas, restart_interval, .. } => {
                if i > 0 {
                    law_known_rows_are_planned_exactly(
                        layout,
                        nodes,
                        deltas.0 as int,
                        from_restart(rows, restart_interval as int),
                        i - 1,
                    );
                }
            },
            _ => {},
        }
    }
}

/// Whether a field is one that a node reads itself.
pub open spec fn node_has(node: DecoderNode, f: FieldId) -> bool {
    match node {
        DecoderNode::BitUnpack { stream, .. } => f == stream,
        DecoderNode::For { base, .. } => f == base,
        DecoderNode::Delta { restarts, .. } => f == restarts,
        DecoderNode::Rle { run_lengths, run_index, .. } => f == run_lengths || f == run_index,
        DecoderNode::Dictionary { dictionary, .. } => f == dictionary,
        DecoderNode::Patch { positions, position_index, exceptions, .. } => f == positions || f
            == position_index || f == exceptions,
        DecoderNode::Nullable { validity, rank_index, .. } => f == validity || f == rank_index,
    }
}

/// Whether a step is of a node: what it requires, and what it may read besides, is of the
/// node's own fields.
pub open spec fn is_step_of(node: DecoderNode, step: Step) -> bool {
    &&& forall|p: (FieldId, int)| #[trigger] step.required.contains(p) ==> node_has(node, p.0)
    &&& step.coverage matches Coverage::Refined { seed, possible, .. } ==> forall|f: FieldId|
        #[trigger] possible.contains(f) ==> node_has(node, f)
}

/// Each step of a plan for a node is of one node, the node itself or one below it: it names
/// no other field.
pub proof fn law_steps_name_the_fields_of_one_node(
    layout: Layout,
    nodes: Seq<DecoderNode>,
    id: int,
    rows: Span,
    dynamic: bool,
    i: int,
)
    requires
        0 <= i < node_draft(layout, nodes, id, rows, dynamic).steps.len(),
    ensures
        exists|k: int|
            0 <= k <= id && k < nodes.len() && is_step_of(
                #[trigger] nodes[k],
                node_draft(layout, nodes, id, rows, dynamic).steps[i],
            ),
    decreases id,
{
    let steps = node_draft(layout, nodes, id, rows, dynamic).steps;
    if 0 <= id < nodes.len() && !(child_of(nodes[id]) matches Some(child) && child.0 >= id) {
        match nodes[id] {
            DecoderNode::BitUnpack { stream, width, miniblock_rows, miniblock_bytes, .. } => {
                lemma_packed_field(
                    stream,
                    rows,
                    width as int,
                    miniblock_rows as int,
                    miniblock_bytes as int,
                );
                assert(is_step_of(nodes[id], steps[0]));
            },
            DecoderNode::For { values, .. } => {
                if i > 0 {
                    law_steps_name_the_fields_of_one_node(
                        layout,
                        nodes,
                        values.0 as int,
                        rows,
                        dynamic,
                        i - 1,
                    );
                    let below = node_draft(layout, nodes, values.0 as int, rows, dynamic);
                    assert(steps[i] == below.steps[i - 1]);
                } else {
                    assert(is_step_of(nodes[id], steps[0]));
                }
            },
            DecoderNode::Delta { deltas, restart_interval, .. } => {
                let from = from_restart(rows, restart_interval as int);
                if i > 0 {
                    law_steps_name_the_fields_of_one_node(
                        layout,
                        nodes,
                        deltas.0 as int,
                        from,
                        dynamic,
                        i - 1,
                    );
                    let below = node_draft(layout, nodes, deltas.0 as int, from, dynamic);
                    assert(steps[i] == below.steps[i - 1]);
                } else {
                    assert(is_step_of(nodes[id], steps[0]));
                }
            },
            DecoderNode::Rle { values, runs, .. } => {
                let all = Span { start: 0, end: runs };
                if i > 0 {
                    law_steps_name_the_fields_of_one_node(
                        layout,
                        nodes,
                        values.0 as int,
                        all,
                        true,
                        i - 1,
                    );
                    let below = node_draft(layout, nodes, values.0 as int, all, true);
                    assert(steps[i] == below.steps[i - 1]);
                } else {
                    assert(is_step_of(nodes[id], steps[0]));
                }
            },
            DecoderNode::Dictionary { ids, .. } => {
                let below = node_draft(layout, nodes, ids.0 as int, rows, dynamic);
                if i < below.steps.len() {
                    law_steps_name_the_fields_of_one_node(
                        layout,
                        nodes,
                        ids.0 as int,
                        rows,
                        dynamic,
                        i,
                    );
                    assert(steps[i] == below.steps[i]);
                } else {
                    assert(is_step_of(nodes[id], steps[i]));
                }
            },
            DecoderNode::Patch { values, .. } => {
                if i > 0 {
                    law_steps_name_the_fields_of_one_node(
                        layout,
                        nodes,
                        values.0 as int,
                        rows,
                        dynamic,
                        i - 1,
                    );
                    let below = node_draft(layout, nodes, values.0 as int, rows, dynamic);
                    assert(steps[i] == below.steps[i - 1]);
                } else {
                    assert(is_step_of(nodes[id], steps[0]));
                }
            },
            DecoderNode::Nullable { values, .. } => {
                if i > 0 {
                    if let Ok(len) = node_len(nodes, nodes[values.0 as int]) {
                        let all = Span { start: 0, end: len };
                        law_steps_name_the_fields_of_one_node(
                            layout,
                            nodes,
                            values.0 as int,
                            all,
                            true,
                            i - 1,
                        );
                        let below = node_draft(layout, nodes, values.0 as int, all, true);
                        assert(steps[i] == below.steps[i - 1]);
                    }
                } else {
                    assert(is_step_of(nodes[id], steps[0]));
                }
            },
        }
    }
}

proof fn lemma_packed_field(stream: FieldId, rows: Span, width: int, per_block: int, bytes: int)
    ensures
        packed_bytes(stream, rows, width, per_block, bytes) matches Ok(required) ==> forall|
            p: (FieldId, int),
        | #[trigger] required.contains(p) ==> p.0 == stream,
{
    if !(width == 0 || rows.start == rows.end) {
        lemma_blocks_field(
            stream,
            rows,
            width,
            per_block,
            bytes,
            rows.start as int / per_block,
            (rows.end - 1) / per_block + 1,
        );
    }
}

proof fn lemma_blocks_field(
    stream: FieldId,
    rows: Span,
    width: int,
    per_block: int,
    bytes: int,
    from: int,
    to: int,
)
    ensures
        blocks_bytes(stream, rows, width, per_block, bytes, from, to) matches Ok(required)
            ==> forall|p: (FieldId, int)| #[trigger] required.contains(p) ==> p.0 == stream,
    decreases to - from,
{
    if from < to {
        lemma_blocks_field(stream, rows, width, per_block, bytes, from, to - 1);
    }
}

/// The first step for values with a base requires the eight bytes of the base; that for runs
/// or for exceptions requires their index and may read what the index leads to; the last step
/// for a dictionary requires nothing and may read its entries.
pub proof fn law_steps_require_bases_and_indexes(
    layout: Layout,
    nodes: Seq<DecoderNode>,
    id: int,
    rows: Span,
    dynamic: bool,
    p: (FieldId, int),
)
    requires
        0 <= id < nodes.len(),
        child_of(nodes[id]) matches Some(child) ==> child.0 < id,
        node_draft(layout, nodes, id, rows, dynamic).fault is None,
    ensures
        ({
            let steps = node_draft(layout, nodes, id, rows, dynamic).steps;
            let first = steps[0];
            let last = steps.last();
            match nodes[id] {
                DecoderNode::For { base, .. } => {
                    &&& first.required.contains(p) <==> p.0 == base && 0 <= p.1 < 8
                    &&& first.op == (PlanOp::ReadRange {
                        field: base,
                        bytes: Span { start: 0, end: 8 },
                    })
                    &&& first.rows == rows
                },
                DecoderNode::Rle { run_lengths, run_index, .. } => {
                    &&& first.required.contains(p) <==> p.0 == run_index && 0 <= p.1
                        < layout.fields[run_index.0 as int].length
                    &&& first.coverage matches Coverage::Refined { possible, .. }
                    &&& possible.contains(run_lengths)
                    &&& first.rows == rows
                },
                DecoderNode::Patch { positions, position_index, exceptions, .. } => {
                    &&& first.required.contains(p) <==> p.0 == position_index && 0 <= p.1
                        < layout.fields[position_index.0 as int].length
                    &&& first.coverage matches Coverage::Refined { possible, .. }
                    &&& possible.contains(positions) && possible.contains(exceptions)
                    &&& first.rows == rows
                },
                DecoderNode::Dictionary { dictionary, .. } => {
                    &&& !last.required.contains(p)
                    &&& last.coverage matches Coverage::Refined { possible, .. }
                    &&& possible.contains(dictionary)
                    &&& last.rows == rows
                },
                _ => true,
            }
        }),
{
    match nodes[id] {
        DecoderNode::Rle { run_lengths, .. } => {
            assert(seq![run_lengths][0] == run_lengths);
            assert(seq![run_lengths].contains(run_lengths));
        },
        DecoderNode::Patch { positions, exceptions, .. } => {
            let more = seq![positions, exceptions];
            assert(more[0] == positions && more[1] == exceptions);
            assert(more.contains(positions) && more.contains(exceptions));
        },
        DecoderNode::Dictionary { dictionary, .. } => {
            assert(seq![dictionary][0] == dictionary);
            assert(seq![dictionary].contains(dictionary));
        },
        _ => {},
    }
}

/// A plan loads the description of the page first, all of it and nothing else; its last step
/// states the answer, and no step before it does but a search.
pub proof fn law_plans_load_first_and_answer_last(column: EncodedColumn, query: Query, i: int)
    requires
        plan_draft(column, query).fault is None,
        0 <= i < plan_draft(column, query).steps.len(),
    ensures
        ({
            let steps = plan_draft(column, query).steps;
            let layout = column.page.plan();
            let header = layout.metadata;
            &&& steps.len() >= 2
            &&& steps[0].op == (PlanOp::LoadMetadata { field: header })
            &&& steps[0].coverage is Exact
            &&& forall|p: (FieldId, int)| #[trigger]
                steps[0].required.contains(p) <==> p.0 == header && 0 <= p.1
                    < layout.fields[header.0 as int].length
            &&& steps.last().guarantee == planned_output(query)
            &&& steps.last().required == Set::<(FieldId, int)>::empty()
            &&& i < steps.len() - 1 ==> steps[i].guarantee == OutputGuarantee::PhysicalBytes || (
            steps[i].guarantee == OutputGuarantee::ExactBitmap && query is Filter && (
            steps[i].op is SearchMonotone || steps[i].op is SearchPiecewiseMonotone))
        }),
{
    let len = column.truth@.len() as int;
    let layout = column.page.plan();
    let nodes = column.decoder.arena();
    let root = column.decoder.top();
    let rows = planned_rows(len, query);
    let facts = super::compiler::column_facts(column);
    let middle = middle_draft(layout, nodes, root, facts, query, rows);
    let end = final_step(nodes, root, query, rows);
    let steps = plan_draft(column, query).steps;
    assert(plan_query_error(len, query) is None);
    assert(steps == seq![metadata_step(layout, rows)] + (middle.steps + seq![end]));
    assert(steps.last() == end);
    lemma_middle_steps(layout, nodes, root, facts, query, rows);
    if 0 < i < steps.len() - 1 {
        assert(steps[i] == middle.steps[i - 1]);
    }
}

proof fn lemma_middle_steps(
    layout: Layout,
    nodes: Seq<DecoderNode>,
    root: super::ids::NodeId,
    facts: Set<super::invariants::Fact>,
    query: Query,
    rows: Span,
)
    ensures
        ({
            let steps = middle_draft(layout, nodes, root, facts, query, rows).steps;
            forall|i: int|
                0 <= i < steps.len() ==> (#[trigger] steps[i]).guarantee
                    == OutputGuarantee::PhysicalBytes || (steps[i].guarantee
                    == OutputGuarantee::ExactBitmap && query is Filter && (
                steps[i].op is SearchMonotone || steps[i].op is SearchPiecewiseMonotone))
        }),
{
    let top = root.0 as int;
    lemma_node_steps(layout, nodes, top, rows, false);
    if nodes[top] is Dictionary {
        lemma_node_steps(layout, nodes, nodes[top]->ids.0 as int, rows, false);
    }
    if nodes[top] is Rle {
        lemma_node_steps(
            layout,
            nodes,
            nodes[top]->Rle_values.0 as int,
            Span { start: 0, end: nodes[top]->runs },
            true,
        );
    }
}

} // verus!
