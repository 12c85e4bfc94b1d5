//! What a query reads lies in what its plan names.
#[allow(unused_imports)]
use super::access::field_bytes;
#[allow(unused_imports)]
use super::accounts::{asked_bytes, event_bytes};
#[allow(unused_imports)]
use super::bytes::ones_below;
#[allow(unused_imports)]
use super::compiler::{
    block_bytes, block_first, block_last, blocks_bytes, body_fields, column_facts, counts_runs,
    from_restart, holds_step, holds_steps, last_restart, middle_draft, node_draft, packed_bytes,
    plan_draft, planned_rows, rank_bytes, whole_field, Coverage, Step,
};
#[allow(unused_imports)]
use super::decoder::{
    arena_error, child_of, lemma_arena, node_error, node_len, DecoderNode, DeltaCoding,
};
#[allow(unused_imports)]
use super::encode::EncodedColumn;
#[allow(unused_imports)]
use super::execute::{asked_rows, rows_outcome, scan_answer};
#[allow(unused_imports)]
use super::filter_accounts::{lemma_within_sum, within};
#[allow(unused_imports)]
use super::ids::FieldId;
#[allow(unused_imports)]
use super::interpreter::{delta_outcome, delta_step, get_outcome};
#[allow(unused_imports)]
use super::layout::{lemma_floor, lemma_scale, lemma_scale_next, lemma_valid_field, Layout};
#[allow(unused_imports)]
use super::plan::{ClosureSpec, PlanNode, Query};
#[allow(unused_imports)]
use super::runtime::{
    bits_outcome, ceil_div, i64_outcome, lemma_ceil, packed_bit, packed_byte, packed_end,
    page_context, range_outcome, u32_outcome, u8_outcome, ClosureMode, Context, Event,
};
#[allow(unused_imports)]
use super::span::Span;
#[allow(unused_imports)]
use super::support::{
    block_rank_outcome, find_outcome, locate_outcome, metadata_outcome, ones_outcome, rank_outcome,
    scan_outcome, search_outcome, walk_outcome,
};
use vstd::prelude::*;

verus! {

// ----- what is read of a field -----

/// A set holds every byte of a field.
pub open spec fn holds_field(context: Context, field: FieldId, all: Set<(FieldId, int)>) -> bool {
    field.0 < context.layout.fields.len() ==> forall|b: int|
        0 <= b < context.layout.fields[field.0 as int].length ==> #[trigger] all.contains(
            (field, b),
        )
}

pub proof fn lemma_none_within(context: Context, all: Set<(FieldId, int)>)
    ensures
        within(context, Seq::empty(), all),
{
}

pub proof fn lemma_read_within(
    context: Context,
    field: FieldId,
    start: int,
    end: int,
    count: int,
    all: Set<(FieldId, int)>,
)
    requires
        event_bytes(context, Event::Read { field, start, end }).subset_of(all),
    ensures
        within(context, seq![Event::Read { field, start, end }], all),
        within(context, seq![Event::Values(count)] + seq![Event::Read { field, start, end }], all),
        within(context, seq![Event::Values(count)] + Seq::<Event>::empty(), all),
{
    let read = Event::Read { field, start, end };
    let one = seq![read];
    let values = seq![Event::Values(count)];
    reveal_with_fuel(asked_bytes, 2);
    assert(one.drop_last() =~= Seq::empty());
    assert(values.drop_last() =~= Seq::empty());
    assert(asked_bytes(context, one) =~= event_bytes(context, read));
    assert(asked_bytes(context, values) =~= Set::empty());
    lemma_within_sum(context, values, one, all);
    assert(values + Seq::<Event>::empty() =~= values);
}

pub proof fn lemma_field_within(
    context: Context,
    field: FieldId,
    start: int,
    end: int,
    count: int,
    all: Set<(FieldId, int)>,
)
    requires
        holds_field(context, field, all),
        0 <= start,
    ensures
        event_bytes(context, Event::Read { field, start, end }).subset_of(all),
        within(context, seq![Event::Values(count)] + seq![Event::Read { field, start, end }], all),
        within(context, seq![Event::Values(count)] + Seq::<Event>::empty(), all),
{
    lemma_read_within(context, field, start, end, count, all);
}

pub proof fn lemma_u32_within(context: Context, field: FieldId, index: int, all: Set<(FieldId, int)>)
    requires
        holds_field(context, field, all),
        0 <= index,
    ensures
        within(context, u32_outcome(context, field, index).trace, all),
{
    lemma_field_within(context, field, index * 4, index * 4 + 4, 1, all);
}

pub proof fn lemma_i64_within(context: Context, field: FieldId, index: int, all: Set<(FieldId, int)>)
    requires
        event_bytes(
            context,
            Event::Read { field, start: index * 8, end: index * 8 + 8 },
        ).subset_of(all),
    ensures
        within(context, i64_outcome(context, field, index).trace, all),
{
    lemma_read_within(context, field, index * 8, index * 8 + 8, 1, all);
}

pub proof fn lemma_u8_within(context: Context, field: FieldId, offset: int, all: Set<(FieldId, int)>)
    requires
        holds_field(context, field, all),
        0 <= offset,
    ensures
        within(context, u8_outcome(context, field, offset).trace, all),
{
    lemma_field_within(context, field, offset, offset + 1, 1, all);
}

// ----- indexes -----

pub proof fn lemma_search_within(
    context: Context,
    index: FieldId,
    low: int,
    top: int,
    target: int,
    all: Set<(FieldId, int)>,
)
    requires
        holds_field(context, index, all),
        0 <= low,
    ensures
        within(context, search_outcome(context, index, low, top, target).trace, all),
        search_outcome(context, index, low, top, target).result matches Ok(entry) ==> low <= entry,
    decreases top - low,
{
    if low < top {
        let mid = low + (top + 1 - low) / 2;
        let read = u32_outcome(context, index, mid * 2);
        lemma_u32_within(context, index, mid * 2, all);
        if let Ok(first) = read.result {
            let (from, to) = if first <= target {
                (mid, top)
            } else {
                (low, mid - 1)
            };
            lemma_search_within(context, index, from, to, target, all);
            let rest = search_outcome(context, index, from, to, target);
            lemma_within_sum(context, read.trace, rest.trace, all);
        }
    }
}

pub proof fn lemma_walk_within(
    context: Context,
    lengths: FieldId,
    runs: int,
    run: int,
    row_start: int,
    target: int,
    all: Set<(FieldId, int)>,
)
    requires
        holds_field(context, lengths, all),
        0 <= run,
    ensures
        within(context, walk_outcome(context, lengths, runs, run, row_start, target).trace, all),
        walk_outcome(context, lengths, runs, run, row_start, target).result matches Ok(place)
            ==> run <= place.0 < runs,
    decreases runs - run,
{
    if run < runs {
        let read = u32_outcome(context, lengths, run);
        lemma_u32_within(context, lengths, run, all);
        assert(read.trace + Seq::<Event>::empty() =~= read.trace);
        if let Ok(length) = read.result {
            if row_start + length <= usize::MAX && target >= row_start + length {
                lemma_walk_within(context, lengths, runs, run + 1, row_start + length, target, all);
                let rest = walk_outcome(context, lengths, runs, run + 1, row_start + length, target);
                lemma_within_sum(context, read.trace, rest.trace, all);
            }
        }
    }
}

pub proof fn lemma_locate_within(
    context: Context,
    index: FieldId,
    lengths: FieldId,
    runs: int,
    interval: int,
    target: int,
    all: Set<(FieldId, int)>,
)
    requires
        holds_field(context, index, all),
        holds_field(context, lengths, all),
    ensures
        within(
            context,
            locate_outcome(context, index, lengths, runs, interval, target).trace,
            all,
        ),
        locate_outcome(context, index, lengths, runs, interval, target).result matches Ok(place)
            ==> 0 <= place.0 < runs,
{
    let top = ceil_div(runs, interval);
    lemma_search_within(context, index, 0, top, target, all);
    let one = search_outcome(context, index, 0, top, target);
    if let Ok(entry) = one.result {
        let two = u32_outcome(context, index, entry * 2);
        lemma_u32_within(context, index, entry * 2, all);
        if let Ok(row) = two.result {
            let three = u32_outcome(context, index, entry * 2 + 1);
            lemma_u32_within(context, index, entry * 2 + 1, all);
            if let Ok(run) = three.result {
                lemma_walk_within(context, lengths, runs, run as int, row as int, target, all);
                let four = walk_outcome(context, lengths, runs, run as int, row as int, target);
                lemma_within_sum(context, three.trace, four.trace, all);
                lemma_within_sum(context, two.trace, three.trace + four.trace, all);
                lemma_within_sum(
                    context,
                    one.trace,
                    two.trace + (three.trace + four.trace),
                    all,
                );
            } else {
                lemma_within_sum(context, two.trace, three.trace, all);
                lemma_within_sum(context, one.trace, two.trace + three.trace, all);
            }
        } else {
            lemma_within_sum(context, one.trace, two.trace, all);
        }
    }
}

pub proof fn lemma_scan_within(
    context: Context,
    positions: FieldId,
    from: int,
    to: int,
    target: int,
    all: Set<(FieldId, int)>,
)
    requires
        holds_field(context, positions, all),
        0 <= from,
    ensures
        within(context, scan_outcome(context, positions, from, to, target).trace, all),
        scan_outcome(context, positions, from, to, target).result matches Ok(Some(found)) ==> from
            <= found,
    decreases to - from,
{
    if from < to {
        let read = u32_outcome(context, positions, from);
        lemma_u32_within(context, positions, from, all);
        assert(read.trace + Seq::<Event>::empty() =~= read.trace);
        if let Ok(position) = read.result {
            if position < target {
                lemma_scan_within(context, positions, from + 1, to, target, all);
                let rest = scan_outcome(context, positions, from + 1, to, target);
                lemma_within_sum(context, read.trace, rest.trace, all);
            }
        }
    }
}

pub proof fn lemma_find_within(
    context: Context,
    index: FieldId,
    positions: FieldId,
    count: int,
    interval: int,
    target: int,
    all: Set<(FieldId, int)>,
)
    requires
        holds_field(context, index, all),
        holds_field(context, positions, all),
    ensures
        within(
            context,
            find_outcome(context, index, positions, count, interval, target).trace,
            all,
        ),
        find_outcome(context, index, positions, count, interval, target).result matches Ok(
            Some(found),
        ) ==> 0 <= found,
{
    if count != 0 {
        let top = ceil_div(count, interval);
        lemma_search_within(context, index, 0, top, target, all);
        let one = search_outcome(context, index, 0, top, target);
        if let Ok(entry) = one.result {
            let two = u32_outcome(context, index, entry * 2 + 1);
            lemma_u32_within(context, index, entry * 2 + 1, all);
            if let Ok(from) = two.result {
                let to = if from + interval < count {
                    from + interval
                } else {
                    count
                };
                lemma_scan_within(context, positions, from as int, to, target, all);
                let three = scan_outcome(context, positions, from as int, to, target);
                lemma_within_sum(context, two.trace, three.trace, all);
                lemma_within_sum(context, one.trace, two.trace + three.trace, all);
            } else {
                lemma_within_sum(context, one.trace, two.trace, all);
            }
        }
    }
}

pub proof fn lemma_ones_within(
    context: Context,
    validity: FieldId,
    from: int,
    to: int,
    rank: int,
    all: Set<(FieldId, int)>,
)
    requires
        holds_field(context, validity, all),
        0 <= from,
        0 <= rank,
    ensures
        within(context, ones_outcome(context, validity, from, to, rank).trace, all),
        ones_outcome(context, validity, from, to, rank).result matches Ok(found) ==> 0 <= found,
    decreases to - from,
{
    if from < to {
        let read = u8_outcome(context, validity, from);
        lemma_u8_within(context, validity, from, all);
        assert(read.trace + Seq::<Event>::empty() =~= read.trace);
        if let Ok(byte) = read.result {
            let next = rank + ones_below(byte, 8);
            if next <= usize::MAX {
                lemma_ones_within(context, validity, from + 1, to, next, all);
                let rest = ones_outcome(context, validity, from + 1, to, next);
                lemma_within_sum(context, read.trace, rest.trace, all);
            }
        }
    }
}

pub proof fn lemma_rank_within(
    context: Context,
    validity: FieldId,
    ranks: FieldId,
    row: int,
    interval: int,
    all: Set<(FieldId, int)>,
)
    requires
        holds_field(context, validity, all),
        holds_field(context, ranks, all),
        0 <= row,
        interval > 0,
    ensures
        within(context, rank_outcome(context, validity, ranks, row, interval).trace, all),
        rank_outcome(context, validity, ranks, row, interval).result matches Ok(Some(rank)) ==> 0
            <= rank,
{
    let one = u8_outcome(context, validity, row / 8);
    lemma_u8_within(context, validity, row / 8, all);
    assert(one.trace + Seq::<Event>::empty() =~= one.trace);
    lemma_floor(row, interval);
    lemma_scale(0, row / interval, interval);
    if let Ok(byte) = one.result {
        let two = u32_outcome(context, ranks, row / interval);
        lemma_u32_within(context, ranks, row / interval, all);
        let from = row / interval * interval / 8;
        if let Ok(rank) = two.result {
            lemma_ones_within(context, validity, from, row / 8, rank as int, all);
            let three = ones_outcome(context, validity, from, row / 8, rank as int);
            lemma_within_sum(context, two.trace, three.trace, all);
        }
        let block = block_rank_outcome(context, validity, ranks, row, interval);
        assert(within(context, block.trace, all));
        assert(block.trace + Seq::<Event>::empty() =~= block.trace);
        lemma_within_sum(context, one.trace, block.trace, all);
    }
}

// ----- steps -----

/// A step names a byte: among those that it requires, or in a field that it may come to
/// while the plan runs.
pub open spec fn step_names(step: Step, p: (FieldId, int)) -> bool {
    step.required.contains(p) || (step.coverage matches Coverage::Refined { possible, .. }
        && possible.contains(p.0))
}

/// The bytes that some steps name.
pub open spec fn steps_name(steps: Seq<Step>) -> Set<(FieldId, int)> {
    Set::new(
        |p: (FieldId, int)|
            exists|i: int| 0 <= i < steps.len() && step_names(#[trigger] steps[i], p),
    )
}

pub proof fn lemma_step_named(steps: Seq<Step>, i: int, p: (FieldId, int))
    requires
        0 <= i < steps.len(),
        step_names(steps[i], p),
    ensures
        steps_name(steps).contains(p),
{
}

/// More steps name no less.
pub proof fn lemma_more_steps(context: Context, trace: Seq<Event>, a: Seq<Step>, b: Seq<Step>)
    ensures
        steps_name(a).subset_of(steps_name(a + b)),
        steps_name(b).subset_of(steps_name(a + b)),
        within(context, trace, steps_name(a)) || within(context, trace, steps_name(b)) ==> within(
            context,
            trace,
            steps_name(a + b),
        ),
{
    assert forall|p: (FieldId, int)| steps_name(a).contains(p) implies steps_name(a + b).contains(
        p,
    ) by {
        let i = choose|i: int| 0 <= i < a.len() && step_names(#[trigger] a[i], p);
        lemma_step_named(a + b, i, p);
    }
    assert forall|p: (FieldId, int)| steps_name(b).contains(p) implies steps_name(a + b).contains(
        p,
    ) by {
        let i = choose|i: int| 0 <= i < b.len() && step_names(#[trigger] b[i], p);
        assert((a + b)[a.len() + i] == b[i]);
        lemma_step_named(a + b, a.len() + i, p);
    }
}

/// A step that may come to a field holds the field.
pub proof fn lemma_possible(context: Context, steps: Seq<Step>, i: int, field: FieldId)
    requires
        0 <= i < steps.len(),
        steps[i].coverage matches Coverage::Refined { possible, .. } && possible.contains(field),
    ensures
        holds_field(context, field, steps_name(steps)),
{
    assert forall|b: int| #[trigger] steps_name(steps).contains((field, b)) by {
        lemma_step_named(steps, i, (field, b));
    }
}

/// A step that requires all of a field holds the field.
pub proof fn lemma_required(context: Context, steps: Seq<Step>, i: int, field: FieldId)
    requires
        0 <= i < steps.len(),
        whole_field(context.layout, field) matches Ok(all) && all == steps[i].required,
    ensures
        holds_field(context, field, steps_name(steps)),
{
    let length = context.layout.fields[field.0 as int].length;
    assert forall|b: int| 0 <= b < length implies #[trigger] steps_name(steps).contains(
        (field, b),
    ) by {
        lemma_step_named(steps, i, (field, b));
    }
}

// ----- packed numbers -----

/// The bytes of a row lie in those of its miniblock that rows need, and each of these is a
/// byte of one of the rows.
pub proof fn lemma_block_row(rows: Span, width: int, per_block: int, bytes: int, row: int)
    requires
        rows.start <= row < rows.end,
        0 < width,
        0 < per_block,
        0 <= bytes,
    ensures
        ({
            let block = row / per_block;
            &&& block * bytes + block_first(rows, per_block, block) * width / 8 <= packed_byte(
                row,
                width,
                per_block,
                bytes,
            )
            &&& packed_end(row, width, per_block, bytes) <= block * bytes + ceil_div(
                block_last(rows, per_block, block) * width,
                8,
            )
            &&& rows.start as int / per_block <= block <= (rows.end - 1) / per_block
        }),
{
    let block = row / per_block;
    let within_block = row % per_block;
    lemma_floor(row, per_block);
    vstd::arithmetic::div_mod::lemma_fundamental_div_mod(row, per_block);
    vstd::arithmetic::mul::lemma_mul_is_commutative(per_block, block);
    vstd::arithmetic::div_mod::lemma_div_is_ordered(rows.start as int, row, per_block);
    vstd::arithmetic::div_mod::lemma_div_is_ordered(row, rows.end - 1, per_block);
    assert(within_block == row - block * per_block);
    let first = block_first(rows, per_block, block);
    let last = block_last(rows, per_block, block);
    assert(0 <= first <= within_block < last);
    lemma_scale(first, within_block, width);
    lemma_scale(0, first, width);
    lemma_scale(within_block + 1, last, width);
    lemma_scale_next(within_block, width);
    reveal(packed_byte);
    reveal(packed_bit);
}

pub proof fn lemma_blocks_hold(
    stream: FieldId,
    rows: Span,
    width: int,
    per_block: int,
    bytes: int,
    from: int,
    to: int,
    block: int,
)
    requires
        from <= block < to,
        blocks_bytes(stream, rows, width, per_block, bytes, from, to) is Ok,
    ensures
        block_bytes(stream, rows, width, per_block, bytes, block).subset_of(
            blocks_bytes(stream, rows, width, per_block, bytes, from, to)->Ok_0,
        ),
    decreases to - from,
{
    if block < to - 1 {
        lemma_blocks_hold(stream, rows, width, per_block, bytes, from, to - 1, block);
    }
}

/// What is read of a packed row lies in the bytes that rows need.
pub proof fn lemma_packed_row(
    context: Context,
    stream: FieldId,
    rows: Span,
    width: int,
    per_block: int,
    bytes: int,
    row: int,
    all: Set<(FieldId, int)>,
)
    requires
        rows.start <= row < rows.end,
        0 <= width,
        0 < per_block,
        0 <= bytes,
        packed_bytes(stream, rows, width, per_block, bytes) matches Ok(required)
            && required.subset_of(all),
    ensures
        within(context, bits_outcome(context, stream, row, width, per_block, bytes).trace, all),
{
    if width > 0 {
        let block = row / per_block;
        let (from, to) = (rows.start as int / per_block, (rows.end - 1) / per_block + 1);
        lemma_block_row(rows, width, per_block, bytes, row);
        lemma_blocks_hold(stream, rows, width, per_block, bytes, from, to, block);
        let (start, end) = (
            packed_byte(row, width, per_block, bytes),
            packed_end(row, width, per_block, bytes),
        );
        let read = event_bytes(context, Event::Read { field: stream, start, end });
        assert forall|p: (FieldId, int)| read.contains(p) implies all.contains(p) by {
            assert(block_bytes(stream, rows, width, per_block, bytes, block).contains(p));
        }
        lemma_read_within(context, stream, start, end, 1, all);
    } else {
        lemma_values_within(context, 1, all);
    }
}

pub proof fn lemma_values_within(context: Context, count: int, all: Set<(FieldId, int)>)
    ensures
        within(context, seq![Event::Values(count)] + Seq::<Event>::empty(), all),
{
    let values = seq![Event::Values(count)];
    reveal_with_fuel(asked_bytes, 2);
    assert(values.drop_last() =~= Seq::empty());
    assert(asked_bytes(context, values) =~= Set::empty());
    assert(values + Seq::<Event>::empty() =~= values);
}

// ----- nodes -----

pub proof fn lemma_deltas_within(
    context: Context,
    nodes: Seq<DecoderNode>,
    codes: int,
    coding: DeltaCoding,
    from: int,
    row: int,
    value: int,
    all: Set<(FieldId, int)>,
)
    requires
        forall|k: int|
            from <= k <= row ==> within(
                context,
                (#[trigger] get_outcome(context, nodes, codes, k)).trace,
                all,
            ),
    ensures
        within(
            context,
            delta_outcome(context, nodes, codes, coding, from, row, value).trace,
            all,
        ),
    decreases row - from + 1,
{
    if from <= row {
        let read = get_outcome(context, nodes, codes, from);
        assert(within(context, read.trace, all));
        assert(read.trace + Seq::<Event>::empty() =~= read.trace);
        if let Ok(code) = read.result {
            if let Ok(next) = delta_step(value, code, coding) {
                lemma_deltas_within(context, nodes, codes, coding, from + 1, row, next, all);
                let rest = delta_outcome(context, nodes, codes, coding, from + 1, row, next);
                lemma_within_sum(context, read.trace, rest.trace, all);
            }
        }
    }
}

/// What is read to decode a row of a node lies in what the steps for its rows name.
#[verifier::spinoff_prover]
#[verifier::rlimit(80)]
pub proof fn lemma_node_within(
    context: Context,
    nodes: Seq<DecoderNode>,
    id: int,
    rows: Span,
    dynamic: bool,
    row: int,
)
    requires
        nodes.len() <= usize::MAX,
        arena_error(nodes, nodes.len() as int) is None,
        0 <= id < nodes.len(),
        rows.start <= row < rows.end,
        node_draft(context.layout, nodes, id, rows, dynamic).fault is None,
    ensures
        node_within(context, nodes, id, rows, dynamic, row),
    decreases id, 1int,
{
    lemma_arena(nodes, nodes.len() as int);
    let draft = node_draft(context.layout, nodes, id, rows, dynamic);
    let all = steps_name(draft.steps);
    let got = get_outcome(context, nodes, id, row);
    lemma_none_within(context, all);
    assert(node_error(nodes, id as usize) is None);
    if got.trace.len() > 0 {
        match nodes[id] {
            DecoderNode::BitUnpack { .. } => {
                lemma_bit_node(context, nodes, id, rows, dynamic, row);
            },
            DecoderNode::For { .. } => {
                lemma_for_node(context, nodes, id, rows, dynamic, row);
            },
            DecoderNode::Delta { .. } => {
                lemma_delta_node(context, nodes, id, rows, dynamic, row);
            },
            DecoderNode::Rle { .. } => {
                lemma_rle_node(context, nodes, id, rows, dynamic, row);
            },
            DecoderNode::Dictionary { .. } => {
                lemma_dictionary_node(context, nodes, id, rows, dynamic, row);
            },
            DecoderNode::Patch { .. } => {
                lemma_patch_node(context, nodes, id, rows, dynamic, row);
            },
            DecoderNode::Nullable { .. } => {
                lemma_nullable_node(context, nodes, id, rows, dynamic, row);
            },
        }
    } else {
        assert(got.trace =~= Seq::empty());
    }
}

/// What the steps for a node are shown to hold.
pub open spec fn node_within(
    context: Context,
    nodes: Seq<DecoderNode>,
    id: int,
    rows: Span,
    dynamic: bool,
    row: int,
) -> bool {
    within(
        context,
        get_outcome(context, nodes, id, row).trace,
        steps_name(node_draft(context.layout, nodes, id, rows, dynamic).steps),
    )
}

/// A node whose steps are planned and whose row is among those that they are for.
pub open spec fn node_asked(
    context: Context,
    nodes: Seq<DecoderNode>,
    id: int,
    rows: Span,
    dynamic: bool,
    row: int,
) -> bool {
    &&& nodes.len() <= usize::MAX
    &&& arena_error(nodes, nodes.len() as int) is None
    &&& 0 <= id < nodes.len()
    &&& rows.start <= row < rows.end
    &&& node_draft(context.layout, nodes, id, rows, dynamic).fault is None
    &&& node_error(nodes, id as usize) is None
    &&& child_of(nodes[id]) matches Some(child) ==> child.0 < id
    &&& get_outcome(context, nodes, id, row).trace.len() > 0
}

pub proof fn lemma_bit_node(
    context: Context,
    nodes: Seq<DecoderNode>,
    id: int,
    rows: Span,
    dynamic: bool,
    row: int,
)
    requires
        node_asked(context, nodes, id, rows, dynamic, row),
        nodes[id] is BitUnpack,
    ensures
        node_within(context, nodes, id, rows, dynamic, row),
{
    let draft = node_draft(context.layout, nodes, id, rows, dynamic);
    let all = steps_name(draft.steps);
    if let DecoderNode::BitUnpack { stream, width, miniblock_rows, miniblock_bytes, .. } = nodes[id] {
        let (w, r, b) = (width as int, miniblock_rows as int, miniblock_bytes as int);
        let required = packed_bytes(stream, rows, w, r, b)->Ok_0;
        assert(draft.steps[0].required == required);
        assert forall|p: (FieldId, int)| required.contains(p) implies all.contains(p) by {
            lemma_step_named(draft.steps, 0, p);
        }
        lemma_packed_row(context, stream, rows, w, r, b, row, all);
        let read = bits_outcome(context, stream, row, w, r, b);
        assert(read.trace + Seq::<Event>::empty() =~= read.trace);
    }
}

pub proof fn lemma_for_node(
    context: Context,
    nodes: Seq<DecoderNode>,
    id: int,
    rows: Span,
    dynamic: bool,
    row: int,
)
    requires
        node_asked(context, nodes, id, rows, dynamic, row),
        nodes[id] is For,
    ensures
        node_within(context, nodes, id, rows, dynamic, row),
    decreases id, 0int,
{
    let draft = node_draft(context.layout, nodes, id, rows, dynamic);
    let all = steps_name(draft.steps);
    if let DecoderNode::For { base, values } = nodes[id] {
        let child = values.0 as int;
        let rest = node_draft(context.layout, nodes, child, rows, dynamic);
        let first = draft.steps.take(1);
        assert(draft.steps =~= first + rest.steps);
        assert(draft.steps[0].required == field_bytes(base, 0, 8));
        let one = i64_outcome(context, base, 0);
        let read = event_bytes(context, Event::Read { field: base, start: 0, end: 8 });
        assert forall|p: (FieldId, int)| read.contains(p) implies all.contains(p) by {
            lemma_step_named(draft.steps, 0, p);
        }
        lemma_i64_within(context, base, 0, all);
        lemma_node_within(context, nodes, child, rows, dynamic, row);
        let two = get_outcome(context, nodes, child, row);
        lemma_more_steps(context, two.trace, first, rest.steps);
        assert(two.trace + Seq::<Event>::empty() =~= two.trace);
        lemma_within_sum(context, one.trace, two.trace, all);
    }
}

pub proof fn lemma_delta_node(
    context: Context,
    nodes: Seq<DecoderNode>,
    id: int,
    rows: Span,
    dynamic: bool,
    row: int,
)
    requires
        node_asked(context, nodes, id, rows, dynamic, row),
        nodes[id] is Delta,
    ensures
        node_within(context, nodes, id, rows, dynamic, row),
    decreases id, 0int,
{
    let draft = node_draft(context.layout, nodes, id, rows, dynamic);
    let all = steps_name(draft.steps);
    if let DecoderNode::Delta { deltas, restarts, restart_interval, coding, .. } = nodes[id] {
        let child = deltas.0 as int;
        let interval = restart_interval as int;
        let asked = from_restart(rows, interval);
        let rest = node_draft(context.layout, nodes, child, asked, dynamic);
        let first = draft.steps.take(1);
        assert(draft.steps =~= first + rest.steps);
        let (from, to) = (rows.start as int / interval, last_restart(rows, interval));
        let k = row / interval;
        lemma_floor(row, interval);
        lemma_floor(rows.start as int, interval);
        vstd::arithmetic::div_mod::lemma_div_is_ordered(rows.start as int, row, interval);
        vstd::arithmetic::div_mod::lemma_div_is_ordered(row, rows.end - 1, interval);
        lemma_scale(from, k, interval);
        assert(draft.steps[0].required == field_bytes(restarts, from * 8, (to + 1) * 8));
        let one = i64_outcome(context, restarts, k);
        let read = event_bytes(
            context,
            Event::Read { field: restarts, start: k * 8, end: k * 8 + 8 },
        );
        assert forall|p: (FieldId, int)| read.contains(p) implies all.contains(p) by {
            lemma_step_named(draft.steps, 0, p);
        }
        lemma_i64_within(context, restarts, k, all);
        assert forall|j: int| k * interval + 1 <= j <= row implies within(
            context,
            (#[trigger] get_outcome(context, nodes, child, j)).trace,
            all,
        ) by {
            lemma_node_within(context, nodes, child, asked, dynamic, j);
            lemma_more_steps(
                context,
                get_outcome(context, nodes, child, j).trace,
                first,
                rest.steps,
            );
        }
        if let Ok(anchor) = one.result {
            lemma_deltas_within(
                context,
                nodes,
                child,
                coding,
                k * interval + 1,
                row,
                anchor as int,
                all,
            );
            let two = delta_outcome(
                context,
                nodes,
                child,
                coding,
                k * interval + 1,
                row,
                anchor as int,
            );
            assert(two.trace + Seq::<Event>::empty() =~= two.trace);
            lemma_within_sum(context, one.trace, two.trace, all);
        }
    }
}

pub proof fn lemma_rle_node(
    context: Context,
    nodes: Seq<DecoderNode>,
    id: int,
    rows: Span,
    dynamic: bool,
    row: int,
)
    requires
        node_asked(context, nodes, id, rows, dynamic, row),
        nodes[id] is Rle,
    ensures
        node_within(context, nodes, id, rows, dynamic, row),
    decreases id, 0int,
{
    let draft = node_draft(context.layout, nodes, id, rows, dynamic);
    let all = steps_name(draft.steps);
    if let DecoderNode::Rle { values, run_lengths, run_index, runs, index_interval, .. } =
        nodes[id] {
        let child = values.0 as int;
        let asked = Span { start: 0, end: runs };
        let rest = node_draft(context.layout, nodes, child, asked, true);
        let first = draft.steps.take(1);
        assert(draft.steps =~= first + rest.steps);
        lemma_required(context, draft.steps, 0, run_index);
        assert(seq![run_lengths][0] == run_lengths);
        assert(seq![run_lengths].to_set().contains(run_lengths));
        lemma_possible(context, draft.steps, 0, run_lengths);
        lemma_locate_within(
            context,
            run_index,
            run_lengths,
            runs as int,
            index_interval as int,
            row,
            all,
        );
        let one = locate_outcome(
            context,
            run_index,
            run_lengths,
            runs as int,
            index_interval as int,
            row,
        );
        if let Ok(place) = one.result {
            lemma_node_within(context, nodes, child, asked, true, place.0);
            let two = get_outcome(context, nodes, child, place.0);
            lemma_more_steps(context, two.trace, first, rest.steps);
            lemma_within_sum(context, one.trace, two.trace, all);
        }
    }
}

pub proof fn lemma_dictionary_node(
    context: Context,
    nodes: Seq<DecoderNode>,
    id: int,
    rows: Span,
    dynamic: bool,
    row: int,
)
    requires
        node_asked(context, nodes, id, rows, dynamic, row),
        nodes[id] is Dictionary,
    ensures
        node_within(context, nodes, id, rows, dynamic, row),
    decreases id, 0int,
{
    let draft = node_draft(context.layout, nodes, id, rows, dynamic);
    let all = steps_name(draft.steps);
    if let DecoderNode::Dictionary { ids, dictionary, entries, .. } = nodes[id] {
        let child = ids.0 as int;
        let rest = node_draft(context.layout, nodes, child, rows, dynamic);
        let n = rest.steps.len() as int;
        let last = draft.steps.skip(n);
        assert(draft.steps =~= rest.steps + last);
        assert(seq![dictionary][0] == dictionary);
        assert(seq![dictionary].to_set().contains(dictionary));
        lemma_possible(context, draft.steps, n, dictionary);
        lemma_node_within(context, nodes, child, rows, dynamic, row);
        let one = get_outcome(context, nodes, child, row);
        lemma_more_steps(context, one.trace, rest.steps, last);
        assert(one.trace + Seq::<Event>::empty() =~= one.trace);
        if let Ok(Some(entry)) = one.result {
            let at = entry as usize as int;
            let read = Event::Read { field: dictionary, start: at * 8, end: at * 8 + 8 };
            lemma_field_within(context, dictionary, at * 8, at * 8 + 8, 1, all);
            lemma_i64_within(context, dictionary, at, all);
            let two = i64_outcome(context, dictionary, at);
            assert(two.trace + Seq::<Event>::empty() =~= two.trace);
            lemma_within_sum(context, one.trace, two.trace, all);
        }
    }
}

pub proof fn lemma_patch_node(
    context: Context,
    nodes: Seq<DecoderNode>,
    id: int,
    rows: Span,
    dynamic: bool,
    row: int,
)
    requires
        node_asked(context, nodes, id, rows, dynamic, row),
        nodes[id] is Patch,
    ensures
        node_within(context, nodes, id, rows, dynamic, row),
    decreases id, 0int,
{
    let draft = node_draft(context.layout, nodes, id, rows, dynamic);
    let all = steps_name(draft.steps);
    if let DecoderNode::Patch {
        values,
        positions,
        position_index,
        exceptions,
        count,
        index_interval,
    } = nodes[id] {
        let child = values.0 as int;
        let rest = node_draft(context.layout, nodes, child, rows, dynamic);
        let first = draft.steps.take(1);
        let more = seq![positions, exceptions];
        assert(draft.steps =~= first + rest.steps);
        lemma_required(context, draft.steps, 0, position_index);
        assert(more[0] == positions && more[1] == exceptions);
        assert(more.to_set().contains(positions) && more.to_set().contains(exceptions));
        lemma_possible(context, draft.steps, 0, positions);
        lemma_possible(context, draft.steps, 0, exceptions);
        lemma_find_within(
            context,
            position_index,
            positions,
            count as int,
            index_interval as int,
            row,
            all,
        );
        let one = find_outcome(
            context,
            position_index,
            positions,
            count as int,
            index_interval as int,
            row,
        );
        if let Ok(found) = one.result {
            match found {
                Some(at) => {
                    lemma_field_within(context, exceptions, at * 8, at * 8 + 8, 1, all);
                    lemma_i64_within(context, exceptions, at, all);
                    let two = i64_outcome(context, exceptions, at);
                    assert(two.trace + Seq::<Event>::empty() =~= two.trace);
                    lemma_within_sum(context, one.trace, two.trace, all);
                },
                None => {
                    lemma_node_within(context, nodes, child, rows, dynamic, row);
                    let two = get_outcome(context, nodes, child, row);
                    lemma_more_steps(context, two.trace, first, rest.steps);
                    lemma_within_sum(context, one.trace, two.trace, all);
                },
            }
        }
    }
}

pub proof fn lemma_nullable_node(
    context: Context,
    nodes: Seq<DecoderNode>,
    id: int,
    rows: Span,
    dynamic: bool,
    row: int,
)
    requires
        node_asked(context, nodes, id, rows, dynamic, row),
        nodes[id] is Nullable,
    ensures
        node_within(context, nodes, id, rows, dynamic, row),
    decreases id, 0int,
{
    let draft = node_draft(context.layout, nodes, id, rows, dynamic);
    let all = steps_name(draft.steps);
    if let DecoderNode::Nullable { validity, rank_index, values, rank_interval, .. } = nodes[id] {
        let child = values.0 as int;
        let interval = rank_interval as int;
        let len = node_len(nodes, nodes[child])->Ok_0;
        let asked = Span { start: 0, end: len };
        let rest = node_draft(context.layout, nodes, child, asked, true);
        let first = draft.steps.take(1);
        assert(draft.steps =~= first + rest.steps);
        let required = rank_bytes(validity, rank_index, rows, interval);
        assert(draft.steps[0].required == required);
        lemma_ceil(rows.end as int, interval);
        lemma_floor(rows.start as int, interval);
        assert(rows.start as int / interval <= ceil_div(rows.end as int, interval)) by {
            vstd::arithmetic::div_mod::lemma_div_is_ordered(
                rows.start as int,
                rows.end + (interval - 1),
                interval,
            );
        }
        assert(required.contains((validity, rows.start as int / 8)));
        assert(required.contains((rank_index, rows.start as int / interval * 4)));
        lemma_possible(context, draft.steps, 0, validity);
        lemma_possible(context, draft.steps, 0, rank_index);
        lemma_rank_within(context, validity, rank_index, row, interval, all);
        let one = rank_outcome(context, validity, rank_index, row, interval);
        assert(one.trace + Seq::<Event>::empty() =~= one.trace);
        if let Ok(Some(rank)) = one.result {
            let two = get_outcome(context, nodes, child, rank);
            if rank < len {
                lemma_node_within(context, nodes, child, asked, true, rank);
                lemma_more_steps(context, two.trace, first, rest.steps);
            } else {
                assert(two.trace =~= Seq::<Event>::empty());
                lemma_none_within(context, all);
            }
            lemma_within_sum(context, one.trace, two.trace, all);
        }
    }
}

// ----- whole plans -----

/// A plan names a byte: among those that one of its nodes requires, or in a field that a
/// node may come to while the plan runs.
pub open spec fn plan_names(plan: Seq<PlanNode>) -> Set<(FieldId, int)> {
    Set::new(
        |p: (FieldId, int)|
            exists|i: int|
                0 <= i < plan.len() && ((#[trigger] plan[i]).required_fields@.contains(p) || (
                plan[i].byte_closure matches ClosureSpec::RuntimeRefined { possible_fields, .. }
                    && possible_fields@.contains(p.0))),
    )
}

pub proof fn lemma_plan_names(plan: Seq<PlanNode>, steps: Seq<Step>, layout: Layout)
    requires
        holds_steps(plan, 0, steps, layout),
    ensures
        steps_name(steps).subset_of(plan_names(plan)),
{
    assert forall|p: (FieldId, int)| steps_name(steps).contains(p) implies plan_names(
        plan,
    ).contains(p) by {
        let i = choose|i: int| 0 <= i < steps.len() && step_names(#[trigger] steps[i], p);
        assert(holds_step(plan[i], steps[i], layout, i));
    }
}

/// What is read lies in a set that holds every field.
#[verifier::spinoff_prover]
#[verifier::rlimit(80)]
pub proof fn lemma_any_within(
    context: Context,
    nodes: Seq<DecoderNode>,
    id: int,
    row: int,
    all: Set<(FieldId, int)>,
)
    requires
        nodes.len() <= usize::MAX,
        arena_error(nodes, nodes.len() as int) is None,
        0 <= id < nodes.len(),
        0 <= row,
        forall|field: FieldId| #[trigger] holds_field(context, field, all),
    ensures
        within(context, get_outcome(context, nodes, id, row).trace, all),
    decreases id,
{
    lemma_arena(nodes, nodes.len() as int);
    lemma_none_within(context, all);
    assert(node_error(nodes, id as usize) is None);
    let got = get_outcome(context, nodes, id, row);
    if got.trace.len() > 0 {
        match nodes[id] {
            DecoderNode::BitUnpack { stream, width, miniblock_rows, miniblock_bytes, .. } => {
                let (w, r, b) = (width as int, miniblock_rows as int, miniblock_bytes as int);
                lemma_values_within(context, 1, all);
                super::bit_reads::lemma_place(row, w, r, b);
                assert(holds_field(context, stream, all));
                lemma_field_within(
                    context,
                    stream,
                    packed_byte(row, w, r, b),
                    packed_end(row, w, r, b),
                    1,
                    all,
                );
                let read = bits_outcome(context, stream, row, w, r, b);
                assert(read.trace + Seq::<Event>::empty() =~= read.trace);
            },
            DecoderNode::For { base, values } => {
                let one = i64_outcome(context, base, 0);
                assert(holds_field(context, base, all));
                lemma_field_within(context, base, 0, 8, 1, all);
                lemma_i64_within(context, base, 0, all);
                lemma_any_within(context, nodes, values.0 as int, row, all);
                let two = get_outcome(context, nodes, values.0 as int, row);
                assert(two.trace + Seq::<Event>::empty() =~= two.trace);
                lemma_within_sum(context, one.trace, two.trace, all);
            },
            DecoderNode::Delta { deltas, restarts, restart_interval, coding, .. } => {
                let child = deltas.0 as int;
                let k = row / restart_interval as int;
                let from = k * restart_interval + 1;
                lemma_floor(row, restart_interval as int);
                lemma_scale(0, k, restart_interval as int);
                let one = i64_outcome(context, restarts, k);
                assert(holds_field(context, restarts, all));
                lemma_field_within(context, restarts, k * 8, k * 8 + 8, 1, all);
                lemma_i64_within(context, restarts, k, all);
                assert forall|j: int| from <= j <= row implies within(
                    context,
                    (#[trigger] get_outcome(context, nodes, child, j)).trace,
                    all,
                ) by {
                    lemma_any_within(context, nodes, child, j, all);
                }
                if let Ok(anchor) = one.result {
                    lemma_deltas_within(
                        context,
                        nodes,
                        child,
                        coding,
                        from,
                        row,
                        anchor as int,
                        all,
                    );
                    let two = delta_outcome(
                        context,
                        nodes,
                        child,
                        coding,
                        from,
                        row,
                        anchor as int,
                    );
                    assert(two.trace + Seq::<Event>::empty() =~= two.trace);
                    lemma_within_sum(context, one.trace, two.trace, all);
                }
            },
            DecoderNode::Rle { values, run_lengths, run_index, runs, index_interval, .. } => {
                let (n, interval) = (runs as int, index_interval as int);
                assert(holds_field(context, run_lengths, all));
                assert(holds_field(context, run_index, all));
                lemma_locate_within(context, run_index, run_lengths, n, interval, row, all);
                let one = locate_outcome(context, run_index, run_lengths, n, interval, row);
                if let Ok(place) = one.result {
                    lemma_any_within(context, nodes, values.0 as int, place.0, all);
                    let two = get_outcome(context, nodes, values.0 as int, place.0);
                    lemma_within_sum(context, one.trace, two.trace, all);
                }
            },
            DecoderNode::Dictionary { ids, dictionary, .. } => {
                lemma_any_within(context, nodes, ids.0 as int, row, all);
                let one = get_outcome(context, nodes, ids.0 as int, row);
                assert(one.trace + Seq::<Event>::empty() =~= one.trace);
                if let Ok(Some(entry)) = one.result {
                    let at = entry as usize as int;
                    assert(holds_field(context, dictionary, all));
                    lemma_field_within(context, dictionary, at * 8, at * 8 + 8, 1, all);
                    lemma_i64_within(context, dictionary, at, all);
                    let two = i64_outcome(context, dictionary, at);
                    assert(two.trace + Seq::<Event>::empty() =~= two.trace);
                    lemma_within_sum(context, one.trace, two.trace, all);
                }
            },
            DecoderNode::Patch {
                values,
                positions,
                position_index,
                exceptions,
                count,
                index_interval,
            } => {
                let (n, interval) = (count as int, index_interval as int);
                assert(holds_field(context, position_index, all));
                assert(holds_field(context, positions, all));
                lemma_find_within(context, position_index, positions, n, interval, row, all);
                let one = find_outcome(context, position_index, positions, n, interval, row);
                if let Ok(found) = one.result {
                    match found {
                        Some(at) => {
                            assert(holds_field(context, exceptions, all));
                            lemma_field_within(context, exceptions, at * 8, at * 8 + 8, 1, all);
                            lemma_i64_within(context, exceptions, at, all);
                            let two = i64_outcome(context, exceptions, at);
                            assert(two.trace + Seq::<Event>::empty() =~= two.trace);
                            lemma_within_sum(context, one.trace, two.trace, all);
                        },
                        None => {
                            lemma_any_within(context, nodes, values.0 as int, row, all);
                            let two = get_outcome(context, nodes, values.0 as int, row);
                            lemma_within_sum(context, one.trace, two.trace, all);
                        },
                    }
                }
            },
            DecoderNode::Nullable { validity, rank_index, values, rank_interval, .. } => {
                let interval = rank_interval as int;
                assert(holds_field(context, validity, all));
                assert(holds_field(context, rank_index, all));
                lemma_rank_within(context, validity, rank_index, row, interval, all);
                let one = rank_outcome(context, validity, rank_index, row, interval);
                assert(one.trace + Seq::<Event>::empty() =~= one.trace);
                if let Ok(Some(rank)) = one.result {
                    lemma_any_within(context, nodes, values.0 as int, rank, all);
                    let two = get_outcome(context, nodes, values.0 as int, rank);
                    lemma_within_sum(context, one.trace, two.trace, all);
                }
            },
        }
    } else {
        assert(got.trace =~= Seq::empty());
    }
}

/// Rows that are decoded within a set are scanned within it.
pub proof fn lemma_scanned_within(
    context: Context,
    nodes: Seq<DecoderNode>,
    id: int,
    from: int,
    to: int,
    all: Set<(FieldId, int)>,
)
    requires
        forall|row: int|
            from <= row < to ==> within(
                context,
                (#[trigger] get_outcome(context, nodes, id, row)).trace,
                all,
            ),
    ensures
        within(context, rows_outcome(context, nodes, id, from, to).trace, all),
    decreases to - from,
{
    if from < to {
        lemma_scanned_within(context, nodes, id, from, to - 1, all);
        let before = rows_outcome(context, nodes, id, from, to - 1);
        let last = get_outcome(context, nodes, id, to - 1);
        assert(within(context, last.trace, all));
        assert(last.trace + Seq::<Event>::empty() =~= last.trace);
        lemma_within_sum(context, before.trace, last.trace, all);
    } else {
        lemma_none_within(context, all);
    }
}

/// What the steps of a plan name.
pub open spec fn draft_names(column: EncodedColumn, query: Query) -> Set<(FieldId, int)> {
    steps_name(plan_draft(column, query).steps)
}

/// The header is read within what the plan names.
pub proof fn lemma_header_within(column: EncodedColumn, query: Query, context: Context)
    requires
        column.wf(),
        context.layout == column.page.plan(),
        plan_draft(column, query).fault is None,
    ensures
        within(context, metadata_outcome(context).trace, draft_names(column, query)),
        holds_field(context, context.layout.metadata, draft_names(column, query)),
{
    let layout = context.layout;
    let steps = plan_draft(column, query).steps;
    let all = steps_name(steps);
    column.page.lemma_wf();
    let field = layout.fields[layout.metadata.0 as int];
    lemma_valid_field(layout, layout.metadata.0 as int);
    assert(field.id == layout.metadata);
    assert(steps[0].required == field_bytes(layout.metadata, 0, field.length as int));
    assert forall|b: int| 0 <= b < field.length implies #[trigger] all.contains(
        (layout.metadata, b),
    ) by {
        lemma_step_named(steps, 0, (layout.metadata, b));
    }
    lemma_field_within(context, layout.metadata, 0, field.length as int, 0, all);
    lemma_read_within(context, layout.metadata, 0, field.length as int, 0, all);
    let read = range_outcome(context, field.id, 0, field.length as int);
    assert(read.trace + Seq::<Event>::empty() =~= read.trace);
}

/// Steps in the middle of a plan are steps of the plan.
pub proof fn lemma_middle_named(column: EncodedColumn, query: Query)
    requires
        plan_draft(column, query).fault is None,
    ensures
        ({
            let middle = middle_draft(
                column.page.plan(),
                column.decoder.arena(),
                column.decoder.top(),
                column_facts(column),
                query,
                planned_rows(column.truth@.len() as int, query),
            );
            &&& middle.fault is None
            &&& steps_name(middle.steps).subset_of(draft_names(column, query))
        }),
{
    let layout = column.page.plan();
    let nodes = column.decoder.arena();
    let root = column.decoder.top();
    let rows = planned_rows(column.truth@.len() as int, query);
    let middle = middle_draft(layout, nodes, root, column_facts(column), query, rows);
    let steps = plan_draft(column, query).steps;
    assert forall|p: (FieldId, int)| steps_name(middle.steps).contains(p) implies steps_name(
        steps,
    ).contains(p) by {
        let i = choose|i: int| 0 <= i < middle.steps.len() && step_names(#[trigger] middle.steps[i], p);
        assert(steps[i + 1] == middle.steps[i]);
        lemma_step_named(steps, i + 1, p);
    }
}

/// A plan with a step that searches holds every field.
pub proof fn lemma_searching_holds_all(column: EncodedColumn, query: Query, context: Context)
    requires
        column.wf(),
        context.layout == column.page.plan(),
        plan_draft(column, query).fault is None,
        ({
            let middle = middle_draft(
                column.page.plan(),
                column.decoder.arena(),
                column.decoder.top(),
                column_facts(column),
                query,
                planned_rows(column.truth@.len() as int, query),
            );
            &&& middle.steps.len() > 0
            &&& middle.steps[0].coverage matches Coverage::Refined { possible, .. } && possible
                == body_fields(column.page.plan())
        }),
    ensures
        forall|field: FieldId| #[trigger]
            holds_field(context, field, draft_names(column, query)),
{
    let all = draft_names(column, query);
    let middle = middle_draft(
        column.page.plan(),
        column.decoder.arena(),
        column.decoder.top(),
        column_facts(column),
        query,
        planned_rows(column.truth@.len() as int, query),
    );
    lemma_header_within(column, query, context);
    lemma_middle_named(column, query);
    assert forall|field: FieldId| #[trigger] holds_field(context, field, all) by {
        if field.0 < context.layout.fields.len() && field != context.layout.metadata {
            assert forall|b: int| #[trigger] all.contains((field, b)) by {
                lemma_step_named(middle.steps, 0, (field, b));
            }
        }
    }
}

/// The rows of a query are decoded within what its plan names.
#[verifier::spinoff_prover]
#[verifier::rlimit(80)]
pub proof fn lemma_row_planned(column: EncodedColumn, query: Query, context: Context, row: int)
    requires
        column.wf(),
        context.layout == column.page.plan(),
        plan_draft(column, query).fault is None,
        !counts_runs(column.decoder.arena(), column.decoder.top(), query),
        asked_rows(column.truth@.len() as int, query).0 <= row < asked_rows(
            column.truth@.len() as int,
            query,
        ).1,
    ensures
        within(
            context,
            get_outcome(
                context,
                column.decoder.arena(),
                column.decoder.top().0 as int,
                row,
            ).trace,
            draft_names(column, query),
        ),
{
    let layout = context.layout;
    let nodes = column.decoder.arena();
    let root = column.decoder.top();
    let top = root.0 as int;
    let facts = column_facts(column);
    let len = column.truth.len();
    assert(len == column.truth@.len());
    let rows = planned_rows(len as int, query);
    let middle = middle_draft(layout, nodes, root, facts, query, rows);
    let all = draft_names(column, query);
    let trace = get_outcome(context, nodes, top, row).trace;
    lemma_arena(nodes, nodes.len() as int);
    lemma_middle_named(column, query);
    assert(rows.start <= row < rows.end);
    if query is Filter && super::compiler::searchable(
        super::compiler::monotone_nulls(facts, root),
    ) {
        lemma_searching_holds_all(column, query, context);
        lemma_any_within(context, nodes, top, row, all);
    } else if query is Filter && super::compiler::piecewise_rows(facts, root) is Some {
        lemma_searching_holds_all(column, query, context);
        lemma_any_within(context, nodes, top, row, all);
    } else if query is Filter && super::compiler::order_preserved(facts, root)
        && nodes[top] is Dictionary {
        lemma_translated_row(column, query, context, row);
    } else {
        lemma_node_within(context, nodes, top, rows, false, row);
    }
}

/// A row of a dictionary is decoded within the entries and what is named for the
/// identifiers.
pub proof fn lemma_translated_row(column: EncodedColumn, query: Query, context: Context, row: int)
    requires
        column.wf(),
        context.layout == column.page.plan(),
        plan_draft(column, query).fault is None,
        translates(column, query),
        0 <= row < column.truth@.len(),
    ensures
        ({
            let nodes = column.decoder.arena();
            let node = nodes[column.decoder.top().0 as int];
            let all = draft_names(column, query);
            &&& within(
                context,
                get_outcome(context, nodes, column.decoder.top().0 as int, row).trace,
                all,
            )
            &&& within(context, get_outcome(context, nodes, node->ids.0 as int, row).trace, all)
            &&& holds_field(context, node->dictionary, all)
        }),
{
    let layout = context.layout;
    let nodes = column.decoder.arena();
    let root = column.decoder.top();
    let top = root.0 as int;
    let facts = column_facts(column);
    let len = column.truth.len();
    assert(len == column.truth@.len());
    let rows = planned_rows(len as int, query);
    let middle = middle_draft(layout, nodes, root, facts, query, rows);
    let all = draft_names(column, query);
    lemma_arena(nodes, nodes.len() as int);
    lemma_middle_named(column, query);
    let ids = nodes[top]->ids.0 as int;
    let dictionary = nodes[top]->dictionary;
    let first = middle.steps.take(1);
    let rest = node_draft(layout, nodes, ids, rows, false);
    assert(middle.steps =~= first + rest.steps);
    lemma_required(context, middle.steps, 0, dictionary);
    lemma_node_within(context, nodes, ids, rows, false, row);
    let one = get_outcome(context, nodes, ids, row);
    lemma_more_steps(context, one.trace, first, rest.steps);
    assert(within(context, one.trace, all));
    assert(holds_field(context, dictionary, all));
    assert(one.trace + Seq::<Event>::empty() =~= one.trace);
    lemma_none_within(context, all);
    if let Ok(Some(entry)) = one.result {
        let at = entry as usize as int;
        lemma_field_within(context, dictionary, at * 8, at * 8 + 8, 1, all);
        lemma_i64_within(context, dictionary, at, all);
        let two = i64_outcome(context, dictionary, at);
        assert(two.trace + Seq::<Event>::empty() =~= two.trace);
        lemma_within_sum(context, one.trace, two.trace, all);
    }
}

/// The plan of a filter translates its bounds into identifiers.
pub open spec fn translates(column: EncodedColumn, query: Query) -> bool {
    let facts = column_facts(column);
    let root = column.decoder.top();
    &&& query is Filter
    &&& !super::compiler::searchable(super::compiler::monotone_nulls(facts, root))
    &&& super::compiler::piecewise_rows(facts, root) is None
    &&& super::compiler::order_preserved(facts, root)
    &&& column.decoder.arena()[root.0 as int] is Dictionary
}

/// Every byte that is asked for to answer a query, by decoding the rows that it asks about,
/// is named by the plan that is compiled for it: a node of the plan requires it, or says
/// that it may come to its field. (A count by runs is answered from the runs instead.)
pub proof fn law_plans_name_what_queries_read(
    column: EncodedColumn,
    query: Query,
    plan: Seq<PlanNode>,
    mode: ClosureMode,
    accounted: bool,
)
    requires
        column.wf(),
        plan_draft(column, query).fault is None,
        holds_steps(plan, 0, plan_draft(column, query).steps, column.page.plan()),
        !counts_runs(column.decoder.arena(), column.decoder.top(), query),
    ensures
        ({
            let context = page_context(&column.page, mode, accounted);
            let (from, to) = asked_rows(column.truth@.len() as int, query);
            asked_bytes(
                context,
                scan_answer(
                    context,
                    column.decoder.arena(),
                    column.decoder.top().0 as int,
                    query,
                    column.truth@.len() as int,
                    from,
                    to,
                ).trace,
            ).subset_of(plan_names(plan))
        }),
{
    let context = page_context(&column.page, mode, accounted);
    let nodes = column.decoder.arena();
    let id = column.decoder.top().0 as int;
    let len = column.truth@.len() as int;
    let (from, to) = asked_rows(len, query);
    let all = draft_names(column, query);
    lemma_header_within(column, query, context);
    assert forall|row: int| from <= row < to implies within(
        context,
        (#[trigger] get_outcome(context, nodes, id, row)).trace,
        all,
    ) by {
        lemma_row_planned(column, query, context, row);
    }
    lemma_scanned_within(context, nodes, id, from, to, all);
    let header = metadata_outcome(context);
    let rows = rows_outcome(context, nodes, id, from, to);
    assert(rows.trace + Seq::<Event>::empty() =~= rows.trace);
    lemma_within_sum(context, header.trace, rows.trace, all);
    lemma_plan_names(plan, plan_draft(column, query).steps, column.page.plan());
}

} // verus!
