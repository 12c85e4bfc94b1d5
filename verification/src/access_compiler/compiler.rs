//! Planning how a query reads a column.
use super::access::AccessSet;
#[allow(unused_imports)]
use super::access::{entries_canonical, entries_hold, field_bytes};
use super::decoder::{DecoderIr, DecoderNode};
#[allow(unused_imports)]
use super::decoder::{child_of, lemma_arena, node_error, node_len};
use super::encode::EncodedColumn;
use super::error::Error;
#[allow(unused_imports)]
use super::execute::query_error;
use super::ids::{FieldId, NodeId, PlanNodeId};
use super::invariants::{
    derive_invariants, AccessInvariant, FactScope, InvariantSet, MappingInvariant, NullPlacement,
    Property, ValueInvariant,
};
#[allow(unused_imports)]
use super::invariants::{
    arena_facts, derived_facts, piecewise_stated, placement_stated, states, structural_facts, Fact,
};
use super::layout::LayoutIr;
#[allow(unused_imports)]
use super::layout::{
    closure_error, layout_error, lemma_floor, lemma_scale, lemma_scale_next, lemma_valid_field,
    ByteClosure, Layout,
};
use super::plan::{
    Authorization, ClosureSpec, OutputGuarantee, PlanIr, PlanNode, PlanOp, Predicate, Query, RowDomain,
};
#[allow(unused_imports)]
use super::plan::{ids_fault, licence_fault, licences_fault, plan_fault, skips};
#[allow(unused_imports)]
use super::runtime::{ceil_div, lemma_ceil, lemma_ceil_floor};
use super::span::Span;
#[allow(unused_imports)]
use super::span::{canonical, covers};
use vstd::prelude::*;
use vstd::string::StringExecFns;

verus! {

// ----- steps of a plan -----

/// How the bytes of a step are known: all of them beforehand, or from a seed on
/// while the plan runs.
pub ghost enum Coverage {
    Exact,
    Refined { seed: Set<(FieldId, int)>, possible: Set<FieldId>, reason: Seq<char> },
}

/// A step of a plan as a value.
pub ghost struct Step {
    pub op: PlanOp,
    pub rows: Span,
    pub required: Set<(FieldId, int)>,
    pub coverage: Coverage,
    pub guarantee: OutputGuarantee,
    pub licence: Authorization,
}

/// The steps that were planned before a fault, if there is one.
pub ghost struct Draft {
    pub steps: Seq<Step>,
    pub fault: Option<Error>,
}

/// A list of fields in ascending order.
pub open spec fn lists_fields(list: Seq<FieldId>, fields: Set<FieldId>) -> bool {
    &&& forall|i: int, j: int|
        0 <= i < j < list.len() ==> (#[trigger] list[i]).0 < (#[trigger] list[j]).0
    &&& forall|f: FieldId| #[trigger] list.contains(f) == fields.contains(f)
}

/// A plan node is a step.
pub open spec fn holds_step(node: PlanNode, step: Step, layout: Layout, id: int) -> bool {
    &&& node.id.0 == id
    &&& node.op == step.op
    &&& node.rows == RowDomain(step.rows)
    &&& node.required_fields.wf()
    &&& node.required_fields@ == step.required
    &&& node.guarantee == step.guarantee
    &&& node.authorization == step.licence
    &&& match step.coverage {
        Coverage::Exact => node.byte_closure matches ClosureSpec::Exact(closure) && closure.closes(
            layout,
            step.required,
        ),
        Coverage::Refined { seed, possible, reason } => node.byte_closure matches ClosureSpec::RuntimeRefined {
            seed: start,
            possible_fields,
            reason: why,
        } && start.wf() && start@ == seed && lists_fields(possible_fields@, possible) && why@
            == reason,
    }
}

/// The bytes have a closure that can be delivered.
pub open spec fn closable(layout: Layout, required: Set<(FieldId, int)>) -> bool {
    exists|closure: ByteClosure| #[trigger] closure.closes(layout, required)
}

/// The steps whose bytes are known beforehand, up to step `n`, have closures.
pub open spec fn closable_to(steps: Seq<Step>, layout: Layout, n: int) -> bool {
    forall|i: int|
        0 <= i < n && (#[trigger] steps[i]).coverage is Exact ==> closable(layout, steps[i].required)
}

/// Step `i` is the first whose bytes have no closure, for the reason `e`.
pub open spec fn stops_at(steps: Seq<Step>, layout: Layout, i: int, e: Error) -> bool {
    &&& 0 <= i < steps.len()
    &&& steps[i].coverage is Exact
    &&& closure_error(layout, steps[i].required, e)
    &&& closable_to(steps, layout, i)
}

/// A draft fails: at a step whose bytes have no closure, or else at its fault.
pub open spec fn draft_fails(draft: Draft, layout: Layout, e: Error) -> bool {
    ||| exists|i: int| #[trigger] stops_at(draft.steps, layout, i, e)
    ||| closable_to(draft.steps, layout, draft.steps.len() as int) && draft.fault == Some(e)
}

/// Plan nodes from `start` on are the steps of a draft.
pub open spec fn holds_steps(
    nodes: Seq<PlanNode>,
    start: int,
    steps: Seq<Step>,
    layout: Layout,
) -> bool {
    &&& nodes.len() == start + steps.len()
    &&& closable_to(steps, layout, steps.len() as int)
    &&& forall|i: int|
        start <= i < start + steps.len() ==> holds_step(
            #[trigger] nodes[i],
            steps[i - start],
            layout,
            i,
        )
}

pub open spec fn one_step(step: Step) -> Draft {
    Draft { steps: seq![step], fault: None }
}

pub open spec fn no_steps(e: Error) -> Draft {
    Draft { steps: Seq::empty(), fault: Some(e) }
}

/// One draft and, if it has no fault, another.
pub open spec fn joined(first: Draft, second: Draft) -> Draft {
    match first.fault {
        Some(_) => first,
        None => Draft { steps: first.steps + second.steps, fault: second.fault },
    }
}

/// The fields of a set of bytes.
pub open spec fn fields_of(required: Set<(FieldId, int)>) -> Set<FieldId> {
    Set::new(|f: FieldId| exists|b: int| #[trigger] required.contains((f, b)))
}

/// A step that reads bytes: refined while the plan runs, or known beforehand.
pub open spec fn access_step(
    op: PlanOp,
    rows: Span,
    required: Set<(FieldId, int)>,
    refined: bool,
    more: Seq<FieldId>,
    reason: Seq<char>,
    licence: Authorization,
) -> Step {
    Step {
        op,
        rows,
        required,
        coverage: if refined {
            Coverage::Refined {
                seed: required,
                possible: fields_of(required).union(more.to_set()),
                reason,
            }
        } else {
            Coverage::Exact
        },
        guarantee: OutputGuarantee::PhysicalBytes,
        licence,
    }
}

// ----- what each node reads -----

/// The first run of bytes of a field in a set, or an empty range.
pub open spec fn is_first_run(required: Set<(FieldId, int)>, field: FieldId, run: Span) -> bool {
    if exists|b: int| required.contains((field, b)) {
        &&& run.start < run.end
        &&& forall|b: int| b < run.start ==> !#[trigger] required.contains((field, b))
        &&& forall|b: int| run.start <= b < run.end ==> #[trigger] required.contains((field, b))
        &&& !required.contains((field, run.end as int))
    } else {
        run == Span { start: 0, end: 0 }
    }
}

pub open spec fn first_run(required: Set<(FieldId, int)>, field: FieldId) -> Span {
    choose|run: Span| is_first_run(required, field, run)
}

/// The first of the rows that a miniblock has, counted from the block's start.
pub open spec fn block_first(rows: Span, per_block: int, block: int) -> int {
    if rows.start > block * per_block {
        rows.start - block * per_block
    } else {
        0
    }
}

/// The row after the last that a miniblock has, counted from the block's start.
pub open spec fn block_last(rows: Span, per_block: int, block: int) -> int {
    if rows.end < block * per_block + per_block {
        rows.end - block * per_block
    } else {
        per_block
    }
}

/// Why a miniblock's bytes are not addressable.
pub open spec fn block_fault(rows: Span, width: int, per_block: int, bytes: int, block: int) -> Option<
    Error,
> {
    if block_last(rows, per_block, block) * width > usize::MAX {
        Some(Error::PackedBitOverflow)
    } else if block * bytes + ceil_div(block_last(rows, per_block, block) * width, 8) > usize::MAX {
        Some(Error::PackedByteOverflow)
    } else {
        None
    }
}

/// The bytes of a miniblock that rows need.
pub open spec fn block_bytes(
    stream: FieldId,
    rows: Span,
    width: int,
    per_block: int,
    bytes: int,
    block: int,
) -> Set<(FieldId, int)> {
    field_bytes(
        stream,
        block * bytes + block_first(rows, per_block, block) * width / 8,
        block * bytes + ceil_div(block_last(rows, per_block, block) * width, 8),
    )
}

/// The bytes of the miniblocks `from..to` that rows need, or the first fault.
pub open spec fn blocks_bytes(
    stream: FieldId,
    rows: Span,
    width: int,
    per_block: int,
    bytes: int,
    from: int,
    to: int,
) -> Result<Set<(FieldId, int)>, Error>
    decreases to - from,
{
    if to <= from {
        Ok(Set::empty())
    } else {
        match blocks_bytes(stream, rows, width, per_block, bytes, from, to - 1) {
            Err(e) => Err(e),
            Ok(before) => match block_fault(rows, width, per_block, bytes, to - 1) {
                Some(e) => Err(e),
                None => Ok(
                    before.union(block_bytes(stream, rows, width, per_block, bytes, to - 1)),
                ),
            },
        }
    }
}

/// The bytes of a packed stream that rows need.
pub open spec fn packed_bytes(
    stream: FieldId,
    rows: Span,
    width: int,
    per_block: int,
    bytes: int,
) -> Result<Set<(FieldId, int)>, Error> {
    if width == 0 || rows.start == rows.end {
        Ok(Set::empty())
    } else {
        blocks_bytes(
            stream,
            rows,
            width,
            per_block,
            bytes,
            rows.start as int / per_block,
            (rows.end - 1) / per_block + 1,
        )
    }
}

/// The whole of a field.
pub open spec fn whole_field(layout: Layout, field: FieldId) -> Result<Set<(FieldId, int)>, Error> {
    if field.0 < layout.fields.len() {
        Ok(field_bytes(field, 0, layout.fields[field.0 as int].length as int))
    } else {
        Err(Error::AccessFieldAbsent(field.0))
    }
}

/// The last restart that rows need.
pub open spec fn last_restart(rows: Span, interval: int) -> int {
    if rows.start == rows.end {
        rows.start as int / interval
    } else {
        (rows.end - 1) / interval
    }
}

/// The rows that are decoded for rows of differences.
pub open spec fn from_restart(rows: Span, interval: int) -> Span {
    if rows.start == rows.end {
        rows
    } else {
        Span { start: (rows.start as int / interval * interval) as usize, end: rows.end }
    }
}

/// The validity and the ranks that rows need.
pub open spec fn rank_bytes(validity: FieldId, ranks: FieldId, rows: Span, interval: int) -> Set<
    (FieldId, int),
> {
    field_bytes(validity, rows.start as int / 8, ceil_div(rows.end as int, 8)).union(
        field_bytes(
            ranks,
            rows.start as int / interval * 4,
            (ceil_div(rows.end as int, interval) + 1) * 4,
        ),
    )
}

/// The steps that read what rows of a node need.
pub open spec fn node_draft(
    layout: Layout,
    nodes: Seq<DecoderNode>,
    id: int,
    rows: Span,
    dynamic: bool,
) -> Draft
    decreases id,
{
    if id < 0 || id >= nodes.len() {
        no_steps(Error::NodeAbsent(id as usize))
    } else if child_of(nodes[id]) matches Some(child) && child.0 >= id {
        no_steps(Error::ChildAbsent(id as usize))
    } else {
        match nodes[id] {
            DecoderNode::BitUnpack { stream, width, miniblock_rows, miniblock_bytes, .. } =>
                match packed_bytes(
                stream,
                rows,
                width as int,
                miniblock_rows as int,
                miniblock_bytes as int,
            ) {
                Err(e) => no_steps(e),
                Ok(required) => one_step(
                    access_step(
                        PlanOp::ReadRange { field: stream, bytes: first_run(required, stream) },
                        rows,
                        required,
                        dynamic,
                        Seq::empty(),
                        "bit range depends on runtime-refined parent rows"@,
                        Authorization::Unconditional,
                    ),
                ),
            },
            DecoderNode::For { base, values } => joined(
                one_step(
                    access_step(
                        PlanOp::ReadRange { field: base, bytes: Span { start: 0, end: 8 } },
                        rows,
                        field_bytes(base, 0, 8),
                        dynamic,
                        Seq::empty(),
                        "FOR child rows are runtime-refined"@,
                        Authorization::Unconditional,
                    ),
                ),
                node_draft(layout, nodes, values.0 as int, rows, dynamic),
            ),
            DecoderNode::Delta { deltas, restarts, restart_interval, .. } => {
                let interval = restart_interval as int;
                let first = rows.start as int / interval;
                if (last_restart(rows, interval) + 1) * 8 > usize::MAX {
                    no_steps(Error::FieldOffsetOverflow)
                } else {
                    joined(
                        one_step(
                            access_step(
                                PlanOp::SeekRestart { field: restarts, restart: first as usize },
                                rows,
                                field_bytes(
                                    restarts,
                                    first * 8,
                                    (last_restart(rows, interval) + 1) * 8,
                                ),
                                dynamic,
                                Seq::empty(),
                                "delta restart range is runtime-refined"@,
                                Authorization::Unconditional,
                            ),
                        ),
                        node_draft(
                            layout,
                            nodes,
                            deltas.0 as int,
                            from_restart(rows, interval),
                            dynamic,
                        ),
                    )
                }
            },
            DecoderNode::Rle { values, run_lengths, run_index, runs, .. } => match whole_field(
                layout,
                run_index,
            ) {
                Err(e) => no_steps(e),
                Ok(required) => joined(
                    one_step(
                        access_step(
                            PlanOp::RefineCandidates,
                            rows,
                            required,
                            true,
                            seq![run_lengths],
                            "RLE index determines intersecting run lengths and value rows"@,
                            Authorization::Unconditional,
                        ),
                    ),
                    node_draft(
                        layout,
                        nodes,
                        values.0 as int,
                        Span { start: 0, end: runs },
                        true,
                    ),
                ),
            },
            DecoderNode::Dictionary { ids, dictionary, .. } => joined(
                node_draft(layout, nodes, ids.0 as int, rows, dynamic),
                one_step(
                    access_step(
                        PlanOp::RefineCandidates,
                        rows,
                        Set::empty(),
                        true,
                        seq![dictionary],
                        "decoded ids determine the referenced dictionary subset"@,
                        Authorization::Unconditional,
                    ),
                ),
            ),
            DecoderNode::Patch { values, positions, position_index, exceptions, .. } =>
                match whole_field(layout, position_index) {
                Err(e) => no_steps(e),
                Ok(required) => joined(
                    one_step(
                        access_step(
                            PlanOp::RefineCandidates,
                            rows,
                            required,
                            true,
                            seq![positions, exceptions],
                            "patch index determines intersecting positions and exceptions"@,
                            Authorization::Unconditional,
                        ),
                    ),
                    node_draft(layout, nodes, values.0 as int, rows, dynamic),
                ),
            },
            DecoderNode::Nullable { validity, rank_index, values, rank_interval, .. } => {
                let interval = rank_interval as int;
                if (ceil_div(rows.end as int, interval) + 1) * 4 > usize::MAX {
                    no_steps(Error::FieldOffsetOverflow)
                } else {
                    joined(
                        one_step(
                            access_step(
                                PlanOp::RefineCandidates,
                                rows,
                                rank_bytes(validity, rank_index, rows, interval),
                                true,
                                Seq::empty(),
                                "validity ranks determine compact child rows"@,
                                Authorization::Unconditional,
                            ),
                        ),
                        match node_len(nodes, nodes[values.0 as int]) {
                            Err(e) => no_steps(e),
                            Ok(len) => node_draft(
                                layout,
                                nodes,
                                values.0 as int,
                                Span { start: 0, end: len },
                                true,
                            ),
                        },
                    )
                }
            },
        }
    }
}

// ----- the plan of a query -----

/// What is wrong with a query for which a plan is asked.
pub open spec fn plan_query_error(len: int, query: Query) -> Option<Error> {
    if query matches Query::Count { predicate: Predicate::Between { .. } } {
        Some(Error::CountBetweenUnplanned)
    } else {
        query_error(len, query)
    }
}

/// The rows of a query.
pub open spec fn planned_rows(len: int, query: Query) -> Span {
    match query {
        Query::Get { row } => Span { start: row, end: (row + 1) as usize },
        Query::Sum { rows } => rows,
        Query::Between { rows, .. } => rows,
        Query::Filter { .. } => Span { start: 0, end: len as usize },
        Query::Count { .. } => Span { start: 0, end: len as usize },
    }
}

/// Where the nulls of a root lie that is known to be non-decreasing apart from
/// them: the first placement that is stated.
pub open spec fn monotone_nulls(facts: Set<Fact>, root: NodeId) -> Option<NullPlacement> {
    let monotone = Property::Value(ValueInvariant::NonDecreasing);
    if states(facts, root, FactScope::AllRows, monotone) {
        Some(NullPlacement::NoNulls)
    } else if !states(facts, root, FactScope::NonNullRows, monotone) {
        None
    } else if placement_stated(facts, root, NullPlacement::NoNulls) {
        Some(NullPlacement::NoNulls)
    } else if placement_stated(facts, root, NullPlacement::First) {
        Some(NullPlacement::First)
    } else if placement_stated(facts, root, NullPlacement::Last) {
        Some(NullPlacement::Last)
    } else if placement_stated(facts, root, NullPlacement::Arbitrary) {
        Some(NullPlacement::Arbitrary)
    } else {
        None
    }
}

/// The fewest rows in which the root is known to be non-decreasing.
pub open spec fn is_least_piece(facts: Set<Fact>, root: NodeId, rows: usize) -> bool {
    piecewise_stated(facts, root, rows) && forall|other: usize| #[trigger]
        piecewise_stated(facts, root, other) ==> rows <= other
}

pub open spec fn piecewise_rows(facts: Set<Fact>, root: NodeId) -> Option<usize> {
    if exists|rows: usize| #[trigger] is_least_piece(facts, root, rows) {
        Some(choose|rows: usize| #[trigger] is_least_piece(facts, root, rows))
    } else {
        None
    }
}

pub open spec fn searchable(nulls: Option<NullPlacement>) -> bool {
    match nulls {
        Some(NullPlacement::NoNulls) => true,
        Some(NullPlacement::First) => true,
        Some(NullPlacement::Last) => true,
        _ => false,
    }
}

/// All fields but the header.
pub open spec fn body_fields(layout: Layout) -> Set<FieldId> {
    Set::new(|f: FieldId| f.0 < layout.fields.len() && f != layout.metadata)
}

/// A step that searches for the bounds of the answer.
pub open spec fn search_step(
    layout: Layout,
    op: PlanOp,
    rows: Span,
    reason: Seq<char>,
    licence: Authorization,
) -> Step {
    Step {
        op,
        rows,
        required: Set::empty(),
        coverage: Coverage::Refined {
            seed: Set::empty(),
            possible: body_fields(layout),
            reason,
        },
        guarantee: OutputGuarantee::ExactBitmap,
        licence,
    }
}

/// A step without bytes of its own.
pub open spec fn closing_step(
    op: PlanOp,
    rows: Span,
    guarantee: OutputGuarantee,
    licence: Authorization,
) -> Step {
    Step { op, rows, required: Set::empty(), coverage: Coverage::Exact, guarantee, licence }
}

/// The step that reads the header.
pub open spec fn metadata_step(layout: Layout, rows: Span) -> Step {
    Step {
        op: PlanOp::LoadMetadata { field: layout.metadata },
        rows,
        required: field_bytes(
            layout.metadata,
            0,
            layout.fields[layout.metadata.0 as int].length as int,
        ),
        coverage: Coverage::Exact,
        guarantee: OutputGuarantee::PhysicalBytes,
        licence: Authorization::Unconditional,
    }
}

pub open spec fn monotone_scope(facts: Set<Fact>, root: NodeId) -> FactScope {
    if states(
        facts,
        root,
        FactScope::AllRows,
        Property::Value(ValueInvariant::NonDecreasing),
    ) {
        FactScope::AllRows
    } else {
        FactScope::NonNullRows
    }
}

pub open spec fn order_preserved(facts: Set<Fact>, root: NodeId) -> bool {
    states(
        facts,
        root,
        FactScope::Mapping,
        Property::Mapping(MappingInvariant::OrderPreserving),
    )
}

/// A count is taken from runs.
pub open spec fn counts_runs(nodes: Seq<DecoderNode>, root: NodeId, query: Query) -> bool {
    query is Count && nodes[root.0 as int] is Rle
}

/// The steps between the header and the answer.
pub open spec fn middle_draft(
    layout: Layout,
    nodes: Seq<DecoderNode>,
    root: NodeId,
    facts: Set<Fact>,
    query: Query,
    rows: Span,
) -> Draft {
    let top = root.0 as int;
    if query is Filter && searchable(monotone_nulls(facts, root)) {
        one_step(
            search_step(
                layout,
                PlanOp::SearchMonotone { nulls: monotone_nulls(facts, root)->0 },
                rows,
                "checked non-decreasing invariant enables exact boundary search"@,
                Authorization::Fact {
                    node: root,
                    scope: monotone_scope(facts, root),
                    property: Property::Value(ValueInvariant::NonDecreasing),
                },
            ),
        )
    } else if query is Filter && piecewise_rows(facts, root) is Some {
        let max_rows = piecewise_rows(facts, root)->0;
        one_step(
            search_step(
                layout,
                PlanOp::SearchPiecewiseMonotone { max_rows },
                rows,
                "structural piecewise non-decreasing invariant enables exact per-block boundary search"@,
                Authorization::Fact {
                    node: root,
                    scope: FactScope::AllRows,
                    property: Property::Value(ValueInvariant::PiecewiseNonDecreasing { max_rows }),
                },
            ),
        )
    } else if query is Filter && order_preserved(facts, root) && nodes[top] is Dictionary {
        let dictionary = nodes[top]->dictionary;
        match whole_field(layout, dictionary) {
            Err(e) => no_steps(e),
            Ok(required) => joined(
                one_step(
                    access_step(
                        PlanOp::TranslateDictionaryRange {
                            dictionary,
                            entries: nodes[top]->entries,
                        },
                        rows,
                        required,
                        true,
                        Seq::empty(),
                        "predicate bounds select a runtime dictionary subset"@,
                        Authorization::Fact {
                            node: root,
                            scope: FactScope::Mapping,
                            property: Property::Mapping(MappingInvariant::OrderPreserving),
                        },
                    ),
                ),
                node_draft(layout, nodes, nodes[top]->ids.0 as int, rows, false),
            ),
        }
    } else if counts_runs(nodes, root, query) {
        let lengths = nodes[top]->run_lengths;
        match whole_field(layout, lengths) {
            Err(e) => no_steps(e),
            Ok(required) => joined(
                one_step(
                    access_step(
                        PlanOp::ReadRange {
                            field: lengths,
                            bytes: Span {
                                start: 0,
                                end: layout.fields[lengths.0 as int].length,
                            },
                        },
                        rows,
                        required,
                        false,
                        Seq::empty(),
                        Seq::empty(),
                        Authorization::Unconditional,
                    ),
                ),
                node_draft(
                    layout,
                    nodes,
                    nodes[top]->Rle_values.0 as int,
                    Span { start: 0, end: nodes[top]->runs },
                    true,
                ),
            ),
        }
    } else {
        node_draft(layout, nodes, top, rows, false)
    }
}

/// What a plan for a query gives.
pub open spec fn planned_output(query: Query) -> OutputGuarantee {
    match query {
        Query::Get { .. } => OutputGuarantee::ExactScalar,
        Query::Sum { .. } => OutputGuarantee::ExactScalar,
        Query::Count { .. } => OutputGuarantee::ExactScalar,
        Query::Between { .. } => OutputGuarantee::ExactBitmap,
        Query::Filter { .. } => OutputGuarantee::ExactBitmap,
    }
}

/// The last step.
pub open spec fn final_step(nodes: Seq<DecoderNode>, root: NodeId, query: Query, rows: Span) -> Step {
    let top = root.0 as int;
    if counts_runs(nodes, root, query) {
        closing_step(
            PlanOp::CountRuns { run_lengths: nodes[top]->run_lengths },
            rows,
            planned_output(query),
            Authorization::Fact {
                node: root,
                scope: FactScope::Physical,
                property: Property::Access(
                    AccessInvariant::RunIndex { max_runs: nodes[top]->Rle_index_interval },
                ),
            },
        )
    } else {
        closing_step(
            match query {
                Query::Count { .. } => PlanOp::CountExact,
                Query::Get { .. } => PlanOp::MaterializeRows,
                Query::Sum { .. } => PlanOp::AggregateEncoded,
                Query::Between { .. } => PlanOp::RefineCandidates,
                Query::Filter { .. } => PlanOp::RefineCandidates,
            },
            rows,
            planned_output(query),
            Authorization::Unconditional,
        )
    }
}

/// The facts that a column proves.
pub open spec fn column_facts(column: EncodedColumn) -> Set<Fact> {
    derived_facts(
        column.decoder.arena(),
        column.decoder.top(),
        column.page.plan().frames,
        column.page.stated(),
    )
}

/// The plan of a query on a column.
pub open spec fn plan_draft(column: EncodedColumn, query: Query) -> Draft {
    let len = column.truth@.len() as int;
    let layout = column.page.plan();
    let nodes = column.decoder.arena();
    let root = column.decoder.top();
    let rows = planned_rows(len, query);
    match plan_query_error(len, query) {
        Some(e) => no_steps(e),
        None => joined(
            one_step(metadata_step(layout, rows)),
            joined(
                middle_draft(layout, nodes, root, column_facts(column), query, rows),
                one_step(final_step(nodes, root, query, rows)),
            ),
        ),
    }
}

// ----- building plans -----

/// A planning step did what a draft says.
spec fn planned(
    r: Result<(), Error>,
    draft: Draft,
    layout: Layout,
    before: Seq<PlanNode>,
    after: Seq<PlanNode>,
) -> bool {
    match r {
        Ok(()) => {
            &&& draft.fault is None
            &&& after.len() >= before.len()
            &&& forall|i: int| 0 <= i < before.len() ==> #[trigger] after[i] == before[i]
            &&& holds_steps(after, before.len() as int, draft.steps, layout)
        },
        Err(e) => draft_fails(draft, layout, e),
    }
}

/// One planning step after another.
proof fn lemma_then(
    r: Result<(), Error>,
    first: Draft,
    second: Draft,
    layout: Layout,
    a: Seq<PlanNode>,
    b: Seq<PlanNode>,
    c: Seq<PlanNode>,
)
    requires
        planned(Ok(()), first, layout, a, b),
        planned(r, second, layout, b, c),
    ensures
        planned(r, joined(first, second), layout, a, c),
{
    let all = joined(first, second).steps;
    let n = first.steps.len() as int;
    assert(closable_to(first.steps, layout, n));
    match r {
        Ok(()) => {
            assert forall|i: int| 0 <= i < a.len() implies #[trigger] c[i] == a[i] by {
                assert(b[i] == a[i]);
            }
            assert forall|i: int|
                a.len() <= i < a.len() + all.len() implies holds_step(
                #[trigger] c[i],
                all[i - a.len()],
                layout,
                i,
            ) by {
                if i < b.len() {
                    assert(c[i] == b[i]);
                    assert(holds_step(b[i], first.steps[i - a.len()], layout, i));
                } else {
                    assert(holds_step(c[i], second.steps[i - b.len()], layout, i));
                }
            }
            assert forall|i: int|
                0 <= i < all.len() && (#[trigger] all[i]).coverage is Exact implies closable(
                layout,
                all[i].required,
            ) by {
                if i < n {
                    assert(first.steps[i].coverage is Exact);
                } else {
                    assert(second.steps[i - n].coverage is Exact);
                }
            }
        },
        Err(e) => {
            assert forall|m: int|
                0 <= m <= second.steps.len() && closable_to(second.steps, layout, m) implies #[trigger] closable_to(
                all,
                layout,
                n + m,
            ) by {
                assert forall|i: int|
                    0 <= i < n + m && (#[trigger] all[i]).coverage is Exact implies closable(
                    layout,
                    all[i].required,
                ) by {
                    if i < n {
                        assert(first.steps[i].coverage is Exact);
                    } else {
                        assert(second.steps[i - n].coverage is Exact);
                    }
                }
            }
            if exists|i: int| #[trigger] stops_at(second.steps, layout, i, e) {
                let i = choose|i: int| #[trigger] stops_at(second.steps, layout, i, e);
                assert(all[n + i] == second.steps[i]);
                assert(closable_to(all, layout, n + i));
                assert(stops_at(all, layout, n + i, e));
            } else {
                assert(closable_to(all, layout, n + second.steps.len()));
            }
        },
    }
}

/// Where the first step fails, both do.
proof fn lemma_fails(first: Draft, second: Draft, layout: Layout, e: Error)
    requires
        draft_fails(first, layout, e),
    ensures
        draft_fails(joined(first, second), layout, e),
{
    if first.fault is None {
        let all = joined(first, second).steps;
        let i = choose|i: int| #[trigger] stops_at(first.steps, layout, i, e);
        assert(all[i] == first.steps[i]);
        assert forall|j: int| 0 <= j < i && (#[trigger] all[j]).coverage is Exact implies closable(
            layout,
            all[j].required,
        ) by {
            assert(first.steps[j].coverage is Exact);
        }
        assert(stops_at(all, layout, i, e));
    }
}

/// Adds a field to an ascending list.
fn insert_field(list: &mut Vec<FieldId>, field: FieldId, Ghost(fields): Ghost<Set<FieldId>>)
    requires
        lists_fields(old(list)@, fields),
    ensures
        lists_fields(final(list)@, fields.insert(field)),
{
    let ghost before = list@;
    let mut at: usize = 0;
    while at < list.len() && list[at].0 < field.0
        invariant
            at <= list@.len(),
            list@ == before,
            forall|k: int| 0 <= k < at ==> (#[trigger] before[k]).0 < field.0,
        decreases list@.len() - at,
    {
        at = at + 1;
    }
    if at < list.len() && list[at].0 == field.0 {
        proof {
            assert(before[at as int] == field);
            assert(fields.contains(field)) by {
                assert(before.contains(field));
            }
            assert(fields.insert(field) =~= fields);
        }
        return;
    }
    list.insert(at, field);
    proof {
        let after = list@;
        assert(after =~= before.insert(at as int, field));
        assert forall|i: int, j: int| 0 <= i < j < after.len() implies (#[trigger] after[i]).0 < (
        #[trigger] after[j]).0 by {
            let p = if i < at {
                i
            } else {
                i - 1
            };
            let q = if j < at {
                j
            } else {
                j - 1
            };
            if i != at {
                assert(after[i] == before[p]);
            }
            if j != at {
                assert(after[j] == before[q]);
            }
            if i == at && q > at {
                assert(before[at as int].0 < before[q].0);
            }
        }
        assert forall|f: FieldId| #[trigger] after.contains(f) == fields.insert(field).contains(
            f,
        ) by {
            if after.contains(f) {
                let k = choose|k: int| 0 <= k < after.len() && after[k] == f;
                if k != at {
                    let p = if k < at {
                        k
                    } else {
                        k - 1
                    };
                    assert(before[p] == f);
                    assert(before.contains(f));
                }
            }
            if before.contains(f) {
                let k = choose|k: int| 0 <= k < before.len() && before[k] == f;
                let p = if k < at {
                    k
                } else {
                    k + 1
                };
                assert(after[p] == f);
            }
            if f == field {
                assert(after[at as int] == f);
            }
        }
    }
}

/// The fields of a set of bytes and more, in ascending order.
fn possible_fields(fields: &AccessSet, more: &Vec<FieldId>) -> (r: Vec<FieldId>)
    requires
        fields.wf(),
    ensures
        lists_fields(r@, fields_of(fields@).union(more@.to_set())),
{
    let entries = fields.iter();
    let mut list: Vec<FieldId> = Vec::new();
    let mut k: usize = 0;
    while k < entries.len()
        invariant
            k <= entries@.len(),
            entries_canonical(entries@),
            list@.len() == k,
            forall|i: int| 0 <= i < k ==> #[trigger] list@[i] == entries@[i].0,
        decreases entries@.len() - k,
    {
        list.push(entries[k].0);
        k = k + 1;
    }
    let ghost mut held = fields_of(fields@);
    proof {
        assert forall|f: FieldId| #[trigger] list@.contains(f) == held.contains(f) by {
            if list@.contains(f) {
                let i = choose|i: int| 0 <= i < list@.len() && list@[i] == f;
                let spans = entries@[i].1@;
                assert(canonical(spans) && spans.len() > 0);
                assert(spans[0].has(spans[0].start as int));
                assert(covers(spans, spans[0].start as int));
                assert(entries_hold(entries@, (f, spans[0].start as int)));
                assert(fields@.contains((f, spans[0].start as int)));
            }
            if held.contains(f) {
                let b = choose|b: int| #[trigger] fields@.contains((f, b));
                assert(entries_hold(entries@, (f, b)));
                let i = choose|i: int|
                    0 <= i < entries@.len() && (#[trigger] entries@[i]).0 == f && covers(
                        entries@[i].1@,
                        b,
                    );
                assert(list@[i] == f);
            }
        }
        assert(held =~= fields_of(fields@).union(more@.take(0).to_set()));
    }
    let mut k: usize = 0;
    while k < more.len()
        invariant
            k <= more@.len(),
            lists_fields(list@, held),
            held == fields_of(fields@).union(more@.take(k as int).to_set()),
        decreases more@.len() - k,
    {
        insert_field(&mut list, more[k], Ghost(held));
        proof {
            let seen = more@.take(k as int);
            let next = more@.take(k + 1);
            assert(next =~= seen.push(more@[k as int]));
            assert forall|f: FieldId| next.contains(f) == (seen.contains(f) || f
                == more@[k as int]) by {
                vstd::seq_lib::lemma_seq_contains_after_push(seen, more@[k as int], f);
            }
            held = held.insert(more@[k as int]);
            assert(held =~= fields_of(fields@).union(next.to_set()));
        }
        k = k + 1;
    }
    assert(more@.take(k as int) =~= more@);
    list
}

fn push_plan_node(
    plan: &mut Vec<PlanNode>,
    op: PlanOp,
    rows: Span,
    required_fields: AccessSet,
    byte_closure: ClosureSpec,
    guarantee: OutputGuarantee,
    authorization: Authorization,
    Ghost(layout): Ghost<Layout>,
    Ghost(step): Ghost<Step>,
)
    requires
        forall|node: PlanNode|
            node.op == op && node.rows == RowDomain(rows) && node.required_fields == required_fields
                && node.byte_closure == byte_closure && node.guarantee == guarantee
                && node.authorization == authorization && node.id.0 == old(plan)@.len()
                ==> #[trigger] holds_step(node, step, layout, old(plan)@.len() as int),
        step.coverage is Exact ==> closable(layout, step.required),
    ensures
        planned(Ok(()), one_step(step), layout, old(plan)@, final(plan)@),
{
    let id = PlanNodeId(plan.len());
    let node = PlanNode {
        id,
        op,
        rows: RowDomain(rows),
        required_fields,
        byte_closure,
        guarantee,
        authorization,
    };
    assert(holds_step(node, step, layout, plan@.len() as int));
    plan.push(node);
}

/// Adds a step that reads bytes.
fn add_access_node(
    layout: &LayoutIr,
    plan: &mut Vec<PlanNode>,
    op: PlanOp,
    rows: Span,
    fields: AccessSet,
    refined: bool,
    more: Vec<FieldId>,
    reason: &str,
    licence: Authorization,
) -> (r: Result<(), Error>)
    requires
        fields.wf(),
        layout_error(layout@) is None,
    ensures
        planned(
            r,
            one_step(access_step(op, rows, fields@, refined, more@, reason@, licence)),
            layout@,
            old(plan)@,
            final(plan)@,
        ),
{
    let ghost step = access_step(op, rows, fields@, refined, more@, reason@, licence);
    let closure = if refined {
        let possible = possible_fields(&fields, &more);
        ClosureSpec::RuntimeRefined {
            seed: fields.clone(),
            possible_fields: possible,
            reason: String::from_str(reason),
        }
    } else {
        match layout.closure(&fields) {
            Ok(closure) => ClosureSpec::Exact(closure),
            Err(e) => {
                assert(stops_at(one_step(step).steps, layout@, 0, e));
                return Err(e);
            },
        }
    };
    push_plan_node(
        plan,
        op,
        rows,
        fields,
        closure,
        OutputGuarantee::PhysicalBytes,
        licence,
        Ghost(layout@),
        Ghost(step),
    );
    Ok(())
}

proof fn lemma_first_run(required: Set<(FieldId, int)>, field: FieldId, run: Span)
    requires
        is_first_run(required, field, run),
    ensures
        first_run(required, field) == run,
{
    let other = first_run(required, field);
    assert(is_first_run(required, field, other));
    if exists|b: int| required.contains((field, b)) {
        if other.start < run.start {
            assert(required.contains((field, other.start as int)));
        }
        if run.start < other.start {
            assert(required.contains((field, run.start as int)));
        }
        if other.end < run.end {
            assert(required.contains((field, other.end as int)));
        }
        if run.end < other.end {
            assert(required.contains((field, run.end as int)));
        }
    }
}

/// The first run of bytes of a field.
fn leading_run(fields: &AccessSet, field: FieldId) -> (r: Span)
    requires
        fields.wf(),
    ensures
        r == first_run(fields@, field),
{
    let spans = fields.spans(field);
    proof {
        if spans@.len() == 0 {
            assert forall|b: int| !fields@.contains((field, b)) by {
                assert(!covers(spans@, b));
            }
            lemma_first_run(fields@, field, Span { start: 0, end: 0 });
        } else {
            let first = spans@[0];
            assert(first.has(first.start as int));
            assert(covers(spans@, first.start as int));
            assert forall|b: int| b < first.start implies !#[trigger] fields@.contains((field, b)) by {
                if covers(spans@, b) {
                    let k = choose|k: int| 0 <= k < spans@.len() && (#[trigger] spans@[k]).has(b);
                    if k > 0 {
                        assert(spans@[0].end < spans@[k].start);
                    }
                }
                assert(covers(spans@, b) == fields@.contains((field, b)));
            }
            assert forall|b: int| first.start <= b < first.end implies #[trigger] fields@.contains(
                (field, b),
            ) by {
                assert(spans@[0].has(b));
                assert(covers(spans@, b));
            }
            assert(!fields@.contains((field, first.end as int))) by {
                if covers(spans@, first.end as int) {
                    let k = choose|k: int|
                        0 <= k < spans@.len() && (#[trigger] spans@[k]).has(first.end as int);
                    if k > 0 {
                        assert(spans@[0].end < spans@[k].start);
                    }
                }
                assert(covers(spans@, first.end as int) == fields@.contains(
                    (field, first.end as int),
                ));
            }
            lemma_first_run(fields@, field, first);
        }
    }
    if spans.len() == 0 {
        Span { start: 0, end: 0 }
    } else {
        spans[0]
    }
}

/// The bytes of a packed stream that rows need.
fn packed_access(
    stream: FieldId,
    rows: Span,
    width: u8,
    miniblock_rows: usize,
    miniblock_bytes: usize,
) -> (r: Result<AccessSet, Error>)
    requires
        rows.wf(),
        miniblock_rows > 0,
    ensures
        match packed_bytes(
            stream,
            rows,
            width as int,
            miniblock_rows as int,
            miniblock_bytes as int,
        ) {
            Ok(required) => r matches Ok(fields) && fields.wf() && fields@ == required,
            Err(e) => r matches Err(found) && found == e,
        },
{
    let ghost per_block = miniblock_rows as int;
    let mut fields = AccessSet::default();
    if width == 0 || rows.is_empty() {
        return Ok(fields);
    }
    let first: usize = rows.start / miniblock_rows;
    let last: usize = (rows.end - 1) / miniblock_rows;
    proof {
        lemma_floor(rows.start as int, per_block);
        lemma_floor(rows.end - 1, per_block);
        vstd::arithmetic::div_mod::lemma_div_is_ordered(rows.start as int, rows.end - 1, per_block);
    }
    let mut block: usize = first;
    loop
        invariant
            rows.wf(),
            rows.start < rows.end,
            width > 0,
            miniblock_rows > 0,
            per_block == miniblock_rows,
            first == rows.start as int / per_block,
            last == (rows.end - 1) / per_block,
            first * per_block <= rows.start < first * per_block + per_block,
            last * per_block <= rows.end - 1 < last * per_block + per_block,
            first <= block <= last,
            fields.wf(),
            blocks_bytes(
                stream,
                rows,
                width as int,
                per_block,
                miniblock_bytes as int,
                first as int,
                block as int,
            ) == Ok::<Set<(FieldId, int)>, Error>(fields@),
        decreases last - block,
    {
        proof {
            lemma_scale(first as int, block as int, per_block);
            lemma_scale(block as int, last as int, per_block);
            lemma_scale(0, block as int, per_block);
            if first < block {
                lemma_scale(first + 1, block as int, per_block);
                lemma_scale_next(first as int, per_block);
            }
        }
        let block_row: usize = block * miniblock_rows;
        let from: usize = if rows.start > block_row {
            rows.start - block_row
        } else {
            0
        };
        let to: usize = if rows.end - block_row < miniblock_rows {
            rows.end - block_row
        } else {
            miniblock_rows
        };
        proof {
            assert(from == block_first(rows, per_block, block as int));
            assert(to == block_last(rows, per_block, block as int));
            assert(from <= to);
            lemma_scale(from as int, to as int, width as int);
            lemma_ceil(to * width, 8);
        }
        let end_bits: usize = match to.checked_mul(width as usize) {
            Some(bits) => bits,
            None => {
                proof {
                    lemma_blocks_stop(
                        stream,
                        rows,
                        width as int,
                        per_block,
                        miniblock_bytes as int,
                        first as int,
                        block + 1,
                        last + 1,
                    );
                }
                return Err(Error::PackedBitOverflow);
            },
        };
        let end_bytes: usize = if end_bits % 8 == 0 {
            end_bits / 8
        } else {
            end_bits / 8 + 1
        };
        assert(end_bytes == ceil_div(end_bits as int, 8));
        let start_bits: usize = from * width as usize;
        let base: Option<usize> = block.checked_mul(miniblock_bytes);
        let end: Option<usize> = match base {
            Some(base) => base.checked_add(end_bytes),
            None => None,
        };
        match (base, end) {
            (Some(base), Some(end)) => {
                fields.insert(stream, Span { start: base + start_bits / 8, end });
            },
            _ => {
                proof {
                    lemma_blocks_stop(
                        stream,
                        rows,
                        width as int,
                        per_block,
                        miniblock_bytes as int,
                        first as int,
                        block + 1,
                        last + 1,
                    );
                }
                return Err(Error::PackedByteOverflow);
            },
        }
        if block == last {
            return Ok(fields);
        }
        block = block + 1;
    }
}

proof fn lemma_blocks_stop(
    stream: FieldId,
    rows: Span,
    width: int,
    per_block: int,
    bytes: int,
    from: int,
    at: int,
    to: int,
)
    requires
        at <= to,
        blocks_bytes(stream, rows, width, per_block, bytes, from, at) is Err,
    ensures
        blocks_bytes(stream, rows, width, per_block, bytes, from, to) == blocks_bytes(
            stream,
            rows,
            width,
            per_block,
            bytes,
            from,
            at,
        ),
    decreases to - at,
{
    if at < to {
        lemma_blocks_stop(stream, rows, width, per_block, bytes, from, at, to - 1);
    }
}

/// The whole of a field, with its length.
fn whole_access(layout: &LayoutIr, field: FieldId) -> (r: Result<(AccessSet, usize), Error>)
    ensures
        match whole_field(layout@, field) {
            Ok(required) => r matches Ok(found) && found.0.wf() && found.0@ == required && found.1
                == layout@.fields[field.0 as int].length,
            Err(e) => r matches Err(found) && found == e,
        },
{
    if field.0 >= layout.fields.len() {
        return Err(Error::AccessFieldAbsent(field.0));
    }
    let length: usize = layout.fields[field.0].length;
    let mut fields = AccessSet::default();
    fields.insert(field, Span { start: 0, end: length });
    assert(fields@ =~= field_bytes(field, 0, length as int));
    assert(length == layout@.fields[field.0 as int].length);
    Ok((fields, length))
}

/// The restarts that rows need, with the first of them.
fn restart_access(restarts: FieldId, rows: Span, interval: usize) -> (r: Result<
    (AccessSet, usize),
    Error,
>)
    requires
        rows.wf(),
        interval > 0,
    ensures
        if (last_restart(rows, interval as int) + 1) * 8 > usize::MAX {
            r matches Err(e) && e == Error::FieldOffsetOverflow
        } else {
            r matches Ok(found) && found.0.wf() && found.0@ == field_bytes(
                restarts,
                rows.start as int / interval as int * 8,
                (last_restart(rows, interval as int) + 1) * 8,
            ) && found.1 == rows.start as int / interval as int
        },
{
    let first: usize = rows.start / interval;
    let last: usize = if rows.is_empty() {
        first
    } else {
        (rows.end - 1) / interval
    };
    proof {
        if rows.start < rows.end {
            vstd::arithmetic::div_mod::lemma_div_is_ordered(
                rows.start as int,
                rows.end - 1,
                interval as int,
            );
        }
        assert(last == last_restart(rows, interval as int));
    }
    if last >= usize::MAX / 8 {
        return Err(Error::FieldOffsetOverflow);
    }
    let mut fields = AccessSet::default();
    fields.insert(restarts, Span { start: first * 8, end: (last + 1) * 8 });
    assert(fields@ =~= field_bytes(restarts, first * 8, (last + 1) * 8));
    Ok((fields, first))
}

/// The validity and the ranks that rows need.
fn rank_access(validity: FieldId, ranks: FieldId, rows: Span, interval: usize) -> (r: Result<
    AccessSet,
    Error,
>)
    requires
        rows.wf(),
        interval > 0,
    ensures
        if (ceil_div(rows.end as int, interval as int) + 1) * 4 > usize::MAX {
            r matches Err(e) && e == Error::FieldOffsetOverflow
        } else {
            r matches Ok(fields) && fields.wf() && fields@ == rank_bytes(
                validity,
                ranks,
                rows,
                interval as int,
            )
        },
{
    let ghost step = interval as int;
    proof {
        lemma_floor(rows.start as int, step);
        lemma_ceil(rows.end as int, step);
        lemma_ceil(rows.end as int, 8);
        vstd::arithmetic::div_mod::lemma_div_is_ordered(
            rows.start as int,
            rows.end + (step - 1),
            step,
        );
    }
    let groups: usize = if rows.end == 0 {
        proof {
            vstd::arithmetic::div_mod::lemma_basic_div(step - 1, step);
        }
        0
    } else {
        proof {
            lemma_ceil_floor(rows.end as int, step);
        }
        let last: usize = (rows.end - 1) / interval;
        if last >= usize::MAX / 4 {
            return Err(Error::FieldOffsetOverflow);
        }
        last + 1
    };
    assert(groups == ceil_div(rows.end as int, step));
    if groups >= usize::MAX / 4 {
        return Err(Error::FieldOffsetOverflow);
    }
    let end: usize = if rows.end % 8 == 0 {
        rows.end / 8
    } else {
        rows.end / 8 + 1
    };
    assert(end == ceil_div(rows.end as int, 8));
    let mut fields = AccessSet::default();
    fields.insert(validity, Span { start: rows.start / 8, end });
    fields.insert(ranks, Span { start: rows.start / interval * 4, end: (groups + 1) * 4 });
    assert(fields@ =~= rank_bytes(validity, ranks, rows, step));
    Ok(fields)
}

/// Plans what rows of a node need.
fn compile_node(
    layout: &LayoutIr,
    decoder: &DecoderIr,
    id: NodeId,
    rows: Span,
    plan: &mut Vec<PlanNode>,
    dynamic: bool,
) -> (r: Result<(), Error>)
    requires
        decoder.wf(),
        layout_error(layout@) is None,
        rows.wf(),
    ensures
        planned(
            r,
            node_draft(layout@, decoder.arena(), id.0 as int, rows, dynamic),
            layout@,
            old(plan)@,
            final(plan)@,
        ),
    decreases id.0,
{
    let ghost nodes = decoder.arena();
    let ghost whole = node_draft(layout@, nodes, id.0 as int, rows, dynamic);
    let ghost start = plan@;
    proof {
        lemma_arena(nodes, nodes.len() as int);
    }
    let node: DecoderNode = match decoder.node(id) {
        Ok(node) => *node,
        Err(e) => {
            return Err(e);
        },
    };
    assert(node == nodes[id.0 as int]);
    assert(node_error(nodes, id.0) is None);
    match node {
        DecoderNode::BitUnpack { stream, width, miniblock_rows, miniblock_bytes, .. } => {
            let fields = match packed_access(stream, rows, width, miniblock_rows, miniblock_bytes) {
                Ok(fields) => fields,
                Err(e) => {
                    return Err(e);
                },
            };
            let bytes = leading_run(&fields, stream);
            add_access_node(
                layout,
                plan,
                PlanOp::ReadRange { field: stream, bytes },
                rows,
                fields,
                dynamic,
                Vec::new(),
                "bit range depends on runtime-refined parent rows",
                Authorization::Unconditional,
            )
        },
        DecoderNode::For { base, values } => {
            let mut fields = AccessSet::default();
            fields.insert(base, Span { start: 0, end: 8 });
            assert(fields@ =~= field_bytes(base, 0, 8));
            let ghost second = node_draft(layout@, nodes, values.0 as int, rows, dynamic);
            let ghost first = one_step(
                access_step(
                    PlanOp::ReadRange { field: base, bytes: Span { start: 0, end: 8 } },
                    rows,
                    fields@,
                    dynamic,
                    Seq::empty(),
                    "FOR child rows are runtime-refined"@,
                    Authorization::Unconditional,
                ),
            );
            match add_access_node(
                layout,
                plan,
                PlanOp::ReadRange { field: base, bytes: Span { start: 0, end: 8 } },
                rows,
                fields,
                dynamic,
                Vec::new(),
                "FOR child rows are runtime-refined",
                Authorization::Unconditional,
            ) {
                Ok(()) => {},
                Err(e) => {
                    proof {
                        lemma_fails(first, second, layout@, e);
                    }
                    return Err(e);
                },
            }
            let ghost middle = plan@;
            let r = compile_node(layout, decoder, values, rows, plan, dynamic);
            proof {
                lemma_then(r, first, second, layout@, start, middle, plan@);
            }
            r
        },
        DecoderNode::Delta { deltas, restarts, restart_interval, .. } => {
            let (fields, restart) = match restart_access(restarts, rows, restart_interval) {
                Ok(found) => found,
                Err(e) => {
                    return Err(e);
                },
            };
            proof {
                lemma_floor(rows.start as int, restart_interval as int);
            }
            let expanded = if rows.is_empty() {
                rows
            } else {
                Span { start: restart * restart_interval, end: rows.end }
            };
            assert(expanded == from_restart(rows, restart_interval as int));
            let ghost second = node_draft(layout@, nodes, deltas.0 as int, expanded, dynamic);
            let ghost first = one_step(
                access_step(
                    PlanOp::SeekRestart { field: restarts, restart },
                    rows,
                    fields@,
                    dynamic,
                    Seq::empty(),
                    "delta restart range is runtime-refined"@,
                    Authorization::Unconditional,
                ),
            );
            match add_access_node(
                layout,
                plan,
                PlanOp::SeekRestart { field: restarts, restart },
                rows,
                fields,
                dynamic,
                Vec::new(),
                "delta restart range is runtime-refined",
                Authorization::Unconditional,
            ) {
                Ok(()) => {},
                Err(e) => {
                    proof {
                        lemma_fails(first, second, layout@, e);
                    }
                    return Err(e);
                },
            }
            let ghost middle = plan@;
            let r = compile_node(layout, decoder, deltas, expanded, plan, dynamic);
            proof {
                lemma_then(r, first, second, layout@, start, middle, plan@);
            }
            r
        },
        DecoderNode::Rle { values, run_lengths, run_index, runs, .. } => {
            let fields = match whole_access(layout, run_index) {
                Ok((fields, _)) => fields,
                Err(e) => {
                    return Err(e);
                },
            };
            let child_rows = Span { start: 0, end: runs };
            let ghost second = node_draft(layout@, nodes, values.0 as int, child_rows, true);
            let more: Vec<FieldId> = vec![run_lengths];
            assert(more@ =~= seq![run_lengths]);
            let ghost first = one_step(
                access_step(
                    PlanOp::RefineCandidates,
                    rows,
                    fields@,
                    true,
                    seq![run_lengths],
                    "RLE index determines intersecting run lengths and value rows"@,
                    Authorization::Unconditional,
                ),
            );
            match add_access_node(
                layout,
                plan,
                PlanOp::RefineCandidates,
                rows,
                fields,
                true,
                more,
                "RLE index determines intersecting run lengths and value rows",
                Authorization::Unconditional,
            ) {
                Ok(()) => {},
                Err(e) => {
                    proof {
                        lemma_fails(first, second, layout@, e);
                    }
                    return Err(e);
                },
            }
            let ghost middle = plan@;
            let r = compile_node(layout, decoder, values, child_rows, plan, true);
            proof {
                lemma_then(r, first, second, layout@, start, middle, plan@);
            }
            r
        },
        DecoderNode::Dictionary { ids, dictionary, .. } => {
            let ghost first = node_draft(layout@, nodes, ids.0 as int, rows, dynamic);
            let ghost second = one_step(
                access_step(
                    PlanOp::RefineCandidates,
                    rows,
                    Set::empty(),
                    true,
                    seq![dictionary],
                    "decoded ids determine the referenced dictionary subset"@,
                    Authorization::Unconditional,
                ),
            );
            match compile_node(layout, decoder, ids, rows, plan, dynamic) {
                Ok(()) => {},
                Err(e) => {
                    proof {
                        lemma_fails(first, second, layout@, e);
                    }
                    return Err(e);
                },
            }
            let ghost middle = plan@;
            let more: Vec<FieldId> = vec![dictionary];
            assert(more@ =~= seq![dictionary]);
            let r = add_access_node(
                layout,
                plan,
                PlanOp::RefineCandidates,
                rows,
                AccessSet::default(),
                true,
                more,
                "decoded ids determine the referenced dictionary subset",
                Authorization::Unconditional,
            );
            proof {
                lemma_then(r, first, second, layout@, start, middle, plan@);
            }
            r
        },
        DecoderNode::Patch { values, positions, position_index, exceptions, .. } => {
            let fields = match whole_access(layout, position_index) {
                Ok((fields, _)) => fields,
                Err(e) => {
                    return Err(e);
                },
            };
            let ghost second = node_draft(layout@, nodes, values.0 as int, rows, dynamic);
            let more: Vec<FieldId> = vec![positions, exceptions];
            assert(more@ =~= seq![positions, exceptions]);
            let ghost first = one_step(
                access_step(
                    PlanOp::RefineCandidates,
                    rows,
                    fields@,
                    true,
                    seq![positions, exceptions],
                    "patch index determines intersecting positions and exceptions"@,
                    Authorization::Unconditional,
                ),
            );
            match add_access_node(
                layout,
                plan,
                PlanOp::RefineCandidates,
                rows,
                fields,
                true,
                more,
                "patch index determines intersecting positions and exceptions",
                Authorization::Unconditional,
            ) {
                Ok(()) => {},
                Err(e) => {
                    proof {
                        lemma_fails(first, second, layout@, e);
                    }
                    return Err(e);
                },
            }
            let ghost middle = plan@;
            let r = compile_node(layout, decoder, values, rows, plan, dynamic);
            proof {
                lemma_then(r, first, second, layout@, start, middle, plan@);
            }
            r
        },
        DecoderNode::Nullable { validity, rank_index, values, rank_interval, .. } => {
            let fields = match rank_access(validity, rank_index, rows, rank_interval) {
                Ok(fields) => fields,
                Err(e) => {
                    return Err(e);
                },
            };
            let ghost second = match node_len(nodes, nodes[values.0 as int]) {
                Err(e) => no_steps(e),
                Ok(len) => node_draft(
                    layout@,
                    nodes,
                    values.0 as int,
                    Span { start: 0, end: len },
                    true,
                ),
            };
            let ghost first = one_step(
                access_step(
                    PlanOp::RefineCandidates,
                    rows,
                    fields@,
                    true,
                    Seq::empty(),
                    "validity ranks determine compact child rows"@,
                    Authorization::Unconditional,
                ),
            );
            match add_access_node(
                layout,
                plan,
                PlanOp::RefineCandidates,
                rows,
                fields,
                true,
                Vec::new(),
                "validity ranks determine compact child rows",
                Authorization::Unconditional,
            ) {
                Ok(()) => {},
                Err(e) => {
                    proof {
                        lemma_fails(first, second, layout@, e);
                    }
                    return Err(e);
                },
            }
            let ghost middle = plan@;
            let child: DecoderNode = match decoder.node(values) {
                Ok(child) => *child,
                Err(e) => {
                    return Err(e);
                },
            };
            let len: usize = match child.len(decoder.nodes()) {
                Ok(len) => len,
                Err(e) => {
                    proof {
                        assert(planned(Err(e), second, layout@, middle, plan@));
                        lemma_then(Err(e), first, second, layout@, start, middle, plan@);
                    }
                    return Err(e);
                },
            };
            let r = compile_node(layout, decoder, values, Span { start: 0, end: len }, plan, true);
            proof {
                lemma_then(r, first, second, layout@, start, middle, plan@);
            }
            r
        },
    }
}

/// The rows of a query, or why there is no plan for it.
fn query_rows(len: usize, query: &Query) -> (r: Result<Span, Error>)
    ensures
        match plan_query_error(len as int, *query) {
            None => r matches Ok(rows) && rows == planned_rows(len as int, *query) && rows.wf(),
            Some(e) => r matches Err(found) && found == e,
        },
{
    match *query {
        Query::Count { predicate: Predicate::Between { .. } } => Err(Error::CountBetweenUnplanned),
        Query::Count { predicate: Predicate::Equals { .. } } => Ok(Span { start: 0, end: len }),
        Query::Get { row } => if row < len {
            Ok(Span { start: row, end: row + 1 })
        } else {
            Err(Error::GetRowOutside)
        },
        Query::Sum { rows } => if rows.start <= rows.end && rows.end <= len {
            Ok(rows)
        } else {
            Err(Error::QueryRowsInvalid)
        },
        Query::Between { rows, low, high } => if rows.start > rows.end || rows.end > len {
            Err(Error::QueryRowsInvalid)
        } else if low > high {
            Err(Error::BetweenBoundsInvalid)
        } else {
            Ok(rows)
        },
        Query::Filter { predicate: Predicate::Between { low, high } } => if low > high {
            Err(Error::BetweenBoundsInvalid)
        } else {
            Ok(Span { start: 0, end: len })
        },
        Query::Filter { predicate: Predicate::Equals { .. } } => Ok(Span { start: 0, end: len }),
    }
}

/// All fields but the header, in ascending order.
fn all_body_fields(layout: &LayoutIr) -> (r: Vec<FieldId>)
    requires
        layout_error(layout@) is None,
    ensures
        lists_fields(r@, body_fields(layout@)),
{
    let mut list: Vec<FieldId> = Vec::new();
    let mut i: usize = 0;
    while i < layout.fields.len()
        invariant
            layout_error(layout@) is None,
            i <= layout.fields@.len(),
            forall|a: int, b: int|
                0 <= a < b < list@.len() ==> (#[trigger] list@[a]).0 < (#[trigger] list@[b]).0,
            forall|a: int| 0 <= a < list@.len() ==> (#[trigger] list@[a]).0 < i,
            forall|f: FieldId| #[trigger]
                list@.contains(f) == (f.0 < i && f != layout.metadata),
        decreases layout.fields@.len() - i,
    {
        let id: FieldId = layout.fields[i].id;
        proof {
            lemma_valid_field(layout@, i as int);
            assert(layout@.fields[i as int].id == id);
        }
        let ghost before = list@;
        if id.0 != layout.metadata.0 {
            list.push(id);
        }
        assert forall|f: FieldId| #[trigger] list@.contains(f) == (f.0 < i + 1 && f
            != layout.metadata) by {
            if id.0 != layout.metadata.0 {
                vstd::seq_lib::lemma_seq_contains_after_push(before, id, f);
            }
            assert(before.contains(f) == (f.0 < i && f != layout.metadata));
        }
        i = i + 1;
    }
    list
}

/// The steps before the last carry no licence that they lack.
proof fn lemma_node_licences(
    layout: Layout,
    nodes: Seq<DecoderNode>,
    id: int,
    rows: Span,
    dynamic: bool,
)
    ensures
        forall|i: int|
            0 <= i < node_draft(layout, nodes, id, rows, dynamic).steps.len() ==> (
            #[trigger] node_draft(layout, nodes, id, rows, dynamic).steps[i]).licence
                == Authorization::Unconditional && !skips(
                node_draft(layout, nodes, id, rows, dynamic).steps[i].op,
            ),
    decreases id,
{
    if id < 0 || id >= nodes.len() {
    } else if child_of(nodes[id]) matches Some(child) && child.0 >= id {
    } else {
        match nodes[id] {
            DecoderNode::BitUnpack { .. } => {},
            DecoderNode::For { values, .. } => {
                lemma_node_licences(layout, nodes, values.0 as int, rows, dynamic);
            },
            DecoderNode::Delta { deltas, restart_interval, .. } => {
                lemma_node_licences(
                    layout,
                    nodes,
                    deltas.0 as int,
                    from_restart(rows, restart_interval as int),
                    dynamic,
                );
            },
            DecoderNode::Rle { values, runs, .. } => {
                lemma_node_licences(
                    layout,
                    nodes,
                    values.0 as int,
                    Span { start: 0, end: runs },
                    true,
                );
            },
            DecoderNode::Dictionary { ids, .. } => {
                lemma_node_licences(layout, nodes, ids.0 as int, rows, dynamic);
            },
            DecoderNode::Patch { values, .. } => {
                lemma_node_licences(layout, nodes, values.0 as int, rows, dynamic);
            },
            DecoderNode::Nullable { values, .. } => {
                if let Ok(len) = node_len(nodes, nodes[values.0 as int]) {
                    lemma_node_licences(
                        layout,
                        nodes,
                        values.0 as int,
                        Span { start: 0, end: len },
                        true,
                    );
                }
            },
        }
    }
}

/// A step has the licence that it needs.
pub open spec fn licensed(step: Step, facts: Set<Fact>) -> bool {
    licence_fault(PlanNodeId(0), step.op, step.licence, facts) is None
}

proof fn lemma_arena_facts(nodes: Seq<DecoderNode>, id: int, n: int)
    requires
        0 <= id < n,
    ensures
        structural_facts(nodes, id).subset_of(arena_facts(nodes, n)),
    decreases n,
{
    if id < n - 1 {
        lemma_arena_facts(nodes, id, n - 1);
    }
}

/// Every planned step has the licence that it needs.
pub proof fn law_plans_are_licensed(column: EncodedColumn, query: Query, i: int)
    requires
        column.decoder.wf(),
        0 <= i < plan_draft(column, query).steps.len(),
    ensures
        licensed(plan_draft(column, query).steps[i], column_facts(column)),
{
    let layout = column.page.plan();
    let nodes = column.decoder.arena();
    let root = column.decoder.top();
    let top = root.0 as int;
    let facts = column_facts(column);
    let rows = planned_rows(column.truth@.len() as int, query);
    let middle = middle_draft(layout, nodes, root, facts, query, rows);
    assert forall|k: int| 0 <= k < middle.steps.len() implies #[trigger] licensed(
        middle.steps[k],
        facts,
    ) by {
        lemma_node_licences(layout, nodes, top, rows, false);
        if nodes[top] is Dictionary {
            lemma_node_licences(layout, nodes, nodes[top]->ids.0 as int, rows, false);
        }
        if nodes[top] is Rle {
            lemma_node_licences(
                layout,
                nodes,
                nodes[top]->Rle_values.0 as int,
                Span { start: 0, end: nodes[top]->runs },
                true,
            );
        }
        if piecewise_rows(facts, root) is Some {
            let r = choose|r: usize| #[trigger] is_least_piece(facts, root, r);
            assert(is_least_piece(facts, root, r));
        }
    }
    let last = final_step(nodes, root, query, rows);
    assert(licensed(last, facts)) by {
        if counts_runs(nodes, root, query) {
            lemma_arena_facts(nodes, top, nodes.len() as int);
            let f = super::invariants::fact(
                root,
                FactScope::Physical,
                Property::Access(
                    AccessInvariant::RunIndex { max_runs: nodes[top]->Rle_index_interval },
                ),
                super::invariants::Reason::Structure("rle_run_index"@),
                Some(super::invariants::Assumption::PositiveRunLengths),
            );
            assert(structural_facts(nodes, top).contains(f));
            assert(facts.contains(f));
        }
    }
    let all = plan_draft(column, query).steps;
    if i == 0 {
    } else if i - 1 < middle.steps.len() {
        assert(all[i] == middle.steps[i - 1]);
    } else {
        assert(all[i] == last);
    }
}

/// Plans the steps between the header and the answer.
fn compile_middle(
    column: &EncodedColumn,
    query: &Query,
    rows: Span,
    invariants: &InvariantSet,
    plan: &mut Vec<PlanNode>,
) -> (r: Result<(), Error>)
    requires
        column.wf(),
        layout_error(column.page.plan()) is None,
        rows.wf(),
        invariants.wf(),
        plan_query_error(column.truth@.len() as int, *query) is None,
    ensures
        planned(
            r,
            middle_draft(
                column.page.plan(),
                column.decoder.arena(),
                column.decoder.top(),
                invariants@,
                *query,
                rows,
            ),
            column.page.plan(),
            old(plan)@,
            final(plan)@,
        ),
{
    let ghost start = plan@;
    let ghost nodes = column.decoder.arena();
    let ghost facts = invariants@;
    let layout = column.page.layout();
    let decoder = &column.decoder;
    let root: NodeId = decoder.root();
    let node: DecoderNode = match decoder.node(root) {
        Ok(node) => *node,
        Err(e) => {
            return Err(e);
        },
    };
    proof {
        lemma_arena(nodes, nodes.len() as int);
    }
    let filters = match *query {
        Query::Filter { .. } => true,
        _ => false,
    };
    if filters {
        let nulls = invariants.root_monotone_nulls(root);
        assert(nulls == monotone_nulls(facts, root)) by {
            match nulls {
                None => {},
                Some(NullPlacement::NoNulls) => {},
                Some(NullPlacement::First) => {},
                Some(NullPlacement::Last) => {},
                Some(NullPlacement::Arbitrary) => {},
            }
        }
        let search = match nulls {
            Some(NullPlacement::Arbitrary) => None,
            found => found,
        };
        if let Some(nulls) = search {
            let scope = if invariants.contains(
                root,
                FactScope::AllRows,
                Property::Value(ValueInvariant::NonDecreasing),
            ) {
                FactScope::AllRows
            } else {
                FactScope::NonNullRows
            };
            let licence = Authorization::Fact {
                node: root,
                scope,
                property: Property::Value(ValueInvariant::NonDecreasing),
            };
            let reason = "checked non-decreasing invariant enables exact boundary search";
            push_search(layout, plan, PlanOp::SearchMonotone { nulls }, rows, reason, licence);
            return Ok(());
        }
        let piece = invariants.root_piecewise_monotone_rows(root);
        proof {
            match piece {
                Some(max_rows) => {
                    assert(is_least_piece(facts, root, max_rows));
                    let other = choose|r: usize| #[trigger] is_least_piece(facts, root, r);
                    assert(piecewise_stated(facts, root, other));
                    assert(other == max_rows);
                },
                None => {
                    if exists|r: usize| #[trigger] is_least_piece(facts, root, r) {
                        let other = choose|r: usize| #[trigger] is_least_piece(facts, root, r);
                        assert(piecewise_stated(facts, root, other));
                    }
                },
            }
            assert(piece == piecewise_rows(facts, root));
        }
        if let Some(max_rows) = piece {
            let licence = Authorization::Fact {
                node: root,
                scope: FactScope::AllRows,
                property: Property::Value(ValueInvariant::PiecewiseNonDecreasing { max_rows }),
            };
            let reason =
                "structural piecewise non-decreasing invariant enables exact per-block boundary search";
            push_search(
                layout,
                plan,
                PlanOp::SearchPiecewiseMonotone { max_rows },
                rows,
                reason,
                licence,
            );
            return Ok(());
        }
        if invariants.contains(
            root,
            FactScope::Mapping,
            Property::Mapping(MappingInvariant::OrderPreserving),
        ) {
            if let DecoderNode::Dictionary { ids, dictionary, entries, .. } = node {
                return compile_translation(layout, decoder, ids, dictionary, entries, rows, plan);
            }
        }
    }
    let counts = match *query {
        Query::Count { .. } => true,
        _ => false,
    };
    if counts {
        if let DecoderNode::Rle { values, run_lengths, runs, .. } = node {
            return compile_runs(layout, decoder, values, run_lengths, runs, rows, plan);
        }
    }
    compile_node(layout, decoder, root, rows, plan, false)
}

fn push_search(
    layout: &LayoutIr,
    plan: &mut Vec<PlanNode>,
    op: PlanOp,
    rows: Span,
    reason: &str,
    licence: Authorization,
)
    requires
        layout_error(layout@) is None,
    ensures
        planned(
            Ok(()),
            one_step(search_step(layout@, op, rows, reason@, licence)),
            layout@,
            old(plan)@,
            final(plan)@,
        ),
{
    let possible = all_body_fields(layout);
    let closure = ClosureSpec::RuntimeRefined {
        seed: AccessSet::default(),
        possible_fields: possible,
        reason: String::from_str(reason),
    };
    push_plan_node(
        plan,
        op,
        rows,
        AccessSet::default(),
        closure,
        OutputGuarantee::ExactBitmap,
        licence,
        Ghost(layout@),
        Ghost(search_step(layout@, op, rows, reason@, licence)),
    );
}

/// Plans a filter that looks the bounds up in the dictionary first.
fn compile_translation(
    layout: &LayoutIr,
    decoder: &DecoderIr,
    ids: NodeId,
    dictionary: FieldId,
    entries: usize,
    rows: Span,
    plan: &mut Vec<PlanNode>,
) -> (r: Result<(), Error>)
    requires
        decoder.wf(),
        layout_error(layout@) is None,
        rows.wf(),
    ensures
        planned(
            r,
            match whole_field(layout@, dictionary) {
                Err(e) => no_steps(e),
                Ok(required) => joined(
                    one_step(
                        access_step(
                            PlanOp::TranslateDictionaryRange { dictionary, entries },
                            rows,
                            required,
                            true,
                            Seq::empty(),
                            "predicate bounds select a runtime dictionary subset"@,
                            Authorization::Fact {
                                node: decoder.top(),
                                scope: FactScope::Mapping,
                                property: Property::Mapping(MappingInvariant::OrderPreserving),
                            },
                        ),
                    ),
                    node_draft(layout@, decoder.arena(), ids.0 as int, rows, false),
                ),
            },
            layout@,
            old(plan)@,
            final(plan)@,
        ),
{
    let ghost start = plan@;
    let fields = match whole_access(layout, dictionary) {
        Ok((fields, _)) => fields,
        Err(e) => {
            return Err(e);
        },
    };
    let licence = Authorization::Fact {
        node: decoder.root(),
        scope: FactScope::Mapping,
        property: Property::Mapping(MappingInvariant::OrderPreserving),
    };
    let ghost first = one_step(
        access_step(
            PlanOp::TranslateDictionaryRange { dictionary, entries },
            rows,
            fields@,
            true,
            Seq::empty(),
            "predicate bounds select a runtime dictionary subset"@,
            licence,
        ),
    );
    let ghost second = node_draft(layout@, decoder.arena(), ids.0 as int, rows, false);
    match add_access_node(
        layout,
        plan,
        PlanOp::TranslateDictionaryRange { dictionary, entries },
        rows,
        fields,
        true,
        Vec::new(),
        "predicate bounds select a runtime dictionary subset",
        licence,
    ) {
        Ok(()) => {},
        Err(e) => {
            proof {
                lemma_fails(first, second, layout@, e);
            }
            return Err(e);
        },
    }
    let ghost middle = plan@;
    let r = compile_node(layout, decoder, ids, rows, plan, false);
    proof {
        lemma_then(r, first, second, layout@, start, middle, plan@);
    }
    r
}

/// Plans a count that reads all run lengths and decodes one value for each run.
fn compile_runs(
    layout: &LayoutIr,
    decoder: &DecoderIr,
    values: NodeId,
    run_lengths: FieldId,
    runs: usize,
    rows: Span,
    plan: &mut Vec<PlanNode>,
) -> (r: Result<(), Error>)
    requires
        decoder.wf(),
        layout_error(layout@) is None,
        rows.wf(),
    ensures
        planned(
            r,
            match whole_field(layout@, run_lengths) {
                Err(e) => no_steps(e),
                Ok(required) => joined(
                    one_step(
                        access_step(
                            PlanOp::ReadRange {
                                field: run_lengths,
                                bytes: Span {
                                    start: 0,
                                    end: layout@.fields[run_lengths.0 as int].length,
                                },
                            },
                            rows,
                            required,
                            false,
                            Seq::empty(),
                            Seq::empty(),
                            Authorization::Unconditional,
                        ),
                    ),
                    node_draft(
                        layout@,
                        decoder.arena(),
                        values.0 as int,
                        Span { start: 0, end: runs },
                        true,
                    ),
                ),
            },
            layout@,
            old(plan)@,
            final(plan)@,
        ),
{
    let ghost start = plan@;
    let (fields, length) = match whole_access(layout, run_lengths) {
        Ok(found) => found,
        Err(e) => {
            return Err(e);
        },
    };
    let op = PlanOp::ReadRange { field: run_lengths, bytes: Span { start: 0, end: length } };
    let child_rows = Span { start: 0, end: runs };
    let ghost first = one_step(
        access_step(
            op,
            rows,
            fields@,
            false,
            Seq::empty(),
            Seq::empty(),
            Authorization::Unconditional,
        ),
    );
    let ghost second = node_draft(layout@, decoder.arena(), values.0 as int, child_rows, true);
    match add_access_node(
        layout,
        plan,
        op,
        rows,
        fields,
        false,
        Vec::new(),
        "",
        Authorization::Unconditional,
    ) {
        Ok(()) => {},
        Err(e) => {
            proof {
                lemma_fails(first, second, layout@, e);
            }
            return Err(e);
        },
    }
    let ghost middle = plan@;
    let r = compile_node(layout, decoder, values, child_rows, plan, true);
    proof {
        lemma_then(r, first, second, layout@, start, middle, plan@);
    }
    r
}

/// Adds a step whose bytes are known beforehand.
fn push_exact(
    layout: &LayoutIr,
    plan: &mut Vec<PlanNode>,
    op: PlanOp,
    rows: Span,
    fields: AccessSet,
    guarantee: OutputGuarantee,
    licence: Authorization,
) -> (r: Result<(), Error>)
    requires
        fields.wf(),
        layout_error(layout@) is None,
    ensures
        planned(
            r,
            one_step(
                Step {
                    op,
                    rows,
                    required: fields@,
                    coverage: Coverage::Exact,
                    guarantee,
                    licence,
                },
            ),
            layout@,
            old(plan)@,
            final(plan)@,
        ),
{
    let ghost step = Step {
        op,
        rows,
        required: fields@,
        coverage: Coverage::Exact,
        guarantee,
        licence,
    };
    let closure = match layout.closure(&fields) {
        Ok(closure) => closure,
        Err(e) => {
            assert(stops_at(one_step(step).steps, layout@, 0, e));
            return Err(e);
        },
    };
    push_plan_node(
        plan,
        op,
        rows,
        fields,
        ClosureSpec::Exact(closure),
        guarantee,
        licence,
        Ghost(layout@),
        Ghost(step),
    );
    Ok(())
}

/// The plan has its steps numbered and licensed.
proof fn lemma_plan_sound(
    nodes: Seq<PlanNode>,
    steps: Seq<Step>,
    layout: Layout,
    facts: Set<Fact>,
    n: int,
)
    requires
        holds_steps(nodes, 0, steps, layout),
        0 <= n <= steps.len(),
        forall|i: int| 0 <= i < steps.len() ==> #[trigger] licensed(steps[i], facts),
    ensures
        ids_fault(nodes, n) is None,
        licences_fault(nodes, facts, n) is None,
    decreases n,
{
    if n > 0 {
        lemma_plan_sound(nodes, steps, layout, facts, n - 1);
        assert(holds_step(nodes[n - 1], steps[n - 1], layout, n - 1));
        assert(licensed(steps[n - 1], facts));
    }
}

/// Plans how a query reads a column. Every step of the plan that skips work which
/// a scan would do cites a fact that the column proves.
pub fn compile(column: &EncodedColumn, query: Query) -> (r: Result<PlanIr, Error>)
    requires
        column.wf(),
    ensures
        match r {
            Ok(plan) => {
                let draft = plan_draft(*column, query);
                &&& draft.fault is None
                &&& plan.query == query
                &&& plan.output == planned_output(query)
                &&& plan.fallback_reason is None
                &&& holds_steps(plan.nodes@, 0, draft.steps, column.page.plan())
                &&& plan_fault(plan) is None
                &&& licences_fault(
                    plan.nodes@,
                    column_facts(*column),
                    plan.nodes@.len() as int,
                ) is None
            },
            Err(e) => draft_fails(plan_draft(*column, query), column.page.plan(), e),
        },
{
    let ghost draft = plan_draft(*column, query);
    let ghost layout_view = column.page.plan();
    proof {
        column.page.lemma_wf();
    }
    let rows = match query_rows(column.truth.len(), &query) {
        Ok(rows) => rows,
        Err(e) => {
            return Err(e);
        },
    };
    let layout = column.page.layout();
    let mut nodes: Vec<PlanNode> = Vec::new();
    let metadata: FieldId = layout.metadata;
    let (metadata_fields, _) = match whole_access(layout, metadata) {
        Ok(found) => found,
        Err(e) => {
            assert(false);
            return Err(e);
        },
    };
    let ghost first = one_step(metadata_step(layout_view, rows));
    let ghost middle = middle_draft(
        layout_view,
        column.decoder.arena(),
        column.decoder.top(),
        column_facts(*column),
        query,
        rows,
    );
    let ghost last = one_step(
        final_step(column.decoder.arena(), column.decoder.top(), query, rows),
    );
    let ghost n0 = nodes@;
    match push_exact(
        layout,
        &mut nodes,
        PlanOp::LoadMetadata { field: metadata },
        rows,
        metadata_fields,
        OutputGuarantee::PhysicalBytes,
        Authorization::Unconditional,
    ) {
        Ok(()) => {},
        Err(e) => {
            proof {
                lemma_fails(first, joined(middle, last), layout_view, e);
            }
            return Err(e);
        },
    }
    let ghost n1 = nodes@;
    let invariants = match derive_invariants(&column.decoder, layout, column.page.invariants()) {
        Ok(invariants) => invariants,
        Err(e) => {
            return Err(e);
        },
    };
    match compile_middle(column, &query, rows, &invariants, &mut nodes) {
        Ok(()) => {},
        Err(e) => {
            proof {
                lemma_fails(middle, last, layout_view, e);
                lemma_then(
                    Err(e),
                    first,
                    joined(middle, last),
                    layout_view,
                    n0,
                    n1,
                    nodes@,
                );
            }
            return Err(e);
        },
    }
    let ghost n2 = nodes@;
    let runs = match column.decoder.node(column.decoder.root()) {
        Ok(DecoderNode::Rle { run_lengths, index_interval, .. }) => Some(
            (*run_lengths, *index_interval),
        ),
        _ => None,
    };
    let output = match query {
        Query::Get { .. } => OutputGuarantee::ExactScalar,
        Query::Sum { .. } => OutputGuarantee::ExactScalar,
        Query::Count { .. } => OutputGuarantee::ExactScalar,
        Query::Between { .. } => OutputGuarantee::ExactBitmap,
        Query::Filter { .. } => OutputGuarantee::ExactBitmap,
    };
    let (op, licence) = match (query, runs) {
        (Query::Count { .. }, Some((run_lengths, max_runs))) => (
            PlanOp::CountRuns { run_lengths },
            Authorization::Fact {
                node: column.decoder.root(),
                scope: FactScope::Physical,
                property: Property::Access(AccessInvariant::RunIndex { max_runs }),
            },
        ),
        (Query::Count { .. }, None) => (PlanOp::CountExact, Authorization::Unconditional),
        (Query::Get { .. }, _) => (PlanOp::MaterializeRows, Authorization::Unconditional),
        (Query::Sum { .. }, _) => (PlanOp::AggregateEncoded, Authorization::Unconditional),
        (Query::Between { .. }, _) => (PlanOp::RefineCandidates, Authorization::Unconditional),
        (Query::Filter { .. }, _) => (PlanOp::RefineCandidates, Authorization::Unconditional),
    };
    let closing = push_exact(
        layout,
        &mut nodes,
        op,
        rows,
        AccessSet::default(),
        output,
        licence,
    );
    proof {
        lemma_then(closing, middle, last, layout_view, n1, n2, nodes@);
        lemma_then(closing, first, joined(middle, last), layout_view, n0, n1, nodes@);
    }
    match closing {
        Ok(()) => {},
        Err(e) => {
            return Err(e);
        },
    }
    let plan = PlanIr { query, nodes, output, fallback_reason: None };
    proof {
        let steps = draft.steps;
        let facts = column_facts(*column);
        assert forall|i: int| 0 <= i < steps.len() implies #[trigger] licensed(
            steps[i],
            facts,
        ) by {
            law_plans_are_licensed(*column, query, i);
        }
        lemma_plan_sound(plan.nodes@, steps, layout_view, facts, steps.len() as int);
    }
    match plan.validate() {
        Ok(()) => {},
        Err(e) => {
            return Err(e);
        },
    }
    match plan.check_authorization(&invariants) {
        Ok(()) => Ok(plan),
        Err(e) => Err(e),
    }
}

} // verus!
