//! What a query reads, compared with what a decode of all rows reads.
#[allow(unused_imports)]
use super::access::{field_bytes, lemma_field_bytes_len};
#[allow(unused_imports)]
use super::decoder::DecoderNode;
#[allow(unused_imports)]
use super::encode::EncodedColumn;
#[allow(unused_imports)]
use super::execute::{asked_rows, rows_outcome, scan_answer, scanned, Execution};
#[allow(unused_imports)]
use super::ids::FieldId;
#[allow(unused_imports)]
use super::interpreter::get_outcome;
#[allow(unused_imports)]
use super::plan::Query;
#[allow(unused_imports)]
use super::runtime::{after_event, empty_ledger, page_context, replay, ClosureMode, Context, Event};
#[allow(unused_imports)]
use super::support::metadata_outcome;
use vstd::prelude::*;

verus! {

/// The bytes that one step asks for.
pub open spec fn event_bytes(context: Context, event: Event) -> Set<(FieldId, int)> {
    match event {
        Event::Values(_) => Set::empty(),
        Event::Read { field, start, end } => if field.0 >= context.layout.fields.len() || end
            > context.layout.fields[field.0 as int].length {
            Set::empty()
        } else {
            field_bytes(field, start, end)
        },
    }
}

/// The bytes that some steps ask for.
pub open spec fn asked_bytes(context: Context, trace: Seq<Event>) -> Set<(FieldId, int)>
    decreases trace.len(),
{
    if trace.len() == 0 {
        Set::empty()
    } else {
        asked_bytes(context, trace.drop_last()).union(event_bytes(context, trace.last()))
    }
}

pub proof fn lemma_asked_sum(context: Context, a: Seq<Event>, b: Seq<Event>)
    ensures
        asked_bytes(context, a + b) == asked_bytes(context, a).union(asked_bytes(context, b)),
    decreases b.len(),
{
    if b.len() == 0 {
        assert(a + b =~= a);
        assert(asked_bytes(context, a + b) =~= asked_bytes(context, a).union(
            asked_bytes(context, b),
        ));
    } else {
        lemma_asked_sum(context, a, b.drop_last());
        assert((a + b).drop_last() =~= a + b.drop_last());
        assert(asked_bytes(context, a + b) =~= asked_bytes(context, a).union(
            asked_bytes(context, b),
        ));
    }
}

pub proof fn lemma_asked_finite(context: Context, trace: Seq<Event>)
    ensures
        asked_bytes(context, trace).finite(),
    decreases trace.len(),
{
    if trace.len() > 0 {
        lemma_asked_finite(context, trace.drop_last());
        if let Event::Read { field, start, end } = trace.last() {
            if start <= end {
                lemma_field_bytes_len(field, start, end);
            } else {
                assert(field_bytes(field, start, end) =~= Set::empty());
            }
        }
    }
}

/// The account holds the bytes that were asked for.
pub proof fn lemma_logical(context: Context, trace: Seq<Event>)
    requires
        context.accounted,
    ensures
        replay(context, empty_ledger(), trace).logical == asked_bytes(context, trace),
    decreases trace.len(),
{
    reveal_with_fuel(replay, 1);
    if trace.len() > 0 {
        lemma_logical(context, trace.drop_last());
        let before = replay(context, empty_ledger(), trace.drop_last());
        assert(after_event(context, before, trace.last()).logical =~= before.logical.union(
            event_bytes(context, trace.last()),
        ));
    }
}

/// Where rows decode, fewer of them ask for no more.
pub proof fn lemma_fewer_rows(
    context: Context,
    nodes: Seq<DecoderNode>,
    id: int,
    from: int,
    to: int,
    len: int,
)
    requires
        0 <= from <= to <= len,
        rows_outcome(context, nodes, id, 0, len).result is Ok,
    ensures
        asked_bytes(context, rows_outcome(context, nodes, id, from, to).trace).subset_of(
            asked_bytes(context, rows_outcome(context, nodes, id, 0, len).trace),
        ),
        rows_outcome(context, nodes, id, from, to).result is Ok,
    decreases len - from, to - from,
{
    let all = rows_outcome(context, nodes, id, 0, len);
    if from < to {
        if to < len {
            let before = rows_outcome(context, nodes, id, 0, len - 1);
            let last = get_outcome(context, nodes, id, len - 1).trace;
            lemma_fewer_rows(context, nodes, id, from, to, len - 1);
            assert(last + Seq::<Event>::empty() =~= last);
            assert(all.trace == before.trace + last);
            lemma_asked_sum(context, before.trace, last);
        } else {
            let before = rows_outcome(context, nodes, id, 0, len - 1);
            let part = rows_outcome(context, nodes, id, from, to - 1);
            let last = get_outcome(context, nodes, id, len - 1).trace;
            lemma_fewer_rows(context, nodes, id, from, to - 1, len - 1);
            assert(last + Seq::<Event>::empty() =~= last);
            assert(all.trace == before.trace + last);
            assert(rows_outcome(context, nodes, id, from, to).trace == part.trace + last);
            lemma_asked_sum(context, before.trace, last);
            lemma_asked_sum(context, part.trace, last);
        }
    }
}

/// A decode of all rows gives the answer that a decode of some of them gives, and
/// counts no fewer bytes than that asks for.
pub proof fn law_full_decodes_read_no_less(
    column: EncodedColumn,
    query: Query,
    mode: ClosureMode,
    from: int,
    to: int,
    some: Execution,
    all: Execution,
)
    requires
        0 <= from <= to <= column.truth@.len(),
        scanned(Ok(some), column, query, mode, from, to),
        scanned(Ok(all), column, query, mode, 0, column.truth@.len() as int),
    ensures
        all.answer@ == some.answer@,
        all.metrics.logical_bytes >= some.metrics.logical_bytes,
        all.decoded_rows == column.truth@.len() >= some.decoded_rows,
{
    let len = column.truth@.len() as int;
    let context = page_context(&column.page, mode, true);
    let nodes = column.decoder.arena();
    let id = column.decoder.top().0 as int;
    let header = metadata_outcome(context).trace;
    let part = rows_outcome(context, nodes, id, from, to);
    let whole = rows_outcome(context, nodes, id, 0, len);
    let few = scan_answer(context, nodes, id, query, len, from, to).trace;
    let many = scan_answer(context, nodes, id, query, len, 0, len).trace;
    lemma_fewer_rows(context, nodes, id, from, to, len);
    assert(part.trace + Seq::<Event>::empty() =~= part.trace);
    assert(whole.trace + Seq::<Event>::empty() =~= whole.trace);
    assert(few == header + part.trace);
    assert(many == header + whole.trace);
    lemma_asked_sum(context, header, part.trace);
    lemma_asked_sum(context, header, whole.trace);
    lemma_logical(context, few);
    lemma_logical(context, many);
    lemma_asked_finite(context, many);
    vstd::set_lib::lemma_len_subset(asked_bytes(context, few), asked_bytes(context, many));
}

/// A fused decode gives the answer of an interpreted run of the same query, and counts
/// no fewer bytes than that asks for.
pub proof fn law_fused_decodes_read_no_less(
    column: EncodedColumn,
    query: Query,
    mode: ClosureMode,
    interpreted: Execution,
    fused: Execution,
)
    requires
        scanned(
            Ok(interpreted),
            column,
            query,
            mode,
            asked_rows(column.truth@.len() as int, query).0,
            asked_rows(column.truth@.len() as int, query).1,
        ),
        scanned(Ok(fused), column, query, mode, 0, column.truth@.len() as int),
    ensures
        fused.answer@ == interpreted.answer@,
        fused.metrics.logical_bytes >= interpreted.metrics.logical_bytes,
        fused.decoded_rows == column.truth@.len() >= interpreted.decoded_rows,
{
    let (from, to) = asked_rows(column.truth@.len() as int, query);
    law_full_decodes_read_no_less(column, query, mode, from, to, interpreted, fused);
}

} // verus!
