//! Decoding gives back what was encoded.
#[allow(unused_imports)]
use super::builder::{empty_plan, plan_wf, planned_header};
#[allow(unused_imports)]
use super::bytes::{i64s_bytes, u32s_bytes};
#[allow(unused_imports)]
use super::coding::{
    all_positions, all_runs, coded, coded_bits, coded_dense, compact, compact_marks, delta_codes,
    delta_fault, delta_fields, delta_node, delta_row_fault, dense_values, dictionary_fields,
    dictionary_ids, dictionary_of, difference_code, exception_values, fits_i64, fits_u64,
    for_fields, least, narrowed, nullable_fields, offsets, packed_width, patch_fields,
    position_index, position_values, rank_values, regular_values, restart_values, rle_fields,
    run_index, run_lengths, run_values, stream_bytes, unpatched, validity_bytes, Build, Recipe,
};
#[allow(unused_imports)]
use super::decoder::{arena_error, child_of, lemma_arena, node_len, DecoderNode, DeltaCoding};
#[allow(unused_imports)]
use super::encode::{
    encoding, lemma_compact_len, lemma_place, lemma_runs_total, marked, widened, EncodedColumn,
};
#[allow(unused_imports)]
use super::error::Error;
#[allow(unused_imports)]
use super::growth::{
    coded_well, codable, extends, law_columns_have_sound_decoders, law_recipes_make_sound_decoders,
    lemma_coded_bits, lemma_delta_fields, lemma_dictionary_fields, lemma_dictionary_holds,
    lemma_extends, lemma_for_fields, lemma_framed, lemma_len_same, lemma_nodes_grow,
    lemma_nullable_fields, lemma_packed_width, lemma_patch_fields, lemma_placed, lemma_rle_fields,
    numbered, placed,
};
#[allow(unused_imports)]
use super::ids::{FieldId, NodeId};
#[allow(unused_imports)]
use super::interpreter::{delta_outcome, delta_step, get_outcome};
#[allow(unused_imports)]
use super::layout::{lemma_floor, lemma_quotient, lemma_scale};
#[allow(unused_imports)]
use super::restore::{
    lemma_compact_at, lemma_exceptions_in_order, lemma_find, lemma_locate, lemma_rank,
    lemma_ranks_in_order, lemma_read_i64, lemma_runs_in_order, lemma_unpacked, stores,
};
#[allow(unused_imports)]
use super::runtime::{i64_outcome, lemma_ceil_floor, page_context, read_bytes, ClosureMode, Context};
#[allow(unused_imports)]
use super::stored::{holds_fields, law_page_holds_fields};
#[allow(unused_imports)]
use super::support::{find_outcome, law_zigzag, locate_outcome};
#[allow(unused_imports)]
use super::walks::{entries_in_order, node_orderly};
use vstd::prelude::*;

verus! {

/// All values are signed 64-bit numbers.
pub open spec fn all_fit(values: Seq<int>) -> bool {
    forall|i: int| 0 <= i < values.len() ==> fits_i64(#[trigger] values[i])
}

/// Every value that a primitive of the recipe is given is a signed 64-bit number,
/// and rows that are kept as exceptions can be numbered in 32 bits.
pub open spec fn narrow(recipe: Recipe, values: Seq<int>, patched: Seq<bool>) -> bool
    decreases recipe,
{
    all_fit(values) && match recipe {
        Recipe::BitPack => true,
        Recipe::Rle { values: child, .. } => narrow(
            *child,
            run_values(values),
            unpatched(all_runs(values).len()),
        ),
        Recipe::Dictionary(child) => narrow(*child, dictionary_ids(values), patched),
        Recipe::Delta { restart_interval, deltas } => narrow(
            *deltas,
            delta_codes(values, restart_interval as int, DeltaCoding::ZigZag),
            patched,
        ),
        Recipe::UnsignedDelta { restart_interval, deltas } => narrow(
            *deltas,
            delta_codes(values, restart_interval as int, DeltaCoding::Unsigned),
            patched,
        ),
        Recipe::For(child) => narrow(*child, offsets(values), patched),
        Recipe::Patch { values: child, .. } => values.len() <= u32::MAX && narrow(
            *child,
            regular_values(values, patched),
            unpatched(values.len()),
        ),
        Recipe::Nullable { .. } => true,
        Recipe::Frame(child) => narrow(*child, values, patched),
    }
}

/// The same of a column that may have nulls.
pub open spec fn narrow_column(recipe: Recipe, values: Seq<Option<int>>, patched: Seq<bool>) -> bool
    decreases recipe,
{
    match recipe {
        Recipe::Frame(child) => narrow_column(*child, values, patched),
        Recipe::Nullable { values: child, .. } => narrow(
            *child,
            compact(values, values.len() as int),
            compact_marks(values, patched, values.len() as int),
        ),
        _ => match dense_values(values) {
            Ok(dense) => narrow(recipe, dense, patched),
            Err(_) => true,
        },
    }
}

/// A page and a decoder that a build became are read through the context.
pub open spec fn opened(context: Context, next: Build, end: Build) -> bool {
    &&& extends(next, end)
    &&& end.nodes.len() <= usize::MAX
    &&& arena_error(end.nodes, end.nodes.len() as int) is None
    &&& holds_fields(context, end.plan.fields)
    &&& plan_wf(end.plan)
}

/// Every row of a node decodes to its value.
pub open spec fn restores(context: Context, nodes: Seq<DecoderNode>, id: NodeId, values: Seq<int>) -> bool {
    forall|row: int|
        0 <= row < values.len() ==> (#[trigger] get_outcome(
            context,
            nodes,
            id.0 as int,
            row,
        )).result == Ok::<Option<i64>, Error>(Some(values[row] as i64))
}

pub proof fn lemma_stores(context: Context, build: Build, end: Build, field: FieldId, bytes: Seq<u8>)
    requires
        placed(build, field, bytes),
        opened(context, build, end),
    ensures
        stores(context, field, bytes),
{
    lemma_placed(build, end, field, bytes);
    let f = field.0 as int;
    assert(end.plan.fields[f].bytes.len() <= usize::MAX);
    assert forall|s: int, e: int| 0 <= s <= e <= bytes.len() implies #[trigger] read_bytes(
        context,
        field,
        s,
        e,
    ) == Ok::<Seq<u8>, Error>(bytes.subrange(s, e)) by {
        assert(FieldId(f as usize) == field);
        assert(read_bytes(context, FieldId(f as usize), s, e) == Ok::<Seq<u8>, Error>(
            end.plan.fields[f].bytes.subrange(s, e),
        ));
    }
}

/// An opened build is opened from before as well.
pub proof fn lemma_opened(context: Context, first: Build, next: Build, end: Build)
    requires
        extends(first, next),
        opened(context, next, end),
    ensures
        opened(context, first, end),
{
    lemma_extends(first, next, end);
}

/// What the decoder sees at a node of a coded build.
pub proof fn lemma_seen(context: Context, build: Build, next: Build, end: Build, id: NodeId, rows: nat)
    requires
        coded_well(build, next, id, rows),
        opened(context, next, end),
    ensures
        end.nodes[id.0 as int] == next.nodes[id.0 as int],
        node_len(end.nodes, end.nodes[id.0 as int]) == Ok::<usize, Error>(rows as usize),
        id.0 < end.nodes.len(),
        child_of(end.nodes[id.0 as int]) matches Some(child) ==> child.0 < id.0,
{
    lemma_len_same(next.nodes, end.nodes, id.0 as int);
    lemma_arena(end.nodes, end.nodes.len() as int);
}

// ----- each primitive -----

proof fn lemma_bits_restored(context: Context, values: Seq<int>, build: Build, end: Build)
    requires
        numbered(build),
        arena_error(build.nodes, build.nodes.len() as int) is None,
        values.len() <= usize::MAX,
        all_fit(values),
        coded_bits(values, build) is Ok,
        opened(context, coded_bits(values, build)->Ok_0.0, end),
    ensures
        restores(context, end.nodes, coded_bits(values, build)->Ok_0.1, values),
        node_orderly(
            context,
            end.nodes,
            coded_bits(values, build)->Ok_0.1.0 as int,
            values.len() as int,
        ),
{
    let (next, id) = coded_bits(values, build)->Ok_0;
    lemma_coded_bits(values, build);
    lemma_packed_width(values);
    let width = packed_width(values);
    lemma_seen(context, build, next, end, id, values.len());
    let node = next.nodes[id.0 as int];
    let stream = node->stream;
    lemma_stores(context, next, end, stream, stream_bytes(values, width));
    assert forall|row: int| 0 <= row < values.len() implies (#[trigger] get_outcome(
        context,
        end.nodes,
        id.0 as int,
        row,
    )).result == Ok::<Option<i64>, Error>(Some(values[row] as i64)) by {
        assert(fits_u64(values[row]) && fits_i64(values[row]));
        lemma_unpacked(context, stream, values, width as int, row);
    }
}

proof fn lemma_for_restored(
    context: Context,
    values: Seq<int>,
    base: FieldId,
    child: NodeId,
    id: NodeId,
    nodes: Seq<DecoderNode>,
)
    requires
        id.0 < nodes.len(),
        nodes[id.0 as int] == (DecoderNode::For { base, values: child }),
        child.0 < id.0,
        node_len(nodes, nodes[id.0 as int]) == Ok::<usize, Error>(values.len() as usize),
        values.len() <= usize::MAX,
        all_fit(values),
        all_fit(offsets(values)),
        fits_i64(least(values, values.len() as int)),
        stores(context, base, i64s_bytes(seq![least(values, values.len() as int) as i64])),
        restores(context, nodes, child, offsets(values)),
        node_orderly(context, nodes, child.0 as int, values.len() as int),
    ensures
        restores(context, nodes, id, values),
        node_orderly(context, nodes, id.0 as int, values.len() as int),
{
    let low = least(values, values.len() as int);
    assert forall|row: int| 0 <= row < values.len() implies (#[trigger] get_outcome(
        context,
        nodes,
        id.0 as int,
        row,
    )).result == Ok::<Option<i64>, Error>(Some(values[row] as i64)) by {
        lemma_read_i64(context, base, seq![low as i64], 0);
        let inner = get_outcome(context, nodes, child.0 as int, row);
        assert(inner.result == Ok::<Option<i64>, Error>(Some(offsets(values)[row] as i64)));
        assert(fits_i64(offsets(values)[row]) && fits_i64(values[row]));
    }
}

/// A fault-free row has a code.
pub proof fn lemma_delta_clean(values: Seq<int>, interval: int, coding: DeltaCoding, n: int, row: int)
    requires
        0 <= row < n,
        delta_fault(values, interval, coding, n) is None,
    ensures
        delta_row_fault(values, interval, coding, row) is None,
    decreases n,
{
    if row < n - 1 {
        lemma_delta_clean(values, interval, coding, n - 1, row);
    }
}

/// Adding up codes from a value gives the value of a later row.
proof fn lemma_deltas_add(
    context: Context,
    nodes: Seq<DecoderNode>,
    codes: NodeId,
    values: Seq<int>,
    interval: int,
    coding: DeltaCoding,
    from: int,
    row: int,
)
    requires
        interval > 0,
        all_fit(values),
        all_fit(delta_codes(values, interval, coding)),
        delta_fault(values, interval, coding, values.len() as int) is None,
        restores(context, nodes, codes, delta_codes(values, interval, coding)),
        0 <= row < values.len(),
        row / interval * interval < from <= row + 1,
    ensures
        delta_outcome(
            context,
            nodes,
            codes.0 as int,
            coding,
            from,
            row,
            values[from - 1],
        ).result == Ok::<int, Error>(values[row]),
    decreases row + 1 - from,
{
    if from <= row {
        let block = row / interval;
        let list = delta_codes(values, interval, coding);
        lemma_floor(row, interval);
        lemma_scale(0, block, interval);
        assert(from % interval != 0) by {
            lemma_quotient(from, block, interval);
            vstd::arithmetic::div_mod::lemma_fundamental_div_mod(from, interval);
            vstd::arithmetic::mul::lemma_mul_is_commutative(interval, block);
        }
        lemma_delta_clean(values, interval, coding, values.len() as int, from);
        let read = get_outcome(context, nodes, codes.0 as int, from);
        assert(read.result == Ok::<Option<i64>, Error>(Some(list[from] as i64)));
        assert(fits_i64(list[from]) && fits_i64(values[from]) && fits_i64(values[from - 1]));
        let difference = values[from] - values[from - 1];
        assert(difference_code(difference, coding) == Ok::<int, Error>(list[from]));
        if coding == DeltaCoding::ZigZag {
            law_zigzag(difference as i64, 0);
        }
        assert(delta_step(values[from - 1], Some(list[from] as i64), coding) == Ok::<int, Error>(
            values[from],
        ));
        lemma_deltas_add(context, nodes, codes, values, interval, coding, from + 1, row);
    }
}

proof fn lemma_delta_restored(
    context: Context,
    values: Seq<int>,
    interval: usize,
    coding: DeltaCoding,
    restarts: FieldId,
    child: NodeId,
    id: NodeId,
    nodes: Seq<DecoderNode>,
)
    requires
        id.0 < nodes.len(),
        nodes[id.0 as int] == (DecoderNode::Delta {
            deltas: child,
            restarts,
            restart_interval: interval,
            len: values.len() as usize,
            coding,
        }),
        child.0 < id.0,
        node_len(nodes, nodes[id.0 as int]) == Ok::<usize, Error>(values.len() as usize),
        values.len() <= usize::MAX,
        interval > 0,
        all_fit(values),
        all_fit(delta_codes(values, interval as int, coding)),
        delta_fault(values, interval as int, coding, values.len() as int) is None,
        stores(context, restarts, i64s_bytes(restart_values(values, interval as int))),
        restores(context, nodes, child, delta_codes(values, interval as int, coding)),
    ensures
        restores(context, nodes, id, values),
        node_orderly(context, nodes, id.0 as int, values.len() as int),
{
    let step = interval as int;
    let anchors = restart_values(values, step);
    assert forall|row: int| 0 <= row < values.len() implies (#[trigger] get_outcome(
        context,
        nodes,
        id.0 as int,
        row,
    )).result == Ok::<Option<i64>, Error>(Some(values[row] as i64)) by {
        let block = row / step;
        let first = block * step;
        lemma_floor(row, step);
        lemma_scale(0, block, step);
        lemma_ceil_floor(values.len() as int, step);
        vstd::arithmetic::div_mod::lemma_div_is_ordered(row, values.len() - 1, step);
        lemma_read_i64(context, restarts, anchors, block);
        assert(fits_i64(values[first]) && fits_i64(values[row]));
        assert(anchors[block] == values[first] as i64);
        lemma_deltas_add(context, nodes, child, values, step, coding, first + 1, row);
    }
}

proof fn lemma_rle_restored(
    context: Context,
    values: Seq<int>,
    interval: usize,
    lengths: FieldId,
    index: FieldId,
    child: NodeId,
    id: NodeId,
    nodes: Seq<DecoderNode>,
)
    requires
        id.0 < nodes.len(),
        nodes[id.0 as int] == (DecoderNode::Rle {
            values: child,
            run_lengths: lengths,
            run_index: index,
            len: values.len() as usize,
            runs: all_runs(values).len() as usize,
            index_interval: interval,
        }),
        child.0 < id.0,
        node_len(nodes, nodes[id.0 as int]) == Ok::<usize, Error>(values.len() as usize),
        values.len() <= usize::MAX,
        values.len() <= u32::MAX,
        interval > 0,
        stores(context, lengths, u32s_bytes(run_lengths(values))),
        stores(context, index, u32s_bytes(run_index(values, interval as int))),
        restores(context, nodes, child, run_values(values)),
    ensures
        restores(context, nodes, id, values),
        node_orderly(context, nodes, id.0 as int, values.len() as int),
{
    lemma_runs_total(values, values.len() as int);
    lemma_runs_in_order(context, index, lengths, values, interval as int);
    let list = all_runs(values);
    assert forall|row: int| 0 <= row < values.len() implies (#[trigger] get_outcome(
        context,
        nodes,
        id.0 as int,
        row,
    )).result == Ok::<Option<i64>, Error>(Some(values[row] as i64)) by {
        lemma_locate(context, index, lengths, values, interval as int, row);
        let place = locate_outcome(
            context,
            index,
            lengths,
            list.len() as int,
            interval as int,
            row,
        ).result->Ok_0;
        let inner = get_outcome(context, nodes, child.0 as int, place.0);
        assert(inner.result == Ok::<Option<i64>, Error>(Some(run_values(values)[place.0] as i64)));
    }
}

/// The entries of the dictionary of values are in order.
pub proof fn lemma_entries_in_order(context: Context, values: Seq<int>, dictionary: FieldId)
    requires
        all_fit(values),
        stores(context, dictionary, i64s_bytes(narrowed(dictionary_of(values)))),
    ensures
        entries_in_order(context, dictionary, dictionary_of(values).len() as int),
{
    lemma_dictionary_holds(values);
    let d = dictionary_of(values);
    assert forall|k: int| 0 <= k < d.len() implies (#[trigger] i64_outcome(
        context,
        dictionary,
        k,
    )).result == Ok::<i64, Error>(d[k] as i64) && fits_i64(d[k]) by {
        lemma_read_i64(context, dictionary, narrowed(d), k);
        assert(d.contains(d[k]));
        assert(values.contains(d[k]));
        let row = choose|row: int| 0 <= row < values.len() && values[row] == d[k];
        assert(fits_i64(values[row]));
    }
    assert forall|j: int, k: int| 0 <= j < k < d.len() implies (#[trigger] i64_outcome(
        context,
        dictionary,
        j,
    )).result->Ok_0 < (#[trigger] i64_outcome(context, dictionary, k)).result->Ok_0 by {
        assert(d[j] < d[k]);
    }
}

proof fn lemma_dictionary_restored(
    context: Context,
    values: Seq<int>,
    dictionary: FieldId,
    child: NodeId,
    id: NodeId,
    nodes: Seq<DecoderNode>,
)
    requires
        id.0 < nodes.len(),
        nodes[id.0 as int] == (DecoderNode::Dictionary {
            ids: child,
            dictionary,
            entries: dictionary_of(values).len() as usize,
            sorted_unique: true,
        }),
        child.0 < id.0,
        node_len(nodes, nodes[id.0 as int]) == Ok::<usize, Error>(values.len() as usize),
        values.len() <= usize::MAX,
        all_fit(values),
        all_fit(dictionary_ids(values)),
        stores(context, dictionary, i64s_bytes(narrowed(dictionary_of(values)))),
        restores(context, nodes, child, dictionary_ids(values)),
        node_orderly(context, nodes, child.0 as int, values.len() as int),
    ensures
        restores(context, nodes, id, values),
        node_orderly(context, nodes, id.0 as int, values.len() as int),
{
    lemma_dictionary_holds(values);
    let d = dictionary_of(values);
    lemma_entries_in_order(context, values, dictionary);
    assert forall|row: int| 0 <= row < values.len() implies (#[trigger] get_outcome(
        context,
        nodes,
        id.0 as int,
        row,
    )).result == Ok::<Option<i64>, Error>(Some(values[row] as i64)) by {
        let value = values[row];
        assert(values.contains(value));
        assert(d.contains(value));
        let k = choose|k: int| 0 <= k < d.len() && d[k] == value;
        lemma_place(d, k);
        assert(dictionary_ids(values)[row] == k);
        assert(fits_i64(dictionary_ids(values)[row]));
        let inner = get_outcome(context, nodes, child.0 as int, row);
        assert(inner.result == Ok::<Option<i64>, Error>(Some(k as i64)));
        assert((k as i64) as usize == k);
        lemma_read_i64(context, dictionary, narrowed(d), k);
    }
}

proof fn lemma_patch_restored(
    context: Context,
    values: Seq<int>,
    patched: Seq<bool>,
    interval: usize,
    positions: FieldId,
    index: FieldId,
    exceptions: FieldId,
    child: NodeId,
    id: NodeId,
    nodes: Seq<DecoderNode>,
)
    requires
        id.0 < nodes.len(),
        nodes[id.0 as int] == (DecoderNode::Patch {
            values: child,
            positions,
            position_index: index,
            exceptions,
            count: all_positions(patched).len() as usize,
            index_interval: interval,
        }),
        child.0 < id.0,
        node_len(nodes, nodes[id.0 as int]) == Ok::<usize, Error>(values.len() as usize),
        values.len() <= usize::MAX,
        values.len() <= u32::MAX,
        patched.len() == values.len(),
        interval > 0,
        stores(context, positions, u32s_bytes(position_values(patched))),
        stores(context, index, u32s_bytes(position_index(patched, interval as int))),
        stores(context, exceptions, i64s_bytes(exception_values(values, patched))),
        restores(context, nodes, child, regular_values(values, patched)),
        node_orderly(context, nodes, child.0 as int, values.len() as int),
    ensures
        restores(context, nodes, id, values),
        node_orderly(context, nodes, id.0 as int, values.len() as int),
{
    let places = all_positions(patched);
    super::encode::lemma_positions(patched, patched.len() as int);
    lemma_exceptions_in_order(
        context,
        index,
        positions,
        exceptions,
        values,
        patched,
        interval as int,
    );
    assert forall|row: int| 0 <= row < values.len() implies (#[trigger] get_outcome(
        context,
        nodes,
        id.0 as int,
        row,
    )).result == Ok::<Option<i64>, Error>(Some(values[row] as i64)) by {
        lemma_find(context, index, positions, patched, interval as int, row);
        let found = find_outcome(
            context,
            index,
            positions,
            places.len() as int,
            interval as int,
            row,
        ).result->Ok_0;
        match found {
            Some(k) => {
                lemma_read_i64(context, exceptions, exception_values(values, patched), k);
            },
            None => {
                let inner = get_outcome(context, nodes, child.0 as int, row);
                assert(inner.result == Ok::<Option<i64>, Error>(
                    Some(regular_values(values, patched)[row] as i64),
                ));
            },
        }
    }
}

// ----- recipes -----

/// What a recipe makes of values decodes to the values.
proof fn lemma_dense_restored(
    context: Context,
    recipe: Recipe,
    values: Seq<int>,
    patched: Seq<bool>,
    build: Build,
    end: Build,
)
    requires
        codable(values, patched, build),
        narrow(recipe, values, patched),
        coded_dense(recipe, values, patched, build) is Ok,
        opened(context, coded_dense(recipe, values, patched, build)->Ok_0.0, end),
    ensures
        restores(
            context,
            end.nodes,
            coded_dense(recipe, values, patched, build)->Ok_0.1,
            values,
        ),
        node_orderly(
            context,
            end.nodes,
            coded_dense(recipe, values, patched, build)->Ok_0.1.0 as int,
            values.len() as int,
        ),
    decreases recipe, 0int,
{
    let (last, top) = coded_dense(recipe, values, patched, build)->Ok_0;
    law_recipes_make_sound_decoders(recipe, values, patched, build);
    lemma_seen(context, build, last, end, top, values.len());
    match recipe {
        Recipe::BitPack => {
            lemma_bits_restored(context, values, build, end);
        },
        Recipe::Rle { index_interval, values: child } => {
            lemma_rle_fields(values, index_interval, build);
            lemma_runs_total(values, values.len() as int);
            let (mid, lengths, index) = rle_fields(values, index_interval, build)->Ok_0;
            let list = run_values(values);
            let marks = unpatched(all_runs(values).len());
            let (next, id) = coded_dense(*child, list, marks, mid)->Ok_0;
            law_recipes_make_sound_decoders(*child, list, marks, mid);
            lemma_opened(context, next, last, end);
            lemma_opened(context, mid, next, end);
            lemma_dense_restored(context, *child, list, marks, mid, end);
            lemma_stores(context, mid, end, lengths, u32s_bytes(run_lengths(values)));
            lemma_stores(
                context,
                mid,
                end,
                index,
                u32s_bytes(run_index(values, index_interval as int)),
            );
            lemma_rle_restored(
                context,
                values,
                index_interval,
                lengths,
                index,
                id,
                top,
                end.nodes,
            );
        },
        Recipe::Dictionary(child) => {
            lemma_dictionary_fields(values, build);
            let (mid, dictionary) = dictionary_fields(values, build)->Ok_0;
            let list = dictionary_ids(values);
            let (next, id) = coded_dense(*child, list, patched, mid)->Ok_0;
            law_recipes_make_sound_decoders(*child, list, patched, mid);
            lemma_opened(context, next, last, end);
            lemma_opened(context, mid, next, end);
            lemma_dense_restored(context, *child, list, patched, mid, end);
            lemma_stores(
                context,
                mid,
                end,
                dictionary,
                i64s_bytes(narrowed(dictionary_of(values))),
            );
            lemma_narrow_fits(*child, list, patched);
            lemma_dictionary_restored(context, values, dictionary, id, top, end.nodes);
        },
        Recipe::Delta { restart_interval, deltas } => {
            lemma_delta_case(
                context,
                *deltas,
                values,
                patched,
                build,
                end,
                restart_interval,
                DeltaCoding::ZigZag,
                last,
                top,
            );
        },
        Recipe::UnsignedDelta { restart_interval, deltas } => {
            lemma_delta_case(
                context,
                *deltas,
                values,
                patched,
                build,
                end,
                restart_interval,
                DeltaCoding::Unsigned,
                last,
                top,
            );
        },
        Recipe::For(child) => {
            lemma_for_fields(values, build);
            let (mid, base) = for_fields(values, build)->Ok_0;
            let list = offsets(values);
            let (next, id) = coded_dense(*child, list, patched, mid)->Ok_0;
            law_recipes_make_sound_decoders(*child, list, patched, mid);
            lemma_opened(context, next, last, end);
            lemma_opened(context, mid, next, end);
            lemma_dense_restored(context, *child, list, patched, mid, end);
            lemma_stores(
                context,
                mid,
                end,
                base,
                i64s_bytes(seq![least(values, values.len() as int) as i64]),
            );
            lemma_narrow_fits(*child, list, patched);
            lemma_for_restored(context, values, base, id, top, end.nodes);
        },
        Recipe::Patch { index_interval, values: child } => {
            lemma_patch_fields(values, patched, index_interval, build);
            let (mid, positions, index, exceptions) = patch_fields(
                values,
                patched,
                index_interval,
                build,
            )->Ok_0;
            let list = regular_values(values, patched);
            let marks = unpatched(values.len());
            let (next, id) = coded_dense(*child, list, marks, mid)->Ok_0;
            law_recipes_make_sound_decoders(*child, list, marks, mid);
            lemma_opened(context, next, last, end);
            lemma_opened(context, mid, next, end);
            lemma_dense_restored(context, *child, list, marks, mid, end);
            lemma_stores(context, mid, end, positions, u32s_bytes(position_values(patched)));
            lemma_stores(
                context,
                mid,
                end,
                index,
                u32s_bytes(position_index(patched, index_interval as int)),
            );
            lemma_stores(
                context,
                mid,
                end,
                exceptions,
                i64s_bytes(exception_values(values, patched)),
            );
            lemma_patch_restored(
                context,
                values,
                patched,
                index_interval,
                positions,
                index,
                exceptions,
                id,
                top,
                end.nodes,
            );
        },
        Recipe::Nullable { .. } => {},
        Recipe::Frame(child) => {
            let (mid, id) = coded_dense(*child, values, patched, build)->Ok_0;
            lemma_framed(mid, build.plan.fields.len() as int);
            lemma_opened(context, mid, last, end);
            lemma_dense_restored(context, *child, values, patched, build, end);
        },
    }
}

proof fn lemma_narrow_fits(recipe: Recipe, values: Seq<int>, patched: Seq<bool>)
    requires
        narrow(recipe, values, patched),
    ensures
        all_fit(values),
{
}

proof fn lemma_delta_case(
    context: Context,
    child: Recipe,
    values: Seq<int>,
    patched: Seq<bool>,
    build: Build,
    end: Build,
    interval: usize,
    coding: DeltaCoding,
    last: Build,
    top: NodeId,
)
    requires
        codable(values, patched, build),
        all_fit(values),
        narrow(child, delta_codes(values, interval as int, coding), patched),
        delta_fields(values, interval, coding, build) matches Ok((mid, restarts)) && coded_dense(
            child,
            delta_codes(values, interval as int, coding),
            patched,
            mid,
        ) matches Ok((next, id)) && delta_node(
            values.len() as usize,
            interval,
            coding,
            restarts,
            id,
            next,
        ) == Ok::<(Build, NodeId), Error>((last, top)),
        opened(context, last, end),
        coded_well(build, last, top, values.len()),
        end.nodes[top.0 as int] == last.nodes[top.0 as int],
        node_len(end.nodes, end.nodes[top.0 as int]) == Ok::<usize, Error>(values.len() as usize),
        top.0 < end.nodes.len(),
        child_of(end.nodes[top.0 as int]) matches Some(below) ==> below.0 < top.0,
    ensures
        restores(context, end.nodes, top, values),
        node_orderly(context, end.nodes, top.0 as int, values.len() as int),
    decreases child, 1int,
{
    lemma_delta_fields(values, interval, coding, build);
    let (mid, restarts) = delta_fields(values, interval, coding, build)->Ok_0;
    let list = delta_codes(values, interval as int, coding);
    let (next, id) = coded_dense(child, list, patched, mid)->Ok_0;
    lemma_nodes_grow(child, list, patched, mid);
    law_recipes_make_sound_decoders(child, list, patched, mid);
    assert(extends(next, last));
    lemma_opened(context, next, last, end);
    lemma_opened(context, mid, next, end);
    lemma_dense_restored(context, child, list, patched, mid, end);
    lemma_stores(
        context,
        mid,
        end,
        restarts,
        i64s_bytes(restart_values(values, interval as int)),
    );
    lemma_narrow_fits(child, list, patched);
    lemma_delta_restored(context, values, interval, coding, restarts, id, top, end.nodes);
}

/// Every row of a node decodes to its value or null.
pub open spec fn restores_column(
    context: Context,
    nodes: Seq<DecoderNode>,
    id: NodeId,
    values: Seq<Option<int>>,
) -> bool {
    forall|row: int|
        0 <= row < values.len() ==> (#[trigger] get_outcome(
            context,
            nodes,
            id.0 as int,
            row,
        )).result == Ok::<Option<i64>, Error>(
            match values[row] {
                Some(value) => Some(value as i64),
                None => None,
            },
        )
}

proof fn lemma_nullable_restored(
    context: Context,
    values: Seq<Option<int>>,
    interval: usize,
    validity: FieldId,
    ranks: FieldId,
    child: NodeId,
    id: NodeId,
    nodes: Seq<DecoderNode>,
)
    requires
        id.0 < nodes.len(),
        nodes[id.0 as int] matches DecoderNode::Nullable {
            validity: v,
            rank_index: r,
            values: c,
            rank_interval: i,
            ..
        } && v == validity && r == ranks && c == child && i == interval,
        child.0 < id.0,
        node_len(nodes, nodes[id.0 as int]) == Ok::<usize, Error>(values.len() as usize),
        values.len() <= usize::MAX,
        interval > 0,
        interval % 8 == 0,
        compact(values, values.len() as int).len() <= u32::MAX,
        stores(context, validity, validity_bytes(values)),
        stores(context, ranks, u32s_bytes(rank_values(values, interval as int))),
        restores(context, nodes, child, compact(values, values.len() as int)),
        node_orderly(
            context,
            nodes,
            child.0 as int,
            compact(values, values.len() as int).len() as int,
        ),
    ensures
        restores_column(context, nodes, id, values),
        2 * values.len() <= usize::MAX ==> node_orderly(
            context,
            nodes,
            id.0 as int,
            values.len() as int,
        ),
{
    let list = compact(values, values.len() as int);
    lemma_ranks_in_order(context, validity, ranks, values, interval as int);
    assert forall|row: int| 0 <= row < values.len() implies (#[trigger] get_outcome(
        context,
        nodes,
        id.0 as int,
        row,
    )).result == Ok::<Option<i64>, Error>(
        match values[row] {
            Some(value) => Some(value as i64),
            None => None,
        },
    ) by {
        lemma_rank(context, validity, ranks, values, interval as int, row);
        if values[row] is Some {
            let rank = compact(values, row).len() as int;
            lemma_compact_at(values, row, values.len() as int);
            let inner = get_outcome(context, nodes, child.0 as int, rank);
            assert(inner.result == Ok::<Option<i64>, Error>(Some(list[rank] as i64)));
        }
    }
}

proof fn lemma_column_restored(
    context: Context,
    recipe: Recipe,
    values: Seq<Option<int>>,
    patched: Seq<bool>,
    build: Build,
    end: Build,
)
    requires
        numbered(build),
        arena_error(build.nodes, build.nodes.len() as int) is None,
        0 < values.len() <= usize::MAX,
        patched.len() == values.len(),
        narrow_column(recipe, values, patched),
        coded(recipe, values, patched, build) is Ok,
        opened(context, coded(recipe, values, patched, build)->Ok_0.0, end),
    ensures
        restores_column(
            context,
            end.nodes,
            coded(recipe, values, patched, build)->Ok_0.1,
            values,
        ),
        2 * values.len() <= usize::MAX ==> node_orderly(
            context,
            end.nodes,
            coded(recipe, values, patched, build)->Ok_0.1.0 as int,
            values.len() as int,
        ),
    decreases recipe,
{
    let (last, top) = coded(recipe, values, patched, build)->Ok_0;
    law_columns_have_sound_decoders(recipe, values, patched, build);
    lemma_seen(context, build, last, end, top, values.len());
    match recipe {
        Recipe::Frame(child) => {
            let (mid, id) = coded(*child, values, patched, build)->Ok_0;
            lemma_framed(mid, build.plan.fields.len() as int);
            lemma_opened(context, mid, last, end);
            lemma_column_restored(context, *child, values, patched, build, end);
        },
        Recipe::Nullable { rank_interval, values: child } => {
            lemma_nullable_fields(values, rank_interval, build);
            let n = values.len() as int;
            let (mid, validity, ranks) = nullable_fields(values, rank_interval, build)->Ok_0;
            let list = compact(values, n);
            let marks = compact_marks(values, patched, n);
            lemma_compact_len(values, patched, n);
            let (next, id) = coded_dense(*child, list, marks, mid)->Ok_0;
            lemma_nodes_grow(*child, list, marks, mid);
            law_recipes_make_sound_decoders(*child, list, marks, mid);
            lemma_opened(context, next, last, end);
            lemma_opened(context, mid, next, end);
            lemma_dense_restored(context, *child, list, marks, mid, end);
            lemma_stores(context, mid, end, validity, validity_bytes(values));
            lemma_stores(
                context,
                mid,
                end,
                ranks,
                u32s_bytes(rank_values(values, rank_interval as int)),
            );
            lemma_nullable_restored(
                context,
                values,
                rank_interval,
                validity,
                ranks,
                id,
                top,
                end.nodes,
            );
        },
        _ => {
            let dense = dense_values(values)->Ok_0;
            lemma_dense_restored(context, recipe, dense, patched, build, end);
            assert forall|row: int| 0 <= row < values.len() implies (#[trigger] get_outcome(
                context,
                end.nodes,
                top.0 as int,
                row,
            )).result == Ok::<Option<i64>, Error>(
                match values[row] {
                    Some(value) => Some(value as i64),
                    None => None,
                },
            ) by {
                assert(!(values[row] is None));
                assert(dense[row] == values[row]->0);
            }
        },
    }
}

/// The recipe is run lengths, whether compressed or not.
pub open spec fn by_runs(recipe: Recipe) -> bool
    decreases recipe,
{
    match recipe {
        Recipe::Frame(child) => by_runs(*child),
        Recipe::Rle { .. } => true,
        _ => false,
    }
}

/// A node holds the runs of the values.
pub open spec fn holds_runs(
    context: Context,
    nodes: Seq<DecoderNode>,
    id: NodeId,
    values: Seq<int>,
) -> bool {
    nodes[id.0 as int] matches DecoderNode::Rle { values: child, run_lengths: lengths, runs, .. } && {
        &&& runs == all_runs(values).len()
        &&& values.len() <= u32::MAX
        &&& all_fit(values)
        &&& stores(context, lengths, u32s_bytes(run_lengths(values)))
        &&& restores(context, nodes, child, run_values(values))
    }
}

proof fn lemma_runs_held(
    context: Context,
    recipe: Recipe,
    values: Seq<Option<int>>,
    patched: Seq<bool>,
    build: Build,
    end: Build,
)
    requires
        by_runs(recipe),
        numbered(build),
        arena_error(build.nodes, build.nodes.len() as int) is None,
        0 < values.len() <= usize::MAX,
        patched.len() == values.len(),
        narrow_column(recipe, values, patched),
        coded(recipe, values, patched, build) is Ok,
        opened(context, coded(recipe, values, patched, build)->Ok_0.0, end),
    ensures
        dense_values(values) is Ok,
        holds_runs(
            context,
            end.nodes,
            coded(recipe, values, patched, build)->Ok_0.1,
            dense_values(values)->Ok_0,
        ),
    decreases recipe,
{
    let (last, top) = coded(recipe, values, patched, build)->Ok_0;
    law_columns_have_sound_decoders(recipe, values, patched, build);
    lemma_seen(context, build, last, end, top, values.len());
    match recipe {
        Recipe::Frame(child) => {
            let (mid, id) = coded(*child, values, patched, build)->Ok_0;
            lemma_framed(mid, build.plan.fields.len() as int);
            lemma_opened(context, mid, last, end);
            lemma_runs_held(context, *child, values, patched, build, end);
        },
        Recipe::Rle { index_interval, values: child } => {
            let dense = dense_values(values)->Ok_0;
            lemma_rle_fields(dense, index_interval, build);
            lemma_runs_total(dense, dense.len() as int);
            let (mid, lengths, index) = rle_fields(dense, index_interval, build)->Ok_0;
            let list = run_values(dense);
            let marks = unpatched(all_runs(dense).len());
            let (next, id) = coded_dense(*child, list, marks, mid)->Ok_0;
            law_recipes_make_sound_decoders(*child, list, marks, mid);
            lemma_opened(context, next, last, end);
            lemma_opened(context, mid, next, end);
            lemma_dense_restored(context, *child, list, marks, mid, end);
            lemma_stores(context, mid, end, lengths, u32s_bytes(run_lengths(dense)));
        },
        _ => {},
    }
}

// ----- columns -----

/// Every row of an encoded column decodes to the value that was encoded, in every
/// closure mode.
pub proof fn law_decodes_what_was_encoded(
    column: EncodedColumn,
    recipe: Recipe,
    values: Seq<Option<i64>>,
    patch_rows: Set<usize>,
    mode: ClosureMode,
    accounted: bool,
    row: int,
)
    requires
        column.encodes(recipe, values, patch_rows),
        narrow_column(recipe, widened(values), marked(values.len(), patch_rows)),
        0 <= row < values.len() <= usize::MAX,
    ensures
        get_outcome(
            page_context(&column.page, mode, accounted),
            column.decoder.arena(),
            column.decoder.top().0 as int,
            row,
        ).result == Ok::<Option<i64>, Error>(values[row]),
{
    let (build, root) = encoding(recipe, values, patch_rows)->Ok_0;
    let header = planned_header(build.plan)->Ok_0;
    let context = page_context(&column.page, mode, accounted);
    law_page_holds_fields(build.plan, header, context);
    let start = Build {
        plan: empty_plan(super::encode::statements_of(values)),
        nodes: Seq::empty(),
    };
    let wide = widened(values);
    lemma_column_restored(
        context,
        recipe,
        wide,
        marked(values.len(), patch_rows),
        start,
        build,
    );
    assert(wide[row] == (match values[row] {
        Some(value) => Some(value as int),
        None => None,
    }));
    let read = get_outcome(context, build.nodes, root.0 as int, row);
    assert(read.result == Ok::<Option<i64>, Error>(values[row]));
}

/// The top node of a column that is encoded by runs holds the runs of its values.
pub proof fn lemma_column_holds_runs(
    column: EncodedColumn,
    recipe: Recipe,
    values: Seq<Option<i64>>,
    patch_rows: Set<usize>,
    mode: ClosureMode,
    accounted: bool,
)
    requires
        column.encodes(recipe, values, patch_rows),
        narrow_column(recipe, widened(values), marked(values.len(), patch_rows)),
        by_runs(recipe),
        values.len() <= usize::MAX,
    ensures
        dense_values(widened(values)) is Ok,
        holds_runs(
            page_context(&column.page, mode, accounted),
            column.decoder.arena(),
            column.decoder.top(),
            dense_values(widened(values))->Ok_0,
        ),
{
    let (build, root) = encoding(recipe, values, patch_rows)->Ok_0;
    let header = planned_header(build.plan)->Ok_0;
    let context = page_context(&column.page, mode, accounted);
    law_page_holds_fields(build.plan, header, context);
    let start = Build {
        plan: empty_plan(super::encode::statements_of(values)),
        nodes: Seq::empty(),
    };
    let wide = widened(values);
    lemma_runs_held(context, recipe, wide, marked(values.len(), patch_rows), start, build);
}

/// The rows of an encoded column are in order for a walk over them.
pub proof fn lemma_column_orderly(
    column: EncodedColumn,
    recipe: Recipe,
    values: Seq<Option<i64>>,
    patch_rows: Set<usize>,
    mode: ClosureMode,
    accounted: bool,
)
    requires
        column.encodes(recipe, values, patch_rows),
        narrow_column(recipe, widened(values), marked(values.len(), patch_rows)),
        2 * values.len() <= usize::MAX,
    ensures
        node_orderly(
            page_context(&column.page, mode, accounted),
            column.decoder.arena(),
            column.decoder.top().0 as int,
            values.len() as int,
        ),
        0 < values.len(),
{
    let (build, root) = encoding(recipe, values, patch_rows)->Ok_0;
    let header = planned_header(build.plan)->Ok_0;
    let context = page_context(&column.page, mode, accounted);
    law_page_holds_fields(build.plan, header, context);
    let start = Build {
        plan: empty_plan(super::encode::statements_of(values)),
        nodes: Seq::empty(),
    };
    let wide = widened(values);
    lemma_column_restored(
        context,
        recipe,
        wide,
        marked(values.len(), patch_rows),
        start,
        build,
    );
}

} // verus!
