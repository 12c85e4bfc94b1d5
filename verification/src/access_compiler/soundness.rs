//! Whatever decodes is what was encoded, however large the numbers in between.
#[allow(unused_imports)]
use super::answers::lemma_rows_each;
#[allow(unused_imports)]
use super::builder::{empty_plan, planned_header};
#[allow(unused_imports)]
use super::bytes::{i64s_bytes, u32s_bytes};
#[allow(unused_imports)]
use super::coding::{
    all_positions, all_runs, coded, coded_bits, coded_dense, compact, compact_marks, delta_codes,
    delta_fault, delta_fields, delta_node, dense_values, dictionary_fields, dictionary_ids,
    dictionary_of, difference_code, exception_values, fits_i64, fits_u64, for_fields, least,
    narrowed, nullable_fields, offsets, packed_width, patch_fields, position_index, position_values,
    rank_values, regular_values, restart_values, rle_fields, run_index, run_lengths, run_values,
    stream_bytes, unpatched, validity_bytes, Build, Recipe,
};
#[allow(unused_imports)]
use super::decoder::{arena_error, child_of, node_len, DecoderNode, DeltaCoding};
#[allow(unused_imports)]
use super::encode::{
    encoding, lemma_compact_len, lemma_place, lemma_positions, lemma_runs_total, marked,
    statements_of, widened, EncodedColumn,
};
#[allow(unused_imports)]
use super::error::Error;
#[allow(unused_imports)]
use super::execute::{
    answer_of, asked_rows, decoded_value, lemma_same_answer, listed, query_error, rows_outcome,
    scan_answer, scanned, Execution,
};
#[allow(unused_imports)]
use super::growth::{
    coded_well, codable, extends, law_columns_have_sound_decoders, law_recipes_make_sound_decoders,
    lemma_coded_bits, lemma_delta_fields, lemma_dictionary_fields, lemma_dictionary_holds,
    lemma_for_fields, lemma_framed, lemma_nodes_grow, lemma_nullable_fields, lemma_packed_width,
    lemma_patch_fields, lemma_rle_fields, numbered,
};
#[allow(unused_imports)]
use super::ids::{FieldId, NodeId};
#[allow(unused_imports)]
use super::interpreter::{delta_outcome, delta_step, get_outcome};
#[allow(unused_imports)]
use super::layout::{lemma_floor, lemma_quotient, lemma_scale};
#[allow(unused_imports)]
use super::plan::Query;
#[allow(unused_imports)]
use super::restore::{
    lemma_compact_at, lemma_find, lemma_locate, lemma_rank, lemma_read_i64, lemma_unpacked, stores,
};
#[allow(unused_imports)]
use super::roundtrip::{all_fit, by_runs, lemma_delta_clean, lemma_opened, lemma_seen, lemma_stores, opened};
#[allow(unused_imports)]
use super::runtime::{lemma_ceil_floor, page_context, ClosureMode, Context};
#[allow(unused_imports)]
use super::stored::law_page_holds_fields;
#[allow(unused_imports)]
use super::support::{find_outcome, law_zigzag, locate_outcome};
use vstd::prelude::*;

verus! {

/// The recipe keeps exceptions by the number of their row, and nothing before that
/// bounds the rows.
pub open spec fn patches_rows(recipe: Recipe) -> bool
    decreases recipe,
{
    match recipe {
        Recipe::Patch { .. } => true,
        Recipe::Dictionary(ids) => patches_rows(*ids),
        Recipe::Delta { deltas, .. } => patches_rows(*deltas),
        Recipe::UnsignedDelta { deltas, .. } => patches_rows(*deltas),
        Recipe::For(values) => patches_rows(*values),
        Recipe::Frame(values) => patches_rows(*values),
        Recipe::BitPack | Recipe::Rle { .. } | Recipe::Nullable { .. } => false,
    }
}

/// Rows that are kept as exceptions can be numbered in 32 bits.
pub open spec fn rows_numbered(recipe: Recipe, rows: nat) -> bool {
    patches_rows(recipe) ==> rows <= u32::MAX
}

/// A row of a node that decodes has its value, which is a signed 64-bit number.
pub open spec fn agrees(
    context: Context,
    nodes: Seq<DecoderNode>,
    id: NodeId,
    values: Seq<int>,
) -> bool {
    forall|row: int|
        0 <= row < values.len() ==> tells(
            (#[trigger] get_outcome(context, nodes, id.0 as int, row)).result,
            values[row],
        )
}

/// A result is a fault or a value.
pub open spec fn tells(result: Result<Option<i64>, Error>, value: int) -> bool {
    result matches Ok(found) ==> found == Some(value as i64) && fits_i64(value)
}

// ----- each primitive -----

proof fn lemma_bits_agree(context: Context, values: Seq<int>, build: Build, end: Build)
    requires
        numbered(build),
        arena_error(build.nodes, build.nodes.len() as int) is None,
        values.len() <= usize::MAX,
        coded_bits(values, build) is Ok,
        opened(context, coded_bits(values, build)->Ok_0.0, end),
    ensures
        agrees(context, end.nodes, coded_bits(values, build)->Ok_0.1, values),
{
    let (next, id) = coded_bits(values, build)->Ok_0;
    lemma_coded_bits(values, build);
    lemma_packed_width(values);
    let width = packed_width(values);
    lemma_seen(context, build, next, end, id, values.len());
    let node = next.nodes[id.0 as int];
    let stream = node->stream;
    lemma_stores(context, next, end, stream, stream_bytes(values, width));
    assert forall|row: int| 0 <= row < values.len() implies tells(
        (#[trigger] get_outcome(context, end.nodes, id.0 as int, row)).result,
        values[row],
    ) by {
        assert(fits_u64(values[row]));
        lemma_unpacked(context, stream, values, width as int, row);
    }
}

proof fn lemma_for_agrees(
    context: Context,
    values: Seq<int>,
    base: FieldId,
    child: NodeId,
    id: NodeId,
    nodes: Seq<DecoderNode>,
)
    requires
        id.0 < nodes.len(),
        nodes[id.0 as int] == (DecoderNode::For { base, values: child }),
        child.0 < id.0,
        node_len(nodes, nodes[id.0 as int]) == Ok::<usize, Error>(values.len() as usize),
        values.len() <= usize::MAX,
        fits_i64(least(values, values.len() as int)),
        stores(context, base, i64s_bytes(seq![least(values, values.len() as int) as i64])),
        agrees(context, nodes, child, offsets(values)),
    ensures
        agrees(context, nodes, id, values),
{
    let low = least(values, values.len() as int);
    assert forall|row: int| 0 <= row < values.len() implies tells(
        (#[trigger] get_outcome(context, nodes, id.0 as int, row)).result,
        values[row],
    ) by {
        lemma_read_i64(context, base, seq![low as i64], 0);
        let inner = get_outcome(context, nodes, child.0 as int, row);
        assert(tells(inner.result, offsets(values)[row]));
    }
}

/// Where codes are added up from the value of a row, they give that of a later row.
proof fn lemma_deltas_agree(
    context: Context,
    nodes: Seq<DecoderNode>,
    codes: NodeId,
    values: Seq<int>,
    interval: int,
    coding: DeltaCoding,
    from: int,
    row: int,
)
    requires
        interval > 0,
        delta_fault(values, interval, coding, values.len() as int) is None,
        agrees(context, nodes, codes, delta_codes(values, interval, coding)),
        0 <= row < values.len(),
        row / interval * interval < from <= row + 1,
    ensures
        delta_outcome(
            context,
            nodes,
            codes.0 as int,
            coding,
            from,
            row,
            values[from - 1],
        ).result matches Ok(value) ==> value == values[row],
    decreases row + 1 - from,
{
    if from <= row {
        let block = row / interval;
        let list = delta_codes(values, interval, coding);
        lemma_floor(row, interval);
        lemma_scale(0, block, interval);
        assert(from % interval != 0) by {
            lemma_quotient(from, block, interval);
            vstd::arithmetic::div_mod::lemma_fundamental_div_mod(from, interval);
            vstd::arithmetic::mul::lemma_mul_is_commutative(interval, block);
        }
        lemma_delta_clean(values, interval, coding, values.len() as int, from);
        let read = get_outcome(context, nodes, codes.0 as int, from);
        assert(tells(read.result, list[from]));
        if read.result is Ok {
            let difference = values[from] - values[from - 1];
            assert(difference_code(difference, coding) == Ok::<int, Error>(list[from]));
            if coding == DeltaCoding::ZigZag {
                law_zigzag(difference as i64, 0);
            }
            let step = delta_step(values[from - 1], Some(list[from] as i64), coding);
            assert(step matches Ok(next) ==> next == values[from]);
            if step is Ok {
                lemma_deltas_agree(context, nodes, codes, values, interval, coding, from + 1, row);
            }
        }
    }
}

proof fn lemma_delta_agrees(
    context: Context,
    values: Seq<int>,
    interval: usize,
    coding: DeltaCoding,
    restarts: FieldId,
    child: NodeId,
    id: NodeId,
    nodes: Seq<DecoderNode>,
)
    requires
        id.0 < nodes.len(),
        nodes[id.0 as int] == (DecoderNode::Delta {
            deltas: child,
            restarts,
            restart_interval: interval,
            len: values.len() as usize,
            coding,
        }),
        child.0 < id.0,
        node_len(nodes, nodes[id.0 as int]) == Ok::<usize, Error>(values.len() as usize),
        values.len() <= usize::MAX,
        interval > 0,
        delta_fault(values, interval as int, coding, values.len() as int) is None,
        stores(context, restarts, i64s_bytes(restart_values(values, interval as int))),
        agrees(context, nodes, child, delta_codes(values, interval as int, coding)),
    ensures
        agrees(context, nodes, id, values),
{
    let step = interval as int;
    let anchors = restart_values(values, step);
    assert forall|row: int| 0 <= row < values.len() implies tells(
        (#[trigger] get_outcome(context, nodes, id.0 as int, row)).result,
        values[row],
    ) by {
        let block = row / step;
        let first = block * step;
        lemma_floor(row, step);
        lemma_scale(0, block, step);
        lemma_ceil_floor(values.len() as int, step);
        vstd::arithmetic::div_mod::lemma_div_is_ordered(row, values.len() - 1, step);
        lemma_read_i64(context, restarts, anchors, block);
        vstd::arithmetic::div_mod::lemma_mod_multiples_basic(block, step);
        lemma_delta_clean(values, step, coding, values.len() as int, first);
        assert(fits_i64(values[first]));
        assert(anchors[block] == values[first] as i64);
        lemma_deltas_agree(context, nodes, child, values, step, coding, first + 1, row);
    }
}

proof fn lemma_rle_agrees(
    context: Context,
    values: Seq<int>,
    interval: usize,
    lengths: FieldId,
    index: FieldId,
    child: NodeId,
    id: NodeId,
    nodes: Seq<DecoderNode>,
)
    requires
        id.0 < nodes.len(),
        nodes[id.0 as int] == (DecoderNode::Rle {
            values: child,
            run_lengths: lengths,
            run_index: index,
            len: values.len() as usize,
            runs: all_runs(values).len() as usize,
            index_interval: interval,
        }),
        child.0 < id.0,
        node_len(nodes, nodes[id.0 as int]) == Ok::<usize, Error>(values.len() as usize),
        values.len() <= usize::MAX,
        values.len() <= u32::MAX,
        interval > 0,
        stores(context, lengths, u32s_bytes(run_lengths(values))),
        stores(context, index, u32s_bytes(run_index(values, interval as int))),
        agrees(context, nodes, child, run_values(values)),
    ensures
        agrees(context, nodes, id, values),
{
    lemma_runs_total(values, values.len() as int);
    let list = all_runs(values);
    assert forall|row: int| 0 <= row < values.len() implies tells(
        (#[trigger] get_outcome(context, nodes, id.0 as int, row)).result,
        values[row],
    ) by {
        lemma_locate(context, index, lengths, values, interval as int, row);
        let place = locate_outcome(
            context,
            index,
            lengths,
            list.len() as int,
            interval as int,
            row,
        ).result->Ok_0;
        let inner = get_outcome(context, nodes, child.0 as int, place.0);
        assert(tells(inner.result, run_values(values)[place.0]));
    }
}

proof fn lemma_dictionary_agrees(
    context: Context,
    values: Seq<int>,
    dictionary: FieldId,
    child: NodeId,
    id: NodeId,
    nodes: Seq<DecoderNode>,
)
    requires
        id.0 < nodes.len(),
        nodes[id.0 as int] == (DecoderNode::Dictionary {
            ids: child,
            dictionary,
            entries: dictionary_of(values).len() as usize,
            sorted_unique: true,
        }),
        child.0 < id.0,
        node_len(nodes, nodes[id.0 as int]) == Ok::<usize, Error>(values.len() as usize),
        values.len() <= usize::MAX,
        forall|i: int|
            0 <= i < dictionary_of(values).len() ==> fits_i64(#[trigger] dictionary_of(values)[i]),
        stores(context, dictionary, i64s_bytes(narrowed(dictionary_of(values)))),
        agrees(context, nodes, child, dictionary_ids(values)),
    ensures
        agrees(context, nodes, id, values),
{
    lemma_dictionary_holds(values);
    let d = dictionary_of(values);
    assert forall|row: int| 0 <= row < values.len() implies tells(
        (#[trigger] get_outcome(context, nodes, id.0 as int, row)).result,
        values[row],
    ) by {
        let value = values[row];
        assert(values.contains(value));
        assert(d.contains(value));
        let k = choose|k: int| 0 <= k < d.len() && d[k] == value;
        lemma_place(d, k);
        assert(dictionary_ids(values)[row] == k);
        let inner = get_outcome(context, nodes, child.0 as int, row);
        assert(tells(inner.result, k));
        if inner.result is Ok {
            assert((k as i64) as usize == k);
            lemma_read_i64(context, dictionary, narrowed(d), k);
            assert(fits_i64(d[k]));
        }
    }
}

proof fn lemma_patch_agrees(
    context: Context,
    values: Seq<int>,
    patched: Seq<bool>,
    interval: usize,
    positions: FieldId,
    index: FieldId,
    exceptions: FieldId,
    child: NodeId,
    id: NodeId,
    nodes: Seq<DecoderNode>,
)
    requires
        id.0 < nodes.len(),
        nodes[id.0 as int] == (DecoderNode::Patch {
            values: child,
            positions,
            position_index: index,
            exceptions,
            count: all_positions(patched).len() as usize,
            index_interval: interval,
        }),
        child.0 < id.0,
        node_len(nodes, nodes[id.0 as int]) == Ok::<usize, Error>(values.len() as usize),
        values.len() <= usize::MAX,
        values.len() <= u32::MAX,
        patched.len() == values.len(),
        interval > 0,
        forall|k: int|
            0 <= k < all_positions(patched).len() ==> fits_i64(
                values[#[trigger] all_positions(patched)[k]],
            ),
        stores(context, positions, u32s_bytes(position_values(patched))),
        stores(context, index, u32s_bytes(position_index(patched, interval as int))),
        stores(context, exceptions, i64s_bytes(exception_values(values, patched))),
        agrees(context, nodes, child, regular_values(values, patched)),
    ensures
        agrees(context, nodes, id, values),
{
    let places = all_positions(patched);
    lemma_positions(patched, patched.len() as int);
    assert forall|row: int| 0 <= row < values.len() implies tells(
        (#[trigger] get_outcome(context, nodes, id.0 as int, row)).result,
        values[row],
    ) by {
        lemma_find(context, index, positions, patched, interval as int, row);
        let found = find_outcome(
            context,
            index,
            positions,
            places.len() as int,
            interval as int,
            row,
        ).result->Ok_0;
        match found {
            Some(k) => {
                lemma_read_i64(context, exceptions, exception_values(values, patched), k);
                assert(fits_i64(values[places[k]]));
            },
            None => {
                let inner = get_outcome(context, nodes, child.0 as int, row);
                assert(tells(inner.result, regular_values(values, patched)[row]));
            },
        }
    }
}

// ----- recipes -----

/// What a recipe makes of values decodes to nothing else.
proof fn lemma_dense_agrees(
    context: Context,
    recipe: Recipe,
    values: Seq<int>,
    patched: Seq<bool>,
    build: Build,
    end: Build,
)
    requires
        codable(values, patched, build),
        rows_numbered(recipe, values.len()),
        coded_dense(recipe, values, patched, build) is Ok,
        opened(context, coded_dense(recipe, values, patched, build)->Ok_0.0, end),
    ensures
        agrees(context, end.nodes, coded_dense(recipe, values, patched, build)->Ok_0.1, values),
    decreases recipe, 0int,
{
    let (last, top) = coded_dense(recipe, values, patched, build)->Ok_0;
    law_recipes_make_sound_decoders(recipe, values, patched, build);
    lemma_seen(context, build, last, end, top, values.len());
    match recipe {
        Recipe::BitPack => {
            lemma_bits_agree(context, values, build, end);
        },
        Recipe::Rle { index_interval, values: child } => {
            lemma_rle_fields(values, index_interval, build);
            lemma_runs_total(values, values.len() as int);
            let (mid, lengths, index) = rle_fields(values, index_interval, build)->Ok_0;
            let list = run_values(values);
            let marks = unpatched(all_runs(values).len());
            let (next, id) = coded_dense(*child, list, marks, mid)->Ok_0;
            law_recipes_make_sound_decoders(*child, list, marks, mid);
            lemma_opened(context, next, last, end);
            lemma_opened(context, mid, next, end);
            lemma_dense_agrees(context, *child, list, marks, mid, end);
            lemma_stores(context, mid, end, lengths, u32s_bytes(run_lengths(values)));
            lemma_stores(
                context,
                mid,
                end,
                index,
                u32s_bytes(run_index(values, index_interval as int)),
            );
            lemma_rle_agrees(context, values, index_interval, lengths, index, id, top, end.nodes);
        },
        Recipe::Dictionary(child) => {
            lemma_dictionary_fields(values, build);
            let (mid, dictionary) = dictionary_fields(values, build)->Ok_0;
            let list = dictionary_ids(values);
            let (next, id) = coded_dense(*child, list, patched, mid)->Ok_0;
            law_recipes_make_sound_decoders(*child, list, patched, mid);
            lemma_opened(context, next, last, end);
            lemma_opened(context, mid, next, end);
            lemma_dense_agrees(context, *child, list, patched, mid, end);
            lemma_stores(
                context,
                mid,
                end,
                dictionary,
                i64s_bytes(narrowed(dictionary_of(values))),
            );
            lemma_dictionary_agrees(context, values, dictionary, id, top, end.nodes);
        },
        Recipe::Delta { restart_interval, deltas } => {
            lemma_delta_case_agrees(
                context,
                *deltas,
                values,
                patched,
                build,
                end,
                restart_interval,
                DeltaCoding::ZigZag,
                last,
                top,
            );
        },
        Recipe::UnsignedDelta { restart_interval, deltas } => {
            lemma_delta_case_agrees(
                context,
                *deltas,
                values,
                patched,
                build,
                end,
                restart_interval,
                DeltaCoding::Unsigned,
                last,
                top,
            );
        },
        Recipe::For(child) => {
            lemma_for_fields(values, build);
            let (mid, base) = for_fields(values, build)->Ok_0;
            let list = offsets(values);
            let (next, id) = coded_dense(*child, list, patched, mid)->Ok_0;
            law_recipes_make_sound_decoders(*child, list, patched, mid);
            lemma_opened(context, next, last, end);
            lemma_opened(context, mid, next, end);
            lemma_dense_agrees(context, *child, list, patched, mid, end);
            lemma_stores(
                context,
                mid,
                end,
                base,
                i64s_bytes(seq![least(values, values.len() as int) as i64]),
            );
            lemma_for_agrees(context, values, base, id, top, end.nodes);
        },
        Recipe::Patch { index_interval, values: child } => {
            lemma_patch_fields(values, patched, index_interval, build);
            let (mid, positions, index, exceptions) = patch_fields(
                values,
                patched,
                index_interval,
                build,
            )->Ok_0;
            let list = regular_values(values, patched);
            let marks = unpatched(values.len());
            let (next, id) = coded_dense(*child, list, marks, mid)->Ok_0;
            law_recipes_make_sound_decoders(*child, list, marks, mid);
            lemma_opened(context, next, last, end);
            lemma_opened(context, mid, next, end);
            lemma_dense_agrees(context, *child, list, marks, mid, end);
            lemma_stores(context, mid, end, positions, u32s_bytes(position_values(patched)));
            lemma_stores(
                context,
                mid,
                end,
                index,
                u32s_bytes(position_index(patched, index_interval as int)),
            );
            lemma_stores(
                context,
                mid,
                end,
                exceptions,
                i64s_bytes(exception_values(values, patched)),
            );
            lemma_patch_agrees(
                context,
                values,
                patched,
                index_interval,
                positions,
                index,
                exceptions,
                id,
                top,
                end.nodes,
            );
        },
        Recipe::Nullable { .. } => {},
        Recipe::Frame(child) => {
            let (mid, id) = coded_dense(*child, values, patched, build)->Ok_0;
            lemma_framed(mid, build.plan.fields.len() as int);
            lemma_opened(context, mid, last, end);
            lemma_dense_agrees(context, *child, values, patched, build, end);
        },
    }
}

proof fn lemma_delta_case_agrees(
    context: Context,
    child: Recipe,
    values: Seq<int>,
    patched: Seq<bool>,
    build: Build,
    end: Build,
    interval: usize,
    coding: DeltaCoding,
    last: Build,
    top: NodeId,
)
    requires
        codable(values, patched, build),
        rows_numbered(child, values.len()),
        delta_fields(values, interval, coding, build) matches Ok((mid, restarts)) && coded_dense(
            child,
            delta_codes(values, interval as int, coding),
            patched,
            mid,
        ) matches Ok((next, id)) && delta_node(
            values.len() as usize,
            interval,
            coding,
            restarts,
            id,
            next,
        ) == Ok::<(Build, NodeId), Error>((last, top)),
        opened(context, last, end),
        coded_well(build, last, top, values.len()),
        end.nodes[top.0 as int] == last.nodes[top.0 as int],
        node_len(end.nodes, end.nodes[top.0 as int]) == Ok::<usize, Error>(values.len() as usize),
        top.0 < end.nodes.len(),
        child_of(end.nodes[top.0 as int]) matches Some(below) ==> below.0 < top.0,
    ensures
        agrees(context, end.nodes, top, values),
    decreases child, 1int,
{
    lemma_delta_fields(values, interval, coding, build);
    let (mid, restarts) = delta_fields(values, interval, coding, build)->Ok_0;
    let list = delta_codes(values, interval as int, coding);
    let (next, id) = coded_dense(child, list, patched, mid)->Ok_0;
    lemma_nodes_grow(child, list, patched, mid);
    law_recipes_make_sound_decoders(child, list, patched, mid);
    assert(extends(next, last));
    lemma_opened(context, next, last, end);
    lemma_opened(context, mid, next, end);
    lemma_dense_agrees(context, child, list, patched, mid, end);
    lemma_stores(
        context,
        mid,
        end,
        restarts,
        i64s_bytes(restart_values(values, interval as int)),
    );
    lemma_delta_agrees(context, values, interval, coding, restarts, id, top, end.nodes);
}

/// A row of a node that decodes has its value or is null.
pub open spec fn agrees_column(
    context: Context,
    nodes: Seq<DecoderNode>,
    id: NodeId,
    values: Seq<Option<int>>,
) -> bool {
    forall|row: int|
        0 <= row < values.len() ==> tells_of(
            (#[trigger] get_outcome(context, nodes, id.0 as int, row)).result,
            values[row],
        )
}

/// A result is a fault, or a value or null.
pub open spec fn tells_of(result: Result<Option<i64>, Error>, value: Option<int>) -> bool {
    match value {
        Some(value) => tells(result, value),
        None => result matches Ok(found) ==> found is None,
    }
}

proof fn lemma_nullable_agrees(
    context: Context,
    values: Seq<Option<int>>,
    interval: usize,
    validity: FieldId,
    ranks: FieldId,
    child: NodeId,
    id: NodeId,
    nodes: Seq<DecoderNode>,
)
    requires
        id.0 < nodes.len(),
        nodes[id.0 as int] matches DecoderNode::Nullable {
            validity: v,
            rank_index: r,
            values: c,
            rank_interval: i,
            ..
        } && v == validity && r == ranks && c == child && i == interval,
        child.0 < id.0,
        node_len(nodes, nodes[id.0 as int]) == Ok::<usize, Error>(values.len() as usize),
        values.len() <= usize::MAX,
        interval > 0,
        interval % 8 == 0,
        compact(values, values.len() as int).len() <= u32::MAX,
        stores(context, validity, validity_bytes(values)),
        stores(context, ranks, u32s_bytes(rank_values(values, interval as int))),
        agrees(context, nodes, child, compact(values, values.len() as int)),
    ensures
        agrees_column(context, nodes, id, values),
{
    let list = compact(values, values.len() as int);
    assert forall|row: int| 0 <= row < values.len() implies tells_of(
        (#[trigger] get_outcome(context, nodes, id.0 as int, row)).result,
        values[row],
    ) by {
        lemma_rank(context, validity, ranks, values, interval as int, row);
        if values[row] is Some {
            let rank = compact(values, row).len() as int;
            lemma_compact_at(values, row, values.len() as int);
            let inner = get_outcome(context, nodes, child.0 as int, rank);
            assert(tells(inner.result, list[rank]));
        }
    }
}

proof fn lemma_column_agrees(
    context: Context,
    recipe: Recipe,
    values: Seq<Option<int>>,
    patched: Seq<bool>,
    build: Build,
    end: Build,
)
    requires
        numbered(build),
        arena_error(build.nodes, build.nodes.len() as int) is None,
        0 < values.len() <= usize::MAX,
        patched.len() == values.len(),
        rows_numbered(recipe, values.len()),
        coded(recipe, values, patched, build) is Ok,
        opened(context, coded(recipe, values, patched, build)->Ok_0.0, end),
    ensures
        agrees_column(context, end.nodes, coded(recipe, values, patched, build)->Ok_0.1, values),
    decreases recipe,
{
    let (last, top) = coded(recipe, values, patched, build)->Ok_0;
    law_columns_have_sound_decoders(recipe, values, patched, build);
    lemma_seen(context, build, last, end, top, values.len());
    match recipe {
        Recipe::Frame(child) => {
            let (mid, id) = coded(*child, values, patched, build)->Ok_0;
            lemma_framed(mid, build.plan.fields.len() as int);
            lemma_opened(context, mid, last, end);
            lemma_column_agrees(context, *child, values, patched, build, end);
        },
        Recipe::Nullable { rank_interval, values: child } => {
            lemma_nullable_fields(values, rank_interval, build);
            let n = values.len() as int;
            let (mid, validity, ranks) = nullable_fields(values, rank_interval, build)->Ok_0;
            let list = compact(values, n);
            let marks = compact_marks(values, patched, n);
            lemma_compact_len(values, patched, n);
            let (next, id) = coded_dense(*child, list, marks, mid)->Ok_0;
            lemma_nodes_grow(*child, list, marks, mid);
            law_recipes_make_sound_decoders(*child, list, marks, mid);
            lemma_opened(context, next, last, end);
            lemma_opened(context, mid, next, end);
            lemma_dense_agrees(context, *child, list, marks, mid, end);
            lemma_stores(context, mid, end, validity, validity_bytes(values));
            lemma_stores(
                context,
                mid,
                end,
                ranks,
                u32s_bytes(rank_values(values, rank_interval as int)),
            );
            lemma_nullable_agrees(
                context,
                values,
                rank_interval,
                validity,
                ranks,
                id,
                top,
                end.nodes,
            );
        },
        _ => {
            let dense = dense_values(values)->Ok_0;
            lemma_dense_agrees(context, recipe, dense, patched, build, end);
            assert forall|row: int| 0 <= row < values.len() implies tells_of(
                (#[trigger] get_outcome(context, end.nodes, top.0 as int, row)).result,
                values[row],
            ) by {
                assert(!(values[row] is None));
                assert(dense[row] == values[row]->0);
            }
        },
    }
}

/// A node has the runs of the values, and each that decodes has its value.
pub open spec fn tells_runs(
    context: Context,
    nodes: Seq<DecoderNode>,
    id: NodeId,
    values: Seq<int>,
) -> bool {
    nodes[id.0 as int] matches DecoderNode::Rle { values: child, run_lengths: lengths, runs, .. } && {
        &&& runs == all_runs(values).len()
        &&& values.len() <= u32::MAX
        &&& stores(context, lengths, u32s_bytes(run_lengths(values)))
        &&& agrees(context, nodes, child, run_values(values))
    }
}

proof fn lemma_runs_told(
    context: Context,
    recipe: Recipe,
    values: Seq<Option<int>>,
    patched: Seq<bool>,
    build: Build,
    end: Build,
)
    requires
        by_runs(recipe),
        numbered(build),
        arena_error(build.nodes, build.nodes.len() as int) is None,
        0 < values.len() <= usize::MAX,
        patched.len() == values.len(),
        coded(recipe, values, patched, build) is Ok,
        opened(context, coded(recipe, values, patched, build)->Ok_0.0, end),
    ensures
        dense_values(values) is Ok,
        tells_runs(
            context,
            end.nodes,
            coded(recipe, values, patched, build)->Ok_0.1,
            dense_values(values)->Ok_0,
        ),
    decreases recipe,
{
    let (last, top) = coded(recipe, values, patched, build)->Ok_0;
    law_columns_have_sound_decoders(recipe, values, patched, build);
    lemma_seen(context, build, last, end, top, values.len());
    match recipe {
        Recipe::Frame(child) => {
            let (mid, id) = coded(*child, values, patched, build)->Ok_0;
            lemma_framed(mid, build.plan.fields.len() as int);
            lemma_opened(context, mid, last, end);
            lemma_runs_told(context, *child, values, patched, build, end);
        },
        Recipe::Rle { index_interval, values: child } => {
            let dense = dense_values(values)->Ok_0;
            lemma_rle_fields(dense, index_interval, build);
            lemma_runs_total(dense, dense.len() as int);
            let (mid, lengths, index) = rle_fields(dense, index_interval, build)->Ok_0;
            let list = run_values(dense);
            let marks = unpatched(all_runs(dense).len());
            let (next, id) = coded_dense(*child, list, marks, mid)->Ok_0;
            law_recipes_make_sound_decoders(*child, list, marks, mid);
            lemma_opened(context, next, last, end);
            lemma_opened(context, mid, next, end);
            lemma_dense_agrees(context, *child, list, marks, mid, end);
            lemma_stores(context, mid, end, lengths, u32s_bytes(run_lengths(dense)));
        },
        _ => {},
    }
}

/// A node has the dictionary of the values, and each of its identifiers that decodes is
/// the place of its value.
pub open spec fn tells_entries(
    context: Context,
    nodes: Seq<DecoderNode>,
    id: NodeId,
    values: Seq<int>,
) -> bool {
    nodes[id.0 as int] matches DecoderNode::Dictionary { ids, dictionary, entries, .. } && {
        &&& entries == dictionary_of(values).len()
        &&& all_fit(values)
        &&& stores(context, dictionary, i64s_bytes(narrowed(dictionary_of(values))))
        &&& agrees(context, nodes, ids, dictionary_ids(values))
    }
}

proof fn lemma_entries_told(
    context: Context,
    recipe: Recipe,
    values: Seq<Option<int>>,
    patched: Seq<bool>,
    build: Build,
    end: Build,
)
    requires
        numbered(build),
        arena_error(build.nodes, build.nodes.len() as int) is None,
        0 < values.len() <= usize::MAX,
        patched.len() == values.len(),
        rows_numbered(recipe, values.len()),
        coded(recipe, values, patched, build) is Ok,
        opened(context, coded(recipe, values, patched, build)->Ok_0.0, end),
        end.nodes[coded(recipe, values, patched, build)->Ok_0.1.0 as int] is Dictionary,
    ensures
        dense_values(values) is Ok,
        tells_entries(
            context,
            end.nodes,
            coded(recipe, values, patched, build)->Ok_0.1,
            dense_values(values)->Ok_0,
        ),
    decreases recipe,
{
    let (last, top) = coded(recipe, values, patched, build)->Ok_0;
    law_columns_have_sound_decoders(recipe, values, patched, build);
    lemma_seen(context, build, last, end, top, values.len());
    match recipe {
        Recipe::Frame(child) => {
            let (mid, id) = coded(*child, values, patched, build)->Ok_0;
            lemma_framed(mid, build.plan.fields.len() as int);
            lemma_opened(context, mid, last, end);
            lemma_entries_told(context, *child, values, patched, build, end);
        },
        Recipe::Dictionary(child) => {
            let dense = dense_values(values)->Ok_0;
            lemma_dictionary_fields(dense, build);
            lemma_dictionary_holds(dense);
            let (mid, dictionary) = dictionary_fields(dense, build)->Ok_0;
            let list = dictionary_ids(dense);
            let (next, id) = coded_dense(*child, list, patched, mid)->Ok_0;
            law_recipes_make_sound_decoders(*child, list, patched, mid);
            lemma_opened(context, next, last, end);
            lemma_opened(context, mid, next, end);
            lemma_dense_agrees(context, *child, list, patched, mid, end);
            lemma_stores(
                context,
                mid,
                end,
                dictionary,
                i64s_bytes(narrowed(dictionary_of(dense))),
            );
            let d = dictionary_of(dense);
            assert forall|i: int| 0 <= i < dense.len() implies fits_i64(#[trigger] dense[i]) by {
                assert(dense.contains(dense[i]));
                assert(d.contains(dense[i]));
                let k = choose|k: int| 0 <= k < d.len() && d[k] == dense[i];
                assert(fits_i64(d[k]));
            }
        },
        _ => {},
    }
}

// ----- columns -----

/// The top node of a column that is a dictionary has the dictionary of its values.
pub proof fn lemma_column_tells_entries(
    column: EncodedColumn,
    recipe: Recipe,
    values: Seq<Option<i64>>,
    patch_rows: Set<usize>,
    mode: ClosureMode,
    accounted: bool,
)
    requires
        column.encodes(recipe, values, patch_rows),
        rows_numbered(recipe, values.len()),
        column.decoder.arena()[column.decoder.top().0 as int] is Dictionary,
    ensures
        dense_values(widened(values)) is Ok,
        tells_entries(
            page_context(&column.page, mode, accounted),
            column.decoder.arena(),
            column.decoder.top(),
            dense_values(widened(values))->Ok_0,
        ),
{
    let (build, root) = encoding(recipe, values, patch_rows)->Ok_0;
    let header = planned_header(build.plan)->Ok_0;
    let context = page_context(&column.page, mode, accounted);
    assert(values.len() == column.truth.len());
    law_page_holds_fields(build.plan, header, context);
    let start = Build { plan: empty_plan(statements_of(values)), nodes: Seq::empty() };
    let wide = widened(values);
    lemma_entries_told(context, recipe, wide, marked(values.len(), patch_rows), start, build);
}

/// The top node of a column that is encoded by runs has the runs of its values.
pub proof fn lemma_column_tells_runs(
    column: EncodedColumn,
    recipe: Recipe,
    values: Seq<Option<i64>>,
    patch_rows: Set<usize>,
    mode: ClosureMode,
    accounted: bool,
)
    requires
        column.encodes(recipe, values, patch_rows),
        by_runs(recipe),
    ensures
        dense_values(widened(values)) is Ok,
        tells_runs(
            page_context(&column.page, mode, accounted),
            column.decoder.arena(),
            column.decoder.top(),
            dense_values(widened(values))->Ok_0,
        ),
{
    let (build, root) = encoding(recipe, values, patch_rows)->Ok_0;
    let header = planned_header(build.plan)->Ok_0;
    let context = page_context(&column.page, mode, accounted);
    assert(values.len() == column.truth.len());
    law_page_holds_fields(build.plan, header, context);
    let start = Build { plan: empty_plan(statements_of(values)), nodes: Seq::empty() };
    let wide = widened(values);
    lemma_runs_told(context, recipe, wide, marked(values.len(), patch_rows), start, build);
}

/// A row of an encoded column that decodes has the value that was encoded, whatever the
/// recipe, the values and the closure mode.
pub proof fn law_nothing_else_is_decoded(
    column: EncodedColumn,
    recipe: Recipe,
    values: Seq<Option<i64>>,
    patch_rows: Set<usize>,
    mode: ClosureMode,
    accounted: bool,
    row: int,
)
    requires
        column.encodes(recipe, values, patch_rows),
        rows_numbered(recipe, values.len()),
        0 <= row < values.len(),
    ensures
        get_outcome(
            page_context(&column.page, mode, accounted),
            column.decoder.arena(),
            column.decoder.top().0 as int,
            row,
        ).result matches Ok(value) ==> value == values[row],
{
    let (build, root) = encoding(recipe, values, patch_rows)->Ok_0;
    let header = planned_header(build.plan)->Ok_0;
    let context = page_context(&column.page, mode, accounted);
    assert(values.len() == column.truth.len());
    law_page_holds_fields(build.plan, header, context);
    let start = Build { plan: empty_plan(statements_of(values)), nodes: Seq::empty() };
    let wide = widened(values);
    lemma_column_agrees(
        context,
        recipe,
        wide,
        marked(values.len(), patch_rows),
        start,
        build,
    );
    assert(wide[row] == (match values[row] {
        Some(value) => Some(value as int),
        None => None,
    }));
    let read = get_outcome(context, build.nodes, root.0 as int, row);
    assert(tells_of(read.result, wide[row]));
}

/// Where the rows of an encoded column that a valid query asks about decode, the answer
/// is that of the values that were encoded, whatever the recipe and the values.
pub proof fn law_scans_answer_nothing_else(
    column: EncodedColumn,
    recipe: Recipe,
    values: Seq<Option<i64>>,
    patch_rows: Set<usize>,
    mode: ClosureMode,
    accounted: bool,
    query: Query,
    from: int,
    to: int,
)
    requires
        column.encodes(recipe, values, patch_rows),
        rows_numbered(recipe, values.len()),
        query_error(values.len() as int, query) is None,
        0 <= from <= asked_rows(values.len() as int, query).0,
        asked_rows(values.len() as int, query).1 <= to <= values.len(),
    ensures
        scan_answer(
            page_context(&column.page, mode, accounted),
            column.decoder.arena(),
            column.decoder.top().0 as int,
            query,
            values.len() as int,
            from,
            to,
        ).result matches Ok(reply) ==> reply == answer_of(
            query,
            values.len() as int,
            listed(values),
        ),
{
    let context = page_context(&column.page, mode, accounted);
    let nodes = column.decoder.arena();
    let id = column.decoder.top().0 as int;
    let len = values.len() as int;
    let ours = decoded_value(context, nodes, id);
    if rows_outcome(context, nodes, id, from, to).result is Ok {
        assert forall|row: int| from <= row < to implies #[trigger] ours(row) == listed(values)(
            row,
        ) by {
            lemma_rows_each(context, nodes, id, from, to, row);
            law_nothing_else_is_decoded(column, recipe, values, patch_rows, mode, accounted, row);
        }
        lemma_same_answer(query, len, ours, listed(values));
    }
}

/// An execution that decodes at least the rows of its query and succeeds gives the
/// answer of the values that were encoded, and says how many rows it decoded.
pub proof fn law_executions_tell_the_truth(
    column: EncodedColumn,
    recipe: Recipe,
    values: Seq<Option<i64>>,
    patch_rows: Set<usize>,
    query: Query,
    mode: ClosureMode,
    from: int,
    to: int,
    execution: Execution,
)
    requires
        column.encodes(recipe, values, patch_rows),
        rows_numbered(recipe, values.len()),
        0 <= from <= asked_rows(values.len() as int, query).0,
        asked_rows(values.len() as int, query).1 <= to <= values.len(),
        scanned(Ok(execution), column, query, mode, from, to),
    ensures
        execution.answer@ == answer_of(query, values.len() as int, listed(values)),
        execution.decoded_rows == to - from,
{
    law_scans_answer_nothing_else(
        column,
        recipe,
        values,
        patch_rows,
        mode,
        true,
        query,
        from,
        to,
    );
}

} // verus!
