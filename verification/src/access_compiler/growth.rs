//! What encoding adds to a page and a decoder, and that the decoder is sound.
#[allow(unused_imports)]
use super::bytes::{i64s_bytes, u32s_bytes};
#[allow(unused_imports)]
use super::coding::{
    added, all_positions, all_runs, ascending, coded, coded_bits, coded_dense, compact,
    compact_marks, delta_codes, delta_fields, delta_node, dense_values, dictionary_fields,
    dictionary_ids, dictionary_of, exception_values, fits_i64, fits_u64, for_fields, framed,
    greatest, is_dictionary, least, miniblock_size, narrowed, nullable_fields, offsets,
    packed_width, patch_fields, position_index, position_values, rank_values, regular_values,
    restart_values, rle_fields, run_index, run_lengths, run_values, runs, stream_bytes, unpatched,
    validity_bytes, with_node, with_rule, Build, Recipe, MINIBLOCK_ROWS,
};
#[allow(unused_imports)]
use super::decoder::{
    arena_error, child_of, children_first, lemma_arena, lemma_len_prefix, lemma_len_steps,
    node_error, node_len, own_len, DecoderNode, DeltaCoding,
};
#[allow(unused_imports)]
use super::encode::{lemma_compact_len, lemma_dictionary, lemma_positions, lemma_runs_total, lemma_width_bound};
#[allow(unused_imports)]
use super::error::Error;
#[allow(unused_imports)]
use super::ids::{FieldId, NodeId};
use vstd::prelude::*;

verus! {

/// A later state of a build: fields keep their bytes and nodes stay.
pub open spec fn extends(a: Build, b: Build) -> bool {
    &&& a.plan.fields.len() <= b.plan.fields.len()
    &&& forall|f: int|
        0 <= f < a.plan.fields.len() ==> (#[trigger] b.plan.fields[f]).bytes
            == a.plan.fields[f].bytes
    &&& a.nodes.len() <= b.nodes.len()
    &&& forall|i: int| 0 <= i < a.nodes.len() ==> #[trigger] b.nodes[i] == a.nodes[i]
}

/// A field after the header holds these bytes.
pub open spec fn placed(build: Build, field: FieldId, bytes: Seq<u8>) -> bool {
    1 <= field.0 < build.plan.fields.len() && build.plan.fields[field.0 as int].bytes == bytes
}

/// The fields can be numbered.
pub open spec fn numbered(build: Build) -> bool {
    1 <= build.plan.fields.len() <= usize::MAX
}

pub proof fn lemma_extends(a: Build, b: Build, c: Build)
    requires
        extends(a, b),
        extends(b, c),
    ensures
        extends(a, c),
{
    assert forall|f: int| 0 <= f < a.plan.fields.len() implies (#[trigger] c.plan.fields[f]).bytes
        == a.plan.fields[f].bytes by {
        assert(b.plan.fields[f].bytes == a.plan.fields[f].bytes);
    }
    assert forall|i: int| 0 <= i < a.nodes.len() implies #[trigger] c.nodes[i] == a.nodes[i] by {
        assert(b.nodes[i] == a.nodes[i]);
    }
}

pub proof fn lemma_placed(a: Build, b: Build, field: FieldId, bytes: Seq<u8>)
    requires
        extends(a, b),
        placed(a, field, bytes),
    ensures
        placed(b, field, bytes),
{
    assert(b.plan.fields[field.0 as int].bytes == a.plan.fields[field.0 as int].bytes);
}

proof fn lemma_added(
    build: Build,
    name: Seq<char>,
    bytes: Seq<u8>,
    alignment: usize,
    granularity: usize,
)
    requires
        numbered(build),
    ensures
        added(build, name, bytes, alignment, granularity) matches Ok((next, field)) ==> {
            &&& extends(build, next)
            &&& placed(next, field, bytes)
            &&& next.nodes == build.nodes
            &&& numbered(next)
        },
{
}

/// What was added before a child is coded.
pub open spec fn prepared(build: Build, next: Build) -> bool {
    extends(build, next) && next.nodes == build.nodes && numbered(next)
}

pub proof fn lemma_for_fields(values: Seq<int>, build: Build)
    requires
        numbered(build),
    ensures
        for_fields(values, build) matches Ok((next, base)) ==> {
            &&& prepared(build, next)
            &&& placed(next, base, i64s_bytes(seq![least(values, values.len() as int) as i64]))
            &&& fits_i64(least(values, values.len() as int))
        },
{
    lemma_added(
        build,
        "for.base"@,
        i64s_bytes(seq![least(values, values.len() as int) as i64]),
        8,
        8,
    );
}

pub proof fn lemma_delta_fields(values: Seq<int>, interval: usize, coding: DeltaCoding, build: Build)
    requires
        numbered(build),
    ensures
        delta_fields(values, interval, coding, build) matches Ok((next, restarts)) ==> {
            &&& prepared(build, next)
            &&& placed(next, restarts, i64s_bytes(restart_values(values, interval as int)))
            &&& interval > 0
        },
{
    lemma_added(
        build,
        "delta.restarts"@,
        i64s_bytes(restart_values(values, interval as int)),
        8,
        64,
    );
}

pub proof fn lemma_dictionary_fields(values: Seq<int>, build: Build)
    requires
        numbered(build),
    ensures
        dictionary_fields(values, build) matches Ok((next, dictionary)) ==> {
            &&& prepared(build, next)
            &&& placed(next, dictionary, i64s_bytes(narrowed(dictionary_of(values))))
        },
{
    lemma_added(
        build,
        "dictionary.values"@,
        i64s_bytes(narrowed(dictionary_of(values))),
        8,
        64,
    );
}

pub proof fn lemma_with_rule(build: Build, rule: super::layout::DependencyRule)
    ensures
        extends(build, with_rule(build, rule)),
        with_rule(build, rule).nodes == build.nodes,
        with_rule(build, rule).plan.fields == build.plan.fields,
{
}

pub proof fn lemma_rle_fields(values: Seq<int>, interval: usize, build: Build)
    requires
        numbered(build),
    ensures
        rle_fields(values, interval, build) matches Ok((next, lengths, index)) ==> {
            &&& prepared(build, next)
            &&& placed(next, lengths, u32s_bytes(run_lengths(values)))
            &&& placed(next, index, u32s_bytes(run_index(values, interval as int)))
            &&& interval > 0
            &&& values.len() <= u32::MAX
        },
{
    if let Ok((next, lengths, index)) = rle_fields(values, interval, build) {
        let a = u32s_bytes(run_lengths(values));
        let b = u32s_bytes(run_index(values, interval as int));
        lemma_added(build, "rle.lengths"@, a, 4, 128);
        let first = added(build, "rle.lengths"@, a, 4, 128)->Ok_0.0;
        lemma_added(first, "rle.index"@, b, 8, 64);
        let second = added(first, "rle.index"@, b, 8, 64)->Ok_0.0;
        lemma_placed(first, second, lengths, a);
        lemma_extends(build, first, second);
        assert(next.plan.fields == second.plan.fields);
    }
}

pub proof fn lemma_patch_fields(values: Seq<int>, patched: Seq<bool>, interval: usize, build: Build)
    requires
        numbered(build),
    ensures
        patch_fields(values, patched, interval, build) matches Ok((next, positions, index, exceptions))
            ==> {
            &&& prepared(build, next)
            &&& placed(next, positions, u32s_bytes(position_values(patched)))
            &&& placed(next, index, u32s_bytes(position_index(patched, interval as int)))
            &&& placed(next, exceptions, i64s_bytes(exception_values(values, patched)))
            &&& interval > 0
        },
{
    if let Ok((next, positions, index, exceptions)) = patch_fields(
        values,
        patched,
        interval,
        build,
    ) {
        let a = u32s_bytes(position_values(patched));
        let b = u32s_bytes(position_index(patched, interval as int));
        let c = i64s_bytes(exception_values(values, patched));
        lemma_added(build, "patch.positions"@, a, 4, 128);
        let first = added(build, "patch.positions"@, a, 4, 128)->Ok_0.0;
        lemma_added(first, "patch.index"@, b, 8, 64);
        let second = added(first, "patch.index"@, b, 8, 64)->Ok_0.0;
        lemma_added(second, "patch.exceptions"@, c, 8, 64);
        let third = added(second, "patch.exceptions"@, c, 8, 64)->Ok_0.0;
        lemma_placed(first, second, positions, a);
        lemma_placed(second, third, positions, a);
        lemma_placed(second, third, index, b);
        lemma_extends(build, first, second);
        lemma_extends(build, second, third);
        assert(next.plan.fields == third.plan.fields);
    }
}

pub proof fn lemma_nullable_fields(values: Seq<Option<int>>, interval: usize, build: Build)
    requires
        numbered(build),
    ensures
        nullable_fields(values, interval, build) matches Ok((next, validity, ranks)) ==> {
            &&& prepared(build, next)
            &&& placed(next, validity, validity_bytes(values))
            &&& placed(next, ranks, u32s_bytes(rank_values(values, interval as int)))
            &&& interval > 0
            &&& interval % 8 == 0
            &&& 0 < compact(values, values.len() as int).len() <= u32::MAX
        },
{
    if let Ok((next, validity, ranks)) = nullable_fields(values, interval, build) {
        let a = validity_bytes(values);
        let b = u32s_bytes(rank_values(values, interval as int));
        lemma_added(build, "nullable.validity"@, a, 8, interval / 8);
        let first = added(build, "nullable.validity"@, a, 8, interval / 8)->Ok_0.0;
        lemma_added(first, "nullable.rank"@, b, 4, 64);
        let second = added(first, "nullable.rank"@, b, 4, 64)->Ok_0.0;
        lemma_placed(first, second, validity, a);
        lemma_extends(build, first, second);
        assert(next.plan.fields == second.plan.fields);
    }
}

// ----- nodes -----

/// A sound arena stays sound when it is extended.
proof fn lemma_arena_same(nodes: Seq<DecoderNode>, more: Seq<DecoderNode>, n: int)
    requires
        0 <= n <= nodes.len() <= more.len() <= usize::MAX,
        forall|i: int| 0 <= i < nodes.len() ==> more[i] == nodes[i],
        arena_error(nodes, n) is None,
    ensures
        arena_error(more, n) is None,
    decreases n,
{
    if n > 0 {
        lemma_arena_same(nodes, more, n - 1);
        lemma_arena(nodes, n);
        let node = nodes[n - 1];
        assert(more[n - 1] == node);
        if let Some(child) = child_of(node) {
            let c = child.0 as int;
            assert(child.0 < n - 1);
            assert(more[c] == nodes[c]);
            assert(children_first(nodes, c + 1));
            lemma_len_prefix(nodes, more, c);
        }
    }
}

/// The length of a node does not change when the arena is extended.
pub proof fn lemma_len_same(nodes: Seq<DecoderNode>, more: Seq<DecoderNode>, id: int)
    requires
        0 <= id < nodes.len() <= more.len() <= usize::MAX,
        forall|i: int| 0 <= i < nodes.len() ==> more[i] == nodes[i],
        arena_error(nodes, nodes.len() as int) is None,
    ensures
        node_len(more, more[id]) == node_len(nodes, nodes[id]),
{
    lemma_arena(nodes, nodes.len() as int);
    lemma_len_prefix(nodes, more, id);
}

/// A build whose decoder is sound, and whose last node has `rows` rows.
pub open spec fn coded_well(build: Build, next: Build, id: NodeId, rows: nat) -> bool {
    &&& extends(build, next)
    &&& numbered(next)
    &&& next.nodes.len() <= usize::MAX
    &&& next.nodes.len() > build.nodes.len()
    &&& id.0 == next.nodes.len() - 1
    &&& arena_error(next.nodes, next.nodes.len() as int) is None
    &&& node_len(next.nodes, next.nodes[id.0 as int]) == Ok::<usize, Error>(rows as usize)
}

/// A node on top of a sound decoder.
proof fn lemma_node_on(build: Build, mid: Build, child: NodeId, child_rows: nat, node: DecoderNode)
    requires
        coded_well(build, mid, child, child_rows),
        child_of(node) == Some(child),
        mid.nodes.len() + 1 <= usize::MAX,
        child_rows <= usize::MAX,
        match node {
            DecoderNode::BitUnpack { .. } => false,
            DecoderNode::Rle { runs, index_interval, .. } => runs > 0 && index_interval > 0 && runs
                == child_rows,
            DecoderNode::Dictionary { entries, .. } => entries > 0 && child_rows > 0,
            DecoderNode::Delta { restart_interval, len, .. } => restart_interval > 0 && len
                == child_rows,
            DecoderNode::For { .. } => child_rows > 0,
            DecoderNode::Patch { count, index_interval, .. } => count <= child_rows
                && index_interval > 0,
            DecoderNode::Nullable { logical_len, nonnull_len, rank_interval, .. } => logical_len > 0
                && nonnull_len <= logical_len && rank_interval > 0 && nonnull_len == child_rows,
        },
    ensures
        coded_well(
            build,
            with_node(mid, node).0,
            with_node(mid, node).1,
            match own_len(node) {
                Ok(len) => len as nat,
                Err(_) => child_rows,
            },
        ),
{
    let nodes = mid.nodes;
    let next = with_node(mid, node).0;
    let more = next.nodes;
    let n = nodes.len() as int;
    lemma_arena_same(nodes, more, n);
    lemma_len_same(nodes, more, child.0 as int);
    assert(more[n] == node);
    assert(more[child.0 as int] == nodes[child.0 as int]);
    assert(node_error(more, n as usize) is None);
    lemma_extends(build, mid, next);
    lemma_arena(more, n + 1);
    if own_len(node) is Err {
        lemma_len_steps(more, child.0 as int, more.len(), (more.len() - 1) as nat);
    }
}

proof fn lemma_leaf(build: Build, mid: Build, node: DecoderNode)
    requires
        prepared(build, mid),
        node is BitUnpack,
        arena_error(mid.nodes, mid.nodes.len() as int) is None,
        mid.nodes.len() + 1 <= usize::MAX,
        node->width <= 64,
        node->miniblock_rows > 0,
        node->miniblock_bytes > 0,
    ensures
        coded_well(
            build,
            with_node(mid, node).0,
            with_node(mid, node).1,
            node->BitUnpack_len as nat,
        ),
{
    let nodes = mid.nodes;
    let next = with_node(mid, node).0;
    let more = next.nodes;
    let n = nodes.len() as int;
    lemma_arena_same(nodes, more, n);
    assert(more[n] == node);
    assert(node_error(more, n as usize) is None);
    lemma_extends(build, mid, next);
}

proof fn lemma_greatest(values: Seq<int>, n: int)
    requires
        0 <= n <= values.len(),
        forall|i: int| 0 <= i < values.len() ==> fits_u64(#[trigger] values[i]),
    ensures
        0 <= greatest(values, n) <= u64::MAX,
        forall|i: int| 0 <= i < n ==> #[trigger] values[i] <= greatest(values, n),
    decreases n,
{
    if n > 0 {
        lemma_greatest(values, n - 1);
        assert(fits_u64(values[n - 1]));
    }
}

/// The width of packed numbers is at most 64, and every number is below its power
/// of two.
pub proof fn lemma_packed_width(values: Seq<int>)
    requires
        forall|i: int| 0 <= i < values.len() ==> fits_u64(#[trigger] values[i]),
    ensures
        packed_width(values) <= 64,
        forall|i: int|
            0 <= i < values.len() ==> #[trigger] values[i] < vstd::arithmetic::power2::pow2(
                packed_width(values),
            ),
{
    lemma_greatest(values, values.len() as int);
    let top = greatest(values, values.len() as int) as nat;
    vstd::arithmetic::power2::lemma2_to64_rest();
    lemma_width_bound(top, 64);
    super::encode::lemma_width_holds(top);
}

pub proof fn lemma_coded_bits(values: Seq<int>, build: Build)
    requires
        numbered(build),
        arena_error(build.nodes, build.nodes.len() as int) is None,
        values.len() <= usize::MAX,
        coded_bits(values, build) is Ok,
        coded_bits(values, build)->Ok_0.0.nodes.len() <= usize::MAX,
    ensures
        ({
            let (next, id) = coded_bits(values, build)->Ok_0;
            &&& coded_well(build, next, id, values.len())
            &&& forall|i: int| 0 <= i < values.len() ==> fits_u64(#[trigger] values[i])
            &&& next.nodes[id.0 as int] matches DecoderNode::BitUnpack {
                stream,
                width,
                len,
                miniblock_rows,
                miniblock_bytes,
            } && placed(next, stream, stream_bytes(values, packed_width(values))) && width
                == packed_width(values) && miniblock_rows == MINIBLOCK_ROWS && miniblock_bytes
                == miniblock_size(packed_width(values)) && len == values.len()
        }),
{
    let width = packed_width(values);
    let size = miniblock_size(width);
    lemma_packed_width(values);
    lemma_added(build, "bitpack.miniblocks"@, stream_bytes(values, width), 64, size as usize);
    let (mid, stream) = added(
        build,
        "bitpack.miniblocks"@,
        stream_bytes(values, width),
        64,
        size as usize,
    )->Ok_0;
    let node = DecoderNode::BitUnpack {
        stream,
        width: width as u8,
        len: values.len() as usize,
        miniblock_rows: MINIBLOCK_ROWS,
        miniblock_bytes: size as usize,
    };
    lemma_leaf(build, mid, node);
}

pub proof fn lemma_framed(build: Build, start: int)
    requires
        framed(build, start) is Ok,
    ensures
        extends(build, framed(build, start)->Ok_0),
        framed(build, start)->Ok_0.nodes == build.nodes,
        framed(build, start)->Ok_0.plan.fields.len() == build.plan.fields.len(),
{
}

// ----- dictionaries -----

/// A dictionary with one more value.
spec fn dictionary_with(d: Seq<int>, v: int) -> Seq<int>
    decreases d.len(),
{
    if d.len() == 0 || d.last() < v {
        d.push(v)
    } else if d.last() == v {
        d
    } else {
        dictionary_with(d.drop_last(), v).push(d.last())
    }
}

proof fn lemma_dictionary_with(d: Seq<int>, v: int)
    requires
        ascending(d),
    ensures
        ascending(dictionary_with(d, v)),
        dictionary_with(d, v).len() <= d.len() + 1,
        forall|x: int| #[trigger] dictionary_with(d, v).contains(x) == (d.contains(x) || x == v),
    decreases d.len(),
{
    let e = dictionary_with(d, v);
    if d.len() == 0 || d.last() < v {
        assert forall|i: int, j: int| 0 <= i < j < e.len() implies #[trigger] e[i]
            < #[trigger] e[j] by {
            if j == e.len() - 1 && i < d.len() - 1 {
                assert(d[i] < d[d.len() - 1]);
            }
        }
        assert forall|x: int| #[trigger] e.contains(x) == (d.contains(x) || x == v) by {
            vstd::seq_lib::lemma_seq_contains_after_push(d, v, x);
        }
    } else if d.last() == v {
        assert(d[d.len() - 1] == v);
    } else {
        let rest = d.drop_last();
        let inner = dictionary_with(rest, v);
        lemma_dictionary_with(rest, v);
        assert(d =~= rest.push(d.last()));
        assert forall|x: int| inner.contains(x) implies x < d.last() by {
            if rest.contains(x) {
                let k = choose|k: int| 0 <= k < rest.len() && rest[k] == x;
                assert(d[k] < d[d.len() - 1]);
            }
        }
        assert forall|i: int, j: int| 0 <= i < j < e.len() implies #[trigger] e[i]
            < #[trigger] e[j] by {
            if j == e.len() - 1 {
                assert(inner[i] == e[i]);
                assert(inner.contains(e[i]));
            } else {
                assert(inner[i] < inner[j]);
            }
        }
        assert forall|x: int| #[trigger] e.contains(x) == (d.contains(x) || x == v) by {
            vstd::seq_lib::lemma_seq_contains_after_push(inner, d.last(), x);
            vstd::seq_lib::lemma_seq_contains_after_push(rest, d.last(), x);
            assert(inner.contains(x) == (rest.contains(x) || x == v));
        }
    }
}

proof fn lemma_some_dictionary(values: Seq<int>) -> (d: Seq<int>)
    ensures
        is_dictionary(d, values),
        d.len() <= values.len(),
    decreases values.len(),
{
    if values.len() == 0 {
        let d = Seq::<int>::empty();
        assert(is_dictionary(d, values));
        d
    } else {
        let rest = values.drop_last();
        let before = lemma_some_dictionary(rest);
        let d = dictionary_with(before, values.last());
        lemma_dictionary_with(before, values.last());
        assert(values =~= rest.push(values.last()));
        assert forall|x: int| #[trigger] d.contains(x) == values.contains(x) by {
            vstd::seq_lib::lemma_seq_contains_after_push(rest, values.last(), x);
            assert(before.contains(x) == rest.contains(x));
        }
        d
    }
}

/// Every list has a dictionary.
pub proof fn lemma_dictionary_holds(values: Seq<int>)
    ensures
        is_dictionary(dictionary_of(values), values),
        dictionary_of(values).len() <= values.len(),
        values.len() > 0 ==> dictionary_of(values).len() > 0,
{
    let d = lemma_some_dictionary(values);
    lemma_dictionary(d, values);
    assert(is_dictionary(dictionary_of(values), values));
    if values.len() > 0 {
        assert(values.contains(values[0]));
        assert(dictionary_of(values).contains(values[0]));
    }
}

// ----- recipes -----

/// The number of nodes only grows.
pub proof fn lemma_nodes_grow(recipe: Recipe, values: Seq<int>, patched: Seq<bool>, build: Build)
    requires
        coded_dense(recipe, values, patched, build) is Ok,
    ensures
        coded_dense(recipe, values, patched, build)->Ok_0.0.nodes.len() > build.nodes.len(),
    decreases recipe,
{
    match recipe {
        Recipe::BitPack => {},
        Recipe::Rle { index_interval, values: child } => {
            let mid = rle_fields(values, index_interval, build)->Ok_0.0;
            lemma_nodes_grow(*child, run_values(values), unpatched(all_runs(values).len()), mid);
        },
        Recipe::Dictionary(child) => {
            let mid = dictionary_fields(values, build)->Ok_0.0;
            lemma_nodes_grow(*child, dictionary_ids(values), patched, mid);
        },
        Recipe::Delta { restart_interval, deltas } => {
            let mid = delta_fields(values, restart_interval, DeltaCoding::ZigZag, build)->Ok_0.0;
            lemma_nodes_grow(
                *deltas,
                delta_codes(values, restart_interval as int, DeltaCoding::ZigZag),
                patched,
                mid,
            );
        },
        Recipe::UnsignedDelta { restart_interval, deltas } => {
            let mid = delta_fields(values, restart_interval, DeltaCoding::Unsigned, build)->Ok_0.0;
            lemma_nodes_grow(
                *deltas,
                delta_codes(values, restart_interval as int, DeltaCoding::Unsigned),
                patched,
                mid,
            );
        },
        Recipe::For(child) => {
            let mid = for_fields(values, build)->Ok_0.0;
            lemma_nodes_grow(*child, offsets(values), patched, mid);
        },
        Recipe::Patch { index_interval, values: child } => {
            let mid = patch_fields(values, patched, index_interval, build)->Ok_0.0;
            lemma_nodes_grow(
                *child,
                regular_values(values, patched),
                unpatched(values.len()),
                mid,
            );
        },
        Recipe::Nullable { .. } => {},
        Recipe::Frame(child) => {
            lemma_nodes_grow(*child, values, patched, build);
            let mid = coded_dense(*child, values, patched, build)->Ok_0.0;
            lemma_framed(mid, build.plan.fields.len() as int);
        },
    }
}

/// Values can be coded on top of a sound decoder.
pub open spec fn codable(values: Seq<int>, patched: Seq<bool>, build: Build) -> bool {
    &&& numbered(build)
    &&& arena_error(build.nodes, build.nodes.len() as int) is None
    &&& 0 < values.len() <= usize::MAX
    &&& patched.len() == values.len()
}

/// A recipe makes a sound decoder with a row for each value.
pub proof fn law_recipes_make_sound_decoders(
    recipe: Recipe,
    values: Seq<int>,
    patched: Seq<bool>,
    build: Build,
)
    requires
        codable(values, patched, build),
        coded_dense(recipe, values, patched, build) is Ok,
        coded_dense(recipe, values, patched, build)->Ok_0.0.nodes.len() <= usize::MAX,
    ensures
        coded_well(
            build,
            coded_dense(recipe, values, patched, build)->Ok_0.0,
            coded_dense(recipe, values, patched, build)->Ok_0.1,
            values.len(),
        ),
    decreases recipe, 0int,
{
    match recipe {
        Recipe::BitPack => {
            lemma_coded_bits(values, build);
        },
        Recipe::Rle { index_interval, values: child } => {
            lemma_rle_fields(values, index_interval, build);
            lemma_runs_total(values, values.len() as int);
            let (mid, lengths, index) = rle_fields(values, index_interval, build)->Ok_0;
            let list = run_values(values);
            let marks = unpatched(all_runs(values).len());
            lemma_nodes_grow(*child, list, marks, mid);
            law_recipes_make_sound_decoders(*child, list, marks, mid);
            let (next, id) = coded_dense(*child, list, marks, mid)->Ok_0;
            lemma_extends(build, mid, next);
            lemma_node_on(
                build,
                next,
                id,
                list.len(),
                DecoderNode::Rle {
                    values: id,
                    run_lengths: lengths,
                    run_index: index,
                    len: values.len() as usize,
                    runs: all_runs(values).len() as usize,
                    index_interval,
                },
            );
        },
        Recipe::Dictionary(child) => {
            lemma_dictionary_fields(values, build);
            lemma_dictionary_holds(values);
            let (mid, dictionary) = dictionary_fields(values, build)->Ok_0;
            let list = dictionary_ids(values);
            lemma_nodes_grow(*child, list, patched, mid);
            law_recipes_make_sound_decoders(*child, list, patched, mid);
            let (next, id) = coded_dense(*child, list, patched, mid)->Ok_0;
            lemma_extends(build, mid, next);
            lemma_node_on(
                build,
                next,
                id,
                list.len(),
                DecoderNode::Dictionary {
                    ids: id,
                    dictionary,
                    entries: dictionary_of(values).len() as usize,
                    sorted_unique: true,
                },
            );
        },
        Recipe::Delta { restart_interval, deltas } => {
            lemma_delta_sound(
                *deltas,
                values,
                patched,
                build,
                restart_interval,
                DeltaCoding::ZigZag,
            );
        },
        Recipe::UnsignedDelta { restart_interval, deltas } => {
            lemma_delta_sound(
                *deltas,
                values,
                patched,
                build,
                restart_interval,
                DeltaCoding::Unsigned,
            );
        },
        Recipe::For(child) => {
            lemma_for_fields(values, build);
            let (mid, base) = for_fields(values, build)->Ok_0;
            let list = offsets(values);
            lemma_nodes_grow(*child, list, patched, mid);
            law_recipes_make_sound_decoders(*child, list, patched, mid);
            let (next, id) = coded_dense(*child, list, patched, mid)->Ok_0;
            lemma_extends(build, mid, next);
            lemma_node_on(build, next, id, list.len(), DecoderNode::For { base, values: id });
        },
        Recipe::Patch { index_interval, values: child } => {
            lemma_patch_fields(values, patched, index_interval, build);
            lemma_positions(patched, patched.len() as int);
            let (mid, positions, index, exceptions) = patch_fields(
                values,
                patched,
                index_interval,
                build,
            )->Ok_0;
            let list = regular_values(values, patched);
            let marks = unpatched(values.len());
            lemma_nodes_grow(*child, list, marks, mid);
            law_recipes_make_sound_decoders(*child, list, marks, mid);
            let (next, id) = coded_dense(*child, list, marks, mid)->Ok_0;
            lemma_extends(build, mid, next);
            lemma_node_on(
                build,
                next,
                id,
                list.len(),
                DecoderNode::Patch {
                    values: id,
                    positions,
                    position_index: index,
                    exceptions,
                    count: all_positions(patched).len() as usize,
                    index_interval,
                },
            );
        },
        Recipe::Nullable { .. } => {},
        Recipe::Frame(child) => {
            lemma_nodes_grow(*child, values, patched, build);
            let (mid, id) = coded_dense(*child, values, patched, build)->Ok_0;
            lemma_framed(mid, build.plan.fields.len() as int);
            law_recipes_make_sound_decoders(*child, values, patched, build);
            lemma_extends(build, mid, framed(mid, build.plan.fields.len() as int)->Ok_0);
        },
    }
}

proof fn lemma_delta_sound(
    child: Recipe,
    values: Seq<int>,
    patched: Seq<bool>,
    build: Build,
    interval: usize,
    coding: DeltaCoding,
)
    requires
        codable(values, patched, build),
        delta_fields(values, interval, coding, build) matches Ok((mid, restarts)) && coded_dense(
            child,
            delta_codes(values, interval as int, coding),
            patched,
            mid,
        ) matches Ok((next, id)) && delta_node(
            values.len() as usize,
            interval,
            coding,
            restarts,
            id,
            next,
        ) matches Ok((last, _)) && last.nodes.len() <= usize::MAX,
    ensures
        ({
            let (mid, restarts) = delta_fields(values, interval, coding, build)->Ok_0;
            let (next, id) = coded_dense(
                child,
                delta_codes(values, interval as int, coding),
                patched,
                mid,
            )->Ok_0;
            let (last, top) = delta_node(
                values.len() as usize,
                interval,
                coding,
                restarts,
                id,
                next,
            )->Ok_0;
            coded_well(build, last, top, values.len())
        }),
    decreases child, 1int,
{
    lemma_delta_fields(values, interval, coding, build);
    let (mid, restarts) = delta_fields(values, interval, coding, build)->Ok_0;
    let list = delta_codes(values, interval as int, coding);
    let (next, id) = coded_dense(child, list, patched, mid)->Ok_0;
    lemma_nodes_grow(child, list, patched, mid);
    law_recipes_make_sound_decoders(child, list, patched, mid);
    lemma_extends(build, mid, next);
    let node = DecoderNode::Delta {
        deltas: id,
        restarts,
        restart_interval: interval,
        len: values.len() as usize,
        coding,
    };
    match next.nodes[id.0 as int] {
        DecoderNode::BitUnpack { stream, miniblock_bytes, .. } => {
            let span = interval as int / MINIBLOCK_ROWS as int * miniblock_bytes;
            let rule = super::layout::DependencyRule::Restart {
                data: stream,
                restarts,
                data_bytes_per_restart: span as usize,
                bytes_per_restart: 8,
            };
            let ruled = with_rule(next, rule);
            lemma_with_rule(next, rule);
            lemma_extends(build, next, ruled);
            assert(coded_well(build, ruled, id, list.len()));
            lemma_node_on(build, ruled, id, list.len(), node);
        },
        _ => {
            lemma_node_on(build, next, id, list.len(), node);
        },
    }
}

/// A recipe makes a sound decoder with a row for each value or null.
pub proof fn law_columns_have_sound_decoders(
    recipe: Recipe,
    values: Seq<Option<int>>,
    patched: Seq<bool>,
    build: Build,
)
    requires
        numbered(build),
        arena_error(build.nodes, build.nodes.len() as int) is None,
        0 < values.len() <= usize::MAX,
        patched.len() == values.len(),
        coded(recipe, values, patched, build) is Ok,
        coded(recipe, values, patched, build)->Ok_0.0.nodes.len() <= usize::MAX,
    ensures
        coded_well(
            build,
            coded(recipe, values, patched, build)->Ok_0.0,
            coded(recipe, values, patched, build)->Ok_0.1,
            values.len(),
        ),
    decreases recipe,
{
    match recipe {
        Recipe::Frame(child) => {
            let (mid, id) = coded(*child, values, patched, build)->Ok_0;
            lemma_framed(mid, build.plan.fields.len() as int);
            law_columns_have_sound_decoders(*child, values, patched, build);
            lemma_extends(build, mid, framed(mid, build.plan.fields.len() as int)->Ok_0);
        },
        Recipe::Nullable { rank_interval, values: child } => {
            lemma_nullable_fields(values, rank_interval, build);
            let n = values.len() as int;
            let (mid, validity, ranks) = nullable_fields(values, rank_interval, build)->Ok_0;
            let list = compact(values, n);
            let marks = compact_marks(values, patched, n);
            lemma_compact_len(values, patched, n);
            let (next, id) = coded_dense(*child, list, marks, mid)->Ok_0;
            lemma_nodes_grow(*child, list, marks, mid);
            law_recipes_make_sound_decoders(*child, list, marks, mid);
            lemma_extends(build, mid, next);
            lemma_node_on(
                build,
                next,
                id,
                list.len(),
                DecoderNode::Nullable {
                    validity,
                    rank_index: ranks,
                    values: id,
                    logical_len: values.len() as usize,
                    nonnull_len: list.len() as usize,
                    rank_interval,
                },
            );
        },
        _ => {
            law_recipes_make_sound_decoders(recipe, dense_values(values)->Ok_0, patched, build);
        },
    }
}

} // verus!
