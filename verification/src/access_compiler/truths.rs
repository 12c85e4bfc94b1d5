//! What is proved about a column from its decoder and its descriptor is true of
//! its values.
#[allow(unused_imports)]
use super::builder::empty_plan;
#[allow(unused_imports)]
use super::coding::{
    all_runs, coded, coded_dense, compact, compact_marks, delta_codes, delta_fault, delta_fields,
    delta_row_fault, dense_values, dictionary_fields, dictionary_ids, dictionary_of, for_fields,
    nullable_fields, offsets, patch_fields, regular_values, rle_fields, run_values, runs, unpatched,
    Build, Recipe,
};
#[allow(unused_imports)]
use super::compiler::column_facts;
#[allow(unused_imports)]
use super::decoder::{arena_error, child_of, children_first, lemma_arena, DecoderNode, DeltaCoding};
#[allow(unused_imports)]
use super::encode::{
    encoding, lemma_compact_len, lemma_runs_total, marked, placement_of, present_in, statements_of,
    values_rise, widened, EncodedColumn,
};
#[allow(unused_imports)]
use super::growth::{
    codable, law_columns_have_sound_decoders, law_recipes_make_sound_decoders,
    lemma_dictionary_fields, lemma_dictionary_holds, lemma_for_fields, lemma_framed,
    lemma_nodes_grow, lemma_nullable_fields, lemma_packed_width, lemma_rle_fields, numbered,
};
#[allow(unused_imports)]
use super::ids::NodeId;
#[allow(unused_imports)]
use super::invariants::{
    arena_facts, descriptor_facts, frame_facts, monotone, structural_facts, Fact, FactScope,
    NullPlacement, Property, ValueInvariant,
};
#[allow(unused_imports)]
use super::layout::{lemma_floor, lemma_quotient};
#[allow(unused_imports)]
use super::reparse::law_statements_survive;
#[allow(unused_imports)]
use super::restore::lemma_compact_at;
#[allow(unused_imports)]
use vstd::arithmetic::power2::pow2;
use vstd::prelude::*;

verus! {

/// No number is less than one before it.
pub open spec fn rising(values: Seq<int>) -> bool {
    forall|i: int, j: int| 0 <= i <= j < values.len() ==> #[trigger] values[i] <= #[trigger] values[j]
}

/// No number is less than one before it in the same block of rows.
pub open spec fn rising_in_blocks(values: Seq<int>, rows: int) -> bool {
    forall|i: int, j: int|
        0 <= i <= j < values.len() && i / rows == j / rows ==> #[trigger] values[i]
            <= #[trigger] values[j]
}

// ----- decoders that rise -----

/// Nodes that are added do not change whether a node rises.
proof fn lemma_monotone_same(a: Seq<DecoderNode>, b: Seq<DecoderNode>, id: int)
    requires
        children_first(a, a.len() as int),
        a.len() <= b.len(),
        forall|i: int| 0 <= i < a.len() ==> #[trigger] b[i] == a[i],
        0 <= id < a.len(),
    ensures
        monotone(a, id) == monotone(b, id),
    decreases id,
{
    assert(b[id] == a[id]);
    if let Some(child) = child_of(a[id]) {
        assert(child.0 < id);
        assert(b[child.0 as int] == a[child.0 as int]);
        lemma_monotone_same(a, b, child.0 as int);
    }
}

proof fn lemma_offsets_rise(values: Seq<int>)
    requires
        rising(offsets(values)),
    ensures
        rising(values),
{
    let list = offsets(values);
    assert forall|i: int, j: int| 0 <= i <= j < values.len() implies #[trigger] values[i]
        <= #[trigger] values[j] by {
        assert(list[i] <= list[j]);
    }
}

proof fn lemma_dictionary_rises(values: Seq<int>)
    requires
        rising(dictionary_ids(values)),
    ensures
        rising(values),
{
    let d = dictionary_of(values);
    let ids = dictionary_ids(values);
    lemma_dictionary_holds(values);
    assert forall|i: int, j: int| 0 <= i <= j < values.len() implies #[trigger] values[i]
        <= #[trigger] values[j] by {
        assert(values.contains(values[i]) && values.contains(values[j]));
        assert(d.contains(values[i]) && d.contains(values[j]));
        assert(ids[i] <= ids[j]);
    }
}

proof fn lemma_runs_rise(values: Seq<int>, n: int)
    requires
        0 <= n <= values.len(),
        forall|i: int, j: int|
            0 <= i <= j < runs(values, n).len() ==> (#[trigger] runs(values, n)[i]).0 <= (
            #[trigger] runs(values, n)[j]).0,
    ensures
        rising(values.take(n)),
    decreases n,
{
    if n > 0 {
        let all = runs(values, n);
        let before = runs(values, n - 1);
        assert forall|i: int, j: int| 0 <= i <= j < before.len() implies (#[trigger] before[i]).0 <= (
        #[trigger] before[j]).0 by {
            assert(all[i].0 == before[i].0 && all[j].0 == before[j].0);
        }
        lemma_runs_rise(values, n - 1);
        let rows = values.take(n);
        let less = values.take(n - 1);
        assert forall|i: int, j: int| 0 <= i <= j < n implies #[trigger] rows[i] <= #[trigger] rows[j] by {
            if j < n - 1 {
                assert(less[i] <= less[j]);
            } else if i < n - 1 {
                assert(less[i] <= less[n - 2]);
                assert(before.len() > 0) by {
                    lemma_runs_total(values, n - 1);
                }
                assert(before.last().0 == values[n - 2]);
                assert(all[before.len() - 1].0 == before[before.len() - 1].0);
                assert(all[before.len() - 1].0 <= all[all.len() - 1].0);
            }
        }
    }
}

proof fn lemma_differences_rise(values: Seq<int>, interval: int, i: int, j: int)
    requires
        interval > 0,
        delta_fault(values, interval, DeltaCoding::Unsigned, values.len() as int) is None,
        0 <= i <= j < values.len(),
        i / interval == j / interval,
    ensures
        values[i] <= values[j],
    decreases j - i,
{
    if i < j {
        let block = i / interval;
        lemma_floor(i, interval);
        lemma_floor(j, interval);
        lemma_quotient(j - 1, block, interval);
        lemma_quotient(j, block, interval);
        vstd::arithmetic::div_mod::lemma_fundamental_div_mod(j, interval);
        vstd::arithmetic::mul::lemma_mul_is_commutative(interval, block);
        lemma_differences_rise(values, interval, i, j - 1);
        lemma_row_clean(values, interval, values.len() as int, j);
    }
}

proof fn lemma_row_clean(values: Seq<int>, interval: int, n: int, row: int)
    requires
        0 <= row < n,
        delta_fault(values, interval, DeltaCoding::Unsigned, n) is None,
    ensures
        delta_row_fault(values, interval, DeltaCoding::Unsigned, row) is None,
    decreases n,
{
    if row < n - 1 {
        lemma_row_clean(values, interval, n - 1, row);
    }
}

/// Where the structure of the top node says that it rises, the values that it was
/// made of do.
#[verifier::rlimit(60)]
#[verifier::spinoff_prover]
proof fn lemma_structure_rises(recipe: Recipe, values: Seq<int>, patched: Seq<bool>, build: Build)
    requires
        codable(values, patched, build),
        coded_dense(recipe, values, patched, build) is Ok,
        coded_dense(recipe, values, patched, build)->Ok_0.0.nodes.len() <= usize::MAX,
        monotone(
            coded_dense(recipe, values, patched, build)->Ok_0.0.nodes,
            coded_dense(recipe, values, patched, build)->Ok_0.1.0 as int,
        ),
    ensures
        rising(values),
    decreases recipe,
{
    let (last, top) = coded_dense(recipe, values, patched, build)->Ok_0;
    law_recipes_make_sound_decoders(recipe, values, patched, build);
    match recipe {
        Recipe::Rle { index_interval, values: child } => {
            lemma_rle_fields(values, index_interval, build);
            lemma_runs_total(values, values.len() as int);
            let (mid, lengths, index) = rle_fields(values, index_interval, build)->Ok_0;
            let list = run_values(values);
            let marks = unpatched(all_runs(values).len());
            let (next, id) = coded_dense(*child, list, marks, mid)->Ok_0;
            law_recipes_make_sound_decoders(*child, list, marks, mid);
            lemma_arena(next.nodes, next.nodes.len() as int);
            lemma_monotone_same(next.nodes, last.nodes, id.0 as int);
            lemma_structure_rises(*child, list, marks, mid);
            let all = all_runs(values);
            assert forall|i: int, j: int| 0 <= i <= j < all.len() implies (#[trigger] all[i]).0 <= (
            #[trigger] all[j]).0 by {
                assert(list[i] <= list[j]);
            }
            lemma_runs_rise(values, values.len() as int);
            assert(values.take(values.len() as int) =~= values);
        },
        Recipe::Dictionary(child) => {
            lemma_dictionary_fields(values, build);
            let (mid, dictionary) = dictionary_fields(values, build)->Ok_0;
            let list = dictionary_ids(values);
            let (next, id) = coded_dense(*child, list, patched, mid)->Ok_0;
            law_recipes_make_sound_decoders(*child, list, patched, mid);
            lemma_arena(next.nodes, next.nodes.len() as int);
            lemma_monotone_same(next.nodes, last.nodes, id.0 as int);
            lemma_structure_rises(*child, list, patched, mid);
            lemma_dictionary_rises(values);
        },
        Recipe::For(child) => {
            lemma_for_fields(values, build);
            let (mid, base) = for_fields(values, build)->Ok_0;
            let list = offsets(values);
            let (next, id) = coded_dense(*child, list, patched, mid)->Ok_0;
            law_recipes_make_sound_decoders(*child, list, patched, mid);
            lemma_arena(next.nodes, next.nodes.len() as int);
            lemma_monotone_same(next.nodes, last.nodes, id.0 as int);
            lemma_structure_rises(*child, list, patched, mid);
            lemma_offsets_rise(values);
        },
        Recipe::UnsignedDelta { restart_interval, deltas } => {
            let interval = restart_interval as int;
            assert forall|i: int, j: int| 0 <= i <= j < values.len() implies #[trigger] values[i]
                <= #[trigger] values[j] by {
                lemma_quotient(i, 0, interval);
                lemma_quotient(j, 0, interval);
                lemma_differences_rise(values, interval, i, j);
            }
        },
        Recipe::Frame(child) => {
            let (mid, id) = coded_dense(*child, values, patched, build)->Ok_0;
            lemma_framed(mid, build.plan.fields.len() as int);
            lemma_structure_rises(*child, values, patched, build);
        },
        _ => {},
    }
}

// ----- the descriptor -----

/// Coding values does not change what is stated about them.
proof fn lemma_stated_kept(recipe: Recipe, values: Seq<int>, patched: Seq<bool>, build: Build)
    requires
        coded_dense(recipe, values, patched, build) is Ok,
    ensures
        coded_dense(recipe, values, patched, build)->Ok_0.0.plan.stated == build.plan.stated,
    decreases recipe,
{
    match recipe {
        Recipe::BitPack => {},
        Recipe::Rle { index_interval, values: child } => {
            let mid = rle_fields(values, index_interval, build)->Ok_0.0;
            lemma_stated_kept(*child, run_values(values), unpatched(all_runs(values).len()), mid);
        },
        Recipe::Dictionary(child) => {
            let mid = dictionary_fields(values, build)->Ok_0.0;
            lemma_stated_kept(*child, dictionary_ids(values), patched, mid);
        },
        Recipe::Delta { restart_interval, deltas } => {
            let mid = delta_fields(values, restart_interval, DeltaCoding::ZigZag, build)->Ok_0.0;
            lemma_stated_kept(
                *deltas,
                delta_codes(values, restart_interval as int, DeltaCoding::ZigZag),
                patched,
                mid,
            );
        },
        Recipe::UnsignedDelta { restart_interval, deltas } => {
            let mid = delta_fields(values, restart_interval, DeltaCoding::Unsigned, build)->Ok_0.0;
            lemma_stated_kept(
                *deltas,
                delta_codes(values, restart_interval as int, DeltaCoding::Unsigned),
                patched,
                mid,
            );
        },
        Recipe::For(child) => {
            let mid = for_fields(values, build)->Ok_0.0;
            lemma_stated_kept(*child, offsets(values), patched, mid);
        },
        Recipe::Patch { index_interval, values: child } => {
            let mid = patch_fields(values, patched, index_interval, build)->Ok_0.0;
            lemma_stated_kept(
                *child,
                regular_values(values, patched),
                unpatched(values.len()),
                mid,
            );
        },
        Recipe::Nullable { .. } => {},
        Recipe::Frame(child) => {
            lemma_stated_kept(*child, values, patched, build);
        },
    }
}

proof fn lemma_column_stated(
    recipe: Recipe,
    values: Seq<Option<int>>,
    patched: Seq<bool>,
    build: Build,
)
    requires
        coded(recipe, values, patched, build) is Ok,
    ensures
        coded(recipe, values, patched, build)->Ok_0.0.plan.stated == build.plan.stated,
    decreases recipe,
{
    match recipe {
        Recipe::Frame(child) => {
            lemma_column_stated(*child, values, patched, build);
        },
        Recipe::Nullable { rank_interval, values: child } => {
            let n = values.len() as int;
            let mid = nullable_fields(values, rank_interval, build)->Ok_0.0;
            lemma_stated_kept(*child, compact(values, n), compact_marks(values, patched, n), mid);
        },
        _ => {
            lemma_stated_kept(recipe, dense_values(values)->Ok_0, patched, build);
        },
    }
}

/// The page of an encoded column states of its values what is true of them.
pub proof fn law_pages_state_the_truth(
    column: EncodedColumn,
    recipe: Recipe,
    values: Seq<Option<i64>>,
    patch_rows: Set<usize>,
)
    requires
        column.encodes(recipe, values, patch_rows),
    ensures
        column.page.stated() == statements_of(values),
{
    let (build, root) = encoding(recipe, values, patch_rows)->Ok_0;
    let start = Build { plan: empty_plan(statements_of(values)), nodes: Seq::empty() };
    lemma_column_stated(recipe, widened(values), marked(values.len(), patch_rows), start);
    law_statements_survive(build.plan);
}

// ----- facts about the values -----

/// What a property of a column's values says of them. Properties of mappings and of
/// accesses say nothing of the values.
pub open spec fn true_of(values: Seq<Option<i64>>, scope: FactScope, property: Property) -> bool {
    match (scope, property) {
        (FactScope::AllRows, Property::Value(ValueInvariant::NonDecreasing)) => present_in(
            values,
            0,
            values.len() as int,
        ) && values_rise(values),
        (FactScope::NonNullRows, Property::Value(ValueInvariant::NonDecreasing)) => values_rise(
            values,
        ),
        (
            FactScope::AllRows,
            Property::Value(ValueInvariant::PiecewiseNonDecreasing { max_rows }),
        ) => present_in(values, 0, values.len() as int) && forall|i: int, j: int|
            0 <= i <= j < values.len() && i / max_rows as int == j / max_rows as int ==> (
            #[trigger] values[i])->0 <= (#[trigger] values[j])->0,
        (
            FactScope::AllRows,
            Property::Value(ValueInvariant::NullPlacement(placement)),
        ) => placement == placement_of(values),
        (FactScope::AllRows, Property::Value(ValueInvariant::UnsignedRange { width })) => forall|
            i: int,
        |
            0 <= i < values.len() ==> (#[trigger] values[i] matches Some(value) && 0 <= value
                < pow2(width as nat)),
        _ => true,
    }
}

/// The same of values none of which is null.
spec fn dense_true(values: Seq<int>, property: Property) -> bool {
    match property {
        Property::Value(ValueInvariant::NonDecreasing) => rising(values),
        Property::Value(ValueInvariant::PiecewiseNonDecreasing { max_rows }) => rising_in_blocks(
            values,
            max_rows as int,
        ),
        Property::Value(ValueInvariant::UnsignedRange { width }) => forall|i: int|
            0 <= i < values.len() ==> 0 <= #[trigger] values[i] < pow2(width as nat),
        Property::Value(ValueInvariant::NullPlacement(_)) => false,
        _ => true,
    }
}

/// A structural fact about the top node is true of the values that it was made of.
proof fn lemma_structure_true(
    recipe: Recipe,
    values: Seq<int>,
    patched: Seq<bool>,
    build: Build,
    f: Fact,
)
    requires
        codable(values, patched, build),
        coded_dense(recipe, values, patched, build) is Ok,
        coded_dense(recipe, values, patched, build)->Ok_0.0.nodes.len() <= usize::MAX,
        structural_facts(
            coded_dense(recipe, values, patched, build)->Ok_0.0.nodes,
            coded_dense(recipe, values, patched, build)->Ok_0.1.0 as int,
        ).contains(f),
    ensures
        dense_true(values, f.property),
        f.scope != FactScope::NonNullRows,
    decreases recipe,
{
    let (last, top) = coded_dense(recipe, values, patched, build)->Ok_0;
    law_recipes_make_sound_decoders(recipe, values, patched, build);
    let at = top.0 as int;
    match recipe {
        Recipe::BitPack => {
            lemma_packed_width(values);
        },
        Recipe::Rle { .. } => {
            if monotone(last.nodes, at) {
                lemma_structure_rises(recipe, values, patched, build);
            }
        },
        Recipe::Dictionary(child) => {
            if monotone(last.nodes, at) {
                lemma_structure_rises(recipe, values, patched, build);
            }
        },
        Recipe::For(child) => {
            if monotone(last.nodes, at) {
                lemma_structure_rises(recipe, values, patched, build);
            }
        },
        Recipe::UnsignedDelta { restart_interval, deltas } => {
            let interval = restart_interval as int;
            if monotone(last.nodes, at) {
                lemma_structure_rises(recipe, values, patched, build);
            }
            assert forall|i: int, j: int|
                0 <= i <= j < values.len() && i / interval == j / interval implies #[trigger] values[i]
                <= #[trigger] values[j] by {
                lemma_differences_rise(values, interval, i, j);
            }
        },
        Recipe::Frame(child) => {
            let (mid, id) = coded_dense(*child, values, patched, build)->Ok_0;
            lemma_framed(mid, build.plan.fields.len() as int);
            lemma_structure_true(*child, values, patched, build, f);
        },
        _ => {},
    }
}

proof fn lemma_fact_node(nodes: Seq<DecoderNode>, id: int, f: Fact)
    requires
        0 <= id < nodes.len() <= usize::MAX,
        structural_facts(nodes, id).contains(f),
    ensures
        f.node == NodeId(id as usize),
{
    match nodes[id] {
        DecoderNode::BitUnpack { .. } => {},
        DecoderNode::For { .. } => {},
        DecoderNode::Delta { .. } => {},
        DecoderNode::Dictionary { .. } => {},
        DecoderNode::Rle { .. } => {},
        DecoderNode::Patch { .. } => {},
        DecoderNode::Nullable { .. } => {},
    }
}

pub proof fn lemma_arena_fact(nodes: Seq<DecoderNode>, n: int, f: Fact)
    requires
        0 <= n <= nodes.len() <= usize::MAX,
        arena_facts(nodes, n).contains(f),
    ensures
        f.node.0 < n,
        structural_facts(nodes, f.node.0 as int).contains(f),
    decreases n,
{
    if n > 0 {
        if structural_facts(nodes, n - 1).contains(f) {
            lemma_fact_node(nodes, n - 1, f);
        } else {
            lemma_arena_fact(nodes, n - 1, f);
        }
    }
}

/// A structural fact about the top node of a column is true of the column.
proof fn lemma_column_true(
    recipe: Recipe,
    values: Seq<Option<i64>>,
    patched: Seq<bool>,
    build: Build,
    f: Fact,
)
    requires
        numbered(build),
        arena_error(build.nodes, build.nodes.len() as int) is None,
        0 < values.len() <= usize::MAX,
        patched.len() == values.len(),
        coded(recipe, widened(values), patched, build) is Ok,
        coded(recipe, widened(values), patched, build)->Ok_0.0.nodes.len() <= usize::MAX,
        structural_facts(
            coded(recipe, widened(values), patched, build)->Ok_0.0.nodes,
            coded(recipe, widened(values), patched, build)->Ok_0.1.0 as int,
        ).contains(f),
    ensures
        true_of(values, f.scope, f.property),
    decreases recipe,
{
    let wide = widened(values);
    let n = values.len() as int;
    let (last, top) = coded(recipe, wide, patched, build)->Ok_0;
    law_columns_have_sound_decoders(recipe, wide, patched, build);
    match recipe {
        Recipe::Frame(child) => {
            let (mid, id) = coded(*child, wide, patched, build)->Ok_0;
            lemma_framed(mid, build.plan.fields.len() as int);
            lemma_column_true(*child, values, patched, build, f);
        },
        Recipe::Nullable { rank_interval, values: child } => {
            lemma_nullable_fields(wide, rank_interval, build);
            let (mid, validity, ranks) = nullable_fields(wide, rank_interval, build)->Ok_0;
            let list = compact(wide, n);
            let marks = compact_marks(wide, patched, n);
            lemma_compact_len(wide, patched, n);
            let (next, id) = coded_dense(*child, list, marks, mid)->Ok_0;
            lemma_nodes_grow(*child, list, marks, mid);
            law_recipes_make_sound_decoders(*child, list, marks, mid);
            if monotone(last.nodes, id.0 as int) {
                lemma_arena(next.nodes, next.nodes.len() as int);
                lemma_monotone_same(next.nodes, last.nodes, id.0 as int);
                lemma_structure_rises(*child, list, marks, mid);
                lemma_compact_rises(values);
            }
        },
        _ => {
            let dense = dense_values(wide)->Ok_0;
            lemma_structure_true(recipe, dense, patched, build, f);
            lemma_dense_true(values, f);
        },
    }
}

proof fn lemma_compact_rises(values: Seq<Option<i64>>)
    requires
        rising(compact(widened(values), values.len() as int)),
    ensures
        values_rise(values),
{
    let wide = widened(values);
    let n = values.len() as int;
    let list = compact(wide, n);
    assert forall|i: int, j: int|
        0 <= i <= j < values.len() && (#[trigger] values[i]) is Some && (#[trigger] values[j]) is Some
        implies values[i]->0 <= values[j]->0 by {
        if i < j {
            assert(wide[i] is Some && wide[j] is Some);
            lemma_compact_at(wide, i, j);
            lemma_compact_at(wide, i, n);
            lemma_compact_at(wide, j, n);
            let a = compact(wide, i).len() as int;
            let b = compact(wide, j).len() as int;
            assert(list[a] <= list[b]);
        }
    }
}

proof fn lemma_dense_true(values: Seq<Option<i64>>, f: Fact)
    requires
        values.len() > 0,
        dense_values(widened(values)) is Ok,
        dense_true(dense_values(widened(values))->Ok_0, f.property),
        f.scope != FactScope::NonNullRows,
    ensures
        true_of(values, f.scope, f.property),
{
    let wide = widened(values);
    let dense = dense_values(wide)->Ok_0;
    assert forall|i: int| 0 <= i < values.len() implies (#[trigger] values[i]) is Some
        && values[i]->0 == dense[i] by {
        assert(wide[i] is Some);
        assert(dense[i] == wide[i]->0);
    }
    match f.property {
        Property::Value(ValueInvariant::NonDecreasing) => {
            assert forall|i: int, j: int|
                0 <= i <= j < values.len() && (#[trigger] values[i]) is Some && (#[trigger] values[j])
                    is Some implies values[i]->0 <= values[j]->0 by {
                assert(dense[i] <= dense[j]);
            }
        },
        Property::Value(ValueInvariant::PiecewiseNonDecreasing { max_rows }) => {
            assert forall|i: int, j: int|
                0 <= i <= j < values.len() && i / max_rows as int == j / max_rows as int implies (
            #[trigger] values[i])->0 <= (#[trigger] values[j])->0 by {
                assert(dense[i] <= dense[j]);
            }
        },
        Property::Value(ValueInvariant::UnsignedRange { width }) => {
            assert forall|i: int| 0 <= i < values.len() implies (#[trigger] values[i] matches Some(
                value,
            ) && 0 <= value < pow2(width as nat)) by {
                assert(0 <= dense[i] < pow2(width as nat));
            }
        },
        _ => {},
    }
}

/// Whatever is proved about the values of an encoded column, from the structure of
/// its decoder or from its descriptor, is true of the values that were encoded.
pub proof fn law_proved_facts_hold(
    column: EncodedColumn,
    recipe: Recipe,
    values: Seq<Option<i64>>,
    patch_rows: Set<usize>,
    f: Fact,
)
    requires
        column.encodes(recipe, values, patch_rows),
        values.len() <= usize::MAX,
        column_facts(column).contains(f),
        f.node == column.decoder.top(),
    ensures
        true_of(values, f.scope, f.property),
{
    let (build, root) = encoding(recipe, values, patch_rows)->Ok_0;
    let start = Build { plan: empty_plan(statements_of(values)), nodes: Seq::empty() };
    let nodes = column.decoder.arena();
    law_pages_state_the_truth(column, recipe, values, patch_rows);
    if arena_facts(nodes, nodes.len() as int).contains(f) {
        lemma_arena_fact(nodes, nodes.len() as int, f);
        lemma_column_true(recipe, values, marked(values.len(), patch_rows), start, f);
    } else if descriptor_facts(root, column.page.stated()).contains(f) {
    } else {
        assert(frame_facts(root, column.page.plan().frames).contains(f));
    }
}

} // verus!
