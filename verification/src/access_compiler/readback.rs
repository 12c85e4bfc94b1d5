//! The page of a column is read back as it was described.
#[allow(unused_imports)]
use super::builder::{
    empty_plan, location_frame, planned_field, planned_header, planned_layout, rule_parts,
};
#[allow(unused_imports)]
use super::coding::{
    added, all_runs, coded, coded_bits, coded_dense, compact, compact_marks, delta_codes,
    delta_fields, dense_values, dictionary_fields, dictionary_ids, exception_values, fits_u64,
    for_fields, framed, miniblock_size, nullable_fields, offsets, packed_width, patch_fields,
    position_index, position_values, regular_values, rle_fields, run_index, run_lengths, run_values,
    stream_bytes, unpatched, validity_bytes, Build, Recipe,
};
#[allow(unused_imports)]
use super::damage::law_damaged_headers_are_refused;
#[allow(unused_imports)]
use super::decoder::DeltaCoding;
#[allow(unused_imports)]
use super::encode::{encoding, marked, statements_of, widened, EncodedColumn};
#[allow(unused_imports)]
use super::error::Error;
#[allow(unused_imports)]
use super::format::parsed_page;
#[allow(unused_imports)]
use super::growth::lemma_packed_width;
#[allow(unused_imports)]
use super::invariants::CheckedInvariants;
#[allow(unused_imports)]
use super::layout::{dependency_valid, layout_error, lemma_fields_valid, Layout};
#[allow(unused_imports)]
use super::reparse::{
    describable, law_pages_read_back, lemma_counts_fit, lemma_page_starts, renamed,
};
use vstd::prelude::*;

verus! {

/// The intervals of a recipe that say how much of a field is read at once fit four
/// bytes: those of ranks, of which one byte holds eight rows.
pub open spec fn ranks_fit(recipe: Recipe) -> bool
    decreases recipe,
{
    match recipe {
        Recipe::BitPack => true,
        Recipe::Rle { values, .. } => ranks_fit(*values),
        Recipe::Dictionary(ids) => ranks_fit(*ids),
        Recipe::Delta { deltas, .. } => ranks_fit(*deltas),
        Recipe::UnsignedDelta { deltas, .. } => ranks_fit(*deltas),
        Recipe::For(values) => ranks_fit(*values),
        Recipe::Patch { values, .. } => ranks_fit(*values),
        Recipe::Nullable { rank_interval, values } => rank_interval / 8 <= u32::MAX && ranks_fit(
            *values,
        ),
        Recipe::Frame(values) => ranks_fit(*values),
    }
}

/// What the fields state in four bytes fits them.
pub open spec fn fields_fit(build: Build) -> bool {
    forall|i: int|
        0 <= i < build.plan.fields.len() ==> (#[trigger] build.plan.fields[i]).alignment
            <= u32::MAX && build.plan.fields[i].read_granularity <= u32::MAX
}

proof fn lemma_added_fits(
    build: Build,
    name: Seq<char>,
    bytes: Seq<u8>,
    alignment: usize,
    granularity: usize,
)
    requires
        fields_fit(build),
        alignment <= u32::MAX,
        granularity <= u32::MAX,
    ensures
        added(build, name, bytes, alignment, granularity) matches Ok((next, _)) ==> fields_fit(next),
{
    if let Ok((next, _)) = added(build, name, bytes, alignment, granularity) {
        let n = build.plan.fields.len() as int;
        assert forall|i: int| 0 <= i < next.plan.fields.len() implies (
        #[trigger] next.plan.fields[i]).alignment <= u32::MAX
            && next.plan.fields[i].read_granularity <= u32::MAX by {
            if i < n {
                assert(next.plan.fields[i] == build.plan.fields[i]);
            }
        }
    }
}

proof fn lemma_rle_fits(values: Seq<int>, interval: usize, build: Build)
    requires
        fields_fit(build),
    ensures
        rle_fields(values, interval, build) matches Ok((next, _, _)) ==> fields_fit(next),
{
    if let Ok(_) = rle_fields(values, interval, build) {
        let a = super::bytes::u32s_bytes(run_lengths(values));
        let b = super::bytes::u32s_bytes(run_index(values, interval as int));
        lemma_added_fits(build, "rle.lengths"@, a, 4, 128);
        let first = added(build, "rle.lengths"@, a, 4, 128)->Ok_0.0;
        lemma_added_fits(first, "rle.index"@, b, 8, 64);
    }
}

proof fn lemma_patch_fits(values: Seq<int>, patched: Seq<bool>, interval: usize, build: Build)
    requires
        fields_fit(build),
    ensures
        patch_fields(values, patched, interval, build) matches Ok((next, _, _, _)) ==> fields_fit(
            next,
        ),
{
    if let Ok(_) = patch_fields(values, patched, interval, build) {
        let a = super::bytes::u32s_bytes(position_values(patched));
        let b = super::bytes::u32s_bytes(position_index(patched, interval as int));
        let c = super::bytes::i64s_bytes(exception_values(values, patched));
        lemma_added_fits(build, "patch.positions"@, a, 4, 128);
        let first = added(build, "patch.positions"@, a, 4, 128)->Ok_0.0;
        lemma_added_fits(first, "patch.index"@, b, 8, 64);
        let second = added(first, "patch.index"@, b, 8, 64)->Ok_0.0;
        lemma_added_fits(second, "patch.exceptions"@, c, 8, 64);
    }
}

proof fn lemma_nullable_fits(values: Seq<Option<int>>, interval: usize, build: Build)
    requires
        fields_fit(build),
        interval / 8 <= u32::MAX,
    ensures
        nullable_fields(values, interval, build) matches Ok((next, _, _)) ==> fields_fit(next),
{
    if let Ok(_) = nullable_fields(values, interval, build) {
        let a = validity_bytes(values);
        let b = super::bytes::u32s_bytes(super::coding::rank_values(values, interval as int));
        lemma_added_fits(build, "nullable.validity"@, a, 8, interval / 8);
        let first = added(build, "nullable.validity"@, a, 8, interval / 8)->Ok_0.0;
        lemma_added_fits(first, "nullable.rank"@, b, 4, 64);
    }
}

proof fn lemma_delta_fits(values: Seq<int>, interval: usize, coding: DeltaCoding, build: Build)
    requires
        fields_fit(build),
    ensures
        delta_fields(values, interval, coding, build) matches Ok((next, _)) ==> fields_fit(next),
{
    let restarts = super::coding::restart_values(values, interval as int);
    lemma_added_fits(build, "delta.restarts"@, super::bytes::i64s_bytes(restarts), 8, 64);
}

proof fn lemma_framed_fits(build: Build, start: int)
    requires
        fields_fit(build),
    ensures
        framed(build, start) matches Ok(next) ==> fields_fit(next),
{
    if let Ok(next) = framed(build, start) {
        assert forall|i: int| 0 <= i < next.plan.fields.len() implies (
        #[trigger] next.plan.fields[i]).alignment <= u32::MAX
            && next.plan.fields[i].read_granularity <= u32::MAX by {
            assert(build.plan.fields[i].alignment <= u32::MAX);
        }
    }
}

proof fn lemma_bits_fit(values: Seq<int>, build: Build)
    requires
        fields_fit(build),
    ensures
        coded_bits(values, build) matches Ok((next, _)) ==> fields_fit(next),
{
    if let Ok(_) = coded_bits(values, build) {
        let width = packed_width(values);
        assert forall|i: int| 0 <= i < values.len() implies fits_u64(#[trigger] values[i]) by {}
        lemma_packed_width(values);
        let size = miniblock_size(width);
        lemma_added_fits(
            build,
            "bitpack.miniblocks"@,
            stream_bytes(values, width),
            64,
            size as usize,
        );
    }
}

proof fn lemma_dense_fits(recipe: Recipe, values: Seq<int>, patched: Seq<bool>, build: Build)
    requires
        fields_fit(build),
    ensures
        coded_dense(recipe, values, patched, build) matches Ok((next, _)) ==> fields_fit(next),
    decreases recipe,
{
    if let Ok(_) = coded_dense(recipe, values, patched, build) {
        match recipe {
            Recipe::BitPack => {
                lemma_bits_fit(values, build);
            },
            Recipe::Rle { index_interval, values: child } => {
                lemma_rle_fits(values, index_interval, build);
                let mid = rle_fields(values, index_interval, build)->Ok_0.0;
                lemma_dense_fits(
                    *child,
                    run_values(values),
                    unpatched(all_runs(values).len()),
                    mid,
                );
            },
            Recipe::Dictionary(child) => {
                let listed = super::coding::narrowed(super::coding::dictionary_of(values));
                lemma_added_fits(
                    build,
                    "dictionary.values"@,
                    super::bytes::i64s_bytes(listed),
                    8,
                    64,
                );
                let mid = dictionary_fields(values, build)->Ok_0.0;
                lemma_dense_fits(*child, dictionary_ids(values), patched, mid);
            },
            Recipe::Delta { restart_interval, deltas } => {
                lemma_delta_fits(values, restart_interval, DeltaCoding::ZigZag, build);
                let mid = delta_fields(values, restart_interval, DeltaCoding::ZigZag, build)->Ok_0.0;
                let codes = delta_codes(values, restart_interval as int, DeltaCoding::ZigZag);
                lemma_dense_fits(*deltas, codes, patched, mid);
            },
            Recipe::UnsignedDelta { restart_interval, deltas } => {
                lemma_delta_fits(values, restart_interval, DeltaCoding::Unsigned, build);
                let mid = delta_fields(
                    values,
                    restart_interval,
                    DeltaCoding::Unsigned,
                    build,
                )->Ok_0.0;
                let codes = delta_codes(values, restart_interval as int, DeltaCoding::Unsigned);
                lemma_dense_fits(*deltas, codes, patched, mid);
            },
            Recipe::For(child) => {
                let base = super::coding::least(values, values.len() as int);
                lemma_added_fits(
                    build,
                    "for.base"@,
                    super::bytes::i64s_bytes(seq![base as i64]),
                    8,
                    8,
                );
                let mid = for_fields(values, build)->Ok_0.0;
                lemma_dense_fits(*child, offsets(values), patched, mid);
            },
            Recipe::Patch { index_interval, values: child } => {
                lemma_patch_fits(values, patched, index_interval, build);
                let mid = patch_fields(values, patched, index_interval, build)->Ok_0.0;
                lemma_dense_fits(
                    *child,
                    regular_values(values, patched),
                    unpatched(values.len()),
                    mid,
                );
            },
            Recipe::Nullable { .. } => {},
            Recipe::Frame(child) => {
                lemma_dense_fits(*child, values, patched, build);
                let mid = coded_dense(*child, values, patched, build)->Ok_0.0;
                lemma_framed_fits(mid, build.plan.fields.len() as int);
            },
        }
    }
}

proof fn lemma_column_fits(
    recipe: Recipe,
    values: Seq<Option<int>>,
    patched: Seq<bool>,
    build: Build,
)
    requires
        fields_fit(build),
        ranks_fit(recipe),
    ensures
        coded(recipe, values, patched, build) matches Ok((next, _)) ==> fields_fit(next),
    decreases recipe,
{
    if let Ok(_) = coded(recipe, values, patched, build) {
        match recipe {
            Recipe::Frame(child) => {
                lemma_column_fits(*child, values, patched, build);
                let mid = coded(*child, values, patched, build)->Ok_0.0;
                lemma_framed_fits(mid, build.plan.fields.len() as int);
            },
            Recipe::Nullable { rank_interval, values: child } => {
                lemma_nullable_fits(values, rank_interval, build);
                let mid = nullable_fields(values, rank_interval, build)->Ok_0.0;
                let n = values.len() as int;
                lemma_dense_fits(
                    *child,
                    compact(values, n),
                    compact_marks(values, patched, n),
                    mid,
                );
            },
            _ => {
                lemma_dense_fits(recipe, dense_values(values)->Ok_0, patched, build);
            },
        }
    }
}

/// A header has room for every number of a column's layout, unless the recipe reads
/// more validity at once than four bytes can say.
pub proof fn law_columns_are_describable(
    column: EncodedColumn,
    recipe: Recipe,
    values: Seq<Option<i64>>,
    patch_rows: Set<usize>,
)
    requires
        column.encodes(recipe, values, patch_rows),
        ranks_fit(recipe),
    ensures
        describable(column.page.plan()),
{
    let (build, root) = encoding(recipe, values, patch_rows)->Ok_0;
    let header = planned_header(build.plan)->Ok_0;
    let layout = planned_layout(build.plan, header);
    let start = Build { plan: empty_plan(statements_of(values)), nodes: Seq::empty() };
    lemma_counts_fit(build.plan, header);
    assert(fields_fit(start));
    lemma_column_fits(recipe, widened(values), marked(values.len(), patch_rows), start);
    assert(layout_error(layout) is None);
    assert forall|i: int| 0 <= i < layout.fields.len() implies (
    #[trigger] layout.fields[i]).alignment <= u32::MAX && layout.fields[i].read_granularity
        <= u32::MAX && location_frame(layout.fields[i].location) <= u32::MAX by {
        assert(layout.fields[i] == planned_field(build.plan.fields, header, i));
        assert(build.plan.fields[i].alignment <= u32::MAX);
        lemma_fields_valid(layout, i, layout.fields.len() as int);
    }
    assert forall|i: int| 0 <= i < layout.dependencies.len() implies rule_parts(
        #[trigger] layout.dependencies[i],
    ).1.0 <= u32::MAX && rule_parts(layout.dependencies[i]).2.0 <= u32::MAX by {
        assert(dependency_valid(layout.fields.len() as int, layout.dependencies[i]));
    }
}

/// The page of a column is read back: it has the layout that the column was encoded
/// with, but for the names of the fields, and states the same about the values.
pub proof fn law_columns_read_back(
    column: EncodedColumn,
    recipe: Recipe,
    values: Seq<Option<i64>>,
    patch_rows: Set<usize>,
)
    requires
        column.encodes(recipe, values, patch_rows),
        describable(column.page.plan()),
    ensures
        parsed_page(column.page.image()) == Ok::<(Layout, CheckedInvariants), Error>(
            (renamed(column.page.plan()), column.page.stated()),
        ),
{
    let (build, root) = encoding(recipe, values, patch_rows)->Ok_0;
    let header = planned_header(build.plan)->Ok_0;
    lemma_counts_fit(build.plan, header);
    law_pages_read_back(build.plan, header);
}

/// One changed byte of a column's header, behind its counts and its length, is
/// noticed when the page is read.
pub proof fn law_damaged_columns_are_refused(
    column: EncodedColumn,
    recipe: Recipe,
    values: Seq<Option<i64>>,
    patch_rows: Set<usize>,
    i: int,
    byte: u8,
)
    requires
        column.encodes(recipe, values, patch_rows),
        32 <= i < column.page.plan().fields[0].length,
        byte != column.page.image()[i],
    ensures
        parsed_page(column.page.image().update(i, byte)) is Err,
{
    let (build, root) = encoding(recipe, values, patch_rows)->Ok_0;
    let header = planned_header(build.plan)->Ok_0;
    lemma_counts_fit(build.plan, header);
    lemma_page_starts(build.plan, header);
    law_damaged_headers_are_refused(column.page.image(), i, byte);
}

} // verus!
