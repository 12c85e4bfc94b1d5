//! Queries on an encoded column are answered from the values that were encoded.
#[allow(unused_imports)]
use super::builder::{planned_field, planned_header};
#[allow(unused_imports)]
use super::bytes::u32s_bytes;
#[allow(unused_imports)]
use super::coding::{all_runs, dense_values, rows_before, run_lengths, run_values, runs, Recipe};
#[allow(unused_imports)]
use super::decoder::DecoderNode;
#[allow(unused_imports)]
use super::encode::{
    encoding, lemma_rows_before, lemma_runs_total, marked, widened, EncodedColumn,
};
#[allow(unused_imports)]
use super::error::Error;
#[allow(unused_imports)]
use super::execute::{
    answer_of, count_runs_answer, count_where, decoded_value, lemma_same_answer, listed, matching,
    query_error, rows_outcome, runs_outcome, scan_answer, scanned, Execution, Reply,
};
#[allow(unused_imports)]
use super::ids::{FieldId, NodeId};
#[allow(unused_imports)]
use super::interpreter::get_outcome;
#[allow(unused_imports)]
use super::plan::{Predicate, Query};
#[allow(unused_imports)]
use super::reparse::lemma_metadata_first;
#[allow(unused_imports)]
use super::restore::{lemma_read_u32, lemma_run_holds, stores};
#[allow(unused_imports)]
use super::roundtrip::{
    all_fit, by_runs, holds_runs, law_decodes_what_was_encoded, lemma_column_holds_runs, narrow_column,
    restores,
};
#[allow(unused_imports)]
use super::runtime::{page_context, read_bytes, ClosureMode, Context};
#[allow(unused_imports)]
use super::soundness::{agrees, lemma_column_tells_runs, tells};
#[allow(unused_imports)]
use super::support::metadata_outcome;
use vstd::prelude::*;

verus! {

/// The header of an encoded column can be read.
pub proof fn lemma_header_reads(
    column: EncodedColumn,
    recipe: Recipe,
    values: Seq<Option<i64>>,
    patch_rows: Set<usize>,
    mode: ClosureMode,
    accounted: bool,
)
    requires
        column.encodes(recipe, values, patch_rows),
    ensures
        metadata_outcome(page_context(&column.page, mode, accounted)).result == Ok::<(), Error>(()),
{
    let (build, root) = encoding(recipe, values, patch_rows)->Ok_0;
    let header = planned_header(build.plan)->Ok_0;
    let context = page_context(&column.page, mode, accounted);
    lemma_metadata_first(build.plan, header);
    let field = context.layout.fields[0];
    assert(field == planned_field(build.plan.fields, header, 0));
    assert(read_bytes(context, field.id, 0, field.length as int) is Ok);
}

/// Rows that decode one by one decode in sequence.
pub proof fn lemma_rows_decode(
    context: Context,
    nodes: Seq<DecoderNode>,
    id: int,
    from: int,
    to: int,
)
    requires
        forall|row: int|
            from <= row < to ==> (#[trigger] get_outcome(context, nodes, id, row)).result is Ok,
    ensures
        rows_outcome(context, nodes, id, from, to).result == Ok::<(), Error>(()),
    decreases to - from,
{
    if from < to {
        lemma_rows_decode(context, nodes, id, from, to - 1);
        assert(get_outcome(context, nodes, id, to - 1).result is Ok);
    }
}

/// Rows that decode in sequence decode one by one.
pub proof fn lemma_rows_each(
    context: Context,
    nodes: Seq<DecoderNode>,
    id: int,
    from: int,
    to: int,
    row: int,
)
    requires
        from <= row < to,
        rows_outcome(context, nodes, id, from, to).result is Ok,
    ensures
        get_outcome(context, nodes, id, row).result is Ok,
    decreases to - from,
{
    if row < to - 1 {
        lemma_rows_each(context, nodes, id, from, to - 1, row);
    }
}

/// Whichever rows of an encoded column are decoded to answer a valid query, and
/// whether its page is read in parts or as a whole, the answer is that of the
/// values that were encoded.
pub proof fn law_scans_answer_from_the_values(
    column: EncodedColumn,
    recipe: Recipe,
    values: Seq<Option<i64>>,
    patch_rows: Set<usize>,
    mode: ClosureMode,
    accounted: bool,
    query: Query,
    from: int,
    to: int,
)
    requires
        column.encodes(recipe, values, patch_rows),
        narrow_column(recipe, widened(values), marked(values.len(), patch_rows)),
        values.len() <= usize::MAX,
        query_error(values.len() as int, query) is None,
        0 <= from <= to <= values.len(),
    ensures
        scan_answer(
            page_context(&column.page, mode, accounted),
            column.decoder.arena(),
            column.decoder.top().0 as int,
            query,
            values.len() as int,
            from,
            to,
        ).result == Ok::<Reply, Error>(answer_of(query, values.len() as int, listed(values))),
{
    let context = page_context(&column.page, mode, accounted);
    let nodes = column.decoder.arena();
    let id = column.decoder.top().0 as int;
    let len = values.len() as int;
    let ours = decoded_value(context, nodes, id);
    lemma_header_reads(column, recipe, values, patch_rows, mode, accounted);
    assert forall|row: int| 0 <= row < len implies (#[trigger] get_outcome(
        context,
        nodes,
        id,
        row,
    )).result is Ok by {
        law_decodes_what_was_encoded(column, recipe, values, patch_rows, mode, accounted, row);
    }
    assert forall|row: int| 0 <= row < len implies #[trigger] ours(row) == listed(values)(row) by {
        law_decodes_what_was_encoded(column, recipe, values, patch_rows, mode, accounted, row);
    }
    lemma_rows_decode(context, nodes, id, from, to);
    lemma_same_answer(query, len, ours, listed(values));
}

/// Two executions of one query on an encoded column, each by any of the ways to
/// decode rows and in any closure mode, give the same answer.
pub proof fn law_executions_agree(
    column: EncodedColumn,
    recipe: Recipe,
    values: Seq<Option<i64>>,
    patch_rows: Set<usize>,
    query: Query,
    modes: (ClosureMode, ClosureMode),
    first: (int, int),
    second: (int, int),
    one: Execution,
    other: Execution,
)
    requires
        column.encodes(recipe, values, patch_rows),
        narrow_column(recipe, widened(values), marked(values.len(), patch_rows)),
        values.len() <= usize::MAX,
        0 <= first.0 <= first.1 <= values.len(),
        0 <= second.0 <= second.1 <= values.len(),
        scanned(Ok(one), column, query, modes.0, first.0, first.1),
        scanned(Ok(other), column, query, modes.1, second.0, second.1),
    ensures
        one.answer@ == other.answer@,
        one.answer@ == answer_of(query, values.len() as int, listed(values)),
{
    law_scans_answer_from_the_values(
        column,
        recipe,
        values,
        patch_rows,
        modes.0,
        true,
        query,
        first.0,
        first.1,
    );
    law_scans_answer_from_the_values(
        column,
        recipe,
        values,
        patch_rows,
        modes.1,
        true,
        query,
        second.0,
        second.1,
    );
}

// ----- counting by runs -----

/// The rows in the first `k` runs whose value is the target.
spec fn counted(list: Seq<(int, nat)>, target: int, k: int) -> nat
    decreases k,
{
    if k <= 0 {
        0
    } else {
        counted(list, target, k - 1) + if list[k - 1].0 == target {
            list[k - 1].1
        } else {
            0
        }
    }
}

proof fn lemma_counted_grows(list: Seq<(int, nat)>, target: int, j: int, k: int)
    requires
        0 <= j <= k,
    ensures
        counted(list, target, j) <= counted(list, target, k) <= counted(list, target, j)
            + rows_before(list, k) - rows_before(list, j),
    decreases k - j,
{
    if j < k {
        lemma_counted_grows(list, target, j, k - 1);
    }
}

/// Where `from..to` all hit or all miss, they count fully or not at all.
proof fn lemma_count_uniform(hit: spec_fn(int) -> bool, from: int, middle: int, to: int, all: bool)
    requires
        from <= middle <= to,
        forall|row: int| middle <= row < to ==> #[trigger] hit(row) == all,
    ensures
        count_where(hit, from, to) == count_where(hit, from, middle) + if all {
            to - middle
        } else {
            0
        },
    decreases to - middle,
{
    if middle < to {
        lemma_count_uniform(hit, from, middle, to - 1, all);
        assert(hit(to - 1) == all);
    }
}

/// The runs count what the rows count.
proof fn lemma_counted(values: Seq<int>, hit: spec_fn(int) -> bool, target: int, k: int)
    requires
        0 <= k <= all_runs(values).len(),
        forall|row: int| 0 <= row < values.len() ==> #[trigger] hit(row) == (values[row] == target),
    ensures
        counted(all_runs(values), target, k) == count_where(
            hit,
            0,
            rows_before(all_runs(values), k) as int,
        ),
    decreases k,
{
    if k > 0 {
        let list = all_runs(values);
        lemma_counted(values, hit, target, k - 1);
        let from = rows_before(list, k - 1) as int;
        let to = rows_before(list, k) as int;
        let all = list[k - 1].0 == target;
        assert forall|row: int| from <= row < to implies #[trigger] hit(row) == all by {
            lemma_run_holds(values, values.len() as int, k - 1, row);
        }
        lemma_count_uniform(hit, 0, from, to, all);
    }
}

proof fn lemma_runs_counted(
    context: Context,
    nodes: Seq<DecoderNode>,
    child: NodeId,
    lengths: FieldId,
    values: Seq<int>,
    target: i64,
    run: int,
    count: int,
)
    requires
        values.len() <= u32::MAX,
        all_fit(values),
        stores(context, lengths, u32s_bytes(run_lengths(values))),
        restores(context, nodes, child, run_values(values)),
        0 <= run <= all_runs(values).len(),
        count == counted(all_runs(values), target as int, run),
    ensures
        runs_outcome(
            context,
            nodes,
            child.0 as int,
            lengths,
            target,
            run,
            all_runs(values).len() as int,
            count,
        ).result == Ok::<int, Error>(
            counted(all_runs(values), target as int, all_runs(values).len() as int) as int,
        ),
    decreases all_runs(values).len() - run,
{
    let list = all_runs(values);
    let n = list.len() as int;
    if run < n {
        lemma_runs_total(values, values.len() as int);
        lemma_rows_before(list, run + 1, n);
        lemma_counted_grows(list, target as int, 0, run);
        let inner = get_outcome(context, nodes, child.0 as int, run);
        assert(inner.result == Ok::<Option<i64>, Error>(Some(run_values(values)[run] as i64)));
        let part = list[run].1;
        assert(rows_before(list, run + 1) == rows_before(list, run) + part);
        if part > 0 {
            lemma_run_holds(values, values.len() as int, run, rows_before(list, run) as int);
        }
        lemma_run_kept(values, values.len() as int, run);
        lemma_read_u32(context, lengths, run_lengths(values), run);
        lemma_runs_counted(
            context,
            nodes,
            child,
            lengths,
            values,
            target,
            run + 1,
            counted(list, target as int, run + 1) as int,
        );
    }
}

/// No run is empty.
proof fn lemma_run_kept(values: Seq<int>, n: int, run: int)
    requires
        0 <= n <= values.len(),
        0 <= run < runs(values, n).len(),
    ensures
        runs(values, n)[run].1 > 0,
    decreases n,
{
    if n > 0 {
        let before = runs(values, n - 1);
        if run < before.len() {
            lemma_run_kept(values, n - 1, run);
        }
    }
}

proof fn lemma_held_runs_count(
    context: Context,
    nodes: Seq<DecoderNode>,
    top: NodeId,
    dense: Seq<int>,
    target: i64,
)
    requires
        metadata_outcome(context).result == Ok::<(), Error>(()),
        holds_runs(context, nodes, top, dense),
    ensures
        count_runs_answer(context, nodes, top, target).result == Ok::<Reply, Error>(
            Reply::Count(
                counted(all_runs(dense), target as int, all_runs(dense).len() as int) as int,
            ),
        ),
{
    if let DecoderNode::Rle { values: child, run_lengths: lengths, .. } = nodes[top.0 as int] {
        lemma_runs_counted(context, nodes, child, lengths, dense, target, 0, 0);
    }
}

proof fn lemma_listed_count(values: Seq<Option<i64>>, target: i64)
    requires
        dense_values(widened(values)) is Ok,
    ensures
        ({
            let list = all_runs(dense_values(widened(values))->Ok_0);
            Reply::Count(counted(list, target as int, list.len() as int) as int) == answer_of(
                Query::Count { predicate: Predicate::Equals { value: target } },
                values.len() as int,
                listed(values),
            )
        }),
{
    let dense = dense_values(widened(values))->Ok_0;
    let hit = matching(listed(values), Predicate::Equals { value: target });
    lemma_runs_total(dense, dense.len() as int);
    assert forall|row: int| 0 <= row < dense.len() implies #[trigger] hit(row) == (dense[row]
        == target) by {
        assert(widened(values)[row] is Some);
        assert(dense[row] == widened(values)[row]->0);
        assert(listed(values)(row) == values[row]);
    }
    lemma_counted(dense, hit, target as int, all_runs(dense).len() as int);
}

/// Counting the rows that equal a value from the runs of a column that is encoded
/// by runs gives what counting them row by row gives.
#[verifier::rlimit(40)]
pub proof fn law_counts_by_runs_agree(
    column: EncodedColumn,
    recipe: Recipe,
    values: Seq<Option<i64>>,
    patch_rows: Set<usize>,
    mode: ClosureMode,
    target: i64,
)
    requires
        column.encodes(recipe, values, patch_rows),
        narrow_column(recipe, widened(values), marked(values.len(), patch_rows)),
        by_runs(recipe),
        values.len() <= usize::MAX,
    ensures
        count_runs_answer(
            page_context(&column.page, mode, true),
            column.decoder.arena(),
            column.decoder.top(),
            target,
        ).result == Ok::<Reply, Error>(
            answer_of(
                Query::Count { predicate: Predicate::Equals { value: target } },
                values.len() as int,
                listed(values),
            ),
        ),
{
    let dense = dense_values(widened(values))->Ok_0;
    lemma_header_reads(column, recipe, values, patch_rows, mode, true);
    lemma_column_holds_runs(column, recipe, values, patch_rows, mode, true);
    lemma_held_runs_count(
        page_context(&column.page, mode, true),
        column.decoder.arena(),
        column.decoder.top(),
        dense,
        target,
    );
    lemma_listed_count(values, target);
}

proof fn lemma_runs_counted_told(
    context: Context,
    nodes: Seq<DecoderNode>,
    child: NodeId,
    lengths: FieldId,
    values: Seq<int>,
    target: i64,
    run: int,
    count: int,
)
    requires
        values.len() <= u32::MAX,
        stores(context, lengths, u32s_bytes(run_lengths(values))),
        agrees(context, nodes, child, run_values(values)),
        0 <= run <= all_runs(values).len(),
        count == counted(all_runs(values), target as int, run),
    ensures
        runs_outcome(
            context,
            nodes,
            child.0 as int,
            lengths,
            target,
            run,
            all_runs(values).len() as int,
            count,
        ).result matches Ok(found) ==> found == counted(
            all_runs(values),
            target as int,
            all_runs(values).len() as int,
        ),
    decreases all_runs(values).len() - run,
{
    let list = all_runs(values);
    let n = list.len() as int;
    if run < n {
        lemma_runs_total(values, values.len() as int);
        lemma_rows_before(list, run + 1, n);
        let inner = get_outcome(context, nodes, child.0 as int, run);
        assert(tells(inner.result, run_values(values)[run]));
        assert(rows_before(list, run + 1) == rows_before(list, run) + list[run].1);
        lemma_read_u32(context, lengths, run_lengths(values), run);
        lemma_runs_counted_told(
            context,
            nodes,
            child,
            lengths,
            values,
            target,
            run + 1,
            counted(list, target as int, run + 1) as int,
        );
    }
}

/// Where counting by the runs of a column succeeds, it gives what counting the encoded
/// values row by row gives, whatever the recipe of the runs and the values.
pub proof fn law_counts_by_runs_tell_the_truth(
    column: EncodedColumn,
    recipe: Recipe,
    values: Seq<Option<i64>>,
    patch_rows: Set<usize>,
    mode: ClosureMode,
    target: i64,
)
    requires
        column.encodes(recipe, values, patch_rows),
        by_runs(recipe),
    ensures
        count_runs_answer(
            page_context(&column.page, mode, true),
            column.decoder.arena(),
            column.decoder.top(),
            target,
        ).result matches Ok(reply) ==> reply == answer_of(
            Query::Count { predicate: Predicate::Equals { value: target } },
            values.len() as int,
            listed(values),
        ),
{
    let dense = dense_values(widened(values))->Ok_0;
    let context = page_context(&column.page, mode, true);
    let nodes = column.decoder.arena();
    lemma_column_tells_runs(column, recipe, values, patch_rows, mode, true);
    if let DecoderNode::Rle { values: child, run_lengths: lengths, .. } =
        nodes[column.decoder.top().0 as int] {
        lemma_runs_counted_told(context, nodes, child, lengths, dense, target, 0, 0);
    }
    lemma_listed_count(values, target);
}

} // verus!
