//! Sums over selected ranges of rows.
#[allow(unused_imports)]
use super::answers::{lemma_header_reads, lemma_rows_decode, lemma_rows_each};
#[allow(unused_imports)]
use super::coding::Recipe;
#[allow(unused_imports)]
use super::decoder::DecoderNode;
use super::encode::EncodedColumn;
#[allow(unused_imports)]
use super::encode::{marked, widened};
use super::error::Error;
use super::execute::{decode_rows, query_materialized, scan_rows, Answer, Execution};
#[allow(unused_imports)]
use super::execute::{
    decoded_value, lemma_same_sum, lemma_sum_bound, listed, rows_outcome, sum_of, Reply,
};
use super::ids::NodeId;
#[allow(unused_imports)]
use super::interpreter::get_outcome;
use super::plan::Query;
#[allow(unused_imports)]
use super::roundtrip::{law_decodes_what_was_encoded, narrow_column};
use super::runtime::ReadSession;
#[allow(unused_imports)]
use super::soundness::{law_nothing_else_is_decoded, rows_numbered};
#[allow(unused_imports)]
use super::runtime::{
    chain, given, metrics_of, page_context, ClosureMode, Context, Event, Outcome,
};
use super::span::Span;
use super::support::load_metadata;
#[allow(unused_imports)]
use super::support::{law_ranges_where, metadata_outcome, ranges_where};
use vstd::prelude::*;

verus! {

/// A range lies within `len` rows, and behind the one before it.
pub open spec fn range_fits(ranges: Seq<Span>, len: int, i: int) -> bool {
    &&& ranges[i].start <= ranges[i].end <= len
    &&& i > 0 ==> ranges[i - 1].end <= ranges[i].start
}

/// The ranges lie within `len` rows, one behind the other.
pub open spec fn ranges_fit(ranges: Seq<Span>, len: int) -> bool {
    forall|i: int| 0 <= i < ranges.len() ==> #[trigger] range_fits(ranges, len, i)
}

/// The rows of the first `n` ranges.
pub open spec fn ranges_rows(ranges: Seq<Span>, n: int) -> int
    decreases n,
{
    if n <= 0 {
        0
    } else {
        ranges_rows(ranges, n - 1) + (ranges[n - 1].end - ranges[n - 1].start)
    }
}

/// The sum of the values in the first `n` ranges; nulls are passed over.
pub open spec fn ranges_sum(
    row_value: spec_fn(int) -> Option<i64>,
    ranges: Seq<Span>,
    n: int,
) -> int
    decreases n,
{
    if n <= 0 {
        0
    } else {
        ranges_sum(row_value, ranges, n - 1) + sum_of(
            row_value,
            ranges[n - 1].start as int,
            ranges[n - 1].end as int,
        )
    }
}

/// Ranges that fit have no more rows than come before the end of the last.
proof fn lemma_ranges_rows(ranges: Seq<Span>, len: int, n: int)
    requires
        ranges_fit(ranges, len),
        0 <= n <= ranges.len(),
        0 <= len,
    ensures
        0 <= ranges_rows(ranges, n) <= len,
        n > 0 ==> ranges_rows(ranges, n) <= ranges[n - 1].end,
    decreases n,
{
    if n > 0 {
        lemma_ranges_rows(ranges, len, n - 1);
        assert(range_fits(ranges, len, n - 1));
    }
}

/// A sum over ranges is no further from zero than their rows allow.
proof fn lemma_ranges_sum(
    row_value: spec_fn(int) -> Option<i64>,
    ranges: Seq<Span>,
    len: int,
    n: int,
)
    requires
        ranges_fit(ranges, len),
        0 <= n <= ranges.len(),
    ensures
        ranges_rows(ranges, n) * i64::MIN <= ranges_sum(row_value, ranges, n) <= ranges_rows(
            ranges,
            n,
        ) * i64::MAX,
    decreases n,
{
    if n > 0 {
        lemma_ranges_sum(row_value, ranges, len, n - 1);
        assert(range_fits(ranges, len, n - 1));
        lemma_sum_bound(row_value, ranges[n - 1].start as int, ranges[n - 1].end as int);
    }
}

/// Decoding the rows of the first `n` ranges.
pub open spec fn ranges_outcome(
    context: Context,
    nodes: Seq<DecoderNode>,
    id: int,
    ranges: Seq<Span>,
    n: int,
) -> Outcome<()>
    decreases n,
{
    if n <= 0 {
        given(())
    } else {
        chain(
            ranges_outcome(context, nodes, id, ranges, n - 1),
            |done: ()|
                rows_outcome(
                    context,
                    nodes,
                    id,
                    ranges[n - 1].start as int,
                    ranges[n - 1].end as int,
                ),
        )
    }
}

/// Where decoding fails, it fails the same with more ranges.
proof fn lemma_ranges_stop(
    context: Context,
    nodes: Seq<DecoderNode>,
    id: int,
    ranges: Seq<Span>,
    at: int,
    n: int,
)
    requires
        at <= n,
        ranges_outcome(context, nodes, id, ranges, at).result is Err,
    ensures
        ranges_outcome(context, nodes, id, ranges, n) == ranges_outcome(
            context,
            nodes,
            id,
            ranges,
            at,
        ),
    decreases n - at,
{
    if at < n {
        lemma_ranges_stop(context, nodes, id, ranges, at, n - 1);
    }
}

/// Decoding the rows of ranges, or all rows.
pub open spec fn selection_outcome(
    context: Context,
    nodes: Seq<DecoderNode>,
    id: int,
    len: int,
    ranges: Seq<Span>,
    all_rows: bool,
) -> Outcome<()> {
    if all_rows {
        rows_outcome(context, nodes, id, 0, len)
    } else {
        ranges_outcome(context, nodes, id, ranges, ranges.len() as int)
    }
}

/// Reading the header, then decoding rows and summing those of the ranges.
pub open spec fn selection_answer(
    context: Context,
    nodes: Seq<DecoderNode>,
    id: int,
    len: int,
    ranges: Seq<Span>,
    all_rows: bool,
) -> Outcome<Reply> {
    chain(
        metadata_outcome(context),
        |done: ()|
            chain(
                selection_outcome(context, nodes, id, len, ranges, all_rows),
                |done: ()|
                    given(
                        Reply::Sum(
                            ranges_sum(
                                decoded_value(context, nodes, id),
                                ranges,
                                ranges.len() as int,
                            ),
                        ),
                    ),
            ),
    )
}

/// The result of a sum over ranges in a session that may have read before.
pub open spec fn summed_in(
    r: Result<Execution, Error>,
    column: EncodedColumn,
    ranges: Seq<Span>,
    all_rows: bool,
    before: ReadSession<'_>,
    after: ReadSession<'_>,
) -> bool {
    let len = column.truth@.len() as int;
    let context = before.context();
    let wanted = selection_answer(
        context,
        column.decoder.arena(),
        column.decoder.top().0 as int,
        len,
        ranges,
        all_rows,
    );
    if !ranges_fit(ranges, len) {
        (r matches Err(found) && found == Error::QueryRowsInvalid) && after.follows(
            before,
            Seq::empty(),
        )
    } else {
        &&& after.follows(before, wanted.trace)
        &&& match wanted.result {
            Err(e) => r matches Err(found) && found == e,
            Ok(reply) => if context.accounted && after@.logical.len() > usize::MAX {
                r matches Err(found) && found == Error::AccessUncountable
            } else {
                r matches Ok(execution) && execution.answer@ == reply && execution.metrics
                    == metrics_of(context, after@) && execution.decoded_rows == if all_rows {
                    len
                } else {
                    ranges_rows(ranges, ranges.len() as int)
                }
            },
        }
    }
}

fn fit(ranges: &[Span], len: usize) -> (r: bool)
    ensures
        r == ranges_fit(ranges@, len as int),
{
    let mut i: usize = 0;
    while i < ranges.len()
        invariant
            i <= ranges@.len(),
            forall|k: int| 0 <= k < i ==> #[trigger] range_fits(ranges@, len as int, k),
        decreases ranges@.len() - i,
    {
        if ranges[i].start > ranges[i].end || ranges[i].end > len || (i > 0 && ranges[i - 1].end
            > ranges[i].start) {
            assert(!range_fits(ranges@, len as int, i as int));
            return false;
        }
        assert(range_fits(ranges@, len as int, i as int));
        i = i + 1;
    }
    true
}

/// The sum and the rows of an answer to a sum.
fn sum_in(answer: Answer) -> (r: i128)
    requires
        answer is Sum,
    ensures
        answer@ == Reply::Sum(r as int),
{
    match answer {
        Answer::Sum(sum) => sum,
        _ => 0,
    }
}

/// Decodes the rows of the ranges, and sums them.
fn sum_parts(
    column: &EncodedColumn,
    ranges: &[Span],
    session: &mut ReadSession<'_>,
) -> (r: Result<(i128, usize), Error>)
    requires
        column.wf(),
        old(session).wf(),
        ranges_fit(ranges@, column.truth@.len() as int),
    ensures
        ({
            let context = old(session).context();
            let nodes = column.decoder.arena();
            let id = column.decoder.top().0 as int;
            let n = ranges@.len() as int;
            let wanted = ranges_outcome(context, nodes, id, ranges@, n);
            &&& final(session).follows(*old(session), wanted.trace)
            &&& match wanted.result {
                Err(e) => r matches Err(found) && found == e,
                Ok(_) => r matches Ok(found) && found.0 == ranges_sum(
                    decoded_value(context, nodes, id),
                    ranges@,
                    n,
                ) && found.1 == ranges_rows(ranges@, n),
            }
        }),
{
    let ghost start = *session;
    let ghost context = session.context();
    let ghost nodes = column.decoder.arena();
    let root: NodeId = column.decoder.root();
    let ghost id = root.0 as int;
    let ghost row_value = decoded_value(context, nodes, id);
    let len: usize = column.truth.len();
    let mut total: i128 = 0;
    let mut rows: usize = 0;
    let mut i: usize = 0;
    proof {
        session.lemma_still();
    }
    while i < ranges.len()
        invariant
            i <= ranges@.len(),
            column.wf(),
            len == column.truth@.len(),
            ranges_fit(ranges@, len as int),
            start == *old(session),
            context == start.context(),
            nodes == column.decoder.arena(),
            root == column.decoder.top(),
            id == root.0,
            row_value == decoded_value(context, nodes, id),
            session.follows(start, ranges_outcome(context, nodes, id, ranges@, i as int).trace),
            ranges_outcome(context, nodes, id, ranges@, i as int).result is Ok,
            total == ranges_sum(row_value, ranges@, i as int),
            rows == ranges_rows(ranges@, i as int),
        decreases ranges@.len() - i,
    {
        let part: Span = ranges[i];
        assert(range_fits(ranges@, len as int, i as int));
        let query = Query::Sum { rows: part };
        let ghost before = *session;
        let ghost so_far = ranges_outcome(context, nodes, id, ranges@, i as int);
        let ghost step = rows_outcome(context, nodes, id, part.start as int, part.end as int);
        let scan = scan_rows(&column.decoder, root, &query, len, part.start, part.end, session);
        proof {
            session.lemma_join(before, start, so_far.trace, step.trace);
            lemma_ranges_rows(ranges@, len as int, i + 1);
            lemma_ranges_sum(row_value, ranges@, len as int, i + 1);
        }
        match scan {
            Ok(answer) => {
                let sum: i128 = sum_in(answer);
                assert(sum == sum_of(row_value, part.start as int, part.end as int));
                total = total + sum;
                rows = rows + (part.end - part.start);
            },
            Err(e) => {
                proof {
                    lemma_ranges_stop(context, nodes, id, ranges@, i + 1, ranges@.len() as int);
                }
                return Err(e);
            },
        }
        i = i + 1;
    }
    Ok((total, rows))
}

/// Sums the ranges of values.
fn sum_values(values: &Vec<Option<i64>>, ranges: &[Span]) -> (r: i128)
    requires
        ranges_fit(ranges@, values@.len() as int),
    ensures
        r == ranges_sum(listed(values@), ranges@, ranges@.len() as int),
{
    let len: usize = values.len();
    let mut total: i128 = 0;
    let mut i: usize = 0;
    while i < ranges.len()
        invariant
            i <= ranges@.len(),
            len == values@.len(),
            ranges_fit(ranges@, len as int),
            total == ranges_sum(listed(values@), ranges@, i as int),
        decreases ranges@.len() - i,
    {
        assert(range_fits(ranges@, len as int, i as int));
        let sum: i128 = sum_in(query_materialized(values, &Query::Sum { rows: ranges[i] }));
        proof {
            lemma_ranges_rows(ranges@, len as int, i + 1);
            lemma_ranges_sum(listed(values@), ranges@, len as int, i + 1);
        }
        total = total + sum;
        i = i + 1;
    }
    total
}

/// Sums over ranges go by the values of their rows alone.
pub proof fn lemma_same_ranges_sum(
    a: spec_fn(int) -> Option<i64>,
    b: spec_fn(int) -> Option<i64>,
    ranges: Seq<Span>,
    len: int,
    n: int,
)
    requires
        ranges_fit(ranges, len),
        0 <= n <= ranges.len(),
        forall|row: int| 0 <= row < len ==> #[trigger] a(row) == b(row),
    ensures
        ranges_sum(a, ranges, n) == ranges_sum(b, ranges, n),
    decreases n,
{
    if n > 0 {
        lemma_same_ranges_sum(a, b, ranges, len, n - 1);
        assert(range_fits(ranges, len, n - 1));
        lemma_same_sum(a, b, ranges[n - 1].start as int, ranges[n - 1].end as int);
    }
}

/// Sums the values of selected rows in a session on the column's page. It decodes
/// those rows, or all rows.
pub fn execute_ranges(
    column: &EncodedColumn,
    ranges: &[Span],
    all_rows: bool,
    session: &mut ReadSession<'_>,
) -> (r: Result<Execution, Error>)
    requires
        column.wf(),
        old(session).wf(),
        column.page.plan() == old(session).context().layout,
    ensures
        summed_in(r, *column, ranges@, all_rows, *old(session), *final(session)),
{
    let ghost start = *session;
    let ghost context = session.context();
    let ghost nodes = column.decoder.arena();
    let len: usize = column.truth.len();
    let root: NodeId = column.decoder.root();
    let ghost id = root.0 as int;
    if !fit(ranges, len) {
        proof {
            session.lemma_still();
        }
        return Err(Error::QueryRowsInvalid);
    }
    match load_metadata(&column.page, session) {
        Ok(()) => {},
        Err(e) => {
            return Err(e);
        },
    }
    let ghost middle = *session;
    let ghost header = metadata_outcome(context).trace;
    let ghost rows = selection_outcome(context, nodes, id, len as int, ranges@, all_rows).trace;
    proof {
        assert(rows + Seq::<Event>::empty() =~= rows);
    }
    let (sum, decoded_rows) = if all_rows {
        let decoded = decode_rows(&column.decoder, root, len, session);
        proof {
            session.lemma_join(middle, start, header, rows);
        }
        match decoded {
            Ok(values) => {
                proof {
                    let ours = decoded_value(context, nodes, id);
                    let theirs = listed(values@);
                    assert forall|k: int| 0 <= k < len implies #[trigger] theirs(k) == ours(k) by {
                        assert(values@[k] == ours(k));
                    }
                    lemma_same_ranges_sum(
                        theirs,
                        ours,
                        ranges@,
                        len as int,
                        ranges@.len() as int,
                    );
                }
                (sum_values(&values, ranges), len)
            },
            Err(e) => {
                return Err(e);
            },
        }
    } else {
        let parts = sum_parts(column, ranges, session);
        proof {
            session.lemma_join(middle, start, header, rows);
        }
        match parts {
            Ok(parts) => parts,
            Err(e) => {
                return Err(e);
            },
        }
    };
    match session.checked_metrics() {
        Some(metrics) => Ok(Execution { answer: Answer::Sum(sum), metrics, decoded_rows }),
        None => Err(Error::AccessUncountable),
    }
}

/// Ranges whose rows decode one by one decode in sequence.
proof fn lemma_ranges_decode(
    context: Context,
    nodes: Seq<DecoderNode>,
    id: int,
    ranges: Seq<Span>,
    len: int,
    n: int,
)
    requires
        ranges_fit(ranges, len),
        0 <= n <= ranges.len(),
        forall|row: int|
            0 <= row < len ==> (#[trigger] get_outcome(context, nodes, id, row)).result is Ok,
    ensures
        ranges_outcome(context, nodes, id, ranges, n).result == Ok::<(), Error>(()),
    decreases n,
{
    if n > 0 {
        lemma_ranges_decode(context, nodes, id, ranges, len, n - 1);
        assert(range_fits(ranges, len, n - 1));
        lemma_rows_decode(
            context,
            nodes,
            id,
            ranges[n - 1].start as int,
            ranges[n - 1].end as int,
        );
    }
}

/// A sum over ranges of an encoded column is the sum of the values that were encoded
/// there, whether the rows of the ranges are decoded or all rows.
pub proof fn law_selections_sum_the_values(
    column: EncodedColumn,
    recipe: Recipe,
    values: Seq<Option<i64>>,
    patch_rows: Set<usize>,
    mode: ClosureMode,
    accounted: bool,
    ranges: Seq<Span>,
    all_rows: bool,
)
    requires
        column.encodes(recipe, values, patch_rows),
        narrow_column(recipe, widened(values), marked(values.len(), patch_rows)),
        values.len() <= usize::MAX,
        ranges_fit(ranges, values.len() as int),
    ensures
        selection_answer(
            page_context(&column.page, mode, accounted),
            column.decoder.arena(),
            column.decoder.top().0 as int,
            values.len() as int,
            ranges,
            all_rows,
        ).result == Ok::<Reply, Error>(
            Reply::Sum(ranges_sum(listed(values), ranges, ranges.len() as int)),
        ),
{
    let context = page_context(&column.page, mode, accounted);
    let nodes = column.decoder.arena();
    let id = column.decoder.top().0 as int;
    let len = values.len() as int;
    let ours = decoded_value(context, nodes, id);
    lemma_header_reads(column, recipe, values, patch_rows, mode, accounted);
    assert forall|row: int| 0 <= row < len implies (#[trigger] get_outcome(
        context,
        nodes,
        id,
        row,
    )).result is Ok by {
        law_decodes_what_was_encoded(column, recipe, values, patch_rows, mode, accounted, row);
    }
    assert forall|row: int| 0 <= row < len implies #[trigger] ours(row) == listed(values)(row) by {
        law_decodes_what_was_encoded(column, recipe, values, patch_rows, mode, accounted, row);
    }
    lemma_rows_decode(context, nodes, id, 0, len);
    lemma_ranges_decode(context, nodes, id, ranges, len, ranges.len() as int);
    lemma_same_ranges_sum(ours, listed(values), ranges, len, ranges.len() as int);
}

proof fn lemma_ranges_told(
    column: EncodedColumn,
    recipe: Recipe,
    values: Seq<Option<i64>>,
    patch_rows: Set<usize>,
    mode: ClosureMode,
    accounted: bool,
    ranges: Seq<Span>,
    n: int,
)
    requires
        column.encodes(recipe, values, patch_rows),
        rows_numbered(recipe, values.len()),
        ranges_fit(ranges, values.len() as int),
        0 <= n <= ranges.len(),
    ensures
        ({
            let context = page_context(&column.page, mode, accounted);
            let nodes = column.decoder.arena();
            let id = column.decoder.top().0 as int;
            ranges_outcome(context, nodes, id, ranges, n).result is Ok ==> ranges_sum(
                decoded_value(context, nodes, id),
                ranges,
                n,
            ) == ranges_sum(listed(values), ranges, n)
        }),
    decreases n,
{
    let context = page_context(&column.page, mode, accounted);
    let nodes = column.decoder.arena();
    let id = column.decoder.top().0 as int;
    let ours = decoded_value(context, nodes, id);
    if n > 0 && ranges_outcome(context, nodes, id, ranges, n).result is Ok {
        lemma_ranges_told(column, recipe, values, patch_rows, mode, accounted, ranges, n - 1);
        assert(range_fits(ranges, values.len() as int, n - 1));
        let from = ranges[n - 1].start as int;
        let to = ranges[n - 1].end as int;
        assert forall|row: int| from <= row < to implies #[trigger] ours(row) == listed(values)(
            row,
        ) by {
            lemma_rows_each(context, nodes, id, from, to, row);
            law_nothing_else_is_decoded(column, recipe, values, patch_rows, mode, accounted, row);
        }
        lemma_same_sum(ours, listed(values), from, to);
    }
}

/// Where the rows of some ranges of an encoded column decode, or all rows, the sum is
/// that of the values that were encoded there, whatever the recipe and the values.
pub proof fn law_selections_sum_nothing_else(
    column: EncodedColumn,
    recipe: Recipe,
    values: Seq<Option<i64>>,
    patch_rows: Set<usize>,
    mode: ClosureMode,
    accounted: bool,
    ranges: Seq<Span>,
    all_rows: bool,
)
    requires
        column.encodes(recipe, values, patch_rows),
        rows_numbered(recipe, values.len()),
        ranges_fit(ranges, values.len() as int),
    ensures
        selection_answer(
            page_context(&column.page, mode, accounted),
            column.decoder.arena(),
            column.decoder.top().0 as int,
            values.len() as int,
            ranges,
            all_rows,
        ).result matches Ok(reply) ==> reply == Reply::Sum(
            ranges_sum(listed(values), ranges, ranges.len() as int),
        ),
{
    let context = page_context(&column.page, mode, accounted);
    let nodes = column.decoder.arena();
    let id = column.decoder.top().0 as int;
    let len = values.len() as int;
    let n = ranges.len() as int;
    let ours = decoded_value(context, nodes, id);
    if all_rows {
        if rows_outcome(context, nodes, id, 0, len).result is Ok {
            assert forall|row: int| 0 <= row < len implies #[trigger] ours(row) == listed(values)(
                row,
            ) by {
                lemma_rows_each(context, nodes, id, 0, len, row);
                law_nothing_else_is_decoded(
                    column,
                    recipe,
                    values,
                    patch_rows,
                    mode,
                    accounted,
                    row,
                );
            }
            lemma_same_ranges_sum(ours, listed(values), ranges, len, n);
        }
    } else {
        lemma_ranges_told(column, recipe, values, patch_rows, mode, accounted, ranges, n);
    }
}

/// The sum over some ranges goes by those ranges alone.
proof fn lemma_sum_prefix(
    row_value: spec_fn(int) -> Option<i64>,
    a: Seq<Span>,
    b: Seq<Span>,
    n: int,
)
    requires
        n <= a.len(),
        n <= b.len(),
        forall|i: int| 0 <= i < n ==> a[i] == b[i],
    ensures
        ranges_sum(row_value, a, n) == ranges_sum(row_value, b, n),
    decreases n,
{
    if n > 0 {
        lemma_sum_prefix(row_value, a, b, n - 1);
    }
}

/// The rows that hit, where only those have values.
pub open spec fn only_where(hit: spec_fn(int) -> bool, row_value: spec_fn(int) -> Option<i64>) -> spec_fn(
    int,
) -> Option<i64> {
    |row: int|
        if hit(row) {
            row_value(row)
        } else {
            None
        }
}

/// The ranges of the rows that hit fit, and their sum is that of the rows that hit.
pub proof fn law_ranges_sum_what_hits(
    hit: spec_fn(int) -> bool,
    row_value: spec_fn(int) -> Option<i64>,
    len: int,
)
    requires
        0 <= len <= usize::MAX,
    ensures
        ranges_fit(ranges_where(hit, 0, len), len),
        ranges_sum(
            row_value,
            ranges_where(hit, 0, len),
            ranges_where(hit, 0, len).len() as int,
        ) == sum_of(only_where(hit, row_value), 0, len),
    decreases len,
{
    let all = ranges_where(hit, 0, len);
    law_ranges_where(hit, 0, len);
    assert forall|i: int| 0 <= i < all.len() implies #[trigger] range_fits(all, len, i) by {
        assert(all[i].start < all[i].end);
        if i < all.len() - 1 {
            assert(all[i].end < all[all.len() - 1].start);
            assert(all[all.len() - 1].start < all[all.len() - 1].end);
        }
        if i > 0 {
            assert(all[i - 1].end < all[i].start);
        }
    }
    if len > 0 {
        law_ranges_sum_what_hits(hit, row_value, len - 1);
        let before = ranges_where(hit, 0, len - 1);
        law_ranges_where(hit, 0, len - 1);
        let n = before.len() as int;
        if hit(len - 1) {
            if n > 0 && before.last().end == len - 1 {
                lemma_sum_prefix(row_value, all, before, n - 1);
                assert(before[n - 1].start < before[n - 1].end);
            } else {
                lemma_sum_prefix(row_value, all, before, n);
                assert(sum_of(row_value, len - 1, len - 1) == 0);
            }
        }
    }
}

} // verus!
