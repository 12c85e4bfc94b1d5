//! Answering queries by decoding rows.
use super::decoder::{DecoderIr, DecoderNode};
use super::encode::EncodedColumn;
use super::error::Error;
use super::ids::{FieldId, NodeId};
use super::interpreter::get;
#[allow(unused_imports)]
use super::interpreter::get_outcome;
use super::plan::{Predicate, Query};
use super::runtime::{AccessMetrics, ClosureMode, ReadSession};
#[allow(unused_imports)]
use super::runtime::{
    chain, empty_ledger, failed, given, metrics_of, page_context, replay, u32_outcome, Context, Event,
    Outcome,
};
use super::span::Span;
use super::support::{load_metadata, push_range};
#[allow(unused_imports)]
use super::support::{lemma_pushed_same, metadata_outcome, pushed_range, ranges_where};
use vstd::prelude::*;

verus! {

#[derive(Clone, Debug, PartialEq, Eq)]
pub enum Answer {
    Value(Option<i64>),
    Sum(i128),
    Ranges(Vec<Span>),
    Count(usize),
}

/// An answer as a value.
pub ghost enum Reply {
    Value(Option<i64>),
    Sum(int),
    Ranges(Seq<Span>),
    Count(int),
}

impl View for Answer {
    type V = Reply;

    open spec fn view(&self) -> Reply {
        match self {
            Answer::Value(value) => Reply::Value(*value),
            Answer::Sum(sum) => Reply::Sum(*sum as int),
            Answer::Ranges(ranges) => Reply::Ranges(ranges@),
            Answer::Count(count) => Reply::Count(*count as int),
        }
    }
}

#[derive(Clone, Debug, PartialEq, Eq)]
pub struct Execution {
    pub answer: Answer,
    pub metrics: AccessMetrics,
    pub decoded_rows: usize,
}

// ----- what a query asks -----

/// A value satisfies a predicate.
pub open spec fn satisfies(predicate: Predicate, value: Option<i64>) -> bool {
    match (predicate, value) {
        (_, None) => false,
        (Predicate::Between { low, high }, Some(value)) => low <= value <= high,
        (Predicate::Equals { value: target }, Some(value)) => value == target,
    }
}

/// What is wrong with a query on a column of `len` rows.
pub open spec fn query_error(len: int, query: Query) -> Option<Error> {
    match query {
        Query::Get { row } => if row >= len {
            Some(Error::GetRowOutside)
        } else {
            None
        },
        Query::Sum { rows } => if rows.start > rows.end || rows.end > len {
            Some(Error::QueryRowsInvalid)
        } else {
            None
        },
        Query::Between { rows, low, high } => if rows.start > rows.end || rows.end > len {
            Some(Error::QueryRowsInvalid)
        } else if low > high {
            Some(Error::BetweenBoundsInvalid)
        } else {
            None
        },
        Query::Filter { predicate: Predicate::Between { low, high } } => if low > high {
            Some(Error::BetweenBoundsInvalid)
        } else {
            None
        },
        _ => None,
    }
}

/// The rows that a query asks about.
pub open spec fn asked_rows(len: int, query: Query) -> (int, int) {
    match query {
        Query::Get { row } => (row as int, row + 1),
        Query::Sum { rows } => (rows.start as int, rows.end as int),
        Query::Between { rows, .. } => (rows.start as int, rows.end as int),
        Query::Filter { .. } => (0, len),
        Query::Count { .. } => (0, len),
    }
}

/// The sum of the values in rows `from..to`; nulls are passed over.
pub open spec fn sum_of(row_value: spec_fn(int) -> Option<i64>, from: int, to: int) -> int
    decreases to - from,
{
    if to <= from {
        0
    } else {
        sum_of(row_value, from, to - 1) + match row_value(to - 1) {
            Some(value) => value as int,
            None => 0,
        }
    }
}

/// The number of rows in `from..to` that hit.
pub open spec fn count_where(hit: spec_fn(int) -> bool, from: int, to: int) -> int
    decreases to - from,
{
    if to <= from {
        0
    } else {
        count_where(hit, from, to - 1) + if hit(to - 1) {
            1int
        } else {
            0
        }
    }
}

/// The rows that satisfy a predicate.
pub open spec fn matching(row_value: spec_fn(int) -> Option<i64>, predicate: Predicate) -> spec_fn(
    int,
) -> bool {
    |row: int| satisfies(predicate, row_value(row))
}

/// The answer to a query, where row `i` has the value `row_value(i)`.
pub open spec fn answer_of(query: Query, len: int, row_value: spec_fn(int) -> Option<i64>) -> Reply {
    match query {
        Query::Get { row } => Reply::Value(row_value(row as int)),
        Query::Sum { rows } => Reply::Sum(sum_of(row_value, rows.start as int, rows.end as int)),
        Query::Between { rows, low, high } => Reply::Ranges(
            ranges_where(
                matching(row_value, Predicate::Between { low, high }),
                rows.start as int,
                rows.end as int,
            ),
        ),
        Query::Filter { predicate } => Reply::Ranges(
            ranges_where(matching(row_value, predicate), 0, len),
        ),
        Query::Count { predicate } => Reply::Count(
            count_where(matching(row_value, predicate), 0, len),
        ),
    }
}

/// Row `i` has value `i` of a list.
pub open spec fn listed(values: Seq<Option<i64>>) -> spec_fn(int) -> Option<i64> {
    |row: int| values[row]
}

/// The answer as far as rows before `k` give it.
pub open spec fn answer_before(
    query: Query,
    len: int,
    row_value: spec_fn(int) -> Option<i64>,
    k: int,
) -> Reply {
    let (from, to) = asked_rows(len, query);
    let end = if k < to {
        k
    } else {
        to
    };
    match query {
        Query::Get { row } => Reply::Value(
            if row < end {
                row_value(row as int)
            } else {
                None
            },
        ),
        Query::Sum { rows } => Reply::Sum(sum_of(row_value, from, end)),
        Query::Between { rows, low, high } => Reply::Ranges(
            ranges_where(matching(row_value, Predicate::Between { low, high }), from, end),
        ),
        Query::Filter { predicate } => Reply::Ranges(
            ranges_where(matching(row_value, predicate), from, end),
        ),
        Query::Count { predicate } => Reply::Count(
            count_where(matching(row_value, predicate), from, end),
        ),
    }
}

/// The answer after one more row.
pub open spec fn reply_step(query: Query, reply: Reply, row: int, value: Option<i64>) -> Reply {
    match (query, reply) {
        (Query::Get { row: wanted }, _) => if row == wanted {
            Reply::Value(value)
        } else {
            reply
        },
        (Query::Sum { rows }, Reply::Sum(sum)) => if rows.start <= row < rows.end {
            Reply::Sum(
                sum + match value {
                    Some(value) => value as int,
                    None => 0,
                },
            )
        } else {
            reply
        },
        (Query::Between { rows, low, high }, Reply::Ranges(ranges)) => if rows.start <= row
            < rows.end && satisfies(Predicate::Between { low, high }, value) {
            Reply::Ranges(pushed_range(ranges, row, row + 1))
        } else {
            reply
        },
        (Query::Filter { predicate }, Reply::Ranges(ranges)) => if satisfies(predicate, value) {
            Reply::Ranges(pushed_range(ranges, row, row + 1))
        } else {
            reply
        },
        (Query::Count { predicate }, Reply::Count(count)) => if satisfies(predicate, value) {
            Reply::Count(count + 1)
        } else {
            reply
        },
        _ => reply,
    }
}

proof fn lemma_answer_step(
    query: Query,
    len: int,
    row_value: spec_fn(int) -> Option<i64>,
    k: int,
)
    requires
        0 <= k < len,
    ensures
        answer_before(query, len, row_value, k + 1) == reply_step(
            query,
            answer_before(query, len, row_value, k),
            k,
            row_value(k),
        ),
{
    match query {
        Query::Between { rows, low, high } => {
            let hit = matching(row_value, Predicate::Between { low, high });
            assert(hit(k) == satisfies(Predicate::Between { low, high }, row_value(k)));
        },
        Query::Filter { predicate } => {
            let hit = matching(row_value, predicate);
            assert(hit(k) == satisfies(predicate, row_value(k)));
        },
        Query::Count { predicate } => {
            let hit = matching(row_value, predicate);
            assert(hit(k) == satisfies(predicate, row_value(k)));
        },
        _ => {},
    }
}

pub proof fn lemma_sum_bound(row_value: spec_fn(int) -> Option<i64>, from: int, to: int)
    requires
        from <= to,
    ensures
        (to - from) * i64::MIN <= sum_of(row_value, from, to) <= (to - from) * i64::MAX,
    decreases to - from,
{
    if from < to {
        lemma_sum_bound(row_value, from, to - 1);
    }
}

proof fn lemma_count_bound(hit: spec_fn(int) -> bool, from: int, to: int)
    requires
        from <= to,
    ensures
        0 <= count_where(hit, from, to) <= to - from,
    decreases to - from,
{
    if from < to {
        lemma_count_bound(hit, from, to - 1);
    }
}

/// Sums and counts of rows before `k` are in range.
spec fn reply_fits(reply: Reply, k: int) -> bool {
    match reply {
        Reply::Sum(sum) => k * i64::MIN <= sum <= k * i64::MAX,
        Reply::Count(count) => 0 <= count <= k,
        _ => true,
    }
}

proof fn lemma_reply_fits(
    query: Query,
    len: int,
    row_value: spec_fn(int) -> Option<i64>,
    k: int,
)
    requires
        0 <= k <= len,
        query_error(len, query) is None,
    ensures
        reply_fits(answer_before(query, len, row_value, k), k),
{
    let (from, to) = asked_rows(len, query);
    let end = if k < to {
        k
    } else {
        to
    };
    if from <= end {
        lemma_sum_bound(row_value, from, end);
        match query {
            Query::Count { predicate } => {
                lemma_count_bound(matching(row_value, predicate), from, end);
            },
            _ => {},
        }
    }
}

/// Where the rows that a query asks about have the same values, the answer is the same.
pub proof fn lemma_same_answer(
    query: Query,
    len: int,
    a: spec_fn(int) -> Option<i64>,
    b: spec_fn(int) -> Option<i64>,
)
    requires
        query_error(len, query) is None,
        forall|row: int|
            asked_rows(len, query).0 <= row < asked_rows(len, query).1 ==> #[trigger] a(row) == b(
                row,
            ),
    ensures
        answer_of(query, len, a) == answer_of(query, len, b),
{
    match query {
        Query::Get { row } => {
            assert(a(row as int) == b(row as int));
        },
        Query::Sum { rows } => {
            lemma_same_sum(a, b, rows.start as int, rows.end as int);
        },
        Query::Between { rows, low, high } => {
            let p = Predicate::Between { low, high };
            lemma_same_hits(a, b, p, rows.start as int, rows.end as int);
            lemma_pushed_same(
                Seq::empty(),
                matching(a, p),
                matching(b, p),
                rows.start as int,
                rows.end as int,
            );
        },
        Query::Filter { predicate } => {
            lemma_same_hits(a, b, predicate, 0, len);
            lemma_pushed_same(Seq::empty(), matching(a, predicate), matching(b, predicate), 0, len);
        },
        Query::Count { predicate } => {
            lemma_same_hits(a, b, predicate, 0, len);
            lemma_same_count(matching(a, predicate), matching(b, predicate), 0, len);
        },
    }
}

proof fn lemma_same_hits(
    a: spec_fn(int) -> Option<i64>,
    b: spec_fn(int) -> Option<i64>,
    predicate: Predicate,
    from: int,
    to: int,
)
    requires
        forall|row: int| from <= row < to ==> #[trigger] a(row) == b(row),
    ensures
        forall|row: int|
            from <= row < to ==> #[trigger] matching(a, predicate)(row) == matching(b, predicate)(
                row,
            ),
{
    assert forall|row: int| from <= row < to implies #[trigger] matching(a, predicate)(row)
        == matching(b, predicate)(row) by {
        assert(a(row) == b(row));
    }
}

pub proof fn lemma_same_sum(
    a: spec_fn(int) -> Option<i64>,
    b: spec_fn(int) -> Option<i64>,
    from: int,
    to: int,
)
    requires
        forall|row: int| from <= row < to ==> #[trigger] a(row) == b(row),
    ensures
        sum_of(a, from, to) == sum_of(b, from, to),
    decreases to - from,
{
    if from < to {
        lemma_same_sum(a, b, from, to - 1);
        assert(a(to - 1) == b(to - 1));
    }
}

proof fn lemma_same_count(
    a: spec_fn(int) -> bool,
    b: spec_fn(int) -> bool,
    from: int,
    to: int,
)
    requires
        forall|row: int| from <= row < to ==> #[trigger] a(row) == b(row),
    ensures
        count_where(a, from, to) == count_where(b, from, to),
    decreases to - from,
{
    if from < to {
        lemma_same_count(a, b, from, to - 1);
        assert(a(to - 1) == b(to - 1));
    }
}

// ----- decoding rows -----

/// The value that a row of a node decodes to, where it decodes.
pub open spec fn decoded_value(context: Context, nodes: Seq<DecoderNode>, id: int) -> spec_fn(
    int,
) -> Option<i64> {
    |row: int| get_outcome(context, nodes, id, row).result->Ok_0
}

/// Decoding rows `from..to` of a node one by one.
pub open spec fn rows_outcome(
    context: Context,
    nodes: Seq<DecoderNode>,
    id: int,
    from: int,
    to: int,
) -> Outcome<()>
    decreases to - from,
{
    if to <= from {
        given(())
    } else {
        chain(
            rows_outcome(context, nodes, id, from, to - 1),
            |done: ()|
                chain(
                    get_outcome(context, nodes, id, to - 1),
                    |value: Option<i64>| given(()),
                ),
        )
    }
}

/// Where decoding fails, it fails the same with more rows.
proof fn lemma_rows_stop(
    context: Context,
    nodes: Seq<DecoderNode>,
    id: int,
    from: int,
    at: int,
    to: int,
)
    requires
        from <= at <= to,
        rows_outcome(context, nodes, id, from, at).result is Err,
    ensures
        rows_outcome(context, nodes, id, from, to) == rows_outcome(context, nodes, id, from, at),
    decreases to - at,
{
    if at < to {
        lemma_rows_stop(context, nodes, id, from, at, to - 1);
    }
}

/// Reading the header, then decoding rows `from..to` and answering a query from
/// them.
pub open spec fn scan_answer(
    context: Context,
    nodes: Seq<DecoderNode>,
    id: int,
    query: Query,
    len: int,
    from: int,
    to: int,
) -> Outcome<Reply> {
    chain(
        metadata_outcome(context),
        |done: ()|
            chain(
                rows_outcome(context, nodes, id, from, to),
                |done: ()| given(answer_of(query, len, decoded_value(context, nodes, id))),
            ),
    )
}

/// The result of a session that was opened for an outcome.
pub open spec fn executed(
    r: Result<Execution, Error>,
    context: Context,
    outcome: Outcome<Reply>,
    decoded: int,
) -> bool {
    match outcome.result {
        Err(e) => r matches Err(found) && found == e,
        Ok(reply) => {
            let ledger = replay(context, empty_ledger(), outcome.trace);
            if context.accounted && ledger.logical.len() > usize::MAX {
                r matches Err(found) && found == Error::AccessUncountable
            } else {
                r matches Ok(execution) && execution.answer@ == reply && execution.metrics
                    == metrics_of(context, ledger) && execution.decoded_rows == decoded
            }
        },
    }
}

/// The result of a query on a column that decodes rows `from..to`.
pub open spec fn scanned(
    r: Result<Execution, Error>,
    column: EncodedColumn,
    query: Query,
    mode: ClosureMode,
    from: int,
    to: int,
) -> bool {
    let len = column.truth@.len() as int;
    let context = page_context(&column.page, mode, true);
    match query_error(len, query) {
        Some(e) => r matches Err(found) && found == e,
        None => executed(
            r,
            context,
            scan_answer(
                context,
                column.decoder.arena(),
                column.decoder.top().0 as int,
                query,
                len,
                from,
                to,
            ),
            to - from,
        ),
    }
}

/// Answers a query from the rows that it asks about.
pub fn execute_interpreted(column: &EncodedColumn, query: &Query, mode: ClosureMode) -> (r: Result<
    Execution,
    Error,
>)
    requires
        column.wf(),
    ensures
        scanned(
            r,
            *column,
            *query,
            mode,
            asked_rows(column.truth@.len() as int, *query).0,
            asked_rows(column.truth@.len() as int, *query).1,
        ),
{
    match validate_query(column.truth.len(), query) {
        Ok(()) => {},
        Err(e) => {
            return Err(e);
        },
    }
    let (from, to) = match *query {
        Query::Get { row } => (row, row + 1),
        Query::Sum { rows } => (rows.start, rows.end),
        Query::Between { rows, .. } => (rows.start, rows.end),
        _ => (0, column.truth.len()),
    };
    execute_rows(column, query, mode, from, to)
}

/// Decodes all rows first and answers a query from their values.
pub fn execute_full_decode(column: &EncodedColumn, query: &Query, mode: ClosureMode) -> (r: Result<
    Execution,
    Error,
>)
    requires
        column.wf(),
    ensures
        scanned(r, *column, *query, mode, 0, column.truth@.len() as int),
{
    let len: usize = column.truth.len();
    match validate_query(len, query) {
        Ok(()) => {},
        Err(e) => {
            return Err(e);
        },
    }
    let mut session = ReadSession::new(&column.page, mode);
    let ghost start = session;
    let ghost context = session.context();
    let ghost nodes = column.decoder.arena();
    let root: NodeId = column.decoder.root();
    match load_metadata(&column.page, &mut session) {
        Ok(()) => {},
        Err(e) => {
            return Err(e);
        },
    }
    let ghost middle = session;
    let decoded = decode_rows(&column.decoder, root, len, &mut session);
    proof {
        let header = metadata_outcome(context).trace;
        let rows = rows_outcome(context, nodes, root.0 as int, 0, len as int).trace;
        assert(rows + Seq::<Event>::empty() =~= rows);
        session.lemma_join(middle, start, header, rows);
    }
    let values = match decoded {
        Ok(values) => values,
        Err(e) => {
            return Err(e);
        },
    };
    let answer = query_materialized(&values, query);
    proof {
        let ours = decoded_value(context, nodes, root.0 as int);
        let theirs = listed(values@);
        assert forall|k: int| 0 <= k < len implies #[trigger] theirs(k) == ours(k) by {
            assert(values@[k] == ours(k));
        }
        lemma_same_answer(*query, len as int, theirs, ours);
    }
    match session.checked_metrics() {
        Some(metrics) => Ok(Execution { answer, metrics, decoded_rows: len }),
        None => Err(Error::AccessUncountable),
    }
}

/// Decodes the first `len` rows of a node.
pub(crate) fn decode_rows(decoder: &DecoderIr, id: NodeId, len: usize, session: &mut ReadSession<'_>) -> (r:
    Result<Vec<Option<i64>>, Error>)
    requires
        decoder.wf(),
        old(session).wf(),
    ensures
        ({
            let context = old(session).context();
            let wanted = rows_outcome(context, decoder.arena(), id.0 as int, 0, len as int);
            &&& final(session).follows(*old(session), wanted.trace)
            &&& match wanted.result {
                Ok(_) => r matches Ok(values) && values@.len() == len && forall|k: int|
                    0 <= k < len ==> #[trigger] values@[k] == decoded_value(
                        context,
                        decoder.arena(),
                        id.0 as int,
                    )(k),
                Err(e) => r matches Err(found) && found == e,
            }
        }),
{
    let ghost start = *session;
    let ghost context = session.context();
    let ghost nodes = decoder.arena();
    let ghost top = id.0 as int;
    let mut values: Vec<Option<i64>> = Vec::new();
    let mut row: usize = 0;
    proof {
        session.lemma_still();
    }
    while row < len
        invariant
            row <= len,
            decoder.wf(),
            start == *old(session),
            context == start.context(),
            nodes == decoder.arena(),
            top == id.0,
            session.follows(start, rows_outcome(context, nodes, top, 0, row as int).trace),
            rows_outcome(context, nodes, top, 0, row as int).result is Ok,
            values@.len() == row,
            forall|k: int|
                0 <= k < row ==> #[trigger] values@[k] == decoded_value(context, nodes, top)(k),
        decreases len - row,
    {
        let ghost before = *session;
        let ghost step = get_outcome(context, nodes, top, row as int);
        let ghost so_far = rows_outcome(context, nodes, top, 0, row as int);
        let ghost more = rows_outcome(context, nodes, top, 0, row + 1);
        let read = get(decoder, id, row, session);
        proof {
            session.lemma_join(before, start, so_far.trace, step.trace);
            assert(step.trace + Seq::<Event>::empty() =~= step.trace);
            assert(more.trace == so_far.trace + step.trace);
        }
        match read {
            Ok(value) => {
                values.push(value);
            },
            Err(e) => {
                proof {
                    lemma_rows_stop(context, nodes, top, 0, row + 1, len as int);
                }
                return Err(e);
            },
        }
        row = row + 1;
    }
    Ok(values)
}

/// Decodes all rows and answers a query as they come.
pub fn execute_fused_decode(column: &EncodedColumn, query: &Query, mode: ClosureMode) -> (r: Result<
    Execution,
    Error,
>)
    requires
        column.wf(),
    ensures
        scanned(r, *column, *query, mode, 0, column.truth@.len() as int),
{
    let len: usize = column.truth.len();
    match validate_query(len, query) {
        Ok(()) => {},
        Err(e) => {
            return Err(e);
        },
    }
    execute_rows(column, query, mode, 0, len)
}

fn validate_query(len: usize, query: &Query) -> (r: Result<(), Error>)
    ensures
        match query_error(len as int, *query) {
            None => r is Ok,
            Some(e) => r matches Err(found) && found == e,
        },
{
    match *query {
        Query::Get { row } => {
            if row >= len {
                return Err(Error::GetRowOutside);
            }
        },
        Query::Sum { rows } => {
            if rows.start > rows.end || rows.end > len {
                return Err(Error::QueryRowsInvalid);
            }
        },
        Query::Between { rows, low, high } => {
            if rows.start > rows.end || rows.end > len {
                return Err(Error::QueryRowsInvalid);
            }
            if low > high {
                return Err(Error::BetweenBoundsInvalid);
            }
        },
        Query::Filter { predicate: Predicate::Between { low, high } } => {
            if low > high {
                return Err(Error::BetweenBoundsInvalid);
            }
        },
        _ => {},
    }
    Ok(())
}

fn is_match(predicate: Predicate, value: Option<i64>) -> (r: bool)
    ensures
        r == satisfies(predicate, value),
{
    match (predicate, value) {
        (_, None) => false,
        (Predicate::Between { low, high }, Some(value)) => low <= value && value <= high,
        (Predicate::Equals { value: target }, Some(value)) => value == target,
    }
}

/// The answer before any row.
fn no_answer(query: &Query) -> (r: Answer)
    ensures
        forall|len: int, row_value: spec_fn(int) -> Option<i64>, k: int|
            k <= asked_rows(len, *query).0 ==> r@ == #[trigger] answer_before(
                *query,
                len,
                row_value,
                k,
            ),
{
    match *query {
        Query::Get { .. } => Answer::Value(None),
        Query::Sum { .. } => Answer::Sum(0),
        Query::Between { .. } => Answer::Ranges(Vec::new()),
        Query::Filter { .. } => Answer::Ranges(Vec::new()),
        Query::Count { .. } => Answer::Count(0),
    }
}

/// The answer with one more row.
fn with_row(answer: Answer, query: &Query, row: usize, value: Option<i64>) -> (r: Answer)
    requires
        reply_fits(answer@, row as int),
        row < usize::MAX,
    ensures
        r@ == reply_step(*query, answer@, row as int, value),
{
    match (*query, answer) {
        (Query::Get { row: wanted }, answer) => if row == wanted {
            Answer::Value(value)
        } else {
            answer
        },
        (Query::Sum { rows }, Answer::Sum(sum)) => {
            if rows.start <= row && row < rows.end {
                if let Some(value) = value {
                    return Answer::Sum(sum + value as i128);
                }
            }
            Answer::Sum(sum)
        },
        (Query::Between { rows, low, high }, Answer::Ranges(ranges)) => {
            let mut ranges = ranges;
            if rows.start <= row && row < rows.end && is_match(
                Predicate::Between { low, high },
                value,
            ) {
                push_range(&mut ranges, row, row + 1);
            }
            Answer::Ranges(ranges)
        },
        (Query::Filter { predicate }, Answer::Ranges(ranges)) => {
            let mut ranges = ranges;
            if is_match(predicate, value) {
                push_range(&mut ranges, row, row + 1);
            }
            Answer::Ranges(ranges)
        },
        (Query::Count { predicate }, Answer::Count(count)) => if is_match(predicate, value) {
            Answer::Count(count + 1)
        } else {
            Answer::Count(count)
        },
        (_, answer) => answer,
    }
}

/// Answers a query from values.
pub(crate) fn query_materialized(values: &Vec<Option<i64>>, query: &Query) -> (r: Answer)
    requires
        query_error(values@.len() as int, *query) is None,
    ensures
        r@ == answer_of(*query, values@.len() as int, listed(values@)),
{
    let len: usize = values.len();
    let ghost row_value = listed(values@);
    let mut answer = no_answer(query);
    let mut row: usize = 0;
    while row < len
        invariant
            len == values@.len(),
            row <= len,
            row_value == listed(values@),
            query_error(len as int, *query) is None,
            answer@ == answer_before(*query, len as int, row_value, row as int),
        decreases len - row,
    {
        proof {
            lemma_reply_fits(*query, len as int, row_value, row as int);
            lemma_answer_step(*query, len as int, row_value, row as int);
        }
        answer = with_row(answer, query, row, values[row]);
        row = row + 1;
    }
    answer
}

/// Decodes rows `from..to` of a node and answers a query as they come.
pub(crate) fn scan_rows(
    decoder: &DecoderIr,
    id: NodeId,
    query: &Query,
    len: usize,
    from: usize,
    to: usize,
    session: &mut ReadSession<'_>,
) -> (r: Result<Answer, Error>)
    requires
        decoder.wf(),
        old(session).wf(),
        query_error(len as int, *query) is None,
        from <= asked_rows(len as int, *query).0,
        asked_rows(len as int, *query).1 <= to <= len,
        from <= to,
    ensures
        ({
            let context = old(session).context();
            let wanted = rows_outcome(
                context,
                decoder.arena(),
                id.0 as int,
                from as int,
                to as int,
            );
            &&& final(session).follows(*old(session), wanted.trace)
            &&& match wanted.result {
                Ok(_) => r matches Ok(answer) && answer@ == answer_of(
                    *query,
                    len as int,
                    decoded_value(context, decoder.arena(), id.0 as int),
                ),
                Err(e) => r matches Err(found) && found == e,
            }
        }),
{
    let ghost start = *session;
    let ghost context = session.context();
    let ghost nodes = decoder.arena();
    let ghost top = id.0 as int;
    let ghost row_value = decoded_value(context, nodes, top);
    let mut answer = no_answer(query);
    let mut row: usize = from;
    proof {
        session.lemma_still();
    }
    while row < to
        invariant
            from <= row <= to <= len,
            decoder.wf(),
            start == *old(session),
            context == start.context(),
            nodes == decoder.arena(),
            top == id.0,
            row_value == decoded_value(context, nodes, top),
            session.follows(
                start,
                rows_outcome(context, nodes, top, from as int, row as int).trace,
            ),
            rows_outcome(context, nodes, top, from as int, row as int).result is Ok,
            answer@ == answer_before(*query, len as int, row_value, row as int),
            query_error(len as int, *query) is None,
        decreases to - row,
    {
        let ghost before = *session;
        let ghost step = get_outcome(context, nodes, top, row as int);
        let ghost so_far = rows_outcome(context, nodes, top, from as int, row as int);
        let ghost more = rows_outcome(context, nodes, top, from as int, row + 1);
        let read = get(decoder, id, row, session);
        proof {
            session.lemma_join(before, start, so_far.trace, step.trace);
            assert(step.trace + Seq::<Event>::empty() =~= step.trace);
            assert(more.trace == so_far.trace + step.trace);
        }
        match read {
            Ok(value) => {
                proof {
                    lemma_reply_fits(*query, len as int, row_value, row as int);
                    lemma_answer_step(*query, len as int, row_value, row as int);
                    assert(row_value(row as int) == value);
                }
                answer = with_row(answer, query, row, value);
            },
            Err(e) => {
                proof {
                    lemma_rows_stop(context, nodes, top, from as int, row + 1, to as int);
                }
                return Err(e);
            },
        }
        row = row + 1;
    }
    Ok(answer)
}

/// The result of a query that decodes rows `from..to` in a session that may have
/// read before.
pub open spec fn scanned_in(
    r: Result<Execution, Error>,
    column: EncodedColumn,
    query: Query,
    before: ReadSession<'_>,
    after: ReadSession<'_>,
    from: int,
    to: int,
) -> bool {
    let context = before.context();
    let wanted = scan_answer(
        context,
        column.decoder.arena(),
        column.decoder.top().0 as int,
        query,
        column.truth@.len() as int,
        from,
        to,
    );
    &&& after.follows(before, wanted.trace)
    &&& match wanted.result {
        Err(e) => r matches Err(found) && found == e,
        Ok(reply) => if context.accounted && after@.logical.len() > usize::MAX {
            r matches Err(found) && found == Error::AccessUncountable
        } else {
            r matches Ok(execution) && execution.answer@ == reply && execution.metrics
                == metrics_of(context, after@) && execution.decoded_rows == to - from
        },
    }
}

/// Decodes rows `from..to` in a session and answers a query as they come.
fn session_rows(
    column: &EncodedColumn,
    query: &Query,
    from: usize,
    to: usize,
    session: &mut ReadSession<'_>,
) -> (r: Result<Execution, Error>)
    requires
        column.wf(),
        old(session).wf(),
        column.page.plan() == old(session).context().layout,
        query_error(column.truth@.len() as int, *query) is None,
        from <= asked_rows(column.truth@.len() as int, *query).0,
        asked_rows(column.truth@.len() as int, *query).1 <= to <= column.truth@.len(),
        from <= to,
    ensures
        scanned_in(r, *column, *query, *old(session), *final(session), from as int, to as int),
{
    let ghost start = *session;
    let ghost context = session.context();
    let len: usize = column.truth.len();
    let root: NodeId = column.decoder.root();
    match load_metadata(&column.page, session) {
        Ok(()) => {},
        Err(e) => {
            return Err(e);
        },
    }
    let ghost middle = *session;
    let scan = scan_rows(&column.decoder, root, query, len, from, to, session);
    proof {
        let header = metadata_outcome(context).trace;
        let rows = rows_outcome(
            context,
            column.decoder.arena(),
            root.0 as int,
            from as int,
            to as int,
        ).trace;
        assert(rows + Seq::<Event>::empty() =~= rows);
        session.lemma_join(middle, start, header, rows);
    }
    match scan {
        Ok(answer) => match session.checked_metrics() {
            Some(metrics) => Ok(Execution { answer, metrics, decoded_rows: to - from }),
            None => Err(Error::AccessUncountable),
        },
        Err(e) => Err(e),
    }
}

/// Answers a query in a session on the column's page, from the rows that it asks
/// about or from all rows.
pub fn execute_session(
    column: &EncodedColumn,
    query: &Query,
    all_rows: bool,
    session: &mut ReadSession<'_>,
) -> (r: Result<Execution, Error>)
    requires
        column.wf(),
        old(session).wf(),
        column.page.plan() == old(session).context().layout,
    ensures
        ({
            let len = column.truth@.len() as int;
            match query_error(len, *query) {
                Some(e) => (r matches Err(found) && found == e) && final(session).follows(
                    *old(session),
                    Seq::empty(),
                ),
                None => scanned_in(
                    r,
                    *column,
                    *query,
                    *old(session),
                    *final(session),
                    if all_rows {
                        0
                    } else {
                        asked_rows(len, *query).0
                    },
                    if all_rows {
                        len
                    } else {
                        asked_rows(len, *query).1
                    },
                ),
            }
        }),
{
    let len: usize = column.truth.len();
    match validate_query(len, query) {
        Ok(()) => {},
        Err(e) => {
            proof {
                session.lemma_still();
            }
            return Err(e);
        },
    }
    if all_rows {
        return session_rows(column, query, 0, len, session);
    }
    let (from, to) = match *query {
        Query::Get { row } => (row, row + 1),
        Query::Sum { rows } => (rows.start, rows.end),
        Query::Between { rows, .. } => (rows.start, rows.end),
        Query::Filter { .. } => (0, len),
        Query::Count { .. } => (0, len),
    };
    session_rows(column, query, from, to, session)
}

/// Decodes rows `from..to` and answers a query as they come.
fn execute_rows(column: &EncodedColumn, query: &Query, mode: ClosureMode, from: usize, to: usize) -> (r:
    Result<Execution, Error>)
    requires
        column.wf(),
        query_error(column.truth@.len() as int, *query) is None,
        from <= asked_rows(column.truth@.len() as int, *query).0,
        asked_rows(column.truth@.len() as int, *query).1 <= to <= column.truth@.len(),
        from <= to,
    ensures
        scanned(r, *column, *query, mode, from as int, to as int),
{
    let mut session = ReadSession::new(&column.page, mode);
    session_rows(column, query, from, to, &mut session)
}

/// The count with the runs `run..runs` whose value is the target.
pub open spec fn runs_outcome(
    context: Context,
    nodes: Seq<DecoderNode>,
    values: int,
    lengths: FieldId,
    target: i64,
    run: int,
    runs: int,
    count: int,
) -> Outcome<int>
    decreases runs - run,
{
    if run >= runs {
        given(count)
    } else {
        chain(
            get_outcome(context, nodes, values, run),
            |value: Option<i64>|
                if value == Some(target) {
                    chain(
                        u32_outcome(context, lengths, run),
                        |length: u32|
                            if count + length > usize::MAX {
                                failed(Error::CountOverflow)
                            } else {
                                runs_outcome(
                                    context,
                                    nodes,
                                    values,
                                    lengths,
                                    target,
                                    run + 1,
                                    runs,
                                    count + length,
                                )
                            },
                    )
                } else {
                    runs_outcome(
                        context,
                        nodes,
                        values,
                        lengths,
                        target,
                        run + 1,
                        runs,
                        count,
                    )
                },
        )
    }
}

/// Reading the header, then counting by runs.
pub open spec fn count_runs_answer(
    context: Context,
    nodes: Seq<DecoderNode>,
    root: NodeId,
    target: i64,
) -> Outcome<Reply> {
    chain(
        metadata_outcome(context),
        |done: ()|
            match nodes[root.0 as int] {
                DecoderNode::Rle { values, run_lengths, runs, .. } => chain(
                    runs_outcome(
                        context,
                        nodes,
                        values.0 as int,
                        run_lengths,
                        target,
                        0,
                        runs as int,
                        0,
                    ),
                    |count: int| given(Reply::Count(count)),
                ),
                _ => failed(Error::CountNeedsRuns),
            },
    )
}

pub open spec fn run_count(nodes: Seq<DecoderNode>, root: NodeId) -> int {
    match nodes[root.0 as int] {
        DecoderNode::Rle { runs, .. } => runs as int,
        _ => 0,
    }
}

/// Counts the rows that equal a value from the runs of a run-length encoded
/// column: one value is decoded for each run, and the length is read where it
/// matches.
#[verifier::rlimit(60)]
#[verifier::spinoff_prover]
pub fn execute_count_runs(column: &EncodedColumn, target: i64, mode: ClosureMode) -> (r: Result<
    Execution,
    Error,
>)
    requires
        column.wf(),
    ensures
        executed(
            r,
            page_context(&column.page, mode, true),
            count_runs_answer(
                page_context(&column.page, mode, true),
                column.decoder.arena(),
                column.decoder.top(),
                target,
            ),
            run_count(column.decoder.arena(), column.decoder.top()),
        ),
{
    let mut session = ReadSession::new(&column.page, mode);
    let ghost start = session;
    let ghost context = session.context();
    let ghost nodes = column.decoder.arena();
    let root: NodeId = column.decoder.root();
    let ghost header = metadata_outcome(context).trace;
    assert(header + Seq::<Event>::empty() =~= header);
    match load_metadata(&column.page, &mut session) {
        Ok(()) => {},
        Err(e) => {
            return Err(e);
        },
    }
    let node: DecoderNode = match column.decoder.node(root) {
        Ok(node) => *node,
        Err(e) => {
            return Err(e);
        },
    };
    let (values, lengths, runs) = match node {
        DecoderNode::Rle { values, run_lengths, runs, .. } => (values, run_lengths, runs),
        _ => {
            return Err(Error::CountNeedsRuns);
        },
    };
    let ghost below = values.0 as int;
    let ghost counting = runs_outcome(context, nodes, below, lengths, target, 0, runs as int, 0);
    let ghost whole = header + counting.trace;
    assert(counting.trace + Seq::<Event>::empty() =~= counting.trace);
    let ghost wanted = count_runs_answer(context, nodes, root, target);
    let ghost mut done = header;
    let mut count: usize = 0;
    let mut run: usize = 0;
    while run < runs
        invariant
            run <= runs,
            column.wf(),
            start@ == empty_ledger(),
            context == start.context(),
            context == page_context(&column.page, mode, true),
            nodes == column.decoder.arena(),
            root == column.decoder.top(),
            below == values.0,
            session.follows(start, done),
            wanted == count_runs_answer(context, nodes, root, target),
            wanted.trace == whole,
            counting.result is Err ==> wanted.result == Err::<Reply, Error>(
                counting.result->Err_0,
            ),
            counting.result is Ok ==> wanted.result == Ok::<Reply, Error>(
                Reply::Count(counting.result->Ok_0),
            ),
            whole == done + runs_outcome(
                context,
                nodes,
                below,
                lengths,
                target,
                run as int,
                runs as int,
                count as int,
            ).trace,
            counting.result == runs_outcome(
                context,
                nodes,
                below,
                lengths,
                target,
                run as int,
                runs as int,
                count as int,
            ).result,
        decreases runs - run,
    {
        let ghost before = session;
        let ghost rest = runs_outcome(
            context,
            nodes,
            below,
            lengths,
            target,
            run as int,
            runs as int,
            count as int,
        );
        let ghost step = get_outcome(context, nodes, below, run as int);
        let read = get(&column.decoder, values, run, &mut session);
        proof {
            session.lemma_join(before, start, done, step.trace);
        }
        let value = match read {
            Ok(value) => value,
            Err(e) => {
                return Err(e);
            },
        };
        let ghost reached = done + step.trace;
        let hit = match value {
            Some(value) => value == target,
            None => false,
        };
        if hit {
            let ghost middle = session;
            let ghost second = u32_outcome(context, lengths, run as int);
            let read = session.read_u32(lengths, run);
            proof {
                session.lemma_join(middle, start, reached, second.trace);
                assert(second.trace + Seq::<Event>::empty() =~= second.trace);
                assert(done + (step.trace + second.trace) =~= reached + second.trace);
            }
            let length: usize = match read {
                Ok(length) => length as usize,
                Err(e) => {
                    return Err(e);
                },
            };
            let more: usize = match count.checked_add(length) {
                Some(more) => more,
                None => {
                    return Err(Error::CountOverflow);
                },
            };
            proof {
                let after = runs_outcome(
                    context,
                    nodes,
                    below,
                    lengths,
                    target,
                    run + 1,
                    runs as int,
                    more as int,
                );
                assert(rest.trace == step.trace + (second.trace + after.trace));
                assert(done + (step.trace + (second.trace + after.trace)) =~= (reached
                    + second.trace) + after.trace);
                done = reached + second.trace;
            }
            count = more;
        } else {
            proof {
                let after = runs_outcome(
                    context,
                    nodes,
                    below,
                    lengths,
                    target,
                    run + 1,
                    runs as int,
                    count as int,
                );
                assert(rest.trace == step.trace + after.trace);
                assert(done + (step.trace + after.trace) =~= reached + after.trace);
                done = reached;
            }
        }
        run = run + 1;
    }
    assert(done + Seq::<Event>::empty() =~= done);
    match session.checked_metrics() {
        Some(metrics) => Ok(
            Execution { answer: Answer::Count(count), metrics, decoded_rows: runs },
        ),
        None => Err(Error::AccessUncountable),
    }
}

} // verus!
