//! Queries by decoders whose shape is a type.
#[allow(unused_imports)]
use super::coding::{fits_i128, fits_i64};
use super::encode::EncodedColumn;
use super::error::Error;
use super::execute::{Answer, Execution};
#[allow(unused_imports)]
use super::execute::{executed, Reply};
use super::ids::FieldId;
use super::invariants::NullPlacement;
use super::runtime::{ClosureMode, ReadSession};
#[allow(unused_imports)]
use super::runtime::{chain, failed, given, i64_outcome, page_context, Context, Event, Outcome};
use super::span::Span;
use super::static_baseline::StaticDecoder;
#[allow(unused_imports)]
use super::static_baseline::entry_of;
use super::static_baseline::exec_entry_of;
use super::support::{load_metadata, push_range};
#[allow(unused_imports)]
use super::support::{metadata_outcome, pushed_range};
use super::visitor::Visitor;
#[allow(unused_imports)]
use super::visitor::{left_of, number, walked, Walk};
use vstd::prelude::*;

verus! {

/// The result of a session that was opened for an outcome: the reply, and the
/// number of rows that were decoded for it.
pub open spec fn tallied(
    r: Result<Execution, Error>,
    context: Context,
    outcome: Outcome<(Reply, int)>,
) -> bool {
    match outcome.result {
        Err(e) => r matches Err(found) && found == e,
        Ok((reply, decoded)) => executed(
            r,
            context,
            Outcome { result: Ok(reply), trace: outcome.trace },
            decoded,
        ),
    }
}

/// Reading the header, then the rest.
pub open spec fn after_header(context: Context, rest: Outcome<(Reply, int)>) -> Outcome<(Reply, int)> {
    chain(metadata_outcome(context), |done: ()| rest)
}

pub open spec fn rows_invalid(column: EncodedColumn, rows: Span) -> bool {
    rows.start > rows.end || rows.end > column.truth@.len()
}

/// The account of a session that did what an outcome says.
fn conclude(
    session: ReadSession<'_>,
    answer: Answer,
    decoded_rows: usize,
    Ghost(first): Ghost<ReadSession<'_>>,
    Ghost(outcome): Ghost<Outcome<(Reply, int)>>,
) -> (r: Result<Execution, Error>)
    requires
        first@ == super::runtime::empty_ledger(),
        session.follows(first, outcome.trace),
        outcome.result == Ok::<(Reply, int), Error>((answer@, decoded_rows as int)),
    ensures
        tallied(r, first.context(), outcome),
{
    match session.checked_metrics() {
        Some(metrics) => Ok(Execution { answer, metrics, decoded_rows }),
        None => Err(Error::AccessUncountable),
    }
}

// ----- one row -----

pub open spec fn get_reply(value: Option<int>) -> Outcome<(Reply, int)> {
    match value {
        None => given((Reply::Value(None), 1int)),
        Some(value) => if fits_i64(value) {
            given((Reply::Value(Some(value as i64)), 1int))
        } else {
            failed(Error::StaticGetTooLarge)
        },
    }
}

/// Decodes one row.
pub fn static_get<D: StaticDecoder>(column: &EncodedColumn, row: usize, mode: ClosureMode) -> (r:
    Result<Execution, Error>)
    requires
        column.wf(),
        D::sound(),
    ensures
        ({
            let context = page_context(&column.page, mode, true);
            if row >= column.truth@.len() {
                r matches Err(found) && found == Error::StaticGetOutside
            } else {
                tallied(
                    r,
                    context,
                    after_header(
                        context,
                        chain(
                            D::value(context, row as int),
                            |value: Option<int>| get_reply(value),
                        ),
                    ),
                )
            }
        }),
{
    if row >= column.truth.len() {
        return Err(Error::StaticGetOutside);
    }
    let mut session = ReadSession::new(&column.page, mode);
    let ghost first = session;
    let ghost context = session.context();
    match load_metadata(&column.page, &mut session) {
        Ok(()) => {},
        Err(e) => {
            return Err(e);
        },
    }
    let ghost middle = session;
    let value = D::get(&mut session, row);
    let ghost inner = D::value(context, row as int);
    let ghost all = after_header(
        context,
        chain(inner, |value: Option<int>| get_reply(value)),
    );
    proof {
        let header = metadata_outcome(context).trace;
        session.lemma_join(middle, first, header, inner.trace);
        assert(header + (inner.trace + Seq::<Event>::empty()) =~= header + inner.trace);
    }
    let value = match value {
        Ok(value) => value,
        Err(e) => {
            return Err(e);
        },
    };
    let value = match value {
        None => None,
        Some(value) => if value < i64::MIN as i128 || value > i64::MAX as i128 {
            return Err(Error::StaticGetTooLarge);
        } else {
            Some(value as i64)
        },
    };
    conclude(session, Answer::Value(value), 1, Ghost(first), Ghost(all))
}

// ----- sums and ranges -----

/// Adds up values.
pub struct SumVisitor {
    sum: i128,
    decoded: usize,
}

/// The number of decoded rows after some more.
pub open spec fn more_rows(decoded: int, start: int, end: int) -> Result<int, Error> {
    if decoded + (end - start) > usize::MAX {
        Err(Error::DecodedRowsOverflow)
    } else {
        Ok(decoded + (end - start))
    }
}

fn exec_more_rows(decoded: usize, start: usize, end: usize) -> (r: Result<usize, Error>)
    requires
        start <= end,
    ensures
        match more_rows(decoded as int, start as int, end as int) {
            Ok(next) => r matches Ok(found) && found == next,
            Err(e) => r matches Err(found) && found == e,
        },
{
    match decoded.checked_add(end - start) {
        Some(next) => Ok(next),
        None => Err(Error::DecodedRowsOverflow),
    }
}

/// The sum and the number of decoded rows after some more rows of one value.
pub open spec fn sum_step(state: (int, int), value: Option<int>, start: int, end: int) -> Outcome<
    (int, int),
> {
    match more_rows(state.1, start, end) {
        Err(e) => failed(e),
        Ok(decoded) => match value {
            None => given((state.0, decoded)),
            Some(value) => if !fits_i128(value * (end - start)) {
                failed(Error::StaticProductOverflow)
            } else if !fits_i128(state.0 + value * (end - start)) {
                failed(Error::StaticSumOverflow)
            } else {
                given((state.0 + value * (end - start), decoded))
            },
        },
    }
}

impl Visitor for SumVisitor {
    type State = (int, int);

    closed spec fn state(&self) -> (int, int) {
        (self.sum as int, self.decoded as int)
    }

    open spec fn step(
        context: Context,
        state: (int, int),
        value: Option<int>,
        start: int,
        end: int,
    ) -> Outcome<(int, int)> {
        sum_step(state, value, start, end)
    }

    fn accept(
        self,
        session: &mut ReadSession<'_>,
        value: Option<i128>,
        start: usize,
        end: usize,
    ) -> (r: Result<Self, Error>) {
        proof {
            session.lemma_still();
        }
        let decoded: usize = match exec_more_rows(self.decoded, start, end) {
            Ok(decoded) => decoded,
            Err(e) => {
                return Err(e);
            },
        };
        let sum: i128 = match value {
            None => self.sum,
            Some(value) => match value.checked_mul((end - start) as i128) {
                None => {
                    return Err(Error::StaticProductOverflow);
                },
                Some(product) => match self.sum.checked_add(product) {
                    None => {
                        return Err(Error::StaticSumOverflow);
                    },
                    Some(sum) => sum,
                },
            },
        };
        Ok(SumVisitor { sum, decoded })
    }
}

/// The sum of the values that a walk gives.
pub open spec fn sum_walked(context: Context, walk: Walk) -> Outcome<(Reply, int)> {
    chain(
        walked::<SumVisitor>(context, walk, (0, 0)),
        |state: (int, int)| given((Reply::Sum(state.0), state.1)),
    )
}

/// Sums the values of the rows; nulls are passed over.
pub fn static_sum<D: StaticDecoder>(column: &EncodedColumn, rows: Span, mode: ClosureMode) -> (r:
    Result<Execution, Error>)
    requires
        column.wf(),
        D::sound(),
    ensures
        ({
            let context = page_context(&column.page, mode, true);
            let walk = D::walk(context, rows.start as int, rows.end as int);
            if rows_invalid(*column, rows) {
                r matches Err(found) && found == Error::StaticRowsInvalid
            } else {
                tallied(r, context, after_header(context, sum_walked(context, walk)))
            }
        }),
{
    if rows.start > rows.end || rows.end > column.truth.len() {
        return Err(Error::StaticRowsInvalid);
    }
    let mut session = ReadSession::new(&column.page, mode);
    let ghost first = session;
    let ghost context = session.context();
    match load_metadata(&column.page, &mut session) {
        Ok(()) => {},
        Err(e) => {
            return Err(e);
        },
    }
    let ghost middle = session;
    let ghost walk = D::walk(context, rows.start as int, rows.end as int);
    let ghost inner = walked::<SumVisitor>(context, walk, (0, 0));
    let ghost all = after_header(context, sum_walked(context, walk));
    let visitor = SumVisitor { sum: 0, decoded: 0 };
    let r = D::visit(&mut session, rows.start, rows.end, visitor);
    proof {
        let header = metadata_outcome(context).trace;
        session.lemma_join(middle, first, header, inner.trace);
        assert(header + (inner.trace + Seq::<Event>::empty()) =~= header + inner.trace);
    }
    match r {
        Ok(visitor) => conclude(
            session,
            Answer::Sum(visitor.sum),
            visitor.decoded,
            Ghost(first),
            Ghost(all),
        ),
        Err(e) => Err(e),
    }
}

/// Gathers the rows whose values lie between two bounds.
pub struct BetweenVisitor {
    low: i64,
    high: i64,
    ranges: Vec<Span>,
    decoded: usize,
}

/// The bounds, the ranges found, and the number of decoded rows.
pub struct Between {
    pub low: int,
    pub high: int,
    pub ranges: Seq<Span>,
    pub decoded: int,
}

/// What is gathered after some more rows of one value.
pub open spec fn between_step(state: Between, value: Option<int>, start: int, end: int) -> Outcome<
    Between,
> {
    match more_rows(state.decoded, start, end) {
        Err(e) => failed(e),
        Ok(decoded) => given(
            Between {
                ranges: if value matches Some(value) && state.low <= value <= state.high {
                    pushed_range(state.ranges, start, end)
                } else {
                    state.ranges
                },
                decoded,
                ..state
            },
        ),
    }
}

impl Visitor for BetweenVisitor {
    type State = Between;

    closed spec fn state(&self) -> Between {
        Between {
            low: self.low as int,
            high: self.high as int,
            ranges: self.ranges@,
            decoded: self.decoded as int,
        }
    }

    open spec fn step(
        context: Context,
        state: Between,
        value: Option<int>,
        start: int,
        end: int,
    ) -> Outcome<Between> {
        between_step(state, value, start, end)
    }

    fn accept(
        self,
        session: &mut ReadSession<'_>,
        value: Option<i128>,
        start: usize,
        end: usize,
    ) -> (r: Result<Self, Error>) {
        proof {
            session.lemma_still();
        }
        let decoded: usize = match exec_more_rows(self.decoded, start, end) {
            Ok(decoded) => decoded,
            Err(e) => {
                return Err(e);
            },
        };
        let mut ranges = self.ranges;
        if let Some(value) = value {
            if self.low as i128 <= value && value <= self.high as i128 {
                push_range(&mut ranges, start, end);
            }
        }
        Ok(BetweenVisitor { low: self.low, high: self.high, ranges, decoded })
    }
}

/// The rows whose values lie between the bounds, of those that a walk gives.
pub open spec fn between_walked(context: Context, walk: Walk, low: int, high: int) -> Outcome<
    (Reply, int),
> {
    chain(
        walked::<BetweenVisitor>(
            context,
            walk,
            Between { low, high, ranges: Seq::empty(), decoded: 0 },
        ),
        |state: Between| given((Reply::Ranges(state.ranges), state.decoded)),
    )
}

/// Finds the rows whose values lie between two bounds.
pub fn static_between<D: StaticDecoder>(
    column: &EncodedColumn,
    rows: Span,
    low: i64,
    high: i64,
    mode: ClosureMode,
) -> (r: Result<Execution, Error>)
    requires
        column.wf(),
        D::sound(),
    ensures
        ({
            let context = page_context(&column.page, mode, true);
            let walk = D::walk(context, rows.start as int, rows.end as int);
            if rows_invalid(*column, rows) {
                r matches Err(found) && found == Error::StaticRowsInvalid
            } else if low > high {
                r matches Err(found) && found == Error::StaticBoundsInvalid
            } else {
                tallied(
                    r,
                    context,
                    after_header(context, between_walked(context, walk, low as int, high as int)),
                )
            }
        }),
{
    if rows.start > rows.end || rows.end > column.truth.len() {
        return Err(Error::StaticRowsInvalid);
    }
    if low > high {
        return Err(Error::StaticBoundsInvalid);
    }
    let mut session = ReadSession::new(&column.page, mode);
    let ghost first = session;
    let ghost context = session.context();
    match load_metadata(&column.page, &mut session) {
        Ok(()) => {},
        Err(e) => {
            return Err(e);
        },
    }
    let ghost middle = session;
    let ghost walk = D::walk(context, rows.start as int, rows.end as int);
    let visitor = BetweenVisitor { low, high, ranges: Vec::new(), decoded: 0 };
    let ghost start = Between {
        low: low as int,
        high: high as int,
        ranges: Seq::empty(),
        decoded: 0,
    };
    assert(visitor.state() == start);
    let ghost inner = walked::<BetweenVisitor>(context, walk, start);
    let ghost all = after_header(
        context,
        between_walked(context, walk, low as int, high as int),
    );
    let r = D::visit(&mut session, rows.start, rows.end, visitor);
    proof {
        let header = metadata_outcome(context).trace;
        session.lemma_join(middle, first, header, inner.trace);
        assert(header + (inner.trace + Seq::<Event>::empty()) =~= header + inner.trace);
    }
    match r {
        Ok(visitor) => conclude(
            session,
            Answer::Ranges(visitor.ranges),
            visitor.decoded,
            Ghost(first),
            Ghost(all),
        ),
        Err(e) => Err(e),
    }
}

// ----- values in order -----

/// A row comes before the boundary at a bound, where its nulls stand at one end.
pub open spec fn comes_before(
    value: Option<int>,
    bound: int,
    inclusive: bool,
    nulls: NullPlacement,
) -> Result<bool, Error> {
    match (nulls, value) {
        (NullPlacement::NoNulls, None) => Err(Error::MonotoneNull),
        (NullPlacement::First, None) => Ok(true),
        (NullPlacement::Last, None) => Ok(false),
        (NullPlacement::Arbitrary, _) => Err(Error::MonotoneArbitrary),
        (_, Some(value)) => Ok(
            if inclusive {
                value <= bound
            } else {
                value < bound
            },
        ),
    }
}

pub(crate) fn monotone_before(value: Option<i128>, bound: i128, inclusive: bool, nulls: NullPlacement) -> (r:
    Result<bool, Error>)
    ensures
        r == comes_before(number(value), bound as int, inclusive, nulls),
{
    match (nulls, value) {
        (NullPlacement::NoNulls, None) => Err(Error::MonotoneNull),
        (NullPlacement::First, None) => Ok(true),
        (NullPlacement::Last, None) => Ok(false),
        (NullPlacement::Arbitrary, _) => Err(Error::MonotoneArbitrary),
        (_, Some(value)) => Ok(
            if inclusive {
                value <= bound
            } else {
                value < bound
            },
        ),
    }
}

/// Halving `left..right` down to the first row that does not come before the
/// boundary; with it, the number of rows decoded.
pub open spec fn boundary_outcome<D: StaticDecoder>(
    context: Context,
    left: int,
    right: int,
    bound: int,
    inclusive: bool,
    nulls: NullPlacement,
    decoded: int,
) -> Outcome<(int, int)>
    decreases right - left,
{
    if left >= right {
        given((left, decoded))
    } else {
        let mid = left + (right - left) / 2;
        chain(
            D::value(context, mid),
            |value: Option<int>|
                if decoded >= usize::MAX {
                    failed(Error::DecodedRowsOverflow)
                } else {
                    match comes_before(value, bound, inclusive, nulls) {
                        Err(e) => failed(e),
                        Ok(true) => boundary_outcome::<D>(
                            context,
                            mid + 1,
                            right,
                            bound,
                            inclusive,
                            nulls,
                            decoded + 1,
                        ),
                        Ok(false) => boundary_outcome::<D>(
                            context,
                            left,
                            mid,
                            bound,
                            inclusive,
                            nulls,
                            decoded + 1,
                        ),
                    }
                },
        )
    }
}

fn find_boundary<D: StaticDecoder>(
    session: &mut ReadSession<'_>,
    left: usize,
    right: usize,
    bound: i64,
    inclusive: bool,
    nulls: NullPlacement,
    decoded: usize,
) -> (r: Result<(usize, usize), Error>)
    requires
        old(session).wf(),
        D::sound(),
        left <= right,
    ensures
        ({
            let wanted = boundary_outcome::<D>(
                old(session).context(),
                left as int,
                right as int,
                bound as int,
                inclusive,
                nulls,
                decoded as int,
            );
            &&& final(session).follows(*old(session), wanted.trace)
            &&& match wanted.result {
                Ok(place) => r matches Ok(found) && found.0 == place.0 && found.1 == place.1 && left
                    <= found.0 <= right,
                Err(e) => r matches Err(found) && found == e,
            }
        }),
{
    let ghost first = *session;
    let ghost context = session.context();
    let ghost all = boundary_outcome::<D>(
        context,
        left as int,
        right as int,
        bound as int,
        inclusive,
        nulls,
        decoded as int,
    );
    let mut from: usize = left;
    let mut to: usize = right;
    let mut count: usize = decoded;
    let ghost mut done: Seq<Event> = Seq::empty();
    proof {
        session.lemma_still();
        assert(done + all.trace =~= all.trace);
    }
    while from < to
        invariant
            D::sound(),
            left <= from <= to <= right,
            session.follows(first, done),
            context == first.context(),
            first == *old(session),
            all == boundary_outcome::<D>(
                context,
                left as int,
                right as int,
                bound as int,
                inclusive,
                nulls,
                decoded as int,
            ),
            left_of(
                all,
                done,
                boundary_outcome::<D>(
                    context,
                    from as int,
                    to as int,
                    bound as int,
                    inclusive,
                    nulls,
                    count as int,
                ),
            ),
        decreases to - from,
    {
        let ghost before = *session;
        let mid: usize = from + (to - from) / 2;
        let ghost read = D::value(context, mid as int);
        let value = D::get(session, mid);
        let ghost prior = done;
        proof {
            session.lemma_join(before, first, done, read.trace);
            assert(done + (read.trace + Seq::<Event>::empty()) =~= done + read.trace);
            done = done + read.trace;
        }
        let value = match value {
            Ok(value) => value,
            Err(e) => {
                return Err(e);
            },
        };
        if count == usize::MAX {
            return Err(Error::DecodedRowsOverflow);
        }
        count = count + 1;
        let passed: bool = match monotone_before(value, bound as i128, inclusive, nulls) {
            Ok(passed) => passed,
            Err(e) => {
                return Err(e);
            },
        };
        if passed {
            from = mid + 1;
        } else {
            to = mid;
        }
        proof {
            let rest = boundary_outcome::<D>(
                context,
                from as int,
                to as int,
                bound as int,
                inclusive,
                nulls,
                count as int,
            );
            assert(prior + (read.trace + rest.trace) =~= prior + read.trace + rest.trace);
        }
    }
    assert(done + Seq::<Event>::empty() =~= done);
    Ok((from, count))
}

/// One range, if it has rows.
pub open spec fn range_reply(start: int, end: int) -> Reply {
    Reply::Ranges(
        if start < end {
            seq![Span { start: start as usize, end: end as usize }]
        } else {
            Seq::empty()
        },
    )
}

/// Two boundaries, and the rows between them.
pub open spec fn monotone_outcome<D: StaticDecoder>(
    context: Context,
    len: int,
    low: int,
    high: int,
    nulls: NullPlacement,
) -> Outcome<(Reply, int)> {
    chain(
        boundary_outcome::<D>(context, 0, len, low, false, nulls, 0),
        |start: (int, int)|
            chain(
                boundary_outcome::<D>(context, start.0, len, high, true, nulls, start.1),
                |end: (int, int)| given((range_reply(start.0, end.0), end.1)),
            ),
    )
}

/// Finds the rows whose values lie between two bounds, of values in order whose
/// nulls stand at one end.
pub fn static_monotone_filter<D: StaticDecoder>(
    column: &EncodedColumn,
    low: i64,
    high: i64,
    nulls: NullPlacement,
    mode: ClosureMode,
) -> (r: Result<Execution, Error>)
    requires
        column.wf(),
        D::sound(),
    ensures
        ({
            let context = page_context(&column.page, mode, true);
            let len = column.truth@.len() as int;
            if low > high || nulls == NullPlacement::Arbitrary {
                r matches Err(found) && found == Error::StaticMonotoneInvalid
            } else {
                tallied(
                    r,
                    context,
                    after_header(
                        context,
                        monotone_outcome::<D>(context, len, low as int, high as int, nulls),
                    ),
                )
            }
        }),
{
    if low > high || nulls == NullPlacement::Arbitrary {
        return Err(Error::StaticMonotoneInvalid);
    }
    let mut session = ReadSession::new(&column.page, mode);
    let ghost first = session;
    let ghost context = session.context();
    let len: usize = column.truth.len();
    let ghost header = metadata_outcome(context).trace;
    let ghost all = after_header(
        context,
        monotone_outcome::<D>(context, len as int, low as int, high as int, nulls),
    );
    match load_metadata(&column.page, &mut session) {
        Ok(()) => {},
        Err(e) => {
            return Err(e);
        },
    }
    let ghost middle = session;
    let found = find_boundary::<D>(&mut session, 0, len, low, false, nulls, 0);
    let ghost one = boundary_outcome::<D>(context, 0, len as int, low as int, false, nulls, 0);
    proof {
        session.lemma_join(middle, first, header, one.trace);
    }
    let (start, decoded) = match found {
        Ok(found) => found,
        Err(e) => {
            return Err(e);
        },
    };
    let ghost middle = session;
    let found = find_boundary::<D>(&mut session, start, len, high, true, nulls, decoded);
    proof {
        let two = boundary_outcome::<D>(
            context,
            start as int,
            len as int,
            high as int,
            true,
            nulls,
            decoded as int,
        );
        session.lemma_join(middle, first, header + one.trace, two.trace);
        assert(header + one.trace + two.trace =~= header + (one.trace + (two.trace
            + Seq::<Event>::empty())));
    }
    let (end, decoded) = match found {
        Ok(found) => found,
        Err(e) => {
            return Err(e);
        },
    };
    let mut ranges: Vec<Span> = Vec::new();
    if start < end {
        ranges.push(Span { start, end });
    }
    assert(Answer::Ranges(ranges)@ == range_reply(start as int, end as int)) by {
        if start < end {
            assert(ranges@ =~= seq![Span { start, end }]);
        } else {
            assert(ranges@ =~= Seq::empty());
        }
    }
    conclude(session, Answer::Ranges(ranges), decoded, Ghost(first), Ghost(all))
}

// ----- values in order within blocks -----

/// Halving `left..right` down to the first row that does not come before the
/// boundary, where no row is null; with it, the number of rows decoded.
pub open spec fn segment_outcome<D: StaticDecoder>(
    context: Context,
    left: int,
    right: int,
    bound: int,
    inclusive: bool,
    decoded: int,
) -> Outcome<(int, int)>
    decreases right - left,
{
    if left >= right {
        given((left, decoded))
    } else {
        let mid = left + (right - left) / 2;
        chain(
            D::value(context, mid),
            |value: Option<int>|
                match value {
                    None => failed(Error::PiecewiseNull),
                    Some(value) => if decoded >= usize::MAX {
                        failed(Error::DecodedRowsOverflow)
                    } else if value < bound || (inclusive && value == bound) {
                        segment_outcome::<D>(
                            context,
                            mid + 1,
                            right,
                            bound,
                            inclusive,
                            decoded + 1,
                        )
                    } else {
                        segment_outcome::<D>(context, left, mid, bound, inclusive, decoded + 1)
                    },
                },
        )
    }
}

fn piecewise_boundary<D: StaticDecoder>(
    session: &mut ReadSession<'_>,
    left: usize,
    right: usize,
    bound: i64,
    inclusive: bool,
    decoded: usize,
) -> (r: Result<(usize, usize), Error>)
    requires
        old(session).wf(),
        D::sound(),
        left <= right,
    ensures
        ({
            let wanted = segment_outcome::<D>(
                old(session).context(),
                left as int,
                right as int,
                bound as int,
                inclusive,
                decoded as int,
            );
            &&& final(session).follows(*old(session), wanted.trace)
            &&& match wanted.result {
                Ok(place) => r matches Ok(found) && found.0 == place.0 && found.1 == place.1 && left
                    <= found.0 <= right,
                Err(e) => r matches Err(found) && found == e,
            }
        }),
{
    let ghost first = *session;
    let ghost context = session.context();
    let ghost all = segment_outcome::<D>(
        context,
        left as int,
        right as int,
        bound as int,
        inclusive,
        decoded as int,
    );
    let mut from: usize = left;
    let mut to: usize = right;
    let mut count: usize = decoded;
    let ghost mut done: Seq<Event> = Seq::empty();
    proof {
        session.lemma_still();
        assert(done + all.trace =~= all.trace);
    }
    while from < to
        invariant
            D::sound(),
            left <= from <= to <= right,
            session.follows(first, done),
            context == first.context(),
            first == *old(session),
            all == segment_outcome::<D>(
                context,
                left as int,
                right as int,
                bound as int,
                inclusive,
                decoded as int,
            ),
            left_of(
                all,
                done,
                segment_outcome::<D>(
                    context,
                    from as int,
                    to as int,
                    bound as int,
                    inclusive,
                    count as int,
                ),
            ),
        decreases to - from,
    {
        let ghost before = *session;
        let mid: usize = from + (to - from) / 2;
        let ghost read = D::value(context, mid as int);
        let value = D::get(session, mid);
        let ghost prior = done;
        proof {
            session.lemma_join(before, first, done, read.trace);
            assert(done + (read.trace + Seq::<Event>::empty()) =~= done + read.trace);
            done = done + read.trace;
        }
        let value: i128 = match value {
            Ok(Some(value)) => value,
            Ok(None) => {
                return Err(Error::PiecewiseNull);
            },
            Err(e) => {
                return Err(e);
            },
        };
        if count == usize::MAX {
            return Err(Error::DecodedRowsOverflow);
        }
        count = count + 1;
        if value < bound as i128 || (inclusive && value == bound as i128) {
            from = mid + 1;
        } else {
            to = mid;
        }
        proof {
            let rest = segment_outcome::<D>(
                context,
                from as int,
                to as int,
                bound as int,
                inclusive,
                count as int,
            );
            assert(prior + (read.trace + rest.trace) =~= prior + read.trace + rest.trace);
        }
    }
    assert(done + Seq::<Event>::empty() =~= done);
    Ok((from, count))
}

/// The end of the block that starts at a row.
pub open spec fn block_end(block_start: int, max_rows: int, len: int) -> int {
    if block_start + max_rows < len {
        block_start + max_rows
    } else {
        len
    }
}

/// The ranges with one more, if that has rows.
pub open spec fn with_range(ranges: Seq<Span>, start: int, end: int) -> Seq<Span> {
    if start < end {
        pushed_range(ranges, start, end)
    } else {
        ranges
    }
}

/// Two boundaries in each block from `block_start` on, and the rows between them.
pub open spec fn blocks_outcome<D: StaticDecoder>(
    context: Context,
    len: int,
    low: int,
    high: int,
    max_rows: int,
    block_start: int,
    ranges: Seq<Span>,
    decoded: int,
) -> Outcome<(Reply, int)>
    decreases len - block_start,
{
    if block_start >= len || max_rows <= 0 {
        given((Reply::Ranges(ranges), decoded))
    } else {
        let stop = block_end(block_start, max_rows, len);
        chain(
            segment_outcome::<D>(context, block_start, stop, low, false, decoded),
            |start: (int, int)|
                chain(
                    segment_outcome::<D>(context, start.0, stop, high, true, start.1),
                    |end: (int, int)|
                        blocks_outcome::<D>(
                            context,
                            len,
                            low,
                            high,
                            max_rows,
                            stop,
                            with_range(ranges, start.0, end.0),
                            end.1,
                        ),
                ),
        )
    }
}

/// Finds the rows whose values lie between two bounds, of values that are in order
/// within each block of rows and none of which is null.
pub fn static_piecewise_monotone_filter<D: StaticDecoder>(
    column: &EncodedColumn,
    low: i64,
    high: i64,
    max_rows: usize,
    mode: ClosureMode,
) -> (r: Result<Execution, Error>)
    requires
        column.wf(),
        D::sound(),
    ensures
        ({
            let context = page_context(&column.page, mode, true);
            let len = column.truth@.len() as int;
            if low > high || max_rows == 0 {
                r matches Err(found) && found == Error::StaticPiecewiseInvalid
            } else {
                tallied(
                    r,
                    context,
                    after_header(
                        context,
                        blocks_outcome::<D>(
                            context,
                            len,
                            low as int,
                            high as int,
                            max_rows as int,
                            0,
                            Seq::empty(),
                            0,
                        ),
                    ),
                )
            }
        }),
{
    if low > high || max_rows == 0 {
        return Err(Error::StaticPiecewiseInvalid);
    }
    let mut session = ReadSession::new(&column.page, mode);
    let ghost first = session;
    let ghost context = session.context();
    let len: usize = column.truth.len();
    let ghost header = metadata_outcome(context).trace;
    let ghost inner = blocks_outcome::<D>(
        context,
        len as int,
        low as int,
        high as int,
        max_rows as int,
        0,
        Seq::empty(),
        0,
    );
    let ghost all = after_header(context, inner);
    match load_metadata(&column.page, &mut session) {
        Ok(()) => {},
        Err(e) => {
            return Err(e);
        },
    }
    let mut ranges: Vec<Span> = Vec::new();
    let mut decoded: usize = 0;
    let mut block_start: usize = 0;
    let ghost mut done = header;
    assert(ranges@ =~= Seq::empty());
    while block_start < len
        invariant
            D::sound(),
            max_rows > 0,
            session.follows(first, done),
            context == first.context(),
            context == page_context(&column.page, mode, true),
            len == column.truth@.len(),
            all == after_header(
                context,
                blocks_outcome::<D>(
                    context,
                    len as int,
                    low as int,
                    high as int,
                    max_rows as int,
                    0,
                    Seq::empty(),
                    0,
                ),
            ),
            low <= high,
            left_of(
                all,
                done,
                blocks_outcome::<D>(
                    context,
                    len as int,
                    low as int,
                    high as int,
                    max_rows as int,
                    block_start as int,
                    ranges@,
                    decoded as int,
                ),
            ),
        decreases len - block_start,
    {
        let stop: usize = if max_rows < len - block_start {
            block_start + max_rows
        } else {
            len
        };
        let ghost before = session;
        let ghost prior = done;
        let ghost one = segment_outcome::<D>(
            context,
            block_start as int,
            stop as int,
            low as int,
            false,
            decoded as int,
        );
        let found = piecewise_boundary::<D>(&mut session, block_start, stop, low, false, decoded);
        proof {
            session.lemma_join(before, first, prior, one.trace);
            done = prior + one.trace;
        }
        let (start, count) = match found {
            Ok(found) => found,
            Err(e) => {
                return Err(e);
            },
        };
        let ghost middle = session;
        let ghost two = segment_outcome::<D>(
            context,
            start as int,
            stop as int,
            high as int,
            true,
            count as int,
        );
        let found = piecewise_boundary::<D>(&mut session, start, stop, high, true, count);
        proof {
            session.lemma_join(middle, first, done, two.trace);
            assert(prior + (one.trace + two.trace) =~= done + two.trace);
            done = done + two.trace;
        }
        let (end, count) = match found {
            Ok(found) => found,
            Err(e) => {
                return Err(e);
            },
        };
        if start < end {
            push_range(&mut ranges, start, end);
        }
        decoded = count;
        proof {
            let rest = blocks_outcome::<D>(
                context,
                len as int,
                low as int,
                high as int,
                max_rows as int,
                stop as int,
                ranges@,
                decoded as int,
            );
            assert(prior + (one.trace + (two.trace + rest.trace)) =~= done + rest.trace);
        }
        block_start = stop;
    }
    assert(done + Seq::<Event>::empty() =~= done);
    conclude(session, Answer::Ranges(ranges), decoded, Ghost(first), Ghost(all))
}

// ----- dictionaries in order -----

/// Halving `left..right` down to the first entry of a table that is not below the
/// bound.
pub open spec fn entry_outcome(
    context: Context,
    field: usize,
    left: int,
    right: int,
    bound: int,
    inclusive: bool,
) -> Outcome<int>
    decreases right - left,
{
    if left >= right {
        given(left)
    } else {
        let mid = left + (right - left) / 2;
        chain(
            i64_outcome(context, FieldId(field), mid),
            |value: i64|
                if value < bound || (inclusive && value == bound) {
                    entry_outcome(context, field, mid + 1, right, bound, inclusive)
                } else {
                    entry_outcome(context, field, left, mid, bound, inclusive)
                },
        )
    }
}

pub(crate) fn find_entry(
    session: &mut ReadSession<'_>,
    field: usize,
    left: usize,
    right: usize,
    bound: i64,
    inclusive: bool,
) -> (r: Result<usize, Error>)
    requires
        old(session).wf(),
        left <= right,
    ensures
        ({
            let wanted = entry_outcome(
                old(session).context(),
                field,
                left as int,
                right as int,
                bound as int,
                inclusive,
            );
            &&& final(session).follows(*old(session), wanted.trace)
            &&& match wanted.result {
                Ok(place) => r matches Ok(found) && found == place && left <= found <= right,
                Err(e) => r matches Err(found) && found == e,
            }
        }),
{
    let ghost first = *session;
    let ghost context = session.context();
    let ghost all = entry_outcome(
        context,
        field,
        left as int,
        right as int,
        bound as int,
        inclusive,
    );
    let mut from: usize = left;
    let mut to: usize = right;
    let ghost mut done: Seq<Event> = Seq::empty();
    proof {
        session.lemma_still();
        assert(done + all.trace =~= all.trace);
    }
    while from < to
        invariant
            left <= from <= to <= right,
            session.follows(first, done),
            context == first.context(),
            first == *old(session),
            all == entry_outcome(
                context,
                field,
                left as int,
                right as int,
                bound as int,
                inclusive,
            ),
            left_of(
                all,
                done,
                entry_outcome(context, field, from as int, to as int, bound as int, inclusive),
            ),
        decreases to - from,
    {
        let ghost before = *session;
        let mid: usize = from + (to - from) / 2;
        let ghost read = i64_outcome(context, FieldId(field), mid as int);
        let value = session.read_i64(FieldId(field), mid);
        let ghost prior = done;
        proof {
            session.lemma_join(before, first, done, read.trace);
            assert(done + (read.trace + Seq::<Event>::empty()) =~= done + read.trace);
            done = done + read.trace;
        }
        let value: i64 = match value {
            Ok(value) => value,
            Err(e) => {
                return Err(e);
            },
        };
        if value < bound || (inclusive && value == bound) {
            from = mid + 1;
        } else {
            to = mid;
        }
        proof {
            let rest = entry_outcome(
                context,
                field,
                from as int,
                to as int,
                bound as int,
                inclusive,
            );
            assert(prior + (read.trace + rest.trace) =~= prior + read.trace + rest.trace);
        }
    }
    assert(done + Seq::<Event>::empty() =~= done);
    Ok(from)
}

/// Gathers the rows whose identifiers lie in a range.
pub struct IdVisitor<const ENTRIES: usize> {
    low: usize,
    high: usize,
    ranges: Vec<Span>,
    decoded: usize,
}

/// What is gathered after some more rows of one identifier.
pub open spec fn id_step(
    entries: int,
    state: Between,
    value: Option<int>,
    start: int,
    end: int,
) -> Outcome<Between> {
    match more_rows(state.decoded, start, end) {
        Err(e) => failed(e),
        Ok(decoded) => match entry_of(entries, value) {
            Err(e) => failed(e),
            Ok(id) => given(
                Between {
                    ranges: if state.low <= id < state.high {
                        pushed_range(state.ranges, start, end)
                    } else {
                        state.ranges
                    },
                    decoded,
                    ..state
                },
            ),
        },
    }
}

impl<const ENTRIES: usize> Visitor for IdVisitor<ENTRIES> {
    type State = Between;

    closed spec fn state(&self) -> Between {
        Between {
            low: self.low as int,
            high: self.high as int,
            ranges: self.ranges@,
            decoded: self.decoded as int,
        }
    }

    open spec fn step(
        context: Context,
        state: Between,
        value: Option<int>,
        start: int,
        end: int,
    ) -> Outcome<Between> {
        id_step(ENTRIES as int, state, value, start, end)
    }

    fn accept(
        self,
        session: &mut ReadSession<'_>,
        value: Option<i128>,
        start: usize,
        end: usize,
    ) -> (r: Result<Self, Error>) {
        proof {
            session.lemma_still();
        }
        let decoded: usize = match exec_more_rows(self.decoded, start, end) {
            Ok(decoded) => decoded,
            Err(e) => {
                return Err(e);
            },
        };
        let id: usize = match exec_entry_of(ENTRIES, value) {
            Ok(id) => id,
            Err(e) => {
                return Err(e);
            },
        };
        let mut ranges = self.ranges;
        if self.low <= id && id < self.high {
            push_range(&mut ranges, start, end);
        }
        Ok(IdVisitor { low: self.low, high: self.high, ranges, decoded })
    }
}

/// The identifiers of the values between the bounds, then the rows that have them.
pub open spec fn dictionary_outcome<const ENTRIES: usize, Ids: StaticDecoder>(
    context: Context,
    field: usize,
    len: int,
    low: int,
    high: int,
) -> Outcome<(Reply, int)> {
    chain(
        entry_outcome(context, field, 0, ENTRIES as int, low, false),
        |low_id: int|
            chain(
                entry_outcome(context, field, low_id, ENTRIES as int, high, true),
                |high_id: int|
                    if low_id < high_id {
                        chain(
                            walked::<IdVisitor<ENTRIES>>(
                                context,
                                Ids::walk(context, 0, len),
                                Between {
                                    low: low_id,
                                    high: high_id,
                                    ranges: Seq::empty(),
                                    decoded: 0,
                                },
                            ),
                            |state: Between| given((Reply::Ranges(state.ranges), state.decoded)),
                        )
                    } else {
                        given((Reply::Ranges(Seq::empty()), 0int))
                    },
            ),
    )
}

/// Finds the rows whose values lie between two bounds, of values in a dictionary in
/// order.
pub fn static_dictionary_filter<
    const DICTIONARY: usize,
    const ENTRIES: usize,
    Ids: StaticDecoder,
>(column: &EncodedColumn, low: i64, high: i64, mode: ClosureMode) -> (r: Result<Execution, Error>)
    requires
        column.wf(),
        Ids::sound(),
    ensures
        ({
            let context = page_context(&column.page, mode, true);
            let len = column.truth@.len() as int;
            if low > high {
                r matches Err(found) && found == Error::StaticDictionaryInvalid
            } else {
                tallied(
                    r,
                    context,
                    after_header(
                        context,
                        dictionary_outcome::<ENTRIES, Ids>(
                            context,
                            DICTIONARY,
                            len,
                            low as int,
                            high as int,
                        ),
                    ),
                )
            }
        }),
{
    if low > high {
        return Err(Error::StaticDictionaryInvalid);
    }
    let mut session = ReadSession::new(&column.page, mode);
    let ghost first = session;
    let ghost context = session.context();
    let len: usize = column.truth.len();
    let ghost header = metadata_outcome(context).trace;
    let ghost all = after_header(
        context,
        dictionary_outcome::<ENTRIES, Ids>(
            context,
            DICTIONARY,
            len as int,
            low as int,
            high as int,
        ),
    );
    match load_metadata(&column.page, &mut session) {
        Ok(()) => {},
        Err(e) => {
            return Err(e);
        },
    }
    let ghost middle = session;
    let ghost one = entry_outcome(context, DICTIONARY, 0, ENTRIES as int, low as int, false);
    let found = find_entry(&mut session, DICTIONARY, 0, ENTRIES, low, false);
    proof {
        session.lemma_join(middle, first, header, one.trace);
    }
    let low_id: usize = match found {
        Ok(found) => found,
        Err(e) => {
            return Err(e);
        },
    };
    let ghost middle = session;
    let ghost two = entry_outcome(
        context,
        DICTIONARY,
        low_id as int,
        ENTRIES as int,
        high as int,
        true,
    );
    let found = find_entry(&mut session, DICTIONARY, low_id, ENTRIES, high, true);
    proof {
        session.lemma_join(middle, first, header + one.trace, two.trace);
        assert(header + one.trace + two.trace =~= header + (one.trace + two.trace));
        assert(header + one.trace + two.trace =~= header + (one.trace + (two.trace
            + Seq::<Event>::empty())));
    }
    let high_id: usize = match found {
        Ok(found) => found,
        Err(e) => {
            return Err(e);
        },
    };
    if low_id >= high_id {
        let ranges: Vec<Span> = Vec::new();
        assert(ranges@ =~= Seq::empty());
        return conclude(session, Answer::Ranges(ranges), 0, Ghost(first), Ghost(all));
    }
    let visitor: IdVisitor<ENTRIES> = IdVisitor {
        low: low_id,
        high: high_id,
        ranges: Vec::new(),
        decoded: 0,
    };
    let ghost start = Between {
        low: low_id as int,
        high: high_id as int,
        ranges: Seq::empty(),
        decoded: 0,
    };
    assert(visitor.state() == start);
    let ghost middle = session;
    let ghost three = walked::<IdVisitor<ENTRIES>>(
        context,
        Ids::walk(context, 0, len as int),
        start,
    );
    let r = Ids::visit(&mut session, 0, len, visitor);
    proof {
        session.lemma_join(middle, first, header + one.trace + two.trace, three.trace);
        assert(header + one.trace + two.trace + three.trace =~= header + (one.trace + (two.trace + (
        three.trace + Seq::<Event>::empty()))));
        assert(header + one.trace + two.trace + three.trace =~= header + (one.trace + (two.trace
            + three.trace)));
    }
    match r {
        Ok(visitor) => conclude(
            session,
            Answer::Ranges(visitor.ranges),
            visitor.decoded,
            Ghost(first),
            Ghost(all),
        ),
        Err(e) => Err(e),
    }
}

} // verus!
