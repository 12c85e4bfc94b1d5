//! Decoders whose shape is a type: the parameters of each node are constants, and
//! its child is a type parameter.
#[allow(unused_imports)]
use super::coding::{fits_i128, fits_u64};
use super::error::Error;
use super::ids::FieldId;
#[allow(unused_imports)]
use super::layout::lemma_floor;
use super::runtime::ReadSession;
#[allow(unused_imports)]
use super::runtime::{
    bits_outcome, chain, failed, given, i64_outcome, u32_outcome, Context, Event, Outcome,
};
use super::support::{
    find_position, locate_indexed, lower_bound_position, nullable_is_valid, nullable_prefix_rank,
    nullable_rank, unzigzag,
};
#[allow(unused_imports)]
use super::support::{
    find_outcome, locate_outcome, lower_bound_outcome, prefix_rank_outcome, rank_outcome, unzigzagged,
    valid_outcome,
};
use super::visitor::Visitor;
#[allow(unused_imports)]
use super::visitor::{
    after_steps, arrived, giving, joined, left_of, lemma_after_steps, lemma_arrive, lemma_give_on, lemma_join_on,
    lemma_read_on, lemma_set_out, lemma_single, lemma_stop, lemma_stopped, lemma_turned, number,
    reading, stopped, turned, turns, visited, walked, Turn, Walk,
};
use std::marker::PhantomData;
use vstd::prelude::*;

verus! {

/// A decoder whose shape is a type.
pub trait StaticDecoder: Sized {
    /// No interval is zero.
    spec fn sound() -> bool;

    /// Decoding a row.
    spec fn value(context: Context, row: int) -> Outcome<Option<int>>;

    /// Walking over the rows `start..end`.
    spec fn walk(context: Context, start: int, end: int) -> Walk;

    fn get(session: &mut ReadSession<'_>, row: usize) -> (r: Result<Option<i128>, Error>)
        requires
            old(session).wf(),
            Self::sound(),
        ensures
            ({
                let wanted = Self::value(old(session).context(), row as int);
                &&& final(session).follows(*old(session), wanted.trace)
                &&& match wanted.result {
                    Ok(value) => r matches Ok(found) && number(found) == value,
                    Err(e) => r matches Err(found) && found == e,
                }
            }),
    ;

    /// Hands the values of the rows to a visitor, in order.
    fn visit<V: Visitor>(
        session: &mut ReadSession<'_>,
        start: usize,
        end: usize,
        visitor: V,
    ) -> (r: Result<V, Error>)
        requires
            old(session).wf(),
            Self::sound(),
            start <= end,
        ensures
            ({
                let context = old(session).context();
                let walk = Self::walk(context, start as int, end as int);
                let wanted = walked::<V>(context, walk, visitor.state());
                final(session).follows(*old(session), wanted.trace) && visited(r, wanted)
            }),
    ;
}

// ----- packed numbers -----

pub struct StaticBitPack<
    const FIELD: usize,
    const WIDTH: u8,
    const MINIBLOCK_ROWS: usize,
    const MINIBLOCK_BYTES: usize,
>;

/// Reading a packed number.
pub open spec fn static_bits(
    context: Context,
    field: usize,
    width: u8,
    rows: usize,
    bytes: usize,
    row: int,
) -> Outcome<Option<int>> {
    chain(
        bits_outcome(context, FieldId(field), row, width as int, rows as int, bytes as int),
        |found: u64| given(Some(found as int)),
    )
}

/// Reading packed numbers one by one.
pub open spec fn bits_walk(
    context: Context,
    field: usize,
    width: u8,
    rows: usize,
    bytes: usize,
    start: int,
    end: int,
) -> Walk
    decreases end - start,
{
    if start >= end {
        arrived()
    } else {
        reading(
            static_bits(context, field, width, rows, bytes, start),
            |value: Option<int>|
                giving(
                    value,
                    start,
                    start + 1,
                    bits_walk(context, field, width, rows, bytes, start + 1, end),
                ),
        )
    }
}

impl<
    const FIELD: usize,
    const WIDTH: u8,
    const MINIBLOCK_ROWS: usize,
    const MINIBLOCK_BYTES: usize,
> StaticDecoder for StaticBitPack<FIELD, WIDTH, MINIBLOCK_ROWS, MINIBLOCK_BYTES> {
    open spec fn sound() -> bool {
        true
    }

    open spec fn value(context: Context, row: int) -> Outcome<Option<int>> {
        static_bits(context, FIELD, WIDTH, MINIBLOCK_ROWS, MINIBLOCK_BYTES, row)
    }

    open spec fn walk(context: Context, start: int, end: int) -> Walk {
        bits_walk(context, FIELD, WIDTH, MINIBLOCK_ROWS, MINIBLOCK_BYTES, start, end)
    }

    fn get(session: &mut ReadSession<'_>, row: usize) -> (r: Result<Option<i128>, Error>) {
        let ghost reading = bits_outcome(
            session.context(),
            FieldId(FIELD),
            row as int,
            WIDTH as int,
            MINIBLOCK_ROWS as int,
            MINIBLOCK_BYTES as int,
        ).trace;
        assert(reading + Seq::<Event>::empty() =~= reading);
        match session.read_bits(FieldId(FIELD), row, WIDTH, MINIBLOCK_ROWS, MINIBLOCK_BYTES) {
            Ok(found) => Ok(Some(found as i128)),
            Err(e) => Err(e),
        }
    }

    fn visit<V: Visitor>(
        session: &mut ReadSession<'_>,
        start: usize,
        end: usize,
        visitor: V,
    ) -> (r: Result<V, Error>) {
        let ghost first = *session;
        let ghost context = session.context();
        let ghost all = walked::<V>(
            context,
            Self::walk(context, start as int, end as int),
            visitor.state(),
        );
        let mut guest: V = visitor;
        let mut row: usize = start;
        let ghost mut done: Seq<Event> = Seq::empty();
        proof {
            lemma_set_out::<V>(
                *session,
                Self::walk(context, start as int, end as int),
                visitor.state(),
            );
        }
        while row < end
            invariant
                start <= row <= end,
                session.follows(first, done),
                context == first.context(),
                first == *old(session),
                all == walked::<V>(
                    context,
                    Self::walk(context, start as int, end as int),
                    visitor.state(),
                ),
                left_of(
                    all,
                    done,
                    walked::<V>(
                        context,
                        Self::walk(context, row as int, end as int),
                        guest.state(),
                    ),
                ),
            decreases end - row,
        {
            let ghost before = *session;
            let ghost state = guest.state();
            let ghost read = Self::value(context, row as int);
            let ghost rest = Self::walk(context, row + 1, end as int);
            assert(read.trace + Seq::<Event>::empty() =~= read.trace);
            let found = session.read_bits(
                FieldId(FIELD),
                row,
                WIDTH,
                MINIBLOCK_ROWS,
                MINIBLOCK_BYTES,
            );
            proof {
                let next = match read.result {
                    Ok(value) => giving(value, row as int, row + 1, rest),
                    Err(e) => stopped(e),
                };
                lemma_read_on::<V>(*session, before, first, all, done, read.trace, next, state);
                done = done + read.trace;
            }
            let found: u64 = match found {
                Ok(found) => found,
                Err(e) => {
                    proof {
                        lemma_stop::<V>(context, all, done, e, state);
                    }
                    return Err(e);
                },
            };
            let ghost middle = *session;
            let taken = guest.accept(session, Some(found as i128), row, row + 1);
            proof {
                let value = Some(found as int);
                let at = row as int;
                lemma_give_on::<V>(
                    *session,
                    middle,
                    first,
                    all,
                    done,
                    value,
                    at,
                    at + 1,
                    rest,
                    state,
                );
                done = done + V::step(context, state, value, at, at + 1).trace;
            }
            guest = match taken {
                Ok(next) => next,
                Err(e) => {
                    return Err(e);
                },
            };
            row = row + 1;
        }
        proof {
            lemma_arrive::<V>(context, all, done, guest.state());
        }
        Ok(guest)
    }
}

// ----- frame of reference -----

pub struct StaticFor<const BASE: usize, Child>(PhantomData<Child>);

/// The value that is `offset` from the base.
pub open spec fn for_number(base: int, offset: Option<int>, e: Error) -> Result<Option<int>, Error> {
    match offset {
        None => Ok(None),
        Some(offset) => if fits_i128(offset + base) {
            Ok(Some(offset + base))
        } else {
            Err(e)
        },
    }
}

pub open spec fn for_turn(base: int, value: Option<int>, start: int, end: int) -> Turn<int> {
    Turn {
        walk: match for_number(base, value, Error::StaticForSpanOverflow) {
            Ok(value) => giving(value, start, end, arrived()),
            Err(e) => stopped(e),
        },
        memory: base,
    }
}

struct ForVisitor<V> {
    base: i64,
    inner: V,
}

fn exec_for_number(base: i64, offset: Option<i128>, e: Error) -> (r: Result<Option<i128>, Error>)
    ensures
        match for_number(base as int, number(offset), e) {
            Ok(value) => r matches Ok(found) && number(found) == value,
            Err(fault) => r matches Err(found) && found == fault,
        },
{
    match offset {
        None => Ok(None),
        Some(offset) => match offset.checked_add(base as i128) {
            Some(value) => Ok(Some(value)),
            None => Err(e),
        },
    }
}

impl<V: Visitor> Visitor for ForVisitor<V> {
    type State = (int, V::State);

    closed spec fn state(&self) -> (int, V::State) {
        (self.base as int, self.inner.state())
    }

    open spec fn step(
        context: Context,
        state: (int, V::State),
        value: Option<int>,
        start: int,
        end: int,
    ) -> Outcome<(int, V::State)> {
        let one = for_turn(state.0, value, start, end);
        chain(
            walked::<V>(context, one.walk, state.1),
            |next: V::State| given((one.memory, next)),
        )
    }

    fn accept(
        self,
        session: &mut ReadSession<'_>,
        value: Option<i128>,
        start: usize,
        end: usize,
    ) -> (r: Result<Self, Error>) {
        let ghost context = session.context();
        let ghost state = self.inner.state();
        let value = match exec_for_number(self.base, value, Error::StaticForSpanOverflow) {
            Ok(value) => value,
            Err(e) => {
                proof {
                    lemma_stopped::<V>(context, e, state);
                    session.lemma_still();
                }
                return Err(e);
            },
        };
        proof {
            lemma_single::<V>(context, number(value), start as int, end as int, state);
            let step = V::step(context, state, number(value), start as int, end as int);
            assert(step.trace + Seq::<Event>::empty() =~= step.trace);
        }
        match self.inner.accept(session, value, start, end) {
            Ok(inner) => Ok(ForVisitor { base: self.base, inner }),
            Err(e) => Err(e),
        }
    }
}

impl<const BASE: usize, Child: StaticDecoder> StaticDecoder for StaticFor<BASE, Child> {
    open spec fn sound() -> bool {
        Child::sound()
    }

    open spec fn value(context: Context, row: int) -> Outcome<Option<int>> {
        chain(
            i64_outcome(context, FieldId(BASE), 0),
            |base: i64|
                chain(
                    Child::value(context, row),
                    |offset: Option<int>|
                        match for_number(base as int, offset, Error::StaticForOverflow) {
                            Ok(value) => given(value),
                            Err(e) => failed(e),
                        },
                ),
        )
    }

    open spec fn walk(context: Context, start: int, end: int) -> Walk {
        reading(
            i64_outcome(context, FieldId(BASE), 0),
            |base: i64|
                turned(
                    Child::walk(context, start, end),
                    |base: int, value: Option<int>, from: int, to: int|
                        for_turn(base, value, from, to),
                    base as int,
                ),
        )
    }

    fn get(session: &mut ReadSession<'_>, row: usize) -> (r: Result<Option<i128>, Error>) {
        let ghost first = *session;
        let ghost context = session.context();
        let ghost anchor = i64_outcome(context, FieldId(BASE), 0);
        let base: i64 = match session.read_i64(FieldId(BASE), 0) {
            Ok(base) => base,
            Err(e) => {
                return Err(e);
            },
        };
        let ghost middle = *session;
        let offset = Child::get(session, row);
        proof {
            let inner = Child::value(context, row as int);
            assert(inner.trace + Seq::<Event>::empty() =~= inner.trace);
            session.lemma_join(middle, first, anchor.trace, inner.trace);
        }
        match offset {
            Ok(offset) => exec_for_number(base, offset, Error::StaticForOverflow),
            Err(e) => Err(e),
        }
    }

    fn visit<V: Visitor>(
        session: &mut ReadSession<'_>,
        start: usize,
        end: usize,
        visitor: V,
    ) -> (r: Result<V, Error>) {
        let ghost first = *session;
        let ghost context = session.context();
        let ghost anchor = i64_outcome(context, FieldId(BASE), 0);
        let ghost state = visitor.state();
        let ghost below = Child::walk(context, start as int, end as int);
        let base = session.read_i64(FieldId(BASE), 0);
        let ghost turn = |base: int, value: Option<int>, from: int, to: int|
            for_turn(base, value, from, to);
        let ghost pair = |base: int, state: V::State| (base, state);
        proof {
            let next = match anchor.result {
                Ok(base) => turned(below, turn, base as int),
                Err(e) => stopped(e),
            };
            lemma_after_steps::<V>(context, anchor.trace, next, state);
            if let Err(e) = anchor.result {
                lemma_stopped::<V>(context, e, state);
                assert(anchor.trace + Seq::<Event>::empty() =~= anchor.trace);
            }
        }
        let base: i64 = match base {
            Ok(base) => base,
            Err(e) => {
                return Err(e);
            },
        };
        let ghost middle = *session;
        let guest = ForVisitor { base, inner: visitor };
        assert(guest.state() == pair(base as int, state));
        let r = Child::visit(session, start, end, guest);
        proof {
            assert(turns::<V, ForVisitor<V>, int>(context, turn, pair));
            lemma_turned::<V, ForVisitor<V>, int>(context, below, turn, pair, base as int, state);
            let outer = walked::<ForVisitor<V>>(context, below, pair(base as int, state));
            session.lemma_join(middle, first, anchor.trace, outer.trace);
        }
        match r {
            Ok(guest) => Ok(guest.inner),
            Err(e) => Err(e),
        }
    }
}

// ----- differences -----

pub struct StaticDelta<
    const RESTARTS: usize,
    const RESTART_INTERVAL: usize,
    const UNSIGNED: bool,
    Child,
>(PhantomData<Child>);

/// The running value after a code.
pub open spec fn code_step(value: int, code: Option<int>, unsigned: bool, overflow: Error) -> Result<
    int,
    Error,
> {
    match code {
        None => Err(Error::StaticDeltaCodeNull),
        Some(code) => if !fits_u64(code) {
            Err(Error::StaticDeltaCodeTooLarge)
        } else {
            let next = value + if unsigned {
                code
            } else {
                unzigzagged(code as u64) as int
            };
            if fits_i128(next) {
                Ok(next)
            } else {
                Err(overflow)
            }
        },
    }
}

/// The running value after the codes of rows `from..=row`.
pub open spec fn codes_outcome<C: StaticDecoder>(
    context: Context,
    unsigned: bool,
    from: int,
    row: int,
    value: int,
) -> Outcome<int>
    decreases row - from + 1,
{
    if from > row {
        given(value)
    } else {
        chain(
            C::value(context, from),
            |code: Option<int>|
                match code_step(value, code, unsigned, Error::StaticDeltaOverflow) {
                    Err(e) => failed(e),
                    Ok(next) => codes_outcome::<C>(context, unsigned, from + 1, row, next),
                },
        )
    }
}

/// The running value at a row: at a restart it is stored, elsewhere it follows
/// from the row before.
pub open spec fn running_outcome<C: StaticDecoder>(
    context: Context,
    restarts: usize,
    interval: int,
    unsigned: bool,
    row: int,
    value: int,
) -> Outcome<int> {
    if row % interval == 0 {
        chain(
            i64_outcome(context, FieldId(restarts), row / interval),
            |anchor: i64| given(anchor as int),
        )
    } else {
        chain(
            C::value(context, row),
            |code: Option<int>|
                match code_step(value, code, unsigned, Error::StaticDeltaSpanOverflow) {
                    Err(e) => failed(e),
                    Ok(next) => given(next),
                },
        )
    }
}

/// Walking from a row on, where rows before `start` are passed over.
pub open spec fn delta_walk<C: StaticDecoder>(
    context: Context,
    restarts: usize,
    interval: int,
    unsigned: bool,
    start: int,
    end: int,
    row: int,
    value: int,
) -> Walk
    decreases end - row,
{
    if row >= end {
        arrived()
    } else {
        reading(
            running_outcome::<C>(context, restarts, interval, unsigned, row, value),
            |value: int|
                {
                    let rest = delta_walk::<C>(
                        context,
                        restarts,
                        interval,
                        unsigned,
                        start,
                        end,
                        row + 1,
                        value,
                    );
                    if row >= start {
                        giving(Some(value), row, row + 1, rest)
                    } else {
                        rest
                    }
                },
        )
    }
}

fn exec_code_step(value: i128, code: Option<i128>, unsigned: bool, overflow: Error) -> (r: Result<
    i128,
    Error,
>)
    ensures
        match code_step(value as int, number(code), unsigned, overflow) {
            Ok(next) => r matches Ok(found) && found == next,
            Err(e) => r matches Err(found) && found == e,
        },
{
    let code: i128 = match code {
        Some(code) => code,
        None => {
            return Err(Error::StaticDeltaCodeNull);
        },
    };
    if code < 0 || code > u64::MAX as i128 {
        return Err(Error::StaticDeltaCodeTooLarge);
    }
    let delta: i128 = if unsigned {
        code
    } else {
        unzigzag(code as u64) as i128
    };
    match value.checked_add(delta) {
        Some(next) => Ok(next),
        None => Err(overflow),
    }
}

/// The running value at a row.
fn run_on<C: StaticDecoder>(
    session: &mut ReadSession<'_>,
    restarts: usize,
    interval: usize,
    unsigned: bool,
    row: usize,
    value: i128,
) -> (r: Result<i128, Error>)
    requires
        old(session).wf(),
        C::sound(),
        interval > 0,
    ensures
        ({
            let wanted = running_outcome::<C>(
                old(session).context(),
                restarts,
                interval as int,
                unsigned,
                row as int,
                value as int,
            );
            &&& final(session).follows(*old(session), wanted.trace)
            &&& match wanted.result {
                Ok(next) => r matches Ok(found) && found == next,
                Err(e) => r matches Err(found) && found == e,
            }
        }),
{
    let ghost context = session.context();
    if row % interval == 0 {
        let ghost read = i64_outcome(context, FieldId(restarts), row as int / interval as int);
        assert(read.trace + Seq::<Event>::empty() =~= read.trace);
        match session.read_i64(FieldId(restarts), row / interval) {
            Ok(anchor) => Ok(anchor as i128),
            Err(e) => Err(e),
        }
    } else {
        let ghost read = C::value(context, row as int);
        assert(read.trace + Seq::<Event>::empty() =~= read.trace);
        match C::get(session, row) {
            Ok(code) => exec_code_step(value, code, unsigned, Error::StaticDeltaSpanOverflow),
            Err(e) => Err(e),
        }
    }
}

impl<
    const RESTARTS: usize,
    const RESTART_INTERVAL: usize,
    const UNSIGNED: bool,
    Child: StaticDecoder,
> StaticDecoder for StaticDelta<RESTARTS, RESTART_INTERVAL, UNSIGNED, Child> {
    open spec fn sound() -> bool {
        RESTART_INTERVAL > 0 && Child::sound()
    }

    open spec fn value(context: Context, row: int) -> Outcome<Option<int>> {
        let block = row / RESTART_INTERVAL as int;
        chain(
            i64_outcome(context, FieldId(RESTARTS), block),
            |anchor: i64|
                chain(
                    codes_outcome::<Child>(
                        context,
                        UNSIGNED,
                        block * RESTART_INTERVAL + 1,
                        row,
                        anchor as int,
                    ),
                    |value: int| given(Some(value)),
                ),
        )
    }

    open spec fn walk(context: Context, start: int, end: int) -> Walk {
        delta_walk::<Child>(
            context,
            RESTARTS,
            RESTART_INTERVAL as int,
            UNSIGNED,
            start,
            end,
            start / RESTART_INTERVAL as int * RESTART_INTERVAL,
            0,
        )
    }

    fn get(session: &mut ReadSession<'_>, row: usize) -> (r: Result<Option<i128>, Error>) {
        let ghost first = *session;
        let ghost context = session.context();
        let block: usize = row / RESTART_INTERVAL;
        let ghost anchor = i64_outcome(context, FieldId(RESTARTS), block as int);
        proof {
            lemma_floor(row as int, RESTART_INTERVAL as int);
        }
        let block_start: usize = block * RESTART_INTERVAL;
        let mut value: i128 = match session.read_i64(FieldId(RESTARTS), block) {
            Ok(value) => value as i128,
            Err(e) => {
                return Err(e);
            },
        };
        let mut position: usize = block_start;
        let ghost all = codes_outcome::<Child>(
            context,
            UNSIGNED,
            block_start + 1,
            row as int,
            value as int,
        );
        let ghost mut done = anchor.trace;
        assert(anchor.trace + all.trace =~= done + all.trace);
        while position < row
            invariant
                block_start <= position <= row,
                Child::sound(),
                first == *old(session),
                context == first.context(),
                session.follows(first, done),
                Self::value(context, row as int) == (Outcome {
                    result: match all.result {
                        Ok(value) => Ok(Some(value)),
                        Err(e) => Err(e),
                    },
                    trace: anchor.trace + all.trace,
                }),
                ({
                    let rest = codes_outcome::<Child>(
                        context,
                        UNSIGNED,
                        position + 1,
                        row as int,
                        value as int,
                    );
                    all.result == rest.result && anchor.trace + all.trace == done + rest.trace
                }),
            decreases row - position,
        {
            let ghost before = *session;
            position = position + 1;
            let ghost read = Child::value(context, position as int);
            let code = Child::get(session, position);
            proof {
                session.lemma_join(before, first, done, read.trace);
                assert(read.trace + Seq::<Event>::empty() =~= read.trace);
            }
            let code = match code {
                Ok(code) => code,
                Err(e) => {
                    return Err(e);
                },
            };
            value = match exec_code_step(value, code, UNSIGNED, Error::StaticDeltaOverflow) {
                Ok(value) => value,
                Err(e) => {
                    return Err(e);
                },
            };
            proof {
                let rest = codes_outcome::<Child>(
                    context,
                    UNSIGNED,
                    position + 1,
                    row as int,
                    value as int,
                );
                assert(done + (read.trace + rest.trace) =~= done + read.trace + rest.trace);
                done = done + read.trace;
            }
        }
        assert(done + Seq::<Event>::empty() =~= done);
        Ok(Some(value))
    }

    fn visit<V: Visitor>(
        session: &mut ReadSession<'_>,
        start: usize,
        end: usize,
        visitor: V,
    ) -> (r: Result<V, Error>) {
        let ghost first = *session;
        let ghost context = session.context();
        let ghost all = walked::<V>(
            context,
            Self::walk(context, start as int, end as int),
            visitor.state(),
        );
        proof {
            lemma_floor(start as int, RESTART_INTERVAL as int);
            lemma_set_out::<V>(
                *session,
                Self::walk(context, start as int, end as int),
                visitor.state(),
            );
        }
        let mut guest: V = visitor;
        let mut row: usize = start / RESTART_INTERVAL * RESTART_INTERVAL;
        let mut value: i128 = 0;
        let ghost mut done: Seq<Event> = Seq::empty();
        while row < end
            invariant
                Child::sound(),
                RESTART_INTERVAL > 0,
                session.follows(first, done),
                context == first.context(),
                first == *old(session),
                all == walked::<V>(
                    context,
                    Self::walk(context, start as int, end as int),
                    visitor.state(),
                ),
                left_of(
                    all,
                    done,
                    walked::<V>(
                        context,
                        delta_walk::<Child>(
                            context,
                            RESTARTS,
                            RESTART_INTERVAL as int,
                            UNSIGNED,
                            start as int,
                            end as int,
                            row as int,
                            value as int,
                        ),
                        guest.state(),
                    ),
                ),
            decreases end - row,
        {
            let ghost before = *session;
            let ghost state = guest.state();
            let ghost read = running_outcome::<Child>(
                context,
                RESTARTS,
                RESTART_INTERVAL as int,
                UNSIGNED,
                row as int,
                value as int,
            );
            let found = run_on::<Child>(session, RESTARTS, RESTART_INTERVAL, UNSIGNED, row, value);
            let ghost rest = delta_walk::<Child>(
                context,
                RESTARTS,
                RESTART_INTERVAL as int,
                UNSIGNED,
                start as int,
                end as int,
                row + 1,
                read.result->Ok_0,
            );
            proof {
                let next = match read.result {
                    Ok(value) => if row >= start {
                        giving(Some(value), row as int, row + 1, rest)
                    } else {
                        rest
                    },
                    Err(e) => stopped(e),
                };
                lemma_read_on::<V>(*session, before, first, all, done, read.trace, next, state);
                done = done + read.trace;
            }
            value = match found {
                Ok(found) => found,
                Err(e) => {
                    proof {
                        lemma_stop::<V>(context, all, done, e, state);
                    }
                    return Err(e);
                },
            };
            if row >= start {
                let ghost middle = *session;
                let taken = guest.accept(session, Some(value), row, row + 1);
                proof {
                    let at = row as int;
                    lemma_give_on::<V>(
                        *session,
                        middle,
                        first,
                        all,
                        done,
                        Some(value as int),
                        at,
                        at + 1,
                        rest,
                        state,
                    );
                    done = done + V::step(context, state, Some(value as int), at, at + 1).trace;
                }
                guest = match taken {
                    Ok(next) => next,
                    Err(e) => {
                        return Err(e);
                    },
                };
            }
            row = row + 1;
        }
        proof {
            lemma_arrive::<V>(context, all, done, guest.state());
        }
        Ok(guest)
    }
}

// ----- runs -----

pub struct StaticRle<
    const LENGTHS: usize,
    const INDEX: usize,
    const RUNS: usize,
    const INDEX_INTERVAL: usize,
    Child,
>(PhantomData<Child>);

/// Walking from a run on: of each run, the rows in `start..end`.
pub open spec fn rle_walk<C: StaticDecoder>(
    context: Context,
    lengths: usize,
    runs: int,
    start: int,
    end: int,
    run: int,
    run_start: int,
) -> Walk
    decreases runs - run,
{
    if run >= runs || run_start >= end {
        arrived()
    } else {
        reading(
            u32_outcome(context, FieldId(lengths), run),
            |length: u32|
                {
                    let run_end = run_start + length;
                    let from = if start < run_start {
                        run_start
                    } else {
                        start
                    };
                    let to = if end < run_end {
                        end
                    } else {
                        run_end
                    };
                    let rest = rle_walk::<C>(context, lengths, runs, start, end, run + 1, run_end);
                    if run_end > usize::MAX {
                        stopped(Error::StaticRleRowOverflow)
                    } else if from < to {
                        reading(
                            C::value(context, run),
                            |value: Option<int>| giving(value, from, to, rest),
                        )
                    } else {
                        rest
                    }
                },
        )
    }
}

impl<
    const LENGTHS: usize,
    const INDEX: usize,
    const RUNS: usize,
    const INDEX_INTERVAL: usize,
    Child: StaticDecoder,
> StaticDecoder for StaticRle<LENGTHS, INDEX, RUNS, INDEX_INTERVAL, Child> {
    open spec fn sound() -> bool {
        INDEX_INTERVAL > 0 && Child::sound()
    }

    open spec fn value(context: Context, row: int) -> Outcome<Option<int>> {
        chain(
            locate_outcome(
                context,
                FieldId(INDEX),
                FieldId(LENGTHS),
                RUNS as int,
                INDEX_INTERVAL as int,
                row,
            ),
            |place: (int, int, int)| Child::value(context, place.0),
        )
    }

    open spec fn walk(context: Context, start: int, end: int) -> Walk {
        if start == end {
            arrived()
        } else {
            reading(
                locate_outcome(
                    context,
                    FieldId(INDEX),
                    FieldId(LENGTHS),
                    RUNS as int,
                    INDEX_INTERVAL as int,
                    start,
                ),
                |place: (int, int, int)|
                    rle_walk::<Child>(
                        context,
                        LENGTHS,
                        RUNS as int,
                        start,
                        end,
                        place.0,
                        place.1,
                    ),
            )
        }
    }

    fn get(session: &mut ReadSession<'_>, row: usize) -> (r: Result<Option<i128>, Error>) {
        let ghost first = *session;
        let ghost context = session.context();
        let ghost place = locate_outcome(
            context,
            FieldId(INDEX),
            FieldId(LENGTHS),
            RUNS as int,
            INDEX_INTERVAL as int,
            row as int,
        );
        let run: usize = match locate_indexed(
            session,
            FieldId(INDEX),
            FieldId(LENGTHS),
            RUNS,
            INDEX_INTERVAL,
            row,
        ) {
            Ok((run, _, _)) => run,
            Err(e) => {
                return Err(e);
            },
        };
        let ghost middle = *session;
        let value = Child::get(session, run);
        proof {
            session.lemma_join(
                middle,
                first,
                place.trace,
                Child::value(context, run as int).trace,
            );
        }
        value
    }

    fn visit<V: Visitor>(
        session: &mut ReadSession<'_>,
        start: usize,
        end: usize,
        visitor: V,
    ) -> (r: Result<V, Error>) {
        let ghost first = *session;
        let ghost context = session.context();
        let ghost all = walked::<V>(
            context,
            Self::walk(context, start as int, end as int),
            visitor.state(),
        );
        let ghost mut done: Seq<Event> = Seq::empty();
        proof {
            lemma_set_out::<V>(
                *session,
                Self::walk(context, start as int, end as int),
                visitor.state(),
            );
        }
        if start == end {
            proof {
                lemma_arrive::<V>(context, all, done, visitor.state());
            }
            return Ok(visitor);
        }
        let place = locate_indexed(
            session,
            FieldId(INDEX),
            FieldId(LENGTHS),
            RUNS,
            INDEX_INTERVAL,
            start,
        );
        proof {
            let read = locate_outcome(
                context,
                FieldId(INDEX),
                FieldId(LENGTHS),
                RUNS as int,
                INDEX_INTERVAL as int,
                start as int,
            );
            let next = match read.result {
                Ok(place) => rle_walk::<Child>(
                    context,
                    LENGTHS,
                    RUNS as int,
                    start as int,
                    end as int,
                    place.0,
                    place.1,
                ),
                Err(e) => stopped(e),
            };
            lemma_read_on::<V>(
                *session,
                first,
                first,
                all,
                done,
                read.trace,
                next,
                visitor.state(),
            );
            done = done + read.trace;
        }
        let (mut run, mut run_start) = match place {
            Ok((run, run_start, _)) => (run, run_start),
            Err(e) => {
                proof {
                    lemma_stop::<V>(context, all, done, e, visitor.state());
                }
                return Err(e);
            },
        };
        let mut guest: V = visitor;
        while run < RUNS && run_start < end
            invariant
                Child::sound(),
                session.follows(first, done),
                context == first.context(),
                first == *old(session),
                all == walked::<V>(
                    context,
                    Self::walk(context, start as int, end as int),
                    visitor.state(),
                ),
                left_of(
                    all,
                    done,
                    walked::<V>(
                        context,
                        rle_walk::<Child>(
                            context,
                            LENGTHS,
                            RUNS as int,
                            start as int,
                            end as int,
                            run as int,
                            run_start as int,
                        ),
                        guest.state(),
                    ),
                ),
            decreases RUNS - run,
        {
            let ghost before = *session;
            let ghost state = guest.state();
            let ghost read = u32_outcome(context, FieldId(LENGTHS), run as int);
            let length = session.read_u32(FieldId(LENGTHS), run);
            let ghost run_stop = run_start + read.result->Ok_0;
            let ghost rest = rle_walk::<Child>(
                context,
                LENGTHS,
                RUNS as int,
                start as int,
                end as int,
                run + 1,
                run_stop,
            );
            let ghost from = if start < run_start {
                run_start as int
            } else {
                start as int
            };
            let ghost to = if end < run_stop {
                end as int
            } else {
                run_stop
            };
            let ghost inner = Child::value(context, run as int);
            let ghost spanned = match inner.result {
                Ok(value) => giving(value, from, to, rest),
                Err(e) => stopped(e),
            };
            proof {
                let next = match read.result {
                    Ok(length) => if run_stop > usize::MAX {
                        stopped(Error::StaticRleRowOverflow)
                    } else if from < to {
                        after_steps(inner.trace, spanned)
                    } else {
                        rest
                    },
                    Err(e) => stopped(e),
                };
                lemma_read_on::<V>(*session, before, first, all, done, read.trace, next, state);
                done = done + read.trace;
            }
            let length: usize = match length {
                Ok(length) => length as usize,
                Err(e) => {
                    proof {
                        lemma_stop::<V>(context, all, done, e, state);
                    }
                    return Err(e);
                },
            };
            let run_end: usize = match run_start.checked_add(length) {
                Some(run_end) => run_end,
                None => {
                    proof {
                        lemma_stop::<V>(context, all, done, Error::StaticRleRowOverflow, state);
                    }
                    return Err(Error::StaticRleRowOverflow);
                },
            };
            let span_start: usize = if start < run_start {
                run_start
            } else {
                start
            };
            let span_end: usize = if end < run_end {
                end
            } else {
                run_end
            };
            if span_start < span_end {
                let ghost middle = *session;
                let value = Child::get(session, run);
                proof {
                    lemma_read_on::<V>(
                        *session,
                        middle,
                        first,
                        all,
                        done,
                        inner.trace,
                        spanned,
                        state,
                    );
                    done = done + inner.trace;
                }
                let value = match value {
                    Ok(value) => value,
                    Err(e) => {
                        proof {
                            lemma_stop::<V>(context, all, done, e, state);
                        }
                        return Err(e);
                    },
                };
                let ghost middle = *session;
                let taken = guest.accept(session, value, span_start, span_end);
                proof {
                    let value = number(value);
                    lemma_give_on::<V>(
                        *session,
                        middle,
                        first,
                        all,
                        done,
                        value,
                        from,
                        to,
                        rest,
                        state,
                    );
                    done = done + V::step(context, state, value, from, to).trace;
                }
                guest = match taken {
                    Ok(next) => next,
                    Err(e) => {
                        return Err(e);
                    },
                };
            }
            run_start = run_end;
            run = run + 1;
        }
        proof {
            lemma_arrive::<V>(context, all, done, guest.state());
        }
        Ok(guest)
    }
}

// ----- dictionaries -----

pub struct StaticDictionary<const FIELD: usize, const ENTRIES: usize, Child>(PhantomData<Child>);

/// The place in the table that an identifier names.
pub open spec fn entry_of(entries: int, id: Option<int>) -> Result<int, Error> {
    match id {
        None => Err(Error::StaticIdNull),
        Some(id) => if id < 0 || id > usize::MAX {
            Err(Error::StaticIdTooLarge)
        } else if id >= entries {
            Err(Error::StaticIdOutside)
        } else {
            Ok(id)
        },
    }
}

pub(crate) fn exec_entry_of(entries: usize, id: Option<i128>) -> (r: Result<usize, Error>)
    ensures
        match entry_of(entries as int, number(id)) {
            Ok(entry) => r matches Ok(found) && found == entry,
            Err(e) => r matches Err(found) && found == e,
        },
{
    let id: i128 = match id {
        Some(id) => id,
        None => {
            return Err(Error::StaticIdNull);
        },
    };
    if id < 0 || id > usize::MAX as i128 {
        return Err(Error::StaticIdTooLarge);
    }
    if id as usize >= entries {
        return Err(Error::StaticIdOutside);
    }
    Ok(id as usize)
}

pub open spec fn dictionary_turn(
    context: Context,
    field: usize,
    entries: int,
    id: Option<int>,
    start: int,
    end: int,
) -> Turn<()> {
    Turn {
        walk: match entry_of(entries, id) {
            Ok(entry) => reading(
                i64_outcome(context, FieldId(field), entry),
                |value: i64| giving(Some(value as int), start, end, arrived()),
            ),
            Err(e) => stopped(e),
        },
        memory: (),
    }
}

struct DictionaryVisitor<const FIELD: usize, const ENTRIES: usize, V> {
    inner: V,
}

impl<const FIELD: usize, const ENTRIES: usize, V: Visitor> Visitor for DictionaryVisitor<
    FIELD,
    ENTRIES,
    V,
> {
    type State = V::State;

    closed spec fn state(&self) -> V::State {
        self.inner.state()
    }

    open spec fn step(
        context: Context,
        state: V::State,
        value: Option<int>,
        start: int,
        end: int,
    ) -> Outcome<V::State> {
        let one = dictionary_turn(context, FIELD, ENTRIES as int, value, start, end);
        chain(walked::<V>(context, one.walk, state), |next: V::State| given(next))
    }

    fn accept(
        self,
        session: &mut ReadSession<'_>,
        value: Option<i128>,
        start: usize,
        end: usize,
    ) -> (r: Result<Self, Error>) {
        let ghost context = session.context();
        let ghost first = *session;
        let ghost state = self.inner.state();
        let ghost one = dictionary_turn(
            context,
            FIELD,
            ENTRIES as int,
            number(value),
            start as int,
            end as int,
        );
        let ghost all = walked::<V>(context, one.walk, state);
        let ghost mut done: Seq<Event> = Seq::empty();
        proof {
            lemma_set_out::<V>(*session, one.walk, state);
            assert(all.trace + Seq::<Event>::empty() =~= all.trace);
        }
        let entry: usize = match exec_entry_of(ENTRIES, value) {
            Ok(entry) => entry,
            Err(e) => {
                proof {
                    lemma_stop::<V>(context, all, done, e, state);
                }
                return Err(e);
            },
        };
        let ghost read = i64_outcome(context, FieldId(FIELD), entry as int);
        let found = session.read_i64(FieldId(FIELD), entry);
        proof {
            let next = match read.result {
                Ok(value) => giving(Some(value as int), start as int, end as int, arrived()),
                Err(e) => stopped(e),
            };
            lemma_read_on::<V>(*session, first, first, all, done, read.trace, next, state);
            done = done + read.trace;
        }
        let found: i64 = match found {
            Ok(found) => found,
            Err(e) => {
                proof {
                    lemma_stop::<V>(context, all, done, e, state);
                }
                return Err(e);
            },
        };
        let ghost middle = *session;
        let taken = self.inner.accept(session, Some(found as i128), start, end);
        proof {
            let value = Some(found as int);
            let step = V::step(context, state, value, start as int, end as int);
            lemma_give_on::<V>(
                *session,
                middle,
                first,
                all,
                done,
                value,
                start as int,
                end as int,
                arrived(),
                state,
            );
            if let Ok(next) = step.result {
                lemma_arrive::<V>(context, all, done + step.trace, next);
            }
        }
        match taken {
            Ok(inner) => Ok(DictionaryVisitor { inner }),
            Err(e) => Err(e),
        }
    }
}

impl<const FIELD: usize, const ENTRIES: usize, Child: StaticDecoder> StaticDecoder for
    StaticDictionary<FIELD, ENTRIES, Child> {
    open spec fn sound() -> bool {
        Child::sound()
    }

    open spec fn value(context: Context, row: int) -> Outcome<Option<int>> {
        chain(
            Child::value(context, row),
            |id: Option<int>|
                match entry_of(ENTRIES as int, id) {
                    Ok(entry) => chain(
                        i64_outcome(context, FieldId(FIELD), entry),
                        |value: i64| given(Some(value as int)),
                    ),
                    Err(e) => failed(e),
                },
        )
    }

    open spec fn walk(context: Context, start: int, end: int) -> Walk {
        turned(
            Child::walk(context, start, end),
            |memory: (), id: Option<int>, from: int, to: int|
                dictionary_turn(context, FIELD, ENTRIES as int, id, from, to),
            (),
        )
    }

    fn get(session: &mut ReadSession<'_>, row: usize) -> (r: Result<Option<i128>, Error>) {
        let ghost first = *session;
        let ghost context = session.context();
        let ghost inner = Child::value(context, row as int);
        assert(inner.trace + Seq::<Event>::empty() =~= inner.trace);
        let id = match Child::get(session, row) {
            Ok(id) => id,
            Err(e) => {
                return Err(e);
            },
        };
        let entry: usize = match exec_entry_of(ENTRIES, id) {
            Ok(entry) => entry,
            Err(e) => {
                return Err(e);
            },
        };
        let ghost middle = *session;
        let value = session.read_i64(FieldId(FIELD), entry);
        proof {
            let read = i64_outcome(context, FieldId(FIELD), entry as int);
            assert(read.trace + Seq::<Event>::empty() =~= read.trace);
            session.lemma_join(middle, first, inner.trace, read.trace);
        }
        match value {
            Ok(value) => Ok(Some(value as i128)),
            Err(e) => Err(e),
        }
    }

    fn visit<V: Visitor>(
        session: &mut ReadSession<'_>,
        start: usize,
        end: usize,
        visitor: V,
    ) -> (r: Result<V, Error>) {
        let ghost context = session.context();
        let ghost state = visitor.state();
        let ghost below = Child::walk(context, start as int, end as int);
        let ghost turn = |memory: (), id: Option<int>, from: int, to: int|
            dictionary_turn(context, FIELD, ENTRIES as int, id, from, to);
        let ghost pair = |memory: (), state: V::State| state;
        let guest: DictionaryVisitor<FIELD, ENTRIES, V> = DictionaryVisitor { inner: visitor };
        assert(guest.state() == pair((), state));
        let r = Child::visit(session, start, end, guest);
        proof {
            assert(turns::<V, DictionaryVisitor<FIELD, ENTRIES, V>, ()>(context, turn, pair));
            lemma_turned::<V, DictionaryVisitor<FIELD, ENTRIES, V>, ()>(
                context,
                below,
                turn,
                pair,
                (),
                state,
            );
        }
        match r {
            Ok(guest) => Ok(guest.inner),
            Err(e) => Err(e),
        }
    }
}

// ----- exceptions -----

pub struct StaticPatch<
    const POSITIONS: usize,
    const INDEX: usize,
    const EXCEPTIONS: usize,
    const COUNT: usize,
    const INDEX_INTERVAL: usize,
    Child,
>(PhantomData<Child>);

/// The exceptions from `at` on whose rows come before `end`, after those found.
pub open spec fn collect_outcome(
    context: Context,
    positions: usize,
    exceptions: usize,
    count: int,
    end: int,
    at: int,
    found: Seq<(int, int)>,
) -> Outcome<Seq<(int, int)>>
    decreases count - at,
{
    if at >= count {
        given(found)
    } else {
        chain(
            u32_outcome(context, FieldId(positions), at),
            |row: u32|
                if row >= end {
                    given(found)
                } else {
                    chain(
                        i64_outcome(context, FieldId(exceptions), at),
                        |value: i64|
                            collect_outcome(
                                context,
                                positions,
                                exceptions,
                                count,
                                end,
                                at + 1,
                                found.push((row as int, value as int)),
                            ),
                    )
                },
        )
    }
}

/// Collected exceptions as mathematical numbers.
pub open spec fn patch_numbers(patches: Seq<(usize, i128)>) -> Seq<(int, int)> {
    Seq::new(patches.len(), |i: int| (patches[i].0 as int, patches[i].1 as int))
}

/// The rows `cursor..end` of one value, broken up by the exceptions from `at` on.
pub open spec fn patch_turn(
    patches: Seq<(int, int)>,
    at: int,
    value: Option<int>,
    cursor: int,
    end: int,
) -> Turn<(Seq<(int, int)>, int)>
    decreases patches.len() - at,
{
    if at < patches.len() && patches[at].0 < end {
        let (row, exception) = patches[at];
        if row < cursor {
            Turn { walk: stopped(Error::StaticPatchesNotOrdered), memory: (patches, at) }
        } else {
            let rest = patch_turn(patches, at + 1, value, row + 1, end);
            let given_out = giving(Some(exception), row, row + 1, rest.walk);
            Turn {
                walk: if cursor < row {
                    giving(value, cursor, row, given_out)
                } else {
                    given_out
                },
                memory: rest.memory,
            }
        }
    } else {
        Turn {
            walk: if cursor < end {
                giving(value, cursor, end, arrived())
            } else {
                arrived()
            },
            memory: (patches, at),
        }
    }
}

struct PatchVisitor<V> {
    patches: Vec<(usize, i128)>,
    at: usize,
    inner: V,
}

impl<V: Visitor> Visitor for PatchVisitor<V> {
    type State = ((Seq<(int, int)>, int), V::State);

    closed spec fn state(&self) -> ((Seq<(int, int)>, int), V::State) {
        ((patch_numbers(self.patches@), self.at as int), self.inner.state())
    }

    open spec fn step(
        context: Context,
        state: ((Seq<(int, int)>, int), V::State),
        value: Option<int>,
        start: int,
        end: int,
    ) -> Outcome<((Seq<(int, int)>, int), V::State)> {
        let one = patch_turn(state.0.0, state.0.1, value, start, end);
        chain(
            walked::<V>(context, one.walk, state.1),
            |next: V::State| given((one.memory, next)),
        )
    }

    fn accept(
        self,
        session: &mut ReadSession<'_>,
        value: Option<i128>,
        start: usize,
        end: usize,
    ) -> (r: Result<Self, Error>) {
        let ghost context = session.context();
        let ghost first = *session;
        let ghost numbers = patch_numbers(self.patches@);
        let ghost one = patch_turn(
            numbers,
            self.at as int,
            number(value),
            start as int,
            end as int,
        );
        let ghost all = walked::<V>(context, one.walk, self.inner.state());
        let ghost mut done: Seq<Event> = Seq::empty();
        proof {
            lemma_set_out::<V>(*session, one.walk, self.inner.state());
            assert(all.trace + Seq::<Event>::empty() =~= all.trace);
        }
        let patches = self.patches;
        let mut at: usize = self.at;
        let mut inner: V = self.inner;
        let mut cursor: usize = start;
        while at < patches.len() && patches[at].0 < end
            invariant
                cursor <= end,
                session.follows(first, done),
                context == first.context(),
                first == *old(session),
                patches@ == self.patches@,
                numbers == patch_numbers(patches@),
                one == patch_turn(
                    numbers,
                    self.at as int,
                    number(value),
                    start as int,
                    end as int,
                ),
                all == walked::<V>(context, one.walk, self.inner.state()),
                all.trace + Seq::<Event>::empty() == all.trace,
                ({
                    let rest = patch_turn(
                        numbers,
                        at as int,
                        number(value),
                        cursor as int,
                        end as int,
                    );
                    &&& left_of(all, done, walked::<V>(context, rest.walk, inner.state()))
                    &&& all.result is Ok ==> one.memory == rest.memory
                }),
            decreases patches.len() - at,
        {
            let (row, exception) = patches[at];
            let ghost rest = patch_turn(
                numbers,
                at + 1,
                number(value),
                row + 1,
                end as int,
            );
            assert(numbers[at as int] == (row as int, exception as int));
            if row < cursor {
                proof {
                    lemma_stop::<V>(
                        context,
                        all,
                        done,
                        Error::StaticPatchesNotOrdered,
                        inner.state(),
                    );
                }
                return Err(Error::StaticPatchesNotOrdered);
            }
            if cursor < row {
                let ghost before = *session;
                let ghost state = inner.state();
                let taken = inner.accept(session, value, cursor, row);
                proof {
                    let after = giving(Some(exception as int), row as int, row + 1, rest.walk);
                    lemma_give_on::<V>(
                        *session,
                        before,
                        first,
                        all,
                        done,
                        number(value),
                        cursor as int,
                        row as int,
                        after,
                        state,
                    );
                    done = done + V::step(
                        context,
                        state,
                        number(value),
                        cursor as int,
                        row as int,
                    ).trace;
                }
                inner = match taken {
                    Ok(inner) => inner,
                    Err(e) => {
                        return Err(e);
                    },
                };
            }
            let ghost before = *session;
            let ghost state = inner.state();
            let taken = inner.accept(session, Some(exception), row, row + 1);
            proof {
                let value = Some(exception as int);
                lemma_give_on::<V>(
                    *session,
                    before,
                    first,
                    all,
                    done,
                    value,
                    row as int,
                    row + 1,
                    rest.walk,
                    state,
                );
                done = done + V::step(context, state, value, row as int, row + 1).trace;
            }
            inner = match taken {
                Ok(inner) => inner,
                Err(e) => {
                    return Err(e);
                },
            };
            cursor = row + 1;
            at = at + 1;
        }
        if cursor < end {
            let ghost before = *session;
            let ghost state = inner.state();
            let taken = inner.accept(session, value, cursor, end);
            proof {
                lemma_give_on::<V>(
                    *session,
                    before,
                    first,
                    all,
                    done,
                    number(value),
                    cursor as int,
                    end as int,
                    arrived(),
                    state,
                );
                done = done + V::step(
                    context,
                    state,
                    number(value),
                    cursor as int,
                    end as int,
                ).trace;
            }
            inner = match taken {
                Ok(inner) => inner,
                Err(e) => {
                    return Err(e);
                },
            };
        }
        proof {
            lemma_arrive::<V>(context, all, done, inner.state());
        }
        Ok(PatchVisitor { patches, at, inner })
    }
}

/// Reads the exceptions from `at` on whose rows come before `end`.
fn collect_patches(
    session: &mut ReadSession<'_>,
    positions: usize,
    exceptions: usize,
    count: usize,
    end: usize,
    at: usize,
) -> (r: Result<Vec<(usize, i128)>, Error>)
    requires
        old(session).wf(),
    ensures
        ({
            let wanted = collect_outcome(
                old(session).context(),
                positions,
                exceptions,
                count as int,
                end as int,
                at as int,
                Seq::empty(),
            );
            &&& final(session).follows(*old(session), wanted.trace)
            &&& match wanted.result {
                Ok(patches) => r matches Ok(found) && patch_numbers(found@) == patches,
                Err(e) => r matches Err(found) && found == e,
            }
        }),
{
    let ghost first = *session;
    let ghost context = session.context();
    let ghost all = collect_outcome(
        context,
        positions,
        exceptions,
        count as int,
        end as int,
        at as int,
        Seq::empty(),
    );
    let mut patches: Vec<(usize, i128)> = Vec::new();
    let mut next: usize = at;
    let ghost mut done: Seq<Event> = Seq::empty();
    proof {
        session.lemma_still();
        assert(patch_numbers(patches@) =~= Seq::empty());
        assert(done + all.trace =~= all.trace);
    }
    while next < count
        invariant
            session.follows(first, done),
            context == first.context(),
            first == *old(session),
            all == collect_outcome(
                context,
                positions,
                exceptions,
                count as int,
                end as int,
                at as int,
                Seq::empty(),
            ),
            left_of(
                all,
                done,
                collect_outcome(
                    context,
                    positions,
                    exceptions,
                    count as int,
                    end as int,
                    next as int,
                    patch_numbers(patches@),
                ),
            ),
        decreases count - next,
    {
        let ghost before = *session;
        let ghost prior = done;
        let ghost read = u32_outcome(context, FieldId(positions), next as int);
        let row = session.read_u32(FieldId(positions), next);
        proof {
            session.lemma_join(before, first, done, read.trace);
            assert(read.trace + Seq::<Event>::empty() =~= read.trace);
            done = done + read.trace;
        }
        let row: usize = match row {
            Ok(row) => row as usize,
            Err(e) => {
                return Err(e);
            },
        };
        if row >= end {
            return Ok(patches);
        }
        let ghost middle = *session;
        let ghost stored = i64_outcome(context, FieldId(exceptions), next as int);
        let value = session.read_i64(FieldId(exceptions), next);
        let ghost held = patch_numbers(patches@);
        proof {
            session.lemma_join(middle, first, done, stored.trace);
            let rest = collect_outcome(
                context,
                positions,
                exceptions,
                count as int,
                end as int,
                next + 1,
                held.push((row as int, stored.result->Ok_0 as int)),
            );
            assert(prior + (read.trace + (stored.trace + rest.trace)) =~= done + stored.trace
                + rest.trace);
            assert(prior + (read.trace + stored.trace) =~= done + stored.trace);
            done = done + stored.trace;
        }
        let value: i64 = match value {
            Ok(value) => value,
            Err(e) => {
                return Err(e);
            },
        };
        patches.push((row, value as i128));
        assert(patch_numbers(patches@) =~= held.push((row as int, value as int)));
        next = next + 1;
    }
    assert(done + Seq::<Event>::empty() =~= done);
    Ok(patches)
}

impl<
    const POSITIONS: usize,
    const INDEX: usize,
    const EXCEPTIONS: usize,
    const COUNT: usize,
    const INDEX_INTERVAL: usize,
    Child: StaticDecoder,
> StaticDecoder for StaticPatch<POSITIONS, INDEX, EXCEPTIONS, COUNT, INDEX_INTERVAL, Child> {
    open spec fn sound() -> bool {
        INDEX_INTERVAL > 0 && Child::sound()
    }

    open spec fn value(context: Context, row: int) -> Outcome<Option<int>> {
        chain(
            find_outcome(
                context,
                FieldId(INDEX),
                FieldId(POSITIONS),
                COUNT as int,
                INDEX_INTERVAL as int,
                row,
            ),
            |found: Option<int>|
                match found {
                    Some(exception) => chain(
                        i64_outcome(context, FieldId(EXCEPTIONS), exception),
                        |value: i64| given(Some(value as int)),
                    ),
                    None => Child::value(context, row),
                },
        )
    }

    open spec fn walk(context: Context, start: int, end: int) -> Walk {
        reading(
            lower_bound_outcome(
                context,
                FieldId(INDEX),
                FieldId(POSITIONS),
                COUNT as int,
                INDEX_INTERVAL as int,
                start,
            ),
            |at: int|
                reading(
                    collect_outcome(
                        context,
                        POSITIONS,
                        EXCEPTIONS,
                        COUNT as int,
                        end,
                        at,
                        Seq::empty(),
                    ),
                    |patches: Seq<(int, int)>|
                        turned(
                            Child::walk(context, start, end),
                            |memory: (Seq<(int, int)>, int), value: Option<int>, from: int, to: int|
                                patch_turn(memory.0, memory.1, value, from, to),
                            (patches, 0int),
                        ),
                ),
        )
    }

    fn get(session: &mut ReadSession<'_>, row: usize) -> (r: Result<Option<i128>, Error>) {
        let ghost first = *session;
        let ghost context = session.context();
        let ghost search = find_outcome(
            context,
            FieldId(INDEX),
            FieldId(POSITIONS),
            COUNT as int,
            INDEX_INTERVAL as int,
            row as int,
        );
        let found = match find_position(
            session,
            FieldId(INDEX),
            FieldId(POSITIONS),
            COUNT,
            INDEX_INTERVAL,
            row,
        ) {
            Ok(found) => found,
            Err(e) => {
                return Err(e);
            },
        };
        let ghost middle = *session;
        match found {
            Some(exception) => {
                let value = session.read_i64(FieldId(EXCEPTIONS), exception);
                proof {
                    let read = i64_outcome(context, FieldId(EXCEPTIONS), exception as int);
                    assert(read.trace + Seq::<Event>::empty() =~= read.trace);
                    session.lemma_join(middle, first, search.trace, read.trace);
                }
                match value {
                    Ok(value) => Ok(Some(value as i128)),
                    Err(e) => Err(e),
                }
            },
            None => {
                let value = Child::get(session, row);
                proof {
                    session.lemma_join(
                        middle,
                        first,
                        search.trace,
                        Child::value(context, row as int).trace,
                    );
                }
                value
            },
        }
    }

    fn visit<V: Visitor>(
        session: &mut ReadSession<'_>,
        start: usize,
        end: usize,
        visitor: V,
    ) -> (r: Result<V, Error>) {
        let ghost first = *session;
        let ghost context = session.context();
        let ghost state = visitor.state();
        let ghost whole = Self::walk(context, start as int, end as int);
        let ghost all = walked::<V>(context, whole, state);
        let ghost below = Child::walk(context, start as int, end as int);
        let ghost turn = |
            memory: (Seq<(int, int)>, int),
            value: Option<int>,
            from: int,
            to: int,
        | patch_turn(memory.0, memory.1, value, from, to);
        let ghost pair = |memory: (Seq<(int, int)>, int), state: V::State| (memory, state);
        let ghost mut done: Seq<Event> = Seq::empty();
        let ghost search = lower_bound_outcome(
            context,
            FieldId(INDEX),
            FieldId(POSITIONS),
            COUNT as int,
            INDEX_INTERVAL as int,
            start as int,
        );
        let at = lower_bound_position(
            session,
            FieldId(INDEX),
            FieldId(POSITIONS),
            COUNT,
            INDEX_INTERVAL,
            start,
        );
        let ghost collecting = collect_outcome(
            context,
            POSITIONS,
            EXCEPTIONS,
            COUNT as int,
            end as int,
            search.result->Ok_0,
            Seq::empty(),
        );
        let ghost last = match collecting.result {
            Ok(patches) => turned(below, turn, (patches, 0int)),
            Err(e) => stopped(e),
        };
        proof {
            lemma_set_out::<V>(first, whole, state);
            let next = match search.result {
                Ok(at) => after_steps(collecting.trace, last),
                Err(e) => stopped(e),
            };
            assert(whole == after_steps(search.trace, next));
            lemma_read_on::<V>(*session, first, first, all, done, search.trace, next, state);
            done = done + search.trace;
        }
        let at: usize = match at {
            Ok(at) => at,
            Err(e) => {
                proof {
                    lemma_stop::<V>(context, all, done, e, state);
                }
                return Err(e);
            },
        };
        let ghost middle = *session;
        let patches = collect_patches(session, POSITIONS, EXCEPTIONS, COUNT, end, at);
        proof {
            lemma_read_on::<V>(
                *session,
                middle,
                first,
                all,
                done,
                collecting.trace,
                last,
                state,
            );
            done = done + collecting.trace;
        }
        let patches = match patches {
            Ok(patches) => patches,
            Err(e) => {
                proof {
                    lemma_stop::<V>(context, all, done, e, state);
                }
                return Err(e);
            },
        };
        let ghost middle = *session;
        let ghost numbers = patch_numbers(patches@);
        let guest = PatchVisitor { patches, at: 0, inner: visitor };
        assert(guest.state() == pair((numbers, 0int), state));
        let r = Child::visit(session, start, end, guest);
        proof {
            assert(turns::<V, PatchVisitor<V>, (Seq<(int, int)>, int)>(context, turn, pair));
            lemma_turned::<V, PatchVisitor<V>, (Seq<(int, int)>, int)>(
                context,
                below,
                turn,
                pair,
                (numbers, 0int),
                state,
            );
            let outer = walked::<PatchVisitor<V>>(context, below, pair((numbers, 0int), state));
            session.lemma_join(middle, first, done, outer.trace);
        }
        match r {
            Ok(guest) => Ok(guest.inner),
            Err(e) => Err(e),
        }
    }
}

// ----- nulls -----

pub struct StaticNullable<
    const VALIDITY: usize,
    const RANK_INDEX: usize,
    const RANK_INTERVAL: usize,
    Child,
>(PhantomData<Child>);

/// The first row from `at` on that is not like the rows before it, up to `end`.
pub open spec fn extent_outcome(
    context: Context,
    validity: usize,
    at: int,
    end: int,
    valid: bool,
) -> Outcome<int>
    decreases end - at,
{
    if at >= end {
        given(at)
    } else {
        chain(
            valid_outcome(context, FieldId(validity), at),
            |found: bool|
                if found == valid {
                    extent_outcome(context, validity, at + 1, end, valid)
                } else {
                    given(at)
                },
        )
    }
}

pub proof fn lemma_extent(context: Context, validity: usize, at: int, end: int, valid: bool)
    ensures
        extent_outcome(context, validity, at, end, valid).result matches Ok(stop) ==> at <= stop && (
        at <= end ==> stop <= end),
    decreases end - at,
{
    if at < end {
        lemma_extent(context, validity, at + 1, end, valid);
    }
}

/// The place of a span of compact rows among all rows, where compact row `from` is
/// row `run_start`.
pub open spec fn shift_turn(
    run_start: int,
    from: int,
    value: Option<int>,
    start: int,
    end: int,
) -> Turn<(int, int)> {
    let mapped = run_start + start - from;
    Turn {
        walk: if run_start + start > usize::MAX || mapped < 0 || mapped + end > usize::MAX {
            stopped(Error::StaticSpanOverflow)
        } else {
            giving(value, mapped, mapped + end - start, arrived())
        },
        memory: (run_start, from),
    }
}

/// Walking from a row on, where `compact` rows that are not null come before it.
pub open spec fn null_walk<C: StaticDecoder>(
    context: Context,
    validity: usize,
    end: int,
    logical: int,
    compact: int,
) -> Walk
    decreases end - logical,
{
    if logical >= end {
        arrived()
    } else {
        let first = valid_outcome(context, FieldId(validity), logical);
        match first.result {
            Err(e) => after_steps(first.trace, stopped(e)),
            Ok(valid) => {
                let extent = extent_outcome(context, validity, logical + 1, end, valid);
                after_steps(
                    first.trace,
                    match extent.result {
                        Err(e) => after_steps(extent.trace, stopped(e)),
                        Ok(stop) => {
                            proof {
                                lemma_extent(context, validity, logical + 1, end, valid);
                            }
                            let reached = compact + (stop - logical);
                            after_steps(
                                extent.trace,
                                if !valid {
                                    giving(
                                        None,
                                        logical,
                                        stop,
                                        null_walk::<C>(context, validity, end, stop, compact),
                                    )
                                } else if reached > usize::MAX {
                                    stopped(Error::StaticSpanOverflow)
                                } else {
                                    joined(
                                        turned(
                                            C::walk(context, compact, reached),
                                            |
                                                memory: (int, int),
                                                value: Option<int>,
                                                from: int,
                                                to: int,
                                            | shift_turn(memory.0, memory.1, value, from, to),
                                            (logical, compact),
                                        ),
                                        null_walk::<C>(context, validity, end, stop, reached),
                                    )
                                },
                            )
                        },
                    },
                )
            },
        }
    }
}

struct ShiftVisitor<V> {
    run_start: usize,
    from: usize,
    inner: V,
}

impl<V: Visitor> Visitor for ShiftVisitor<V> {
    type State = ((int, int), V::State);

    closed spec fn state(&self) -> ((int, int), V::State) {
        ((self.run_start as int, self.from as int), self.inner.state())
    }

    open spec fn step(
        context: Context,
        state: ((int, int), V::State),
        value: Option<int>,
        start: int,
        end: int,
    ) -> Outcome<((int, int), V::State)> {
        let one = shift_turn(state.0.0, state.0.1, value, start, end);
        chain(
            walked::<V>(context, one.walk, state.1),
            |next: V::State| given((one.memory, next)),
        )
    }

    fn accept(
        self,
        session: &mut ReadSession<'_>,
        value: Option<i128>,
        start: usize,
        end: usize,
    ) -> (r: Result<Self, Error>) {
        let ghost context = session.context();
        let ghost state = self.inner.state();
        proof {
            session.lemma_still();
            lemma_stopped::<V>(context, Error::StaticSpanOverflow, state);
        }
        let mapped: usize = match self.run_start.checked_add(start) {
            Some(sum) => if sum < self.from {
                return Err(Error::StaticSpanOverflow);
            } else {
                sum - self.from
            },
            None => {
                return Err(Error::StaticSpanOverflow);
            },
        };
        let stop: usize = match mapped.checked_add(end) {
            Some(sum) => sum - start,
            None => {
                return Err(Error::StaticSpanOverflow);
            },
        };
        proof {
            lemma_single::<V>(context, number(value), mapped as int, stop as int, state);
            let step = V::step(context, state, number(value), mapped as int, stop as int);
            assert(step.trace + Seq::<Event>::empty() =~= step.trace);
        }
        match self.inner.accept(session, value, mapped, stop) {
            Ok(inner) => Ok(ShiftVisitor { run_start: self.run_start, from: self.from, inner }),
            Err(e) => Err(e),
        }
    }
}

/// Reads on to the first row that is not like the rows before it.
fn read_extent(
    session: &mut ReadSession<'_>,
    validity: usize,
    at: usize,
    end: usize,
    valid: bool,
) -> (r: Result<usize, Error>)
    requires
        old(session).wf(),
        at <= end,
    ensures
        ({
            let wanted = extent_outcome(
                old(session).context(),
                validity,
                at as int,
                end as int,
                valid,
            );
            &&& final(session).follows(*old(session), wanted.trace)
            &&& match wanted.result {
                Ok(stop) => r matches Ok(found) && found == stop && at <= stop <= end,
                Err(e) => r matches Err(found) && found == e,
            }
        }),
{
    let ghost first = *session;
    let ghost context = session.context();
    let ghost all = extent_outcome(context, validity, at as int, end as int, valid);
    let mut next: usize = at;
    let ghost mut done: Seq<Event> = Seq::empty();
    proof {
        session.lemma_still();
        assert(done + all.trace =~= all.trace);
    }
    while next < end
        invariant
            at <= next <= end,
            session.follows(first, done),
            context == first.context(),
            first == *old(session),
            all == extent_outcome(context, validity, at as int, end as int, valid),
            left_of(
                all,
                done,
                extent_outcome(context, validity, next as int, end as int, valid),
            ),
        decreases end - next,
    {
        let ghost before = *session;
        let ghost read = valid_outcome(context, FieldId(validity), next as int);
        let found = nullable_is_valid(session, FieldId(validity), next);
        proof {
            session.lemma_join(before, first, done, read.trace);
            assert(read.trace + Seq::<Event>::empty() =~= read.trace);
            let rest = extent_outcome(context, validity, next + 1, end as int, valid);
            assert(done + (read.trace + rest.trace) =~= done + read.trace + rest.trace);
            done = done + read.trace;
        }
        let found: bool = match found {
            Ok(found) => found,
            Err(e) => {
                return Err(e);
            },
        };
        if found != valid {
            return Ok(next);
        }
        next = next + 1;
    }
    assert(done + Seq::<Event>::empty() =~= done);
    Ok(next)
}

impl<
    const VALIDITY: usize,
    const RANK_INDEX: usize,
    const RANK_INTERVAL: usize,
    Child: StaticDecoder,
> StaticDecoder for StaticNullable<VALIDITY, RANK_INDEX, RANK_INTERVAL, Child> {
    open spec fn sound() -> bool {
        RANK_INTERVAL > 0 && Child::sound()
    }

    open spec fn value(context: Context, row: int) -> Outcome<Option<int>> {
        chain(
            rank_outcome(
                context,
                FieldId(VALIDITY),
                FieldId(RANK_INDEX),
                row,
                RANK_INTERVAL as int,
            ),
            |rank: Option<int>|
                match rank {
                    Some(rank) => Child::value(context, rank),
                    None => given(None),
                },
        )
    }

    open spec fn walk(context: Context, start: int, end: int) -> Walk {
        reading(
            prefix_rank_outcome(
                context,
                FieldId(VALIDITY),
                FieldId(RANK_INDEX),
                start,
                RANK_INTERVAL as int,
            ),
            |compact: int| null_walk::<Child>(context, VALIDITY, end, start, compact),
        )
    }

    fn get(session: &mut ReadSession<'_>, row: usize) -> (r: Result<Option<i128>, Error>) {
        let ghost first = *session;
        let ghost context = session.context();
        let ghost ranking = rank_outcome(
            context,
            FieldId(VALIDITY),
            FieldId(RANK_INDEX),
            row as int,
            RANK_INTERVAL as int,
        );
        assert(ranking.trace + Seq::<Event>::empty() =~= ranking.trace);
        let rank = match nullable_rank(
            session,
            FieldId(VALIDITY),
            FieldId(RANK_INDEX),
            row,
            RANK_INTERVAL,
        ) {
            Ok(rank) => rank,
            Err(e) => {
                return Err(e);
            },
        };
        match rank {
            Some(compact_row) => {
                let ghost middle = *session;
                let value = Child::get(session, compact_row);
                proof {
                    session.lemma_join(
                        middle,
                        first,
                        ranking.trace,
                        Child::value(context, compact_row as int).trace,
                    );
                }
                value
            },
            None => Ok(None),
        }
    }

    fn visit<V: Visitor>(
        session: &mut ReadSession<'_>,
        start: usize,
        end: usize,
        visitor: V,
    ) -> (r: Result<V, Error>) {
        let ghost first = *session;
        let ghost context = session.context();
        let ghost whole = Self::walk(context, start as int, end as int);
        let ghost all = walked::<V>(context, whole, visitor.state());
        let ghost mut done: Seq<Event> = Seq::empty();
        let ghost ranking = prefix_rank_outcome(
            context,
            FieldId(VALIDITY),
            FieldId(RANK_INDEX),
            start as int,
            RANK_INTERVAL as int,
        );
        let rank = nullable_prefix_rank(
            session,
            FieldId(VALIDITY),
            FieldId(RANK_INDEX),
            start,
            RANK_INTERVAL,
        );
        proof {
            lemma_set_out::<V>(first, whole, visitor.state());
            let next = match ranking.result {
                Ok(compact) => null_walk::<Child>(
                    context,
                    VALIDITY,
                    end as int,
                    start as int,
                    compact,
                ),
                Err(e) => stopped(e),
            };
            lemma_read_on::<V>(
                *session,
                first,
                first,
                all,
                done,
                ranking.trace,
                next,
                visitor.state(),
            );
            done = done + ranking.trace;
        }
        let mut compact: usize = match rank {
            Ok(compact) => compact,
            Err(e) => {
                proof {
                    lemma_stop::<V>(context, all, done, e, visitor.state());
                }
                return Err(e);
            },
        };
        let mut guest: V = visitor;
        let mut logical: usize = start;
        while logical < end
            invariant
                Child::sound(),
                logical <= end,
                session.follows(first, done),
                context == first.context(),
                first == *old(session),
                all == walked::<V>(
                    context,
                    Self::walk(context, start as int, end as int),
                    visitor.state(),
                ),
                left_of(
                    all,
                    done,
                    walked::<V>(
                        context,
                        null_walk::<Child>(
                            context,
                            VALIDITY,
                            end as int,
                            logical as int,
                            compact as int,
                        ),
                        guest.state(),
                    ),
                ),
            decreases end - logical,
        {
            let (r, Ghost(further)) = walk_run::<Child, V>(
                session,
                VALIDITY,
                end,
                logical,
                compact,
                guest,
                Ghost(first),
                Ghost(all),
                Ghost(done),
            );
            let (stop, reached, next) = match r {
                Ok(moved) => moved,
                Err(e) => {
                    return Err(e);
                },
            };
            guest = next;
            logical = stop;
            compact = reached;
            proof {
                done = further;
            }
        }
        proof {
            lemma_arrive::<V>(context, all, done, guest.state());
        }
        Ok(guest)
    }
}

/// Walks over one run of rows that are all null or all not.
fn walk_run<C: StaticDecoder, V: Visitor>(
    session: &mut ReadSession<'_>,
    validity: usize,
    end: usize,
    logical: usize,
    compact: usize,
    guest: V,
    Ghost(first): Ghost<ReadSession<'_>>,
    Ghost(all): Ghost<Outcome<V::State>>,
    Ghost(done): Ghost<Seq<Event>>,
) -> (r: (Result<(usize, usize, V), Error>, Ghost<Seq<Event>>))
    requires
        C::sound(),
        logical < end,
        old(session).follows(first, done),
        left_of(
            all,
            done,
            walked::<V>(
                first.context(),
                null_walk::<C>(
                    first.context(),
                    validity,
                    end as int,
                    logical as int,
                    compact as int,
                ),
                guest.state(),
            ),
        ),
    ensures
        final(session).follows(first, r.1@),
        match r.0 {
            Ok((stop, reached, next)) => {
                &&& logical < stop <= end
                &&& left_of(
                    all,
                    r.1@,
                    walked::<V>(
                        first.context(),
                        null_walk::<C>(
                            first.context(),
                            validity,
                            end as int,
                            stop as int,
                            reached as int,
                        ),
                        next.state(),
                    ),
                )
            },
            Err(e) => all == (Outcome { result: Err::<V::State, Error>(e), trace: r.1@ }),
        },
{
    let ghost mut done = done;
    let ghost context = first.context();
    let ghost before = *session;
    let ghost state = guest.state();
    let ghost look = valid_outcome(context, FieldId(validity), logical as int);
    let ghost extent = extent_outcome(
        context,
        validity,
        logical + 1,
        end as int,
        look.result->Ok_0,
    );
    let ghost stop_at = extent.result->Ok_0;
    let ghost reach = compact + (stop_at - logical);
    let ghost turn = |memory: (int, int), value: Option<int>, from: int, to: int|
        shift_turn(memory.0, memory.1, value, from, to);
    let ghost pair = |memory: (int, int), state: V::State| (memory, state);
    let ghost memory = (logical as int, compact as int);
    let ghost below = C::walk(context, compact as int, reach);
    let ghost part = turned(below, turn, memory);
    let ghost rest = null_walk::<C>(
        context,
        validity,
        end as int,
        stop_at,
        if look.result->Ok_0 {
            reach
        } else {
            compact as int
        },
    );
    let ghost third = match extent.result {
        Err(e) => stopped(e),
        Ok(stop) => if !look.result->Ok_0 {
            giving(None, logical as int, stop, rest)
        } else if reach > usize::MAX {
            stopped(Error::StaticSpanOverflow)
        } else {
            joined(part, rest)
        },
    };
    let ghost second = match look.result {
        Err(e) => stopped(e),
        Ok(valid) => after_steps(extent.trace, third),
    };
    proof {
        lemma_extent(context, validity, logical + 1, end as int, look.result->Ok_0);
        assert(null_walk::<C>(context, validity, end as int, logical as int, compact as int)
            == after_steps(look.trace, second));
    }
    let valid = nullable_is_valid(session, FieldId(validity), logical);
    proof {
        lemma_read_on::<V>(*session, before, first, all, done, look.trace, second, state);
        done = done + look.trace;
    }
    let valid: bool = match valid {
        Ok(valid) => valid,
        Err(e) => {
            proof {
                lemma_stop::<V>(context, all, done, e, state);
            }
            return (Err(e), Ghost(done));
        },
    };
    let ghost middle = *session;
    let stop = read_extent(session, validity, logical + 1, end, valid);
    proof {
        lemma_read_on::<V>(*session, middle, first, all, done, extent.trace, third, state);
        done = done + extent.trace;
    }
    let stop: usize = match stop {
        Ok(stop) => stop,
        Err(e) => {
            proof {
                lemma_stop::<V>(context, all, done, e, state);
            }
            return (Err(e), Ghost(done));
        },
    };
    let ghost middle = *session;
    if !valid {
        let taken = guest.accept(session, None, logical, stop);
        proof {
            let at = logical as int;
            lemma_give_on::<V>(
                *session,
                middle,
                first,
                all,
                done,
                None,
                at,
                stop as int,
                rest,
                state,
            );
            done = done + V::step(context, state, None, at, stop as int).trace;
        }
        return match taken {
            Ok(next) => (Ok((stop, compact, next)), Ghost(done)),
            Err(e) => (Err(e), Ghost(done)),
        };
    }
    let reached: usize = match compact.checked_add(stop - logical) {
        Some(reached) => reached,
        None => {
            proof {
                lemma_stop::<V>(context, all, done, Error::StaticSpanOverflow, state);
            }
            return (Err(Error::StaticSpanOverflow), Ghost(done));
        },
    };
    let shift = ShiftVisitor { run_start: logical, from: compact, inner: guest };
    assert(shift.state() == pair(memory, state));
    let r = C::visit(session, compact, reached, shift);
    proof {
        assert(turns::<V, ShiftVisitor<V>, (int, int)>(context, turn, pair));
        lemma_turned::<V, ShiftVisitor<V>, (int, int)>(context, below, turn, pair, memory, state);
        lemma_join_on::<V>(*session, middle, first, all, done, part, rest, state);
        done = done + walked::<V>(context, part, state).trace;
    }
    match r {
        Ok(shift) => (Ok((stop, reached, shift.inner)), Ghost(done)),
        Err(e) => (Err(e), Ghost(done)),
    }
}

} // verus!
