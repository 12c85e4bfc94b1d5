//! Walks over rows that hand values to a visitor.
use super::error::Error;
use super::runtime::ReadSession;
#[allow(unused_imports)]
use super::runtime::{chain, failed, given, Context, Event, Outcome};
use vstd::prelude::*;

verus! {

/// A decoded number as a mathematical one.
pub open spec fn number(value: Option<i128>) -> Option<int> {
    match value {
        Some(value) => Some(value as int),
        None => None,
    }
}

/// Takes the values of a walk over rows, in order: each with the rows that have
/// it. What it gathers is its state.
pub trait Visitor: Sized {
    type State;

    spec fn state(&self) -> Self::State;

    /// What taking a value does, and what it reads.
    spec fn step(
        context: Context,
        state: Self::State,
        value: Option<int>,
        start: int,
        end: int,
    ) -> Outcome<Self::State>;

    fn accept(
        self,
        session: &mut ReadSession<'_>,
        value: Option<i128>,
        start: usize,
        end: usize,
    ) -> (r: Result<Self, Error>)
        requires
            old(session).wf(),
            start < end,
        ensures
            ({
                let wanted = Self::step(
                    old(session).context(),
                    self.state(),
                    number(value),
                    start as int,
                    end as int,
                );
                &&& final(session).follows(*old(session), wanted.trace)
                &&& match wanted.result {
                    Ok(state) => r matches Ok(next) && next.state() == state,
                    Err(e) => r matches Err(found) && found == e,
                }
            }),
    ;
}

// ----- walks -----

/// One move of a walk over rows: steps of reading are taken, or a value is given
/// with the rows that have it.
pub enum Move {
    Steps(Seq<Event>),
    Give { value: Option<int>, start: int, end: int },
}

/// The moves of a walk, and why it ends early if it does.
#[verifier::ext_equal]
pub struct Walk {
    pub moves: Seq<Move>,
    pub fault: Option<Error>,
}

/// A walk that has nowhere to go.
pub open spec fn arrived() -> Walk {
    Walk { moves: Seq::empty(), fault: None }
}

pub open spec fn stopped(e: Error) -> Walk {
    Walk { moves: Seq::empty(), fault: Some(e) }
}

/// Steps, then the rest of a walk.
pub open spec fn after_steps(trace: Seq<Event>, rest: Walk) -> Walk {
    Walk { moves: seq![Move::Steps(trace)] + rest.moves, fault: rest.fault }
}

/// A reading, then what depends on what was read.
pub open spec fn reading<A>(read: Outcome<A>, rest: spec_fn(A) -> Walk) -> Walk {
    after_steps(
        read.trace,
        match read.result {
            Ok(found) => rest(found),
            Err(e) => stopped(e),
        },
    )
}

/// A value, then the rest of a walk.
pub open spec fn giving(value: Option<int>, start: int, end: int, rest: Walk) -> Walk {
    Walk { moves: seq![Move::Give { value, start, end }] + rest.moves, fault: rest.fault }
}

/// One walk, then another unless the first ended early.
pub open spec fn joined(first: Walk, second: Walk) -> Walk {
    if first.fault is Some {
        first
    } else {
        Walk { moves: first.moves + second.moves, fault: second.fault }
    }
}

/// What a visitor makes of moves.
pub open spec fn moved<V: Visitor>(context: Context, moves: Seq<Move>, state: V::State) -> Outcome<
    V::State,
>
    decreases moves.len(),
{
    if moves.len() == 0 {
        given(state)
    } else {
        match moves[0] {
            Move::Steps(trace) => {
                let rest = moved::<V>(context, moves.drop_first(), state);
                Outcome { result: rest.result, trace: trace + rest.trace }
            },
            Move::Give { value, start, end } => chain(
                V::step(context, state, value, start, end),
                |next: V::State| moved::<V>(context, moves.drop_first(), next),
            ),
        }
    }
}

/// What a visitor makes of a walk.
pub open spec fn walked<V: Visitor>(context: Context, walk: Walk, state: V::State) -> Outcome<
    V::State,
> {
    chain(
        moved::<V>(context, walk.moves, state),
        |last: V::State|
            match walk.fault {
                Some(e) => failed(e),
                None => given(last),
            },
    )
}

/// A visitor that took a walk.
pub open spec fn visited<V: Visitor>(r: Result<V, Error>, outcome: Outcome<V::State>) -> bool {
    match outcome.result {
        Ok(state) => r matches Ok(next) && next.state() == state,
        Err(e) => r matches Err(found) && found == e,
    }
}

/// What is left of an outcome once some of its steps are taken.
pub open spec fn left_of<T>(all: Outcome<T>, done: Seq<Event>, rest: Outcome<T>) -> bool {
    all.result == rest.result && all.trace == done + rest.trace
}

pub proof fn lemma_after_steps<V: Visitor>(
    context: Context,
    trace: Seq<Event>,
    rest: Walk,
    state: V::State,
)
    ensures
        left_of(
            walked::<V>(context, after_steps(trace, rest), state),
            trace,
            walked::<V>(context, rest, state),
        ),
{
    let moves = after_steps(trace, rest).moves;
    assert(moves.drop_first() =~= rest.moves);
    let inner = moved::<V>(context, rest.moves, state);
    assert(trace + inner.trace + Seq::<Event>::empty() =~= trace + (inner.trace
        + Seq::<Event>::empty()));
    assert(trace + inner.trace =~= trace + (inner.trace));
}

pub proof fn lemma_giving<V: Visitor>(
    context: Context,
    value: Option<int>,
    start: int,
    end: int,
    rest: Walk,
    state: V::State,
)
    ensures
        ({
            let step = V::step(context, state, value, start, end);
            let all = walked::<V>(context, giving(value, start, end, rest), state);
            match step.result {
                Ok(next) => left_of(all, step.trace, walked::<V>(context, rest, next)),
                Err(e) => all.result == Err::<V::State, Error>(e) && all.trace == step.trace,
            }
        }),
{
    let moves = giving(value, start, end, rest).moves;
    assert(moves.drop_first() =~= rest.moves);
    let step = V::step(context, state, value, start, end);
    if let Ok(next) = step.result {
        let inner = moved::<V>(context, rest.moves, next);
        assert(step.trace + inner.trace + Seq::<Event>::empty() =~= step.trace + (inner.trace
            + Seq::<Event>::empty()));
    }
}

pub proof fn lemma_moved_join<V: Visitor>(
    context: Context,
    first: Seq<Move>,
    second: Seq<Move>,
    state: V::State,
)
    ensures
        ({
            let before = moved::<V>(context, first, state);
            let all = moved::<V>(context, first + second, state);
            match before.result {
                Ok(next) => left_of(all, before.trace, moved::<V>(context, second, next)),
                Err(e) => all.result == Err::<V::State, Error>(e) && all.trace == before.trace,
            }
        }),
    decreases first.len(),
{
    if first.len() == 0 {
        assert(first + second =~= second);
        assert(Seq::<Event>::empty() + moved::<V>(context, second, state).trace =~= moved::<V>(
            context,
            second,
            state,
        ).trace);
    } else {
        let tail = first.drop_first();
        assert((first + second).drop_first() =~= tail + second);
        match first[0] {
            Move::Steps(trace) => {
                lemma_moved_join::<V>(context, tail, second, state);
                let before = moved::<V>(context, tail, state);
                if let Ok(next) = before.result {
                    let after = moved::<V>(context, second, next);
                    assert(trace + (before.trace + after.trace) =~= trace + before.trace
                        + after.trace);
                }
            },
            Move::Give { value, start, end } => {
                let step = V::step(context, state, value, start, end);
                if let Ok(next) = step.result {
                    lemma_moved_join::<V>(context, tail, second, next);
                    let before = moved::<V>(context, tail, next);
                    if let Ok(last) = before.result {
                        let after = moved::<V>(context, second, last);
                        assert(step.trace + (before.trace + after.trace) =~= step.trace
                            + before.trace + after.trace);
                    }
                }
            },
        }
    }
}

pub proof fn lemma_joined<V: Visitor>(context: Context, first: Walk, second: Walk, state: V::State)
    ensures
        ({
            let before = walked::<V>(context, first, state);
            let all = walked::<V>(context, joined(first, second), state);
            match before.result {
                Ok(next) => left_of(all, before.trace, walked::<V>(context, second, next)),
                Err(e) => all.result == Err::<V::State, Error>(e) && all.trace == before.trace,
            }
        }),
{
    lemma_moved_join::<V>(context, first.moves, second.moves, state);
    let before = moved::<V>(context, first.moves, state);
    if let Ok(next) = before.result {
        let after = moved::<V>(context, second.moves, next);
        assert(before.trace + after.trace + Seq::<Event>::empty() =~= before.trace
            + Seq::<Event>::empty() + (after.trace + Seq::<Event>::empty()));
        assert(before.trace + after.trace =~= before.trace + Seq::<Event>::empty() + after.trace);
    }
}

pub proof fn lemma_single<V: Visitor>(
    context: Context,
    value: Option<int>,
    start: int,
    end: int,
    state: V::State,
)
    ensures
        walked::<V>(context, giving(value, start, end, arrived()), state) == V::step(
            context,
            state,
            value,
            start,
            end,
        ),
{
    let step = V::step(context, state, value, start, end);
    lemma_giving::<V>(context, value, start, end, arrived(), state);
    assert(step.trace + (Seq::<Event>::empty() + Seq::<Event>::empty()) =~= step.trace);
}

pub proof fn lemma_stopped<V: Visitor>(context: Context, e: Error, state: V::State)
    ensures
        walked::<V>(context, stopped(e), state) == failed::<V::State>(e),
{
    assert(Seq::<Event>::empty() + Seq::<Event>::empty() =~= Seq::<Event>::empty());
}

/// Taking the steps of a reading.
pub proof fn lemma_read_on<V: Visitor>(
    session: ReadSession<'_>,
    before: ReadSession<'_>,
    first: ReadSession<'_>,
    all: Outcome<V::State>,
    done: Seq<Event>,
    trace: Seq<Event>,
    rest: Walk,
    state: V::State,
)
    requires
        before.follows(first, done),
        session.follows(before, trace),
        left_of(all, done, walked::<V>(first.context(), after_steps(trace, rest), state)),
    ensures
        session.follows(first, done + trace),
        left_of(all, done + trace, walked::<V>(first.context(), rest, state)),
{
    let next = walked::<V>(first.context(), rest, state);
    session.lemma_join(before, first, done, trace);
    lemma_after_steps::<V>(first.context(), trace, rest, state);
    assert(done + (trace + next.trace) =~= done + trace + next.trace);
}

/// Handing a value to a visitor.
pub proof fn lemma_give_on<V: Visitor>(
    session: ReadSession<'_>,
    before: ReadSession<'_>,
    first: ReadSession<'_>,
    all: Outcome<V::State>,
    done: Seq<Event>,
    value: Option<int>,
    start: int,
    end: int,
    rest: Walk,
    state: V::State,
)
    requires
        before.follows(first, done),
        session.follows(before, V::step(first.context(), state, value, start, end).trace),
        left_of(all, done, walked::<V>(first.context(), giving(value, start, end, rest), state)),
    ensures
        ({
            let step = V::step(first.context(), state, value, start, end);
            &&& session.follows(first, done + step.trace)
            &&& match step.result {
                Ok(next) => left_of(
                    all,
                    done + step.trace,
                    walked::<V>(first.context(), rest, next),
                ),
                Err(e) => all == (Outcome {
                    result: Err::<V::State, Error>(e),
                    trace: done + step.trace,
                }),
            }
        }),
{
    let step = V::step(first.context(), state, value, start, end);
    session.lemma_join(before, first, done, step.trace);
    lemma_giving::<V>(first.context(), value, start, end, rest, state);
    if let Ok(next) = step.result {
        let next = walked::<V>(first.context(), rest, next);
        assert(done + (step.trace + next.trace) =~= done + step.trace + next.trace);
    }
}

/// Taking a whole walk.
pub proof fn lemma_join_on<V: Visitor>(
    session: ReadSession<'_>,
    before: ReadSession<'_>,
    first: ReadSession<'_>,
    all: Outcome<V::State>,
    done: Seq<Event>,
    part: Walk,
    rest: Walk,
    state: V::State,
)
    requires
        before.follows(first, done),
        session.follows(before, walked::<V>(first.context(), part, state).trace),
        left_of(all, done, walked::<V>(first.context(), joined(part, rest), state)),
    ensures
        ({
            let taken = walked::<V>(first.context(), part, state);
            &&& session.follows(first, done + taken.trace)
            &&& match taken.result {
                Ok(next) => left_of(
                    all,
                    done + taken.trace,
                    walked::<V>(first.context(), rest, next),
                ),
                Err(e) => all == (Outcome {
                    result: Err::<V::State, Error>(e),
                    trace: done + taken.trace,
                }),
            }
        }),
{
    let taken = walked::<V>(first.context(), part, state);
    session.lemma_join(before, first, done, taken.trace);
    lemma_joined::<V>(first.context(), part, rest, state);
    if let Ok(next) = taken.result {
        let next = walked::<V>(first.context(), rest, next);
        assert(done + (taken.trace + next.trace) =~= done + taken.trace + next.trace);
    }
}

/// The end of a walk.
pub proof fn lemma_arrive<V: Visitor>(
    context: Context,
    all: Outcome<V::State>,
    done: Seq<Event>,
    state: V::State,
)
    requires
        left_of(all, done, walked::<V>(context, arrived(), state)),
    ensures
        all == (Outcome { result: Ok(state), trace: done }),
{
    assert(done + (Seq::<Event>::empty() + Seq::<Event>::empty()) =~= done);
}

/// The early end of a walk.
pub proof fn lemma_stop<V: Visitor>(
    context: Context,
    all: Outcome<V::State>,
    done: Seq<Event>,
    e: Error,
    state: V::State,
)
    requires
        left_of(all, done, walked::<V>(context, stopped(e), state)),
    ensures
        all == (Outcome { result: Err::<V::State, Error>(e), trace: done }),
{
    lemma_stopped::<V>(context, e, state);
    assert(done + Seq::<Event>::empty() =~= done);
}

/// The start of a walk.
pub proof fn lemma_set_out<V: Visitor>(session: ReadSession<'_>, walk: Walk, state: V::State)
    requires
        session.wf(),
    ensures
        session.follows(session, Seq::empty()),
        left_of(
            walked::<V>(session.context(), walk, state),
            Seq::empty(),
            walked::<V>(session.context(), walk, state),
        ),
{
    let all = walked::<V>(session.context(), walk, state);
    session.lemma_still();
    assert(Seq::<Event>::empty() + all.trace =~= all.trace);
}

// ----- walks made of walks -----

/// What becomes of a value that a walk gives, and what is remembered for the next.
pub struct Turn<A> {
    pub walk: Walk,
    pub memory: A,
}

/// A walk whose values are turned into other walks one by one.
pub open spec fn turned<A>(
    walk: Walk,
    turn: spec_fn(A, Option<int>, int, int) -> Turn<A>,
    memory: A,
) -> Walk
    decreases walk.moves.len(),
{
    if walk.moves.len() == 0 {
        walk
    } else {
        let tail = Walk { moves: walk.moves.drop_first(), fault: walk.fault };
        match walk.moves[0] {
            Move::Steps(trace) => after_steps(trace, turned(tail, turn, memory)),
            Move::Give { value, start, end } => {
                let one = turn(memory, value, start, end);
                joined(one.walk, turned(tail, turn, one.memory))
            },
        }
    }
}

/// A visitor that turns each value and hands it on to another.
pub open spec fn turns<V: Visitor, W: Visitor, A>(
    context: Context,
    turn: spec_fn(A, Option<int>, int, int) -> Turn<A>,
    pair: spec_fn(A, V::State) -> W::State,
) -> bool {
    forall|memory: A, state: V::State, value: Option<int>, start: int, end: int|
        ({
            let one = turn(memory, value, start, end);
            #[trigger] W::step(context, pair(memory, state), value, start, end) == chain(
                walked::<V>(context, one.walk, state),
                |next: V::State| given(pair(one.memory, next)),
            )
        })
}

/// Some pair has the state that the inner visitor is left with.
pub open spec fn paired<V: Visitor, W: Visitor, A>(
    outer: Outcome<W::State>,
    inner: Outcome<V::State>,
    pair: spec_fn(A, V::State) -> W::State,
) -> bool {
    &&& outer.trace == inner.trace
    &&& match inner.result {
        Ok(state) => exists|memory: A|
            outer.result == Ok::<W::State, Error>(#[trigger] pair(memory, state)),
        Err(e) => outer.result == Err::<W::State, Error>(e),
    }
}

/// A visitor that turns values takes a walk as the inner one takes the turned
/// walk.
pub proof fn lemma_turned<V: Visitor, W: Visitor, A>(
    context: Context,
    walk: Walk,
    turn: spec_fn(A, Option<int>, int, int) -> Turn<A>,
    pair: spec_fn(A, V::State) -> W::State,
    memory: A,
    state: V::State,
)
    requires
        turns::<V, W, A>(context, turn, pair),
    ensures
        paired::<V, W, A>(
            walked::<W>(context, walk, pair(memory, state)),
            walked::<V>(context, turned(walk, turn, memory), state),
            pair,
        ),
    decreases walk.moves.len(),
{
    if walk.moves.len() == 0 {
    } else {
        let tail = Walk { moves: walk.moves.drop_first(), fault: walk.fault };
        match walk.moves[0] {
            Move::Steps(trace) => {
                lemma_turned::<V, W, A>(context, tail, turn, pair, memory, state);
                assert(after_steps(trace, tail) =~= walk) by {
                    assert(after_steps(trace, tail).moves =~= walk.moves);
                }
                lemma_after_steps::<W>(context, trace, tail, pair(memory, state));
                lemma_after_steps::<V>(context, trace, turned(tail, turn, memory), state);
            },
            Move::Give { value, start, end } => {
                let one = turn(memory, value, start, end);
                assert(giving(value, start, end, tail) =~= walk) by {
                    assert(giving(value, start, end, tail).moves =~= walk.moves);
                }
                lemma_giving::<W>(context, value, start, end, tail, pair(memory, state));
                lemma_joined::<V>(context, one.walk, turned(tail, turn, one.memory), state);
                let before = walked::<V>(context, one.walk, state);
                let step = W::step(context, pair(memory, state), value, start, end);
                if let Ok(next) = before.result {
                    lemma_turned::<V, W, A>(context, tail, turn, pair, one.memory, next);
                    assert(before.trace + Seq::<Event>::empty() =~= before.trace);
                }
            },
        }
    }
}

} // verus!
