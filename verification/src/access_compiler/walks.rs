//! A walk over rows gives every row its value, once and in order.
#[allow(unused_imports)]
use super::decoder::DecoderNode;
#[allow(unused_imports)]
use super::error::Error;
#[allow(unused_imports)]
use super::ids::FieldId;
#[allow(unused_imports)]
use super::interpreter::get_outcome;
#[allow(unused_imports)]
use super::layout::{lemma_floor, lemma_quotient};
#[allow(unused_imports)]
use super::runtime::{i64_outcome, u32_outcome, Context, Event};
#[allow(unused_imports)]
use super::static_baseline::{
    bits_walk, code_step, codes_outcome, collect_outcome, delta_walk, dictionary_turn, entry_of,
    extent_outcome, for_number, for_turn, null_walk, patch_turn, rle_walk, running_outcome,
    shift_turn, static_bits, StaticBitPack, StaticDecoder, StaticDelta, StaticDictionary, StaticFor,
    StaticNullable, StaticPatch, StaticRle,
};
#[allow(unused_imports)]
use super::support::{
    find_outcome, locate_outcome, lower_bound_outcome, prefix_rank_outcome, rank_outcome,
    valid_outcome,
};
#[allow(unused_imports)]
use super::visitor::{after_steps, arrived, giving, joined, turned, Move, Turn, Walk};
use vstd::prelude::*;

verus! {

// ----- tiles -----

/// The rows `from..to` have one value.
pub open spec fn even(values: Seq<Option<int>>, from: int, to: int, value: Option<int>) -> bool {
    forall|row: int| from <= row < to ==> #[trigger] values[row] == value
}

/// The moves give the rows `start..end` their values, once and in order.
pub open spec fn tiles(moves: Seq<Move>, values: Seq<Option<int>>, start: int, end: int) -> bool
    decreases moves.len(),
{
    if moves.len() == 0 {
        start == end
    } else {
        match moves[0] {
            Move::Steps(_) => tiles(moves.drop_first(), values, start, end),
            Move::Give { value, start: from, end: to } => {
                &&& from == start
                &&& from < to <= end
                &&& even(values, from, to, value)
                &&& tiles(moves.drop_first(), values, to, end)
            },
        }
    }
}

/// The walk comes to its end and gives the rows `start..end` their values.
pub open spec fn covers(walk: Walk, values: Seq<Option<int>>, start: int, end: int) -> bool {
    walk.fault is None && tiles(walk.moves, values, start, end)
}

proof fn lemma_tiles_forward(moves: Seq<Move>, values: Seq<Option<int>>, start: int, end: int)
    requires
        tiles(moves, values, start, end),
    ensures
        start <= end,
    decreases moves.len(),
{
    if moves.len() > 0 {
        match moves[0] {
            Move::Steps(_) => {
                lemma_tiles_forward(moves.drop_first(), values, start, end);
            },
            Move::Give { .. } => {},
        }
    }
}

proof fn lemma_steps_cover(
    trace: Seq<Event>,
    rest: Walk,
    values: Seq<Option<int>>,
    start: int,
    end: int,
)
    requires
        covers(rest, values, start, end),
    ensures
        covers(after_steps(trace, rest), values, start, end),
{
    assert(after_steps(trace, rest).moves.drop_first() =~= rest.moves);
}

proof fn lemma_giving_covers(
    value: Option<int>,
    from: int,
    to: int,
    rest: Walk,
    values: Seq<Option<int>>,
    end: int,
)
    requires
        from < to <= end,
        even(values, from, to, value),
        covers(rest, values, to, end),
    ensures
        covers(giving(value, from, to, rest), values, from, end),
{
    assert(giving(value, from, to, rest).moves.drop_first() =~= rest.moves);
}

proof fn lemma_tiles_join(
    first: Seq<Move>,
    second: Seq<Move>,
    values: Seq<Option<int>>,
    start: int,
    middle: int,
    end: int,
)
    requires
        tiles(first, values, start, middle),
        tiles(second, values, middle, end),
    ensures
        tiles(first + second, values, start, end),
    decreases first.len(),
{
    lemma_tiles_forward(second, values, middle, end);
    if first.len() == 0 {
        assert(first + second =~= second);
    } else {
        assert((first + second).drop_first() =~= first.drop_first() + second);
        match first[0] {
            Move::Steps(_) => {
                lemma_tiles_join(first.drop_first(), second, values, start, middle, end);
            },
            Move::Give { end: to, .. } => {
                lemma_tiles_join(first.drop_first(), second, values, to, middle, end);
            },
        }
    }
}

proof fn lemma_joined_covers(
    first: Walk,
    second: Walk,
    values: Seq<Option<int>>,
    start: int,
    middle: int,
    end: int,
)
    requires
        covers(first, values, start, middle),
        covers(second, values, middle, end),
    ensures
        covers(joined(first, second), values, start, end),
{
    lemma_tiles_join(first.moves, second.moves, values, start, middle, end);
}

/// Each value that covers rows of one list is turned into a walk that covers the
/// rows of another, `shift` rows further on.
pub open spec fn turns_cover<A>(
    turn: spec_fn(A, Option<int>, int, int) -> Turn<A>,
    holds: spec_fn(A, int) -> bool,
    inner: Seq<Option<int>>,
    outer: Seq<Option<int>>,
    shift: int,
    start: int,
    end: int,
) -> bool {
    forall|memory: A, value: Option<int>, from: int, to: int|
        holds(memory, from) && start <= from && from < to && to <= end && even(
            inner,
            from,
            to,
            value,
        ) ==> {
            let one = #[trigger] turn(memory, value, from, to);
            covers(one.walk, outer, from + shift, to + shift) && holds(one.memory, to)
        }
}

proof fn lemma_turned_covers<A>(
    walk: Walk,
    turn: spec_fn(A, Option<int>, int, int) -> Turn<A>,
    holds: spec_fn(A, int) -> bool,
    memory: A,
    inner: Seq<Option<int>>,
    outer: Seq<Option<int>>,
    shift: int,
    first: int,
    start: int,
    end: int,
)
    requires
        turns_cover(turn, holds, inner, outer, shift, first, end),
        first <= start,
        holds(memory, start),
        covers(walk, inner, start, end),
    ensures
        covers(turned(walk, turn, memory), outer, start + shift, end + shift),
    decreases walk.moves.len(),
{
    if walk.moves.len() > 0 {
        let tail = Walk { moves: walk.moves.drop_first(), fault: walk.fault };
        match walk.moves[0] {
            Move::Steps(trace) => {
                lemma_turned_covers(
                    tail,
                    turn,
                    holds,
                    memory,
                    inner,
                    outer,
                    shift,
                    first,
                    start,
                    end,
                );
                lemma_steps_cover(
                    trace,
                    turned(tail, turn, memory),
                    outer,
                    start + shift,
                    end + shift,
                );
            },
            Move::Give { value, start: from, end: to } => {
                let one = turn(memory, value, from, to);
                lemma_turned_covers(
                    tail,
                    turn,
                    holds,
                    one.memory,
                    inner,
                    outer,
                    shift,
                    first,
                    to,
                    end,
                );
                lemma_joined_covers(
                    one.walk,
                    turned(tail, turn, one.memory),
                    outer,
                    from + shift,
                    to + shift,
                    end + shift,
                );
            },
        }
    }
}

// ----- decoders in order -----

/// Every row can be decoded.
pub open spec fn readable<D: StaticDecoder>(context: Context, rows: int) -> bool {
    forall|row: int| 0 <= row < rows ==> (#[trigger] D::value(context, row)).result is Ok
}

/// What the rows decode to.
pub open spec fn decoded<D: StaticDecoder>(context: Context, rows: int) -> Seq<Option<int>> {
    Seq::new(rows as nat, |row: int| D::value(context, row).result->Ok_0)
}

/// A decoder whose walks give the rows their values.
pub trait Ordered: StaticDecoder {
    /// So many rows can be decoded, and what the walks read fits to them.
    spec fn orderly(context: Context, rows: int) -> bool;

    proof fn covered(context: Context, rows: int, start: int, end: int)
        requires
            Self::sound(),
            Self::orderly(context, rows),
            0 <= start <= end <= rows,
            0 < rows,
        ensures
            readable::<Self>(context, rows),
            covers(Self::walk(context, start, end), decoded::<Self>(context, rows), start, end),
    ;
}

// ----- packed numbers -----

proof fn lemma_bits_cover(
    context: Context,
    field: usize,
    width: u8,
    block_rows: usize,
    block_bytes: usize,
    values: Seq<Option<int>>,
    start: int,
    end: int,
)
    requires
        0 <= start <= end <= values.len(),
        forall|row: int|
            0 <= row < values.len() ==> (#[trigger] static_bits(
                context,
                field,
                width,
                block_rows,
                block_bytes,
                row,
            )).result == Ok::<Option<int>, Error>(values[row]),
    ensures
        covers(
            bits_walk(context, field, width, block_rows, block_bytes, start, end),
            values,
            start,
            end,
        ),
    decreases end - start,
{
    if start < end {
        lemma_bits_cover(context, field, width, block_rows, block_bytes, values, start + 1, end);
        let rest = bits_walk(context, field, width, block_rows, block_bytes, start + 1, end);
        let read = static_bits(context, field, width, block_rows, block_bytes, start);
        lemma_giving_covers(values[start], start, start + 1, rest, values, end);
        lemma_steps_cover(
            read.trace,
            giving(values[start], start, start + 1, rest),
            values,
            start,
            end,
        );
    }
}

impl<
    const FIELD: usize,
    const WIDTH: u8,
    const MINIBLOCK_ROWS: usize,
    const MINIBLOCK_BYTES: usize,
> Ordered for StaticBitPack<FIELD, WIDTH, MINIBLOCK_ROWS, MINIBLOCK_BYTES> {
    open spec fn orderly(context: Context, rows: int) -> bool {
        readable::<Self>(context, rows)
    }

    proof fn covered(context: Context, rows: int, start: int, end: int) {
        let values = decoded::<Self>(context, rows);
        assert forall|row: int| 0 <= row < values.len() implies (#[trigger] static_bits(
            context,
            FIELD,
            WIDTH,
            MINIBLOCK_ROWS,
            MINIBLOCK_BYTES,
            row,
        )).result == Ok::<Option<int>, Error>(values[row]) by {
            assert(Self::value(context, row).result is Ok);
        }
        lemma_bits_cover(
            context,
            FIELD,
            WIDTH,
            MINIBLOCK_ROWS,
            MINIBLOCK_BYTES,
            values,
            start,
            end,
        );
    }
}

// ----- offsets -----

impl<const BASE: usize, Child: Ordered> Ordered for StaticFor<BASE, Child> {
    open spec fn orderly(context: Context, rows: int) -> bool {
        &&& Child::orderly(context, rows)
        &&& readable::<Self>(context, rows)
    }

    proof fn covered(context: Context, rows: int, start: int, end: int) {
        let inner = decoded::<Child>(context, rows);
        let outer = decoded::<Self>(context, rows);
        let read = i64_outcome(context, FieldId(BASE), 0);
        assert(Self::value(context, 0).result is Ok);
        let base = read.result->Ok_0 as int;
        let turn = |base: int, value: Option<int>, from: int, to: int|
            for_turn(base, value, from, to);
        let holds = |memory: int, row: int| memory == base;
        Child::covered(context, rows, start, end);
        assert forall|memory: int, value: Option<int>, from: int, to: int|
            holds(memory, from) && start <= from && from < to && to <= end && even(
                inner,
                from,
                to,
                value,
            ) implies ({
            let one = #[trigger] turn(memory, value, from, to);
            covers(one.walk, outer, from + 0, to + 0) && holds(one.memory, to)
        }) by {
            assert(inner[from] == value);
            assert(Self::value(context, from).result is Ok);
            let number = for_number(base, value, Error::StaticForSpanOverflow)->Ok_0;
            assert forall|row: int| from <= row < to implies #[trigger] outer[row] == number by {
                assert(inner[row] == value);
                assert(Child::value(context, row).result is Ok);
                assert(Self::value(context, row).result is Ok);
            }
            lemma_giving_covers(number, from, to, arrived(), outer, to);
        }
        let walk = Child::walk(context, start, end);
        lemma_turned_covers(walk, turn, holds, base, inner, outer, 0, start, start, end);
        lemma_steps_cover(read.trace, turned(walk, turn, base), outer, start, end);
    }
}

// ----- dictionaries -----

/// The entries of a dictionary are in order, and no two are the same.
pub open spec fn entries_in_order(context: Context, dictionary: FieldId, entries: int) -> bool {
    &&& forall|k: int|
        0 <= k < entries ==> (#[trigger] i64_outcome(context, dictionary, k)).result is Ok
    &&& forall|j: int, k: int|
        0 <= j < k < entries ==> (#[trigger] i64_outcome(context, dictionary, j)).result->Ok_0 < (
        #[trigger] i64_outcome(context, dictionary, k)).result->Ok_0
}

impl<const FIELD: usize, const ENTRIES: usize, Child: Ordered> Ordered for StaticDictionary<
    FIELD,
    ENTRIES,
    Child,
> {
    open spec fn orderly(context: Context, rows: int) -> bool {
        &&& entries_in_order(context, FieldId(FIELD), ENTRIES as int)
        &&& Child::orderly(context, rows)
        &&& readable::<Self>(context, rows)
    }

    proof fn covered(context: Context, rows: int, start: int, end: int) {
        let inner = decoded::<Child>(context, rows);
        let outer = decoded::<Self>(context, rows);
        let turn = |memory: (), id: Option<int>, from: int, to: int|
            dictionary_turn(context, FIELD, ENTRIES as int, id, from, to);
        let holds = |memory: (), row: int| true;
        Child::covered(context, rows, start, end);
        assert forall|memory: (), value: Option<int>, from: int, to: int|
            holds(memory, from) && start <= from && from < to && to <= end && even(
                inner,
                from,
                to,
                value,
            ) implies ({
            let one = #[trigger] turn(memory, value, from, to);
            covers(one.walk, outer, from + 0, to + 0) && holds(one.memory, to)
        }) by {
            assert(inner[from] == value);
            assert(Child::value(context, from).result is Ok);
            assert(Self::value(context, from).result is Ok);
            let entry = entry_of(ENTRIES as int, value)->Ok_0;
            let read = i64_outcome(context, FieldId(FIELD), entry);
            let number = Some(read.result->Ok_0 as int);
            assert forall|row: int| from <= row < to implies #[trigger] outer[row] == number by {
                assert(inner[row] == value);
                assert(Child::value(context, row).result is Ok);
                assert(Self::value(context, row).result is Ok);
            }
            lemma_giving_covers(number, from, to, arrived(), outer, to);
            lemma_steps_cover(read.trace, giving(number, from, to, arrived()), outer, from, to);
        }
        let walk = Child::walk(context, start, end);
        lemma_turned_covers(walk, turn, holds, (), inner, outer, 0, start, start, end);
    }
}

// ----- differences -----

/// The codes up to a row before the last are read and add up on the way.
proof fn lemma_codes_prefix<C: StaticDecoder>(
    context: Context,
    unsigned: bool,
    from: int,
    row: int,
    value: int,
)
    requires
        from <= row,
        codes_outcome::<C>(context, unsigned, from, row, value).result is Ok,
    ensures
        codes_outcome::<C>(context, unsigned, from, row - 1, value).result is Ok,
        C::value(context, row).result is Ok,
        code_step(
            codes_outcome::<C>(context, unsigned, from, row - 1, value).result->Ok_0,
            C::value(context, row).result->Ok_0,
            unsigned,
            Error::StaticDeltaOverflow,
        ) == Ok::<int, Error>(
            codes_outcome::<C>(context, unsigned, from, row, value).result->Ok_0,
        ),
    decreases row - from,
{
    reveal_with_fuel(codes_outcome, 2);
    let code = C::value(context, from).result->Ok_0;
    let next = code_step(value, code, unsigned, Error::StaticDeltaOverflow)->Ok_0;
    if from < row {
        lemma_codes_prefix::<C>(context, unsigned, from + 1, row, next);
    }
}

proof fn lemma_delta_cover<
    const RESTARTS: usize,
    const RESTART_INTERVAL: usize,
    const UNSIGNED: bool,
    Child: StaticDecoder,
>(context: Context, rows: int, start: int, end: int, row: int, value: int)
    requires
        RESTART_INTERVAL > 0,
        readable::<StaticDelta<RESTARTS, RESTART_INTERVAL, UNSIGNED, Child>>(context, rows),
        0 <= row,
        start <= end <= rows,
        row % RESTART_INTERVAL as int != 0 ==> 0 < row && StaticDelta::<
            RESTARTS,
            RESTART_INTERVAL,
            UNSIGNED,
            Child,
        >::value(context, row - 1).result == Ok::<Option<int>, Error>(Some(value)),
    ensures
        covers(
            delta_walk::<Child>(
                context,
                RESTARTS,
                RESTART_INTERVAL as int,
                UNSIGNED,
                start,
                end,
                row,
                value,
            ),
            decoded::<StaticDelta<RESTARTS, RESTART_INTERVAL, UNSIGNED, Child>>(context, rows),
            if row < start {
                start
            } else if row < end {
                row
            } else {
                end
            },
            end,
        ),
    decreases end - row,
{
    let interval = RESTART_INTERVAL as int;
    let values = decoded::<StaticDelta<RESTARTS, RESTART_INTERVAL, UNSIGNED, Child>>(
        context,
        rows,
    );
    if row < end {
        let whole = StaticDelta::<RESTARTS, RESTART_INTERVAL, UNSIGNED, Child>::value(context, row);
        assert(whole.result is Ok);
        let block = row / interval;
        let anchor = i64_outcome(context, FieldId(RESTARTS), block).result->Ok_0 as int;
        let first = block * interval + 1;
        lemma_floor(row, interval);
        let running = running_outcome::<Child>(
            context,
            RESTARTS,
            interval,
            UNSIGNED,
            row,
            value,
        );
        let at = codes_outcome::<Child>(context, UNSIGNED, first, row, anchor).result->Ok_0;
        vstd::arithmetic::div_mod::lemma_fundamental_div_mod(row, interval);
        assert(interval * block == block * interval) by (nonlinear_arith);
        if row % interval == 0 {
            assert(first == row + 1);
        } else {
            lemma_codes_prefix::<Child>(context, UNSIGNED, first, row, anchor);
            assert((row - 1) / interval == block) by {
                lemma_quotient(row - 1, block, interval);
            }
            assert(value == codes_outcome::<Child>(context, UNSIGNED, first, row - 1, anchor)
                .result->Ok_0);
        }
        assert(running.result == Ok::<int, Error>(at));
        assert(values[row] == Some(at));
        lemma_delta_cover::<RESTARTS, RESTART_INTERVAL, UNSIGNED, Child>(
            context,
            rows,
            start,
            end,
            row + 1,
            at,
        );
        let rest = delta_walk::<Child>(
            context,
            RESTARTS,
            interval,
            UNSIGNED,
            start,
            end,
            row + 1,
            at,
        );
        if row >= start {
            lemma_giving_covers(Some(at), row, row + 1, rest, values, end);
            lemma_steps_cover(
                running.trace,
                giving(Some(at), row, row + 1, rest),
                values,
                row,
                end,
            );
        } else {
            lemma_steps_cover(running.trace, rest, values, start, end);
        }
    }
}

impl<
    const RESTARTS: usize,
    const RESTART_INTERVAL: usize,
    const UNSIGNED: bool,
    Child: StaticDecoder,
> Ordered for StaticDelta<RESTARTS, RESTART_INTERVAL, UNSIGNED, Child> {
    open spec fn orderly(context: Context, rows: int) -> bool {
        readable::<Self>(context, rows)
    }

    proof fn covered(context: Context, rows: int, start: int, end: int) {
        let interval = RESTART_INTERVAL as int;
        let row = start / interval * interval;
        lemma_floor(start, interval);
        assert(row % interval == 0) by {
            vstd::arithmetic::div_mod::lemma_mod_multiples_basic(start / interval, interval);
        }
        lemma_delta_cover::<RESTARTS, RESTART_INTERVAL, UNSIGNED, Child>(
            context,
            rows,
            start,
            end,
            row,
            0,
        );
    }
}

// ----- runs -----

/// The run that holds a row.
pub open spec fn run_at(
    context: Context,
    index: FieldId,
    lengths: FieldId,
    runs: int,
    interval: int,
    row: int,
) -> Result<(int, int, int), Error> {
    locate_outcome(context, index, lengths, runs, interval, row).result
}

/// The runs lie one after the other: each row is found in the run that holds it, the
/// run is as long as its length says, and the next begins where it ends.
pub open spec fn runs_in_order(
    context: Context,
    index: FieldId,
    lengths: FieldId,
    runs: int,
    interval: int,
    rows: int,
) -> bool {
    &&& rows <= usize::MAX
    &&& forall|row: int|
        0 <= row < rows ==> (#[trigger] run_at(context, index, lengths, runs, interval, row) matches Ok(
            place,
        ) && {
            &&& 0 <= place.0 < runs
            &&& place.1 <= row < place.2 <= rows
            &&& u32_outcome(context, lengths, place.0).result matches Ok(length)
                && place.1 + length == place.2
            &&& 0 <= place.1
        })
    &&& forall|row: int, other: int|
        #![trigger
            run_at(context, index, lengths, runs, interval, row),
            run_at(context, index, lengths, runs, interval, other)]
        0 <= row < rows && 0 <= other < rows ==> {
            let here = run_at(context, index, lengths, runs, interval, row)->Ok_0;
            let there = run_at(context, index, lengths, runs, interval, other)->Ok_0;
            &&& here.1 <= other < here.2 ==> there == here
            &&& here.2 == other ==> there.0 == here.0 + 1 && there.1 == other
        }
}

proof fn lemma_rle_cover<
    const LENGTHS: usize,
    const INDEX: usize,
    const RUNS: usize,
    const INDEX_INTERVAL: usize,
    Child: StaticDecoder,
>(context: Context, rows: int, start: int, end: int, cursor: int)
    requires
        readable::<StaticRle<LENGTHS, INDEX, RUNS, INDEX_INTERVAL, Child>>(context, rows),
        runs_in_order(
            context,
            FieldId(INDEX),
            FieldId(LENGTHS),
            RUNS as int,
            INDEX_INTERVAL as int,
            rows,
        ),
        0 <= start <= cursor < end <= rows,
        ({
            let place = run_at(
                context,
                FieldId(INDEX),
                FieldId(LENGTHS),
                RUNS as int,
                INDEX_INTERVAL as int,
                cursor,
            )->Ok_0;
            cursor == start || cursor == place.1
        }),
    ensures
        ({
            let place = run_at(
                context,
                FieldId(INDEX),
                FieldId(LENGTHS),
                RUNS as int,
                INDEX_INTERVAL as int,
                cursor,
            )->Ok_0;
            covers(
                rle_walk::<Child>(context, LENGTHS, RUNS as int, start, end, place.0, place.1),
                decoded::<StaticRle<LENGTHS, INDEX, RUNS, INDEX_INTERVAL, Child>>(context, rows),
                cursor,
                end,
            )
        }),
    decreases end - cursor,
{
    let runs = RUNS as int;
    let interval = INDEX_INTERVAL as int;
    let index = FieldId(INDEX);
    let lengths = FieldId(LENGTHS);
    let values = decoded::<StaticRle<LENGTHS, INDEX, RUNS, INDEX_INTERVAL, Child>>(context, rows);
    let place = run_at(context, index, lengths, runs, interval, cursor)->Ok_0;
    let (run, run_start, run_end) = place;
    let read = u32_outcome(context, lengths, run);
    let to = if end < run_end {
        end
    } else {
        run_end
    };
    let inner = Child::value(context, run);
    assert(StaticRle::<LENGTHS, INDEX, RUNS, INDEX_INTERVAL, Child>::value(context, cursor)
        .result is Ok);
    let value = inner.result->Ok_0;
    assert forall|row: int| cursor <= row < to implies #[trigger] values[row] == value by {
        assert(run_at(context, index, lengths, runs, interval, row)->Ok_0 == place);
        assert(StaticRle::<LENGTHS, INDEX, RUNS, INDEX_INTERVAL, Child>::value(context, row)
            .result is Ok);
    }
    let rest = rle_walk::<Child>(context, LENGTHS, runs, start, end, run + 1, run_end);
    if to < end {
        let next = run_at(context, index, lengths, runs, interval, run_end)->Ok_0;
        assert(next.0 == run + 1 && next.1 == run_end);
        lemma_rle_cover::<LENGTHS, INDEX, RUNS, INDEX_INTERVAL, Child>(
            context,
            rows,
            start,
            end,
            run_end,
        );
    } else {
        assert(rest == arrived());
    }
    lemma_giving_covers(value, cursor, to, rest, values, end);
    lemma_steps_cover(
        inner.trace,
        giving(value, cursor, to, rest),
        values,
        cursor,
        end,
    );
    let taken = after_steps(inner.trace, giving(value, cursor, to, rest));
    lemma_steps_cover(read.trace, taken, values, cursor, end);
    assert(rle_walk::<Child>(context, LENGTHS, runs, start, end, run, run_start) == after_steps(
        read.trace,
        taken,
    ));
}

impl<
    const LENGTHS: usize,
    const INDEX: usize,
    const RUNS: usize,
    const INDEX_INTERVAL: usize,
    Child: StaticDecoder,
> Ordered for StaticRle<LENGTHS, INDEX, RUNS, INDEX_INTERVAL, Child> {
    open spec fn orderly(context: Context, rows: int) -> bool {
        &&& runs_in_order(
            context,
            FieldId(INDEX),
            FieldId(LENGTHS),
            RUNS as int,
            INDEX_INTERVAL as int,
            rows,
        )
        &&& readable::<Self>(context, rows)
    }

    proof fn covered(context: Context, rows: int, start: int, end: int) {
        let found = locate_outcome(
            context,
            FieldId(INDEX),
            FieldId(LENGTHS),
            RUNS as int,
            INDEX_INTERVAL as int,
            start,
        );
        if start < end {
            assert(run_at(
                context,
                FieldId(INDEX),
                FieldId(LENGTHS),
                RUNS as int,
                INDEX_INTERVAL as int,
                start,
            ) == found.result);
            lemma_rle_cover::<LENGTHS, INDEX, RUNS, INDEX_INTERVAL, Child>(
                context,
                rows,
                start,
                end,
                start,
            );
            let place = found.result->Ok_0;
            lemma_steps_cover(
                found.trace,
                rle_walk::<Child>(context, LENGTHS, RUNS as int, start, end, place.0, place.1),
                decoded::<Self>(context, rows),
                start,
                end,
            );
        }
    }
}

// ----- exceptions -----

/// The row of an exception.
pub open spec fn exception_row(context: Context, positions: FieldId, i: int) -> int {
    u32_outcome(context, positions, i).result->Ok_0 as int
}

/// An exception with its row.
pub open spec fn exception_at(
    context: Context,
    positions: FieldId,
    exceptions: FieldId,
    i: int,
) -> (int, int) {
    (
        exception_row(context, positions, i),
        i64_outcome(context, exceptions, i).result->Ok_0 as int,
    )
}

/// The exceptions are in the order of their rows, each row finds its own, and so
/// does a walk that sets out from a row.
pub open spec fn exceptions_in_order(
    context: Context,
    index: FieldId,
    positions: FieldId,
    exceptions: FieldId,
    count: int,
    interval: int,
    rows: int,
) -> bool {
    &&& forall|i: int|
        0 <= i < count ==> (#[trigger] u32_outcome(context, positions, i)).result is Ok
    &&& forall|i: int|
        0 <= i < count ==> (#[trigger] i64_outcome(context, exceptions, i)).result is Ok
    &&& forall|i: int, j: int|
        0 <= i < j < count ==> #[trigger] exception_row(context, positions, i)
            < #[trigger] exception_row(context, positions, j)
    &&& forall|row: int|
        0 <= row < rows ==> match (#[trigger] find_outcome(
            context,
            index,
            positions,
            count,
            interval,
            row,
        )).result {
            Ok(Some(k)) => 0 <= k < count && exception_row(context, positions, k) == row,
            Ok(None) => forall|i: int|
                0 <= i < count ==> #[trigger] exception_row(context, positions, i) != row,
            Err(_) => false,
        }
    &&& forall|row: int|
        0 <= row <= rows ==> ((#[trigger] lower_bound_outcome(
            context,
            index,
            positions,
            count,
            interval,
            row,
        )).result matches Ok(at) && {
            &&& 0 <= at <= count
            &&& forall|i: int|
                0 <= i < count ==> (#[trigger] exception_row(context, positions, i) < row) == (i
                    < at)
        })
}

/// The exceptions from `at` on whose rows come before `end`.
proof fn lemma_collected(
    context: Context,
    positions: usize,
    exceptions: usize,
    count: int,
    end: int,
    at: int,
    found: Seq<(int, int)>,
) -> (stop: int)
    requires
        0 <= at <= count,
        forall|i: int|
            0 <= i < count ==> (#[trigger] u32_outcome(context, FieldId(positions), i)).result is Ok,
        forall|i: int|
            0 <= i < count ==> (#[trigger] i64_outcome(context, FieldId(exceptions), i)).result is Ok,
        forall|i: int, j: int|
            0 <= i < j < count ==> #[trigger] exception_row(context, FieldId(positions), i)
                < #[trigger] exception_row(context, FieldId(positions), j),
    ensures
        at <= stop <= count,
        collect_outcome(context, positions, exceptions, count, end, at, found).result == Ok::<
            Seq<(int, int)>,
            Error,
        >(
            found + Seq::new(
                (stop - at) as nat,
                |k: int|
                    exception_at(context, FieldId(positions), FieldId(exceptions), at + k),
            ),
        ),
        forall|i: int|
            at <= i < count ==> (#[trigger] exception_row(context, FieldId(positions), i) < end) == (
            i < stop),
    decreases count - at,
{
    if at >= count {
        assert(found + Seq::new(
            0,
            |k: int| exception_at(context, FieldId(positions), FieldId(exceptions), at + k),
        ) =~= found);
        at
    } else {
        assert(u32_outcome(context, FieldId(positions), at).result is Ok);
        assert(i64_outcome(context, FieldId(exceptions), at).result is Ok);
        let row = exception_row(context, FieldId(positions), at);
        if row >= end {
            assert(found + Seq::new(
                0,
                |k: int| exception_at(context, FieldId(positions), FieldId(exceptions), at + k),
            ) =~= found);
            at
        } else {
            let one = exception_at(context, FieldId(positions), FieldId(exceptions), at);
            let stop = lemma_collected(
                context,
                positions,
                exceptions,
                count,
                end,
                at + 1,
                found.push(one),
            );
            assert(found.push(one) + Seq::new(
                (stop - (at + 1)) as nat,
                |k: int|
                    exception_at(context, FieldId(positions), FieldId(exceptions), at + 1 + k),
            ) =~= found + Seq::new(
                (stop - at) as nat,
                |k: int| exception_at(context, FieldId(positions), FieldId(exceptions), at + k),
            ));
            stop
        }
    }
}

/// The exceptions are in the order of their rows, and all of those from `at` on are
/// of rows from `row` on, the others of rows before.
pub open spec fn split_at(patches: Seq<(int, int)>, at: int, row: int) -> bool {
    &&& 0 <= at <= patches.len()
    &&& forall|i: int, j: int|
        0 <= i < j < patches.len() ==> (#[trigger] patches[i]).0 < (#[trigger] patches[j]).0
    &&& forall|i: int| 0 <= i < at ==> (#[trigger] patches[i]).0 < row
    &&& forall|i: int| at <= i < patches.len() ==> row <= (#[trigger] patches[i]).0
}

/// A row has its exception, or else its regular value.
pub open spec fn patched_by(
    patches: Seq<(int, int)>,
    regular: Seq<Option<int>>,
    values: Seq<Option<int>>,
    from: int,
    to: int,
) -> bool {
    &&& forall|i: int|
        0 <= i < patches.len() && from <= (#[trigger] patches[i]).0 < to ==> values[patches[i].0]
            == Some(patches[i].1)
    &&& forall|row: int|
        from <= row < to && (forall|i: int|
            0 <= i < patches.len() ==> (#[trigger] patches[i]).0 != row)
            ==> #[trigger] values[row] == regular[row]
}

proof fn lemma_patch_turn(
    patches: Seq<(int, int)>,
    at: int,
    regular: Seq<Option<int>>,
    values: Seq<Option<int>>,
    value: Option<int>,
    cursor: int,
    end: int,
)
    requires
        cursor <= end,
        split_at(patches, at, cursor),
        patched_by(patches, regular, values, cursor, end),
        even(regular, cursor, end, value),
    ensures
        covers(patch_turn(patches, at, value, cursor, end).walk, values, cursor, end),
        patch_turn(patches, at, value, cursor, end).memory.0 == patches,
        split_at(patches, patch_turn(patches, at, value, cursor, end).memory.1, end),
    decreases patches.len() - at,
{
    if at < patches.len() && patches[at].0 < end {
        let (row, exception) = patches[at];
        assert(split_at(patches, at + 1, row + 1));
        assert(patched_by(patches, regular, values, row + 1, end));
        lemma_patch_turn(patches, at + 1, regular, values, value, row + 1, end);
        let rest = patch_turn(patches, at + 1, value, row + 1, end);
        assert(values[patches[at].0] == Some(exception));
        lemma_giving_covers(Some(exception), row, row + 1, rest.walk, values, end);
        if cursor < row {
            assert forall|r: int| cursor <= r < row implies #[trigger] values[r] == value by {
                assert forall|i: int| 0 <= i < patches.len() implies (#[trigger] patches[i]).0
                    != r by {
                    if i > at {
                        assert(patches[at].0 < patches[i].0);
                    }
                }
                assert(values[r] == regular[r]);
            }
            lemma_giving_covers(
                value,
                cursor,
                row,
                giving(Some(exception), row, row + 1, rest.walk),
                values,
                end,
            );
        }
    } else {
        if at < patches.len() {
            assert(end <= patches[at].0);
            assert forall|i: int| at <= i < patches.len() implies end <= (
            #[trigger] patches[i]).0 by {
                if i > at {
                    assert(patches[at].0 < patches[i].0);
                }
            }
        }
        assert(split_at(patches, at, end)) by {
            assert forall|i: int| 0 <= i < at implies (#[trigger] patches[i]).0 < end by {}
        }
        if cursor < end {
            assert forall|r: int| cursor <= r < end implies #[trigger] values[r] == value by {
                assert forall|i: int| 0 <= i < patches.len() implies (#[trigger] patches[i]).0
                    != r by {}
                assert(values[r] == regular[r]);
            }
            lemma_giving_covers(value, cursor, end, arrived(), values, end);
        }
    }
}

impl<
    const POSITIONS: usize,
    const INDEX: usize,
    const EXCEPTIONS: usize,
    const COUNT: usize,
    const INDEX_INTERVAL: usize,
    Child: Ordered,
> Ordered for StaticPatch<POSITIONS, INDEX, EXCEPTIONS, COUNT, INDEX_INTERVAL, Child> {
    open spec fn orderly(context: Context, rows: int) -> bool {
        &&& exceptions_in_order(
            context,
            FieldId(INDEX),
            FieldId(POSITIONS),
            FieldId(EXCEPTIONS),
            COUNT as int,
            INDEX_INTERVAL as int,
            rows,
        )
        &&& Child::orderly(context, rows)
        &&& readable::<Self>(context, rows)
    }

    proof fn covered(context: Context, rows: int, start: int, end: int) {
        let count = COUNT as int;
        let interval = INDEX_INTERVAL as int;
        let index = FieldId(INDEX);
        let positions = FieldId(POSITIONS);
        let exceptions = FieldId(EXCEPTIONS);
        let regular = decoded::<Child>(context, rows);
        let values = decoded::<Self>(context, rows);
        let bound = lower_bound_outcome(context, index, positions, count, interval, start);
        assert(bound.result is Ok);
        let at = bound.result->Ok_0;
        let stop = lemma_collected(
            context,
            POSITIONS,
            EXCEPTIONS,
            count,
            end,
            at,
            Seq::empty(),
        );
        let collected = collect_outcome(
            context,
            POSITIONS,
            EXCEPTIONS,
            count,
            end,
            at,
            Seq::empty(),
        );
        let patches = collected.result->Ok_0;
        let all = Seq::new(
            (stop - at) as nat,
            |k: int| exception_at(context, positions, exceptions, at + k),
        );
        assert(patches =~= all);
        assert forall|i: int, j: int| 0 <= i < j < patches.len() implies (#[trigger] patches[i]).0
            < (#[trigger] patches[j]).0 by {
            assert(exception_row(context, positions, at + i) < exception_row(
                context,
                positions,
                at + j,
            ));
        }
        assert forall|i: int| 0 <= i < patches.len() implies start <= (#[trigger] patches[i]).0
            < end by {
            assert((exception_row(context, positions, at + i) < start) == (at + i < at));
            assert((exception_row(context, positions, at + i) < end) == (at + i < stop));
        }
        assert(split_at(patches, 0, start));
        Child::covered(context, rows, start, end);
        assert forall|i: int|
            0 <= i < patches.len() && start <= (#[trigger] patches[i]).0 < end implies values[patches[i].0]
            == Some(patches[i].1) by {
            let row = patches[i].0;
            assert(row == exception_row(context, positions, at + i));
            let found = find_outcome(context, index, positions, count, interval, row);
            assert(found.result is Ok);
            assert(Self::value(context, row).result is Ok);
            if let Some(k) = found.result->Ok_0 {
                if k < at + i {
                    assert(exception_row(context, positions, k) < exception_row(
                        context,
                        positions,
                        at + i,
                    ));
                }
                if at + i < k {
                    assert(exception_row(context, positions, at + i) < exception_row(
                        context,
                        positions,
                        k,
                    ));
                }
                assert(k == at + i);
            }
        }
        assert forall|row: int|
            start <= row < end && (forall|i: int|
                0 <= i < patches.len() ==> (#[trigger] patches[i]).0 != row) implies #[trigger] values[row]
            == regular[row] by {
            let found = find_outcome(context, index, positions, count, interval, row);
            assert(found.result is Ok);
            assert(Self::value(context, row).result is Ok);
            if let Some(k) = found.result->Ok_0 {
                assert((exception_row(context, positions, k) < start) == (k < at));
                assert((exception_row(context, positions, k) < end) == (k < stop));
                assert(patches[k - at].0 == row);
                assert(false);
            }
        }
        assert(patched_by(patches, regular, values, start, end));
        let turn = |memory: (Seq<(int, int)>, int), value: Option<int>, from: int, to: int|
            patch_turn(memory.0, memory.1, value, from, to);
        let holds = |memory: (Seq<(int, int)>, int), row: int|
            memory.0 == patches && split_at(patches, memory.1, row);
        assert forall|
            memory: (Seq<(int, int)>, int),
            value: Option<int>,
            from: int,
            to: int,
        |
            holds(memory, from) && start <= from && from < to && to <= end && even(
                regular,
                from,
                to,
                value,
            ) implies ({
            let one = #[trigger] turn(memory, value, from, to);
            covers(one.walk, values, from + 0, to + 0) && holds(one.memory, to)
        }) by {
            assert(patched_by(patches, regular, values, from, to));
            lemma_patch_turn(patches, memory.1, regular, values, value, from, to);
        }
        let walk = Child::walk(context, start, end);
        lemma_turned_covers(
            walk,
            turn,
            holds,
            (patches, 0int),
            regular,
            values,
            0,
            start,
            start,
            end,
        );
        let inner = turned(walk, turn, (patches, 0int));
        lemma_steps_cover(collected.trace, inner, values, start, end);
        lemma_steps_cover(
            bound.trace,
            after_steps(collected.trace, inner),
            values,
            start,
            end,
        );
    }
}

// ----- nulls -----

/// The row has a value.
pub open spec fn present_at(context: Context, validity: FieldId, row: int) -> bool {
    valid_outcome(context, validity, row).result->Ok_0
}

/// How many of the first `n` rows have a value.
pub open spec fn present_before(context: Context, validity: FieldId, n: int) -> int
    decreases n,
{
    if n <= 0 {
        0
    } else {
        present_before(context, validity, n - 1) + if present_at(context, validity, n - 1) {
            1int
        } else {
            0int
        }
    }
}

/// The rank of a row is the number of values before it.
pub open spec fn ranks_in_order(
    context: Context,
    validity: FieldId,
    ranks: FieldId,
    interval: int,
    rows: int,
) -> bool {
    &&& 2 * rows <= usize::MAX
    &&& forall|row: int|
        0 <= row < rows ==> (#[trigger] valid_outcome(context, validity, row)).result is Ok
    &&& forall|row: int|
        0 <= row < rows ==> (#[trigger] rank_outcome(
            context,
            validity,
            ranks,
            row,
            interval,
        )).result == Ok::<Option<int>, Error>(
            if present_at(context, validity, row) {
                Some(present_before(context, validity, row))
            } else {
                None
            },
        )
    &&& forall|row: int|
        0 <= row <= rows ==> (#[trigger] prefix_rank_outcome(
            context,
            validity,
            ranks,
            row,
            interval,
        )).result == Ok::<int, Error>(present_before(context, validity, row))
}

proof fn lemma_present_grows(context: Context, validity: FieldId, m: int, n: int)
    requires
        0 <= m <= n,
    ensures
        0 <= present_before(context, validity, m) <= present_before(context, validity, n) <= n,
        present_before(context, validity, n) <= present_before(context, validity, m) + n - m,
    decreases n,
{
    if m < n {
        lemma_present_grows(context, validity, m, n - 1);
    } else if n > 0 {
        lemma_present_grows(context, validity, m - 1, n - 1);
    }
}

/// Rows of which each has a value are counted one by one.
proof fn lemma_present_run(context: Context, validity: FieldId, from: int, row: int)
    requires
        0 <= from <= row,
        forall|r: int| from <= r < row ==> #[trigger] present_at(context, validity, r),
    ensures
        present_before(context, validity, row) == present_before(context, validity, from) + row
            - from,
    decreases row - from,
{
    if from < row {
        lemma_present_run(context, validity, from, row - 1);
        assert(present_at(context, validity, row - 1));
    }
}

proof fn lemma_extent_holds(
    context: Context,
    validity: usize,
    at: int,
    end: int,
    valid: bool,
    rows: int,
) -> (stop: int)
    requires
        0 <= at <= end <= rows,
        forall|row: int|
            0 <= row < rows ==> (#[trigger] valid_outcome(context, FieldId(validity), row)).result is Ok,
    ensures
        extent_outcome(context, validity, at, end, valid).result == Ok::<int, Error>(stop),
        at <= stop <= end,
        forall|row: int|
            at <= row < stop ==> #[trigger] present_at(context, FieldId(validity), row) == valid,
    decreases end - at,
{
    if at >= end {
        at
    } else {
        assert(valid_outcome(context, FieldId(validity), at).result is Ok);
        if present_at(context, FieldId(validity), at) == valid {
            lemma_extent_holds(context, validity, at + 1, end, valid, rows)
        } else {
            at
        }
    }
}

/// The values of rows that follow one another are those of the compact rows.
proof fn lemma_shift_cover<
    const VALIDITY: usize,
    const RANK_INDEX: usize,
    const RANK_INTERVAL: usize,
    Child: Ordered,
>(context: Context, rows: int, logical: int, stop: int)
    requires
        Child::sound(),
        ranks_in_order(
            context,
            FieldId(VALIDITY),
            FieldId(RANK_INDEX),
            RANK_INTERVAL as int,
            rows,
        ),
        Child::orderly(context, present_before(context, FieldId(VALIDITY), rows)),
        0 <= logical < stop <= rows,
        forall|row: int|
            logical <= row < stop ==> #[trigger] present_at(context, FieldId(VALIDITY), row),
    ensures
        ({
            let compact = present_before(context, FieldId(VALIDITY), logical);
            covers(
                turned(
                    Child::walk(context, compact, compact + (stop - logical)),
                    |memory: (int, int), value: Option<int>, from: int, to: int|
                        shift_turn(memory.0, memory.1, value, from, to),
                    (logical, compact),
                ),
                decoded::<StaticNullable<VALIDITY, RANK_INDEX, RANK_INTERVAL, Child>>(
                    context,
                    rows,
                ),
                logical,
                stop,
            )
        }),
{
    let validity = FieldId(VALIDITY);
    let ranks = FieldId(RANK_INDEX);
    let interval = RANK_INTERVAL as int;
    let values = decoded::<StaticNullable<VALIDITY, RANK_INDEX, RANK_INTERVAL, Child>>(
        context,
        rows,
    );
    let compact = present_before(context, validity, logical);
    let reached = compact + (stop - logical);
    let total = present_before(context, validity, rows);
    lemma_present_run(context, validity, logical, stop);
    lemma_present_grows(context, validity, stop, rows);
    lemma_present_grows(context, validity, logical, rows);
    let inner = decoded::<Child>(context, total);
    Child::covered(context, total, compact, reached);
    let turn = |memory: (int, int), value: Option<int>, from: int, to: int|
        shift_turn(memory.0, memory.1, value, from, to);
    let holds = |memory: (int, int), row: int| memory == (logical, compact);
    let shift = logical - compact;
    assert forall|row: int| logical <= row < stop implies #[trigger] values[row] == inner[row
        - shift] by {
        lemma_present_run(context, validity, logical, row);
        assert(present_at(context, validity, row));
        assert(rank_outcome(context, validity, ranks, row, interval).result == Ok::<
            Option<int>,
            Error,
        >(Some(row - shift)));
        assert(Child::value(context, row - shift).result is Ok);
    }
    assert forall|memory: (int, int), value: Option<int>, from: int, to: int|
        holds(memory, from) && compact <= from && from < to && to <= reached && even(
            inner,
            from,
            to,
            value,
        ) implies ({
        let one = #[trigger] turn(memory, value, from, to);
        covers(one.walk, values, from + shift, to + shift) && holds(one.memory, to)
    }) by {
        assert forall|row: int| from + shift <= row < to + shift implies #[trigger] values[row]
            == value by {
            assert(values[row] == inner[row - shift]);
        }
        lemma_giving_covers(value, from + shift, to + shift, arrived(), values, to + shift);
    }
    lemma_turned_covers(
        Child::walk(context, compact, reached),
        turn,
        holds,
        (logical, compact),
        inner,
        values,
        shift,
        compact,
        compact,
        reached,
    );
}

proof fn lemma_null_cover<
    const VALIDITY: usize,
    const RANK_INDEX: usize,
    const RANK_INTERVAL: usize,
    Child: Ordered,
>(context: Context, rows: int, end: int, logical: int)
    requires
        Child::sound(),
        ranks_in_order(
            context,
            FieldId(VALIDITY),
            FieldId(RANK_INDEX),
            RANK_INTERVAL as int,
            rows,
        ),
        Child::orderly(context, present_before(context, FieldId(VALIDITY), rows)),
        readable::<StaticNullable<VALIDITY, RANK_INDEX, RANK_INTERVAL, Child>>(context, rows),
        0 <= logical <= end <= rows,
    ensures
        covers(
            null_walk::<Child>(
                context,
                VALIDITY,
                end,
                logical,
                present_before(context, FieldId(VALIDITY), logical),
            ),
            decoded::<StaticNullable<VALIDITY, RANK_INDEX, RANK_INTERVAL, Child>>(context, rows),
            logical,
            end,
        ),
    decreases end - logical,
{
    if logical < end {
        let validity = FieldId(VALIDITY);
        let ranks = FieldId(RANK_INDEX);
        let interval = RANK_INTERVAL as int;
        let values = decoded::<StaticNullable<VALIDITY, RANK_INDEX, RANK_INTERVAL, Child>>(
            context,
            rows,
        );
        let compact = present_before(context, validity, logical);
        let first = valid_outcome(context, validity, logical);
        assert(first.result is Ok);
        let valid = present_at(context, validity, logical);
        let stop = lemma_extent_holds(context, VALIDITY, logical + 1, end, valid, rows);
        let extent = extent_outcome(context, VALIDITY, logical + 1, end, valid);
        assert forall|row: int| logical <= row < stop implies #[trigger] present_at(
            context,
            validity,
            row,
        ) == valid by {}
        let reached = compact + (stop - logical);
        if !valid {
            assert(present_before(context, validity, stop) == compact) by {
                lemma_absent_run(context, validity, logical, stop);
            }
            lemma_null_cover::<VALIDITY, RANK_INDEX, RANK_INTERVAL, Child>(
                context,
                rows,
                end,
                stop,
            );
            let rest = null_walk::<Child>(context, VALIDITY, end, stop, compact);
            assert forall|row: int| logical <= row < stop implies #[trigger] values[row]
                == None::<int> by {
                assert(!present_at(context, validity, row));
                assert(rank_outcome(context, validity, ranks, row, interval).result == Ok::<
                    Option<int>,
                    Error,
                >(None));
            }
            lemma_giving_covers(None, logical, stop, rest, values, end);
            let given_out = giving(None, logical, stop, rest);
            lemma_steps_cover(extent.trace, given_out, values, logical, end);
            lemma_steps_cover(
                first.trace,
                after_steps(extent.trace, given_out),
                values,
                logical,
                end,
            );
        } else {
            lemma_present_run(context, validity, logical, stop);
            lemma_present_grows(context, validity, logical, stop);
            lemma_null_cover::<VALIDITY, RANK_INDEX, RANK_INTERVAL, Child>(
                context,
                rows,
                end,
                stop,
            );
            let rest = null_walk::<Child>(context, VALIDITY, end, stop, reached);
            let part = turned(
                Child::walk(context, compact, reached),
                |memory: (int, int), value: Option<int>, from: int, to: int|
                    shift_turn(memory.0, memory.1, value, from, to),
                (logical, compact),
            );
            lemma_shift_cover::<VALIDITY, RANK_INDEX, RANK_INTERVAL, Child>(
                context,
                rows,
                logical,
                stop,
            );
            lemma_joined_covers(part, rest, values, logical, stop, end);
            lemma_steps_cover(extent.trace, joined(part, rest), values, logical, end);
            lemma_steps_cover(
                first.trace,
                after_steps(extent.trace, joined(part, rest)),
                values,
                logical,
                end,
            );
        }
    }
}

/// Rows of which none has a value are not counted.
proof fn lemma_absent_run(context: Context, validity: FieldId, from: int, row: int)
    requires
        0 <= from <= row,
        forall|r: int| from <= r < row ==> !#[trigger] present_at(context, validity, r),
    ensures
        present_before(context, validity, row) == present_before(context, validity, from),
    decreases row - from,
{
    if from < row {
        lemma_absent_run(context, validity, from, row - 1);
        assert(!present_at(context, validity, row - 1));
    }
}

impl<
    const VALIDITY: usize,
    const RANK_INDEX: usize,
    const RANK_INTERVAL: usize,
    Child: Ordered,
> Ordered for StaticNullable<VALIDITY, RANK_INDEX, RANK_INTERVAL, Child> {
    open spec fn orderly(context: Context, rows: int) -> bool {
        &&& ranks_in_order(
            context,
            FieldId(VALIDITY),
            FieldId(RANK_INDEX),
            RANK_INTERVAL as int,
            rows,
        )
        &&& Child::orderly(context, present_before(context, FieldId(VALIDITY), rows))
        &&& readable::<Self>(context, rows)
    }

    proof fn covered(context: Context, rows: int, start: int, end: int) {
        let validity = FieldId(VALIDITY);
        let prefix = prefix_rank_outcome(
            context,
            validity,
            FieldId(RANK_INDEX),
            start,
            RANK_INTERVAL as int,
        );
        let compact = present_before(context, validity, start);
        assert(prefix.result == Ok::<int, Error>(compact));
        lemma_null_cover::<VALIDITY, RANK_INDEX, RANK_INTERVAL, Child>(context, rows, end, start);
        lemma_steps_cover(
            prefix.trace,
            null_walk::<Child>(context, VALIDITY, end, start, compact),
            decoded::<Self>(context, rows),
            start,
            end,
        );
    }
}

// ----- nodes in order -----

/// So many rows of a node can be decoded, and what a walk over them reads fits to
/// them.
pub open spec fn node_orderly(
    context: Context,
    nodes: Seq<DecoderNode>,
    id: int,
    rows: int,
) -> bool
    decreases id,
{
    &&& 0 <= id < nodes.len()
    &&& forall|row: int|
        0 <= row < rows ==> (#[trigger] get_outcome(context, nodes, id, row)).result is Ok
    &&& match nodes[id] {
        DecoderNode::BitUnpack { .. } | DecoderNode::Delta { .. } => true,
        DecoderNode::For { values, .. } => values.0 < id && node_orderly(
            context,
            nodes,
            values.0 as int,
            rows,
        ),
        DecoderNode::Dictionary { ids, dictionary, entries, .. } => {
            &&& entries_in_order(context, dictionary, entries as int)
            &&& ids.0 < id
            &&& node_orderly(context, nodes, ids.0 as int, rows)
        },
        DecoderNode::Rle { run_lengths, run_index, runs, index_interval, .. } => runs_in_order(
            context,
            run_index,
            run_lengths,
            runs as int,
            index_interval as int,
            rows,
        ),
        DecoderNode::Patch {
            values,
            positions,
            position_index,
            exceptions,
            count,
            index_interval,
        } => {
            &&& exceptions_in_order(
                context,
                position_index,
                positions,
                exceptions,
                count as int,
                index_interval as int,
                rows,
            )
            &&& values.0 < id
            &&& node_orderly(context, nodes, values.0 as int, rows)
        },
        DecoderNode::Nullable { validity, rank_index, values, rank_interval, .. } => {
            &&& ranks_in_order(context, validity, rank_index, rank_interval as int, rows)
            &&& values.0 < id
            &&& node_orderly(
                context,
                nodes,
                values.0 as int,
                present_before(context, validity, rows),
            )
        },
    }
}

} // verus!
