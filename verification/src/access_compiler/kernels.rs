//! What the static queries answer of the columns that their decoders describe.
#[allow(unused_imports)]
use super::coding::Recipe;
#[allow(unused_imports)]
use super::encode::{marked, widened, EncodedColumn};
#[allow(unused_imports)]
use super::error::Error;
#[allow(unused_imports)]
use super::execute::{answer_of, listed, matching, sum_of, Reply};
#[allow(unused_imports)]
use super::ids::FieldId;
#[allow(unused_imports)]
use super::plan::{Predicate, Query};
#[allow(unused_imports)]
use super::roundtrip::{lemma_column_orderly, narrow_column};
#[allow(unused_imports)]
use super::runtime::{i64_outcome, page_context, ClosureMode, Context};
#[allow(unused_imports)]
use super::searches::{decodes, wide};
#[allow(unused_imports)]
use super::shapes::{law_described_columns_decode, Carried, Described};
#[allow(unused_imports)]
use super::span::Span;
#[allow(unused_imports)]
use super::static_baseline::{entry_of, StaticDecoder, StaticDictionary};
#[allow(unused_imports)]
use super::static_queries::{
    between_step, between_walked, dictionary_outcome, entry_outcome, id_step, sum_step, sum_walked,
    Between, BetweenVisitor, IdVisitor, SumVisitor,
};
#[allow(unused_imports)]
use super::support::{lemma_pushed_join, pushed_range, pushed_where, ranges_where};
#[allow(unused_imports)]
use super::visitor::{moved, Move, Visitor};
#[allow(unused_imports)]
use super::walks::{covers, decoded, entries_in_order, even, readable, tiles, Ordered};
use vstd::prelude::*;

verus! {

/// Values as numbers.
pub open spec fn wide_values(values: Seq<Option<i64>>) -> Seq<Option<int>> {
    Seq::new(values.len(), |row: int| wide(values[row]))
}

/// The column encodes the values, and the type describes its decoder.
#[verifier::opaque]
pub open spec fn kernel_of<D: Described>(
    column: EncodedColumn,
    recipe: Recipe,
    values: Seq<Option<i64>>,
    patch_rows: Set<usize>,
) -> bool {
    &&& column.encodes(recipe, values, patch_rows)
    &&& narrow_column(recipe, widened(values), marked(values.len(), patch_rows))
    &&& 2 * values.len() <= usize::MAX
    &&& usize::BITS == 64
    &&& D::sound()
    &&& D::shapes(column.decoder.arena(), column.decoder.top().0 as int)
}

proof fn lemma_kernel<D: Carried>(
    column: EncodedColumn,
    recipe: Recipe,
    values: Seq<Option<i64>>,
    patch_rows: Set<usize>,
    mode: ClosureMode,
)
    requires
        kernel_of::<D>(column, recipe, values, patch_rows),
    ensures
        D::orderly(page_context(&column.page, mode, true), values.len() as int),
        decodes::<D>(page_context(&column.page, mode, true), values),
        0 < values.len() <= usize::MAX,
        D::sound(),
{
    let context = page_context(&column.page, mode, true);
    let nodes = column.decoder.arena();
    let id = column.decoder.top().0 as int;
    reveal(kernel_of);
    lemma_column_orderly(column, recipe, values, patch_rows, mode, true);
    D::carries(context, nodes, id, values.len() as int);
    law_described_columns_decode::<D>(column, recipe, values, patch_rows, mode);
}

/// A walk over rows of an encoded column gives each its value, once and in order.
pub proof fn law_walks_give_every_row<D: Carried>(
    column: EncodedColumn,
    recipe: Recipe,
    values: Seq<Option<i64>>,
    patch_rows: Set<usize>,
    mode: ClosureMode,
    start: int,
    end: int,
)
    requires
        kernel_of::<D>(column, recipe, values, patch_rows),
        0 <= start <= end <= values.len(),
    ensures
        covers(
            D::walk(page_context(&column.page, mode, true), start, end),
            wide_values(values),
            start,
            end,
        ),
{
    let context = page_context(&column.page, mode, true);
    let rows = values.len() as int;
    lemma_kernel::<D>(column, recipe, values, patch_rows, mode);
    D::covered(context, rows, start, end);
    assert(decoded::<D>(context, rows) =~= wide_values(values)) by {
        assert forall|row: int| 0 <= row < rows implies #[trigger] decoded::<D>(context, rows)[row]
            == wide_values(values)[row] by {
            assert(D::value(context, row).result == Ok::<Option<int>, Error>(wide(values[row])));
        }
    }
}

// ----- sums -----

proof fn lemma_sum_join(row_value: spec_fn(int) -> Option<i64>, a: int, b: int, c: int)
    requires
        a <= b <= c,
    ensures
        sum_of(row_value, a, c) == sum_of(row_value, a, b) + sum_of(row_value, b, c),
    decreases c - b,
{
    if b < c {
        lemma_sum_join(row_value, a, b, c - 1);
    }
}

/// Rows of one value add it as often as they are many.
proof fn lemma_sum_even(values: Seq<Option<i64>>, from: int, to: int, value: Option<int>)
    requires
        0 <= from <= to <= values.len(),
        even(wide_values(values), from, to, value),
    ensures
        sum_of(listed(values), from, to) == match value {
            Some(value) => value * (to - from),
            None => 0,
        },
    decreases to - from,
{
    if from < to {
        lemma_sum_even(values, from, to - 1, value);
        assert(wide_values(values)[to - 1] == value);
        if let Some(number) = value {
            assert(number * (to - from) == number * (to - 1 - from) + number) by (nonlinear_arith);
        }
    } else if let Some(number) = value {
        assert(number * (to - from) == 0) by (nonlinear_arith)
            requires
                to - from == 0,
        ;
    }
}

proof fn lemma_sum_moved(
    context: Context,
    moves: Seq<Move>,
    values: Seq<Option<i64>>,
    start: int,
    end: int,
    sum: int,
    count: int,
)
    requires
        0 <= start <= end <= values.len(),
        tiles(moves, wide_values(values), start, end),
        0 <= count,
        count + (end - start) <= usize::MAX,
        -0x8000_0000_0000_0000 * count <= sum <= 0x8000_0000_0000_0000 * count,
    ensures
        moved::<SumVisitor>(context, moves, (sum, count)).result == Ok::<(int, int), Error>(
            (sum + sum_of(listed(values), start, end), count + (end - start)),
        ),
    decreases moves.len(),
{
    if moves.len() > 0 {
        match moves[0] {
            Move::Steps(_) => {
                lemma_sum_moved(context, moves.drop_first(), values, start, end, sum, count);
            },
            Move::Give { value, start: from, end: to } => {
                lemma_sum_even(values, from, to, value);
                lemma_sum_join(listed(values), from, to, end);
                let rows = to - from;
                let more = match value {
                    Some(value) => value * rows,
                    None => 0,
                };
                assert(wide_values(values)[from] == value);
                if let Some(number) = value {
                    assert(-0x8000_0000_0000_0000 * rows <= number * rows <= 0x8000_0000_0000_0000
                        * rows) by (nonlinear_arith)
                        requires
                            -0x8000_0000_0000_0000 <= number <= 0x8000_0000_0000_0000,
                            0 < rows,
                    ;
                }
                assert(sum_step((sum, count), value, from, to).result == Ok::<(int, int), Error>(
                    (sum + more, count + rows),
                ));
                lemma_sum_moved(
                    context,
                    moves.drop_first(),
                    values,
                    to,
                    end,
                    sum + more,
                    count + rows,
                );
            },
        }
    }
}

/// A sum over a static decoder is the sum of the values, and each row is decoded
/// once.
pub proof fn law_static_sum_is_exact<D: Carried>(
    column: EncodedColumn,
    recipe: Recipe,
    values: Seq<Option<i64>>,
    patch_rows: Set<usize>,
    mode: ClosureMode,
    rows: Span,
)
    requires
        kernel_of::<D>(column, recipe, values, patch_rows),
        rows.start <= rows.end <= values.len(),
    ensures
        ({
            let context = page_context(&column.page, mode, true);
            let walk = D::walk(context, rows.start as int, rows.end as int);
            sum_walked(context, walk).result == Ok::<(Reply, int), Error>(
                (
                    answer_of(Query::Sum { rows }, values.len() as int, listed(values)),
                    rows.end - rows.start,
                ),
            )
        }),
{
    let context = page_context(&column.page, mode, true);
    let start = rows.start as int;
    let end = rows.end as int;
    law_walks_give_every_row::<D>(column, recipe, values, patch_rows, mode, start, end);
    lemma_sum_moved(context, D::walk(context, start, end).moves, values, start, end, 0, 0);
}

// ----- ranges -----

/// Rows that all hit are added as one.
proof fn lemma_pushed_even(
    ranges: Seq<Span>,
    hit: spec_fn(int) -> bool,
    from: int,
    to: int,
)
    requires
        0 <= from < to <= usize::MAX,
        forall|row: int| from <= row < to ==> #[trigger] hit(row),
    ensures
        pushed_where(ranges, hit, from, to) == pushed_range(ranges, from, to),
    decreases to - from,
{
    assert(hit(to - 1));
    if from + 1 < to {
        lemma_pushed_even(ranges, hit, from, to - 1);
        let before = pushed_range(ranges, from, to - 1);
        assert(before.len() > 0 && before.last().end == to - 1);
        assert(pushed_range(before, to - 1, to) =~= pushed_range(ranges, from, to));
    } else {
        assert(pushed_where(ranges, hit, from, from) == ranges);
    }
}

/// Rows of which none hits add nothing.
pub proof fn lemma_pushed_none(
    ranges: Seq<Span>,
    hit: spec_fn(int) -> bool,
    from: int,
    to: int,
)
    requires
        from <= to,
        forall|row: int| from <= row < to ==> !#[trigger] hit(row),
    ensures
        pushed_where(ranges, hit, from, to) == ranges,
    decreases to - from,
{
    if from < to {
        assert(!hit(to - 1));
        lemma_pushed_none(ranges, hit, from, to - 1);
    }
}

proof fn lemma_between_moved(
    context: Context,
    moves: Seq<Move>,
    values: Seq<Option<i64>>,
    start: int,
    end: int,
    low: i64,
    high: i64,
    ranges: Seq<Span>,
    count: int,
)
    requires
        0 <= start <= end <= values.len(),
        end <= usize::MAX,
        tiles(moves, wide_values(values), start, end),
        0 <= count,
        count + (end - start) <= usize::MAX,
    ensures
        moved::<BetweenVisitor>(
            context,
            moves,
            Between { low: low as int, high: high as int, ranges, decoded: count },
        ).result == Ok::<Between, Error>(
            Between {
                low: low as int,
                high: high as int,
                ranges: pushed_where(
                    ranges,
                    matching(listed(values), Predicate::Between { low, high }),
                    start,
                    end,
                ),
                decoded: count + (end - start),
            },
        ),
    decreases moves.len(),
{
    let hit = matching(listed(values), Predicate::Between { low, high });
    let state = Between { low: low as int, high: high as int, ranges, decoded: count };
    if moves.len() > 0 {
        match moves[0] {
            Move::Steps(_) => {
                lemma_between_moved(
                    context,
                    moves.drop_first(),
                    values,
                    start,
                    end,
                    low,
                    high,
                    ranges,
                    count,
                );
            },
            Move::Give { value, start: from, end: to } => {
                let in_range = value matches Some(number) && low <= number <= high;
                assert forall|row: int| from <= row < to implies #[trigger] hit(row)
                    == in_range by {
                    assert(wide_values(values)[row] == value);
                }
                let next = pushed_where(ranges, hit, from, to);
                if in_range {
                    lemma_pushed_even(ranges, hit, from, to);
                } else {
                    lemma_pushed_none(ranges, hit, from, to);
                }
                lemma_pushed_join(ranges, hit, from, to, end);
                assert(between_step(state, value, from, to).result == Ok::<Between, Error>(
                    Between { ranges: next, decoded: count + (to - from), ..state },
                ));
                lemma_between_moved(
                    context,
                    moves.drop_first(),
                    values,
                    to,
                    end,
                    low,
                    high,
                    next,
                    count + (to - from),
                );
            },
        }
    }
}

/// The rows that a static decoder finds between two bounds are those whose values
/// lie between them, and each row is decoded once.
pub proof fn law_static_between_is_exact<D: Carried>(
    column: EncodedColumn,
    recipe: Recipe,
    values: Seq<Option<i64>>,
    patch_rows: Set<usize>,
    mode: ClosureMode,
    rows: Span,
    low: i64,
    high: i64,
)
    requires
        kernel_of::<D>(column, recipe, values, patch_rows),
        rows.start <= rows.end <= values.len(),
    ensures
        ({
            let context = page_context(&column.page, mode, true);
            let walk = D::walk(context, rows.start as int, rows.end as int);
            between_walked(context, walk, low as int, high as int).result == Ok::<
                (Reply, int),
                Error,
            >(
                (
                    answer_of(
                        Query::Between { rows, low, high },
                        values.len() as int,
                        listed(values),
                    ),
                    rows.end - rows.start,
                ),
            )
        }),
{
    let context = page_context(&column.page, mode, true);
    let start = rows.start as int;
    let end = rows.end as int;
    law_walks_give_every_row::<D>(column, recipe, values, patch_rows, mode, start, end);
    lemma_between_moved(
        context,
        D::walk(context, start, end).moves,
        values,
        start,
        end,
        low,
        high,
        Seq::empty(),
        0,
    );
}

// ----- dictionaries -----

/// An entry of a dictionary.
pub open spec fn entry_value(context: Context, field: usize, k: int) -> int {
    i64_outcome(context, FieldId(field), k).result->Ok_0 as int
}

/// An entry comes before a bound.
pub open spec fn entry_before(
    context: Context,
    field: usize,
    bound: int,
    inclusive: bool,
    k: int,
) -> bool {
    let value = entry_value(context, field, k);
    value < bound || (inclusive && value == bound)
}

/// The search of a dictionary ends where its entries come not before the bound.
pub proof fn lemma_entry_found(
    context: Context,
    field: usize,
    entries: int,
    left: int,
    right: int,
    bound: int,
    inclusive: bool,
) -> (place: int)
    requires
        entries_in_order(context, FieldId(field), entries),
        0 <= left <= right <= entries,
        forall|k: int|
            0 <= k < left ==> #[trigger] entry_before(context, field, bound, inclusive, k),
        forall|k: int|
            right <= k < entries ==> !#[trigger] entry_before(context, field, bound, inclusive, k),
    ensures
        entry_outcome(context, field, left, right, bound, inclusive).result == Ok::<int, Error>(
            place,
        ),
        left <= place <= right,
        forall|k: int|
            0 <= k < entries ==> #[trigger] entry_before(context, field, bound, inclusive, k) == (k
                < place),
    decreases right - left,
{
    if left >= right {
        left
    } else {
        let mid = left + (right - left) / 2;
        assert(i64_outcome(context, FieldId(field), mid).result is Ok);
        assert forall|k: int| 0 <= k < entries && k != mid implies if k < mid {
            #[trigger] entry_value(context, field, k) < entry_value(context, field, mid)
        } else {
            entry_value(context, field, mid) < entry_value(context, field, k)
        } by {
            if k < mid {
                assert(i64_outcome(context, FieldId(field), k).result->Ok_0 < i64_outcome(
                    context,
                    FieldId(field),
                    mid,
                ).result->Ok_0);
            } else {
                assert(i64_outcome(context, FieldId(field), mid).result->Ok_0 < i64_outcome(
                    context,
                    FieldId(field),
                    k,
                ).result->Ok_0);
            }
        }
        if entry_before(context, field, bound, inclusive, mid) {
            assert forall|k: int| 0 <= k < mid + 1 implies #[trigger] entry_before(
                context,
                field,
                bound,
                inclusive,
                k,
            ) by {
                if k < mid {
                    assert(entry_value(context, field, k) < entry_value(context, field, mid));
                }
            }
            lemma_entry_found(context, field, entries, mid + 1, right, bound, inclusive)
        } else {
            assert forall|k: int| mid <= k < entries implies !#[trigger] entry_before(
                context,
                field,
                bound,
                inclusive,
                k,
            ) by {
                if k > mid {
                    assert(entry_value(context, field, mid) < entry_value(context, field, k));
                }
            }
            lemma_entry_found(context, field, entries, left, mid, bound, inclusive)
        }
    }
}

proof fn lemma_ids_moved<const ENTRIES: usize>(
    context: Context,
    moves: Seq<Move>,
    ids: Seq<Option<int>>,
    hit: spec_fn(int) -> bool,
    start: int,
    end: int,
    low: int,
    high: int,
    ranges: Seq<Span>,
    count: int,
)
    requires
        0 <= start <= end <= ids.len() <= usize::MAX,
        tiles(moves, ids, start, end),
        0 <= count,
        count + (end - start) <= usize::MAX,
        forall|row: int|
            0 <= row < ids.len() ==> (entry_of(ENTRIES as int, #[trigger] ids[row]) matches Ok(id)
                && hit(row) == (low <= id < high)),
    ensures
        moved::<IdVisitor<ENTRIES>>(
            context,
            moves,
            Between { low, high, ranges, decoded: count },
        ).result == Ok::<Between, Error>(
            Between {
                low,
                high,
                ranges: pushed_where(ranges, hit, start, end),
                decoded: count + (end - start),
            },
        ),
    decreases moves.len(),
{
    let state = Between { low, high, ranges, decoded: count };
    if moves.len() > 0 {
        match moves[0] {
            Move::Steps(_) => {
                lemma_ids_moved::<ENTRIES>(
                    context,
                    moves.drop_first(),
                    ids,
                    hit,
                    start,
                    end,
                    low,
                    high,
                    ranges,
                    count,
                );
            },
            Move::Give { value, start: from, end: to } => {
                assert(ids[from] == value);
                let id = entry_of(ENTRIES as int, value)->Ok_0;
                assert forall|row: int| from <= row < to implies #[trigger] hit(row) == (low <= id
                    < high) by {
                    assert(ids[row] == value);
                }
                let next = pushed_where(ranges, hit, from, to);
                if low <= id < high {
                    lemma_pushed_even(ranges, hit, from, to);
                } else {
                    lemma_pushed_none(ranges, hit, from, to);
                }
                lemma_pushed_join(ranges, hit, from, to, end);
                assert(id_step(ENTRIES as int, state, value, from, to).result == Ok::<
                    Between,
                    Error,
                >(Between { ranges: next, decoded: count + (to - from), ..state }));
                lemma_ids_moved::<ENTRIES>(
                    context,
                    moves.drop_first(),
                    ids,
                    hit,
                    to,
                    end,
                    low,
                    high,
                    next,
                    count + (to - from),
                );
            },
        }
    }
}

/// The rows whose values lie between the bounds are those whose identifiers are in
/// the range that was found.
proof fn lemma_ids_hit<const DICTIONARY: usize, const ENTRIES: usize, Ids: StaticDecoder>(
    context: Context,
    values: Seq<Option<i64>>,
    low: i64,
    high: i64,
    first: int,
    last: int,
)
    requires
        decodes::<StaticDictionary<DICTIONARY, ENTRIES, Ids>>(context, values),
        readable::<Ids>(context, values.len() as int),
        forall|k: int|
            0 <= k < ENTRIES ==> #[trigger] entry_before(context, DICTIONARY, low as int, false, k)
                == (k < first),
        forall|k: int|
            0 <= k < ENTRIES ==> #[trigger] entry_before(context, DICTIONARY, high as int, true, k)
                == (k < last),
    ensures
        forall|row: int|
            0 <= row < values.len() ==> (entry_of(
                ENTRIES as int,
                #[trigger] decoded::<Ids>(context, values.len() as int)[row],
            ) matches Ok(entry) && matching(listed(values), Predicate::Between { low, high })(row)
                == (first <= entry < last)),
{
    let ids = decoded::<Ids>(context, values.len() as int);
    let hit = matching(listed(values), Predicate::Between { low, high });
    assert forall|row: int| 0 <= row < values.len() implies (entry_of(
        ENTRIES as int,
        #[trigger] ids[row],
    ) matches Ok(entry) && hit(row) == (first <= entry < last)) by {
        let whole = StaticDictionary::<DICTIONARY, ENTRIES, Ids>::value(context, row);
        assert(whole.result == Ok::<Option<int>, Error>(wide(values[row])));
        assert(Ids::value(context, row).result is Ok);
        let entry = entry_of(ENTRIES as int, ids[row])->Ok_0;
        assert(wide(values[row]) == Some(entry_value(context, DICTIONARY, entry)));
        assert(entry_before(context, DICTIONARY, low as int, false, entry) == (entry < first));
        assert(entry_before(context, DICTIONARY, high as int, true, entry) == (entry < last));
    }
}

proof fn lemma_dictionary_filter<const DICTIONARY: usize, const ENTRIES: usize, Ids: StaticDecoder>(
    context: Context,
    values: Seq<Option<i64>>,
    low: i64,
    high: i64,
)
    requires
        low <= high,
        values.len() <= usize::MAX,
        entries_in_order(context, FieldId(DICTIONARY), ENTRIES as int),
        decodes::<StaticDictionary<DICTIONARY, ENTRIES, Ids>>(context, values),
        readable::<Ids>(context, values.len() as int),
        covers(
            Ids::walk(context, 0, values.len() as int),
            decoded::<Ids>(context, values.len() as int),
            0,
            values.len() as int,
        ),
    ensures
        dictionary_outcome::<ENTRIES, Ids>(
            context,
            DICTIONARY,
            values.len() as int,
            low as int,
            high as int,
        ).result matches Ok((reply, decoded)) && {
            &&& reply == Reply::Ranges(
                ranges_where(
                    matching(listed(values), Predicate::Between { low, high }),
                    0,
                    values.len() as int,
                ),
            )
            &&& decoded == 0 || decoded == values.len()
        },
{
    let rows = values.len() as int;
    let entries = ENTRIES as int;
    let hit = matching(listed(values), Predicate::Between { low, high });
    let ids = decoded::<Ids>(context, rows);
    let first = lemma_entry_found(context, DICTIONARY, entries, 0, entries, low as int, false);
    assert forall|k: int| 0 <= k < first implies #[trigger] entry_before(
        context,
        DICTIONARY,
        high as int,
        true,
        k,
    ) by {
        assert(entry_before(context, DICTIONARY, low as int, false, k));
    }
    let last = lemma_entry_found(context, DICTIONARY, entries, first, entries, high as int, true);
    lemma_ids_hit::<DICTIONARY, ENTRIES, Ids>(context, values, low, high, first, last);
    if first < last {
        lemma_ids_moved::<ENTRIES>(
            context,
            Ids::walk(context, 0, rows).moves,
            ids,
            hit,
            0,
            rows,
            first,
            last,
            Seq::empty(),
            0,
        );
    } else {
        assert forall|row: int| 0 <= row < rows implies !#[trigger] hit(row) by {
            assert(entry_of(entries, ids[row]) is Ok);
        }
        lemma_pushed_none(Seq::empty(), hit, 0, rows);
    }
}

/// A filter that looks its bounds up in the dictionary finds the rows whose values
/// lie between them. It decodes each row once, or none where no entry lies between
/// the bounds.
pub proof fn law_dictionary_filter_is_exact<
    const DICTIONARY: usize,
    const ENTRIES: usize,
    Ids: Carried,
>(
    column: EncodedColumn,
    recipe: Recipe,
    values: Seq<Option<i64>>,
    patch_rows: Set<usize>,
    mode: ClosureMode,
    low: i64,
    high: i64,
)
    requires
        kernel_of::<StaticDictionary<DICTIONARY, ENTRIES, Ids>>(column, recipe, values, patch_rows),
        low <= high,
    ensures
        dictionary_outcome::<ENTRIES, Ids>(
            page_context(&column.page, mode, true),
            DICTIONARY,
            values.len() as int,
            low as int,
            high as int,
        ).result matches Ok((reply, decoded)) && {
            &&& reply == answer_of(
                Query::Filter { predicate: Predicate::Between { low, high } },
                values.len() as int,
                listed(values),
            )
            &&& decoded == 0 || decoded == values.len()
        },
{
    let context = page_context(&column.page, mode, true);
    let rows = values.len() as int;
    lemma_kernel::<StaticDictionary<DICTIONARY, ENTRIES, Ids>>(
        column,
        recipe,
        values,
        patch_rows,
        mode,
    );
    Ids::covered(context, rows, 0, rows);
    lemma_dictionary_filter::<DICTIONARY, ENTRIES, Ids>(context, values, low, high);
}

} // verus!
