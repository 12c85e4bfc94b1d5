//! What each primitive stores is read back.
#[allow(unused_imports)]
use super::bytes::{
    bit_at, byte_bit, i64_at, i64s_bytes, lemma_bits_of_number, lemma_bits_same, lemma_byte_of,
    lemma_i64s_read, lemma_u32s_read, number_bit, ones_below, u32_at, u32s_bytes,
};
#[allow(unused_imports)]
use super::coding::{
    all_positions, all_runs, compact, miniblock_size, position_index, exception_values,
    position_values, rank_values, rows_before, run_index, run_lengths, runs, stream_bit,
    stream_byte, stream_bytes, stream_len, validity_bytes, MINIBLOCK_ROWS,
};
#[allow(unused_imports)]
use super::encode::{lemma_positions, lemma_rows_before, lemma_runs_total};
#[allow(unused_imports)]
use super::error::Error;
#[allow(unused_imports)]
use super::ids::FieldId;
#[allow(unused_imports)]
use super::layout::{lemma_floor, lemma_scale, lemma_scale_next};
#[allow(unused_imports)]
use super::runtime::{
    bits_outcome, ceil_div, i64_outcome, lemma_ceil, lemma_ceil_floor, packed_bit, packed_byte,
    packed_end, packed_error, read_bytes, u32_outcome, u8_outcome, Context,
};
#[allow(unused_imports)]
use super::support::{
    find_outcome, locate_outcome, lower_bound_outcome, ones_outcome, prefix_rank_outcome,
    rank_outcome, scan_outcome, search_outcome, skip_outcome, valid_outcome, walk_outcome,
};
#[allow(unused_imports)]
use super::walks::{
    exception_row, exceptions_in_order, present_at, present_before, ranks_in_order, run_at,
    runs_in_order,
};
use vstd::prelude::*;

verus! {

/// Reads of a field give these bytes.
pub open spec fn stores(context: Context, field: FieldId, bytes: Seq<u8>) -> bool {
    &&& bytes.len() <= usize::MAX
    &&& forall|s: int, e: int|
        0 <= s <= e <= bytes.len() ==> #[trigger] read_bytes(context, field, s, e) == Ok::<
            Seq<u8>,
            Error,
        >(bytes.subrange(s, e))
}

pub proof fn lemma_read_u32(context: Context, field: FieldId, list: Seq<u32>, i: int)
    requires
        stores(context, field, u32s_bytes(list)),
        0 <= i < list.len(),
    ensures
        u32_outcome(context, field, i).result == Ok::<u32, Error>(list[i]),
{
    let bytes = u32s_bytes(list);
    let part = bytes.subrange(i * 4, i * 4 + 4);
    lemma_u32s_read(list, i);
    assert(read_bytes(context, field, i * 4, i * 4 + 4) == Ok::<Seq<u8>, Error>(part));
    assert(part[0] == bytes[4 * i] && part[1] == bytes[4 * i + 1] && part[2] == bytes[4 * i + 2]
        && part[3] == bytes[4 * i + 3]);
    assert(u32_at(part, 0) == u32_at(bytes, 4 * i));
}

pub proof fn lemma_read_i64(context: Context, field: FieldId, list: Seq<i64>, i: int)
    requires
        stores(context, field, i64s_bytes(list)),
        0 <= i < list.len(),
    ensures
        i64_outcome(context, field, i).result == Ok::<i64, Error>(list[i]),
{
    let bytes = i64s_bytes(list);
    let part = bytes.subrange(i * 8, i * 8 + 8);
    lemma_i64s_read(list, i);
    assert(read_bytes(context, field, i * 8, i * 8 + 8) == Ok::<Seq<u8>, Error>(part));
    assert forall|k: int| 0 <= k < 8 implies #[trigger] part[k] == bytes[8 * i + k] by {}
    assert(i64_at(part, 0) == i64_at(bytes, 8 * i));
}

pub proof fn lemma_read_u8(context: Context, field: FieldId, bytes: Seq<u8>, i: int)
    requires
        stores(context, field, bytes),
        0 <= i < bytes.len(),
    ensures
        u8_outcome(context, field, i).result == Ok::<u8, Error>(bytes[i]),
{
    assert(read_bytes(context, field, i, i + 1) == Ok::<Seq<u8>, Error>(bytes.subrange(i, i + 1)));
}

/// A search ends where the first half is at most the target and the next is not.
pub proof fn lemma_search(
    context: Context,
    index: FieldId,
    pairs: Seq<u32>,
    low: int,
    top: int,
    target: int,
)
    requires
        stores(context, index, u32s_bytes(pairs)),
        0 <= low <= top,
        2 * top + 1 < pairs.len(),
    ensures
        search_outcome(context, index, low, top, target).result matches Ok(e) && {
            &&& low <= e <= top
            &&& e > low ==> pairs[2 * e] <= target
            &&& e < top ==> pairs[2 * (e + 1)] > target
        },
    decreases top - low,
{
    if low < top {
        let mid = low + (top + 1 - low) / 2;
        lemma_read_u32(context, index, pairs, mid * 2);
        if pairs[mid * 2] <= target {
            lemma_search(context, index, pairs, mid, top, target);
        } else {
            lemma_search(context, index, pairs, low, mid - 1, target);
        }
    }
}

// ----- runs -----

/// A row has the value of the run that holds it.
pub proof fn lemma_run_holds(values: Seq<int>, n: int, run: int, row: int)
    requires
        0 <= n <= values.len(),
        0 <= run < runs(values, n).len(),
        rows_before(runs(values, n), run) <= row < rows_before(runs(values, n), run + 1),
    ensures
        0 <= row < n,
        values[row] == runs(values, n)[run].0,
    decreases n,
{
    if n > 0 {
        let all = runs(values, n);
        let before = runs(values, n - 1);
        lemma_runs_total(values, n);
        lemma_runs_total(values, n - 1);
        lemma_rows_before(all, run + 1, all.len() as int);
        if before.len() > 0 && before.last().0 == values[n - 1] {
            lemma_rows_agree(before, all, before.len() - 1);
            if run < before.len() - 1 {
                lemma_rows_agree(before, all, run);
                lemma_rows_agree(before, all, run + 1);
                lemma_run_holds(values, n - 1, run, row);
            } else if row < n - 1 {
                lemma_run_holds(values, n - 1, run, row);
            }
        } else {
            lemma_rows_agree(before, all, before.len() as int);
            if run < before.len() {
                lemma_rows_agree(before, all, run);
                lemma_rows_agree(before, all, run + 1);
                lemma_run_holds(values, n - 1, run, row);
            }
        }
    }
}

proof fn lemma_rows_agree(a: Seq<(int, nat)>, b: Seq<(int, nat)>, k: int)
    requires
        k <= a.len(),
        k <= b.len(),
        forall|i: int| 0 <= i < k ==> (#[trigger] a[i]).1 == b[i].1,
    ensures
        rows_before(a, k) == rows_before(b, k),
    decreases k,
{
    if k > 0 {
        lemma_rows_agree(a, b, k - 1);
        assert(a[k - 1].1 == b[k - 1].1);
    }
}

/// From a run that starts at or before the row, the run that holds it is found.
proof fn lemma_walk(
    context: Context,
    lengths: FieldId,
    values: Seq<int>,
    run: int,
    row: int,
)
    requires
        stores(context, lengths, u32s_bytes(run_lengths(values))),
        values.len() <= u32::MAX,
        0 <= run < all_runs(values).len(),
        rows_before(all_runs(values), run) <= row < values.len(),
    ensures
        walk_outcome(
            context,
            lengths,
            all_runs(values).len() as int,
            run,
            rows_before(all_runs(values), run) as int,
            row,
        ).result matches Ok(place) && {
            &&& 0 <= place.0 < all_runs(values).len()
            &&& place.1 == rows_before(all_runs(values), place.0)
            &&& place.2 == rows_before(all_runs(values), place.0 + 1)
            &&& place.1 <= row < place.2
        },
    decreases all_runs(values).len() - run,
{
    let list = all_runs(values);
    let count = list.len() as int;
    lemma_runs_total(values, values.len() as int);
    lemma_rows_before(list, run + 1, count);
    lemma_read_u32(context, lengths, run_lengths(values), run);
    let next = rows_before(list, run + 1) as int;
    assert(run_lengths(values)[run] == list[run].1);
    if row >= next {
        if run + 1 >= count {
            assert(false);
        }
        lemma_walk(context, lengths, values, run + 1, row);
    }
}

/// The run index leads to the run that holds a row.
#[verifier::rlimit(40)]
pub proof fn lemma_locate(
    context: Context,
    index: FieldId,
    lengths: FieldId,
    values: Seq<int>,
    interval: int,
    row: int,
)
    requires
        stores(context, lengths, u32s_bytes(run_lengths(values))),
        stores(context, index, u32s_bytes(run_index(values, interval))),
        values.len() <= u32::MAX,
        interval > 0,
        0 <= row < values.len(),
    ensures
        locate_outcome(
            context,
            index,
            lengths,
            all_runs(values).len() as int,
            interval,
            row,
        ).result matches Ok(place) && {
            &&& 0 <= place.0 < all_runs(values).len()
            &&& all_runs(values)[place.0].0 == values[row]
            &&& place.1 == rows_before(all_runs(values), place.0)
            &&& place.2 == rows_before(all_runs(values), place.0 + 1)
            &&& place.1 <= row < place.2
        },
{
    let list = all_runs(values);
    let count = list.len() as int;
    let groups = ceil_div(count, interval);
    let pairs = run_index(values, interval);
    lemma_runs_total(values, values.len() as int);
    lemma_ceil(count, interval);
    lemma_ceil_floor(count, interval);
    lemma_floor(count - 1, interval);
    lemma_search(context, index, pairs, 0, groups, row);
    let e = search_outcome(context, index, 0, groups, row).result->Ok_0;
    assert((2 * e) / 2 == e && (2 * e) % 2 == 0);
    assert((2 * e + 1) / 2 == e && (2 * e + 1) % 2 == 1);
    if e == groups {
        assert(pairs[2 * e] == values.len() as u32);
        assert(false);
    }
    let run = e * interval;
    lemma_scale(0, e, interval);
    lemma_scale(e, groups - 1, interval);
    lemma_scale_next(groups - 1, interval);
    assert(0 <= run < count);
    lemma_rows_before(list, run, count);
    assert(pairs[2 * e] == rows_before(list, run) as u32);
    assert(pairs[2 * e + 1] == run as u32);
    if e == 0 {
        assert(run == 0) by (nonlinear_arith)
            requires
                run == e * interval,
                e == 0,
        ;
    }
    lemma_read_u32(context, index, pairs, e * 2);
    lemma_read_u32(context, index, pairs, e * 2 + 1);
    lemma_walk(context, lengths, values, run, row);
    let place = walk_outcome(
        context,
        lengths,
        count,
        run,
        rows_before(list, run) as int,
        row,
    ).result->Ok_0;
    lemma_run_holds(values, values.len() as int, place.0, row);
}

/// No run is empty.
proof fn lemma_run_length(values: Seq<int>, n: int, run: int)
    requires
        0 <= n,
        0 <= run < runs(values, n).len(),
    ensures
        runs(values, n)[run].1 > 0,
    decreases n,
{
    if n > 0 {
        if run < runs(values, n - 1).len() {
            lemma_run_length(values, n - 1, run);
        }
    }
}

/// The runs of values lie one after the other.
#[verifier::rlimit(40)]
pub proof fn lemma_runs_in_order(
    context: Context,
    index: FieldId,
    lengths: FieldId,
    values: Seq<int>,
    interval: int,
)
    requires
        stores(context, lengths, u32s_bytes(run_lengths(values))),
        stores(context, index, u32s_bytes(run_index(values, interval))),
        values.len() <= u32::MAX,
        values.len() <= usize::MAX,
        interval > 0,
    ensures
        runs_in_order(
            context,
            index,
            lengths,
            all_runs(values).len() as int,
            interval,
            values.len() as int,
        ),
{
    let list = all_runs(values);
    let count = list.len() as int;
    lemma_runs_total(values, values.len() as int);
    assert forall|row: int| 0 <= row < values.len() implies (#[trigger] run_at(
        context,
        index,
        lengths,
        count,
        interval,
        row,
    ) matches Ok(place) && {
        &&& 0 <= place.0 < count
        &&& place.1 <= row < place.2 <= values.len()
        &&& u32_outcome(context, lengths, place.0).result matches Ok(length) && place.1 + length
            == place.2
        &&& 0 <= place.1
    }) by {
        lemma_locate(context, index, lengths, values, interval, row);
        let place = run_at(context, index, lengths, count, interval, row)->Ok_0;
        lemma_rows_before(list, place.0 + 1, count);
        lemma_read_u32(context, lengths, run_lengths(values), place.0);
    }
    assert forall|row: int, other: int|
        #![trigger
            run_at(context, index, lengths, count, interval, row),
            run_at(context, index, lengths, count, interval, other)]
        0 <= row < values.len() && 0 <= other < values.len() implies {
        let here = run_at(context, index, lengths, count, interval, row)->Ok_0;
        let there = run_at(context, index, lengths, count, interval, other)->Ok_0;
        &&& here.1 <= other < here.2 ==> there == here
        &&& here.2 == other ==> there.0 == here.0 + 1 && there.1 == other
    } by {
        lemma_locate(context, index, lengths, values, interval, row);
        lemma_locate(context, index, lengths, values, interval, other);
        let here = run_at(context, index, lengths, count, interval, row)->Ok_0;
        let there = run_at(context, index, lengths, count, interval, other)->Ok_0;
        if here.0 + 1 <= there.0 {
            lemma_rows_before(list, here.0 + 1, there.0);
        }
        if there.0 + 1 <= here.0 {
            lemma_rows_before(list, there.0 + 1, here.0);
        }
        if here.2 == other && here.0 + 2 <= there.0 {
            lemma_rows_before(list, here.0 + 2, there.0);
            lemma_run_length(values, values.len() as int, here.0 + 1);
        }
    }
}

// ----- exceptions -----

/// A scan of a block of positions finds the one that equals the target, if any
/// does.
proof fn lemma_scan(
    context: Context,
    positions: FieldId,
    patched: Seq<bool>,
    from: int,
    to: int,
    row: int,
)
    requires
        stores(context, positions, u32s_bytes(position_values(patched))),
        patched.len() <= u32::MAX,
        0 <= from,
        to <= all_positions(patched).len(),
    ensures
        match scan_outcome(context, positions, from, to, row).result {
            Ok(Some(k)) => from <= k < to && all_positions(patched)[k] == row,
            Ok(None) => forall|k: int|
                from <= k < to ==> #[trigger] all_positions(patched)[k] != row,
            Err(_) => false,
        },
    decreases to - from,
{
    let places = all_positions(patched);
    lemma_positions(patched, patched.len() as int);
    if from < to {
        lemma_read_u32(context, positions, position_values(patched), from);
        assert(0 <= places[from] < patched.len());
        assert(position_values(patched)[from] == places[from]);
        if places[from] < row {
            lemma_scan(context, positions, patched, from + 1, to, row);
        } else if places[from] > row {
            assert forall|k: int| from <= k < to implies #[trigger] places[k] != row by {
                if from < k {
                    assert(places[from] < places[k]);
                }
            }
        }
    }
}

/// The position index leads to the exception of a row, if it has one.
#[verifier::rlimit(40)]
#[verifier::spinoff_prover]
pub proof fn lemma_find(
    context: Context,
    index: FieldId,
    positions: FieldId,
    patched: Seq<bool>,
    interval: int,
    row: int,
)
    requires
        stores(context, positions, u32s_bytes(position_values(patched))),
        stores(context, index, u32s_bytes(position_index(patched, interval))),
        patched.len() <= u32::MAX,
        patched.len() <= usize::MAX,
        0 < interval,
        0 <= row < patched.len(),
    ensures
        match find_outcome(
            context,
            index,
            positions,
            all_positions(patched).len() as int,
            interval,
            row,
        ).result {
            Ok(Some(k)) => 0 <= k < all_positions(patched).len() && all_positions(patched)[k]
                == row && patched[row],
            Ok(None) => !patched[row],
            Err(_) => false,
        },
{
    let places = all_positions(patched);
    let count = places.len() as int;
    lemma_positions(patched, patched.len() as int);
    if count == 0 {
        if patched[row] {
            assert(places.contains(row));
        }
    } else {
        let groups = ceil_div(count, interval);
        let pairs = position_index(patched, interval);
        lemma_ceil(count, interval);
        lemma_ceil_floor(count, interval);
        lemma_floor(count - 1, interval);
        lemma_search(context, index, pairs, 0, groups, row);
        let e = search_outcome(context, index, 0, groups, row).result->Ok_0;
        assert((2 * e) / 2 == e && (2 * e) % 2 == 0);
        assert((2 * e + 1) / 2 == e && (2 * e + 1) % 2 == 1);
        if e == groups {
            assert(pairs[2 * e] == patched.len());
            assert(false);
        }
        let from = e * interval;
        lemma_scale(0, e, interval);
        lemma_scale(e, groups - 1, interval);
        lemma_scale_next(groups - 1, interval);
        lemma_scale_next(e, interval);
        assert(0 <= from < count);
        assert(0 <= places[from] < patched.len());
        assert(pairs[2 * e] == places[from]);
        assert(pairs[2 * e + 1] == from);
        lemma_read_u32(context, index, pairs, e * 2 + 1);
        let to = if from + interval < count {
            from + interval
        } else {
            count
        };
        lemma_scan(context, positions, patched, from, to, row);
        if patched[row] {
            assert(places.contains(row));
            let k = choose|k: int| 0 <= k < count && places[k] == row;
            if k < from {
                assert(places[k] < places[from]);
                assert(e == 0);
                assert(from == 0) by (nonlinear_arith)
                    requires
                        from == e * interval,
                        e == 0,
                ;
            }
            if k >= to {
                let next = e + 1;
                assert((2 * next) / 2 == next && (2 * next) % 2 == 0);
                assert(to == from + interval && to == next * interval);
                if next < groups {
                    assert(pairs[2 * next] == places[to]);
                    if to < k {
                        assert(places[to] < places[k]);
                    }
                    assert(false);
                } else {
                    assert(next == groups);
                    assert(false);
                }
            }
            assert(from <= k < to);
        }
    }
}

/// Going on from an exception leads to the first that is not before a row.
proof fn lemma_skip(
    context: Context,
    positions: FieldId,
    patched: Seq<bool>,
    from: int,
    row: int,
)
    requires
        stores(context, positions, u32s_bytes(position_values(patched))),
        patched.len() <= u32::MAX,
        0 <= from <= all_positions(patched).len(),
        forall|k: int| 0 <= k < from ==> #[trigger] all_positions(patched)[k] < row,
    ensures
        skip_outcome(
            context,
            positions,
            from,
            all_positions(patched).len() as int,
            row,
        ).result matches Ok(at) && {
            &&& 0 <= at <= all_positions(patched).len()
            &&& forall|k: int|
                0 <= k < all_positions(patched).len() ==> (#[trigger] all_positions(patched)[k] < row)
                    == (k < at)
        },
    decreases all_positions(patched).len() - from,
{
    let places = all_positions(patched);
    lemma_positions(patched, patched.len() as int);
    if from < places.len() {
        lemma_read_u32(context, positions, position_values(patched), from);
        assert(0 <= places[from] < patched.len());
        assert(position_values(patched)[from] == places[from]);
        if places[from] < row {
            lemma_skip(context, positions, patched, from + 1, row);
        } else {
            assert forall|k: int| 0 <= k < places.len() implies (#[trigger] places[k] < row) == (k
                < from) by {
                if from < k {
                    assert(places[from] < places[k]);
                }
            }
        }
    }
}

/// The position index leads to the first exception that is not before a row.
#[verifier::spinoff_prover]
#[verifier::rlimit(80)]
pub proof fn lemma_lower_bound(
    context: Context,
    index: FieldId,
    positions: FieldId,
    patched: Seq<bool>,
    interval: int,
    row: int,
)
    requires
        stores(context, positions, u32s_bytes(position_values(patched))),
        stores(context, index, u32s_bytes(position_index(patched, interval))),
        patched.len() <= u32::MAX,
        patched.len() <= usize::MAX,
        0 < interval,
        0 <= row <= patched.len(),
    ensures
        lower_bound_outcome(
            context,
            index,
            positions,
            all_positions(patched).len() as int,
            interval,
            row,
        ).result matches Ok(at) && {
            &&& 0 <= at <= all_positions(patched).len()
            &&& forall|k: int|
                0 <= k < all_positions(patched).len() ==> (#[trigger] all_positions(patched)[k] < row)
                    == (k < at)
        },
{
    let places = all_positions(patched);
    let count = places.len() as int;
    lemma_positions(patched, patched.len() as int);
    if count > 0 {
        let groups = ceil_div(count, interval);
        let pairs = position_index(patched, interval);
        lemma_ceil(count, interval);
        lemma_ceil_floor(count, interval);
        lemma_floor(count - 1, interval);
        lemma_search(context, index, pairs, 0, groups, row);
        let e = search_outcome(context, index, 0, groups, row).result->Ok_0;
        assert((2 * e) / 2 == e && (2 * e) % 2 == 0);
        assert((2 * e + 1) / 2 == e && (2 * e + 1) % 2 == 1);
        lemma_read_u32(context, index, pairs, e * 2 + 1);
        let from = if e == groups {
            count
        } else {
            e * interval
        };
        if e < groups {
            lemma_scale(0, e, interval);
            lemma_scale(e, groups - 1, interval);
            lemma_scale_next(groups - 1, interval);
            assert(0 <= from < count);
            assert(0 <= places[from] < patched.len());
            assert(pairs[2 * e] == places[from]);
        }
        assert(pairs[2 * e + 1] == from);
        assert forall|k: int| 0 <= k < from implies #[trigger] places[k] < row by {
            if e == groups {
                assert(pairs[2 * e] == patched.len());
            } else if e > 0 {
                assert(places[k] < places[from]);
            } else {
                assert(from == 0) by (nonlinear_arith)
                    requires
                        from == e * interval,
                        e == 0,
                ;
            }
        }
        lemma_skip(context, positions, patched, from, row);
    }
}

/// The exceptions of a column are in order.
#[verifier::rlimit(40)]
pub proof fn lemma_exceptions_in_order(
    context: Context,
    index: FieldId,
    positions: FieldId,
    exceptions: FieldId,
    values: Seq<int>,
    patched: Seq<bool>,
    interval: int,
)
    requires
        stores(context, positions, u32s_bytes(position_values(patched))),
        stores(context, index, u32s_bytes(position_index(patched, interval))),
        stores(context, exceptions, i64s_bytes(exception_values(values, patched))),
        patched.len() == values.len(),
        patched.len() <= u32::MAX,
        patched.len() <= usize::MAX,
        0 < interval,
    ensures
        exceptions_in_order(
            context,
            index,
            positions,
            exceptions,
            all_positions(patched).len() as int,
            interval,
            values.len() as int,
        ),
{
    let places = all_positions(patched);
    let count = places.len() as int;
    lemma_positions(patched, patched.len() as int);
    assert forall|i: int| 0 <= i < count implies (#[trigger] u32_outcome(
        context,
        positions,
        i,
    )).result == Ok::<u32, Error>(places[i] as u32) by {
        lemma_read_u32(context, positions, position_values(patched), i);
        assert(0 <= places[i] < patched.len());
    }
    assert forall|i: int| 0 <= i < count implies #[trigger] exception_row(context, positions, i)
        == places[i] by {
        assert(u32_outcome(context, positions, i).result is Ok);
        assert(0 <= places[i] < patched.len());
    }
    assert forall|i: int| 0 <= i < count implies (#[trigger] i64_outcome(
        context,
        exceptions,
        i,
    )).result is Ok by {
        lemma_read_i64(context, exceptions, exception_values(values, patched), i);
    }
    assert forall|row: int| 0 <= row < values.len() implies match (#[trigger] find_outcome(
        context,
        index,
        positions,
        count,
        interval,
        row,
    )).result {
        Ok(Some(k)) => 0 <= k < count && exception_row(context, positions, k) == row,
        Ok(None) => forall|i: int|
            0 <= i < count ==> #[trigger] exception_row(context, positions, i) != row,
        Err(_) => false,
    } by {
        lemma_find(context, index, positions, patched, interval, row);
    }
    assert forall|row: int| 0 <= row <= values.len() implies ((#[trigger] lower_bound_outcome(
        context,
        index,
        positions,
        count,
        interval,
        row,
    )).result matches Ok(at) && {
        &&& 0 <= at <= count
        &&& forall|i: int|
            0 <= i < count ==> (#[trigger] exception_row(context, positions, i) < row) == (i < at)
    }) by {
        lemma_lower_bound(context, index, positions, patched, interval, row);
        let at = lower_bound_outcome(
            context,
            index,
            positions,
            count,
            interval,
            row,
        ).result->Ok_0;
        assert forall|i: int| 0 <= i < count implies (#[trigger] exception_row(
            context,
            positions,
            i,
        ) < row) == (i < at) by {
            assert((places[i] < row) == (i < at));
        }
    }
}

// ----- nulls -----

/// Bit `k` of byte `i` of the validity tells whether row `8 * i + k` has a value.
proof fn lemma_validity_bit(values: Seq<Option<int>>, row: int)
    requires
        0 <= row < 8 * validity_bytes(values).len(),
    ensures
        byte_bit(validity_bytes(values)[row / 8], row % 8) == (row < values.len()
            && values[row] is Some),
{
    let i = row / 8;
    let bits = |k: int| 8 * i + k < values.len() && values[8 * i + k] is Some;
    lemma_byte_of(bits, row % 8);
    assert(8 * i + row % 8 == row);
}

/// The set bits below `limit` of byte `i` are the values from its first row on.
proof fn lemma_ones(values: Seq<Option<int>>, i: int, limit: int)
    requires
        0 <= i < validity_bytes(values).len(),
        0 <= limit <= 8,
        8 * i + limit <= values.len(),
    ensures
        compact(values, 8 * i).len() + ones_below(validity_bytes(values)[i], limit) == compact(
            values,
            8 * i + limit,
        ).len(),
    decreases limit,
{
    if limit > 0 {
        lemma_ones(values, i, limit - 1);
        let row = 8 * i + limit - 1;
        lemma_validity_bit(values, row);
        assert(row / 8 == i && row % 8 == limit - 1);
    }
}

/// Counting whole bytes adds the values in them.
proof fn lemma_ones_between(
    context: Context,
    validity: FieldId,
    values: Seq<Option<int>>,
    from: int,
    to: int,
)
    requires
        stores(context, validity, validity_bytes(values)),
        0 <= from <= to,
        8 * to <= values.len(),
        values.len() <= usize::MAX,
    ensures
        ones_outcome(
            context,
            validity,
            from,
            to,
            compact(values, 8 * from).len() as int,
        ).result == Ok::<int, Error>(compact(values, 8 * to).len() as int),
    decreases to - from,
{
    if from < to {
        lemma_ceil(values.len() as int, 8);
        lemma_read_u8(context, validity, validity_bytes(values), from);
        lemma_ones(values, from, 8);
        lemma_compact_bound(values, 8 * (from + 1));
        lemma_ones_between(context, validity, values, from + 1, to);
    }
}

proof fn lemma_compact_bound(values: Seq<Option<int>>, n: int)
    requires
        0 <= n,
    ensures
        compact(values, n).len() <= n,
    decreases n,
{
    if n > 0 {
        lemma_compact_bound(values, n - 1);
    }
}

/// The rank of a row is the number of values before it.
#[verifier::rlimit(40)]
pub proof fn lemma_rank(
    context: Context,
    validity: FieldId,
    ranks: FieldId,
    values: Seq<Option<int>>,
    interval: int,
    row: int,
)
    requires
        stores(context, validity, validity_bytes(values)),
        stores(context, ranks, u32s_bytes(rank_values(values, interval))),
        interval > 0,
        interval % 8 == 0,
        0 <= row < values.len(),
        values.len() <= usize::MAX,
        compact(values, values.len() as int).len() <= u32::MAX,
    ensures
        rank_outcome(context, validity, ranks, row, interval).result == Ok::<Option<int>, Error>(
            if values[row] is Some {
                Some(compact(values, row).len() as int)
            } else {
                None
            },
        ),
{
    let bytes = validity_bytes(values);
    let block = row / interval;
    let first = block * interval;
    lemma_ceil(values.len() as int, 8);
    lemma_floor(row, interval);
    lemma_read_u8(context, validity, bytes, row / 8);
    lemma_validity_bit(values, row);
    if values[row] is Some {
        let list = rank_values(values, interval);
        lemma_ceil(values.len() as int, interval);
        lemma_ceil_floor(values.len() as int, interval);
        vstd::arithmetic::div_mod::lemma_div_is_ordered(row, values.len() - 1, interval);
        lemma_read_u32(context, ranks, list, block);
        lemma_compact_grows(values, first, values.len() as int);
        assert(list[block] == compact(values, first).len());
        assert(first % 8 == 0) by {
            let e = interval / 8;
            assert(first == (block * e) * 8) by (nonlinear_arith)
                requires
                    first == block * interval,
                    interval == 8 * e,
            ;
        }
        let from = first / 8;
        assert(8 * from == first);
        lemma_ones_between(context, validity, values, from, row / 8);
        lemma_ones(values, row / 8, row % 8);
        lemma_compact_bound(values, row);
        assert(8 * (row / 8) + row % 8 == row);
    }
}

proof fn lemma_compact_grows(values: Seq<Option<int>>, m: int, n: int)
    requires
        0 <= m <= n,
    ensures
        compact(values, m).len() <= compact(values, n).len(),
    decreases n,
{
    if m < n {
        lemma_compact_grows(values, m, n - 1);
    }
}

/// A value stands at its rank among the values.
pub proof fn lemma_compact_at(values: Seq<Option<int>>, row: int, n: int)
    requires
        0 <= row < n <= values.len(),
        values[row] is Some,
    ensures
        compact(values, row).len() < compact(values, n).len(),
        compact(values, n)[compact(values, row).len() as int] == values[row]->0,
    decreases n,
{
    if row < n - 1 {
        lemma_compact_at(values, row, n - 1);
    }
}

/// The number of values before a row is found from the rank of its block.
#[verifier::rlimit(40)]
pub proof fn lemma_prefix_rank(
    context: Context,
    validity: FieldId,
    ranks: FieldId,
    values: Seq<Option<int>>,
    interval: int,
    row: int,
)
    requires
        stores(context, validity, validity_bytes(values)),
        stores(context, ranks, u32s_bytes(rank_values(values, interval))),
        interval > 0,
        interval % 8 == 0,
        0 <= row <= values.len(),
        values.len() <= usize::MAX,
        compact(values, values.len() as int).len() <= u32::MAX,
    ensures
        prefix_rank_outcome(context, validity, ranks, row, interval).result == Ok::<int, Error>(
            compact(values, row).len() as int,
        ),
{
    let bytes = validity_bytes(values);
    let block = row / interval;
    let first = block * interval;
    let list = rank_values(values, interval);
    lemma_ceil(values.len() as int, 8);
    lemma_floor(row, interval);
    lemma_ceil(values.len() as int, interval);
    assert(block <= ceil_div(values.len() as int, interval)) by {
        if block > ceil_div(values.len() as int, interval) {
            lemma_scale(ceil_div(values.len() as int, interval) + 1, block, interval);
            lemma_scale_next(ceil_div(values.len() as int, interval), interval);
        }
    }
    lemma_read_u32(context, ranks, list, block);
    lemma_compact_grows(values, first, values.len() as int);
    assert(list[block] == compact(values, first).len());
    assert(first % 8 == 0) by {
        let e = interval / 8;
        assert(first == (block * e) * 8) by (nonlinear_arith)
            requires
                first == block * interval,
                interval == 8 * e,
        ;
    }
    let from = first / 8;
    assert(8 * from == first);
    assert(8 * (row / 8) + row % 8 == row);
    lemma_ones_between(context, validity, values, from, row / 8);
    lemma_compact_bound(values, row);
    if row % 8 != 0 {
        lemma_read_u8(context, validity, bytes, row / 8);
        lemma_ones(values, row / 8, row % 8);
    }
}

proof fn lemma_present_compact(
    context: Context,
    validity: FieldId,
    values: Seq<Option<int>>,
    n: int,
)
    requires
        0 <= n <= values.len(),
        forall|row: int|
            0 <= row < values.len() ==> #[trigger] present_at(context, validity, row) == (
            values[row] is Some),
    ensures
        present_before(context, validity, n) == compact(values, n).len(),
    decreases n,
{
    if n > 0 {
        lemma_present_compact(context, validity, values, n - 1);
        assert(present_at(context, validity, n - 1) == (values[n - 1] is Some));
    }
}

/// The ranks of a column are in order.
#[verifier::rlimit(40)]
pub proof fn lemma_ranks_in_order(
    context: Context,
    validity: FieldId,
    ranks: FieldId,
    values: Seq<Option<int>>,
    interval: int,
)
    requires
        stores(context, validity, validity_bytes(values)),
        stores(context, ranks, u32s_bytes(rank_values(values, interval))),
        interval > 0,
        interval % 8 == 0,
        values.len() <= usize::MAX,
        compact(values, values.len() as int).len() <= u32::MAX,
    ensures
        2 * values.len() <= usize::MAX ==> ranks_in_order(
            context,
            validity,
            ranks,
            interval,
            values.len() as int,
        ),
        present_before(context, validity, values.len() as int) == compact(
            values,
            values.len() as int,
        ).len(),
{
    let rows = values.len() as int;
    lemma_ceil(rows, 8);
    assert forall|row: int| 0 <= row < rows implies (#[trigger] valid_outcome(
        context,
        validity,
        row,
    )).result == Ok::<bool, Error>(values[row] is Some) by {
        lemma_read_u8(context, validity, validity_bytes(values), row / 8);
        lemma_validity_bit(values, row);
    }
    assert forall|row: int| 0 <= row < rows implies #[trigger] present_at(context, validity, row)
        == (values[row] is Some) by {
        assert(valid_outcome(context, validity, row).result is Ok);
    }
    lemma_present_compact(context, validity, values, rows);
    assert forall|row: int| 0 <= row < rows implies (#[trigger] rank_outcome(
        context,
        validity,
        ranks,
        row,
        interval,
    )).result == Ok::<Option<int>, Error>(
        if present_at(context, validity, row) {
            Some(present_before(context, validity, row))
        } else {
            None
        },
    ) by {
        lemma_rank(context, validity, ranks, values, interval, row);
        lemma_present_compact(context, validity, values, row);
    }
    assert forall|row: int| 0 <= row <= rows implies (#[trigger] prefix_rank_outcome(
        context,
        validity,
        ranks,
        row,
        interval,
    )).result == Ok::<int, Error>(present_before(context, validity, row)) by {
        lemma_prefix_rank(context, validity, ranks, values, interval, row);
        lemma_present_compact(context, validity, values, row);
    }
}

// ----- packed numbers -----

/// A bit of a packed number lies in the stream.
proof fn lemma_stream_at(values: Seq<int>, width: int, row: int, j: int)
    requires
        0 < width <= 64,
        0 <= row < values.len(),
        0 <= j < width,
    ensures
        ({
            let size = miniblock_size(width as nat);
            let p = 8 * (row / MINIBLOCK_ROWS as int * size) + row % MINIBLOCK_ROWS as int * width
                + j;
            &&& 0 <= p
            &&& p / 8 < stream_len(values.len() as int, width as nat)
            &&& bit_at(stream_bytes(values, width as nat), p) == number_bit(
                values[row] as nat,
                j as nat,
            )
        }),
{
    let rows = MINIBLOCK_ROWS as int;
    let size = miniblock_size(width as nat);
    let block = row / rows;
    let place = row % rows;
    let q = place * width + j;
    let p = 8 * (block * size) + q;
    let blocks = ceil_div(values.len() as int, rows);
    assert(place * width + width <= 128 * width) by (nonlinear_arith)
        requires
            0 <= place < 128,
            width > 0,
    ;
    assert(0 <= place * width) by (nonlinear_arith)
        requires
            0 <= place,
            width > 0,
    ;
    assert(0 <= q < 8 * size);
    lemma_ceil(values.len() as int, rows);
    lemma_ceil_floor(values.len() as int, rows);
    assert(block < blocks);
    lemma_scale(block + 1, blocks, size);
    lemma_scale_next(block, size);
    lemma_scale(0, block, size);
    let bytes = stream_bytes(values, width as nat);
    assert(bytes.len() == blocks * size);
    let i = p / 8;
    let k = p % 8;
    let bits = |k: int| stream_bit(values, width, 8 * i + k);
    lemma_byte_of(bits, k);
    assert(8 * i + k == p);
    assert(bytes[i] == stream_byte(values, width, i));
    assert(p == block * (8 * size) + q) by (nonlinear_arith)
        requires
            p == 8 * (block * size) + q,
    ;
    vstd::arithmetic::div_mod::lemma_fundamental_div_mod_converse(p, 8 * size, block, q);
    vstd::arithmetic::div_mod::lemma_fundamental_div_mod_converse(q, width, place, j);
    assert(block * rows + place == row);
}

/// A packed number is read back.
pub proof fn lemma_unpacked(context: Context, stream: FieldId, values: Seq<int>, width: int, row: int)
    requires
        stores(context, stream, stream_bytes(values, width as nat)),
        0 <= width <= 64,
        0 <= row < values.len(),
        0 <= values[row] <= u64::MAX,
        values[row] < vstd::arithmetic::power2::pow2(width as nat),
    ensures
        bits_outcome(
            context,
            stream,
            row,
            width,
            MINIBLOCK_ROWS as int,
            miniblock_size(width as nat),
        ).result == Ok::<u64, Error>(values[row] as u64),
{
    let rows = MINIBLOCK_ROWS as int;
    let size = miniblock_size(width as nat);
    if width == 0 {
        vstd::arithmetic::power2::lemma2_to64();
    } else {
        reveal(packed_byte);
        reveal(packed_bit);
        let bytes = stream_bytes(values, width as nat);
        let block = row / rows;
        let place = row % rows;
        let first = 8 * (block * size) + place * width;
        let start = packed_byte(row, width, rows, size);
        let bit = packed_bit(row, width, rows);
        let end = packed_end(row, width, rows, size);
        assert(0 <= place * width <= 128 * width) by (nonlinear_arith)
            requires
                0 <= place < 128,
                width > 0,
        ;
        lemma_scale(0, block, size);
        lemma_stream_at(values, width, row, width - 1);
        lemma_stream_at(values, width, row, 0);
        assert(start == first / 8 && bit == first % 8);
        lemma_ceil(bit + width, 8);
        assert(end <= bytes.len());
        assert(packed_error(row, width, rows, size) is None);
        let part = bytes.subrange(start, end);
        assert(read_bytes(context, stream, start, end) == Ok::<Seq<u8>, Error>(part));
        assert forall|j: int| 0 <= j < width implies #[trigger] bit_at(bytes, first + j)
            == number_bit(values[row] as nat, j as nat) by {
            lemma_stream_at(values, width, row, j);
        }
        lemma_bits_of_number(bytes, first, width as nat, values[row] as nat);
        assert forall|i: int| bit / 8 <= i && 8 * i < bit + width implies #[trigger] part[i]
            == bytes[i - bit / 8 + first / 8] by {}
        lemma_bits_same(part, bytes, bit, first, width as nat);
    }
}

} // verus!
