//! Finding rows through run, position and rank indexes.
use super::bytes::{count_below, test_bit};
#[allow(unused_imports)]
use super::bytes::{byte_bit, ones_below};
use super::error::Error;
use super::format::SerializedPage;
use super::ids::FieldId;
#[allow(unused_imports)]
use super::layout::lemma_floor;
use super::runtime::ReadSession;
#[allow(unused_imports)]
use super::runtime::{
    ceil_div, chain, failed, given, lemma_ceil_floor, range_outcome, u32_outcome, u8_outcome, Context,
    Event, Outcome,
};
use super::span::Span;
#[allow(unused_imports)]
use super::span::{canonical, covers};
use vstd::prelude::*;

verus! {

/// Reading the whole header.
pub open spec fn metadata_outcome(context: Context) -> Outcome<()> {
    let field = context.layout.fields[context.layout.metadata.0 as int];
    chain(
        range_outcome(context, field.id, 0, field.length as int),
        |bytes: Seq<u8>| given(()),
    )
}

/// Reads the whole header.
pub fn load_metadata(page: &SerializedPage, session: &mut ReadSession<'_>) -> (r: Result<(), Error>)
    requires
        old(session).wf(),
        page.wf(),
        page.plan() == old(session).context().layout,
    ensures
        final(session).follows(*old(session), metadata_outcome(old(session).context()).trace),
        r == metadata_outcome(old(session).context()).result,
{
    proof {
        page.lemma_wf();
    }
    let ghost context = session.context();
    let layout = page.layout();
    let metadata = &layout.fields[layout.metadata.0];
    assert(metadata@ == context.layout.fields[context.layout.metadata.0 as int]);
    let ghost reading = range_outcome(context, metadata.id, 0, metadata.length as int).trace;
    assert(reading + Seq::<Event>::empty() =~= reading);
    match session.read_range(metadata.id, Span { start: 0, end: metadata.length }) {
        Ok(_) => Ok(()),
        Err(e) => Err(e),
    }
}

// ----- searching an index of pairs -----

/// The last of the entries `low..=top` whose first half is at most the target, if
/// that of `low` is and the halves do not decrease.
pub open spec fn search_outcome(
    context: Context,
    index: FieldId,
    low: int,
    top: int,
    target: int,
) -> Outcome<int>
    decreases top - low,
{
    if low >= top {
        given(low)
    } else {
        let mid = low + (top + 1 - low) / 2;
        chain(
            u32_outcome(context, index, mid * 2),
            |first: u32|
                if first <= target {
                    search_outcome(context, index, mid, top, target)
                } else {
                    search_outcome(context, index, low, mid - 1, target)
                },
        )
    }
}

/// Finds the entry of an index of pairs for a target.
fn search(session: &mut ReadSession<'_>, index: FieldId, entries: usize, target: usize) -> (r: Result<
    usize,
    Error,
>)
    requires
        old(session).wf(),
    ensures
        final(session).follows(
            *old(session),
            search_outcome(
                old(session).context(),
                index,
                0,
                entries as int,
                target as int,
            ).trace,
        ),
        match search_outcome(old(session).context(), index, 0, entries as int, target as int).result {
            Ok(entry) => r matches Ok(found) && found == entry && found <= entries,
            Err(e) => r matches Err(found) && found == e,
        },
{
    let ghost context = session.context();
    let ghost start = *session;
    let ghost whole = search_outcome(context, index, 0, entries as int, target as int);
    let ghost mut done: Seq<Event> = Seq::empty();
    proof {
        session.lemma_still();
    }
    let mut low: usize = 0;
    let mut top: usize = entries;
    assert(done + whole.trace =~= whole.trace);
    while low < top
        invariant
            low <= top <= entries,
            context == start.context(),
            start == *old(session),
            whole == search_outcome(context, index, 0, entries as int, target as int),
            session.follows(start, done),
            whole.trace == done + search_outcome(
                context,
                index,
                low as int,
                top as int,
                target as int,
            ).trace,
            whole.result == search_outcome(
                context,
                index,
                low as int,
                top as int,
                target as int,
            ).result,
        decreases top - low,
    {
        let gap: usize = top - low;
        let mid: usize = low + gap / 2 + gap % 2;
        assert(mid == low + (top + 1 - low) / 2);
        let ghost before = *session;
        let ghost rest = search_outcome(context, index, low as int, top as int, target as int);
        let read = session.read_pair(index, mid, 0);
        let ghost step = u32_outcome(context, index, mid * 2);
        proof {
            session.lemma_join(before, start, done, step.trace);
        }
        match read {
            Ok(first) => {
                let ghost done_before = done;
                proof {
                    done = done + step.trace;
                }
                if first as usize <= target {
                    low = mid;
                } else {
                    top = mid - 1;
                }
                proof {
                    let next = search_outcome(
                        context,
                        index,
                        low as int,
                        top as int,
                        target as int,
                    );
                    assert(rest.trace == step.trace + next.trace);
                    assert(done_before + (step.trace + next.trace) =~= done + next.trace);
                }
            },
            Err(e) => {
                assert(rest.trace == step.trace);
                return Err(e);
            },
        }
    }
    proof {
        assert(done + Seq::<Event>::empty() =~= done);
    }
    Ok(low)
}

/// From a run and the row at which it starts, the run that holds the target row,
/// with its first row and the row after its last.
pub open spec fn walk_outcome(
    context: Context,
    lengths: FieldId,
    runs: int,
    run: int,
    row_start: int,
    target: int,
) -> Outcome<(int, int, int)>
    decreases runs - run,
{
    if run >= runs {
        failed(Error::RleNotCovered)
    } else {
        chain(
            u32_outcome(context, lengths, run),
            |length: u32|
                if row_start + length > usize::MAX {
                    failed(Error::RleRowOverflow)
                } else if target < row_start + length {
                    given((run, row_start, row_start + length))
                } else {
                    walk_outcome(context, lengths, runs, run + 1, row_start + length, target)
                },
        )
    }
}

/// The run that holds a row, found through the run index.
pub open spec fn locate_outcome(
    context: Context,
    index: FieldId,
    lengths: FieldId,
    runs: int,
    interval: int,
    target: int,
) -> Outcome<(int, int, int)> {
    chain(
        search_outcome(context, index, 0, ceil_div(runs, interval), target),
        |entry: int|
            chain(
                u32_outcome(context, index, entry * 2),
                |row: u32|
                    chain(
                        u32_outcome(context, index, entry * 2 + 1),
                        |run: u32|
                            walk_outcome(context, lengths, runs, run as int, row as int, target),
                    ),
            ),
    )
}

/// The number of groups of `interval`, the last of which may be short.
fn group_count(count: usize, interval: usize) -> (r: usize)
    requires
        interval > 0,
    ensures
        r == ceil_div(count as int, interval as int),
{
    if count == 0 {
        proof {
            vstd::arithmetic::div_mod::lemma_basic_div(interval - 1, interval as int);
        }
        0
    } else {
        proof {
            lemma_ceil_floor(count as int, interval as int);
            lemma_floor(count - 1, interval as int);
            vstd::arithmetic::div_mod::lemma_div_is_ordered_by_denominator(
                count - 1,
                1,
                interval as int,
            );
        }
        (count - 1) / interval + 1
    }
}

/// Finds the run that holds a row: its number, its first row, and the row after
/// its last.
pub fn locate_indexed(
    session: &mut ReadSession<'_>,
    index_field: FieldId,
    lengths_field: FieldId,
    runs: usize,
    interval: usize,
    target_row: usize,
) -> (r: Result<(usize, usize, usize), Error>)
    requires
        old(session).wf(),
        interval > 0,
    ensures
        final(session).follows(
            *old(session),
            locate_outcome(
                old(session).context(),
                index_field,
                lengths_field,
                runs as int,
                interval as int,
                target_row as int,
            ).trace,
        ),
        match locate_outcome(
            old(session).context(),
            index_field,
            lengths_field,
            runs as int,
            interval as int,
            target_row as int,
        ).result {
            Ok(place) => r matches Ok(found) && found.0 == place.0 && found.1 == place.1 && found.2
                == place.2,
            Err(e) => r matches Err(found) && found == e,
        },
{
    let ghost context = session.context();
    let ghost start = *session;
    let groups: usize = group_count(runs, interval);
    let ghost searching = search_outcome(
        context,
        index_field,
        0,
        groups as int,
        target_row as int,
    );
    let entry: usize = match search(session, index_field, groups, target_row) {
        Ok(entry) => entry,
        Err(e) => {
            return Err(e);
        },
    };
    let ghost s1 = *session;
    let ghost t1 = searching.trace;
    let ghost o2 = u32_outcome(context, index_field, entry * 2);
    let read = session.read_pair(index_field, entry, 0);
    let ghost s2 = *session;
    proof {
        s2.lemma_join(s1, start, t1, o2.trace);
    }
    let mut row_start: usize = match read {
        Ok(row) => row as usize,
        Err(e) => {
            return Err(e);
        },
    };
    let ghost t2 = t1 + o2.trace;
    let ghost o3 = u32_outcome(context, index_field, entry * 2 + 1);
    let read = session.read_pair(index_field, entry, 1);
    let ghost s3 = *session;
    proof {
        s3.lemma_join(s2, start, t2, o3.trace);
        assert(t1 + (o2.trace + o3.trace) =~= t2 + o3.trace);
    }
    let mut run: usize = match read {
        Ok(run) => run as usize,
        Err(e) => {
            return Err(e);
        },
    };
    let ghost walking = walk_outcome(
        context,
        lengths_field,
        runs as int,
        run as int,
        row_start as int,
        target_row as int,
    );
    let ghost whole = t2 + o3.trace + walking.trace;
    assert(t1 + (o2.trace + (o3.trace + walking.trace)) =~= whole);
    let ghost mut done = t2 + o3.trace;
    while run < runs
        invariant
            context == start.context(),
            session.follows(start, done),
            whole == done + walk_outcome(
                context,
                lengths_field,
                runs as int,
                run as int,
                row_start as int,
                target_row as int,
            ).trace,
            walking.result == walk_outcome(
                context,
                lengths_field,
                runs as int,
                run as int,
                row_start as int,
                target_row as int,
            ).result,
            locate_outcome(
                old(session).context(),
                index_field,
                lengths_field,
                runs as int,
                interval as int,
                target_row as int,
            ).trace == whole,
            locate_outcome(
                old(session).context(),
                index_field,
                lengths_field,
                runs as int,
                interval as int,
                target_row as int,
            ).result == walking.result,
            start == *old(session),
        decreases runs - run,
    {
        let ghost before = *session;
        let ghost rest = walk_outcome(
            context,
            lengths_field,
            runs as int,
            run as int,
            row_start as int,
            target_row as int,
        );
        let ghost step = u32_outcome(context, lengths_field, run as int);
        let read = session.read_u32(lengths_field, run);
        proof {
            session.lemma_join(before, start, done, step.trace);
            assert(step.trace + Seq::<Event>::empty() =~= step.trace);
        }
        let length: usize = match read {
            Ok(length) => length as usize,
            Err(e) => {
                return Err(e);
            },
        };
        let row_end: usize = match row_start.checked_add(length) {
            Some(row_end) => row_end,
            None => {
                return Err(Error::RleRowOverflow);
            },
        };
        if target_row < row_end {
            return Ok((run, row_start, row_end));
        }
        let ghost done_before = done;
        proof {
            done = done + step.trace;
            let next = walk_outcome(
                context,
                lengths_field,
                runs as int,
                run + 1,
                row_end as int,
                target_row as int,
            );
            assert(done_before + (step.trace + next.trace) =~= done + next.trace);
        }
        row_start = row_end;
        run = run + 1;
    }
    assert(done + Seq::<Event>::empty() =~= done);
    Err(Error::RleNotCovered)
}

// ----- positions of exceptions -----

/// Where among the exceptions `from..to` the target stands, if they ascend.
pub open spec fn scan_outcome(
    context: Context,
    positions: FieldId,
    from: int,
    to: int,
    target: int,
) -> Outcome<Option<int>>
    decreases to - from,
{
    if from >= to {
        given(None)
    } else {
        chain(
            u32_outcome(context, positions, from),
            |position: u32|
                if position < target {
                    scan_outcome(context, positions, from + 1, to, target)
                } else if position == target {
                    given(Some(from))
                } else {
                    given(None)
                },
        )
    }
}

/// The exception at a row, found through the position index.
pub open spec fn find_outcome(
    context: Context,
    index: FieldId,
    positions: FieldId,
    count: int,
    interval: int,
    target: int,
) -> Outcome<Option<int>> {
    if count == 0 {
        given(None)
    } else {
        chain(
            search_outcome(context, index, 0, ceil_div(count, interval), target),
            |entry: int|
                chain(
                    u32_outcome(context, index, entry * 2 + 1),
                    |from: u32|
                        scan_outcome(
                            context,
                            positions,
                            from as int,
                            if from + interval < count {
                                from + interval
                            } else {
                                count
                            },
                            target,
                        ),
                ),
        )
    }
}

/// Finds the exception at a row.
pub fn find_position(
    session: &mut ReadSession<'_>,
    index_field: FieldId,
    positions_field: FieldId,
    count: usize,
    interval: usize,
    target: usize,
) -> (r: Result<Option<usize>, Error>)
    requires
        old(session).wf(),
        interval > 0,
    ensures
        final(session).follows(
            *old(session),
            find_outcome(
                old(session).context(),
                index_field,
                positions_field,
                count as int,
                interval as int,
                target as int,
            ).trace,
        ),
        match find_outcome(
            old(session).context(),
            index_field,
            positions_field,
            count as int,
            interval as int,
            target as int,
        ).result {
            Ok(Some(exception)) => r matches Ok(Some(found)) && found == exception && found < count,
            Ok(None) => r matches Ok(None),
            Err(e) => r matches Err(found) && found == e,
        },
{
    let ghost context = session.context();
    let ghost start = *session;
    if count == 0 {
        proof {
            session.lemma_still();
        }
        return Ok(None);
    }
    let groups: usize = group_count(count, interval);
    let ghost t1 = search_outcome(context, index_field, 0, groups as int, target as int).trace;
    let entry: usize = match search(session, index_field, groups, target) {
        Ok(entry) => entry,
        Err(e) => {
            return Err(e);
        },
    };
    let ghost s1 = *session;
    let ghost o2 = u32_outcome(context, index_field, entry * 2 + 1);
    let read = session.read_pair(index_field, entry, 1);
    proof {
        session.lemma_join(s1, start, t1, o2.trace);
    }
    let from: usize = match read {
        Ok(from) => from as usize,
        Err(e) => {
            return Err(e);
        },
    };
    let to: usize = if from < count && interval < count - from {
        from + interval
    } else {
        count
    };
    let ghost scanning = scan_outcome(context, positions_field, from as int, to as int, target as int);
    let ghost whole = t1 + o2.trace + scanning.trace;
    let ghost wanted = find_outcome(
        context,
        index_field,
        positions_field,
        count as int,
        interval as int,
        target as int,
    );
    assert(t1 + (o2.trace + scanning.trace) =~= whole);
    proof {
        if from >= count {
            let end = if from + interval < count { from + interval } else { count as int };
            assert(scan_outcome(context, positions_field, from as int, end, target as int)
                == scanning);
        }
    }
    let ghost mut done = t1 + o2.trace;
    let mut exception: usize = from;
    while exception < to
        invariant
            context == start.context(),
            start == *old(session),
            session.follows(start, done),
            to <= count,
            wanted.trace == whole,
            wanted.result == scanning.result,
            wanted == find_outcome(
                old(session).context(),
                index_field,
                positions_field,
                count as int,
                interval as int,
                target as int,
            ),
            whole == done + scan_outcome(
                context,
                positions_field,
                exception as int,
                to as int,
                target as int,
            ).trace,
            scanning.result == scan_outcome(
                context,
                positions_field,
                exception as int,
                to as int,
                target as int,
            ).result,
        decreases to - exception,
    {
        let ghost before = *session;
        let ghost step = u32_outcome(context, positions_field, exception as int);
        let read = session.read_u32(positions_field, exception);
        proof {
            session.lemma_join(before, start, done, step.trace);
            assert(step.trace + Seq::<Event>::empty() =~= step.trace);
        }
        let position: usize = match read {
            Ok(position) => position as usize,
            Err(e) => {
                return Err(e);
            },
        };
        if position == target {
            return Ok(Some(exception));
        }
        if position > target {
            return Ok(None);
        }
        let ghost done_before = done;
        proof {
            done = done + step.trace;
            let next = scan_outcome(
                context,
                positions_field,
                exception + 1,
                to as int,
                target as int,
            );
            assert(done_before + (step.trace + next.trace) =~= done + next.trace);
        }
        exception = exception + 1;
    }
    assert(done + Seq::<Event>::empty() =~= done);
    Ok(None)
}

/// The first of the exceptions from `from` on that is not before the target.
pub open spec fn skip_outcome(
    context: Context,
    positions: FieldId,
    from: int,
    count: int,
    target: int,
) -> Outcome<int>
    decreases count - from,
{
    if from >= count {
        given(from)
    } else {
        chain(
            u32_outcome(context, positions, from),
            |position: u32|
                if position < target {
                    skip_outcome(context, positions, from + 1, count, target)
                } else {
                    given(from)
                },
        )
    }
}

/// The first exception that is not before a row, found through the index.
pub open spec fn lower_bound_outcome(
    context: Context,
    index: FieldId,
    positions: FieldId,
    count: int,
    interval: int,
    target: int,
) -> Outcome<int> {
    if count == 0 {
        given(0int)
    } else {
        chain(
            search_outcome(context, index, 0, ceil_div(count, interval), target),
            |entry: int|
                chain(
                    u32_outcome(context, index, entry * 2 + 1),
                    |from: u32| skip_outcome(context, positions, from as int, count, target),
                ),
        )
    }
}

/// Finds the first exception that is not before a row.
pub fn lower_bound_position(
    session: &mut ReadSession<'_>,
    index_field: FieldId,
    positions_field: FieldId,
    count: usize,
    interval: usize,
    target: usize,
) -> (r: Result<usize, Error>)
    requires
        old(session).wf(),
        interval > 0,
    ensures
        final(session).follows(
            *old(session),
            lower_bound_outcome(
                old(session).context(),
                index_field,
                positions_field,
                count as int,
                interval as int,
                target as int,
            ).trace,
        ),
        match lower_bound_outcome(
            old(session).context(),
            index_field,
            positions_field,
            count as int,
            interval as int,
            target as int,
        ).result {
            Ok(exception) => r matches Ok(found) && found == exception,
            Err(e) => r matches Err(found) && found == e,
        },
{
    let ghost context = session.context();
    let ghost start = *session;
    if count == 0 {
        proof {
            session.lemma_still();
        }
        return Ok(0);
    }
    let groups: usize = group_count(count, interval);
    let ghost t1 = search_outcome(context, index_field, 0, groups as int, target as int).trace;
    let entry: usize = match search(session, index_field, groups, target) {
        Ok(entry) => entry,
        Err(e) => {
            return Err(e);
        },
    };
    let ghost s1 = *session;
    let ghost o2 = u32_outcome(context, index_field, entry * 2 + 1);
    let read = session.read_pair(index_field, entry, 1);
    proof {
        session.lemma_join(s1, start, t1, o2.trace);
    }
    let mut exception: usize = match read {
        Ok(from) => from as usize,
        Err(e) => {
            return Err(e);
        },
    };
    let ghost skipping = skip_outcome(
        context,
        positions_field,
        exception as int,
        count as int,
        target as int,
    );
    let ghost whole = t1 + o2.trace + skipping.trace;
    let ghost wanted = lower_bound_outcome(
        context,
        index_field,
        positions_field,
        count as int,
        interval as int,
        target as int,
    );
    assert(t1 + (o2.trace + skipping.trace) =~= whole);
    let ghost mut done = t1 + o2.trace;
    while exception < count
        invariant
            context == start.context(),
            start == *old(session),
            session.follows(start, done),
            wanted.trace == whole,
            wanted.result == skipping.result,
            wanted == lower_bound_outcome(
                old(session).context(),
                index_field,
                positions_field,
                count as int,
                interval as int,
                target as int,
            ),
            whole == done + skip_outcome(
                context,
                positions_field,
                exception as int,
                count as int,
                target as int,
            ).trace,
            skipping.result == skip_outcome(
                context,
                positions_field,
                exception as int,
                count as int,
                target as int,
            ).result,
        decreases count - exception,
    {
        let ghost before = *session;
        let ghost step = u32_outcome(context, positions_field, exception as int);
        let read = session.read_u32(positions_field, exception);
        proof {
            session.lemma_join(before, start, done, step.trace);
            assert(step.trace + Seq::<Event>::empty() =~= step.trace);
        }
        let position: usize = match read {
            Ok(position) => position as usize,
            Err(e) => {
                return Err(e);
            },
        };
        if position >= target {
            return Ok(exception);
        }
        let ghost done_before = done;
        proof {
            done = done + step.trace;
            let next = skip_outcome(
                context,
                positions_field,
                exception + 1,
                count as int,
                target as int,
            );
            assert(done_before + (step.trace + next.trace) =~= done + next.trace);
        }
        exception = exception + 1;
    }
    assert(done + Seq::<Event>::empty() =~= done);
    Ok(exception)
}

// ----- ranks of rows that are not null -----

/// The rank plus the bits set in bytes `from..to` of the validity.
pub open spec fn ones_outcome(
    context: Context,
    validity: FieldId,
    from: int,
    to: int,
    rank: int,
) -> Outcome<int>
    decreases to - from,
{
    if from >= to {
        given(rank)
    } else {
        chain(
            u8_outcome(context, validity, from),
            |byte: u8|
                if rank + ones_below(byte, 8) > usize::MAX {
                    failed(Error::RankOverflow)
                } else {
                    ones_outcome(context, validity, from + 1, to, rank + ones_below(byte, 8))
                },
        )
    }
}

/// The rank stored for the block of a row plus the bits set from there to the
/// row's byte.
pub open spec fn block_rank_outcome(
    context: Context,
    validity: FieldId,
    rank_index: FieldId,
    row: int,
    interval: int,
) -> Outcome<int> {
    chain(
        u32_outcome(context, rank_index, row / interval),
        |rank: u32|
            ones_outcome(
                context,
                validity,
                row / interval * interval / 8,
                row / 8,
                rank as int,
            ),
    )
}

fn block_rank(
    session: &mut ReadSession<'_>,
    validity: FieldId,
    rank_index: FieldId,
    row: usize,
    rank_interval: usize,
) -> (r: Result<usize, Error>)
    requires
        old(session).wf(),
        rank_interval > 0,
    ensures
        final(session).follows(
            *old(session),
            block_rank_outcome(
                old(session).context(),
                validity,
                rank_index,
                row as int,
                rank_interval as int,
            ).trace,
        ),
        match block_rank_outcome(
            old(session).context(),
            validity,
            rank_index,
            row as int,
            rank_interval as int,
        ).result {
            Ok(rank) => r matches Ok(found) && found == rank,
            Err(e) => r matches Err(found) && found == e,
        },
{
    let ghost context = session.context();
    let ghost start = *session;
    proof {
        lemma_floor(row as int, rank_interval as int);
    }
    let block: usize = row / rank_interval;
    let block_start: usize = block * rank_interval;
    let ghost o1 = u32_outcome(context, rank_index, block as int);
    let mut rank: usize = match session.read_u32(rank_index, block) {
        Ok(rank) => rank as usize,
        Err(e) => {
            return Err(e);
        },
    };
    let ghost counting = ones_outcome(
        context,
        validity,
        block_start as int / 8,
        row as int / 8,
        rank as int,
    );
    let ghost whole = o1.trace + counting.trace;
    let ghost wanted = block_rank_outcome(
        context,
        validity,
        rank_index,
        row as int,
        rank_interval as int,
    );
    let ghost mut done = o1.trace;
    let mut at: usize = block_start / 8;
    let to: usize = row / 8;
    while at < to
        invariant
            context == start.context(),
            start == *old(session),
            session.follows(start, done),
            wanted.trace == whole,
            wanted.result == counting.result,
            wanted == block_rank_outcome(
                old(session).context(),
                validity,
                rank_index,
                row as int,
                rank_interval as int,
            ),
            whole == done + ones_outcome(
                context,
                validity,
                at as int,
                to as int,
                rank as int,
            ).trace,
            counting.result == ones_outcome(
                context,
                validity,
                at as int,
                to as int,
                rank as int,
            ).result,
        decreases to - at,
    {
        let ghost before = *session;
        let ghost step = u8_outcome(context, validity, at as int);
        let read = session.read_u8(validity, at);
        proof {
            session.lemma_join(before, start, done, step.trace);
            assert(step.trace + Seq::<Event>::empty() =~= step.trace);
        }
        let byte: u8 = match read {
            Ok(byte) => byte,
            Err(e) => {
                return Err(e);
            },
        };
        let more: usize = match rank.checked_add(count_below(byte, 8)) {
            Some(more) => more,
            None => {
                return Err(Error::RankOverflow);
            },
        };
        let ghost done_before = done;
        proof {
            done = done + step.trace;
            let next = ones_outcome(context, validity, at + 1, to as int, more as int);
            assert(done_before + (step.trace + next.trace) =~= done + next.trace);
        }
        rank = more;
        at = at + 1;
    }
    assert(done + Seq::<Event>::empty() =~= done);
    Ok(rank)
}

/// The rank plus the bits below a row's bit in its byte.
pub open spec fn rank_in_byte(rank: int, byte: u8, row: int) -> Result<int, Error> {
    if rank + ones_below(byte, row % 8) > usize::MAX {
        Err(Error::RankOverflow)
    } else {
        Ok(rank + ones_below(byte, row % 8))
    }
}

/// The rank of a row among those that are not null, or nothing if it is null.
pub open spec fn rank_outcome(
    context: Context,
    validity: FieldId,
    rank_index: FieldId,
    row: int,
    interval: int,
) -> Outcome<Option<int>> {
    chain(
        u8_outcome(context, validity, row / 8),
        |byte: u8|
            if !byte_bit(byte, row % 8) {
                given(None)
            } else {
                chain(
                    block_rank_outcome(context, validity, rank_index, row, interval),
                    |rank: int|
                        match rank_in_byte(rank, byte, row) {
                            Ok(rank) => given(Some(rank)),
                            Err(e) => failed(e),
                        },
                )
            },
    )
}

/// Finds the rank of a row among those that are not null.
pub fn nullable_rank(
    session: &mut ReadSession<'_>,
    validity: FieldId,
    rank_index: FieldId,
    row: usize,
    rank_interval: usize,
) -> (r: Result<Option<usize>, Error>)
    requires
        old(session).wf(),
        rank_interval > 0,
    ensures
        final(session).follows(
            *old(session),
            rank_outcome(
                old(session).context(),
                validity,
                rank_index,
                row as int,
                rank_interval as int,
            ).trace,
        ),
        match rank_outcome(
            old(session).context(),
            validity,
            rank_index,
            row as int,
            rank_interval as int,
        ).result {
            Ok(Some(rank)) => r matches Ok(Some(found)) && found == rank,
            Ok(None) => r matches Ok(None),
            Err(e) => r matches Err(found) && found == e,
        },
{
    let ghost context = session.context();
    let ghost start = *session;
    let ghost o1 = u8_outcome(context, validity, row as int / 8);
    assert(o1.trace + Seq::<Event>::empty() =~= o1.trace);
    let byte: u8 = match session.read_u8(validity, row / 8) {
        Ok(byte) => byte,
        Err(e) => {
            return Err(e);
        },
    };
    if !test_bit(byte, (row % 8) as u8) {
        return Ok(None);
    }
    let ghost s1 = *session;
    let ghost o2 = block_rank_outcome(
        context,
        validity,
        rank_index,
        row as int,
        rank_interval as int,
    );
    let read = block_rank(session, validity, rank_index, row, rank_interval);
    proof {
        session.lemma_join(s1, start, o1.trace, o2.trace);
        assert(o2.trace + Seq::<Event>::empty() =~= o2.trace);
    }
    match read {
        Ok(rank) => match rank.checked_add(count_below(byte, (row % 8) as u8)) {
            Some(rank) => Ok(Some(rank)),
            None => Err(Error::RankOverflow),
        },
        Err(e) => Err(e),
    }
}

/// The number of rows before a row that are not null.
pub open spec fn prefix_rank_outcome(
    context: Context,
    validity: FieldId,
    rank_index: FieldId,
    row: int,
    interval: int,
) -> Outcome<int> {
    chain(
        block_rank_outcome(context, validity, rank_index, row, interval),
        |rank: int|
            if row % 8 == 0 {
                given(rank)
            } else {
                chain(
                    u8_outcome(context, validity, row / 8),
                    |byte: u8|
                        match rank_in_byte(rank, byte, row) {
                            Ok(rank) => given(rank),
                            Err(e) => failed(e),
                        },
                )
            },
    )
}

/// Finds the number of rows before a row that are not null.
pub fn nullable_prefix_rank(
    session: &mut ReadSession<'_>,
    validity: FieldId,
    rank_index: FieldId,
    row: usize,
    rank_interval: usize,
) -> (r: Result<usize, Error>)
    requires
        old(session).wf(),
        rank_interval > 0,
    ensures
        final(session).follows(
            *old(session),
            prefix_rank_outcome(
                old(session).context(),
                validity,
                rank_index,
                row as int,
                rank_interval as int,
            ).trace,
        ),
        match prefix_rank_outcome(
            old(session).context(),
            validity,
            rank_index,
            row as int,
            rank_interval as int,
        ).result {
            Ok(rank) => r matches Ok(found) && found == rank,
            Err(e) => r matches Err(found) && found == e,
        },
{
    let ghost context = session.context();
    let ghost start = *session;
    let ghost o1 = block_rank_outcome(
        context,
        validity,
        rank_index,
        row as int,
        rank_interval as int,
    );
    assert(o1.trace + Seq::<Event>::empty() =~= o1.trace);
    let rank: usize = match block_rank(session, validity, rank_index, row, rank_interval) {
        Ok(rank) => rank,
        Err(e) => {
            return Err(e);
        },
    };
    if row % 8 == 0 {
        return Ok(rank);
    }
    let ghost s1 = *session;
    let ghost o2 = u8_outcome(context, validity, row as int / 8);
    let read = session.read_u8(validity, row / 8);
    proof {
        session.lemma_join(s1, start, o1.trace, o2.trace);
        assert(o2.trace + Seq::<Event>::empty() =~= o2.trace);
    }
    match read {
        Ok(byte) => match rank.checked_add(count_below(byte, (row % 8) as u8)) {
            Some(rank) => Ok(rank),
            None => Err(Error::RankOverflow),
        },
        Err(e) => Err(e),
    }
}

/// Whether a row is not null.
pub open spec fn valid_outcome(context: Context, validity: FieldId, row: int) -> Outcome<bool> {
    chain(
        u8_outcome(context, validity, row / 8),
        |byte: u8| given(byte_bit(byte, row % 8)),
    )
}

/// Reads whether a row is not null.
pub fn nullable_is_valid(session: &mut ReadSession<'_>, validity: FieldId, row: usize) -> (r: Result<
    bool,
    Error,
>)
    requires
        old(session).wf(),
    ensures
        final(session).follows(
            *old(session),
            valid_outcome(old(session).context(), validity, row as int).trace,
        ),
        r == valid_outcome(old(session).context(), validity, row as int).result,
{
    let ghost o1 = u8_outcome(session.context(), validity, row as int / 8);
    assert(o1.trace + Seq::<Event>::empty() =~= o1.trace);
    match session.read_u8(validity, row / 8) {
        Ok(byte) => Ok(test_bit(byte, (row % 8) as u8)),
        Err(e) => Err(e),
    }
}

// ----- ranges of rows -----

/// The ranges with `start..end` added at the end, joined to the last range if it
/// touches that.
pub open spec fn pushed_range(ranges: Seq<Span>, start: int, end: int) -> Seq<Span> {
    if ranges.len() > 0 && ranges.last().end == start {
        ranges.drop_last().push(Span { start: ranges.last().start, end: end as usize })
    } else {
        ranges.push(Span { start: start as usize, end: end as usize })
    }
}

pub fn push_range(ranges: &mut Vec<Span>, start: usize, end: usize)
    ensures
        final(ranges)@ == pushed_range(old(ranges)@, start as int, end as int),
{
    let count: usize = ranges.len();
    if count > 0 && ranges[count - 1].end == start {
        let first: usize = ranges[count - 1].start;
        ranges.set(count - 1, Span { start: first, end });
        assert(ranges@ =~= pushed_range(old(ranges)@, start as int, end as int));
    } else {
        ranges.push(Span { start, end });
    }
}

/// The ranges with the rows `from..to` that hit added one by one.
pub open spec fn pushed_where(
    ranges: Seq<Span>,
    hit: spec_fn(int) -> bool,
    from: int,
    to: int,
) -> Seq<Span>
    decreases to - from,
{
    if to <= from {
        ranges
    } else {
        let before = pushed_where(ranges, hit, from, to - 1);
        if hit(to - 1) {
            pushed_range(before, to - 1, to)
        } else {
            before
        }
    }
}

/// The rows `from..to` that hit, as ranges.
pub open spec fn ranges_where(hit: spec_fn(int) -> bool, from: int, to: int) -> Seq<Span> {
    pushed_where(Seq::empty(), hit, from, to)
}

/// Rows added in two parts are added in one.
pub proof fn lemma_pushed_join(ranges: Seq<Span>, hit: spec_fn(int) -> bool, a: int, b: int, c: int)
    requires
        a <= b <= c,
    ensures
        pushed_where(pushed_where(ranges, hit, a, b), hit, b, c) == pushed_where(ranges, hit, a, c),
    decreases c - b,
{
    if b < c {
        lemma_pushed_join(ranges, hit, a, b, c - 1);
    }
}

/// Only the rows that are added matter.
pub proof fn lemma_pushed_same(
    ranges: Seq<Span>,
    hit: spec_fn(int) -> bool,
    other: spec_fn(int) -> bool,
    from: int,
    to: int,
)
    requires
        forall|row: int| from <= row < to ==> #[trigger] hit(row) == other(row),
    ensures
        pushed_where(ranges, hit, from, to) == pushed_where(ranges, other, from, to),
    decreases to - from,
{
    if from < to {
        lemma_pushed_same(ranges, hit, other, from, to - 1);
        assert(hit(to - 1) == other(to - 1));
    }
}

/// The ranges are in merged form and hold exactly the rows that hit.
pub proof fn law_ranges_where(hit: spec_fn(int) -> bool, from: int, to: int)
    requires
        0 <= from <= to <= usize::MAX,
    ensures
        canonical(ranges_where(hit, from, to)),
        forall|row: int| #[trigger]
            covers(ranges_where(hit, from, to), row) == (from <= row < to && hit(row)),
        ranges_where(hit, from, to).len() > 0 ==> ranges_where(hit, from, to).last().end <= to,
    decreases to - from,
{
    let all = ranges_where(hit, from, to);
    if from < to {
        law_ranges_where(hit, from, to - 1);
        let before = ranges_where(hit, from, to - 1);
        if hit(to - 1) {
            let last = before.last();
            if before.len() > 0 {
                assert(last == before[before.len() - 1]);
            }
            assert forall|row: int| #[trigger] covers(all, row) == (from <= row < to && hit(row)) by {
                assert(covers(before, row) == (from <= row < to - 1 && hit(row)));
                if covers(before, row) {
                    let i = choose|i: int| 0 <= i < before.len() && (#[trigger] before[i]).has(row);
                    assert(all[i].has(row));
                }
                if row == to - 1 {
                    assert(all[all.len() - 1].has(row));
                }
                if covers(all, row) {
                    let i = choose|i: int| 0 <= i < all.len() && (#[trigger] all[i]).has(row);
                    if row != to - 1 {
                        assert(before[i].has(row));
                    }
                }
            }
        }
    }
}

// ----- zigzag codes -----

/// The signed number with a code: 0, -1, 1, -2, 2, and so on.
pub open spec fn unzigzagged(code: u64) -> i64 {
    if code % 2 == 0 {
        (code / 2) as i64
    } else {
        (-(code / 2) - 1) as i64
    }
}

/// The code of a signed number.
pub open spec fn zigzagged(value: i64) -> u64 {
    if value >= 0 {
        (2 * value) as u64
    } else {
        (-2 * value - 1) as u64
    }
}

pub fn unzigzag(value: u64) -> (r: i64)
    ensures
        r == unzigzagged(value),
{
    let half: i64 = (value / 2) as i64;
    if value % 2 == 0 {
        half
    } else {
        -half - 1
    }
}

pub fn zigzag(value: i64) -> (r: u64)
    ensures
        r == zigzagged(value),
{
    if value >= 0 {
        2 * value as u64
    } else {
        2 * (-(value + 1)) as u64 + 1
    }
}

/// Codes and signed numbers correspond one to one.
pub proof fn law_zigzag(value: i64, code: u64)
    ensures
        unzigzagged(zigzagged(value)) == value,
        zigzagged(unzigzagged(code)) == code,
{
}

} // verus!
