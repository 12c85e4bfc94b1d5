//! Decoding rows and answering queries from the stored bytes.
use super::decoder::{DecoderIr, DecoderNode, DeltaCoding};
#[allow(unused_imports)]
use super::decoder::{child_of, lemma_arena, node_error, node_len};
use super::error::Error;
use super::ids::{FieldId, NodeId};
#[allow(unused_imports)]
use super::layout::lemma_floor;
use super::runtime::ReadSession;
#[allow(unused_imports)]
use super::runtime::{
    bits_outcome, chain, failed, given, i64_outcome, Context, Event, Outcome,
};
use super::support::{find_position, locate_indexed, nullable_rank, unzigzag};
#[allow(unused_imports)]
use super::support::{find_outcome, locate_outcome, rank_outcome, unzigzagged};
use vstd::prelude::*;

verus! {

/// A packed number as a value.
pub open spec fn packed_value(number: u64) -> Outcome<Option<i64>> {
    if number > i64::MAX {
        failed(Error::BitUnpackTooLarge)
    } else {
        given(Some(number as i64))
    }
}

/// An offset and the base that it is from.
pub open spec fn for_value(base: i64, offset: Option<i64>) -> Outcome<Option<i64>> {
    match offset {
        None => given(None),
        Some(offset) => if i64::MIN <= base + offset <= i64::MAX {
            given(Some((base + offset) as i64))
        } else {
            failed(Error::ForOverflow)
        },
    }
}

/// The value that a dictionary has for an identifier.
pub open spec fn dictionary_value(
    context: Context,
    dictionary: FieldId,
    entries: usize,
    id: Option<i64>,
) -> Outcome<Option<i64>> {
    match id {
        None => failed(Error::DictionaryIdNull),
        Some(id) => if id as usize >= entries {
            failed(Error::DictionaryIdOutside)
        } else {
            chain(
                i64_outcome(context, dictionary, id as usize as int),
                |value: i64| given(Some(value)),
            )
        },
    }
}

/// The running value after a code.
pub open spec fn delta_step(value: int, code: Option<i64>, coding: DeltaCoding) -> Result<int, Error> {
    match code {
        None => Err(Error::DeltaCodeNull),
        Some(code) => if code < 0 {
            Err(Error::DeltaCodeNegative)
        } else {
            let next = value + match coding {
                DeltaCoding::ZigZag => unzigzagged(code as u64) as int,
                DeltaCoding::Unsigned => code as int,
            };
            if i128::MIN <= next <= i128::MAX {
                Ok(next)
            } else {
                Err(Error::DeltaOverflow)
            }
        },
    }
}

/// A running value as a value.
pub open spec fn delta_value(value: int) -> Outcome<Option<i64>> {
    if i64::MIN <= value <= i64::MAX {
        given(Some(value as i64))
    } else {
        failed(Error::DeltaTooLarge)
    }
}

/// A value stored apart, or the regular value of the row.
pub open spec fn stored_value(context: Context, field: FieldId, index: int) -> Outcome<Option<i64>> {
    chain(i64_outcome(context, field, index), |value: i64| given(Some(value)))
}

/// Decoding a row of a node.
pub open spec fn get_outcome(context: Context, nodes: Seq<DecoderNode>, id: int, row: int) -> Outcome<
    Option<i64>,
>
    decreases id, 0int,
{
    if id < 0 || id >= nodes.len() {
        failed(Error::NodeAbsent(id as usize))
    } else {
        match node_len(nodes, nodes[id]) {
            Err(e) => failed(e),
            Ok(len) => if row >= len {
                failed(Error::RowOutside { row: row as usize, node: id as usize })
            } else if child_of(nodes[id]) matches Some(child) && child.0 >= id {
                failed(Error::ChildAbsent(id as usize))
            } else {
                match nodes[id] {
                    DecoderNode::BitUnpack {
                        stream,
                        width,
                        miniblock_rows,
                        miniblock_bytes,
                        ..
                    } => chain(
                        bits_outcome(
                            context,
                            stream,
                            row,
                            width as int,
                            miniblock_rows as int,
                            miniblock_bytes as int,
                        ),
                        |number: u64| packed_value(number),
                    ),
                    DecoderNode::For { base, values } => chain(
                        i64_outcome(context, base, 0),
                        |base: i64|
                            chain(
                                get_outcome(context, nodes, values.0 as int, row),
                                |offset: Option<i64>| for_value(base, offset),
                            ),
                    ),
                    DecoderNode::Delta { deltas, restarts, restart_interval, coding, .. } => chain(
                        i64_outcome(context, restarts, row / restart_interval as int),
                        |anchor: i64|
                            chain(
                                delta_outcome(
                                    context,
                                    nodes,
                                    deltas.0 as int,
                                    coding,
                                    row / restart_interval as int * restart_interval + 1,
                                    row,
                                    anchor as int,
                                ),
                                |value: int| delta_value(value),
                            ),
                    ),
                    DecoderNode::Rle {
                        values,
                        run_lengths,
                        run_index,
                        runs,
                        index_interval,
                        ..
                    } => chain(
                        locate_outcome(
                            context,
                            run_index,
                            run_lengths,
                            runs as int,
                            index_interval as int,
                            row,
                        ),
                        |place: (int, int, int)|
                            get_outcome(context, nodes, values.0 as int, place.0),
                    ),
                    DecoderNode::Dictionary { ids, dictionary, entries, .. } => chain(
                        get_outcome(context, nodes, ids.0 as int, row),
                        |id: Option<i64>| dictionary_value(context, dictionary, entries, id),
                    ),
                    DecoderNode::Patch {
                        values,
                        positions,
                        position_index,
                        exceptions,
                        count,
                        index_interval,
                    } => chain(
                        find_outcome(
                            context,
                            position_index,
                            positions,
                            count as int,
                            index_interval as int,
                            row,
                        ),
                        |found: Option<int>|
                            match found {
                                Some(exception) => stored_value(context, exceptions, exception),
                                None => get_outcome(context, nodes, values.0 as int, row),
                            },
                    ),
                    DecoderNode::Nullable { validity, rank_index, values, rank_interval, .. } =>
                        chain(
                        rank_outcome(context, validity, rank_index, row, rank_interval as int),
                        |rank: Option<int>|
                            match rank {
                                None => given(None),
                                Some(rank) => get_outcome(context, nodes, values.0 as int, rank),
                            },
                    ),
                }
            },
        }
    }
}

/// The running value after the codes of rows `from..=row`.
pub open spec fn delta_outcome(
    context: Context,
    nodes: Seq<DecoderNode>,
    codes: int,
    coding: DeltaCoding,
    from: int,
    row: int,
    value: int,
) -> Outcome<int>
    decreases codes, row - from + 1,
{
    if from > row {
        given(value)
    } else {
        chain(
            get_outcome(context, nodes, codes, from),
            |code: Option<i64>|
                match delta_step(value, code, coding) {
                    Err(e) => failed(e),
                    Ok(next) => delta_outcome(context, nodes, codes, coding, from + 1, row, next),
                },
        )
    }
}

/// An outcome that ends with a result has the steps before it.
proof fn lemma_end(trace: Seq<Event>)
    ensures
        trace + Seq::<Event>::empty() == trace,
{
    assert(trace + Seq::<Event>::empty() =~= trace);
}

/// Decodes a row of a node.
pub(crate) fn get(decoder: &DecoderIr, id: NodeId, row: usize, session: &mut ReadSession<'_>) -> (r:
    Result<Option<i64>, Error>)
    requires
        decoder.wf(),
        old(session).wf(),
    ensures
        final(session).follows(
            *old(session),
            get_outcome(
                old(session).context(),
                decoder.arena(),
                id.0 as int,
                row as int,
            ).trace,
        ),
        r == get_outcome(
            old(session).context(),
            decoder.arena(),
            id.0 as int,
            row as int,
        ).result,
    decreases id.0, 0int,
{
    let ghost context = session.context();
    let ghost nodes = decoder.arena();
    proof {
        session.lemma_still();
        lemma_arena(nodes, nodes.len() as int);
    }
    let node: DecoderNode = match decoder.node(id) {
        Ok(node) => *node,
        Err(e) => {
            return Err(e);
        },
    };
    assert(node == nodes[id.0 as int]);
    assert(node_error(nodes, id.0) is None);
    match node.len(decoder.nodes()) {
        Ok(len) => {
            if row >= len {
                return Err(Error::RowOutside { row, node: id.0 });
            }
        },
        Err(e) => {
            return Err(e);
        },
    }
    match node {
        DecoderNode::BitUnpack { stream, width, miniblock_rows, miniblock_bytes, .. } => {
            proof {
                lemma_end(
                    bits_outcome(
                        context,
                        stream,
                        row as int,
                        width as int,
                        miniblock_rows as int,
                        miniblock_bytes as int,
                    ).trace,
                );
            }
            match session.read_bits(stream, row, width, miniblock_rows, miniblock_bytes) {
                Ok(number) => if number > i64::MAX as u64 {
                    Err(Error::BitUnpackTooLarge)
                } else {
                    Ok(Some(number as i64))
                },
                Err(e) => Err(e),
            }
        },
        DecoderNode::For { base, values } => get_for(decoder, base, values, row, session),
        DecoderNode::Delta { deltas, restarts, restart_interval, coding, .. } => get_delta(
            decoder,
            deltas,
            restarts,
            restart_interval,
            coding,
            row,
            session,
        ),
        DecoderNode::Rle { values, run_lengths, run_index, runs, index_interval, .. } => {
            let ghost start = *session;
            let run: usize = match locate_indexed(
                session,
                run_index,
                run_lengths,
                runs,
                index_interval,
                row,
            ) {
                Ok((run, _, _)) => run,
                Err(e) => {
                    return Err(e);
                },
            };
            let ghost middle = *session;
            let value = get(decoder, values, run, session);
            proof {
                let first = locate_outcome(
                    context,
                    run_index,
                    run_lengths,
                    runs as int,
                    index_interval as int,
                    row as int,
                );
                let second = get_outcome(context, nodes, values.0 as int, run as int);
                session.lemma_join(middle, start, first.trace, second.trace);
            }
            value
        },
        DecoderNode::Dictionary { ids, dictionary, entries, .. } => get_dictionary(
            decoder,
            ids,
            dictionary,
            entries,
            row,
            session,
        ),
        DecoderNode::Patch {
            values,
            positions,
            position_index,
            exceptions,
            count,
            index_interval,
        } => {
            let ghost start = *session;
            let found = match find_position(
                session,
                position_index,
                positions,
                count,
                index_interval,
                row,
            ) {
                Ok(found) => found,
                Err(e) => {
                    return Err(e);
                },
            };
            let ghost first = find_outcome(
                context,
                position_index,
                positions,
                count as int,
                index_interval as int,
                row as int,
            );
            let ghost middle = *session;
            match found {
                Some(exception) => {
                    let read = session.read_i64(exceptions, exception);
                    proof {
                        let second = i64_outcome(context, exceptions, exception as int);
                        lemma_end(second.trace);
                        session.lemma_join(middle, start, first.trace, second.trace);
                    }
                    match read {
                        Ok(value) => Ok(Some(value)),
                        Err(e) => Err(e),
                    }
                },
                None => {
                    let value = get(decoder, values, row, session);
                    proof {
                        let second = get_outcome(context, nodes, values.0 as int, row as int);
                        session.lemma_join(middle, start, first.trace, second.trace);
                    }
                    value
                },
            }
        },
        DecoderNode::Nullable { validity, rank_index, values, rank_interval, .. } => {
            let ghost start = *session;
            let ghost first = rank_outcome(
                context,
                validity,
                rank_index,
                row as int,
                rank_interval as int,
            );
            proof {
                lemma_end(first.trace);
            }
            let rank: usize = match nullable_rank(
                session,
                validity,
                rank_index,
                row,
                rank_interval,
            ) {
                Ok(Some(rank)) => rank,
                Ok(None) => {
                    return Ok(None);
                },
                Err(e) => {
                    return Err(e);
                },
            };
            let ghost middle = *session;
            let value = get(decoder, values, rank, session);
            proof {
                let second = get_outcome(context, nodes, values.0 as int, rank as int);
                session.lemma_join(middle, start, first.trace, second.trace);
            }
            value
        },
    }
}

fn get_for(
    decoder: &DecoderIr,
    base: FieldId,
    values: NodeId,
    row: usize,
    session: &mut ReadSession<'_>,
) -> (r: Result<Option<i64>, Error>)
    requires
        decoder.wf(),
        old(session).wf(),
    ensures
        ({
            let context = old(session).context();
            let wanted = chain(
                i64_outcome(context, base, 0),
                |base: i64|
                    chain(
                        get_outcome(context, decoder.arena(), values.0 as int, row as int),
                        |offset: Option<i64>| for_value(base, offset),
                    ),
            );
            final(session).follows(*old(session), wanted.trace) && r == wanted.result
        }),
    decreases values.0, 1int,
{
    let ghost context = session.context();
    let ghost start = *session;
    let ghost first = i64_outcome(context, base, 0);
    let ghost second = get_outcome(context, decoder.arena(), values.0 as int, row as int);
    let base: i64 = match session.read_i64(base, 0) {
        Ok(base) => base,
        Err(e) => {
            return Err(e);
        },
    };
    let ghost middle = *session;
    let offset = get(decoder, values, row, session);
    proof {
        session.lemma_join(middle, start, first.trace, second.trace);
        lemma_end(second.trace);
    }
    match offset {
        Ok(Some(offset)) => match offset.checked_add(base) {
            Some(value) => Ok(Some(value)),
            None => Err(Error::ForOverflow),
        },
        Ok(None) => Ok(None),
        Err(e) => Err(e),
    }
}

fn get_dictionary(
    decoder: &DecoderIr,
    ids: NodeId,
    dictionary: FieldId,
    entries: usize,
    row: usize,
    session: &mut ReadSession<'_>,
) -> (r: Result<Option<i64>, Error>)
    requires
        decoder.wf(),
        old(session).wf(),
    ensures
        ({
            let context = old(session).context();
            let wanted = chain(
                get_outcome(context, decoder.arena(), ids.0 as int, row as int),
                |id: Option<i64>| dictionary_value(context, dictionary, entries, id),
            );
            final(session).follows(*old(session), wanted.trace) && r == wanted.result
        }),
    decreases ids.0, 1int,
{
    let ghost context = session.context();
    let ghost start = *session;
    let ghost first = get_outcome(context, decoder.arena(), ids.0 as int, row as int);
    proof {
        lemma_end(first.trace);
    }
    let id: usize = match get(decoder, ids, row, session) {
        Ok(Some(id)) => #[verifier::truncate] (id as usize),
        Ok(None) => {
            return Err(Error::DictionaryIdNull);
        },
        Err(e) => {
            return Err(e);
        },
    };
    if id >= entries {
        return Err(Error::DictionaryIdOutside);
    }
    let ghost middle = *session;
    let read = session.read_i64(dictionary, id);
    proof {
        let second = i64_outcome(context, dictionary, id as int);
        lemma_end(second.trace);
        session.lemma_join(middle, start, first.trace, second.trace);
    }
    match read {
        Ok(value) => Ok(Some(value)),
        Err(e) => Err(e),
    }
}

fn add_code(value: i128, code: Option<i64>, coding: DeltaCoding) -> (r: Result<i128, Error>)
    ensures
        match delta_step(value as int, code, coding) {
            Ok(next) => r matches Ok(found) && found == next,
            Err(e) => r matches Err(found) && found == e,
        },
{
    let code: i64 = match code {
        Some(code) => code,
        None => {
            return Err(Error::DeltaCodeNull);
        },
    };
    if code < 0 {
        return Err(Error::DeltaCodeNegative);
    }
    let delta: i128 = match coding {
        DeltaCoding::ZigZag => unzigzag(code as u64) as i128,
        DeltaCoding::Unsigned => code as i128,
    };
    match value.checked_add(delta) {
        Some(next) => Ok(next),
        None => Err(Error::DeltaOverflow),
    }
}

fn get_delta(
    decoder: &DecoderIr,
    deltas: NodeId,
    restarts: FieldId,
    restart_interval: usize,
    coding: DeltaCoding,
    row: usize,
    session: &mut ReadSession<'_>,
) -> (r: Result<Option<i64>, Error>)
    requires
        decoder.wf(),
        old(session).wf(),
        restart_interval > 0,
    ensures
        ({
            let context = old(session).context();
            let wanted = chain(
                i64_outcome(context, restarts, row as int / restart_interval as int),
                |anchor: i64|
                    chain(
                        delta_outcome(
                            context,
                            decoder.arena(),
                            deltas.0 as int,
                            coding,
                            row as int / restart_interval as int * restart_interval + 1,
                            row as int,
                            anchor as int,
                        ),
                        |value: int| delta_value(value),
                    ),
            );
            final(session).follows(*old(session), wanted.trace) && r == wanted.result
        }),
    decreases deltas.0, 1int,
{
    let ghost context = session.context();
    let ghost nodes = decoder.arena();
    let ghost start = *session;
    proof {
        lemma_floor(row as int, restart_interval as int);
    }
    let block: usize = row / restart_interval;
    let block_start: usize = block * restart_interval;
    let ghost first = i64_outcome(context, restarts, block as int);
    let anchor: i64 = match session.read_i64(restarts, block) {
        Ok(anchor) => anchor,
        Err(e) => {
            return Err(e);
        },
    };
    let ghost summing = delta_outcome(
        context,
        nodes,
        deltas.0 as int,
        coding,
        block_start + 1,
        row as int,
        anchor as int,
    );
    let ghost whole = first.trace + summing.trace;
    let ghost mut done = first.trace;
    let mut value: i128 = anchor as i128;
    let mut position: usize = block_start;
    proof {
        lemma_end(summing.trace);
    }
    while position < row
        invariant
            position <= row,
            decoder.wf(),
            context == start.context(),
            start == *old(session),
            nodes == decoder.arena(),
            session.follows(start, done),
            block == row as int / restart_interval as int,
            block_start == block * restart_interval,
            first == i64_outcome(context, restarts, block as int),
            first.result == Ok::<i64, Error>(anchor),
            summing == delta_outcome(
                context,
                nodes,
                deltas.0 as int,
                coding,
                block_start + 1,
                row as int,
                anchor as int,
            ),
            summing.trace + Seq::<Event>::empty() == summing.trace,
            whole == first.trace + summing.trace,
            whole == done + delta_outcome(
                context,
                nodes,
                deltas.0 as int,
                coding,
                position + 1,
                row as int,
                value as int,
            ).trace,
            summing.result == delta_outcome(
                context,
                nodes,
                deltas.0 as int,
                coding,
                position + 1,
                row as int,
                value as int,
            ).result,
        decreases row - position,
    {
        let ghost before = *session;
        let ghost step = get_outcome(context, nodes, deltas.0 as int, position + 1);
        let ghost rest = delta_outcome(
            context,
            nodes,
            deltas.0 as int,
            coding,
            position + 1,
            row as int,
            value as int,
        );
        let read = get(decoder, deltas, position + 1, session);
        proof {
            session.lemma_join(before, start, done, step.trace);
            lemma_end(step.trace);
        }
        let code = match read {
            Ok(code) => code,
            Err(e) => {
                return Err(e);
            },
        };
        let next: i128 = match add_code(value, code, coding) {
            Ok(next) => next,
            Err(e) => {
                return Err(e);
            },
        };
        proof {
            let after = delta_outcome(
                context,
                nodes,
                deltas.0 as int,
                coding,
                position + 2,
                row as int,
                next as int,
            );
            assert(rest.trace == step.trace + after.trace);
            assert(done + (step.trace + after.trace) =~= (done + step.trace) + after.trace);
            done = done + step.trace;
        }
        value = next;
        position = position + 1;
    }
    proof {
        lemma_end(done);
    }
    if value < i64::MIN as i128 || value > i64::MAX as i128 {
        return Err(Error::DeltaTooLarge);
    }
    Ok(Some(value as i64))
}

} // verus!
