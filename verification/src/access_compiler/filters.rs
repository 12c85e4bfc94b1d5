//! Filters that follow what is proved about a column.
#[allow(unused_imports)]
use super::compiler::{
    column_facts, is_least_piece, monotone_nulls, order_preserved, piecewise_rows, searchable,
};
#[allow(unused_imports)]
use super::decoder::lemma_arena;
use super::decoder::{DecoderIr, DecoderNode};
use super::encode::EncodedColumn;
use super::error::Error;
use super::execute::{execute_interpreted, execute_session, Answer, Execution};
#[allow(unused_imports)]
use super::execute::{
    answer_of, asked_rows, decoded_value, query_error, rows_outcome, scan_answer, scanned, Reply,
};
use super::ids::{FieldId, NodeId};
use super::interpreter::get;
#[allow(unused_imports)]
use super::interpreter::get_outcome;
use super::invariants::{
    derive_invariants, FactScope, InvariantSet, MappingInvariant, NullPlacement, Property,
};
#[allow(unused_imports)]
use super::invariants::piecewise_stated;
use super::plan::{Predicate, Query};
use super::runtime::{ClosureMode, ReadSession};
#[allow(unused_imports)]
use super::runtime::{chain, failed, given, metrics_of, page_context, Context, Event, Outcome};
#[allow(unused_imports)]
use super::searches::wide;
use super::span::Span;
#[allow(unused_imports)]
use super::static_baseline::entry_of;
use super::static_baseline::exec_entry_of;
use super::static_queries::{find_entry, monotone_before};
#[allow(unused_imports)]
use super::static_queries::{
    after_header, block_end, comes_before, entry_outcome, range_reply, tallied, with_range,
};
use super::support::{load_metadata, push_range};
#[allow(unused_imports)]
use super::support::{metadata_outcome, pushed_range};
#[allow(unused_imports)]
use super::visitor::{left_of, number};
use vstd::prelude::*;

verus! {

/// How the rows whose values lie between two bounds are found.
#[derive(Clone, Copy, Debug, PartialEq, Eq, Structural)]
pub enum FilterWay {
    /// Every row is decoded.
    Scan,
    /// The values are in order, and two boundaries are searched for.
    Search { nulls: NullPlacement },
    /// The values are in order within blocks of rows, and two boundaries are searched
    /// for in each.
    Blocks { max_rows: usize },
    /// The entries of a dictionary are in order: their boundaries are searched for, and
    /// the rows are told by their identifiers.
    Translate { ids: NodeId, dictionary: FieldId, entries: usize },
}

pub open spec fn filter_query(low: i64, high: i64) -> Query {
    Query::Filter { predicate: Predicate::Between { low, high } }
}

/// The way that the facts about a column allow.
#[verifier::opaque]
pub open spec fn filter_way(column: EncodedColumn) -> FilterWay {
    let facts = column_facts(column);
    let root = column.decoder.top();
    let node = column.decoder.arena()[root.0 as int];
    if searchable(monotone_nulls(facts, root)) {
        FilterWay::Search { nulls: monotone_nulls(facts, root)->0 }
    } else if let Some(max_rows) = piecewise_rows(facts, root) {
        if max_rows > 0 {
            FilterWay::Blocks { max_rows }
        } else {
            FilterWay::Scan
        }
    } else if order_preserved(facts, root) && node is Dictionary {
        FilterWay::Translate {
            ids: node->ids,
            dictionary: node->dictionary,
            entries: node->entries,
        }
    } else {
        FilterWay::Scan
    }
}

/// Finds the way that the facts about a column allow.
pub fn choose_filter(column: &EncodedColumn) -> (r: FilterWay)
    requires
        column.wf(),
    ensures
        r == filter_way(*column),
{
    proof {
        reveal(filter_way);
        column.page.lemma_wf();
        lemma_arena(column.decoder.arena(), column.decoder.arena().len() as int);
    }
    let root: NodeId = column.decoder.root();
    let derived = derive_invariants(
        &column.decoder,
        column.page.layout(),
        column.page.invariants(),
    );
    let invariants: InvariantSet = match derived {
        Ok(invariants) => invariants,
        Err(_) => {
            assert(false);
            return FilterWay::Scan;
        },
    };
    let ghost facts = invariants@;
    let nulls = invariants.root_monotone_nulls(root);
    assert(nulls == monotone_nulls(facts, root)) by {
        match nulls {
            None => {},
            Some(NullPlacement::NoNulls) => {},
            Some(NullPlacement::First) => {},
            Some(NullPlacement::Last) => {},
            Some(NullPlacement::Arbitrary) => {},
        }
    }
    match nulls {
        None | Some(NullPlacement::Arbitrary) => {},
        Some(nulls) => {
            return FilterWay::Search { nulls };
        },
    }
    let piece = invariants.root_piecewise_monotone_rows(root);
    proof {
        match piece {
            Some(max_rows) => {
                assert(is_least_piece(facts, root, max_rows));
                let other = choose|r: usize| #[trigger] is_least_piece(facts, root, r);
                assert(piecewise_stated(facts, root, other));
                assert(other == max_rows);
            },
            None => {
                if exists|r: usize| #[trigger] is_least_piece(facts, root, r) {
                    let other = choose|r: usize| #[trigger] is_least_piece(facts, root, r);
                    assert(piecewise_stated(facts, root, other));
                }
            },
        }
        assert(piece == piecewise_rows(facts, root));
    }
    if let Some(max_rows) = piece {
        return if max_rows > 0 {
            FilterWay::Blocks { max_rows }
        } else {
            FilterWay::Scan
        };
    }
    let ordered = invariants.contains(
        root,
        FactScope::Mapping,
        Property::Mapping(MappingInvariant::OrderPreserving),
    );
    if ordered {
        match column.decoder.node(root) {
            Ok(node) => {
                if let DecoderNode::Dictionary { ids, dictionary, entries, .. } = *node {
                    return FilterWay::Translate { ids, dictionary, entries };
                }
            },
            Err(_) => {
                assert(false);
            },
        }
    }
    FilterWay::Scan
}

// ----- boundaries -----

fn widen(value: Option<i64>) -> (r: Option<i128>)
    ensures
        number(r) == wide(value),
{
    match value {
        Some(value) => Some(value as i128),
        None => None,
    }
}

/// Halving rows `left..right` of a node down to the first that does not come before the
/// boundary; with it, the number of rows decoded.
pub open spec fn cut_outcome(
    context: Context,
    nodes: Seq<DecoderNode>,
    id: int,
    left: int,
    right: int,
    bound: int,
    inclusive: bool,
    nulls: NullPlacement,
    decoded: int,
) -> Outcome<(int, int)>
    decreases right - left,
{
    if left >= right {
        given((left, decoded))
    } else {
        let mid = left + (right - left) / 2;
        chain(
            get_outcome(context, nodes, id, mid),
            |value: Option<i64>|
                if decoded >= usize::MAX {
                    failed(Error::DecodedRowsOverflow)
                } else {
                    match comes_before(wide(value), bound, inclusive, nulls) {
                        Err(e) => failed(e),
                        Ok(true) => cut_outcome(
                            context,
                            nodes,
                            id,
                            mid + 1,
                            right,
                            bound,
                            inclusive,
                            nulls,
                            decoded + 1,
                        ),
                        Ok(false) => cut_outcome(
                            context,
                            nodes,
                            id,
                            left,
                            mid,
                            bound,
                            inclusive,
                            nulls,
                            decoded + 1,
                        ),
                    }
                },
        )
    }
}

#[verifier::spinoff_prover]
#[verifier::rlimit(80)]
fn find_cut(
    decoder: &DecoderIr,
    id: NodeId,
    session: &mut ReadSession<'_>,
    left: usize,
    right: usize,
    bound: i64,
    inclusive: bool,
    nulls: NullPlacement,
    decoded: usize,
) -> (r: Result<(usize, usize), Error>)
    requires
        decoder.wf(),
        old(session).wf(),
        left <= right,
    ensures
        ({
            let wanted = cut_outcome(
                old(session).context(),
                decoder.arena(),
                id.0 as int,
                left as int,
                right as int,
                bound as int,
                inclusive,
                nulls,
                decoded as int,
            );
            &&& final(session).follows(*old(session), wanted.trace)
            &&& match wanted.result {
                Ok(place) => r matches Ok(found) && found.0 == place.0 && found.1 == place.1 && left
                    <= found.0 <= right,
                Err(e) => r matches Err(found) && found == e,
            }
        }),
{
    let ghost first = *session;
    let ghost context = session.context();
    let ghost nodes = decoder.arena();
    let ghost all = cut_outcome(
        context,
        nodes,
        id.0 as int,
        left as int,
        right as int,
        bound as int,
        inclusive,
        nulls,
        decoded as int,
    );
    let mut from: usize = left;
    let mut to: usize = right;
    let mut count: usize = decoded;
    let ghost mut done: Seq<Event> = Seq::empty();
    proof {
        session.lemma_still();
        assert(done + all.trace =~= all.trace);
    }
    while from < to
        invariant
            decoder.wf(),
            nodes == decoder.arena(),
            left <= from <= to <= right,
            session.follows(first, done),
            context == first.context(),
            first == *old(session),
            all == cut_outcome(
                context,
                nodes,
                id.0 as int,
                left as int,
                right as int,
                bound as int,
                inclusive,
                nulls,
                decoded as int,
            ),
            left_of(
                all,
                done,
                cut_outcome(
                    context,
                    nodes,
                    id.0 as int,
                    from as int,
                    to as int,
                    bound as int,
                    inclusive,
                    nulls,
                    count as int,
                ),
            ),
        decreases to - from,
    {
        let ghost before = *session;
        let mid: usize = from + (to - from) / 2;
        let ghost read = get_outcome(context, nodes, id.0 as int, mid as int);
        let value = get(decoder, id, mid, session);
        let ghost prior = done;
        proof {
            session.lemma_join(before, first, done, read.trace);
            assert(done + (read.trace + Seq::<Event>::empty()) =~= done + read.trace);
            done = done + read.trace;
        }
        let value = match value {
            Ok(value) => value,
            Err(e) => {
                return Err(e);
            },
        };
        if count == usize::MAX {
            return Err(Error::DecodedRowsOverflow);
        }
        count = count + 1;
        let passed: bool = match monotone_before(widen(value), bound as i128, inclusive, nulls) {
            Ok(passed) => passed,
            Err(e) => {
                return Err(e);
            },
        };
        if passed {
            from = mid + 1;
        } else {
            to = mid;
        }
        proof {
            let rest = cut_outcome(
                context,
                nodes,
                id.0 as int,
                from as int,
                to as int,
                bound as int,
                inclusive,
                nulls,
                count as int,
            );
            assert(prior + (read.trace + rest.trace) =~= prior + read.trace + rest.trace);
        }
    }
    assert(done + Seq::<Event>::empty() =~= done);
    Ok((from, count))
}

/// Two boundaries among rows `from..to`, the second not before the first; with them,
/// the number of rows decoded.
pub open spec fn cuts_outcome(
    context: Context,
    nodes: Seq<DecoderNode>,
    id: int,
    from: int,
    to: int,
    low: int,
    high: int,
    nulls: NullPlacement,
    decoded: int,
) -> Outcome<(int, int, int)> {
    chain(
        cut_outcome(context, nodes, id, from, to, low, false, nulls, decoded),
        |start: (int, int)|
            chain(
                cut_outcome(context, nodes, id, start.0, to, high, true, nulls, start.1),
                |end: (int, int)| given((start.0, end.0, end.1)),
            ),
    )
}

fn find_cuts(
    decoder: &DecoderIr,
    id: NodeId,
    session: &mut ReadSession<'_>,
    from: usize,
    to: usize,
    low: i64,
    high: i64,
    nulls: NullPlacement,
    decoded: usize,
) -> (r: Result<(usize, usize, usize), Error>)
    requires
        decoder.wf(),
        old(session).wf(),
        from <= to,
    ensures
        ({
            let wanted = cuts_outcome(
                old(session).context(),
                decoder.arena(),
                id.0 as int,
                from as int,
                to as int,
                low as int,
                high as int,
                nulls,
                decoded as int,
            );
            &&& final(session).follows(*old(session), wanted.trace)
            &&& match wanted.result {
                Ok(place) => r matches Ok(found) && found.0 == place.0 && found.1 == place.1
                    && found.2 == place.2 && from <= found.0 <= found.1 <= to,
                Err(e) => r matches Err(found) && found == e,
            }
        }),
{
    let ghost first = *session;
    let ghost context = session.context();
    let ghost nodes = decoder.arena();
    let ghost one = cut_outcome(
        context,
        nodes,
        id.0 as int,
        from as int,
        to as int,
        low as int,
        false,
        nulls,
        decoded as int,
    );
    let found = find_cut(decoder, id, session, from, to, low, false, nulls, decoded);
    let (start, count) = match found {
        Ok(found) => found,
        Err(e) => {
            return Err(e);
        },
    };
    let ghost middle = *session;
    let ghost two = cut_outcome(
        context,
        nodes,
        id.0 as int,
        start as int,
        to as int,
        high as int,
        true,
        nulls,
        count as int,
    );
    let found = find_cut(decoder, id, session, start, to, high, true, nulls, count);
    proof {
        session.lemma_join(middle, first, one.trace, two.trace);
        assert(one.trace + (two.trace + Seq::<Event>::empty()) =~= one.trace + two.trace);
    }
    match found {
        Ok((end, count)) => Ok((start, end, count)),
        Err(e) => Err(e),
    }
}

/// The rows between two boundaries.
pub open spec fn search_outcome(
    context: Context,
    nodes: Seq<DecoderNode>,
    id: int,
    len: int,
    low: int,
    high: int,
    nulls: NullPlacement,
) -> Outcome<(Reply, int)> {
    chain(
        cuts_outcome(context, nodes, id, 0, len, low, high, nulls, 0),
        |place: (int, int, int)| given((range_reply(place.0, place.1), place.2)),
    )
}

/// Two boundaries in each block from `block_start` on, and the rows between them.
pub open spec fn pieces_outcome(
    context: Context,
    nodes: Seq<DecoderNode>,
    id: int,
    len: int,
    low: int,
    high: int,
    max_rows: int,
    block_start: int,
    ranges: Seq<Span>,
    decoded: int,
) -> Outcome<(Reply, int)>
    decreases len - block_start,
{
    if block_start >= len || max_rows <= 0 {
        given((Reply::Ranges(ranges), decoded))
    } else {
        let stop = block_end(block_start, max_rows, len);
        chain(
            cuts_outcome(
                context,
                nodes,
                id,
                block_start,
                stop,
                low,
                high,
                NullPlacement::NoNulls,
                decoded,
            ),
            |place: (int, int, int)|
                pieces_outcome(
                    context,
                    nodes,
                    id,
                    len,
                    low,
                    high,
                    max_rows,
                    stop,
                    with_range(ranges, place.0, place.1),
                    place.2,
                ),
        )
    }
}

/// The ranges of rows, of `row..len`, whose identifiers lie in a range.
pub open spec fn ids_outcome(
    context: Context,
    nodes: Seq<DecoderNode>,
    ids: int,
    entries: int,
    low_id: int,
    high_id: int,
    row: int,
    len: int,
    ranges: Seq<Span>,
) -> Outcome<Seq<Span>>
    decreases len - row,
{
    if row >= len {
        given(ranges)
    } else {
        chain(
            get_outcome(context, nodes, ids, row),
            |id: Option<i64>|
                match entry_of(entries, wide(id)) {
                    Err(e) => failed(e),
                    Ok(entry) => ids_outcome(
                        context,
                        nodes,
                        ids,
                        entries,
                        low_id,
                        high_id,
                        row + 1,
                        len,
                        if low_id <= entry < high_id {
                            pushed_range(ranges, row, row + 1)
                        } else {
                            ranges
                        },
                    ),
                },
        )
    }
}

/// The identifiers of the values between the bounds, then the rows that have them.
pub open spec fn translate_outcome(
    context: Context,
    nodes: Seq<DecoderNode>,
    ids: int,
    dictionary: usize,
    entries: int,
    len: int,
    low: int,
    high: int,
) -> Outcome<(Reply, int)> {
    chain(
        entry_outcome(context, dictionary, 0, entries, low, false),
        |low_id: int|
            chain(
                entry_outcome(context, dictionary, low_id, entries, high, true),
                |high_id: int|
                    if low_id < high_id {
                        chain(
                            ids_outcome(
                                context,
                                nodes,
                                ids,
                                entries,
                                low_id,
                                high_id,
                                0,
                                len,
                                Seq::empty(),
                            ),
                            |ranges: Seq<Span>| given((Reply::Ranges(ranges), len)),
                        )
                    } else {
                        given((Reply::Ranges(Seq::empty()), 0int))
                    },
            ),
    )
}

// ----- filters -----

/// What follows the header: the rows between the bounds, and how many were decoded.
pub open spec fn way_outcome(
    context: Context,
    nodes: Seq<DecoderNode>,
    id: int,
    way: FilterWay,
    len: int,
    low: i64,
    high: i64,
) -> Outcome<(Reply, int)> {
    match way {
        FilterWay::Search { nulls } => search_outcome(
            context,
            nodes,
            id,
            len,
            low as int,
            high as int,
            nulls,
        ),
        FilterWay::Blocks { max_rows } => pieces_outcome(
            context,
            nodes,
            id,
            len,
            low as int,
            high as int,
            max_rows as int,
            0,
            Seq::empty(),
            0,
        ),
        FilterWay::Translate { ids, dictionary, entries } => translate_outcome(
            context,
            nodes,
            ids.0 as int,
            dictionary.0,
            entries as int,
            len,
            low as int,
            high as int,
        ),
        FilterWay::Scan => chain(
            rows_outcome(context, nodes, id, 0, len),
            |done: ()|
                given(
                    (
                        answer_of(
                            filter_query(low, high),
                            len,
                            decoded_value(context, nodes, id),
                        ),
                        len,
                    ),
                ),
        ),
    }
}

/// The filter of a column by bounds of its values.
#[verifier::opaque]
pub open spec fn filter_outcome(
    column: EncodedColumn,
    context: Context,
    low: i64,
    high: i64,
) -> Outcome<(Reply, int)> {
    after_header(
        context,
        way_outcome(
            context,
            column.decoder.arena(),
            column.decoder.top().0 as int,
            filter_way(column),
            column.truth@.len() as int,
            low,
            high,
        ),
    )
}

/// A filter that scans answers as a scan.
pub proof fn lemma_filter_scans(column: EncodedColumn, context: Context, low: i64, high: i64)
    requires
        filter_way(column) == FilterWay::Scan,
    ensures
        ({
            let len = column.truth@.len() as int;
            let scan = scan_answer(
                context,
                column.decoder.arena(),
                column.decoder.top().0 as int,
                filter_query(low, high),
                len,
                0,
                len,
            );
            let filter = filter_outcome(column, context, low, high);
            &&& filter.trace == scan.trace
            &&& match scan.result {
                Ok(reply) => filter.result == Ok::<(Reply, int), Error>((reply, len)),
                Err(e) => filter.result == Err::<(Reply, int), Error>(e),
            }
        }),
{
    reveal(filter_outcome);
}

proof fn lemma_pieces_give_ranges(
    context: Context,
    nodes: Seq<DecoderNode>,
    id: int,
    len: int,
    low: int,
    high: int,
    max_rows: int,
    block_start: int,
    ranges: Seq<Span>,
    decoded: int,
)
    ensures
        pieces_outcome(
            context,
            nodes,
            id,
            len,
            low,
            high,
            max_rows,
            block_start,
            ranges,
            decoded,
        ).result matches Ok((reply, _)) ==> reply is Ranges,
    decreases len - block_start,
{
    if block_start < len && max_rows > 0 {
        let stop = block_end(block_start, max_rows, len);
        let step = cuts_outcome(
            context,
            nodes,
            id,
            block_start,
            stop,
            low,
            high,
            NullPlacement::NoNulls,
            decoded,
        );
        if let Ok(place) = step.result {
            lemma_pieces_give_ranges(
                context,
                nodes,
                id,
                len,
                low,
                high,
                max_rows,
                stop,
                with_range(ranges, place.0, place.1),
                place.2,
            );
        }
    }
}

/// A filter gives ranges of rows.
pub proof fn lemma_filters_give_ranges(
    column: EncodedColumn,
    context: Context,
    low: i64,
    high: i64,
)
    ensures
        filter_outcome(column, context, low, high).result matches Ok((reply, _)) ==> reply is Ranges,
{
    reveal(filter_outcome);
    if let FilterWay::Blocks { max_rows } = filter_way(column) {
        lemma_pieces_give_ranges(
            context,
            column.decoder.arena(),
            column.decoder.top().0 as int,
            column.truth@.len() as int,
            low as int,
            high as int,
            max_rows as int,
            0,
            Seq::empty(),
            0,
        );
    }
}

/// The result of a filter in a session that may have read before.
pub open spec fn filtered_in(
    r: Result<Execution, Error>,
    column: EncodedColumn,
    low: i64,
    high: i64,
    before: ReadSession<'_>,
    after: ReadSession<'_>,
) -> bool {
    let context = before.context();
    let wanted = filter_outcome(column, context, low, high);
    &&& after.follows(before, wanted.trace)
    &&& match wanted.result {
        Err(e) => r matches Err(found) && found == e,
        Ok((reply, decoded)) => if context.accounted && after@.logical.len() > usize::MAX {
            r matches Err(found) && found == Error::AccessUncountable
        } else {
            r matches Ok(execution) && execution.answer@ == reply && execution.metrics
                == metrics_of(context, after@) && execution.decoded_rows == decoded
        },
    }
}

/// An answer and the number of rows decoded for it are those of an outcome.
spec fn gathered(
    r: Result<(Vec<Span>, usize), Error>,
    outcome: Outcome<(Reply, int)>,
    before: ReadSession<'_>,
    after: ReadSession<'_>,
) -> bool {
    &&& after.follows(before, outcome.trace)
    &&& match outcome.result {
        Err(e) => r matches Err(found) && found == e,
        Ok((reply, decoded)) => r matches Ok(found) && Reply::Ranges(found.0@) == reply && found.1
            == decoded,
    }
}

fn search_rows(
    decoder: &DecoderIr,
    id: NodeId,
    session: &mut ReadSession<'_>,
    len: usize,
    low: i64,
    high: i64,
    nulls: NullPlacement,
) -> (r: Result<(Vec<Span>, usize), Error>)
    requires
        decoder.wf(),
        old(session).wf(),
    ensures
        gathered(
            r,
            search_outcome(
                old(session).context(),
                decoder.arena(),
                id.0 as int,
                len as int,
                low as int,
                high as int,
                nulls,
            ),
            *old(session),
            *final(session),
        ),
{
    let ghost inner = cuts_outcome(
        session.context(),
        decoder.arena(),
        id.0 as int,
        0,
        len as int,
        low as int,
        high as int,
        nulls,
        0,
    );
    let found = find_cuts(decoder, id, session, 0, len, low, high, nulls, 0);
    assert(inner.trace + Seq::<Event>::empty() =~= inner.trace);
    let (start, end, decoded) = match found {
        Ok(found) => found,
        Err(e) => {
            return Err(e);
        },
    };
    let mut ranges: Vec<Span> = Vec::new();
    if start < end {
        ranges.push(Span { start, end });
        assert(ranges@ =~= seq![Span { start, end }]);
    } else {
        assert(ranges@ =~= Seq::empty());
    }
    Ok((ranges, decoded))
}

#[verifier::spinoff_prover]
#[verifier::rlimit(80)]
fn search_blocks(
    decoder: &DecoderIr,
    id: NodeId,
    session: &mut ReadSession<'_>,
    len: usize,
    low: i64,
    high: i64,
    max_rows: usize,
) -> (r: Result<(Vec<Span>, usize), Error>)
    requires
        decoder.wf(),
        old(session).wf(),
        max_rows > 0,
    ensures
        gathered(
            r,
            pieces_outcome(
                old(session).context(),
                decoder.arena(),
                id.0 as int,
                len as int,
                low as int,
                high as int,
                max_rows as int,
                0,
                Seq::empty(),
                0,
            ),
            *old(session),
            *final(session),
        ),
{
    let ghost first = *session;
    let ghost context = session.context();
    let ghost nodes = decoder.arena();
    let ghost all = pieces_outcome(
        context,
        nodes,
        id.0 as int,
        len as int,
        low as int,
        high as int,
        max_rows as int,
        0,
        Seq::empty(),
        0,
    );
    let mut ranges: Vec<Span> = Vec::new();
    let mut decoded: usize = 0;
    let mut block_start: usize = 0;
    let ghost mut done: Seq<Event> = Seq::empty();
    proof {
        session.lemma_still();
        assert(done + all.trace =~= all.trace);
        assert(ranges@ =~= Seq::empty());
    }
    while block_start < len
        invariant
            decoder.wf(),
            nodes == decoder.arena(),
            max_rows > 0,
            session.follows(first, done),
            context == first.context(),
            first == *old(session),
            all == pieces_outcome(
                context,
                nodes,
                id.0 as int,
                len as int,
                low as int,
                high as int,
                max_rows as int,
                0,
                Seq::empty(),
                0,
            ),
            left_of(
                all,
                done,
                pieces_outcome(
                    context,
                    nodes,
                    id.0 as int,
                    len as int,
                    low as int,
                    high as int,
                    max_rows as int,
                    block_start as int,
                    ranges@,
                    decoded as int,
                ),
            ),
        decreases len - block_start,
    {
        let stop: usize = if max_rows < len - block_start {
            block_start + max_rows
        } else {
            len
        };
        let ghost before = *session;
        let ghost prior = done;
        let ghost step = cuts_outcome(
            context,
            nodes,
            id.0 as int,
            block_start as int,
            stop as int,
            low as int,
            high as int,
            NullPlacement::NoNulls,
            decoded as int,
        );
        let found = find_cuts(
            decoder,
            id,
            session,
            block_start,
            stop,
            low,
            high,
            NullPlacement::NoNulls,
            decoded,
        );
        proof {
            session.lemma_join(before, first, prior, step.trace);
            done = prior + step.trace;
        }
        let (start, end, count) = match found {
            Ok(found) => found,
            Err(e) => {
                return Err(e);
            },
        };
        if start < end {
            push_range(&mut ranges, start, end);
        }
        decoded = count;
        proof {
            let rest = pieces_outcome(
                context,
                nodes,
                id.0 as int,
                len as int,
                low as int,
                high as int,
                max_rows as int,
                stop as int,
                ranges@,
                decoded as int,
            );
            assert(prior + (step.trace + rest.trace) =~= done + rest.trace);
        }
        block_start = stop;
    }
    assert(done + Seq::<Event>::empty() =~= done);
    Ok((ranges, decoded))
}

#[verifier::spinoff_prover]
#[verifier::rlimit(80)]
fn match_ids(
    decoder: &DecoderIr,
    ids: NodeId,
    session: &mut ReadSession<'_>,
    entries: usize,
    low_id: usize,
    high_id: usize,
    len: usize,
) -> (r: Result<Vec<Span>, Error>)
    requires
        decoder.wf(),
        old(session).wf(),
    ensures
        ({
            let wanted = ids_outcome(
                old(session).context(),
                decoder.arena(),
                ids.0 as int,
                entries as int,
                low_id as int,
                high_id as int,
                0,
                len as int,
                Seq::empty(),
            );
            &&& final(session).follows(*old(session), wanted.trace)
            &&& match wanted.result {
                Ok(ranges) => r matches Ok(found) && found@ == ranges,
                Err(e) => r matches Err(found) && found == e,
            }
        }),
{
    let ghost first = *session;
    let ghost context = session.context();
    let ghost nodes = decoder.arena();
    let ghost all = ids_outcome(
        context,
        nodes,
        ids.0 as int,
        entries as int,
        low_id as int,
        high_id as int,
        0,
        len as int,
        Seq::empty(),
    );
    let mut ranges: Vec<Span> = Vec::new();
    let mut row: usize = 0;
    let ghost mut done: Seq<Event> = Seq::empty();
    proof {
        session.lemma_still();
        assert(done + all.trace =~= all.trace);
        assert(ranges@ =~= Seq::empty());
    }
    while row < len
        invariant
            decoder.wf(),
            nodes == decoder.arena(),
            row <= len,
            session.follows(first, done),
            context == first.context(),
            first == *old(session),
            all == ids_outcome(
                context,
                nodes,
                ids.0 as int,
                entries as int,
                low_id as int,
                high_id as int,
                0,
                len as int,
                Seq::empty(),
            ),
            left_of(
                all,
                done,
                ids_outcome(
                    context,
                    nodes,
                    ids.0 as int,
                    entries as int,
                    low_id as int,
                    high_id as int,
                    row as int,
                    len as int,
                    ranges@,
                ),
            ),
        decreases len - row,
    {
        let ghost before = *session;
        let ghost prior = done;
        let ghost read = get_outcome(context, nodes, ids.0 as int, row as int);
        let value = get(decoder, ids, row, session);
        proof {
            session.lemma_join(before, first, done, read.trace);
            assert(done + (read.trace + Seq::<Event>::empty()) =~= done + read.trace);
            done = done + read.trace;
        }
        let value = match value {
            Ok(value) => value,
            Err(e) => {
                return Err(e);
            },
        };
        let entry: usize = match exec_entry_of(entries, widen(value)) {
            Ok(entry) => entry,
            Err(e) => {
                return Err(e);
            },
        };
        if low_id <= entry && entry < high_id {
            push_range(&mut ranges, row, row + 1);
        }
        proof {
            let rest = ids_outcome(
                context,
                nodes,
                ids.0 as int,
                entries as int,
                low_id as int,
                high_id as int,
                row + 1,
                len as int,
                ranges@,
            );
            assert(prior + (read.trace + rest.trace) =~= done + rest.trace);
        }
        row = row + 1;
    }
    assert(done + Seq::<Event>::empty() =~= done);
    Ok(ranges)
}

fn translate_rows(
    decoder: &DecoderIr,
    ids: NodeId,
    dictionary: FieldId,
    entries: usize,
    session: &mut ReadSession<'_>,
    len: usize,
    low: i64,
    high: i64,
) -> (r: Result<(Vec<Span>, usize), Error>)
    requires
        decoder.wf(),
        old(session).wf(),
    ensures
        gathered(
            r,
            translate_outcome(
                old(session).context(),
                decoder.arena(),
                ids.0 as int,
                dictionary.0,
                entries as int,
                len as int,
                low as int,
                high as int,
            ),
            *old(session),
            *final(session),
        ),
{
    let ghost first = *session;
    let ghost context = session.context();
    let ghost one = entry_outcome(context, dictionary.0, 0, entries as int, low as int, false);
    let found = find_entry(session, dictionary.0, 0, entries, low, false);
    let low_id: usize = match found {
        Ok(found) => found,
        Err(e) => {
            return Err(e);
        },
    };
    let ghost middle = *session;
    let ghost two = entry_outcome(
        context,
        dictionary.0,
        low_id as int,
        entries as int,
        high as int,
        true,
    );
    let found = find_entry(session, dictionary.0, low_id, entries, high, true);
    proof {
        session.lemma_join(middle, first, one.trace, two.trace);
        assert(one.trace + (two.trace + Seq::<Event>::empty()) =~= one.trace + two.trace);
    }
    let high_id: usize = match found {
        Ok(found) => found,
        Err(e) => {
            return Err(e);
        },
    };
    if low_id >= high_id {
        let ranges: Vec<Span> = Vec::new();
        assert(ranges@ =~= Seq::empty());
        return Ok((ranges, 0));
    }
    let ghost middle = *session;
    let ghost three = ids_outcome(
        context,
        decoder.arena(),
        ids.0 as int,
        entries as int,
        low_id as int,
        high_id as int,
        0,
        len as int,
        Seq::empty(),
    );
    let found = match_ids(decoder, ids, session, entries, low_id, high_id, len);
    proof {
        session.lemma_join(middle, first, one.trace + two.trace, three.trace);
        assert(one.trace + two.trace + three.trace =~= one.trace + (two.trace + (three.trace + Seq::<
            Event,
        >::empty())));
        assert(one.trace + two.trace + three.trace =~= one.trace + (two.trace + three.trace));
    }
    match found {
        Ok(ranges) => Ok((ranges, len)),
        Err(e) => Err(e),
    }
}

/// Finds the rows of a column whose values lie between two bounds, in a session on its
/// page and in the way that the facts about it allow.
#[verifier::spinoff_prover]
#[verifier::rlimit(60)]
pub fn filter_session(column: &EncodedColumn, low: i64, high: i64, session: &mut ReadSession<'_>) -> (r:
    Result<Execution, Error>)
    requires
        column.wf(),
        old(session).wf(),
        column.page.plan() == old(session).context().layout,
    ensures
        match query_error(column.truth@.len() as int, filter_query(low, high)) {
            Some(e) => (r matches Err(found) && found == e) && final(session).follows(
                *old(session),
                Seq::empty(),
            ),
            None => filtered_in(r, *column, low, high, *old(session), *final(session)),
        },
{
    proof {
        reveal(filter_outcome);
    }
    let ghost first = *session;
    let ghost context = session.context();
    let query = Query::Filter { predicate: Predicate::Between { low, high } };
    let len: usize = column.truth.len();
    if low > high {
        proof {
            session.lemma_still();
        }
        return Err(Error::BetweenBoundsInvalid);
    }
    let way = choose_filter(column);
    assert(way matches FilterWay::Blocks { max_rows } ==> max_rows > 0) by {
        reveal(filter_way);
    }
    if way == FilterWay::Scan {
        let r = execute_session(column, &query, true, session);
        proof {
            lemma_filter_scans(*column, context, low, high);
        }
        return r;
    }
    match load_metadata(&column.page, session) {
        Ok(()) => {},
        Err(e) => {
            return Err(e);
        },
    }
    let ghost middle = *session;
    let root: NodeId = column.decoder.root();
    let ghost inner = way_outcome(
        context,
        column.decoder.arena(),
        root.0 as int,
        way,
        len as int,
        low,
        high,
    );
    let found = match way {
        FilterWay::Search { nulls } => search_rows(
            &column.decoder,
            root,
            session,
            len,
            low,
            high,
            nulls,
        ),
        FilterWay::Blocks { max_rows } => search_blocks(
            &column.decoder,
            root,
            session,
            len,
            low,
            high,
            max_rows,
        ),
        FilterWay::Translate { ids, dictionary, entries } => translate_rows(
            &column.decoder,
            ids,
            dictionary,
            entries,
            session,
            len,
            low,
            high,
        ),
        FilterWay::Scan => {
            assert(false);
            Ok((Vec::new(), 0))
        },
    };
    proof {
        session.lemma_join(middle, first, metadata_outcome(context).trace, inner.trace);
    }
    match found {
        Ok((ranges, decoded_rows)) => match session.checked_metrics() {
            Some(metrics) => Ok(
                Execution { answer: Answer::Ranges(ranges), metrics, decoded_rows },
            ),
            None => Err(Error::AccessUncountable),
        },
        Err(e) => Err(e),
    }
}

/// Finds the rows of a column whose values lie between two bounds, in the way that the
/// facts about it allow.
pub fn execute_filter(column: &EncodedColumn, low: i64, high: i64, mode: ClosureMode) -> (r: Result<
    Execution,
    Error,
>)
    requires
        column.wf(),
    ensures
        match query_error(column.truth@.len() as int, filter_query(low, high)) {
            Some(e) => r matches Err(found) && found == e,
            None => {
                let context = page_context(&column.page, mode, true);
                tallied(r, context, filter_outcome(*column, context, low, high))
            },
        },
{
    let mut session = ReadSession::new(&column.page, mode);
    filter_session(column, low, high, &mut session)
}

/// Answers a query by the plan that is compiled for it: a filter by bounds in the way that
/// the facts about the column allow, and any other from the rows that it asks about.
pub fn execute_compiled(column: &EncodedColumn, query: &Query, mode: ClosureMode) -> (r: Result<
    Execution,
    Error,
>)
    requires
        column.wf(),
    ensures
        match *query {
            Query::Filter { predicate: Predicate::Between { low, high } } => if low > high {
                r matches Err(found) && found == Error::BetweenBoundsInvalid
            } else {
                let context = page_context(&column.page, mode, true);
                tallied(r, context, filter_outcome(*column, context, low, high))
            },
            _ => scanned(
                r,
                *column,
                *query,
                mode,
                asked_rows(column.truth@.len() as int, *query).0,
                asked_rows(column.truth@.len() as int, *query).1,
            ),
        },
{
    match *query {
        Query::Filter { predicate: Predicate::Between { low, high } } => execute_filter(
            column,
            low,
            high,
            mode,
        ),
        _ => execute_interpreted(column, query, mode),
    }
}

} // verus!
