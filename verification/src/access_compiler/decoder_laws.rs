//! Which decoders are sound, how many rows their nodes have, and what is left to transfer.
#[allow(unused_imports)]
use super::decoder::{
    arena_error, child_of, children_first, decoder_error, lemma_len_steps, node_error, node_len,
    own_len, DecoderNode,
};
#[allow(unused_imports)]
use super::error::Error;
#[allow(unused_imports)]
use super::ids::NodeId;
#[allow(unused_imports)]
use super::span::{covers, cut, cut_one, lemma_uncovered, uncovered_parts, Span};
use vstd::prelude::*;

verus! {

// ----- decoders -----

/// Whether a node is sound over its child: its intervals and counts are not nought where they
/// may not be, and it has as many rows below it as it says.
pub open spec fn node_stands(nodes: Seq<DecoderNode>, i: int) -> bool {
    match nodes[i] {
        DecoderNode::BitUnpack { width, miniblock_rows, miniblock_bytes, .. } => width <= 64
            && miniblock_rows != 0 && miniblock_bytes != 0,
        DecoderNode::Rle { values, runs, index_interval, .. } => runs != 0 && index_interval != 0
            && node_len(nodes, nodes[values.0 as int]) == Ok::<usize, Error>(runs),
        DecoderNode::Dictionary { ids, entries, .. } => entries != 0 && (node_len(
            nodes,
            nodes[ids.0 as int],
        ) matches Ok(rows) && rows != 0),
        DecoderNode::Delta { deltas, restart_interval, len, .. } => restart_interval != 0
            && node_len(nodes, nodes[deltas.0 as int]) == Ok::<usize, Error>(len),
        DecoderNode::For { values, .. } => node_len(nodes, nodes[values.0 as int]) matches Ok(rows)
            && rows != 0,
        DecoderNode::Patch { values, count, index_interval, .. } => index_interval != 0 && (
        node_len(nodes, nodes[values.0 as int]) matches Ok(rows) && count <= rows),
        DecoderNode::Nullable { values, logical_len, nonnull_len, rank_interval, .. } => logical_len
            != 0 && rank_interval != 0 && nonnull_len <= logical_len && node_len(
            nodes,
            nodes[values.0 as int],
        ) == Ok::<usize, Error>(nonnull_len),
    }
}

/// A decoder is sound where its root is a node, every child comes before its parent, and every
/// node stands over its child.
pub proof fn law_sound_decoders_stand(nodes: Seq<DecoderNode>, root: NodeId)
    requires
        nodes.len() <= usize::MAX,
    ensures
        decoder_error(nodes, root) is None <==> {
            &&& root.0 < nodes.len()
            &&& forall|i: int|
                0 <= i < nodes.len() ==> (child_of(#[trigger] nodes[i]) matches Some(child)
                    ==> child.0 < i)
            &&& forall|i: int|
                #![trigger nodes[i]]
                0 <= i < nodes.len() ==> node_stands(nodes, i)
        },
{
    lemma_stands(nodes, nodes.len() as int);
}

proof fn lemma_stands(nodes: Seq<DecoderNode>, n: int)
    requires
        0 <= n <= nodes.len() <= usize::MAX,
    ensures
        arena_error(nodes, n) is None <==> {
            &&& forall|i: int|
                0 <= i < n ==> (child_of(#[trigger] nodes[i]) matches Some(child) ==> child.0 < i)
            &&& forall|i: int| #![trigger nodes[i]] 0 <= i < n ==> node_stands(nodes, i)
        },
    decreases n,
{
    if n > 0 {
        lemma_stands(nodes, n - 1);
        let last = nodes[n - 1];
        assert(node_error(nodes, (n - 1) as usize) is None <==> node_stands(nodes, n - 1));
    }
}

/// A node that shifts, looks up or patches values has the rows of its child; any other has
/// those that it says.
pub proof fn law_nodes_have_the_rows_below(nodes: Seq<DecoderNode>, i: int)
    requires
        0 <= i < nodes.len(),
        children_first(nodes, nodes.len() as int),
    ensures
        node_len(nodes, nodes[i]) == match nodes[i] {
            DecoderNode::For { values, .. } => node_len(nodes, nodes[values.0 as int]),
            DecoderNode::Dictionary { ids, .. } => node_len(nodes, nodes[ids.0 as int]),
            DecoderNode::Patch { values, .. } => node_len(nodes, nodes[values.0 as int]),
            DecoderNode::BitUnpack { len, .. } => Ok(len),
            DecoderNode::Rle { len, .. } => Ok(len),
            DecoderNode::Delta { len, .. } => Ok(len),
            DecoderNode::Nullable { logical_len, .. } => Ok(logical_len),
        },
{
    let n = nodes.len() as nat;
    if let Err(child) = own_len(nodes[i]) {
        assert(child.0 < i);
        lemma_len_steps(nodes, child.0 as int, (n - 1) as nat, n);
    }
}

// ----- what is left -----

/// Whether ranges are in order, apart, and none is empty.
pub open spec fn lie_apart(spans: Seq<Span>) -> bool {
    &&& forall|i: int| 0 <= i < spans.len() ==> (#[trigger] spans[i]).start < spans[i].end
    &&& forall|i: int, j: int|
        0 <= i < j < spans.len() ==> (#[trigger] spans[i]).end < (#[trigger] spans[j]).start
}

proof fn lemma_cut_apart(pieces: Seq<Span>, covered: Span)
    requires
        lie_apart(pieces),
        covered.start < covered.end,
    ensures
        lie_apart(cut(pieces, covered)),
        cut(pieces, covered).len() > 0 ==> pieces.len() > 0 && cut(pieces, covered).last().end
            <= pieces.last().end,
    decreases pieces.len(),
{
    if pieces.len() > 0 {
        let before = pieces.drop_last();
        let last = pieces.last();
        assert(last == pieces[pieces.len() - 1]);
        assert forall|i: int| 0 <= i < before.len() implies (#[trigger] before[i]).start
            < before[i].end by {
            assert(before[i] == pieces[i]);
        }
        lemma_cut_apart(before, covered);
        let a = cut(before, covered);
        let b = cut_one(last, covered);
        let all = a + b;
        assert(cut(pieces, covered) == all);
        assert forall|i: int| 0 <= i < b.len() implies last.start <= (#[trigger] b[i]).start
            && b[i].start < b[i].end <= last.end by {}
        assert forall|i: int, j: int| 0 <= i < j < b.len() implies (#[trigger] b[i]).end < (
        #[trigger] b[j]).start by {}
        if before.len() > 0 {
            assert(pieces[before.len() - 1].end < pieces[pieces.len() - 1].start);
        }
        assert forall|i: int| 0 <= i < a.len() implies (#[trigger] a[i]).end < last.start by {
            if i < a.len() - 1 {
                assert(a[i].end < a[a.len() - 1].start);
                assert(a[a.len() - 1].start < a[a.len() - 1].end);
            }
        }
        assert forall|i: int, j: int| 0 <= i < j < all.len() implies (#[trigger] all[i]).end < (
        #[trigger] all[j]).start by {
            if j < a.len() {
                assert(all[i] == a[i] && all[j] == a[j]);
            } else if i < a.len() {
                assert(all[i] == a[i] && all[j] == b[j - a.len()]);
            } else {
                assert(all[i] == b[i - a.len()] && all[j] == b[j - a.len()]);
            }
        }
        assert forall|i: int| 0 <= i < all.len() implies (#[trigger] all[i]).start < all[i].end by {
            if i < a.len() {
                assert(all[i] == a[i]);
            } else {
                assert(all[i] == b[i - a.len()]);
            }
        }
        if all.len() > 0 {
            if b.len() > 0 {
                assert(all.last() == b[b.len() - 1]);
            } else {
                assert(all.last() == a[a.len() - 1]);
            }
        }
    }
}

/// What is left of a range to transfer is as few ranges as can be: those bytes of it that are
/// not there yet, in order, with bytes that are there between any two.
pub proof fn law_what_is_left_lies_apart(existing: Seq<Span>, requested: Span, b: int)
    requires
        requested.start < requested.end,
        forall|i: int|
            0 <= i < existing.len() ==> (#[trigger] existing[i]).start < existing[i].end,
    ensures
        lie_apart(uncovered_parts(existing, requested)),
        covers(uncovered_parts(existing, requested), b) <==> requested.start <= b < requested.end
            && !covers(existing, b),
{
    lemma_left_apart(existing, requested);
    lemma_uncovered(existing, requested);
}

proof fn lemma_left_apart(existing: Seq<Span>, requested: Span)
    requires
        requested.start < requested.end,
        forall|i: int|
            0 <= i < existing.len() ==> (#[trigger] existing[i]).start < existing[i].end,
    ensures
        lie_apart(uncovered_parts(existing, requested)),
    decreases existing.len(),
{
    if existing.len() > 0 {
        let before = existing.drop_last();
        assert forall|i: int| 0 <= i < before.len() implies (#[trigger] before[i]).start
            < before[i].end by {
            assert(before[i] == existing[i]);
        }
        lemma_left_apart(before, requested);
        assert(existing.last() == existing[existing.len() - 1]);
        lemma_cut_apart(uncovered_parts(before, requested), existing.last());
    }
}

} // verus!
