//! What is proved about how a column is stored and mapped holds of what is read.
#[allow(unused_imports)]
use super::access::{field_bytes, lemma_field_bytes_len, lemma_listed_len, listed_bytes};
#[allow(unused_imports)]
use super::bytes::{i64s_bytes, u32s_bytes};
#[allow(unused_imports)]
use super::coding::{
    all_positions, all_runs, compact, position_index, rank_values, restart_values, rows_before,
    run_index,
};
#[allow(unused_imports)]
use super::decoder::{child_of, DecoderNode, DeltaCoding};
#[allow(unused_imports)]
use super::encode::{lemma_positions, lemma_rows_before, lemma_runs_total};
#[allow(unused_imports)]
use super::ids::{FieldId, NodeId};
#[allow(unused_imports)]
use super::interpreter::{delta_outcome, delta_step, dictionary_value, for_value, get_outcome};
#[allow(unused_imports)]
use super::invariants::{
    arena_facts, derived_facts, descriptor_facts, frame_facts, structural_facts, transferred,
    AccessInvariant, CheckedInvariants, Fact, MappingInvariant, Property,
};
#[allow(unused_imports)]
use super::layout::{
    delivery, delivery_touches, layout_error, lemma_floor, lemma_scale, lemma_scale_next,
    lemma_valid_frame, ByteClosure, FieldLocation, Layout,
};
#[allow(unused_imports)]
use super::layout_laws::{is_delivered_with, law_closures_deliver_granules_and_frames};
#[allow(unused_imports)]
use super::restore::{lemma_read_i64, lemma_read_u32, stores};
#[allow(unused_imports)]
use super::runtime::{
    after_event, bits_outcome, ceil_div, chain, decoded, empty_ledger, frame_delivery, i64_outcome,
    lemma_ceil, packed_bit, packed_byte, packed_end, u32_outcome, u8_outcome, ClosureMode, Context,
    Event,
};
#[allow(unused_imports)]
use super::span::{
    covers, holds_span, is_merged, lemma_merged, lemma_separated_unique, merged, separated, total,
    touches, uncovered_parts, Span,
};
#[allow(unused_imports)]
use super::support::{
    block_rank_outcome, find_outcome, ones_outcome, rank_outcome, scan_outcome, search_outcome,
};
#[allow(unused_imports)]
use super::truths::lemma_arena_fact;
#[allow(unused_imports)]
use super::walks::entries_in_order;
use vstd::prelude::*;

verus! {

// ----- frames -----

/// A fact about an enclosing frame is about the first frame of the layout.
proof fn lemma_frame_fact(
    nodes: Seq<DecoderNode>,
    root: NodeId,
    layout: Layout,
    checked: CheckedInvariants,
    f: Fact,
    compressed_bytes: usize,
)
    requires
        nodes.len() <= usize::MAX,
        derived_facts(nodes, root, layout.frames, checked).contains(f),
        f.property == Property::Access(AccessInvariant::EnclosingFrame { compressed_bytes }),
    ensures
        frame_facts(root, layout.frames).contains(f),
        layout.frames.len() > 0,
{
    if arena_facts(nodes, nodes.len() as int).contains(f) {
        lemma_arena_fact(nodes, nodes.len() as int, f);
        let id = f.node.0 as int;
        match nodes[id] {
            DecoderNode::BitUnpack { .. } => {},
            DecoderNode::For { .. } => {},
            DecoderNode::Delta { .. } => {},
            DecoderNode::Dictionary { .. } => {},
            DecoderNode::Rle { .. } => {},
            DecoderNode::Patch { .. } => {},
            DecoderNode::Nullable { .. } => {},
        }
        assert(false);
    }
    assert(!descriptor_facts(root, checked).contains(f));
}

/// The range of one frame, as a list.
proof fn lemma_one_span(spans: Seq<Span>, span: Span)
    requires
        span.start <= span.end,
        separated(spans),
        forall|x: int| #[trigger] touches(spans, x) <==> 2 * span.start <= x <= 2 * span.end,
    ensures
        spans == seq![span],
        total(spans) == span.end - span.start,
{
    let one = seq![span];
    assert(one[0] == span);
    assert forall|x: int| #[trigger] touches(one, x) == touches(spans, x) by {
        if 2 * span.start <= x <= 2 * span.end {
            assert(one[0].touches(x));
        }
        if touches(one, x) {
            let i = choose|i: int| 0 <= i < one.len() && (#[trigger] one[i]).touches(x);
            assert(one[i] == span);
        }
    }
    lemma_separated_unique(one, spans);
    reveal_with_fuel(total, 2);
    assert(one.drop_last() =~= Seq::empty());
}

/// Where an enclosing frame of so many compressed bytes is proved, so many bytes of the file
/// are what is delivered for any bytes of it: the closure of bytes that lie in the frame,
/// with all that they depend on, delivers the frame and nothing else.
pub proof fn law_enclosing_frames_are_delivered_whole(
    layout: Layout,
    nodes: Seq<DecoderNode>,
    root: NodeId,
    checked: CheckedInvariants,
    f: Fact,
    compressed_bytes: usize,
    seed: Set<(FieldId, int)>,
    closure: ByteClosure,
    p: (FieldId, int),
)
    requires
        layout_error(layout) is None,
        nodes.len() <= usize::MAX,
        derived_facts(nodes, root, layout.frames, checked).contains(f),
        f.property == Property::Access(AccessInvariant::EnclosingFrame { compressed_bytes }),
        closure.closes(layout, seed),
        seed.contains(p),
        forall|q: (FieldId, int)| #[trigger]
            closure.fields@.contains(q) ==> (layout.fields[q.0.0 as int].location matches FieldLocation::Framed {
                frame,
                ..
            } && frame.0 == 0),
    ensures
        closure.delivered_bytes == compressed_bytes,
        closure.delivered@.len() == 1,
        closure.delivered@[0].start == layout.frames[0].offset,
        closure.delivered@[0].end == layout.frames[0].offset + compressed_bytes,
{
    lemma_frame_fact(nodes, root, layout, checked, f, compressed_bytes);
    lemma_valid_frame(layout, 0);
    let frame = layout.frames[0];
    let span = Span {
        start: frame.offset,
        end: (frame.offset + frame.compressed_length) as usize,
    };
    assert(closure.fields@.contains(p));
    assert forall|x: int| #[trigger] touches(closure.delivered@, x) <==> 2 * span.start <= x <= 2
        * span.end by {
        assert(touches(closure.delivered@, x) == delivery_touches(layout, closure.fields@, x));
        if delivery_touches(layout, closure.fields@, x) {
            let q = choose|q: (FieldId, int)|
                #[trigger] closure.fields@.contains(q) && 2 * delivery(layout, q).0 <= x <= 2
                    * delivery(layout, q).1;
            assert(delivery(layout, q) == (frame.offset as int, frame.offset
                + frame.compressed_length));
        }
    }
    lemma_one_span(closure.delivered@, span);
}

/// Whether a field is held in the first frame.
pub open spec fn in_first_frame(layout: Layout, f: FieldId) -> bool {
    layout.fields[f.0 as int].location matches FieldLocation::Framed { frame, .. } && frame.0 == 0
}

/// Whether a byte of the file is delivered for a byte of a closure outside the first frame.
pub open spec fn is_delivered_besides(layout: Layout, s: Set<(FieldId, int)>, b: int) -> bool {
    exists|q: (FieldId, int)|
        s.contains(q) && !in_first_frame(layout, q.0) && #[trigger] is_delivered_with(layout, q, b)
}

/// Where an enclosing frame of so many compressed bytes is proved, the closure of any byte of
/// a field in it delivers exactly so many bytes from the frame's place on, besides what it
/// delivers for the description and for the fields that lie outside the frame.
pub proof fn law_enclosing_frames_are_delivered_besides(
    layout: Layout,
    nodes: Seq<DecoderNode>,
    root: NodeId,
    checked: CheckedInvariants,
    f: Fact,
    compressed_bytes: usize,
    seed: Set<(FieldId, int)>,
    closure: ByteClosure,
    p: (FieldId, int),
    b: int,
)
    requires
        layout_error(layout) is None,
        nodes.len() <= usize::MAX,
        derived_facts(nodes, root, layout.frames, checked).contains(f),
        f.property == Property::Access(AccessInvariant::EnclosingFrame { compressed_bytes }),
        closure.closes(layout, seed),
        closure.fields@.contains(p),
        in_first_frame(layout, p.0),
    ensures
        covers(closure.delivered@, b) <==> {
            ||| layout.frames[0].offset <= b < layout.frames[0].offset + compressed_bytes
            ||| is_delivered_besides(layout, closure.fields@, b)
        },
{
    lemma_frame_fact(nodes, root, layout, checked, f, compressed_bytes);
    law_closures_deliver_granules_and_frames(layout, seed, closure, b);
    let s = closure.fields@;
    let frame = layout.frames[0];
    if frame.offset <= b < frame.offset + compressed_bytes {
        assert(is_delivered_with(layout, p, b));
    }
    if covers(closure.delivered@, b) {
        let q = choose|q: (FieldId, int)|
            s.contains(q) && #[trigger] is_delivered_with(layout, q, b);
        if !in_first_frame(layout, q.0) {
            assert(is_delivered_besides(layout, s, b));
        }
    }
    if is_delivered_besides(layout, s, b) {
        let q = choose|q: (FieldId, int)|
            s.contains(q) && !in_first_frame(layout, q.0) && #[trigger] is_delivered_with(
                layout,
                q,
                b,
            );
        assert(is_delivered_with(layout, q, b));
    }
}

/// The bytes that such a closure delivers are as many as the frame's and those besides, that
/// do not lie in the frame.
pub proof fn law_enclosing_frames_are_counted_besides(
    layout: Layout,
    nodes: Seq<DecoderNode>,
    root: NodeId,
    checked: CheckedInvariants,
    f: Fact,
    compressed_bytes: usize,
    seed: Set<(FieldId, int)>,
    closure: ByteClosure,
    p: (FieldId, int),
    besides: Set<(FieldId, int)>,
)
    requires
        layout_error(layout) is None,
        nodes.len() <= usize::MAX,
        derived_facts(nodes, root, layout.frames, checked).contains(f),
        f.property == Property::Access(AccessInvariant::EnclosingFrame { compressed_bytes }),
        closure.closes(layout, seed),
        closure.fields@.contains(p),
        in_first_frame(layout, p.0),
        forall|q: (FieldId, int)| #[trigger]
            besides.contains(q) <==> q.0 == p.0 && is_delivered_besides(
                layout,
                closure.fields@,
                q.1,
            ) && !(layout.frames[0].offset <= q.1 < layout.frames[0].offset + compressed_bytes),
    ensures
        besides.finite(),
        closure.delivered_bytes == compressed_bytes + besides.len(),
{
    let offset = layout.frames[0].offset as int;
    let whole = listed_bytes(p.0, closure.delivered@);
    let framed = field_bytes(p.0, offset, offset + compressed_bytes);
    lemma_listed_len(p.0, closure.delivered@);
    lemma_field_bytes_len(p.0, offset, offset + compressed_bytes);
    assert forall|q: (FieldId, int)| #[trigger] whole.contains(q) <==> framed.contains(q)
        || besides.contains(q) by {
        law_enclosing_frames_are_delivered_besides(
            layout,
            nodes,
            root,
            checked,
            f,
            compressed_bytes,
            seed,
            closure,
            p,
            q.1,
        );
    }
    assert(besides =~= whole.difference(framed));
    assert(whole =~= framed.union(besides));
    assert(framed.disjoint(besides));
    vstd::set_lib::lemma_set_disjoint_lens(framed, besides);
}

/// A list of one range, joined.
proof fn lemma_merged_one(spans: Seq<Span>, span: Span)
    requires
        span.start <= span.end,
        spans =~= seq![span],
    ensures
        merged(spans) == seq![span],
        total(merged(spans)) == span.end - span.start,
{
    let one = seq![span];
    assert(separated(one));
    assert(is_merged(one, spans));
    lemma_merged(one, spans);
    reveal_with_fuel(total, 2);
    assert(one.drop_last() =~= Seq::empty());
}

/// Where an enclosing frame of so many compressed bytes is proved, the first read of a field
/// in it, in a session that reads selectively, transfers so many bytes in one operation.
pub proof fn law_enclosing_frames_are_fetched_whole(
    context: Context,
    nodes: Seq<DecoderNode>,
    root: NodeId,
    checked: CheckedInvariants,
    f: Fact,
    compressed_bytes: usize,
    field: FieldId,
    start: int,
    end: int,
)
    requires
        layout_error(context.layout) is None,
        context.mode == ClosureMode::Selective,
        context.accounted,
        nodes.len() <= usize::MAX,
        derived_facts(nodes, root, context.layout.frames, checked).contains(f),
        f.property == Property::Access(AccessInvariant::EnclosingFrame { compressed_bytes }),
        field.0 < context.layout.fields.len(),
        end <= context.layout.fields[field.0 as int].length,
        context.layout.fields[field.0 as int].location matches FieldLocation::Framed { frame, .. }
            && frame.0 == 0,
    ensures
        ({
            let ledger = after_event(context, empty_ledger(), Event::Read { field, start, end });
            &&& total(ledger.delivered) == compressed_bytes
            &&& total(ledger.transferred) == compressed_bytes
            &&& ledger.operations == 1
        }),
{
    let layout = context.layout;
    lemma_frame_fact(nodes, root, layout, checked, f, compressed_bytes);
    lemma_valid_frame(layout, 0);
    let span = frame_delivery(context, 0);
    assert(!holds_span(empty_ledger().delivered, span));
    let new = uncovered_parts(Seq::empty(), span);
    assert(new =~= seq![span]);
    assert(empty_ledger().delivered.push(span) =~= seq![span]);
    assert(empty_ledger().transferred + new =~= seq![span]);
    lemma_merged_one(empty_ledger().delivered.push(span), span);
    lemma_merged_one(empty_ledger().transferred + new, span);
}

// ----- how much is read for a row -----

/// The reads of a field among some steps.
pub open spec fn reads_of(trace: Seq<Event>, field: FieldId) -> nat
    decreases trace.len(),
{
    if trace.len() == 0 {
        0
    } else {
        reads_of(trace.drop_last(), field) + match trace.last() {
            Event::Read { field: read, .. } => if read == field {
                1nat
            } else {
                0
            },
            Event::Values(_) => 0,
        }
    }
}

proof fn lemma_reads_sum(a: Seq<Event>, b: Seq<Event>, field: FieldId)
    ensures
        reads_of(a + b, field) == reads_of(a, field) + reads_of(b, field),
    decreases b.len(),
{
    if b.len() == 0 {
        assert(a + b =~= a);
    } else {
        lemma_reads_sum(a, b.drop_last(), field);
        assert((a + b).drop_last() =~= a + b.drop_last());
    }
}

proof fn lemma_reads_one(count: int, read: FieldId, start: int, end: int, field: FieldId)
    ensures
        reads_of(seq![Event::Values(count)] + Seq::<Event>::empty(), field) == 0,
        reads_of(
            seq![Event::Values(count)] + seq![Event::Read { field: read, start, end }],
            field,
        ) == if read == field {
            1nat
        } else {
            0
        },
        reads_of(Seq::empty(), field) == 0,
{
    let values = seq![Event::Values(count)];
    let one = seq![Event::Read { field: read, start, end }];
    reveal_with_fuel(reads_of, 2);
    assert(values.drop_last() =~= Seq::empty());
    assert(one.drop_last() =~= Seq::empty());
    assert(values + Seq::<Event>::empty() =~= values);
    lemma_reads_sum(values, one, field);
}

/// A number of a field is read in one read.
proof fn lemma_reads_u32(context: Context, read: FieldId, index: int, field: FieldId)
    ensures
        reads_of(u32_outcome(context, read, index).trace, field) <= if read == field {
            1nat
        } else {
            0
        },
        u32_outcome(context, read, index).result is Ok ==> reads_of(
            u32_outcome(context, read, index).trace,
            field,
        ) == if read == field {
            1nat
        } else {
            0
        },
{
    lemma_reads_one(1, read, index * 4, index * 4 + 4, field);
}

proof fn lemma_reads_search(
    context: Context,
    index: FieldId,
    low: int,
    top: int,
    target: int,
    field: FieldId,
)
    requires
        index != field,
    ensures
        reads_of(search_outcome(context, index, low, top, target).trace, field) == 0,
    decreases top - low,
{
    lemma_reads_one(0, index, 0, 0, field);
    if low < top {
        let mid = low + (top + 1 - low) / 2;
        let read = u32_outcome(context, index, mid * 2);
        lemma_reads_u32(context, index, mid * 2, field);
        if let Ok(first) = read.result {
            let (from, to) = if first <= target {
                (mid, top)
            } else {
                (low, mid - 1)
            };
            lemma_reads_search(context, index, from, to, target, field);
            let rest = search_outcome(context, index, from, to, target);
            lemma_reads_sum(read.trace, rest.trace, field);
        }
    }
}

/// A search of an index halves what is left at every entry that it reads.
pub proof fn law_searches_halve_what_is_left(
    context: Context,
    index: FieldId,
    low: int,
    top: int,
    target: int,
    k: nat,
)
    requires
        low <= top,
        top - low < vstd::arithmetic::power2::pow2(k),
    ensures
        reads_of(search_outcome(context, index, low, top, target).trace, index) <= k,
    decreases k,
{
    lemma_reads_one(0, index, 0, 0, index);
    vstd::arithmetic::power2::lemma2_to64();
    if low < top {
        vstd::arithmetic::power2::lemma_pow2_unfold(k);
        let mid = low + (top + 1 - low) / 2;
        let read = u32_outcome(context, index, mid * 2);
        lemma_reads_u32(context, index, mid * 2, index);
        if let Ok(first) = read.result {
            let (from, to) = if first <= target {
                (mid, top)
            } else {
                (low, mid - 1)
            };
            law_searches_halve_what_is_left(context, index, from, to, target, (k - 1) as nat);
            let rest = search_outcome(context, index, from, to, target);
            lemma_reads_sum(read.trace, rest.trace, index);
        }
    }
}

proof fn lemma_reads_scan(context: Context, positions: FieldId, from: int, to: int, target: int)
    ensures
        from <= to ==> reads_of(
            scan_outcome(context, positions, from, to, target).trace,
            positions,
        ) <= to - from,
        from > to ==> reads_of(
            scan_outcome(context, positions, from, to, target).trace,
            positions,
        ) == 0,
    decreases to - from,
{
    lemma_reads_one(0, positions, 0, 0, positions);
    if from < to {
        let read = u32_outcome(context, positions, from);
        lemma_reads_u32(context, positions, from, positions);
        assert(read.trace + Seq::<Event>::empty() =~= read.trace);
        if let Ok(position) = read.result {
            if position < target {
                lemma_reads_scan(context, positions, from + 1, to, target);
                let rest = scan_outcome(context, positions, from + 1, to, target);
                lemma_reads_sum(read.trace, rest.trace, positions);
            }
        }
    }
}

/// Where an index of exceptions with so many to an entry is proved, no more positions than
/// that are read to find the exception of a row.
pub proof fn law_patch_indexes_bound_what_is_read(
    context: Context,
    nodes: Seq<DecoderNode>,
    id: int,
    f: Fact,
    max_exceptions: usize,
    row: int,
)
    requires
        0 <= id < nodes.len(),
        structural_facts(nodes, id).contains(f),
        f.property == Property::Access(AccessInvariant::PatchIndex { max_exceptions }),
    ensures
        nodes[id] matches DecoderNode::Patch {
            positions,
            position_index,
            count,
            index_interval,
            ..
        } && (positions != position_index ==> reads_of(
            find_outcome(
                context,
                position_index,
                positions,
                count as int,
                index_interval as int,
                row,
            ).trace,
            positions,
        ) <= max_exceptions),
{
    if let DecoderNode::Patch { positions, position_index, count, index_interval, .. } =
        nodes[id] {
        let (n, interval) = (count as int, index_interval as int);
        assert(max_exceptions == index_interval);
        if positions != position_index {
            lemma_reads_one(0, positions, 0, 0, positions);
            if n != 0 {
                let top = ceil_div(n, interval);
                let one = search_outcome(context, position_index, 0, top, row);
                lemma_reads_search(context, position_index, 0, top, row, positions);
                if let Ok(entry) = one.result {
                    let two = u32_outcome(context, position_index, entry * 2 + 1);
                    lemma_reads_u32(context, position_index, entry * 2 + 1, positions);
                    if let Ok(from) = two.result {
                        let to = if from + interval < n {
                            from + interval
                        } else {
                            n
                        };
                        let three = scan_outcome(context, positions, from as int, to, row);
                        lemma_reads_scan(context, positions, from as int, to, row);
                        lemma_reads_sum(two.trace, three.trace, positions);
                        lemma_reads_sum(one.trace, two.trace + three.trace, positions);
                    } else {
                        lemma_reads_sum(one.trace, two.trace, positions);
                    }
                }
            }
        }
    } else {
        assert(false);
    }
}

proof fn lemma_reads_ones(context: Context, validity: FieldId, from: int, to: int, rank: int)
    ensures
        from <= to ==> reads_of(
            ones_outcome(context, validity, from, to, rank).trace,
            validity,
        ) <= to - from,
        from > to ==> reads_of(ones_outcome(context, validity, from, to, rank).trace, validity) == 0,
    decreases to - from,
{
    lemma_reads_one(1, validity, from, from + 1, validity);
    if from < to {
        let read = u8_outcome(context, validity, from);
        assert(read.trace + Seq::<Event>::empty() =~= read.trace);
        if let Ok(byte) = read.result {
            let next = rank + super::bytes::ones_below(byte, 8);
            if next <= usize::MAX {
                lemma_reads_ones(context, validity, from + 1, to, next);
                let rest = ones_outcome(context, validity, from + 1, to, next);
                lemma_reads_sum(read.trace, rest.trace, validity);
            }
        }
    }
}

/// Where ranks of so many rows apart are proved, the validity of no more rows than that is
/// read to find the rank of a row.
pub proof fn law_validity_ranks_bound_what_is_read(
    context: Context,
    nodes: Seq<DecoderNode>,
    id: int,
    f: Fact,
    max_rows: usize,
    row: int,
)
    requires
        0 <= id < nodes.len(),
        structural_facts(nodes, id).contains(f),
        f.property == Property::Access(AccessInvariant::ValidityRank { max_rows }),
        max_rows > 0,
        max_rows % 8 == 0,
        0 <= row,
    ensures
        nodes[id] matches DecoderNode::Nullable { validity, rank_index, rank_interval, .. } && (
        validity != rank_index ==> 8 * reads_of(
            rank_outcome(context, validity, rank_index, row, rank_interval as int).trace,
            validity,
        ) <= max_rows),
{
    if let DecoderNode::Nullable { validity, rank_index, rank_interval, .. } = nodes[id] {
        let interval = rank_interval as int;
        assert(max_rows == rank_interval);
        if validity != rank_index {
            let one = u8_outcome(context, validity, row / 8);
            lemma_reads_one(1, validity, row / 8, row / 8 + 1, validity);
            assert(one.trace + Seq::<Event>::empty() =~= one.trace);
            lemma_floor(row, interval);
            if let Ok(byte) = one.result {
                let start = row / interval * interval;
                let from = start / 8;
                assert(8 * (row / 8 - from) + 8 <= interval) by {
                    vstd::arithmetic::div_mod::lemma_fundamental_div_mod(interval, 8);
                    vstd::arithmetic::mul::lemma_mul_is_associative(
                        row / interval,
                        8,
                        interval / 8,
                    );
                    vstd::arithmetic::mul::lemma_mul_is_commutative(row / interval, 8);
                    vstd::arithmetic::mul::lemma_mul_is_associative(
                        8,
                        row / interval,
                        interval / 8,
                    );
                    assert(start == 8 * (row / interval * (interval / 8)));
                }
                let two = u32_outcome(context, rank_index, row / interval);
                lemma_reads_u32(context, rank_index, row / interval, validity);
                let block = block_rank_outcome(context, validity, rank_index, row, interval);
                assert(block.trace + Seq::<Event>::empty() =~= block.trace);
                if let Ok(rank) = two.result {
                    lemma_reads_ones(context, validity, from, row / 8, rank as int);
                    let three = ones_outcome(context, validity, from, row / 8, rank as int);
                    lemma_reads_sum(two.trace, three.trace, validity);
                }
                lemma_reads_sum(one.trace, block.trace, validity);
            }
        }
    } else {
        assert(false);
    }
}

/// Where miniblocks of so many rows are proved, the bits of a row lie in the miniblock that
/// its number, divided by that, gives.
pub proof fn law_miniblocks_hold_their_rows(
    nodes: Seq<DecoderNode>,
    id: int,
    f: Fact,
    rows: usize,
    row: int,
)
    requires
        0 <= id < nodes.len(),
        structural_facts(nodes, id).contains(f),
        f.property == Property::Access(AccessInvariant::Miniblock { rows }),
        rows > 0,
        0 <= row,
    ensures
        nodes[id] matches DecoderNode::BitUnpack { width, miniblock_rows, miniblock_bytes, .. } && (
        miniblock_rows * width <= 8 * miniblock_bytes ==> {
            let (w, r, b) = (width as int, miniblock_rows as int, miniblock_bytes as int);
            let block = row / rows as int;
            block * b <= packed_byte(row, w, r, b) && packed_end(row, w, r, b) <= (block + 1) * b
        }),
{
    if let DecoderNode::BitUnpack { width, miniblock_rows, miniblock_bytes, .. } = nodes[id] {
        let (w, r, b) = (width as int, miniblock_rows as int, miniblock_bytes as int);
        assert(rows == miniblock_rows);
        let block = row / r;
        let i = row % r;
        vstd::arithmetic::div_mod::lemma_mod_bound(row, r);
        lemma_scale(i + 1, r, w);
        lemma_scale_next(i, w);
        lemma_scale(0, i, w);
        lemma_scale_next(block, b);
        reveal(packed_byte);
        reveal(packed_bit);
    } else {
        assert(false);
    }
}

/// A row of packed values takes one read, or none where they have no width; a row that is
/// shifted takes one of the base besides its child's, and one that is looked up takes one of
/// the dictionary.
pub proof fn law_rows_read_their_own_field_once(
    context: Context,
    nodes: Seq<DecoderNode>,
    id: int,
    row: int,
    field: FieldId,
)
    requires
        0 <= id < nodes.len(),
        get_outcome(context, nodes, id, row).result is Ok,
    ensures
        ({
            let reads = reads_of(get_outcome(context, nodes, id, row).trace, field);
            match nodes[id] {
                DecoderNode::BitUnpack { stream, width, .. } => reads == if width > 0 && stream
                    == field {
                    1nat
                } else {
                    0
                },
                DecoderNode::For { base, values } => reads == reads_of(
                    get_outcome(context, nodes, values.0 as int, row).trace,
                    field,
                ) + if base == field {
                    1nat
                } else {
                    0
                },
                DecoderNode::Dictionary { ids, dictionary, .. } => reads == reads_of(
                    get_outcome(context, nodes, ids.0 as int, row).trace,
                    field,
                ) + if dictionary == field {
                    1nat
                } else {
                    0
                },
                _ => true,
            }
        }),
{
    match nodes[id] {
        DecoderNode::BitUnpack { stream, width, miniblock_rows, miniblock_bytes, .. } => {
            let (w, r, b) = (width as int, miniblock_rows as int, miniblock_bytes as int);
            let read = bits_outcome(context, stream, row, w, r, b);
            assert(read.trace + Seq::<Event>::empty() =~= read.trace);
            lemma_reads_one(1, stream, packed_byte(row, w, r, b), packed_end(row, w, r, b), field);
        },
        DecoderNode::For { base, values } => {
            let one = i64_outcome(context, base, 0);
            let two = get_outcome(context, nodes, values.0 as int, row);
            assert(two.trace + Seq::<Event>::empty() =~= two.trace);
            assert(get_outcome(context, nodes, id, row).trace =~= one.trace + two.trace);
            lemma_reads_one(1, base, 0, 8, field);
            lemma_reads_sum(one.trace, two.trace, field);
        },
        DecoderNode::Dictionary { ids, dictionary, entries, .. } => {
            let one = get_outcome(context, nodes, ids.0 as int, row);
            let entry = one.result->Ok_0->0 as usize as int;
            let two = i64_outcome(context, dictionary, entry);
            assert(two.trace + Seq::<Event>::empty() =~= two.trace);
            assert(get_outcome(context, nodes, id, row) == chain(
                one,
                |id: Option<i64>| dictionary_value(context, dictionary, entries, id),
            ));
            assert(get_outcome(context, nodes, id, row).trace =~= one.trace + two.trace);
            lemma_reads_one(1, dictionary, entry * 8, entry * 8 + 8, field);
            lemma_reads_sum(one.trace, two.trace, field);
        },
        _ => {},
    }
}

// ----- what indexes are of -----

/// Where an index of runs with so many to an entry is proved, each entry of a page that holds
/// one starts so many runs after the one before it, at the row where that run starts.
pub proof fn law_run_indexes_are_of_their_grain(
    context: Context,
    nodes: Seq<DecoderNode>,
    id: int,
    f: Fact,
    max_runs: usize,
    values: Seq<int>,
    index: FieldId,
    interval: usize,
    e: int,
)
    requires
        0 <= id < nodes.len(),
        structural_facts(nodes, id).contains(f),
        f.property == Property::Access(AccessInvariant::RunIndex { max_runs }),
        nodes[id] matches DecoderNode::Rle { run_index, index_interval, .. } && run_index == index
            && index_interval == interval,
        interval > 0,
        values.len() <= u32::MAX,
        stores(context, index, u32s_bytes(run_index(values, interval as int))),
        0 <= e,
        e * max_runs < all_runs(values).len(),
    ensures
        u32_outcome(context, index, 2 * e + 1).result matches Ok(run) && run == e * max_runs,
        u32_outcome(context, index, 2 * e).result matches Ok(row) && row == rows_before(
            all_runs(values),
            e * max_runs,
        ),
{
    let n = interval as int;
    assert(max_runs == interval);
    let list = run_index(values, n);
    let count = all_runs(values).len() as int;
    let groups = ceil_div(count, n);
    lemma_ceil(count, n);
    lemma_runs_total(values, values.len() as int);
    lemma_rows_before(all_runs(values), e * n, count);
    vstd::arithmetic::mul::lemma_mul_nonnegative(e, n);
    if e >= groups {
        lemma_scale(groups, e, n);
    }
    lemma_read_u32(context, index, list, 2 * e);
    lemma_read_u32(context, index, list, 2 * e + 1);
    assert((2 * e) / 2 == e && (2 * e + 1) / 2 == e);
}

/// Where an index of exceptions with so many to an entry is proved, each entry of a page that
/// holds one starts so many exceptions after the one before it.
pub proof fn law_patch_indexes_are_of_their_grain(
    context: Context,
    nodes: Seq<DecoderNode>,
    id: int,
    f: Fact,
    max_exceptions: usize,
    patched: Seq<bool>,
    index: FieldId,
    interval: usize,
    e: int,
)
    requires
        0 <= id < nodes.len(),
        structural_facts(nodes, id).contains(f),
        f.property == Property::Access(AccessInvariant::PatchIndex { max_exceptions }),
        nodes[id] matches DecoderNode::Patch { position_index, index_interval, .. }
            && position_index == index && index_interval == interval,
        interval > 0,
        patched.len() <= u32::MAX,
        stores(context, index, u32s_bytes(position_index(patched, interval as int))),
        0 <= e,
        e * max_exceptions < all_positions(patched).len(),
    ensures
        u32_outcome(context, index, 2 * e + 1).result matches Ok(exception) && exception == e
            * max_exceptions,
        u32_outcome(context, index, 2 * e).result matches Ok(row) && row == all_positions(
            patched,
        )[e * max_exceptions],
{
    let n = interval as int;
    assert(max_exceptions == interval);
    let list = position_index(patched, n);
    let count = all_positions(patched).len() as int;
    let groups = ceil_div(count, n);
    lemma_ceil(count, n);
    lemma_positions(patched, patched.len() as int);
    vstd::arithmetic::mul::lemma_mul_nonnegative(e, n);
    if e >= groups {
        lemma_scale(groups, e, n);
    }
    lemma_read_u32(context, index, list, 2 * e);
    lemma_read_u32(context, index, list, 2 * e + 1);
    assert((2 * e) / 2 == e && (2 * e + 1) / 2 == e);
    assert(0 <= all_positions(patched)[e * n] < patched.len());
}

/// Where ranks of so many rows apart are proved, each rank of a page that holds them is the
/// number of values in the rows so many times its number.
pub proof fn law_ranks_are_of_their_grain(
    context: Context,
    nodes: Seq<DecoderNode>,
    id: int,
    f: Fact,
    max_rows: usize,
    values: Seq<Option<int>>,
    ranks: FieldId,
    interval: usize,
    b: int,
)
    requires
        0 <= id < nodes.len(),
        structural_facts(nodes, id).contains(f),
        f.property == Property::Access(AccessInvariant::ValidityRank { max_rows }),
        nodes[id] matches DecoderNode::Nullable { rank_index, rank_interval, .. } && rank_index
            == ranks && rank_interval == interval,
        interval > 0,
        values.len() <= u32::MAX,
        stores(context, ranks, u32s_bytes(rank_values(values, interval as int))),
        0 <= b,
        b * max_rows < values.len(),
    ensures
        u32_outcome(context, ranks, b).result matches Ok(rank) && rank == compact(
            values,
            b * max_rows,
        ).len(),
{
    let n = interval as int;
    assert(max_rows == interval);
    let list = rank_values(values, n);
    let count = values.len() as int;
    let blocks = ceil_div(count, n);
    lemma_ceil(count, n);
    vstd::arithmetic::mul::lemma_mul_nonnegative(b, n);
    if b >= blocks {
        lemma_scale(blocks, b, n);
    }
    lemma_compact_few(values, b * n);
    lemma_read_u32(context, ranks, list, b);
}

proof fn lemma_compact_few(values: Seq<Option<int>>, n: int)
    requires
        0 <= n <= values.len(),
    ensures
        compact(values, n).len() <= n,
    decreases n,
{
    if n > 0 {
        lemma_compact_few(values, n - 1);
    }
}

/// Where restarts of so many rows apart are proved, each restart of a page that holds them is
/// the value of the row so many times its number.
pub proof fn law_restarts_are_of_their_grain(
    context: Context,
    nodes: Seq<DecoderNode>,
    id: int,
    f: Fact,
    rows: usize,
    values: Seq<int>,
    anchors: FieldId,
    interval: usize,
    k: int,
)
    requires
        0 <= id < nodes.len(),
        structural_facts(nodes, id).contains(f),
        f.property == Property::Access(AccessInvariant::RestartBound { rows }),
        nodes[id] matches DecoderNode::Delta { restarts, restart_interval, .. } && restarts
            == anchors && restart_interval == interval,
        interval > 0,
        stores(context, anchors, i64s_bytes(restart_values(values, interval as int))),
        0 <= k,
        k * rows < values.len(),
        i64::MIN <= values[k * rows] <= i64::MAX,
    ensures
        i64_outcome(context, anchors, k).result matches Ok(value) && value == values[k * rows],
{
    let n = interval as int;
    assert(rows == interval);
    let list = restart_values(values, n);
    let count = values.len() as int;
    let blocks = ceil_div(count, n);
    lemma_ceil(count, n);
    vstd::arithmetic::mul::lemma_mul_nonnegative(k, n);
    if k >= blocks {
        lemma_scale(blocks, k, n);
    }
    lemma_read_i64(context, anchors, list, k);
}

// ----- restarts -----

proof fn lemma_bits_read(context: Context, nodes: Seq<DecoderNode>, id: int, row: int)
    requires
        0 <= id < nodes.len(),
        nodes[id] is BitUnpack,
        nodes[id]->width > 0,
        get_outcome(context, nodes, id, row).result is Ok,
    ensures
        reads_of(get_outcome(context, nodes, id, row).trace, nodes[id]->stream) == 1,
{
    if let DecoderNode::BitUnpack { stream, width, miniblock_rows, miniblock_bytes, .. } = nodes[id] {
        let (w, r, b) = (width as int, miniblock_rows as int, miniblock_bytes as int);
        let read = bits_outcome(context, stream, row, w, r, b);
        assert(read.trace + Seq::<Event>::empty() =~= read.trace);
        lemma_reads_one(1, stream, packed_byte(row, w, r, b), packed_end(row, w, r, b), stream);
    }
}

proof fn lemma_differences_read(
    context: Context,
    nodes: Seq<DecoderNode>,
    codes: int,
    coding: DeltaCoding,
    from: int,
    row: int,
    value: int,
)
    requires
        0 <= codes < nodes.len(),
        nodes[codes] is BitUnpack,
        nodes[codes]->width > 0,
        from <= row + 1,
        delta_outcome(context, nodes, codes, coding, from, row, value).result is Ok,
    ensures
        reads_of(
            delta_outcome(context, nodes, codes, coding, from, row, value).trace,
            nodes[codes]->stream,
        ) == row + 1 - from,
    decreases row - from + 1,
{
    let stream = nodes[codes]->stream;
    lemma_reads_one(0, stream, 0, 0, stream);
    if from <= row {
        let read = get_outcome(context, nodes, codes, from);
        let next = delta_step(value, read.result->Ok_0, coding)->Ok_0;
        lemma_bits_read(context, nodes, codes, from);
        lemma_differences_read(context, nodes, codes, coding, from + 1, row, next);
        let rest = delta_outcome(context, nodes, codes, coding, from + 1, row, next);
        lemma_reads_sum(read.trace, rest.trace, stream);
    }
}

/// Where restarts of so many rows apart are proved, a row is decoded from the restart before
/// it: as many packed differences are read as there are rows since, and always fewer than
/// that many.
pub proof fn law_restarts_bound_what_is_read(
    context: Context,
    nodes: Seq<DecoderNode>,
    id: int,
    f: Fact,
    rows: usize,
    codes: NodeId,
    stream: FieldId,
    row: int,
)
    requires
        0 <= id < nodes.len(),
        structural_facts(nodes, id).contains(f),
        f.property == Property::Access(AccessInvariant::RestartBound { rows }),
        rows > 0,
        0 <= row,
        nodes[id] matches DecoderNode::Delta { deltas, restarts, .. } && deltas == codes && restarts
            != stream,
        nodes[codes.0 as int] matches DecoderNode::BitUnpack { stream: packed, width, .. } && packed
            == stream && width > 0,
        get_outcome(context, nodes, id, row).result is Ok,
    ensures
        reads_of(get_outcome(context, nodes, id, row).trace, stream) == row % rows as int,
        reads_of(get_outcome(context, nodes, id, row).trace, stream) < rows,
{
    if let DecoderNode::Delta { restarts, restart_interval, coding, .. } = nodes[id] {
        let interval = restart_interval as int;
        let k = row / interval;
        let from = k * interval + 1;
        let one = i64_outcome(context, restarts, k);
        lemma_reads_one(1, restarts, k * 8, k * 8 + 8, stream);
        lemma_floor(row, interval);
        vstd::arithmetic::div_mod::lemma_fundamental_div_mod(row, interval);
        vstd::arithmetic::mul::lemma_mul_is_commutative(interval, k);
        let anchor = one.result->Ok_0 as int;
        let child = codes.0 as int;
        lemma_differences_read(context, nodes, child, coding, from, row, anchor);
        let two = delta_outcome(context, nodes, child, coding, from, row, anchor);
        assert(two.trace + Seq::<Event>::empty() =~= two.trace);
        lemma_reads_sum(one.trace, two.trace, stream);
    }
}

// ----- mappings -----

/// Which nodes have a mapping proved, and which.
proof fn lemma_mapping_facts(nodes: Seq<DecoderNode>, id: int, f: Fact, mapping: MappingInvariant)
    requires
        structural_facts(nodes, id).contains(f),
        f.property == Property::Mapping(mapping),
    ensures
        nodes[id] is For || (nodes[id] is Dictionary && mapping != MappingInvariant::AffineShift),
{
    match nodes[id] {
        DecoderNode::BitUnpack { .. } => {},
        DecoderNode::For { .. } => {},
        DecoderNode::Delta { .. } => {},
        DecoderNode::Dictionary { .. } => {},
        DecoderNode::Rle { .. } => {},
        DecoderNode::Patch { .. } => {},
        DecoderNode::Nullable { .. } => {},
    }
}

/// The value of a node with a base.
proof fn lemma_shifted(context: Context, nodes: Seq<DecoderNode>, id: int, child: NodeId, row: int)
    requires
        0 <= id < nodes.len(),
        nodes[id] is For,
        child_of(nodes[id]) == Some(child),
        get_outcome(context, nodes, id, row).result is Ok,
        get_outcome(context, nodes, child.0 as int, row).result matches Ok(Some(a)),
    ensures
        get_outcome(context, nodes, id, row).result matches Ok(Some(x)) && x == i64_outcome(
            context,
            nodes[id]->base,
            0,
        ).result->Ok_0 + get_outcome(context, nodes, child.0 as int, row).result->Ok_0->0,
{
    let base = i64_outcome(context, nodes[id]->base, 0);
    let offset = get_outcome(context, nodes, child.0 as int, row);
    assert(get_outcome(context, nodes, id, row) == chain(
        base,
        |base: i64| chain(offset, |offset: Option<i64>| for_value(base, offset)),
    ));
}

/// The value of a node with a dictionary.
proof fn lemma_looked_up(
    context: Context,
    nodes: Seq<DecoderNode>,
    id: int,
    child: NodeId,
    row: int,
)
    requires
        0 <= id < nodes.len(),
        nodes[id] is Dictionary,
        child_of(nodes[id]) == Some(child),
        get_outcome(context, nodes, id, row).result is Ok,
        get_outcome(context, nodes, child.0 as int, row).result matches Ok(Some(a)),
    ensures
        ({
            let entry = get_outcome(context, nodes, child.0 as int, row).result->Ok_0->0 as usize;
            let read = i64_outcome(context, nodes[id]->dictionary, entry as int).result;
            &&& entry < nodes[id]->entries
            &&& get_outcome(context, nodes, id, row).result matches Ok(Some(x))
            &&& read is Ok
            &&& x == read->Ok_0
        }),
{
    let offset = get_outcome(context, nodes, child.0 as int, row);
    let dictionary = nodes[id]->dictionary;
    let entries = nodes[id]->entries;
    assert(get_outcome(context, nodes, id, row) == chain(
        offset,
        |id: Option<i64>| dictionary_value(context, dictionary, entries, id),
    ));
}

/// Where a node is proved to map its child's values in order, or apart, or by a shift, two
/// rows that decode have values that are so to those of the child. For a dictionary this
/// rests on its entries being in order, and on identifiers that index memory.
pub proof fn law_mapping_facts_hold(
    context: Context,
    nodes: Seq<DecoderNode>,
    id: int,
    f: Fact,
    mapping: MappingInvariant,
    child: NodeId,
    i: int,
    j: int,
)
    requires
        0 <= id < nodes.len(),
        structural_facts(nodes, id).contains(f),
        f.property == Property::Mapping(mapping),
        child_of(nodes[id]) == Some(child),
        get_outcome(context, nodes, id, i).result is Ok,
        get_outcome(context, nodes, id, j).result is Ok,
        get_outcome(context, nodes, child.0 as int, i).result matches Ok(Some(a)) && 0 <= a
            <= usize::MAX,
        get_outcome(context, nodes, child.0 as int, j).result matches Ok(Some(b)) && 0 <= b
            <= usize::MAX,
        nodes[id] matches DecoderNode::Dictionary { dictionary, entries, .. } ==> entries_in_order(
            context,
            dictionary,
            entries as int,
        ),
    ensures
        ({
            let a = get_outcome(context, nodes, child.0 as int, i).result->Ok_0->0;
            let b = get_outcome(context, nodes, child.0 as int, j).result->Ok_0->0;
            &&& get_outcome(context, nodes, id, i).result matches Ok(Some(x))
            &&& get_outcome(context, nodes, id, j).result matches Ok(Some(y))
            &&& match mapping {
                MappingInvariant::OrderPreserving => a <= b <==> x <= y,
                MappingInvariant::Injective => a == b <==> x == y,
                MappingInvariant::AffineShift => x - y == a - b,
            }
        }),
{
    lemma_mapping_facts(nodes, id, f, mapping);
    if nodes[id] is For {
        lemma_shifted(context, nodes, id, child, i);
        lemma_shifted(context, nodes, id, child, j);
    } else {
        lemma_looked_up(context, nodes, id, child, i);
        lemma_looked_up(context, nodes, id, child, j);
    }
}

} // verus!
