//! What is accounted for: which bytes a read delivers and transfers, and that none is
//! transferred twice.
#[allow(unused_imports)]
use super::access::field_bytes;
#[allow(unused_imports)]
use super::decoder_laws::law_what_is_left_lies_apart;
#[allow(unused_imports)]
use super::ids::FieldId;
#[allow(unused_imports)]
use super::layout::{
    layout_error, lemma_floor, lemma_scale, lemma_scale_next, lemma_valid_field, lemma_valid_frame,
    FieldLocation,
};
#[allow(unused_imports)]
use super::runtime::{
    after_delivery, after_event, ceil_div, decoded, direct_delivery, empty_ledger, frame_delivery,
    lemma_ceil, replay, ClosureMode, Context, Event, Ledger,
};
#[allow(unused_imports)]
use super::span::{
    all_wf, canonical, covers, holds_span, is_merged, lemma_covers_concat, lemma_merged,
    lemma_touch_cover, lemma_uncovered, merged, separated, touches, uncovered_parts, Span,
};
use vstd::prelude::*;

verus! {

// ----- joining ranges -----

/// How many ranges end before a place.
spec fn ended_before(spans: Seq<Span>, at: int, n: int) -> int
    decreases n,
{
    if n <= 0 {
        0
    } else if spans[n - 1].end < at {
        n
    } else {
        ended_before(spans, at, n - 1)
    }
}

proof fn lemma_ended_before(spans: Seq<Span>, at: int, n: int)
    requires
        separated(spans),
        0 <= n <= spans.len(),
    ensures
        0 <= ended_before(spans, at, n) <= n,
        forall|i: int|
            0 <= i < ended_before(spans, at, n) ==> (#[trigger] spans[i]).end < at,
        forall|i: int|
            ended_before(spans, at, n) <= i < n ==> (#[trigger] spans[i]).end >= at,
    decreases n,
{
    if n > 0 {
        if spans[n - 1].end < at {
            assert forall|i: int| 0 <= i < n implies (#[trigger] spans[i]).end < at by {
                if i < n - 1 {
                    assert(spans[i].end < spans[n - 1].start);
                }
            }
        } else {
            lemma_ended_before(spans, at, n - 1);
        }
    }
}

/// How many ranges start no later than a place.
spec fn started_by(spans: Seq<Span>, at: int, n: int) -> int
    decreases n,
{
    if n <= 0 {
        0
    } else if spans[n - 1].start <= at {
        n
    } else {
        started_by(spans, at, n - 1)
    }
}

proof fn lemma_started_by(spans: Seq<Span>, at: int, n: int)
    requires
        separated(spans),
        0 <= n <= spans.len(),
    ensures
        0 <= started_by(spans, at, n) <= n,
        forall|i: int| 0 <= i < started_by(spans, at, n) ==> (#[trigger] spans[i]).start <= at,
        forall|i: int| started_by(spans, at, n) <= i < n ==> (#[trigger] spans[i]).start > at,
    decreases n,
{
    if n > 0 {
        if spans[n - 1].start <= at {
            assert forall|i: int| 0 <= i < n implies (#[trigger] spans[i]).start <= at by {
                if i < n - 1 {
                    assert(spans[i].end < spans[n - 1].start);
                    assert(spans[i].wf());
                }
            }
        } else {
            lemma_started_by(spans, at, n - 1);
        }
    }
}

/// One more range can be joined to ranges that lie apart.
proof fn lemma_joined(spans: Seq<Span>, more: Span) -> (m: Seq<Span>)
    requires
        separated(spans),
        more.wf(),
    ensures
        is_merged(m, spans.push(more)),
{
    let n = spans.len() as int;
    let lo = ended_before(spans, more.start as int, n);
    let hi = started_by(spans, more.end as int, n);
    lemma_ended_before(spans, more.start as int, n);
    lemma_started_by(spans, more.end as int, n);
    if lo > hi {
        assert(spans[hi].wf());
        assert(false);
    }
    let start = if lo < hi && spans[lo].start < more.start {
        spans[lo].start
    } else {
        more.start
    };
    let end = if lo < hi && spans[hi - 1].end > more.end {
        spans[hi - 1].end
    } else {
        more.end
    };
    let one = Span { start, end };
    let m = spans.take(lo) + seq![one] + spans.skip(hi);
    assert forall|i: int| 0 <= i < m.len() implies #[trigger] m[i] == if i < lo {
        spans[i]
    } else if i == lo {
        one
    } else {
        spans[i - lo - 1 + hi]
    } by {}
    assert(forall|i: int| 0 <= i < n ==> (#[trigger] spans[i]).wf());
    assert(one.wf());
    assert forall|i: int, j: int| 0 <= i < j < m.len() implies (#[trigger] m[i]).end < (
    #[trigger] m[j]).start by {
        if i < lo && j == lo {
            if lo < hi {
                assert(spans[i].end < spans[lo].start);
            }
        }
        if i == lo && j > lo {
            let k = j - lo - 1 + hi;
            assert(spans[k].start > more.end);
            if lo < hi {
                assert(spans[hi - 1].end < spans[k].start);
            }
        }
    }
    let all = spans.push(more);
    assert forall|x: int| #[trigger] touches(m, x) == touches(all, x) by {
        if touches(m, x) {
            let i = choose|i: int| 0 <= i < m.len() && (#[trigger] m[i]).touches(x);
            if i < lo {
                assert(all[i].touches(x));
            } else if i > lo {
                assert(all[i - lo - 1 + hi].touches(x));
            } else if more.touches(x) {
                assert(all[n].touches(x));
            } else if x < 2 * more.start {
                assert(all[lo].touches(x));
            } else {
                assert(all[hi - 1].touches(x));
            }
        }
        if touches(all, x) {
            let i = choose|i: int| 0 <= i < all.len() && (#[trigger] all[i]).touches(x);
            if i == n {
                assert(m[lo].touches(x));
            } else if i < lo {
                assert(m[i].touches(x));
            } else if i >= hi {
                assert(m[i - hi + lo + 1].touches(x));
            } else {
                if lo < i {
                    assert(spans[lo].end < spans[i].start);
                }
                if i < hi - 1 {
                    assert(spans[i].end < spans[hi - 1].start);
                }
                assert(m[lo].touches(x));
            }
        }
    }
    m
}

/// Ranges can be joined.
pub proof fn lemma_merging(spans: Seq<Span>)
    requires
        all_wf(spans),
    ensures
        is_merged(merged(spans), spans),
        forall|b: int| #[trigger] covers(merged(spans), b) == covers(spans, b),
    decreases spans.len(),
{
    if spans.len() == 0 {
        assert(is_merged(spans, spans));
    } else {
        let before = spans.drop_last();
        assert forall|i: int| 0 <= i < before.len() implies (#[trigger] before[i]).wf() by {
            assert(before[i] == spans[i]);
        }
        lemma_merging(before);
        assert(spans[spans.len() - 1].wf());
        let m = lemma_joined(merged(before), spans.last());
        let pushed = merged(before).push(spans.last());
        assert forall|x: int| #[trigger] touches(m, x) == touches(spans, x) by {
            assert(touches(m, x) == touches(pushed, x));
            lemma_touch_pushed(merged(before), spans.last(), x);
            lemma_touch_pushed(before, spans.last(), x);
            assert(before.push(spans.last()) =~= spans);
            assert(touches(merged(before), x) == touches(before, x));
        }
        assert(is_merged(m, spans));
    }
    assert forall|b: int| #[trigger] covers(merged(spans), b) == covers(spans, b) by {
        lemma_touch_cover(merged(spans), b);
        lemma_touch_cover(spans, b);
    }
}

proof fn lemma_touch_pushed(spans: Seq<Span>, more: Span, x: int)
    ensures
        touches(spans.push(more), x) == (touches(spans, x) || more.touches(x)),
{
    let all = spans.push(more);
    if touches(all, x) {
        let i = choose|i: int| 0 <= i < all.len() && (#[trigger] all[i]).touches(x);
        if i < spans.len() {
            assert(spans[i].touches(x));
        }
    }
    if touches(spans, x) {
        let i = choose|i: int| 0 <= i < spans.len() && (#[trigger] spans[i]).touches(x);
        assert(all[i].touches(x));
    }
    if more.touches(x) {
        assert(all[spans.len() as int].touches(x));
    }
}

proof fn lemma_covers_pushed(spans: Seq<Span>, more: Span, b: int)
    ensures
        covers(spans.push(more), b) == (covers(spans, b) || more.has(b)),
{
    lemma_touch_cover(spans.push(more), b);
    lemma_touch_cover(spans, b);
    lemma_touch_pushed(spans, more, 2 * b + 1);
}

// ----- deliveries -----

/// Whether the ranges of a ledger lie apart, and what is delivered was transferred.
pub open spec fn ledger_wf(ledger: Ledger) -> bool {
    &&& separated(ledger.delivered)
    &&& separated(ledger.transferred)
    &&& forall|b: int| #[trigger] covers(ledger.delivered, b) ==> covers(ledger.transferred, b)
}

/// A delivery adds its bytes to what is delivered and to what is transferred, and nothing
/// else; what was transferred before is not transferred again.
pub proof fn law_deliveries_add_their_bytes(ledger: Ledger, span: Span, b: int)
    requires
        ledger_wf(ledger),
        span.wf(),
    ensures
        ({
            let after = after_delivery(ledger, span);
            &&& ledger_wf(after)
            &&& covers(after.delivered, b) <==> covers(ledger.delivered, b) || span.has(b)
            &&& covers(after.transferred, b) <==> covers(ledger.transferred, b) || span.has(b)
            &&& after.logical == ledger.logical
            &&& after.frames == ledger.frames
            &&& after.values == ledger.values
        }),
{
    let after = after_delivery(ledger, span);
    lemma_delivered(ledger, span);
}

proof fn lemma_delivered(ledger: Ledger, span: Span)
    requires
        ledger_wf(ledger),
        span.wf(),
    ensures
        ({
            let after = after_delivery(ledger, span);
            &&& ledger_wf(after)
            &&& forall|b: int| #[trigger]
                covers(after.delivered, b) <==> covers(ledger.delivered, b) || span.has(b)
            &&& forall|b: int| #[trigger]
                covers(after.transferred, b) <==> covers(ledger.transferred, b) || span.has(b)
        }),
{
    let after = after_delivery(ledger, span);
    if holds_span(ledger.delivered, span) {
        let i = choose|i: int|
            0 <= i < ledger.delivered.len() && (#[trigger] ledger.delivered[i]).start <= span.start
                && span.end <= ledger.delivered[i].end;
        assert forall|b: int| span.has(b) implies #[trigger] covers(ledger.delivered, b) by {
            assert(ledger.delivered[i].has(b));
        }
        assert forall|b: int| #[trigger]
            covers(after.transferred, b) <==> covers(ledger.transferred, b) || span.has(b) by {
            if span.has(b) {
                assert(covers(ledger.delivered, b));
            }
        }
    } else {
        let new = uncovered_parts(ledger.transferred, span);
        lemma_uncovered(ledger.transferred, span);
        let pushed = ledger.delivered.push(span);
        let sum = ledger.transferred + new;
        assert(all_wf(pushed));
        assert(all_wf(sum));
        lemma_merging(pushed);
        lemma_merging(sum);
        assert forall|b: int| #[trigger]
            covers(after.delivered, b) <==> covers(ledger.delivered, b) || span.has(b) by {
            lemma_covers_pushed(ledger.delivered, span, b);
        }
        assert forall|b: int| #[trigger]
            covers(after.transferred, b) <==> covers(ledger.transferred, b) || span.has(b) by {
            lemma_covers_concat(ledger.transferred, new, b);
            assert(covers(new, b) == (span.has(b) && !covers(ledger.transferred, b)));
        }
        assert forall|b: int| #[trigger] covers(after.delivered, b) implies covers(
            after.transferred,
            b,
        ) by {}
    }
}

/// What has been delivered can be delivered again at no cost.
pub proof fn law_deliveries_are_made_once(ledger: Ledger, span: Span)
    requires
        ledger_wf(ledger),
        span.wf(),
    ensures
        after_delivery(after_delivery(ledger, span), span) == after_delivery(ledger, span),
{
    let after = after_delivery(ledger, span);
    if !holds_span(ledger.delivered, span) {
        let pushed = ledger.delivered.push(span);
        assert(all_wf(pushed));
        lemma_merging(pushed);
        let m = after.delivered;
        let last = pushed.len() - 1;
        assert(pushed[last] == span);
        assert(pushed[last].touches(2 * span.start as int));
        assert(touches(pushed, 2 * span.start as int));
        assert(touches(m, 2 * span.start as int));
        let i = choose|i: int| 0 <= i < m.len() && (#[trigger] m[i]).touches(2 * span.start as int);
        if m[i].end < span.end {
            let x = 2 * m[i].end + 1;
            assert(pushed[last].touches(x));
            assert(touches(pushed, x));
            assert(touches(m, x));
            let j = choose|j: int| 0 <= j < m.len() && (#[trigger] m[j]).touches(x);
            if j < i {
                assert(m[j].end < m[i].start);
            } else if j > i {
                assert(m[i].end < m[j].start);
            }
        }
        assert(holds_span(m, span));
    }
}

/// Whether a byte of a delivery was not transferred before.
pub open spec fn is_left(ledger: Ledger, span: Span, b: int) -> bool {
    span.start <= b && b < span.end && !covers(ledger.transferred, b)
}

/// A delivery of which one range is left to transfer takes one more operation, and one of
/// which nothing is left takes none.
pub proof fn law_transfers_take_an_operation_each(ledger: Ledger, span: Span, from: int, to: int)
    requires
        ledger_wf(ledger),
        canonical(ledger.transferred),
        span.start < span.end,
        ledger.operations < usize::MAX,
        from <= to,
        forall|b: int| #[trigger] is_left(ledger, span, b) <==> from <= b && b < to,
    ensures
        from < to ==> after_delivery(ledger, span).operations == ledger.operations + 1,
        from == to ==> after_delivery(ledger, span).operations == ledger.operations,
{
    let parts = uncovered_parts(ledger.transferred, span);
    assert forall|b: int| #[trigger] covers(parts, b) <==> from <= b < to by {
        law_what_is_left_lies_apart(ledger.transferred, span, b);
        assert(is_left(ledger, span, b) <==> from <= b && b < to);
    }
    law_what_is_left_lies_apart(ledger.transferred, span, 0);
    if parts.len() > 0 {
        assert(parts[0].has(parts[0].start as int));
        assert(covers(parts, parts[0].start as int));
    }
    if parts.len() > 1 {
        let gap = parts[0].end as int;
        assert(parts[0].end < parts[1].start);
        assert(parts[1].has(parts[1].start as int));
        assert(covers(parts, parts[1].start as int));
        assert(covers(parts, gap));
        let i = choose|i: int| 0 <= i < parts.len() && (#[trigger] parts[i]).has(gap);
        if i > 1 {
            assert(parts[1].end < parts[i].start);
        }
        assert(false);
    }
    if from < to {
        assert(covers(parts, from));
        if holds_span(ledger.delivered, span) {
            let i = choose|i: int|
                0 <= i < ledger.delivered.len() && (#[trigger] ledger.delivered[i]).start
                    <= span.start && span.end <= ledger.delivered[i].end;
            assert(is_left(ledger, span, from));
            assert(ledger.delivered[i].has(from));
            assert(covers(ledger.delivered, from));
        }
    } else {
        assert(parts.len() == 0);
    }
}

// ----- reads -----

/// A read of a field that lies in the file itself delivers the granules that hold the bytes
/// asked for, cut off at the end of the field, and nothing else; read again, it delivers
/// nothing more.
pub proof fn law_reads_deliver_their_granules(
    context: Context,
    ledger: Ledger,
    field: FieldId,
    offset: usize,
    start: int,
    end: int,
    b: int,
)
    requires
        layout_error(context.layout) is None,
        context.layout.file_length == context.content.len(),
        context.mode == ClosureMode::Selective,
        context.accounted || !context.memory,
        ledger_wf(ledger),
        field.0 < context.layout.fields.len(),
        context.layout.fields[field.0 as int].location == (FieldLocation::Direct { offset }),
        0 <= start < end <= context.layout.fields[field.0 as int].length,
    ensures
        ({
            let after = after_event(context, ledger, Event::Read { field, start, end });
            let field = context.layout.fields[field.0 as int];
            let granule = field.read_granularity as int;
            let at = b - offset;
            &&& ledger_wf(after)
            &&& covers(after.delivered, b) <==> covers(ledger.delivered, b) || (0 <= at
                < field.length && start / granule <= at / granule <= (end - 1) / granule)
            &&& covers(after.transferred, b) <==> covers(ledger.transferred, b) || (0 <= at
                < field.length && start / granule <= at / granule <= (end - 1) / granule)
            &&& start <= at < end ==> covers(after.delivered, b)
        }),
{
    lemma_valid_field(context.layout, field.0 as int);
    let place = context.layout.fields[field.0 as int];
    let granule = place.read_granularity as int;
    let span = direct_delivery(context, field.0 as int, start, end);
    let asked = if context.accounted {
        Ledger { logical: ledger.logical.union(field_bytes(field, start, end)), ..ledger }
    } else {
        ledger
    };
    let reached = ceil_div(end, granule) * granule;
    lemma_ceil(end, granule);
    lemma_floor(start, granule);
    lemma_floor(end - 1, granule);
    lemma_scale_next((end - 1) / granule, granule);
    assert(ceil_div(end, granule) == (end - 1) / granule + 1) by {
        super::runtime::lemma_ceil_floor(end, granule);
    }
    assert(span.start == offset + start / granule * granule);
    assert(span.wf());
    law_deliveries_add_their_bytes(asked, span, b);
    let at = b - offset;
    if 0 <= at < place.length {
        lemma_floor(at, granule);
        lemma_scale_next(at / granule, granule);
        if start / granule <= at / granule {
            lemma_scale(start / granule, at / granule, granule);
        } else {
            lemma_scale(at / granule + 1, start / granule, granule);
        }
        if at / granule <= (end - 1) / granule {
            lemma_scale(at / granule + 1, (end - 1) / granule + 1, granule);
        } else {
            lemma_scale((end - 1) / granule + 1, at / granule, granule);
        }
    } else {
        vstd::arithmetic::mul::lemma_mul_nonnegative(start / granule, granule);
    }
    if start <= at < end {
        vstd::arithmetic::div_mod::lemma_div_is_ordered(start, at, granule);
        vstd::arithmetic::div_mod::lemma_div_is_ordered(at, end - 1, granule);
    }
}

/// A read that is asked for twice is delivered, transferred and decoded once.
pub proof fn law_reads_cost_once(
    context: Context,
    ledger: Ledger,
    field: FieldId,
    start: int,
    end: int,
)
    requires
        layout_error(context.layout) is None,
        context.layout.file_length == context.content.len() <= usize::MAX,
        ledger_wf(ledger),
        0 <= start <= end,
    ensures
        ({
            let read = Event::Read { field, start, end };
            let after = after_event(context, ledger, read);
            after_event(context, after, read) == after
        }),
{
    let read = Event::Read { field, start, end };
    let after = after_event(context, ledger, read);
    let asked = if context.accounted {
        Ledger { logical: ledger.logical.union(field_bytes(field, start, end)), ..ledger }
    } else {
        ledger
    };
    if field.0 < context.layout.fields.len() && end <= context.layout.fields[field.0 as int].length {
        lemma_valid_field(context.layout, field.0 as int);
        let again = if context.accounted {
            Ledger { logical: after.logical.union(field_bytes(field, start, end)), ..after }
        } else {
            after
        };
        assert(again.logical =~= after.logical);
        match context.layout.fields[field.0 as int].location {
            FieldLocation::Direct { offset } => {
                let span = direct_delivery(context, field.0 as int, start, end);
                lemma_direct(context, field.0 as int, start, end);
                law_deliveries_are_made_once(asked, span);
            },
            FieldLocation::Framed { frame, .. } => {
                lemma_valid_frame(context.layout, frame.0 as int);
                let span = frame_delivery(context, frame.0 as int);
                law_deliveries_are_made_once(asked, span);
            },
        }
    }
}

proof fn lemma_direct(context: Context, field: int, start: int, end: int)
    requires
        layout_error(context.layout) is None,
        context.layout.file_length == context.content.len() <= usize::MAX,
        0 <= field < context.layout.fields.len(),
        context.layout.fields[field].location is Direct,
        0 <= start <= end <= context.layout.fields[field].length,
    ensures
        direct_delivery(context, field, start, end).wf(),
{
    lemma_valid_field(context.layout, field);
    let place = context.layout.fields[field];
    let granule = place.read_granularity as int;
    lemma_floor(start, granule);
    lemma_ceil(end, granule);
    vstd::arithmetic::mul::lemma_mul_nonnegative(start / granule, granule);
}

/// The bytes asked for are those of the reads, whatever was delivered for them and however
/// the page is read.
pub proof fn law_reads_ask_for_the_same_bytes(
    context: Context,
    other: Context,
    trace: Seq<Event>,
)
    requires
        context.accounted,
        other.accounted,
        context.layout == other.layout,
    ensures
        replay(context, empty_ledger(), trace).logical == replay(
            other,
            empty_ledger(),
            trace,
        ).logical,
        replay(context, empty_ledger(), trace).values == replay(
            other,
            empty_ledger(),
            trace,
        ).values,
    decreases trace.len(),
{
    reveal_with_fuel(replay, 2);
    if trace.len() > 0 {
        law_reads_ask_for_the_same_bytes(context, other, trace.drop_last());
        lemma_same_asked(
            context,
            other,
            replay(context, empty_ledger(), trace.drop_last()),
            replay(other, empty_ledger(), trace.drop_last()),
            trace.last(),
        );
    }
}

proof fn lemma_same_asked(context: Context, other: Context, a: Ledger, b: Ledger, event: Event)
    requires
        context.accounted,
        other.accounted,
        context.layout == other.layout,
        a.logical == b.logical,
        a.values == b.values,
    ensures
        after_event(context, a, event).logical == after_event(other, b, event).logical,
        after_event(context, a, event).values == after_event(other, b, event).values,
{
    if let Event::Read { field, start, end } = event {
        if field.0 < context.layout.fields.len() && end <= context.layout.fields[field.0 as int].length {
            match context.layout.fields[field.0 as int].location {
                FieldLocation::Direct { .. } => {},
                FieldLocation::Framed { .. } => {},
            }
        }
    }
}

/// A session that reads the whole page delivers all of it at the first read, in one
/// operation, and no more at any other.
pub proof fn law_whole_pages_are_delivered_at_once(
    context: Context,
    field: FieldId,
    start: int,
    end: int,
)
    requires
        context.mode == ClosureMode::FullPage,
        context.accounted,
        context.content.len() <= usize::MAX,
        field.0 < context.layout.fields.len(),
        end <= context.layout.fields[field.0 as int].length,
    ensures
        ({
            let after = after_event(context, empty_ledger(), Event::Read { field, start, end });
            &&& after.delivered == seq![Span { start: 0, end: context.content.len() as usize }]
            &&& after.transferred == after.delivered
            &&& after.operations == 1
        }),
{
    let span = Span { start: 0, end: context.content.len() as usize };
    let one = seq![span];
    assert(uncovered_parts(Seq::empty(), span) =~= one);
    assert(Seq::<Span>::empty().push(span) =~= one);
    assert(Seq::<Span>::empty() + one =~= one);
    assert(separated(one));
    lemma_merged(one, one);
}

} // verus!
