//! Half-open byte or row ranges, and lists of them in merged form.
use super::error::Error;
use vstd::prelude::*;

verus! {

/// The half-open range `start..end`.
#[derive(Clone, Copy, Debug, PartialEq, Eq, PartialOrd, Ord, Structural)]
pub struct Span {
    pub start: usize,
    pub end: usize,
}

impl Span {
    pub open spec fn wf(self) -> bool {
        self.start <= self.end
    }

    /// Position `b` lies in the range.
    pub open spec fn has(self, b: int) -> bool {
        self.start <= b < self.end
    }

    /// Half position `x` (twice the coordinate) lies in the closed range. Two
    /// ranges that overlap or touch share a half position; a range that is empty
    /// still has one.
    pub open spec fn touches(self, x: int) -> bool {
        2 * self.start <= x <= 2 * self.end
    }

    pub fn new(start: usize, end: usize) -> (r: Result<Span, Error>)
        ensures
            start <= end ==> r == Ok::<Span, Error>(Span { start, end }),
            start > end ==> r == Err::<Span, Error>(Error::InvalidSpan { start, end }),
    {
        if start > end {
            return Err(Error::InvalidSpan { start, end });
        }
        Ok(Span { start, end })
    }

    pub fn len(self) -> (r: usize)
        requires
            self.wf(),
        ensures
            r == self.end - self.start,
    {
        self.end - self.start
    }

    pub fn is_empty(self) -> (r: bool)
        ensures
            r == (self.start == self.end),
    {
        self.start == self.end
    }
}

pub open spec fn all_wf(spans: Seq<Span>) -> bool {
    forall|i: int| 0 <= i < spans.len() ==> (#[trigger] spans[i]).wf()
}

/// Some range of the list holds position `b`.
pub open spec fn covers(spans: Seq<Span>, b: int) -> bool {
    exists|i: int| 0 <= i < spans.len() && (#[trigger] spans[i]).has(b)
}

/// Some range of the list touches half position `x`.
pub open spec fn touches(spans: Seq<Span>, x: int) -> bool {
    exists|i: int| 0 <= i < spans.len() && (#[trigger] spans[i]).touches(x)
}

/// The ranges are in order and no two overlap or touch.
pub open spec fn separated(spans: Seq<Span>) -> bool {
    &&& all_wf(spans)
    &&& forall|i: int, j: int|
        0 <= i < j < spans.len() ==> (#[trigger] spans[i]).end < (#[trigger] spans[j]).start
}

/// Separated, and no range is empty. A set of positions has one such list.
pub open spec fn canonical(spans: Seq<Span>) -> bool {
    &&& separated(spans)
    &&& forall|i: int| 0 <= i < spans.len() ==> (#[trigger] spans[i]).start < spans[i].end
}

/// The number of positions in all ranges together.
pub open spec fn total(spans: Seq<Span>) -> nat
    decreases spans.len(),
{
    if spans.len() == 0 {
        0
    } else {
        total(spans.drop_last()) + (spans.last().end - spans.last().start) as nat
    }
}

/// The order of the fields: by start, then by end.
pub open spec fn span_le(a: Span, b: Span) -> bool {
    a.start < b.start || (a.start == b.start && a.end <= b.end)
}

pub open spec fn ordered(spans: Seq<Span>) -> bool {
    forall|i: int, j: int|
        0 <= i <= j < spans.len() ==> span_le(#[trigger] spans[i], #[trigger] spans[j])
}

/// `m` is the list in order and joined.
pub open spec fn is_merged(m: Seq<Span>, spans: Seq<Span>) -> bool {
    separated(m) && forall|x: int| #[trigger] touches(m, x) == touches(spans, x)
}

/// The list in order and joined, which is the only such list.
pub open spec fn merged(spans: Seq<Span>) -> Seq<Span> {
    choose|m: Seq<Span>| is_merged(m, spans)
}

/// A separated list is known by what it touches.
pub proof fn lemma_separated_unique(a: Seq<Span>, b: Seq<Span>)
    requires
        separated(a),
        separated(b),
        forall|x: int| #[trigger] touches(a, x) == touches(b, x),
    ensures
        a == b,
    decreases a.len(),
{
    if a.len() == 0 {
        if b.len() > 0 {
            assert(b[0].touches(2 * b[0].start as int));
            assert(touches(b, 2 * b[0].start as int));
            assert(touches(a, 2 * b[0].start as int));
        }
        assert(a =~= b);
    } else {
        assert(a[0].touches(2 * a[0].start as int));
        assert(touches(a, 2 * a[0].start as int));
        if b.len() == 0 {
            assert(touches(b, 2 * a[0].start as int));
        }
        lemma_first_start(a, b);
        lemma_first_start(b, a);
        lemma_first_end(a, b);
        lemma_first_end(b, a);
        assert(a[0] == b[0]);
        let ta = a.drop_first();
        let tb = b.drop_first();
        assert(separated(ta)) by {
            assert forall|i: int, j: int| 0 <= i < j < ta.len() implies (#[trigger] ta[i]).end < (
            #[trigger] ta[j]).start by {
                assert(ta[i] == a[i + 1] && ta[j] == a[j + 1]);
            }
            assert forall|i: int| 0 <= i < ta.len() implies (#[trigger] ta[i]).wf() by {
                assert(ta[i] == a[i + 1]);
            }
        }
        assert(separated(tb)) by {
            assert forall|i: int, j: int| 0 <= i < j < tb.len() implies (#[trigger] tb[i]).end < (
            #[trigger] tb[j]).start by {
                assert(tb[i] == b[i + 1] && tb[j] == b[j + 1]);
            }
            assert forall|i: int| 0 <= i < tb.len() implies (#[trigger] tb[i]).wf() by {
                assert(tb[i] == b[i + 1]);
            }
        }
        assert forall|x: int| #[trigger] touches(ta, x) == touches(tb, x) by {
            lemma_tail_touches(a, x);
            lemma_tail_touches(b, x);
            assert(touches(a, x) == touches(b, x));
        }
        lemma_separated_unique(ta, tb);
        assert(a =~= seq![a[0]] + ta);
        assert(b =~= seq![b[0]] + tb);
    }
}

proof fn lemma_tail_touches(a: Seq<Span>, x: int)
    requires
        separated(a),
        a.len() > 0,
    ensures
        touches(a.drop_first(), x) == (touches(a, x) && x > 2 * a[0].end),
{
    let t = a.drop_first();
    if touches(t, x) {
        let i = choose|i: int| 0 <= i < t.len() && (#[trigger] t[i]).touches(x);
        assert(a[i + 1].touches(x));
        assert(a[0].end < a[i + 1].start);
    }
    if touches(a, x) && x > 2 * a[0].end {
        let i = choose|i: int| 0 <= i < a.len() && (#[trigger] a[i]).touches(x);
        assert(t[i - 1].touches(x));
    }
}

proof fn lemma_first_start(a: Seq<Span>, b: Seq<Span>)
    requires
        separated(a),
        separated(b),
        a.len() > 0,
        b.len() > 0,
        forall|x: int| #[trigger] touches(a, x) == touches(b, x),
    ensures
        b[0].start <= a[0].start,
{
    let x = 2 * a[0].start as int;
    assert(a[0].touches(x));
    assert(touches(a, x));
    let i = choose|i: int| 0 <= i < b.len() && (#[trigger] b[i]).touches(x);
    if i > 0 {
        assert(b[0].end < b[i].start);
    }
}

proof fn lemma_first_end(a: Seq<Span>, b: Seq<Span>)
    requires
        separated(a),
        separated(b),
        a.len() > 0,
        b.len() > 0,
        a[0].start == b[0].start,
        forall|x: int| #[trigger] touches(a, x) == touches(b, x),
    ensures
        b[0].end <= a[0].end,
{
    if b[0].end > a[0].end {
        let x = 2 * a[0].end + 1;
        assert(b[0].touches(x));
        assert(touches(b, x));
        assert(touches(a, x));
        let i = choose|i: int| 0 <= i < a.len() && (#[trigger] a[i]).touches(x);
        if i > 0 {
            assert(a[0].end < a[i].start);
        }
    }
}

/// A separated list with the touches of another is that list merged.
pub proof fn lemma_merged(m: Seq<Span>, spans: Seq<Span>)
    requires
        is_merged(m, spans),
    ensures
        merged(spans) == m,
{
    let n = merged(spans);
    assert(is_merged(n, spans));
    assert forall|x: int| #[trigger] touches(m, x) == touches(n, x) by {
        assert(touches(m, x) == touches(spans, x));
        assert(touches(n, x) == touches(spans, x));
    }
    lemma_separated_unique(m, n);
}

/// Touching the same half positions means covering the same positions.
pub proof fn lemma_touch_cover(spans: Seq<Span>, b: int)
    ensures
        covers(spans, b) == touches(spans, 2 * b + 1),
{
    if covers(spans, b) {
        let i = choose|i: int| 0 <= i < spans.len() && (#[trigger] spans[i]).has(b);
        assert(spans[i].touches(2 * b + 1));
    }
    if touches(spans, 2 * b + 1) {
        let i = choose|i: int| 0 <= i < spans.len() && (#[trigger] spans[i]).touches(2 * b + 1);
        assert(spans[i].has(b));
    }
}

/// The ranges by start, then by end.
pub open spec fn sorted(spans: Seq<Span>) -> Seq<Span> {
    spans.sort_by(|a: Span, b: Span| span_le(a, b))
}

/// An ordered list of the same ranges is the sorted list.
proof fn lemma_sorted(list: Seq<Span>, spans: Seq<Span>)
    requires
        ordered(list),
        list.to_multiset() == spans.to_multiset(),
    ensures
        list == sorted(spans),
{
    let le = |a: Span, b: Span| span_le(a, b);
    spans.lemma_sort_by_ensures(le);
    vstd::seq_lib::lemma_sorted_unique(list, sorted(spans), le);
}

/// Sorts by start, then by end.
pub(crate) fn sort_spans(spans: &mut Vec<Span>)
    ensures
        final(spans)@ == sorted(old(spans)@),
        ordered(final(spans)@),
        final(spans)@.len() == old(spans)@.len(),
        all_wf(old(spans)@) ==> all_wf(final(spans)@),
        forall|x: int| #[trigger] touches(final(spans)@, x) == touches(old(spans)@, x),
{
    let mut sorted: usize = 0;
    while sorted < spans.len()
        invariant
            sorted <= spans@.len(),
            spans@.len() == old(spans)@.len(),
            spans@.to_multiset() == old(spans)@.to_multiset(),
            ordered(spans@.take(sorted as int)),
            all_wf(old(spans)@) ==> all_wf(spans@),
            forall|x: int| #[trigger] touches(spans@, x) == touches(old(spans)@, x),
        decreases spans@.len() - sorted,
    {
        let mut at: usize = sorted;
        proof {
            let t = spans@.take(sorted as int);
            assert forall|i: int, j: int| 0 <= i <= j < sorted implies span_le(
                #[trigger] spans@[i],
                #[trigger] spans@[j],
            ) by {
                assert(t[i] == spans@[i] && t[j] == spans@[j]);
            }
        }
        while at > 0 && (spans[at].start < spans[at - 1].start || (spans[at].start == spans[at
            - 1].start && spans[at].end < spans[at - 1].end))
            invariant
                at <= sorted < spans@.len(),
                spans@.len() == old(spans)@.len(),
                spans@.to_multiset() == old(spans)@.to_multiset(),
                all_wf(old(spans)@) ==> all_wf(spans@),
                forall|i: int, j: int|
                    0 <= i <= j <= sorted && j != at ==> span_le(#[trigger] spans@[i], #[trigger] spans@[j]) || i == at,
                forall|j: int| at < j <= sorted ==> span_le(spans@[at as int], #[trigger] spans@[j]),
                forall|x: int| #[trigger] touches(spans@, x) == touches(old(spans)@, x),
            decreases at,
        {
            let ghost before = spans@;
            let here = spans[at];
            let previous = spans[at - 1];
            spans.set(at, previous);
            spans.set(at - 1, here);
            proof {
                lemma_swap(before, at - 1, at as int);
                assert forall|x: int| #[trigger] touches(spans@, x) == touches(before, x) by {
                    if touches(before, x) {
                        let i = choose|i: int| 0 <= i < before.len() && (#[trigger] before[i]).touches(x);
                        let k = if i == at { at - 1 } else if i == at - 1 { at as int } else { i };
                        assert(spans@[k].touches(x));
                    }
                    if touches(spans@, x) {
                        let i = choose|i: int| 0 <= i < spans@.len() && (#[trigger] spans@[i]).touches(x);
                        let k = if i == at { at - 1 } else if i == at - 1 { at as int } else { i };
                        assert(before[k].touches(x));
                    }
                }
            }
            at = at - 1;
        }
        proof {
            let t = spans@.take(sorted + 1);
            assert forall|i: int, j: int| 0 <= i <= j < t.len() implies span_le(
                #[trigger] t[i],
                #[trigger] t[j],
            ) by {
                assert(t[i] == spans@[i] && t[j] == spans@[j]);
                if j == at && i < at {
                    assert(span_le(spans@[i], spans@[at - 1]));
                }
            }
        }
        sorted = sorted + 1;
    }
    proof {
        assert(spans@.take(sorted as int) =~= spans@);
        lemma_sorted(spans@, old(spans)@);
    }
}

/// Two ranges that change places leave the same ranges.
proof fn lemma_swap(spans: Seq<Span>, i: int, j: int)
    requires
        0 <= i < j < spans.len(),
    ensures
        spans.update(j, spans[i]).update(i, spans[j]).to_multiset() == spans.to_multiset(),
{
    broadcast use vstd::seq_lib::group_to_multiset_ensures;
    broadcast use vstd::multiset::group_multiset_axioms;

    let once = spans.update(j, spans[i]);
    let twice = once.update(i, spans[j]);
    assert(once.to_multiset() =~= spans.to_multiset().remove(spans[j]).insert(spans[i]));
    assert(twice.to_multiset() =~= once.to_multiset().remove(once[i]).insert(spans[j]));
    assert(twice.to_multiset() =~= spans.to_multiset());
}

/// Brings the ranges into order and joins those that overlap or touch.
pub fn merge_spans(spans: &mut Vec<Span>)
    requires
        all_wf(old(spans)@),
    ensures
        final(spans)@ == merged(old(spans)@),
        is_merged(final(spans)@, old(spans)@),
        forall|b: int| #[trigger] covers(final(spans)@, b) == covers(old(spans)@, b),
        (forall|i: int| 0 <= i < old(spans)@.len() ==> (#[trigger] old(spans)@[i]).start < old(
            spans,
        )@[i].end) ==> canonical(final(spans)@),
{
    let ghost given = spans@;
    sort_spans(spans);
    let ghost sorted = spans@;
    let mut merged: Vec<Span> = Vec::new();
    let mut next: usize = 0;
    while next < spans.len()
        invariant
            next <= spans@.len(),
            spans@ == sorted,
            ordered(sorted),
            all_wf(sorted),
            separated(merged@),
            merged@.len() > 0 ==> next > 0 && merged@.last().start <= sorted[next - 1].start,
            forall|x: int| #[trigger] touches(merged@, x) == touches(sorted.take(next as int), x),
        decreases spans@.len() - next,
    {
        let span = spans[next];
        let ghost before = merged@;
        let ghost part = sorted.take(next as int);
        let ghost grown = sorted.take(next + 1);
        let count: usize = merged.len();
        assert(forall|i: int| 0 <= i < next ==> grown[i] == part[i]);
        assert(grown[next as int] == span);
        if next > 0 {
            assert(span_le(sorted[next - 1], sorted[next as int]));
        }
        if count > 0 && span.start <= merged[count - 1].end {
            let last = merged[count - 1];
            let end: usize = if last.end < span.end { span.end } else { last.end };
            merged.set(count - 1, Span { start: last.start, end });
        } else {
            merged.push(span);
        }
        proof {
            assert forall|x: int| #[trigger] touches(merged@, x) == touches(grown, x) by {
                if touches(merged@, x) {
                    let i = choose|i: int| 0 <= i < merged@.len() && (#[trigger] merged@[i]).touches(x);
                    if i < before.len() && before[i].touches(x) {
                        assert(touches(before, x));
                        let k = choose|k: int| 0 <= k < part.len() && (#[trigger] part[k]).touches(x);
                        assert(grown[k].touches(x));
                    } else {
                        assert(grown[next as int].touches(x));
                    }
                }
                if touches(grown, x) {
                    let k = choose|k: int| 0 <= k < grown.len() && (#[trigger] grown[k]).touches(x);
                    if k < next {
                        assert(part[k].touches(x));
                        assert(touches(part, x));
                        assert(touches(before, x));
                        let i = choose|i: int| 0 <= i < before.len() && (#[trigger] before[i]).touches(x);
                        assert(merged@[i].touches(x));
                    } else {
                        assert(merged@.last().touches(x));
                        assert(merged@[merged@.len() - 1].touches(x));
                    }
                }
            }
        }
        next = next + 1;
    }
    assert(sorted.take(next as int) =~= sorted);
    proof {
        assert forall|b: int| #[trigger] covers(merged@, b) == covers(given, b) by {
            lemma_touch_cover(merged@, b);
            lemma_touch_cover(given, b);
        }
        if forall|i: int| 0 <= i < given.len() ==> (#[trigger] given[i]).start < given[i].end {
            assert forall|i: int| 0 <= i < merged@.len() implies (#[trigger] merged@[i]).start
                < merged@[i].end by {
                let x = 2 * merged@[i].start as int;
                assert(merged@[i].touches(x));
                assert(touches(merged@, x));
                assert(touches(given, x));
                let k = choose|k: int| 0 <= k < given.len() && (#[trigger] given[k]).touches(x);
                let y = if given[k].touches(x + 1) { x + 1 } else { x - 1 };
                assert(given[k].touches(y));
                assert(touches(given, y));
                assert(touches(merged@, y));
                let m = choose|m: int| 0 <= m < merged@.len() && (#[trigger] merged@[m]).touches(y);
                if m < i {
                    assert(merged@[m].end < merged@[i].start);
                } else if m > i {
                    assert(merged@[i].end < merged@[m].start);
                }
            }
        }
        lemma_merged(merged@, given);
    }
    *spans = merged;
}

// ----- cutting ranges out of a range -----

/// The pieces with one range cut out of each.
pub open spec fn cut(pieces: Seq<Span>, covered: Span) -> Seq<Span>
    decreases pieces.len(),
{
    if pieces.len() == 0 {
        Seq::empty()
    } else {
        cut(pieces.drop_last(), covered) + cut_one(pieces.last(), covered)
    }
}

/// What is left of one range: all of it where the other lies outside, else the
/// part before and the part after.
pub open spec fn cut_one(piece: Span, covered: Span) -> Seq<Span> {
    if covered.end <= piece.start || covered.start >= piece.end {
        seq![piece]
    } else {
        (if piece.start < covered.start {
            seq![Span { start: piece.start, end: covered.start }]
        } else {
            Seq::empty()
        }) + (if covered.end < piece.end {
            seq![Span { start: covered.end, end: piece.end }]
        } else {
            Seq::empty()
        })
    }
}

/// The parts of a range that a list of ranges does not cover.
pub open spec fn uncovered_parts(existing: Seq<Span>, requested: Span) -> Seq<Span>
    decreases existing.len(),
{
    if existing.len() == 0 {
        seq![requested]
    } else {
        cut(uncovered_parts(existing.drop_last(), requested), existing.last())
    }
}

/// One range of the list holds the whole of another.
pub open spec fn holds_span(existing: Seq<Span>, requested: Span) -> bool {
    exists|i: int|
        0 <= i < existing.len() && (#[trigger] existing[i]).start <= requested.start && requested.end
            <= existing[i].end
}

pub fn contains(existing: &Vec<Span>, requested: Span) -> (r: bool)
    ensures
        r == holds_span(existing@, requested),
{
    let mut i: usize = 0;
    while i < existing.len()
        invariant
            i <= existing@.len(),
            forall|k: int|
                0 <= k < i ==> !((#[trigger] existing@[k]).start <= requested.start && requested.end
                    <= existing@[k].end),
        decreases existing@.len() - i,
    {
        if existing[i].start <= requested.start && requested.end <= existing[i].end {
            return true;
        }
        i = i + 1;
    }
    false
}

pub fn uncovered(existing: &Vec<Span>, requested: Span) -> (r: Vec<Span>)
    ensures
        r@ == uncovered_parts(existing@, requested),
{
    let mut pending: Vec<Span> = Vec::new();
    pending.push(requested);
    assert(pending@ =~= seq![requested]);
    let mut i: usize = 0;
    while i < existing.len()
        invariant
            i <= existing@.len(),
            pending@ == uncovered_parts(existing@.take(i as int), requested),
        decreases existing@.len() - i,
    {
        let covered = existing[i];
        let mut next: Vec<Span> = Vec::new();
        let mut k: usize = 0;
        while k < pending.len()
            invariant
                k <= pending@.len(),
                next@ == cut(pending@.take(k as int), covered),
            decreases pending@.len() - k,
        {
            let span = pending[k];
            let ghost before = next@;
            if covered.end <= span.start || covered.start >= span.end {
                next.push(span);
            } else {
                if span.start < covered.start {
                    next.push(Span { start: span.start, end: covered.start });
                }
                if covered.end < span.end {
                    next.push(Span { start: covered.end, end: span.end });
                }
            }
            assert(next@ =~= before + cut_one(span, covered));
            assert(pending@.take(k + 1).drop_last() =~= pending@.take(k as int));
            k = k + 1;
        }
        assert(pending@.take(k as int) =~= pending@);
        assert(existing@.take(i + 1).drop_last() =~= existing@.take(i as int));
        pending = next;
        i = i + 1;
    }
    assert(existing@.take(i as int) =~= existing@);
    pending
}

/// The parts are inside the range, and hold a position of it exactly if the list
/// does not.
pub proof fn lemma_uncovered(existing: Seq<Span>, requested: Span)
    requires
        requested.wf(),
        all_wf(existing),
    ensures
        all_wf(uncovered_parts(existing, requested)),
        forall|i: int|
            0 <= i < uncovered_parts(existing, requested).len() ==> requested.start <= (
            #[trigger] uncovered_parts(existing, requested)[i]).start && uncovered_parts(
                existing,
                requested,
            )[i].end <= requested.end,
        forall|b: int| #[trigger]
            covers(uncovered_parts(existing, requested), b) == (requested.has(b) && !covers(
                existing,
                b,
            )),
    decreases existing.len(),
{
    let parts = uncovered_parts(existing, requested);
    if existing.len() == 0 {
        assert forall|b: int| #[trigger] covers(parts, b) == (requested.has(b) && !covers(
            existing,
            b,
        )) by {
            if requested.has(b) {
                assert(parts[0].has(b));
            }
        }
    } else {
        let rest = existing.drop_last();
        let last = existing.last();
        assert(last == existing[existing.len() - 1]);
        assert(all_wf(rest)) by {
            assert forall|i: int| 0 <= i < rest.len() implies (#[trigger] rest[i]).wf() by {
                assert(rest[i] == existing[i]);
            }
        }
        lemma_uncovered(rest, requested);
        lemma_cut(uncovered_parts(rest, requested), last, requested);
        assert forall|b: int| #[trigger] covers(parts, b) == (requested.has(b) && !covers(
            existing,
            b,
        )) by {
            assert(covers(parts, b) == (covers(uncovered_parts(rest, requested), b) && !last.has(
                b,
            )));
            if covers(existing, b) && !last.has(b) {
                let i = choose|i: int| 0 <= i < existing.len() && (#[trigger] existing[i]).has(b);
                assert(rest[i].has(b));
            }
            if covers(rest, b) {
                let i = choose|i: int| 0 <= i < rest.len() && (#[trigger] rest[i]).has(b);
                assert(existing[i].has(b));
            }
        }
    }
}

proof fn lemma_cut(pieces: Seq<Span>, covered: Span, within: Span)
    requires
        all_wf(pieces),
        covered.wf(),
        forall|i: int|
            0 <= i < pieces.len() ==> within.start <= (#[trigger] pieces[i]).start && pieces[i].end
                <= within.end,
    ensures
        all_wf(cut(pieces, covered)),
        forall|i: int|
            0 <= i < cut(pieces, covered).len() ==> within.start <= (#[trigger] cut(
                pieces,
                covered,
            )[i]).start && cut(pieces, covered)[i].end <= within.end,
        forall|b: int| #[trigger]
            covers(cut(pieces, covered), b) == (covers(pieces, b) && !covered.has(b)),
    decreases pieces.len(),
{
    if pieces.len() > 0 {
        let rest = pieces.drop_last();
        let last = pieces.last();
        assert(last == pieces[pieces.len() - 1]);
        assert forall|i: int| 0 <= i < rest.len() implies (#[trigger] rest[i]).wf() && within.start
            <= rest[i].start && rest[i].end <= within.end by {
            assert(rest[i] == pieces[i]);
        }
        lemma_cut(rest, covered, within);
        let front = cut(rest, covered);
        let back = cut_one(last, covered);
        let all = cut(pieces, covered);
        assert(all == front + back);
        assert forall|i: int| 0 <= i < all.len() implies (#[trigger] all[i]).wf() && within.start
            <= all[i].start && all[i].end <= within.end by {
            if i < front.len() {
                assert(all[i] == front[i]);
            } else {
                assert(all[i] == back[i - front.len()]);
            }
        }
        assert forall|b: int| #[trigger] covers(all, b) == (covers(pieces, b) && !covered.has(b)) by {
            assert(covers(back, b) == (last.has(b) && !covered.has(b))) by {
                if last.has(b) && !covered.has(b) {
                    if covered.end <= last.start || covered.start >= last.end {
                        assert(back[0].has(b));
                    } else if b < covered.start {
                        assert(back[0].has(b));
                    } else {
                        assert(back[back.len() - 1].has(b));
                    }
                }
            }
            lemma_covers_concat(front, back, b);
            if covers(pieces, b) {
                let i = choose|i: int| 0 <= i < pieces.len() && (#[trigger] pieces[i]).has(b);
                if i < rest.len() {
                    assert(rest[i].has(b));
                }
            }
            if covers(rest, b) {
                let i = choose|i: int| 0 <= i < rest.len() && (#[trigger] rest[i]).has(b);
                assert(pieces[i].has(b));
            }
            if last.has(b) {
                assert(pieces[pieces.len() - 1].has(b));
            }
            assert(covers(front, b) == (covers(rest, b) && !covered.has(b)));
        }
    }
}

pub proof fn lemma_covers_concat(a: Seq<Span>, b: Seq<Span>, x: int)
    ensures
        covers(a + b, x) == (covers(a, x) || covers(b, x)),
{
    let c = a + b;
    if covers(a, x) {
        let i = choose|i: int| 0 <= i < a.len() && (#[trigger] a[i]).has(x);
        assert(c[i].has(x));
    }
    if covers(b, x) {
        let i = choose|i: int| 0 <= i < b.len() && (#[trigger] b[i]).has(x);
        assert(c[a.len() + i].has(x));
    }
    if covers(c, x) {
        let i = choose|i: int| 0 <= i < c.len() && (#[trigger] c[i]).has(x);
        if i < a.len() {
            assert(a[i].has(x));
        } else {
            assert(b[i - a.len()].has(x));
        }
    }
}

} // verus!
