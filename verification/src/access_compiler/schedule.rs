//! Joining reads that are close together.
#[allow(unused_imports)]
use super::access::{lemma_listed_len, listed_bytes};
use super::error::Error;
#[allow(unused_imports)]
use super::ids::FieldId;
use super::layout::sum_below;
#[allow(unused_imports)]
use super::layout::all_below;
use super::span::{merge_spans, sort_spans, Span};
#[allow(unused_imports)]
use super::span::{
    all_wf, canonical, covers, is_merged, lemma_touch_cover, merged, ordered, separated, sorted,
    span_le, total, touches,
};
use vstd::prelude::*;

verus! {

/// Reads to be made, with the bytes that are needed and the bytes that are read.
#[derive(Clone, Debug, PartialEq, Eq)]
pub struct ReadSchedule {
    pub ranges: Vec<Span>,
    pub required_bytes: usize,
    pub scheduled_bytes: usize,
}

/// The ranges that are not empty.
pub open spec fn nonempty(ranges: Seq<Span>) -> Seq<Span> {
    ranges.filter(|range: Span| range.start != range.end)
}

/// The first `n` of a sorted list of ranges, each joined to the one before where
/// no more than the gap is between them.
pub open spec fn coalesced(list: Seq<Span>, gap: int, n: int) -> Result<Seq<Span>, Error>
    decreases n,
{
    if n <= 0 {
        Ok(Seq::empty())
    } else {
        match coalesced(list, gap, n - 1) {
            Err(e) => Err(e),
            Ok(before) => {
                let range = list[n - 1];
                let last = before.last();
                if before.len() == 0 {
                    Ok(before.push(range))
                } else if last.end + gap > usize::MAX {
                    Err(Error::CoalescingGapOverflow)
                } else if range.start <= last.end + gap {
                    Ok(
                        before.drop_last().push(
                            Span {
                                start: last.start,
                                end: if last.end < range.end {
                                    range.end
                                } else {
                                    last.end
                                },
                            },
                        ),
                    )
                } else {
                    Ok(before.push(range))
                }
            },
        }
    }
}

/// The reads for a list of ranges.
pub open spec fn schedule_of(ranges: Seq<Span>, gap: int) -> Result<Seq<Span>, Error> {
    let list = sorted(nonempty(ranges));
    coalesced(list, gap, list.len() as int)
}

/// Joins ranges with at most a gap between them.
pub fn coalesce_ranges(ranges: Vec<Span>, maximum_gap: usize) -> (r: Result<ReadSchedule, Error>)
    requires
        all_wf(ranges@),
    ensures
        match schedule_of(ranges@, maximum_gap as int) {
            Ok(reads) => r matches Ok(schedule) && schedule.ranges@ == reads
                && schedule.required_bytes == total(merged(nonempty(ranges@)))
                && schedule.scheduled_bytes == total(reads),
            Err(e) => r matches Err(found) && found == e,
        },
{
    let mut kept: Vec<Span> = Vec::new();
    let ghost keep = |range: Span| range.start != range.end;
    let mut i: usize = 0;
    assert(ranges@.take(0).filter(keep) =~= Seq::<Span>::empty()) by {
        reveal(Seq::filter);
    }
    while i < ranges.len()
        invariant
            i <= ranges@.len(),
            all_wf(ranges@),
            all_wf(kept@),
            keep == (|range: Span| range.start != range.end),
            kept@ == ranges@.take(i as int).filter(keep),
            forall|k: int| 0 <= k < kept@.len() ==> (#[trigger] kept@[k]).start < kept@[k].end,
        decreases ranges@.len() - i,
    {
        let range = ranges[i];
        proof {
            let next = ranges@.take(i + 1);
            assert(next.drop_last() =~= ranges@.take(i as int));
            assert(next.last() == range);
            reveal(Seq::filter);
        }
        if !range.is_empty() {
            kept.push(range);
        }
        i = i + 1;
    }
    assert(ranges@.take(i as int) =~= ranges@);
    let ghost all = kept@;
    let required_bytes: usize = union_bytes(&kept);
    sort_spans(&mut kept);
    let ghost list = kept@;
    let mut reads: Vec<Span> = Vec::new();
    let mut i: usize = 0;
    while i < kept.len()
        invariant
            i <= kept@.len(),
            kept@ == list,
            ordered(list),
            all_wf(list),
            coalesced(list, maximum_gap as int, i as int) == Ok::<Seq<Span>, Error>(reads@),
            separated(reads@),
            i > 0 ==> reads@.len() > 0 && reads@.last().start <= list[i - 1].start,
            list == sorted(nonempty(ranges@)),
        decreases kept@.len() - i,
    {
        let range = kept[i];
        let count: usize = reads.len();
        let ghost before = reads@;
        proof {
            if i > 0 {
                assert(span_le(list[i - 1], list[i as int]));
            }
        }
        if count > 0 {
            let last = reads[count - 1];
            assert(last == before.last());
            let limit: usize = match last.end.checked_add(maximum_gap) {
                Some(limit) => limit,
                None => {
                    proof {
                        lemma_coalesced_stop(
                            list,
                            maximum_gap as int,
                            i + 1,
                            list.len() as int,
                            Error::CoalescingGapOverflow,
                        );
                    }
                    return Err(Error::CoalescingGapOverflow);
                },
            };
            if range.start <= limit {
                let end: usize = if last.end < range.end {
                    range.end
                } else {
                    last.end
                };
                reads.set(count - 1, Span { start: last.start, end });
                assert(reads@ =~= before.drop_last().push(Span { start: last.start, end }));
            } else {
                reads.push(range);
            }
        } else {
            reads.push(range);
        }
        i = i + 1;
    }
    proof {
        assert(all_below(reads@, usize::MAX as int));
    }
    let scheduled_bytes: usize = sum_below(&reads, usize::MAX);
    Ok(ReadSchedule { ranges: reads, required_bytes, scheduled_bytes })
}

proof fn lemma_coalesced_stop(list: Seq<Span>, gap: int, i: int, n: int, e: Error)
    requires
        i <= n,
        coalesced(list, gap, i) == Err::<Seq<Span>, Error>(e),
    ensures
        coalesced(list, gap, n) == Err::<Seq<Span>, Error>(e),
    decreases n,
{
    if i < n {
        lemma_coalesced_stop(list, gap, i, n - 1, e);
    }
}

/// The number of positions that the ranges cover together.
fn union_bytes(ranges: &Vec<Span>) -> (r: usize)
    requires
        all_wf(ranges@),
    ensures
        r == total(merged(ranges@)),
{
    let mut joined = super::access::copy_spans(ranges);
    merge_spans(&mut joined);
    assert(all_below(joined@, usize::MAX as int));
    sum_below(&joined, usize::MAX)
}

proof fn lemma_coalesced(list: Seq<Span>, gap: int, n: int)
    requires
        0 <= n <= list.len(),
        gap >= 0,
        ordered(list),
        forall|i: int| 0 <= i < list.len() ==> (#[trigger] list[i]).start < list[i].end,
    ensures
        coalesced(list, gap, n) matches Ok(reads) ==> {
            &&& canonical(reads)
            &&& n > 0 ==> reads.len() > 0 && reads.last().start <= list[n - 1].start
            &&& forall|i: int, j: int|
                0 <= i < j < reads.len() ==> (#[trigger] reads[i]).end + gap < (
                #[trigger] reads[j]).start
            &&& forall|i: int, b: int|
                0 <= i < n && (#[trigger] list[i]).has(b) ==> #[trigger] covers(reads, b)
            &&& forall|b: int| #[trigger]
                covers(reads, b) ==> near(list, gap, b)
        },
    decreases n,
{
    if n > 0 {
        lemma_coalesced(list, gap, n - 1);
        if let Ok(reads) = coalesced(list, gap, n) {
            let before = coalesced(list, gap, n - 1)->Ok_0;
            let range = list[n - 1];
            if n > 1 {
                assert(span_le(list[n - 2], list[n - 1]));
            }
            if before.len() > 0 {
                assert(before.last() == before[before.len() - 1]);
            }
            assert forall|b: int| covers(before, b) || range.has(b) implies #[trigger] covers(reads, b) by {
                if covers(before, b) {
                    let k = choose|k: int| 0 <= k < before.len() && (#[trigger] before[k]).has(b);
                    assert(reads[k].has(b));
                }
                if range.has(b) {
                    assert(reads[reads.len() - 1].has(b));
                }
            }
            assert forall|b: int| #[trigger] covers(reads, b) implies near(list, gap, b) by {
                let k = choose|k: int| 0 <= k < reads.len() && (#[trigger] reads[k]).has(b);
                if k < before.len() && before[k].has(b) {
                    assert(covers(before, b));
                } else if range.has(b) {
                    assert(within_gap(range, gap, b));
                } else {
                    let end = before.last().end;
                    assert(before.last().has(end - 1));
                    assert(covers(before, end - 1));
                    assert(near(list, gap, end - 1));
                    assert(within_gap(range, gap, b));
                }
            }
        }
    }
}

/// Position `b` lies in a range or at most a gap before it.
pub open spec fn within_gap(range: Span, gap: int, b: int) -> bool {
    range.start - gap <= b < range.end
}

/// Position `b` is needed, or lies at most a gap before one that is.
pub open spec fn near(list: Seq<Span>, gap: int, b: int) -> bool {
    exists|i: int| 0 <= i < list.len() && #[trigger] within_gap(list[i], gap, b)
}

/// The reads hold every needed position, and no position but those at most a gap
/// before a needed one; more than the gap is between any two; and they read at
/// least the needed bytes.
pub proof fn law_schedule(ranges: Seq<Span>, gap: int)
    requires
        all_wf(ranges),
        gap >= 0,
        schedule_of(ranges, gap) is Ok,
    ensures
        ({
            let reads = schedule_of(ranges, gap)->Ok_0;
            &&& canonical(reads)
            &&& forall|b: int| #[trigger] covers(ranges, b) ==> covers(reads, b)
            &&& forall|b: int| #[trigger] covers(reads, b) ==> near(ranges, gap, b)
            &&& forall|i: int, j: int|
                0 <= i < j < reads.len() ==> (#[trigger] reads[i]).end + gap < (
                #[trigger] reads[j]).start
        }),
{
    let keep = |range: Span| range.start != range.end;
    let kept = nonempty(ranges);
    let le = |a: Span, b: Span| span_le(a, b);
    let list = sorted(kept);
    kept.lemma_sort_by_ensures(le);
    assert forall|i: int, j: int| 0 <= i <= j < list.len() implies span_le(
        #[trigger] list[i],
        #[trigger] list[j],
    ) by {
        if i < j {
            assert(le(list[i], list[j]));
        }
    }
    assert(ordered(list));
    assert forall|i: int| 0 <= i < list.len() implies (#[trigger] list[i]).start < list[i].end
        && ranges.contains(list[i]) by {
        broadcast use vstd::seq_lib::group_to_multiset_ensures;

        assert(list.contains(list[i]));
        assert(kept.contains(list[i]));
        let k = choose|k: int| 0 <= k < kept.len() && kept[k] == list[i];
        ranges.lemma_filter_pred(keep, k);
        ranges.lemma_filter_contains_rev(keep, list[i]);
        let m = choose|m: int| 0 <= m < ranges.len() && ranges[m] == list[i];
        assert(ranges[m].wf());
    }
    lemma_coalesced(list, gap, list.len() as int);
    let reads = schedule_of(ranges, gap)->Ok_0;
    assert forall|b: int| #[trigger] covers(ranges, b) implies covers(reads, b) by {
        broadcast use vstd::seq_lib::group_to_multiset_ensures;

        let k = choose|k: int| 0 <= k < ranges.len() && (#[trigger] ranges[k]).has(b);
        ranges.lemma_filter_contains(keep, k);
        assert(kept.contains(ranges[k]));
        assert(kept.to_multiset().count(ranges[k]) > 0);
        assert(list.contains(ranges[k]));
        let m = choose|m: int| 0 <= m < list.len() && list[m] == ranges[k];
        assert(list[m].has(b));
    }
    assert forall|b: int| #[trigger] covers(reads, b) implies near(ranges, gap, b) by {
        let i = choose|i: int| 0 <= i < list.len() && #[trigger] within_gap(list[i], gap, b);
        let m = choose|m: int| 0 <= m < ranges.len() && ranges[m] == list[i];
        assert(within_gap(ranges[m], gap, b));
    }
}

/// No fewer bytes are read than are needed.
pub proof fn law_schedule_bytes(ranges: Seq<Span>, gap: int)
    requires
        all_wf(ranges),
        gap >= 0,
        schedule_of(ranges, gap) is Ok,
    ensures
        total(merged(nonempty(ranges))) <= total(schedule_of(ranges, gap)->Ok_0),
{
    let keep = |range: Span| range.start != range.end;
    let reads = schedule_of(ranges, gap)->Ok_0;
    let joined = merged(nonempty(ranges));
    let field = FieldId(0);
    law_schedule(ranges, gap);
    assert forall|i: int| 0 <= i < nonempty(ranges).len() implies (#[trigger] nonempty(
        ranges,
    )[i]).wf() by {
        assert(nonempty(ranges).contains(nonempty(ranges)[i]));
        ranges.lemma_filter_contains_rev(keep, nonempty(ranges)[i]);
    }
    super::ledger_laws::lemma_merging(nonempty(ranges));
    lemma_listed_len(field, reads);
    lemma_listed_len(field, joined);
    assert(listed_bytes(field, joined).subset_of(listed_bytes(field, reads))) by {
        assert forall|p: (FieldId, int)| listed_bytes(field, joined).contains(p) implies listed_bytes(
            field,
            reads,
        ).contains(p) by {
            lemma_touch_cover(joined, p.1);
            lemma_touch_cover(nonempty(ranges), p.1);
            assert(touches(joined, 2 * p.1 + 1) == touches(nonempty(ranges), 2 * p.1 + 1));
            let kept = nonempty(ranges);
            let k = choose|k: int| 0 <= k < kept.len() && (#[trigger] kept[k]).has(p.1);
            assert(kept.contains(kept[k]));
            ranges.lemma_filter_contains_rev(keep, kept[k]);
            let m = choose|m: int| 0 <= m < ranges.len() && ranges[m] == kept[k];
            assert(ranges[m].has(p.1));
            assert(covers(ranges, p.1));
        }
    }
    vstd::set_lib::lemma_len_subset(listed_bytes(field, joined), listed_bytes(field, reads));
}

} // verus!
