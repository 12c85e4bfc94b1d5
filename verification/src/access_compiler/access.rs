//! Sets of field bytes.
use super::ids::FieldId;
use super::span::{merge_spans, Span};
#[allow(unused_imports)]
use super::span::{canonical, covers, separated, total};
use vstd::prelude::*;

verus! {

/// The bytes `start..end` of one field, as a set.
pub open spec fn field_bytes(field: FieldId, start: int, end: int) -> Set<(FieldId, int)> {
    Set::new(|p: (FieldId, int)| p.0 == field && start <= p.1 < end)
}

/// The bytes of one field that a list of ranges covers.
pub open spec fn listed_bytes(field: FieldId, spans: Seq<Span>) -> Set<(FieldId, int)> {
    Set::new(|p: (FieldId, int)| p.0 == field && covers(spans, p.1))
}

/// A set of bytes, each named by its field and its offset there. Held per field
/// as ranges in merged form, the fields in ascending order.
#[derive(Debug, PartialEq, Eq)]
pub struct AccessSet {
    entries: Vec<(FieldId, Vec<Span>)>,
}

impl View for AccessSet {
    type V = Set<(FieldId, int)>;

    closed spec fn view(&self) -> Set<(FieldId, int)> {
        Set::new(|p: (FieldId, int)| entries_hold(self.entries@, p))
    }
}

/// Some entry names the byte.
pub open spec fn entries_hold(entries: Seq<(FieldId, Vec<Span>)>, p: (FieldId, int)) -> bool {
    exists|k: int|
        0 <= k < entries.len() && (#[trigger] entries[k]).0 == p.0 && covers(entries[k].1@, p.1)
}

/// One entry for each field, in ascending order, each with a list of ranges in
/// merged form that is not empty.
pub open spec fn entries_canonical(entries: Seq<(FieldId, Vec<Span>)>) -> bool {
    &&& forall|k: int|
        0 <= k < entries.len() ==> canonical((#[trigger] entries[k]).1@) && entries[k].1@.len() > 0
    &&& forall|j: int, k: int|
        0 <= j < k < entries.len() ==> (#[trigger] entries[j]).0.0 < (#[trigger] entries[k]).0.0
}

impl Default for AccessSet {
    fn default() -> (r: AccessSet)
        ensures
            r.wf(),
            r@ == Set::<(FieldId, int)>::empty(),
    {
        let r = AccessSet { entries: Vec::new() };
        assert(r@ =~= Set::<(FieldId, int)>::empty());
        r
    }
}

impl Clone for AccessSet {
    fn clone(&self) -> (r: AccessSet)
        ensures
            self.wf() ==> r.wf(),
            r@ == self@,
    {
        let mut entries: Vec<(FieldId, Vec<Span>)> = Vec::new();
        let mut k: usize = 0;
        while k < self.entries.len()
            invariant
                k <= self.entries@.len(),
                entries@.len() == k,
                forall|i: int|
                    0 <= i < k ==> (#[trigger] entries@[i]).0 == self.entries@[i].0 && entries@[i].1@
                        == self.entries@[i].1@,
            decreases self.entries@.len() - k,
        {
            let spans = copy_spans(&self.entries[k].1);
            entries.push((self.entries[k].0, spans));
            k = k + 1;
        }
        let r = AccessSet { entries };
        assert forall|p: (FieldId, int)| r@.contains(p) == self@.contains(p) by {
            if entries_hold(r.entries@, p) {
                let i = choose|i: int|
                    0 <= i < r.entries@.len() && (#[trigger] r.entries@[i]).0 == p.0 && covers(
                        r.entries@[i].1@,
                        p.1,
                    );
                assert(self.entries@[i].0 == p.0);
            }
            if entries_hold(self.entries@, p) {
                let i = choose|i: int|
                    0 <= i < self.entries@.len() && (#[trigger] self.entries@[i]).0 == p.0
                        && covers(self.entries@[i].1@, p.1);
                assert(r.entries@[i].0 == p.0);
            }
        }
        assert(r@ =~= self@);
        r
    }
}

pub(crate) fn copy_spans(spans: &Vec<Span>) -> (r: Vec<Span>)
    ensures
        r@ == spans@,
{
    let mut r: Vec<Span> = Vec::new();
    let mut i: usize = 0;
    while i < spans.len()
        invariant
            i <= spans@.len(),
            r@ == spans@.take(i as int),
        decreases spans@.len() - i,
    {
        r.push(spans[i]);
        i = i + 1;
        assert(r@ =~= spans@.take(i as int));
    }
    assert(r@ =~= spans@);
    r
}

impl AccessSet {
    pub closed spec fn wf(&self) -> bool {
        entries_canonical(self.entries@)
    }

    /// The bytes of a set have places from nought on.
    pub proof fn lemma_places(self)
        ensures
            forall|p: (FieldId, int)| #[trigger] self@.contains(p) ==> 0 <= p.1 < usize::MAX,
    {
        assert forall|p: (FieldId, int)| #[trigger] self@.contains(p) implies 0 <= p.1 < usize::MAX by {
            let k = choose|k: int|
                0 <= k < self.entries@.len() && (#[trigger] self.entries@[k]).0 == p.0 && covers(
                    self.entries@[k].1@,
                    p.1,
                );
            let spans = self.entries@[k].1@;
            let i = choose|i: int| 0 <= i < spans.len() && (#[trigger] spans[i]).has(p.1);
            assert(spans[i].has(p.1));
        }
    }

    /// The number of entries for fields before `field`.
    fn position(&self, field: FieldId) -> (r: usize)
        requires
            self.wf(),
        ensures
            r <= self.entries@.len(),
            forall|k: int| 0 <= k < r ==> (#[trigger] self.entries@[k]).0.0 < field.0,
            forall|k: int| r <= k < self.entries@.len() ==> (#[trigger] self.entries@[k]).0.0 >= field.0,
    {
        let mut at: usize = 0;
        while at < self.entries.len() && self.entries[at].0.0 < field.0
            invariant
                self.wf(),
                at <= self.entries@.len(),
                forall|k: int| 0 <= k < at ==> (#[trigger] self.entries@[k]).0.0 < field.0,
            decreases self.entries@.len() - at,
        {
            at = at + 1;
        }
        at
    }

    /// Adds the bytes of `span` of one field, and says whether any was new.
    pub fn insert(&mut self, field: FieldId, span: Span) -> (r: bool)
        requires
            old(self).wf(),
            span.wf(),
        ensures
            final(self).wf(),
            final(self)@ == old(self)@.union(field_bytes(field, span.start as int, span.end as int)),
            r == !field_bytes(field, span.start as int, span.end as int).subset_of(old(self)@),
    {
        let ghost added = field_bytes(field, span.start as int, span.end as int);
        let ghost before = self.entries@;
        if span.is_empty() {
            assert(self@.union(added) =~= self@);
            return false;
        }
        let at: usize = self.position(field);
        let present: bool = at < self.entries.len() && self.entries[at].0.0 == field.0;
        let mut spans: Vec<Span> = if present {
            copy_spans(&self.entries[at].1)
        } else {
            Vec::new()
        };
        let ghost held = spans@;
        assert forall|b: int| #[trigger] covers(held, b) == self@.contains((field, b)) by {
            if covers(held, b) {
                assert(before[at as int].0 == field);
                assert(entries_hold(before, (field, b)));
            }
            if entries_hold(before, (field, b)) {
                let k = choose|k: int|
                    0 <= k < before.len() && (#[trigger] before[k]).0 == field && covers(
                        before[k].1@,
                        b,
                    );
                assert(k == at);
            }
        }
        let mut covered: bool = false;
        let mut i: usize = 0;
        while i < spans.len()
            invariant
                i <= spans@.len(),
                spans@ == held,
                span.start < span.end,
                covered == exists|k: int|
                    0 <= k < i && (#[trigger] held[k]).start <= span.start && span.end <= held[k].end,
            decreases spans@.len() - i,
        {
            if spans[i].start <= span.start && span.end <= spans[i].end {
                covered = true;
            }
            i = i + 1;
        }
        if covered {
            assert(added.subset_of(self@)) by {
                let k = choose|k: int|
                    0 <= k < held.len() && (#[trigger] held[k]).start <= span.start && span.end
                        <= held[k].end;
                assert forall|p: (FieldId, int)| added.contains(p) implies self@.contains(p) by {
                    assert(held[k].has(p.1));
                    assert(covers(held, p.1));
                }
            }
            assert(self@.union(added) =~= self@);
            return false;
        }
        spans.push(span);
        let ghost pushed = spans@;
        proof {
            assert forall|b: int| #[trigger] covers(pushed, b) == (covers(held, b) || span.has(b)) by {
                if covers(held, b) {
                    let k = choose|k: int| 0 <= k < held.len() && (#[trigger] held[k]).has(b);
                    assert(pushed[k].has(b));
                }
                if span.has(b) {
                    assert(pushed[held.len() as int].has(b));
                }
            }
            if added.subset_of(self@) {
                lemma_contiguous(held, span);
            }
        }
        merge_spans(&mut spans);
        proof {
            assert(covers(pushed, span.start as int)) by {
                assert(pushed[held.len() as int].has(span.start as int));
            }
            assert(covers(spans@, span.start as int));
        }
        let ghost merged = spans@;
        if present {
            self.entries.set(at, (field, spans));
        } else {
            self.entries.insert(at, (field, spans));
        }
        proof {
            let after = self.entries@;
            if present {
                assert(after =~= before.update(at as int, (field, after[at as int].1)));
            } else {
                assert(after =~= before.insert(at as int, (field, after[at as int].1)));
            }
            assert(after[at as int].0 == field && after[at as int].1@ == merged);
            assert(entries_canonical(after));
            assert forall|p: (FieldId, int)|
                self@.contains(p) == old(self)@.union(added).contains(p) by {
                if entries_hold(after, p) {
                    let k = choose|k: int|
                        0 <= k < after.len() && (#[trigger] after[k]).0 == p.0 && covers(
                            after[k].1@,
                            p.1,
                        );
                    if k != at {
                        let j = if present || k < at { k } else { k - 1 };
                        assert(before[j] == after[k]);
                    } else {
                        assert(covers(merged, p.1));
                        assert(covers(pushed, p.1));
                        assert(covers(held, p.1) || span.has(p.1));
                    }
                }
                if entries_hold(before, p) {
                    let k = choose|k: int|
                        0 <= k < before.len() && (#[trigger] before[k]).0 == p.0 && covers(
                            before[k].1@,
                            p.1,
                        );
                    if p.0 == field {
                        assert(k == at && present);
                        assert(covers(pushed, p.1));
                        assert(covers(merged, p.1));
                        assert(after[at as int].0 == p.0);
                    } else {
                        let j = if present || k < at { k } else { k + 1 };
                        assert(after[j] == before[k]);
                    }
                }
                if added.contains(p) {
                    assert(covers(pushed, p.1));
                    assert(covers(merged, p.1));
                    assert(after[at as int].0 == p.0);
                }
            }
            assert(self@ =~= old(self)@.union(added));
        }
        true
    }

    /// The ranges of one field in ascending order.
    pub fn spans(&self, field: FieldId) -> (r: &[Span])
        requires
            self.wf(),
        ensures
            canonical(r@),
            forall|b: int| #[trigger] covers(r@, b) == self@.contains((field, b)),
    {
        let at: usize = self.position(field);
        if at < self.entries.len() && self.entries[at].0.0 == field.0 {
            let r = self.entries[at].1.as_slice();
            assert forall|b: int| #[trigger] covers(r@, b) == self@.contains((field, b)) by {
                if covers(r@, b) {
                    assert(self.entries@[at as int].0 == field);
                    assert(entries_hold(self.entries@, (field, b)));
                }
                if entries_hold(self.entries@, (field, b)) {
                    let k = choose|k: int|
                        0 <= k < self.entries@.len() && (#[trigger] self.entries@[k]).0 == field
                            && covers(self.entries@[k].1@, b);
                    assert(k == at);
                }
            }
            r
        } else {
            let r: &[Span] = &[];
            assert forall|b: int| !entries_hold(self.entries@, (field, b)) by {
                if entries_hold(self.entries@, (field, b)) {
                    let k = choose|k: int|
                        0 <= k < self.entries@.len() && (#[trigger] self.entries@[k]).0 == field
                            && covers(self.entries@[k].1@, b);
                    assert(k >= at);
                    assert(self.entries@[at as int].0.0 <= self.entries@[k].0.0);
                }
            }
            r
        }
    }

    /// The fields with their ranges, in ascending order.
    pub fn iter(&self) -> (r: &[(FieldId, Vec<Span>)])
        requires
            self.wf(),
        ensures
            entries_canonical(r@),
            forall|p: (FieldId, int)| self@.contains(p) == #[trigger] entries_hold(r@, p),
    {
        self.entries.as_slice()
    }

    /// The number of bytes in the set.
    pub fn bytes(&self) -> (r: usize)
        requires
            self.wf(),
            self@.len() <= usize::MAX,
        ensures
            self@.finite(),
            r == self@.len(),
    {
        match self.checked_bytes() {
            Some(r) => r,
            None => 0,
        }
    }

    /// The number of bytes in the set, if it fits.
    pub(crate) fn checked_bytes(&self) -> (r: Option<usize>)
        requires
            self.wf(),
        ensures
            self@.finite(),
            match r {
                Some(n) => n == self@.len(),
                None => self@.len() > usize::MAX,
            },
    {
        let mut sum: usize = 0;
        let mut k: usize = 0;
        proof {
            lemma_entries_len(self.entries@);
        }
        assert(self@ =~= Set::new(|p: (FieldId, int)| entries_hold(self.entries@, p)));
        while k < self.entries.len()
            invariant
                self.wf(),
                k <= self.entries@.len(),
                sum == entries_total(self.entries@.take(k as int)),
                entries_total(self.entries@) == self@.len(),
                self@.finite(),
            decreases self.entries@.len() - k,
        {
            let spans = &self.entries[k].1;
            let ghost entries = self.entries@;
            proof {
                assert(entries.take(k + 1).drop_last() =~= entries.take(k as int));
                lemma_entries_prefix(entries, k + 1);
            }
            let mut i: usize = 0;
            while i < spans.len()
                invariant
                    entries == self.entries@,
                    k < entries.len(),
                    spans@ == entries[k as int].1@,
                    canonical(spans@),
                    i <= spans@.len(),
                    sum == entries_total(entries.take(k as int)) + total(spans@.take(i as int)),
                    entries_total(entries.take(k as int)) + total(spans@) <= entries_total(entries),
                    entries_total(entries) == self@.len(),
                    self@.finite(),
                decreases spans@.len() - i,
            {
                proof {
                    assert(spans@.take(i + 1).drop_last() =~= spans@.take(i as int));
                    lemma_total_prefix(spans@, i + 1);
                }
                match sum.checked_add(spans[i].len()) {
                    Some(next) => {
                        sum = next;
                    },
                    None => {
                        return None;
                    },
                }
                i = i + 1;
            }
            assert(spans@.take(i as int) =~= spans@);
            k = k + 1;
        }
        assert(self.entries@.take(k as int) =~= self.entries@);
        Some(sum)
    }
}

/// A range that a merged list covers lies inside one of its ranges.
proof fn lemma_contiguous(held: Seq<Span>, span: Span)
    requires
        separated(held),
        span.start < span.end,
        forall|b: int| span.has(b) ==> #[trigger] covers(held, b),
    ensures
        exists|k: int|
            0 <= k < held.len() && (#[trigger] held[k]).start <= span.start && span.end <= held[k].end,
{
    assert(covers(held, span.start as int));
    let k = choose|k: int| 0 <= k < held.len() && (#[trigger] held[k]).has(span.start as int);
    if held[k].end < span.end {
        let b = held[k].end as int;
        assert(span.has(b));
        assert(covers(held, b));
        let m = choose|m: int| 0 <= m < held.len() && (#[trigger] held[m]).has(b);
        if m < k {
            assert(held[m].end < held[k].start);
        } else if m > k {
            assert(held[k].end < held[m].start);
        }
        assert(false);
    }
}

pub open spec fn entries_total(entries: Seq<(FieldId, Vec<Span>)>) -> nat
    decreases entries.len(),
{
    if entries.len() == 0 {
        0
    } else {
        entries_total(entries.drop_last()) + total(entries.last().1@)
    }
}

proof fn lemma_entries_prefix(entries: Seq<(FieldId, Vec<Span>)>, n: int)
    requires
        0 <= n <= entries.len(),
    ensures
        entries_total(entries.take(n)) <= entries_total(entries),
    decreases entries.len(),
{
    if n < entries.len() {
        lemma_entries_prefix(entries.drop_last(), n);
        assert(entries.drop_last().take(n) =~= entries.take(n));
    } else {
        assert(entries.take(n) =~= entries);
    }
}

pub proof fn lemma_total_prefix(spans: Seq<Span>, n: int)
    requires
        0 <= n <= spans.len(),
    ensures
        total(spans.take(n)) <= total(spans),
    decreases spans.len(),
{
    if n < spans.len() {
        lemma_total_prefix(spans.drop_last(), n);
        assert(spans.drop_last().take(n) =~= spans.take(n));
    } else {
        assert(spans.take(n) =~= spans);
    }
}

pub proof fn lemma_field_bytes_len(field: FieldId, start: int, end: int)
    requires
        start <= end,
    ensures
        field_bytes(field, start, end).finite(),
        field_bytes(field, start, end).len() == end - start,
    decreases end - start,
{
    let all = field_bytes(field, start, end);
    if start == end {
        assert(all =~= Set::empty());
    } else {
        lemma_field_bytes_len(field, start, end - 1);
        assert(all =~= field_bytes(field, start, end - 1).insert((field, end - 1)));
    }
}

pub proof fn lemma_listed_len(field: FieldId, spans: Seq<Span>)
    requires
        separated(spans),
    ensures
        listed_bytes(field, spans).finite(),
        listed_bytes(field, spans).len() == total(spans),
    decreases spans.len(),
{
    let all = listed_bytes(field, spans);
    if spans.len() == 0 {
        assert(all =~= Set::empty());
    } else {
        let rest = spans.drop_last();
        let last = spans.last();
        assert(last == spans[spans.len() - 1]);
        lemma_listed_len(field, rest);
        let tail = field_bytes(field, last.start as int, last.end as int);
        lemma_field_bytes_len(field, last.start as int, last.end as int);
        assert forall|p: (FieldId, int)|
            all.contains(p) == listed_bytes(field, rest).union(tail).contains(p) by {
            if all.contains(p) {
                let k = choose|k: int| 0 <= k < spans.len() && (#[trigger] spans[k]).has(p.1);
                if k < rest.len() {
                    assert(rest[k].has(p.1));
                }
            }
            if listed_bytes(field, rest).contains(p) {
                let k = choose|k: int| 0 <= k < rest.len() && (#[trigger] rest[k]).has(p.1);
                assert(spans[k].has(p.1));
            }
            if tail.contains(p) {
                assert(spans[spans.len() - 1].has(p.1));
            }
        }
        assert(all =~= listed_bytes(field, rest).union(tail));
        assert(listed_bytes(field, rest).disjoint(tail)) by {
            assert forall|p: (FieldId, int)| listed_bytes(field, rest).contains(p) implies !tail.contains(
                p,
            ) by {
                let k = choose|k: int| 0 <= k < rest.len() && (#[trigger] rest[k]).has(p.1);
                assert(spans[k].end < spans[spans.len() - 1].start);
            }
        }
        vstd::set_lib::lemma_set_disjoint_lens(listed_bytes(field, rest), tail);
    }
}

proof fn lemma_entries_len(entries: Seq<(FieldId, Vec<Span>)>)
    requires
        entries_canonical(entries),
    ensures
        Set::new(|p: (FieldId, int)| entries_hold(entries, p)).finite(),
        Set::new(|p: (FieldId, int)| entries_hold(entries, p)).len() == entries_total(entries),
    decreases entries.len(),
{
    let all = Set::new(|p: (FieldId, int)| entries_hold(entries, p));
    if entries.len() == 0 {
        assert(all =~= Set::empty());
    } else {
        let rest = entries.drop_last();
        let last = entries.last();
        assert(last == entries[entries.len() - 1]);
        assert(entries_canonical(rest)) by {
            assert(forall|k: int| 0 <= k < rest.len() ==> rest[k] == entries[k]);
        }
        lemma_entries_len(rest);
        let front = Set::new(|p: (FieldId, int)| entries_hold(rest, p));
        let tail = listed_bytes(last.0, last.1@);
        lemma_listed_len(last.0, last.1@);
        assert forall|p: (FieldId, int)| all.contains(p) == front.union(tail).contains(p) by {
            if all.contains(p) {
                let k = choose|k: int|
                    0 <= k < entries.len() && (#[trigger] entries[k]).0 == p.0 && covers(
                        entries[k].1@,
                        p.1,
                    );
                if k < rest.len() {
                    assert(rest[k].0 == p.0);
                }
            }
            if front.contains(p) {
                let k = choose|k: int|
                    0 <= k < rest.len() && (#[trigger] rest[k]).0 == p.0 && covers(rest[k].1@, p.1);
                assert(entries[k].0 == p.0);
            }
            if tail.contains(p) {
                assert(entries[entries.len() - 1].0 == p.0);
            }
        }
        assert(all =~= front.union(tail));
        assert(front.disjoint(tail)) by {
            assert forall|p: (FieldId, int)| front.contains(p) implies !tail.contains(p) by {
                let k = choose|k: int|
                    0 <= k < rest.len() && (#[trigger] rest[k]).0 == p.0 && covers(rest[k].1@, p.1);
                assert(entries[k].0.0 < entries[entries.len() - 1].0.0);
            }
        }
        vstd::set_lib::lemma_set_disjoint_lens(front, tail);
    }
}

} // verus!
