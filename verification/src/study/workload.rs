//! Predicates on a selector column and what they select.
use super::error::StudyError;
use super::order::sorted_present;
#[allow(unused_imports)]
use super::order::{in_order, present};
#[allow(unused_imports)]
use crate::access_compiler::execute::sum_of;
use crate::access_compiler::span::Span;
use crate::access_compiler::support::push_range;
#[allow(unused_imports)]
use crate::access_compiler::support::ranges_where;
use vstd::prelude::*;
use vstd::string::*;

verus! {

#[derive(Clone, Debug)]
pub struct PredicateSpec {
    pub label: String,
    pub requested: String,
    pub low: i64,
    pub high: i64,
}

/// A predicate as a value.
pub struct PredicateText {
    pub label: Seq<char>,
    pub requested: Seq<char>,
    pub low: i64,
    pub high: i64,
}

impl View for PredicateSpec {
    type V = PredicateText;

    open spec fn view(&self) -> PredicateText {
        PredicateText {
            label: self.label@,
            requested: self.requested@,
            low: self.low,
            high: self.high,
        }
    }
}

impl PredicateSpec {
    pub fn upper_exclusive(&self) -> (r: Result<i64, StudyError>)
        ensures
            if self.high == i64::MAX {
                r == Err::<i64, StudyError>(StudyError::UpperNotExclusive)
            } else {
                r matches Ok(bound) && bound == self.high + 1
            },
    {
        match self.high.checked_add(1) {
            Some(bound) => Ok(bound),
            None => Err(StudyError::UpperNotExclusive),
        }
    }
}

/// How much of the values a predicate selects, in thousandths, and its two names.
pub open spec fn share(k: int) -> (int, Seq<char>, Seq<char>) {
    if k == 0 {
        (1, "0.1pct"@, "0.001"@)
    } else if k == 1 {
        (10, "1pct"@, "0.010"@)
    } else if k == 2 {
        (100, "10pct"@, "0.100"@)
    } else {
        (500, "50pct"@, "0.500"@)
    }
}

/// The predicate that selects a share of the values around their middle.
pub open spec fn centred(list: Seq<i64>, k: int) -> PredicateText {
    let (per_thousand, label, requested) = share(k);
    let asked = list.len() * per_thousand / 1_000;
    let width = if asked < 1 {
        1
    } else {
        asked
    };
    let start = (list.len() - width) / 2;
    PredicateText { label, requested, low: list[start], high: list[start + width - 1] }
}

/// The place of the first predicate with the bounds of another, if there is one.
pub open spec fn same_bounds(list: Seq<PredicateText>, one: PredicateText, n: int) -> Option<int>
    decreases n,
{
    if n <= 0 {
        None
    } else {
        match same_bounds(list, one, n - 1) {
            Some(i) => Some(i),
            None => if list[n - 1].low == one.low && list[n - 1].high == one.high {
                Some(n - 1)
            } else {
                None
            },
        }
    }
}

/// The predicates with one more, whose names go to one with the same bounds.
pub open spec fn with_predicate(list: Seq<PredicateText>, one: PredicateText) -> Seq<PredicateText> {
    match same_bounds(list, one, list.len() as int) {
        None => list.push(one),
        Some(i) => list.update(
            i,
            PredicateText {
                label: list[i].label + "+"@ + one.label,
                requested: list[i].requested + "|"@ + one.requested,
                ..list[i]
            },
        ),
    }
}

/// The first `n` predicates on values in order.
pub open spec fn distinct_predicates(list: Seq<i64>, n: int) -> Seq<PredicateText>
    decreases n,
{
    if n <= 0 {
        Seq::empty()
    } else {
        with_predicate(distinct_predicates(list, n - 1), centred(list, n - 1))
    }
}

pub open spec fn texts(list: Seq<PredicateSpec>) -> Seq<PredicateText> {
    Seq::new(list.len(), |i: int| list[i]@)
}

fn exec_share(k: usize) -> (r: (usize, String, String))
    ensures
        (r.0 as int, r.1@, r.2@) == share(k as int),
{
    if k == 0 {
        (1, String::from_str("0.1pct"), String::from_str("0.001"))
    } else if k == 1 {
        (10, String::from_str("1pct"), String::from_str("0.010"))
    } else if k == 2 {
        (100, String::from_str("10pct"), String::from_str("0.100"))
    } else {
        (500, String::from_str("50pct"), String::from_str("0.500"))
    }
}

fn centre(list: &Vec<i64>, k: usize) -> (r: Result<PredicateSpec, StudyError>)
    requires
        list@.len() > 0,
    ensures
        if centred(list@, k as int).high == i64::MAX {
            r matches Err(e) && e == StudyError::SelectorMaximum
        } else {
            r matches Ok(one) && one@ == centred(list@, k as int)
        },
{
    let (per_thousand, label, requested) = exec_share(k);
    let count: usize = list.len();
    assert(count * per_thousand <= u64::MAX * 500) by (nonlinear_arith)
        requires
            count <= u64::MAX,
            per_thousand <= 500,
    ;
    let asked: u128 = count as u128 * per_thousand as u128 / 1_000;
    assert(asked <= count) by (nonlinear_arith)
        requires
            asked == count * per_thousand / 1_000,
            per_thousand <= 500,
    ;
    let width: usize = if asked < 1 {
        1
    } else {
        asked as usize
    };
    let start: usize = (count - width) / 2;
    let high: i64 = list[start + width - 1];
    if high == i64::MAX {
        return Err(StudyError::SelectorMaximum);
    }
    Ok(PredicateSpec { label, requested, low: list[start], high })
}

fn add_predicate(list: &mut Vec<PredicateSpec>, one: PredicateSpec)
    ensures
        texts(final(list)@) == with_predicate(texts(old(list)@), one@),
{
    let ghost before = texts(list@);
    let mut i: usize = 0;
    while i < list.len()
        invariant
            list@ == old(list)@,
            before == texts(list@),
            i <= list@.len(),
            same_bounds(before, one@, i as int) is None,
        decreases list@.len() - i,
    {
        if list[i].low == one.low && list[i].high == one.high {
            let mut label = list[i].label.clone();
            label.append("+");
            label.append(one.label.as_str());
            let mut requested = list[i].requested.clone();
            requested.append("|");
            requested.append(one.requested.as_str());
            let low: i64 = list[i].low;
            let high: i64 = list[i].high;
            proof {
                lemma_found(before, one@, i as int, before.len() as int);
            }
            list.set(i, PredicateSpec { label, requested, low, high });
            assert(texts(list@) =~= with_predicate(before, one@));
            return;
        }
        i = i + 1;
    }
    list.push(one);
    assert(texts(list@) =~= with_predicate(before, one@));
}

proof fn lemma_found(list: Seq<PredicateText>, one: PredicateText, i: int, n: int)
    requires
        0 <= i < n,
        same_bounds(list, one, i) is None,
        list[i].low == one.low,
        list[i].high == one.high,
    ensures
        same_bounds(list, one, n) == Some(i),
    decreases n,
{
    if i < n - 1 {
        lemma_found(list, one, i, n - 1);
    }
}

/// Some share of the values reaches the largest value there is.
pub open spec fn reaches_maximum(list: Seq<i64>) -> bool {
    exists|k: int| 0 <= k < 4 && (#[trigger] centred(list, k)).high == i64::MAX
}

/// Predicates that select a thousandth, a hundredth, a tenth and a half of the
/// values around their middle. Where two have the same bounds they are one.
pub fn predicates(values: &[Option<i64>]) -> (r: Result<Vec<PredicateSpec>, StudyError>)
    ensures
        ({
            let list = in_order(present(values@));
            if list.len() == 0 {
                r matches Err(e) && e == StudyError::SelectorEmpty
            } else if reaches_maximum(list) {
                r matches Err(e) && e == StudyError::SelectorMaximum
            } else {
                r matches Ok(found) && texts(found@) == distinct_predicates(list, 4)
            }
        }),
{
    let list = sorted_present(values);
    if list.len() == 0 {
        return Err(StudyError::SelectorEmpty);
    }
    let mut unique: Vec<PredicateSpec> = Vec::new();
    let mut k: usize = 0;
    assert(texts(unique@) =~= Seq::empty());
    while k < 4
        invariant
            k <= 4,
            list@ == in_order(present(values@)),
            list@.len() > 0,
            forall|j: int| 0 <= j < k ==> (#[trigger] centred(list@, j)).high != i64::MAX,
            texts(unique@) == distinct_predicates(list@, k as int),
        decreases 4 - k,
    {
        let one = match centre(&list, k) {
            Ok(one) => one,
            Err(e) => {
                return Err(e);
            },
        };
        add_predicate(&mut unique, one);
        k = k + 1;
    }
    Ok(unique)
}

/// The rows that a predicate selects.
pub open spec fn selects(selector: Seq<Option<i64>>, low: i64, high: i64) -> spec_fn(int) -> bool {
    |row: int| selector[row] matches Some(value) && low <= value <= high
}

/// The values of the rows that a predicate selects.
pub open spec fn selected(
    selector: Seq<Option<i64>>,
    values: Seq<Option<i64>>,
    low: i64,
    high: i64,
) -> spec_fn(int) -> Option<i64> {
    |row: int|
        if selects(selector, low, high)(row) {
            values[row]
        } else {
            None
        }
}

proof fn lemma_sum_bound(row_value: spec_fn(int) -> Option<i64>, n: int)
    requires
        0 <= n,
    ensures
        n * i64::MIN <= sum_of(row_value, 0, n) <= n * i64::MAX,
    decreases n,
{
    if n > 0 {
        lemma_sum_bound(row_value, n - 1);
    }
}

/// The rows that a predicate selects, and the sum of their values; nulls are passed
/// over.
pub fn truth(selector: &[Option<i64>], values: &[Option<i64>], predicate: &PredicateSpec) -> (r:
    Result<(Vec<Span>, i128), StudyError>)
    ensures
        if selector@.len() != values@.len() {
            r matches Err(e) && e == StudyError::RowCountDiffers
        } else {
            let n = values@.len() as int;
            r matches Ok(found) && found.0@ == ranges_where(
                selects(selector@, predicate.low, predicate.high),
                0,
                n,
            ) && found.1 == sum_of(
                selected(selector@, values@, predicate.low, predicate.high),
                0,
                n,
            )
        },
{
    if selector.len() != values.len() {
        return Err(StudyError::RowCountDiffers);
    }
    let ghost hit = selects(selector@, predicate.low, predicate.high);
    let ghost row_value = selected(selector@, values@, predicate.low, predicate.high);
    let count: usize = values.len();
    let mut ranges: Vec<Span> = Vec::new();
    let mut sum: i128 = 0;
    let mut row: usize = 0;
    assert(ranges@ =~= ranges_where(hit, 0, 0));
    while row < count
        invariant
            row <= count,
            count == values@.len(),
            count == selector@.len(),
            hit == selects(selector@, predicate.low, predicate.high),
            row_value == selected(selector@, values@, predicate.low, predicate.high),
            ranges@ == ranges_where(hit, 0, row as int),
            sum == sum_of(row_value, 0, row as int),
        decreases count - row,
    {
        let chosen: bool = match selector[row] {
            Some(value) => predicate.low <= value && value <= predicate.high,
            None => false,
        };
        assert(chosen == hit(row as int));
        assert(row_value(row as int) == (if chosen {
            values@[row as int]
        } else {
            None
        }));
        if chosen {
            push_range(&mut ranges, row, row + 1);
            if let Some(value) = values[row] {
                proof {
                    lemma_sum_bound(row_value, row as int);
                }
                sum = sum + value as i128;
            }
        }
        row = row + 1;
    }
    Ok((ranges, sum))
}

/// The number of rows in the first `n` ranges.
pub open spec fn rows_in(ranges: Seq<Span>, n: int) -> int
    decreases n,
{
    if n <= 0 {
        0
    } else {
        rows_in(ranges, n - 1) + (ranges[n - 1].end - ranges[n - 1].start)
    }
}

pub proof fn lemma_rows_in(ranges: Seq<Span>, i: int, n: int)
    requires
        0 <= i <= n <= ranges.len(),
        forall|k: int| 0 <= k < ranges.len() ==> (#[trigger] ranges[k]).start <= ranges[k].end,
    ensures
        rows_in(ranges, i) <= rows_in(ranges, n),
    decreases n - i,
{
    if i < n {
        lemma_rows_in(ranges, i, n - 1);
        assert(ranges[n - 1].start <= ranges[n - 1].end);
    }
}

/// The number of rows in ranges.
pub fn selected_rows(ranges: &[Span]) -> (r: usize)
    requires
        forall|k: int| 0 <= k < ranges@.len() ==> (#[trigger] ranges@[k]).start <= ranges@[k].end,
        rows_in(ranges@, ranges@.len() as int) <= usize::MAX,
    ensures
        r == rows_in(ranges@, ranges@.len() as int),
{
    let mut total: usize = 0;
    let mut i: usize = 0;
    while i < ranges.len()
        invariant
            i <= ranges@.len(),
            total == rows_in(ranges@, i as int),
            rows_in(ranges@, ranges@.len() as int) <= usize::MAX,
            forall|k: int|
                0 <= k < ranges@.len() ==> (#[trigger] ranges@[k]).start <= ranges@[k].end,
        decreases ranges@.len() - i,
    {
        proof {
            assert(ranges@[i as int].start <= ranges@[i as int].end);
            lemma_rows_in(ranges@, i + 1, ranges@.len() as int);
            lemma_rows_in(ranges@, 0, i as int);
        }
        total = total + (ranges[i].end - ranges[i].start);
        i = i + 1;
    }
    total
}

} // verus!
