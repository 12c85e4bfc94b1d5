//! The study of certificates: which values are asked for, and what the candidate
//! blocks cost.
use super::error::StudyError;
use super::order::sorted_present;
#[allow(unused_imports)]
use super::order::{ascending, in_order, lemma_ordered, present};
#[allow(unused_imports)]
use crate::access_compiler::certificates::{
    at_most, block_end, block_range, fence_first, fence_last, in_hit, increasing, is_plan, less_than,
};
use crate::access_compiler::certificates::{CandidatePlan, SparseFence};
use crate::access_compiler::plan::OutputGuarantee;
use vstd::prelude::*;

verus! {

/// How often a value occurs.
pub open spec fn occurrences(values: Seq<i64>, value: i64) -> nat {
    values.to_multiset().count(value)
}

/// A value that occurs least often, the least of those.
pub open spec fn is_rare(values: Seq<i64>, value: i64) -> bool {
    &&& values.contains(value)
    &&& forall|other: i64| #[trigger]
        values.contains(other) ==> occurrences(values, value) < occurrences(values, other) || (
        occurrences(values, value) == occurrences(values, other) && value <= other)
}

/// A value that occurs most often, the least of those.
pub open spec fn is_frequent(values: Seq<i64>, value: i64) -> bool {
    &&& values.contains(value)
    &&& forall|other: i64| #[trigger]
        values.contains(other) ==> occurrences(values, value) > occurrences(values, other) || (
        occurrences(values, value) == occurrences(values, other) && value <= other)
}

/// A number is among the values.
pub open spec fn holds(values: Seq<i64>, number: int) -> bool {
    exists|i: int| 0 <= i < values.len() && (#[trigger] values[i]) as int == number
}

/// The least number above the least value that is no value.
pub open spec fn is_gap(values: Seq<i64>, number: int) -> bool {
    &&& !holds(values, number)
    &&& exists|i: int|
        0 <= i < values.len() && values[i] < number && forall|other: int|
            #![trigger holds(values, other)]
            (values[i] <= other < number ==> holds(values, other)) && (holds(values, other) ==> values[i] <= other)
}

/// A value that is not there: the first gap, or the one below all values if the
/// values go up to the largest there is.
pub open spec fn is_absent(values: Seq<i64>, value: i64) -> bool {
    if is_gap(values, i64::MAX + 1) {
        &&& holds(values, value + 1)
        &&& forall|other: int| #[trigger] holds(values, other) ==> value < other
    } else {
        is_gap(values, value as int)
    }
}

/// Every value there is occurs.
pub open spec fn is_complete(values: Seq<i64>) -> bool {
    is_gap(values, i64::MAX + 1) && holds(values, i64::MIN as int)
}

/// A query for rows that equal one of some targets.
#[derive(Clone, Debug)]
pub struct QuerySpec {
    pub name: &'static str,
    pub targets: Vec<i64>,
}

/// The targets, each once and in ascending order.
pub open spec fn distinct_of(targets: Seq<i64>, a: i64, b: i64, c: i64) -> bool {
    &&& forall|i: int, j: int|
        0 <= i < j < targets.len() ==> #[trigger] targets[i] < #[trigger] targets[j]
    &&& forall|value: i64| #[trigger]
        targets.contains(value) <==> value == a || value == b || value == c
}

/// The queries of the study.
pub open spec fn are_queries(values: Seq<i64>, queries: Seq<QuerySpec>) -> bool {
    &&& queries.len() == 4
    &&& queries[0].name@ == "eq_rare"@
    &&& queries[1].name@ == "eq_frequent"@
    &&& queries[2].name@ == "eq_absent"@
    &&& queries[3].name@ == "in_mixed"@
    &&& queries[0].targets@.len() == 1
    &&& queries[1].targets@.len() == 1
    &&& queries[2].targets@.len() == 1
    &&& is_rare(values, queries[0].targets@[0])
    &&& is_frequent(values, queries[1].targets@[0])
    &&& is_absent(values, queries[2].targets@[0])
    &&& distinct_of(
        queries[3].targets@,
        queries[0].targets@[0],
        queries[1].targets@[0],
        queries[2].targets@[0],
    )
}

proof fn lemma_take_more(list: Seq<i64>, n: int)
    requires
        0 <= n < list.len(),
    ensures
        forall|value: i64| #[trigger]
            occurrences(list.take(n + 1), value) == occurrences(list.take(n), value) + if value
                == list[n] {
                1nat
            } else {
                0nat
            },
{
    broadcast use vstd::seq_lib::group_to_multiset_ensures;

    assert(list.take(n + 1) =~= list.take(n).push(list[n]));
}

proof fn lemma_none(list: Seq<i64>, value: i64)
    requires
        !list.contains(value),
    ensures
        occurrences(list, value) == 0,
{
    broadcast use vstd::seq_lib::group_to_multiset_ensures;

}

/// The values that occur least and most often.
fn extremes(list: &Vec<i64>) -> (r: (i64, i64))
    requires
        list@.len() > 0,
        ascending(list@),
    ensures
        is_rare(list@, r.0),
        is_frequent(list@, r.1),
{
    let mut rare: i64 = list[0];
    let mut rare_count: usize = 0;
    let mut frequent: i64 = list[0];
    let mut frequent_count: usize = 0;
    let mut start: usize = 0;
    while start < list.len()
        invariant
            start <= list@.len(),
            list@.len() > 0,
            ascending(list@),
            0 < start < list@.len() ==> list@[start - 1] < list@[start as int],
            start > 0 ==> is_rare(list@.take(start as int), rare) && rare_count == occurrences(
                list@.take(start as int),
                rare,
            ),
            start > 0 ==> is_frequent(list@.take(start as int), frequent) && frequent_count
                == occurrences(list@.take(start as int), frequent),
        decreases list@.len() - start,
    {
        let value: i64 = list[start];
        let ghost before = list@.take(start as int);
        let mut end: usize = start;
        proof {
            if before.contains(value) {
                let k = choose|k: int| 0 <= k < before.len() && before[k] == value;
                assert(list@[k] <= list@[start - 1]);
            }
            lemma_none(before, value);
        }
        while end < list.len() && list[end] == value
            invariant
                start <= end <= list@.len(),
                start < list@.len(),
                value == list@[start as int],
                before == list@.take(start as int),
                forall|k: int| start <= k < end ==> #[trigger] list@[k] == value,
                occurrences(list@.take(end as int), value) == end - start,
                forall|other: i64|
                    other != value ==> #[trigger] occurrences(list@.take(end as int), other)
                        == occurrences(before, other),
            decreases list@.len() - end,
        {
            proof {
                lemma_take_more(list@, end as int);
            }
            end = end + 1;
        }
        assert(end > start) by {
            assert(list@[start as int] == value);
        }
        let count: usize = end - start;
        let ghost after = list@.take(end as int);
        proof {
            assert(after[start as int] == value);
            assert forall|other: i64| #[trigger] after.contains(other) <==> other == value
                || before.contains(other) by {
                if after.contains(other) {
                    let k = choose|k: int| 0 <= k < after.len() && after[k] == other;
                    if k < start {
                        assert(before[k] == other);
                    } else {
                        assert(list@[k] == value);
                    }
                }
                if before.contains(other) {
                    let k = choose|k: int| 0 <= k < before.len() && before[k] == other;
                    assert(after[k] == other);
                }
            }
            assert forall|other: i64| #[trigger] before.contains(other) implies other < value by {
                let k = choose|k: int| 0 <= k < before.len() && before[k] == other;
                assert(list@[k] <= list@[start - 1]);
            }
            assert(after.contains(value));
        }
        if start == 0 || count < rare_count {
            rare = value;
            rare_count = count;
        }
        if start == 0 || count > frequent_count {
            frequent = value;
            frequent_count = count;
        }
        proof {
            if start == 0 {
                assert forall|other: i64| #[trigger] after.contains(other) implies other
                    == value by {}
            }
            assert(is_rare(after, rare));
            assert(is_frequent(after, frequent));
        }
        start = end;
    }
    assert(list@.take(start as int) =~= list@);
    (rare, frequent)
}

/// A value that does not occur.
fn absent_value(list: &Vec<i64>) -> (r: Result<i64, StudyError>)
    requires
        list@.len() > 0,
        ascending(list@),
    ensures
        if is_complete(list@) {
            r matches Err(StudyError::ColumnComplete)
        } else {
            r matches Ok(value) && is_absent(list@, value)
        },
{
    let ghost all = list@;
    let mut i: usize = 0;
    proof {
        assert(holds(all, all[0] as int));
    }
    while i < list.len() - 1
        invariant
            i < list@.len(),
            all == list@,
            ascending(all),
            forall|number: int|
                all[0] <= number <= all[i as int] ==> #[trigger] holds(all, number),
        decreases list@.len() - i,
    {
        let value: i64 = list[i];
        if value < i64::MAX && value + 1 < list[i + 1] {
            proof {
                lemma_gap(all, i as int);
                lemma_gap_once(all, value + 1, i64::MAX + 1);
            }
            return Ok(value + 1);
        }
        proof {
            assert forall|number: int| all[0] <= number <= all[i + 1] implies #[trigger] holds(
                all,
                number,
            ) by {
                if number > all[i as int] {
                    assert(all[i as int] <= all[i + 1]);
                    assert(number == all[i + 1]);
                }
            }
        }
        i = i + 1;
    }
    let last: i64 = list[i];
    proof {
        lemma_gap(all, i as int);
    }
    if last < i64::MAX {
        proof {
            lemma_gap_once(all, last + 1, i64::MAX + 1);
        }
        return Ok(last + 1);
    }
    let first: i64 = list[0];
    assert(is_gap(all, i64::MAX + 1));
    proof {
        assert forall|other: int| #[trigger] holds(all, other) implies first <= other by {
            let k = choose|k: int| 0 <= k < all.len() && (#[trigger] all[k]) as int == other;
            assert(all[0] <= all[k]);
        }
    }
    if first > i64::MIN {
        Ok(first - 1)
    } else {
        Err(StudyError::ColumnComplete)
    }
}

/// After values without a gap comes one.
proof fn lemma_gap(list: Seq<i64>, i: int)
    requires
        0 <= i < list.len(),
        ascending(list),
        forall|number: int| list[0] <= number <= list[i] ==> #[trigger] holds(list, number),
        i + 1 < list.len() ==> list[i] + 1 < list[i + 1],
    ensures
        is_gap(list, list[i] + 1),
{
    let number = list[i] + 1;
    if holds(list, number) {
        let k = choose|k: int| 0 <= k < list.len() && (#[trigger] list[k]) as int == number;
        if k <= i {
            assert(list[k] <= list[i]);
        } else {
            assert(list[i + 1] <= list[k]);
        }
    }
    assert(list[0] <= list[i]);
    assert forall|other: int| #![trigger holds(list, other)]
        (list[0] <= other < number ==> holds(list, other)) && (holds(list, other) ==> list[0]
            <= other) by {
        if holds(list, other) {
            let k = choose|k: int| 0 <= k < list.len() && (#[trigger] list[k]) as int == other;
            assert(list[0] <= list[k]);
        }
    }
    assert(list[0] < number);
}

/// There is one first gap.
proof fn lemma_gap_once(list: Seq<i64>, a: int, b: int)
    requires
        is_gap(list, a),
        a != b,
    ensures
        !is_gap(list, b),
{
    if is_gap(list, b) {
        let i = choose|i: int|
            0 <= i < list.len() && list[i] < a && forall|other: int|
                #![trigger holds(list, other)]
                (list[i] <= other < a ==> holds(list, other)) && (holds(list, other) ==> list[i]
                    <= other);
        let j = choose|j: int|
            0 <= j < list.len() && list[j] < b && forall|other: int|
                #![trigger holds(list, other)]
                (list[j] <= other < b ==> holds(list, other)) && (holds(list, other) ==> list[j]
                    <= other);
        assert(holds(list, list[i] as int));
        assert(holds(list, list[j] as int));
        assert(list[i] == list[j]);
        assert(!holds(list, a));
        assert(!holds(list, b));
    }
}

fn put_in(list: &mut Vec<i64>, value: i64)
    requires
        forall|i: int, j: int|
            0 <= i < j < old(list)@.len() ==> #[trigger] old(list)@[i] < #[trigger] old(list)@[j],
    ensures
        forall|i: int, j: int|
            0 <= i < j < final(list)@.len() ==> #[trigger] final(list)@[i] < #[trigger] final(list)@[j],
        forall|other: i64| #[trigger] final(list)@.contains(other) <==> other == value || old(list)@.contains(other),
{
    let mut at: usize = 0;
    while at < list.len() && list[at] < value
        invariant
            list@ == old(list)@,
            at <= list@.len(),
            forall|k: int| 0 <= k < at ==> #[trigger] list@[k] < value,
        decreases list@.len() - at,
    {
        at = at + 1;
    }
    if at < list.len() && list[at] == value {
        assert(list@[at as int] == value);
        return ;
    }
    let ghost before = list@;
    list.insert(at, value);
    proof {
        assert(list@[at as int] == value);
        assert forall|other: i64| #[trigger] list@.contains(other) <==> other == value
            || before.contains(other) by {
            if before.contains(other) {
                let k = choose|k: int| 0 <= k < before.len() && before[k] == other;
                assert(list@[if k < at { k } else { k + 1 }] == other);
            }
            if list@.contains(other) {
                let k = choose|k: int| 0 <= k < list@.len() && list@[k] == other;
                if k != at {
                    assert(before[if k < at { k } else { k - 1 }] == other);
                }
            }
        }
    }
}

fn one_target(name: &'static str, target: i64) -> (r: QuerySpec)
    ensures
        r.name@ == name@,
        r.targets@ == seq![target],
{
    let mut targets: Vec<i64> = Vec::new();
    targets.push(target);
    QuerySpec { name, targets }
}

/// The queries of the study: for a rare value, a frequent value, one that is not
/// there, and any of these.
pub fn query_specs(values: &[Option<i64>]) -> (r: Result<Vec<QuerySpec>, StudyError>)
    ensures
        ({
            let list = in_order(present(values@));
            if list.len() == 0 {
                r matches Err(StudyError::ColumnEmpty)
            } else if is_complete(list) {
                r matches Err(StudyError::ColumnComplete)
            } else {
                r matches Ok(queries) && are_queries(list, queries@)
            }
        }),
{
    proof {
        lemma_ordered(present(values@));
    }
    let list = sorted_present(values);
    if list.len() == 0 {
        return Err(StudyError::ColumnEmpty);
    }
    let (rare, frequent) = extremes(&list);
    let absent: i64 = match absent_value(&list) {
        Ok(absent) => absent,
        Err(e) => {
            return Err(e);
        },
    };
    let mut mixed: Vec<i64> = Vec::new();
    put_in(&mut mixed, rare);
    put_in(&mut mixed, frequent);
    put_in(&mut mixed, absent);
    let mut queries: Vec<QuerySpec> = Vec::new();
    queries.push(one_target("eq_rare", rare));
    queries.push(one_target("eq_frequent", frequent));
    queries.push(one_target("eq_absent", absent));
    queries.push(QuerySpec { name: "in_mixed", targets: mixed });
    Ok(queries)
}

// ----- candidates -----

/// All blocks of rows.
pub fn scan_candidates(rows: usize, block_rows: usize) -> (r: CandidatePlan)
    requires
        block_rows > 0,
    ensures
        is_plan(
            r,
            block_range(0, crate::access_compiler::runtime::ceil_div(rows as int, block_rows as int)),
            block_rows as int,
            0,
        ),
{
    let blocks: usize = if rows == 0 {
        0
    } else {
        (rows - 1) / block_rows + 1
    };
    proof {
        if rows > 0 {
            crate::access_compiler::runtime::lemma_ceil_floor(rows as int, block_rows as int);
        } else {
            vstd::arithmetic::div_mod::lemma_basic_div(block_rows - 1, block_rows as int);
        }
    }
    let mut list: Vec<usize> = Vec::new();
    let mut block: usize = 0;
    while block < blocks
        invariant
            block <= blocks,
            list@ == block_range(0, block as int),
        decreases blocks - block,
    {
        list.push(block);
        block = block + 1;
        assert(list@ =~= block_range(0, block as int));
    }
    CandidatePlan {
        blocks: list,
        block_rows,
        metadata_bytes: 0,
        guarantee: OutputGuarantee::CandidateBitmap,
    }
}

/// Both lists in one, each block once.
fn both(left: &Vec<usize>, right: &Vec<usize>) -> (r: Vec<usize>)
    requires
        increasing(left@),
        increasing(right@),
    ensures
        increasing(r@),
        forall|block: usize| #[trigger] r@.contains(block) <==> left@.contains(block) || right@.contains(block),
{
    let mut blocks: Vec<usize> = Vec::new();
    let mut i: usize = 0;
    let mut j: usize = 0;
    while i < left.len() || j < right.len()
        invariant
            i <= left@.len(),
            j <= right@.len(),
            increasing(left@),
            increasing(right@),
            increasing(blocks@),
            forall|k: int, l: int|
                0 <= k < blocks@.len() && i <= l < left@.len() ==> #[trigger] blocks@[k]
                    < #[trigger] left@[l],
            forall|k: int, l: int|
                0 <= k < blocks@.len() && j <= l < right@.len() ==> #[trigger] blocks@[k]
                    < #[trigger] right@[l],
            forall|k: int|
                0 <= k < blocks@.len() ==> left@.contains(#[trigger] blocks@[k]) || right@.contains(
                    blocks@[k],
                ),
            forall|k: int| 0 <= k < i ==> blocks@.contains(#[trigger] left@[k]),
            forall|k: int| 0 <= k < j ==> blocks@.contains(#[trigger] right@[k]),
        decreases left@.len() - i + right@.len() - j,
    {
        let take_left: bool = i < left.len() && (j >= right.len() || left[i] <= right[j]);
        let take_right: bool = j < right.len() && (i >= left.len() || right[j] <= left[i]);
        let block: usize = if take_left {
            left[i]
        } else {
            right[j]
        };
        let ghost before = blocks@;
        blocks.push(block);
        proof {
            assert(blocks@[before.len() as int] == block);
            assert forall|b: usize| before.contains(b) implies #[trigger] blocks@.contains(b) by {
                let k = choose|k: int| 0 <= k < before.len() && before[k] == b;
                assert(blocks@[k] == b);
            }
            if take_left {
                assert(left@.contains(left@[i as int]));
            } else {
                assert(right@.contains(right@[j as int]));
            }
        }
        if take_left {
            i = i + 1;
        }
        if take_right {
            j = j + 1;
        }
    }
    proof {
        assert forall|block: usize| #[trigger] blocks@.contains(block) <==> left@.contains(block)
            || right@.contains(block) by {
            if left@.contains(block) {
                let k = choose|k: int| 0 <= k < left@.len() && left@[k] == block;
                assert(blocks@.contains(left@[k]));
            }
            if right@.contains(block) {
                let k = choose|k: int| 0 <= k < right@.len() && right@[k] == block;
                assert(blocks@.contains(right@[k]));
            }
        }
    }
    blocks
}

proof fn lemma_key_counts(keys: Seq<i64>, value: i64, n: int)
    requires
        0 <= n,
    ensures
        0 <= less_than(keys, value, n) <= n,
        0 <= at_most(keys, value, n) <= n,
    decreases n,
{
    if n > 0 {
        lemma_key_counts(keys, value, n - 1);
    }
}

/// A fence keeps a block for one of the targets.
pub open spec fn fence_holds(keys: Seq<i64>, targets: Seq<i64>, n: int, block: usize) -> bool {
    exists|i: int|
        0 <= i < n && block_range(
            fence_first(keys, #[trigger] targets[i]),
            fence_last(keys, targets[i]),
        ).contains(block)
}

/// The blocks that a fence keeps for any of the targets.
pub fn fence_candidates(fence: &SparseFence, targets: &[i64]) -> (r: CandidatePlan)
    requires
        fence.wf(),
        targets@.len() > 0,
    ensures
        increasing(r.blocks@),
        forall|block: usize| #[trigger] r.blocks@.contains(block) <==> fence_holds(
            fence.keys(),
            targets@,
            targets@.len() as int,
            block,
        ),
        r.block_rows == fence.rows_per_block(),
        r.metadata_bytes == 16 * fence.keys().len(),
        r.guarantee == OutputGuarantee::CandidateBitmap,
{
    let first = fence.probe_eq(targets[0]);
    let block_rows: usize = first.block_rows;
    let metadata_bytes: usize = fence.bytes();
    let mut blocks: Vec<usize> = Vec::new();
    let mut i: usize = 0;
    while i < targets.len()
        invariant
            fence.wf(),
            i <= targets@.len(),
            increasing(blocks@),
            forall|block: usize| #[trigger] blocks@.contains(block) <==> fence_holds(
                fence.keys(),
                targets@,
                i as int,
                block,
            ),
        decreases targets@.len() - i,
    {
        let plan = fence.probe_eq(targets[i]);
        let ghost before = blocks@;
        let ghost range = block_range(
            fence_first(fence.keys(), targets@[i as int]),
            fence_last(fence.keys(), targets@[i as int]),
        );
        proof {
            assert(plan.blocks@ == range);
            lemma_key_counts(fence.keys(), targets@[i as int], fence.keys().len() as int);
            assert(increasing(plan.blocks@));
        }
        blocks = both(&blocks, &plan.blocks);
        proof {
            assert forall|block: usize| #[trigger] blocks@.contains(block) <==> fence_holds(
                fence.keys(),
                targets@,
                i + 1,
                block,
            ) by {
                if before.contains(block) {
                    let k = choose|k: int|
                        0 <= k < i && block_range(
                            fence_first(fence.keys(), #[trigger] targets@[k]),
                            fence_last(fence.keys(), targets@[k]),
                        ).contains(block);
                    assert(0 <= k < i + 1);
                }
                if range.contains(block) {
                    assert(targets@[i as int] == targets@[i as int]);
                    assert(fence_holds(fence.keys(), targets@, i + 1, block));
                }
                if fence_holds(fence.keys(), targets@, i + 1, block) {
                    let k = choose|k: int|
                        0 <= k < i + 1 && block_range(
                            fence_first(fence.keys(), #[trigger] targets@[k]),
                            fence_last(fence.keys(), targets@[k]),
                        ).contains(block);
                    if k < i {
                        assert(fence_holds(fence.keys(), targets@, i as int, block));
                    }
                }
            }
        }
        i = i + 1;
    }
    CandidatePlan {
        blocks,
        block_rows,
        metadata_bytes,
        guarantee: OutputGuarantee::CandidateBitmap,
    }
}

/// How many of the first `n` rows are hit.
pub open spec fn hits(hit: spec_fn(int) -> bool, n: int) -> int
    decreases n,
{
    if n <= 0 {
        0
    } else {
        hits(hit, n - 1) + if hit(n - 1) {
            1int
        } else {
            0int
        }
    }
}

fn is_target(value: Option<i64>, targets: &[i64]) -> (r: bool)
    ensures
        r == (value matches Some(found) && targets@.contains(found)),
{
    match value {
        None => false,
        Some(found) => {
            let mut i: usize = 0;
            while i < targets.len()
                invariant
                    i <= targets@.len(),
                    value == Some(found),
                    forall|k: int| 0 <= k < i ==> #[trigger] targets@[k] != found,
                decreases targets@.len() - i,
            {
                if targets[i] == found {
                    assert(targets@[i as int] == found);
                    return true;
                }
                i = i + 1;
            }
            false
        },
    }
}

/// How many rows equal one of the targets.
pub fn matching_rows(values: &[Option<i64>], targets: &[i64]) -> (r: usize)
    ensures
        r == hits(in_hit(values@, targets@), values@.len() as int),
{
    let ghost hit = in_hit(values@, targets@);
    let mut count: usize = 0;
    let mut row: usize = 0;
    while row < values.len()
        invariant
            row <= values@.len(),
            hit == in_hit(values@, targets@),
            count == hits(hit, row as int),
            count <= row,
        decreases values@.len() - row,
    {
        let found: bool = is_target(values[row], targets);
        assert(hit(row as int) == found);
        if found {
            count = count + 1;
        }
        row = row + 1;
    }
    count
}

/// A block has a row that is hit.
pub open spec fn block_hit(hit: spec_fn(int) -> bool, block: int, block_rows: int, rows: int) -> bool {
    exists|row: int|
        block * block_rows <= row < block_end(block, block_rows, rows) && #[trigger] hit(row)
}

/// How many of the first `n` blocks have no row that is hit.
pub open spec fn idle_blocks(
    hit: spec_fn(int) -> bool,
    blocks: Seq<usize>,
    block_rows: int,
    rows: int,
    n: int,
) -> int
    decreases n,
{
    if n <= 0 {
        0
    } else {
        idle_blocks(hit, blocks, block_rows, rows, n - 1) + if block_hit(
            hit,
            blocks[n - 1] as int,
            block_rows,
            rows,
        ) {
            0int
        } else {
            1int
        }
    }
}

/// How many candidate blocks have no row that equals one of the targets.
pub fn false_positive_blocks(
    values: &[Option<i64>],
    candidates: &CandidatePlan,
    targets: &[i64],
) -> (r: usize)
    requires
        forall|i: int|
            0 <= i < candidates.blocks@.len() ==> (#[trigger] candidates.blocks@[i] + 1)
                * candidates.block_rows <= usize::MAX && candidates.blocks@[i]
                * candidates.block_rows <= values@.len(),
    ensures
        r == idle_blocks(
            in_hit(values@, targets@),
            candidates.blocks@,
            candidates.block_rows as int,
            values@.len() as int,
            candidates.blocks@.len() as int,
        ),
{
    let ghost hit = in_hit(values@, targets@);
    let rows: usize = values.len();
    let block_rows: usize = candidates.block_rows;
    let mut count: usize = 0;
    let mut i: usize = 0;
    while i < candidates.blocks.len()
        invariant
            i <= candidates.blocks@.len(),
            rows == values@.len(),
            block_rows == candidates.block_rows,
            hit == in_hit(values@, targets@),
            count <= i,
            count == idle_blocks(
                hit,
                candidates.blocks@,
                block_rows as int,
                rows as int,
                i as int,
            ),
            forall|i: int|
                0 <= i < candidates.blocks@.len() ==> (#[trigger] candidates.blocks@[i] + 1)
                    * candidates.block_rows <= usize::MAX && candidates.blocks@[i]
                    * candidates.block_rows <= values@.len(),
        decreases candidates.blocks@.len() - i,
    {
        let block: usize = candidates.blocks[i];
        assert(candidates.blocks@[i as int] == block);
        assert((block + 1) * block_rows == block * block_rows + block_rows) by (nonlinear_arith);
        assert(block * block_rows >= 0) by (nonlinear_arith);
        let start: usize = block * block_rows;
        let end: usize = if start + block_rows < rows {
            start + block_rows
        } else {
            rows
        };
        let mut found: bool = false;
        let mut row: usize = start;
        while row < end && !found
            invariant
                rows == values@.len(),
                start <= row <= end <= rows,
                start == block * block_rows,
                end == block_end(block as int, block_rows as int, rows as int),
                hit == in_hit(values@, targets@),
                found ==> block_hit(hit, block as int, block_rows as int, rows as int),
                !found ==> forall|k: int| start <= k < row ==> !#[trigger] hit(k),
            decreases end - row,
        {
            found = is_target(values[row], targets);
            assert(hit(row as int) == found);
            row = row + 1;
        }
        if !found {
            count = count + 1;
        }
        i = i + 1;
    }
    count
}

/// The bytes that a plan is taken to read: its certificates and eight for each row.
pub fn modeled_bytes(metadata_bytes: usize, candidate_rows: usize) -> (r: usize)
    requires
        metadata_bytes + candidate_rows * 8 <= usize::MAX,
    ensures
        r == metadata_bytes + candidate_rows * 8,
{
    metadata_bytes + candidate_rows * 8
}

/// Which of so many values in order stands a share of the way up.
pub fn quantile_index(count: usize, numerator: usize, denominator: usize) -> (r: usize)
    requires
        count > 0,
        numerator <= denominator,
        denominator > 0,
        (count - 1) * numerator <= usize::MAX,
    ensures
        r == (count - 1) * numerator / (denominator as int),
        r < count,
{
    proof {
        let c = count - 1;
        let n = numerator as int;
        let d = denominator as int;
        assert(0 <= c * n / d <= c) by (nonlinear_arith)
            requires
                0 <= c,
                0 <= n <= d,
                d > 0,
        ;
    }
    (count - 1) * numerator / denominator
}

} // verus!
