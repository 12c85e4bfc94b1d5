//! Values in order.
use vstd::prelude::*;
#[allow(unused_imports)]
use vstd::relations::sorted_by;

verus! {

pub open spec fn at_most() -> spec_fn(i64, i64) -> bool {
    |a: i64, b: i64| a <= b
}

/// The values in ascending order.
pub open spec fn in_order(values: Seq<i64>) -> Seq<i64> {
    values.sort_by(at_most())
}

/// Each value is at most the next.
pub open spec fn ascending(values: Seq<i64>) -> bool {
    forall|i: int, j: int| 0 <= i <= j < values.len() ==> #[trigger] values[i] <= #[trigger] values[j]
}

/// The values that are there.
pub open spec fn present(values: Seq<Option<i64>>) -> Seq<i64>
    decreases values.len(),
{
    if values.len() == 0 {
        Seq::empty()
    } else {
        match values.last() {
            Some(value) => present(values.drop_last()).push(value),
            None => present(values.drop_last()),
        }
    }
}

/// A list in ascending order with the same values is the values in order.
pub proof fn lemma_in_order(list: Seq<i64>, values: Seq<i64>)
    requires
        ascending(list),
        list.to_multiset() == values.to_multiset(),
    ensures
        list == in_order(values),
{
    values.lemma_sort_by_ensures(at_most());
    assert(sorted_by(list, at_most()));
    vstd::seq_lib::lemma_sorted_unique(list, in_order(values), at_most());
}

/// Values in order are ascending and as many.
pub proof fn lemma_ordered(values: Seq<i64>)
    ensures
        ascending(in_order(values)),
        in_order(values).len() == values.len(),
        in_order(values).to_multiset() == values.to_multiset(),
{
    values.lemma_sort_by_ensures(at_most());
    values.to_multiset_ensures();
    in_order(values).to_multiset_ensures();
    let list = in_order(values);
    assert forall|i: int, j: int| 0 <= i <= j < list.len() implies #[trigger] list[i]
        <= #[trigger] list[j] by {
        if i < j {
            assert(at_most()(list[i], list[j]));
        }
    }
}

proof fn lemma_merge_step(left: Seq<i64>, right: Seq<i64>, i: int, j: int, merged: Seq<i64>)
    requires
        0 <= i < left.len(),
        0 <= j <= right.len(),
        merged.to_multiset() == left.take(i).to_multiset().add(right.take(j).to_multiset()),
    ensures
        merged.push(left[i]).to_multiset() == left.take(i + 1).to_multiset().add(
            right.take(j).to_multiset(),
        ),
{
    broadcast use vstd::seq_lib::group_to_multiset_ensures;

    assert(left.take(i + 1) =~= left.take(i).push(left[i]));
    assert(merged.push(left[i]).to_multiset() =~= left.take(i + 1).to_multiset().add(
        right.take(j).to_multiset(),
    ));
}

/// Merges two ascending lists.
fn merge(left: Vec<i64>, right: Vec<i64>) -> (r: Vec<i64>)
    requires
        ascending(left@),
        ascending(right@),
    ensures
        ascending(r@),
        r@.to_multiset() == left@.to_multiset().add(right@.to_multiset()),
{
    let mut merged: Vec<i64> = Vec::new();
    let mut i: usize = 0;
    let mut j: usize = 0;
    proof {
        broadcast use vstd::seq_lib::group_to_multiset_ensures;

        assert(left@.take(0) =~= Seq::empty());
        assert(right@.take(0) =~= Seq::empty());
        assert(merged@.to_multiset() =~= left@.take(0).to_multiset().add(
            right@.take(0).to_multiset(),
        ));
    }
    while i < left.len() || j < right.len()
        invariant
            i <= left@.len(),
            j <= right@.len(),
            ascending(left@),
            ascending(right@),
            ascending(merged@),
            forall|k: int, m: int|
                0 <= k < merged@.len() && i <= m < left@.len() ==> #[trigger] merged@[k]
                    <= #[trigger] left@[m],
            forall|k: int, m: int|
                0 <= k < merged@.len() && j <= m < right@.len() ==> #[trigger] merged@[k]
                    <= #[trigger] right@[m],
            merged@.to_multiset() == left@.take(i as int).to_multiset().add(
                right@.take(j as int).to_multiset(),
            ),
        decreases left@.len() - i + right@.len() - j,
    {
        if j >= right.len() || (i < left.len() && left[i] <= right[j]) {
            proof {
                lemma_merge_step(left@, right@, i as int, j as int, merged@);
            }
            merged.push(left[i]);
            i = i + 1;
        } else {
            proof {
                assert(merged@.to_multiset() =~= right@.take(j as int).to_multiset().add(
                    left@.take(i as int).to_multiset(),
                ));
                lemma_merge_step(right@, left@, j as int, i as int, merged@);
                assert(right@.take(j + 1).to_multiset().add(left@.take(i as int).to_multiset())
                    =~= left@.take(i as int).to_multiset().add(right@.take(j + 1).to_multiset()));
            }
            merged.push(right[j]);
            j = j + 1;
        }
    }
    assert(left@.take(i as int) =~= left@);
    assert(right@.take(j as int) =~= right@);
    merged
}

/// Sorts part of a list.
fn sort_part(values: &Vec<i64>, from: usize, to: usize) -> (r: Vec<i64>)
    requires
        from <= to <= values@.len(),
    ensures
        ascending(r@),
        r@.to_multiset() == values@.subrange(from as int, to as int).to_multiset(),
    decreases to - from,
{
    if to - from <= 1 {
        let mut part: Vec<i64> = Vec::new();
        if from < to {
            part.push(values[from]);
        }
        assert(part@ =~= values@.subrange(from as int, to as int));
        return part;
    }
    let middle: usize = from + (to - from) / 2;
    let left = sort_part(values, from, middle);
    let right = sort_part(values, middle, to);
    proof {
        let a = values@.subrange(from as int, middle as int);
        let b = values@.subrange(middle as int, to as int);
        assert(a + b =~= values@.subrange(from as int, to as int));
        vstd::seq_lib::lemma_multiset_commutative(a, b);
    }
    merge(left, right)
}

/// Sorts values.
pub fn sort_values(values: Vec<i64>) -> (r: Vec<i64>)
    ensures
        r@ == in_order(values@),
{
    let r = sort_part(&values, 0, values.len());
    proof {
        assert(values@.subrange(0, values@.len() as int) =~= values@);
        lemma_in_order(r@, values@);
    }
    r
}

/// The values that are there, in order.
pub fn sorted_present(values: &[Option<i64>]) -> (r: Vec<i64>)
    ensures
        r@ == in_order(present(values@)),
{
    let mut list: Vec<i64> = Vec::new();
    let mut row: usize = 0;
    assert(values@.take(0) =~= Seq::empty());
    while row < values.len()
        invariant
            row <= values@.len(),
            list@ == present(values@.take(row as int)),
        decreases values@.len() - row,
    {
        proof {
            let next = values@.take(row + 1);
            assert(next.drop_last() =~= values@.take(row as int));
        }
        if let Some(value) = values[row] {
            list.push(value);
        }
        row = row + 1;
    }
    assert(values@.take(row as int) =~= values@);
    sort_values(list)
}

} // verus!
