//! The queries that the baselines are timed on.
use super::order::sorted_present;
#[allow(unused_imports)]
use super::order::{in_order, lemma_ordered, present};
use crate::access_compiler::plan::{Predicate, Query};
use crate::access_compiler::span::Span;
use vstd::prelude::*;

verus! {

/// Ways to answer a query.
#[derive(Clone, Copy, Debug, PartialEq, Eq, Structural)]
pub enum Baseline {
    FullDecode,
    FusedDecode,
    Interpreted,
    GeneratedFullPageAccess,
    Generated,
    HandwrittenMonomorphized,
}

impl Baseline {
    pub fn all() -> (r: [Baseline; 6])
        ensures
            r@ == seq![
                Baseline::FullDecode,
                Baseline::FusedDecode,
                Baseline::Interpreted,
                Baseline::GeneratedFullPageAccess,
                Baseline::Generated,
                Baseline::HandwrittenMonomorphized,
            ],
    {
        let r = [
            Baseline::FullDecode,
            Baseline::FusedDecode,
            Baseline::Interpreted,
            Baseline::GeneratedFullPageAccess,
            Baseline::Generated,
            Baseline::HandwrittenMonomorphized,
        ];
        assert(r@ =~= seq![
            Baseline::FullDecode,
            Baseline::FusedDecode,
            Baseline::Interpreted,
            Baseline::GeneratedFullPageAccess,
            Baseline::Generated,
            Baseline::HandwrittenMonomorphized,
        ]);
        r
    }

    pub fn name(self) -> (r: &'static str)
        ensures
            r@ == match self {
                Baseline::FullDecode => "full_decode"@,
                Baseline::FusedDecode => "fused_decode"@,
                Baseline::Interpreted => "interpreted_plan"@,
                Baseline::GeneratedFullPageAccess => "generated_full_page_access"@,
                Baseline::Generated => "generated"@,
                Baseline::HandwrittenMonomorphized => "handwritten_monomorphized"@,
            },
    {
        match self {
            Baseline::FullDecode => "full_decode",
            Baseline::FusedDecode => "fused_decode",
            Baseline::Interpreted => "interpreted_plan",
            Baseline::GeneratedFullPageAccess => "generated_full_page_access",
            Baseline::Generated => "generated",
            Baseline::HandwrittenMonomorphized => "handwritten_monomorphized",
        }
    }
}

/// A query and what it is called.
#[derive(Clone, Copy, Debug)]
pub struct NamedQuery {
    pub name: &'static str,
    pub query: Query,
}

pub open spec fn is_named(named: NamedQuery, name: Seq<char>, query: Query) -> bool {
    named.name@ == name && named.query == query
}

/// A hundredth of the rows, but one at least, around the middle.
pub open spec fn narrow_rows(rows: int) -> Span {
    let width = if rows / 100 > 1 {
        rows / 100
    } else {
        1
    };
    let start = rows / 2 - width / 2;
    Span { start: start as usize, end: (start + width) as usize }
}

/// The rows without the first and the last seventh.
pub open spec fn wide_rows(rows: int) -> Span {
    Span { start: (rows / 7) as usize, end: (rows * 6 / 7) as usize }
}

/// The queries, given how many rows there are and the values in order.
pub open spec fn are_study_queries(rows: int, list: Seq<i64>, queries: Seq<NamedQuery>) -> bool {
    let low = list[list.len() as int / 4];
    let middle = list[list.len() as int / 2];
    let high = list[list.len() as int * 3 / 4];
    &&& queries.len() == 7
    &&& is_named(queries[0], "GET"@, Query::Get { row: (rows / 2 + 7) as usize })
    &&& is_named(queries[1], "SUM_1PCT"@, Query::Sum { rows: narrow_rows(rows) })
    &&& is_named(queries[2], "SUM_70PCT"@, Query::Sum { rows: wide_rows(rows) })
    &&& is_named(
        queries[3],
        "BETWEEN_1PCT"@,
        Query::Between { rows: narrow_rows(rows), low, high },
    )
    &&& is_named(
        queries[4],
        "BETWEEN_70PCT"@,
        Query::Between { rows: wide_rows(rows), low, high },
    )
    &&& is_named(
        queries[5],
        "FILTER_POINT"@,
        Query::Filter { predicate: Predicate::Between { low: middle, high: middle } },
    )
    &&& is_named(
        queries[6],
        "FILTER_50PCT"@,
        Query::Filter { predicate: Predicate::Between { low, high } },
    )
}

proof fn lemma_present_within(values: Seq<Option<i64>>)
    ensures
        present(values).len() <= values.len(),
    decreases values.len(),
{
    if values.len() > 0 {
        lemma_present_within(values.drop_last());
    }
}

/// The queries that the baselines are timed on.
pub fn queries(values: &[Option<i64>]) -> (r: Vec<NamedQuery>)
    requires
        present(values@).len() > 0,
    ensures
        are_study_queries(values@.len() as int, in_order(present(values@)), r@),
{
    proof {
        lemma_ordered(present(values@));
        lemma_present_within(values@);
    }
    let rows: usize = values.len();
    let width: usize = if rows / 100 > 1 {
        rows / 100
    } else {
        1
    };
    let start: usize = rows / 2 - width / 2;
    let narrow = Span { start, end: start + width };
    let wide_end: u128 = rows as u128 * 6 / 7;
    let wide = Span { start: rows / 7, end: wide_end as usize };
    let list = sorted_present(values);
    let count: usize = list.len();
    let upper: u128 = count as u128 * 3 / 4;
    let low: i64 = list[count / 4];
    let middle: i64 = list[count / 2];
    let high: i64 = list[upper as usize];
    let mut queries: Vec<NamedQuery> = Vec::new();
    queries.push(NamedQuery { name: "GET", query: Query::Get { row: rows / 2 + 7 } });
    queries.push(NamedQuery { name: "SUM_1PCT", query: Query::Sum { rows: narrow } });
    queries.push(NamedQuery { name: "SUM_70PCT", query: Query::Sum { rows: wide } });
    queries.push(
        NamedQuery { name: "BETWEEN_1PCT", query: Query::Between { rows: narrow, low, high } },
    );
    queries.push(
        NamedQuery { name: "BETWEEN_70PCT", query: Query::Between { rows: wide, low, high } },
    );
    queries.push(
        NamedQuery {
            name: "FILTER_POINT",
            query: Query::Filter { predicate: Predicate::Between { low: middle, high: middle } },
        },
    );
    queries.push(
        NamedQuery {
            name: "FILTER_50PCT",
            query: Query::Filter { predicate: Predicate::Between { low, high } },
        },
    );
    queries
}

/// The queries whose plans are listed: all but those of the wide rows.
pub fn planned_queries(values: &[Option<i64>]) -> (r: Vec<NamedQuery>)
    requires
        present(values@).len() > 0,
    ensures
        exists|all: Seq<NamedQuery>| #[trigger]
            are_study_queries(values@.len() as int, in_order(present(values@)), all) && r@ == seq![
                all[0],
                all[1],
                all[3],
                all[5],
                all[6],
            ],
{
    let all = queries(values);
    let mut planned: Vec<NamedQuery> = Vec::new();
    planned.push(all[0]);
    planned.push(all[1]);
    planned.push(all[3]);
    planned.push(all[5]);
    planned.push(all[6]);
    assert(planned@ =~= seq![all@[0], all@[1], all@[3], all@[5], all@[6]]);
    planned
}

} // verus!
