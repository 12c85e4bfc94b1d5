//! Scans over many pages: what is asked of each, in which order, and what is read.
use super::crossover::{bounds, PlanKind, QueryKind, EVALUATION_CASES, ROWS, TRAINING_CASES};
#[allow(unused_imports)]
use super::crossover::quartiles;
use super::error::StudyError;
#[allow(unused_imports)]
use super::order::{in_order, present};
use crate::access_compiler::encode::EncodedColumn;
use crate::access_compiler::error::Error;
use crate::access_compiler::runtime::AccessMetrics;
use crate::access_compiler::schedule::{coalesce_ranges, ReadSchedule};
#[allow(unused_imports)]
use crate::access_compiler::schedule::{nonempty, schedule_of};
use crate::access_compiler::span::Span;
#[allow(unused_imports)]
use crate::access_compiler::span::{all_wf, merged, total};
use vstd::prelude::*;

verus! {

/// What is asked of one page.
#[derive(Clone, Copy, Debug, PartialEq, Eq, Structural)]
pub struct Task {
    pub page_index: usize,
    pub case: usize,
    pub query: QueryKind,
    pub rows: Span,
    pub low: i64,
    pub high: i64,
    pub plan: PlanKind,
}

/// The case of each page of a scan over the cases that no model was trained on.
pub fn evaluation_cases(pages: usize) -> (r: Vec<usize>)
    ensures
        r@ == Seq::new(
            pages as nat,
            |page: int| (TRAINING_CASES + page % EVALUATION_CASES as int) as usize,
        ),
{
    let mut cases: Vec<usize> = Vec::new();
    let mut page: usize = 0;
    while page < pages
        invariant
            page <= pages,
            cases@ == Seq::new(
                page as nat,
                |page: int| (TRAINING_CASES + page % EVALUATION_CASES as int) as usize,
            ),
        decreases pages - page,
    {
        cases.push(TRAINING_CASES + page % EVALUATION_CASES);
        page = page + 1;
    }
    cases
}

/// The case of each page of a scan that takes the columns in turn.
pub fn cases_in_turn(pages: usize, columns: usize) -> (r: Vec<usize>)
    requires
        columns > 0,
    ensures
        r@ == Seq::new(pages as nat, |page: int| (page % columns as int) as usize),
{
    let mut cases: Vec<usize> = Vec::new();
    let mut page: usize = 0;
    while page < pages
        invariant
            page <= pages,
            columns > 0,
            cases@ == Seq::new(page as nat, |page: int| (page % columns as int) as usize),
        decreases pages - page,
    {
        cases.push(page % columns);
        page = page + 1;
    }
    cases
}

/// So many rows in the middle of all rows.
pub open spec fn middle(width: int, rows: int) -> Span {
    let start = (rows - width) / 2;
    Span { start: start as usize, end: (start + width) as usize }
}

fn middle_rows(width: usize, rows: usize) -> (r: Span)
    requires
        width <= rows,
    ensures
        r == middle(width as int, rows as int),
        r.start <= r.end <= rows,
{
    let start: usize = (rows - width) / 2;
    Span { start, end: start + width }
}

/// Sums and tests take turns.
pub open spec fn turn(page: int) -> QueryKind {
    if page % 2 == 0 {
        QueryKind::Sum
    } else {
        QueryKind::Between
    }
}

fn query_turn(page: usize) -> (r: QueryKind)
    ensures
        r == turn(page as int),
{
    if page % 2 == 0 {
        QueryKind::Sum
    } else {
        QueryKind::Between
    }
}

/// Queries of all rows read the whole page.
pub open spec fn plan_for(width: int, rows: int) -> PlanKind {
    if width == rows {
        PlanKind::Fused
    } else {
        PlanKind::Selective
    }
}

/// The plan for a query of so many of all rows.
pub fn chosen_plan(width: usize, rows: usize) -> (r: PlanKind)
    ensures
        r == plan_for(width as int, rows as int),
{
    if width == rows {
        PlanKind::Fused
    } else {
        PlanKind::Selective
    }
}

/// How many rows are asked of a page of a fixed number of rows.
pub open spec fn fixed_width(page: int) -> int {
    let turn = page % 6;
    if turn == 0 {
        1
    } else if turn == 1 {
        64
    } else if turn == 2 {
        ROWS as int / 100
    } else if turn == 3 {
        ROWS as int / 10
    } else if turn == 4 {
        ROWS as int / 2
    } else {
        ROWS as int
    }
}

/// What is asked of a page of a fixed number of rows.
pub open spec fn fixed_task(columns: Seq<EncodedColumn>, cases: Seq<usize>, page: int) -> Task {
    let (low, high) = quartiles(in_order(present(columns[cases[page] as int].truth@)));
    Task {
        page_index: page as usize,
        case: cases[page],
        query: turn(page),
        rows: middle(fixed_width(page), ROWS as int),
        low,
        high,
        plan: plan_for(fixed_width(page), ROWS as int),
    }
}

/// Each page's case is a column that has a value.
pub open spec fn cases_held(columns: Seq<EncodedColumn>, cases: Seq<usize>) -> bool {
    forall|page: int|
        0 <= page < cases.len() ==> #[trigger] cases[page] < columns.len() && present(
            columns[cases[page] as int].truth@,
        ).len() > 0
}

/// What is asked of pages of a fixed number of rows.
pub fn fixed_tasks(columns: &[EncodedColumn], cases: &[usize]) -> (r: Vec<Task>)
    requires
        cases_held(columns@, cases@),
    ensures
        r@ == Seq::new(cases@.len(), |page: int| fixed_task(columns@, cases@, page)),
{
    let mut tasks: Vec<Task> = Vec::new();
    let mut page: usize = 0;
    while page < cases.len()
        invariant
            page <= cases@.len(),
            cases_held(columns@, cases@),
            tasks@ == Seq::new(page as nat, |page: int| fixed_task(columns@, cases@, page)),
        decreases cases@.len() - page,
    {
        let widths: [usize; 6] = [1, 64, ROWS / 100, ROWS / 10, ROWS / 2, ROWS];
        let width: usize = widths[page % 6];
        assert(width == fixed_width(page as int));
        let case: usize = cases[page];
        assert(cases@[page as int] == case);
        let (low, high) = bounds(columns[case].truth.as_slice());
        tasks.push(
            Task {
                page_index: page,
                case,
                query: query_turn(page),
                rows: middle_rows(width, ROWS),
                low,
                high,
                plan: chosen_plan(width, ROWS),
            },
        );
        page = page + 1;
    }
    tasks
}

/// How many rows are asked of a page.
pub open spec fn share_width(page: int, rows: int) -> int {
    let turn = page % 5;
    if turn == 0 {
        1
    } else if turn == 1 {
        if rows / 100 > 1 {
            rows / 100
        } else {
            1
        }
    } else if turn == 2 {
        rows / 10
    } else if turn == 3 {
        rows / 2
    } else {
        rows
    }
}

/// What is asked of a page.
pub open spec fn share_task(columns: Seq<EncodedColumn>, cases: Seq<usize>, page: int) -> Task {
    let truth = columns[cases[page] as int].truth@;
    let (low, high) = quartiles(in_order(present(truth)));
    let width = share_width(page, truth.len() as int);
    Task {
        page_index: page as usize,
        case: cases[page],
        query: turn(page),
        rows: middle(width, truth.len() as int),
        low,
        high,
        plan: plan_for(width, truth.len() as int),
    }
}

proof fn lemma_present_within(values: Seq<Option<i64>>)
    ensures
        present(values).len() <= values.len(),
    decreases values.len(),
{
    if values.len() > 0 {
        lemma_present_within(values.drop_last());
    }
}

/// What is asked of pages of any number of rows.
pub fn share_tasks(columns: &[EncodedColumn], cases: &[usize]) -> (r: Vec<Task>)
    requires
        cases_held(columns@, cases@),
    ensures
        r@ == Seq::new(cases@.len(), |page: int| share_task(columns@, cases@, page)),
{
    let mut tasks: Vec<Task> = Vec::new();
    let mut page: usize = 0;
    while page < cases.len()
        invariant
            page <= cases@.len(),
            cases_held(columns@, cases@),
            tasks@ == Seq::new(page as nat, |page: int| share_task(columns@, cases@, page)),
        decreases cases@.len() - page,
    {
        let case: usize = cases[page];
        assert(cases@[page as int] == case);
        let rows: usize = columns[case].truth.len();
        proof {
            lemma_present_within(columns@[case as int].truth@);
        }
        let hundredth: usize = if rows / 100 > 1 {
            rows / 100
        } else {
            1
        };
        let widths: [usize; 5] = [1, hundredth, rows / 10, rows / 2, rows];
        let width: usize = widths[page % 5];
        assert(width == share_width(page as int, rows as int));
        let (low, high) = bounds(columns[case].truth.as_slice());
        tasks.push(
            Task {
                page_index: page,
                case,
                query: query_turn(page),
                rows: middle_rows(width, rows),
                low,
                high,
                plan: chosen_plan(width, rows),
            },
        );
        page = page + 1;
    }
    tasks
}

/// A query of so many of all rows is asked of a real column.
pub open spec fn is_share(width: int, rows: int) -> bool {
    ||| width == 1
    ||| width == rows / 1_000 && width > 0
    ||| width == rows / 100 && width > 0
    ||| width == rows / 10
    ||| width == rows / 2
    ||| width == rows
}

/// The numbers of rows that queries ask of a real column, in ascending order.
pub fn widths(rows: usize) -> (r: Vec<usize>)
    ensures
        forall|i: int, j: int| 0 <= i < j < r@.len() ==> #[trigger] r@[i] < #[trigger] r@[j],
        forall|width: usize| #[trigger] r@.contains(width) == is_share(width as int, rows as int),
{
    let candidates: [usize; 6] = [1, rows / 1_000, rows / 100, rows / 10, rows / 2, rows];
    let mut list: Vec<usize> = Vec::new();
    let mut i: usize = 0;
    while i < 6
        invariant
            i <= 6,
            candidates@ == seq![
                1usize,
                rows / 1_000,
                rows / 100,
                rows / 10,
                rows / 2,
                rows,
            ],
            forall|i: int, j: int|
                0 <= i < j < list@.len() ==> #[trigger] list@[i] < #[trigger] list@[j],
            forall|width: usize| #[trigger]
                list@.contains(width) <==> (exists|k: int|
                    0 <= k < i && #[trigger] candidates@[k] == width && (k == 1 || k == 2 ==> width
                        > 0)),
        decreases 6 - i,
    {
        let width: usize = candidates[i];
        let ghost before = list@;
        if !((i == 1 || i == 2) && width == 0) {
            insert_once(&mut list, width);
        }
        proof {
            assert forall|w: usize| #[trigger] list@.contains(w) <==> (exists|k: int|
                0 <= k < i + 1 && #[trigger] candidates@[k] == w && (k == 1 || k == 2 ==> w
                    > 0)) by {
                if list@.contains(w) {
                    if before.contains(w) {
                        let k = choose|k: int|
                            0 <= k < i && #[trigger] candidates@[k] == w && (k == 1 || k == 2 ==> w
                                > 0);
                        assert(candidates@[k] == w);
                    } else {
                        assert(candidates@[i as int] == w);
                    }
                }
                if exists|k: int|
                    0 <= k < i + 1 && #[trigger] candidates@[k] == w && (k == 1 || k == 2 ==> w
                        > 0) {
                    let k = choose|k: int|
                        0 <= k < i + 1 && #[trigger] candidates@[k] == w && (k == 1 || k == 2 ==> w
                            > 0);
                    if k < i {
                        assert(before.contains(w));
                    }
                }
            }
        }
        i = i + 1;
    }
    proof {
        assert forall|width: usize| #[trigger] list@.contains(width) == is_share(
            width as int,
            rows as int,
        ) by {
            assert(candidates@[0] == 1);
            assert(candidates@[1] == rows / 1_000);
            assert(candidates@[2] == rows / 100);
            assert(candidates@[3] == rows / 10);
            assert(candidates@[4] == rows / 2);
            assert(candidates@[5] == rows);
        }
    }
    list
}

/// Puts a number where it belongs in an ascending list, unless it is there.
fn insert_once(list: &mut Vec<usize>, width: usize)
    requires
        forall|i: int, j: int|
            0 <= i < j < old(list)@.len() ==> #[trigger] old(list)@[i] < #[trigger] old(list)@[j],
    ensures
        forall|i: int, j: int|
            0 <= i < j < final(list)@.len() ==> #[trigger] final(list)@[i] < #[trigger] final(list)@[j],
        forall|w: usize| #[trigger] final(list)@.contains(w) <==> w == width || old(list)@.contains(w),
{
    let mut at: usize = 0;
    while at < list.len() && list[at] < width
        invariant
            list@ == old(list)@,
            at <= list@.len(),
            forall|k: int| 0 <= k < at ==> #[trigger] list@[k] < width,
        decreases list@.len() - at,
    {
        at = at + 1;
    }
    if at < list.len() && list[at] == width {
        assert(list@[at as int] == width);
        return ;
    }
    let ghost before = list@;
    list.insert(at, width);
    proof {
        assert(list@[at as int] == width);
        assert forall|w: usize| #[trigger] list@.contains(w) <==> w == width || before.contains(
            w,
        ) by {
            if before.contains(w) {
                let k = choose|k: int| 0 <= k < before.len() && before[k] == w;
                assert(list@[if k < at { k } else { k + 1 }] == w);
            }
            if list@.contains(w) {
                let k = choose|k: int| 0 <= k < list@.len() && list@[k] == w;
                if k != at {
                    assert(before[if k < at { k } else { k - 1 }] == w);
                }
            }
        }
    }
}

// ----- the order of pages -----

#[derive(Clone, Copy, Debug, PartialEq, Eq, Structural)]
pub enum AccessOrder {
    Sequential,
    Random,
}

impl AccessOrder {
    pub fn name(self) -> (r: &'static str)
        ensures
            r@ == match self {
                AccessOrder::Sequential => "sequential"@,
                AccessOrder::Random => "random"@,
            },
    {
        match self {
            AccessOrder::Sequential => "sequential",
            AccessOrder::Random => "random",
        }
    }
}

/// A number that scatters pages: the page times a constant, turned left by 17 bits.
pub open spec fn scatter(page: usize) -> u64 {
    let product = (page as int * 6_364_136_223_846_793_005 % 0x1_0000_0000_0000_0000) as u64;
    product << 17 | product >> 47
}

fn scattered(page: usize) -> (r: u64)
    ensures
        r == scatter(page),
{
    let product: u64 = (page as u64).wrapping_mul(6_364_136_223_846_793_005);
    product << 17 | product >> 47
}

/// One place comes before another: by their scattered numbers, or as they stand
/// where those are equal.
pub open spec fn scattered_before(pages: Seq<usize>, a: int, b: int) -> bool {
    scatter(pages[a]) < scatter(pages[b]) || (scatter(pages[a]) == scatter(pages[b]) && a < b)
}

/// In what order the pages of tasks are read.
pub fn visiting_order(pages: &[usize], order: AccessOrder) -> (r: Vec<usize>)
    ensures
        r@.len() == pages@.len(),
        r@.no_duplicates(),
        forall|i: int| 0 <= i < r@.len() ==> #[trigger] r@[i] < pages@.len(),
        order is Sequential ==> forall|i: int| 0 <= i < r@.len() ==> #[trigger] r@[i] == i,
        order is Random ==> forall|i: int, j: int|
            0 <= i < j < r@.len() ==> scattered_before(
                pages@,
                #[trigger] r@[i] as int,
                #[trigger] r@[j] as int,
            ),
{
    let mut places: Vec<usize> = Vec::new();
    let mut next: usize = 0;
    while next < pages.len()
        invariant
            next <= pages@.len(),
            places@.len() == next,
            places@.no_duplicates(),
            forall|i: int| 0 <= i < places@.len() ==> #[trigger] places@[i] < next,
            order is Sequential ==> forall|i: int|
                0 <= i < places@.len() ==> #[trigger] places@[i] == i,
            order is Random ==> forall|i: int, j: int|
                0 <= i < j < places@.len() ==> scattered_before(
                    pages@,
                    #[trigger] places@[i] as int,
                    #[trigger] places@[j] as int,
                ),
        decreases pages@.len() - next,
    {
        let mut at: usize = places.len();
        match order {
            AccessOrder::Sequential => {},
            AccessOrder::Random => {
                let key: u64 = scattered(pages[next]);
                while at > 0 && scattered(pages[places[at - 1]]) > key
                    invariant
                        at <= places@.len(),
                        key == scatter(pages@[next as int]),
                        next < pages@.len(),
                        forall|i: int| 0 <= i < places@.len() ==> #[trigger] places@[i] < next,
                        forall|i: int|
                            at <= i < places@.len() ==> scatter(
                                pages@[#[trigger] places@[i] as int],
                            ) > key,
                    decreases at,
                {
                    at = at - 1;
                }
            },
        }
        let ghost before = places@;
        places.insert(at, next);
        proof {
            if order is Random {
                let pages = pages@;
                assert forall|i: int, j: int| 0 <= i < j < places@.len() implies scattered_before(
                    pages,
                    #[trigger] places@[i] as int,
                    #[trigger] places@[j] as int,
                ) by {
                    if i < at {
                        assert(places@[i] == before[i]);
                        if at > 0 && i < at - 1 {
                            assert(scattered_before(
                                pages,
                                before[i] as int,
                                before[at - 1] as int,
                            ));
                        }
                    }
                    if i > at {
                        assert(places@[i] == before[i - 1]);
                    }
                    if j > at {
                        assert(places@[j] == before[j - 1]);
                    }
                    if j < at {
                        assert(places@[j] == before[j]);
                    }
                }
            }
        }
        next = next + 1;
    }
    places
}

// ----- what is read -----

#[derive(Clone, Copy, Debug, PartialEq, Eq, Structural)]
pub enum SchedulePolicy {
    PerPage,
    Coalesce(usize),
    FullFile,
}

impl SchedulePolicy {
    pub fn all() -> (r: [SchedulePolicy; 6])
        ensures
            r@ == seq![
                SchedulePolicy::PerPage,
                SchedulePolicy::Coalesce(0),
                SchedulePolicy::Coalesce(512),
                SchedulePolicy::Coalesce(4_096),
                SchedulePolicy::Coalesce(65_536),
                SchedulePolicy::FullFile,
            ],
    {
        let r = [
            SchedulePolicy::PerPage,
            SchedulePolicy::Coalesce(0),
            SchedulePolicy::Coalesce(512),
            SchedulePolicy::Coalesce(4_096),
            SchedulePolicy::Coalesce(65_536),
            SchedulePolicy::FullFile,
        ];
        assert(r@ =~= seq![
            SchedulePolicy::PerPage,
            SchedulePolicy::Coalesce(0),
            SchedulePolicy::Coalesce(512),
            SchedulePolicy::Coalesce(4_096),
            SchedulePolicy::Coalesce(65_536),
            SchedulePolicy::FullFile,
        ]);
        r
    }

    pub fn name(self) -> (r: &'static str)
        ensures
            r@ == match self {
                SchedulePolicy::PerPage => "per_page"@,
                SchedulePolicy::Coalesce(gap) => if gap == 0 {
                    "sorted_closure"@
                } else if gap == 512 {
                    "coalesce_512b"@
                } else if gap == 4_096 {
                    "coalesce_4k"@
                } else if gap == 65_536 {
                    "coalesce_64k"@
                } else {
                    "coalesce_custom"@
                },
                SchedulePolicy::FullFile => "full_file"@,
            },
    {
        match self {
            SchedulePolicy::PerPage => "per_page",
            SchedulePolicy::Coalesce(gap) => if gap == 0 {
                "sorted_closure"
            } else if gap == 512 {
                "coalesce_512b"
            } else if gap == 4_096 {
                "coalesce_4k"
            } else if gap == 65_536 {
                "coalesce_64k"
            } else {
                "coalesce_custom"
            },
            SchedulePolicy::FullFile => "full_file",
        }
    }
}

/// The gap that a policy reads over to join what it needs.
pub open spec fn gap_of(policy: SchedulePolicy) -> int {
    match policy {
        SchedulePolicy::Coalesce(gap) => gap as int,
        _ => 0,
    }
}

/// What a policy reads for the ranges that are needed.
pub fn schedule_for(ranges: Vec<Span>, policy: SchedulePolicy, file_len: usize) -> (r: Result<
    ReadSchedule,
    Error,
>)
    requires
        all_wf(ranges@),
    ensures
        match schedule_of(ranges@, gap_of(policy)) {
            Ok(reads) => r matches Ok(schedule) && {
                &&& schedule.required_bytes == total(merged(nonempty(ranges@)))
                &&& if policy is FullFile {
                    schedule.ranges@ == seq![Span { start: 0, end: file_len }]
                        && schedule.scheduled_bytes == file_len
                } else {
                    schedule.ranges@ == reads && schedule.scheduled_bytes == total(reads)
                }
            },
            Err(e) => r matches Err(found) && found == e,
        },
{
    match policy {
        SchedulePolicy::PerPage => coalesce_ranges(ranges, 0),
        SchedulePolicy::Coalesce(gap) => coalesce_ranges(ranges, gap),
        SchedulePolicy::FullFile => match coalesce_ranges(ranges, 0) {
            Ok(schedule) => {
                let mut whole: Vec<Span> = Vec::new();
                whole.push(Span { start: 0, end: file_len });
                Ok(
                    ReadSchedule {
                        ranges: whole,
                        required_bytes: schedule.required_bytes,
                        scheduled_bytes: file_len,
                    },
                )
            },
            Err(e) => Err(e),
        },
    }
}

/// How often a policy reads, given how many ranges are needed.
pub fn read_calls(policy: SchedulePolicy, needed: usize, schedule: &ReadSchedule) -> (r: usize)
    ensures
        r == if policy is PerPage {
            needed as int
        } else {
            schedule.ranges@.len() as int
        },
{
    match policy {
        SchedulePolicy::PerPage => needed,
        _ => schedule.ranges.len(),
    }
}

/// How many bytes a policy reads, and how many of them are not needed.
pub fn bytes_read(policy: SchedulePolicy, schedule: &ReadSchedule) -> (r: (usize, usize))
    ensures
        r.0 == if policy is PerPage {
            schedule.required_bytes
        } else {
            schedule.scheduled_bytes
        },
        r.1 == if r.0 < schedule.required_bytes {
            0
        } else {
            r.0 - schedule.required_bytes
        },
{
    let read: usize = match policy {
        SchedulePolicy::PerPage => schedule.required_bytes,
        _ => schedule.scheduled_bytes,
    };
    if read < schedule.required_bytes {
        (read, 0)
    } else {
        (read, read - schedule.required_bytes)
    }
}

/// A range moved on.
pub open spec fn moved_range(range: Span, offset: int) -> Span {
    Span { start: (offset + range.start) as usize, end: (offset + range.end) as usize }
}

/// The ranges of the first `n` pages, each moved to where its page starts.
pub open spec fn placed(closures: Seq<Seq<Span>>, offsets: Seq<usize>, n: int) -> Seq<Span>
    decreases n,
{
    if n <= 0 {
        Seq::empty()
    } else {
        placed(closures, offsets, n - 1) + closures[n - 1].map_values(
            |range: Span| moved_range(range, offsets[n - 1] as int),
        )
    }
}

/// The ranges of a file that the pages' ranges are.
pub fn absolute_ranges(closures: &[Vec<Span>], offsets: &[usize]) -> (r: Vec<Span>)
    requires
        closures@.len() == offsets@.len(),
        forall|page: int, k: int|
            0 <= page < closures@.len() && 0 <= k < closures@[page]@.len() ==> {
                let range = #[trigger] closures@[page]@[k];
                range.start <= range.end && offsets@[page] + range.end <= usize::MAX
            },
    ensures
        r@ == placed(
            closures@.map_values(|closure: Vec<Span>| closure@),
            offsets@,
            closures@.len() as int,
        ),
        all_wf(r@),
{
    let ghost views = closures@.map_values(|closure: Vec<Span>| closure@);
    let mut ranges: Vec<Span> = Vec::new();
    let mut page: usize = 0;
    while page < closures.len()
        invariant
            page <= closures@.len(),
            closures@.len() == offsets@.len(),
            views == closures@.map_values(|closure: Vec<Span>| closure@),
            forall|page: int, k: int|
                0 <= page < closures@.len() && 0 <= k < closures@[page]@.len() ==> {
                    let range = #[trigger] closures@[page]@[k];
                    range.start <= range.end && offsets@[page] + range.end <= usize::MAX
                },
            ranges@ == placed(views, offsets@, page as int),
            all_wf(ranges@),
        decreases closures@.len() - page,
    {
        let offset: usize = offsets[page];
        let closure = &closures[page];
        let ghost before = ranges@;
        let ghost shift = |range: Span| moved_range(range, offsets@[page as int] as int);
        let mut k: usize = 0;
        while k < closure.len()
            invariant
                page < closures@.len(),
                closures@.len() == offsets@.len(),
                offset == offsets@[page as int],
                closure@ == closures@[page as int]@,
                k <= closure@.len(),
                forall|page: int, k: int|
                    0 <= page < closures@.len() && 0 <= k < closures@[page]@.len() ==> {
                        let range = #[trigger] closures@[page]@[k];
                        range.start <= range.end && offsets@[page] + range.end <= usize::MAX
                    },
                shift == (|range: Span| moved_range(range, offsets@[page as int] as int)),
                ranges@ == before + closure@.take(k as int).map_values(shift),
                all_wf(ranges@),
            decreases closure@.len() - k,
        {
            let range: Span = closure[k];
            assert(closures@[page as int]@[k as int] == range);
            ranges.push(Span { start: offset + range.start, end: offset + range.end });
            assert(closure@.take(k + 1).map_values(shift) =~= closure@.take(k as int).map_values(
                shift,
            ).push(shift(range)));
            k = k + 1;
        }
        proof {
            assert(closure@.take(closure@.len() as int) =~= closure@);
            assert(views[page as int] == closure@);
        }
        page = page + 1;
    }
    ranges
}

// ----- totals -----

/// What a scan over many pages adds up to.
#[derive(Clone, Copy, Debug, PartialEq, Eq, Structural)]
pub struct ScanResult {
    pub checksum: i128,
    pub logical_bytes: usize,
    pub delivered_bytes: usize,
    pub transferred_bytes: usize,
    pub transfer_operations: usize,
    pub frames_decoded: usize,
    pub decoded_rows: usize,
}

/// Some count of the scan cannot be added to.
pub open spec fn too_many(result: ScanResult, metrics: AccessMetrics, decoded_rows: usize) -> bool {
    ||| result.logical_bytes + metrics.logical_bytes > usize::MAX
    ||| result.delivered_bytes + metrics.delivered_bytes > usize::MAX
    ||| result.transferred_bytes + metrics.transferred_bytes > usize::MAX
    ||| result.transfer_operations + metrics.transfer_operations > usize::MAX
    ||| result.frames_decoded + metrics.frames_decoded > usize::MAX
    ||| result.decoded_rows + decoded_rows > usize::MAX
}

impl ScanResult {
    pub fn new() -> (r: ScanResult)
        ensures
            r == (ScanResult {
                checksum: 0,
                logical_bytes: 0,
                delivered_bytes: 0,
                transferred_bytes: 0,
                transfer_operations: 0,
                frames_decoded: 0,
                decoded_rows: 0,
            }),
    {
        ScanResult {
            checksum: 0,
            logical_bytes: 0,
            delivered_bytes: 0,
            transferred_bytes: 0,
            transfer_operations: 0,
            frames_decoded: 0,
            decoded_rows: 0,
        }
    }

    /// The scan with one more page.
    pub fn with_page(self, checksum: i128, metrics: AccessMetrics, decoded_rows: usize) -> (r:
        Result<ScanResult, StudyError>)
        ensures
            if !(i128::MIN <= self.checksum + checksum <= i128::MAX) {
                r matches Err(StudyError::ChecksumOverflow)
            } else if too_many(self, metrics, decoded_rows) {
                r matches Err(StudyError::TotalOverflow)
            } else {
                r matches Ok(next) && next == (ScanResult {
                    checksum: (self.checksum + checksum) as i128,
                    logical_bytes: (self.logical_bytes + metrics.logical_bytes) as usize,
                    delivered_bytes: (self.delivered_bytes + metrics.delivered_bytes) as usize,
                    transferred_bytes: (self.transferred_bytes
                        + metrics.transferred_bytes) as usize,
                    transfer_operations: (self.transfer_operations
                        + metrics.transfer_operations) as usize,
                    frames_decoded: (self.frames_decoded + metrics.frames_decoded) as usize,
                    decoded_rows: (self.decoded_rows + decoded_rows) as usize,
                })
            },
    {
        let checksum: i128 = match self.checksum.checked_add(checksum) {
            Some(checksum) => checksum,
            None => {
                return Err(StudyError::ChecksumOverflow);
            },
        };
        match (
            self.logical_bytes.checked_add(metrics.logical_bytes),
            self.delivered_bytes.checked_add(metrics.delivered_bytes),
            self.transferred_bytes.checked_add(metrics.transferred_bytes),
            self.transfer_operations.checked_add(metrics.transfer_operations),
            self.frames_decoded.checked_add(metrics.frames_decoded),
            self.decoded_rows.checked_add(decoded_rows),
        ) {
            (
                Some(logical_bytes),
                Some(delivered_bytes),
                Some(transferred_bytes),
                Some(transfer_operations),
                Some(frames_decoded),
                Some(decoded_rows),
            ) => Ok(
                ScanResult {
                    checksum,
                    logical_bytes,
                    delivered_bytes,
                    transferred_bytes,
                    transfer_operations,
                    frames_decoded,
                    decoded_rows,
                },
            ),
            _ => Err(StudyError::TotalOverflow),
        }
    }
}

/// What the system has counted of a process.
#[derive(Clone, Copy, Debug, PartialEq, Eq, Structural)]
pub struct SystemCounters {
    pub read_bytes: u64,
    pub read_chars: u64,
    pub minor_faults: i64,
    pub major_faults: i64,
}

/// The difference of two counts, as far as it can be held.
pub open spec fn unsigned_difference(after: u64, before: u64) -> int {
    if after < before {
        0
    } else {
        after - before
    }
}

/// The difference of two counts, as far as it can be held.
pub open spec fn signed_difference(after: i64, before: i64) -> int {
    if after - before < i64::MIN {
        i64::MIN as int
    } else if after - before > i64::MAX {
        i64::MAX as int
    } else {
        after - before
    }
}

fn unsigned_since(after: u64, before: u64) -> (r: u64)
    ensures
        r == unsigned_difference(after, before),
{
    if after < before {
        0
    } else {
        after - before
    }
}

fn signed_since(after: i64, before: i64) -> (r: i64)
    ensures
        r == signed_difference(after, before),
{
    match after.checked_sub(before) {
        Some(difference) => difference,
        None => if before > 0 {
            i64::MIN
        } else {
            i64::MAX
        },
    }
}

impl SystemCounters {
    /// What was counted since.
    pub fn delta(self, before: SystemCounters) -> (r: SystemCounters)
        ensures
            r.read_bytes == unsigned_difference(self.read_bytes, before.read_bytes),
            r.read_chars == unsigned_difference(self.read_chars, before.read_chars),
            r.minor_faults == signed_difference(self.minor_faults, before.minor_faults),
            r.major_faults == signed_difference(self.major_faults, before.major_faults),
    {
        SystemCounters {
            read_bytes: unsigned_since(self.read_bytes, before.read_bytes),
            read_chars: unsigned_since(self.read_chars, before.read_chars),
            minor_faults: signed_since(self.minor_faults, before.minor_faults),
            major_faults: signed_since(self.major_faults, before.major_faults),
        }
    }
}

} // verus!
