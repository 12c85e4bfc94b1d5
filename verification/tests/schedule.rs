use witness::access_compiler::{coalesce_ranges, Error, Span};
use witness::study::{bytes_read, read_calls, schedule_for, SchedulePolicy};

fn span(start: usize, end: usize) -> Span {
    Span::new(start, end).unwrap()
}

#[test]
fn coalescing_trades_calls_for_explicit_gap_bytes() {
    let schedule = coalesce_ranges(vec![span(100, 120), span(125, 140), span(300, 310)], 8).unwrap();
    assert_eq!(schedule.ranges, [span(100, 140), span(300, 310)]);
    assert_eq!(schedule.required_bytes, 45);
    assert_eq!(schedule.scheduled_bytes, 50);
}

#[test]
fn empty_ranges_are_not_read_and_overlaps_are_needed_once() {
    let schedule =
        coalesce_ranges(vec![span(7, 7), span(10, 20), span(15, 30), span(5, 5)], 0).unwrap();
    assert_eq!(schedule.ranges, [span(10, 30)]);
    assert_eq!(schedule.required_bytes, 20);
    assert_eq!(schedule.scheduled_bytes, 20);
}

#[test]
fn a_gap_past_the_last_address_is_refused() {
    let refused = coalesce_ranges(vec![span(1, 2), span(5, 6)], usize::MAX);
    assert_eq!(refused.unwrap_err(), Error::CoalescingGapOverflow);
}

#[test]
fn a_span_ends_where_it_starts_or_later() {
    assert_eq!(Span::new(4, 3).unwrap_err(), Error::InvalidSpan { start: 4, end: 3 });
    assert!(span(4, 4).is_empty());
    assert_eq!(span(4, 9).len(), 5);
}

#[test]
fn policies_differ_in_what_they_read() {
    let needed = vec![span(0, 10), span(600, 610), span(9_000, 9_010)];
    let page = schedule_for(needed.clone(), SchedulePolicy::PerPage, 10_000).unwrap();
    assert_eq!(read_calls(SchedulePolicy::PerPage, needed.len(), &page), 3);
    assert_eq!(bytes_read(SchedulePolicy::PerPage, &page), (30, 0));
    let joined = schedule_for(needed.clone(), SchedulePolicy::Coalesce(4_096), 10_000).unwrap();
    assert_eq!(joined.ranges, [span(0, 610), span(9_000, 9_010)]);
    assert_eq!(read_calls(SchedulePolicy::Coalesce(4_096), needed.len(), &joined), 2);
    assert_eq!(bytes_read(SchedulePolicy::Coalesce(4_096), &joined), (620, 590));
    let whole = schedule_for(needed.clone(), SchedulePolicy::FullFile, 10_000).unwrap();
    assert_eq!(whole.ranges, [span(0, 10_000)]);
    assert_eq!(bytes_read(SchedulePolicy::FullFile, &whole), (10_000, 9_970));
    let names: Vec<&str> = SchedulePolicy::all().iter().map(|policy| policy.name()).collect();
    assert_eq!(
        names,
        ["per_page", "sorted_closure", "coalesce_512b", "coalesce_4k", "coalesce_64k", "full_file"]
    );
    assert_eq!(SchedulePolicy::Coalesce(7).name(), "coalesce_custom");
}
