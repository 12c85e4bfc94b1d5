use witness::access_compiler::Span;
use witness::study::{predicates, selected_rows, truth, PredicateSpec, StudyError};

#[test]
fn tied_domains_collapse_duplicate_predicates() {
    let values = vec![Some(38); 1_000];
    let predicates = predicates(&values).unwrap();
    assert_eq!(predicates.len(), 1);
    assert_eq!(predicates[0].requested, "0.001|0.010|0.100|0.500");
}

#[test]
fn distinct_domains_retain_four_selectivities() {
    let values = (0..10_000).map(Some).collect::<Vec<_>>();
    assert_eq!(predicates(&values).unwrap().len(), 4);
}

#[test]
fn truth_merges_rows_and_skips_null_values_in_sum() {
    let predicate = PredicateSpec {
        label: "test".into(),
        requested: "test".into(),
        low: 2,
        high: 4,
    };
    let selector = [Some(1), Some(2), Some(3), Some(4), Some(8)];
    let values = [Some(10), Some(20), None, Some(40), Some(80)];
    let (ranges, sum) = truth(&selector, &values, &predicate).unwrap();
    assert_eq!(ranges, [Span::new(1, 4).unwrap()]);
    assert_eq!(sum, 60);
    assert_eq!(selected_rows(&ranges), 3);
}

#[test]
fn predicates_are_centred_on_the_middle_of_the_values() {
    let values = (0..10_000).rev().map(Some).collect::<Vec<_>>();
    let list = predicates(&values).unwrap();
    let bounds: Vec<(i64, i64)> = list.iter().map(|one| (one.low, one.high)).collect();
    assert_eq!(
        bounds,
        [(4_995, 5_004), (4_950, 5_049), (4_500, 5_499), (2_500, 7_499)]
    );
    let labels: Vec<&str> = list.iter().map(|one| one.label.as_str()).collect();
    assert_eq!(labels, ["0.1pct", "1pct", "10pct", "50pct"]);
}

#[test]
fn a_selector_needs_values_with_room_above_them() {
    assert_eq!(predicates(&[None, None]).unwrap_err(), StudyError::SelectorEmpty);
    assert_eq!(
        predicates(&[Some(i64::MAX)]).unwrap_err(),
        StudyError::SelectorMaximum
    );
    let last = PredicateSpec {
        label: String::new(),
        requested: String::new(),
        low: 0,
        high: i64::MAX,
    };
    assert_eq!(last.upper_exclusive().unwrap_err(), StudyError::UpperNotExclusive);
}

#[test]
fn a_selector_has_as_many_rows_as_what_it_selects() {
    let predicate = PredicateSpec {
        label: String::new(),
        requested: String::new(),
        low: 0,
        high: 1,
    };
    assert_eq!(predicate.upper_exclusive().unwrap(), 2);
    assert_eq!(
        truth(&[Some(1)], &[], &predicate).unwrap_err(),
        StudyError::RowCountDiffers
    );
}
