use witness::access_compiler::{
    intersect_candidates, refine_eq, refine_in, BlockBloom, BlockMinMax, CandidatePlan, Error,
    OutputGuarantee, Span, SparseFence,
};
use witness::study::{
    false_positive_blocks, fence_candidates, matching_rows, modeled_bytes, quantile_index,
    query_specs, scan_candidates, StudyError,
};

fn span(start: usize, end: usize) -> Span {
    Span::new(start, end).unwrap()
}

fn steps() -> Vec<Option<i64>> {
    (0..64).map(|row| Some(row / 2)).collect()
}

#[test]
fn no_certificate_drops_a_match() {
    let values: Vec<Option<i64>> = (0..200)
        .map(|row: i64| if row % 7 == 3 { None } else { Some(row * 37 % 91) })
        .collect();
    let bloom = BlockBloom::build(&values, 16, 8).unwrap();
    let bounds = BlockMinMax::build(&values, 16).unwrap();
    for target in -2..95 {
        let expected = matching_rows(&values, &[target]);
        let by_filter = bloom.probe_eq(target);
        let by_bounds = bounds.probe_eq(target);
        let by_both = intersect_candidates(&by_filter, &by_bounds);
        for plan in [&by_filter, &by_bounds, &by_both] {
            let found: usize =
                refine_eq(&values, plan, target).unwrap().iter().map(|range| range.len()).sum();
            assert_eq!(found, expected);
        }
    }
}

#[test]
fn the_fence_narrows_a_sorted_column() {
    let values = steps();
    let fence = SparseFence::build_equal_budget(&values, 16 * 8).unwrap();
    assert_eq!(fence.bytes(), 128);
    let plan = fence_candidates(&fence, &[10, 31]);
    assert_eq!(plan.block_rows, 8);
    assert_eq!(plan.blocks, [2, 7]);
    assert_eq!(refine_in(&values, &plan, &[10, 31]).unwrap(), [span(20, 22), span(62, 64)]);
    assert_eq!(false_positive_blocks(&values, &plan, &[10, 31]), 0);
    assert_eq!(false_positive_blocks(&values, &plan, &[10]), 1);
}

#[test]
fn certificates_refuse_what_they_cannot_hold() {
    assert_eq!(BlockBloom::build(&[], 4, 8).unwrap_err(), Error::BloomArguments);
    assert_eq!(BlockMinMax::build(&steps(), 0).unwrap_err(), Error::MinMaxArguments);
    assert_eq!(
        SparseFence::build_equal_budget(&[Some(2), Some(1)], 64).unwrap_err(),
        Error::FenceDecreases
    );
    assert_eq!(
        SparseFence::build_equal_budget(&[None], 64).unwrap_err(),
        Error::FenceArguments
    );
    let exact = CandidatePlan {
        blocks: vec![0],
        block_rows: 4,
        metadata_bytes: 0,
        guarantee: OutputGuarantee::ExactBitmap,
    };
    assert_eq!(refine_eq(&steps(), &exact, 1).unwrap_err(), Error::EqNotCandidates);
    assert_eq!(refine_in(&steps(), &exact, &[1]).unwrap_err(), Error::InNotCandidates);
}

#[test]
fn queries_ask_for_a_rare_a_frequent_and_an_absent_value() {
    let values = [Some(4), Some(4), Some(9), None, Some(4), Some(9), Some(1), Some(2)];
    let queries = query_specs(&values).unwrap();
    let names: Vec<&str> = queries.iter().map(|query| query.name).collect();
    assert_eq!(names, ["eq_rare", "eq_frequent", "eq_absent", "in_mixed"]);
    assert_eq!(queries[0].targets, [1]);
    assert_eq!(queries[1].targets, [4]);
    assert_eq!(queries[2].targets, [3]);
    assert_eq!(queries[3].targets, [1, 3, 4]);
}

#[test]
fn an_absent_value_lies_in_the_first_gap_or_beside_the_values() {
    let above = query_specs(&[Some(7), Some(8)]).unwrap();
    assert_eq!(above[2].targets, [9]);
    let below = query_specs(&[Some(i64::MAX), Some(i64::MAX - 1)]).unwrap();
    assert_eq!(below[2].targets, [i64::MAX - 2]);
    assert_eq!(query_specs(&[None]).unwrap_err(), StudyError::ColumnEmpty);
}

#[test]
fn a_scan_takes_every_block() {
    let plan = scan_candidates(10, 4);
    assert_eq!(plan.blocks, [0, 1, 2]);
    assert_eq!(plan.candidate_rows(10), 10);
    assert_eq!(modeled_bytes(plan.metadata_bytes, 10), 80);
    assert_eq!(scan_candidates(0, 4).blocks, Vec::<usize>::new());
}

#[test]
fn quantiles_never_round_up() {
    assert_eq!(quantile_index(4, 1, 2), 1);
    assert_eq!(quantile_index(5, 1, 4), 1);
    assert_eq!(quantile_index(2_000, 975, 1_000), 1_949);
}
