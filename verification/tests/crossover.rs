use witness::access_compiler::{
    choose_filter, compile, encode, execute_compiled, execute_filter, execute_interpreted, execute_ranges,
    filter_session, fingerprint, primitive_rule_fingerprint, AccessMetrics, Answer, ClosureMode,
    CostFeatures, Error, Execution, FieldId, FilterWay, InputColumn, NodeId, NullPlacement,
    PlanOp, Predicate, Query, ReadSession, Recipe, Span,
};
use witness::study::crossover::{EVALUATION_CASES, ROWS, TOTAL_CASES, TRAINING_CASES};
use witness::study::{
    absolute_ranges, align_up, answer_checksum, bounds, cases_in_turn, chosen_plan,
    combined_metrics, complete_query, complete_query_untracked, evaluation_cases, eviction_range,
    exact_features, filesystem_kind, filtered_ranges, fixed_tasks, gen_outcome, known_selection,
    known_selection_untracked, parquet_outcome,
    pipeline_result, planned_queries, predicates, preflight_free_features, queries, query_widths,
    selected_rows, selection_result, share_tasks, split_name, structure_features, study_cases,
    truth, verify, visiting_order, widths, AccessOrder, Baseline, Bundle, FeatureMode, FilterPlan,
    ParquetAggregate, PipelineError, PipelinePlans, PlanKind, Policy, QueryKind, ScanResult, Stage,
    StorageTier, StructureFeatures, StudyError, SystemCounters, ValuePlan,
};

fn span(start: usize, end: usize) -> Span {
    Span::new(start, end).unwrap()
}

fn metrics(count: usize) -> AccessMetrics {
    AccessMetrics {
        logical_bytes: count,
        delivered_bytes: 2 * count,
        transferred_bytes: 3 * count,
        transfer_operations: 4 * count,
        frames_decoded: 5 * count,
    }
}

#[test]
fn crossover_partition_stays_ten_training_and_five_evaluation_cases() {
    let cases = study_cases().unwrap();

    assert_eq!(TRAINING_CASES, 10);
    assert_eq!(EVALUATION_CASES, 5);
    assert_eq!(cases.len(), TOTAL_CASES);
    assert_eq!(cases[TRAINING_CASES].id, 10);
    assert_eq!(cases[TOTAL_CASES - 1].id, 14);
    assert_eq!(cases[0].id, 0);
    assert_eq!(split_name(9), "train");
    assert_eq!(split_name(10), "heldout");
}

#[test]
fn query_widths_are_powers_of_four_and_percentages() {
    let list = query_widths();
    assert_eq!(list.len(), 17);
    assert_eq!(&list[..6], [1, 4, 16, 64, ROWS / 100, 256]);
    assert_eq!(list[16], ROWS);
    assert_eq!(widths(50), [1, 5, 25, 50]);
    assert_eq!(widths(5_000), [1, 5, 50, 500, 2_500, 5_000]);
    assert_eq!(widths(3), [0, 1, 3]);
}

#[test]
fn bounds_are_the_quartiles() {
    let values: Vec<Option<i64>> = [9, 1, 5, 3, 7].iter().map(|value| Some(*value)).collect();
    assert_eq!(bounds(&values), (3, 7));
    assert_eq!(bounds(&[None, Some(4)]), (4, 4));
}

#[test]
fn features_of_a_plan_are_expected_without_running_it() {
    let structure = StructureFeatures {
        restart_entries: 3,
        rle_runs: 0,
        dictionary_entries: 9,
        patch_count: 0,
        nullable_nodes: 2,
    };
    let selective =
        preflight_free_features(10, 100, 1_000, 200, 0, PlanKind::Selective, structure);
    assert_eq!(
        selective.values(),
        [10, 10, 280, 5, 0, 3, 0, 9, 0, 2]
    );
    let framed = preflight_free_features(10, 100, 1_000, 200, 1, PlanKind::Selective, structure);
    assert_eq!((framed.delivered_bytes, framed.transfer_operations), (1_000, 6));
    let fused = preflight_free_features(10, 100, 1_000, 200, 1, PlanKind::Fused, structure);
    assert_eq!((fused.decoded_rows, fused.transfer_operations), (100, 1));
    let exact = exact_features(span(5, 9), 7, metrics(1), structure);
    assert_eq!(exact.values(), [4, 7, 2, 4, 5, 3, 0, 9, 0, 2]);
    let same: CostFeatures = exact;
    assert_eq!(same, exact);
}

#[test]
fn the_structure_of_a_decoder_is_counted() {
    let column = encode(
        &Recipe::Nullable {
            rank_interval: 8,
            values: Box::new(Recipe::Delta {
                restart_interval: 128,
                deltas: Box::new(Recipe::BitPack),
            }),
        },
        InputColumn::nullable(vec![Some(1), None, Some(5), Some(2), Some(9), Some(11)]),
    )
    .unwrap();
    let structure = structure_features(&column);
    assert_eq!(structure.nullable_nodes, 1);
    assert_eq!(structure.restart_entries, 1);
    assert_eq!(structure.rle_runs, 0);
}

#[test]
fn answers_have_checksums() {
    assert_eq!(answer_checksum(&Answer::Value(None)), 0);
    assert_eq!(answer_checksum(&Answer::Value(Some(-4))), -4);
    assert_eq!(answer_checksum(&Answer::Sum(12)), 12);
    assert_eq!(answer_checksum(&Answer::Ranges(vec![span(1, 4), span(9, 10)])), 4);
    assert_eq!(answer_checksum(&Answer::Count(6)), 6);
}

#[test]
fn scans_ask_the_middle_of_each_page() {
    let column = encode(
        &Recipe::BitPack,
        InputColumn::dense((0..200).collect()),
    )
    .unwrap();
    let columns = [column];
    let cases = cases_in_turn(7, 1);
    assert_eq!(cases, [0; 7]);
    let tasks = share_tasks(&columns, &cases);
    assert_eq!(tasks[1].rows, span(99, 101));
    assert_eq!(tasks[2].rows, span(90, 110));
    assert_eq!(tasks[4].rows, span(0, 200));
    assert_eq!(tasks[4].plan, PlanKind::Fused);
    assert_eq!(tasks[3].plan, PlanKind::Selective);
    assert_eq!((tasks[3].query, tasks[4].query), (QueryKind::Between, QueryKind::Sum));
    assert_eq!((tasks[0].low, tasks[0].high), (50, 150));
    let fixed = fixed_tasks(&columns, &cases);
    assert_eq!(fixed[1].rows, span(8_160, 8_224));
    assert_eq!(fixed[5].rows, span(0, ROWS));
    assert_eq!(evaluation_cases(7), [10, 11, 12, 13, 14, 10, 11]);
    assert_eq!(chosen_plan(5, 5), PlanKind::Fused);
}

#[test]
fn random_order_visits_every_page_once() {
    let pages: Vec<usize> = (0..100).collect();
    let order = visiting_order(&pages, AccessOrder::Random);
    let mut expected = pages.clone();
    expected.sort_by_key(|page| {
        (*page as u64).wrapping_mul(6_364_136_223_846_793_005).rotate_left(17)
    });
    assert_eq!(order, expected);
    assert_ne!(order, pages);
    assert_eq!(visiting_order(&pages, AccessOrder::Sequential), pages);
}

#[test]
fn ranges_are_moved_to_where_their_pages_start() {
    let closures = [vec![span(0, 4), span(10, 12)], vec![span(1, 2)]];
    assert_eq!(
        absolute_ranges(&closures, &[100, 4_096]),
        [span(100, 104), span(110, 112), span(4_097, 4_098)]
    );
}

#[test]
fn scans_add_up_until_a_count_overflows() {
    let one = ScanResult::new().with_page(5, metrics(1), 7).unwrap();
    let two = one.with_page(-2, metrics(10), 1).unwrap();
    assert_eq!(two.checksum, 3);
    assert_eq!(two.transferred_bytes, 33);
    assert_eq!(two.decoded_rows, 8);
    assert_eq!(
        two.with_page(i128::MAX, metrics(0), 0).unwrap_err(),
        StudyError::ChecksumOverflow
    );
    assert_eq!(
        two.with_page(0, metrics(0), usize::MAX).unwrap_err(),
        StudyError::TotalOverflow
    );
}

#[test]
fn counters_never_go_below_what_they_can_hold() {
    let counters = |read, faults| SystemCounters {
        read_bytes: read,
        read_chars: read,
        minor_faults: faults,
        major_faults: faults,
    };
    assert_eq!(counters(9, 4).delta(counters(4, 1)), counters(5, 3));
    assert_eq!(counters(1, i64::MIN).delta(counters(4, 1)), counters(0, i64::MIN));
    assert_eq!(counters(1, i64::MAX).delta(counters(1, -1)), counters(0, i64::MAX));
}

#[test]
fn pages_lie_apart_at_multiples_of_the_alignment() {
    let bundle = Bundle::lay_out(vec![5, 4_096, 1], 4_096).unwrap();
    assert_eq!(bundle.offsets, [0, 4_096, 8_192]);
    assert_eq!(bundle.len, 8_193);
    assert_eq!(bundle.offset_of(2).unwrap(), 8_192);
    assert_eq!(bundle.offset_of(3).unwrap_err(), StudyError::BundlePageAbsent);
    assert_eq!(Bundle::lay_out(vec![], 8).unwrap_err(), StudyError::BundleInvalid);
    assert_eq!(Bundle::lay_out(vec![1], 24).unwrap_err(), StudyError::BundleInvalid);
    assert_eq!(Bundle::lay_out(vec![1], 0).unwrap_err(), StudyError::BundleInvalid);
    assert_eq!(
        Bundle::lay_out(vec![usize::MAX, 1], 8).unwrap_err(),
        StudyError::BundleAlignmentOverflow
    );
    assert_eq!(
        Bundle::lay_out(vec![8, usize::MAX], 8).unwrap_err(),
        StudyError::BundleLengthOverflow
    );
    assert_eq!(align_up(13, 8).unwrap(), 16);
}

#[test]
fn whole_pages_of_memory_are_given_up() {
    assert_eq!(eviction_range(5_000, 100, 100_000).unwrap(), (4_096, 8_192));
    assert_eq!(eviction_range(5_000, 100, 6_000).unwrap(), (4_096, 6_000));
    assert_eq!(
        eviction_range(usize::MAX, 1, 10).unwrap_err(),
        StudyError::EvictionOverflow
    );
    assert_eq!(filesystem_kind(0xef53), "ext4");
    assert_eq!(filesystem_kind(1), "other");
}

#[test]
fn names_of_plans_tiers_and_policies() {
    assert_eq!(PlanKind::Fused.name(), "broad_fused");
    assert_eq!(PlanKind::Fused.mode(), ClosureMode::FullPage);
    assert_eq!(QueryKind::Between.name(), "BETWEEN");
    assert_eq!(FeatureMode::ExactClosure.name(), "exact_closure_features");
    assert_eq!(Policy::all()[3].name(), "microcurve_oracle");
    assert_eq!(StorageTier::all()[3].name(), "buffered_drop_cache");
    assert!(StorageTier::BufferedCold.is_cold() && !StorageTier::Memory.is_cold());
    assert_eq!(AccessOrder::Random.name(), "random");
    assert_eq!(ValuePlan::Fused.name(), "generated_fused");
    assert_eq!(ValuePlan::Fused.mode(), ClosureMode::FullPage);
    assert_eq!(Baseline::all()[5].name(), "handwritten_monomorphized");
}

#[test]
fn baselines_are_timed_on_narrow_and_wide_queries() {
    let values: Vec<Option<i64>> = (0..700).map(Some).collect();
    let all = queries(&values);
    assert_eq!(all.len(), 7);
    assert_eq!(all[0].query, Query::Get { row: 357 });
    assert_eq!(all[1].query, Query::Sum { rows: span(347, 354) });
    assert_eq!(all[2].query, Query::Sum { rows: span(100, 600) });
    assert_eq!(
        all[5].query,
        Query::Filter { predicate: Predicate::Between { low: 350, high: 350 } }
    );
    let planned: Vec<&str> = planned_queries(&values).iter().map(|one| one.name).collect();
    assert_eq!(planned, ["GET", "SUM_1PCT", "BETWEEN_1PCT", "FILTER_POINT", "FILTER_50PCT"]);
}

fn stage(answer: Answer, count: usize) -> Stage {
    Stage {
        execution: Execution { answer, metrics: metrics(count), decoded_rows: count },
        metrics: metrics(count),
        primitive_values_read: count + 1,
    }
}

#[test]
fn a_pipeline_joins_its_two_stages() {
    let filter = stage(Answer::Ranges(vec![span(1, 3)]), 2);
    let value = stage(Answer::Sum(30), 5);
    assert_eq!(filtered_ranges(9, 9, &filter).unwrap(), [span(1, 3)]);
    let result = pipeline_result(9, 9, &filter, &value).unwrap();
    let outcome = gen_outcome(&result, 2);
    assert_eq!((outcome.sum, outcome.selector_decoded_rows, outcome.value_decoded_rows), (30, 2, 5));
    assert_eq!(outcome.value_primitive_values_read, 6);
    assert_eq!(combined_metrics(outcome.selector, outcome.value), metrics(7));
    assert!(verify(&outcome, 30, 2, "x").is_ok());
    assert_eq!(
        verify(&outcome, 31, 2, "x").unwrap_err().message(),
        "x returned an incorrect query result"
    );
    let known = selection_result(vec![span(1, 3)], &value).unwrap();
    assert_eq!(known.selector_metrics, metrics(0));
    assert_eq!(
        pipeline_result(9, 8, &filter, &value).unwrap_err(),
        StudyError::PipelineRowsDiffer
    );
    assert_eq!(
        pipeline_result(9, 9, &value, &value).unwrap_err(),
        StudyError::FilterNotRanges
    );
    assert_eq!(
        pipeline_result(9, 9, &filter, &filter).unwrap_err(),
        StudyError::AggregateNotSum
    );
    let parquet = parquet_outcome(ParquetAggregate {
        sum: 1,
        matched_rows: 2,
        bytes_read: 3,
        unique_bytes: 4,
        read_calls: 5,
        timestamp_values_examined: 6,
        page_index_entries_examined: 7,
        candidate_pages: 8,
        boundary_order_used: true,
    });
    assert_eq!(parquet.selector.delivered_bytes, 3);
    assert_eq!((parquet.selector_decoded_rows, parquet.value_decoded_rows), (6, 2));
}

#[test]
fn fingerprints_of_parts_are_those_of_the_whole() {
    let empty = primitive_rule_fingerprint(&[]);
    assert_eq!(empty, 0xcbf2_9ce4_8422_2325);
    assert_eq!(primitive_rule_fingerprint(&[b"a"]), (empty ^ 97).wrapping_mul(0x1000_0000_01b3));
    assert_eq!(
        primitive_rule_fingerprint(&[b"fo", b"obar"]),
        fingerprint(empty, b"foobar")
    );
}

#[test]
fn pipelines_sum_what_their_predicates_select() {
    let keys: Vec<Option<i64>> =
        (0..400).map(|row| (row % 13 != 5).then_some((row * 7 % 90) as i64)).collect();
    let values: Vec<Option<i64>> =
        (0..400).map(|row| (row % 11 != 3).then_some(1_000 - row as i64)).collect();
    let nullable = |child: Recipe| Recipe::Nullable { rank_interval: 256, values: Box::new(child) };
    let selector = encode(&nullable(Recipe::BitPack), InputColumn::nullable(keys.clone())).unwrap();
    let value =
        encode(&nullable(Recipe::For(Box::new(Recipe::BitPack))), InputColumn::nullable(values.clone()))
            .unwrap();
    for predicate in predicates(&keys).unwrap() {
        let (ranges, sum) = truth(&keys, &values, &predicate).unwrap();
        let matched = selected_rows(&ranges);
        for plan in [ValuePlan::Selective, ValuePlan::Fused] {
            let known = known_selection(&value, &ranges, plan).unwrap();
            assert_eq!(known.sum, sum);
            assert_eq!(
                known.value_decoded_rows,
                if plan == ValuePlan::Fused { 400 } else { matched }
            );
            assert_eq!(known.selector_decoded_rows, 0);
            assert_eq!(known_selection_untracked(&value, &ranges, plan).unwrap().sum, sum);
            for filter in [FilterPlan::Compiled, FilterPlan::FullScan] {
                let plans = PipelinePlans { value: plan, filter };
                let result =
                    complete_query(&selector, &value, predicate.low, predicate.high, plans)
                        .unwrap();
                assert_eq!((&result.ranges, result.sum), (&ranges, sum));
                assert_eq!(result.selector_decoded_rows, 400);
                assert!(result.selector_metrics.delivered_bytes > 0);
                assert!(result.value_primitive_values_read > 0 || matched == 0);
                let (low, high) = (predicate.low, predicate.high);
                let plain =
                    complete_query_untracked(&selector, &value, low, high, plans).unwrap();
                assert_eq!(plain.sum, sum);
                assert_eq!(plain.selector_metrics, metrics(0));
            }
        }
    }
    let plans = PipelinePlans { value: ValuePlan::Selective, filter: FilterPlan::Compiled };
    let short = encode(&Recipe::BitPack, InputColumn::dense(vec![1, 2])).unwrap();
    assert!(matches!(
        complete_query(&selector, &short, 0, 1, plans),
        Err(PipelineError::Study(StudyError::PipelineRowsDiffer))
    ));
    assert!(matches!(
        complete_query(&selector, &value, 2, 1, plans),
        Err(PipelineError::Access(Error::BetweenBoundsInvalid))
    ));
}

#[test]
fn a_compiled_filter_decodes_fewer_rows_than_a_scan() {
    let rows = 4_096;
    let value = encode(&Recipe::BitPack, InputColumn::dense((0..rows).collect())).unwrap();
    let delta = Recipe::UnsignedDelta { restart_interval: 128, deltas: Box::new(Recipe::BitPack) };
    let rising = encode(&Recipe::For(Box::new(Recipe::BitPack)), InputColumn::dense((0..rows).collect()));
    let late: Vec<Option<i64>> = (0..rows).map(|row| (row < 4_000).then_some(row)).collect();
    let nullable = Recipe::Nullable { rank_interval: 256, values: Box::new(Recipe::BitPack) };
    let blocks = InputColumn::dense((0..rows).map(|row| row % 128 * 3).collect());
    let codes = InputColumn::dense((0..rows).map(|row| row * 7 % 11 * 5).collect());
    let dictionary = Recipe::Dictionary(Box::new(Recipe::BitPack));
    let selectors = [
        (rising.unwrap(), FilterWay::Search { nulls: NullPlacement::NoNulls }, 26),
        (
            encode(&nullable, InputColumn::nullable(late)).unwrap(),
            FilterWay::Search { nulls: NullPlacement::Last },
            26,
        ),
        (encode(&delta, blocks).unwrap(), FilterWay::Blocks { max_rows: 128 }, 512),
        (
            encode(&dictionary, codes).unwrap(),
            FilterWay::Translate { ids: NodeId(0), dictionary: FieldId(1), entries: 11 },
            4_096,
        ),
    ];
    for (selector, way, most) in selectors {
        match (choose_filter(&selector), way) {
            (FilterWay::Translate { entries, .. }, FilterWay::Translate { entries: wanted, .. }) => {
                assert_eq!(entries, wanted);
            }
            (found, wanted) => assert_eq!(found, wanted),
        }
        for (low, high) in [(0, 4_095), (30, 40), (31, 31), (-9, -1), (5_000, 6_000)] {
            let run = |filter: FilterPlan| {
                let plans = PipelinePlans { value: ValuePlan::Selective, filter };
                complete_query(&selector, &value, low, high, plans).unwrap()
            };
            let (compiled, scan) = (run(FilterPlan::Compiled), run(FilterPlan::FullScan));
            assert_eq!((&compiled.ranges, compiled.sum), (&scan.ranges, scan.sum));
            assert_eq!(scan.selector_decoded_rows, 4_096);
            assert!(compiled.selector_decoded_rows <= most);
            let read = compiled.selector_metrics.logical_bytes;
            assert!(read <= scan.selector_metrics.logical_bytes);
            if most < 100 {
                assert!(read < scan.selector_metrics.logical_bytes / 10);
            }
            let query = Query::Filter { predicate: Predicate::Between { low, high } };
            let plan = compile(&selector, query.clone()).unwrap();
            match (&plan.nodes[1].op, choose_filter(&selector)) {
                (PlanOp::SearchMonotone { nulls }, FilterWay::Search { nulls: found }) => {
                    assert_eq!(*nulls, found);
                }
                (PlanOp::SearchPiecewiseMonotone { max_rows }, found) => {
                    assert_eq!(FilterWay::Blocks { max_rows: *max_rows }, found);
                }
                (
                    PlanOp::TranslateDictionaryRange { dictionary, entries },
                    FilterWay::Translate { dictionary: field, entries: count, .. },
                ) => assert_eq!((*dictionary, *entries), (field, count)),
                (op, way) => panic!("{op:?} is not {way:?}"),
            }
            let found = execute_compiled(&selector, &query, ClosureMode::Selective).unwrap();
            assert_eq!(found.answer, Answer::Ranges(scan.ranges.clone()));
            assert_eq!(found.decoded_rows, compiled.selector_decoded_rows);
            let plain = execute_interpreted(&selector, &query, ClosureMode::FullPage).unwrap();
            assert_eq!(found.answer, plain.answer);
        }
    }
}

#[test]
fn a_compiled_filter_of_codes_decodes_nothing_where_no_entry_matches() {
    let dictionary = Recipe::Dictionary(Box::new(Recipe::BitPack));
    let input = InputColumn::dense((0..256).map(|row| row * 7 % 11 * 5).collect());
    let column = encode(&dictionary, input).unwrap();
    let found = execute_filter(&column, 31, 34, ClosureMode::Selective).unwrap();
    assert_eq!((found.answer, found.decoded_rows), (Answer::Ranges(vec![]), 0));
    let found = execute_filter(&column, 35, 35, ClosureMode::Selective).unwrap();
    assert_eq!(found.decoded_rows, 256);
    assert!(matches!(
        execute_filter(&column, 2, 1, ClosureMode::Selective),
        Err(Error::BetweenBoundsInvalid)
    ));
    let mut session = ReadSession::new_untracked(&column.page, ClosureMode::Selective);
    let plain = filter_session(&column, 35, 35, &mut session).unwrap();
    assert_eq!((plain.answer, plain.metrics), (found.answer, metrics(0)));
    let count = Query::Sum { rows: span(0, 3) };
    let sum = execute_compiled(&column, &count, ClosureMode::Selective).unwrap();
    assert_eq!((sum.answer, sum.decoded_rows), (Answer::Sum(35 + 15), 3));
}

#[test]
fn a_compiled_filter_reads_wide_values_only_where_it_looks() {
    let recipe = Recipe::For(Box::new(Recipe::BitPack));
    let mut values: Vec<i64> = (0..64).collect();
    values.push(i64::MAX);
    values[0] = i64::MIN;
    let column = encode(&recipe, InputColumn::dense(values)).unwrap();
    assert_eq!(
        choose_filter(&column),
        FilterWay::Search { nulls: NullPlacement::NoNulls }
    );
    let found = execute_filter(&column, i64::MIN, -1, ClosureMode::Selective);
    let scan = execute_interpreted(
        &column,
        &Query::Filter { predicate: Predicate::Between { low: i64::MIN, high: -1 } },
        ClosureMode::Selective,
    );
    assert!(scan.is_err());
    assert!(found.is_err() || found.unwrap().answer == Answer::Ranges(vec![span(0, 1)]));
}

#[test]
fn a_pipeline_over_wide_values_is_refused_or_right() {
    let selector = encode(&Recipe::BitPack, InputColumn::dense(vec![0, 1, 2])).unwrap();
    let recipe = Recipe::For(Box::new(Recipe::BitPack));
    let value = encode(&recipe, InputColumn::dense(vec![i64::MIN, -1, i64::MAX])).unwrap();
    let plans = |value| PipelinePlans { value, filter: FilterPlan::Compiled };
    let some = complete_query(&selector, &value, 0, 1, plans(ValuePlan::Selective)).unwrap();
    assert_eq!(some.sum, i64::MIN as i128 - 1);
    assert_eq!(some.ranges, [span(0, 2)]);
    for (high, plan) in [(1, ValuePlan::Fused), (2, ValuePlan::Selective)] {
        assert!(matches!(
            complete_query(&selector, &value, 0, high, plans(plan)),
            Err(PipelineError::Access(Error::BitUnpackTooLarge))
        ));
    }
}

#[test]
fn ranges_are_summed_one_behind_the_other() {
    let column = encode(&Recipe::BitPack, InputColumn::dense((0..100).collect())).unwrap();
    let sum = |ranges: &[Span], all_rows| {
        let mut session = ReadSession::new(&column.page, ClosureMode::Selective);
        execute_ranges(&column, ranges, all_rows, &mut session)
    };
    let parts = [span(1, 4), span(4, 4), span(90, 100)];
    let some = sum(&parts, false).unwrap();
    assert_eq!(some.answer, Answer::Sum(951));
    assert_eq!(some.decoded_rows, 13);
    let all = sum(&parts, true).unwrap();
    assert_eq!((all.answer, all.decoded_rows), (Answer::Sum(951), 100));
    assert_eq!(sum(&[], false).unwrap().answer, Answer::Sum(0));
    assert_eq!(sum(&[span(1, 4), span(3, 5)], false), Err(Error::QueryRowsInvalid));
    assert_eq!(sum(&[span(99, 101)], true), Err(Error::QueryRowsInvalid));
}
