use witness::access_compiler::{
    encode, execute_interpreted, execute_session, static_between, static_dictionary_filter,
    static_get, static_monotone_filter, static_piecewise_monotone_filter, static_sum, Answer,
    ClosureMode, EncodedColumn, Error, InputColumn, NullPlacement, Predicate, Query, ReadSession,
    Recipe, Span, StaticBitPack, StaticDelta, StaticDictionary, StaticFor, StaticNullable,
    StaticPatch, StaticRle,
};

type Codes = StaticBitPack<2, 8, 128, 128>;
type Offsets = StaticFor<1, Codes>;
type Identifiers = StaticBitPack<2, 2, 128, 32>;
type Restarts = StaticDelta<1, 128, true, StaticBitPack<2, 2, 128, 32>>;
type Runs = StaticRle<1, 2, 3, 32, StaticBitPack<3, 4, 128, 64>>;
type Patched = StaticPatch<1, 2, 3, 1, 32, StaticBitPack<4, 4, 128, 64>>;
type Optional = StaticNullable<1, 2, 64, StaticBitPack<3, 8, 128, 128>>;

fn span(start: usize, end: usize) -> Span {
    Span::new(start, end).unwrap()
}

fn interpreted(column: &EncodedColumn, query: Query) -> Answer {
    execute_interpreted(column, &query, ClosureMode::Selective).unwrap().answer
}

fn between(low: i64, high: i64) -> Query {
    Query::Filter { predicate: Predicate::Between { low, high } }
}

fn offsets() -> EncodedColumn {
    encode(
        &Recipe::For(Box::new(Recipe::BitPack)),
        InputColumn::dense((0..256).map(|row| 1_000 + row).collect()),
    )
    .unwrap()
}

#[test]
fn a_static_decoder_answers_as_the_interpreter() {
    let column = offsets();
    let mode = ClosureMode::Selective;
    let get = static_get::<Offsets>(&column, 17, mode).unwrap();
    assert_eq!(get.answer, Answer::Value(Some(1_017)));
    assert_eq!(get.answer, interpreted(&column, Query::Get { row: 17 }));
    let rows = span(100, 140);
    let sum = static_sum::<Offsets>(&column, rows, mode).unwrap();
    assert_eq!(sum.answer, Answer::Sum(40 * 1_000 + (100..140).sum::<i128>()));
    assert_eq!(sum.answer, interpreted(&column, Query::Sum { rows }));
    assert_eq!(sum.decoded_rows, 40);
    let found = static_between::<Offsets>(&column, rows, 1_110, 1_119, mode).unwrap();
    assert_eq!(found.answer, Answer::Ranges(vec![span(110, 120)]));
    assert_eq!(
        static_get::<Offsets>(&column, 256, mode).unwrap_err(),
        Error::StaticGetOutside
    );
    assert_eq!(
        static_sum::<Offsets>(&column, Span { start: 3, end: 257 }, mode).unwrap_err(),
        Error::StaticRowsInvalid
    );
    assert_eq!(
        static_between::<Offsets>(&column, rows, 2, 1, mode).unwrap_err(),
        Error::StaticBoundsInvalid
    );
}

#[test]
fn a_search_over_rising_values_finds_what_a_scan_finds() {
    let column = offsets();
    let mode = ClosureMode::Selective;
    for (low, high) in [(1_010, 1_019), (0, 999), (1_256, 2_000), (0, 2_000), (1_255, 1_255)] {
        let found =
            static_monotone_filter::<Offsets>(&column, low, high, NullPlacement::NoNulls, mode).unwrap();
        assert_eq!(found.answer, interpreted(&column, between(low, high)));
        assert!(found.decoded_rows <= 2 * 9);
        let pieces =
            static_piecewise_monotone_filter::<Offsets>(&column, low, high, 100, mode).unwrap();
        assert_eq!(pieces.answer, found.answer);
    }
    assert_eq!(
        static_monotone_filter::<Offsets>(&column, 1, 2, NullPlacement::Arbitrary, mode).unwrap_err(),
        Error::StaticMonotoneInvalid
    );
    assert_eq!(
        static_piecewise_monotone_filter::<Offsets>(&column, 1, 2, 0, mode).unwrap_err(),
        Error::StaticPiecewiseInvalid
    );
}

#[test]
fn a_dictionary_filter_searches_entries_and_scans_identifiers() {
    let values = (0..64).map(|row| [700, 30, 500, 30][row % 4]).collect();
    let column =
        encode(&Recipe::Dictionary(Box::new(Recipe::BitPack)), InputColumn::dense(values)).unwrap();
    let mode = ClosureMode::Selective;
    let found = static_dictionary_filter::<1, 3, Identifiers>(&column, 31, 500, mode).unwrap();
    assert_eq!(found.answer, interpreted(&column, between(31, 500)));
    assert_eq!(
        found.answer,
        Answer::Ranges((0..16).map(|k| span(4 * k + 2, 4 * k + 3)).collect())
    );
    assert_eq!(
        static_get::<StaticDictionary<1, 3, Identifiers>>(&column, 4, mode).unwrap().answer,
        Answer::Value(Some(700))
    );
    assert_eq!(
        static_dictionary_filter::<1, 3, Identifiers>(&column, 2, 1, mode).unwrap_err(),
        Error::StaticDictionaryInvalid
    );
}

#[test]
fn static_decoders_of_differences_runs_exceptions_and_nulls_agree() {
    let mode = ClosureMode::Selective;
    let everything = span(0, 192);
    let rising: Vec<i64> = (0..192).map(|row| 2 * row + row % 2).collect();
    let delta = encode(
        &Recipe::UnsignedDelta { restart_interval: 128, deltas: Box::new(Recipe::BitPack) },
        InputColumn::dense(rising),
    )
    .unwrap();
    let found = static_sum::<Restarts>(&delta, everything, mode).unwrap();
    assert_eq!(found.answer, interpreted(&delta, Query::Sum { rows: everything }));

    let stepped: Vec<i64> = (0..192).map(|row| 3 + 4 * (row / 64)).collect();
    let runs = encode(
        &Recipe::Rle { index_interval: 32, values: Box::new(Recipe::BitPack) },
        InputColumn::dense(stepped),
    )
    .unwrap();
    let found = static_sum::<Runs>(&runs, span(60, 70), mode).unwrap();
    assert_eq!(found.answer, Answer::Sum(4 * 3 + 6 * 7));
    assert_eq!(
        static_between::<Runs>(&runs, everything, 7, 7, mode).unwrap().answer,
        Answer::Ranges(vec![span(64, 128)])
    );

    let mut regular: Vec<i64> = (0..192).map(|row| row % 16).collect();
    regular[9] = 10_000;
    let patched = encode(
        &Recipe::Patch { index_interval: 32, values: Box::new(Recipe::BitPack) },
        InputColumn::dense(regular).with_patch_rows(vec![9]),
    )
    .unwrap();
    for row in [8, 9, 10] {
        assert_eq!(
            static_get::<Patched>(&patched, row, mode).unwrap().answer,
            interpreted(&patched, Query::Get { row })
        );
    }
    assert_eq!(
        static_sum::<Patched>(&patched, span(8, 11), mode).unwrap().answer,
        Answer::Sum(8 + 10_000 + 10)
    );

    let sparse: Vec<Option<i64>> =
        (0..192).map(|row| if row % 3 == 0 { None } else { Some(row) }).collect();
    let optional = encode(
        &Recipe::Nullable { rank_interval: 64, values: Box::new(Recipe::BitPack) },
        InputColumn::nullable(sparse),
    )
    .unwrap();
    for row in [0, 1, 66, 191] {
        assert_eq!(
            static_get::<Optional>(&optional, row, mode).unwrap().answer,
            interpreted(&optional, Query::Get { row })
        );
    }
    assert_eq!(
        static_sum::<Optional>(&optional, everything, mode).unwrap().answer,
        interpreted(&optional, Query::Sum { rows: everything })
    );
}

#[test]
fn a_session_answers_from_the_bytes_it_was_given() {
    let column = offsets();
    let query = Query::Sum { rows: span(10, 20) };
    let mut stored = vec![0_u8; 40];
    stored.extend_from_slice(column.page.bytes());
    let mut session =
        ReadSession::from_bytes(&column.page, ClosureMode::Selective, &stored, 40).unwrap();
    let narrow = execute_session(&column, &query, false, &mut session).unwrap();
    assert_eq!(narrow.answer, Answer::Sum(10 * 1_000 + (10..20).sum::<i128>()));
    assert_eq!(narrow.decoded_rows, 10);
    let mut session = ReadSession::new(&column.page, ClosureMode::FullPage);
    let wide = execute_session(&column, &query, true, &mut session).unwrap();
    assert_eq!(wide.answer, narrow.answer);
    assert_eq!(wide.decoded_rows, 256);
    assert_eq!(wide.metrics.delivered_bytes, column.page.bytes().len());
    let outside = Query::Get { row: 256 };
    assert!(execute_session(&column, &outside, false, &mut session).is_err());
}
