use witness::access_compiler::{
    compile, derive_invariants, encode, execute_count_runs, execute_full_decode,
    execute_fused_decode, execute_interpreted, heldout_cases, input_for, Answer, ClosureMode,
    DecoderNode, EncodedColumn, Error, InputColumn, NullPlacement, PlanOp, Predicate, Query,
    ReadSession, Recipe, SerializedPage, Span,
};

fn span(start: usize, end: usize) -> Span {
    Span::new(start, end).unwrap()
}

fn packed(values: Vec<i64>) -> EncodedColumn {
    encode(&Recipe::BitPack, InputColumn::dense(values)).unwrap()
}

fn rows_of(column: &EncodedColumn) -> Vec<Option<i64>> {
    (0..column.truth.len())
        .map(|row| {
            match execute_interpreted(column, &Query::Get { row }, ClosureMode::Selective)
                .unwrap()
                .answer
            {
                Answer::Value(value) => value,
                other => panic!("not a value: {other:?}"),
            }
        })
        .collect()
}

#[test]
fn every_recipe_gives_back_the_values() {
    for case in heldout_cases() {
        let input = input_for(&case, 300);
        let values = input.values.clone();
        let column = encode(&case.recipe, input).unwrap();
        assert_eq!(column.truth, values, "{}", case.name());
        assert_eq!(rows_of(&column), values, "{}", case.name());
    }
}

#[test]
fn every_way_to_answer_gives_the_same_answer() {
    for case in heldout_cases() {
        let column = encode(&case.recipe, input_for(&case, 200)).unwrap();
        for query in [
            Query::Get { row: 117 },
            Query::Sum { rows: span(13, 150) },
            Query::Between { rows: span(0, 200), low: 5, high: 60 },
            Query::Filter { predicate: Predicate::Between { low: 5, high: 60 } },
            Query::Filter { predicate: Predicate::Equals { value: 7 } },
            Query::Count { predicate: Predicate::Equals { value: 7 } },
        ] {
            let one = execute_interpreted(&column, &query, ClosureMode::Selective).unwrap();
            let two = execute_full_decode(&column, &query, ClosureMode::Selective).unwrap();
            let three = execute_fused_decode(&column, &query, ClosureMode::FullPage).unwrap();
            assert_eq!(one.answer, two.answer, "{} {query:?}", case.name());
            assert_eq!(one.answer, three.answer, "{} {query:?}", case.name());
            assert_eq!(three.metrics.delivered_bytes, column.page.bytes().len());
        }
    }
}

#[test]
fn a_framed_page_holds_its_values_compressed() {
    let values: Vec<i64> = (0..4_000).map(|row| row % 3).collect();
    let plain = packed(values.clone());
    let framed = encode(
        &Recipe::Frame(Box::new(Recipe::BitPack)),
        InputColumn::dense(values.clone()),
    )
    .unwrap();
    assert_eq!(framed.page.layout().frames.len(), 1);
    let frame = framed.page.layout().frames[0];
    assert!(frame.compressed_length < frame.decoded_length);
    assert!(framed.page.bytes().len() < plain.page.bytes().len());
    let stored = framed.page.bytes();
    let kept = stored[frame.offset..frame.offset + frame.compressed_length].to_vec();
    assert_eq!(
        zstd::bulk::decompress(&kept, frame.decoded_length).unwrap().len(),
        frame.decoded_length
    );
    let sum = execute_interpreted(
        &framed,
        &Query::Sum { rows: span(0, 4_000) },
        ClosureMode::Selective,
    )
    .unwrap();
    assert_eq!(sum.answer, Answer::Sum(values.iter().map(|value| *value as i128).sum()));
    assert_eq!(sum.metrics.frames_decoded, 1);
}

#[test]
fn a_page_is_read_back_from_its_bytes() {
    let column = encode(
        &Recipe::Nullable { rank_interval: 8, values: Box::new(Recipe::BitPack) },
        InputColumn::nullable(vec![None, Some(3), Some(5), None, Some(9)]),
    )
    .unwrap();
    let page = SerializedPage::parse(column.page.bytes().to_vec()).unwrap();
    assert_eq!(page.bytes(), column.page.bytes());
    assert_eq!(page.layout().fields.len(), column.page.layout().fields.len());
    assert_eq!(page.invariants(), column.page.invariants());
    assert_eq!(page.invariants().null_placement, NullPlacement::Arbitrary);
    assert!(page.invariants().non_decreasing_non_null);
    assert!(!page.invariants().non_decreasing);
}

#[test]
fn a_damaged_page_is_refused() {
    let column = packed(vec![1, 2, 3]);
    let good = column.page.bytes().to_vec();
    let parse = |bytes: Vec<u8>| SerializedPage::parse(bytes).unwrap_err();
    assert_eq!(parse(Vec::new()), Error::InvalidMagic);
    let mut other = good.clone();
    other[0] = b'X';
    assert_eq!(parse(other), Error::InvalidMagic);
    let mut other = good.clone();
    other[8] = 9;
    assert_eq!(parse(other), Error::UnsupportedVersion);
    assert_eq!(parse(good[..36].to_vec()), Error::HeaderTruncated);
    let mut other = good.clone();
    other.push(0);
    assert_eq!(parse(other), Error::InvalidLength);
    let header = column.page.layout().fields[0].length;
    let mut other = good.clone();
    other[header - 9] ^= 1;
    let refused = parse(other);
    assert!(refused == Error::ChecksumMismatch || refused == Error::UnknownInvariantFlags);
}

#[test]
fn a_selective_read_delivers_less_than_the_page() {
    let column = packed((0..16_384).collect());
    let one = execute_interpreted(&column, &Query::Get { row: 9_000 }, ClosureMode::Selective)
        .unwrap();
    assert_eq!(one.answer, Answer::Value(Some(9_000)));
    assert_eq!(one.decoded_rows, 1);
    assert!(one.metrics.delivered_bytes < column.page.bytes().len() / 4);
    let all =
        execute_interpreted(&column, &Query::Get { row: 9_000 }, ClosureMode::FullPage).unwrap();
    assert_eq!(all.metrics.delivered_bytes, column.page.bytes().len());
}

#[test]
fn a_session_over_other_bytes_answers_the_same() {
    let column = packed(vec![4, 8, 15, 16, 23, 42]);
    let mut backing = vec![7_u8; 64];
    backing.extend_from_slice(column.page.bytes());
    backing.push(1);
    let field = match column.decoder.nodes()[0] {
        DecoderNode::BitUnpack { stream, .. } => stream,
        ref other => panic!("not packed: {other:?}"),
    };
    let length = column.page.layout().fields[field.0].length;
    let mut mapped =
        ReadSession::from_bytes(&column.page, ClosureMode::Selective, &backing, 64).unwrap();
    let mut plain = ReadSession::new(&column.page, ClosureMode::Selective);
    for at in 0..length {
        assert_eq!(mapped.read_u8(field, at).unwrap(), plain.read_u8(field, at).unwrap());
    }
    assert_eq!(mapped.metrics(), plain.metrics());
    assert_eq!(plain.read_u8(field, length).unwrap_err(), Error::ReadExceedsField(field.0));
    let short = &backing[..70];
    assert!(matches!(
        ReadSession::from_bytes(&column.page, ClosureMode::Selective, short, 64),
        Err(Error::MappedOutside)
    ));
}

#[test]
fn an_untracked_session_counts_nothing() {
    let column = packed(vec![1, 2, 3]);
    let mut session = ReadSession::new_untracked(&column.page, ClosureMode::Selective);
    let field = match column.decoder.nodes()[0] {
        DecoderNode::BitUnpack { stream, .. } => stream,
        ref other => panic!("not packed: {other:?}"),
    };
    session.read_u8(field, 0).unwrap();
    assert_eq!(session.metrics().logical_bytes, 0);
    assert!(session.transferred_ranges().is_empty());
}

#[test]
fn columns_that_have_no_encoding_are_refused() {
    let refuse = |recipe: &Recipe, input: InputColumn| encode(recipe, input).unwrap_err();
    let pack = || Box::new(Recipe::BitPack);
    assert_eq!(refuse(&Recipe::BitPack, InputColumn::dense(vec![])), Error::EmptyColumn);
    assert_eq!(
        refuse(&Recipe::BitPack, InputColumn::nullable(vec![None])),
        Error::NullInDense
    );
    assert_eq!(
        refuse(&Recipe::BitPack, InputColumn::dense(vec![1]).with_patch_rows(vec![1])),
        Error::PatchRowOutside
    );
    assert_eq!(
        refuse(
            &Recipe::UnsignedDelta { restart_interval: 128, deltas: pack() },
            InputColumn::dense(vec![3, 2]),
        ),
        Error::UnsignedDeltaDecreases
    );
    assert_eq!(
        refuse(
            &Recipe::Delta { restart_interval: 0, deltas: pack() },
            InputColumn::dense(vec![3, 2]),
        ),
        Error::DeltaInterval
    );
    assert_eq!(
        refuse(
            &Recipe::Rle { index_interval: 0, values: pack() },
            InputColumn::dense(vec![3, 2]),
        ),
        Error::RleInterval
    );
    assert_eq!(
        refuse(
            &Recipe::Nullable { rank_interval: 0, values: pack() },
            InputColumn::dense(vec![3, 2]),
        ),
        Error::NullableInterval
    );
    assert_eq!(
        refuse(
            &Recipe::Nullable { rank_interval: 8, values: pack() },
            InputColumn::nullable(vec![None, None]),
        ),
        Error::AllNull
    );
}

#[test]
fn queries_outside_the_rows_are_refused() {
    let column = packed(vec![1, 2, 3]);
    let refuse = |query: Query| {
        execute_interpreted(&column, &query, ClosureMode::Selective).unwrap_err()
    };
    assert_eq!(refuse(Query::Get { row: 3 }), Error::GetRowOutside);
    assert_eq!(refuse(Query::Sum { rows: span(1, 4) }), Error::QueryRowsInvalid);
    assert_eq!(
        refuse(Query::Between { rows: span(0, 3), low: 2, high: 1 }),
        Error::BetweenBoundsInvalid
    );
    assert_eq!(
        compile(&column, Query::Count { predicate: Predicate::Between { low: 1, high: 2 } })
            .unwrap_err(),
        Error::CountBetweenUnplanned
    );
}

#[test]
fn a_filter_finds_the_rows_that_match() {
    let column = encode(
        &Recipe::Nullable { rank_interval: 8, values: Box::new(Recipe::BitPack) },
        InputColumn::nullable(vec![Some(1), Some(2), None, Some(2), Some(9), Some(2), Some(2)]),
    )
    .unwrap();
    let query = Query::Filter { predicate: Predicate::Equals { value: 2 } };
    let found = execute_interpreted(&column, &query, ClosureMode::Selective).unwrap();
    assert_eq!(found.answer, Answer::Ranges(vec![span(1, 2), span(3, 4), span(5, 7)]));
    let sum = execute_interpreted(
        &column,
        &Query::Sum { rows: span(0, 7) },
        ClosureMode::Selective,
    )
    .unwrap();
    assert_eq!(sum.answer, Answer::Sum(18));
    let null = execute_interpreted(&column, &Query::Get { row: 2 }, ClosureMode::Selective);
    assert_eq!(null.unwrap().answer, Answer::Value(None));
}

#[test]
fn runs_are_counted_without_decoding_their_rows() {
    let values: Vec<i64> = (0..1_000).map(|row| row / 100).collect();
    let runs = encode(
        &Recipe::Rle { index_interval: 4, values: Box::new(Recipe::BitPack) },
        InputColumn::dense(values.clone()),
    )
    .unwrap();
    let flat = packed(values);
    let query = Query::Count { predicate: Predicate::Equals { value: 3 } };
    let plan = compile(&runs, query).unwrap();
    assert!(matches!(plan.nodes.last().unwrap().op, PlanOp::CountRuns { .. }));
    let plan = compile(&flat, query).unwrap();
    assert!(matches!(plan.nodes.last().unwrap().op, PlanOp::CountExact));
    let fast = execute_count_runs(&runs, 3, ClosureMode::FullPage).unwrap();
    let slow = execute_interpreted(&flat, &query, ClosureMode::FullPage).unwrap();
    assert_eq!(fast.answer, Answer::Count(100));
    assert_eq!(slow.answer, fast.answer);
    assert_eq!(fast.decoded_rows, 10);
    assert_eq!(
        execute_count_runs(&flat, 3, ClosureMode::FullPage).unwrap_err(),
        Error::CountNeedsRuns
    );
}

#[test]
fn plans_search_only_where_order_is_proved() {
    let rising: Vec<i64> = (0..500).map(|row| row * 3).collect();
    let query = Query::Filter { predicate: Predicate::Between { low: 30, high: 90 } };
    let ordered = encode(
        &Recipe::UnsignedDelta { restart_interval: 128, deltas: Box::new(Recipe::BitPack) },
        InputColumn::dense(rising.clone()),
    )
    .unwrap();
    let plan = compile(&ordered, query).unwrap();
    assert!(plan.nodes.iter().any(|node| matches!(node.op, PlanOp::SearchMonotone { .. })));
    let facts = derive_invariants(
        &ordered.decoder,
        ordered.page.layout(),
        ordered.page.invariants(),
    )
    .unwrap();
    assert_eq!(
        facts.root_monotone_nulls(ordered.decoder.root()),
        Some(NullPlacement::NoNulls)
    );
    assert!(plan.check_authorization(&facts).is_ok());
    assert!(plan.validate().is_ok());
    let mut mixed = rising;
    mixed.swap(0, 400);
    let scattered = packed(mixed);
    let plan = compile(&scattered, query).unwrap();
    assert!(plan.nodes.iter().all(|node| !node.op.skips_scan_work()));
}

#[test]
fn values_read_together_are_those_read_one_by_one() {
    let packed = packed((0..700).map(|row| row * row % 1_021).collect());
    let DecoderNode::BitUnpack { stream, width, miniblock_rows, miniblock_bytes, .. } =
        *packed.decoder.node(packed.decoder.root()).unwrap()
    else {
        panic!("not packed");
    };
    let mut session = ReadSession::new(&packed.page, ClosureMode::Selective);
    for (start, end) in [(0, 700), (5, 5), (127, 129), (256, 400), (699, 700)] {
        let read = session
            .read_bit_values(stream, span(start, end), width, miniblock_rows, miniblock_bytes)
            .unwrap();
        assert_eq!(read.len(), end - start);
        for (index, value) in read.iter().enumerate() {
            let row = start + index;
            let alone = session.read_bits(stream, row, width, miniblock_rows, miniblock_bytes);
            assert_eq!(alone.unwrap(), *value);
            assert_eq!(*value, (row * row % 1_021) as u64);
            assert!(*value < 1 << width);
        }
    }
    assert_eq!(session.read_bit_values(stream, span(3, 7), 0, 0, 0).unwrap(), [0; 4]);
    for end in [3, 7] {
        assert!(matches!(
            session.read_bit_values(stream, span(3, end), 65, miniblock_rows, miniblock_bytes),
            Err(Error::InvalidBitParameters)
        ));
    }
    assert!(session
        .read_bit_values(stream, span(0, 9_000), width, miniblock_rows, miniblock_bytes)
        .is_err());
}

#[test]
fn a_session_reads_values_in_blocks() {
    let packed = packed((0..300).map(|row| row % 7).collect());
    let DecoderNode::BitUnpack { stream, width, miniblock_rows, miniblock_bytes, .. } =
        *packed.decoder.node(packed.decoder.root()).unwrap()
    else {
        panic!("not packed");
    };
    let mut session = ReadSession::new(&packed.page, ClosureMode::Selective);
    let read = session
        .read_bit_values(stream, span(126, 131), width, miniblock_rows, miniblock_bytes)
        .unwrap();
    assert_eq!(read, [0, 1, 2, 3, 4]);

    let dictionary =
        encode(&Recipe::Dictionary(Box::new(Recipe::BitPack)), InputColumn::dense(vec![9, -4, 9, 7]))
            .unwrap();
    let node = dictionary.decoder.node(dictionary.decoder.root()).unwrap();
    let DecoderNode::Dictionary { dictionary: table, ids, .. } = *node else {
        panic!("no dictionary");
    };
    assert_eq!(node.children(), [ids]);
    let mut session = ReadSession::new(&dictionary.page, ClosureMode::Selective);
    assert_eq!(session.read_i64_values(table, 0, 3).unwrap(), [-4, 7, 9]);
    assert_eq!(session.read_i64_values(table, 1, 2).unwrap(), [7]);
    assert_eq!(session.read_i64_values(table, 2, 1), Err(Error::InvalidFieldRange));
}

fn wide(recipe: Recipe) -> EncodedColumn {
    let values = vec![i64::MIN, -1, i64::MAX, i64::MAX];
    encode(&recipe, InputColumn::dense(values)).unwrap()
}

#[test]
fn numbers_too_large_between_are_refused_and_never_others() {
    let offsets = wide(Recipe::For(Box::new(Recipe::BitPack)));
    let get = |row| {
        execute_interpreted(&offsets, &Query::Get { row }, ClosureMode::Selective)
            .map(|found| found.answer)
    };
    assert_eq!(get(0), Ok(Answer::Value(Some(i64::MIN))));
    assert_eq!(get(1), Ok(Answer::Value(Some(-1))));
    assert_eq!(get(2), Err(Error::BitUnpackTooLarge));
    let query = Query::Sum { rows: span(0, 2) };
    let some = execute_interpreted(&offsets, &query, ClosureMode::Selective).unwrap();
    assert_eq!(some.answer, Answer::Sum(i64::MIN as i128 - 1));
    assert_eq!(
        execute_full_decode(&offsets, &query, ClosureMode::Selective).unwrap_err(),
        Error::BitUnpackTooLarge
    );
}

#[test]
fn counts_by_runs_of_wide_values_are_refused_or_right() {
    let runs = Recipe::Rle {
        index_interval: 4,
        values: Box::new(Recipe::Dictionary(Box::new(Recipe::BitPack))),
    };
    let listed = wide(runs);
    let count = execute_count_runs(&listed, i64::MAX, ClosureMode::Selective).unwrap();
    assert_eq!(count.answer, Answer::Count(2));
    let offsets = wide(Recipe::Rle {
        index_interval: 4,
        values: Box::new(Recipe::For(Box::new(Recipe::BitPack))),
    });
    assert_eq!(
        execute_count_runs(&offsets, i64::MAX, ClosureMode::Selective).unwrap_err(),
        Error::BitUnpackTooLarge
    );
}

#[test]
fn the_page_of_every_recipe_is_read_back() {
    for case in heldout_cases() {
        let column = encode(&case.recipe, input_for(&case, 300)).unwrap();
        let page = SerializedPage::parse(column.page.bytes().to_vec()).unwrap();
        assert_eq!(page.invariants(), column.page.invariants(), "{}", case.name());
        let (read, made) = (page.layout(), column.page.layout());
        assert_eq!(read.metadata, made.metadata);
        assert_eq!(read.frames, made.frames);
        assert_eq!(read.dependencies, made.dependencies);
        assert_eq!(read.file_length, made.file_length);
        assert_eq!(read.fields.len(), made.fields.len());
        for (index, (one, other)) in read.fields.iter().zip(&made.fields).enumerate() {
            assert_eq!(one.id, other.id);
            assert_eq!(one.length, other.length);
            assert_eq!(one.alignment, other.alignment);
            assert_eq!(one.read_granularity, other.read_granularity);
            assert_eq!(one.location, other.location);
            if index > 0 {
                assert_eq!(one.name, format!("field_{index}"));
            }
        }
    }
}

#[test]
fn every_changed_byte_of_a_header_is_noticed() {
    let column = encode(
        &Recipe::Nullable { rank_interval: 8, values: Box::new(Recipe::BitPack) },
        InputColumn::nullable(vec![None, Some(3), Some(5), None, Some(9)]),
    )
    .unwrap();
    let good = column.page.bytes().to_vec();
    let header = column.page.layout().fields[0].length;
    for at in (0..8).chain(24..header) {
        for change in [1_u8, 0x80, 0xff] {
            let mut other = good.clone();
            other[at] ^= change;
            assert!(SerializedPage::parse(other).is_err(), "byte {at}");
        }
    }
    let mut other = good.clone();
    other[header] ^= 1;
    assert!(SerializedPage::parse(other).is_ok());
}

#[test]
fn a_fused_decode_reads_no_less_than_the_query_asks_for() {
    for case in heldout_cases() {
        let column = encode(&case.recipe, input_for(&case, 200)).unwrap();
        for query in [
            Query::Get { row: 117 },
            Query::Sum { rows: span(13, 150) },
            Query::Filter { predicate: Predicate::Between { low: 5, high: 60 } },
        ] {
            let some = execute_interpreted(&column, &query, ClosureMode::Selective).unwrap();
            let all = execute_fused_decode(&column, &query, ClosureMode::Selective).unwrap();
            assert_eq!(all.answer, some.answer, "{} {query:?}", case.name());
            assert!(all.metrics.logical_bytes >= some.metrics.logical_bytes);
            assert!(all.decoded_rows >= some.decoded_rows);
            assert_eq!(all.decoded_rows, 200);
        }
    }
}
