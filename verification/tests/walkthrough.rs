use witness::access_compiler::{
    compile, encode, execute_fused_decode, execute_interpreted, Answer, ClosureMode, EncodedColumn,
    Error, InputColumn, PlanOp, Query,
};
use witness::study::report::query_for_row;
use witness::study::walkthrough::same_answer;
use witness::study::{
    format_table, gather_files, parse_recipe, plan_strategy, push_query, read_claim_manifest,
    render_markdown, run_certificates, same_table, verify_columns, verify_tables,
    write_and_verify_formats, write_tables, ArtifactBytes, ColumnFiles, ExampleColumn, FormatError, FormatSizes, QueryRow, RenderError, StudyError,
    TableError, TableFiles,
};

const RECIPES: [&str; 5] = [
    "UnsignedDelta(256, BitPack)",
    "For(BitPack)",
    "Dictionary(BitPack)",
    "Nullable(256, For(BitPack))",
    "Frame(For(BitPack))",
];

const QUERIES: [&str; 6] = [
    "FILTER BETWEEN 1700000180 AND 1700000360",
    "SUM rows [4,12)",
    "FILTER status = 2",
    "GET row 7",
    "GET row 8 (null)",
    "GET patched row 9",
];

const CLAIMS: [&str; 21] = [
    "WitCensusColumns",
    "WitCensusSources",
    "WitCensusRowsMillions",
    "WitCensusMonotoneColumns",
    "WitSourceDirectBoundaryMedian",
    "WitSourceDirectBoundaryCiLow",
    "WitSourceDirectBoundaryCiHigh",
    "WitSourceDirectStorageMedian",
    "WitAccessPremium",
    "WitBloomAbsentCandidate",
    "WitBloomRareCandidate",
    "WitBloomFrequentCandidate",
    "WitBloomAbsentModeledBytes",
    "WitBloomRareModeledBytes",
    "WitBloomFrequentModeledBytes",
    "WitColdRequiredMb",
    "WitColdFileMb",
    "WitColdPageCalls",
    "WitColdCoalescedCalls",
    "WitColdPageOverFull",
    "WitColdCoalescedOverFull",
];

fn examples() -> Vec<ExampleColumn> {
    let column = |name: &str, values: Vec<Option<i64>>| ExampleColumn {
        name: name.to_string(),
        role: format!("role of {name}"),
        values,
    };
    vec![
        column("event_time", (0..16).map(|row| Some(1_700_000_000 + 60 * row)).collect()),
        column("meter", (0..16).map(|row| Some(100 + row % 8)).collect()),
        column("status", (0..16).map(|row| Some(1 + row / 4 % 3)).collect()),
        column("sparse_event", (0..16).map(|row| (row % 4 != 0).then_some(row * 10)).collect()),
        column("reading", (0..16).map(|row| Some(if row == 9 { 10_000 } else { row })).collect()),
    ]
}

fn columns(examples: &[ExampleColumn]) -> Vec<EncodedColumn> {
    examples
        .iter()
        .zip(RECIPES)
        .map(|(example, recipe)| {
            let recipe = parse_recipe(&recipe.chars().collect::<Vec<char>>()).unwrap();
            encode(&recipe, InputColumn::nullable(example.values.clone())).unwrap()
        })
        .collect()
}

fn queries(examples: &[ExampleColumn], columns: &[EncodedColumn]) -> Vec<QueryRow> {
    let mut rows = Vec::new();
    for text in QUERIES {
        let (case, query) = query_for_row(&text.to_string()).unwrap();
        let found = execute_interpreted(&columns[case], &query, ClosureMode::Selective).unwrap();
        let full = execute_fused_decode(&columns[case], &query, ClosureMode::Selective).unwrap();
        push_query(&mut rows, &columns[case], &examples[case].name, text, query, &found, &full)
            .unwrap();
    }
    rows
}

fn claims(names: &[&str]) -> witness::study::Claims {
    let mut text = String::from("name,value\n");
    for (index, name) in names.iter().enumerate() {
        text.push_str(&format!("{name},{}\n", 900 + index));
    }
    read_claim_manifest(text.as_bytes()).unwrap()
}

fn render(names: &[&str], queries: &[QueryRow]) -> Result<String, RenderError> {
    let examples = examples();
    let columns = columns(&examples);
    let certificates = run_certificates(&examples).unwrap();
    let formats = format_table(FormatSizes {
        csv: 11,
        raw: 12,
        raw_zstd: 13,
        pco: 14,
        parquet_dictionary: 15,
        parquet_delta: 16,
        orc: 17,
        witness: 18,
    });
    let artifacts = [ArtifactBytes { label: "CSV".to_string(), bytes: b"row,".to_vec() }];
    render_markdown(
        0xab,
        16,
        &examples,
        &columns,
        &formats,
        &artifacts,
        queries,
        &certificates,
        &claims(names),
    )
}

#[test]
fn the_walkthrough_tells_of_values_files_and_queries() {
    let examples = examples();
    let columns = columns(&examples);
    let rows = queries(&examples, &columns);
    let text = render(&CLAIMS, &rows).unwrap();
    let lines: Vec<&str> = text.lines().collect();
    assert_eq!(lines[0], "# Witness: one numerical example from values to storage to query");
    assert!(lines[4].ends_with("Rule fingerprint: `0x00000000000000ab`."));
    let has = |line: &str| assert!(lines.contains(&line), "{line} is absent from {text}");
    has("| 0 | 1700000000 | 100 | 1 | NULL | 0 |");
    has("| 9 | 1700000540 | 101 | 3 | 90 | 10000 |");
    has("| CSV | UTF-8 table | one 5-column table | 11 | [artifacts/example.csv](artifacts/example.csv) |");
    has("| Raw i64 + Zstd | level 3 per column | sum of 5 self-contained columns | 13 | [artifacts/rawi64-zstd.manifest.tsv](artifacts/rawi64-zstd.manifest.tsv) |");
    has("- **CSV:** `4` bytes begin `72 6f 77 2c`.");
    has(&format!(
        "| `event_time` | role of event_time | `{}` | {} | non-decreasing=true, non-decreasing non-null=true, null placement=NoNulls |",
        columns[0].recipe.name(),
        columns[0].page.bytes().len(),
    ));
    for column in &columns {
        for (id, node) in column.decoder.nodes().iter().enumerate() {
            has(&format!("- node {id}: `{node:?}`"));
        }
        for field in &column.page.layout().fields {
            let begin = format!("| {} | `{}` | {} | ", field.id.0, field.name, field.length);
            assert!(lines.iter().any(|line| line.starts_with(&begin)), "{begin}");
        }
    }
    assert!(text.contains("| magic=ACPAGE01, version=3, fields="));
    for row in &rows {
        has(&format!(
            "| `{}`: {} | `{}` | {} | `{:?}` | {} | {} | {} | {} | {} |",
            row.column,
            row.query,
            row.answer,
            row.strategy,
            row.guarantee,
            row.logical_bytes,
            row.delivered_bytes,
            row.transferred_bytes,
            row.decoded_rows,
            row.full_decode_bytes,
        ));
        has(&format!("**`{}` / {}**", row.column, row.query));
    }
    has("| `status` | min/max | 99 | 64 | `empty` | 0 | `empty` |");
    has("| `status` | min/max | 3 | 64 | `2` | 4 | `[8,12)` |");
    has("| invariant census | 900 columns, 901 independent sources, 902 million rows; 903% globally monotone | useful order evidence exists, but is not universal |");
    assert!(text.contains("latency ratios 919x / 920x / 1x |"));
    assert_eq!(
        *lines.last().unwrap(),
        "- When no fact authorizes a narrower algorithm, the compiler chooses scan/decode behavior."
    );
    assert!(text.ends_with("behavior.\n"));
}

#[test]
fn a_walkthrough_needs_its_queries_and_claims() {
    let examples = examples();
    let columns = columns(&examples);
    let mut rows = queries(&examples, &columns);
    let absent = render(&CLAIMS[..20], &rows).unwrap_err();
    assert!(
        matches!(&absent, RenderError::Claim(TableError::ClaimAbsent(name)) if name == CLAIMS[20])
    );
    rows[2].query = "GET row 70".to_string();
    let unknown = render(&CLAIMS[..20], &rows).unwrap_err();
    assert!(matches!(unknown, RenderError::Query(StudyError::UnknownDocumentedQuery)));
}

#[test]
fn documented_queries_are_answered_as_by_a_full_decode() {
    let examples = examples();
    let columns = columns(&examples);
    let rows = queries(&examples, &columns);
    let answers: Vec<&str> = rows.iter().map(|row| row.answer.as_str()).collect();
    assert_eq!(answers, ["[3,7)", "828", "[4,8)", "70", "NULL", "10000"]);
    let get = |row| {
        execute_interpreted(&columns[1], &Query::Get { row }, ClosureMode::Selective).unwrap()
    };
    let mut output = Vec::new();
    let other = push_query(
        &mut output,
        &columns[1],
        "meter",
        "GET",
        Query::Get { row: 1 },
        &get(1),
        &get(2),
    );
    assert!(matches!(other, Err(RenderError::Disagreement(name)) if name == "meter"));
    let outside =
        push_query(&mut output, &columns[1], "meter", "GET", Query::Get { row: 16 }, &get(1), &get(1));
    assert!(matches!(outside, Err(RenderError::Plan(_))));
    assert!(output.is_empty());
    assert!(same_answer(&Answer::Sum(3), &Answer::Sum(3)));
    assert!(!same_answer(&Answer::Sum(3), &Answer::Count(3)));
    assert!(!same_answer(&Answer::Value(None), &Answer::Value(Some(0))));
}

#[test]
fn strategies_leave_out_the_header() {
    let columns = columns(&examples());
    for (column, query) in [
        (&columns[0], query_for_row(&QUERIES[0].to_string()).unwrap().1),
        (&columns[2], query_for_row(&QUERIES[2].to_string()).unwrap().1),
        (&columns[3], Query::Get { row: 7 }),
    ] {
        let plan = compile(column, query).unwrap();
        let expected: Vec<String> = plan
            .nodes
            .iter()
            .filter(|node| !matches!(node.op, PlanOp::LoadMetadata { .. }))
            .map(|node| format!("{:?}", node.op))
            .collect();
        assert_eq!(plan_strategy(&plan), expected.join(" -> "));
    }
}

#[test]
fn probes_are_refined_to_the_rows_that_match() {
    let rows = run_certificates(&examples()).unwrap();
    let exact: Vec<(&str, i64, &str)> = rows
        .iter()
        .map(|row| (row.certificate.as_str(), row.target, row.exact_matches.as_str()))
        .collect();
    assert_eq!(
        exact,
        [
            ("Bloom", 99, "empty"),
            ("min/max", 99, "empty"),
            ("Bloom", 3, "[8,12)"),
            ("min/max", 3, "[8,12)"),
            ("Bloom", 1, "[0,4)|[12,16)"),
            ("min/max", 1, "[0,4)|[12,16)"),
            ("sparse fence", 1_700_000_420, "[7,8)"),
        ]
    );
    assert_eq!(rows[1].candidate_blocks, "empty");
    assert_eq!(rows[3].candidate_blocks, "2");
    assert_eq!(rows[5].candidate_blocks, "0|3");
    assert_eq!(rows[5].candidate_rows, 8);
    let mut unsorted = examples();
    unsorted[0].values[3] = Some(0);
    assert_eq!(run_certificates(&unsorted).unwrap_err(), Error::FenceDecreases);
    unsorted[2].values.clear();
    assert_eq!(run_certificates(&unsorted).unwrap_err(), Error::BloomArguments);
}

#[test]
fn files_are_checked_against_the_example() {
    let examples = examples();
    let files = write_and_verify_formats(&examples).unwrap();
    assert!(files.csv.starts_with(b"event_time,meter,status,sparse_event,reading\n1700000000,100,1,,0\n"));
    assert_eq!(write_tables(&examples), Some(files));
    let files = write_tables(&examples).unwrap();
    let mut other = examples.clone();
    other[4].values[9] = Some(9);
    let TableFiles { csv, parquet_dictionary, parquet_delta, orc } = &files;
    let others = write_tables(&other).unwrap();
    let verified = |csv: &[u8], dictionary: &[u8], delta: &[u8], orc: &[u8]| {
        verify_tables(csv, dictionary, delta, orc, &examples)
    };
    assert_eq!(verified(csv, parquet_dictionary, parquet_delta, orc), Ok(()));
    assert_eq!(
        verified(&others.csv, parquet_dictionary, parquet_delta, orc),
        Err(FormatError::CsvDiffers)
    );
    assert_eq!(
        verified(csv, &others.parquet_dictionary, parquet_delta, orc),
        Err(FormatError::ParquetDiffers)
    );
    assert_eq!(
        verified(csv, parquet_dictionary, &others.parquet_delta, orc),
        Err(FormatError::ParquetDiffers)
    );
    assert_eq!(
        verified(csv, parquet_dictionary, parquet_delta, &others.orc),
        Err(FormatError::OrcDiffers)
    );
    assert_eq!(
        verified(b"a,b,c,d,e\n1,2\n", parquet_dictionary, parquet_delta, orc),
        Err(FormatError::Unread(TableError::Unreadable))
    );
    other[0].values[0] = Some(1 << 40);
    other[0].values[1] = Some(-1);
    assert_eq!(write_and_verify_formats(&other), Err(FormatError::Unwritten));
    assert_eq!(write_and_verify_formats(&[]), Err(FormatError::Unwritten));
    let table: Vec<Vec<Option<i64>>> =
        examples.iter().map(|example| example.values.clone()).collect();
    assert!(same_table(&table, &examples));
    assert!(!same_table(&table, &other));
    assert!(!same_table(&table, &examples[..4]));
}

#[test]
fn files_are_gathered_where_all_were_written() {
    let files = write_tables(&examples()).unwrap();
    let TableFiles { csv, parquet_dictionary, parquet_delta, orc } = &files;
    let parts = |missing: usize| {
        let part = |index: usize, bytes: &Vec<u8>| (index != missing).then(|| bytes.clone());
        gather_files(part(0, csv), part(1, parquet_dictionary), part(2, parquet_delta), part(3, orc))
    };
    for missing in 0..4 {
        assert_eq!(parts(missing), None);
    }
    assert_eq!(parts(4), Some(files));
}

#[test]
fn files_of_single_columns_are_checked_and_listed() {
    let examples = &examples()[..2];
    let files = || -> Vec<ColumnFiles> {
        examples
            .iter()
            .enumerate()
            .map(|(index, example)| ColumnFiles {
                raw_bytes: 128 + index,
                raw: example.values.clone(),
                raw_zstd_bytes: 40 + index,
                raw_zstd: example.values.clone(),
                pco_bytes: 7 + index,
                pco: example.values.clone(),
            })
            .collect()
    };
    let found = verify_columns(examples, &files()).unwrap();
    assert_eq!(
        found.raw,
        (
            "column\tbytes\tartifact\nevent_time\t128\tevent_time.rawi64\n\
             meter\t129\tmeter.rawi64\nTOTAL\t257\t-\n"
                .to_string(),
            257
        )
    );
    assert!(found.raw_zstd.0.contains("meter\t41\tmeter.rawi64.zst\n"));
    assert_eq!(found.raw_zstd.1, 81);
    assert!(found.pco.0.contains("event_time\t7\tevent_time.pco\n"));
    assert_eq!(found.pco.1, 15);
    for kind in 0..3 {
        let mut others = files();
        let values = match kind {
            0 => &mut others[1].raw,
            1 => &mut others[1].raw_zstd,
            _ => &mut others[1].pco,
        };
        values[3] = None;
        assert_eq!(
            verify_columns(examples, &others),
            Err(FormatError::ColumnDiffers("meter".to_string()))
        );
        let mut large = files();
        match kind {
            0 => large[0].raw_bytes = usize::MAX,
            1 => large[0].raw_zstd_bytes = usize::MAX,
            _ => large[0].pco_bytes = usize::MAX,
        }
        assert_eq!(verify_columns(examples, &large), Err(FormatError::TotalOverflow));
    }
}
