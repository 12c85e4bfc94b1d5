use witness::access_compiler::{
    compile, derive_invariants, execute_interpreted, Answer, Authorization, ClosureMode,
    ClosureSpec, Error, Predicate, Query, Recipe, Span,
};
use witness::study::json::{array, object, page_json, quote, run_json};
use witness::study::report::{
    answer_string, blocks_string, describe_field, describe_header, direct_field_bytes, hex_preview,
    i64_values, location_string, manifest, query_for_row, spans_string, table_row, u32_pairs,
    u32_values, value_string, Artifact,
};
use witness::study::request::{field, number_field, string_field, values_field};
use witness::study::{
    build, facts_json, parse_query, parse_recipe, plan_json, BuildError, StudyError,
};

fn chars(text: &str) -> Vec<char> {
    text.chars().collect()
}

fn text(list: Option<Vec<char>>) -> Option<String> {
    list.map(|list| list.into_iter().collect())
}

#[test]
fn recipes_are_written_as_nested_calls() {
    assert!(matches!(parse_recipe(&chars(" BitPack ")), Ok(Recipe::BitPack)));
    match parse_recipe(&chars("Frame( Delta(1024, BitPack) )")).unwrap() {
        Recipe::Frame(inner) => match *inner {
            Recipe::Delta { restart_interval, deltas } => {
                assert_eq!(restart_interval, 1024);
                assert!(matches!(*deltas, Recipe::BitPack));
            }
            _ => panic!("not a difference"),
        },
        _ => panic!("not a frame"),
    }
    assert!(matches!(
        parse_recipe(&chars("UnsignedDelta(256, For(BitPack))")),
        Ok(Recipe::UnsignedDelta { restart_interval: 256, .. })
    ));
    assert!(matches!(
        parse_recipe(&chars("Nullable(+8,Patch(4,Rle(2,Dictionary(BitPack))))")),
        Ok(Recipe::Nullable { rank_interval: 8, .. })
    ));
}

#[test]
fn recipes_that_make_no_sense_are_refused() {
    let refuse = |spec: &str| parse_recipe(&chars(spec)).err().unwrap();
    let says = |spec: &str| refuse(spec).message();
    let owned = |text: &str| text.to_string();
    assert_eq!(refuse(" For(BitPack "), StudyError::UnbalancedRecipe(owned("For(BitPack")));
    assert_eq!(says("For(BitPack"), "unbalanced recipe spec: For(BitPack");
    assert_eq!(refuse("Rle(BitPack)"), StudyError::IntervalAndChild(owned("Rle")));
    assert_eq!(says("Rle (BitPack)"), "Rle  needs an interval and a child recipe");
    assert_eq!(refuse("Rle(-4, BitPack)"), StudyError::BadInterval(owned("Rle"), owned("-4")));
    assert_eq!(says("Frame(Patch( x, BitPack))"), "Patch: bad interval  x");
    assert_eq!(refuse("Dictionary"), StudyError::ChildAbsent(owned("Dictionary")));
    assert_eq!(says("Frame"), "Frame needs a child recipe");
    assert_eq!(refuse("Nullable"), StudyError::IntervalAbsent(owned("Nullable")));
    assert_eq!(says("Delta"), "Delta needs (interval, child)");
    assert_eq!(refuse("Zip(BitPack)"), StudyError::UnknownRecipe(owned("Zip")));
    assert_eq!(says("Frame( Zip )"), "unknown recipe head Zip");
}

#[test]
fn fields_of_a_request_are_found_by_their_keys() {
    let request = chars(r#"{"values": [1, null, -3], "recipe": "BitPack", "query": {"kind": "get", "row": 2}}"#);
    assert_eq!(values_field(&request, "values"), Some(vec![Some(1), None, Some(-3)]));
    assert_eq!(text(string_field(&request, "recipe")), Some("BitPack".to_string()));
    assert_eq!(
        text(field(&request, "query")),
        Some(r#"{"kind": "get", "row": 2}"#.to_string())
    );
    assert_eq!(number_field(&request, "row"), Some(2));
    assert_eq!(number_field(&request, "kind"), None);
    assert_eq!(text(field(&request, "absent")), None);
    assert_eq!(values_field(&chars(r#"{"values": [ ]}"#), "values"), Some(vec![]));
    assert_eq!(values_field(&chars(r#"{"values": [1,x]}"#), "values"), None);
    assert_eq!(text(field(&chars(r#"{"a": {"b": 1"#), "a")), Some(String::new()));
    assert_eq!(
        number_field(&chars(r#"{"n": -9223372036854775808}"#), "n"),
        Some(i64::MIN)
    );
    assert_eq!(number_field(&chars(r#"{"n": 9223372036854775808}"#), "n"), None);
}

#[test]
fn queries_are_read_from_requests() {
    let ask = |query: &str| parse_query(&chars(&format!("{{\"query\": {query}}}")), 5);
    assert_eq!(ask(r#"{"kind": "get", "row": 3}"#), Ok(Query::Get { row: 3 }));
    assert_eq!(ask(r#"{"kind": "get"}"#), Ok(Query::Get { row: 0 }));
    let rows = Span::new(0, 5).unwrap();
    assert_eq!(ask(r#"{"kind": "sum"}"#), Ok(Query::Sum { rows }));
    assert_eq!(
        ask(r#"{"kind": "between", "low": -1, "high": 4}"#),
        Ok(Query::Between { rows, low: -1, high: 4 })
    );
    assert_eq!(
        ask(r#"{"kind": "filter_between", "low": 1, "high": 4}"#),
        Ok(Query::Filter { predicate: Predicate::Between { low: 1, high: 4 } })
    );
    assert_eq!(
        ask(r#"{"kind": "filter_equals", "value": 9}"#),
        Ok(Query::Filter { predicate: Predicate::Equals { value: 9 } })
    );
    let says = |query: &str| ask(query).unwrap_err().message();
    assert_eq!(
        ask(r#"{"kind": "between", "low": 1}"#),
        Err(StudyError::QueryBoundAbsent("between".to_string(), "high".to_string()))
    );
    assert_eq!(says(r#"{"kind": "between"}"#), "between needs \"low\"");
    assert_eq!(says(r#"{"kind": "filter_between", "low": 3}"#), "filter needs \"high\"");
    assert_eq!(says(r#"{"kind": "filter_equals"}"#), "filter needs \"value\"");
    assert_eq!(
        ask(r#"{"kind": "other"}"#),
        Err(StudyError::UnknownQueryKind("other".to_string()))
    );
    assert_eq!(says(r#"{"kind": "other"}"#), "unknown query kind other");
    assert_eq!(ask("{}"), Err(StudyError::QueryKindAbsent));
    assert_eq!(parse_query(&chars("{}"), 5), Err(StudyError::MissingQuery));
}

#[test]
fn a_request_is_encoded_and_run() {
    let request = chars(
        r#"{"values": [3, 4, 5], "recipe": "BitPack", "query": {"kind": "filter_between", "low": 4, "high": 9}}"#,
    );
    let column = build(&request).unwrap();
    let page = page_json(&column);
    assert!(page.starts_with("{\"page_bytes\":"), "{page}");
    assert!(page.contains("\"rows\":3,\"fields\":[{\"id\":0,"), "{page}");
    assert!(page.contains("\"checked_non_decreasing\":true"), "{page}");
    assert!(page.ends_with("\"checked_null_placement\":\"NoNulls\"}"), "{page}");
    let query = parse_query(&request, column.truth.len()).unwrap();
    let execution = execute_interpreted(&column, &query, ClosureMode::Selective).unwrap();
    let run = run_json(&execution, column.page.bytes().len());
    assert!(
        run.starts_with("{\"answer\":{\"kind\":\"ranges\",\"ranges\":[[1,3]],\"rows\":2},\"logical_bytes\":"),
        "{run}"
    );
    let get = execute_interpreted(&column, &Query::Get { row: 1 }, ClosureMode::Selective).unwrap();
    assert!(run_json(&get, 1).starts_with("{\"answer\":{\"kind\":\"value\",\"value\":4}"));
}

#[test]
fn a_request_without_its_parts_is_refused() {
    let refuse = |request: &str| build(&chars(request)).err().unwrap();
    assert_eq!(refuse("{}"), BuildError::Request(StudyError::MissingValues));
    assert_eq!(
        refuse(r#"{"values": [1]}"#),
        BuildError::Request(StudyError::MissingRecipe)
    );
    assert_eq!(
        refuse(r#"{"values": [], "recipe": "BitPack"}"#),
        BuildError::Encoding(Error::EmptyColumn)
    );
}

#[test]
fn text_is_quoted_for_the_reader() {
    assert_eq!(quote("a\"b\\c\nd\te\u{1}"), "\"a\\\"b\\\\c\\nd\\te\\u0001\"");
    assert_eq!(
        object(&[("a", "1".to_string()), ("b", quote("x"))]),
        "{\"a\":1,\"b\":\"x\"}"
    );
    assert_eq!(array(&[]), "[]");
    assert_eq!(array(&["1".to_string(), "2".to_string()]), "[1,2]");
}

#[test]
fn answers_and_bytes_are_described() {
    let span = |start, end| Span::new(start, end).unwrap();
    assert_eq!(spans_string(&[]), "empty");
    assert_eq!(spans_string(&[span(1, 2), span(4, 9)]), "[1,2)|[4,9)");
    assert_eq!(answer_string(&Answer::Value(None)), "NULL");
    assert_eq!(answer_string(&Answer::Value(Some(-7))), "-7");
    assert_eq!(answer_string(&Answer::Sum(i128::MIN)), i128::MIN.to_string());
    assert_eq!(answer_string(&Answer::Count(3)), "3");
    assert_eq!(blocks_string(&[3, 5]), "3|5");
    assert_eq!(blocks_string(&[]), "empty");
    assert_eq!(value_string(Some(i64::MIN)), i64::MIN.to_string());
    assert_eq!(i64_values(&[0xff; 16]), "-1,-1");
    assert_eq!(u32_values(&[1, 0, 0, 0, 0, 1, 0, 0, 9]), "1,256");
    assert_eq!(u32_pairs(&[1, 0, 0, 0, 2, 0, 0, 0]), "(1, 2)");
    assert_eq!(hex_preview(&[0, 0xab, 0x10], 2), "00 ab ...");
    assert_eq!(hex_preview(&[0, 0xab, 0x10], 3), "00 ab 10");
    assert_eq!(table_row(&["a".to_string(), "b".to_string()]), "| a | b |");
}

#[test]
fn pages_are_described_field_by_field() {
    let column = build(&chars(
        r#"{"values": [10, 11, 12, 13], "recipe": "For(BitPack)"}"#,
    ))
    .unwrap();
    let page = column.page.bytes();
    let layout = column.page.layout();
    assert!(describe_header(page).starts_with("magic=ACPAGE01, version=3, fields=3, frames=0,"));
    let base = &layout.fields[1];
    assert_eq!(base.name, "for.base");
    let bytes = direct_field_bytes(base.location, base.length, page);
    assert_eq!(describe_field(&base.name, base.id, bytes, column.decoder.nodes()), "base=10");
    let packed = &layout.fields[2];
    let bytes = direct_field_bytes(packed.location, packed.length, page);
    let described = describe_field(&packed.name, packed.id, bytes, column.decoder.nodes());
    assert!(described.starts_with("width=2, values=4, block_rows="), "{described}");
    assert!(location_string(base.location, base.length, &layout.frames).ends_with(") direct"));
    assert_eq!(
        describe_field(&packed.name, packed.id, None, column.decoder.nodes()),
        "inside compressed frame; see decoded offset"
    );
}

#[test]
fn manifests_add_up() {
    let artifact = |column: &str, bytes| Artifact {
        column: column.to_string(),
        bytes,
        name: format!("{column}.acp"),
    };
    let (lines, total) = manifest(&[artifact("a", 3), artifact("b", 40)]);
    assert_eq!(
        lines,
        "column\tbytes\tartifact\na\t3\ta.acp\nb\t40\tb.acp\nTOTAL\t43\t-\n"
    );
    assert_eq!(total, 43);
}

#[test]
fn documented_queries_are_known_by_their_text() {
    assert_eq!(
        query_for_row(&"GET patched row 9".to_string()),
        Ok((4, Query::Get { row: 9 }))
    );
    assert_eq!(
        query_for_row(&"SUM rows [4,12)".to_string()),
        Ok((1, Query::Sum { rows: Span::new(4, 12).unwrap() }))
    );
    assert_eq!(
        query_for_row(&"GET row 10".to_string()),
        Err(StudyError::UnknownDocumentedQuery)
    );
}

const SHOWN_RECIPES: [&str; 8] = [
    "BitPack",
    "For(BitPack)",
    "Delta(256, BitPack)",
    "UnsignedDelta(256, BitPack)",
    "Dictionary(BitPack)",
    "Rle(256, BitPack)",
    "Patch(256, BitPack)",
    "Frame(UnsignedDelta(256, BitPack))",
];

#[test]
fn facts_are_shown_by_name() {
    for recipe in SHOWN_RECIPES {
        let request = format!("{{\"values\": [1, 1, 2, 5, 9], \"recipe\": \"{recipe}\"}}");
        let column = build(&chars(&request)).expect("encodes");
        let set = derive_invariants(&column.decoder, column.page.layout(), column.page.invariants())
            .expect("derives");
        let facts: Vec<String> = set
            .iter()
            .iter()
            .map(|fact| {
                let evidence = format!("{:?}", fact.evidence).replace("Structure(", "Structural(");
                let assumptions: Vec<String> =
                    fact.assumptions.iter().map(|item| quote(&format!("{item:?}"))).collect();
                object(&[
                    ("node", fact.node.0.to_string()),
                    ("scope", quote(&format!("{:?}", fact.scope))),
                    ("property", quote(&format!("{:?}", fact.property))),
                    ("evidence", quote(&evidence)),
                    ("assumptions", array(&assumptions)),
                ])
            })
            .collect();
        let expected = object(&[
            ("root", column.decoder.root().0.to_string()),
            ("fact_count", facts.len().to_string()),
            ("facts", array(&facts)),
        ]);
        assert_eq!(facts_json(&column).expect("shows"), expected);
    }
}

#[test]
fn facts_of_a_packed_column_read_as_written() {
    let request = "{\"values\": [3, 1], \"recipe\": \"BitPack\"}";
    let column = build(&chars(request)).expect("encodes");
    let shown = facts_json(&column).expect("shows");
    assert!(shown.starts_with("{\"root\":0,\"fact_count\":"));
    assert!(shown.contains("\"property\":\"Value(UnsignedRange { width: 2 })\""));
    assert!(shown.contains("\"evidence\":\"Structural(\\\"bit_unpack_unsigned_domain\\\")\""));
    assert!(shown.contains("\"property\":\"Value(NullPlacement(NoNulls))\""));
}

#[test]
fn plans_are_shown_step_by_step() {
    let queries = [
        Query::Get { row: 3 },
        Query::Sum { rows: Span { start: 1, end: 4 } },
        Query::Between { rows: Span { start: 0, end: 5 }, low: -2, high: 4 },
        Query::Filter { predicate: Predicate::Between { low: 1, high: 2 } },
        Query::Count { predicate: Predicate::Equals { value: 1 } },
    ];
    for recipe in SHOWN_RECIPES {
        let request = format!("{{\"values\": [1, 1, 2, 5, 9], \"recipe\": \"{recipe}\"}}");
        let column = build(&chars(&request)).expect("encodes");
        for query in queries {
            let plan = compile(&column, query).expect("compiles");
            let nodes: Vec<String> = plan
                .nodes
                .iter()
                .map(|node| {
                    let (closure, bytes, note) = match &node.byte_closure {
                        ClosureSpec::Exact(closure) => {
                            ("exact", closure.delivered_bytes.to_string(), String::new())
                        }
                        ClosureSpec::RuntimeRefined { reason, .. } => {
                            ("runtime_refined", "null".to_string(), reason.clone())
                        }
                    };
                    let cites = match &node.authorization {
                        Authorization::Unconditional => quote("unconditional"),
                        Authorization::Fact { scope, property, .. } => {
                            quote(&format!("{scope:?}::{property:?}"))
                        }
                    };
                    object(&[
                        ("id", node.id.0.to_string()),
                        ("op", quote(&format!("{:?}", node.op))),
                        ("rows", quote(&format!("{:?}", node.rows))),
                        ("required_field_bytes", node.required_fields.bytes().to_string()),
                        ("closure", quote(closure)),
                        ("closure_bytes", bytes),
                        ("closure_note", quote(&note)),
                        ("guarantee", quote(&format!("{:?}", node.guarantee))),
                        ("cites", cites),
                    ])
                })
                .collect();
            let expected = object(&[
                ("query", quote(&format!("{:?}", plan.query))),
                ("node_count", nodes.len().to_string()),
                ("output", quote(&format!("{:?}", plan.output))),
                ("nodes", array(&nodes)),
            ]);
            assert_eq!(plan_json(&column, query).expect("shows"), expected);
        }
    }
}
