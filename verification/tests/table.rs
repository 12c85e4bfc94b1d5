use witness::study::{
    dictionary_probes, escape_display_label, family_of, find_row, group_digits, lookup,
    natural_runs, quote, run_candidate, xorshift64, StudyError, Table,
};

fn table(header: &[&str], rows: &[&[&str]]) -> Table {
    Table {
        header: header.iter().map(|name| (*name).to_string()).collect(),
        rows: rows
            .iter()
            .map(|row| row.iter().map(|cell| (*cell).to_string()).collect())
            .collect(),
    }
}

#[test]
fn field_follows_the_name_not_the_position() {
    let original = table(&["source", "ratio"], &[&["nab", "0.25"]]);
    let reordered = table(&["ratio", "source"], &[&["0.25", "nab"]]);
    for shape in [&original, &reordered] {
        assert_eq!(shape.field(&shape.rows[0], "source").unwrap(), "nab");
        assert_eq!(shape.field(&shape.rows[0], "ratio").unwrap(), "0.25");
    }
}

#[test]
fn field_rejects_a_column_the_producer_no_longer_writes() {
    let shape = table(&["source"], &[&["nab"]]);
    let error = shape.field(&shape.rows[0], "ratio").unwrap_err().message();
    assert!(error.contains("ratio"), "unhelpful error: {error}");
}

#[test]
fn read_csv_keeps_quoted_commas_inside_one_field() {
    let parsed = Table::parse("claim,value\nWitRows,\"131,072\"\n").unwrap();
    assert_eq!(parsed.rows.len(), 1);
    assert_eq!(parsed.field(&parsed.rows[0], "value").unwrap(), "131,072");
}

#[test]
fn a_table_needs_a_header_and_skips_empty_lines() {
    assert_eq!(Table::parse("").unwrap_err(), StudyError::HeaderAbsent);
    let parsed = Table::parse("a,b\r\n1,2\r\n\r\n\n3,\n").unwrap();
    assert_eq!(parsed.header, ["a", "b"]);
    assert_eq!(parsed.rows, [vec!["1", "2"], vec!["3", ""]]);
    assert_eq!(parsed.count(), 2);
    let bare = Table::parse("a\nx\r").unwrap();
    assert_eq!(bare.rows, [vec!["x\r"]]);
}

#[test]
fn a_short_row_is_named_by_the_column_it_lacks() {
    let shape = table(&["a", "b"], &[&["1"]]);
    assert_eq!(
        shape.field(&shape.rows[0], "b").unwrap_err(),
        StudyError::RowShort("b".to_string())
    );
    assert_eq!(
        shape.field(&shape.rows[0], "c").unwrap_err().message(),
        "column c is absent from the header"
    );
}

#[test]
fn the_last_metric_of_a_name_counts() {
    let metrics = table(&["metric", "value"], &[&["x", "1"], &["y", "2"], &["x", "3"]]);
    assert_eq!(lookup(&metrics, "x").unwrap(), "3");
    assert_eq!(
        lookup(&metrics, "z").unwrap_err(),
        StudyError::MetricAbsent("z".to_string())
    );
}

#[test]
fn the_first_row_that_has_all_wanted_fields_is_found() {
    let rows = table(&["a", "b"], &[&["1", "x"], &["2", "y"], &["2", "y"]]);
    assert_eq!(find_row(&rows, &[(0, "2".to_string()), (1, "y".to_string())]).unwrap(), 1);
    assert_eq!(
        find_row(&rows, &[(0, "1".to_string()), (1, "y".to_string())]).unwrap_err(),
        StudyError::RowAbsent
    );
    let uneven = table(&["a", "b"], &[&["1"], &["2", "y"], &[]]);
    assert_eq!(find_row(&uneven, &[(0, "2".to_string()), (1, "y".to_string())]).unwrap(), 1);
}

#[test]
fn a_quoted_field_is_read_back() {
    let line = format!("{},{}\n", quote("a,b"), quote("c"));
    let parsed = Table::parse(&format!("x,y\n{line}")).unwrap();
    assert_eq!(parsed.rows[0], ["a,b", "c"]);
    assert_eq!(quote("say \"hi\""), "\"say \"\"hi\"\"\"");
}

#[test]
fn labels_and_digits_are_written_for_display() {
    assert_eq!(escape_display_label("a_b__c"), "a\\_b\\_\\_c");
    assert_eq!(group_digits("131072"), "131,072");
    assert_eq!(group_digits("12"), "12");
    assert_eq!(group_digits("1234567"), "1,234,567");
}

#[test]
fn a_family_is_what_stands_before_the_slash() {
    assert_eq!(family_of("\"realTweets/x.csv\""), "realTweets");
    assert_eq!(family_of("\"alone\""), "alone");
    assert_eq!(family_of("/x"), "");
}

#[test]
fn the_generator_takes_the_same_steps_every_time() {
    let mut state: u64 = 1;
    assert_eq!(xorshift64(&mut state), 1_082_269_761);
    assert_eq!(state, 1_082_269_761);
    assert_eq!(xorshift64(&mut state), 1_152_992_998_833_853_505);
}

#[test]
fn runs_and_probes_are_counted() {
    assert_eq!(natural_runs(&[]), 1);
    assert_eq!(natural_runs(&[5, 5, 5]), 1);
    assert_eq!(natural_runs(&[5, 6, 6, 5]), 3);
    assert_eq!(dictionary_probes(0), 2);
    assert_eq!(dictionary_probes(1), 2);
    assert_eq!(dictionary_probes(255), 16);
    assert_eq!(dictionary_probes(256), 18);
}

#[test]
fn columns_of_long_runs_are_counted_by_runs() {
    let paying: Vec<Option<i64>> = (0..1_024).map(|row| Some(row / 4)).collect();
    let values = run_candidate(&paying).expect("four rows to a run");
    assert_eq!(values.len(), 1_024);
    assert_eq!(values[1_023], 255);
    assert_eq!(run_candidate(&paying[..1_023]), None);
    let mut one_run_more = paying.clone();
    one_run_more[1_023] = Some(9);
    assert_eq!(run_candidate(&one_run_more), None);
    let mut absent = vec![Some(1); 2_000];
    assert!(run_candidate(&absent).is_some());
    absent[7] = None;
    assert_eq!(run_candidate(&absent), None);
    absent[7] = Some(-1);
    assert_eq!(run_candidate(&absent), None);
}
