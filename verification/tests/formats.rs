use witness::study::formats::{claims_of_records, table_of_batches, table_of_records};
use witness::study::{
    claim_value, csv_table, decode_csv_table, decode_orc_table, decode_parquet_table, orc_table,
    parquet_table, read_claim_manifest, TableError,
};

fn table() -> Vec<Vec<Option<i64>>> {
    vec![
        vec![Some(1), None, Some(-7), Some(i64::MAX)],
        vec![Some(20), Some(21), None, Some(i64::MIN)],
    ]
}

fn names() -> Vec<String> {
    vec!["a".to_string(), "b".to_string()]
}

#[test]
fn comma_separated_values_are_read_as_columns() {
    let text = "a,b\n1,20\n,21\n-7,\n9223372036854775807,-9223372036854775808\n";
    assert_eq!(decode_csv_table(text.as_bytes(), 2), Ok(table()));
    assert_eq!(decode_csv_table(text.as_bytes(), 3), Err(TableError::ColumnCount));
    assert_eq!(decode_csv_table(b"a,b\n1,x\n", 2), Err(TableError::NotNumber));
    assert_eq!(decode_csv_table(b"a,b\n1,2\n3\n", 2), Err(TableError::Unreadable));
    assert_eq!(decode_csv_table(b"a,b\n\"+5\",\"6\"\n", 2), Ok(vec![vec![Some(5)], vec![Some(6)]]));
    assert_eq!(decode_csv_table(b"a,b\n", 2), Ok(vec![vec![], vec![]]));
}

#[test]
fn comma_separated_values_are_written() {
    let text = "a,b\n1,20\n,21\n-7,\n9223372036854775807,-9223372036854775808\n";
    assert_eq!(csv_table(&names(), &table()), Some(text.as_bytes().to_vec()));
    let quoted = vec!["x,y".to_string()];
    assert_eq!(csv_table(&quoted, &[vec![Some(3)]]), Some(b"\"x,y\"\n3\n".to_vec()));
    let uneven = [vec![Some(1), Some(2)], vec![Some(3)]];
    assert_eq!(csv_table(&names(), &uneven), Some(b"a,b\n1,3\n".to_vec()));
    assert_eq!(csv_table(&names(), &[vec![Some(1)]]), None);
}

#[test]
fn a_parquet_file_is_read_as_columns() {
    let mut sizes = Vec::new();
    for delta in [false, true] {
        let bytes = parquet_table(&names(), &table(), delta).unwrap();
        assert_eq!(&bytes[..4], b"PAR1");
        assert_eq!(&bytes[bytes.len() - 4..], b"PAR1");
        assert_eq!(decode_parquet_table(&bytes, 2), Ok(table()));
        assert_eq!(decode_parquet_table(&bytes, 1), Err(TableError::ColumnCount));
        sizes.push(bytes);
    }
    assert_ne!(sizes[0], sizes[1]);
}

#[test]
fn an_orc_file_is_read_as_columns() {
    let columns = [
        (0..600).map(|row| (row % 7 != 3).then_some(row * row)).collect::<Vec<Option<i64>>>(),
        (0..600).map(|row| Some(if row == 77 { 16_777_215 } else { row % 5 })).collect(),
        vec![Some(-9); 600],
        vec![None; 600],
        (0..600).map(|row| Some((1 << 54) - 60 * row)).collect(),
    ];
    let names: Vec<String> = (0..5).map(|index| format!("column_{index}")).collect();
    let bytes = orc_table(&names, &columns).unwrap();
    assert_eq!(&bytes[..3], b"ORC");
    assert_eq!(decode_orc_table(&bytes, 5), Ok(columns.to_vec()));
    assert_eq!(decode_orc_table(&bytes, 2), Err(TableError::ColumnCount));
}

#[test]
fn close_values_of_every_shape_come_back_from_an_orc_file() {
    let mut state = 0x2545_f491_4f6c_dd1d_u64;
    let mut next = |bound: u64| {
        state ^= state << 13;
        state ^= state >> 7;
        state ^= state << 17;
        state % bound
    };
    for turn in 0..400 {
        let rows = [1, 2, 3, 9, 10, 511, 512, 513, 1_300][turn % 9];
        let base = [0, -(1_i64 << 55), (1 << 55) - 0xff_ffff, -5_000_000, 77][turn % 5];
        let bits = 1 + next(24);
        let rare = 1 + next(40);
        let columns: Vec<Vec<Option<i64>>> = (0..4)
            .map(|shape| {
                (0..rows)
                    .map(|row| {
                        let offset = match shape {
                            0 => next(1 << bits),
                            1 => (row as u64 * bits) % 0x100_0000,
                            2 if next(rare) == 0 => next(0x100_0000),
                            2 => next(8),
                            _ => (row as u64 / 7) * 3 + next(2),
                        };
                        (shape != 1 || next(9) != 0).then_some(base + offset as i64)
                    })
                    .collect()
            })
            .collect();
        let names: Vec<String> = (0..4).map(|index| format!("column {index}")).collect();
        let bytes = orc_table(&names, &columns).unwrap();
        assert_eq!(decode_orc_table(&bytes, 4), Ok(columns));
    }
}

#[test]
fn tables_of_the_least_and_the_greatest_shape_come_back() {
    let empty = vec![vec![], vec![]];
    let parquet = parquet_table(&names(), &empty, true).unwrap();
    assert_eq!(decode_parquet_table(&parquet, 2), Ok(empty.clone()));
    let orc = orc_table(&names(), &empty).unwrap();
    assert_eq!(decode_orc_table(&orc, 2), Ok(empty));
    let many: Vec<String> = (0..1024).map(|index| format!("{index:\u{1f980}>1024}")).collect();
    let columns: Vec<Vec<Option<i64>>> = (0..1024).map(|index| vec![Some(index), None]).collect();
    let parquet = parquet_table(&many, &columns, false).unwrap();
    assert_eq!(decode_parquet_table(&parquet, 1024), Ok(columns.clone()));
    let orc = orc_table(&many, &columns).unwrap();
    assert_eq!(decode_orc_table(&orc, 1024), Ok(columns));
    let odd = vec![String::new(), "a.b\u{0}\n\"".to_string()];
    let columns = vec![vec![Some(i64::MIN), None], vec![Some(i64::MAX), Some(0)]];
    let parquet = parquet_table(&odd, &columns, true).unwrap();
    assert_eq!(decode_parquet_table(&parquet, 2), Ok(columns));
    let columns = vec![vec![Some(5)], vec![None]];
    let orc = orc_table(&odd, &columns).unwrap();
    assert_eq!(decode_orc_table(&orc, 2), Ok(columns));
}

#[test]
fn columns_that_no_file_holds_are_not_written() {
    let one = vec!["a".to_string()];
    let column = vec![Some(1), Some(2)];
    assert_eq!(parquet_table(&[], &[], false), None);
    assert_eq!(orc_table(&[], &[]), None);
    for delta in [false, true] {
        assert_eq!(parquet_table(&one, &[column.clone(), column.clone()], delta), None);
        assert_eq!(parquet_table(&names(), &[column.clone(), vec![Some(1)]], delta), None);
    }
    assert_eq!(orc_table(&one, &[column.clone(), column.clone()]), None);
    assert_eq!(orc_table(&names(), &[column.clone(), vec![Some(1)]]), None);
    assert_eq!(orc_table(&one, &[vec![Some(5), Some(1 << 40), Some(7), Some(8)]]), None);
    assert_eq!(orc_table(&one, &[vec![Some(5), Some(i64::MIN), Some(7), Some(8)]]), None);
    assert!(orc_table(&one, &[vec![Some(5), Some((1 << 24) - 1), Some(7), Some(8)]]).is_some());
}

#[test]
fn columns_of_one_name_and_of_long_names_come_back() {
    let twice = vec!["a".to_string(), "a".to_string()];
    let columns = vec![vec![Some(1), Some(2)], vec![None, Some(3)]];
    for delta in [false, true] {
        let parquet = parquet_table(&twice, &columns, delta).unwrap();
        assert_eq!(decode_parquet_table(&parquet, 2), Ok(columns.clone()));
    }
    let orc = orc_table(&twice, &columns).unwrap();
    assert_eq!(decode_orc_table(&orc, 2), Ok(columns.clone()));
    let long = vec!["b".repeat(100_000)];
    let parquet = parquet_table(&long, &columns[..1], true).unwrap();
    assert_eq!(decode_parquet_table(&parquet, 1), Ok(columns[..1].to_vec()));
    let orc = orc_table(&long, &columns[..1]).unwrap();
    assert_eq!(decode_orc_table(&orc, 1), Ok(columns[..1].to_vec()));
    let many: Vec<String> = (0..1_500).map(|index| format!("{index}")).collect();
    let wide: Vec<Vec<Option<i64>>> = (0..1_500).map(|index| vec![Some(index)]).collect();
    let parquet = parquet_table(&many, &wide, false).unwrap();
    assert_eq!(decode_parquet_table(&parquet, 1_500), Ok(wide.clone()));
    let orc = orc_table(&many, &wide).unwrap();
    assert_eq!(decode_orc_table(&orc, 1_500), Ok(wide));
}

#[test]
fn wide_values_in_order_or_of_one_size_come_back_from_an_orc_file() {
    let one = vec!["a".to_string()];
    let lone = [
        vec![Some(i64::MIN)],
        vec![Some(i64::MAX), Some(5), Some(i64::MIN)],
        vec![Some(i64::MIN), Some(i64::MAX)],
        vec![Some(i64::MIN), Some(-5), None, Some(5), Some(i64::MAX)],
    ];
    for column in lone {
        let bytes = orc_table(&one, &[column.clone()]).unwrap();
        assert_eq!(decode_orc_table(&bytes, 1), Ok(vec![column]));
    }
    let mut state = 0x9e37_79b9_7f4a_7c15_u64;
    let mut next = || {
        state ^= state << 13;
        state ^= state >> 7;
        state ^= state << 17;
        state
    };
    for turn in 0..300 {
        let rows = [1, 2, 3, 9, 10, 511, 512, 513, 1_300][turn % 9];
        let mut numbers: Vec<i64> = (0..rows).map(|_| next() as i64).collect();
        numbers.sort_unstable();
        numbers.dedup();
        let rising: Vec<Option<i64>> = numbers.iter().map(|value| Some(*value)).collect();
        let falling: Vec<Option<i64>> = rising.iter().rev().copied().collect();
        let shift = turn % 40;
        let alike: Vec<Option<i64>> = (0..rows)
            .map(|_| {
                let value = ((1 << 62) | (next() >> 2)) as i64 >> (shift / 8 * 8);
                Some(if turn % 2 == 0 { value } else { -value })
            })
            .collect();
        for column in [rising, falling, alike] {
            let Some(bytes) = orc_table(&one, &[column.clone()]) else {
                continue;
            };
            assert_eq!(decode_orc_table(&bytes, 1), Ok(vec![column]));
        }
        assert!(orc_table(&one, &[numbers.iter().map(|value| Some(*value)).collect()]).is_some());
    }
}

#[test]
fn records_and_batches_make_a_table_up_to_the_first_fault() {
    let record = |texts: &[&str]| texts.iter().map(|text| text.to_string()).collect::<Vec<_>>();
    let records = vec![record(&["1", ""]), record(&["2", "3"])];
    assert_eq!(
        table_of_records(&records, true, 2),
        Ok(vec![vec![Some(1), Some(2)], vec![None, Some(3)]])
    );
    assert_eq!(table_of_records(&records, false, 2), Err(TableError::Unreadable));
    let mixed = vec![record(&["x", "1"]), record(&["1"])];
    assert_eq!(table_of_records(&mixed, false, 2), Err(TableError::NotNumber));
    let batches = vec![
        vec![Some(vec![Some(1)]), Some(vec![None])],
        vec![Some(vec![Some(2), Some(3)]), Some(vec![Some(4), Some(5)])],
    ];
    assert_eq!(
        table_of_batches(&batches, true, 2),
        Ok(vec![vec![Some(1), Some(2), Some(3)], vec![None, Some(4), Some(5)]])
    );
    assert_eq!(table_of_batches(&batches, false, 2), Err(TableError::Unreadable));
    assert_eq!(
        table_of_batches(&[vec![None, Some(vec![])]], true, 2),
        Err(TableError::NotInt64)
    );
}

#[test]
fn the_last_claim_of_a_name_holds() {
    let claims = read_claim_manifest(b"name,value,source\nRows,12,a\nSources,3,b\nRows,14,c\n").unwrap();
    assert_eq!(claim_value(&claims, "Rows"), Ok("14".to_string()));
    assert_eq!(claim_value(&claims, "Sources"), Ok("3".to_string()));
    assert_eq!(
        claim_value(&claims, "Columns"),
        Err(TableError::ClaimAbsent("Columns".to_string()))
    );
    assert_eq!(
        read_claim_manifest(b"name\nRows\n").unwrap_err(),
        TableError::ValueAbsent("Rows".to_string())
    );
    assert_eq!(claims_of_records(&[vec![]], true).unwrap_err(), TableError::NameAbsent);
    assert_eq!(
        read_claim_manifest(b"name,value\nRows,1\nSources\n").unwrap_err(),
        TableError::Unreadable
    );
}
