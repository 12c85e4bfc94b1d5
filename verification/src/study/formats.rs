//! Tables of numbers as other formats hold them.
#[allow(unused_imports)]
use super::table::fields_of;
use super::wording::{chars_of, read_signed, signed_text};
#[allow(unused_imports)]
use super::wording::{number_in, signed_decimal};
use arrow_array::{ArrayRef, Int64Array, RecordBatch};
use bytes::Bytes;
use orc_rust::arrow_reader::ArrowReaderBuilder;
use orc_rust::ArrowWriterBuilder;
use parquet::arrow::arrow_reader::ParquetRecordBatchReaderBuilder;
use parquet::arrow::ArrowWriter;
use parquet::basic::{Compression, Encoding, ZstdLevel};
use parquet::file::properties::WriterProperties;
use std::sync::Arc;
use vstd::prelude::*;

verus! {

/// What can be wrong with a table.
#[derive(Clone, Debug, PartialEq, Eq)]
pub enum TableError {
    /// The bytes are not, or not to the end, what the format asks for.
    Unreadable,
    /// A row or a batch has more or fewer columns than are asked for.
    ColumnCount,
    /// A text is not a whole number of 64 bits.
    NotNumber,
    /// A column holds something else than whole numbers of 64 bits.
    NotInt64,
    /// A record has no name.
    NameAbsent,
    /// The record of this name has no value.
    ValueAbsent(String),
    /// No record has this name.
    ClaimAbsent(String),
}

/// One batch of a table: the values of each column, or nothing for a column of
/// another type.
pub type Batch = Vec<Option<Vec<Option<i64>>>>;

/// The texts of records.
pub open spec fn records_of(records: Seq<Vec<String>>) -> Seq<Seq<Seq<char>>> {
    Seq::new(records.len(), |i: int| fields_of(records[i]@))
}

/// The values of a column.
pub open spec fn column_of(column: Option<Vec<Option<i64>>>) -> Option<Seq<Option<i64>>> {
    match column {
        Some(values) => Some(values@),
        None => None,
    }
}

/// The columns of a batch.
pub open spec fn batch_of(batch: Batch) -> Seq<Option<Seq<Option<i64>>>> {
    Seq::new(batch@.len(), |c: int| column_of(batch@[c]))
}

/// The columns of batches.
pub open spec fn batches_of(batches: Seq<Batch>) -> Seq<Seq<Option<Seq<Option<i64>>>>> {
    Seq::new(batches.len(), |i: int| batch_of(batches[i]))
}

/// The columns of a table.
pub open spec fn columns_of(columns: Seq<Vec<Option<i64>>>) -> Seq<Seq<Option<i64>>> {
    Seq::new(columns.len(), |c: int| columns[c]@)
}

// ----- the writers -----

/// What `csv::Writer` makes of records of one length.
pub uninterp spec fn csv_written(records: Seq<Seq<Seq<char>>>) -> Seq<u8>;

/// What `ArrowWriter` of the Parquet crate makes of columns of these names, with
/// dictionaries and Snappy; nothing where it refuses them.
pub uninterp spec fn parquet_dictionary_written(
    names: Seq<Seq<char>>,
    columns: Seq<Seq<Option<i64>>>,
) -> Option<Seq<u8>>;

/// What `ArrowWriter` of the Parquet crate makes of columns of these names, with delta
/// encoding and Zstandard; nothing where it refuses them.
pub uninterp spec fn parquet_delta_written(
    names: Seq<Seq<char>>,
    columns: Seq<Seq<Option<i64>>>,
) -> Option<Seq<u8>>;

/// What `ArrowWriter` of the ORC crate makes of columns of these names; nothing where it
/// refuses them.
pub uninterp spec fn orc_written(
    names: Seq<Seq<char>>,
    columns: Seq<Seq<Option<i64>>>,
) -> Option<Seq<u8>>;

/// All records have the same number of fields.
pub open spec fn rectangular(records: Seq<Seq<Seq<char>>>) -> bool {
    forall|i: int| 0 <= i < records.len() ==> (#[trigger] records[i]).len() == records[0].len()
}

/// The bytes that a schema of the first `n` names takes at most: four for each character,
/// and more than is ever stated of a column besides its name.
pub open spec fn schema_size(names: Seq<Seq<char>>, n: int) -> int
    decreases n,
{
    if n <= 0 {
        0
    } else {
        schema_size(names, n - 1) + 4 * names[n - 1].len() + 1024
    }
}

/// The bytes that a schema may take. A Parquet file holds several copies of it, and all
/// of them together are addressed with 31 bits.
pub const SCHEMA_LIMIT: usize = 0x1000_0000;

/// There is a column for each name, and the names fit a schema.
pub open spec fn nameable(names: Seq<Seq<char>>, columns: int) -> bool {
    names.len() == columns && schema_size(names, columns) <= SCHEMA_LIMIT
}

/// How far apart values may lie that are stored by their distances.
pub const ORC_SPREAD: i64 = 0xff_ffff;

/// A value within bounds.
pub open spec fn value_in(value: Option<i64>, low: int, high: int) -> bool {
    value matches Some(value) ==> low <= value <= high
}

/// The values of a column lie within bounds.
pub open spec fn lie_within(values: Seq<Option<i64>>, low: int, high: int) -> bool {
    forall|i: int| 0 <= i < values.len() ==> value_in(#[trigger] values[i], low, high)
}

/// The values of a column are not far apart.
pub open spec fn lie_close(values: Seq<Option<i64>>) -> bool {
    exists|low: int, high: int|
        i64::MIN < low && high - low <= ORC_SPREAD && #[trigger] lie_within(values, low, high)
}

/// Each value is greater than all before it, or less if they fall.
pub open spec fn strict(values: Seq<Option<i64>>, falling: bool) -> bool {
    forall|i: int, j: int|
        0 <= i < j < values.len() && (#[trigger] values[i]) is Some && (#[trigger] values[j])
            is Some ==> if falling {
            values[i]->0 > values[j]->0
        } else {
            values[i]->0 < values[j]->0
        }
}

/// How large a number is, where a negative one counts as the one that its bits negate to.
pub open spec fn magnitude(value: i64) -> int {
    if value < 0 {
        -(value + 1)
    } else {
        value as int
    }
}

/// Numbers of one size class are stored in the same number of bits.
pub open spec fn size_class(value: i64) -> int {
    let size = magnitude(value);
    if size < 0x80_0000 {
        0
    } else if size < 0x200_0000 {
        1
    } else if size < 0x800_0000 {
        2
    } else if size < 0x2000_0000 {
        3
    } else if size < 0x8000_0000 {
        4
    } else if size < 0x80_0000_0000 {
        5
    } else if size < 0x8000_0000_0000 {
        6
    } else if size < 0x80_0000_0000_0000 {
        7
    } else {
        8
    }
}

/// The values of a column are of one size class.
pub open spec fn of_class(values: Seq<Option<i64>>, class: int) -> bool {
    forall|i: int|
        0 <= i < values.len() ==> ((#[trigger] values[i]) matches Some(value) ==> value != i64::MIN
            && size_class(value) == class)
}

pub open spec fn alike(values: Seq<Option<i64>>) -> bool {
    exists|class: int| #[trigger] of_class(values, class)
}

/// The ORC writer stores the values of a column: by their distances from the least, where
/// they lie close; by their differences, where they rise or fall; or one by one, where
/// they are alike or no more than three. Of other values it stores some, and on others it does not return: it
/// rounds the bits that most distances take, and may take them for more than the bits of
/// the greatest.
pub open spec fn storable(values: Seq<Option<i64>>) -> bool {
    values.len() <= 3 || lie_close(values) || strict(values, false) || strict(values, true) || alike(
        values,
    )
}

pub open spec fn all_storable(columns: Seq<Seq<Option<i64>>>) -> bool {
    forall|c: int| 0 <= c < columns.len() ==> storable(#[trigger] columns[c])
}

/// The Parquet file of columns, if it can be written.
pub open spec fn parquet_file(
    names: Seq<Seq<char>>,
    columns: Seq<Seq<Option<i64>>>,
    delta: bool,
) -> Option<Seq<u8>> {
    if !nameable(names, columns.len() as int) {
        None
    } else if delta {
        parquet_delta_written(names, columns)
    } else {
        parquet_dictionary_written(names, columns)
    }
}

/// The ORC file of columns, if it can be written.
pub open spec fn orc_file(names: Seq<Seq<char>>, columns: Seq<Seq<Option<i64>>>) -> Option<Seq<u8>> {
    if nameable(names, columns.len() as int) && all_storable(columns) {
        orc_written(names, columns)
    } else {
        None
    }
}

/// The comma-separated values of columns, if they can be written.
pub open spec fn csv_file(names: Seq<Seq<char>>, columns: Seq<Seq<Option<i64>>>) -> Option<Seq<u8>> {
    if rectangular(table_records(names, columns)) {
        Some(csv_written(table_records(names, columns)))
    } else {
        None
    }
}

/// A file as a value.
pub open spec fn file_of(file: Option<Vec<u8>>) -> Option<Seq<u8>> {
    match file {
        Some(bytes) => Some(bytes@),
        None => None,
    }
}

/// The bytes are the Parquet file of some columns.
pub open spec fn is_parquet(bytes: Seq<u8>) -> bool {
    exists|names: Seq<Seq<char>>, columns: Seq<Seq<Option<i64>>>, delta: bool| #[trigger]
        parquet_file(names, columns, delta) == Some(bytes)
}

/// The bytes are the ORC file of some columns.
pub open spec fn is_orc(bytes: Seq<u8>) -> bool {
    exists|names: Seq<Seq<char>>, columns: Seq<Seq<Option<i64>>>| #[trigger]
        orc_file(names, columns) == Some(bytes)
}

/// Calls `csv::Writer::from_writer`, `write_record` for each record, and
/// `into_inner`: what they write depends on the records alone. Into memory they fail only
/// where records have different numbers of fields.
#[verifier::external_body]
fn write_csv(records: &[Vec<String>]) -> (r: Option<Vec<u8>>)
    ensures
        r is Some == rectangular(records_of(records@)),
        r matches Some(bytes) ==> bytes@ == csv_written(records_of(records@)),
{
    let mut writer = csv::Writer::from_writer(Vec::new());
    records.iter().try_for_each(|record| writer.write_record(record)).ok()?;
    writer.into_inner().ok()
}

/// Calls `ArrowWriter::try_new`, `write` and `into_inner` of the Parquet crate on one
/// batch of nullable columns, with dictionaries and Snappy: whether they write, and what,
/// depends on the names and the columns alone.
#[verifier::external_body]
fn write_parquet_dictionary(names: &[String], columns: &[Vec<Option<i64>>]) -> (r: Option<Vec<u8>>)
    requires
        nameable(fields_of(names@), columns@.len() as int),
    ensures
        file_of(r) == parquet_dictionary_written(fields_of(names@), columns_of(columns@)),
{
    let builder = WriterProperties::builder().set_dictionary_enabled(true);
    let properties = builder.set_compression(Compression::SNAPPY).build();
    let batch = RecordBatch::try_from_iter_with_nullable(names.iter().zip(columns).map(
        |(name, values)| (name, Arc::new(Int64Array::from(values.clone())) as ArrayRef, true),
    )).ok()?;
    let mut writer = ArrowWriter::try_new(Vec::new(), batch.schema(), Some(properties)).ok()?;
    writer.write(&batch).ok()?;
    writer.into_inner().ok()
}

/// Calls `ArrowWriter::try_new`, `write` and `into_inner` of the Parquet crate on one
/// batch of nullable columns, with delta encoding and Zstandard: whether they write, and
/// what, depends on the names and the columns alone.
#[verifier::external_body]
fn write_parquet_delta(names: &[String], columns: &[Vec<Option<i64>>]) -> (r: Option<Vec<u8>>)
    requires
        nameable(fields_of(names@), columns@.len() as int),
    ensures
        file_of(r) == parquet_delta_written(fields_of(names@), columns_of(columns@)),
{
    let builder = WriterProperties::builder().set_dictionary_enabled(false);
    let builder = builder.set_encoding(Encoding::DELTA_BINARY_PACKED);
    let properties = builder.set_compression(Compression::ZSTD(ZstdLevel::default())).build();
    let batch = RecordBatch::try_from_iter_with_nullable(names.iter().zip(columns).map(
        |(name, values)| (name, Arc::new(Int64Array::from(values.clone())) as ArrayRef, true),
    )).ok()?;
    let mut writer = ArrowWriter::try_new(Vec::new(), batch.schema(), Some(properties)).ok()?;
    writer.write(&batch).ok()?;
    writer.into_inner().ok()
}

/// Calls `ArrowWriterBuilder::try_build`, `write` and `close` of the ORC crate on one
/// batch of nullable columns: whether they write, and what, depends on the names and the
/// columns alone.
#[verifier::external_body]
fn write_orc(names: &[String], columns: &[Vec<Option<i64>>]) -> (r: Option<Vec<u8>>)
    requires
        nameable(fields_of(names@), columns@.len() as int),
        all_storable(columns_of(columns@)),
    ensures
        file_of(r) == orc_written(fields_of(names@), columns_of(columns@)),
{
    let batch = RecordBatch::try_from_iter_with_nullable(names.iter().zip(columns).map(
        |(name, values)| (name, Arc::new(Int64Array::from(values.clone())) as ArrayRef, true),
    )).ok()?;
    let mut bytes = Vec::new();
    let mut writer = ArrowWriterBuilder::new(&mut bytes, batch.schema()).try_build().ok()?;
    writer.write(&batch).ok()?;
    writer.close().ok()?;
    Some(bytes)
}

// ----- the readers -----

/// The records that `csv::Reader` gives of the bytes, after the header and up to
/// the first that fails, and whether none fails.
pub uninterp spec fn csv_content(bytes: Seq<u8>) -> (Seq<Seq<Seq<char>>>, bool);

/// The batches that `ParquetRecordBatchReader` gives of the bytes up to the first
/// that fails, and whether none fails. Where no reader can be built there are none,
/// and that fails.
pub uninterp spec fn parquet_content(bytes: Seq<u8>) -> (
    Seq<Seq<Option<Seq<Option<i64>>>>>,
    bool,
);

/// The batches that `ArrowReader` of the ORC crate gives of the bytes up to the
/// first that fails, and whether none fails. Where no reader can be built there
/// are none, and that fails.
pub uninterp spec fn orc_content(bytes: Seq<u8>) -> (Seq<Seq<Option<Seq<Option<i64>>>>>, bool);

/// Calls `csv::Reader::from_reader` and `records`: what they give depends on the
/// bytes alone.
#[verifier::external_body]
fn csv_records(bytes: &[u8]) -> (r: (Vec<Vec<String>>, bool))
    ensures
        records_of(r.0@) == csv_content(bytes@).0,
        r.1 == csv_content(bytes@).1,
{
    let mut records: Vec<Vec<String>> = Vec::new();
    let outcome = csv::Reader::from_reader(bytes).records().try_for_each(
        |record| record.map(|record| records.push(record.iter().map(String::from).collect())),
    );
    (records, outcome.is_ok())
}

/// Calls `ParquetRecordBatchReaderBuilder::try_new` and `build`, and takes the
/// batches of the reader: what they give depends on the bytes alone. The bytes are
/// those of the writer, since the reader does not return on some others.
#[verifier::external_body]
fn parquet_batches(bytes: &[u8]) -> (r: (Vec<Batch>, bool))
    requires
        is_parquet(bytes@),
    ensures
        batches_of(r.0@) == parquet_content(bytes@).0,
        r.1 == parquet_content(bytes@).1,
{
    let mut batches: Vec<Batch> = Vec::new();
    let outcome = ParquetRecordBatchReaderBuilder::try_new(Bytes::copy_from_slice(bytes)).and_then(
        |builder| builder.build(),
    ).map(|mut reader| reader.try_for_each(|batch| batch.map(|batch| batches.push(
        batch.columns().iter().map(|column| column.as_any().downcast_ref::<Int64Array>().map(
            |array| array.iter().collect(),
        )).collect(),
    ))));
    (batches, matches!(outcome, Ok(Ok(()))))
}

/// Calls `ArrowReaderBuilder::try_new` and `build` of the ORC crate, and takes the
/// batches of the reader: what they give depends on the bytes alone. The bytes are
/// those of the writer, since the reader does not return on some others.
#[verifier::external_body]
fn orc_batches(bytes: &[u8]) -> (r: (Vec<Batch>, bool))
    requires
        is_orc(bytes@),
    ensures
        batches_of(r.0@) == orc_content(bytes@).0,
        r.1 == orc_content(bytes@).1,
{
    let mut batches: Vec<Batch> = Vec::new();
    let outcome = ArrowReaderBuilder::try_new(Bytes::copy_from_slice(bytes)).map(
        |builder| builder.build().try_for_each(|batch| batch.map(|batch| batches.push(
            batch.columns().iter().map(|column| column.as_any().downcast_ref::<Int64Array>().map(
                |array| array.iter().collect(),
            )).collect(),
        ))),
    );
    (batches, matches!(outcome, Ok(Ok(()))))
}

// ----- tables of texts -----

/// The value that a text stands for: none where it is empty. Nothing where it is
/// not a whole number of 64 bits.
pub open spec fn cell_in(text: Seq<char>) -> Option<Option<i64>> {
    if text.len() == 0 {
        Some(None)
    } else {
        match number_in(text) {
            Some(value) => if i64::MIN <= value <= i64::MAX {
                Some(Some(value as i64))
            } else {
                None
            },
            None => None,
        }
    }
}

/// What is wrong with a record.
pub open spec fn record_error(record: Seq<Seq<char>>, columns: int) -> Option<TableError> {
    if record.len() != columns {
        Some(TableError::ColumnCount)
    } else if exists|c: int| 0 <= c < columns && cell_in(#[trigger] record[c]) is None {
        Some(TableError::NotNumber)
    } else {
        None
    }
}

/// What is wrong with the first of the first `n` records that something is wrong
/// with.
pub open spec fn records_error(records: Seq<Seq<Seq<char>>>, columns: int, n: int) -> Option<
    TableError,
>
    decreases n,
{
    if n <= 0 {
        None
    } else {
        match records_error(records, columns, n - 1) {
            Some(error) => Some(error),
            None => record_error(records[n - 1], columns),
        }
    }
}

/// The values of each column of records.
pub open spec fn records_table(records: Seq<Seq<Seq<char>>>, columns: int) -> Seq<
    Seq<Option<i64>>,
> {
    Seq::new(
        columns as nat,
        |c: int| Seq::new(records.len(), |i: int| cell_in(records[i][c])->0),
    )
}

/// The table that records make, or what is wrong with them.
pub open spec fn table_in_records(
    records: Seq<Seq<Seq<char>>>,
    complete: bool,
    columns: int,
) -> Result<Seq<Seq<Option<i64>>>, TableError> {
    match records_error(records, columns, records.len() as int) {
        Some(error) => Err(error),
        None => if complete {
            Ok(records_table(records, columns))
        } else {
            Err(TableError::Unreadable)
        },
    }
}

proof fn lemma_records_error(records: Seq<Seq<Seq<char>>>, columns: int, i: int, n: int)
    requires
        0 <= i <= n,
        records_error(records, columns, i) is Some,
    ensures
        records_error(records, columns, n) == records_error(records, columns, i),
    decreases n,
{
    if i < n {
        lemma_records_error(records, columns, i, n - 1);
    }
}

fn empty_columns(columns: usize) -> (r: Vec<Vec<Option<i64>>>)
    ensures
        r@.len() == columns,
        forall|c: int| 0 <= c < columns ==> (#[trigger] r@[c])@.len() == 0,
{
    let mut table: Vec<Vec<Option<i64>>> = Vec::new();
    let mut c: usize = 0;
    while c < columns
        invariant
            c <= columns,
            table@.len() == c,
            forall|c: int| 0 <= c < table@.len() ==> (#[trigger] table@[c])@.len() == 0,
        decreases columns - c,
    {
        table.push(Vec::new());
        c = c + 1;
    }
    table
}

/// Reads the cells of a record.
fn read_cells(record: &Vec<String>) -> (r: Option<Vec<Option<i64>>>)
    ensures
        match r {
            Some(cells) => cells@.len() == record@.len() && forall|c: int|
                0 <= c < cells@.len() ==> cell_in(fields_of(record@)[c]) == Some(
                    #[trigger] cells@[c],
                ),
            None => exists|c: int|
                0 <= c < record@.len() && cell_in(#[trigger] fields_of(record@)[c]) is None,
        },
{
    let mut cells: Vec<Option<i64>> = Vec::new();
    let mut c: usize = 0;
    while c < record.len()
        invariant
            c <= record@.len(),
            cells@.len() == c,
            forall|k: int|
                0 <= k < c ==> cell_in(fields_of(record@)[k]) == Some(#[trigger] cells@[k]),
        decreases record@.len() - c,
    {
        let text = chars_of(record[c].as_str());
        assert(fields_of(record@)[c as int] == text@);
        if text.len() == 0 {
            cells.push(None);
        } else {
            match read_signed(text.as_slice()) {
                Some(value) => {
                    cells.push(Some(value));
                },
                None => {
                    return None;
                },
            }
        }
        c = c + 1;
    }
    Some(cells)
}

/// Adds a value to each column.
fn push_cells(table: &mut Vec<Vec<Option<i64>>>, cells: &Vec<Option<i64>>)
    requires
        old(table)@.len() == cells@.len(),
    ensures
        final(table)@.len() == cells@.len(),
        forall|c: int|
            0 <= c < cells@.len() ==> (#[trigger] final(table)@[c])@ == old(table)@[c]@.push(
                cells@[c],
            ),
{
    let ghost before = table@;
    let mut c: usize = 0;
    while c < cells.len()
        invariant
            c <= cells@.len(),
            before == old(table)@,
            table@.len() == cells@.len() == before.len(),
            forall|k: int| 0 <= k < c ==> (#[trigger] table@[k])@ == before[k]@.push(cells@[k]),
            forall|k: int| c <= k < cells@.len() ==> #[trigger] table@[k] == before[k],
        decreases cells@.len() - c,
    {
        let value: Option<i64> = cells[c];
        table[c].push(value);
        c = c + 1;
    }
}

/// The columns of a table whose records were read: as far as they could be, or to
/// the end.
pub fn table_of_records(records: &[Vec<String>], complete: bool, columns: usize) -> (r: Result<
    Vec<Vec<Option<i64>>>,
    TableError,
>)
    ensures
        match table_in_records(records_of(records@), complete, columns as int) {
            Ok(table) => r matches Ok(found) && columns_of(found@) == table,
            Err(error) => r == Err::<Vec<Vec<Option<i64>>>, TableError>(error),
        },
{
    let ghost all = records_of(records@);
    let mut table = empty_columns(columns);
    let mut i: usize = 0;
    while i < records.len()
        invariant
            i <= records@.len(),
            all == records_of(records@),
            records_error(all, columns as int, i as int) is None,
            table@.len() == columns,
            forall|c: int|
                0 <= c < columns ==> (#[trigger] table@[c])@ == Seq::new(
                    i as nat,
                    |k: int| cell_in(all[k][c])->0,
                ),
        decreases records@.len() - i,
    {
        let record = &records[i];
        let ghost fields = fields_of(record@);
        assert(all[i as int] == fields);
        proof {
            if records_error(all, columns as int, i + 1) is Some {
                lemma_records_error(all, columns as int, i + 1, all.len() as int);
            }
        }
        if record.len() != columns {
            return Err(TableError::ColumnCount);
        }
        match read_cells(record) {
            Some(cells) => {
                let ghost before = table@;
                push_cells(&mut table, &cells);
                assert forall|c: int| 0 <= c < columns implies (#[trigger] table@[c])@ == Seq::new(
                    (i + 1) as nat,
                    |k: int| cell_in(all[k][c])->0,
                ) by {
                    assert(before[c]@ == Seq::new(i as nat, |k: int| cell_in(all[k][c])->0));
                    assert(cell_in(fields[c]) == Some(cells@[c]));
                    assert(table@[c]@ =~= Seq::new(
                        (i + 1) as nat,
                        |k: int| cell_in(all[k][c])->0,
                    ));
                }
                assert(record_error(fields, columns as int) is None) by {
                    assert forall|c: int| 0 <= c < columns implies cell_in(
                        #[trigger] fields[c],
                    ) is Some by {
                        assert(cell_in(fields[c]) == Some(cells@[c]));
                    }
                }
            },
            None => {
                return Err(TableError::NotNumber);
            },
        }
        i = i + 1;
    }
    assert(columns_of(table@) =~= records_table(all, columns as int));
    if complete {
        Ok(table)
    } else {
        Err(TableError::Unreadable)
    }
}

/// Reads a table of comma-separated values.
pub fn decode_csv_table(bytes: &[u8], columns: usize) -> (r: Result<
    Vec<Vec<Option<i64>>>,
    TableError,
>)
    ensures
        match table_in_records(csv_content(bytes@).0, csv_content(bytes@).1, columns as int) {
            Ok(table) => r matches Ok(found) && columns_of(found@) == table,
            Err(error) => r == Err::<Vec<Vec<Option<i64>>>, TableError>(error),
        },
{
    let (records, complete) = csv_records(bytes);
    table_of_records(records.as_slice(), complete, columns)
}

// ----- tables of batches -----

/// What is wrong with a batch.
pub open spec fn batch_error(batch: Seq<Option<Seq<Option<i64>>>>, columns: int) -> Option<
    TableError,
> {
    if batch.len() != columns {
        Some(TableError::ColumnCount)
    } else if exists|c: int| 0 <= c < columns && #[trigger] batch[c] is None {
        Some(TableError::NotInt64)
    } else {
        None
    }
}

/// What is wrong with the first of the first `n` batches that something is wrong
/// with.
pub open spec fn batches_error(
    batches: Seq<Seq<Option<Seq<Option<i64>>>>>,
    columns: int,
    n: int,
) -> Option<TableError>
    decreases n,
{
    if n <= 0 {
        None
    } else {
        match batches_error(batches, columns, n - 1) {
            Some(error) => Some(error),
            None => batch_error(batches[n - 1], columns),
        }
    }
}

/// A column of the first `n` batches.
pub open spec fn column_in(batches: Seq<Seq<Option<Seq<Option<i64>>>>>, c: int, n: int) -> Seq<
    Option<i64>,
>
    decreases n,
{
    if n <= 0 {
        Seq::empty()
    } else {
        column_in(batches, c, n - 1) + batches[n - 1][c]->0
    }
}

/// The table that batches make, or what is wrong with them.
pub open spec fn table_in_batches(
    batches: Seq<Seq<Option<Seq<Option<i64>>>>>,
    complete: bool,
    columns: int,
) -> Result<Seq<Seq<Option<i64>>>, TableError> {
    match batches_error(batches, columns, batches.len() as int) {
        Some(error) => Err(error),
        None => if complete {
            Ok(Seq::new(columns as nat, |c: int| column_in(batches, c, batches.len() as int)))
        } else {
            Err(TableError::Unreadable)
        },
    }
}

proof fn lemma_batches_error(
    batches: Seq<Seq<Option<Seq<Option<i64>>>>>,
    columns: int,
    i: int,
    n: int,
)
    requires
        0 <= i <= n,
        batches_error(batches, columns, i) is Some,
    ensures
        batches_error(batches, columns, n) == batches_error(batches, columns, i),
    decreases n,
{
    if i < n {
        lemma_batches_error(batches, columns, i, n - 1);
    }
}

/// Adds values at the end.
fn extend(list: &mut Vec<Option<i64>>, more: &Vec<Option<i64>>)
    ensures
        final(list)@ == old(list)@ + more@,
{
    let ghost before = list@;
    let mut i: usize = 0;
    while i < more.len()
        invariant
            i <= more@.len(),
            list@ == before + more@.take(i as int),
        decreases more@.len() - i,
    {
        list.push(more[i]);
        i = i + 1;
        assert(list@ =~= before + more@.take(i as int));
    }
    assert(more@.take(i as int) =~= more@);
}

/// Adds a batch to the columns, as far as they are of whole numbers. Tells whether
/// all are.
fn push_batch(table: &mut Vec<Vec<Option<i64>>>, batch: &Batch) -> (r: bool)
    requires
        old(table)@.len() == batch@.len(),
    ensures
        final(table)@.len() == batch@.len(),
        r == forall|c: int| 0 <= c < batch@.len() ==> #[trigger] batch_of(*batch)[c] is Some,
        r ==> forall|c: int|
            0 <= c < batch@.len() ==> (#[trigger] final(table)@[c])@ == old(table)@[c]@ + batch_of(
                *batch,
            )[c]->0,
{
    let ghost before = table@;
    let mut c: usize = 0;
    while c < batch.len()
        invariant
            c <= batch@.len(),
            before == old(table)@,
            table@.len() == batch@.len() == before.len(),
            forall|k: int| 0 <= k < c ==> #[trigger] batch_of(*batch)[k] is Some,
            forall|k: int|
                0 <= k < c ==> (#[trigger] table@[k])@ == before[k]@ + batch_of(*batch)[k]->0,
            forall|k: int| c <= k < batch@.len() ==> #[trigger] table@[k] == before[k],
        decreases batch@.len() - c,
    {
        assert(batch_of(*batch)[c as int] == column_of(batch@[c as int]));
        match &batch[c] {
            Some(values) => {
                extend(&mut table[c], values);
            },
            None => {
                return false;
            },
        }
        c = c + 1;
    }
    true
}

/// The columns of a table whose batches were read: as far as they could be, or to
/// the end.
pub fn table_of_batches(batches: &[Batch], complete: bool, columns: usize) -> (r: Result<
    Vec<Vec<Option<i64>>>,
    TableError,
>)
    ensures
        match table_in_batches(batches_of(batches@), complete, columns as int) {
            Ok(table) => r matches Ok(found) && columns_of(found@) == table,
            Err(error) => r == Err::<Vec<Vec<Option<i64>>>, TableError>(error),
        },
{
    let ghost all = batches_of(batches@);
    let mut table = empty_columns(columns);
    let mut i: usize = 0;
    assert forall|c: int| 0 <= c < columns implies (#[trigger] table@[c])@ == column_in(
        all,
        c,
        0,
    ) by {
        assert(table@[c]@ =~= Seq::<Option<i64>>::empty());
    }
    while i < batches.len()
        invariant
            i <= batches@.len(),
            all == batches_of(batches@),
            batches_error(all, columns as int, i as int) is None,
            table@.len() == columns,
            forall|c: int|
                0 <= c < columns ==> (#[trigger] table@[c])@ == column_in(all, c, i as int),
        decreases batches@.len() - i,
    {
        let batch = &batches[i];
        let ghost held = batch_of(*batch);
        assert(all[i as int] == held);
        proof {
            if batches_error(all, columns as int, i + 1) is Some {
                lemma_batches_error(all, columns as int, i + 1, all.len() as int);
            }
        }
        if batch.len() != columns {
            return Err(TableError::ColumnCount);
        }
        let ghost before = table@;
        if !push_batch(&mut table, batch) {
            return Err(TableError::NotInt64);
        }
        assert forall|c: int| 0 <= c < columns implies (#[trigger] table@[c])@ == column_in(
            all,
            c,
            i + 1,
        ) by {
            assert(before[c]@ == column_in(all, c, i as int));
        }
        i = i + 1;
    }
    assert(columns_of(table@) =~= Seq::new(
        columns as nat,
        |c: int| column_in(all, c, all.len() as int),
    ));
    if complete {
        Ok(table)
    } else {
        Err(TableError::Unreadable)
    }
}

/// Reads a table of a Parquet file that the writer made.
pub fn decode_parquet_table(bytes: &[u8], columns: usize) -> (r: Result<
    Vec<Vec<Option<i64>>>,
    TableError,
>)
    requires
        is_parquet(bytes@),
    ensures
        match table_in_batches(
            parquet_content(bytes@).0,
            parquet_content(bytes@).1,
            columns as int,
        ) {
            Ok(table) => r matches Ok(found) && columns_of(found@) == table,
            Err(error) => r == Err::<Vec<Vec<Option<i64>>>, TableError>(error),
        },
{
    let (batches, complete) = parquet_batches(bytes);
    table_of_batches(batches.as_slice(), complete, columns)
}

/// Reads a table of an ORC file that the writer made.
pub fn decode_orc_table(bytes: &[u8], columns: usize) -> (r: Result<
    Vec<Vec<Option<i64>>>,
    TableError,
>)
    requires
        is_orc(bytes@),
    ensures
        match table_in_batches(orc_content(bytes@).0, orc_content(bytes@).1, columns as int) {
            Ok(table) => r matches Ok(found) && columns_of(found@) == table,
            Err(error) => r == Err::<Vec<Vec<Option<i64>>>, TableError>(error),
        },
{
    let (batches, complete) = orc_batches(bytes);
    table_of_batches(batches.as_slice(), complete, columns)
}

// ----- tables that are written -----

proof fn lemma_schema_size(names: Seq<Seq<char>>, i: int, n: int)
    requires
        0 <= i <= n,
    ensures
        1024 * i <= schema_size(names, i) <= schema_size(names, n),
    decreases n,
{
    if i < n {
        lemma_schema_size(names, i, n - 1);
    } else if n > 0 {
        lemma_schema_size(names, i - 1, n - 1);
    }
}

fn can_name(names: &[String], columns: usize) -> (r: bool)
    ensures
        r == nameable(fields_of(names@), columns as int),
{
    let ghost texts = fields_of(names@);
    if names.len() != columns {
        return false;
    }
    let mut size: usize = 0;
    let mut i: usize = 0;
    while i < columns
        invariant
            i <= columns == names@.len(),
            texts == fields_of(names@),
            size == schema_size(texts, i as int),
            size <= SCHEMA_LIMIT,
        decreases columns - i,
    {
        let letters = chars_of(names[i].as_str());
        assert(letters@ == texts[i as int]);
        proof {
            lemma_schema_size(texts, i + 1, columns as int);
        }
        if letters.len() > SCHEMA_LIMIT || 4 * letters.len() + 1024 > SCHEMA_LIMIT - size {
            return false;
        }
        size = size + 4 * letters.len() + 1024;
        i = i + 1;
    }
    true
}

/// The least and the greatest value, if there is one.
fn extremes(values: &[Option<i64>]) -> (r: Option<(i64, i64)>)
    ensures
        match r {
            None => forall|i: int| 0 <= i < values@.len() ==> (#[trigger] values@[i]) is None,
            Some((low, high)) => {
                &&& lie_within(values@, low as int, high as int)
                &&& exists|i: int| 0 <= i < values@.len() && #[trigger] values@[i] == Some(low)
                &&& exists|i: int| 0 <= i < values@.len() && #[trigger] values@[i] == Some(high)
            },
        },
{
    let mut found: Option<(i64, i64)> = None;
    let mut i: usize = 0;
    while i < values.len()
        invariant
            i <= values@.len(),
            match found {
                None => forall|k: int| 0 <= k < i ==> (#[trigger] values@[k]) is None,
                Some((low, high)) => {
                    &&& low <= high
                    &&& forall|k: int|
                        0 <= k < i ==> value_in(#[trigger] values@[k], low as int, high as int)
                    &&& exists|k: int| 0 <= k < i && #[trigger] values@[k] == Some(low)
                    &&& exists|k: int| 0 <= k < i && #[trigger] values@[k] == Some(high)
                },
            },
        decreases values@.len() - i,
    {
        if let Some(value) = values[i] {
            assert(values@[i as int] == Some(value));
            found = match found {
                None => Some((value, value)),
                Some((low, high)) => Some(
                    (
                        if value < low {
                            value
                        } else {
                            low
                        },
                        if value > high {
                            value
                        } else {
                            high
                        },
                    ),
                ),
            };
        }
        i = i + 1;
    }
    found
}

fn are_close(values: &[Option<i64>]) -> (r: bool)
    ensures
        r == lie_close(values@),
{
    match extremes(values) {
        None => {
            assert(lie_within(values@, 0, ORC_SPREAD as int));
            true
        },
        Some((low, high)) => {
            let ghost at = choose|i: int|
                0 <= i < values@.len() && #[trigger] values@[i] == Some(low);
            let ghost top = choose|i: int|
                0 <= i < values@.len() && #[trigger] values@[i] == Some(high);
            let spread: i128 = high as i128 - low as i128;
            let close: bool = i64::MIN < low && spread <= ORC_SPREAD as i128;
            proof {
                if lie_close(values@) {
                    let (least, most) = choose|least: int, most: int|
                        i64::MIN < least && most - least <= ORC_SPREAD && #[trigger] lie_within(
                            values@,
                            least,
                            most,
                        );
                    assert(value_in(values@[at], least, most));
                    assert(value_in(values@[top], least, most));
                }
            }
            close
        },
    }
}

fn is_strict(values: &[Option<i64>], falling: bool) -> (r: bool)
    ensures
        r == strict(values@, falling),
{
    let mut last: Option<i64> = None;
    let ghost mut at: int = 0;
    let mut i: usize = 0;
    while i < values.len()
        invariant
            i <= values@.len(),
            forall|j: int, k: int|
                0 <= j < k < i && (#[trigger] values@[j]) is Some && (#[trigger] values@[k])
                    is Some ==> if falling {
                    values@[j]->0 > values@[k]->0
                } else {
                    values@[j]->0 < values@[k]->0
                },
            match last {
                None => forall|k: int| 0 <= k < i ==> (#[trigger] values@[k]) is None,
                Some(value) => {
                    &&& 0 <= at < i
                    &&& values@[at] == Some(value)
                    &&& forall|k: int| at < k < i ==> (#[trigger] values@[k]) is None
                },
            },
        decreases values@.len() - i,
    {
        if let Some(value) = values[i] {
            if let Some(before) = last {
                if (falling && before <= value) || (!falling && before >= value) {
                    assert(values@[at] is Some && values@[i as int] is Some);
                    return false;
                }
            }
            last = Some(value);
            proof {
                at = i as int;
            }
        }
        i = i + 1;
    }
    true
}

fn class_of(value: i64) -> (r: u8)
    ensures
        r == size_class(value),
{
    let size: i64 = if value < 0 {
        -(value + 1)
    } else {
        value
    };
    if size < 0x80_0000 {
        0
    } else if size < 0x200_0000 {
        1
    } else if size < 0x800_0000 {
        2
    } else if size < 0x2000_0000 {
        3
    } else if size < 0x8000_0000 {
        4
    } else if size < 0x80_0000_0000 {
        5
    } else if size < 0x8000_0000_0000 {
        6
    } else if size < 0x80_0000_0000_0000 {
        7
    } else {
        8
    }
}

fn are_alike(values: &[Option<i64>]) -> (r: bool)
    ensures
        r == alike(values@),
{
    let mut class: u8 = 0;
    let mut found: bool = false;
    let ghost mut first: int = 0;
    let mut i: usize = 0;
    while i < values.len()
        invariant
            i <= values@.len(),
            !found ==> forall|k: int| 0 <= k < i ==> (#[trigger] values@[k]) is None,
            found ==> 0 <= first < i && values@[first] is Some && class == size_class(
                values@[first]->0,
            ),
            found ==> forall|k: int|
                0 <= k < i ==> ((#[trigger] values@[k]) matches Some(value) ==> value != i64::MIN
                    && size_class(value) == class),
        decreases values@.len() - i,
    {
        if let Some(value) = values[i] {
            let own: u8 = class_of(value);
            if value == i64::MIN || (found && own != class) {
                proof {
                    if alike(values@) {
                        let shared = choose|class: int| #[trigger] of_class(values@, class);
                        assert(values@[i as int] is Some);
                        assert(found ==> values@[first] is Some);
                    }
                }
                return false;
            }
            if !found {
                found = true;
                class = own;
                proof {
                    first = i as int;
                }
            }
        }
        i = i + 1;
    }
    assert(of_class(values@, class as int));
    true
}

/// Writes columns as comma-separated values: the names, and a record for each row
/// that every column has, with nothing for a null. Nothing is written where there are
/// rows, but not as many names as columns.
pub fn csv_table(names: &[String], columns: &[Vec<Option<i64>>]) -> (r: Option<Vec<u8>>)
    ensures
        file_of(r) == csv_file(fields_of(names@), columns_of(columns@)),
{
    let ghost list = columns_of(columns@);
    let rows: usize = shared_rows(columns);
    let mut header: Vec<String> = Vec::new();
    let mut i: usize = 0;
    while i < names.len()
        invariant
            i <= names@.len(),
            header@.len() == i,
            forall|k: int| 0 <= k < i ==> (#[trigger] header@[k])@ == names@[k]@,
        decreases names@.len() - i,
    {
        header.push(names[i].clone());
        i = i + 1;
    }
    assert(fields_of(header@) =~= fields_of(names@));
    let mut records: Vec<Vec<String>> = Vec::new();
    records.push(header);
    let mut row: usize = 0;
    while row < rows
        invariant
            row <= rows,
            list == columns_of(columns@),
            rows == rows_shared(list, list.len() as int),
            records@.len() == row + 1,
            fields_of(records@[0]@) == fields_of(names@),
            forall|k: int|
                0 <= k < row ==> fields_of((#[trigger] records@[k + 1])@) == row_cells(list, k),
        decreases rows - row,
    {
        let record = row_record(columns, row);
        records.push(record);
        row = row + 1;
    }
    proof {
        let all = records_of(records@);
        let wanted = table_records(fields_of(names@), list);
        assert forall|k: int| 0 <= k < all.len() implies #[trigger] all[k] == wanted[k] by {
            if k > 0 {
                assert(fields_of(records@[(k - 1) + 1]@) == row_cells(list, k - 1));
            }
        }
        assert(all =~= wanted);
    }
    write_csv(records.as_slice())
}

/// As many rows as each of the first `n` columns has.
pub open spec fn rows_shared(columns: Seq<Seq<Option<i64>>>, n: int) -> int
    decreases n,
{
    if n <= 0 {
        0
    } else if n == 1 || columns[n - 1].len() < rows_shared(columns, n - 1) {
        columns[n - 1].len() as int
    } else {
        rows_shared(columns, n - 1)
    }
}

proof fn lemma_rows_shared(columns: Seq<Seq<Option<i64>>>, n: int, c: int)
    requires
        0 <= c < n,
    ensures
        0 <= rows_shared(columns, n) <= columns[c].len(),
    decreases n,
{
    if c < n - 1 {
        lemma_rows_shared(columns, n - 1, c);
    } else if n > 1 {
        lemma_rows_shared(columns, n - 1, 0);
    }
}

fn shared_rows(columns: &[Vec<Option<i64>>]) -> (r: usize)
    ensures
        r == rows_shared(columns_of(columns@), columns@.len() as int),
{
    let ghost list = columns_of(columns@);
    let mut rows: usize = 0;
    let mut c: usize = 0;
    while c < columns.len()
        invariant
            c <= columns@.len(),
            list == columns_of(columns@),
            rows == rows_shared(list, c as int),
        decreases columns@.len() - c,
    {
        assert(list[c as int] == columns@[c as int]@);
        if c == 0 || columns[c].len() < rows {
            rows = columns[c].len();
        }
        c = c + 1;
    }
    rows
}

/// The text of a value in a record.
pub open spec fn cell_text(value: Option<i64>) -> Seq<char> {
    match value {
        Some(value) => signed_decimal(value as int),
        None => Seq::empty(),
    }
}

/// The texts of a row.
pub open spec fn row_cells(columns: Seq<Seq<Option<i64>>>, row: int) -> Seq<Seq<char>> {
    Seq::new(columns.len(), |c: int| cell_text(columns[c][row]))
}

/// The names, and the texts of each row that every column has.
pub open spec fn table_records(
    names: Seq<Seq<char>>,
    columns: Seq<Seq<Option<i64>>>,
) -> Seq<Seq<Seq<char>>> {
    Seq::new(
        (rows_shared(columns, columns.len() as int) + 1) as nat,
        |k: int|
            if k == 0 {
                names
            } else {
                row_cells(columns, k - 1)
            },
    )
}

fn row_record(columns: &[Vec<Option<i64>>], row: usize) -> (r: Vec<String>)
    requires
        row < rows_shared(columns_of(columns@), columns@.len() as int),
    ensures
        fields_of(r@) == row_cells(columns_of(columns@), row as int),
{
    let ghost list = columns_of(columns@);
    let mut record: Vec<String> = Vec::new();
    let mut c: usize = 0;
    while c < columns.len()
        invariant
            c <= columns@.len(),
            list == columns_of(columns@),
            row < rows_shared(list, columns@.len() as int),
            record@.len() == c,
            forall|k: int| 0 <= k < c ==> (#[trigger] record@[k])@ == cell_text(list[k][row as int]),
        decreases columns@.len() - c,
    {
        proof {
            lemma_rows_shared(list, columns@.len() as int, c as int);
            assert(list[c as int] == columns@[c as int]@);
        }
        let text = match columns[c][row] {
            Some(value) => signed_text(value as i128),
            None => {
                let text = String::new();
                assert(text@ =~= Seq::<char>::empty());
                text
            },
        };
        record.push(text);
        c = c + 1;
    }
    assert(fields_of(record@) =~= row_cells(list, row as int));
    record
}

/// Writes columns as a Parquet file. Nothing is written where they cannot be named, or
/// where the writer refuses them.
pub fn parquet_table(names: &[String], columns: &[Vec<Option<i64>>], delta: bool) -> (r: Option<
    Vec<u8>,
>)
    ensures
        file_of(r) == parquet_file(fields_of(names@), columns_of(columns@), delta),
        r matches Some(bytes) ==> is_parquet(bytes@),
{
    if !can_name(names, columns.len()) {
        return None;
    }
    if delta {
        write_parquet_delta(names, columns)
    } else {
        write_parquet_dictionary(names, columns)
    }
}

/// Writes columns as an ORC file. Nothing is written where they cannot be named, where
/// the writer may not store their values, or where it refuses them.
pub fn orc_table(names: &[String], columns: &[Vec<Option<i64>>]) -> (r: Option<Vec<u8>>)
    ensures
        file_of(r) == orc_file(fields_of(names@), columns_of(columns@)),
        r matches Some(bytes) ==> is_orc(bytes@),
{
    if !can_name(names, columns.len()) {
        return None;
    }
    let ghost list = columns_of(columns@);
    let mut c: usize = 0;
    while c < columns.len()
        invariant
            c <= columns@.len(),
            list == columns_of(columns@),
            forall|k: int| 0 <= k < c ==> storable(#[trigger] list[k]),
        decreases columns@.len() - c,
    {
        assert(list[c as int] == columns@[c as int]@);
        let values = columns[c].as_slice();
        if values.len() > 3 && !are_close(values) && !is_strict(values, false) && !is_strict(values, true)
            && !are_alike(values) {
            return None;
        }
        c = c + 1;
    }
    write_orc(names, columns)
}

// ----- claims -----

/// Values by name, in the order in which they were stated.
#[derive(Debug)]
pub struct Claims {
    pub entries: Vec<(String, String)>,
}

/// The value that the last of the first `n` records of a name states.
pub open spec fn claim_in(entries: Seq<(Seq<char>, Seq<char>)>, name: Seq<char>, n: int) -> Option<
    Seq<char>,
>
    decreases n,
{
    if n <= 0 {
        None
    } else if entries[n - 1].0 == name {
        Some(entries[n - 1].1)
    } else {
        claim_in(entries, name, n - 1)
    }
}

impl View for Claims {
    type V = Seq<(Seq<char>, Seq<char>)>;

    open spec fn view(&self) -> Seq<(Seq<char>, Seq<char>)> {
        Seq::new(self.entries@.len(), |i: int| (self.entries@[i].0@, self.entries@[i].1@))
    }
}

/// How many of the first `n` records, from the first on, have a name and a value.
pub open spec fn whole_records(records: Seq<Seq<Seq<char>>>, n: int) -> int
    decreases n,
{
    if n <= 0 {
        0
    } else {
        let before = whole_records(records, n - 1);
        if before == n - 1 && records[n - 1].len() >= 2 {
            n
        } else {
            before
        }
    }
}

/// The names and values of records.
pub open spec fn pairs_of(records: Seq<Seq<Seq<char>>>) -> Seq<(Seq<char>, Seq<char>)> {
    Seq::new(records.len(), |i: int| (records[i][0], records[i][1]))
}

/// What reading claims from records gives.
pub open spec fn claims_read(
    r: Result<Claims, TableError>,
    records: Seq<Seq<Seq<char>>>,
    complete: bool,
) -> bool {
    let whole = whole_records(records, records.len() as int);
    if whole < records.len() {
        if records[whole].len() == 0 {
            r matches Err(TableError::NameAbsent)
        } else {
            r matches Err(TableError::ValueAbsent(name)) && name@ == records[whole][0]
        }
    } else if complete {
        r matches Ok(claims) && claims@ == pairs_of(records)
    } else {
        r matches Err(TableError::Unreadable)
    }
}

proof fn lemma_whole_records(records: Seq<Seq<Seq<char>>>, i: int, n: int)
    requires
        0 <= i < n,
        whole_records(records, i) == i,
        records[i].len() < 2,
    ensures
        whole_records(records, n) == i,
    decreases n,
{
    if i < n - 1 {
        lemma_whole_records(records, i, n - 1);
    }
}

/// The claims of records.
pub fn claims_of_records(records: &[Vec<String>], complete: bool) -> (r: Result<
    Claims,
    TableError,
>)
    ensures
        claims_read(r, records_of(records@), complete),
{
    let ghost all = records_of(records@);
    let mut entries: Vec<(String, String)> = Vec::new();
    let mut i: usize = 0;
    while i < records.len()
        invariant
            i <= records@.len(),
            all == records_of(records@),
            whole_records(all, i as int) == i,
            entries@.len() == i,
            forall|k: int|
                0 <= k < i ==> (#[trigger] entries@[k]).0@ == all[k][0] && entries@[k].1@
                    == all[k][1],
        decreases records@.len() - i,
    {
        let record = &records[i];
        assert(all[i as int] == fields_of(record@));
        if record.len() < 2 {
            proof {
                lemma_whole_records(all, i as int, all.len() as int);
            }
            if record.len() == 0 {
                return Err(TableError::NameAbsent);
            }
            return Err(TableError::ValueAbsent(record[0].clone()));
        }
        entries.push((record[0].clone(), record[1].clone()));
        i = i + 1;
    }
    let claims = Claims { entries };
    assert(claims@ =~= pairs_of(all));
    if complete {
        Ok(claims)
    } else {
        Err(TableError::Unreadable)
    }
}

/// Reads the claims of comma-separated values.
pub fn read_claim_manifest(bytes: &[u8]) -> (r: Result<Claims, TableError>)
    ensures
        claims_read(r, csv_content(bytes@).0, csv_content(bytes@).1),
{
    let (records, complete) = csv_records(bytes);
    claims_of_records(records.as_slice(), complete)
}

/// The value of a claim.
pub fn claim_value(claims: &Claims, name: &str) -> (r: Result<String, TableError>)
    ensures
        match claim_in(claims@, name@, claims@.len() as int) {
            Some(value) => r matches Ok(found) && found@ == value,
            None => r matches Err(TableError::ClaimAbsent(of)) && of@ == name@,
        },
{
    let wanted = String::from_str(name);
    let mut n: usize = claims.entries.len();
    while n > 0
        invariant
            n <= claims@.len() == claims.entries@.len(),
            wanted@ == name@,
            claim_in(claims@, name@, claims@.len() as int) == claim_in(claims@, name@, n as int),
        decreases n,
    {
        assert(claims@[n - 1].0 == claims.entries@[n - 1].0@);
        if claims.entries[n - 1].0 == wanted {
            return Ok(claims.entries[n - 1].1.clone());
        }
        n = n - 1;
    }
    Err(TableError::ClaimAbsent(wanted))
}

} // verus!
