//! The files that hold the example, and whether they give its values back.
use super::formats::{
    csv_table, decode_csv_table, decode_orc_table, decode_parquet_table, orc_table, parquet_table,
    TableError,
};
#[allow(unused_imports)]
use super::formats::{
    columns_of, csv_content, csv_file, file_of, is_orc, is_parquet, orc_content, orc_file,
    parquet_content, parquet_file, table_in_batches, table_in_records,
};
use super::report::{manifest, Artifact};
#[allow(unused_imports)]
use super::report::{artifact_bytes, manifest_text};
#[allow(unused_imports)]
use super::table::fields_of;
use super::walkthrough::{ExampleColumn, FormatRow};
#[allow(unused_imports)]
use vstd::string::*;
use vstd::prelude::*;

verus! {

/// Why the files of an example are not what they should be.
#[derive(Debug, PartialEq, Eq)]
pub enum FormatError {
    /// A file cannot be written.
    Unwritten,
    /// A file cannot be read.
    Unread(TableError),
    /// The comma-separated values are others.
    CsvDiffers,
    /// The values of a Parquet file are others.
    ParquetDiffers,
    /// The values of the ORC file are others.
    OrcDiffers,
    /// The values of a file of the column are others.
    ColumnDiffers(String),
    /// More bytes are counted than can be.
    TotalOverflow,
}

/// The values of the example.
pub open spec fn values_of(examples: Seq<ExampleColumn>) -> Seq<Seq<Option<i64>>> {
    Seq::new(examples.len(), |c: int| examples[c].values@)
}

fn same_value(left: Option<i64>, right: Option<i64>) -> (r: bool)
    ensures
        r == (left == right),
{
    match (left, right) {
        (Some(a), Some(b)) => a == b,
        (None, None) => true,
        _ => false,
    }
}

fn same_column(left: &Vec<Option<i64>>, right: &Vec<Option<i64>>) -> (r: bool)
    ensures
        r == (left@ == right@),
{
    if left.len() != right.len() {
        return false;
    }
    let mut i: usize = 0;
    while i < left.len()
        invariant
            i <= left@.len() == right@.len(),
            forall|k: int| 0 <= k < i ==> left@[k] == right@[k],
        decreases left@.len() - i,
    {
        if !same_value(left[i], right[i]) {
            return false;
        }
        i = i + 1;
    }
    assert(left@ =~= right@);
    true
}

/// Whether a table holds the values of the example.
pub fn same_table(found: &Vec<Vec<Option<i64>>>, examples: &[ExampleColumn]) -> (r: bool)
    ensures
        r == (columns_of(found@) == values_of(examples@)),
{
    let ghost columns = columns_of(found@);
    let ghost expected = values_of(examples@);
    if found.len() != examples.len() {
        assert(columns.len() != expected.len());
        return false;
    }
    let mut c: usize = 0;
    while c < found.len()
        invariant
            c <= found@.len() == examples@.len(),
            columns == columns_of(found@),
            expected == values_of(examples@),
            forall|k: int| 0 <= k < c ==> columns[k] == expected[k],
        decreases found@.len() - c,
    {
        if !same_column(&found[c], &examples[c].values) {
            assert(columns[c as int] != expected[c as int]);
            return false;
        }
        c = c + 1;
    }
    assert(columns =~= expected);
    true
}

/// What is wrong with a table that was read, if it should be the example.
pub open spec fn table_fault(
    read: Result<Seq<Seq<Option<i64>>>, TableError>,
    expected: Seq<Seq<Option<i64>>>,
    differs: FormatError,
) -> Option<FormatError> {
    match read {
        Err(e) => Some(FormatError::Unread(e)),
        Ok(table) => if table == expected {
            None
        } else {
            Some(differs)
        },
    }
}

/// The first fault of the four files.
pub open spec fn tables_fault(
    csv: Result<Seq<Seq<Option<i64>>>, TableError>,
    dictionary: Result<Seq<Seq<Option<i64>>>, TableError>,
    delta: Result<Seq<Seq<Option<i64>>>, TableError>,
    orc: Result<Seq<Seq<Option<i64>>>, TableError>,
    expected: Seq<Seq<Option<i64>>>,
) -> Option<FormatError> {
    let first = table_fault(csv, expected, FormatError::CsvDiffers);
    let second = table_fault(dictionary, expected, FormatError::ParquetDiffers);
    let third = table_fault(delta, expected, FormatError::ParquetDiffers);
    if first is Some {
        first
    } else if second is Some {
        second
    } else if third is Some {
        third
    } else {
        table_fault(orc, expected, FormatError::OrcDiffers)
    }
}

/// A table as a value.
pub open spec fn table_of(read: Result<Vec<Vec<Option<i64>>>, TableError>) -> Result<
    Seq<Seq<Option<i64>>>,
    TableError,
> {
    match read {
        Ok(table) => Ok(columns_of(table@)),
        Err(e) => Err(e),
    }
}

/// Checks a table that was read.
pub fn check_table(
    read: Result<Vec<Vec<Option<i64>>>, TableError>,
    examples: &[ExampleColumn],
    differs: FormatError,
) -> (r: Result<(), FormatError>)
    ensures
        match table_fault(table_of(read), values_of(examples@), differs) {
            None => r == Ok::<(), FormatError>(()),
            Some(fault) => r == Err::<(), FormatError>(fault),
        },
{
    match read {
        Err(e) => Err(FormatError::Unread(e)),
        Ok(table) => if same_table(&table, examples) {
            Ok(())
        } else {
            Err(differs)
        },
    }
}

/// What the four files give, if each is read as a table of the example's width.
pub open spec fn files_fault(
    csv: Seq<u8>,
    parquet_dictionary: Seq<u8>,
    parquet_delta: Seq<u8>,
    orc: Seq<u8>,
    examples: Seq<ExampleColumn>,
) -> Option<FormatError> {
    let columns = examples.len() as int;
    tables_fault(
        table_in_records(csv_content(csv).0, csv_content(csv).1, columns),
        table_in_batches(
            parquet_content(parquet_dictionary).0,
            parquet_content(parquet_dictionary).1,
            columns,
        ),
        table_in_batches(
            parquet_content(parquet_delta).0,
            parquet_content(parquet_delta).1,
            columns,
        ),
        table_in_batches(orc_content(orc).0, orc_content(orc).1, columns),
        values_of(examples),
    )
}

/// Checks that each file of the example gives its values back.
pub fn verify_tables(
    csv: &[u8],
    parquet_dictionary: &[u8],
    parquet_delta: &[u8],
    orc: &[u8],
    examples: &[ExampleColumn],
) -> (r: Result<(), FormatError>)
    requires
        is_parquet(parquet_dictionary@),
        is_parquet(parquet_delta@),
        is_orc(orc@),
    ensures
        match files_fault(csv@, parquet_dictionary@, parquet_delta@, orc@, examples@) {
            None => r == Ok::<(), FormatError>(()),
            Some(fault) => r == Err::<(), FormatError>(fault),
        },
{
    let columns: usize = examples.len();
    match check_table(decode_csv_table(csv, columns), examples, FormatError::CsvDiffers) {
        Ok(()) => {},
        Err(fault) => {
            return Err(fault);
        },
    }
    match check_table(
        decode_parquet_table(parquet_dictionary, columns),
        examples,
        FormatError::ParquetDiffers,
    ) {
        Ok(()) => {},
        Err(fault) => {
            return Err(fault);
        },
    }
    match check_table(
        decode_parquet_table(parquet_delta, columns),
        examples,
        FormatError::ParquetDiffers,
    ) {
        Ok(()) => {},
        Err(fault) => {
            return Err(fault);
        },
    }
    check_table(decode_orc_table(orc, columns), examples, FormatError::OrcDiffers)
}

/// The files that hold an example.
#[derive(Debug, PartialEq, Eq)]
pub struct TableFiles {
    pub csv: Vec<u8>,
    pub parquet_dictionary: Vec<u8>,
    pub parquet_delta: Vec<u8>,
    pub orc: Vec<u8>,
}

/// The names of the columns.
pub open spec fn names_of(examples: Seq<ExampleColumn>) -> Seq<Seq<char>> {
    Seq::new(examples.len(), |c: int| examples[c].name@)
}

/// The bytes of the files: comma-separated values, Parquet with dictionaries, Parquet with
/// differences, and ORC.
pub open spec fn file_bytes(files: TableFiles) -> (Seq<u8>, Seq<u8>, Seq<u8>, Seq<u8>) {
    (files.csv@, files.parquet_dictionary@, files.parquet_delta@, files.orc@)
}

/// The four files, if each is there.
pub open spec fn all_files(
    csv: Option<Seq<u8>>,
    parquet_dictionary: Option<Seq<u8>>,
    parquet_delta: Option<Seq<u8>>,
    orc: Option<Seq<u8>>,
) -> Option<(Seq<u8>, Seq<u8>, Seq<u8>, Seq<u8>)> {
    match (csv, parquet_dictionary, parquet_delta, orc) {
        (Some(csv), Some(dictionary), Some(delta), Some(orc)) => Some(
            (csv, dictionary, delta, orc),
        ),
        _ => None,
    }
}

/// The files of an example, if each can be written.
pub open spec fn example_files(examples: Seq<ExampleColumn>) -> Option<
    (Seq<u8>, Seq<u8>, Seq<u8>, Seq<u8>),
> {
    let names = names_of(examples);
    let columns = values_of(examples);
    all_files(
        csv_file(names, columns),
        parquet_file(names, columns, false),
        parquet_file(names, columns, true),
        orc_file(names, columns),
    )
}

/// Gathers the files that were written, if each was.
pub fn gather_files(
    csv: Option<Vec<u8>>,
    parquet_dictionary: Option<Vec<u8>>,
    parquet_delta: Option<Vec<u8>>,
    orc: Option<Vec<u8>>,
) -> (r: Option<TableFiles>)
    ensures
        match all_files(
            file_of(csv),
            file_of(parquet_dictionary),
            file_of(parquet_delta),
            file_of(orc),
        ) {
            Some(bytes) => r matches Some(files) && file_bytes(files) == bytes,
            None => r is None,
        },
{
    match (csv, parquet_dictionary, parquet_delta, orc) {
        (Some(csv), Some(parquet_dictionary), Some(parquet_delta), Some(orc)) => Some(
            TableFiles { csv, parquet_dictionary, parquet_delta, orc },
        ),
        _ => None,
    }
}

fn copied(values: &Vec<Option<i64>>) -> (r: Vec<Option<i64>>)
    ensures
        r@ == values@,
{
    let mut copy: Vec<Option<i64>> = Vec::new();
    let mut i: usize = 0;
    while i < values.len()
        invariant
            i <= values@.len(),
            copy@ == values@.subrange(0, i as int),
        decreases values@.len() - i,
    {
        copy.push(values[i]);
        assert(copy@ =~= values@.subrange(0, i + 1));
        i = i + 1;
    }
    assert(copy@ =~= values@);
    copy
}

/// Writes the files of an example, if each can be written.
pub fn write_tables(examples: &[ExampleColumn]) -> (r: Option<TableFiles>)
    ensures
        match example_files(examples@) {
            Some(bytes) => r matches Some(files) && file_bytes(files) == bytes,
            None => r is None,
        },
        r matches Some(files) ==> is_parquet(files.parquet_dictionary@) && is_parquet(
            files.parquet_delta@,
        ) && is_orc(files.orc@),
{
    let mut names: Vec<String> = Vec::new();
    let mut columns: Vec<Vec<Option<i64>>> = Vec::new();
    let mut c: usize = 0;
    while c < examples.len()
        invariant
            c <= examples@.len(),
            names@.len() == c,
            columns@.len() == c,
            forall|k: int| 0 <= k < c ==> (#[trigger] names@[k])@ == examples@[k].name@,
            forall|k: int| 0 <= k < c ==> (#[trigger] columns@[k])@ == examples@[k].values@,
        decreases examples@.len() - c,
    {
        names.push(examples[c].name.clone());
        columns.push(copied(&examples[c].values));
        c = c + 1;
    }
    proof {
        assert(fields_of(names@) =~= names_of(examples@));
        assert(columns_of(columns@) =~= values_of(examples@));
    }
    let csv = csv_table(names.as_slice(), columns.as_slice());
    let parquet_dictionary = parquet_table(names.as_slice(), columns.as_slice(), false);
    let parquet_delta = parquet_table(names.as_slice(), columns.as_slice(), true);
    let orc = orc_table(names.as_slice(), columns.as_slice());
    gather_files(csv, parquet_dictionary, parquet_delta, orc)
}

/// Writes the files of an example, and checks that each gives its values back.
pub fn write_and_verify_formats(examples: &[ExampleColumn]) -> (r: Result<TableFiles, FormatError>)
    ensures
        match example_files(examples@) {
            None => r == Err::<TableFiles, FormatError>(FormatError::Unwritten),
            Some(bytes) => match files_fault(bytes.0, bytes.1, bytes.2, bytes.3, examples@) {
                Some(fault) => r == Err::<TableFiles, FormatError>(fault),
                None => r matches Ok(files) && file_bytes(files) == bytes,
            },
        },
{
    let files = match write_tables(examples) {
        Some(files) => files,
        None => {
            return Err(FormatError::Unwritten);
        },
    };
    match verify_tables(
        files.csv.as_slice(),
        files.parquet_dictionary.as_slice(),
        files.parquet_delta.as_slice(),
        files.orc.as_slice(),
        examples,
    ) {
        Ok(()) => Ok(files),
        Err(fault) => Err(fault),
    }
}

// ----- files of single columns -----

/// The files of one column: how long each is, and the values that it gives back.
#[derive(Debug)]
pub struct ColumnFiles {
    pub raw_bytes: usize,
    pub raw: Vec<Option<i64>>,
    pub raw_zstd_bytes: usize,
    pub raw_zstd: Vec<Option<i64>>,
    pub pco_bytes: usize,
    pub pco: Vec<Option<i64>>,
}

/// The manifests of the files of single columns, and the bytes of all of each kind.
#[derive(Debug, PartialEq, Eq)]
pub struct ColumnManifests {
    pub raw: (String, usize),
    pub raw_zstd: (String, usize),
    pub pco: (String, usize),
}

/// The files of a column give its values back.
pub open spec fn gives_back(files: ColumnFiles, values: Seq<Option<i64>>) -> bool {
    files.raw@ == values && files.raw_zstd@ == values && files.pco@ == values
}

/// The first of the first `n` columns whose files do not give its values back.
pub open spec fn first_other(
    examples: Seq<ExampleColumn>,
    files: Seq<ColumnFiles>,
    n: int,
) -> Option<int>
    decreases n,
{
    if n <= 0 {
        None
    } else if first_other(examples, files, n - 1) is Some {
        first_other(examples, files, n - 1)
    } else if gives_back(files[n - 1], examples[n - 1].values@) {
        None
    } else {
        Some(n - 1)
    }
}

/// An artifact of the column and this many bytes, named after it.
pub open spec fn is_artifact(
    artifact: Artifact,
    column: Seq<char>,
    bytes: usize,
    ending: Seq<char>,
) -> bool {
    artifact.column@ == column && artifact.bytes == bytes && artifact.name@ == column + ending
}

/// What stands behind the name of a column in that of a file.
pub open spec fn ending_of(kind: FileKind) -> Seq<char> {
    match kind {
        FileKind::Raw => ".rawi64"@,
        FileKind::RawZstd => ".rawi64.zst"@,
        FileKind::Pco => ".pco"@,
    }
}

/// The kinds of files of single columns.
#[derive(Clone, Copy, Debug, PartialEq, Eq, Structural)]
pub enum FileKind {
    Raw,
    RawZstd,
    Pco,
}

/// The bytes of the file of a kind.
pub open spec fn length_of(files: ColumnFiles, kind: FileKind) -> usize {
    match kind {
        FileKind::Raw => files.raw_bytes,
        FileKind::RawZstd => files.raw_zstd_bytes,
        FileKind::Pco => files.pco_bytes,
    }
}

/// The artifacts of a kind, one for each column.
pub open spec fn lists_artifacts(
    artifacts: Seq<Artifact>,
    examples: Seq<ExampleColumn>,
    files: Seq<ColumnFiles>,
    kind: FileKind,
) -> bool {
    &&& artifacts.len() == examples.len()
    &&& forall|c: int|
        0 <= c < examples.len() ==> is_artifact(
            #[trigger] artifacts[c],
            examples[c].name@,
            length_of(files[c], kind),
            ending_of(kind),
        )
}

/// The bytes of the files of a kind of the first `n` columns.
pub open spec fn total_of(files: Seq<ColumnFiles>, kind: FileKind, n: int) -> int
    decreases n,
{
    if n <= 0 {
        0
    } else {
        total_of(files, kind, n - 1) + length_of(files[n - 1], kind)
    }
}

/// A manifest of the files of a kind, and the bytes of all of them.
pub open spec fn is_manifest(
    found: (String, usize),
    examples: Seq<ExampleColumn>,
    files: Seq<ColumnFiles>,
    kind: FileKind,
) -> bool {
    &&& exists|artifacts: Seq<Artifact>| #[trigger]
        lists_artifacts(artifacts, examples, files, kind) && found.0@ == manifest_text(artifacts)
    &&& found.1 == total_of(files, kind, examples.len() as int)
}

fn kind_artifacts(examples: &[ExampleColumn], files: &[ColumnFiles], kind: FileKind) -> (r: Vec<
    Artifact,
>)
    requires
        files@.len() == examples@.len(),
    ensures
        lists_artifacts(r@, examples@, files@, kind),
{
    let mut artifacts: Vec<Artifact> = Vec::new();
    let mut c: usize = 0;
    while c < examples.len()
        invariant
            c <= examples@.len() == files@.len(),
            artifacts@.len() == c,
            forall|k: int|
                0 <= k < c ==> is_artifact(
                    #[trigger] artifacts@[k],
                    examples@[k].name@,
                    length_of(files@[k], kind),
                    ending_of(kind),
                ),
        decreases examples@.len() - c,
    {
        let (bytes, ending) = match kind {
            FileKind::Raw => (files[c].raw_bytes, ".rawi64"),
            FileKind::RawZstd => (files[c].raw_zstd_bytes, ".rawi64.zst"),
            FileKind::Pco => (files[c].pco_bytes, ".pco"),
        };
        let column = examples[c].name.clone();
        let mut name = examples[c].name.clone();
        name.append(ending);
        artifacts.push(Artifact { column, bytes, name });
        c = c + 1;
    }
    artifacts
}

proof fn lemma_totals(
    artifacts: Seq<Artifact>,
    examples: Seq<ExampleColumn>,
    files: Seq<ColumnFiles>,
    kind: FileKind,
    n: int,
)
    requires
        lists_artifacts(artifacts, examples, files, kind),
        n <= examples.len(),
    ensures
        artifact_bytes(artifacts, n) == total_of(files, kind, n),
    decreases n,
{
    if n > 0 {
        lemma_totals(artifacts, examples, files, kind, n - 1);
        assert(is_artifact(
            artifacts[n - 1],
            examples[n - 1].name@,
            length_of(files[n - 1], kind),
            ending_of(kind),
        ));
    }
}

proof fn lemma_total_grows(files: Seq<ColumnFiles>, kind: FileKind, i: int, n: int)
    requires
        0 <= i <= n,
    ensures
        0 <= total_of(files, kind, i) <= total_of(files, kind, n),
    decreases n,
{
    if i < n {
        lemma_total_grows(files, kind, i, n - 1);
    } else if n > 0 {
        lemma_total_grows(files, kind, i - 1, n - 1);
    }
}

/// The manifest of the files of a kind, if their bytes can be counted.
fn kind_manifest(examples: &[ExampleColumn], files: &[ColumnFiles], kind: FileKind) -> (r: Option<
    (String, usize),
>)
    requires
        files@.len() == examples@.len(),
    ensures
        if total_of(files@, kind, examples@.len() as int) <= usize::MAX {
            r matches Some(found) && is_manifest(found, examples@, files@, kind)
        } else {
            r is None
        },
{
    let artifacts = kind_artifacts(examples, files, kind);
    let mut total: usize = 0;
    let mut c: usize = 0;
    while c < files.len()
        invariant
            c <= files@.len() == examples@.len(),
            total == total_of(files@, kind, c as int),
        decreases files@.len() - c,
    {
        let bytes: usize = match kind {
            FileKind::Raw => files[c].raw_bytes,
            FileKind::RawZstd => files[c].raw_zstd_bytes,
            FileKind::Pco => files[c].pco_bytes,
        };
        proof {
            lemma_total_grows(files@, kind, c + 1, files@.len() as int);
        }
        if bytes > usize::MAX - total {
            return None;
        }
        total = total + bytes;
        c = c + 1;
    }
    proof {
        lemma_totals(artifacts@, examples@, files@, kind, examples@.len() as int);
    }
    Some(manifest(artifacts.as_slice()))
}

/// Checks that the files of each column give its values back, and lists them with their
/// bytes.
pub fn verify_columns(examples: &[ExampleColumn], files: &[ColumnFiles]) -> (r: Result<
    ColumnManifests,
    FormatError,
>)
    requires
        files@.len() == examples@.len(),
    ensures
        match first_other(examples@, files@, examples@.len() as int) {
            Some(c) => r matches Err(FormatError::ColumnDiffers(name)) && name@
                == examples@[c].name@,
            None => {
                let n = examples@.len() as int;
                if total_of(files@, FileKind::Raw, n) <= usize::MAX && total_of(
                    files@,
                    FileKind::RawZstd,
                    n,
                ) <= usize::MAX && total_of(files@, FileKind::Pco, n) <= usize::MAX {
                    &&& r matches Ok(found)
                    &&& is_manifest(found.raw, examples@, files@, FileKind::Raw)
                    &&& is_manifest(found.raw_zstd, examples@, files@, FileKind::RawZstd)
                    &&& is_manifest(found.pco, examples@, files@, FileKind::Pco)
                } else {
                    r == Err::<ColumnManifests, FormatError>(FormatError::TotalOverflow)
                }
            },
        },
{
    let mut c: usize = 0;
    while c < examples.len()
        invariant
            c <= examples@.len() == files@.len(),
            first_other(examples@, files@, c as int) is None,
        decreases examples@.len() - c,
    {
        let values = &examples[c].values;
        if !same_column(&files[c].raw, values) || !same_column(&files[c].raw_zstd, values)
            || !same_column(&files[c].pco, values) {
            proof {
                lemma_first_other(examples@, files@, c as int, examples@.len() as int);
            }
            return Err(FormatError::ColumnDiffers(examples[c].name.clone()));
        }
        c = c + 1;
    }
    match (
        kind_manifest(examples, files, FileKind::Raw),
        kind_manifest(examples, files, FileKind::RawZstd),
        kind_manifest(examples, files, FileKind::Pco),
    ) {
        (Some(raw), Some(raw_zstd), Some(pco)) => Ok(ColumnManifests { raw, raw_zstd, pco }),
        _ => Err(FormatError::TotalOverflow),
    }
}

proof fn lemma_first_other(
    examples: Seq<ExampleColumn>,
    files: Seq<ColumnFiles>,
    i: int,
    n: int,
)
    requires
        0 <= i < n,
        first_other(examples, files, i) is None,
        !gives_back(files[i], examples[i].values@),
    ensures
        first_other(examples, files, n) == Some(i),
    decreases n,
{
    if i < n - 1 {
        lemma_first_other(examples, files, i, n - 1);
    }
}

/// How many bytes the example takes in each format.
#[derive(Clone, Copy, Debug)]
pub struct FormatSizes {
    pub csv: usize,
    pub raw: usize,
    pub raw_zstd: usize,
    pub pco: usize,
    pub parquet_dictionary: usize,
    pub parquet_delta: usize,
    pub orc: usize,
    pub witness: usize,
}

pub open spec fn states(
    row: FormatRow,
    format: Seq<char>,
    configuration: Seq<char>,
    physical_unit: Seq<char>,
    bytes: usize,
    path: Seq<char>,
) -> bool {
    &&& row.format@ == format
    &&& row.configuration@ == configuration
    &&& row.physical_unit@ == physical_unit
    &&& row.bytes == bytes
    &&& row.path@ == path
}

fn format_of(
    format: &str,
    configuration: &str,
    physical_unit: &str,
    bytes: usize,
    path: &str,
) -> (r: FormatRow)
    ensures
        states(r, format@, configuration@, physical_unit@, bytes, path@),
{
    FormatRow {
        format: String::from_str(format),
        configuration: String::from_str(configuration),
        physical_unit: String::from_str(physical_unit),
        bytes,
        path: String::from_str(path),
    }
}

/// What each format takes.
pub fn format_table(sizes: FormatSizes) -> (r: Vec<FormatRow>)
    ensures
        r@.len() == 8,
        states(
            r@[0],
            "CSV"@,
            "UTF-8 table"@,
            "one 5-column table"@,
            sizes.csv,
            "artifacts/example.csv"@,
        ),
        states(
            r@[1],
            "Raw i64"@,
            "RAWI64V1 validity + dense LE64"@,
            "sum of 5 self-contained columns"@,
            sizes.raw,
            "artifacts/rawi64.manifest.tsv"@,
        ),
        states(
            r@[2],
            "Raw i64 + Zstd"@,
            "level 3 per column"@,
            "sum of 5 self-contained columns"@,
            sizes.raw_zstd,
            "artifacts/rawi64-zstd.manifest.tsv"@,
        ),
        states(
            r@[3],
            "PCodec"@,
            "level 8 + validity wrapper"@,
            "sum of 5 self-contained columns"@,
            sizes.pco,
            "artifacts/pcodec.manifest.tsv"@,
        ),
        states(
            r@[4],
            "Parquet"@,
            "dictionary + Snappy"@,
            "one 5-column table"@,
            sizes.parquet_dictionary,
            "artifacts/example.dictionary-snappy.parquet"@,
        ),
        states(
            r@[5],
            "Parquet"@,
            "DELTA_BINARY_PACKED + Zstd"@,
            "one 5-column table"@,
            sizes.parquet_delta,
            "artifacts/example.delta-zstd.parquet"@,
        ),
        states(
            r@[6],
            "ORC"@,
            "ORC-Rust RLEv2; no outer compression"@,
            "one 5-column table"@,
            sizes.orc,
            "artifacts/example.orc"@,
        ),
        states(
            r@[7],
            "Witness"@,
            "five selected direct .acp pages"@,
            "sum of 5 self-contained columns; no table container"@,
            sizes.witness,
            "artifacts/witness.manifest.tsv"@,
        ),
{
    let table = "one 5-column table";
    let columns = "sum of 5 self-contained columns";
    let mut rows: Vec<FormatRow> = Vec::new();
    rows.push(format_of("CSV", "UTF-8 table", table, sizes.csv, "artifacts/example.csv"));
    rows.push(
        format_of(
            "Raw i64",
            "RAWI64V1 validity + dense LE64",
            columns,
            sizes.raw,
            "artifacts/rawi64.manifest.tsv",
        ),
    );
    rows.push(
        format_of(
            "Raw i64 + Zstd",
            "level 3 per column",
            columns,
            sizes.raw_zstd,
            "artifacts/rawi64-zstd.manifest.tsv",
        ),
    );
    rows.push(
        format_of(
            "PCodec",
            "level 8 + validity wrapper",
            columns,
            sizes.pco,
            "artifacts/pcodec.manifest.tsv",
        ),
    );
    rows.push(
        format_of(
            "Parquet",
            "dictionary + Snappy",
            table,
            sizes.parquet_dictionary,
            "artifacts/example.dictionary-snappy.parquet",
        ),
    );
    rows.push(
        format_of(
            "Parquet",
            "DELTA_BINARY_PACKED + Zstd",
            table,
            sizes.parquet_delta,
            "artifacts/example.delta-zstd.parquet",
        ),
    );
    rows.push(
        format_of(
            "ORC",
            "ORC-Rust RLEv2; no outer compression",
            table,
            sizes.orc,
            "artifacts/example.orc",
        ),
    );
    rows.push(
        format_of(
            "Witness",
            "five selected direct .acp pages",
            "sum of 5 self-contained columns; no table container",
            sizes.witness,
            "artifacts/witness.manifest.tsv",
        ),
    );
    rows
}

} // verus!
