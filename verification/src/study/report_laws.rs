//! What reports and checks of files say.
#[allow(unused_imports)]
use super::artifacts::{first_other, tables_fault, ColumnFiles, FormatError};
#[allow(unused_imports)]
use super::crossover::structure_of;
#[allow(unused_imports)]
use super::formats::{
    batches_error, cell_in, cell_text, column_in, record_error, records_error, records_table,
    row_cells, rows_shared, table_in_batches, table_in_records, table_records, TableError,
};
#[allow(unused_imports)]
use super::json::{escaped, quoted};
#[allow(unused_imports)]
use super::report::{i64s_text, u32s_text};
#[allow(unused_imports)]
use super::table::{rows_in_lines, split, table_in, TableText};
#[allow(unused_imports)]
use super::table_laws::{
    comma_line, ended_lines, hex_value, is_plain, law_fields_split_as_they_were_joined,
    law_lines_part_as_they_were_joined, law_numbers_read_back, lemma_decimal_reads,
};
#[allow(unused_imports)]
use super::walkthrough::{working_ops, ExampleColumn};
#[allow(unused_imports)]
use super::wording::{hexed, number_in, replaced, signed_decimal};
#[allow(unused_imports)]
use crate::access_compiler::builder::header_start;
#[allow(unused_imports)]
use crate::access_compiler::bytes::{
    i64s_bytes, lemma_u32_bytes, lemma_u64_bytes, u32_at, u32_bytes, u32s_bytes, u64_at, u64_bytes,
};
#[allow(unused_imports)]
use crate::access_compiler::decoder::DecoderNode;
#[allow(unused_imports)]
use crate::access_compiler::format::VERSION;
#[allow(unused_imports)]
use crate::access_compiler::invariants::CheckedInvariants;
#[allow(unused_imports)]
use crate::access_compiler::layout::Layout;
#[allow(unused_imports)]
use crate::access_compiler::plan::{PlanNode, PlanOp};
#[allow(unused_imports)]
use crate::access_compiler::runtime::ceil_div;
#[allow(unused_imports)]
use crate::access_compiler::text::decimal;
use vstd::prelude::*;

verus! {

// ----- quoted texts -----

/// Whether a text between quotes stands for a character: the character itself, unless it is a
/// quote, a backslash or a control character, or an escape for it.
pub open spec fn stands_for(code: Seq<char>, c: char) -> bool {
    ||| code.len() == 1 && code[0] == c && c != '"' && c != '\\' && c as int >= 0x20
    ||| code.len() == 2 && code[0] == '\\' && code[1] == c && (c == '"' || c == '\\')
    ||| code.len() == 2 && code[0] == '\\' && code[1] == 'n' && c as int == 10
    ||| code.len() == 2 && code[0] == '\\' && code[1] == 't' && c as int == 9
    ||| code.len() == 6 && code[0] == '\\' && code[1] == 'u' && code[2] == '0' && code[3] == '0'
        && 16 * hex_value(code[4]) + hex_value(code[5]) == c as int
}

/// Each character of a text is written as what stands for it.
pub proof fn law_escapes_stand_for_their_characters(c: char)
    ensures
        stands_for(escaped()(c), c),
{
    reveal_strlit("\\\"");
    reveal_strlit("\\\\");
    reveal_strlit("\\n");
    reveal_strlit("\\t");
    reveal_strlit("\\u00");
    if c != '"' && c != '\\' && c != '\n' && c != '\t' && (c as int) < 0x20 {
        super::table_laws::law_bytes_read_back(c as u8);
        let code = escaped()(c);
        let digits = hexed(seq![c as u8], Seq::empty(), 1);
        assert(code == "\\u00"@ + digits);
        assert(code[4] == digits[0] && code[5] == digits[1]);
    }
}

/// A quoted text is that of its first characters and that of its last, in one pair of quotes.
pub proof fn law_quoted_texts_join(a: Seq<char>, b: Seq<char>)
    ensures
        replaced(a + b, escaped()) == replaced(a, escaped()) + replaced(b, escaped()),
        quoted(a).len() >= 2,
        quoted(a)[0] == '"',
        quoted(a).last() == '"',
    decreases b.len(),
{
    reveal_strlit("\"");
    if b.len() == 0 {
        assert(a + b =~= a);
        assert(replaced(a, escaped()) + replaced(b, escaped()) =~= replaced(a, escaped()));
    } else {
        law_quoted_texts_join(a, b.drop_last());
        assert((a + b).drop_last() =~= a + b.drop_last());
        assert(replaced(a + b, escaped()) =~= replaced(a, escaped()) + replaced(b, escaped()));
    }
}

// ----- tables -----

proof fn lemma_plain_line(fields: Seq<Seq<char>>)
    requires
        fields.len() > 0,
        forall|k: int| 0 <= k < fields.len() ==> is_plain(#[trigger] fields[k]),
    ensures
        forall|i: int|
            0 <= i < comma_line(fields).len() ==> (#[trigger] comma_line(fields)[i]) != '\n'
                && comma_line(fields)[i] != '\r',
    decreases fields.len(),
{
    reveal_with_fuel(comma_line, 2);
    assert(is_plain(fields[fields.len() - 1]));
    if fields.len() > 1 {
        let before = fields.drop_last();
        assert forall|k: int| 0 <= k < before.len() implies is_plain(#[trigger] before[k]) by {
            assert(before[k] == fields[k]);
        }
        lemma_plain_line(before);
        let line = comma_line(fields);
        let first = comma_line(before);
        let last = fields[fields.len() - 1];
        assert(line == first + seq![','] + last);
        assert forall|i: int| 0 <= i < line.len() implies (#[trigger] line[i]) != '\n' && line[i]
            != '\r' by {
            if i < first.len() {
                assert(line[i] == first[i]);
            } else if i > first.len() {
                assert(line[i] == last[i - first.len() - 1]);
            }
        }
    } else {
        assert(comma_line(fields) == fields[0]);
    }
}

/// The lines of rows.
pub open spec fn row_lines(rows: Seq<Seq<Seq<char>>>) -> Seq<Seq<char>> {
    rows.map_values(|row: Seq<Seq<char>>| comma_line(row))
}

proof fn lemma_rows_back(rows: Seq<Seq<Seq<char>>>, n: int)
    requires
        0 <= n <= rows.len(),
        forall|r: int, k: int|
            0 <= r < rows.len() && 0 <= k < rows[r].len() ==> is_plain(#[trigger] rows[r][k]),
        forall|r: int| 0 <= r < rows.len() ==> (#[trigger] rows[r]).len() > 0,
        forall|r: int| 0 <= r < rows.len() ==> comma_line(#[trigger] rows[r]).len() > 0,
    ensures
        rows_in_lines(row_lines(rows), n) == rows.take(n),
    decreases n,
{
    if n > 0 {
        lemma_rows_back(rows, n - 1);
        let row = rows[n - 1];
        assert forall|k: int| 0 <= k < row.len() implies is_plain(#[trigger] row[k]) by {
            assert(is_plain(rows[n - 1][k]));
        }
        law_fields_split_as_they_were_joined(row);
        assert(row_lines(rows)[n - 1] == comma_line(row));
        assert(rows.take(n - 1).push(row) =~= rows.take(n));
    } else {
        assert(rows.take(0) =~= Seq::empty());
    }
}

/// A table that is written line by line, a header and rows of which none is empty, is read as
/// that header and those rows.
pub proof fn law_tables_read_back(header: Seq<Seq<char>>, rows: Seq<Seq<Seq<char>>>)
    requires
        header.len() > 0,
        forall|k: int| 0 <= k < header.len() ==> is_plain(#[trigger] header[k]),
        forall|r: int, k: int|
            0 <= r < rows.len() && 0 <= k < rows[r].len() ==> is_plain(#[trigger] rows[r][k]),
        forall|r: int| 0 <= r < rows.len() ==> (#[trigger] rows[r]).len() > 0,
        forall|r: int| 0 <= r < rows.len() ==> comma_line(#[trigger] rows[r]).len() > 0,
    ensures
        table_in(ended_lines(seq![comma_line(header)] + row_lines(rows))) == Some(
            TableText { header, rows },
        ),
{
    let lines = seq![comma_line(header)] + row_lines(rows);
    lemma_plain_line(header);
    assert forall|k: int, i: int| 0 <= k < lines.len() && 0 <= i < lines[k].len() implies (
    #[trigger] lines[k][i]) != '\n' && lines[k][i] != '\r' by {
        if k > 0 {
            let row = rows[k - 1];
            assert(lines[k] == comma_line(row));
            assert forall|j: int| 0 <= j < row.len() implies is_plain(#[trigger] row[j]) by {
                assert(is_plain(rows[k - 1][j]));
            }
            lemma_plain_line(row);
        } else {
            assert(lines[0] == comma_line(header));
        }
    }
    law_lines_part_as_they_were_joined(Seq::empty(), lines);
    assert(Seq::<char>::empty() + ended_lines(lines) =~= ended_lines(lines));
    assert(lines[0] == comma_line(header));
    law_fields_split_as_they_were_joined(header);
    assert(lines.skip(1) =~= row_lines(rows));
    lemma_rows_back(rows, rows.len() as int);
    assert(rows.take(rows.len() as int) =~= rows);
}

/// Four files are found right where each was read and holds the table; the fault that is told
/// is that of the first which is not.
pub proof fn law_files_are_right_where_each_is(
    csv: Result<Seq<Seq<Option<i64>>>, TableError>,
    dictionary: Result<Seq<Seq<Option<i64>>>, TableError>,
    delta: Result<Seq<Seq<Option<i64>>>, TableError>,
    orc: Result<Seq<Seq<Option<i64>>>, TableError>,
    expected: Seq<Seq<Option<i64>>>,
)
    ensures
        ({
            let right = Ok::<Seq<Seq<Option<i64>>>, TableError>(expected);
            let fault = tables_fault(csv, dictionary, delta, orc, expected);
            &&& fault is None <==> csv == right && dictionary == right && delta == right && orc
                == right
            &&& fault == Some(FormatError::CsvDiffers) <==> csv is Ok && csv != right
            &&& fault == Some(FormatError::OrcDiffers) <==> csv == right && dictionary == right
                && delta == right && orc is Ok && orc != right
            &&& fault == Some(FormatError::ParquetDiffers) <==> csv == right && ((dictionary is Ok
                && dictionary != right) || (dictionary == right && delta is Ok && delta != right))
        }),
{
}

/// Columns are found right where each of their files gives back the values; the column that
/// is told of is the first of which one does not.
pub proof fn law_columns_are_right_where_each_is(
    examples: Seq<ExampleColumn>,
    files: Seq<ColumnFiles>,
    n: int,
)
    requires
        0 <= n <= examples.len(),
        examples.len() == files.len(),
    ensures
        match first_other(examples, files, n) {
            None => forall|c: int|
                #![trigger files[c]]
                0 <= c < n ==> files[c].raw@ == examples[c].values@ && files[c].raw_zstd@
                    == examples[c].values@ && files[c].pco@ == examples[c].values@,
            Some(at) => {
                &&& 0 <= at < n
                &&& files[at].raw@ != examples[at].values@ || files[at].raw_zstd@
                    != examples[at].values@ || files[at].pco@ != examples[at].values@
                &&& forall|c: int|
                    #![trigger files[c]]
                    0 <= c < at ==> files[c].raw@ == examples[c].values@ && files[c].raw_zstd@
                        == examples[c].values@ && files[c].pco@ == examples[c].values@
            },
        },
    decreases n,
{
    if n > 0 {
        law_columns_are_right_where_each_is(examples, files, n - 1);
    }
}

/// A table that is written as records, a row of names and then its rows, is read from those
/// rows as it was, nulls among its cells.
pub proof fn law_records_read_back(names: Seq<Seq<char>>, columns: Seq<Seq<Option<i64>>>, rows: nat)
    requires
        columns.len() > 0,
        forall|c: int| 0 <= c < columns.len() ==> (#[trigger] columns[c]).len() == rows,
    ensures
        table_records(names, columns).len() == rows + 1,
        table_records(names, columns)[0] == names,
        table_in_records(
            table_records(names, columns).skip(1),
            true,
            columns.len() as int,
        ) == Ok::<Seq<Seq<Option<i64>>>, TableError>(columns),
{
    let n = columns.len() as int;
    lemma_rows_shared(columns, n, rows);
    let records = table_records(names, columns).skip(1);
    assert forall|i: int| 0 <= i < records.len() implies #[trigger] records[i] == row_cells(
        columns,
        i,
    ) by {}
    assert forall|i: int, c: int| 0 <= i < records.len() && 0 <= c < n implies cell_in(
        #[trigger] records[i][c],
    ) == Some(columns[c][i]) by {
        assert(records[i] == row_cells(columns, i));
        lemma_cell(columns[c][i]);
    }
    assert forall|i: int| 0 <= i < records.len() implies record_error(#[trigger] records[i], n)
        is None by {
        assert(records[i] == row_cells(columns, i));
    }
    lemma_no_record_error(records, n, records.len() as int);
    let table = records_table(records, n);
    assert forall|c: int| 0 <= c < n implies #[trigger] table[c] == columns[c] by {
        assert(table[c] =~= columns[c]);
    }
    assert(table =~= columns);
}

proof fn lemma_rows_shared(columns: Seq<Seq<Option<i64>>>, n: int, rows: nat)
    requires
        0 < n <= columns.len(),
        forall|c: int| 0 <= c < columns.len() ==> (#[trigger] columns[c]).len() == rows,
    ensures
        rows_shared(columns, n) == rows,
    decreases n,
{
    assert(columns[n - 1].len() == rows);
    if n > 1 {
        lemma_rows_shared(columns, n - 1, rows);
    }
}

proof fn lemma_cell(value: Option<i64>)
    ensures
        cell_in(cell_text(value)) == Some(value),
{
    if let Some(n) = value {
        law_numbers_read_back(n as int);
        lemma_decimal_reads(n as nat);
    }
}

proof fn lemma_no_record_error(records: Seq<Seq<Seq<char>>>, columns: int, n: int)
    requires
        0 <= n <= records.len(),
        forall|i: int| 0 <= i < records.len() ==> record_error(#[trigger] records[i], columns) is None,
    ensures
        records_error(records, columns, n) is None,
    decreases n,
{
    if n > 0 {
        lemma_no_record_error(records, columns, n - 1);
    }
}

/// A table that comes in two lots of batches is what the first lot holds, with what the
/// second holds behind it.
pub proof fn law_batches_join(
    first: Seq<Seq<Option<Seq<Option<i64>>>>>,
    second: Seq<Seq<Option<Seq<Option<i64>>>>>,
    columns: int,
    c: int,
)
    requires
        0 <= c < columns,
        table_in_batches(first, true, columns) is Ok,
        table_in_batches(second, true, columns) is Ok,
    ensures
        table_in_batches(first + second, true, columns) matches Ok(table) && table.len() == columns
            && table[c] == table_in_batches(first, true, columns)->Ok_0[c] + table_in_batches(
            second,
            true,
            columns,
        )->Ok_0[c],
{
    lemma_joined_batches(first, second, columns, c);
}

proof fn lemma_joined_batches(
    first: Seq<Seq<Option<Seq<Option<i64>>>>>,
    second: Seq<Seq<Option<Seq<Option<i64>>>>>,
    columns: int,
    c: int,
)
    requires
        batches_error(first, columns, first.len() as int) is None,
        batches_error(second, columns, second.len() as int) is None,
    ensures
        batches_error(first + second, columns, (first + second).len() as int) is None,
        column_in(first + second, c, (first + second).len() as int) == column_in(
            first,
            c,
            first.len() as int,
        ) + column_in(second, c, second.len() as int),
    decreases second.len(),
{
    if second.len() == 0 {
        assert(first + second =~= first);
        assert(column_in(first, c, first.len() as int) + Seq::<Option<i64>>::empty() =~= column_in(
            first,
            c,
            first.len() as int,
        ));
    } else {
        let less = second.drop_last();
        lemma_same_batches(second, less, columns, c, less.len() as int);
        lemma_joined_batches(first, less, columns, c);
        let all = first + second;
        lemma_same_batches(all, first + less, columns, c, (first + less).len() as int);
        assert(all[all.len() - 1] == second[second.len() - 1]);
        assert(column_in(all, c, all.len() as int) =~= column_in(first, c, first.len() as int)
            + column_in(second, c, second.len() as int));
    }
}

proof fn lemma_same_batches(
    a: Seq<Seq<Option<Seq<Option<i64>>>>>,
    b: Seq<Seq<Option<Seq<Option<i64>>>>>,
    columns: int,
    c: int,
    n: int,
)
    requires
        0 <= n <= a.len(),
        n <= b.len(),
        forall|i: int| 0 <= i < n ==> a[i] == b[i],
    ensures
        batches_error(a, columns, n) == batches_error(b, columns, n),
        column_in(a, c, n) == column_in(b, c, n),
    decreases n,
{
    if n > 0 {
        lemma_same_batches(a, b, columns, c, n - 1);
    }
}

/// A batch that holds every column is a table of them as they are.
pub proof fn law_whole_batches_are_tables(columns: Seq<Seq<Option<i64>>>)
    ensures
        table_in_batches(
            seq![columns.map_values(|column: Seq<Option<i64>>| Some(column))],
            true,
            columns.len() as int,
        ) == Ok::<Seq<Seq<Option<i64>>>, TableError>(columns),
{
    let n = columns.len() as int;
    let batch = columns.map_values(|column: Seq<Option<i64>>| Some(column));
    let one = seq![batch];
    reveal_with_fuel(batches_error, 2);
    reveal_with_fuel(column_in, 2);
    assert(one[0] == batch);
    let table = Seq::new(n as nat, |c: int| column_in(one, c, 1));
    assert forall|c: int| 0 <= c < n implies #[trigger] table[c] == columns[c] by {
        assert(batch[c] == Some(columns[c]));
        assert(Seq::<Option<i64>>::empty() + columns[c] =~= columns[c]);
    }
    assert(table =~= columns);
}

// ----- plans and decoders -----

/// The steps that a strategy names are those of the plan, in order, without the loading of
/// the description.
pub proof fn law_strategies_name_the_working_steps(nodes: Seq<PlanNode>, n: int)
    requires
        0 <= n <= nodes.len(),
    ensures
        working_ops(nodes, n) == nodes.take(n).map_values(|node: PlanNode| node.op).filter(
            |op: PlanOp| !(op is LoadMetadata),
        ),
    decreases n,
{
    reveal(Seq::filter);
    let ops = nodes.take(n).map_values(|node: PlanNode| node.op);
    if n > 0 {
        law_strategies_name_the_working_steps(nodes, n - 1);
        assert(ops.drop_last() =~= nodes.take(n - 1).map_values(|node: PlanNode| node.op));
        assert(ops.last() == nodes[n - 1].op);
    } else {
        assert(ops =~= Seq::empty());
    }
}

/// What is counted of decoders that are put together is what is counted of each.
pub proof fn law_structures_add_up(a: Seq<DecoderNode>, b: Seq<DecoderNode>)
    ensures
        ({
            let x = structure_of(a, a.len() as int);
            let y = structure_of(b, b.len() as int);
            let z = structure_of(a + b, (a + b).len() as int);
            &&& z.restart_entries == x.restart_entries + y.restart_entries
            &&& z.rle_runs == x.rle_runs + y.rle_runs
            &&& z.dictionary_entries == x.dictionary_entries + y.dictionary_entries
            &&& z.patch_count == x.patch_count + y.patch_count
            &&& z.nullable_nodes == x.nullable_nodes + y.nullable_nodes
        }),
    decreases b.len(),
{
    if b.len() == 0 {
        assert(a + b =~= a);
    } else {
        let c = b.drop_last();
        law_structures_add_up(a, c);
        lemma_structure_same(a + b, a + c, (a + c).len() as int);
        lemma_structure_same(b, c, c.len() as int);
        assert((a + b)[(a + b).len() - 1] == b[b.len() - 1]);
    }
}

proof fn lemma_structure_same(a: Seq<DecoderNode>, b: Seq<DecoderNode>, n: int)
    requires
        0 <= n <= a.len(),
        n <= b.len(),
        forall|i: int| 0 <= i < n ==> a[i] == b[i],
    ensures
        structure_of(a, n) == structure_of(b, n),
    decreases n,
{
    if n > 0 {
        lemma_structure_same(a, b, n - 1);
    }
}

/// What is counted of one node: its restarts, as many as its rows begin; its runs, its
/// entries, its exceptions; or that it has nulls.
pub proof fn law_structures_count_each_node(node: DecoderNode)
    ensures
        ({
            let s = structure_of(seq![node], 1);
            &&& node matches DecoderNode::Delta { restart_interval, len, .. } ==> (restart_interval
                > 0 ==> restart_interval * s.restart_entries >= len && restart_interval * (
            s.restart_entries - 1) < len)
            &&& !(node is Delta) ==> s.restart_entries == 0
            &&& s.rle_runs == if node is Rle {
                node->runs as int
            } else {
                0
            }
            &&& s.dictionary_entries == if node is Dictionary {
                node->entries as int
            } else {
                0
            }
            &&& s.patch_count == if node is Patch {
                node->count as int
            } else {
                0
            }
            &&& s.nullable_nodes == if node is Nullable {
                1int
            } else {
                0
            }
        }),
{
    reveal_with_fuel(structure_of, 2);
    assert(seq![node][0] == node);
    if let DecoderNode::Delta { restart_interval, len, .. } = node {
        let d = restart_interval as int;
        if d > 0 {
            let c = ceil_div(len as int, d);
            crate::access_compiler::runtime::lemma_ceil(len as int, d);
            crate::access_compiler::layout::lemma_scale_next(c - 1, d);
            vstd::arithmetic::mul::lemma_mul_is_commutative(d, c);
            vstd::arithmetic::mul::lemma_mul_is_commutative(d, c - 1);
        }
    }
}

// ----- what pages are told to hold -----

proof fn lemma_number_plain(n: int)
    ensures
        is_plain(signed_decimal(n)),
{
    lemma_decimal_reads(n as nat);
    lemma_decimal_reads((-n) as nat);
    let text = signed_decimal(n);
    let digits = if n < 0 {
        decimal((-n) as nat)
    } else {
        decimal(n as nat)
    };
    let from = text.len() - digits.len();
    assert forall|i: int| 0 <= i < text.len() implies {
        let c = #[trigger] text[i];
        c != '"' && c != ',' && c != '\n' && c != '\r'
    } by {
        if i >= from {
            assert(text[i] == digits[i - from]);
        }
    }
}

/// Numbers of eight bytes are told as they are stored: split at the commas, the text of their
/// bytes is the text of each, in order.
pub proof fn law_stored_numbers_are_told(values: Seq<i64>, k: int)
    requires
        0 <= k < values.len(),
    ensures
        ({
            let told = split(i64s_text(i64s_bytes(values), values.len() as int));
            &&& told.len() == values.len()
            &&& number_in(told[k]) == Some(values[k] as int)
        }),
{
    let fields = values.map_values(|value: i64| signed_decimal(value as int));
    lemma_told(values, values.len() as int);
    assert(fields.take(values.len() as int) =~= fields);
    assert forall|j: int| 0 <= j < fields.len() implies is_plain(#[trigger] fields[j]) by {
        lemma_number_plain(values[j] as int);
    }
    law_fields_split_as_they_were_joined(fields);
    law_numbers_read_back(values[k] as int);
}

proof fn lemma_told(values: Seq<i64>, n: int)
    requires
        0 < n <= values.len(),
    ensures
        i64s_text(i64s_bytes(values), n) == comma_line(
            values.map_values(|value: i64| signed_decimal(value as int)).take(n),
        ),
    decreases n,
{
    reveal_strlit(",");
    let fields = values.map_values(|value: i64| signed_decimal(value as int));
    crate::access_compiler::bytes::lemma_i64s_read(values, n - 1);
    let part = fields.take(n);
    assert(part.last() == signed_decimal(values[n - 1] as int));
    if n > 1 {
        lemma_told(values, n - 1);
        assert(part.drop_last() =~= fields.take(n - 1));
        assert(","@ =~= seq![',']);
    } else {
        reveal_with_fuel(i64s_text, 2);
        reveal_with_fuel(comma_line, 2);
        assert(Seq::<char>::empty() + part[0] =~= part[0]);
    }
}

/// Numbers of four bytes are told as they are stored.
pub proof fn law_stored_counts_are_told(values: Seq<u32>, k: int)
    requires
        0 <= k < values.len(),
    ensures
        ({
            let told = split(u32s_text(u32s_bytes(values), values.len() as int));
            &&& told.len() == values.len()
            &&& number_in(told[k]) == Some(values[k] as int)
        }),
{
    let fields = values.map_values(|value: u32| signed_decimal(value as int));
    lemma_told_counts(values, values.len() as int);
    assert(fields.take(values.len() as int) =~= fields);
    assert forall|j: int| 0 <= j < fields.len() implies is_plain(#[trigger] fields[j]) by {
        lemma_number_plain(values[j] as int);
    }
    law_fields_split_as_they_were_joined(fields);
    law_numbers_read_back(values[k] as int);
}

proof fn lemma_told_counts(values: Seq<u32>, n: int)
    requires
        0 < n <= values.len(),
    ensures
        u32s_text(u32s_bytes(values), n) == comma_line(
            values.map_values(|value: u32| signed_decimal(value as int)).take(n),
        ),
    decreases n,
{
    reveal_strlit(",");
    let fields = values.map_values(|value: u32| signed_decimal(value as int));
    crate::access_compiler::bytes::lemma_u32s_read(values, n - 1);
    let part = fields.take(n);
    assert(part.last() == signed_decimal(values[n - 1] as int));
    if n > 1 {
        lemma_told_counts(values, n - 1);
        assert(part.drop_last() =~= fields.take(n - 1));
        assert(","@ =~= seq![',']);
    } else {
        reveal_with_fuel(u32s_text, 2);
        reveal_with_fuel(comma_line, 2);
        assert(Seq::<char>::empty() + part[0] =~= part[0]);
    }
}

/// The numbers that a header is told to hold are those that it was written with.
pub proof fn law_headers_are_told(layout: Layout, stated: CheckedInvariants, rest: Seq<u8>)
    requires
        layout.fields.len() <= u32::MAX,
        layout.frames.len() <= u32::MAX,
        layout.dependencies.len() <= u32::MAX,
    ensures
        ({
            let page = header_start(layout, stated) + rest;
            &&& u32_at(page, 8) == VERSION
            &&& u32_at(page, 12) == layout.fields.len()
            &&& u32_at(page, 16) == layout.frames.len()
            &&& u32_at(page, 20) == layout.dependencies.len()
            &&& u64_at(page, 24) == layout.file_length
        }),
{
    let page = header_start(layout, stated) + rest;
    let a = u32_bytes(VERSION);
    let b = u32_bytes(layout.fields.len() as usize as u32);
    let c = u32_bytes(layout.frames.len() as usize as u32);
    let d = u32_bytes(layout.dependencies.len() as usize as u32);
    let e = u64_bytes(layout.file_length as u64);
    lemma_u32_bytes(VERSION);
    lemma_u32_bytes(layout.fields.len() as usize as u32);
    lemma_u32_bytes(layout.frames.len() as usize as u32);
    lemma_u32_bytes(layout.dependencies.len() as usize as u32);
    lemma_u64_bytes(layout.file_length as u64);
    assert(page.subrange(8, 12) =~= a);
    assert(page.subrange(12, 16) =~= b);
    assert(page.subrange(16, 20) =~= c);
    assert(page.subrange(20, 24) =~= d);
    lemma_u32_there(page, 8, VERSION);
    lemma_u32_there(page, 12, layout.fields.len() as usize as u32);
    lemma_u32_there(page, 16, layout.frames.len() as usize as u32);
    lemma_u32_there(page, 20, layout.dependencies.len() as usize as u32);
    assert(page.subrange(24, 32) =~= e);
    let part = page.subrange(24, 32);
    assert(part[0] == page[24] && part[1] == page[25] && part[2] == page[26] && part[3] == page[27]
        && part[4] == page[28] && part[5] == page[29] && part[6] == page[30] && part[7] == page[31]);
    assert(u64_at(page, 24) == u64_at(e, 0));
}

proof fn lemma_u32_there(page: Seq<u8>, at: int, value: u32)
    requires
        0 <= at,
        at + 4 <= page.len(),
        page.subrange(at, at + 4) == u32_bytes(value),
    ensures
        u32_at(page, at) == value,
{
    lemma_u32_bytes(value);
    let part = page.subrange(at, at + 4);
    assert(part[0] == page[at] && part[1] == page[at + 1] && part[2] == page[at + 2] && part[3]
        == page[at + 3]);
}

} // verus!
