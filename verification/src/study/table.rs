//! Tables that studies write and read back.
use super::error::StudyError;
use super::wording::{chars_of, find_char, part, text_of, trim, Trim};
#[allow(unused_imports)]
use super::wording::{doubled_quote, first_of, replaced, trimmed};
#[allow(unused_imports)]
use vstd::string::*;
use vstd::prelude::*;

verus! {

/// The texts of some fields.
pub open spec fn fields_of(row: Seq<String>) -> Seq<Seq<char>> {
    row.map_values(|field: String| field@)
}

/// The texts of some rows.
pub open spec fn rows_of(rows: Seq<Vec<String>>) -> Seq<Seq<Seq<char>>> {
    rows.map_values(|row: Vec<String>| fields_of(row@))
}

/// The texts of a table.
pub struct TableText {
    pub header: Seq<Seq<char>>,
    pub rows: Seq<Seq<Seq<char>>>,
}

/// Rows of fields under a header that names them.
#[derive(Clone, Debug)]
pub struct Table {
    pub header: Vec<String>,
    pub rows: Vec<Vec<String>>,
}

impl View for Table {
    type V = TableText;

    open spec fn view(&self) -> TableText {
        TableText { header: fields_of(self.header@), rows: rows_of(self.rows@) }
    }
}

// ----- reading -----

/// How far a line has been read: the fields that are complete, the one that is
/// not, and whether the last character stands in quotes.
pub struct Reading {
    pub fields: Seq<Seq<char>>,
    pub current: Seq<char>,
    pub quoted: bool,
}

/// A line read up to its `n`th character.
pub open spec fn read_to(line: Seq<char>, n: int) -> Reading
    decreases n,
{
    if n <= 0 {
        Reading { fields: Seq::empty(), current: Seq::empty(), quoted: false }
    } else {
        let before = read_to(line, n - 1);
        let c = line[n - 1];
        if c == '"' {
            Reading { quoted: !before.quoted, ..before }
        } else if c == ',' && !before.quoted {
            Reading {
                fields: before.fields.push(before.current),
                current: Seq::empty(),
                quoted: false,
            }
        } else {
            Reading { current: before.current.push(c), ..before }
        }
    }
}

/// The fields of a line: commas are between them, but not those in quotes.
pub open spec fn split(line: Seq<char>) -> Seq<Seq<char>> {
    let all = read_to(line, line.len() as int);
    all.fields.push(all.current)
}

fn split_line(line: &[char]) -> (r: Vec<String>)
    ensures
        fields_of(r@) == split(line@),
{
    let mut fields: Vec<String> = Vec::new();
    let mut current = String::new();
    let mut quoted: bool = false;
    let mut i: usize = 0;
    assert(fields_of(fields@) =~= Seq::empty());
    while i < line.len()
        invariant
            i <= line@.len(),
            fields_of(fields@) == read_to(line@, i as int).fields,
            current@ == read_to(line@, i as int).current,
            quoted == read_to(line@, i as int).quoted,
        decreases line@.len() - i,
    {
        let c: char = line[i];
        if c == '"' {
            quoted = !quoted;
        } else if c == ',' && !quoted {
            let ghost before = fields@;
            fields.push(current);
            assert(fields_of(fields@) =~= fields_of(before).push(
                read_to(line@, i as int).current,
            ));
            current = String::new();
        } else {
            current.push(c);
        }
        i = i + 1;
    }
    let ghost before = fields@;
    let ghost last = current@;
    fields.push(current);
    assert(fields_of(fields@) =~= fields_of(before).push(last));
    fields
}

/// Where the first line break is, from some place on; or the end.
pub open spec fn line_end(text: Seq<char>, from: int) -> int
    decreases text.len() - from,
{
    if from >= text.len() || text[from] == '\n' {
        from
    } else {
        line_end(text, from + 1)
    }
}

/// A line that ends with a break has none of it, also where the break is of two
/// characters.
pub open spec fn line_between(text: Seq<char>, from: int, end: int) -> Seq<char> {
    if end < text.len() && end > from && text[end - 1] == '\r' {
        text.subrange(from, end - 1)
    } else {
        text.subrange(from, end)
    }
}

pub proof fn lemma_line_end(text: Seq<char>, from: int)
    requires
        0 <= from <= text.len(),
    ensures
        from <= line_end(text, from) <= text.len(),
    decreases text.len() - from,
{
    if from < text.len() && text[from] != '\n' {
        lemma_line_end(text, from + 1);
    }
}

/// The lines of a text, from some place on.
pub open spec fn lines_from(text: Seq<char>, from: int) -> Seq<Seq<char>>
    decreases text.len() + 1 - from,
{
    if from < 0 || from >= text.len() {
        Seq::empty()
    } else {
        proof {
            lemma_line_end(text, from);
        }
        let end = line_end(text, from);
        seq![line_between(text, from, end)] + lines_from(text, end + 1)
    }
}

/// The rows of lines that are not empty.
pub open spec fn rows_in_lines(lines: Seq<Seq<char>>, n: int) -> Seq<Seq<Seq<char>>>
    decreases n,
{
    if n <= 0 {
        Seq::empty()
    } else if lines[n - 1].len() == 0 {
        rows_in_lines(lines, n - 1)
    } else {
        rows_in_lines(lines, n - 1).push(split(lines[n - 1]))
    }
}

/// The table that a text holds: its first line names the fields, and each other
/// line that is not empty is a row.
pub open spec fn table_in(text: Seq<char>) -> Option<TableText> {
    let lines = lines_from(text, 0);
    if lines.len() == 0 {
        None
    } else {
        Some(
            TableText {
                header: split(lines[0]),
                rows: rows_in_lines(lines.skip(1), lines.len() - 1),
            },
        )
    }
}

proof fn lemma_one_more_line(lines: Seq<Seq<char>>, more: Seq<char>)
    ensures
        rows_in_lines(lines.push(more), lines.len() as int + 1) == if more.len() == 0 {
            rows_in_lines(lines, lines.len() as int)
        } else {
            rows_in_lines(lines, lines.len() as int).push(split(more))
        },
{
    lemma_same_lines(lines.push(more), lines, lines.len() as int);
}

proof fn lemma_same_lines(a: Seq<Seq<char>>, b: Seq<Seq<char>>, n: int)
    requires
        n <= a.len(),
        n <= b.len(),
        forall|i: int| 0 <= i < n ==> a[i] == b[i],
    ensures
        rows_in_lines(a, n) == rows_in_lines(b, n),
    decreases n,
{
    if n > 0 {
        lemma_same_lines(a, b, n - 1);
    }
}

/// One line of a text, and where the next one starts.
fn next_line(text: &Vec<char>, from: usize) -> (r: (Vec<char>, usize))
    requires
        from < text@.len(),
    ensures
        r.0@ == line_between(text@, from as int, line_end(text@, from as int)),
        r.1 == if line_end(text@, from as int) < text@.len() {
            line_end(text@, from as int) + 1
        } else {
            text@.len() as int
        },
        from < r.1,
{
    let mut end: usize = from;
    proof {
        lemma_line_end(text@, from as int);
    }
    while end < text.len() && text[end] != '\n'
        invariant
            from <= end <= text@.len(),
            line_end(text@, end as int) == line_end(text@, from as int),
        decreases text@.len() - end,
    {
        end = end + 1;
    }
    let stop: usize = if end < text.len() && end > from && text[end - 1] == '\r' {
        end - 1
    } else {
        end
    };
    let mut line: Vec<char> = Vec::new();
    let mut i: usize = from;
    while i < stop
        invariant
            from <= i <= stop <= text@.len(),
            line@ == text@.subrange(from as int, i as int),
        decreases stop - i,
    {
        line.push(text[i]);
        assert(text@.subrange(from as int, i + 1) =~= text@.subrange(from as int, i as int).push(
            text@[i as int],
        ));
        i = i + 1;
    }
    if end < text.len() {
        (line, end + 1)
    } else {
        (line, text.len())
    }
}

impl Table {
    /// Reads a table.
    pub fn parse(text: &str) -> (r: Result<Table, StudyError>)
        ensures
            match table_in(text@) {
                Some(table) => r matches Ok(found) && found@ == table,
                None => r matches Err(StudyError::HeaderAbsent),
            },
    {
        let list = chars_of(text);
        if list.len() == 0 {
            return Err(StudyError::HeaderAbsent);
        }
        let ghost all = lines_from(list@, 0);
        let (first, after) = next_line(&list, 0);
        let header = split_line(first.as_slice());
        let mut rows: Vec<Vec<String>> = Vec::new();
        let mut from: usize = after;
        let ghost mut done: Seq<Seq<char>> = Seq::empty();
        proof {
            assert(all.skip(1) =~= lines_from(list@, from as int)) by {
                if line_end(list@, 0) >= list@.len() {
                    assert(lines_from(list@, line_end(list@, 0) + 1) =~= lines_from(
                        list@,
                        from as int,
                    ));
                }
            }
            assert(done + lines_from(list@, from as int) =~= all.skip(1));
            assert(rows_of(rows@) =~= Seq::empty());
        }
        while from < list.len()
            invariant
                0 < from <= list@.len(),
                all == lines_from(list@, 0),
                done + lines_from(list@, from as int) == all.skip(1),
                rows_of(rows@) == rows_in_lines(done, done.len() as int),
            decreases list@.len() - from,
        {
            let (line, next) = next_line(&list, from);
            let ghost before = rows@;
            proof {
                lemma_one_more_line(done, line@);
                let end = line_end(list@, from as int);
                lemma_line_end(list@, from as int);
                if end >= list@.len() {
                    assert(lines_from(list@, end + 1) =~= lines_from(list@, next as int));
                }
                assert(done.push(line@) + lines_from(list@, next as int) =~= done + lines_from(
                    list@,
                    from as int,
                ));
            }
            if line.len() > 0 {
                let row = split_line(line.as_slice());
                rows.push(row);
                assert(rows_of(rows@) =~= rows_of(before).push(split(line@)));
            }
            proof {
                done = done.push(line@);
            }
            from = next;
        }
        proof {
            assert(lines_from(list@, from as int) =~= Seq::empty());
            assert(done =~= all.skip(1));
        }
        Ok(Table { header, rows })
    }
}

/// A field that was put in quotes and has none in it is read back as it was,
/// commas and all.
pub proof fn law_quoted_field_reads_back(value: Seq<char>)
    requires
        !value.contains('"'),
    ensures
        split(seq!['"'] + replaced(value, doubled_quote()) + seq!['"']) == seq![value],
{
    lemma_nothing_replaced(value);
    let line = seq!['"'] + value + seq!['"'];
    assert(seq!['"'] + replaced(value, doubled_quote()) + seq!['"'] =~= line);
    lemma_read_quoted(line, value, value.len() as int);
    let inner = read_to(line, value.len() as int + 1);
    assert(line[value.len() as int + 1] == '"');
    assert(read_to(line, line.len() as int) == (Reading { quoted: false, ..inner }));
    assert(value.take(value.len() as int) =~= value);
    assert(split(line) =~= seq![value]);
}

proof fn lemma_nothing_replaced(value: Seq<char>)
    requires
        !value.contains('"'),
    ensures
        replaced(value, doubled_quote()) == value,
    decreases value.len(),
{
    if value.len() > 0 {
        let front = value.drop_last();
        assert(!front.contains('"')) by {
            if front.contains('"') {
                let i = choose|i: int| 0 <= i < front.len() && front[i] == '"';
                assert(value[i] == '"');
            }
        }
        lemma_nothing_replaced(front);
        assert(value[value.len() - 1] != '"');
        assert(value =~= front + seq![value.last()]);
    }
}

proof fn lemma_read_quoted(line: Seq<char>, value: Seq<char>, n: int)
    requires
        0 <= n <= value.len(),
        line == seq!['"'] + value + seq!['"'],
        !value.contains('"'),
    ensures
        read_to(line, n + 1) == (Reading {
            fields: Seq::empty(),
            current: value.take(n),
            quoted: true,
        }),
    decreases n,
{
    if n > 0 {
        lemma_read_quoted(line, value, n - 1);
        assert(line[n] == value[n - 1]);
        assert(value[n - 1] != '"');
        assert(value.take(n) =~= value.take(n - 1).push(value[n - 1]));
    } else {
        assert(read_to(line, 0).current =~= value.take(0));
        assert(line[0] == '"');
    }
}

// ----- looking up -----

/// Where a name stands among the first `n`, the first time.
pub open spec fn place(names: Seq<Seq<char>>, name: Seq<char>, n: int) -> Option<int>
    decreases n,
{
    if n <= 0 {
        None
    } else {
        match place(names, name, n - 1) {
            Some(i) => Some(i),
            None => if names[n - 1] == name {
                Some(n - 1)
            } else {
                None
            },
        }
    }
}

proof fn lemma_placed(names: Seq<Seq<char>>, name: Seq<char>, i: int, n: int)
    requires
        0 <= i < n,
        place(names, name, i) is None,
        names[i] == name,
    ensures
        place(names, name, n) == Some(i),
    decreases n,
{
    if i < n - 1 {
        lemma_placed(names, name, i, n - 1);
    }
}

impl Table {
    /// The field of a row that stands under a name.
    pub fn field(&self, row: &[String], name: &str) -> (r: Result<String, StudyError>)
        ensures
            match place(self@.header, name@, self@.header.len() as int) {
                None => r matches Err(StudyError::ColumnAbsent(of)) && of@ == name@,
                Some(i) => if i < row@.len() {
                    r matches Ok(field) && field@ == row@[i]@
                } else {
                    r matches Err(StudyError::RowShort(of)) && of@ == name@
                },
            },
    {
        let wanted = String::from_str(name);
        let mut i: usize = 0;
        while i < self.header.len()
            invariant
                i <= self.header@.len(),
                wanted@ == name@,
                place(self@.header, name@, i as int) is None,
            decreases self.header@.len() - i,
        {
            assert(self@.header[i as int] == self.header@[i as int]@);
            if self.header[i] == wanted {
                proof {
                    lemma_placed(self@.header, name@, i as int, self@.header.len() as int);
                }
                if i < row.len() {
                    return Ok(row[i].clone());
                }
                return Err(StudyError::RowShort(wanted));
            }
            i = i + 1;
        }
        Err(StudyError::ColumnAbsent(wanted))
    }

    /// How many rows there are.
    pub fn count(&self) -> (r: usize)
        ensures
            r == self.rows@.len(),
    {
        self.rows.len()
    }
}

/// The field after a name in the last of the first `n` rows that start with it.
pub open spec fn metric_in(rows: Seq<Seq<Seq<char>>>, key: Seq<char>, n: int) -> Option<Seq<char>>
    decreases n,
{
    if n <= 0 {
        None
    } else if rows[n - 1][0] == key {
        Some(rows[n - 1][1])
    } else {
        metric_in(rows, key, n - 1)
    }
}

/// A metric of a table of names and values.
pub fn lookup(table: &Table, key: &str) -> (r: Result<String, StudyError>)
    requires
        forall|i: int| 0 <= i < table.rows@.len() ==> (#[trigger] table.rows@[i])@.len() >= 2,
    ensures
        match metric_in(table@.rows, key@, table@.rows.len() as int) {
            Some(value) => r matches Ok(found) && found@ == value,
            None => r matches Err(StudyError::MetricAbsent(of)) && of@ == key@,
        },
{
    let wanted = String::from_str(key);
    let mut n: usize = table.rows.len();
    while n > 0
        invariant
            n <= table.rows@.len(),
            wanted@ == key@,
            forall|i: int| 0 <= i < table.rows@.len() ==> (#[trigger] table.rows@[i])@.len() >= 2,
            metric_in(table@.rows, key@, table@.rows.len() as int) == metric_in(
                table@.rows,
                key@,
                n as int,
            ),
        decreases n,
    {
        let row = &table.rows[n - 1];
        assert(table@.rows[n - 1] == fields_of(row@));
        assert(table.rows@[n - 1]@.len() >= 2);
        assert(fields_of(row@)[0] == row@[0]@ && fields_of(row@)[1] == row@[1]@);
        if row[0] == wanted {
            return Ok(row[1].clone());
        }
        n = n - 1;
    }
    Err(StudyError::MetricAbsent(wanted))
}

/// A row has some texts in some places.
pub open spec fn row_has(row: Seq<Seq<char>>, wanted: Seq<(usize, String)>) -> bool {
    forall|k: int|
        0 <= k < wanted.len() ==> row[(#[trigger] wanted[k]).0 as int] == wanted[k].1@
}

/// A row has the first `n` texts that are wanted.
pub open spec fn agrees_to(row: Seq<Seq<char>>, wanted: Seq<(usize, String)>, n: int) -> bool {
    forall|k: int| 0 <= k < n ==> row[(#[trigger] wanted[k]).0 as int] == wanted[k].1@
}

/// A row is long enough to be compared with what is wanted, up to the first place
/// where it differs.
pub open spec fn comparable(row: Seq<Seq<char>>, wanted: Seq<(usize, String)>) -> bool {
    forall|k: int|
        0 <= k < wanted.len() && #[trigger] agrees_to(row, wanted, k) ==> wanted[k].0 < row.len()
}

/// The first of the first `n` rows that has what is wanted.
pub open spec fn first_row(
    rows: Seq<Seq<Seq<char>>>,
    wanted: Seq<(usize, String)>,
    n: int,
) -> Option<int>
    decreases n,
{
    if n <= 0 {
        None
    } else {
        match first_row(rows, wanted, n - 1) {
            Some(i) => Some(i),
            None => if row_has(rows[n - 1], wanted) {
                Some(n - 1)
            } else {
                None
            },
        }
    }
}

proof fn lemma_first_row(
    rows: Seq<Seq<Seq<char>>>,
    wanted: Seq<(usize, String)>,
    i: int,
    n: int,
)
    requires
        0 <= i < n,
        first_row(rows, wanted, i) is None,
        row_has(rows[i], wanted),
    ensures
        first_row(rows, wanted, n) == Some(i),
    decreases n,
{
    if i < n - 1 {
        lemma_first_row(rows, wanted, i, n - 1);
    }
}

/// Where the first row stands that has some texts in some places. The rows up to it
/// can be compared.
pub fn find_row(table: &Table, wanted: &[(usize, String)]) -> (r: Result<usize, StudyError>)
    requires
        forall|i: int|
            0 <= i < table@.rows.len() && #[trigger] first_row(table@.rows, wanted@, i) is None
                ==> comparable(table@.rows[i], wanted@),
    ensures
        match first_row(table@.rows, wanted@, table@.rows.len() as int) {
            Some(i) => r matches Ok(found) && found == i,
            None => r matches Err(StudyError::RowAbsent),
        },
{
    let mut i: usize = 0;
    while i < table.rows.len()
        invariant
            i <= table.rows@.len() == table@.rows.len(),
            forall|i: int|
                0 <= i < table@.rows.len() && #[trigger] first_row(table@.rows, wanted@, i) is None
                    ==> comparable(table@.rows[i], wanted@),
            first_row(table@.rows, wanted@, i as int) is None,
        decreases table.rows@.len() - i,
    {
        let row = &table.rows[i];
        let ghost texts = table@.rows[i as int];
        assert(texts == fields_of(row@));
        let mut all: bool = true;
        let mut k: usize = 0;
        while k < wanted.len() && all
            invariant
                texts == fields_of(row@),
                comparable(texts, wanted@),
                k <= wanted@.len(),
                all ==> agrees_to(texts, wanted@, k as int),
                !all ==> !row_has(texts, wanted@),
            decreases wanted@.len() - k,
        {
            assert(wanted@[k as int].0 < texts.len());
            let at: usize = wanted[k].0;
            assert(texts[at as int] == row@[at as int]@);
            if row[at] != wanted[k].1 {
                all = false;
            }
            k = k + 1;
        }
        if all {
            proof {
                assert(row_has(texts, wanted@));
                lemma_first_row(table@.rows, wanted@, i as int, table@.rows.len() as int);
            }
            return Ok(i);
        }
        i = i + 1;
    }
    Err(StudyError::RowAbsent)
}

// ----- small measures -----

/// The next state of the generator that resampling draws from.
pub open spec fn next_state(state: u64) -> u64 {
    let a = state ^ (state << 13);
    let b = a ^ (a >> 7);
    b ^ (b << 17)
}

/// One step of the generator.
pub fn xorshift64(state: &mut u64) -> (r: u64)
    ensures
        *final(state) == next_state(*old(state)),
        r == next_state(*old(state)),
{
    let a: u64 = *state ^ (*state << 13);
    let b: u64 = a ^ (a >> 7);
    let c: u64 = b ^ (b << 17);
    *state = c;
    c
}

/// The runs of equal values among the first `n`.
pub open spec fn runs_in(values: Seq<i64>, n: int) -> int
    decreases n,
{
    if n <= 1 {
        1
    } else if values[n - 1] != values[n - 2] {
        runs_in(values, n - 1) + 1
    } else {
        runs_in(values, n - 1)
    }
}

/// How many runs of equal values there are, one at least.
pub fn natural_runs(values: &[i64]) -> (r: usize)
    ensures
        r == runs_in(values@, values@.len() as int),
{
    let mut runs: usize = 1;
    let mut i: usize = 1;
    while i < values.len()
        invariant
            1 <= i,
            i <= values@.len() || i == 1,
            runs == runs_in(values@, i as int),
            1 <= runs <= i,
        decreases values@.len() - i,
    {
        if values[i] != values[i - 1] {
            runs = runs + 1;
        }
        i = i + 1;
    }
    runs
}

/// A column whose runs are worth counting: no value is absent or negative, and
/// there are at least 1,024 rows and four rows to a run.
pub open spec fn runs_pay(values: Seq<Option<i64>>) -> bool {
    &&& values.len() >= 1024
    &&& forall|i: int| 0 <= i < values.len() ==> ((#[trigger] values[i]) matches Some(v) && v >= 0)
    &&& values.len() >= 4 * runs_in(values.map_values(|v: Option<i64>| v->0), values.len() as int)
}

/// The values of a column whose runs are worth counting.
pub fn run_candidate(values: &[Option<i64>]) -> (r: Option<Vec<i64>>)
    ensures
        match r {
            Some(present) => runs_pay(values@) && present@ == values@.map_values(
                |v: Option<i64>| v->0,
            ),
            None => !runs_pay(values@),
        },
{
    if values.len() < 1024 {
        return None;
    }
    let ghost bare = |v: Option<i64>| v->0;
    let mut present: Vec<i64> = Vec::new();
    let mut i: usize = 0;
    while i < values.len()
        invariant
            i <= values@.len(),
            present@.len() == i,
            forall|k: int| 0 <= k < i ==> values@[k] == Some(#[trigger] present@[k]),
            forall|k: int| 0 <= k < i ==> #[trigger] present@[k] >= 0,
        decreases values@.len() - i,
    {
        match values[i] {
            Some(v) => {
                if v < 0 {
                    assert(!(values@[i as int] matches Some(v) && v >= 0));
                    return None;
                }
                present.push(v);
            },
            None => {
                assert(!(values@[i as int] matches Some(v) && v >= 0));
                return None;
            },
        }
        i = i + 1;
    }
    assert(present@ =~= values@.map_values(bare));
    assert forall|k: int| 0 <= k < values@.len() implies ((#[trigger] values@[k]) matches Some(v)
        && v >= 0) by {
        assert(values@[k] == Some(present@[k]));
    }
    let runs: usize = natural_runs(present.as_slice());
    if present.len() / 4 < runs {
        return None;
    }
    Some(present)
}

/// How many binary digits a number has.
pub open spec fn bit_length(n: int) -> int
    decreases n,
{
    if n <= 0 {
        0
    } else {
        bit_length(n / 2) + 1
    }
}

/// How many entries two searches of a dictionary look at.
pub fn dictionary_probes(entries: usize) -> (r: usize)
    ensures
        r == 2 * bit_length(if entries < 1 {
            1
        } else {
            entries as int
        }),
{
    let start: usize = if entries < 1 {
        1
    } else {
        entries
    };
    let mut rest: usize = start;
    let mut length: usize = 0;
    let ghost mut room: int = 64;
    proof {
        vstd::arithmetic::power2::lemma2_to64();
        vstd::arithmetic::power2::lemma2_to64_rest();
    }
    while rest > 0
        invariant
            length + bit_length(rest as int) == bit_length(start as int),
            length + room == 64,
            room >= 0,
            rest < vstd::arithmetic::power2::pow2(room as nat),
        decreases rest,
    {
        proof {
            if room > 0 {
                vstd::arithmetic::power2::lemma_pow2_unfold(room as nat);
            } else {
                vstd::arithmetic::power2::lemma2_to64();
            }
            room = room - 1;
        }
        length = length + 1;
        rest = rest / 2;
    }
    2 * length
}

/// The family of a source: what stands before its first slash, without quotes
/// around it.
pub open spec fn family(source: Seq<char>) -> Seq<char> {
    trimmed(
        match first_of(source, '/', 0) {
            Some(at) => source.take(at),
            None => source,
        },
        Trim::One('"'),
    )
}

/// The family of a source.
pub fn family_of(source: &str) -> (r: String)
    ensures
        r@ == family(source@),
{
    let list = chars_of(source);
    let front = match find_char(list.as_slice(), '/', 0) {
        Some(at) => part(list.as_slice(), 0, at),
        None => part(list.as_slice(), 0, list.len()),
    };
    proof {
        match first_of(source@, '/', 0) {
            Some(at) => {
                assert(front@ =~= source@.take(at));
            },
            None => {
                assert(front@ =~= source@);
            },
        }
    }
    text_of(trim(front.as_slice(), Trim::One('"')).as_slice())
}

} // verus!
