//! What tables and texts hold: fields and lines as they were joined, the first of what is
//! sought, and numbers that read back.
#[allow(unused_imports)]
use super::table::{
    bit_length, first_row, line_end, lines_from, metric_in, next_state, place, read_to, row_has,
    runs_in, split,
};
#[allow(unused_imports)]
use super::wording::{
    digits_value, end_before, escaped_underscore, first_of, first_place, grouped, hexed, joined,
    number_in, replaced, signed_decimal, stands_at, start_from, trimmed, trims, Trim,
};
#[allow(unused_imports)]
use crate::access_compiler::coding::runs;
#[allow(unused_imports)]
use crate::access_compiler::text::{decimal, digit};
use vstd::arithmetic::power2::pow2;
use vstd::prelude::*;

verus! {

// ----- numbers -----

/// The next state undoes to the state: no two states have the same next one.
pub proof fn law_states_stay_apart(a: u64, b: u64)
    requires
        a != b,
    ensures
        next_state(a) != next_state(b),
{
    let (p, q) = (a ^ (a << 13), b ^ (b << 13));
    assert(p != q) by (bit_vector)
        requires
            a != b,
            p == a ^ (a << 13),
            q == b ^ (b << 13),
    ;
    let (r, s) = (p ^ (p >> 7), q ^ (q >> 7));
    assert(r != s) by (bit_vector)
        requires
            p != q,
            r == p ^ (p >> 7),
            s == q ^ (q >> 7),
    ;
    assert(r ^ (r << 17) != s ^ (s << 17)) by (bit_vector)
        requires
            r != s,
    ;
}

/// The next state of two states that are combined bit by bit is that of each, combined: the
/// step is linear, and so known from its effect on single bits.
pub proof fn law_states_combine(a: u64, b: u64)
    ensures
        next_state(a ^ b) == next_state(a) ^ next_state(b),
        next_state(0) == 0,
        next_state(1) == 0x4082_2041,
        next_state(0x8000_0000_0000_0000) == 0x8100_0000_0000_0000 ^ (0x0100_0000_0000_0000u64
            << 17),
{
    assert({
        let (x, y, z) = (a ^ b, a, b);
        let (x1, y1, z1) = (x ^ (x << 13), y ^ (y << 13), z ^ (z << 13));
        let (x2, y2, z2) = (x1 ^ (x1 >> 7), y1 ^ (y1 >> 7), z1 ^ (z1 >> 7));
        x2 ^ (x2 << 17) == (y2 ^ (y2 << 17)) ^ (z2 ^ (z2 << 17))
    }) by (bit_vector);
    assert({
        let x1 = 0u64 ^ (0u64 << 13);
        let x2 = x1 ^ (x1 >> 7);
        x2 ^ (x2 << 17) == 0
    }) by (bit_vector);
    assert({
        let x1 = 1u64 ^ (1u64 << 13);
        let x2 = x1 ^ (x1 >> 7);
        x2 ^ (x2 << 17) == 0x4082_2041
    }) by (bit_vector);
    assert({
        let x1 = 0x8000_0000_0000_0000u64 ^ (0x8000_0000_0000_0000u64 << 13);
        let x2 = x1 ^ (x1 >> 7);
        x2 ^ (x2 << 17) == 0x8100_0000_0000_0000u64 ^ (0x0100_0000_0000_0000u64 << 17)
    }) by (bit_vector);
}

/// A number has as many bits as the least power of two above it.
pub proof fn law_bit_lengths_are_least(n: int)
    requires
        n > 0,
    ensures
        bit_length(n) > 0,
        pow2((bit_length(n) - 1) as nat) <= n < pow2(bit_length(n) as nat),
    decreases n,
{
    vstd::arithmetic::power2::lemma2_to64();
    if n == 1 {
        reveal_with_fuel(bit_length, 2);
    } else {
        law_bit_lengths_are_least(n / 2);
        let k = bit_length(n / 2);
        vstd::arithmetic::power2::lemma_pow2_unfold(k as nat);
        vstd::arithmetic::power2::lemma_pow2_unfold((k + 1) as nat);
    }
}

/// As many runs are counted as a column of the values has.
pub proof fn law_runs_are_those_of_the_column(values: Seq<i64>, n: int)
    requires
        0 < n <= values.len(),
    ensures
        runs_in(values, n) == runs(values.map_values(|value: i64| value as int), n).len(),
        runs(values.map_values(|value: i64| value as int), n).last().0 == values[n - 1],
    decreases n,
{
    let list = values.map_values(|value: i64| value as int);
    if n > 1 {
        law_runs_are_those_of_the_column(values, n - 1);
    } else {
        reveal_with_fuel(runs, 2);
    }
    assert(list[n - 1] == values[n - 1]);
}

/// One more row is one more run where it differs from the row before, and only there.
pub proof fn law_runs_end_where_values_change(values: Seq<i64>, n: int)
    requires
        1 < n <= values.len(),
    ensures
        runs_in(values, n) - runs_in(values, n - 1) == if values[n - 1] == values[n - 2] {
            0int
        } else {
            1
        },
        runs_in(values, 1) == 1,
{
}

// ----- searches -----

/// The place of a name is the first that has it.
pub proof fn law_places_are_first(names: Seq<Seq<char>>, name: Seq<char>, n: int)
    requires
        0 <= n <= names.len(),
    ensures
        match place(names, name, n) {
            Some(at) => 0 <= at < n && names[at] == name && forall|i: int|
                0 <= i < at ==> #[trigger] names[i] != name,
            None => forall|i: int| 0 <= i < n ==> #[trigger] names[i] != name,
        },
    decreases n,
{
    if n > 0 {
        law_places_are_first(names, name, n - 1);
    }
}

/// Whether a row lacks a text that is wanted.
pub open spec fn lacks(row: Seq<Seq<char>>, wanted: Seq<(usize, String)>) -> bool {
    exists|k: int|
        0 <= k < wanted.len() && row[(#[trigger] wanted[k]).0 as int] != wanted[k].1@
}

/// The row that is found is the first with every text that is wanted where it is wanted.
pub proof fn law_rows_found_are_first(
    rows: Seq<Seq<Seq<char>>>,
    wanted: Seq<(usize, String)>,
    n: int,
)
    requires
        0 <= n <= rows.len(),
    ensures
        match first_row(rows, wanted, n) {
            Some(at) => {
                &&& 0 <= at < n
                &&& !lacks(rows[at], wanted)
                &&& forall|i: int| 0 <= i < at ==> lacks(#[trigger] rows[i], wanted)
            },
            None => forall|i: int| 0 <= i < n ==> lacks(#[trigger] rows[i], wanted),
        },
    decreases n,
{
    if n > 0 {
        law_rows_found_are_first(rows, wanted, n - 1);
        assert(row_has(rows[n - 1], wanted) == !lacks(rows[n - 1], wanted));
    }
}

/// The value of a metric is that of the last row with its name.
pub proof fn law_metrics_are_the_last(rows: Seq<Seq<Seq<char>>>, key: Seq<char>, n: int)
    requires
        0 <= n <= rows.len(),
    ensures
        match metric_in(rows, key, n) {
            Some(value) => exists|at: int|
                0 <= at < n && (#[trigger] rows[at])[0] == key && rows[at][1] == value && forall|
                    i: int,
                | at < i < n ==> (#[trigger] rows[i])[0] != key,
            None => forall|i: int| 0 <= i < n ==> (#[trigger] rows[i])[0] != key,
        },
    decreases n,
{
    if n > 0 {
        law_metrics_are_the_last(rows, key, n - 1);
        if rows[n - 1][0] == key {
            assert(rows[n - 1][1] == metric_in(rows, key, n)->0);
        } else if let Some(value) = metric_in(rows, key, n - 1) {
            let at = choose|at: int|
                0 <= at < n - 1 && (#[trigger] rows[at])[0] == key && rows[at][1] == value
                    && forall|i: int| at < i < n - 1 ==> (#[trigger] rows[i])[0] != key;
            assert(rows[at][0] == key);
        }
    }
}

/// A character is found where it stands first.
pub proof fn law_characters_are_found_first(text: Seq<char>, c: char, from: int)
    requires
        0 <= from <= text.len(),
    ensures
        match first_of(text, c, from) {
            Some(at) => from <= at < text.len() && text[at] == c && forall|i: int|
                from <= i < at ==> #[trigger] text[i] != c,
            None => forall|i: int| from <= i < text.len() ==> #[trigger] text[i] != c,
        },
    decreases text.len() - from,
{
    if from < text.len() && text[from] != c {
        law_characters_are_found_first(text, c, from + 1);
    }
}

/// A text is found where it stands first.
pub proof fn law_texts_are_found_first(text: Seq<char>, needle: Seq<char>, from: int)
    requires
        0 <= from,
    ensures
        match first_place(text, needle, from) {
            Some(at) => {
                &&& from <= at <= text.len() - needle.len()
                &&& text.subrange(at, at + needle.len()) == needle
                &&& forall|i: int|
                    from <= i < at ==> #[trigger] text.subrange(i, i + needle.len()) != needle
            },
            None => forall|i: int|
                from <= i <= text.len() - needle.len() ==> #[trigger] text.subrange(
                    i,
                    i + needle.len(),
                ) != needle,
        },
    decreases text.len() + 1 - from,
{
    if from <= text.len() && !stands_at(text, needle, from) {
        law_texts_are_found_first(text, needle, from + 1);
    }
}

// ----- texts of numbers -----

proof fn lemma_digits_same(a: Seq<char>, b: Seq<char>, n: int)
    requires
        0 <= n <= a.len(),
        n <= b.len(),
        forall|i: int| 0 <= i < n ==> a[i] == b[i],
    ensures
        digits_value(a, n) == digits_value(b, n),
    decreases n,
{
    if n > 0 {
        lemma_digits_same(a, b, n - 1);
    }
}

pub proof fn lemma_decimal_reads(n: nat)
    ensures
        decimal(n).len() > 0,
        digits_value(decimal(n), decimal(n).len() as int) == Some(n as int),
        forall|i: int| 0 <= i < decimal(n).len() ==> '0' <= #[trigger] decimal(n)[i] <= '9',
        n > 0 ==> decimal(n)[0] != '0',
    decreases n,
{
    reveal_with_fuel(digits_value, 2);
    let text = decimal(n);
    if n >= 10 {
        lemma_decimal_reads(n / 10);
        let before = decimal(n / 10);
        assert(text == before.push(digit(n as int % 10)));
        lemma_digits_same(text, before, before.len() as int);
    }
}

/// A number that is written reads back, and is written without zeros in front.
pub proof fn law_numbers_read_back(n: int)
    ensures
        number_in(signed_decimal(n)) == Some(n),
        n > 0 ==> signed_decimal(n)[0] != '0',
        n < 0 ==> signed_decimal(n)[0] == '-' && signed_decimal(n)[1] != '0',
        signed_decimal(0) == seq!['0'],
{
    if n < 0 {
        lemma_decimal_reads((-n) as nat);
        let text = signed_decimal(n);
        assert(text.skip(1) =~= decimal((-n) as nat));
    } else {
        lemma_decimal_reads(n as nat);
    }
}

/// The number that a digit to the base sixteen stands for.
pub open spec fn hex_value(c: char) -> int {
    if '0' <= c <= '9' {
        c as int - '0' as int
    } else {
        c as int - 'a' as int + 10
    }
}

/// A byte reads back from its two digits, the greater first.
pub proof fn law_bytes_read_back(byte: u8)
    ensures
        hexed(seq![byte], Seq::empty(), 1).len() == 2,
        16 * hex_value(hexed(seq![byte], Seq::empty(), 1)[0]) + hex_value(
            hexed(seq![byte], Seq::empty(), 1)[1],
        ) == byte,
{
}

/// Bytes take two digits each, with what parts them between.
pub proof fn law_bytes_stand_in_their_places(
    bytes: Seq<u8>,
    separator: Seq<char>,
    n: int,
    i: int,
)
    requires
        0 <= i < n <= bytes.len(),
    ensures
        ({
            let text = hexed(bytes, separator, n);
            let at = i * (2 + separator.len());
            &&& text.len() == n * (2 + separator.len()) - separator.len()
            &&& 0 <= at
            &&& at + 2 <= text.len()
            &&& 16 * hex_value(text[at]) + hex_value(text[at + 1]) == bytes[i]
        }),
    decreases n,
{
    let w = 2 + separator.len() as int;
    vstd::arithmetic::mul::lemma_mul_is_distributive_add_other_way(w, n - 1, 1);
    vstd::arithmetic::mul::lemma_mul_nonnegative(i, w);
    if n > 1 {
        law_bytes_stand_in_their_places(bytes, separator, n - 1, if i < n - 1 {
            i
        } else {
            0
        });
    } else {
        assert(0 * w == 0);
    }
    let before = if n == 1 {
        Seq::empty()
    } else {
        hexed(bytes, separator, n - 1) + separator
    };
    assert(before.len() == (n - 1) * w);
    if i == n - 1 {
        law_bytes_read_back(bytes[n - 1]);
    } else {
        vstd::arithmetic::mul::lemma_mul_inequality(i + 1, n - 1, w);
        vstd::arithmetic::mul::lemma_mul_is_distributive_add_other_way(w, i, 1);
    }
}

/// A text in groups of three: taken from the end, each group of four characters is a comma
/// and three characters of the text, and nothing else is added.
pub proof fn law_groups_are_of_three(text: Seq<char>, n: int)
    requires
        0 < n <= text.len(),
    ensures
        ({
            let all = grouped(text, n);
            let commas = (text.len() - 1) / 3 - (text.len() - n) / 3;
            &&& all.len() == n + commas
            &&& all.last() == text[n - 1]
            &&& all[0] == text[0]
            &&& n > 1 && (text.len() - (n - 1)) % 3 == 0 ==> all[all.len() - 2] == ','
            &&& n > 1 && (text.len() - (n - 1)) % 3 != 0 ==> all[all.len() - 2] == text[n - 2]
        }),
    decreases n,
{
    reveal_with_fuel(grouped, 2);
    if n > 1 {
        law_groups_are_of_three(text, n - 1);
    }
}

/// Without its commas a grouped text is the text.
pub proof fn law_groups_hold_the_text(text: Seq<char>, n: int)
    requires
        0 <= n <= text.len(),
        forall|i: int| 0 <= i < text.len() ==> #[trigger] text[i] != ',',
    ensures
        grouped(text, n).filter(|c: char| c != ',') == text.take(n),
    decreases n,
{
    reveal(Seq::filter);
    let keep = |c: char| c != ',';
    if n > 0 {
        law_groups_hold_the_text(text, n - 1);
        let before = grouped(text, n - 1);
        let all = grouped(text, n);
        assert(all.drop_last() == before || all.drop_last() == before.push(','));
        assert(before.push(',').drop_last() =~= before);
        assert(text.take(n) =~= text.take(n - 1).push(text[n - 1]));
        assert(all.filter(keep) == all.drop_last().filter(keep).push(text[n - 1]));
        if all.drop_last() != before {
            assert(before.push(',').filter(keep) == before.push(',').drop_last().filter(keep));
        }
        if all.drop_last() == before.push(',') {
            assert(before.push(',').last() == ',');
        }
    } else {
        assert(text.take(0) =~= Seq::empty());
    }
}

/// What is left of a trimmed text neither starts nor ends with what is trimmed, and only
/// that was taken away.
pub proof fn law_trimming_takes_both_ends(text: Seq<char>, what: Trim)
    ensures
        ({
            let kept = trimmed(text, what);
            &&& kept.len() > 0 ==> !trims(what, kept[0]) && !trims(what, kept.last())
            &&& exists|from: int|
                {
                    &&& 0 <= from <= text.len() - kept.len()
                    &&& #[trigger] text.subrange(from, from + kept.len()) == kept
                    &&& forall|i: int|
                        (0 <= i < from || from + kept.len() <= i < text.len()) ==> trims(
                            what,
                            #[trigger] text[i],
                        )
                }
        }),
{
    lemma_start(text, what, 0);
    let from = start_from(text, what, 0);
    let rest = text.skip(from);
    lemma_end(rest, what, 0, rest.len() as int);
    let end = end_before(rest, what, 0, rest.len() as int);
    let kept = trimmed(text, what);
    assert(kept =~= text.subrange(from, from + end));
    assert forall|i: int| from + kept.len() <= i < text.len() implies trims(
        what,
        #[trigger] text[i],
    ) by {
        assert(rest[i - from] == text[i]);
    }
    if kept.len() > 0 {
        assert(kept[0] == text[from]);
        assert(kept.last() == rest[end - 1]);
    }
}

proof fn lemma_start(text: Seq<char>, what: Trim, from: int)
    requires
        0 <= from <= text.len(),
    ensures
        from <= start_from(text, what, from) <= text.len(),
        forall|i: int|
            from <= i < start_from(text, what, from) ==> trims(what, #[trigger] text[i]),
        start_from(text, what, from) < text.len() ==> !trims(
            what,
            text[start_from(text, what, from)],
        ),
    decreases text.len() - from,
{
    if from < text.len() && trims(what, text[from]) {
        lemma_start(text, what, from + 1);
    }
}

proof fn lemma_end(text: Seq<char>, what: Trim, from: int, end: int)
    requires
        0 <= from <= end <= text.len(),
    ensures
        from <= end_before(text, what, from, end) <= end,
        forall|i: int|
            end_before(text, what, from, end) <= i < end ==> trims(what, #[trigger] text[i]),
        end_before(text, what, from, end) > from ==> !trims(
            what,
            text[end_before(text, what, from, end) - 1],
        ),
    decreases end - from,
{
    if from < end && trims(what, text[end - 1]) {
        lemma_end(text, what, from, end - 1);
    }
}

// ----- tables -----

/// Fields joined into a line, with commas between.
pub open spec fn comma_line(fields: Seq<Seq<char>>) -> Seq<char>
    decreases fields.len(),
{
    if fields.len() == 0 {
        Seq::empty()
    } else if fields.len() == 1 {
        fields[0]
    } else {
        comma_line(fields.drop_last()) + seq![','] + fields.last()
    }
}

/// Whether a text has neither a quote, a comma nor the end of a line.
pub open spec fn is_plain(text: Seq<char>) -> bool {
    forall|i: int|
        0 <= i < text.len() ==> {
            let c = #[trigger] text[i];
            c != '"' && c != ',' && c != '\n' && c != '\r'
        }
}

proof fn lemma_reading_same(a: Seq<char>, b: Seq<char>, n: int)
    requires
        0 <= n <= a.len(),
        n <= b.len(),
        forall|i: int| 0 <= i < n ==> a[i] == b[i],
    ensures
        read_to(a, n) == read_to(b, n),
    decreases n,
{
    if n > 0 {
        lemma_reading_same(a, b, n - 1);
    }
}

proof fn lemma_read_plain(line: Seq<char>, from: int, n: int)
    requires
        0 <= from <= n <= line.len(),
        is_plain(line.subrange(from, n)),
        !read_to(line, from).quoted,
    ensures
        read_to(line, n).fields == read_to(line, from).fields,
        read_to(line, n).current == read_to(line, from).current + line.subrange(from, n),
        !read_to(line, n).quoted,
    decreases n - from,
{
    if from < n {
        assert forall|i: int| 0 <= i < n - 1 - from implies {
            let c = #[trigger] line.subrange(from, n - 1)[i];
            c != '"' && c != ',' && c != '\n' && c != '\r'
        } by {
            assert(line.subrange(from, n - 1)[i] == line.subrange(from, n)[i]);
        }
        lemma_read_plain(line, from, n - 1);
        assert(line.subrange(from, n)[n - 1 - from] == line[n - 1]);
        assert(line.subrange(from, n) =~= line.subrange(from, n - 1).push(line[n - 1]));
        assert(read_to(line, n).current =~= read_to(line, from).current + line.subrange(from, n));
    } else {
        assert(line.subrange(from, n) =~= Seq::empty());
        assert(read_to(line, n).current =~= read_to(line, from).current + line.subrange(from, n));
    }
}

/// Fields that are joined with commas are split into the same fields.
pub proof fn law_fields_split_as_they_were_joined(fields: Seq<Seq<char>>)
    requires
        fields.len() > 0,
        forall|k: int| 0 <= k < fields.len() ==> is_plain(#[trigger] fields[k]),
    ensures
        split(comma_line(fields)) == fields,
{
    lemma_split_back(fields);
    let all = read_to(comma_line(fields), comma_line(fields).len() as int);
    assert(all.fields.push(all.current) =~= fields);
}

proof fn lemma_split_back(fields: Seq<Seq<char>>)
    requires
        fields.len() > 0,
        forall|k: int| 0 <= k < fields.len() ==> is_plain(#[trigger] fields[k]),
    ensures
        ({
            let line = comma_line(fields);
            let all = read_to(line, line.len() as int);
            &&& !all.quoted
            &&& all.fields == fields.drop_last()
            &&& all.current == fields.last()
        }),
    decreases fields.len(),
{
    let line = comma_line(fields);
    let n = line.len() as int;
    assert(is_plain(fields[fields.len() - 1]));
    if fields.len() == 1 {
        reveal_with_fuel(comma_line, 2);
        assert(line.subrange(0, n) =~= fields[0]);
        lemma_read_plain(line, 0, n);
        assert(read_to(line, 0).current + line.subrange(0, n) =~= fields[0]);
        assert(fields.drop_last() =~= Seq::empty());
    } else {
        let before = fields.drop_last();
        assert forall|k: int| 0 <= k < before.len() implies is_plain(#[trigger] before[k]) by {
            assert(before[k] == fields[k]);
        }
        lemma_split_back(before);
        let first = comma_line(before);
        let m = first.len() as int;
        lemma_reading_same(line, first, m);
        assert(line[m] == ',');
        let after = read_to(line, m + 1);
        assert(after.fields == before.drop_last().push(before.last()));
        assert(before.drop_last().push(before.last()) =~= before);
        assert(line.subrange(m + 1, n) =~= fields.last());
        lemma_read_plain(line, m + 1, n);
        assert(after.current + line.subrange(m + 1, n) =~= fields.last());
    }
}

/// Lines of which each ends.
pub open spec fn ended_lines(lines: Seq<Seq<char>>) -> Seq<char>
    decreases lines.len(),
{
    if lines.len() == 0 {
        Seq::empty()
    } else {
        lines[0] + seq!['\n'] + ended_lines(lines.skip(1))
    }
}

proof fn lemma_line_found(text: Seq<char>, from: int, end: int)
    requires
        0 <= from <= end < text.len(),
        text[end] == '\n',
        forall|i: int| from <= i < end ==> #[trigger] text[i] != '\n',
    ensures
        line_end(text, from) == end,
    decreases end - from,
{
    if from < end {
        lemma_line_found(text, from + 1, end);
    }
}

/// Lines that are joined are parted into the same lines.
pub proof fn law_lines_part_as_they_were_joined(before: Seq<char>, lines: Seq<Seq<char>>)
    requires
        forall|k: int, i: int|
            0 <= k < lines.len() && 0 <= i < lines[k].len() ==> (#[trigger] lines[k][i]) != '\n'
                && lines[k][i] != '\r',
    ensures
        lines_from(before + ended_lines(lines), before.len() as int) == lines,
    decreases lines.len(),
{
    let text = before + ended_lines(lines);
    let from = before.len() as int;
    if lines.len() == 0 {
        assert(lines_from(text, from) =~= lines);
    } else {
        let first = lines[0];
        let rest = lines.skip(1);
        let end = from + first.len();
        assert(text[end] == '\n');
        assert forall|i: int| from <= i < end implies #[trigger] text[i] != '\n' && text[i]
            != '\r' by {
            assert(text[i] == lines[0][i - from]);
        }
        lemma_line_found(text, from, end);
        assert(text.subrange(from, end) =~= first);
        let next = before + first + seq!['\n'];
        assert(next + ended_lines(rest) =~= text);
        assert forall|k: int, i: int| 0 <= k < rest.len() && 0 <= i < rest[k].len() implies (
        #[trigger] rest[k][i]) != '\n' && rest[k][i] != '\r' by {
            assert(rest[k][i] == lines[k + 1][i]);
        }
        law_lines_part_as_they_were_joined(next, rest);
        assert(seq![first] + rest =~= lines);
    }
}

/// Numbers that are joined with commas split into the text of each.
pub proof fn law_joined_numbers_split(values: Seq<usize>, k: int)
    requires
        0 <= k < values.len(),
    ensures
        ({
            let parts = split(joined(values, ","@, values.len() as int));
            &&& parts.len() == values.len()
            &&& number_in(parts[k]) == Some(values[k] as int)
        }),
{
    let fields = values.map_values(|value: usize| decimal(value as nat));
    lemma_joined(values, values.len() as int);
    assert(fields.take(values.len() as int) =~= fields);
    assert forall|j: int| 0 <= j < fields.len() implies is_plain(#[trigger] fields[j]) by {
        lemma_decimal_reads(values[j] as nat);
    }
    law_fields_split_as_they_were_joined(fields);
    law_numbers_read_back(values[k] as int);
}

proof fn lemma_joined(values: Seq<usize>, n: int)
    requires
        0 < n <= values.len(),
    ensures
        joined(values, ","@, n) == comma_line(
            values.map_values(|value: usize| decimal(value as nat)).take(n),
        ),
    decreases n,
{
    reveal_strlit(",");
    let part = values.map_values(|value: usize| decimal(value as nat)).take(n);
    assert(part.last() == decimal(values[n - 1] as nat));
    if n > 1 {
        lemma_joined(values, n - 1);
        assert(part.drop_last() =~= values.map_values(|value: usize| decimal(value as nat)).take(
            n - 1,
        ));
        assert(","@ =~= seq![',']);
    } else {
        reveal_with_fuel(comma_line, 2);
        assert(part[0] == decimal(values[0] as nat));
    }
}

/// A label is escaped character by character: an underscore behind a backslash, and any other
/// character as it is.
pub proof fn law_labels_are_escaped_by_character(before: Seq<char>, c: char)
    ensures
        replaced(Seq::empty(), escaped_underscore()) == Seq::<char>::empty(),
        replaced(before.push(c), escaped_underscore()).len() == replaced(
            before,
            escaped_underscore(),
        ).len() + if c == '_' {
            2int
        } else {
            1
        },
        replaced(before.push(c), escaped_underscore()).last() == c,
        c == '_' ==> replaced(before.push(c), escaped_underscore())[replaced(
            before.push(c),
            escaped_underscore(),
        ).len() - 2] == '\\',
        replaced(before, escaped_underscore()).is_prefix_of(
            replaced(before.push(c), escaped_underscore()),
        ),
{
    assert(before.push(c).drop_last() =~= before);
    let a = replaced(before, escaped_underscore());
    let b = replaced(before.push(c), escaped_underscore());
    assert(b.subrange(0, a.len() as int) =~= a);
}

} // verus!
