//! What the explorer answers with.
use super::wording::{chars_of, decimal_text, hex_text, signed_text};
#[allow(unused_imports)]
use super::wording::{hexed, replaced, signed_decimal};
#[allow(unused_imports)]
use super::workload::{lemma_rows_in, rows_in};
use crate::access_compiler::encode::EncodedColumn;
use crate::access_compiler::execute::{Answer, Execution};
#[allow(unused_imports)]
use crate::access_compiler::execute::Reply;
use crate::access_compiler::invariants::NullPlacement;
#[allow(unused_imports)]
use crate::access_compiler::layout::Field;
use crate::access_compiler::layout::{FieldLayout, FieldLocation};
use crate::access_compiler::span::Span;
#[allow(unused_imports)]
use crate::access_compiler::text::decimal;
use crate::access_compiler::text::push_decimal;
#[allow(unused_imports)]
use vstd::string::*;
use vstd::prelude::*;

verus! {

/// A character as it is written in quotes.
pub open spec fn escaped() -> spec_fn(char) -> Seq<char> {
    |c: char|
        if c == '"' {
            "\\\""@
        } else if c == '\\' {
            "\\\\"@
        } else if c == '\n' {
            "\\n"@
        } else if c == '\t' {
            "\\t"@
        } else if (c as int) < 0x20 {
            "\\u00"@ + hexed(seq![c as u8], Seq::empty(), 1)
        } else {
            seq![c]
        }
}

/// A text in quotes.
pub open spec fn quoted(text: Seq<char>) -> Seq<char> {
    "\""@ + replaced(text, escaped()) + "\""@
}

fn is_control(c: char) -> (r: bool)
    ensures
        r == ((c as int) < 0x20),
{
    (c as u32) < 0x20
}

fn control_code(c: char) -> (r: u8)
    requires
        (c as int) < 0x20,
    ensures
        r == c as u8,
{
    c as u8
}

/// Puts a text in quotes.
pub fn quote(text: &str) -> (r: String)
    ensures
        r@ == quoted(text@),
{
    let list = chars_of(text);
    let ghost change = escaped();
    let mut out = String::from_str("\"");
    let mut i: usize = 0;
    assert(list@.take(0) =~= Seq::empty());
    assert(out@ =~= "\""@ + replaced(list@.take(0), change));
    while i < list.len()
        invariant
            i <= list@.len(),
            change == escaped(),
            out@ == "\""@ + replaced(list@.take(i as int), change),
        decreases list@.len() - i,
    {
        let c: char = list[i];
        proof {
            assert(list@.take(i + 1).drop_last() =~= list@.take(i as int));
        }
        let ghost before = out@;
        if c == '"' {
            out.append("\\\"");
        } else if c == '\\' {
            out.append("\\\\");
        } else if c == '\n' {
            out.append("\\n");
        } else if c == '\t' {
            out.append("\\t");
        } else if is_control(c) {
            let code: [u8; 1] = [control_code(c)];
            out.append("\\u00");
            let digits = hex_text(&code, "");
            proof {
                reveal_strlit("");
                assert(code@ =~= seq![c as u8]);
                assert(""@ =~= Seq::empty());
            }
            out.append(digits.as_str());
            assert(digits@ == hexed(seq![c as u8], Seq::empty(), 1));
            assert(out@ =~= before + ("\\u00"@ + digits@));
        } else {
            out.push(c);
            assert(out@ =~= before + seq![c]);
        }
        assert(out@ == before + change(c));
        assert(out@ =~= "\""@ + replaced(list@.take(i + 1), change));
        i = i + 1;
    }
    assert(list@.take(i as int) =~= text@);
    out.append("\"");
    out
}

/// The first `n` members of an object.
pub open spec fn members_text(members: Seq<(&'static str, String)>, n: int) -> Seq<char>
    decreases n,
{
    if n <= 0 {
        Seq::empty()
    } else {
        let before = if n == 1 {
            Seq::empty()
        } else {
            members_text(members, n - 1) + ","@
        };
        before + quoted(members[n - 1].0@) + ":"@ + members[n - 1].1@
    }
}

pub open spec fn object_text(members: Seq<(&'static str, String)>) -> Seq<char> {
    "{"@ + members_text(members, members.len() as int) + "}"@
}

/// An object of members that are written already.
pub fn object(members: &[(&'static str, String)]) -> (r: String)
    ensures
        r@ == object_text(members@),
{
    let mut out = String::from_str("{");
    let mut i: usize = 0;
    assert(out@ =~= "{"@ + members_text(members@, 0));
    while i < members.len()
        invariant
            i <= members@.len(),
            out@ == "{"@ + members_text(members@, i as int),
        decreases members@.len() - i,
    {
        if i > 0 {
            out.append(",");
        }
        out.append(quote(members[i].0).as_str());
        out.append(":");
        out.append(members[i].1.as_str());
        assert(out@ =~= "{"@ + members_text(members@, i + 1));
        i = i + 1;
    }
    out.append("}");
    out
}

/// The first `n` items of a list.
pub open spec fn list_text(items: Seq<String>, n: int) -> Seq<char>
    decreases n,
{
    if n <= 0 {
        Seq::empty()
    } else {
        let before = if n == 1 {
            Seq::empty()
        } else {
            list_text(items, n - 1) + ","@
        };
        before + items[n - 1]@
    }
}

pub open spec fn array_text(items: Seq<String>) -> Seq<char> {
    "["@ + list_text(items, items.len() as int) + "]"@
}

/// A list of items that are written already.
pub fn array(items: &[String]) -> (r: String)
    ensures
        r@ == array_text(items@),
{
    let mut out = String::from_str("[");
    let mut i: usize = 0;
    assert(out@ =~= "["@ + list_text(items@, 0));
    while i < items.len()
        invariant
            i <= items@.len(),
            out@ == "["@ + list_text(items@, i as int),
        decreases items@.len() - i,
    {
        if i > 0 {
            out.append(",");
        }
        out.append(items[i].as_str());
        assert(out@ =~= "["@ + list_text(items@, i + 1));
        i = i + 1;
    }
    out.append("]");
    out
}

/// One member of an object.
pub open spec fn member(key: Seq<char>, value: Seq<char>) -> Seq<char> {
    quoted(key) + ":"@ + value
}

/// An object that is open and has one member.
#[verifier::opaque]
pub open spec fn opened(key: Seq<char>, value: Seq<char>) -> Seq<char> {
    "{"@ + member(key, value)
}

/// An open object with one member more.
#[verifier::opaque]
pub open spec fn with(text: Seq<char>, key: Seq<char>, value: Seq<char>) -> Seq<char> {
    text + ","@ + member(key, value)
}

/// Opens an object.
pub(crate) fn open_object(key: &str, value: &str) -> (r: String)
    ensures
        r@ == opened(key@, value@),
{
    let mut out = String::from_str("{");
    out.append(quote(key).as_str());
    out.append(":");
    out.append(value);
    proof {
        reveal(opened);
    }
    assert(out@ =~= opened(key@, value@));
    out
}

/// Writes one member behind others.
pub(crate) fn push_member(out: &mut String, key: &str, value: &str)
    ensures
        final(out)@ == with(old(out)@, key@, value@),
{
    out.append(",");
    out.append(quote(key).as_str());
    out.append(":");
    out.append(value);
    proof {
        reveal(with);
    }
    assert(out@ =~= with(old(out)@, key@, value@));
}

// ----- pages -----

pub open spec fn truth_text(value: bool) -> Seq<char> {
    if value {
        "true"@
    } else {
        "false"@
    }
}

pub fn truth_string(value: bool) -> (r: &'static str)
    ensures
        r@ == truth_text(value),
{
    if value {
        "true"
    } else {
        "false"
    }
}

pub open spec fn placement_text(placement: NullPlacement) -> Seq<char> {
    match placement {
        NullPlacement::NoNulls => "NoNulls"@,
        NullPlacement::First => "First"@,
        NullPlacement::Last => "Last"@,
        NullPlacement::Arbitrary => "Arbitrary"@,
    }
}

pub fn placement_string(placement: NullPlacement) -> (r: &'static str)
    ensures
        r@ == placement_text(placement),
{
    match placement {
        NullPlacement::NoNulls => "NoNulls",
        NullPlacement::First => "First",
        NullPlacement::Last => "Last",
        NullPlacement::Arbitrary => "Arbitrary",
    }
}

/// A field of a page.
pub open spec fn field_text(field: Field) -> Seq<char> {
    let (kind, offset) = match field.location {
        FieldLocation::Direct { offset } => ("direct"@, offset),
        FieldLocation::Framed { decoded_offset, .. } => ("framed"@, decoded_offset),
    };
    let a = opened("id"@, decimal(field.id.0 as nat));
    let b = with(a, "name"@, quoted(field.name));
    let c = with(b, "length"@, decimal(field.length as nat));
    let d = with(c, "alignment"@, decimal(field.alignment as nat));
    let e = with(d, "read_granularity"@, decimal(field.read_granularity as nat));
    let f = with(e, "location"@, quoted(kind));
    with(f, "offset"@, decimal(offset as nat)) + "}"@
}

fn field_json(field: &FieldLayout) -> (r: String)
    ensures
        r@ == field_text(field@),
{
    let (kind, offset) = match field.location {
        FieldLocation::Direct { offset } => ("direct", offset),
        FieldLocation::Framed { decoded_offset, .. } => ("framed", decoded_offset),
    };
    let mut out = open_object("id", decimal_text(field.id.0).as_str());
    push_member(&mut out, "name", quote(field.name.as_str()).as_str());
    push_member(&mut out, "length", decimal_text(field.length).as_str());
    push_member(&mut out, "alignment", decimal_text(field.alignment).as_str());
    push_member(&mut out, "read_granularity", decimal_text(field.read_granularity).as_str());
    push_member(&mut out, "location", quote(kind).as_str());
    push_member(&mut out, "offset", decimal_text(offset).as_str());
    out.append("}");
    out
}

/// The first `n` fields of a page.
pub open spec fn fields_text(fields: Seq<Field>, n: int) -> Seq<char>
    decreases n,
{
    if n <= 0 {
        Seq::empty()
    } else {
        let before = if n == 1 {
            Seq::empty()
        } else {
            fields_text(fields, n - 1) + ","@
        };
        before + field_text(fields[n - 1])
    }
}

/// What is known of a page.
pub open spec fn page_text(column: EncodedColumn) -> Seq<char> {
    let layout = column.page.plan();
    let checked = column.page.stated();
    let fields = "["@ + fields_text(layout.fields, layout.fields.len() as int) + "]"@;
    let a = opened("page_bytes"@, decimal(column.page.image().len()));
    let b = with(a, "rows"@, decimal(column.truth@.len()));
    let c = with(b, "fields"@, fields);
    let d = with(c, "frames"@, decimal(layout.frames.len()));
    let e = with(d, "dependencies"@, decimal(layout.dependencies.len()));
    let f = with(e, "checked_non_decreasing"@, truth_text(checked.non_decreasing));
    let g = with(
        f,
        "checked_non_decreasing_non_null"@,
        truth_text(checked.non_decreasing_non_null),
    );
    with(g, "checked_null_placement"@, quoted(placement_text(checked.null_placement))) + "}"@
}

/// Describes a page.
pub fn page_json(column: &EncodedColumn) -> (r: String)
    ensures
        r@ == page_text(*column),
{
    let layout = column.page.layout();
    let checked = column.page.invariants();
    let mut fields = String::from_str("[");
    let mut i: usize = 0;
    assert(fields@ =~= "["@ + fields_text(layout@.fields, 0));
    while i < layout.fields.len()
        invariant
            i <= layout.fields@.len(),
            fields@ == "["@ + fields_text(layout@.fields, i as int),
        decreases layout.fields@.len() - i,
    {
        if i > 0 {
            fields.append(",");
        }
        assert(layout@.fields[i as int] == layout.fields@[i as int]@);
        fields.append(field_json(&layout.fields[i]).as_str());
        assert(fields@ =~= "["@ + fields_text(layout@.fields, i + 1));
        i = i + 1;
    }
    fields.append("]");
    let mut out = open_object("page_bytes", decimal_text(column.page.bytes().len()).as_str());
    push_member(&mut out, "rows", decimal_text(column.truth.len()).as_str());
    push_member(&mut out, "fields", fields.as_str());
    push_member(&mut out, "frames", decimal_text(layout.frames.len()).as_str());
    push_member(&mut out, "dependencies", decimal_text(layout.dependencies.len()).as_str());
    push_member(&mut out, "checked_non_decreasing", truth_string(checked.non_decreasing));
    push_member(
        &mut out,
        "checked_non_decreasing_non_null",
        truth_string(checked.non_decreasing_non_null),
    );
    push_member(
        &mut out,
        "checked_null_placement",
        quote(placement_string(checked.null_placement)).as_str(),
    );
    out.append("}");
    out
}

// ----- runs -----

/// The first `n` ranges of an answer.
pub open spec fn spans_text(ranges: Seq<Span>, n: int) -> Seq<char>
    decreases n,
{
    if n <= 0 {
        Seq::empty()
    } else {
        let before = if n == 1 {
            Seq::empty()
        } else {
            spans_text(ranges, n - 1) + ","@
        };
        before + "["@ + decimal(ranges[n - 1].start as nat) + ","@ + decimal(
            ranges[n - 1].end as nat,
        ) + "]"@
    }
}

/// An answer.
pub open spec fn answer_text(reply: Reply) -> Seq<char> {
    match reply {
        Reply::Value(value) => with(
            opened("kind"@, quoted("value"@)),
            "value"@,
            match value {
                Some(value) => signed_decimal(value as int),
                None => "null"@,
            },
        ) + "}"@,
        Reply::Sum(sum) => with(opened("kind"@, quoted("sum"@)), "value"@, signed_decimal(sum))
            + "}"@,
        Reply::Count(count) => with(
            opened("kind"@, quoted("count"@)),
            "value"@,
            decimal(count as nat),
        ) + "}"@,
        Reply::Ranges(ranges) => with(
            with(
                opened("kind"@, quoted("ranges"@)),
                "ranges"@,
                "["@ + spans_text(ranges, ranges.len() as int) + "]"@,
            ),
            "rows"@,
            decimal(rows_in(ranges, ranges.len() as int) as nat),
        ) + "}"@,
    }
}

/// The ranges of an answer are in order in themselves, and their rows can be
/// counted.
pub open spec fn countable_ranges(answer: Answer) -> bool {
    answer matches Answer::Ranges(ranges) ==> {
        &&& forall|k: int|
            0 <= k < ranges@.len() ==> (#[trigger] ranges@[k]).start <= ranges@[k].end
        &&& rows_in(ranges@, ranges@.len() as int) <= usize::MAX
    }
}

fn answer_json(answer: &Answer) -> (r: String)
    requires
        countable_ranges(*answer),
    ensures
        r@ == answer_text(answer@),
{
    match answer {
        Answer::Value(value) => {
            let mut out = open_object("kind", quote("value").as_str());
            match value {
                Some(value) => push_member(
                    &mut out,
                    "value",
                    signed_text(*value as i128).as_str(),
                ),
                None => push_member(&mut out, "value", "null"),
            }
            out.append("}");
            out
        },
        Answer::Sum(sum) => {
            let mut out = open_object("kind", quote("sum").as_str());
            push_member(&mut out, "value", signed_text(*sum).as_str());
            out.append("}");
            out
        },
        Answer::Count(count) => {
            let mut out = open_object("kind", quote("count").as_str());
            push_member(&mut out, "value", decimal_text(*count).as_str());
            out.append("}");
            out
        },
        Answer::Ranges(ranges) => {
            let mut list = String::from_str("[");
            let mut rows: usize = 0;
            let mut i: usize = 0;
            assert(list@ =~= "["@ + spans_text(ranges@, 0));
            while i < ranges.len()
                invariant
                    i <= ranges@.len(),
                    countable_ranges(*answer),
                    *answer == Answer::Ranges(*ranges),
                    rows == rows_in(ranges@, i as int),
                    list@ == "["@ + spans_text(ranges@, i as int),
                decreases ranges@.len() - i,
            {
                proof {
                    assert(ranges@[i as int].start <= ranges@[i as int].end);
                    lemma_rows_in(ranges@, i + 1, ranges@.len() as int);
                }
                if i > 0 {
                    list.append(",");
                }
                list.append("[");
                push_decimal(&mut list, ranges[i].start as u128);
                list.append(",");
                push_decimal(&mut list, ranges[i].end as u128);
                list.append("]");
                assert(list@ =~= "["@ + spans_text(ranges@, i + 1));
                rows = rows + (ranges[i].end - ranges[i].start);
                i = i + 1;
            }
            list.append("]");
            let mut out = open_object("kind", quote("ranges").as_str());
            push_member(&mut out, "ranges", list.as_str());
            push_member(&mut out, "rows", decimal_text(rows).as_str());
            out.append("}");
            out
        },
    }
}

/// What a run of a query came to.
pub open spec fn run_text(execution: Execution, page_bytes: nat) -> Seq<char> {
    let metrics = execution.metrics;
    let a = opened("answer"@, answer_text(execution.answer@));
    let b = with(a, "logical_bytes"@, decimal(metrics.logical_bytes as nat));
    let c = with(b, "delivered_bytes"@, decimal(metrics.delivered_bytes as nat));
    let d = with(c, "transferred_bytes"@, decimal(metrics.transferred_bytes as nat));
    let e = with(d, "transfer_operations"@, decimal(metrics.transfer_operations as nat));
    let f = with(e, "frames_decoded"@, decimal(metrics.frames_decoded as nat));
    with(f, "page_bytes"@, decimal(page_bytes)) + "}"@
}

/// Describes what a run of a query came to.
pub fn run_json(execution: &Execution, page_bytes: usize) -> (r: String)
    requires
        countable_ranges(execution.answer),
    ensures
        r@ == run_text(*execution, page_bytes as nat),
{
    let metrics = execution.metrics;
    let mut out = open_object("answer", answer_json(&execution.answer).as_str());
    push_member(&mut out, "logical_bytes", decimal_text(metrics.logical_bytes).as_str());
    push_member(&mut out, "delivered_bytes", decimal_text(metrics.delivered_bytes).as_str());
    push_member(
        &mut out,
        "transferred_bytes",
        decimal_text(metrics.transferred_bytes).as_str(),
    );
    push_member(
        &mut out,
        "transfer_operations",
        decimal_text(metrics.transfer_operations).as_str(),
    );
    push_member(&mut out, "frames_decoded", decimal_text(metrics.frames_decoded).as_str());
    push_member(&mut out, "page_bytes", decimal_text(page_bytes).as_str());
    out.append("}");
    out
}

} // verus!
