//! Text that describes answers, pages and plans.
use super::error::StudyError;
#[allow(unused_imports)]
use super::wording::{hexed, joined, signed_decimal};
use super::wording::{hex_text, join_usize, push_signed};
#[allow(unused_imports)]
use crate::access_compiler::bytes::{i64_at, u32_at, u64_at};
use crate::access_compiler::bytes::{get_u32, get_u64, to_signed};
use crate::access_compiler::decoder::DecoderNode;
use crate::access_compiler::execute::Answer;
#[allow(unused_imports)]
use crate::access_compiler::execute::Reply;
use crate::access_compiler::ids::FieldId;
use crate::access_compiler::layout::{FieldLocation, FrameLayout};
use crate::access_compiler::plan::{Predicate, Query};
use crate::access_compiler::span::Span;
#[allow(unused_imports)]
use crate::access_compiler::text::decimal;
use crate::access_compiler::text::push_decimal;
#[allow(unused_imports)]
use vstd::string::*;
use vstd::prelude::*;

verus! {

// ----- answers -----

/// The first `n` ranges, with bars between them.
pub open spec fn ranges_text(ranges: Seq<Span>, n: int) -> Seq<char>
    decreases n,
{
    if n <= 0 {
        Seq::empty()
    } else {
        let before = if n == 1 {
            Seq::empty()
        } else {
            ranges_text(ranges, n - 1) + "|"@
        };
        before + "["@ + decimal(ranges[n - 1].start as nat) + ","@ + decimal(
            ranges[n - 1].end as nat,
        ) + ")"@
    }
}

/// The text of some ranges.
pub open spec fn spans_text(ranges: Seq<Span>) -> Seq<char> {
    if ranges.len() == 0 {
        "empty"@
    } else {
        ranges_text(ranges, ranges.len() as int)
    }
}

pub fn spans_string(ranges: &[Span]) -> (r: String)
    ensures
        r@ == spans_text(ranges@),
{
    if ranges.len() == 0 {
        return String::from_str("empty");
    }
    let mut text = String::new();
    let mut i: usize = 0;
    while i < ranges.len()
        invariant
            i <= ranges@.len(),
            text@ == ranges_text(ranges@, i as int),
        decreases ranges@.len() - i,
    {
        if i > 0 {
            text.append("|");
        }
        text.append("[");
        push_decimal(&mut text, ranges[i].start as u128);
        text.append(",");
        push_decimal(&mut text, ranges[i].end as u128);
        text.append(")");
        i = i + 1;
    }
    text
}

/// The text of some blocks.
pub open spec fn blocks_text(blocks: Seq<usize>) -> Seq<char> {
    if blocks.len() == 0 {
        "empty"@
    } else {
        joined(blocks, "|"@, blocks.len() as int)
    }
}

pub fn blocks_string(blocks: &[usize]) -> (r: String)
    ensures
        r@ == blocks_text(blocks@),
{
    if blocks.len() == 0 {
        String::from_str("empty")
    } else {
        join_usize(blocks, "|")
    }
}

/// The text of an answer.
pub open spec fn answer_text(reply: Reply) -> Seq<char> {
    match reply {
        Reply::Value(Some(value)) => signed_decimal(value as int),
        Reply::Value(None) => "NULL"@,
        Reply::Sum(sum) => signed_decimal(sum),
        Reply::Ranges(ranges) => spans_text(ranges),
        Reply::Count(count) => decimal(count as nat),
    }
}

pub fn answer_string(answer: &Answer) -> (r: String)
    ensures
        r@ == answer_text(answer@),
{
    match answer {
        Answer::Value(Some(value)) => super::wording::signed_text(*value as i128),
        Answer::Value(None) => String::from_str("NULL"),
        Answer::Sum(sum) => super::wording::signed_text(*sum),
        Answer::Ranges(ranges) => spans_string(ranges.as_slice()),
        Answer::Count(count) => super::wording::decimal_text(*count),
    }
}

// ----- pages -----

/// Where a field lies.
pub open spec fn location_text(
    location: FieldLocation,
    length: int,
    frames: Seq<FrameLayout>,
) -> Seq<char> {
    match location {
        FieldLocation::Direct { offset } => "["@ + decimal(offset as nat) + ","@ + decimal(
            (offset + length) as nat,
        ) + ") direct"@,
        FieldLocation::Framed { frame, decoded_offset } => {
            let held = frames[frame.0 as int];
            "frame "@ + decimal(held.id.0 as nat) + " physical ["@ + decimal(held.offset as nat)
                + ","@ + decimal((held.offset + held.compressed_length) as nat) + "), decoded ["@
                + decimal(decoded_offset as nat) + ","@ + decimal((decoded_offset + length) as nat)
                + ")"@
        },
    }
}

/// The ends of a field and of its frame are numbers.
pub open spec fn locatable(location: FieldLocation, length: int, frames: Seq<FrameLayout>) -> bool {
    match location {
        FieldLocation::Direct { offset } => offset + length <= usize::MAX,
        FieldLocation::Framed { frame, decoded_offset } => {
            &&& frame.0 < frames.len()
            &&& frames[frame.0 as int].offset + frames[frame.0 as int].compressed_length
                <= usize::MAX
            &&& decoded_offset + length <= usize::MAX
        },
    }
}

pub fn location_string(location: FieldLocation, length: usize, frames: &[FrameLayout]) -> (r:
    String)
    requires
        locatable(location, length as int, frames@),
    ensures
        r@ == location_text(location, length as int, frames@),
{
    match location {
        FieldLocation::Direct { offset } => {
            let mut text = String::from_str("[");
            push_decimal(&mut text, offset as u128);
            text.append(",");
            push_decimal(&mut text, (offset + length) as u128);
            text.append(") direct");
            text
        },
        FieldLocation::Framed { frame, decoded_offset } => {
            let held = frames[frame.0];
            let mut text = String::from_str("frame ");
            push_decimal(&mut text, held.id.0 as u128);
            text.append(" physical [");
            push_decimal(&mut text, held.offset as u128);
            text.append(",");
            push_decimal(&mut text, (held.offset + held.compressed_length) as u128);
            text.append("), decoded [");
            push_decimal(&mut text, decoded_offset as u128);
            text.append(",");
            push_decimal(&mut text, (decoded_offset + length) as u128);
            text.append(")");
            text
        },
    }
}

/// The first `n` signed numbers of eight bytes each.
pub open spec fn i64s_text(bytes: Seq<u8>, n: int) -> Seq<char>
    decreases n,
{
    if n <= 0 {
        Seq::empty()
    } else {
        let before = if n == 1 {
            Seq::empty()
        } else {
            i64s_text(bytes, n - 1) + ","@
        };
        before + signed_decimal(i64_at(bytes, 8 * (n - 1)) as int)
    }
}

pub fn i64_values(bytes: &[u8]) -> (r: String)
    ensures
        r@ == i64s_text(bytes@, bytes@.len() as int / 8),
{
    let len: usize = bytes.len();
    let count: usize = len / 8;
    let mut text = String::new();
    let mut i: usize = 0;
    while i < count
        invariant
            len == bytes@.len(),
            count == len / 8,
            i <= count,
            text@ == i64s_text(bytes@, i as int),
        decreases count - i,
    {
        if i > 0 {
            text.append(",");
        }
        push_signed(&mut text, to_signed(get_u64(bytes, 8 * i)) as i128);
        assert(text@ =~= i64s_text(bytes@, i + 1));
        i = i + 1;
    }
    text
}

/// The first `n` numbers of four bytes each.
pub open spec fn u32s_text(bytes: Seq<u8>, n: int) -> Seq<char>
    decreases n,
{
    if n <= 0 {
        Seq::empty()
    } else {
        let before = if n == 1 {
            Seq::empty()
        } else {
            u32s_text(bytes, n - 1) + ","@
        };
        before + decimal(u32_at(bytes, 4 * (n - 1)) as nat)
    }
}

pub fn u32_values(bytes: &[u8]) -> (r: String)
    ensures
        r@ == u32s_text(bytes@, bytes@.len() as int / 4),
{
    let len: usize = bytes.len();
    let count: usize = len / 4;
    let mut text = String::new();
    let mut i: usize = 0;
    while i < count
        invariant
            len == bytes@.len(),
            count == len / 4,
            i <= count,
            text@ == u32s_text(bytes@, i as int),
        decreases count - i,
    {
        if i > 0 {
            text.append(",");
        }
        push_decimal(&mut text, get_u32(bytes, 4 * i) as u128);
        assert(text@ =~= u32s_text(bytes@, i + 1));
        i = i + 1;
    }
    text
}

/// The first `n` pairs of numbers of four bytes each.
pub open spec fn pairs_text(bytes: Seq<u8>, n: int) -> Seq<char>
    decreases n,
{
    if n <= 0 {
        Seq::empty()
    } else {
        let before = if n == 1 {
            Seq::empty()
        } else {
            pairs_text(bytes, n - 1) + ","@
        };
        before + "("@ + decimal(u32_at(bytes, 8 * (n - 1)) as nat) + ", "@ + decimal(
            u32_at(bytes, 8 * (n - 1) + 4) as nat,
        ) + ")"@
    }
}

pub fn u32_pairs(bytes: &[u8]) -> (r: String)
    ensures
        r@ == pairs_text(bytes@, bytes@.len() as int / 8),
{
    let len: usize = bytes.len();
    let count: usize = len / 8;
    let mut text = String::new();
    let mut i: usize = 0;
    while i < count
        invariant
            len == bytes@.len(),
            count == len / 8,
            i <= count,
            text@ == pairs_text(bytes@, i as int),
        decreases count - i,
    {
        if i > 0 {
            text.append(",");
        }
        text.append("(");
        push_decimal(&mut text, get_u32(bytes, 8 * i) as u128);
        text.append(", ");
        push_decimal(&mut text, get_u32(bytes, 8 * i + 4) as u128);
        text.append(")");
        assert(text@ =~= pairs_text(bytes@, i + 1));
        i = i + 1;
    }
    text
}

/// As many bytes as there is room for, and a sign that there are more.
pub open spec fn preview_text(bytes: Seq<u8>, limit: int) -> Seq<char> {
    if bytes.len() > limit {
        hexed(bytes.take(limit), " "@, limit) + " ..."@
    } else {
        hexed(bytes, " "@, bytes.len() as int)
    }
}

pub fn hex_preview(bytes: &[u8], limit: usize) -> (r: String)
    ensures
        r@ == preview_text(bytes@, limit as int),
{
    if bytes.len() > limit {
        let first = vstd::slice::slice_subrange(bytes, 0, limit);
        assert(first@ =~= bytes@.take(limit as int));
        let mut text = hex_text(first, " ");
        text.append(" ...");
        text
    } else {
        hex_text(bytes, " ")
    }
}

/// How a stream of bits is packed.
pub struct Packing {
    pub width: int,
    pub len: int,
    pub miniblock_rows: int,
    pub miniblock_bytes: int,
}

/// How the first of the first `n` nodes that read a stream has it packed.
pub open spec fn packing_of(nodes: Seq<DecoderNode>, field: FieldId, n: int) -> Option<Packing>
    decreases n,
{
    if n <= 0 {
        None
    } else {
        match packing_of(nodes, field, n - 1) {
            Some(packing) => Some(packing),
            None => match nodes[n - 1] {
                DecoderNode::BitUnpack { stream, width, len, miniblock_rows, miniblock_bytes } =>
                    if stream == field {
                    Some(
                        Packing {
                            width: width as int,
                            len: len as int,
                            miniblock_rows: miniblock_rows as int,
                            miniblock_bytes: miniblock_bytes as int,
                        },
                    )
                } else {
                    None
                },
                _ => None,
            },
        }
    }
}

proof fn lemma_packing(nodes: Seq<DecoderNode>, field: FieldId, i: int, n: int)
    requires
        0 < i <= n,
        packing_of(nodes, field, i) is Some,
    ensures
        packing_of(nodes, field, n) == packing_of(nodes, field, i),
    decreases n,
{
    if i < n {
        lemma_packing(nodes, field, i, n - 1);
    }
}

pub open spec fn packing_text(packing: Option<Packing>) -> Seq<char> {
    match packing {
        None => "packed stream"@,
        Some(packing) => "width="@ + decimal(packing.width as nat) + ", values="@ + decimal(
            packing.len as nat,
        ) + ", block_rows="@ + decimal(packing.miniblock_rows as nat) + ", block_bytes="@ + decimal(
            packing.miniblock_bytes as nat,
        ),
    }
}

fn packing_string(nodes: &[DecoderNode], field: FieldId) -> (r: String)
    ensures
        r@ == packing_text(packing_of(nodes@, field, nodes@.len() as int)),
{
    let mut i: usize = 0;
    while i < nodes.len()
        invariant
            i <= nodes@.len(),
            packing_of(nodes@, field, i as int) is None,
        decreases nodes@.len() - i,
    {
        match nodes[i] {
            DecoderNode::BitUnpack { stream, width, len, miniblock_rows, miniblock_bytes } => {
                if stream.0 == field.0 {
                    proof {
                        assert(packing_of(nodes@, field, i + 1) is Some);
                        lemma_packing(nodes@, field, i + 1, nodes@.len() as int);
                    }
                    let mut text = String::from_str("width=");
                    push_decimal(&mut text, width as u128);
                    text.append(", values=");
                    push_decimal(&mut text, len as u128);
                    text.append(", block_rows=");
                    push_decimal(&mut text, miniblock_rows as u128);
                    text.append(", block_bytes=");
                    push_decimal(&mut text, miniblock_bytes as u128);
                    return text;
                }
            },
            _ => {},
        }
        i = i + 1;
    }
    String::from_str("packed stream")
}

/// What the header of a page says of the rest.
pub open spec fn header_text(page: Seq<u8>) -> Seq<char> {
    "magic=ACPAGE01, version="@ + decimal(u32_at(page, 8) as nat) + ", fields="@ + decimal(
        u32_at(page, 12) as nat,
    ) + ", frames="@ + decimal(u32_at(page, 16) as nat) + ", dependencies="@ + decimal(
        u32_at(page, 20) as nat,
    ) + ", file_length="@ + decimal(u64_at(page, 24) as nat)
}

pub fn describe_header(page: &[u8]) -> (r: String)
    requires
        page@.len() >= 32,
    ensures
        r@ == header_text(page@),
{
    let mut text = String::from_str("magic=ACPAGE01, version=");
    push_decimal(&mut text, get_u32(page, 8) as u128);
    text.append(", fields=");
    push_decimal(&mut text, get_u32(page, 12) as u128);
    text.append(", frames=");
    push_decimal(&mut text, get_u32(page, 16) as u128);
    text.append(", dependencies=");
    push_decimal(&mut text, get_u32(page, 20) as u128);
    text.append(", file_length=");
    push_decimal(&mut text, get_u64(page, 24) as u128);
    text
}

/// What a field holds, by its name.
pub open spec fn content_text(
    name: Seq<char>,
    id: FieldId,
    bytes: Seq<u8>,
    nodes: Seq<DecoderNode>,
) -> Seq<char> {
    if name == "for.base"@ {
        "base="@ + signed_decimal(i64_at(bytes, 0) as int)
    } else if name == "delta.restarts"@ || name == "dictionary.values"@ || name
        == "patch.exceptions"@ {
        "i64=["@ + i64s_text(bytes, bytes.len() as int / 8) + "]"@
    } else if name == "rle.lengths"@ || name == "patch.positions"@ || name == "nullable.rank"@ {
        "u32=["@ + u32s_text(bytes, bytes.len() as int / 4) + "]"@
    } else if name == "rle.index"@ || name == "patch.index"@ {
        "u32 pairs=["@ + pairs_text(bytes, bytes.len() as int / 8) + "]"@
    } else if name == "nullable.validity"@ {
        "bitmap=0x"@ + preview_text(bytes, bytes.len() as int)
    } else if name == "bitpack.miniblocks"@ {
        packing_text(packing_of(nodes, id, nodes.len() as int)) + ", hex="@ + preview_text(bytes, 24)
    } else {
        "hex="@ + preview_text(bytes, 24)
    }
}

pub fn is_text(text: &String, other: &str) -> (r: bool)
    ensures
        r == (text@ == other@),
{
    let wanted = String::from_str(other);
    *text == wanted
}

/// Describes what a field holds. A field in a frame has no bytes of its own to
/// show.
pub fn describe_field(
    name: &String,
    id: FieldId,
    bytes: Option<&[u8]>,
    nodes: &[DecoderNode],
) -> (r: String)
    requires
        name@ == "for.base"@ ==> (bytes matches Some(found) ==> found@.len() >= 8),
    ensures
        r@ == match bytes {
            None => "inside compressed frame; see decoded offset"@,
            Some(found) => content_text(name@, id, found@, nodes@),
        },
{
    let found = match bytes {
        None => {
            return String::from_str("inside compressed frame; see decoded offset");
        },
        Some(found) => found,
    };
    if is_text(name, "for.base") {
        let mut text = String::from_str("base=");
        push_signed(&mut text, to_signed(get_u64(found, 0)) as i128);
        return text;
    }
    if is_text(name, "delta.restarts") || is_text(name, "dictionary.values") || is_text(
        name,
        "patch.exceptions",
    ) {
        let mut text = String::from_str("i64=[");
        text.append(i64_values(found).as_str());
        text.append("]");
        return text;
    }
    if is_text(name, "rle.lengths") || is_text(name, "patch.positions") || is_text(
        name,
        "nullable.rank",
    ) {
        let mut text = String::from_str("u32=[");
        text.append(u32_values(found).as_str());
        text.append("]");
        return text;
    }
    if is_text(name, "rle.index") || is_text(name, "patch.index") {
        let mut text = String::from_str("u32 pairs=[");
        text.append(u32_pairs(found).as_str());
        text.append("]");
        return text;
    }
    if is_text(name, "nullable.validity") {
        let mut text = String::from_str("bitmap=0x");
        text.append(hex_preview(found, found.len()).as_str());
        return text;
    }
    if is_text(name, "bitpack.miniblocks") {
        let mut text = packing_string(nodes, id);
        text.append(", hex=");
        text.append(hex_preview(found, 24).as_str());
        return text;
    }
    let mut text = String::from_str("hex=");
    text.append(hex_preview(found, 24).as_str());
    text
}

/// The bytes of a field that lies in the page itself.
pub fn direct_field_bytes<'a>(location: FieldLocation, length: usize, page: &'a [u8]) -> (r: Option<
    &'a [u8],
>)
    ensures
        match location {
            FieldLocation::Direct { offset } => if offset + length <= page@.len() {
                r matches Some(found) && found@ == page@.subrange(
                    offset as int,
                    offset + length,
                )
            } else {
                r is None
            },
            FieldLocation::Framed { .. } => r is None,
        },
{
    match location {
        FieldLocation::Direct { offset } => {
            if offset <= page.len() && length <= page.len() - offset {
                Some(vstd::slice::slice_subrange(page, offset, offset + length))
            } else {
                None
            }
        },
        FieldLocation::Framed { .. } => None,
    }
}

// ----- manifests and tables -----

/// The numbers of the first `n` fields, with a text between them.
pub open spec fn field_ids(fields: Seq<FieldId>) -> Seq<usize> {
    fields.map_values(|field: FieldId| field.0)
}

/// Field numbers, with a text between them.
pub fn join_fields(fields: &[FieldId], separator: &str) -> (r: String)
    ensures
        r@ == joined(field_ids(fields@), separator@, fields@.len() as int),
{
    let mut ids: Vec<usize> = Vec::new();
    let mut i: usize = 0;
    while i < fields.len()
        invariant
            i <= fields@.len(),
            ids@ == field_ids(fields@).take(i as int),
        decreases fields@.len() - i,
    {
        ids.push(fields[i].0);
        assert(ids@ =~= field_ids(fields@).take(i + 1));
        i = i + 1;
    }
    assert(ids@ =~= field_ids(fields@));
    join_usize(ids.as_slice(), separator)
}

/// One artifact of a manifest.
#[derive(Clone, Debug)]
pub struct Artifact {
    pub column: String,
    pub bytes: usize,
    pub name: String,
}

/// The bytes of the first `n` artifacts.
pub open spec fn artifact_bytes(artifacts: Seq<Artifact>, n: int) -> int
    decreases n,
{
    if n <= 0 {
        0
    } else {
        artifact_bytes(artifacts, n - 1) + artifacts[n - 1].bytes
    }
}

proof fn lemma_artifact_bytes(artifacts: Seq<Artifact>, i: int, n: int)
    requires
        0 <= i <= n,
    ensures
        artifact_bytes(artifacts, i) <= artifact_bytes(artifacts, n),
    decreases n - i,
{
    if i < n {
        lemma_artifact_bytes(artifacts, i, n - 1);
    }
}

/// The lines of the first `n` artifacts, under the line that names the fields.
pub open spec fn manifest_lines(artifacts: Seq<Artifact>, n: int) -> Seq<char>
    decreases n,
{
    if n <= 0 {
        "column\tbytes\tartifact\n"@
    } else {
        manifest_lines(artifacts, n - 1) + artifacts[n - 1].column@ + "\t"@ + decimal(
            artifacts[n - 1].bytes as nat,
        ) + "\t"@ + artifacts[n - 1].name@ + "\n"@
    }
}

/// A manifest: a line for each artifact, and one for all of them.
pub open spec fn manifest_text(artifacts: Seq<Artifact>) -> Seq<char> {
    manifest_lines(artifacts, artifacts.len() as int) + "TOTAL\t"@ + decimal(
        artifact_bytes(artifacts, artifacts.len() as int) as nat,
    ) + "\t-\n"@
}

/// Writes a manifest, and gives the bytes of all artifacts.
pub fn manifest(artifacts: &[Artifact]) -> (r: (String, usize))
    requires
        artifact_bytes(artifacts@, artifacts@.len() as int) <= usize::MAX,
    ensures
        r.0@ == manifest_text(artifacts@),
        r.1 == artifact_bytes(artifacts@, artifacts@.len() as int),
{
    let mut text = String::from_str("column\tbytes\tartifact\n");
    let mut total: usize = 0;
    let mut i: usize = 0;
    while i < artifacts.len()
        invariant
            i <= artifacts@.len(),
            artifact_bytes(artifacts@, artifacts@.len() as int) <= usize::MAX,
            total == artifact_bytes(artifacts@, i as int),
            text@ == manifest_lines(artifacts@, i as int),
        decreases artifacts@.len() - i,
    {
        proof {
            lemma_artifact_bytes(artifacts@, i + 1, artifacts@.len() as int);
        }
        text.append(artifacts[i].column.as_str());
        text.append("\t");
        push_decimal(&mut text, artifacts[i].bytes as u128);
        text.append("\t");
        text.append(artifacts[i].name.as_str());
        text.append("\n");
        total = total + artifacts[i].bytes;
        i = i + 1;
    }
    text.append("TOTAL\t");
    push_decimal(&mut text, total as u128);
    text.append("\t-\n");
    (text, total)
}

/// The first `n` cells of a row, each behind a bar.
pub open spec fn cells_text(cells: Seq<String>, n: int) -> Seq<char>
    decreases n,
{
    if n <= 0 {
        Seq::empty()
    } else {
        cells_text(cells, n - 1) + "| "@ + cells[n - 1]@ + " "@
    }
}

/// A row of a table of text.
pub open spec fn row_text(cells: Seq<String>) -> Seq<char> {
    cells_text(cells, cells.len() as int) + "|"@
}

pub fn table_row(cells: &[String]) -> (r: String)
    ensures
        r@ == row_text(cells@),
{
    let mut text = String::new();
    let mut i: usize = 0;
    while i < cells.len()
        invariant
            i <= cells@.len(),
            text@ == cells_text(cells@, i as int),
        decreases cells@.len() - i,
    {
        text.append("| ");
        text.append(cells[i].as_str());
        text.append(" ");
        i = i + 1;
    }
    text.append("|");
    text
}

/// The text of a value, or of none.
pub open spec fn value_text(value: Option<i64>) -> Seq<char> {
    match value {
        Some(value) => signed_decimal(value as int),
        None => "NULL"@,
    }
}

pub fn value_string(value: Option<i64>) -> (r: String)
    ensures
        r@ == value_text(value),
{
    match value {
        Some(value) => super::wording::signed_text(value as i128),
        None => String::from_str("NULL"),
    }
}

// ----- documented queries -----

/// The column and the query that a documented text stands for.
pub open spec fn documented(text: Seq<char>) -> Option<(usize, Query)> {
    if text == "FILTER BETWEEN 1700000180 AND 1700000360"@ {
        Some(
            (
                0,
                Query::Filter {
                    predicate: Predicate::Between { low: 1_700_000_180, high: 1_700_000_360 },
                },
            ),
        )
    } else if text == "SUM rows [4,12)"@ {
        Some((1, Query::Sum { rows: Span { start: 4, end: 12 } }))
    } else if text == "FILTER status = 2"@ {
        Some((2, Query::Filter { predicate: Predicate::Between { low: 2, high: 2 } }))
    } else if text == "GET row 7"@ {
        Some((3, Query::Get { row: 7 }))
    } else if text == "GET row 8 (null)"@ {
        Some((3, Query::Get { row: 8 }))
    } else if text == "GET patched row 9"@ {
        Some((4, Query::Get { row: 9 }))
    } else {
        None
    }
}

/// The column and the query that a documented text stands for.
pub fn query_for_row(text: &String) -> (r: Result<(usize, Query), StudyError>)
    ensures
        match documented(text@) {
            Some(found) => r matches Ok(given) && given == found,
            None => r matches Err(StudyError::UnknownDocumentedQuery),
        },
{
    if is_text(text, "FILTER BETWEEN 1700000180 AND 1700000360") {
        return Ok(
            (
                0,
                Query::Filter {
                    predicate: Predicate::Between { low: 1_700_000_180, high: 1_700_000_360 },
                },
            ),
        );
    }
    if is_text(text, "SUM rows [4,12)") {
        return Ok((1, Query::Sum { rows: Span { start: 4, end: 12 } }));
    }
    if is_text(text, "FILTER status = 2") {
        return Ok((2, Query::Filter { predicate: Predicate::Between { low: 2, high: 2 } }));
    }
    if is_text(text, "GET row 7") {
        return Ok((3, Query::Get { row: 7 }));
    }
    if is_text(text, "GET row 8 (null)") {
        return Ok((3, Query::Get { row: 8 }));
    }
    if is_text(text, "GET patched row 9") {
        return Ok((4, Query::Get { row: 9 }));
    }
    Err(StudyError::UnknownDocumentedQuery)
}

} // verus!
