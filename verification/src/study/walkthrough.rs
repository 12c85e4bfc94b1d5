//! The walkthrough of a documented example: its values, the files they are stored
//! in, and how the documented queries read those.
use super::error::StudyError;
use super::formats::{claim_value, Claims, TableError};
#[allow(unused_imports)]
use super::formats::claim_in;
use super::json::{placement_string, truth_string};
#[allow(unused_imports)]
use super::json::{placement_text, truth_text};
use super::report::{
    answer_string, blocks_string, describe_field, describe_header, direct_field_bytes, hex_preview,
    is_text, join_fields, location_string, query_for_row, spans_string, value_string,
};
#[allow(unused_imports)]
use super::report::{
    answer_text, blocks_text, content_text, documented, field_ids, header_text, locatable,
    location_text, preview_text, spans_text, value_text,
};
use super::shown::{guarantee_string, node_string, op_string};
#[allow(unused_imports)]
use super::shown::{guarantee_text, node_text, op_text, plans};
#[allow(unused_imports)]
use super::table::fields_of;
use super::wording::{decimal_text, hex_char, signed_text};
#[allow(unused_imports)]
use super::wording::{hex_digit, joined, signed_decimal};
use crate::access_compiler::certificates::{
    refine_eq, BlockBloom, BlockMinMax, CandidatePlan, SparseFence,
};
#[allow(unused_imports)]
use crate::access_compiler::certificates::{
    all_bounds, block_range, bloom_block_bytes, bloom_error, bloom_pick, chosen, eq_hit, fence_error,
    fence_first, fence_keys, fence_last, fence_stride, increasing, is_bloom, law_bloom_search_is_exact,
    law_candidate_rows, law_fence_search_is_exact, law_min_max_search_is_exact, min_max_error,
    min_max_pick, refine_result, rows_in_all, Bloom,
};
#[allow(unused_imports)]
use crate::access_compiler::coding::recipe_name;
use crate::access_compiler::compiler::compile;
#[allow(unused_imports)]
use crate::access_compiler::compiler::{draft_fails, plan_draft};
use crate::access_compiler::decoder::DecoderNode;
use crate::access_compiler::encode::EncodedColumn;
use crate::access_compiler::error::Error;
use crate::access_compiler::execute::{Answer, Execution};
use crate::access_compiler::ids::FieldId;
#[allow(unused_imports)]
use crate::access_compiler::layout::Field;
use crate::access_compiler::layout::{FieldLayout, FieldLocation, FrameLayout};
#[allow(unused_imports)]
use crate::access_compiler::layout::lemma_scale;
use crate::access_compiler::plan::{ClosureSpec, OutputGuarantee, PlanIr, PlanNode, PlanOp, Query};
#[allow(unused_imports)]
use crate::access_compiler::runtime::{ceil_div, lemma_ceil};
use crate::access_compiler::span::Span;
#[allow(unused_imports)]
use crate::access_compiler::support::ranges_where;
#[allow(unused_imports)]
use crate::access_compiler::text::decimal;
#[allow(unused_imports)]
use vstd::string::*;
use vstd::prelude::*;

verus! {

/// What comes before the fingerprint.
pub const OPENING: &'static str = "# Witness: one numerical example from values to storage to query\n\
\n\
> Generated by Rust from the current encoder, serializer, invariant calculus, compiler, and generated kernels. Do not hand-edit this file.\n\
\n\
Regenerate with `cargo run --release --features experiment --bin generate_documentation_example` followed by `cargo run --release --features experiment --bin documentation_example`. Rule fingerprint: `";

/// What comes between the fingerprint and the values.
pub const SCOPE: &'static str = "`.\n\
\n\
## What this example does and does not prove\n\
\n\
The 16-row table below is a mechanics example. Every byte count, field offset, answer, and access counter comes from an actual artifact. It is deliberately too small for compression-ratio or latency claims because fixed headers dominate. The empirical claims come later from the canonical 109-column census and 40-pair query study.\n\
\n\
The comparison has two tiers. CSV, raw i64, Zstd, PCodec, Parquet, ORC, and Witness are executable artifacts generated here. FastLanes, BtrBlocks, LeCo, White-box Compression, and Vortex are literature comparators only; this repository does not serialize their formats, so it does not invent byte layouts or timings for them.\n\
\n\
## 1. The logical table\n\
\n\
| row | event_time | meter | status | sparse_event | reading |\n\
|---:|---:|---:|---:|---:|---:|\n";

/// What comes before the formats.
pub const ARTIFACTS: &'static str = "\n\
`event_time` is globally non-decreasing. `meter` falls at rows 8 and 14. `status` has a small sorted dictionary and runs. `sparse_event` needs validity and rank data. `reading[9]=10000` is stored as a checked patch over a regular FOR body.\n\
\n\
## 2. Actual physical artifacts\n\
\n\
| format | configuration | physical unit | bytes | verified artifact or manifest |\n\
|---|---|---|---:|---|\n";

/// What comes before the first bytes of the artifacts.
pub const ARTIFACT_NOTE: &'static str = "\n\
These rows are not a ratio ranking: the units are printed because a five-column table file and five independently self-contained column files pay different fixed metadata. Aggregate rows link to generated manifests that enumerate all five retained files; manifest bytes are not counted. Every data artifact round-trips to the table above before this document is written.\n\
\n";

/// What comes before the pages.
pub const PAGES: &'static str = "\n\
## 3. Why Witness selected five different pages\n\
\n\
| column | role | selected decoder composition | page bytes | checked facts |\n\
|---|---|---|---:|---|\n";

/// What comes before the fields of the pages.
pub const DIRECTORIES: &'static str = "\n\
Selection here is explicit, so each mechanism is visible. The real study separately compares a size-selected menu with an access-ready menu; this toy table is not evidence that these five recipes are optimal.\n\
\n\
## 4. Exact page directories and stored fields\n\
\n\
Every page begins with `ACPAGE01`, format version 3, an authenticated descriptor, field/frame directories, and dependency rules. Direct fields have physical offsets. A framed field instead names one Zstd frame; touching any byte then delivers the complete compressed frame.\n\
\n";

/// What comes between the recipe of a column and its fields.
pub const FIELD_HEAD: &'static str = "`\n\
\n\
| id | field | logical bytes | physical location | read granularity | exact content/preview |\n\
|---:|---|---:|---|---:|---|\n";

/// What comes between the fields of a column and its nodes.
pub const DECODER_HEAD: &'static str = "\n\
Decoder IR:\n\
\n";

/// What comes before the queries.
pub const ACCESS: &'static str = "## 5. Physical access closure\n\
\n\
A query first asks for logical fields. Layout dependencies add metadata, indexes, restart anchors, and enclosing frames until a fixed point is reached. Three counters remain separate:\n\
\n\
- **logical bytes:** bytes in fields the operator requested;\n\
- **delivered bytes:** bytes forced by field granularity or a compressed frame;\n\
- **transferred bytes:** new bytes moved after overlap and cache reuse.\n\
\n\
For each operation below, the generated result was checked against a fused full-stream decode.\n\
\n\
| column/query | generated answer | authorized strategy | guarantee | logical B | delivered B | transferred B | values decoded | fused full-stream delivered B |\n\
|---|---|---|---|---:|---:|---:|---:|---:|\n";

/// What comes before the plans.
pub const PLANS: &'static str = "\n\
The `meter` SUM is exact but not metadata-only: the kernel visits the selected encoded rows and accumulates without materializing an output array. The monotone timestamp filter is different: it performs exact boundary searches. The dictionary filter translates value bounds to ID bounds, then scans encoded IDs. Patch and nullable GETs first read their position/rank prerequisites. Unsupported structure converges to fused decoding; it is not reported as an encoded-domain win.\n\
\n\
### Compiler plans, including dynamic closures\n\
\n\
Each node closure below is a self-contained dependency closure and may overlap earlier nodes; it is not an additive I/O ledger. The execution table above reports deduplicated totals.\n\
\n";

/// What comes before the certificates.
pub const CERTIFICATES: &'static str = "## 6. Bloom filters, min/max, and sparse fences\n\
\n\
These are control certificates, not decoder-tree facts. They return candidate blocks and require refinement unless the candidate set is empty. The toy controls use four-row blocks so the result is visible.\n\
\n\
| column | certificate | target | metadata B | candidate blocks | candidate rows | exact matches after refinement |\n\
|---|---|---:|---:|---|---:|---|\n";

/// What comes behind the certificates.
pub const COMPARISON: &'static str = "\n\
An absent Bloom result is an exact empty answer. A positive Bloom result is only a candidate bitmap because false positives are possible. Min/max can reject a block whose range excludes the target. A sparse fence applies only to sorted data and narrows the search interval. None of these sidecars is silently credited to the Witness page layout.\n\
\n\
## 7. How the executable formats differ\n\
\n\
| format | encode/store | GET | SUM/range | predicate path | unavoidable boundary |\n\
|---|---|---|---|---|---|\n\
| CSV | decimal text rows | parse preceding text or index externally | parse selected/all text | parse and compare | no intrinsic column/page index |\n\
| Raw i64 | validity + dense LE64 | direct offset after validity rank | read and add values | compare values | no compression; nullable rank still needed |\n\
| Raw + Zstd | raw artifact in entropy frame | decompress frame | decompress then aggregate | decompress then compare | enclosing frame |\n\
| PCodec | validity + PCO compressed payload | chunk decode | chunk decode and aggregate | decode/refine | PCO chunk granularity |\n\
| Parquet | pages, levels, encodings, compression, footer | page-reader path | decode selected pages | statistics/dictionary/page decode as supported | row group/page/compression frame |\n\
| ORC | stripes, streams, RLEv2, indexes | stream/stripe path | decode selected streams | row-index/Bloom support depends on writer and reader | stripe/stream granularity |\n\
| Witness | composed decoder + authenticated layout + checked facts | dependency-closed selective read | fused encoded traversal; no materialization | derived search when proved, otherwise scan | field granularity, restarts, indexes, or frame |\n\
\n";

/// What is said of other systems.
pub const LITERATURE: &'static str = "## 8. Literature-only systems: capability scope\n\
\n\
| system | documented focus | what this repository does not claim |\n\
|---|---|---|\n\
| FastLanes | very fast decoding and a composable file layout | no locally generated FastLanes artifact or timing |\n\
| BtrBlocks | efficient lightweight columnar compression | no locally generated BtrBlocks artifact or timing |\n\
| LeCo | learned serial correlation with random access | no locally generated LeCo artifact or timing |\n\
| White-box Compression | learned table expressions and execution opportunities | no locally generated White-box artifact or timing |\n\
| Vortex | extensible nested encodings and compute | no locally generated Vortex artifact or timing |\n\
\n\
The research distinction under test is not that Witness has uniquely invented compressed execution. It is that checked facts, physical dependencies, and output guarantees are derived compositionally from a decoder/layout description, then used to choose a sound query path. See `docs/ENCODINGS.md` for measured and literature-only comparison scope.\n\
\n";

/// What comes before the claims.
pub const EVIDENCE: &'static str = "## 9. Current measured study, not the toy example\n\
\n\
| evidence | current generated result | interpretation |\n\
|---|---|---|\n";

/// What comes behind the claims.
pub const FALLBACKS: &'static str = "\n\
Canonical evidence lives in `experiments/results/invariant_census/`, `predicate_pipeline/`, `predicate_pipeline_rows16k/`, `additional_plans.csv`, `certificate_study/`, and `real_access/`. `./reproduce.sh` rebuilds those files, the claim manifest, and this walkthrough.\n\
\n\
## 10. Failure and fallback checklist\n\
\n\
- A checksum or descriptor mismatch rejects the page.\n\
- A signed delta stream does not certify monotonicity.\n\
- Arbitrary null placement blocks exact monotone boundary search.\n\
- A dictionary must be sorted and unique before ID order can stand for value order.\n\
- RLE, patch, and nullable reads include run, position, validity, and rank prerequisites.\n\
- Touching a field inside a Zstd frame delivers the whole frame.\n\
- Bloom positives and min/max overlaps are candidates, not answers.\n\
- SUM is metadata-only only when an exact aggregate certificate is present; this prototype otherwise performs fused encoded traversal.\n\
- When no fact authorizes a narrower algorithm, the compiler chooses scan/decode behavior.\n";

/// A column of the example.
#[derive(Clone, Debug)]
pub struct ExampleColumn {
    pub name: String,
    pub role: String,
    pub values: Vec<Option<i64>>,
}

/// What the example takes in a format.
#[derive(Clone, Debug)]
pub struct FormatRow {
    pub format: String,
    pub configuration: String,
    pub physical_unit: String,
    pub bytes: usize,
    pub path: String,
}

/// An artifact and what it holds.
#[derive(Clone, Debug)]
pub struct ArtifactBytes {
    pub label: String,
    pub bytes: Vec<u8>,
}

/// How a documented query was answered.
#[derive(Clone, Debug)]
pub struct QueryRow {
    pub column: String,
    pub query: String,
    pub answer: String,
    pub strategy: String,
    pub guarantee: OutputGuarantee,
    pub logical_bytes: usize,
    pub delivered_bytes: usize,
    pub transferred_bytes: usize,
    pub decoded_rows: usize,
    pub full_decode_bytes: usize,
}

/// How a probe of a certificate went.
#[derive(Clone, Debug)]
pub struct CertificateRow {
    pub column: String,
    pub certificate: String,
    pub target: i64,
    pub metadata_bytes: usize,
    pub candidate_blocks: String,
    pub candidate_rows: usize,
    pub exact_matches: String,
}

/// Why there is no walkthrough.
#[derive(Debug)]
pub enum RenderError {
    /// A field of the column cannot be described.
    Column(usize),
    /// A query is not one of the documented ones.
    Query(StudyError),
    /// A query of the column is answered otherwise than by a full decode.
    Disagreement(String),
    /// A documented query has no plan.
    Plan(Error),
    /// A claim is absent.
    Claim(TableError),
}

// ----- values -----

/// The last `digits` hexadecimal digits of a number.
pub open spec fn hex_of(n: int, digits: nat) -> Seq<char>
    decreases digits,
{
    if digits == 0 {
        Seq::empty()
    } else {
        hex_of(n / 16, (digits - 1) as nat).push(hex_digit(n % 16))
    }
}

fn push_hex(out: &mut String, n: u64, digits: usize)
    ensures
        final(out)@ == old(out)@ + hex_of(n as int, digits as nat),
    decreases digits,
{
    let ghost before = out@;
    if digits > 0 {
        push_hex(out, n / 16, digits - 1);
        out.push(hex_char((n % 16) as u8));
        assert(out@ =~= before + hex_of(n as int, digits as nat));
    } else {
        assert(out@ =~= before + hex_of(n as int, digits as nat));
    }
}

/// A row of the first `n` columns, behind the number of the row.
pub open spec fn value_row(
    text: Seq<char>,
    examples: Seq<ExampleColumn>,
    row: int,
    n: int,
) -> Seq<char>
    decreases n,
{
    if n <= 0 {
        text + "| "@ + decimal(row as nat) + " "@
    } else {
        value_row(text, examples, row, n - 1) + "| "@ + value_text(examples[n - 1].values@[row])
            + " "@
    }
}

/// The first `n` rows of the example.
pub open spec fn value_rows(text: Seq<char>, examples: Seq<ExampleColumn>, n: int) -> Seq<char>
    decreases n,
{
    if n <= 0 {
        text
    } else {
        value_row(
            value_rows(text, examples, n - 1),
            examples,
            n - 1,
            examples.len() as int,
        ) + "|\n"@
    }
}

/// Every column has so many rows.
pub open spec fn reaches(examples: Seq<ExampleColumn>, rows: int) -> bool {
    forall|i: int| 0 <= i < examples.len() ==> rows <= (#[trigger] examples[i]).values@.len()
}

fn say_values(out: &mut String, examples: &[ExampleColumn], rows: usize)
    requires
        reaches(examples@, rows as int),
    ensures
        final(out)@ == value_rows(old(out)@, examples@, rows as int),
{
    let ghost start = out@;
    let mut row: usize = 0;
    while row < rows
        invariant
            row <= rows,
            reaches(examples@, rows as int),
            out@ == value_rows(start, examples@, row as int),
        decreases rows - row,
    {
        let ghost before = out@;
        out.append("| ");
        out.append(decimal_text(row).as_str());
        out.append(" ");
        let mut i: usize = 0;
        while i < examples.len()
            invariant
                i <= examples@.len(),
                row < rows,
                reaches(examples@, rows as int),
                out@ == value_row(before, examples@, row as int, i as int),
            decreases examples@.len() - i,
        {
            assert(rows <= examples@[i as int].values@.len());
            out.append("| ");
            out.append(value_string(examples[i].values[row]).as_str());
            out.append(" ");
            i = i + 1;
        }
        out.append("|\n");
        row = row + 1;
    }
}

// ----- files -----

pub open spec fn format_row(text: Seq<char>, row: FormatRow) -> Seq<char> {
    text + "| "@ + row.format@ + " | "@ + row.configuration@ + " | "@ + row.physical_unit@ + " | "@
        + decimal(row.bytes as nat) + " | ["@ + row.path@ + "]("@ + row.path@ + ") |\n"@
}

/// The first `n` formats.
pub open spec fn format_rows(text: Seq<char>, rows: Seq<FormatRow>, n: int) -> Seq<char>
    decreases n,
{
    if n <= 0 {
        text
    } else {
        format_row(format_rows(text, rows, n - 1), rows[n - 1])
    }
}

fn say_formats(out: &mut String, rows: &[FormatRow])
    ensures
        final(out)@ == format_rows(old(out)@, rows@, rows@.len() as int),
{
    let ghost start = out@;
    let mut i: usize = 0;
    while i < rows.len()
        invariant
            i <= rows@.len(),
            out@ == format_rows(start, rows@, i as int),
        decreases rows@.len() - i,
    {
        let row = &rows[i];
        out.append("| ");
        out.append(row.format.as_str());
        out.append(" | ");
        out.append(row.configuration.as_str());
        out.append(" | ");
        out.append(row.physical_unit.as_str());
        out.append(" | ");
        out.append(decimal_text(row.bytes).as_str());
        out.append(" | [");
        out.append(row.path.as_str());
        out.append("](");
        out.append(row.path.as_str());
        out.append(") |\n");
        i = i + 1;
    }
}

/// The first `n` artifacts, by how they begin.
pub open spec fn artifact_lines(text: Seq<char>, artifacts: Seq<ArtifactBytes>, n: int) -> Seq<char>
    decreases n,
{
    if n <= 0 {
        text
    } else {
        artifact_lines(text, artifacts, n - 1) + "- **"@ + artifacts[n - 1].label@ + ":** `"@
            + decimal(artifacts[n - 1].bytes@.len()) + "` bytes begin `"@ + preview_text(
            artifacts[n - 1].bytes@,
            24,
        ) + "`.\n"@
    }
}

fn say_artifacts(out: &mut String, artifacts: &[ArtifactBytes])
    ensures
        final(out)@ == artifact_lines(old(out)@, artifacts@, artifacts@.len() as int),
{
    let ghost start = out@;
    let mut i: usize = 0;
    while i < artifacts.len()
        invariant
            i <= artifacts@.len(),
            out@ == artifact_lines(start, artifacts@, i as int),
        decreases artifacts@.len() - i,
    {
        let artifact = &artifacts[i];
        out.append("- **");
        out.append(artifact.label.as_str());
        out.append(":** `");
        out.append(decimal_text(artifact.bytes.len()).as_str());
        out.append("` bytes begin `");
        out.append(hex_preview(artifact.bytes.as_slice(), 24).as_str());
        out.append("`.\n");
        i = i + 1;
    }
}

// ----- pages -----

pub open spec fn page_row(text: Seq<char>, example: ExampleColumn, column: EncodedColumn) -> Seq<
    char,
> {
    let checked = column.page.stated();
    text + "| `"@ + example.name@ + "` | "@ + example.role@ + " | `"@ + recipe_name(column.recipe)
        + "` | "@ + decimal(column.page.image().len()) + " | non-decreasing="@ + truth_text(
        checked.non_decreasing,
    ) + ", non-decreasing non-null="@ + truth_text(checked.non_decreasing_non_null)
        + ", null placement="@ + placement_text(checked.null_placement) + " |\n"@
}

/// The first `n` pages.
pub open spec fn page_rows(
    text: Seq<char>,
    examples: Seq<ExampleColumn>,
    columns: Seq<EncodedColumn>,
    n: int,
) -> Seq<char>
    decreases n,
{
    if n <= 0 {
        text
    } else {
        page_row(page_rows(text, examples, columns, n - 1), examples[n - 1], columns[n - 1])
    }
}

/// As many as both lists have.
pub open spec fn paired(examples: Seq<ExampleColumn>, columns: Seq<EncodedColumn>) -> int {
    if examples.len() < columns.len() {
        examples.len() as int
    } else {
        columns.len() as int
    }
}

fn say_pages(out: &mut String, examples: &[ExampleColumn], columns: &[EncodedColumn])
    ensures
        final(out)@ == page_rows(old(out)@, examples@, columns@, paired(examples@, columns@)),
{
    let ghost start = out@;
    let mut i: usize = 0;
    while i < examples.len() && i < columns.len()
        invariant
            i <= examples@.len(),
            i <= columns@.len(),
            out@ == page_rows(start, examples@, columns@, i as int),
        decreases examples@.len() - i,
    {
        let column = &columns[i];
        let checked = column.page.invariants();
        out.append("| `");
        out.append(examples[i].name.as_str());
        out.append("` | ");
        out.append(examples[i].role.as_str());
        out.append(" | `");
        out.append(column.recipe.name().as_str());
        out.append("` | ");
        out.append(decimal_text(column.page.bytes().len()).as_str());
        out.append(" | non-decreasing=");
        out.append(truth_string(checked.non_decreasing));
        out.append(", non-decreasing non-null=");
        out.append(truth_string(checked.non_decreasing_non_null));
        out.append(", null placement=");
        out.append(placement_string(checked.null_placement));
        out.append(" |\n");
        i = i + 1;
    }
}

/// The bytes of a field that lies in the page itself.
pub open spec fn direct_bytes(location: FieldLocation, length: int, page: Seq<u8>) -> Option<
    Seq<u8>,
> {
    match location {
        FieldLocation::Direct { offset } => if offset + length <= page.len() {
            Some(page.subrange(offset as int, offset + length))
        } else {
            None
        },
        FieldLocation::Framed { .. } => None,
    }
}

/// What a field of a page holds.
pub open spec fn held_text(
    field: Field,
    metadata: FieldId,
    page: Seq<u8>,
    nodes: Seq<DecoderNode>,
) -> Seq<char> {
    if field.id == metadata {
        header_text(page)
    } else {
        match direct_bytes(field.location, field.length as int, page) {
            None => "inside compressed frame; see decoded offset"@,
            Some(found) => content_text(field.name, field.id, found, nodes),
        }
    }
}

/// What a field holds and where it lies can be told.
pub open spec fn tellable(
    field: Field,
    metadata: FieldId,
    page: Seq<u8>,
    frames: Seq<FrameLayout>,
) -> bool {
    &&& locatable(field.location, field.length as int, frames)
    &&& if field.id == metadata {
        page.len() >= 32
    } else {
        field.name == "for.base"@ ==> (direct_bytes(
            field.location,
            field.length as int,
            page,
        ) matches Some(found) ==> found.len() >= 8)
    }
}

fn can_tell(field: &FieldLayout, metadata: FieldId, page: &[u8], frames: &[FrameLayout]) -> (r: bool)
    ensures
        r == tellable(field@, metadata, page@, frames@),
{
    let located: bool = match field.location {
        FieldLocation::Direct { offset } => offset <= usize::MAX - field.length,
        FieldLocation::Framed { frame, decoded_offset } => frame.0 < frames.len()
            && frames[frame.0].offset <= usize::MAX - frames[frame.0].compressed_length
            && decoded_offset <= usize::MAX - field.length,
    };
    if !located {
        return false;
    }
    if field.id.0 == metadata.0 {
        return page.len() >= 32;
    }
    if !is_text(&field.name, "for.base") {
        return true;
    }
    match direct_field_bytes(field.location, field.length, page) {
        None => true,
        Some(found) => found.len() >= 8,
    }
}

pub open spec fn field_row(
    text: Seq<char>,
    field: Field,
    metadata: FieldId,
    page: Seq<u8>,
    frames: Seq<FrameLayout>,
    nodes: Seq<DecoderNode>,
) -> Seq<char> {
    text + "| "@ + decimal(field.id.0 as nat) + " | `"@ + field.name + "` | "@ + decimal(
        field.length as nat,
    ) + " | "@ + location_text(field.location, field.length as int, frames) + " | "@ + decimal(
        field.read_granularity as nat,
    ) + " | "@ + held_text(field, metadata, page, nodes) + " |\n"@
}

/// The first `n` fields of a column.
pub open spec fn field_rows(text: Seq<char>, column: EncodedColumn, n: int) -> Seq<char>
    decreases n,
{
    if n <= 0 {
        text
    } else {
        let layout = column.page.plan();
        field_row(
            field_rows(text, column, n - 1),
            layout.fields[n - 1],
            layout.metadata,
            column.page.image(),
            layout.frames,
            column.decoder.arena(),
        )
    }
}

/// The first `n` nodes of a decoder.
pub open spec fn node_lines(text: Seq<char>, nodes: Seq<DecoderNode>, n: int) -> Seq<char>
    decreases n,
{
    if n <= 0 {
        text
    } else {
        node_lines(text, nodes, n - 1) + "- node "@ + decimal((n - 1) as nat) + ": `"@ + node_text(
            nodes[n - 1],
        ) + "`\n"@
    }
}

/// What is said of a column: its fields, and the nodes of its decoder.
pub open spec fn column_part(text: Seq<char>, example: ExampleColumn, column: EncodedColumn) -> Seq<
    char,
> {
    let headed = text + "### `"@ + example.name@ + "`: `"@ + recipe_name(column.recipe)
        + FIELD_HEAD@;
    let fields = field_rows(headed, column, column.page.plan().fields.len() as int);
    let nodes = column.decoder.arena();
    node_lines(fields + DECODER_HEAD@, nodes, nodes.len() as int) + "\n"@
}

/// What is said of the first `n` columns.
pub open spec fn column_parts(
    text: Seq<char>,
    examples: Seq<ExampleColumn>,
    columns: Seq<EncodedColumn>,
    n: int,
) -> Seq<char>
    decreases n,
{
    if n <= 0 {
        text
    } else {
        column_part(column_parts(text, examples, columns, n - 1), examples[n - 1], columns[n - 1])
    }
}

/// Every field of the column can be told.
pub open spec fn column_tellable(column: EncodedColumn) -> bool {
    let layout = column.page.plan();
    forall|i: int|
        0 <= i < layout.fields.len() ==> tellable(
            #[trigger] layout.fields[i],
            layout.metadata,
            column.page.image(),
            layout.frames,
        )
}

fn say_field(
    out: &mut String,
    field: &FieldLayout,
    metadata: FieldId,
    page: &[u8],
    frames: &[FrameLayout],
    nodes: &[DecoderNode],
)
    requires
        tellable(field@, metadata, page@, frames@),
    ensures
        final(out)@ == field_row(old(out)@, field@, metadata, page@, frames@, nodes@),
{
    out.append("| ");
    out.append(decimal_text(field.id.0).as_str());
    out.append(" | `");
    out.append(field.name.as_str());
    out.append("` | ");
    out.append(decimal_text(field.length).as_str());
    out.append(" | ");
    out.append(location_string(field.location, field.length, frames).as_str());
    out.append(" | ");
    out.append(decimal_text(field.read_granularity).as_str());
    out.append(" | ");
    let content = if field.id.0 == metadata.0 {
        describe_header(page)
    } else {
        describe_field(
            &field.name,
            field.id,
            direct_field_bytes(field.location, field.length, page),
            nodes,
        )
    };
    assert(content@ == held_text(field@, metadata, page@, nodes@));
    out.append(content.as_str());
    out.append(" |\n");
}

fn say_column(out: &mut String, example: &ExampleColumn, column: &EncodedColumn) -> (r: bool)
    ensures
        r == column_tellable(*column),
        r ==> final(out)@ == column_part(old(out)@, *example, *column),
{
    let layout = column.page.layout();
    let page = column.page.bytes();
    let nodes = column.decoder.nodes();
    out.append("### `");
    out.append(example.name.as_str());
    out.append("`: `");
    out.append(column.recipe.name().as_str());
    out.append(FIELD_HEAD);
    let ghost headed = out@;
    let mut i: usize = 0;
    while i < layout.fields.len()
        invariant
            i <= layout.fields@.len(),
            layout@ == column.page.plan(),
            page@ == column.page.image(),
            nodes@ == column.decoder.arena(),
            forall|k: int|
                0 <= k < i ==> tellable(
                    #[trigger] layout@.fields[k],
                    layout@.metadata,
                    page@,
                    layout@.frames,
                ),
            out@ == field_rows(headed, *column, i as int),
        decreases layout.fields@.len() - i,
    {
        let field = &layout.fields[i];
        assert(layout@.fields[i as int] == field@);
        if !can_tell(field, layout.metadata, page, layout.frames.as_slice()) {
            assert(!tellable(
                column.page.plan().fields[i as int],
                layout@.metadata,
                page@,
                layout@.frames,
            ));
            return false;
        }
        say_field(out, field, layout.metadata, page, layout.frames.as_slice(), nodes);
        i = i + 1;
    }
    out.append(DECODER_HEAD);
    let ghost listed = out@;
    let mut k: usize = 0;
    while k < nodes.len()
        invariant
            k <= nodes@.len(),
            out@ == node_lines(listed, nodes@, k as int),
        decreases nodes@.len() - k,
    {
        out.append("- node ");
        out.append(decimal_text(k).as_str());
        out.append(": `");
        out.append(node_string(nodes[k]).as_str());
        out.append("`\n");
        k = k + 1;
    }
    out.append("\n");
    true
}

/// Tells of each column, up to the first that cannot be told.
fn say_columns(out: &mut String, examples: &[ExampleColumn], columns: &[EncodedColumn]) -> (r:
    Option<usize>)
    ensures
        match r {
            None => {
                &&& forall|k: int|
                    0 <= k < paired(examples@, columns@) ==> column_tellable(
                        #[trigger] columns@[k],
                    )
                &&& final(out)@ == column_parts(
                    old(out)@,
                    examples@,
                    columns@,
                    paired(examples@, columns@),
                )
            },
            Some(i) => first_untellable(examples@, columns@, i as int),
        },
{
    let ghost start = out@;
    let mut i: usize = 0;
    while i < examples.len() && i < columns.len()
        invariant
            i <= examples@.len(),
            i <= columns@.len(),
            forall|k: int| 0 <= k < i ==> column_tellable(#[trigger] columns@[k]),
            out@ == column_parts(start, examples@, columns@, i as int),
        decreases examples@.len() - i,
    {
        if !say_column(out, &examples[i], &columns[i]) {
            return Some(i);
        }
        i = i + 1;
    }
    None
}

/// The column is the first that cannot be told.
pub open spec fn first_untellable(
    examples: Seq<ExampleColumn>,
    columns: Seq<EncodedColumn>,
    i: int,
) -> bool {
    &&& 0 <= i < paired(examples, columns)
    &&& !column_tellable(columns[i])
    &&& forall|k: int| 0 <= k < i ==> column_tellable(#[trigger] columns[k])
}

// ----- queries -----

pub open spec fn query_row(text: Seq<char>, row: QueryRow) -> Seq<char> {
    text + "| `"@ + row.column@ + "`: "@ + row.query@ + " | `"@ + row.answer@ + "` | "@
        + row.strategy@ + " | `"@ + guarantee_text(row.guarantee) + "` | "@ + decimal(
        row.logical_bytes as nat,
    ) + " | "@ + decimal(row.delivered_bytes as nat) + " | "@ + decimal(
        row.transferred_bytes as nat,
    ) + " | "@ + decimal(row.decoded_rows as nat) + " | "@ + decimal(row.full_decode_bytes as nat)
        + " |\n"@
}

/// The first `n` queries.
pub open spec fn query_rows(text: Seq<char>, rows: Seq<QueryRow>, n: int) -> Seq<char>
    decreases n,
{
    if n <= 0 {
        text
    } else {
        query_row(query_rows(text, rows, n - 1), rows[n - 1])
    }
}

fn say_queries(out: &mut String, rows: &[QueryRow])
    ensures
        final(out)@ == query_rows(old(out)@, rows@, rows@.len() as int),
{
    let ghost start = out@;
    let mut i: usize = 0;
    while i < rows.len()
        invariant
            i <= rows@.len(),
            out@ == query_rows(start, rows@, i as int),
        decreases rows@.len() - i,
    {
        let row = &rows[i];
        out.append("| `");
        out.append(row.column.as_str());
        out.append("`: ");
        out.append(row.query.as_str());
        out.append(" | `");
        out.append(row.answer.as_str());
        out.append("` | ");
        out.append(row.strategy.as_str());
        out.append(" | `");
        out.append(guarantee_string(row.guarantee));
        out.append("` | ");
        out.append(decimal_text(row.logical_bytes).as_str());
        out.append(" | ");
        out.append(decimal_text(row.delivered_bytes).as_str());
        out.append(" | ");
        out.append(decimal_text(row.transferred_bytes).as_str());
        out.append(" | ");
        out.append(decimal_text(row.decoded_rows).as_str());
        out.append(" | ");
        out.append(decimal_text(row.full_decode_bytes).as_str());
        out.append(" |\n");
        i = i + 1;
    }
}

/// How the bytes of a step are known.
pub open spec fn coverage_text(closure: ClosureSpec) -> Seq<char> {
    match closure {
        ClosureSpec::Exact(closure) => "exact: logical="@ + decimal(closure.logical_bytes as nat)
            + " B, delivered="@ + decimal(closure.delivered_bytes as nat) + " B"@,
        ClosureSpec::RuntimeRefined { possible_fields, reason, .. } =>
            "runtime-refined over fields ["@ + joined(
            field_ids(possible_fields@),
            ","@,
            possible_fields@.len() as int,
        ) + "]: "@ + reason@,
    }
}

fn coverage_string(closure: &ClosureSpec) -> (r: String)
    ensures
        r@ == coverage_text(*closure),
{
    match closure {
        ClosureSpec::Exact(closure) => {
            let mut out = String::from_str("exact: logical=");
            out.append(decimal_text(closure.logical_bytes).as_str());
            out.append(" B, delivered=");
            out.append(decimal_text(closure.delivered_bytes).as_str());
            out.append(" B");
            out
        },
        ClosureSpec::RuntimeRefined { possible_fields, reason, .. } => {
            let mut out = String::from_str("runtime-refined over fields [");
            out.append(join_fields(possible_fields.as_slice(), ",").as_str());
            out.append("]: ");
            out.append(reason.as_str());
            out
        },
    }
}

/// The first `n` steps of a plan.
pub open spec fn step_lines(text: Seq<char>, nodes: Seq<PlanNode>, n: int) -> Seq<char>
    decreases n,
{
    if n <= 0 {
        text
    } else {
        let node = nodes[n - 1];
        step_lines(text, nodes, n - 1) + "- `"@ + op_text(node.op) + "` on rows `["@ + decimal(
            node.rows.0.start as nat,
        ) + ", "@ + decimal(node.rows.0.end as nat) + ")`; "@ + coverage_text(node.byte_closure)
            + "; output `"@ + guarantee_text(node.guarantee) + "`.\n"@
    }
}

/// The plans of the first `n` queries.
pub open spec fn plan_parts(
    text: Seq<char>,
    rows: Seq<QueryRow>,
    chosen: Seq<PlanIr>,
    n: int,
) -> Seq<char>
    decreases n,
{
    if n <= 0 {
        text
    } else {
        let headed = plan_parts(text, rows, chosen, n - 1) + "**`"@ + rows[n - 1].column@ + "` / "@
            + rows[n - 1].query@ + "**\n\n"@;
        let nodes = chosen[n - 1].nodes@;
        step_lines(headed, nodes, nodes.len() as int) + "\n"@
    }
}

fn say_plans(out: &mut String, rows: &[QueryRow], chosen: &[PlanIr])
    requires
        rows@.len() == chosen@.len(),
    ensures
        final(out)@ == plan_parts(old(out)@, rows@, chosen@, rows@.len() as int),
{
    let ghost start = out@;
    let mut i: usize = 0;
    while i < rows.len()
        invariant
            i <= rows@.len() == chosen@.len(),
            out@ == plan_parts(start, rows@, chosen@, i as int),
        decreases rows@.len() - i,
    {
        out.append("**`");
        out.append(rows[i].column.as_str());
        out.append("` / ");
        out.append(rows[i].query.as_str());
        out.append("**\n\n");
        let ghost headed = out@;
        let nodes = &chosen[i].nodes;
        let mut k: usize = 0;
        while k < nodes.len()
            invariant
                k <= nodes@.len(),
                out@ == step_lines(headed, nodes@, k as int),
            decreases nodes@.len() - k,
        {
            let node = &nodes[k];
            out.append("- `");
            out.append(op_string(node.op).as_str());
            out.append("` on rows `[");
            out.append(decimal_text(node.rows.0.start).as_str());
            out.append(", ");
            out.append(decimal_text(node.rows.0.end).as_str());
            out.append(")`; ");
            out.append(coverage_string(&node.byte_closure).as_str());
            out.append("; output `");
            out.append(guarantee_string(node.guarantee));
            out.append("`.\n");
            k = k + 1;
        }
        out.append("\n");
        i = i + 1;
    }
}

/// The plan is the one of the query of a row.
pub open spec fn row_plan(row: QueryRow, columns: Seq<EncodedColumn>, plan: PlanIr) -> bool {
    documented(row.query@) matches Some((case, query)) && plans(plan, columns[case as int], query)
}

/// The plans are those of the queries of the first `n` rows.
pub open spec fn row_plans(
    rows: Seq<QueryRow>,
    columns: Seq<EncodedColumn>,
    chosen: Seq<PlanIr>,
    n: int,
) -> bool {
    &&& chosen.len() == n
    &&& forall|i: int| 0 <= i < n ==> row_plan(rows[i], columns, #[trigger] chosen[i])
}

/// The rows before one have plans, and its query has none.
pub open spec fn row_fails(
    rows: Seq<QueryRow>,
    columns: Seq<EncodedColumn>,
    i: int,
    error: RenderError,
) -> bool {
    &&& 0 <= i < rows.len()
    &&& exists|chosen: Seq<PlanIr>| #[trigger] row_plans(rows, columns, chosen, i)
    &&& match documented(rows[i].query@) {
        None => error matches RenderError::Query(StudyError::UnknownDocumentedQuery),
        Some((case, query)) => error matches RenderError::Plan(e) && draft_fails(
            plan_draft(columns[case as int], query),
            columns[case as int].page.plan(),
            e,
        ),
    }
}

/// There is a column for every documented query.
pub open spec fn rows_have_columns(rows: Seq<QueryRow>, columns: Seq<EncodedColumn>) -> bool {
    forall|i: int|
        0 <= i < rows.len() ==> (documented((#[trigger] rows[i]).query@) matches Some((case, _))
            ==> case < columns.len())
}

pub open spec fn columns_wf(columns: Seq<EncodedColumn>) -> bool {
    forall|i: int| 0 <= i < columns.len() ==> (#[trigger] columns[i]).wf()
}

/// Plans the documented queries.
pub fn documented_plans(rows: &[QueryRow], columns: &[EncodedColumn]) -> (r: Result<
    Vec<PlanIr>,
    RenderError,
>)
    requires
        columns_wf(columns@),
        rows_have_columns(rows@, columns@),
    ensures
        match r {
            Ok(chosen) => row_plans(rows@, columns@, chosen@, rows@.len() as int),
            Err(error) => exists|i: int| #[trigger] row_fails(rows@, columns@, i, error),
        },
{
    let mut chosen: Vec<PlanIr> = Vec::new();
    let mut i: usize = 0;
    while i < rows.len()
        invariant
            i <= rows@.len(),
            columns_wf(columns@),
            rows_have_columns(rows@, columns@),
            row_plans(rows@, columns@, chosen@, i as int),
        decreases rows@.len() - i,
    {
        let (case, query) = match query_for_row(&rows[i].query) {
            Ok(found) => found,
            Err(e) => {
                let error = RenderError::Query(e);
                assert(row_fails(rows@, columns@, i as int, error));
                return Err(error);
            },
        };
        assert(documented(rows@[i as int].query@) == Some((case, query)));
        assert(case < columns@.len());
        assert(columns@[case as int].wf());
        match compile(&columns[case], query) {
            Ok(plan) => {
                assert(plans(plan, columns@[case as int], query));
                chosen.push(plan);
            },
            Err(e) => {
                let error = RenderError::Plan(e);
                assert(row_fails(rows@, columns@, i as int, error));
                return Err(error);
            },
        }
        i = i + 1;
    }
    Ok(chosen)
}

/// The steps of the first `n` that do more than load the header.
pub open spec fn working_ops(nodes: Seq<PlanNode>, n: int) -> Seq<PlanOp>
    decreases n,
{
    if n <= 0 {
        Seq::empty()
    } else if nodes[n - 1].op is LoadMetadata {
        working_ops(nodes, n - 1)
    } else {
        working_ops(nodes, n - 1).push(nodes[n - 1].op)
    }
}

/// The first `n` steps, with arrows between them.
pub open spec fn ops_text(ops: Seq<PlanOp>, n: int) -> Seq<char>
    decreases n,
{
    if n <= 0 {
        Seq::empty()
    } else {
        let before = if n == 1 {
            Seq::empty()
        } else {
            ops_text(ops, n - 1) + " -> "@
        };
        before + op_text(ops[n - 1])
    }
}

/// How a plan goes about it.
pub open spec fn strategy_text(plan: PlanIr) -> Seq<char> {
    let ops = working_ops(plan.nodes@, plan.nodes@.len() as int);
    ops_text(ops, ops.len() as int)
}

/// Tells how a plan goes about it.
pub fn plan_strategy(plan: &PlanIr) -> (r: String)
    ensures
        r@ == strategy_text(*plan),
{
    let mut ops: Vec<PlanOp> = Vec::new();
    let mut i: usize = 0;
    while i < plan.nodes.len()
        invariant
            i <= plan.nodes@.len(),
            ops@ == working_ops(plan.nodes@, i as int),
        decreases plan.nodes@.len() - i,
    {
        match plan.nodes[i].op {
            PlanOp::LoadMetadata { .. } => {},
            op => ops.push(op),
        }
        i = i + 1;
    }
    let mut out = String::new();
    let mut k: usize = 0;
    while k < ops.len()
        invariant
            k <= ops@.len(),
            out@ == ops_text(ops@, k as int),
        decreases ops@.len() - k,
    {
        if k > 0 {
            out.append(" -> ");
        }
        out.append(op_string(ops[k]).as_str());
        assert(out@ =~= ops_text(ops@, k + 1));
        k = k + 1;
    }
    out
}

fn same_ranges(left: &Vec<Span>, right: &Vec<Span>) -> (r: bool)
    ensures
        r == (left@ == right@),
{
    if left.len() != right.len() {
        return false;
    }
    let mut i: usize = 0;
    while i < left.len()
        invariant
            i <= left@.len() == right@.len(),
            forall|k: int| 0 <= k < i ==> left@[k] == right@[k],
        decreases left@.len() - i,
    {
        if left[i].start != right[i].start || left[i].end != right[i].end {
            assert(left@[i as int] != right@[i as int]);
            return false;
        }
        i = i + 1;
    }
    assert(left@ =~= right@);
    true
}

/// Whether two answers are the same.
pub fn same_answer(left: &Answer, right: &Answer) -> (r: bool)
    ensures
        r == (left@ == right@),
{
    match (left, right) {
        (Answer::Value(a), Answer::Value(b)) => match (a, b) {
            (Some(x), Some(y)) => *x == *y,
            (None, None) => true,
            _ => false,
        },
        (Answer::Sum(a), Answer::Sum(b)) => *a == *b,
        (Answer::Ranges(a), Answer::Ranges(b)) => same_ranges(a, b),
        (Answer::Count(a), Answer::Count(b)) => *a == *b,
        _ => false,
    }
}

/// What the row of a documented query holds.
pub open spec fn documents(
    row: QueryRow,
    column: Seq<char>,
    query: Seq<char>,
    plan: PlanIr,
    execution: Execution,
    full: Execution,
) -> bool {
    &&& row.column@ == column
    &&& row.query@ == query
    &&& row.answer@ == answer_text(execution.answer@)
    &&& row.strategy@ == strategy_text(plan)
    &&& row.guarantee == plan.output
    &&& row.logical_bytes == execution.metrics.logical_bytes
    &&& row.delivered_bytes == execution.metrics.delivered_bytes
    &&& row.transferred_bytes == execution.metrics.transferred_bytes
    &&& row.decoded_rows == execution.decoded_rows
    &&& row.full_decode_bytes == full.metrics.delivered_bytes
}

/// Adds the row of a documented query. The answer must be that of a full decode.
pub fn push_query(
    output: &mut Vec<QueryRow>,
    column: &EncodedColumn,
    column_name: &str,
    query_name: &str,
    query: Query,
    execution: &Execution,
    full: &Execution,
) -> (r: Result<(), RenderError>)
    requires
        column.wf(),
    ensures
        if execution.answer@ != full.answer@ {
            (r matches Err(RenderError::Disagreement(of)) && of@ == column_name@)
                && final(output)@ == old(output)@
        } else {
            match r {
                Ok(()) => exists|row: QueryRow, plan: PlanIr|
                    {
                        &&& #[trigger] plans(plan, *column, query)
                        &&& #[trigger] documents(
                            row,
                            column_name@,
                            query_name@,
                            plan,
                            *execution,
                            *full,
                        )
                        &&& final(output)@ == old(output)@.push(row)
                    },
                Err(error) => {
                    &&& error matches RenderError::Plan(e)
                    &&& draft_fails(plan_draft(*column, query), column.page.plan(), e)
                    &&& final(output)@ == old(output)@
                },
            }
        },
{
    if !same_answer(&execution.answer, &full.answer) {
        return Err(RenderError::Disagreement(String::from_str(column_name)));
    }
    let plan = match compile(column, query) {
        Ok(plan) => plan,
        Err(e) => {
            return Err(RenderError::Plan(e));
        },
    };
    let row = QueryRow {
        column: String::from_str(column_name),
        query: String::from_str(query_name),
        answer: answer_string(&execution.answer),
        strategy: plan_strategy(&plan),
        guarantee: plan.output,
        logical_bytes: execution.metrics.logical_bytes,
        delivered_bytes: execution.metrics.delivered_bytes,
        transferred_bytes: execution.metrics.transferred_bytes,
        decoded_rows: execution.decoded_rows,
        full_decode_bytes: full.metrics.delivered_bytes,
    };
    assert(plans(plan, *column, query));
    assert(documents(row, column_name@, query_name@, plan, *execution, *full));
    output.push(row);
    Ok(())
}

// ----- certificates -----

/// What the row of a probe holds: the candidates of the certificate, and the rows
/// that hold the target.
pub open spec fn probed(
    row: CertificateRow,
    column: Seq<char>,
    certificate: Seq<char>,
    values: Seq<Option<i64>>,
    target: i64,
    blocks: Seq<usize>,
    block_rows: int,
    metadata: int,
) -> bool {
    &&& row.column@ == column
    &&& row.certificate@ == certificate
    &&& row.target == target
    &&& row.metadata_bytes == metadata
    &&& row.candidate_blocks@ == blocks_text(blocks)
    &&& row.candidate_rows == rows_in_all(
        blocks,
        block_rows,
        values.len() as int,
        blocks.len() as int,
    )
    &&& row.exact_matches@ == spans_text(
        ranges_where(eq_hit(values, target), 0, values.len() as int),
    )
}

fn probe_row(
    column: &str,
    certificate: &str,
    values: &[Option<i64>],
    plan: &CandidatePlan,
    target: i64,
) -> (r: CertificateRow)
    requires
        increasing(plan.blocks@),
        plan.guarantee == OutputGuarantee::CandidateBitmap,
        refine_result(values@, *plan, eq_hit(values@, target)) == Ok::<Seq<Span>, Error>(
            ranges_where(eq_hit(values@, target), 0, values@.len() as int),
        ),
    ensures
        probed(
            r,
            column@,
            certificate@,
            values@,
            target,
            plan.blocks@,
            plan.block_rows as int,
            plan.metadata_bytes as int,
        ),
{
    proof {
        law_candidate_rows(
            plan.blocks@,
            plan.block_rows as int,
            values@.len() as int,
            plan.blocks@.len() as int,
        );
    }
    let exact: Vec<Span> = match refine_eq(values, plan, target) {
        Ok(exact) => exact,
        Err(_) => Vec::new(),
    };
    CertificateRow {
        column: String::from_str(column),
        certificate: String::from_str(certificate),
        target,
        metadata_bytes: plan.metadata_bytes,
        candidate_blocks: blocks_string(plan.blocks.as_slice()),
        candidate_rows: plan.candidate_rows(values.len()),
        exact_matches: spans_string(exact.as_slice()),
    }
}

/// The row of a filter's probe.
pub open spec fn bloom_probed(
    row: CertificateRow,
    values: Seq<Option<i64>>,
    bloom: Bloom,
    target: i64,
) -> bool {
    probed(
        row,
        "status"@,
        "Bloom"@,
        values,
        target,
        chosen(bloom_pick(bloom, target), bloom.blocks),
        4,
        bloom.bits.len() as int,
    )
}

/// The row of a probe of the bounds.
pub open spec fn min_max_probed(
    row: CertificateRow,
    values: Seq<Option<i64>>,
    target: i64,
) -> bool {
    let bounds = all_bounds(values, 4);
    probed(
        row,
        "status"@,
        "min/max"@,
        values,
        target,
        chosen(min_max_pick(bounds, target), bounds.len() as int),
        4,
        16 * (bounds.len() as int),
    )
}

/// The row of a fence's probe.
pub open spec fn fence_probed(
    row: CertificateRow,
    values: Seq<Option<i64>>,
    budget: int,
    target: i64,
) -> bool {
    let stride = fence_stride(values.len() as int, budget);
    let keys = fence_keys(values, stride);
    probed(
        row,
        "event_time"@,
        "sparse fence"@,
        values,
        target,
        block_range(fence_first(keys, target), fence_last(keys, target)),
        stride,
        16 * (keys.len() as int),
    )
}

/// The bytes of the filter of the statuses.
pub open spec fn bloom_budget(rows: int) -> int {
    ceil_div(rows, 4) * bloom_block_bytes(4, 8)
}

/// Why the certificates of the example cannot be built, if they cannot.
pub open spec fn certificates_fault(
    times: Seq<Option<i64>>,
    statuses: Seq<Option<i64>>,
) -> Option<Error> {
    if bloom_error(statuses.len() as int, 4, 8) is Some {
        bloom_error(statuses.len() as int, 4, 8)
    } else if min_max_error(statuses.len() as int, 4) is Some {
        min_max_error(statuses.len() as int, 4)
    } else {
        fence_error(times, bloom_budget(statuses.len() as int))
    }
}

/// The rows of all probes.
pub open spec fn all_probed(
    rows: Seq<CertificateRow>,
    times: Seq<Option<i64>>,
    statuses: Seq<Option<i64>>,
    bloom: Bloom,
) -> bool {
    &&& rows.len() == 7
    &&& bloom_probed(rows[0], statuses, bloom, 99)
    &&& min_max_probed(rows[1], statuses, 99)
    &&& bloom_probed(rows[2], statuses, bloom, 3)
    &&& min_max_probed(rows[3], statuses, 3)
    &&& bloom_probed(rows[4], statuses, bloom, 1)
    &&& min_max_probed(rows[5], statuses, 1)
    &&& fence_probed(rows[6], times, bloom_budget(statuses.len() as int), 1_700_000_420)
}

/// Probes the certificates of the example: the statuses by a filter and by their
/// bounds, for a value that is absent and for two that are not, and the times by a
/// fence that takes no more than the filter.
pub fn run_certificates(examples: &[ExampleColumn]) -> (r: Result<Vec<CertificateRow>, Error>)
    requires
        examples@.len() > 2,
    ensures
        match certificates_fault(examples@[0].values@, examples@[2].values@) {
            Some(e) => r == Err::<Vec<CertificateRow>, Error>(e),
            None => r matches Ok(rows) && exists|bloom: Bloom|
                #[trigger] is_bloom(bloom, examples@[2].values@, 4, 8) && all_probed(
                    rows@,
                    examples@[0].values@,
                    examples@[2].values@,
                    bloom,
                ),
        },
{
    let times = examples[0].values.as_slice();
    let statuses = examples[2].values.as_slice();
    let timed: usize = times.len();
    let stated: usize = statuses.len();
    let bloom = match BlockBloom::build(statuses, 4, 8) {
        Ok(bloom) => bloom,
        Err(e) => {
            return Err(e);
        },
    };
    let min_max = match BlockMinMax::build(statuses, 4) {
        Ok(min_max) => min_max,
        Err(e) => {
            return Err(e);
        },
    };
    let targets: [i64; 3] = [99, 3, 1];
    let mut rows: Vec<CertificateRow> = Vec::new();
    let mut i: usize = 0;
    while i < 3
        invariant
            i <= 3,
            targets@ == seq![99i64, 3i64, 1i64],
            0 < statuses@.len() == stated,
            bloom.wf(),
            is_bloom(bloom@, statuses@, 4, 8),
            min_max.wf(),
            min_max.rows_per_block() == 4,
            min_max.bounds() == all_bounds(statuses@, 4),
            rows@.len() == 2 * i,
            forall|k: int|
                0 <= k < i ==> bloom_probed(
                    rows@[2 * k],
                    statuses@,
                    bloom@,
                    #[trigger] targets@[k],
                ),
            forall|k: int|
                0 <= k < i ==> min_max_probed(
                    rows@[2 * k + 1],
                    statuses@,
                    #[trigger] targets@[k],
                ),
        decreases 3 - i,
    {
        let target: i64 = targets[i];
        proof {
            law_bloom_search_is_exact(bloom@, statuses@, 4, 8, target);
            law_min_max_search_is_exact(statuses@, 4, target);
        }
        let ghost before = rows@;
        rows.push(probe_row("status", "Bloom", statuses, &bloom.probe_eq(target), target));
        rows.push(probe_row("status", "min/max", statuses, &min_max.probe_eq(target), target));
        assert(forall|k: int| 0 <= k < 2 * i ==> rows@[k] == before[k]);
        assert(targets@[i as int] == target);
        assert(bloom_probed(rows@[2 * i as int], statuses@, bloom@, target));
        assert(min_max_probed(rows@[2 * i + 1], statuses@, target));
        i = i + 1;
    }
    let fence = match SparseFence::build_equal_budget(times, bloom.bytes()) {
        Ok(fence) => fence,
        Err(e) => {
            return Err(e);
        },
    };
    let target: i64 = 1_700_000_420;
    proof {
        lemma_stride(timed as int, bloom@.bits.len() as int);
        law_fence_search_is_exact(times@, fence.rows_per_block(), target);
    }
    assert(targets@[0] == 99 && targets@[1] == 3 && targets@[2] == 1);
    rows.push(probe_row("event_time", "sparse fence", times, &fence.probe_eq(target), target));
    assert(is_bloom(bloom@, examples@[2].values@, 4, 8));
    Ok(rows)
}

/// A fence has at least one row to a block.
proof fn lemma_stride(rows: int, budget: int)
    requires
        rows > 0,
        budget >= 16,
    ensures
        fence_stride(rows, budget) > 0,
{
    vstd::arithmetic::div_mod::lemma_div_is_ordered(16, budget, 16);
    lemma_ceil(rows, budget / 16);
    if fence_stride(rows, budget) <= 0 {
        lemma_scale(fence_stride(rows, budget), 0, budget / 16);
    }
}

/// The first `n` probes.
pub open spec fn certificate_rows(text: Seq<char>, rows: Seq<CertificateRow>, n: int) -> Seq<char>
    decreases n,
{
    if n <= 0 {
        text
    } else {
        let row = rows[n - 1];
        certificate_rows(text, rows, n - 1) + "| `"@ + row.column@ + "` | "@ + row.certificate@
            + " | "@ + signed_decimal(row.target as int) + " | "@ + decimal(
            row.metadata_bytes as nat,
        ) + " | `"@ + row.candidate_blocks@ + "` | "@ + decimal(row.candidate_rows as nat) + " | `"@
            + row.exact_matches@ + "` |\n"@
    }
}

fn say_certificates(out: &mut String, rows: &[CertificateRow])
    ensures
        final(out)@ == certificate_rows(old(out)@, rows@, rows@.len() as int),
{
    let ghost start = out@;
    let mut i: usize = 0;
    while i < rows.len()
        invariant
            i <= rows@.len(),
            out@ == certificate_rows(start, rows@, i as int),
        decreases rows@.len() - i,
    {
        let row = &rows[i];
        out.append("| `");
        out.append(row.column.as_str());
        out.append("` | ");
        out.append(row.certificate.as_str());
        out.append(" | ");
        out.append(signed_text(row.target as i128).as_str());
        out.append(" | ");
        out.append(decimal_text(row.metadata_bytes).as_str());
        out.append(" | `");
        out.append(row.candidate_blocks.as_str());
        out.append("` | ");
        out.append(decimal_text(row.candidate_rows).as_str());
        out.append(" | `");
        out.append(row.exact_matches.as_str());
        out.append("` |\n");
        i = i + 1;
    }
}

// ----- claims -----

/// The claims that the walkthrough repeats, in order.
pub open spec fn repeated_claims() -> Seq<Seq<char>> {
    seq![
        "WitCensusColumns"@,
        "WitCensusSources"@,
        "WitCensusRowsMillions"@,
        "WitCensusMonotoneColumns"@,
        "WitSourceDirectBoundaryMedian"@,
        "WitSourceDirectBoundaryCiLow"@,
        "WitSourceDirectBoundaryCiHigh"@,
        "WitSourceDirectStorageMedian"@,
        "WitAccessPremium"@,
        "WitBloomAbsentCandidate"@,
        "WitBloomRareCandidate"@,
        "WitBloomFrequentCandidate"@,
        "WitBloomAbsentModeledBytes"@,
        "WitBloomRareModeledBytes"@,
        "WitBloomFrequentModeledBytes"@,
        "WitColdRequiredMb"@,
        "WitColdFileMb"@,
        "WitColdPageCalls"@,
        "WitColdCoalescedCalls"@,
        "WitColdPageOverFull"@,
        "WitColdCoalescedOverFull"@,
    ]
}

fn claim_names() -> (r: Vec<&'static str>)
    ensures
        r@.len() == repeated_claims().len(),
        forall|i: int| 0 <= i < r@.len() ==> (#[trigger] r@[i])@ == repeated_claims()[i],
{
    vec![
        "WitCensusColumns",
        "WitCensusSources",
        "WitCensusRowsMillions",
        "WitCensusMonotoneColumns",
        "WitSourceDirectBoundaryMedian",
        "WitSourceDirectBoundaryCiLow",
        "WitSourceDirectBoundaryCiHigh",
        "WitSourceDirectStorageMedian",
        "WitAccessPremium",
        "WitBloomAbsentCandidate",
        "WitBloomRareCandidate",
        "WitBloomFrequentCandidate",
        "WitBloomAbsentModeledBytes",
        "WitBloomRareModeledBytes",
        "WitBloomFrequentModeledBytes",
        "WitColdRequiredMb",
        "WitColdFileMb",
        "WitColdPageCalls",
        "WitColdCoalescedCalls",
        "WitColdPageOverFull",
        "WitColdCoalescedOverFull",
    ]
}

/// A claim, if it is made.
pub open spec fn claim_of(claims: Claims, i: int) -> Option<Seq<char>> {
    claim_in(claims@, repeated_claims()[i], claims@.len() as int)
}

/// The values of the claims that the walkthrough repeats.
pub open spec fn claim_texts(claims: Claims) -> Seq<Seq<char>> {
    Seq::new(repeated_claims().len(), |i: int| claim_of(claims, i)->0)
}

/// Every claim that the walkthrough repeats is made.
pub open spec fn claims_made(claims: Claims) -> bool {
    forall|i: int| 0 <= i < repeated_claims().len() ==> (#[trigger] claim_of(claims, i)) is Some
}

/// The claim is the first that is not made.
pub open spec fn first_unmade(claims: Claims, i: int) -> bool {
    &&& 0 <= i < repeated_claims().len()
    &&& claim_of(claims, i) is None
    &&& forall|k: int| 0 <= k < i ==> (#[trigger] claim_of(claims, k)) is Some
}

fn claim_strings(claims: &Claims) -> (r: Result<Vec<String>, TableError>)
    ensures
        match r {
            Ok(values) => {
                &&& claims_made(*claims)
                &&& values@.len() == repeated_claims().len()
                &&& fields_of(values@) == claim_texts(*claims)
            },
            Err(e) => e matches TableError::ClaimAbsent(of) && exists|i: int| #[trigger]
                first_unmade(*claims, i) && of@ == repeated_claims()[i],
        },
{
    let names = claim_names();
    let mut values: Vec<String> = Vec::new();
    let mut i: usize = 0;
    while i < names.len()
        invariant
            i <= names@.len() == repeated_claims().len(),
            forall|k: int|
                0 <= k < names@.len() ==> (#[trigger] names@[k])@ == repeated_claims()[k],
            values@.len() == i,
            forall|k: int| 0 <= k < i ==> (#[trigger] claim_of(*claims, k)) is Some,
            forall|k: int| 0 <= k < i ==> Some((#[trigger] values@[k])@) == claim_of(*claims, k),
        decreases names@.len() - i,
    {
        assert(names@[i as int]@ == repeated_claims()[i as int]);
        match claim_value(claims, names[i]) {
            Ok(value) => {
                assert(Some(value@) == claim_of(*claims, i as int));
                values.push(value);
            },
            Err(e) => {
                assert(claim_of(*claims, i as int) is None);
                assert(first_unmade(*claims, i as int));
                return Err(e);
            },
        }
        i = i + 1;
    }
    assert(fields_of(values@) =~= claim_texts(*claims));
    Ok(values)
}

pub open spec fn evidence_lines(text: Seq<char>, values: Seq<Seq<char>>) -> Seq<char> {
    text
        + "| invariant census | "@ + values[0]
        + " columns, "@ + values[1]
        + " independent sources, "@ + values[2]
        + " million rows; "@ + values[3]
        + "% globally monotone | useful order evidence exists, but is not universal |\n| access-ready predicate path vs Parquet | source median "@ + values[4]
        + "x; 95% bootstrap CI ["@ + values[5]
        + ", "@ + values[6]
        + "] | point estimate favors Witness, interval crosses parity |\n| access-ready vs size-selected Witness | source median "@ + values[7]
        + "x; byte premium "@ + values[8]
        + "x | lower delivered access is purchased with larger files |\n| Bloom absent / rare / frequent | candidate fractions "@ + values[9]
        + " / "@ + values[10]
        + " / "@ + values[11]
        + "; modeled-byte ratios "@ + values[12]
        + " / "@ + values[13]
        + " / "@ + values[14]
        + " | membership helps absent and rare probes, then converges to no pruning |\n| cold XFS schedule | "@ + values[15]
        + " MiB required in a "@ + values[16]
        + " MiB file; "@ + values[17]
        + " page reads vs "@ + values[18]
        + " coalesced vs 1 full read; latency ratios "@ + values[19]
        + "x / "@ + values[20]
        + "x / 1x | byte-minimal page reads lose to call overhead; coalescing recovers sequential behavior |\n"@
}

fn say_evidence(out: &mut String, values: &[String])
    requires
        values@.len() == repeated_claims().len(),
    ensures
        final(out)@ == evidence_lines(old(out)@, fields_of(values@)),
{
    out.append(
        "| invariant census | ",
    );
    out.append(values[0].as_str());
    out.append(
        " columns, ",
    );
    out.append(values[1].as_str());
    out.append(
        " independent sources, ",
    );
    out.append(values[2].as_str());
    out.append(
        " million rows; ",
    );
    out.append(values[3].as_str());
    out.append(
        "% globally monotone | useful order evidence exists, but is not universal |\n| access-ready predicate path vs Parquet | source median ",
    );
    out.append(values[4].as_str());
    out.append(
        "x; 95% bootstrap CI [",
    );
    out.append(values[5].as_str());
    out.append(
        ", ",
    );
    out.append(values[6].as_str());
    out.append(
        "] | point estimate favors Witness, interval crosses parity |\n| access-ready vs size-selected Witness | source median ",
    );
    out.append(values[7].as_str());
    out.append(
        "x; byte premium ",
    );
    out.append(values[8].as_str());
    out.append(
        "x | lower delivered access is purchased with larger files |\n| Bloom absent / rare / frequent | candidate fractions ",
    );
    out.append(values[9].as_str());
    out.append(
        " / ",
    );
    out.append(values[10].as_str());
    out.append(
        " / ",
    );
    out.append(values[11].as_str());
    out.append(
        "; modeled-byte ratios ",
    );
    out.append(values[12].as_str());
    out.append(
        " / ",
    );
    out.append(values[13].as_str());
    out.append(
        " / ",
    );
    out.append(values[14].as_str());
    out.append(
        " | membership helps absent and rare probes, then converges to no pruning |\n| cold XFS schedule | ",
    );
    out.append(values[15].as_str());
    out.append(
        " MiB required in a ",
    );
    out.append(values[16].as_str());
    out.append(
        " MiB file; ",
    );
    out.append(values[17].as_str());
    out.append(
        " page reads vs ",
    );
    out.append(values[18].as_str());
    out.append(
        " coalesced vs 1 full read; latency ratios ",
    );
    out.append(values[19].as_str());
    out.append(
        "x / ",
    );
    out.append(values[20].as_str());
    out.append(
        "x / 1x | byte-minimal page reads lose to call overhead; coalescing recovers sequential behavior |\n",
    );
}

// ----- the whole -----

/// The walkthrough up to the documented queries.
pub open spec fn first_half(
    fingerprint: int,
    rows: int,
    examples: Seq<ExampleColumn>,
    columns: Seq<EncodedColumn>,
    formats: Seq<FormatRow>,
    artifacts: Seq<ArtifactBytes>,
) -> Seq<char> {
    let count = paired(examples, columns);
    let opened = OPENING@ + "0x"@ + hex_of(fingerprint, 16) + SCOPE@;
    let valued = value_rows(opened, examples, rows) + ARTIFACTS@;
    let formatted = format_rows(valued, formats, formats.len() as int) + ARTIFACT_NOTE@;
    let stored = artifact_lines(formatted, artifacts, artifacts.len() as int) + PAGES@;
    let paged = page_rows(stored, examples, columns, count) + DIRECTORIES@;
    column_parts(paged, examples, columns, count)
}

/// The walkthrough from the documented queries on.
pub open spec fn second_half(
    text: Seq<char>,
    queries: Seq<QueryRow>,
    chosen: Seq<PlanIr>,
    certificates: Seq<CertificateRow>,
    values: Seq<Seq<char>>,
) -> Seq<char> {
    let asked = query_rows(text + ACCESS@, queries, queries.len() as int) + PLANS@;
    let planned = plan_parts(asked, queries, chosen, queries.len() as int) + CERTIFICATES@;
    let probed = certificate_rows(planned, certificates, certificates.len() as int) + COMPARISON@
        + LITERATURE@ + EVIDENCE@;
    evidence_lines(probed, values) + FALLBACKS@
}

/// Writes the walkthrough of an example. It fails on the first column with a field
/// that cannot be told, then on the first query without a plan, then on the first
/// claim that is not made.
pub fn render_markdown(
    fingerprint: u64,
    rows: usize,
    examples: &[ExampleColumn],
    columns: &[EncodedColumn],
    formats: &[FormatRow],
    artifacts: &[ArtifactBytes],
    queries: &[QueryRow],
    certificates: &[CertificateRow],
    claims: &Claims,
) -> (r: Result<String, RenderError>)
    requires
        reaches(examples@, rows as int),
        columns_wf(columns@),
        rows_have_columns(queries@, columns@),
    ensures
        match r {
            Ok(text) => exists|chosen: Seq<PlanIr>|
                {
                    &&& #[trigger] row_plans(queries@, columns@, chosen, queries@.len() as int)
                    &&& text@ == second_half(
                        first_half(
                            fingerprint as int,
                            rows as int,
                            examples@,
                            columns@,
                            formats@,
                            artifacts@,
                        ),
                        queries@,
                        chosen,
                        certificates@,
                        claim_texts(*claims),
                    )
                },
            Err(RenderError::Column(i)) => first_untellable(examples@, columns@, i as int),
            Err(RenderError::Claim(e)) => e matches TableError::ClaimAbsent(of) && exists|i: int|
                #[trigger] first_unmade(*claims, i) && of@ == repeated_claims()[i],
            Err(error) => exists|i: int| #[trigger] row_fails(queries@, columns@, i, error),
        },
        !(r matches Err(RenderError::Column(_))) ==> forall|k: int|
            0 <= k < paired(examples@, columns@) ==> column_tellable(#[trigger] columns@[k]),
        (r is Ok || (r matches Err(RenderError::Claim(_)))) ==> exists|chosen: Seq<PlanIr>| #[trigger]
            row_plans(queries@, columns@, chosen, queries@.len() as int),
        r is Ok ==> claims_made(*claims),
{
    let mut out = String::from_str(OPENING);
    out.append("0x");
    push_hex(&mut out, fingerprint, 16);
    out.append(SCOPE);
    say_values(&mut out, examples, rows);
    out.append(ARTIFACTS);
    say_formats(&mut out, formats);
    out.append(ARTIFACT_NOTE);
    say_artifacts(&mut out, artifacts);
    out.append(PAGES);
    say_pages(&mut out, examples, columns);
    out.append(DIRECTORIES);
    match say_columns(&mut out, examples, columns) {
        None => {},
        Some(i) => {
            return Err(RenderError::Column(i));
        },
    }
    let ghost first = out@;
    assert(first == first_half(
        fingerprint as int,
        rows as int,
        examples@,
        columns@,
        formats@,
        artifacts@,
    ));
    out.append(ACCESS);
    say_queries(&mut out, queries);
    out.append(PLANS);
    let chosen = match documented_plans(queries, columns) {
        Ok(chosen) => chosen,
        Err(error) => {
            return Err(error);
        },
    };
    say_plans(&mut out, queries, chosen.as_slice());
    out.append(CERTIFICATES);
    say_certificates(&mut out, certificates);
    out.append(COMPARISON);
    out.append(LITERATURE);
    out.append(EVIDENCE);
    let values = match claim_strings(claims) {
        Ok(values) => values,
        Err(e) => {
            return Err(RenderError::Claim(e));
        },
    };
    say_evidence(&mut out, values.as_slice());
    out.append(FALLBACKS);
    assert(out@ == second_half(first, queries@, chosen@, certificates@, claim_texts(*claims)));
    Ok(out)
}

} // verus!
