//! The study of where reading a whole page overtakes reading its parts.
use super::error::StudyError;
use super::order::sorted_present;
#[allow(unused_imports)]
use super::order::{in_order, present};
#[allow(unused_imports)]
use super::workload::rows_in;
use crate::access_compiler::cost_model::CostFeatures;
use crate::access_compiler::decoder::DecoderNode;
#[allow(unused_imports)]
use crate::access_compiler::decoder::{lemma_arena, node_error};
use crate::access_compiler::encode::EncodedColumn;
use crate::access_compiler::execute::Answer;
#[allow(unused_imports)]
use crate::access_compiler::execute::Reply;
use crate::access_compiler::heldout::{heldout_cases, HeldoutCase};
#[allow(unused_imports)]
use crate::access_compiler::heldout::heldout_list;
use crate::access_compiler::runtime::{AccessMetrics, ClosureMode};
#[allow(unused_imports)]
use crate::access_compiler::runtime::{ceil_div, lemma_ceil, lemma_ceil_floor};
use crate::access_compiler::span::Span;
use vstd::prelude::*;

verus! {

pub const ROWS: usize = 16_384;

pub const TRAINING_CASES: usize = 10;

pub const EVALUATION_CASES: usize = 5;

pub const TOTAL_CASES: usize = 15;

#[derive(Clone, Copy, Debug, PartialEq, Eq, PartialOrd, Ord, Structural)]
pub enum QueryKind {
    Sum,
    Between,
}

impl QueryKind {
    pub fn name(self) -> (r: &'static str)
        ensures
            r@ == match self {
                QueryKind::Sum => "SUM"@,
                QueryKind::Between => "BETWEEN"@,
            },
    {
        match self {
            QueryKind::Sum => "SUM",
            QueryKind::Between => "BETWEEN",
        }
    }
}

#[derive(Clone, Copy, Debug, PartialEq, Eq, PartialOrd, Ord, Structural)]
pub enum PlanKind {
    Selective,
    Fused,
}

pub open spec fn plan_mode(plan: PlanKind) -> ClosureMode {
    match plan {
        PlanKind::Selective => ClosureMode::Selective,
        PlanKind::Fused => ClosureMode::FullPage,
    }
}

impl PlanKind {
    pub fn name(self) -> (r: &'static str)
        ensures
            r@ == match self {
                PlanKind::Selective => "selective_closure"@,
                PlanKind::Fused => "broad_fused"@,
            },
    {
        match self {
            PlanKind::Selective => "selective_closure",
            PlanKind::Fused => "broad_fused",
        }
    }

    /// How the page is read.
    pub fn mode(self) -> (r: ClosureMode)
        ensures
            r == plan_mode(self),
    {
        match self {
            PlanKind::Selective => ClosureMode::Selective,
            PlanKind::Fused => ClosureMode::FullPage,
        }
    }
}

/// What the cost is estimated from.
#[derive(Clone, Copy, Debug, PartialEq, Eq, PartialOrd, Ord, Structural)]
pub enum FeatureMode {
    PreflightFree,
    ExactClosure,
}

impl FeatureMode {
    pub fn name(self) -> (r: &'static str)
        ensures
            r@ == match self {
                FeatureMode::PreflightFree => "preflight_free_estimate"@,
                FeatureMode::ExactClosure => "exact_closure_features"@,
            },
    {
        match self {
            FeatureMode::PreflightFree => "preflight_free_estimate",
            FeatureMode::ExactClosure => "exact_closure_features",
        }
    }
}

/// How plans are chosen for a scan over many pages.
#[derive(Clone, Copy, Debug, PartialEq, Eq, Structural)]
pub enum Policy {
    AlwaysSelective,
    AlwaysFused,
    CostAware,
    Oracle,
}

impl Policy {
    pub fn all() -> (r: [Policy; 4])
        ensures
            r@ == seq![
                Policy::AlwaysSelective,
                Policy::AlwaysFused,
                Policy::CostAware,
                Policy::Oracle,
            ],
    {
        let r = [Policy::AlwaysSelective, Policy::AlwaysFused, Policy::CostAware, Policy::Oracle];
        assert(r@ =~= seq![
            Policy::AlwaysSelective,
            Policy::AlwaysFused,
            Policy::CostAware,
            Policy::Oracle,
        ]);
        r
    }

    pub fn name(self) -> (r: &'static str)
        ensures
            r@ == match self {
                Policy::AlwaysSelective => "always_selective"@,
                Policy::AlwaysFused => "always_fused"@,
                Policy::CostAware => "cost_model_preflight_free"@,
                Policy::Oracle => "microcurve_oracle"@,
            },
    {
        match self {
            Policy::AlwaysSelective => "always_selective",
            Policy::AlwaysFused => "always_fused",
            Policy::CostAware => "cost_model_preflight_free",
            Policy::Oracle => "microcurve_oracle",
        }
    }
}

/// The part of the study that a case belongs to.
pub fn split_name(case: usize) -> (r: &'static str)
    ensures
        r@ == if case < TRAINING_CASES {
            "train"@
        } else {
            "heldout"@
        },
{
    if case < TRAINING_CASES {
        "train"
    } else {
        "heldout"
    }
}

// ----- features -----

#[derive(Clone, Copy, Debug, PartialEq, Eq, Structural)]
pub struct StructureFeatures {
    pub restart_entries: usize,
    pub rle_runs: usize,
    pub dictionary_entries: usize,
    pub patch_count: usize,
    pub nullable_nodes: usize,
}

/// The same counts without bounds.
pub struct Structure {
    pub restart_entries: int,
    pub rle_runs: int,
    pub dictionary_entries: int,
    pub patch_count: int,
    pub nullable_nodes: int,
}

/// What the first `n` nodes hold.
pub open spec fn structure_of(nodes: Seq<DecoderNode>, n: int) -> Structure
    decreases n,
{
    if n <= 0 {
        Structure {
            restart_entries: 0,
            rle_runs: 0,
            dictionary_entries: 0,
            patch_count: 0,
            nullable_nodes: 0,
        }
    } else {
        let before = structure_of(nodes, n - 1);
        match nodes[n - 1] {
            DecoderNode::Delta { restart_interval, len, .. } => Structure {
                restart_entries: before.restart_entries + ceil_div(
                    len as int,
                    restart_interval as int,
                ),
                ..before
            },
            DecoderNode::Rle { runs, .. } => Structure {
                rle_runs: before.rle_runs + runs,
                ..before
            },
            DecoderNode::Dictionary { entries, .. } => Structure {
                dictionary_entries: before.dictionary_entries + entries,
                ..before
            },
            DecoderNode::Patch { count, .. } => Structure {
                patch_count: before.patch_count + count,
                ..before
            },
            DecoderNode::Nullable { .. } => Structure {
                nullable_nodes: before.nullable_nodes + 1,
                ..before
            },
            _ => before,
        }
    }
}

pub open spec fn countable(s: Structure) -> bool {
    s.restart_entries <= usize::MAX && s.rle_runs <= usize::MAX && s.dictionary_entries
        <= usize::MAX && s.patch_count <= usize::MAX && s.nullable_nodes <= usize::MAX
}

pub open spec fn counts(features: StructureFeatures, s: Structure) -> bool {
    &&& features.restart_entries == s.restart_entries
    &&& features.rle_runs == s.rle_runs
    &&& features.dictionary_entries == s.dictionary_entries
    &&& features.patch_count == s.patch_count
    &&& features.nullable_nodes == s.nullable_nodes
}

proof fn lemma_structure_grows(nodes: Seq<DecoderNode>, i: int, n: int)
    requires
        0 <= i <= n <= nodes.len(),
        forall|k: int|
            0 <= k < nodes.len() ==> (#[trigger] nodes[k] matches DecoderNode::Delta {
                restart_interval,
                ..
            } ==> restart_interval > 0),
    ensures
        ({
            let a = structure_of(nodes, i);
            let b = structure_of(nodes, n);
            &&& a.restart_entries <= b.restart_entries
            &&& a.rle_runs <= b.rle_runs
            &&& a.dictionary_entries <= b.dictionary_entries
            &&& a.patch_count <= b.patch_count
            &&& a.nullable_nodes <= b.nullable_nodes
        }),
    decreases n - i,
{
    if i < n {
        lemma_structure_grows(nodes, i, n - 1);
        if let DecoderNode::Delta { restart_interval, len, .. } = nodes[n - 1] {
            lemma_ceil(len as int, restart_interval as int);
        }
    }
}

fn divide_up(len: usize, interval: usize) -> (r: usize)
    requires
        interval > 0,
    ensures
        r == ceil_div(len as int, interval as int),
{
    if len == 0 {
        proof {
            vstd::arithmetic::div_mod::lemma_basic_div(interval - 1, interval as int);
        }
        0
    } else {
        proof {
            lemma_ceil_floor(len as int, interval as int);
            vstd::arithmetic::div_mod::lemma_div_is_ordered_by_denominator(
                len - 1,
                1,
                interval as int,
            );
        }
        (len - 1) / interval + 1
    }
}

/// Counts what the nodes of a column's decoder hold.
pub fn structure_features(column: &EncodedColumn) -> (r: StructureFeatures)
    requires
        column.wf(),
        countable(structure_of(column.decoder.arena(), column.decoder.arena().len() as int)),
    ensures
        counts(
            r,
            structure_of(column.decoder.arena(), column.decoder.arena().len() as int),
        ),
{
    let nodes = column.decoder.nodes();
    let ghost all = column.decoder.arena();
    let mut features = StructureFeatures {
        restart_entries: 0,
        rle_runs: 0,
        dictionary_entries: 0,
        patch_count: 0,
        nullable_nodes: 0,
    };
    let mut i: usize = 0;
    proof {
        lemma_arena(all, all.len() as int);
        assert forall|k: int| 0 <= k < all.len() implies (#[trigger] all[k] matches DecoderNode::Delta {
            restart_interval,
            ..
        } ==> restart_interval > 0) by {
            assert(node_error(all, k as usize) is None);
        }
    }
    while i < nodes.len()
        invariant
            i <= nodes@.len(),
            nodes@ == all,
            all.len() <= usize::MAX,
            counts(features, structure_of(all, i as int)),
            countable(structure_of(all, all.len() as int)),
            forall|k: int|
                0 <= k < all.len() ==> (#[trigger] all[k] matches DecoderNode::Delta {
                    restart_interval,
                    ..
                } ==> restart_interval > 0),
        decreases nodes@.len() - i,
    {
        proof {
            lemma_structure_grows(all, i + 1, all.len() as int);
        }
        assert(nodes@[i as int] == all[i as int]);
        match nodes[i] {
            DecoderNode::Delta { restart_interval, len, .. } => {
                features.restart_entries = features.restart_entries + divide_up(
                    len,
                    restart_interval,
                );
            },
            DecoderNode::Rle { runs, .. } => {
                features.rle_runs = features.rle_runs + runs;
            },
            DecoderNode::Dictionary { entries, .. } => {
                features.dictionary_entries = features.dictionary_entries + entries;
            },
            DecoderNode::Patch { count, .. } => {
                features.patch_count = features.patch_count + count;
            },
            DecoderNode::Nullable { .. } => {
                features.nullable_nodes = features.nullable_nodes + 1;
            },
            _ => {},
        }
        i = i + 1;
    }
    features
}

/// The features of an access that was carried out.
pub fn exact_features(
    rows: Span,
    decoded_rows: usize,
    metrics: AccessMetrics,
    structure: StructureFeatures,
) -> (r: CostFeatures)
    requires
        rows.start <= rows.end,
    ensures
        r == (CostFeatures {
            selected_rows: (rows.end - rows.start) as usize,
            decoded_rows,
            delivered_bytes: metrics.delivered_bytes,
            transfer_operations: metrics.transfer_operations,
            frames_decoded: metrics.frames_decoded,
            restart_entries: structure.restart_entries,
            rle_runs: structure.rle_runs,
            dictionary_entries: structure.dictionary_entries,
            patch_count: structure.patch_count,
            nullable_nodes: structure.nullable_nodes,
        }),
{
    CostFeatures {
        selected_rows: rows.end - rows.start,
        decoded_rows,
        delivered_bytes: metrics.delivered_bytes,
        transfer_operations: metrics.transfer_operations,
        frames_decoded: metrics.frames_decoded,
        restart_entries: structure.restart_entries,
        rle_runs: structure.rle_runs,
        dictionary_entries: structure.dictionary_entries,
        patch_count: structure.patch_count,
        nullable_nodes: structure.nullable_nodes,
    }
}

/// One if some are there.
pub open spec fn present_one(count: usize) -> int {
    if count > 0 {
        1
    } else {
        0
    }
}

/// The bytes that an access is expected to deliver: all of the file, or the header
/// and the selected share of the rest.
pub open spec fn expected_bytes(
    selected_rows: int,
    total_rows: int,
    file_bytes: int,
    metadata_bytes: int,
    whole: bool,
) -> int {
    let payload = if file_bytes < metadata_bytes {
        0
    } else {
        file_bytes - metadata_bytes
    };
    let product = if payload * selected_rows > usize::MAX {
        usize::MAX as int
    } else {
        payload * selected_rows
    };
    if whole {
        file_bytes
    } else {
        metadata_bytes + ceil_div(product, total_rows)
    }
}

/// The operations that an access is expected to take: one for the header and one
/// for each part that is stored apart.
pub open spec fn expected_operations(
    layout_frames: int,
    plan: PlanKind,
    structure: StructureFeatures,
) -> int {
    if plan == PlanKind::Fused {
        1
    } else {
        1 + layout_frames + present_one(structure.restart_entries) + present_one(structure.rle_runs)
            + present_one(structure.dictionary_entries) + present_one(structure.patch_count)
            + structure.nullable_nodes
    }
}

/// The features that an access is expected to have, without carrying it out.
pub fn preflight_free_features(
    selected_rows: usize,
    total_rows: usize,
    file_bytes: usize,
    metadata_bytes: usize,
    layout_frames: usize,
    plan: PlanKind,
    structure: StructureFeatures,
) -> (r: CostFeatures)
    requires
        total_rows > 0,
        expected_bytes(
            selected_rows as int,
            total_rows as int,
            file_bytes as int,
            metadata_bytes as int,
            plan == PlanKind::Fused || layout_frames > 0,
        ) <= usize::MAX,
        expected_operations(layout_frames as int, plan, structure) <= usize::MAX,
    ensures
        r == (CostFeatures {
            selected_rows,
            decoded_rows: if plan == PlanKind::Fused {
                total_rows
            } else {
                selected_rows
            },
            delivered_bytes: expected_bytes(
                selected_rows as int,
                total_rows as int,
                file_bytes as int,
                metadata_bytes as int,
                plan == PlanKind::Fused || layout_frames > 0,
            ) as usize,
            transfer_operations: expected_operations(
                layout_frames as int,
                plan,
                structure,
            ) as usize,
            frames_decoded: layout_frames,
            restart_entries: structure.restart_entries,
            rle_runs: structure.rle_runs,
            dictionary_entries: structure.dictionary_entries,
            patch_count: structure.patch_count,
            nullable_nodes: structure.nullable_nodes,
        }),
{
    let fused: bool = plan == PlanKind::Fused;
    let delivered_bytes: usize = if fused || layout_frames > 0 {
        file_bytes
    } else {
        let payload: usize = if file_bytes < metadata_bytes {
            0
        } else {
            file_bytes - metadata_bytes
        };
        let product: usize = match payload.checked_mul(selected_rows) {
            Some(product) => product,
            None => usize::MAX,
        };
        metadata_bytes + divide_up(product, total_rows)
    };
    let transfer_operations: usize = if fused {
        1
    } else {
        let mut operations: usize = 1 + layout_frames;
        if structure.restart_entries > 0 {
            operations = operations + 1;
        }
        if structure.rle_runs > 0 {
            operations = operations + 1;
        }
        if structure.dictionary_entries > 0 {
            operations = operations + 1;
        }
        if structure.patch_count > 0 {
            operations = operations + 1;
        }
        operations + structure.nullable_nodes
    };
    CostFeatures {
        selected_rows,
        decoded_rows: if fused {
            total_rows
        } else {
            selected_rows
        },
        delivered_bytes,
        transfer_operations,
        frames_decoded: layout_frames,
        restart_entries: structure.restart_entries,
        rle_runs: structure.rle_runs,
        dictionary_entries: structure.dictionary_entries,
        patch_count: structure.patch_count,
        nullable_nodes: structure.nullable_nodes,
    }
}

// ----- queries -----

/// A query of so many rows is asked: a power of four up to 256, or some percentage
/// of all rows.
pub open spec fn is_width(width: int) -> bool {
    ||| width == 1
    ||| width == 4
    ||| width == 16
    ||| width == 64
    ||| width == 256
    ||| exists|p: int| (p == 1 || p == 5 || (p % 10 == 0 && 10 <= p <= 100)) && width
        == #[trigger] (ROWS * p / 100)
}

/// The numbers of rows that queries ask about, in ascending order.
pub fn query_widths() -> (r: Vec<usize>)
    ensures
        forall|i: int, j: int| 0 <= i < j < r@.len() ==> #[trigger] r@[i] < #[trigger] r@[j],
        forall|width: usize| #[trigger] r@.contains(width) == is_width(width as int),
{
    let widths: Vec<usize> = vec![
        1,
        4,
        16,
        64,
        163,
        256,
        819,
        1_638,
        3_276,
        4_915,
        6_553,
        8_192,
        9_830,
        11_468,
        13_107,
        14_745,
        16_384,
    ];
    proof {
        let list = widths@;
        assert(ROWS * 1int / 100 == 163 && ROWS * 5int / 100 == 819 && ROWS * 10int / 100 == 1_638
            && ROWS * 20int / 100 == 3_276 && ROWS * 30int / 100 == 4_915 && ROWS * 40int / 100
            == 6_553 && ROWS * 50int / 100 == 8_192 && ROWS * 60int / 100 == 9_830 && ROWS * 70int
            / 100 == 11_468 && ROWS * 80int / 100 == 13_107 && ROWS * 90int / 100 == 14_745 && ROWS
            * 100int / 100 == 16_384);
        assert forall|width: usize| #[trigger] list.contains(width) == is_width(width as int) by {
            assert(list[0] == 1 && list[1] == 4 && list[2] == 16 && list[3] == 64 && list[4] == 163
                && list[5] == 256 && list[6] == 819 && list[7] == 1_638 && list[8] == 3_276
                && list[9] == 4_915 && list[10] == 6_553 && list[11] == 8_192 && list[12] == 9_830
                && list[13] == 11_468 && list[14] == 13_107 && list[15] == 14_745 && list[16]
                == 16_384);
        }
    }
    widths
}

/// The values a quarter and three quarters of the way up.
pub open spec fn quartiles(list: Seq<i64>) -> (i64, i64) {
    (list[list.len() as int / 4], list[list.len() as int * 3 / 4])
}

/// The bounds of the middle half of the values.
pub fn bounds(values: &[Option<i64>]) -> (r: (i64, i64))
    requires
        present(values@).len() > 0,
    ensures
        r == quartiles(in_order(present(values@))),
{
    proof {
        super::order::lemma_ordered(present(values@));
    }
    let list = sorted_present(values);
    let count: usize = list.len();
    let upper: u128 = count as u128 * 3 / 4;
    (list[count / 4], list[upper as usize])
}

/// The cases of the study.
pub fn study_cases() -> (r: Result<Vec<HeldoutCase>, StudyError>)
    ensures
        r matches Ok(cases) && cases@ == heldout_list().take(TOTAL_CASES as int),
{
    let mut rest = heldout_cases();
    rest.truncate(TOTAL_CASES);
    let cases = rest;
    let mut i: usize = 0;
    while i < cases.len()
        invariant
            i <= cases@.len(),
            cases@ == heldout_list().take(TOTAL_CASES as int),
        decreases cases@.len() - i,
    {
        assert(heldout_list()[i as int].id == i);
        if cases[i].id != i {
            return Err(StudyError::CasesNotContiguous);
        }
        i = i + 1;
    }
    if cases.len() != TOTAL_CASES {
        return Err(StudyError::CasesNotContiguous);
    }
    Ok(cases)
}

/// One number that two equal answers have in common.
pub open spec fn checksum_of(reply: Reply) -> int {
    match reply {
        Reply::Value(Some(value)) => value as int,
        Reply::Value(None) => 0,
        Reply::Sum(sum) => sum,
        Reply::Ranges(ranges) => rows_in(ranges, ranges.len() as int),
        Reply::Count(count) => count,
    }
}

/// One number that two equal answers have in common.
pub fn answer_checksum(answer: &Answer) -> (r: i128)
    requires
        answer matches Answer::Ranges(ranges) ==> forall|k: int|
            0 <= k < ranges@.len() ==> (#[trigger] ranges@[k]).start <= ranges@[k].end,
        checksum_of(answer@) <= i128::MAX,
    ensures
        r == checksum_of(answer@),
{
    match answer {
        Answer::Value(Some(value)) => *value as i128,
        Answer::Value(None) => 0,
        Answer::Sum(sum) => *sum,
        Answer::Ranges(ranges) => {
            let mut total: i128 = 0;
            let mut i: usize = 0;
            while i < ranges.len()
                invariant
                    i <= ranges@.len(),
                    total == rows_in(ranges@, i as int),
                    rows_in(ranges@, ranges@.len() as int) <= i128::MAX,
                    forall|k: int|
                        0 <= k < ranges@.len() ==> (#[trigger] ranges@[k]).start <= ranges@[k].end,
                decreases ranges@.len() - i,
            {
                proof {
                    assert(ranges@[i as int].start <= ranges@[i as int].end);
                    super::workload::lemma_rows_in(ranges@, i + 1, ranges@.len() as int);
                    super::workload::lemma_rows_in(ranges@, 0, i as int);
                }
                total = total + (ranges[i].end - ranges[i].start) as i128;
                i = i + 1;
            }
            total
        },
        Answer::Count(count) => *count as i128,
    }
}

} // verus!
