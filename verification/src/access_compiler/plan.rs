//! Queries and the plans that answer them.
use super::access::AccessSet;
use super::error::Error;
use super::ids::{FieldId, NodeId, PlanNodeId};
use super::invariants::{
    AccessInvariant, FactScope, InvariantSet, MappingInvariant, NullPlacement, Property,
    ValueInvariant,
};
#[allow(unused_imports)]
use super::invariants::{states, Fact};
use super::layout::ByteClosure;
use super::span::Span;
use vstd::prelude::*;

verus! {

#[derive(Clone, Copy, Debug, PartialEq, Eq, Structural)]
pub enum Predicate {
    Between { low: i64, high: i64 },
    Equals { value: i64 },
}

#[derive(Clone, Copy, Debug, PartialEq, Eq, Structural)]
pub enum Query {
    Get { row: usize },
    Sum { rows: Span },
    Between { rows: Span, low: i64, high: i64 },
    Filter { predicate: Predicate },
    /// The number of rows that match. A plan exists for `Equals` alone: a count
    /// of a range has no authorized plan of its own and is refused.
    Count { predicate: Predicate },
}

#[derive(Clone, Copy, Debug, PartialEq, Eq, Structural)]
pub struct RowDomain(pub Span);

#[derive(Clone, Copy, Debug, PartialEq, Eq, Structural)]
pub enum OutputGuarantee {
    PhysicalBytes,
    ExactScalar,
    ExactBitmap,
    CandidateBitmap,
    MaterializedValues,
    FallbackRequired,
}

#[derive(Clone, Copy, Debug, PartialEq, Eq, Structural)]
pub enum PlanOp {
    ReadRange { field: FieldId, bytes: Span },
    ReadBlock { field: FieldId, block: usize },
    LoadMetadata { field: FieldId },
    DecodeBlock { field: FieldId, block: usize },
    SeekRestart { field: FieldId, restart: usize },
    SearchMonotone { nulls: NullPlacement },
    SearchPiecewiseMonotone { max_rows: usize },
    ProbeBloom { blocks: usize, hashes: u8 },
    ProbeMinMax { blocks: usize },
    ProbeSparseFence { entries: usize },
    TranslateDictionaryRange { dictionary: FieldId, entries: usize },
    /// A count from the lengths of matching runs, without decoding a repeated
    /// row. Authorized only where the root is run-length encoded.
    CountRuns { run_lengths: FieldId },
    /// A count by decoding and comparing every value, where nothing authorizes
    /// `CountRuns`.
    CountExact,
    RefineCandidates,
    AggregateEncoded,
    MaterializeRows,
    FusedDecodeQuery,
}

#[derive(Clone, Debug, PartialEq, Eq)]
pub enum ClosureSpec {
    Exact(ByteClosure),
    RuntimeRefined { seed: AccessSet, possible_fields: Vec<FieldId>, reason: String },
}

/// The licence of a plan step. A step that only moves or decodes bytes is always
/// legal and cites nothing. A step that skips work which a scan would do names the
/// fact that permits it.
#[derive(Clone, Copy, Debug, PartialEq, Eq, Structural)]
pub enum Authorization {
    Unconditional,
    Fact { node: NodeId, scope: FactScope, property: Property },
}

#[derive(Clone, Debug, PartialEq, Eq)]
pub struct PlanNode {
    pub id: PlanNodeId,
    pub op: PlanOp,
    pub rows: RowDomain,
    pub required_fields: AccessSet,
    pub byte_closure: ClosureSpec,
    pub guarantee: OutputGuarantee,
    pub authorization: Authorization,
}

#[derive(Clone, Debug, PartialEq, Eq)]
pub struct PlanIr {
    pub query: Query,
    pub nodes: Vec<PlanNode>,
    pub output: OutputGuarantee,
    pub fallback_reason: Option<String>,
}

/// The step answers a query while it looks at less than a scan would.
pub open spec fn skips(op: PlanOp) -> bool {
    ||| op is SearchMonotone
    ||| op is SearchPiecewiseMonotone
    ||| op is TranslateDictionaryRange
    ||| op is CountRuns
    ||| op is ProbeSparseFence
}

/// The property entails the step.
pub open spec fn licenses(op: PlanOp, scope: FactScope, property: Property) -> bool {
    match op {
        PlanOp::SearchMonotone { .. } => (scope == FactScope::AllRows || scope
            == FactScope::NonNullRows) && property == Property::Value(
            ValueInvariant::NonDecreasing,
        ),
        PlanOp::ProbeSparseFence { .. } => (scope == FactScope::AllRows || scope
            == FactScope::NonNullRows) && property == Property::Value(
            ValueInvariant::NonDecreasing,
        ),
        PlanOp::SearchPiecewiseMonotone { max_rows } => scope == FactScope::AllRows && property
            == Property::Value(ValueInvariant::PiecewiseNonDecreasing { max_rows }),
        PlanOp::TranslateDictionaryRange { .. } => scope == FactScope::Mapping && property
            == Property::Mapping(MappingInvariant::OrderPreserving),
        PlanOp::CountRuns { .. } => scope == FactScope::Physical && (property matches Property::Access(
            AccessInvariant::RunIndex { .. },
        )),
        _ => false,
    }
}

/// What is wrong with a step's licence, given what is proven.
pub open spec fn licence_fault(
    id: PlanNodeId,
    op: PlanOp,
    authorization: Authorization,
    proven: Set<Fact>,
) -> Option<Error> {
    match authorization {
        Authorization::Unconditional => if skips(op) {
            Some(Error::SkipsWithoutFact(id.0))
        } else {
            None
        },
        Authorization::Fact { node, scope, property } => if !skips(op) {
            Some(Error::UnneededFact(id.0))
        } else if !states(proven, node, scope, property) {
            Some(Error::FactNotProven(id.0))
        } else if !licenses(op, scope, property) {
            Some(Error::FactNotLicensing(id.0))
        } else {
            None
        },
    }
}

/// The first fault in the licences of the first `n` steps.
pub open spec fn licences_fault(nodes: Seq<PlanNode>, proven: Set<Fact>, n: int) -> Option<Error>
    decreases n,
{
    if n <= 0 {
        None
    } else {
        match licences_fault(nodes, proven, n - 1) {
            Some(e) => Some(e),
            None => licence_fault(
                nodes[n - 1].id,
                nodes[n - 1].op,
                nodes[n - 1].authorization,
                proven,
            ),
        }
    }
}

/// The first of the first `n` steps whose number is not its place.
pub open spec fn ids_fault(nodes: Seq<PlanNode>, n: int) -> Option<Error>
    decreases n,
{
    if n <= 0 {
        None
    } else {
        match ids_fault(nodes, n - 1) {
            Some(e) => Some(e),
            None => if nodes[n - 1].id.0 != n - 1 {
                Some(Error::PlanIdNotCanonical((n - 1) as usize))
            } else {
                None
            },
        }
    }
}

pub open spec fn plan_fault(plan: PlanIr) -> Option<Error> {
    if plan.nodes@.len() == 0 {
        Some(Error::PlanEmpty)
    } else if ids_fault(plan.nodes@, plan.nodes@.len() as int) is Some {
        ids_fault(plan.nodes@, plan.nodes@.len() as int)
    } else if plan.output == OutputGuarantee::FallbackRequired && plan.fallback_reason is None {
        Some(Error::FallbackWithoutReason)
    } else {
        None
    }
}

impl PlanOp {
    /// Whether the step answers a query while it looks at less than a scan would.
    /// Such a step needs a licence, and no other step may have one.
    pub fn skips_scan_work(&self) -> (r: bool)
        ensures
            r == skips(*self),
    {
        match self {
            PlanOp::SearchMonotone { .. } => true,
            PlanOp::SearchPiecewiseMonotone { .. } => true,
            PlanOp::TranslateDictionaryRange { .. } => true,
            PlanOp::CountRuns { .. } => true,
            PlanOp::ProbeSparseFence { .. } => true,
            _ => false,
        }
    }

    /// Whether a property entails the step. That a fact is proven is not enough:
    /// order does not license a count of runs, nor a run index a search.
    fn licensed_by(&self, scope: FactScope, property: Property) -> (r: bool)
        ensures
            r == licenses(*self, scope, property),
    {
        match *self {
            PlanOp::SearchMonotone { .. } => (scope == FactScope::AllRows || scope
                == FactScope::NonNullRows) && property == Property::Value(
                ValueInvariant::NonDecreasing,
            ),
            PlanOp::ProbeSparseFence { .. } => (scope == FactScope::AllRows || scope
                == FactScope::NonNullRows) && property == Property::Value(
                ValueInvariant::NonDecreasing,
            ),
            PlanOp::SearchPiecewiseMonotone { max_rows } => scope == FactScope::AllRows && property
                == Property::Value(ValueInvariant::PiecewiseNonDecreasing { max_rows }),
            PlanOp::TranslateDictionaryRange { .. } => scope == FactScope::Mapping && property
                == Property::Mapping(MappingInvariant::OrderPreserving),
            PlanOp::CountRuns { .. } => scope == FactScope::Physical && match property {
                Property::Access(AccessInvariant::RunIndex { .. }) => true,
                _ => false,
            },
            _ => false,
        }
    }
}

impl PlanIr {
    /// Checks the licence of every step against what the column proves. It fails
    /// on a step that skips work without a fact, on one that cites a fact it does
    /// not need, on a fact that is not proven, and on one that does not entail the
    /// step.
    pub fn check_authorization(&self, invariants: &InvariantSet) -> (r: Result<(), Error>)
        ensures
            match licences_fault(self.nodes@, invariants@, self.nodes@.len() as int) {
                None => r == Ok::<(), Error>(()),
                Some(e) => r == Err::<(), Error>(e),
            },
    {
        let mut i: usize = 0;
        while i < self.nodes.len()
            invariant
                i <= self.nodes@.len(),
                licences_fault(self.nodes@, invariants@, i as int) is None,
            decreases self.nodes@.len() - i,
        {
            let node = &self.nodes[i];
            let id: usize = node.id.0;
            let skipping: bool = node.op.skips_scan_work();
            let fault: Option<Error> = match node.authorization {
                Authorization::Unconditional => if skipping {
                    Some(Error::SkipsWithoutFact(id))
                } else {
                    None
                },
                Authorization::Fact { node: fact_node, scope, property } => if !skipping {
                    Some(Error::UnneededFact(id))
                } else if !invariants.contains(fact_node, scope, property) {
                    Some(Error::FactNotProven(id))
                } else if !node.op.licensed_by(scope, property) {
                    Some(Error::FactNotLicensing(id))
                } else {
                    None
                },
            };
            match fault {
                Some(e) => {
                    proof {
                        lemma_licences_stop(
                            self.nodes@,
                            invariants@,
                            i + 1,
                            self.nodes@.len() as int,
                        );
                    }
                    return Err(e);
                },
                None => {},
            }
            i = i + 1;
        }
        Ok(())
    }

    /// Checks that there are steps, that each has its place for a number, and
    /// that a fallback has a reason.
    pub fn validate(&self) -> (r: Result<(), Error>)
        ensures
            match plan_fault(*self) {
                None => r == Ok::<(), Error>(()),
                Some(e) => r == Err::<(), Error>(e),
            },
    {
        if self.nodes.len() == 0 {
            return Err(Error::PlanEmpty);
        }
        let mut i: usize = 0;
        while i < self.nodes.len()
            invariant
                i <= self.nodes@.len(),
                self.nodes@.len() > 0,
                ids_fault(self.nodes@, i as int) is None,
            decreases self.nodes@.len() - i,
        {
            if self.nodes[i].id.0 != i {
                proof {
                    lemma_ids_stop(self.nodes@, i + 1, self.nodes@.len() as int);
                }
                return Err(Error::PlanIdNotCanonical(i));
            }
            i = i + 1;
        }
        if self.output == OutputGuarantee::FallbackRequired && self.fallback_reason.is_none() {
            return Err(Error::FallbackWithoutReason);
        }
        Ok(())
    }
}

proof fn lemma_licences_stop(nodes: Seq<PlanNode>, proven: Set<Fact>, i: int, n: int)
    requires
        i <= n,
        licences_fault(nodes, proven, i) is Some,
    ensures
        licences_fault(nodes, proven, n) == licences_fault(nodes, proven, i),
    decreases n,
{
    if i < n {
        lemma_licences_stop(nodes, proven, i, n - 1);
    }
}

proof fn lemma_ids_stop(nodes: Seq<PlanNode>, i: int, n: int)
    requires
        i <= n,
        ids_fault(nodes, i) is Some,
    ensures
        ids_fault(nodes, n) == ids_fault(nodes, i),
    decreases n,
{
    if i < n {
        lemma_ids_stop(nodes, i, n - 1);
    }
}

/// In a plan that passes the check, every step that skips scan work cites a fact
/// that is proven and entails it, and no other step cites any.
pub proof fn law_authorized(nodes: Seq<PlanNode>, proven: Set<Fact>, i: int)
    requires
        0 <= i < nodes.len(),
        licences_fault(nodes, proven, nodes.len() as int) is None,
    ensures
        match nodes[i].authorization {
            Authorization::Unconditional => !skips(nodes[i].op),
            Authorization::Fact { node, scope, property } => skips(nodes[i].op) && states(
                proven,
                node,
                scope,
                property,
            ) && licenses(nodes[i].op, scope, property),
        },
{
    lemma_authorized(nodes, proven, i, nodes.len() as int);
}

proof fn lemma_authorized(nodes: Seq<PlanNode>, proven: Set<Fact>, i: int, n: int)
    requires
        0 <= i < n,
        licences_fault(nodes, proven, n) is None,
    ensures
        licence_fault(nodes[i].id, nodes[i].op, nodes[i].authorization, proven) is None,
    decreases n,
{
    if i < n - 1 {
        lemma_authorized(nodes, proven, i, n - 1);
    }
}

} // verus!
