//! Facts about a column that follow from its decoder, its layout and its
//! descriptor.
use super::decoder::{DecoderIr, DecoderNode, DeltaCoding};
#[allow(unused_imports)]
use super::decoder::{children_first, child_of, lemma_arena};
use super::error::Error;
use super::ids::NodeId;
use super::layout::LayoutIr;
#[allow(unused_imports)]
use super::layout::{layout_error, FrameLayout};
use vstd::prelude::*;

verus! {

#[derive(Clone, Copy, Debug, PartialEq, Eq, PartialOrd, Ord, Structural)]
pub enum NullPlacement {
    NoNulls,
    First,
    Last,
    Arbitrary,
}

#[derive(Clone, Copy, Debug, PartialEq, Eq, PartialOrd, Ord, Structural)]
pub enum FactScope {
    AllRows,
    NonNullRows,
    Mapping,
    Physical,
}

#[derive(Clone, Copy, Debug, PartialEq, Eq, PartialOrd, Ord)]
pub enum Evidence {
    Structure(&'static str),
    CheckedDescriptor(&'static str),
    Probabilistic(&'static str),
    Layout(&'static str),
}

#[derive(Clone, Copy, Debug, PartialEq, Eq, PartialOrd, Ord, Structural)]
pub enum Assumption {
    CheckedArithmetic,
    PositiveRunLengths,
    SortedUniqueDictionary,
    TrustedDescriptor,
}

#[derive(Clone, Copy, Debug, PartialEq, Eq, PartialOrd, Ord, Structural)]
pub enum ValueInvariant {
    NonDecreasing,
    PiecewiseNonDecreasing { max_rows: usize },
    NullPlacement(NullPlacement),
    UnsignedRange { width: u8 },
}

#[derive(Clone, Copy, Debug, PartialEq, Eq, PartialOrd, Ord, Structural)]
pub enum MappingInvariant {
    OrderPreserving,
    Injective,
    AffineShift,
}

#[derive(Clone, Copy, Debug, PartialEq, Eq, PartialOrd, Ord, Structural)]
pub enum AccessInvariant {
    Miniblock { rows: usize },
    RestartBound { rows: usize },
    RunIndex { max_runs: usize },
    PatchIndex { max_exceptions: usize },
    ValidityRank { max_rows: usize },
    EnclosingFrame { compressed_bytes: usize },
}

#[derive(Clone, Copy, Debug, PartialEq, Eq, PartialOrd, Ord, Structural)]
pub enum Property {
    Value(ValueInvariant),
    Mapping(MappingInvariant),
    Access(AccessInvariant),
}

/// What the page's descriptor states about its values.
#[derive(Clone, Copy, Debug, PartialEq, Eq, Structural)]
pub struct CheckedInvariants {
    pub non_decreasing: bool,
    pub non_decreasing_non_null: bool,
    pub null_placement: NullPlacement,
}

impl Default for CheckedInvariants {
    fn default() -> (r: CheckedInvariants)
        ensures
            r == (CheckedInvariants {
                non_decreasing: false,
                non_decreasing_non_null: false,
                null_placement: NullPlacement::Arbitrary,
            }),
    {
        CheckedInvariants {
            non_decreasing: false,
            non_decreasing_non_null: false,
            null_placement: NullPlacement::Arbitrary,
        }
    }
}

/// A property of one node, where it holds, why, and what it rests on. The
/// assumptions are in order and none occurs twice.
#[derive(Clone, Debug, PartialEq, Eq, PartialOrd, Ord)]
pub struct InvariantFact {
    pub node: NodeId,
    pub scope: FactScope,
    pub property: Property,
    pub evidence: Evidence,
    pub assumptions: Vec<Assumption>,
}

/// Evidence by its words.
pub enum Reason {
    Structure(Seq<char>),
    CheckedDescriptor(Seq<char>),
    Probabilistic(Seq<char>),
    Layout(Seq<char>),
}

/// A fact as a value.
pub struct Fact {
    pub node: NodeId,
    pub scope: FactScope,
    pub property: Property,
    pub evidence: Reason,
    pub assumptions: Seq<Assumption>,
}

impl View for Evidence {
    type V = Reason;

    open spec fn view(&self) -> Reason {
        match *self {
            Evidence::Structure(text) => Reason::Structure(text@),
            Evidence::CheckedDescriptor(text) => Reason::CheckedDescriptor(text@),
            Evidence::Probabilistic(text) => Reason::Probabilistic(text@),
            Evidence::Layout(text) => Reason::Layout(text@),
        }
    }
}

impl View for InvariantFact {
    type V = Fact;

    open spec fn view(&self) -> Fact {
        Fact {
            node: self.node,
            scope: self.scope,
            property: self.property,
            evidence: self.evidence@,
            assumptions: self.assumptions@,
        }
    }
}

// ----- the order of facts -----

pub open spec fn placement_rank(placement: NullPlacement) -> int {
    match placement {
        NullPlacement::NoNulls => 0,
        NullPlacement::First => 1,
        NullPlacement::Last => 2,
        NullPlacement::Arbitrary => 3,
    }
}

pub open spec fn scope_rank(scope: FactScope) -> int {
    match scope {
        FactScope::AllRows => 0,
        FactScope::NonNullRows => 1,
        FactScope::Mapping => 2,
        FactScope::Physical => 3,
    }
}

/// Rank of the variant, and its parameter.
pub open spec fn property_rank(property: Property) -> (int, int) {
    match property {
        Property::Value(ValueInvariant::NonDecreasing) => (0, 0),
        Property::Value(ValueInvariant::PiecewiseNonDecreasing { max_rows }) => (1, max_rows as int),
        Property::Value(ValueInvariant::NullPlacement(placement)) => (2, placement_rank(placement)),
        Property::Value(ValueInvariant::UnsignedRange { width }) => (3, width as int),
        Property::Mapping(MappingInvariant::OrderPreserving) => (4, 0),
        Property::Mapping(MappingInvariant::Injective) => (5, 0),
        Property::Mapping(MappingInvariant::AffineShift) => (6, 0),
        Property::Access(AccessInvariant::Miniblock { rows }) => (7, rows as int),
        Property::Access(AccessInvariant::RestartBound { rows }) => (8, rows as int),
        Property::Access(AccessInvariant::RunIndex { max_runs }) => (9, max_runs as int),
        Property::Access(AccessInvariant::PatchIndex { max_exceptions }) => (
            10,
            max_exceptions as int,
        ),
        Property::Access(AccessInvariant::ValidityRank { max_rows }) => (11, max_rows as int),
        Property::Access(AccessInvariant::EnclosingFrame { compressed_bytes }) => (
            12,
            compressed_bytes as int,
        ),
    }
}

pub open spec fn reason_rank(reason: Reason) -> int {
    match reason {
        Reason::Structure(_) => 0,
        Reason::CheckedDescriptor(_) => 1,
        Reason::Probabilistic(_) => 2,
        Reason::Layout(_) => 3,
    }
}

/// By node, scope, property, kind of evidence.
pub open spec fn fact_before(a: Fact, b: Fact) -> bool {
    let p = property_rank(a.property);
    let q = property_rank(b.property);
    if a.node.0 != b.node.0 {
        a.node.0 < b.node.0
    } else if scope_rank(a.scope) != scope_rank(b.scope) {
        scope_rank(a.scope) < scope_rank(b.scope)
    } else if p.0 != q.0 {
        p.0 < q.0
    } else if p.1 != q.1 {
        p.1 < q.1
    } else {
        reason_rank(a.evidence) < reason_rank(b.evidence)
    }
}

/// Neither comes before the other.
pub open spec fn same_place(a: Fact, b: Fact) -> bool {
    &&& a.node == b.node
    &&& scope_rank(a.scope) == scope_rank(b.scope)
    &&& property_rank(a.property) == property_rank(b.property)
    &&& reason_rank(a.evidence) == reason_rank(b.evidence)
}

fn exec_placement_rank(placement: NullPlacement) -> (r: usize)
    ensures
        r == placement_rank(placement),
{
    match placement {
        NullPlacement::NoNulls => 0,
        NullPlacement::First => 1,
        NullPlacement::Last => 2,
        NullPlacement::Arbitrary => 3,
    }
}

fn exec_scope_rank(scope: FactScope) -> (r: u8)
    ensures
        r == scope_rank(scope),
{
    match scope {
        FactScope::AllRows => 0,
        FactScope::NonNullRows => 1,
        FactScope::Mapping => 2,
        FactScope::Physical => 3,
    }
}

fn exec_property_rank(property: Property) -> (r: (u8, usize))
    ensures
        r.0 == property_rank(property).0,
        r.1 == property_rank(property).1,
{
    match property {
        Property::Value(value) => match value {
            ValueInvariant::NonDecreasing => (0, 0),
            ValueInvariant::PiecewiseNonDecreasing { max_rows } => (1, max_rows),
            ValueInvariant::NullPlacement(placement) => (2, exec_placement_rank(placement)),
            ValueInvariant::UnsignedRange { width } => (3, width as usize),
        },
        Property::Mapping(mapping) => match mapping {
            MappingInvariant::OrderPreserving => (4, 0),
            MappingInvariant::Injective => (5, 0),
            MappingInvariant::AffineShift => (6, 0),
        },
        Property::Access(access) => match access {
            AccessInvariant::Miniblock { rows } => (7, rows),
            AccessInvariant::RestartBound { rows } => (8, rows),
            AccessInvariant::RunIndex { max_runs } => (9, max_runs),
            AccessInvariant::PatchIndex { max_exceptions } => (10, max_exceptions),
            AccessInvariant::ValidityRank { max_rows } => (11, max_rows),
            AccessInvariant::EnclosingFrame { compressed_bytes } => (12, compressed_bytes),
        },
    }
}

fn exec_reason_rank(evidence: &Evidence) -> (r: u8)
    ensures
        r == reason_rank(evidence@),
{
    match evidence {
        Evidence::Structure(_) => 0,
        Evidence::CheckedDescriptor(_) => 1,
        Evidence::Probabilistic(_) => 2,
        Evidence::Layout(_) => 3,
    }
}

fn exec_fact_before(a: &InvariantFact, b: &InvariantFact) -> (r: bool)
    ensures
        r == fact_before(a@, b@),
{
    let a_scope: u8 = exec_scope_rank(a.scope);
    let b_scope: u8 = exec_scope_rank(b.scope);
    let p = exec_property_rank(a.property);
    let q = exec_property_rank(b.property);
    if a.node.0 != b.node.0 {
        a.node.0 < b.node.0
    } else if a_scope != b_scope {
        a_scope < b_scope
    } else if p.0 != q.0 {
        p.0 < q.0
    } else if p.1 != q.1 {
        p.1 < q.1
    } else {
        exec_reason_rank(&a.evidence) < exec_reason_rank(&b.evidence)
    }
}

/// A set of facts, held in order.
#[derive(Clone, Debug, PartialEq, Eq)]
pub struct InvariantSet {
    facts: Vec<InvariantFact>,
}

/// The facts come one after the other.
pub open spec fn facts_ordered(facts: Seq<InvariantFact>) -> bool {
    forall|i: int, j: int|
        0 <= i < j < facts.len() ==> fact_before((#[trigger] facts[i])@, (#[trigger] facts[j])@)
}

pub open spec fn listed(facts: Seq<InvariantFact>, f: Fact) -> bool {
    exists|i: int| 0 <= i < facts.len() && (#[trigger] facts[i])@ == f
}

impl View for InvariantSet {
    type V = Set<Fact>;

    closed spec fn view(&self) -> Set<Fact> {
        Set::new(|f: Fact| listed(self.facts@, f))
    }
}

/// Some fact says that the property holds of the node in the scope.
pub open spec fn states(facts: Set<Fact>, node: NodeId, scope: FactScope, property: Property) -> bool {
    exists|f: Fact| #[trigger]
        facts.contains(f) && f.node == node && f.scope == scope && f.property == property
}

impl Default for InvariantSet {
    fn default() -> (r: InvariantSet)
        ensures
            r.wf(),
            r@ == Set::<Fact>::empty(),
    {
        let r = InvariantSet { facts: Vec::new() };
        assert(r@ =~= Set::<Fact>::empty());
        r
    }
}

impl InvariantSet {
    pub closed spec fn wf(&self) -> bool {
        facts_ordered(self.facts@)
    }

    /// The facts in order.
    pub fn iter(&self) -> (r: &[InvariantFact])
        requires
            self.wf(),
        ensures
            facts_ordered(r@),
            forall|f: Fact| self@.contains(f) == #[trigger] listed(r@, f),
    {
        self.facts.as_slice()
    }

    pub fn contains(&self, node: NodeId, scope: FactScope, property: Property) -> (r: bool)
        ensures
            r == states(self@, node, scope, property),
    {
        let mut i: usize = 0;
        while i < self.facts.len()
            invariant
                i <= self.facts@.len(),
                forall|k: int|
                    0 <= k < i ==> !((#[trigger] self.facts@[k]).node == node && self.facts@[k].scope
                        == scope && self.facts@[k].property == property),
            decreases self.facts@.len() - i,
        {
            let fact = &self.facts[i];
            if fact.node == node && fact.scope == scope && fact.property == property {
                assert(listed(self.facts@, self.facts@[i as int]@));
                assert(self@.contains(self.facts@[i as int]@));
                return true;
            }
            i = i + 1;
        }
        proof {
            if states(self@, node, scope, property) {
                let f = choose|f: Fact| #[trigger]
                    self@.contains(f) && f.node == node && f.scope == scope && f.property == property;
                let k = choose|k: int| 0 <= k < self.facts@.len() && (#[trigger] self.facts@[k])@ == f;
                assert(self.facts@[k].node == node);
            }
        }
        false
    }

    /// Where the nulls lie if the root is known to be non-decreasing apart from
    /// them.
    pub fn root_monotone_nulls(&self, root: NodeId) -> (r: Option<NullPlacement>)
        requires
            self.wf(),
        ensures
            ({
                let monotone = Property::Value(ValueInvariant::NonDecreasing);
                if states(self@, root, FactScope::AllRows, monotone) {
                    r == Some(NullPlacement::NoNulls)
                } else if !states(self@, root, FactScope::NonNullRows, monotone) {
                    r is None
                } else {
                    match r {
                        Some(first) => placement_stated(self@, root, first) && forall|
                            other: NullPlacement,
                        | #[trigger]
                            placement_stated(self@, root, other) ==> placement_rank(first)
                                <= placement_rank(other),
                        None => forall|other: NullPlacement| !#[trigger] placement_stated(self@, root, other),
                    }
                }
            }),
    {
        let monotone = Property::Value(ValueInvariant::NonDecreasing);
        if self.contains(root, FactScope::AllRows, monotone) {
            return Some(NullPlacement::NoNulls);
        }
        if !self.contains(root, FactScope::NonNullRows, monotone) {
            return None;
        }
        let mut i: usize = 0;
        while i < self.facts.len()
            invariant
                self.wf(),
                i <= self.facts@.len(),
                forall|k: int|
                    0 <= k < i ==> !((#[trigger] self.facts@[k]).node == root && self.facts@[k].scope
                        == FactScope::AllRows && (self.facts@[k].property matches Property::Value(
                        ValueInvariant::NullPlacement(_),
                    ))),
                !states(self@, root, FactScope::AllRows, monotone),
                states(self@, root, FactScope::NonNullRows, monotone),
                monotone == Property::Value(ValueInvariant::NonDecreasing),
            decreases self.facts@.len() - i,
        {
            let fact = &self.facts[i];
            if fact.node == root && fact.scope == FactScope::AllRows {
                if let Property::Value(ValueInvariant::NullPlacement(placement)) = fact.property {
                    proof {
                        assert(listed(self.facts@, self.facts@[i as int]@));
                        assert(self@.contains(self.facts@[i as int]@));
                        assert forall|other: NullPlacement| #[trigger]
                            placement_stated(self@, root, other) implies placement_rank(placement)
                            <= placement_rank(other) by {
                            self.lemma_listed(
                                root,
                                FactScope::AllRows,
                                Property::Value(ValueInvariant::NullPlacement(other)),
                            );
                            let k = choose|k: int|
                                0 <= k < self.facts@.len() && (#[trigger] self.facts@[k]).node == root
                                    && self.facts@[k].scope == FactScope::AllRows
                                    && self.facts@[k].property == Property::Value(
                                    ValueInvariant::NullPlacement(other),
                                );
                            if k > i {
                                assert(fact_before(self.facts@[i as int]@, self.facts@[k]@));
                            }
                        }
                    }
                    return Some(placement);
                }
            }
            i = i + 1;
        }
        proof {
            assert forall|other: NullPlacement| !#[trigger] placement_stated(self@, root, other) by {
                if placement_stated(self@, root, other) {
                    self.lemma_listed(
                        root,
                        FactScope::AllRows,
                        Property::Value(ValueInvariant::NullPlacement(other)),
                    );
                }
            }
        }
        None
    }

    proof fn lemma_listed(&self, node: NodeId, scope: FactScope, property: Property)
        requires
            states(self@, node, scope, property),
        ensures
            exists|k: int|
                0 <= k < self.facts@.len() && (#[trigger] self.facts@[k]).node == node
                    && self.facts@[k].scope == scope && self.facts@[k].property == property,
    {
        let f = choose|f: Fact| #[trigger]
            self@.contains(f) && f.node == node && f.scope == scope && f.property == property;
        let k = choose|k: int| 0 <= k < self.facts@.len() && (#[trigger] self.facts@[k])@ == f;
        assert(self.facts@[k].node == node);
    }

    /// The length of the segments in which the root is known not to decrease.
    pub fn root_piecewise_monotone_rows(&self, root: NodeId) -> (r: Option<usize>)
        requires
            self.wf(),
        ensures
            match r {
                Some(rows) => piecewise_stated(self@, root, rows) && forall|other: usize| #[trigger]
                    piecewise_stated(self@, root, other) ==> rows <= other,
                None => forall|other: usize| !#[trigger] piecewise_stated(self@, root, other),
            },
    {
        let mut i: usize = 0;
        while i < self.facts.len()
            invariant
                self.wf(),
                i <= self.facts@.len(),
                forall|k: int|
                    0 <= k < i ==> !((#[trigger] self.facts@[k]).node == root && self.facts@[k].scope
                        == FactScope::AllRows && (self.facts@[k].property matches Property::Value(
                        ValueInvariant::PiecewiseNonDecreasing { .. },
                    ))),
            decreases self.facts@.len() - i,
        {
            let fact = &self.facts[i];
            if fact.node == root && fact.scope == FactScope::AllRows {
                if let Property::Value(ValueInvariant::PiecewiseNonDecreasing { max_rows }) =
                    fact.property {
                    proof {
                        assert(listed(self.facts@, self.facts@[i as int]@));
                        assert(self@.contains(self.facts@[i as int]@));
                        assert forall|other: usize| #[trigger]
                            piecewise_stated(self@, root, other) implies max_rows <= other by {
                            self.lemma_listed(
                                root,
                                FactScope::AllRows,
                                Property::Value(
                                    ValueInvariant::PiecewiseNonDecreasing { max_rows: other },
                                ),
                            );
                            let k = choose|k: int|
                                0 <= k < self.facts@.len() && (#[trigger] self.facts@[k]).node == root
                                    && self.facts@[k].scope == FactScope::AllRows
                                    && self.facts@[k].property == Property::Value(
                                    ValueInvariant::PiecewiseNonDecreasing { max_rows: other },
                                );
                            if k > i {
                                assert(fact_before(self.facts@[i as int]@, self.facts@[k]@));
                            }
                        }
                    }
                    return Some(max_rows);
                }
            }
            i = i + 1;
        }
        proof {
            assert forall|other: usize| !#[trigger] piecewise_stated(self@, root, other) by {
                if piecewise_stated(self@, root, other) {
                    self.lemma_listed(
                        root,
                        FactScope::AllRows,
                        Property::Value(ValueInvariant::PiecewiseNonDecreasing { max_rows: other }),
                    );
                }
            }
        }
        None
    }

    /// Puts a fact in its place, where none was.
    fn insert(
        &mut self,
        node: NodeId,
        scope: FactScope,
        property: Property,
        evidence: Evidence,
        assumption: Option<Assumption>,
    )
        requires
            old(self).wf(),
            forall|f: Fact| #[trigger]
                old(self)@.contains(f) ==> !same_place(
                    f,
                    fact(node, scope, property, evidence@, assumption),
                ),
        ensures
            final(self).wf(),
            final(self)@ == old(self)@.insert(fact(node, scope, property, evidence@, assumption)),
    {
        let mut assumptions: Vec<Assumption> = Vec::new();
        match assumption {
            Some(assumption) => {
                assumptions.push(assumption);
            },
            None => {},
        }
        let new = InvariantFact { node, scope, property, evidence, assumptions };
        let ghost f = fact(node, scope, property, evidence@, assumption);
        assert(new.assumptions@ =~= f.assumptions);
        assert(new@ == f);
        let ghost before = self.facts@;
        let mut at: usize = 0;
        while at < self.facts.len() && exec_fact_before(&self.facts[at], &new)
            invariant
                self.wf(),
                self.facts@ == before,
                at <= before.len(),
                forall|k: int| 0 <= k < at ==> fact_before((#[trigger] before[k])@, new@),
            decreases before.len() - at,
        {
            at = at + 1;
        }
        proof {
            if at < before.len() {
                assert(listed(before, before[at as int]@));
                assert(self@.contains(before[at as int]@));
                assert(fact_before(new@, before[at as int]@));
            }
        }
        self.facts.insert(at, new);
        proof {
            let after = self.facts@;
            assert(after =~= before.insert(at as int, after[at as int]));
            assert(after[at as int]@ == f);
            assert forall|i: int, j: int| 0 <= i < j < after.len() implies fact_before(
                (#[trigger] after[i])@,
                (#[trigger] after[j])@,
            ) by {
                if i < at && j > at {
                    assert(after[i] == before[i] && after[j] == before[j - 1]);
                } else if i < at && j < at {
                    assert(after[i] == before[i] && after[j] == before[j]);
                } else if i > at {
                    assert(after[i] == before[i - 1] && after[j] == before[j - 1]);
                } else if i == at {
                    assert(after[j] == before[j - 1]);
                    if j - 1 > at {
                        assert(fact_before(before[at as int]@, before[j - 1]@));
                    }
                } else {
                    assert(after[i] == before[i]);
                }
            }
            assert forall|g: Fact| self@.contains(g) == old(self)@.insert(f).contains(g) by {
                if listed(after, g) {
                    let k = choose|k: int| 0 <= k < after.len() && (#[trigger] after[k])@ == g;
                    if k != at {
                        let j = if k < at { k } else { k - 1 };
                        assert(before[j] == after[k]);
                    }
                }
                if listed(before, g) {
                    let k = choose|k: int| 0 <= k < before.len() && (#[trigger] before[k])@ == g;
                    let j = if k < at { k } else { k + 1 };
                    assert(after[j] == before[k]);
                }
                assert(listed(after, after[at as int]@));
            }
            assert(self@ =~= old(self)@.insert(f));
        }
    }

    fn has_value(&self, node: NodeId, scope: FactScope, property: ValueInvariant) -> (r: bool)
        ensures
            r == states(self@, node, scope, Property::Value(property)),
    {
        self.contains(node, scope, Property::Value(property))
    }
}

pub open spec fn placement_stated(facts: Set<Fact>, root: NodeId, placement: NullPlacement) -> bool {
    states(
        facts,
        root,
        FactScope::AllRows,
        Property::Value(ValueInvariant::NullPlacement(placement)),
    )
}

pub open spec fn piecewise_stated(facts: Set<Fact>, root: NodeId, rows: usize) -> bool {
    states(
        facts,
        root,
        FactScope::AllRows,
        Property::Value(ValueInvariant::PiecewiseNonDecreasing { max_rows: rows }),
    )
}

pub open spec fn fact(
    node: NodeId,
    scope: FactScope,
    property: Property,
    evidence: Reason,
    assumption: Option<Assumption>,
) -> Fact {
    Fact {
        node,
        scope,
        property,
        evidence,
        assumptions: match assumption {
            Some(assumption) => seq![assumption],
            None => Seq::empty(),
        },
    }
}

// ----- what follows from the decoder -----

/// The node's kind and its children's kinds alone make it non-decreasing: an
/// unsigned delta without restarts over a bit-packed stream, under operators that
/// keep order.
pub open spec fn monotone(nodes: Seq<DecoderNode>, id: int) -> bool
    decreases id,
{
    if id < 0 || id >= nodes.len() {
        false
    } else {
        match nodes[id] {
            DecoderNode::For { values, .. } => values.0 < id && monotone(nodes, values.0 as int),
            DecoderNode::Rle { values, .. } => values.0 < id && monotone(nodes, values.0 as int),
            DecoderNode::Dictionary { ids, sorted_unique, .. } => sorted_unique && ids.0 < id
                && monotone(nodes, ids.0 as int),
            DecoderNode::Delta { deltas, restart_interval, len, coding, .. } => coding
                == DeltaCoding::Unsigned && nodes[deltas.0 as int] is BitUnpack && restart_interval
                >= len,
            _ => false,
        }
    }
}

/// The facts about one node, from its kind and its children.
pub open spec fn structural_facts(nodes: Seq<DecoderNode>, id: int) -> Set<Fact> {
    let node = NodeId(id as usize);
    let arithmetic = Some(Assumption::CheckedArithmetic);
    match nodes[id] {
        DecoderNode::BitUnpack { width, miniblock_rows, .. } => Set::empty().insert(
            fact(
                node,
                FactScope::AllRows,
                Property::Value(ValueInvariant::UnsignedRange { width }),
                Reason::Structure("bit_unpack_unsigned_domain"@),
                None,
            ),
        ).insert(
            fact(
                node,
                FactScope::Physical,
                Property::Access(AccessInvariant::Miniblock { rows: miniblock_rows }),
                Reason::Structure("bit_unpack_miniblock"@),
                None,
            ),
        ),
        DecoderNode::For { values, .. } => Set::empty().insert(
            fact(
                node,
                FactScope::Mapping,
                Property::Mapping(MappingInvariant::OrderPreserving),
                Reason::Structure("for_checked_affine_shift"@),
                arithmetic,
            ),
        ).insert(
            fact(
                node,
                FactScope::Mapping,
                Property::Mapping(MappingInvariant::Injective),
                Reason::Structure("for_checked_affine_shift"@),
                arithmetic,
            ),
        ).insert(
            fact(
                node,
                FactScope::Mapping,
                Property::Mapping(MappingInvariant::AffineShift),
                Reason::Structure("for_checked_affine_shift"@),
                arithmetic,
            ),
        ).union(transferred(nodes, values.0 as int, node, FactScope::AllRows)),
        DecoderNode::Delta { deltas, restart_interval, len, coding, .. } => {
            let bound = Set::empty().insert(
                fact(
                    node,
                    FactScope::Physical,
                    Property::Access(AccessInvariant::RestartBound { rows: restart_interval }),
                    Reason::Structure("delta_restart"@),
                    None,
                ),
            );
            if coding == DeltaCoding::Unsigned && nodes[deltas.0 as int] is BitUnpack {
                bound.insert(
                    fact(
                        node,
                        FactScope::AllRows,
                        Property::Value(
                            if restart_interval >= len {
                                ValueInvariant::NonDecreasing
                            } else {
                                ValueInvariant::PiecewiseNonDecreasing { max_rows: restart_interval }
                            },
                        ),
                        Reason::Structure("unsigned_delta_segments"@),
                        arithmetic,
                    ),
                )
            } else {
                bound
            }
        },
        DecoderNode::Dictionary { ids, sorted_unique, .. } => if sorted_unique {
            Set::empty().insert(
                fact(
                    node,
                    FactScope::Mapping,
                    Property::Mapping(MappingInvariant::OrderPreserving),
                    Reason::Structure("sorted_unique_dictionary"@),
                    Some(Assumption::SortedUniqueDictionary),
                ),
            ).insert(
                fact(
                    node,
                    FactScope::Mapping,
                    Property::Mapping(MappingInvariant::Injective),
                    Reason::Structure("sorted_unique_dictionary"@),
                    Some(Assumption::SortedUniqueDictionary),
                ),
            ).union(transferred(nodes, ids.0 as int, node, FactScope::AllRows))
        } else {
            Set::empty()
        },
        DecoderNode::Rle { values, index_interval, .. } => transferred(
            nodes,
            values.0 as int,
            node,
            FactScope::AllRows,
        ).insert(
            fact(
                node,
                FactScope::Physical,
                Property::Access(AccessInvariant::RunIndex { max_runs: index_interval }),
                Reason::Structure("rle_run_index"@),
                Some(Assumption::PositiveRunLengths),
            ),
        ),
        DecoderNode::Patch { index_interval, .. } => Set::empty().insert(
            fact(
                node,
                FactScope::Physical,
                Property::Access(AccessInvariant::PatchIndex { max_exceptions: index_interval }),
                Reason::Structure("patch_position_index"@),
                None,
            ),
        ),
        DecoderNode::Nullable { values, rank_interval, .. } => transferred(
            nodes,
            values.0 as int,
            node,
            FactScope::NonNullRows,
        ).insert(
            fact(
                node,
                FactScope::Physical,
                Property::Access(AccessInvariant::ValidityRank { max_rows: rank_interval }),
                Reason::Structure("nullable_rank_index"@),
                None,
            ),
        ),
    }
}

/// Monotonicity that a child hands on to its parent.
pub open spec fn transferred(
    nodes: Seq<DecoderNode>,
    child: int,
    parent: NodeId,
    scope: FactScope,
) -> Set<Fact> {
    if monotone(nodes, child) {
        Set::empty().insert(
            fact(
                parent,
                scope,
                Property::Value(ValueInvariant::NonDecreasing),
                Reason::Structure("order_preserving_composition"@),
                Some(Assumption::CheckedArithmetic),
            ),
        )
    } else {
        Set::empty()
    }
}

/// The structural facts about the first `n` nodes.
pub open spec fn arena_facts(nodes: Seq<DecoderNode>, n: int) -> Set<Fact>
    decreases n,
{
    if n <= 0 {
        Set::empty()
    } else {
        arena_facts(nodes, n - 1).union(structural_facts(nodes, n - 1))
    }
}

/// The facts about the root from the descriptor.
pub open spec fn descriptor_facts(root: NodeId, checked: CheckedInvariants) -> Set<Fact> {
    let placement = Set::empty().insert(
        fact(
            root,
            FactScope::AllRows,
            Property::Value(ValueInvariant::NullPlacement(checked.null_placement)),
            Reason::CheckedDescriptor("null_placement"@),
            Some(Assumption::TrustedDescriptor),
        ),
    );
    if checked.non_decreasing {
        placement.insert(
            fact(
                root,
                FactScope::AllRows,
                Property::Value(ValueInvariant::NonDecreasing),
                Reason::CheckedDescriptor("non_decreasing"@),
                Some(Assumption::TrustedDescriptor),
            ),
        )
    } else if checked.non_decreasing_non_null {
        placement.insert(
            fact(
                root,
                FactScope::NonNullRows,
                Property::Value(ValueInvariant::NonDecreasing),
                Reason::CheckedDescriptor("non_decreasing_non_null"@),
                Some(Assumption::TrustedDescriptor),
            ),
        )
    } else {
        placement
    }
}

/// The fact about the root from the first frame.
pub open spec fn frame_facts(root: NodeId, frames: Seq<FrameLayout>) -> Set<Fact> {
    if frames.len() > 0 {
        Set::empty().insert(
            fact(
                root,
                FactScope::Physical,
                Property::Access(
                    AccessInvariant::EnclosingFrame { compressed_bytes: frames[0].compressed_length },
                ),
                Reason::Layout("enclosing_frame"@),
                None,
            ),
        )
    } else {
        Set::empty()
    }
}

/// All facts about a column.
pub open spec fn derived_facts(
    nodes: Seq<DecoderNode>,
    root: NodeId,
    frames: Seq<FrameLayout>,
    checked: CheckedInvariants,
) -> Set<Fact> {
    arena_facts(nodes, nodes.len() as int).union(descriptor_facts(root, checked)).union(
        frame_facts(root, frames),
    )
}

/// Structural facts name the nodes that they are about.
proof fn lemma_arena_nodes(nodes: Seq<DecoderNode>, n: int)
    requires
        0 <= n <= nodes.len() <= usize::MAX,
    ensures
        forall|f: Fact| #[trigger]
            arena_facts(nodes, n).contains(f) ==> f.node.0 < n && f.evidence is Structure,
    decreases n,
{
    if n > 0 {
        lemma_arena_nodes(nodes, n - 1);
        assert forall|f: Fact| #[trigger] structural_facts(nodes, n - 1).contains(f) implies f.node
            == NodeId((n - 1) as usize) && f.evidence is Structure by {
            match nodes[n - 1] {
                DecoderNode::BitUnpack { .. } => {},
                DecoderNode::For { .. } => {},
                DecoderNode::Delta { .. } => {},
                DecoderNode::Dictionary { .. } => {},
                DecoderNode::Rle { .. } => {},
                DecoderNode::Patch { .. } => {},
                DecoderNode::Nullable { .. } => {},
            }
        }
        assert forall|f: Fact| #[trigger] arena_facts(nodes, n).contains(f) implies f.node.0 < n
            && f.evidence is Structure by {
            if !arena_facts(nodes, n - 1).contains(f) {
                assert(structural_facts(nodes, n - 1).contains(f));
            }
        }
    }
}

/// A node has the structural fact that it is non-decreasing exactly if its kind
/// makes it so.
pub proof fn lemma_arena_monotone(nodes: Seq<DecoderNode>, n: int, id: int)
    requires
        0 <= id < n <= nodes.len() <= usize::MAX,
        children_first(nodes, n),
    ensures
        states(
            arena_facts(nodes, n),
            NodeId(id as usize),
            FactScope::AllRows,
            Property::Value(ValueInvariant::NonDecreasing),
        ) == monotone(nodes, id),
    decreases n,
{
    let wanted = Property::Value(ValueInvariant::NonDecreasing);
    let node = NodeId(id as usize);
    lemma_arena_nodes(nodes, n - 1);
    if id < n - 1 {
        lemma_arena_monotone(nodes, n - 1, id);
        if states(arena_facts(nodes, n), node, FactScope::AllRows, wanted) {
            let f = choose|f: Fact| #[trigger]
                arena_facts(nodes, n).contains(f) && f.node == node && f.scope == FactScope::AllRows
                    && f.property == wanted;
            assert(arena_facts(nodes, n - 1).contains(f));
        }
        if monotone(nodes, id) {
            let f = choose|f: Fact| #[trigger]
                arena_facts(nodes, n - 1).contains(f) && f.node == node && f.scope
                    == FactScope::AllRows && f.property == wanted;
            assert(arena_facts(nodes, n).contains(f));
        }
    } else {
        assert(child_of(nodes[id]) matches Some(child) ==> child.0 < id);
        if states(arena_facts(nodes, n), node, FactScope::AllRows, wanted) {
            let f = choose|f: Fact| #[trigger]
                arena_facts(nodes, n).contains(f) && f.node == node && f.scope == FactScope::AllRows
                    && f.property == wanted;
            assert(structural_facts(nodes, id).contains(f));
        }
        if monotone(nodes, id) {
            let f = match nodes[id] {
                DecoderNode::Delta { .. } => fact(
                    node,
                    FactScope::AllRows,
                    wanted,
                    Reason::Structure("unsigned_delta_segments"@),
                    Some(Assumption::CheckedArithmetic),
                ),
                _ => fact(
                    node,
                    FactScope::AllRows,
                    wanted,
                    Reason::Structure("order_preserving_composition"@),
                    Some(Assumption::CheckedArithmetic),
                ),
            };
            assert(structural_facts(nodes, id).contains(f));
            assert(arena_facts(nodes, n).contains(f));
        }
    }
}

/// The unsigned range of a node is known exactly if it is bit-packed.
proof fn lemma_arena_unsigned(nodes: Seq<DecoderNode>, n: int, id: int)
    requires
        0 <= id < n <= nodes.len() <= usize::MAX,
    ensures
        (exists|f: Fact| #[trigger] arena_facts(nodes, n).contains(f) && unsigned_fact(f, NodeId(id as usize)))
            == (nodes[id] is BitUnpack),
    decreases n,
{
    let node = NodeId(id as usize);
    lemma_arena_nodes(nodes, n - 1);
    if id < n - 1 {
        lemma_arena_unsigned(nodes, n - 1, id);
        if exists|f: Fact| #[trigger] arena_facts(nodes, n).contains(f) && unsigned_fact(f, node) {
            let f = choose|f: Fact| #[trigger]
                arena_facts(nodes, n).contains(f) && unsigned_fact(f, node);
            assert(arena_facts(nodes, n - 1).contains(f));
        }
        if nodes[id] is BitUnpack {
            let f = choose|f: Fact| #[trigger]
                arena_facts(nodes, n - 1).contains(f) && unsigned_fact(f, node);
            assert(arena_facts(nodes, n).contains(f));
        }
    } else {
        if exists|f: Fact| #[trigger] arena_facts(nodes, n).contains(f) && unsigned_fact(f, node) {
            let f = choose|f: Fact| #[trigger]
                arena_facts(nodes, n).contains(f) && unsigned_fact(f, node);
            assert(structural_facts(nodes, id).contains(f));
        }
        if let DecoderNode::BitUnpack { width, .. } = nodes[id] {
            let f = fact(
                node,
                FactScope::AllRows,
                Property::Value(ValueInvariant::UnsignedRange { width }),
                Reason::Structure("bit_unpack_unsigned_domain"@),
                None,
            );
            assert(structural_facts(nodes, id).contains(f));
            assert(arena_facts(nodes, n).contains(f));
            assert(unsigned_fact(f, node));
        }
    }
}

spec fn unsigned_fact(f: Fact, node: NodeId) -> bool {
    f.node == node && f.scope == FactScope::AllRows && (f.property matches Property::Value(
        ValueInvariant::UnsignedRange { .. },
    ))
}

/// The facts about a column: what its decoder's shape gives, what its descriptor
/// states, and its first frame.
pub fn derive_invariants(
    decoder: &DecoderIr,
    layout: &LayoutIr,
    checked: CheckedInvariants,
) -> (r: Result<InvariantSet, Error>)
    requires
        decoder.wf(),
    ensures
        match r {
            Ok(set) => layout_error(layout@) is None && set.wf() && set@ == derived_facts(
                decoder.arena(),
                decoder.top(),
                layout.frames@,
                checked,
            ),
            Err(e) => layout_error(layout@) == Some(e),
        },
{
    match decoder.len() {
        Ok(_) => {},
        Err(e) => {
            return Err(e);
        },
    }
    match layout.validate() {
        Ok(()) => {},
        Err(e) => {
            return Err(e);
        },
    }
    let mut output = InvariantSet::default();
    let nodes = decoder.nodes();
    proof {
        lemma_arena(nodes@, nodes@.len() as int);
    }
    let mut index: usize = 0;
    while index < nodes.len()
        invariant
            index <= nodes@.len() <= usize::MAX,
            children_first(nodes@, nodes@.len() as int),
            output.wf(),
            output@ == arena_facts(nodes@, index as int),
        decreases nodes@.len() - index,
    {
        derive_node(index, nodes, &mut output);
        index = index + 1;
    }
    proof {
        lemma_arena_nodes(nodes@, nodes@.len() as int);
    }
    add_descriptor(decoder.root(), checked, &mut output);
    add_frame(decoder.root(), layout, &mut output);
    Ok(output)
}

/// Adds what the descriptor states about the root.
fn add_descriptor(root: NodeId, checked: CheckedInvariants, output: &mut InvariantSet)
    requires
        old(output).wf(),
        forall|f: Fact| #[trigger] old(output)@.contains(f) ==> f.evidence is Structure,
    ensures
        final(output).wf(),
        final(output)@ == old(output)@.union(descriptor_facts(root, checked)),
{
    output.insert(
        root,
        FactScope::AllRows,
        Property::Value(ValueInvariant::NullPlacement(checked.null_placement)),
        Evidence::CheckedDescriptor("null_placement"),
        Some(Assumption::TrustedDescriptor),
    );
    if checked.non_decreasing {
        output.insert(
            root,
            FactScope::AllRows,
            Property::Value(ValueInvariant::NonDecreasing),
            Evidence::CheckedDescriptor("non_decreasing"),
            Some(Assumption::TrustedDescriptor),
        );
    } else if checked.non_decreasing_non_null {
        output.insert(
            root,
            FactScope::NonNullRows,
            Property::Value(ValueInvariant::NonDecreasing),
            Evidence::CheckedDescriptor("non_decreasing_non_null"),
            Some(Assumption::TrustedDescriptor),
        );
    }
    assert(output@ =~= old(output)@.union(descriptor_facts(root, checked)));
}

/// Adds the size of the first frame, if there is one.
fn add_frame(root: NodeId, layout: &LayoutIr, output: &mut InvariantSet)
    requires
        old(output).wf(),
        forall|f: Fact| #[trigger] old(output)@.contains(f) ==> !(f.evidence is Layout),
    ensures
        final(output).wf(),
        final(output)@ == old(output)@.union(frame_facts(root, layout.frames@)),
{
    if layout.frames.len() > 0 {
        output.insert(
            root,
            FactScope::Physical,
            Property::Access(
                AccessInvariant::EnclosingFrame {
                    compressed_bytes: layout.frames[0].compressed_length,
                },
            ),
            Evidence::Layout("enclosing_frame"),
            None,
        );
    }
    assert(output@ =~= old(output)@.union(frame_facts(root, layout.frames@)));
}

/// Adds the structural facts about one node to those about the nodes before it.
fn derive_node(id: usize, nodes: &[DecoderNode], output: &mut InvariantSet)
    requires
        id < nodes@.len() <= usize::MAX,
        children_first(nodes@, nodes@.len() as int),
        old(output).wf(),
        old(output)@ == arena_facts(nodes@, id as int),
    ensures
        final(output).wf(),
        final(output)@ == arena_facts(nodes@, id + 1),
{
    let node_id = NodeId(id);
    proof {
        lemma_arena_nodes(nodes@, id as int);
        assert(child_of(nodes@[id as int]) matches Some(child) ==> child.0 < id);
    }
    match nodes[id] {
        DecoderNode::BitUnpack { width, miniblock_rows, .. } => {
            output.insert(
                node_id,
                FactScope::AllRows,
                Property::Value(ValueInvariant::UnsignedRange { width }),
                Evidence::Structure("bit_unpack_unsigned_domain"),
                None,
            );
            output.insert(
                node_id,
                FactScope::Physical,
                Property::Access(AccessInvariant::Miniblock { rows: miniblock_rows }),
                Evidence::Structure("bit_unpack_miniblock"),
                None,
            );
        },
        DecoderNode::For { values, .. } => {
            let handed: bool = output.has_value(
                values,
                FactScope::AllRows,
                ValueInvariant::NonDecreasing,
            );
            proof {
                lemma_arena_monotone(nodes@, id as int, values.0 as int);
            }
            output.insert(
                node_id,
                FactScope::Mapping,
                Property::Mapping(MappingInvariant::OrderPreserving),
                Evidence::Structure("for_checked_affine_shift"),
                Some(Assumption::CheckedArithmetic),
            );
            output.insert(
                node_id,
                FactScope::Mapping,
                Property::Mapping(MappingInvariant::Injective),
                Evidence::Structure("for_checked_affine_shift"),
                Some(Assumption::CheckedArithmetic),
            );
            output.insert(
                node_id,
                FactScope::Mapping,
                Property::Mapping(MappingInvariant::AffineShift),
                Evidence::Structure("for_checked_affine_shift"),
                Some(Assumption::CheckedArithmetic),
            );
            transfer_monotone(handed, node_id, FactScope::AllRows, output);
        },
        DecoderNode::Delta { deltas, coding, restart_interval, len, .. } => {
            let unsigned: bool = unsigned_width(output, deltas).is_some();
            proof {
                lemma_arena_unsigned(nodes@, id as int, deltas.0 as int);
            }
            output.insert(
                node_id,
                FactScope::Physical,
                Property::Access(AccessInvariant::RestartBound { rows: restart_interval }),
                Evidence::Structure("delta_restart"),
                None,
            );
            if coding == DeltaCoding::Unsigned && unsigned {
                let property = if restart_interval >= len {
                    ValueInvariant::NonDecreasing
                } else {
                    ValueInvariant::PiecewiseNonDecreasing { max_rows: restart_interval }
                };
                output.insert(
                    node_id,
                    FactScope::AllRows,
                    Property::Value(property),
                    Evidence::Structure("unsigned_delta_segments"),
                    Some(Assumption::CheckedArithmetic),
                );
            }
        },
        DecoderNode::Dictionary { ids, sorted_unique, .. } => {
            if sorted_unique {
                let handed: bool = output.has_value(
                    ids,
                    FactScope::AllRows,
                    ValueInvariant::NonDecreasing,
                );
                proof {
                    lemma_arena_monotone(nodes@, id as int, ids.0 as int);
                }
                output.insert(
                    node_id,
                    FactScope::Mapping,
                    Property::Mapping(MappingInvariant::OrderPreserving),
                    Evidence::Structure("sorted_unique_dictionary"),
                    Some(Assumption::SortedUniqueDictionary),
                );
                output.insert(
                    node_id,
                    FactScope::Mapping,
                    Property::Mapping(MappingInvariant::Injective),
                    Evidence::Structure("sorted_unique_dictionary"),
                    Some(Assumption::SortedUniqueDictionary),
                );
                transfer_monotone(handed, node_id, FactScope::AllRows, output);
            }
        },
        DecoderNode::Rle { values, index_interval, .. } => {
            let handed: bool = output.has_value(
                values,
                FactScope::AllRows,
                ValueInvariant::NonDecreasing,
            );
            proof {
                lemma_arena_monotone(nodes@, id as int, values.0 as int);
            }
            transfer_monotone(handed, node_id, FactScope::AllRows, output);
            output.insert(
                node_id,
                FactScope::Physical,
                Property::Access(AccessInvariant::RunIndex { max_runs: index_interval }),
                Evidence::Structure("rle_run_index"),
                Some(Assumption::PositiveRunLengths),
            );
        },
        DecoderNode::Patch { index_interval, .. } => {
            output.insert(
                node_id,
                FactScope::Physical,
                Property::Access(AccessInvariant::PatchIndex { max_exceptions: index_interval }),
                Evidence::Structure("patch_position_index"),
                None,
            );
        },
        DecoderNode::Nullable { values, rank_interval, .. } => {
            let handed: bool = output.has_value(
                values,
                FactScope::AllRows,
                ValueInvariant::NonDecreasing,
            );
            proof {
                lemma_arena_monotone(nodes@, id as int, values.0 as int);
            }
            transfer_monotone(handed, node_id, FactScope::NonNullRows, output);
            output.insert(
                node_id,
                FactScope::Physical,
                Property::Access(AccessInvariant::ValidityRank { max_rows: rank_interval }),
                Evidence::Structure("nullable_rank_index"),
                None,
            );
        },
    }
    assert(output@ =~= arena_facts(nodes@, id + 1));
}

/// Hands monotonicity on to the parent where the child has it.
fn transfer_monotone(
    handed: bool,
    parent: NodeId,
    scope: FactScope,
    output: &mut InvariantSet,
)
    requires
        old(output).wf(),
        forall|f: Fact| #[trigger]
            old(output)@.contains(f) ==> f.node != parent || f.scope != scope,
    ensures
        final(output).wf(),
        final(output)@ == if handed {
            old(output)@.insert(
                fact(
                    parent,
                    scope,
                    Property::Value(ValueInvariant::NonDecreasing),
                    Reason::Structure("order_preserving_composition"@),
                    Some(Assumption::CheckedArithmetic),
                ),
            )
        } else {
            old(output)@
        },
{
    if handed {
        output.insert(
            parent,
            scope,
            Property::Value(ValueInvariant::NonDecreasing),
            Evidence::Structure("order_preserving_composition"),
            Some(Assumption::CheckedArithmetic),
        );
    }
}

/// The width of a node's unsigned range, where one is known.
fn unsigned_width(output: &InvariantSet, node: NodeId) -> (r: Option<u8>)
    requires
        output.wf(),
    ensures
        r is Some == exists|f: Fact| #[trigger] output@.contains(f) && unsigned_fact(f, node),
{
    let facts = output.iter();
    let mut i: usize = 0;
    while i < facts.len()
        invariant
            i <= facts@.len(),
            forall|f: Fact| output@.contains(f) == #[trigger] listed(facts@, f),
            forall|k: int| 0 <= k < i ==> !unsigned_fact((#[trigger] facts@[k])@, node),
        decreases facts@.len() - i,
    {
        let fact = &facts[i];
        if fact.node == node && fact.scope == FactScope::AllRows {
            if let Property::Value(ValueInvariant::UnsignedRange { width }) = fact.property {
                assert(listed(facts@, facts@[i as int]@));
                assert(unsigned_fact(facts@[i as int]@, node));
                return Some(width);
            }
        }
        i = i + 1;
    }
    proof {
        if exists|f: Fact| #[trigger] output@.contains(f) && unsigned_fact(f, node) {
            let f = choose|f: Fact| #[trigger] output@.contains(f) && unsigned_fact(f, node);
            assert(listed(facts@, f));
            let k = choose|k: int| 0 <= k < facts@.len() && (#[trigger] facts@[k])@ == f;
            assert(unsigned_fact(facts@[k]@, node));
        }
    }
    None
}

} // verus!
