//! How facts follow from one another, how they are listed, and how few rows a search decodes.
#[allow(unused_imports)]
use super::decoder::{children_first, DecoderNode, DeltaCoding};
#[allow(unused_imports)]
use super::error::Error;
#[allow(unused_imports)]
use super::filters::cut_outcome;
#[allow(unused_imports)]
use super::ids::NodeId;
#[allow(unused_imports)]
use super::invariants::{
    fact, fact_before, monotone, same_place, states, structural_facts, transferred, Assumption,
    Fact, FactScope, NullPlacement, Property, Reason, ValueInvariant,
};
#[allow(unused_imports)]
use super::runtime::Context;
use vstd::arithmetic::power2::pow2;
use vstd::prelude::*;

verus! {

// ----- facts -----

/// Facts are listed in an order: none comes before itself, of two that stand in different
/// places one comes first, and what comes before the one before another comes before that.
pub proof fn law_facts_have_an_order(a: Fact, b: Fact, c: Fact)
    ensures
        !fact_before(a, a),
        !same_place(a, b) ==> (fact_before(a, b) <==> !fact_before(b, a)),
        same_place(a, b) ==> !fact_before(a, b),
        fact_before(a, b) && fact_before(b, c) ==> fact_before(a, c),
        a.node.0 < b.node.0 ==> fact_before(a, b),
{
}

/// Facts of one node about different properties, or in different scopes, stand in different
/// places.
pub proof fn law_facts_stand_apart(a: Fact, b: Fact)
    requires
        same_place(a, b),
    ensures
        a.node == b.node,
        a.scope == b.scope,
        a.property == b.property,
{
}

/// The property of values that never fall.
pub open spec fn never_falls() -> Property {
    Property::Value(ValueInvariant::NonDecreasing)
}

/// The fact that a node has from its child.
spec fn handed(node: NodeId, scope: FactScope) -> Fact {
    fact(
        node,
        scope,
        never_falls(),
        Reason::Structure("order_preserving_composition"@),
        Some(Assumption::CheckedArithmetic),
    )
}

/// The fact that a node has from differences without a sign.
spec fn unsigned(node: NodeId, property: Property) -> Fact {
    fact(
        node,
        FactScope::AllRows,
        property,
        Reason::Structure("unsigned_delta_segments"@),
        Some(Assumption::CheckedArithmetic),
    )
}

proof fn lemma_monotone_stated(nodes: Seq<DecoderNode>, id: int)
    requires
        0 <= id < nodes.len() <= usize::MAX,
        children_first(nodes, nodes.len() as int),
    ensures
        states(structural_facts(nodes, id), NodeId(id as usize), FactScope::AllRows, never_falls())
            <==> monotone(nodes, id),
{
    let all = structural_facts(nodes, id);
    let node = NodeId(id as usize);
    if monotone(nodes, id) {
        let f = if nodes[id] is Delta {
            unsigned(node, never_falls())
        } else {
            handed(node, FactScope::AllRows)
        };
        assert(all.contains(f));
    }
    if states(all, node, FactScope::AllRows, never_falls()) {
        let f = choose|f: Fact| #[trigger]
            all.contains(f) && f.node == node && f.scope == FactScope::AllRows && f.property
                == never_falls();
        match nodes[id] {
            DecoderNode::BitUnpack { .. } => {},
            DecoderNode::For { values, .. } => {
                assert(transferred(nodes, values.0 as int, node, FactScope::AllRows).contains(f));
            },
            DecoderNode::Delta { .. } => {},
            DecoderNode::Dictionary { ids, .. } => {
                assert(transferred(nodes, ids.0 as int, node, FactScope::AllRows).contains(f));
            },
            DecoderNode::Rle { values, .. } => {
                assert(transferred(nodes, values.0 as int, node, FactScope::AllRows).contains(f));
            },
            DecoderNode::Patch { .. } => {},
            DecoderNode::Nullable { .. } => {},
        }
    }
}

/// The values of a node never fall where those of its child do not and it shifts, repeats or
/// looks them up in order; with nulls between them this holds of the rows that are none.
pub proof fn law_order_is_handed_on(nodes: Seq<DecoderNode>, id: int, child: NodeId)
    requires
        0 <= id < nodes.len() <= usize::MAX,
        children_first(nodes, nodes.len() as int),
        super::decoder::child_of(nodes[id]) == Some(child),
        states(
            structural_facts(nodes, child.0 as int),
            child,
            FactScope::AllRows,
            never_falls(),
        ),
    ensures
        nodes[id] is For || nodes[id] is Rle || (nodes[id] matches DecoderNode::Dictionary {
            sorted_unique,
            ..
        } && sorted_unique) ==> states(
            structural_facts(nodes, id),
            NodeId(id as usize),
            FactScope::AllRows,
            never_falls(),
        ),
        nodes[id] is Nullable ==> states(
            structural_facts(nodes, id),
            NodeId(id as usize),
            FactScope::NonNullRows,
            never_falls(),
        ),
{
    assert(nodes[id] == nodes[id]);
    assert(NodeId(child.0 as int as usize) == child);
    lemma_monotone_stated(nodes, child.0 as int);
    lemma_monotone_stated(nodes, id);
    if nodes[id] is Nullable {
        assert(structural_facts(nodes, id).contains(
            handed(NodeId(id as usize), FactScope::NonNullRows),
        ));
    }
}

/// Differences that are packed without a sign never let the values fall: over all rows with
/// one restart, and between the restarts with more.
pub proof fn law_unsigned_differences_never_fall(nodes: Seq<DecoderNode>, id: int)
    requires
        0 <= id < nodes.len() <= usize::MAX,
        nodes[id] matches DecoderNode::Delta { deltas, coding, .. } && coding
            == DeltaCoding::Unsigned && nodes[deltas.0 as int] is BitUnpack,
    ensures
        nodes[id] matches DecoderNode::Delta { restart_interval, len, .. } && states(
            structural_facts(nodes, id),
            NodeId(id as usize),
            FactScope::AllRows,
            if len <= restart_interval {
                never_falls()
            } else {
                Property::Value(
                    ValueInvariant::PiecewiseNonDecreasing { max_rows: restart_interval },
                )
            },
        ),
{
    if let DecoderNode::Delta { restart_interval, len, .. } = nodes[id] {
        let one = unsigned(
            NodeId(id as usize),
            if len <= restart_interval {
                never_falls()
            } else {
                Property::Value(
                    ValueInvariant::PiecewiseNonDecreasing { max_rows: restart_interval },
                )
            },
        );
        assert(structural_facts(nodes, id).contains(one));
    }
}

// ----- searches -----

/// What a search for a boundary finds.
#[verifier::opaque]
spec fn cut_found(
    context: Context,
    nodes: Seq<DecoderNode>,
    id: int,
    left: int,
    right: int,
    bound: int,
    inclusive: bool,
    nulls: NullPlacement,
    decoded: int,
) -> Result<(int, int), Error> {
    cut_outcome(context, nodes, id, left, right, bound, inclusive, nulls, decoded).result
}

/// A search ends where no rows are left, and else goes on in one half or the other.
proof fn lemma_cut_step(
    context: Context,
    nodes: Seq<DecoderNode>,
    id: int,
    left: int,
    right: int,
    bound: int,
    inclusive: bool,
    nulls: NullPlacement,
    decoded: int,
)
    requires
        cut_found(context, nodes, id, left, right, bound, inclusive, nulls, decoded) is Ok,
    ensures
        ({
            let mid = left + (right - left) / 2;
            let all = cut_found(
                context,
                nodes,
                id,
                left,
                right,
                bound,
                inclusive,
                nulls,
                decoded,
            );
            let upper = cut_found(
                context,
                nodes,
                id,
                mid + 1,
                right,
                bound,
                inclusive,
                nulls,
                decoded + 1,
            );
            let lower = cut_found(
                context,
                nodes,
                id,
                left,
                mid,
                bound,
                inclusive,
                nulls,
                decoded + 1,
            );
            if left >= right {
                all == Ok::<(int, int), Error>((left, decoded))
            } else {
                all == upper || all == lower
            }
        }),
{
    reveal(cut_found);
}

proof fn lemma_few_rows(
    context: Context,
    nodes: Seq<DecoderNode>,
    id: int,
    left: int,
    right: int,
    bound: int,
    inclusive: bool,
    nulls: NullPlacement,
    decoded: int,
    k: nat,
)
    requires
        left <= right,
        right - left < pow2(k),
        cut_found(context, nodes, id, left, right, bound, inclusive, nulls, decoded) is Ok,
    ensures
        ({
            let (at, after) = cut_found(
                context,
                nodes,
                id,
                left,
                right,
                bound,
                inclusive,
                nulls,
                decoded,
            )->Ok_0;
            &&& left <= at <= right
            &&& decoded <= after <= decoded + k
            &&& right - left + 2 <= pow2((after - decoded + 1) as nat)
        }),
    decreases k,
{
    vstd::arithmetic::power2::lemma2_to64();
    lemma_cut_step(context, nodes, id, left, right, bound, inclusive, nulls, decoded);
    if left < right {
        vstd::arithmetic::power2::lemma_pow2_unfold(k);
        let mid = left + (right - left) / 2;
        let all = cut_found(context, nodes, id, left, right, bound, inclusive, nulls, decoded);
        let upper = cut_found(
            context,
            nodes,
            id,
            mid + 1,
            right,
            bound,
            inclusive,
            nulls,
            decoded + 1,
        );
        let (from, to) = if all == upper {
            (mid + 1, right)
        } else {
            (left, mid)
        };
        lemma_few_rows(
            context,
            nodes,
            id,
            from,
            to,
            bound,
            inclusive,
            nulls,
            decoded + 1,
            (k - 1) as nat,
        );
        let after = (all->Ok_0).1;
        vstd::arithmetic::power2::lemma_pow2_unfold((after - decoded + 1) as nat);
    }
}

/// A search for a boundary among rows decodes as many of them as halving leaves to decode: no
/// more than the bits of their number, and no fewer than one less.
pub proof fn law_searches_decode_few_rows(
    context: Context,
    nodes: Seq<DecoderNode>,
    id: int,
    left: int,
    right: int,
    bound: int,
    inclusive: bool,
    nulls: NullPlacement,
    decoded: int,
    k: nat,
)
    requires
        left <= right,
        right - left < pow2(k),
        cut_outcome(context, nodes, id, left, right, bound, inclusive, nulls, decoded).result is Ok,
    ensures
        ({
            let (at, after) = cut_outcome(
                context,
                nodes,
                id,
                left,
                right,
                bound,
                inclusive,
                nulls,
                decoded,
            ).result->Ok_0;
            &&& left <= at <= right
            &&& decoded <= after <= decoded + k
            &&& right - left + 2 <= pow2((after - decoded + 1) as nat)
        }),
{
    reveal(cut_found);
    lemma_few_rows(context, nodes, id, left, right, bound, inclusive, nulls, decoded, k);
}

} // verus!
