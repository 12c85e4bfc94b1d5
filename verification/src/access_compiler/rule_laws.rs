//! What fingerprints tell apart, what a licence is, and what the columns of the study hold.
#[allow(unused_imports)]
use super::error::Error;
#[allow(unused_imports)]
use super::fingerprint::{all_bytes, fingerprint_of, law_fingerprint_in_parts, EMPTY_FINGERPRINT};
#[allow(unused_imports)]
use super::heldout::{case_patches, case_value, profile_value, DataProfile, HeldoutCase};
#[allow(unused_imports)]
use super::invariants::{
    states, AccessInvariant, Fact, FactScope, MappingInvariant, Property, ValueInvariant,
};
#[allow(unused_imports)]
use super::plan::{
    ids_fault, licence_fault, licences_fault, plan_fault, Authorization, OutputGuarantee, PlanIr,
    PlanNode, PlanOp,
};
use vstd::prelude::*;

verus! {

// ----- fingerprints -----

/// A number times the fingerprint's factor, times what undoes it, is the number.
proof fn lemma_factor_undone(x: u64)
    ensures
        x.wrapping_mul(0x1000_0000_01b3).wrapping_mul(0xb46d_d957_aff6_957b) == x,
{
    let m: int = 0x1000_0000_01b3;
    let w: int = 0xb46d_d957_aff6_957b;
    let n: int = 0x1_0000_0000_0000_0000;
    let p = x.wrapping_mul(0x1000_0000_01b3) as int;
    assert(p == x * m % n);
    vstd::arithmetic::div_mod::lemma_mul_mod_noop_left(x * m, w, n);
    vstd::arithmetic::mul::lemma_mul_is_associative(x as int, m, w);
    assert(m * w == n * (m * w / n) + 1);
    let k = m * w / n;
    vstd::arithmetic::mul::lemma_mul_is_distributive_add(x as int, n * k, 1);
    vstd::arithmetic::mul::lemma_mul_is_associative(x as int, n, k);
    vstd::arithmetic::mul::lemma_mul_is_commutative(x as int, n);
    vstd::arithmetic::mul::lemma_mul_is_associative(n, x as int, k);
    vstd::arithmetic::div_mod::lemma_mod_multiples_vanish(x * k, x as int, n);
    vstd::arithmetic::div_mod::lemma_small_mod(x as nat, n as nat);
}

/// The same bytes after different fingerprints keep them different.
pub proof fn law_fingerprints_stay_apart(a: u64, b: u64, bytes: Seq<u8>)
    requires
        a != b,
    ensures
        fingerprint_of(a, bytes) != fingerprint_of(b, bytes),
    decreases bytes.len(),
{
    if bytes.len() > 0 {
        law_fingerprints_stay_apart(a, b, bytes.drop_last());
        let p = fingerprint_of(a, bytes.drop_last());
        let q = fingerprint_of(b, bytes.drop_last());
        let c = bytes.last() as u64;
        assert(p ^ c != q ^ c) by (bit_vector)
            requires
                p != q,
        ;
        lemma_factor_undone(p ^ c);
        lemma_factor_undone(q ^ c);
    }
}

/// Two texts that differ in one byte have different fingerprints.
pub proof fn law_fingerprints_tell_one_byte_apart(
    before: u64,
    first: Seq<u8>,
    a: u8,
    b: u8,
    last: Seq<u8>,
)
    requires
        a != b,
    ensures
        fingerprint_of(before, first.push(a) + last) != fingerprint_of(
            before,
            first.push(b) + last,
        ),
{
    let p = fingerprint_of(before, first);
    let (c, d) = (a as u64, b as u64);
    assert(first.push(a).drop_last() =~= first);
    assert(first.push(b).drop_last() =~= first);
    assert(p ^ c != p ^ d) by (bit_vector)
        requires
            c != d,
    ;
    lemma_factor_undone(p ^ c);
    lemma_factor_undone(p ^ d);
    law_fingerprint_in_parts(before, first.push(a), last);
    law_fingerprint_in_parts(before, first.push(b), last);
    law_fingerprints_stay_apart(
        fingerprint_of(before, first.push(a)),
        fingerprint_of(before, first.push(b)),
        last,
    );
}

/// The fingerprints of nothing, and of one letter.
pub proof fn law_fingerprints_start_where_they_are_known_to()
    ensures
        fingerprint_of(EMPTY_FINGERPRINT, Seq::empty()) == 0xcbf2_9ce4_8422_2325,
        fingerprint_of(EMPTY_FINGERPRINT, seq![0x61u8]) == 0xaf74_d84c_8601_ec8c,
{
    reveal_with_fuel(fingerprint_of, 2);
    assert(seq![0x61u8].drop_last() =~= Seq::empty());
    assert(0xcbf2_9ce4_8422_2325u64 ^ 0x61u64 == 0xcbf2_9ce4_8422_2344u64) by (bit_vector);
    assert(0xcbf2_9ce4_8422_2344u64.wrapping_mul(0x1000_0000_01b3) == 0xaf74_d84c_8601_ec8cu64);
}

/// The fingerprint of rules is that of their bytes, however they are parted.
pub proof fn law_rules_are_fingerprinted_as_one(texts: Seq<&[u8]>, n: int)
    requires
        0 < n <= texts.len(),
    ensures
        fingerprint_of(EMPTY_FINGERPRINT, all_bytes(texts, n)) == fingerprint_of(
            fingerprint_of(EMPTY_FINGERPRINT, all_bytes(texts, n - 1)),
            texts[n - 1]@,
        ),
{
    law_fingerprint_in_parts(EMPTY_FINGERPRINT, all_bytes(texts, n - 1), texts[n - 1]@);
}

// ----- licences -----

/// Whether a step has the licence that it needs: one that leaves work out has a fact that is
/// proved and says so much; any other has none.
pub open spec fn is_licensed(node: PlanNode, proven: Set<Fact>) -> bool {
    match node.op {
        PlanOp::SearchMonotone { .. } | PlanOp::ProbeSparseFence { .. } => {
            &&& node.authorization matches Authorization::Fact { node, scope, property }
            &&& states(proven, node, scope, property)
            &&& scope != FactScope::Physical && scope != FactScope::Mapping
            &&& property == Property::Value(ValueInvariant::NonDecreasing)
        },
        PlanOp::SearchPiecewiseMonotone { max_rows } => {
            &&& node.authorization matches Authorization::Fact { node, scope, property }
            &&& states(proven, node, scope, property)
            &&& scope == FactScope::AllRows
            &&& property == Property::Value(ValueInvariant::PiecewiseNonDecreasing { max_rows })
        },
        PlanOp::TranslateDictionaryRange { .. } => {
            &&& node.authorization matches Authorization::Fact { node, scope, property }
            &&& states(proven, node, scope, property)
            &&& scope == FactScope::Mapping
            &&& property == Property::Mapping(MappingInvariant::OrderPreserving)
        },
        PlanOp::CountRuns { .. } => {
            &&& node.authorization matches Authorization::Fact { node, scope, property }
            &&& states(proven, node, scope, property)
            &&& scope == FactScope::Physical
            &&& property matches Property::Access(AccessInvariant::RunIndex { .. })
        },
        _ => node.authorization is Unconditional,
    }
}

/// A plan is authorized where each of its steps is licensed, and the fault that is told is
/// that of the first which is not.
pub proof fn law_plans_are_authorized_step_by_step(nodes: Seq<PlanNode>, proven: Set<Fact>, n: int)
    requires
        0 <= n <= nodes.len(),
    ensures
        licences_fault(nodes, proven, n) is None <==> forall|i: int|
            0 <= i < n ==> is_licensed(#[trigger] nodes[i], proven),
        licences_fault(nodes, proven, n) matches Some(e) ==> exists|i: int|
            {
                &&& 0 <= i < n
                &&& !is_licensed(#[trigger] nodes[i], proven)
                &&& forall|j: int| 0 <= j < i ==> is_licensed(#[trigger] nodes[j], proven)
                &&& match e {
                    Error::SkipsWithoutFact(id) => id == nodes[i].id.0
                        && nodes[i].authorization is Unconditional,
                    Error::UnneededFact(id) => id == nodes[i].id.0
                        && nodes[i].authorization is Fact,
                    Error::FactNotProven(id) => id == nodes[i].id.0 && (
                    nodes[i].authorization matches Authorization::Fact { node, scope, property }
                        && !states(proven, node, scope, property)),
                    Error::FactNotLicensing(id) => id == nodes[i].id.0 && (
                    nodes[i].authorization matches Authorization::Fact { node, scope, property }
                        && states(proven, node, scope, property)),
                    _ => false,
                }
            },
    decreases n,
{
    if n > 0 {
        law_plans_are_authorized_step_by_step(nodes, proven, n - 1);
        let last = nodes[n - 1];
        lemma_licence(last, proven);
        if licences_fault(nodes, proven, n - 1) is None {
            if licences_fault(nodes, proven, n) is Some {
                assert(!is_licensed(nodes[n - 1], proven));
            }
        } else {
            let i = choose|i: int|
                {
                    &&& 0 <= i < n - 1
                    &&& !is_licensed(#[trigger] nodes[i], proven)
                    &&& forall|j: int| 0 <= j < i ==> is_licensed(#[trigger] nodes[j], proven)
                    &&& match licences_fault(nodes, proven, n - 1)->0 {
                        Error::SkipsWithoutFact(id) => id == nodes[i].id.0
                            && nodes[i].authorization is Unconditional,
                        Error::UnneededFact(id) => id == nodes[i].id.0
                            && nodes[i].authorization is Fact,
                        Error::FactNotProven(id) => id == nodes[i].id.0 && (
                        nodes[i].authorization matches Authorization::Fact {
                            node,
                            scope,
                            property,
                        } && !states(proven, node, scope, property)),
                        Error::FactNotLicensing(id) => id == nodes[i].id.0 && (
                        nodes[i].authorization matches Authorization::Fact {
                            node,
                            scope,
                            property,
                        } && states(proven, node, scope, property)),
                        _ => false,
                    }
                };
            assert(!is_licensed(nodes[i], proven));
        }
    }
}

proof fn lemma_licence(node: PlanNode, proven: Set<Fact>)
    ensures
        licence_fault(node.id, node.op, node.authorization, proven) is None <==> is_licensed(
            node,
            proven,
        ),
{
}

proof fn lemma_ids(nodes: Seq<PlanNode>, n: int)
    requires
        0 <= n <= nodes.len() <= usize::MAX,
    ensures
        match ids_fault(nodes, n) {
            None => forall|i: int| 0 <= i < n ==> (#[trigger] nodes[i]).id.0 == i,
            Some(e) => e matches Error::PlanIdNotCanonical(at) && at < n && nodes[at as int].id.0
                != at && forall|i: int| 0 <= i < at ==> (#[trigger] nodes[i]).id.0 == i,
        },
    decreases n,
{
    if n > 0 {
        lemma_ids(nodes, n - 1);
    }
}

/// A plan is valid where it has steps, numbered in turn, and a reason where it must fall back.
pub proof fn law_valid_plans_are_numbered_in_turn(plan: PlanIr)
    requires
        plan.nodes@.len() <= usize::MAX,
    ensures
        plan_fault(plan) is None <==> {
            &&& plan.nodes@.len() > 0
            &&& forall|i: int|
                0 <= i < plan.nodes@.len() ==> (#[trigger] plan.nodes@[i]).id.0 == i
            &&& plan.output == OutputGuarantee::FallbackRequired ==> plan.fallback_reason is Some
        },
        plan_fault(plan) == Some(Error::PlanEmpty) <==> plan.nodes@.len() == 0,
{
    lemma_ids(plan.nodes@, plan.nodes@.len() as int);
}

// ----- the columns of the study -----

/// The values of a column that trends rise from row to row, and by no more than eight.
pub proof fn law_trends_rise(profile: DataProfile, row: int)
    requires
        profile is Trend || profile is TrendNullsFirst || profile is TrendNullsLast,
        0 <= row,
    ensures
        3 <= profile_value(profile, row + 1) - profile_value(profile, row) <= 8,
        profile_value(profile, row + 5) - profile_value(profile, row) == 35,
        profile_value(profile, 0) == 1_000_000,
{
}

/// The values of a sawtooth rise by seven, and start again after every 256 rows.
pub proof fn law_sawtooths_start_again(row: int)
    requires
        0 <= row,
    ensures
        profile_value(DataProfile::Sawtooth, row + 256) == profile_value(DataProfile::Sawtooth, row),
        (row + 1) % 256 != 0 ==> profile_value(DataProfile::Sawtooth, row + 1) == profile_value(
            DataProfile::Sawtooth,
            row,
        ) + 7,
        (row + 1) % 256 == 0 ==> profile_value(DataProfile::Sawtooth, row + 1) == 4_000_000,
        profile_value(DataProfile::Sawtooth, 0) == 4_000_000,
{
}

/// The values of a column of runs change after every 37 rows, and of one of many runs after
/// every eight.
pub proof fn law_runs_have_their_lengths(row: int)
    requires
        0 <= row,
    ensures
        profile_value(DataProfile::Runs, row + 148) == profile_value(DataProfile::Runs, row),
        (row + 1) % 37 == 0 <==> profile_value(DataProfile::Runs, row + 1) != profile_value(
            DataProfile::Runs,
            row,
        ),
        (row + 1) % 8 == 0 <==> profile_value(DataProfile::ManyRuns, row + 1) != profile_value(
            DataProfile::ManyRuns,
            row,
        ),
        2_000_000 <= profile_value(DataProfile::ManyRuns, row) < 2_001_024,
        profile_value(DataProfile::ManyRuns, row + 8_192) == profile_value(
            DataProfile::ManyRuns,
            row,
        ),
{
    assert((row + 148) / 37 == row / 37 + 4);
    assert((row + 8_192) / 8 == row / 8 + 1_024);
    let k = row / 8;
    assert((k + 1_024) * 37 == k * 37 + 37 * 1_024);
    assert((k + 1) * 37 == k * 37 + 37);
}

/// A column of a small domain has four values, and the same again after five rows.
pub proof fn law_small_domains_have_four_values(row: int)
    requires
        0 <= row,
    ensures
        profile_value(DataProfile::SmallDomain, row + 5) == profile_value(
            DataProfile::SmallDomain,
            row,
        ),
        ({
            let value = profile_value(DataProfile::SmallDomain, row) - 3_000_000;
            value == 0 || value == 1 || value == 2 || value == 7
        }),
{
}

/// Nulls come first, or last, a sixteenth of the rows, or else at every seventeenth row; a
/// column that is not nullable has none.
pub proof fn law_nulls_stand_where_they_are_placed(case: HeldoutCase, rows: int, row: int)
    requires
        0 <= row < rows,
    ensures
        !case.nullable ==> case_value(case, rows, row) is Some,
        case.nullable && case.profile is TrendNullsFirst ==> (case_value(case, rows, row) is None
            <==> 16 * (row + 1) <= rows),
        case.nullable && case.profile is TrendNullsLast ==> (case_value(case, rows, row) is None
            <==> 16 * (rows - row) <= rows),
        case.nullable && !(case.profile is TrendNullsFirst) && !(case.profile is TrendNullsLast)
            ==> (case_value(case, rows, row) is None <==> row % 17 == 0),
{
}

/// A row that is patched is never null, and lies a thousand million above what it would be;
/// there is one in every 997 rows, but for those that are null.
pub proof fn law_patches_stand_out(case: HeldoutCase, rows: int, row: int)
    requires
        0 <= row < rows,
        7 * rows <= i64::MAX - 2_000_000_000,
    ensures
        case_patches(case, rows, rows).contains(row as usize) && rows <= usize::MAX ==> {
            &&& case.patched
            &&& case_value(case, rows, row) matches Some(value)
            &&& value == profile_value(case.profile, row) + 1_000_000_000
            &&& row % 997 == 503
        },
        rows <= usize::MAX && case.patched && row % 997 == 503 && case_value(case, rows, row)
            is Some ==> case_patches(case, rows, rows).contains(row as usize),
{
    assert(0 <= profile_value(case.profile, row) <= 7 * rows + 4_002_000);
}

} // verus!
