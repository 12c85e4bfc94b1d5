//! Facts and plans as the explorer shows them.
use super::json::{open_object, placement_string, push_member, quote, truth_string};
#[allow(unused_imports)]
use super::json::{opened, placement_text, quoted, truth_text, with};
use super::wording::{decimal_text, signed_text};
#[allow(unused_imports)]
use super::wording::signed_decimal;
use crate::access_compiler::compiler::compile;
#[allow(unused_imports)]
use crate::access_compiler::compiler::{
    column_facts, draft_fails, holds_steps, plan_draft, planned_output,
};
use crate::access_compiler::decoder::{DecoderNode, DeltaCoding};
use crate::access_compiler::encode::EncodedColumn;
use crate::access_compiler::error::Error;
use crate::access_compiler::ids::{FieldId, NodeId};
use crate::access_compiler::invariants::{
    derive_invariants, AccessInvariant, Assumption, Evidence, FactScope, InvariantFact,
    MappingInvariant, Property, ValueInvariant,
};
#[allow(unused_imports)]
use crate::access_compiler::invariants::{facts_ordered, listed, Fact, Reason};
use crate::access_compiler::plan::{
    Authorization, ClosureSpec, OutputGuarantee, PlanIr, PlanNode, PlanOp, Predicate, Query,
    RowDomain,
};
use crate::access_compiler::span::Span;
#[allow(unused_imports)]
use crate::access_compiler::text::decimal;
#[allow(unused_imports)]
use vstd::string::*;
use vstd::prelude::*;

verus! {

// ----- names with what they hold -----

/// A name with one thing in round brackets.
pub open spec fn held(name: Seq<char>, inner: Seq<char>) -> Seq<char> {
    name + "("@ + inner + ")"@
}

/// A name with named things in braces.
pub open spec fn braced(name: Seq<char>, fields: Seq<char>) -> Seq<char> {
    name + " { "@ + fields + " }"@
}

/// A named thing.
pub open spec fn labelled(key: Seq<char>, value: Seq<char>) -> Seq<char> {
    key + ": "@ + value
}

/// Two named things.
pub open spec fn both(first: Seq<char>, second: Seq<char>) -> Seq<char> {
    first + ", "@ + second
}

fn held_string(name: &str, inner: &str) -> (r: String)
    ensures
        r@ == held(name@, inner@),
{
    let mut out = String::from_str(name);
    out.append("(");
    out.append(inner);
    out.append(")");
    out
}

fn braced_string(name: &str, fields: &str) -> (r: String)
    ensures
        r@ == braced(name@, fields@),
{
    let mut out = String::from_str(name);
    out.append(" { ");
    out.append(fields);
    out.append(" }");
    out
}

fn labelled_string(key: &str, value: &str) -> (r: String)
    ensures
        r@ == labelled(key@, value@),
{
    let mut out = String::from_str(key);
    out.append(": ");
    out.append(value);
    out
}

fn both_string(first: &str, second: &str) -> (r: String)
    ensures
        r@ == both(first@, second@),
{
    let mut out = String::from_str(first);
    out.append(", ");
    out.append(second);
    out
}

/// A name with one named number.
pub open spec fn counted(name: Seq<char>, key: Seq<char>, n: nat) -> Seq<char> {
    braced(name, labelled(key, decimal(n)))
}

fn counted_string(name: &str, key: &str, n: usize) -> (r: String)
    ensures
        r@ == counted(name@, key@, n as nat),
{
    braced_string(name, labelled_string(key, decimal_text(n).as_str()).as_str())
}

// ----- facts -----

pub open spec fn scope_text(scope: FactScope) -> Seq<char> {
    match scope {
        FactScope::AllRows => "AllRows"@,
        FactScope::NonNullRows => "NonNullRows"@,
        FactScope::Mapping => "Mapping"@,
        FactScope::Physical => "Physical"@,
    }
}

fn scope_string(scope: FactScope) -> (r: &'static str)
    ensures
        r@ == scope_text(scope),
{
    match scope {
        FactScope::AllRows => "AllRows",
        FactScope::NonNullRows => "NonNullRows",
        FactScope::Mapping => "Mapping",
        FactScope::Physical => "Physical",
    }
}

pub open spec fn value_fact_text(fact: ValueInvariant) -> Seq<char> {
    match fact {
        ValueInvariant::NonDecreasing => "NonDecreasing"@,
        ValueInvariant::PiecewiseNonDecreasing { max_rows } => counted(
            "PiecewiseNonDecreasing"@,
            "max_rows"@,
            max_rows as nat,
        ),
        ValueInvariant::NullPlacement(placement) => held(
            "NullPlacement"@,
            placement_text(placement),
        ),
        ValueInvariant::UnsignedRange { width } => counted(
            "UnsignedRange"@,
            "width"@,
            width as nat,
        ),
    }
}

fn value_fact_string(fact: ValueInvariant) -> (r: String)
    ensures
        r@ == value_fact_text(fact),
{
    match fact {
        ValueInvariant::NonDecreasing => String::from_str("NonDecreasing"),
        ValueInvariant::PiecewiseNonDecreasing { max_rows } => counted_string(
            "PiecewiseNonDecreasing",
            "max_rows",
            max_rows,
        ),
        ValueInvariant::NullPlacement(placement) => held_string(
            "NullPlacement",
            placement_string(placement),
        ),
        ValueInvariant::UnsignedRange { width } => counted_string(
            "UnsignedRange",
            "width",
            width as usize,
        ),
    }
}

pub open spec fn mapping_text(fact: MappingInvariant) -> Seq<char> {
    match fact {
        MappingInvariant::OrderPreserving => "OrderPreserving"@,
        MappingInvariant::Injective => "Injective"@,
        MappingInvariant::AffineShift => "AffineShift"@,
    }
}

fn mapping_string(fact: MappingInvariant) -> (r: &'static str)
    ensures
        r@ == mapping_text(fact),
{
    match fact {
        MappingInvariant::OrderPreserving => "OrderPreserving",
        MappingInvariant::Injective => "Injective",
        MappingInvariant::AffineShift => "AffineShift",
    }
}

pub open spec fn access_text(fact: AccessInvariant) -> Seq<char> {
    match fact {
        AccessInvariant::Miniblock { rows } => counted("Miniblock"@, "rows"@, rows as nat),
        AccessInvariant::RestartBound { rows } => counted("RestartBound"@, "rows"@, rows as nat),
        AccessInvariant::RunIndex { max_runs } => counted(
            "RunIndex"@,
            "max_runs"@,
            max_runs as nat,
        ),
        AccessInvariant::PatchIndex { max_exceptions } => counted(
            "PatchIndex"@,
            "max_exceptions"@,
            max_exceptions as nat,
        ),
        AccessInvariant::ValidityRank { max_rows } => counted(
            "ValidityRank"@,
            "max_rows"@,
            max_rows as nat,
        ),
        AccessInvariant::EnclosingFrame { compressed_bytes } => counted(
            "EnclosingFrame"@,
            "compressed_bytes"@,
            compressed_bytes as nat,
        ),
    }
}

fn access_string(fact: AccessInvariant) -> (r: String)
    ensures
        r@ == access_text(fact),
{
    match fact {
        AccessInvariant::Miniblock { rows } => counted_string("Miniblock", "rows", rows),
        AccessInvariant::RestartBound { rows } => counted_string("RestartBound", "rows", rows),
        AccessInvariant::RunIndex { max_runs } => counted_string("RunIndex", "max_runs", max_runs),
        AccessInvariant::PatchIndex { max_exceptions } => counted_string(
            "PatchIndex",
            "max_exceptions",
            max_exceptions,
        ),
        AccessInvariant::ValidityRank { max_rows } => counted_string(
            "ValidityRank",
            "max_rows",
            max_rows,
        ),
        AccessInvariant::EnclosingFrame { compressed_bytes } => counted_string(
            "EnclosingFrame",
            "compressed_bytes",
            compressed_bytes,
        ),
    }
}

pub open spec fn property_text(property: Property) -> Seq<char> {
    match property {
        Property::Value(fact) => held("Value"@, value_fact_text(fact)),
        Property::Mapping(fact) => held("Mapping"@, mapping_text(fact)),
        Property::Access(fact) => held("Access"@, access_text(fact)),
    }
}

/// A property as it is shown.
pub fn property_string(property: Property) -> (r: String)
    ensures
        r@ == property_text(property),
{
    match property {
        Property::Value(fact) => held_string("Value", value_fact_string(fact).as_str()),
        Property::Mapping(fact) => held_string("Mapping", mapping_string(fact)),
        Property::Access(fact) => held_string("Access", access_string(fact).as_str()),
    }
}

/// Words in quotes.
pub open spec fn worded(name: Seq<char>, words: Seq<char>) -> Seq<char> {
    held(name, "\""@ + words + "\""@)
}

fn worded_string(name: &str, words: &str) -> (r: String)
    ensures
        r@ == worded(name@, words@),
{
    let mut inner = String::from_str("\"");
    inner.append(words);
    inner.append("\"");
    held_string(name, inner.as_str())
}

pub open spec fn evidence_text(evidence: Reason) -> Seq<char> {
    match evidence {
        Reason::Structure(words) => worded("Structural"@, words),
        Reason::CheckedDescriptor(words) => worded("CheckedDescriptor"@, words),
        Reason::Probabilistic(words) => worded("Probabilistic"@, words),
        Reason::Layout(words) => worded("Layout"@, words),
    }
}

fn evidence_string(evidence: Evidence) -> (r: String)
    ensures
        r@ == evidence_text(evidence@),
{
    match evidence {
        Evidence::Structure(words) => worded_string("Structural", words),
        Evidence::CheckedDescriptor(words) => worded_string("CheckedDescriptor", words),
        Evidence::Probabilistic(words) => worded_string("Probabilistic", words),
        Evidence::Layout(words) => worded_string("Layout", words),
    }
}

pub open spec fn assumption_text(assumption: Assumption) -> Seq<char> {
    match assumption {
        Assumption::CheckedArithmetic => "CheckedArithmetic"@,
        Assumption::PositiveRunLengths => "PositiveRunLengths"@,
        Assumption::SortedUniqueDictionary => "SortedUniqueDictionary"@,
        Assumption::TrustedDescriptor => "TrustedDescriptor"@,
    }
}

fn assumption_string(assumption: Assumption) -> (r: &'static str)
    ensures
        r@ == assumption_text(assumption),
{
    match assumption {
        Assumption::CheckedArithmetic => "CheckedArithmetic",
        Assumption::PositiveRunLengths => "PositiveRunLengths",
        Assumption::SortedUniqueDictionary => "SortedUniqueDictionary",
        Assumption::TrustedDescriptor => "TrustedDescriptor",
    }
}

/// The first `n` assumptions of a fact.
pub open spec fn assumptions_text(assumptions: Seq<Assumption>, n: int) -> Seq<char>
    decreases n,
{
    if n <= 0 {
        Seq::empty()
    } else {
        let before = if n == 1 {
            Seq::empty()
        } else {
            assumptions_text(assumptions, n - 1) + ","@
        };
        before + quoted(assumption_text(assumptions[n - 1]))
    }
}

fn assumptions_string(assumptions: &Vec<Assumption>) -> (r: String)
    ensures
        r@ == "["@ + assumptions_text(assumptions@, assumptions@.len() as int) + "]"@,
{
    let mut out = String::from_str("[");
    let mut i: usize = 0;
    assert(out@ =~= "["@ + assumptions_text(assumptions@, 0));
    while i < assumptions.len()
        invariant
            i <= assumptions@.len(),
            out@ == "["@ + assumptions_text(assumptions@, i as int),
        decreases assumptions@.len() - i,
    {
        if i > 0 {
            out.append(",");
        }
        out.append(quote(assumption_string(assumptions[i])).as_str());
        assert(out@ =~= "["@ + assumptions_text(assumptions@, i + 1));
        i = i + 1;
    }
    out.append("]");
    out
}

/// A fact.
pub open spec fn fact_text(fact: Fact) -> Seq<char> {
    let assumptions = "["@ + assumptions_text(fact.assumptions, fact.assumptions.len() as int)
        + "]"@;
    let a = opened("node"@, decimal(fact.node.0 as nat));
    let b = with(a, "scope"@, quoted(scope_text(fact.scope)));
    let c = with(b, "property"@, quoted(property_text(fact.property)));
    let d = with(c, "evidence"@, quoted(evidence_text(fact.evidence)));
    with(d, "assumptions"@, assumptions) + "}"@
}

fn fact_json(fact: &InvariantFact) -> (r: String)
    ensures
        r@ == fact_text(fact@),
{
    let mut out = open_object("node", decimal_text(fact.node.0).as_str());
    push_member(&mut out, "scope", quote(scope_string(fact.scope)).as_str());
    push_member(&mut out, "property", quote(property_string(fact.property).as_str()).as_str());
    push_member(&mut out, "evidence", quote(evidence_string(fact.evidence).as_str()).as_str());
    push_member(&mut out, "assumptions", assumptions_string(&fact.assumptions).as_str());
    out.append("}");
    out
}

/// The first `n` facts of a list.
pub open spec fn facts_list_text(facts: Seq<InvariantFact>, n: int) -> Seq<char>
    decreases n,
{
    if n <= 0 {
        Seq::empty()
    } else {
        let before = if n == 1 {
            Seq::empty()
        } else {
            facts_list_text(facts, n - 1) + ","@
        };
        before + fact_text(facts[n - 1]@)
    }
}

/// Facts below a root.
pub open spec fn facts_text(facts: Seq<InvariantFact>, root: NodeId) -> Seq<char> {
    let list = "["@ + facts_list_text(facts, facts.len() as int) + "]"@;
    let a = opened("root"@, decimal(root.0 as nat));
    let b = with(a, "fact_count"@, decimal(facts.len()));
    with(b, "facts"@, list) + "}"@
}

/// Shows facts.
pub fn show_facts(facts: &[InvariantFact], root: NodeId) -> (r: String)
    ensures
        r@ == facts_text(facts@, root),
{
    let mut list = String::from_str("[");
    let mut i: usize = 0;
    assert(list@ =~= "["@ + facts_list_text(facts@, 0));
    while i < facts.len()
        invariant
            i <= facts@.len(),
            list@ == "["@ + facts_list_text(facts@, i as int),
        decreases facts@.len() - i,
    {
        if i > 0 {
            list.append(",");
        }
        list.append(fact_json(&facts[i]).as_str());
        assert(list@ =~= "["@ + facts_list_text(facts@, i + 1));
        i = i + 1;
    }
    list.append("]");
    let mut out = open_object("root", decimal_text(root.0).as_str());
    push_member(&mut out, "fact_count", decimal_text(facts.len()).as_str());
    push_member(&mut out, "facts", list.as_str());
    out.append("}");
    out
}

/// The list has the facts of the set, in order.
pub open spec fn lists(facts: Seq<InvariantFact>, set: Set<Fact>) -> bool {
    &&& facts_ordered(facts)
    &&& forall|f: Fact| set.contains(f) == #[trigger] listed(facts, f)
}

/// Shows what is proven of a column, in order.
pub fn facts_json(column: &EncodedColumn) -> (r: Result<String, Error>)
    requires
        column.wf(),
    ensures
        r matches Ok(text) && exists|facts: Seq<InvariantFact>| #[trigger]
            lists(facts, column_facts(*column)) && text@ == facts_text(
                facts,
                column.decoder.top(),
            ),
{
    proof {
        column.page.lemma_wf();
    }
    match derive_invariants(&column.decoder, column.page.layout(), column.page.invariants()) {
        Ok(set) => {
            let facts = set.iter();
            assert(lists(facts@, column_facts(*column)));
            Ok(show_facts(facts, column.decoder.root()))
        },
        Err(e) => Err(e),
    }
}

// ----- plans -----

pub open spec fn field_id_text(field: FieldId) -> Seq<char> {
    held("FieldId"@, decimal(field.0 as nat))
}

fn field_id_string(field: FieldId) -> (r: String)
    ensures
        r@ == field_id_text(field),
{
    held_string("FieldId", decimal_text(field.0).as_str())
}

pub open spec fn span_text(span: Span) -> Seq<char> {
    braced(
        "Span"@,
        both(
            labelled("start"@, decimal(span.start as nat)),
            labelled("end"@, decimal(span.end as nat)),
        ),
    )
}

fn span_string(span: Span) -> (r: String)
    ensures
        r@ == span_text(span),
{
    let start = labelled_string("start", decimal_text(span.start).as_str());
    let end = labelled_string("end", decimal_text(span.end).as_str());
    braced_string("Span", both_string(start.as_str(), end.as_str()).as_str())
}

/// A name with a field and a number.
pub open spec fn with_field(
    name: Seq<char>,
    key: Seq<char>,
    field: FieldId,
    other: Seq<char>,
    n: nat,
) -> Seq<char> {
    braced(name, both(labelled(key, field_id_text(field)), labelled(other, decimal(n))))
}

fn with_field_string(name: &str, key: &str, field: FieldId, other: &str, n: usize) -> (r: String)
    ensures
        r@ == with_field(name@, key@, field, other@, n as nat),
{
    let first = labelled_string(key, field_id_string(field).as_str());
    let second = labelled_string(other, decimal_text(n).as_str());
    braced_string(name, both_string(first.as_str(), second.as_str()).as_str())
}

/// A step as it is shown.
pub open spec fn op_text(op: PlanOp) -> Seq<char> {
    match op {
        PlanOp::ReadRange { field, bytes } => braced(
            "ReadRange"@,
            both(
                labelled("field"@, field_id_text(field)),
                labelled("bytes"@, span_text(bytes)),
            ),
        ),
        PlanOp::ReadBlock { field, block } => with_field(
            "ReadBlock"@,
            "field"@,
            field,
            "block"@,
            block as nat,
        ),
        PlanOp::LoadMetadata { field } => braced(
            "LoadMetadata"@,
            labelled("field"@, field_id_text(field)),
        ),
        PlanOp::DecodeBlock { field, block } => with_field(
            "DecodeBlock"@,
            "field"@,
            field,
            "block"@,
            block as nat,
        ),
        PlanOp::SeekRestart { field, restart } => with_field(
            "SeekRestart"@,
            "field"@,
            field,
            "restart"@,
            restart as nat,
        ),
        PlanOp::SearchMonotone { nulls } => braced(
            "SearchMonotone"@,
            labelled("nulls"@, placement_text(nulls)),
        ),
        PlanOp::SearchPiecewiseMonotone { max_rows } => counted(
            "SearchPiecewiseMonotone"@,
            "max_rows"@,
            max_rows as nat,
        ),
        PlanOp::ProbeBloom { blocks, hashes } => braced(
            "ProbeBloom"@,
            both(
                labelled("blocks"@, decimal(blocks as nat)),
                labelled("hashes"@, decimal(hashes as nat)),
            ),
        ),
        PlanOp::ProbeMinMax { blocks } => counted("ProbeMinMax"@, "blocks"@, blocks as nat),
        PlanOp::ProbeSparseFence { entries } => counted(
            "ProbeSparseFence"@,
            "entries"@,
            entries as nat,
        ),
        PlanOp::TranslateDictionaryRange { dictionary, entries } => with_field(
            "TranslateDictionaryRange"@,
            "dictionary"@,
            dictionary,
            "entries"@,
            entries as nat,
        ),
        PlanOp::CountRuns { run_lengths } => braced(
            "CountRuns"@,
            labelled("run_lengths"@, field_id_text(run_lengths)),
        ),
        PlanOp::CountExact => "CountExact"@,
        PlanOp::RefineCandidates => "RefineCandidates"@,
        PlanOp::AggregateEncoded => "AggregateEncoded"@,
        PlanOp::MaterializeRows => "MaterializeRows"@,
        PlanOp::FusedDecodeQuery => "FusedDecodeQuery"@,
    }
}

/// A step as it is shown.
pub fn op_string(op: PlanOp) -> (r: String)
    ensures
        r@ == op_text(op),
{
    match op {
        PlanOp::ReadRange { field, bytes } => {
            let first = labelled_string("field", field_id_string(field).as_str());
            let second = labelled_string("bytes", span_string(bytes).as_str());
            braced_string("ReadRange", both_string(first.as_str(), second.as_str()).as_str())
        },
        PlanOp::ReadBlock { field, block } => with_field_string(
            "ReadBlock",
            "field",
            field,
            "block",
            block,
        ),
        PlanOp::LoadMetadata { field } => braced_string(
            "LoadMetadata",
            labelled_string("field", field_id_string(field).as_str()).as_str(),
        ),
        PlanOp::DecodeBlock { field, block } => with_field_string(
            "DecodeBlock",
            "field",
            field,
            "block",
            block,
        ),
        PlanOp::SeekRestart { field, restart } => with_field_string(
            "SeekRestart",
            "field",
            field,
            "restart",
            restart,
        ),
        PlanOp::SearchMonotone { nulls } => braced_string(
            "SearchMonotone",
            labelled_string("nulls", placement_string(nulls)).as_str(),
        ),
        PlanOp::SearchPiecewiseMonotone { max_rows } => counted_string(
            "SearchPiecewiseMonotone",
            "max_rows",
            max_rows,
        ),
        PlanOp::ProbeBloom { blocks, hashes } => {
            let first = labelled_string("blocks", decimal_text(blocks).as_str());
            let second = labelled_string("hashes", decimal_text(hashes as usize).as_str());
            braced_string("ProbeBloom", both_string(first.as_str(), second.as_str()).as_str())
        },
        PlanOp::ProbeMinMax { blocks } => counted_string("ProbeMinMax", "blocks", blocks),
        PlanOp::ProbeSparseFence { entries } => counted_string(
            "ProbeSparseFence",
            "entries",
            entries,
        ),
        PlanOp::TranslateDictionaryRange { dictionary, entries } => with_field_string(
            "TranslateDictionaryRange",
            "dictionary",
            dictionary,
            "entries",
            entries,
        ),
        PlanOp::CountRuns { run_lengths } => braced_string(
            "CountRuns",
            labelled_string("run_lengths", field_id_string(run_lengths).as_str()).as_str(),
        ),
        PlanOp::CountExact => String::from_str("CountExact"),
        PlanOp::RefineCandidates => String::from_str("RefineCandidates"),
        PlanOp::AggregateEncoded => String::from_str("AggregateEncoded"),
        PlanOp::MaterializeRows => String::from_str("MaterializeRows"),
        PlanOp::FusedDecodeQuery => String::from_str("FusedDecodeQuery"),
    }
}

pub open spec fn guarantee_text(guarantee: OutputGuarantee) -> Seq<char> {
    match guarantee {
        OutputGuarantee::PhysicalBytes => "PhysicalBytes"@,
        OutputGuarantee::ExactScalar => "ExactScalar"@,
        OutputGuarantee::ExactBitmap => "ExactBitmap"@,
        OutputGuarantee::CandidateBitmap => "CandidateBitmap"@,
        OutputGuarantee::MaterializedValues => "MaterializedValues"@,
        OutputGuarantee::FallbackRequired => "FallbackRequired"@,
    }
}

/// A guarantee as it is shown.
pub fn guarantee_string(guarantee: OutputGuarantee) -> (r: &'static str)
    ensures
        r@ == guarantee_text(guarantee),
{
    match guarantee {
        OutputGuarantee::PhysicalBytes => "PhysicalBytes",
        OutputGuarantee::ExactScalar => "ExactScalar",
        OutputGuarantee::ExactBitmap => "ExactBitmap",
        OutputGuarantee::CandidateBitmap => "CandidateBitmap",
        OutputGuarantee::MaterializedValues => "MaterializedValues",
        OutputGuarantee::FallbackRequired => "FallbackRequired",
    }
}

/// Two bounds with their names.
pub open spec fn bounds_text(low: i64, high: i64) -> Seq<char> {
    both(
        labelled("low"@, signed_decimal(low as int)),
        labelled("high"@, signed_decimal(high as int)),
    )
}

fn bounds_string(low: i64, high: i64) -> (r: String)
    ensures
        r@ == bounds_text(low, high),
{
    let first = labelled_string("low", signed_text(low as i128).as_str());
    let second = labelled_string("high", signed_text(high as i128).as_str());
    both_string(first.as_str(), second.as_str())
}

pub open spec fn predicate_text(predicate: Predicate) -> Seq<char> {
    match predicate {
        Predicate::Between { low, high } => braced("Between"@, bounds_text(low, high)),
        Predicate::Equals { value } => braced(
            "Equals"@,
            labelled("value"@, signed_decimal(value as int)),
        ),
    }
}

fn predicate_string(predicate: Predicate) -> (r: String)
    ensures
        r@ == predicate_text(predicate),
{
    match predicate {
        Predicate::Between { low, high } => braced_string(
            "Between",
            bounds_string(low, high).as_str(),
        ),
        Predicate::Equals { value } => braced_string(
            "Equals",
            labelled_string("value", signed_text(value as i128).as_str()).as_str(),
        ),
    }
}

pub open spec fn query_text(query: Query) -> Seq<char> {
    match query {
        Query::Get { row } => counted("Get"@, "row"@, row as nat),
        Query::Sum { rows } => braced("Sum"@, labelled("rows"@, span_text(rows))),
        Query::Between { rows, low, high } => braced(
            "Between"@,
            both(labelled("rows"@, span_text(rows)), bounds_text(low, high)),
        ),
        Query::Filter { predicate } => braced(
            "Filter"@,
            labelled("predicate"@, predicate_text(predicate)),
        ),
        Query::Count { predicate } => braced(
            "Count"@,
            labelled("predicate"@, predicate_text(predicate)),
        ),
    }
}

/// A query as it is shown.
pub fn query_string(query: Query) -> (r: String)
    ensures
        r@ == query_text(query),
{
    match query {
        Query::Get { row } => counted_string("Get", "row", row),
        Query::Sum { rows } => braced_string(
            "Sum",
            labelled_string("rows", span_string(rows).as_str()).as_str(),
        ),
        Query::Between { rows, low, high } => {
            let first = labelled_string("rows", span_string(rows).as_str());
            let second = bounds_string(low, high);
            braced_string("Between", both_string(first.as_str(), second.as_str()).as_str())
        },
        Query::Filter { predicate } => braced_string(
            "Filter",
            labelled_string("predicate", predicate_string(predicate).as_str()).as_str(),
        ),
        Query::Count { predicate } => braced_string(
            "Count",
            labelled_string("predicate", predicate_string(predicate).as_str()).as_str(),
        ),
    }
}

pub open spec fn rows_text(rows: RowDomain) -> Seq<char> {
    held("RowDomain"@, span_text(rows.0))
}

fn rows_string(rows: RowDomain) -> (r: String)
    ensures
        r@ == rows_text(rows),
{
    held_string("RowDomain", span_string(rows.0).as_str())
}

/// The licence of a step as it is shown.
pub open spec fn licence_text(licence: Authorization) -> Seq<char> {
    match licence {
        Authorization::Unconditional => "unconditional"@,
        Authorization::Fact { scope, property, .. } => scope_text(scope) + "::"@ + property_text(
            property,
        ),
    }
}

fn licence_string(licence: Authorization) -> (r: String)
    ensures
        r@ == licence_text(licence),
{
    match licence {
        Authorization::Unconditional => String::from_str("unconditional"),
        Authorization::Fact { scope, property, .. } => {
            let mut out = String::from_str(scope_string(scope));
            out.append("::");
            out.append(property_string(property).as_str());
            out
        },
    }
}

/// How the bytes of a step are known: the word, the number and the note.
pub open spec fn closure_texts(closure: ClosureSpec) -> (Seq<char>, Seq<char>, Seq<char>) {
    match closure {
        ClosureSpec::Exact(closure) => (
            "exact"@,
            decimal(closure.delivered_bytes as nat),
            Seq::empty(),
        ),
        ClosureSpec::RuntimeRefined { reason, .. } => ("runtime_refined"@, "null"@, reason@),
    }
}

/// A step of a plan.
pub open spec fn step_text(node: PlanNode) -> Seq<char> {
    let (kind, bytes, note) = closure_texts(node.byte_closure);
    let a = opened("id"@, decimal(node.id.0 as nat));
    let b = with(a, "op"@, quoted(op_text(node.op)));
    let c = with(b, "rows"@, quoted(rows_text(node.rows)));
    let d = with(c, "required_field_bytes"@, decimal(node.required_fields@.len()));
    let e = with(d, "closure"@, quoted(kind));
    let f = with(e, "closure_bytes"@, bytes);
    let g = with(f, "closure_note"@, quoted(note));
    let h = with(g, "guarantee"@, quoted(guarantee_text(node.guarantee)));
    with(h, "cites"@, quoted(licence_text(node.authorization))) + "}"@
}

/// The bytes that a step needs can be counted.
pub open spec fn countable_step(node: PlanNode) -> bool {
    node.required_fields@.len() <= usize::MAX
}

fn step_json(node: &PlanNode) -> (r: Option<String>)
    requires
        node.required_fields.wf(),
    ensures
        match r {
            Some(text) => countable_step(*node) && text@ == step_text(*node),
            None => !countable_step(*node),
        },
{
    let required: usize = match node.required_fields.checked_bytes() {
        Some(required) => required,
        None => {
            return None;
        },
    };
    let mut out = open_object("id", decimal_text(node.id.0).as_str());
    push_member(&mut out, "op", quote(op_string(node.op).as_str()).as_str());
    push_member(&mut out, "rows", quote(rows_string(node.rows).as_str()).as_str());
    push_member(&mut out, "required_field_bytes", decimal_text(required).as_str());
    match &node.byte_closure {
        ClosureSpec::Exact(closure) => {
            push_member(&mut out, "closure", quote("exact").as_str());
            push_member(
                &mut out,
                "closure_bytes",
                decimal_text(closure.delivered_bytes).as_str(),
            );
            proof {
                reveal_strlit("");
                assert(""@ =~= Seq::empty());
            }
            push_member(&mut out, "closure_note", quote("").as_str());
        },
        ClosureSpec::RuntimeRefined { reason, .. } => {
            push_member(&mut out, "closure", quote("runtime_refined").as_str());
            push_member(&mut out, "closure_bytes", "null");
            push_member(&mut out, "closure_note", quote(reason.as_str()).as_str());
        },
    }
    push_member(&mut out, "guarantee", quote(guarantee_string(node.guarantee)).as_str());
    push_member(&mut out, "cites", quote(licence_string(node.authorization).as_str()).as_str());
    out.append("}");
    Some(out)
}

/// The first `n` steps of a plan.
pub open spec fn steps_text(nodes: Seq<PlanNode>, n: int) -> Seq<char>
    decreases n,
{
    if n <= 0 {
        Seq::empty()
    } else {
        let before = if n == 1 {
            Seq::empty()
        } else {
            steps_text(nodes, n - 1) + ","@
        };
        before + step_text(nodes[n - 1])
    }
}

/// A plan.
pub open spec fn plan_text(plan: PlanIr) -> Seq<char> {
    let steps = "["@ + steps_text(plan.nodes@, plan.nodes@.len() as int) + "]"@;
    let a = opened("query"@, quoted(query_text(plan.query)));
    let b = with(a, "node_count"@, decimal(plan.nodes@.len()));
    let c = with(b, "output"@, quoted(guarantee_text(plan.output)));
    with(c, "nodes"@, steps) + "}"@
}

/// The bytes that each step needs can be counted.
pub open spec fn countable_plan(plan: PlanIr) -> bool {
    forall|i: int| 0 <= i < plan.nodes@.len() ==> countable_step(#[trigger] plan.nodes@[i])
}

/// Shows a plan, if the bytes that each step needs can be counted.
pub fn show_plan(plan: &PlanIr) -> (r: Option<String>)
    requires
        forall|i: int|
            0 <= i < plan.nodes@.len() ==> (#[trigger] plan.nodes@[i]).required_fields.wf(),
    ensures
        match r {
            Some(text) => countable_plan(*plan) && text@ == plan_text(*plan),
            None => !countable_plan(*plan),
        },
{
    let mut steps = String::from_str("[");
    let mut i: usize = 0;
    assert(steps@ =~= "["@ + steps_text(plan.nodes@, 0));
    while i < plan.nodes.len()
        invariant
            i <= plan.nodes@.len(),
            forall|k: int|
                0 <= k < plan.nodes@.len() ==> (#[trigger] plan.nodes@[k]).required_fields.wf(),
            forall|k: int| 0 <= k < i ==> countable_step(#[trigger] plan.nodes@[k]),
            steps@ == "["@ + steps_text(plan.nodes@, i as int),
        decreases plan.nodes@.len() - i,
    {
        if i > 0 {
            steps.append(",");
        }
        match step_json(&plan.nodes[i]) {
            Some(step) => steps.append(step.as_str()),
            None => {
                assert(!countable_step(plan.nodes@[i as int]));
                return None;
            },
        }
        assert(steps@ =~= "["@ + steps_text(plan.nodes@, i + 1));
        i = i + 1;
    }
    steps.append("]");
    let mut out = open_object("query", quote(query_string(plan.query).as_str()).as_str());
    push_member(&mut out, "node_count", decimal_text(plan.nodes.len()).as_str());
    push_member(&mut out, "output", quote(guarantee_string(plan.output)).as_str());
    push_member(&mut out, "nodes", steps.as_str());
    out.append("}");
    Some(out)
}

/// The plan is the one of the query on the column.
pub open spec fn plans(plan: PlanIr, column: EncodedColumn, query: Query) -> bool {
    let draft = plan_draft(column, query);
    &&& draft.fault is None
    &&& plan.query == query
    &&& plan.output == planned_output(query)
    &&& holds_steps(plan.nodes@, 0, draft.steps, column.page.plan())
}

/// Shows how a query reads a column.
pub fn plan_json(column: &EncodedColumn, query: Query) -> (r: Result<String, Error>)
    requires
        column.wf(),
    ensures
        match r {
            Ok(text) => exists|plan: PlanIr| #[trigger]
                plans(plan, *column, query) && countable_plan(plan) && text@ == plan_text(plan),
            Err(e) => {
                ||| draft_fails(plan_draft(*column, query), column.page.plan(), e)
                ||| e == Error::AccessUncountable && exists|plan: PlanIr| #[trigger]
                    plans(plan, *column, query) && !countable_plan(plan)
            },
        },
{
    match compile(column, query) {
        Ok(plan) => {
            assert(plans(plan, *column, query));
            match show_plan(&plan) {
                Some(text) => Ok(text),
                None => Err(Error::AccessUncountable),
            }
        },
        Err(e) => Err(e),
    }
}

// ----- decoders -----

pub open spec fn node_id_text(node: NodeId) -> Seq<char> {
    held("NodeId"@, decimal(node.0 as nat))
}

fn node_id_string(node: NodeId) -> (r: String)
    ensures
        r@ == node_id_text(node),
{
    held_string("NodeId", decimal_text(node.0).as_str())
}

pub open spec fn coding_text(coding: DeltaCoding) -> Seq<char> {
    match coding {
        DeltaCoding::ZigZag => "ZigZag"@,
        DeltaCoding::Unsigned => "Unsigned"@,
    }
}

fn coding_string(coding: DeltaCoding) -> (r: &'static str)
    ensures
        r@ == coding_text(coding),
{
    match coding {
        DeltaCoding::ZigZag => "ZigZag",
        DeltaCoding::Unsigned => "Unsigned",
    }
}

/// Writes one more named thing behind others.
fn push_field(fields: &mut String, key: &str, value: &str)
    ensures
        final(fields)@ == both(old(fields)@, labelled(key@, value@)),
{
    let more = labelled_string(key, value);
    fields.append(", ");
    fields.append(more.as_str());
}

/// A node of a decoder as it is shown.
pub open spec fn node_text(node: DecoderNode) -> Seq<char> {
    match node {
        DecoderNode::BitUnpack { stream, width, len, miniblock_rows, miniblock_bytes } => {
            let fields = labelled("stream"@, field_id_text(stream));
            let fields = both(fields, labelled("width"@, decimal(width as nat)));
            let fields = both(fields, labelled("len"@, decimal(len as nat)));
            let fields = both(fields, labelled("miniblock_rows"@, decimal(miniblock_rows as nat)));
            let fields = both(fields, labelled("miniblock_bytes"@, decimal(miniblock_bytes as nat)));
            braced("BitUnpack"@, fields)
        },
        DecoderNode::Rle { values, run_lengths, run_index, len, runs, index_interval } => {
            let fields = labelled("values"@, node_id_text(values));
            let fields = both(fields, labelled("run_lengths"@, field_id_text(run_lengths)));
            let fields = both(fields, labelled("run_index"@, field_id_text(run_index)));
            let fields = both(fields, labelled("len"@, decimal(len as nat)));
            let fields = both(fields, labelled("runs"@, decimal(runs as nat)));
            let fields = both(fields, labelled("index_interval"@, decimal(index_interval as nat)));
            braced("Rle"@, fields)
        },
        DecoderNode::Dictionary { ids, dictionary, entries, sorted_unique } => {
            let fields = labelled("ids"@, node_id_text(ids));
            let fields = both(fields, labelled("dictionary"@, field_id_text(dictionary)));
            let fields = both(fields, labelled("entries"@, decimal(entries as nat)));
            let fields = both(fields, labelled("sorted_unique"@, truth_text(sorted_unique)));
            braced("Dictionary"@, fields)
        },
        DecoderNode::Delta { deltas, restarts, restart_interval, len, coding } => {
            let fields = labelled("deltas"@, node_id_text(deltas));
            let fields = both(fields, labelled("restarts"@, field_id_text(restarts)));
            let fields = both(fields, labelled("restart_interval"@, decimal(restart_interval as nat)));
            let fields = both(fields, labelled("len"@, decimal(len as nat)));
            let fields = both(fields, labelled("coding"@, coding_text(coding)));
            braced("Delta"@, fields)
        },
        DecoderNode::For { base, values } => {
            let fields = labelled("base"@, field_id_text(base));
            let fields = both(fields, labelled("values"@, node_id_text(values)));
            braced("For"@, fields)
        },
        DecoderNode::Patch { values, positions, position_index, exceptions, count, index_interval } => {
            let fields = labelled("values"@, node_id_text(values));
            let fields = both(fields, labelled("positions"@, field_id_text(positions)));
            let fields = both(fields, labelled("position_index"@, field_id_text(position_index)));
            let fields = both(fields, labelled("exceptions"@, field_id_text(exceptions)));
            let fields = both(fields, labelled("count"@, decimal(count as nat)));
            let fields = both(fields, labelled("index_interval"@, decimal(index_interval as nat)));
            braced("Patch"@, fields)
        },
        DecoderNode::Nullable { validity, rank_index, values, logical_len, nonnull_len, rank_interval } => {
            let fields = labelled("validity"@, field_id_text(validity));
            let fields = both(fields, labelled("rank_index"@, field_id_text(rank_index)));
            let fields = both(fields, labelled("values"@, node_id_text(values)));
            let fields = both(fields, labelled("logical_len"@, decimal(logical_len as nat)));
            let fields = both(fields, labelled("nonnull_len"@, decimal(nonnull_len as nat)));
            let fields = both(fields, labelled("rank_interval"@, decimal(rank_interval as nat)));
            braced("Nullable"@, fields)
        },
    }
}

/// A node of a decoder as it is shown.
pub fn node_string(node: DecoderNode) -> (r: String)
    ensures
        r@ == node_text(node),
{
    match node {
        DecoderNode::BitUnpack { stream, width, len, miniblock_rows, miniblock_bytes } => {
            let mut fields = labelled_string("stream", field_id_string(stream).as_str());
            push_field(&mut fields, "width", decimal_text(width as usize).as_str());
            push_field(&mut fields, "len", decimal_text(len).as_str());
            push_field(&mut fields, "miniblock_rows", decimal_text(miniblock_rows).as_str());
            push_field(&mut fields, "miniblock_bytes", decimal_text(miniblock_bytes).as_str());
            braced_string("BitUnpack", fields.as_str())
        },
        DecoderNode::Rle { values, run_lengths, run_index, len, runs, index_interval } => {
            let mut fields = labelled_string("values", node_id_string(values).as_str());
            push_field(&mut fields, "run_lengths", field_id_string(run_lengths).as_str());
            push_field(&mut fields, "run_index", field_id_string(run_index).as_str());
            push_field(&mut fields, "len", decimal_text(len).as_str());
            push_field(&mut fields, "runs", decimal_text(runs).as_str());
            push_field(&mut fields, "index_interval", decimal_text(index_interval).as_str());
            braced_string("Rle", fields.as_str())
        },
        DecoderNode::Dictionary { ids, dictionary, entries, sorted_unique } => {
            let mut fields = labelled_string("ids", node_id_string(ids).as_str());
            push_field(&mut fields, "dictionary", field_id_string(dictionary).as_str());
            push_field(&mut fields, "entries", decimal_text(entries).as_str());
            push_field(&mut fields, "sorted_unique", truth_string(sorted_unique));
            braced_string("Dictionary", fields.as_str())
        },
        DecoderNode::Delta { deltas, restarts, restart_interval, len, coding } => {
            let mut fields = labelled_string("deltas", node_id_string(deltas).as_str());
            push_field(&mut fields, "restarts", field_id_string(restarts).as_str());
            push_field(&mut fields, "restart_interval", decimal_text(restart_interval).as_str());
            push_field(&mut fields, "len", decimal_text(len).as_str());
            push_field(&mut fields, "coding", coding_string(coding));
            braced_string("Delta", fields.as_str())
        },
        DecoderNode::For { base, values } => {
            let mut fields = labelled_string("base", field_id_string(base).as_str());
            push_field(&mut fields, "values", node_id_string(values).as_str());
            braced_string("For", fields.as_str())
        },
        DecoderNode::Patch { values, positions, position_index, exceptions, count, index_interval } => {
            let mut fields = labelled_string("values", node_id_string(values).as_str());
            push_field(&mut fields, "positions", field_id_string(positions).as_str());
            push_field(&mut fields, "position_index", field_id_string(position_index).as_str());
            push_field(&mut fields, "exceptions", field_id_string(exceptions).as_str());
            push_field(&mut fields, "count", decimal_text(count).as_str());
            push_field(&mut fields, "index_interval", decimal_text(index_interval).as_str());
            braced_string("Patch", fields.as_str())
        },
        DecoderNode::Nullable { validity, rank_index, values, logical_len, nonnull_len, rank_interval } => {
            let mut fields = labelled_string("validity", field_id_string(validity).as_str());
            push_field(&mut fields, "rank_index", field_id_string(rank_index).as_str());
            push_field(&mut fields, "values", node_id_string(values).as_str());
            push_field(&mut fields, "logical_len", decimal_text(logical_len).as_str());
            push_field(&mut fields, "nonnull_len", decimal_text(nonnull_len).as_str());
            push_field(&mut fields, "rank_interval", decimal_text(rank_interval).as_str());
            braced_string("Nullable", fields.as_str())
        },
    }
}

} // verus!
