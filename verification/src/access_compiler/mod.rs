//! Encoded columns, their byte layout, and the plans that read them.
pub mod access;
pub mod access_facts;
pub mod accounts;
pub mod answer_laws;
pub mod answers;
pub mod bit_reads;
pub mod builder;
pub mod byte_laws;
pub mod bytes;
pub mod certificate_laws;
pub mod certificates;
pub mod codec;
pub mod coding;
pub mod compiler;
pub mod cost_model;
pub mod damage;
pub mod decoder;
pub mod decoder_laws;
pub mod encode;
pub mod encoding_laws;
pub mod error;
pub mod execute;
pub mod fact_laws;
pub mod filter_accounts;
pub mod filter_laws;
pub mod filters;
pub mod fingerprint;
pub mod format;
pub mod growth;
pub mod heldout;
pub mod ids;
pub mod interpreter;
pub mod invariants;
pub mod kernels;
pub mod layout;
pub mod layout_laws;
pub mod ledger_laws;
pub mod plan;
pub mod plan_accounts;
pub mod plan_laws;
pub mod readback;
pub mod reparse;
pub mod restore;
pub mod roundtrip;
pub mod rule_laws;
pub mod runtime;
pub mod schedule;
pub mod searches;
pub mod selection;
pub mod shapes;
pub mod soundness;
pub mod span;
pub mod static_baseline;
pub mod static_queries;
pub mod stored;
pub mod support;
pub mod text;
pub mod truths;
pub mod visitor;
pub mod walks;

pub use access::AccessSet;
pub use certificates::{
    intersect_candidates, refine_eq, refine_in, BlockBloom, BlockMinMax, CandidatePlan, SparseFence,
};
pub use coding::Recipe;
pub use compiler::compile;
pub use cost_model::CostFeatures;
pub use decoder::{DecoderIr, DecoderNode, DeltaCoding};
pub use encode::{encode, EncodedColumn, InputColumn};
pub use error::Error;
pub use execute::{
    execute_count_runs, execute_full_decode, execute_fused_decode, execute_interpreted,
    execute_session, Answer, Execution,
};
pub use filters::{choose_filter, execute_compiled, execute_filter, filter_session, FilterWay};
pub use fingerprint::{fingerprint, primitive_rule_fingerprint};
pub use format::SerializedPage;
pub use heldout::{heldout_cases, input_for, DataProfile, HeldoutCase};
pub use ids::{FieldId, FrameId, NodeId, PlanNodeId};
pub use invariants::{
    derive_invariants, AccessInvariant, Assumption, CheckedInvariants, Evidence, FactScope,
    InvariantFact, InvariantSet, MappingInvariant, NullPlacement, Property, ValueInvariant,
};
pub use layout::{
    ByteClosure, DependencyRule, FieldLayout, FieldLocation, FrameCodec, FrameLayout, LayoutIr,
};
pub use plan::{
    Authorization, ClosureSpec, OutputGuarantee, PlanIr, PlanNode, PlanOp, Predicate, Query, RowDomain,
};
pub use runtime::{AccessMetrics, ClosureMode, ReadSession};
pub use schedule::{coalesce_ranges, ReadSchedule};
pub use selection::execute_ranges;
pub use span::Span;
pub use static_baseline::{
    StaticBitPack, StaticDecoder, StaticDelta, StaticDictionary, StaticFor, StaticNullable,
    StaticPatch, StaticRle,
};
pub use static_queries::{
    static_between, static_dictionary_filter, static_get, static_monotone_filter,
    static_piecewise_monotone_filter, static_sum,
};
pub use support::{
    find_position, load_metadata, locate_indexed, lower_bound_position, nullable_is_valid,
    nullable_prefix_rank, nullable_rank, push_range, unzigzag,
};
pub use visitor::Visitor;
