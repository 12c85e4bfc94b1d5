//! Workloads, features and reports of the studies.
pub mod artifacts;
pub mod certificate;
pub mod crossover;
pub mod error;
pub mod formats;
pub mod json;
pub mod order;
pub mod pipeline;
pub mod queries;
pub mod report;
pub mod report_laws;
pub mod request;
pub mod request_laws;
pub mod scan;
pub mod shown;
pub mod storage;
pub mod table;
pub mod table_laws;
pub mod walkthrough;
pub mod wording;
pub mod workload;
pub mod workload_laws;

pub use artifacts::{
    format_table, gather_files, same_table, verify_columns, verify_tables,
    write_and_verify_formats, write_tables, ColumnFiles, ColumnManifests, FormatError, FormatSizes,
    TableFiles,
};
pub use certificate::{
    false_positive_blocks, fence_candidates, matching_rows, modeled_bytes, quantile_index,
    query_specs, scan_candidates, QuerySpec,
};
pub use crossover::{
    answer_checksum, bounds, exact_features, preflight_free_features, query_widths, split_name,
    structure_features, study_cases, FeatureMode, PlanKind, Policy, QueryKind, StructureFeatures,
};
pub use error::StudyError;
pub use formats::{
    claim_value, csv_table, decode_csv_table, decode_orc_table, decode_parquet_table, orc_table,
    parquet_table, read_claim_manifest, Claims, TableError,
};
pub use pipeline::{
    combined_metrics, complete_query, complete_query_untracked, filter_stage, filtered_ranges,
    gen_outcome, known_selection, known_selection_untracked, parquet_outcome, pipeline_result,
    selection_result, value_stage, verify, FilterPlan, Outcome, ParquetAggregate, PipelineError,
    PipelinePlans, PipelineResult, Stage, ValuePlan,
};
pub use queries::{planned_queries, queries, Baseline, NamedQuery};
pub use request::{build, parse_query, parse_recipe, BuildError};
pub use scan::{
    absolute_ranges, bytes_read, cases_in_turn, chosen_plan, evaluation_cases, fixed_tasks,
    read_calls, schedule_for, share_tasks, visiting_order, widths, AccessOrder, ScanResult,
    SchedulePolicy, SystemCounters, Task,
};
pub use shown::{facts_json, plan_json};
pub use storage::{align_up, eviction_range, filesystem_kind, Bundle, StorageTier};
pub use table::{
    dictionary_probes, family_of, find_row, lookup, natural_runs, run_candidate, xorshift64, Table,
};
pub use walkthrough::{
    plan_strategy, push_query, render_markdown, run_certificates, ArtifactBytes, CertificateRow,
    ExampleColumn, FormatRow, QueryRow, RenderError,
};
pub use wording::{escape_display_label, group_digits, quote};
pub use workload::{predicates, selected_rows, truth, PredicateSpec};
