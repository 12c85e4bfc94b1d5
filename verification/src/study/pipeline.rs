//! Queries that filter one column and sum another.
use super::error::StudyError;
#[allow(unused_imports)]
use super::workload::{selected, selects};
#[allow(unused_imports)]
use crate::access_compiler::answers::law_scans_answer_from_the_values;
#[allow(unused_imports)]
use crate::access_compiler::coding::Recipe;
use crate::access_compiler::encode::EncodedColumn;
#[allow(unused_imports)]
use crate::access_compiler::encode::{marked, widened};
use crate::access_compiler::error::Error;
use crate::access_compiler::execute::{execute_session, Answer, Execution};
#[allow(unused_imports)]
use crate::access_compiler::filter_laws::{law_filters_are_exact, law_filters_tell_the_truth};
use crate::access_compiler::filters::filter_session;
#[allow(unused_imports)]
use crate::access_compiler::filters::{filter_outcome, filter_query, lemma_filters_give_ranges};
#[allow(unused_imports)]
use crate::access_compiler::execute::{
    lemma_same_sum, listed, matching, query_error, satisfies, scan_answer, sum_of, Reply,
};
use crate::access_compiler::format::SerializedPage;
use crate::access_compiler::plan::{Predicate, Query};
#[allow(unused_imports)]
use crate::access_compiler::roundtrip::narrow_column;
use crate::access_compiler::runtime::{AccessMetrics, ClosureMode, ReadSession};
#[allow(unused_imports)]
use crate::access_compiler::runtime::{
    empty_ledger, metrics_of, page_context, replay, Context,
};
use crate::access_compiler::selection::execute_ranges;
#[allow(unused_imports)]
use crate::access_compiler::selection::{
    law_ranges_sum_what_hits, law_selections_sum_nothing_else, law_selections_sum_the_values,
    only_where, ranges_fit, ranges_rows, selection_answer,
};
#[allow(unused_imports)]
use crate::access_compiler::soundness::{law_scans_answer_nothing_else, rows_numbered};
use crate::access_compiler::span::Span;
#[allow(unused_imports)]
use crate::access_compiler::support::{lemma_pushed_same, ranges_where};
#[allow(unused_imports)]
use vstd::string::*;
use vstd::prelude::*;

verus! {

#[derive(Clone, Copy, Debug, PartialEq, Eq, Structural)]
pub enum ValuePlan {
    Selective,
    Fused,
}

#[derive(Clone, Copy, Debug, PartialEq, Eq, Structural)]
pub enum FilterPlan {
    Compiled,
    FullScan,
}

#[derive(Clone, Copy, Debug, PartialEq, Eq, Structural)]
pub struct PipelinePlans {
    pub value: ValuePlan,
    pub filter: FilterPlan,
}

/// How a plan reads pages.
pub open spec fn mode_of(plan: ValuePlan) -> ClosureMode {
    match plan {
        ValuePlan::Selective => ClosureMode::Selective,
        ValuePlan::Fused => ClosureMode::FullPage,
    }
}

impl ValuePlan {
    pub fn name(self) -> (r: &'static str)
        ensures
            r@ == match self {
                ValuePlan::Selective => "generated_selective"@,
                ValuePlan::Fused => "generated_fused"@,
            },
    {
        match self {
            ValuePlan::Selective => "generated_selective",
            ValuePlan::Fused => "generated_fused",
        }
    }

    /// How the pages are read.
    pub fn mode(self) -> (r: ClosureMode)
        ensures
            r == mode_of(self),
    {
        match self {
            ValuePlan::Selective => ClosureMode::Selective,
            ValuePlan::Fused => ClosureMode::FullPage,
        }
    }
}

/// Nothing was read.
pub open spec fn nothing_read() -> AccessMetrics {
    AccessMetrics {
        logical_bytes: 0,
        delivered_bytes: 0,
        transferred_bytes: 0,
        transfer_operations: 0,
        frames_decoded: 0,
    }
}

pub fn zero_metrics() -> (r: AccessMetrics)
    ensures
        r == nothing_read(),
{
    AccessMetrics {
        logical_bytes: 0,
        delivered_bytes: 0,
        transferred_bytes: 0,
        transfer_operations: 0,
        frames_decoded: 0,
    }
}

/// What a run over one column came to: its answer, what it read, how many rows it
/// decoded and how many stored numbers it read.
#[derive(Clone, Debug)]
pub struct Stage {
    pub execution: Execution,
    pub metrics: AccessMetrics,
    pub primitive_values_read: usize,
}

#[derive(Clone, Debug)]
pub struct PipelineResult {
    pub sum: i128,
    pub ranges: Vec<Span>,
    pub selector_metrics: AccessMetrics,
    pub value_metrics: AccessMetrics,
    pub selector_decoded_rows: usize,
    pub value_decoded_rows: usize,
    pub selector_primitive_values_read: usize,
    pub value_primitive_values_read: usize,
}

/// A result whose part about the values is what their stage came to.
pub open spec fn sums(result: PipelineResult, stage: Stage, ranges: Seq<Span>) -> bool {
    &&& stage.execution.answer matches Answer::Sum(sum)
    &&& result.sum == sum
    &&& result.ranges@ == ranges
    &&& result.value_metrics == stage.metrics
    &&& result.value_decoded_rows == stage.execution.decoded_rows
    &&& result.value_primitive_values_read == stage.primitive_values_read
}

/// A result whose part about the selector is what its stage came to.
pub open spec fn filters(result: PipelineResult, stage: Stage) -> bool {
    &&& result.selector_metrics == stage.metrics
    &&& result.selector_decoded_rows == stage.execution.decoded_rows
    &&& result.selector_primitive_values_read == stage.primitive_values_read
}

/// The result of a sum over rows that are known.
pub fn selection_result(ranges: Vec<Span>, value: &Stage) -> (r: Result<PipelineResult, StudyError>)
    ensures
        if value.execution.answer is Sum {
            r matches Ok(result) && {
                &&& sums(result, *value, ranges@)
                &&& result.selector_metrics == nothing_read()
                &&& result.selector_decoded_rows == 0
                &&& result.selector_primitive_values_read == 0
            }
        } else {
            r matches Err(StudyError::AggregateNotSum)
        },
{
    match &value.execution.answer {
        Answer::Sum(sum) => Ok(
            PipelineResult {
                sum: *sum,
                ranges,
                selector_metrics: zero_metrics(),
                value_metrics: value.metrics,
                selector_decoded_rows: 0,
                value_decoded_rows: value.execution.decoded_rows,
                selector_primitive_values_read: 0,
                value_primitive_values_read: value.primitive_values_read,
            },
        ),
        _ => Err(StudyError::AggregateNotSum),
    }
}

/// The ranges to sum over, given what the filter came to.
pub fn filtered_ranges(selector_rows: usize, value_rows: usize, filter: &Stage) -> (r: Result<
    Vec<Span>,
    StudyError,
>)
    ensures
        if selector_rows != value_rows {
            r matches Err(StudyError::PipelineRowsDiffer)
        } else {
            match filter.execution.answer {
                Answer::Ranges(ranges) => r matches Ok(found) && found@ == ranges@,
                _ => r matches Err(StudyError::FilterNotRanges),
            }
        },
{
    if selector_rows != value_rows {
        return Err(StudyError::PipelineRowsDiffer);
    }
    match &filter.execution.answer {
        Answer::Ranges(ranges) => {
            let found = ranges.clone();
            assert(found@ =~= ranges@);
            Ok(found)
        },
        _ => Err(StudyError::FilterNotRanges),
    }
}

/// The result of a filter of one column and a sum of another, given what both came
/// to.
pub fn pipeline_result(
    selector_rows: usize,
    value_rows: usize,
    filter: &Stage,
    value: &Stage,
) -> (r: Result<PipelineResult, StudyError>)
    ensures
        if selector_rows != value_rows {
            r matches Err(StudyError::PipelineRowsDiffer)
        } else {
            match filter.execution.answer {
                Answer::Ranges(ranges) => if value.execution.answer is Sum {
                    r matches Ok(result) && sums(result, *value, ranges@) && filters(
                        result,
                        *filter,
                    )
                } else {
                    r matches Err(StudyError::AggregateNotSum)
                },
                _ => r matches Err(StudyError::FilterNotRanges),
            }
        },
{
    let ranges = match filtered_ranges(selector_rows, value_rows, filter) {
        Ok(ranges) => ranges,
        Err(e) => {
            return Err(e);
        },
    };
    match selection_result(ranges, value) {
        Ok(result) => Ok(
            PipelineResult {
                sum: result.sum,
                ranges: result.ranges,
                selector_metrics: filter.metrics,
                value_metrics: result.value_metrics,
                selector_decoded_rows: filter.execution.decoded_rows,
                value_decoded_rows: result.value_decoded_rows,
                selector_primitive_values_read: filter.primitive_values_read,
                value_primitive_values_read: result.value_primitive_values_read,
            },
        ),
        Err(e) => Err(e),
    }
}

/// Why a query over two columns has no result.
#[derive(Debug)]
pub enum PipelineError {
    Study(StudyError),
    Access(Error),
}

/// What a run in a new session comes to.
pub open spec fn staged(
    r: Result<Stage, Error>,
    context: Context,
    steps: crate::access_compiler::runtime::Outcome<Reply>,
    decoded: int,
) -> bool {
    let ledger = replay(context, empty_ledger(), steps.trace);
    match steps.result {
        Err(e) => r == Err::<Stage, Error>(e),
        Ok(reply) => if context.accounted && ledger.logical.len() > usize::MAX {
            r == Err::<Stage, Error>(Error::AccessUncountable)
        } else {
            &&& r matches Ok(stage)
            &&& stage.execution.answer@ == reply
            &&& stage.execution.metrics == metrics_of(context, ledger)
            &&& stage.execution.decoded_rows == decoded
            &&& stage.metrics == metrics_of(context, ledger)
            &&& stage.primitive_values_read == ledger.values
        },
    }
}

fn open_session<'a>(page: &'a SerializedPage, mode: ClosureMode, accounted: bool) -> (r: ReadSession<
    'a,
>)
    requires
        page.wf(),
    ensures
        r.wf(),
        r@ == empty_ledger(),
        r.page() == page,
        r.context() == page_context(page, mode, accounted),
{
    if accounted {
        ReadSession::new(page, mode)
    } else {
        ReadSession::new_untracked(page, mode)
    }
}

/// What the filter of a column comes to: by the plan that is compiled for it, or by a
/// scan of all its rows.
pub open spec fn filter_staged(
    r: Result<Stage, Error>,
    column: EncodedColumn,
    low: i64,
    high: i64,
    plans: PipelinePlans,
    accounted: bool,
) -> bool {
    let context = page_context(&column.page, mode_of(plans.value), accounted);
    let len = column.truth@.len() as int;
    match query_error(len, filter_query(low, high)) {
        Some(e) => r == Err::<Stage, Error>(e),
        None => match plans.filter {
            FilterPlan::Compiled => {
                let steps = filter_outcome(column, context, low, high);
                match steps.result {
                    Err(e) => r == Err::<Stage, Error>(e),
                    Ok((reply, decoded)) => staged(
                        r,
                        context,
                        crate::access_compiler::runtime::Outcome {
                            result: Ok(reply),
                            trace: steps.trace,
                        },
                        decoded,
                    ),
                }
            },
            FilterPlan::FullScan => staged(
                r,
                context,
                scan_answer(
                    context,
                    column.decoder.arena(),
                    column.decoder.top().0 as int,
                    filter_query(low, high),
                    len,
                    0,
                    len,
                ),
                len,
            ),
        },
    }
}

/// Filters a column by the bounds of its values.
pub fn filter_stage(
    column: &EncodedColumn,
    low: i64,
    high: i64,
    plans: PipelinePlans,
    accounted: bool,
) -> (r: Result<Stage, Error>)
    requires
        column.wf(),
    ensures
        filter_staged(r, *column, low, high, plans, accounted),
{
    let mut session = open_session(&column.page, plans.value.mode(), accounted);
    let query = Query::Filter { predicate: Predicate::Between { low, high } };
    let filtered = match plans.filter {
        FilterPlan::Compiled => filter_session(column, low, high, &mut session),
        FilterPlan::FullScan => execute_session(column, &query, true, &mut session),
    };
    match filtered {
        Ok(execution) => {
            let metrics = execution.metrics;
            let primitive_values_read: usize = session.primitive_values_read();
            Ok(Stage { execution, metrics, primitive_values_read })
        },
        Err(e) => Err(e),
    }
}

/// What the sum over ranges of a column comes to.
pub open spec fn value_staged(
    r: Result<Stage, Error>,
    column: EncodedColumn,
    ranges: Seq<Span>,
    plan: ValuePlan,
    accounted: bool,
) -> bool {
    let context = page_context(&column.page, mode_of(plan), accounted);
    let len = column.truth@.len() as int;
    if !ranges_fit(ranges, len) {
        r == Err::<Stage, Error>(Error::QueryRowsInvalid)
    } else {
        staged(
            r,
            context,
            selection_answer(
                context,
                column.decoder.arena(),
                column.decoder.top().0 as int,
                len,
                ranges,
                plan == ValuePlan::Fused,
            ),
            if plan == ValuePlan::Fused {
                len
            } else {
                ranges_rows(ranges, ranges.len() as int)
            },
        )
    }
}

/// Sums the values of selected rows.
pub fn value_stage(column: &EncodedColumn, ranges: &[Span], plan: ValuePlan, accounted: bool) -> (r:
    Result<Stage, Error>)
    requires
        column.wf(),
    ensures
        value_staged(r, *column, ranges@, plan, accounted),
{
    let mut session = open_session(&column.page, plan.mode(), accounted);
    let all_rows = match plan {
        ValuePlan::Selective => false,
        ValuePlan::Fused => true,
    };
    match execute_ranges(column, ranges, all_rows, &mut session) {
        Ok(execution) => {
            let metrics = execution.metrics;
            let primitive_values_read: usize = session.primitive_values_read();
            Ok(Stage { execution, metrics, primitive_values_read })
        },
        Err(e) => Err(e),
    }
}

/// The result of a sum over known rows of a column.
pub open spec fn sums_known(
    r: Result<PipelineResult, PipelineError>,
    column: EncodedColumn,
    ranges: Seq<Span>,
    plan: ValuePlan,
    accounted: bool,
) -> bool {
    exists|stage: Result<Stage, Error>|
        {
            &&& #[trigger] value_staged(stage, column, ranges, plan, accounted)
            &&& match stage {
                Err(e) => r == Err::<PipelineResult, PipelineError>(PipelineError::Access(e)),
                Ok(stage) => r matches Ok(result) && {
                    &&& sums(result, stage, ranges)
                    &&& result.selector_metrics == nothing_read()
                    &&& result.selector_decoded_rows == 0
                    &&& result.selector_primitive_values_read == 0
                },
            }
        }
}

/// Sums known rows of a column, with or without an account of what is read.
fn known_selection_mode(
    column: &EncodedColumn,
    ranges: &[Span],
    plan: ValuePlan,
    accounted: bool,
) -> (r: Result<PipelineResult, PipelineError>)
    requires
        column.wf(),
    ensures
        sums_known(r, *column, ranges@, plan, accounted),
{
    let staged = value_stage(column, ranges, plan, accounted);
    assert(value_staged(staged, *column, ranges@, plan, accounted));
    let stage = match staged {
        Ok(stage) => stage,
        Err(e) => {
            return Err(PipelineError::Access(e));
        },
    };
    match selection_result(vstd::slice::slice_to_vec(ranges), &stage) {
        Ok(result) => Ok(result),
        Err(e) => Err(PipelineError::Study(e)),
    }
}

/// The result of a filter of one column and a sum of another.
pub open spec fn completes(
    r: Result<PipelineResult, PipelineError>,
    selector: EncodedColumn,
    value: EncodedColumn,
    low: i64,
    high: i64,
    plans: PipelinePlans,
    accounted: bool,
) -> bool {
    if selector.truth@.len() != value.truth@.len() {
        r == Err::<PipelineResult, PipelineError>(
            PipelineError::Study(StudyError::PipelineRowsDiffer),
        )
    } else {
        exists|filter: Result<Stage, Error>|
            {
                &&& #[trigger] filter_staged(filter, selector, low, high, plans, accounted)
                &&& match filter {
                    Err(e) => r == Err::<PipelineResult, PipelineError>(PipelineError::Access(e)),
                    Ok(filter) => filter.execution.answer matches Answer::Ranges(ranges)
                        && sums_filtered(r, value, ranges@, filter, plans.value, accounted),
                }
            }
    }
}

/// The result of a sum over the rows that a filter gave.
pub open spec fn sums_filtered(
    r: Result<PipelineResult, PipelineError>,
    value: EncodedColumn,
    ranges: Seq<Span>,
    filter: Stage,
    plan: ValuePlan,
    accounted: bool,
) -> bool {
    exists|stage: Result<Stage, Error>|
        {
            &&& #[trigger] value_staged(stage, value, ranges, plan, accounted)
            &&& match stage {
                Err(e) => r == Err::<PipelineResult, PipelineError>(PipelineError::Access(e)),
                Ok(stage) => r matches Ok(result) && sums(result, stage, ranges) && filters(
                    result,
                    filter,
                ),
            }
        }
}

/// Filters one column and sums another, with or without an account of what is read.
fn complete_query_mode(
    selector: &EncodedColumn,
    value: &EncodedColumn,
    low: i64,
    high: i64,
    plans: PipelinePlans,
    accounted: bool,
) -> (r: Result<PipelineResult, PipelineError>)
    requires
        selector.wf(),
        value.wf(),
    ensures
        completes(r, *selector, *value, low, high, plans, accounted),
{
    if selector.truth.len() != value.truth.len() {
        return Err(PipelineError::Study(StudyError::PipelineRowsDiffer));
    }
    let filtered = filter_stage(selector, low, high, plans, accounted);
    assert(filter_staged(filtered, *selector, low, high, plans, accounted));
    proof {
        lemma_filters_give_ranges(
            *selector,
            page_context(&selector.page, mode_of(plans.value), accounted),
            low,
            high,
        );
    }
    let filter = match filtered {
        Ok(filter) => filter,
        Err(e) => {
            return Err(PipelineError::Access(e));
        },
    };
    let ranges = match filtered_ranges(selector.truth.len(), value.truth.len(), &filter) {
        Ok(ranges) => ranges,
        Err(e) => {
            return Err(PipelineError::Study(e));
        },
    };
    let staged = value_stage(value, ranges.as_slice(), plans.value, accounted);
    assert(value_staged(staged, *value, ranges@, plans.value, accounted));
    let stage = match staged {
        Ok(stage) => stage,
        Err(e) => {
            return Err(PipelineError::Access(e));
        },
    };
    match pipeline_result(selector.truth.len(), value.truth.len(), &filter, &stage) {
        Ok(result) => Ok(result),
        Err(e) => Err(PipelineError::Study(e)),
    }
}

/// Sums known rows of a column.
pub fn known_selection(column: &EncodedColumn, ranges: &[Span], plan: ValuePlan) -> (r: Result<
    PipelineResult,
    PipelineError,
>)
    requires
        column.wf(),
    ensures
        sums_known(r, *column, ranges@, plan, true),
{
    known_selection_mode(column, ranges, plan, true)
}

/// Sums known rows of a column and keeps no account of what is read.
pub fn known_selection_untracked(column: &EncodedColumn, ranges: &[Span], plan: ValuePlan) -> (r:
    Result<PipelineResult, PipelineError>)
    requires
        column.wf(),
    ensures
        sums_known(r, *column, ranges@, plan, false),
{
    known_selection_mode(column, ranges, plan, false)
}

/// Filters one column by the bounds of its values, and sums the rows of another that
/// are left.
pub fn complete_query(
    selector: &EncodedColumn,
    value: &EncodedColumn,
    low: i64,
    high: i64,
    plans: PipelinePlans,
) -> (r: Result<PipelineResult, PipelineError>)
    requires
        selector.wf(),
        value.wf(),
    ensures
        completes(r, *selector, *value, low, high, plans, true),
{
    complete_query_mode(selector, value, low, high, plans, true)
}

/// Filters one column and sums another, and keeps no account of what is read.
pub fn complete_query_untracked(
    selector: &EncodedColumn,
    value: &EncodedColumn,
    low: i64,
    high: i64,
    plans: PipelinePlans,
) -> (r: Result<PipelineResult, PipelineError>)
    requires
        selector.wf(),
        value.wf(),
    ensures
        completes(r, *selector, *value, low, high, plans, false),
{
    complete_query_mode(selector, value, low, high, plans, false)
}

/// The filter of an encoded column gives the rows whose values lie within the bounds.
#[verifier::spinoff_prover]
#[verifier::rlimit(60)]
proof fn lemma_filter(
    filter: Result<Stage, Error>,
    column: EncodedColumn,
    recipe: Recipe,
    keys: Seq<Option<i64>>,
    patch_rows: Set<usize>,
    low: i64,
    high: i64,
    plans: PipelinePlans,
    accounted: bool,
)
    requires
        column.encodes(recipe, keys, patch_rows),
        rows_numbered(recipe, keys.len()),
        low <= high,
        filter_staged(filter, column, low, high, plans, accounted),
    ensures
        match filter {
            Ok(stage) => stage.execution.answer@ == Reply::Ranges(
                ranges_where(selects(keys, low, high), 0, keys.len() as int),
            ),
            Err(e) => narrow_column(recipe, widened(keys), marked(keys.len(), patch_rows)) && 2
                * keys.len() <= usize::MAX ==> e == Error::AccessUncountable,
        },
{
    let n = keys.len() as int;
    let mode = mode_of(plans.value);
    let hit = selects(keys, low, high);
    let match_all = matching(listed(keys), Predicate::Between { low, high });
    let query = filter_query(low, high);
    assert(keys.len() == column.truth.len());
    law_scans_answer_nothing_else(column, recipe, keys, patch_rows, mode, accounted, query, 0, n);
    law_filters_tell_the_truth(column, recipe, keys, patch_rows, mode, accounted, low, high);
    if narrow_column(recipe, widened(keys), marked(keys.len(), patch_rows)) && 2 * keys.len()
        <= usize::MAX {
        law_filters_are_exact(column, recipe, keys, patch_rows, mode, accounted, low, high);
        law_scans_answer_from_the_values(
            column,
            recipe,
            keys,
            patch_rows,
            mode,
            accounted,
            query,
            0,
            n,
        );
    }
    assert forall|row: int| 0 <= row < n implies #[trigger] match_all(row) == hit(row) by {
        assert(match_all(row) == satisfies(
            Predicate::Between { low, high },
            listed(keys)(row),
        ));
    }
    lemma_pushed_same(Seq::empty(), match_all, hit, 0, n);
}

/// The sum over the rows that a predicate selects is that of their values.
proof fn lemma_values(
    staged: Result<Stage, Error>,
    column: EncodedColumn,
    recipe: Recipe,
    keys: Seq<Option<i64>>,
    values: Seq<Option<i64>>,
    patch_rows: Set<usize>,
    low: i64,
    high: i64,
    plan: ValuePlan,
    accounted: bool,
)
    requires
        column.encodes(recipe, values, patch_rows),
        rows_numbered(recipe, values.len()),
        keys.len() == values.len(),
        value_staged(
            staged,
            column,
            ranges_where(selects(keys, low, high), 0, keys.len() as int),
            plan,
            accounted,
        ),
    ensures
        match staged {
            Ok(stage) => stage.execution.answer@ == Reply::Sum(
                sum_of(selected(keys, values, low, high), 0, values.len() as int),
            ),
            Err(e) => narrow_column(recipe, widened(values), marked(values.len(), patch_rows)) ==> e
                == Error::AccessUncountable,
        },
{
    let n = keys.len() as int;
    let hit = selects(keys, low, high);
    let ranges = ranges_where(hit, 0, n);
    let wanted = selected(keys, values, low, high);
    let held = only_where(hit, listed(values));
    let all_rows = plan == ValuePlan::Fused;
    let mode = mode_of(plan);
    assert(values.len() == column.truth.len());
    law_ranges_sum_what_hits(hit, listed(values), n);
    law_selections_sum_nothing_else(
        column,
        recipe,
        values,
        patch_rows,
        mode,
        accounted,
        ranges,
        all_rows,
    );
    if narrow_column(recipe, widened(values), marked(values.len(), patch_rows)) {
        law_selections_sum_the_values(
            column,
            recipe,
            values,
            patch_rows,
            mode,
            accounted,
            ranges,
            all_rows,
        );
    }
    assert forall|row: int| 0 <= row < n implies #[trigger] held(row) == wanted(row) by {}
    lemma_same_sum(held, wanted, 0, n);
}

/// A query over two encoded columns that succeeds gives the rows whose selector lies
/// within the bounds, and the sum of the values that were encoded in those rows. Where
/// no primitive is given more than a signed 64-bit number it succeeds, unless more bytes
/// are read, or rows decoded, than can be counted.
#[verifier::spinoff_prover]
#[verifier::rlimit(60)]
pub proof fn law_pipelines_are_exact(
    r: Result<PipelineResult, PipelineError>,
    selector: EncodedColumn,
    value: EncodedColumn,
    recipes: (Recipe, Recipe),
    keys: Seq<Option<i64>>,
    values: Seq<Option<i64>>,
    patches: (Set<usize>, Set<usize>),
    low: i64,
    high: i64,
    plans: PipelinePlans,
    accounted: bool,
)
    requires
        selector.encodes(recipes.0, keys, patches.0),
        value.encodes(recipes.1, values, patches.1),
        rows_numbered(recipes.0, keys.len()),
        rows_numbered(recipes.1, values.len()),
        keys.len() == values.len(),
        low <= high,
        completes(r, selector, value, low, high, plans, accounted),
    ensures
        match r {
            Ok(result) => {
                &&& result.ranges@ == ranges_where(selects(keys, low, high), 0, keys.len() as int)
                &&& result.sum == sum_of(
                    selected(keys, values, low, high),
                    0,
                    values.len() as int,
                )
            },
            Err(e) => narrow_column(recipes.0, widened(keys), marked(keys.len(), patches.0))
                && narrow_column(recipes.1, widened(values), marked(values.len(), patches.1)) && 2
                * keys.len() <= usize::MAX ==> e == PipelineError::Access(Error::AccessUncountable),
        },
{
    let ranges = ranges_where(selects(keys, low, high), 0, keys.len() as int);
    let filter = choose|filter: Result<Stage, Error>|
        {
            &&& #[trigger] filter_staged(filter, selector, low, high, plans, accounted)
            &&& match filter {
                Err(e) => r == Err::<PipelineResult, PipelineError>(PipelineError::Access(e)),
                Ok(filter) => filter.execution.answer matches Answer::Ranges(ranges)
                    && sums_filtered(r, value, ranges@, filter, plans.value, accounted),
            }
        };
    lemma_filter(
        filter,
        selector,
        recipes.0,
        keys,
        patches.0,
        low,
        high,
        plans,
        accounted,
    );
    if filter is Ok {
        let stage = filter->Ok_0;
        assert(sums_filtered(r, value, ranges, stage, plans.value, accounted));
        let staged = choose|staged: Result<Stage, Error>|
            {
                &&& #[trigger] value_staged(staged, value, ranges, plans.value, accounted)
                &&& match staged {
                    Err(e) => r == Err::<PipelineResult, PipelineError>(PipelineError::Access(e)),
                    Ok(summed) => r matches Ok(result) && sums(result, summed, ranges) && filters(
                        result,
                        stage,
                    ),
                }
            };
        lemma_values(
            staged,
            value,
            recipes.1,
            keys,
            values,
            patches.1,
            low,
            high,
            plans.value,
            accounted,
        );
    }
}

/// What is reported of a query.
#[derive(Clone, Copy, Debug, PartialEq, Eq, Structural)]
pub struct Outcome {
    pub sum: i128,
    pub matched_rows: usize,
    pub selector: AccessMetrics,
    pub value: AccessMetrics,
    pub selector_decoded_rows: usize,
    pub value_decoded_rows: usize,
    pub selector_primitive_values_read: usize,
    pub value_primitive_values_read: usize,
    pub page_index_entries_examined: usize,
    pub candidate_pages: usize,
    pub boundary_order_used: bool,
}

/// What is reported of a query that this library answered.
pub fn gen_outcome(result: &PipelineResult, matched_rows: usize) -> (r: Outcome)
    ensures
        r == (Outcome {
            sum: result.sum,
            matched_rows,
            selector: result.selector_metrics,
            value: result.value_metrics,
            selector_decoded_rows: result.selector_decoded_rows,
            value_decoded_rows: result.value_decoded_rows,
            selector_primitive_values_read: result.selector_primitive_values_read,
            value_primitive_values_read: result.value_primitive_values_read,
            page_index_entries_examined: 0,
            candidate_pages: 0,
            boundary_order_used: false,
        }),
{
    Outcome {
        sum: result.sum,
        matched_rows,
        selector: result.selector_metrics,
        value: result.value_metrics,
        selector_decoded_rows: result.selector_decoded_rows,
        value_decoded_rows: result.value_decoded_rows,
        selector_primitive_values_read: result.selector_primitive_values_read,
        value_primitive_values_read: result.value_primitive_values_read,
        page_index_entries_examined: 0,
        candidate_pages: 0,
        boundary_order_used: false,
    }
}

/// What a query of a Parquet file came to.
#[derive(Clone, Copy, Debug, PartialEq, Eq, Structural)]
pub struct ParquetAggregate {
    pub sum: i128,
    pub matched_rows: usize,
    pub bytes_read: usize,
    pub unique_bytes: usize,
    pub read_calls: usize,
    pub timestamp_values_examined: usize,
    pub page_index_entries_examined: usize,
    pub candidate_pages: usize,
    pub boundary_order_used: bool,
}

/// What is reported of a query of a Parquet file.
pub fn parquet_outcome(result: ParquetAggregate) -> (r: Outcome)
    ensures
        r == (Outcome {
            sum: result.sum,
            matched_rows: result.matched_rows,
            selector: AccessMetrics {
                logical_bytes: 0,
                delivered_bytes: result.bytes_read,
                transferred_bytes: result.unique_bytes,
                transfer_operations: result.read_calls,
                frames_decoded: 0,
            },
            value: nothing_read(),
            selector_decoded_rows: result.timestamp_values_examined,
            value_decoded_rows: result.matched_rows,
            selector_primitive_values_read: result.timestamp_values_examined,
            value_primitive_values_read: result.matched_rows,
            page_index_entries_examined: result.page_index_entries_examined,
            candidate_pages: result.candidate_pages,
            boundary_order_used: result.boundary_order_used,
        }),
{
    Outcome {
        sum: result.sum,
        matched_rows: result.matched_rows,
        selector: AccessMetrics {
            logical_bytes: 0,
            delivered_bytes: result.bytes_read,
            transferred_bytes: result.unique_bytes,
            transfer_operations: result.read_calls,
            frames_decoded: 0,
        },
        value: zero_metrics(),
        selector_decoded_rows: result.timestamp_values_examined,
        value_decoded_rows: result.matched_rows,
        selector_primitive_values_read: result.timestamp_values_examined,
        value_primitive_values_read: result.matched_rows,
        page_index_entries_examined: result.page_index_entries_examined,
        candidate_pages: result.candidate_pages,
        boundary_order_used: result.boundary_order_used,
    }
}

/// Holds what is reported against what is right.
pub fn verify(result: &Outcome, expected_sum: i128, matched: usize, name: &str) -> (r: Result<
    (),
    StudyError,
>)
    ensures
        if result.sum == expected_sum && result.matched_rows == matched {
            r is Ok
        } else {
            r matches Err(StudyError::IncorrectResult(of)) && of@ == name@
        },
{
    if result.sum != expected_sum || result.matched_rows != matched {
        return Err(StudyError::IncorrectResult(String::from_str(name)));
    }
    Ok(())
}

/// The counts of the selector and of the values can be added up.
pub open spec fn addable(selector: AccessMetrics, value: AccessMetrics) -> bool {
    &&& selector.logical_bytes + value.logical_bytes <= usize::MAX
    &&& selector.delivered_bytes + value.delivered_bytes <= usize::MAX
    &&& selector.transferred_bytes + value.transferred_bytes <= usize::MAX
    &&& selector.transfer_operations + value.transfer_operations <= usize::MAX
    &&& selector.frames_decoded + value.frames_decoded <= usize::MAX
}

/// What was read of the selector and of the values together.
pub fn combined_metrics(selector: AccessMetrics, value: AccessMetrics) -> (r: AccessMetrics)
    requires
        addable(selector, value),
    ensures
        r.logical_bytes == selector.logical_bytes + value.logical_bytes,
        r.delivered_bytes == selector.delivered_bytes + value.delivered_bytes,
        r.transferred_bytes == selector.transferred_bytes + value.transferred_bytes,
        r.transfer_operations == selector.transfer_operations + value.transfer_operations,
        r.frames_decoded == selector.frames_decoded + value.frames_decoded,
{
    AccessMetrics {
        logical_bytes: selector.logical_bytes + value.logical_bytes,
        delivered_bytes: selector.delivered_bytes + value.delivered_bytes,
        transferred_bytes: selector.transferred_bytes + value.transferred_bytes,
        transfer_operations: selector.transfer_operations + value.transfer_operations,
        frames_decoded: selector.frames_decoded + value.frames_decoded,
    }
}

} // verus!
