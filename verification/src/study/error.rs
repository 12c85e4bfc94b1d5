//! What can go wrong in a study.
#[allow(unused_imports)]
use vstd::string::*;
use vstd::prelude::*;

verus! {

#[derive(Clone, Debug, PartialEq, Eq)]
pub enum StudyError {
    /// A predicate's upper bound has no value above it.
    UpperNotExclusive,
    /// A selector has no value.
    SelectorEmpty,
    /// A selector's values reach the largest there is.
    SelectorMaximum,
    /// A selector and the values it selects have different numbers of rows.
    RowCountDiffers,
    /// The cases of a study are not numbered one after the other.
    CasesNotContiguous,
    /// A column has no value to query.
    ColumnEmpty,
    /// A column has every value there is.
    ColumnComplete,
    /// The pages or the alignment of a bundle are unusable.
    BundleInvalid,
    BundleAlignmentOverflow,
    BundleLengthOverflow,
    /// A bundle does not have the page.
    BundlePageAbsent,
    EvictionOverflow,
    ChecksumOverflow,
    /// More is counted than can be.
    TotalOverflow,
    /// A table does not have the column.
    ColumnAbsent(String),
    /// A row of a table is too short for the column.
    RowShort(String),
    /// A table of metrics does not have the metric.
    MetricAbsent(String),
    /// A table has no row that is asked for.
    RowAbsent,
    /// A text has no header row.
    HeaderAbsent,
    /// The recipe opens a bracket that it does not end with.
    UnbalancedRecipe(String),
    /// What the recipe of this head has in its brackets is not an interval and a child.
    IntervalAndChild(String),
    /// The recipe of this head has this for an interval.
    BadInterval(String, String),
    /// The recipe of this head has no brackets for its interval and its child.
    IntervalAbsent(String),
    /// The recipe of this head has no brackets for its child.
    ChildAbsent(String),
    UnknownRecipe(String),
    MissingValues,
    MissingRecipe,
    MissingQuery,
    QueryKindAbsent,
    /// The query does not have the bound.
    QueryBoundAbsent(String, String),
    UnknownQueryKind(String),
    UnknownDocumentedQuery,
    /// The columns of a pipeline have different numbers of rows.
    PipelineRowsDiffer,
    /// A filter answered with something else than ranges.
    FilterNotRanges,
    /// A sum answered with something else than a sum.
    AggregateNotSum,
    /// What the name stands for answered wrongly.
    IncorrectResult(String),
}

/// The text of an error.
pub open spec fn message_of(error: StudyError) -> Seq<char> {
    match error {
        StudyError::UpperNotExclusive => "predicate upper bound cannot be made exclusive"@,
        StudyError::SelectorEmpty => "selector contains no values"@,
        StudyError::SelectorMaximum => "selector maximum prevents a half-open predicate"@,
        StudyError::RowCountDiffers => "selector/value row count differs"@,
        StudyError::CasesNotContiguous => "crossover study requires contiguous cases 0 through 14"@,
        StudyError::ColumnEmpty => "certificate study column contains no values"@,
        StudyError::ColumnComplete => "column spans the complete i64 domain"@,
        StudyError::BundleInvalid => "bundle pages and alignment are invalid"@,
        StudyError::BundleAlignmentOverflow => "bundle alignment overflow"@,
        StudyError::BundleLengthOverflow => "bundle length overflow"@,
        StudyError::BundlePageAbsent => "bundle page index is absent"@,
        StudyError::EvictionOverflow => "mmap eviction range overflow"@,
        StudyError::ChecksumOverflow => "scan checksum overflow"@,
        StudyError::TotalOverflow => "scan total overflow"@,
        StudyError::ColumnAbsent(name) => "column "@ + name@ + " is absent from the header"@,
        StudyError::RowShort(name) => "row is short of column "@ + name@,
        StudyError::MetricAbsent(name) => "metric "@ + name@ + " is absent"@,
        StudyError::RowAbsent => "required result row is absent"@,
        StudyError::HeaderAbsent => "file has no header row"@,
        StudyError::UnbalancedRecipe(spec) => "unbalanced recipe spec: "@ + spec@,
        StudyError::IntervalAndChild(head) => head@ + " needs an interval and a child recipe"@,
        StudyError::BadInterval(head, interval) => head@ + ": bad interval "@ + interval@,
        StudyError::IntervalAbsent(head) => head@ + " needs (interval, child)"@,
        StudyError::ChildAbsent(head) => head@ + " needs a child recipe"@,
        StudyError::UnknownRecipe(head) => "unknown recipe head "@ + head@,
        StudyError::MissingValues => "missing \"values\""@,
        StudyError::MissingRecipe => "missing \"recipe\""@,
        StudyError::MissingQuery => "missing \"query\""@,
        StudyError::QueryKindAbsent => "query needs a \"kind\""@,
        StudyError::QueryBoundAbsent(query, bound) => query@ + " needs \""@ + bound@ + "\""@,
        StudyError::UnknownQueryKind(kind) => "unknown query kind "@ + kind@,
        StudyError::UnknownDocumentedQuery => "unknown documentation query"@,
        StudyError::PipelineRowsDiffer => "pipeline columns have different row counts"@,
        StudyError::FilterNotRanges => "generated filter did not return ranges"@,
        StudyError::AggregateNotSum => "generated aggregate did not return a sum"@,
        StudyError::IncorrectResult(name) => name@ + " returned an incorrect query result"@,
    }
}

fn around(before: &str, name: &String, after: &str) -> (r: String)
    ensures
        r@ == before@ + name@ + after@,
{
    let mut text = String::from_str(before);
    text.append(name.as_str());
    text.append(after);
    text
}

fn before(text: &str, name: &String) -> (r: String)
    ensures
        r@ == text@ + name@,
{
    let mut whole = String::from_str(text);
    whole.append(name.as_str());
    whole
}

fn behind(name: &String, text: &str) -> (r: String)
    ensures
        r@ == name@ + text@,
{
    let mut whole = String::from_str(name.as_str());
    whole.append(text);
    whole
}

impl StudyError {
    /// The text of the error.
    pub fn message(&self) -> (r: String)
        ensures
            r@ == message_of(*self),
    {
        match self {
            StudyError::UpperNotExclusive => String::from_str(
                "predicate upper bound cannot be made exclusive",
            ),
            StudyError::SelectorEmpty => String::from_str("selector contains no values"),
            StudyError::SelectorMaximum => String::from_str(
                "selector maximum prevents a half-open predicate",
            ),
            StudyError::RowCountDiffers => String::from_str("selector/value row count differs"),
            StudyError::CasesNotContiguous => String::from_str(
                "crossover study requires contiguous cases 0 through 14",
            ),
            StudyError::ColumnEmpty => String::from_str(
                "certificate study column contains no values",
            ),
            StudyError::ColumnComplete => String::from_str("column spans the complete i64 domain"),
            StudyError::BundleInvalid => String::from_str("bundle pages and alignment are invalid"),
            StudyError::BundleAlignmentOverflow => String::from_str("bundle alignment overflow"),
            StudyError::BundleLengthOverflow => String::from_str("bundle length overflow"),
            StudyError::BundlePageAbsent => String::from_str("bundle page index is absent"),
            StudyError::EvictionOverflow => String::from_str("mmap eviction range overflow"),
            StudyError::ChecksumOverflow => String::from_str("scan checksum overflow"),
            StudyError::TotalOverflow => String::from_str("scan total overflow"),
            StudyError::ColumnAbsent(name) => around("column ", name, " is absent from the header"),
            StudyError::RowShort(name) => before("row is short of column ", name),
            StudyError::MetricAbsent(name) => around("metric ", name, " is absent"),
            StudyError::RowAbsent => String::from_str("required result row is absent"),
            StudyError::HeaderAbsent => String::from_str("file has no header row"),
            StudyError::UnbalancedRecipe(spec) => before("unbalanced recipe spec: ", spec),
            StudyError::IntervalAndChild(head) => behind(
                head,
                " needs an interval and a child recipe",
            ),
            StudyError::BadInterval(head, interval) => {
                let mut text = behind(head, ": bad interval ");
                text.append(interval.as_str());
                text
            },
            StudyError::IntervalAbsent(head) => behind(head, " needs (interval, child)"),
            StudyError::ChildAbsent(head) => behind(head, " needs a child recipe"),
            StudyError::UnknownRecipe(head) => before("unknown recipe head ", head),
            StudyError::MissingValues => String::from_str("missing \"values\""),
            StudyError::MissingRecipe => String::from_str("missing \"recipe\""),
            StudyError::MissingQuery => String::from_str("missing \"query\""),
            StudyError::QueryKindAbsent => String::from_str("query needs a \"kind\""),
            StudyError::QueryBoundAbsent(query, bound) => {
                let mut text = behind(query, " needs \"");
                text.append(bound.as_str());
                text.append("\"");
                text
            },
            StudyError::UnknownQueryKind(kind) => before("unknown query kind ", kind),
            StudyError::UnknownDocumentedQuery => String::from_str("unknown documentation query"),
            StudyError::PipelineRowsDiffer => String::from_str(
                "pipeline columns have different row counts",
            ),
            StudyError::FilterNotRanges => String::from_str(
                "generated filter did not return ranges",
            ),
            StudyError::AggregateNotSum => String::from_str(
                "generated aggregate did not return a sum",
            ),
            StudyError::IncorrectResult(name) => behind(
                name,
                " returned an incorrect query result",
            ),
        }
    }
}

} // verus!
