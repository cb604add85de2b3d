//! The aggregation functions and their names.
use vstd::prelude::*;
use vstd::string::*;

verus! {

broadcast use vstd::string::group_string_axioms;

/// Aggregation function type.
#[derive(Debug, Clone, Copy, PartialEq, Eq, Structural)]
pub enum AggFn {
    /// Count of non-null values.
    Count,
    /// Sum of values.
    Sum,
    /// Minimum value.
    Min,
    /// Maximum value.
    Max,
    /// Average (mean) value.
    Avg,
    /// First value: the value at the minimum timestamp.
    ///
    /// When a timestamp column is available, this is the value in the row with
    /// the smallest timestamp. The data need not be sorted. Only falls back to
    /// array position if no timestamp column is present.
    ///
    /// - **Empty bucket or all nulls**: null.
    /// - **Ties**: the first row encountered wins.
    /// - **Null timestamp**: the row is skipped.
    First,
    /// Last value: the value at the maximum timestamp.
    ///
    /// When a timestamp column is available, this is the value in the row with
    /// the largest timestamp. The data need not be sorted. Only falls back to
    /// array position if no timestamp column is present.
    ///
    /// - **Empty bucket or all nulls**: null.
    /// - **Ties**: the last row encountered wins.
    /// - **Null timestamp**: the row is skipped.
    Last,
}

impl AggFn {
    /// The name of the function in column names.
    pub open spec fn name(self) -> Seq<char> {
        match self {
            AggFn::Count => "count"@,
            AggFn::Sum => "sum"@,
            AggFn::Min => "min"@,
            AggFn::Max => "max"@,
            AggFn::Avg => "avg"@,
            AggFn::First => "first"@,
            AggFn::Last => "last"@,
        }
    }
}

/// Human-readable function name for column naming.
pub fn agg_fn_name(func: AggFn) -> (r: &'static str)
    ensures
        r@ == func.name(),
{
    match func {
        AggFn::Count => "count",
        AggFn::Sum => "sum",
        AggFn::Min => "min",
        AggFn::Max => "max",
        AggFn::Avg => "avg",
        AggFn::First => "first",
        AggFn::Last => "last",
    }
}

/// The name of the column that holds a field's aggregates: `field_function`.
pub open spec fn result_name(field: Seq<char>, func: AggFn) -> Seq<char> {
    field + "_"@ + func.name()
}

/// The name of the column that holds a field's aggregates.
pub fn result_column_name(field: &str, func: AggFn) -> (r: String)
    ensures
        r@ == result_name(field@, func),
{
    crate::text::joined_text(field, "_", agg_fn_name(func))
}

} // verus!
