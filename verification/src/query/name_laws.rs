//! That results are told apart by the names of their columns.
use vstd::prelude::*;

#[allow(unused_imports)]
use crate::query::agg_fn::{result_name, AggFn};
#[allow(unused_imports)]
use crate::query::window_fn::WindowFn;
#[allow(unused_imports)]
use crate::text::{decimal, signed_decimal};
#[allow(unused_imports)]
use crate::text_laws::numerals_differ;

verus! {

/// Aggregates of one field by different functions have different names, and so
/// have aggregates of different fields by one function.
pub proof fn aggregates_have_their_own_names(
    field: Seq<char>,
    other: Seq<char>,
    a: AggFn,
    b: AggFn,
)
    ensures
        result_name(field, a) == result_name(field, b) ==> a == b,
        result_name(field, a) == result_name(other, a) ==> field == other,
{
    reveal_strlit("count");
    reveal_strlit("sum");
    reveal_strlit("min");
    reveal_strlit("max");
    reveal_strlit("avg");
    reveal_strlit("first");
    reveal_strlit("last");
    reveal_strlit("_");
    let n = field.len() as int;
    assert(result_name(field, a).skip(n + 1) =~= a.name());
    assert(result_name(field, b).skip(n + 1) =~= b.name());
    if a.name() == b.name() {
        assert(a.name()[0] == b.name()[0]);
        assert(a.name()[1] == b.name()[1]);
    }
    if result_name(field, a) == result_name(other, a) {
        assert(result_name(field, a).take(n) =~= field);
        assert(result_name(other, a).take(other.len() as int) =~= other);
    }
}

/// What the name of a window function starts with.
pub open spec fn window_stem(func: WindowFn) -> Seq<char> {
    match func {
        WindowFn::RowNumber => "row_number"@,
        WindowFn::Rank { .. } => "rank"@,
        WindowFn::DenseRank { .. } => "dense_rank"@,
        WindowFn::Lead { .. } => "lead_"@,
        WindowFn::Lag { .. } => "lag_"@,
        WindowFn::Delta => "delta"@,
        WindowFn::Rate => "rate"@,
        WindowFn::IRate => "irate"@,
        WindowFn::MovingAverage { .. } => "moving_avg_"@,
        WindowFn::CumulativeSum => "cumulative_sum"@,
        WindowFn::Increase => "increase"@,
        WindowFn::RangeMovingAverage { .. } => "range_avg_"@,
        WindowFn::RangeSum { .. } => "range_sum_"@,
        WindowFn::RangeCount { .. } => "range_count_"@,
    }
}

/// The name of a window function starts with its stem. One with an offset or a
/// window has that behind the stem, and one over a range has the nanoseconds
/// there with their unit, so that those that differ in it have different names.
pub proof fn windows_have_their_own_names(a: WindowFn, b: WindowFn)
    requires
        a.name() == b.name(),
        window_stem(a) == window_stem(b),
    ensures
        window_stem(a).is_prefix_of(a.name()),
        a matches WindowFn::Lead { offset, .. } ==> (b matches WindowFn::Lead { offset: other, .. }
            ==> offset == other),
        a matches WindowFn::Lag { offset, .. } ==> (b matches WindowFn::Lag { offset: other, .. }
            ==> offset == other),
        a matches WindowFn::MovingAverage { window_size } ==> (b matches WindowFn::MovingAverage {
            window_size: other,
        } ==> window_size == other),
        a matches WindowFn::RangeMovingAverage { range_ns } ==> (
        b matches WindowFn::RangeMovingAverage { range_ns: other } ==> range_ns == other),
        a matches WindowFn::RangeSum { range_ns } ==> (b matches WindowFn::RangeSum {
            range_ns: other,
        } ==> range_ns == other),
        a matches WindowFn::RangeCount { range_ns } ==> (b matches WindowFn::RangeCount {
            range_ns: other,
        } ==> range_ns == other),
{
    let stem = window_stem(a);
    let n = stem.len() as int;
    reveal_strlit("ns");
    assert(stem.is_prefix_of(a.name())) by {
        assert(a.name().take(n) =~= stem);
    }
    let tail = a.name().skip(n);
    match (a, b) {
        (WindowFn::Lead { offset, .. }, WindowFn::Lead { offset: other, .. }) => {
            assert(tail =~= decimal(offset as nat));
            assert(b.name().skip(n) =~= decimal(other as nat));
            numerals_differ(offset as int, other as int);
        },
        (WindowFn::Lag { offset, .. }, WindowFn::Lag { offset: other, .. }) => {
            assert(tail =~= decimal(offset as nat));
            assert(b.name().skip(n) =~= decimal(other as nat));
            numerals_differ(offset as int, other as int);
        },
        (
            WindowFn::MovingAverage { window_size },
            WindowFn::MovingAverage { window_size: other },
        ) => {
            assert(tail =~= decimal(window_size as nat));
            assert(b.name().skip(n) =~= decimal(other as nat));
            numerals_differ(window_size as int, other as int);
        },
        (
            WindowFn::RangeMovingAverage { range_ns },
            WindowFn::RangeMovingAverage { range_ns: other },
        ) => {
            assert(tail.take(tail.len() - 2) =~= signed_decimal(range_ns as int));
            assert(b.name().skip(n).take(tail.len() - 2) =~= signed_decimal(other as int));
            numerals_differ(range_ns as int, other as int);
        },
        (WindowFn::RangeSum { range_ns }, WindowFn::RangeSum { range_ns: other }) => {
            assert(tail.take(tail.len() - 2) =~= signed_decimal(range_ns as int));
            assert(b.name().skip(n).take(tail.len() - 2) =~= signed_decimal(other as int));
            numerals_differ(range_ns as int, other as int);
        },
        (WindowFn::RangeCount { range_ns }, WindowFn::RangeCount { range_ns: other }) => {
            assert(tail.take(tail.len() - 2) =~= signed_decimal(range_ns as int));
            assert(b.name().skip(n).take(tail.len() - 2) =~= signed_decimal(other as int));
            numerals_differ(range_ns as int, other as int);
        },
        _ => {},
    }
}

} // verus!
