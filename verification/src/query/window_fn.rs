//! The window functions and their names.
use vstd::prelude::*;
use vstd::string::*;

#[allow(unused_imports)]
use crate::text::{decimal, signed_decimal};
use crate::text::{push_decimal, push_signed};

verus! {

broadcast use vstd::string::group_string_axioms;

/// Window function type.
#[derive(Debug, Clone, PartialEq)]
pub enum WindowFn {
    /// Sequential 1-based row number within partition.
    RowNumber,
    /// Rank with gaps for ties on the order column.
    ///
    /// When `order_column` is `Some`, rank is determined by that column. When
    /// `None`, it is determined by the value column.
    Rank {
        /// Column to determine rank ordering. `None` uses the value column.
        order_column: Option<String>,
    },
    /// Rank without gaps for ties on the order column.
    DenseRank {
        /// Column to determine rank ordering. `None` uses the value column.
        order_column: Option<String>,
    },
    /// Value `offset` rows ahead; `default` if out of range.
    Lead {
        /// Number of rows to look ahead.
        offset: usize,
        /// Bits of the value when the look-ahead extends past the partition
        /// end.
        default: u64,
    },
    /// Value `offset` rows behind; `default` if out of range.
    Lag {
        /// Number of rows to look behind.
        offset: usize,
        /// Bits of the value when the look-behind extends before the
        /// partition start.
        default: u64,
    },
    /// Difference: `value[i] - value[i-1]` (null for first row).
    Delta,
    /// Per-second rate: `(value[i] - value[i-1]) / (timestamp[i] -
    /// timestamp[i-1])`, with timestamps in nanoseconds.
    Rate,
    /// Instantaneous per-second rate between the last two samples in the
    /// partition. Every row in the partition gets the same value.
    IRate,
    /// Simple moving average over a sliding window of `window_size` rows.
    MovingAverage {
        /// Number of rows in the sliding window.
        window_size: usize,
    },
    /// Running cumulative sum.
    CumulativeSum,
    /// Monotonic counter increase (resets to 0 on counter wrap-around).
    Increase,
    /// RANGE-frame moving average over a timestamp window.
    ///
    /// For each row, the mean of all values whose timestamps fall within
    /// `[current_ts - range_ns, current_ts]`.
    RangeMovingAverage {
        /// Window size in nanoseconds.
        range_ns: i64,
    },
    /// RANGE-frame sum over a timestamp window.
    RangeSum {
        /// Window size in nanoseconds.
        range_ns: i64,
    },
    /// RANGE-frame count over a timestamp window.
    RangeCount {
        /// Window size in nanoseconds.
        range_ns: i64,
    },
}

impl WindowFn {
    /// The name under which the function's results are shown.
    pub open spec fn name(self) -> Seq<char> {
        match self {
            WindowFn::RowNumber => "row_number"@,
            WindowFn::Rank { .. } => "rank"@,
            WindowFn::DenseRank { .. } => "dense_rank"@,
            WindowFn::Lead { offset, .. } => "lead_"@ + decimal(offset as nat),
            WindowFn::Lag { offset, .. } => "lag_"@ + decimal(offset as nat),
            WindowFn::Delta => "delta"@,
            WindowFn::Rate => "rate"@,
            WindowFn::IRate => "irate"@,
            WindowFn::MovingAverage { window_size } => "moving_avg_"@ + decimal(window_size as nat),
            WindowFn::CumulativeSum => "cumulative_sum"@,
            WindowFn::Increase => "increase"@,
            WindowFn::RangeMovingAverage { range_ns } => "range_avg_"@ + signed_decimal(
                range_ns as int,
            ) + "ns"@,
            WindowFn::RangeSum { range_ns } => "range_sum_"@ + signed_decimal(range_ns as int)
                + "ns"@,
            WindowFn::RangeCount { range_ns } => "range_count_"@ + signed_decimal(range_ns as int)
                + "ns"@,
        }
    }

    /// The function reads timestamps.
    pub open spec fn reads_time(self) -> bool {
        self is Rate || self is IRate || self is RangeMovingAverage || self is RangeSum
            || self is RangeCount
    }
}

/// Human-readable function name for column naming.
pub fn window_fn_name(func: &WindowFn) -> (r: String)
    ensures
        r@ == func.name(),
{
    match func {
        WindowFn::RowNumber => "row_number".to_owned(),
        WindowFn::Rank { .. } => "rank".to_owned(),
        WindowFn::DenseRank { .. } => "dense_rank".to_owned(),
        WindowFn::Lead { offset, .. } => {
            let mut out = "lead_".to_owned();
            push_decimal(&mut out, *offset as u128);
            out
        },
        WindowFn::Lag { offset, .. } => {
            let mut out = "lag_".to_owned();
            push_decimal(&mut out, *offset as u128);
            out
        },
        WindowFn::Delta => "delta".to_owned(),
        WindowFn::Rate => "rate".to_owned(),
        WindowFn::IRate => "irate".to_owned(),
        WindowFn::MovingAverage { window_size } => {
            let mut out = "moving_avg_".to_owned();
            push_decimal(&mut out, *window_size as u128);
            out
        },
        WindowFn::CumulativeSum => "cumulative_sum".to_owned(),
        WindowFn::Increase => "increase".to_owned(),
        WindowFn::RangeMovingAverage { range_ns } => {
            let mut out = "range_avg_".to_owned();
            push_signed(&mut out, *range_ns as i128);
            out.append("ns");
            out
        },
        WindowFn::RangeSum { range_ns } => {
            let mut out = "range_sum_".to_owned();
            push_signed(&mut out, *range_ns as i128);
            out.append("ns");
            out
        },
        WindowFn::RangeCount { range_ns } => {
            let mut out = "range_count_".to_owned();
            push_signed(&mut out, *range_ns as i128);
            out.append("ns");
            out
        },
    }
}

/// Whether the function reads timestamps.
pub fn needs_timestamps(func: &WindowFn) -> (r: bool)
    ensures
        r == func.reads_time(),
{
    match func {
        WindowFn::Rate => true,
        WindowFn::IRate => true,
        WindowFn::RangeMovingAverage { .. } => true,
        WindowFn::RangeSum { .. } => true,
        WindowFn::RangeCount { .. } => true,
        _ => false,
    }
}

} // verus!
