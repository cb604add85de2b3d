//! What a window function yields for each row of a partition.
//!
//! The library decides which values enter into each result; the arithmetic on
//! floating-point values is told, not done.
use vstd::prelude::*;

use crate::query::float::is_less;
use crate::query::float::not_a_number;
#[allow(unused_imports)]
use crate::query::float::{is_nan, less};
use crate::query::window_fn::WindowFn;

verus! {

/// The result of a window function in one row. Values are given by their bits;
/// positions count the rows of the partition.
#[derive(Debug, Clone, Copy, PartialEq, Eq, Structural)]
pub enum WindowValue {
    /// Null.
    Null,
    /// A whole number.
    Number(u64),
    /// A value.
    Value(u64),
    /// `current - previous`.
    Difference {
        /// Value in this row.
        current: u64,
        /// Value in the row before.
        previous: u64,
    },
    /// `(current - previous)` per second, over a span of nanoseconds.
    PerSecond {
        /// Later value.
        current: u64,
        /// Earlier value.
        previous: u64,
        /// Nanoseconds between the two.
        nanos: i128,
    },
    /// The sum of the values at the positions from `from` to `to`, without
    /// `to`.
    Sum {
        /// First position.
        from: usize,
        /// Position after the last.
        to: usize,
    },
    /// The sum of the values at the positions from `from` to `to`, without
    /// `to`, divided by their number.
    Mean {
        /// First position.
        from: usize,
        /// Position after the last.
        to: usize,
        /// Number of values.
        count: usize,
    },
    /// The running total after `current - previous` was added to it.
    Growth {
        /// Value in this row.
        current: u64,
        /// Value in the row before.
        previous: u64,
    },
    /// The running total as it was.
    NoGrowth,
}

/// The rows of a partition, as a window function reads them.
#[verifier::ext_equal]
pub struct PartitionModel {
    /// Values.
    pub values: Seq<Option<u64>>,
    /// Values of the column that ranks go by.
    pub orders: Seq<Option<u64>>,
    /// Timestamps, if there are any.
    pub times: Option<Seq<i64>>,
}

/// How many of the values at positions `from` to `to` are not null.
pub open spec fn filled(values: Seq<Option<u64>>, from: int, to: int) -> int
    decreases to - from,
{
    if from >= to {
        0
    } else {
        filled(values, from, to - 1) + if values[to - 1] is Some {
            1int
        } else {
            0int
        }
    }
}

/// The rank of a row: that of the row before if it is tied with it, otherwise
/// its number.
pub open spec fn rank_at(orders: Seq<Option<u64>>, i: int) -> int
    decreases i,
{
    if i <= 0 {
        1
    } else if orders[i] == orders[i - 1] {
        rank_at(orders, i - 1)
    } else {
        i + 1
    }
}

/// The dense rank of a row: one more than the row before, unless it is tied
/// with it.
pub open spec fn dense_rank_at(orders: Seq<Option<u64>>, i: int) -> int
    decreases i,
{
    if i <= 0 {
        1
    } else if orders[i] == orders[i - 1] {
        dense_rank_at(orders, i - 1)
    } else {
        dense_rank_at(orders, i - 1) + 1
    }
}

/// The first position at or after `s`, and at most `i`, that lies within the
/// range before position `i`.
pub open spec fn advanced(times: Seq<i64>, range: i64, i: int, s: int) -> int
    decreases i - s,
{
    if s < i && times[i] - times[s] > range {
        advanced(times, range, i, s + 1)
    } else {
        s
    }
}

/// Where the range frame of a row starts. The start never goes back.
pub open spec fn range_start(times: Seq<i64>, range: i64, i: int) -> int
    decreases i,
{
    if i <= 0 {
        0
    } else {
        advanced(times, range, i, range_start(times, range, i - 1))
    }
}

/// A value, or the default in its place.
pub open spec fn or_default(value: Option<u64>, default: u64) -> WindowValue {
    match value {
        Some(v) => WindowValue::Value(v),
        None => WindowValue::Value(default),
    }
}

/// The rate between two rows: null unless time passes between them and both
/// have values.
pub open spec fn rate_between(p: PartitionModel, i: int, j: int) -> WindowValue {
    match (p.times, p.values[i], p.values[j]) {
        (Some(times), Some(previous), Some(current)) if times[j] > times[i] => {
            WindowValue::PerSecond { current, previous, nanos: (times[j] - times[i]) as i128 }
        },
        _ => WindowValue::Null,
    }
}

/// The mean over a frame: null if it holds no value.
pub open spec fn mean_over(values: Seq<Option<u64>>, from: int, to: int) -> WindowValue {
    let count = filled(values, from, to);
    if count > 0 {
        WindowValue::Mean { from: from as usize, to: to as usize, count: count as usize }
    } else {
        WindowValue::Null
    }
}

/// What a window function yields at position `i` of a partition.
pub open spec fn window_value(func: WindowFn, p: PartitionModel, i: int) -> WindowValue {
    let len = p.values.len() as int;
    match func {
        WindowFn::RowNumber => WindowValue::Number((i + 1) as u64),
        WindowFn::Rank { .. } => WindowValue::Number(rank_at(p.orders, i) as u64),
        WindowFn::DenseRank { .. } => WindowValue::Number(dense_rank_at(p.orders, i) as u64),
        WindowFn::Lead { offset, default } => if i + offset < len {
            or_default(p.values[i + offset], default)
        } else {
            WindowValue::Value(default)
        },
        WindowFn::Lag { offset, default } => if i >= offset {
            or_default(p.values[i - offset], default)
        } else {
            WindowValue::Value(default)
        },
        WindowFn::Delta => match (i > 0, p.values[i], p.values[i - 1]) {
            (true, Some(current), Some(previous)) => WindowValue::Difference { current, previous },
            _ => WindowValue::Null,
        },
        WindowFn::Rate => if i > 0 {
            rate_between(p, i - 1, i)
        } else {
            WindowValue::Null
        },
        WindowFn::IRate => if len >= 2 {
            rate_between(p, len - 2, len - 1)
        } else {
            WindowValue::Null
        },
        WindowFn::MovingAverage { window_size } => if i + 1 < window_size {
            WindowValue::Null
        } else {
            mean_over(p.values, i + 1 - window_size, i + 1)
        },
        WindowFn::CumulativeSum => if p.values[i] is Some {
            WindowValue::Sum { from: 0, to: (i + 1) as usize }
        } else {
            WindowValue::Null
        },
        WindowFn::Increase => if i <= 0 {
            WindowValue::NoGrowth
        } else {
            match (p.values[i], p.values[i - 1]) {
                (Some(current), Some(previous)) => if !is_nan(current) && !is_nan(previous)
                    && !less(current, previous) {
                    WindowValue::Growth { current, previous }
                } else {
                    WindowValue::NoGrowth
                },
                _ => WindowValue::Null,
            }
        },
        WindowFn::RangeMovingAverage { range_ns } => mean_over(
            p.values,
            range_start(p.times.unwrap(), range_ns, i),
            i + 1,
        ),
        WindowFn::RangeSum { range_ns } => {
            let from = range_start(p.times.unwrap(), range_ns, i);
            if filled(p.values, from, i + 1) > 0 {
                WindowValue::Sum { from: from as usize, to: (i + 1) as usize }
            } else {
                WindowValue::Null
            }
        },
        WindowFn::RangeCount { range_ns } => {
            let count = filled(p.values, range_start(p.times.unwrap(), range_ns, i), i + 1);
            if count > 0 {
                WindowValue::Number(count as u64)
            } else {
                WindowValue::Null
            }
        },
    }
}

pub proof fn lemma_filled(values: Seq<Option<u64>>, from: int, to: int)
    requires
        from <= to,
    ensures
        0 <= filled(values, from, to) <= to - from,
        from < to ==> filled(values, from, to) == filled(values, from + 1, to) + if values[from] is Some {
            1int
        } else {
            0int
        },
    decreases to - from,
{
    if from < to {
        lemma_filled(values, from, to - 1);
    }
}

pub proof fn lemma_ranks(orders: Seq<Option<u64>>, i: int)
    requires
        0 <= i,
    ensures
        1 <= rank_at(orders, i) <= i + 1,
        1 <= dense_rank_at(orders, i) <= i + 1,
    decreases i,
{
    if i > 0 {
        lemma_ranks(orders, i - 1);
    }
}

/// A partition, as a window function reads it.
#[derive(Debug)]
pub struct Partition {
    /// Values.
    pub values: Vec<Option<u64>>,
    /// Values of the column that ranks go by.
    pub orders: Vec<Option<u64>>,
    /// Timestamps, if there are any.
    pub times: Option<Vec<i64>>,
}

impl View for Partition {
    type V = PartitionModel;

    open spec fn view(&self) -> PartitionModel {
        PartitionModel {
            values: self.values@,
            orders: self.orders@,
            times: match self.times {
                Some(times) => Some(times@),
                None => None,
            },
        }
    }
}

impl PartitionModel {
    /// All columns have the same number of rows.
    pub open spec fn is_partition(self) -> bool {
        &&& self.orders.len() == self.values.len()
        &&& self.times matches Some(times) ==> times.len() == self.values.len()
    }
}

/// The results are those of a window function over a partition.
pub open spec fn is_window(
    out: Seq<WindowValue>,
    func: WindowFn,
    p: PartitionModel,
) -> bool {
    &&& out.len() == p.values.len()
    &&& forall|i: int| 0 <= i < out.len() ==> #[trigger] out[i] == window_value(func, p, i)
}

fn option_same(a: Option<u64>, b: Option<u64>) -> (r: bool)
    ensures
        r == (a == b),
{
    match (a, b) {
        (Some(x), Some(y)) => x == y,
        (None, None) => true,
        _ => false,
    }
}

/// Whether a function is one over a range of timestamps.
pub open spec fn is_range(func: WindowFn) -> bool {
    func is RangeMovingAverage || func is RangeSum || func is RangeCount
}

/// Functions that look at one row, or at two rows at a fixed distance.
fn compute_pointwise(func: &WindowFn, p: &Partition, i: usize) -> (r: WindowValue)
    requires
        p@.is_partition(),
        i < p.values@.len(),
        !is_range(*func),
        !(func is Rank),
        !(func is DenseRank),
        !(func is MovingAverage),
    ensures
        r == window_value(*func, p@, i as int),
{
    let len: usize = p.values.len();
    match func {
        WindowFn::RowNumber => WindowValue::Number(i as u64 + 1),
        WindowFn::Lead { offset, default } => if *offset < len - i {
            match p.values[i + *offset] {
                Some(v) => WindowValue::Value(v),
                None => WindowValue::Value(*default),
            }
        } else {
            WindowValue::Value(*default)
        },
        WindowFn::Lag { offset, default } => if i >= *offset {
            match p.values[i - *offset] {
                Some(v) => WindowValue::Value(v),
                None => WindowValue::Value(*default),
            }
        } else {
            WindowValue::Value(*default)
        },
        WindowFn::Delta => if i == 0 {
            WindowValue::Null
        } else {
            match (p.values[i], p.values[i - 1]) {
                (Some(current), Some(previous)) => WindowValue::Difference { current, previous },
                _ => WindowValue::Null,
            }
        },
        WindowFn::Rate => if i > 0 {
            rate(p, i - 1, i)
        } else {
            WindowValue::Null
        },
        WindowFn::IRate => if len >= 2 {
            rate(p, len - 2, len - 1)
        } else {
            WindowValue::Null
        },
        WindowFn::CumulativeSum => if p.values[i].is_some() {
            WindowValue::Sum { from: 0, to: i + 1 }
        } else {
            WindowValue::Null
        },
        _ => if i == 0 {
            WindowValue::NoGrowth
        } else {
            match (p.values[i], p.values[i - 1]) {
                (Some(current), Some(previous)) => if !not_a_number(current) && !not_a_number(
                    previous,
                ) && !is_less(current, previous) {
                    WindowValue::Growth { current, previous }
                } else {
                    WindowValue::NoGrowth
                },
                _ => WindowValue::Null,
            }
        },
    }
}

fn rate(p: &Partition, i: usize, j: usize) -> (r: WindowValue)
    requires
        p@.is_partition(),
        i < p.values@.len(),
        j < p.values@.len(),
    ensures
        r == rate_between(p@, i as int, j as int),
{
    match &p.times {
        None => WindowValue::Null,
        Some(times) => {
            let nanos: i128 = times[j] as i128 - times[i] as i128;
            match (p.values[i], p.values[j]) {
                (Some(previous), Some(current)) => if nanos > 0 {
                    WindowValue::PerSecond { current, previous, nanos }
                } else {
                    WindowValue::Null
                },
                _ => WindowValue::Null,
            }
        },
    }
}

fn compute_ranks(func: &WindowFn, p: &Partition, dense: bool) -> (r: Vec<WindowValue>)
    requires
        p@.is_partition(),
        dense ==> func is DenseRank,
        !dense ==> func is Rank,
    ensures
        is_window(r@, *func, p@),
{
    let mut out: Vec<WindowValue> = Vec::new();
    let mut rank: u64 = 1;
    let mut i: usize = 0;
    while i < p.orders.len()
        invariant
            i <= p.orders.len(),
            p@.is_partition(),
            dense ==> func is DenseRank,
            !dense ==> func is Rank,
            out@.len() == i,
            i == 0 ==> rank == 1,
            i > 0 ==> rank == if dense {
                dense_rank_at(p@.orders, i - 1)
            } else {
                rank_at(p@.orders, i - 1)
            },
            forall|j: int| 0 <= j < i ==> #[trigger] out@[j] == window_value(*func, p@, j),
        decreases p.orders.len() - i,
    {
        proof {
            lemma_ranks(p@.orders, i as int);
            if i > 0 {
                lemma_ranks(p@.orders, i - 1);
            }
        }
        if i > 0 && !option_same(p.orders[i], p.orders[i - 1]) {
            rank = if dense {
                rank + 1
            } else {
                i as u64 + 1
            };
        }
        out.push(WindowValue::Number(rank));
        i = i + 1;
    }
    out
}

fn compute_moving(func: &WindowFn, p: &Partition, window_size: usize) -> (r: Vec<WindowValue>)
    requires
        p@.is_partition(),
        *func == (WindowFn::MovingAverage { window_size }),
    ensures
        is_window(r@, *func, p@),
{
    let mut out: Vec<WindowValue> = Vec::new();
    let mut count: usize = 0;
    let mut i: usize = 0;
    while i < p.values.len()
        invariant
            i <= p.values.len(),
            p@.is_partition(),
            *func == (WindowFn::MovingAverage { window_size }),
            out@.len() == i,
            count == filled(
                p@.values,
                if i >= window_size {
                    i - window_size
                } else {
                    0
                },
                i as int,
            ),
            count <= i,
            forall|j: int| 0 <= j < i ==> #[trigger] out@[j] == window_value(*func, p@, j),
        decreases p.values.len() - i,
    {
        let ghost from = if i >= window_size {
            i - window_size
        } else {
            0
        };
        proof {
            lemma_filled(p@.values, from, i + 1);
            lemma_filled(p@.values, from + 1, i + 1);
            lemma_filled(p@.values, from, i as int);
        }
        if p.values[i].is_some() {
            count = count + 1;
        }
        assert(count == filled(p@.values, from, i + 1));
        if i >= window_size {
            if p.values[i - window_size].is_some() {
                count = count - 1;
            }
        }
        proof {
            let next = if i + 1 >= window_size {
                i + 1 - window_size
            } else {
                0
            };
            lemma_filled(p@.values, next, i + 1);
        }
        let value = if i < window_size && window_size - i > 1 {
            WindowValue::Null
        } else if count > 0 {
            WindowValue::Mean { from: i + 1 - window_size, to: i + 1, count }
        } else {
            WindowValue::Null
        };
        out.push(value);
        i = i + 1;
    }
    out
}

pub proof fn lemma_range_start(times: Seq<i64>, range: i64, i: int)
    requires
        0 <= i,
    ensures
        0 <= range_start(times, range, i) <= i,
    decreases i,
{
    if i > 0 {
        lemma_range_start(times, range, i - 1);
        lemma_advanced(times, range, i, range_start(times, range, i - 1));
    }
}

proof fn lemma_advanced(times: Seq<i64>, range: i64, i: int, s: int)
    requires
        s <= i,
    ensures
        s <= advanced(times, range, i, s) <= i,
    decreases i - s,
{
    if s < i && times[i] - times[s] > range {
        lemma_advanced(times, range, i, s + 1);
    }
}

/// The starts of the range frames, and how many values each frame holds.
fn range_frames(times: &Vec<i64>, values: &Vec<Option<u64>>, range: i64) -> (r: Vec<
    (usize, usize),
>)
    requires
        times@.len() == values@.len(),
    ensures
        r@.len() == times@.len(),
        forall|i: int|
            0 <= i < r@.len() ==> (#[trigger] r@[i]).0 == range_start(times@, range, i)
                && r@[i].1 == filled(values@, r@[i].0 as int, i + 1) && r@[i].0 <= i,
{
    let mut out: Vec<(usize, usize)> = Vec::new();
    let mut start: usize = 0;
    let mut count: usize = 0;
    let mut i: usize = 0;
    while i < times.len()
        invariant
            i <= times.len(),
            times@.len() == values@.len(),
            out@.len() == i,
            start <= i,
            i == 0 ==> start == 0,
            i > 0 ==> start == range_start(times@, range, i - 1),
            count == filled(values@, start as int, i as int),
            forall|j: int|
                0 <= j < i ==> (#[trigger] out@[j]).0 == range_start(times@, range, j)
                    && out@[j].1 == filled(values@, out@[j].0 as int, j + 1) && out@[j].0 <= j,
        decreases times.len() - i,
    {
        proof {
            lemma_filled(values@, start as int, i as int);
            lemma_filled(values@, start as int, i + 1);
        }
        if values[i].is_some() {
            count = count + 1;
        }
        let ghost before = start as int;
        while start < i && times[i] as i128 - times[start] as i128 > range as i128
            invariant
                before <= start <= i,
                i < times.len(),
                times@.len() == values@.len(),
                count == filled(values@, start as int, i + 1),
                advanced(times@, range, i as int, before) == advanced(
                    times@,
                    range,
                    i as int,
                    start as int,
                ),
            decreases i - start,
        {
            proof {
                lemma_filled(values@, start as int, i + 1);
                lemma_filled(values@, start + 1, i + 1);
            }
            if values[start].is_some() {
                count = count - 1;
            }
            start = start + 1;
        }
        proof {
            lemma_filled(values@, start as int, i + 1);
            assert(start == range_start(times@, range, i as int));
        }
        out.push((start, count));
        i = i + 1;
    }
    out
}

fn compute_range(func: &WindowFn, p: &Partition, times: &Vec<i64>, range: i64) -> (r: Vec<
    WindowValue,
>)
    requires
        p@.is_partition(),
        p@.times == Some(times@),
        *func == (WindowFn::RangeMovingAverage { range_ns: range }) || *func == (
        WindowFn::RangeSum { range_ns: range }) || *func == (WindowFn::RangeCount {
            range_ns: range,
        }),
    ensures
        is_window(r@, *func, p@),
{
    let frames = range_frames(times, &p.values, range);
    let mut out: Vec<WindowValue> = Vec::new();
    let mut i: usize = 0;
    while i < frames.len()
        invariant
            i <= frames.len(),
            p@.is_partition(),
            p@.times == Some(times@),
            *func == (WindowFn::RangeMovingAverage { range_ns: range }) || *func == (
            WindowFn::RangeSum { range_ns: range }) || *func == (WindowFn::RangeCount {
                range_ns: range,
            }),
            frames@.len() == times@.len(),
            forall|j: int|
                0 <= j < frames@.len() ==> (#[trigger] frames@[j]).0 == range_start(
                    times@,
                    range,
                    j,
                ) && frames@[j].1 == filled(p.values@, frames@[j].0 as int, j + 1)
                    && frames@[j].0 <= j,
            out@.len() == i,
            forall|j: int| 0 <= j < i ==> #[trigger] out@[j] == window_value(*func, p@, j),
        decreases frames.len() - i,
    {
        let (from, count) = frames[i];
        assert(frames@[i as int].0 == range_start(times@, range, i as int));
        let value = if count == 0 {
            WindowValue::Null
        } else {
            match func {
                WindowFn::RangeMovingAverage { .. } => WindowValue::Mean { from, to: i + 1, count },
                WindowFn::RangeSum { .. } => WindowValue::Sum { from, to: i + 1 },
                _ => WindowValue::Number(count as u64),
            }
        };
        out.push(value);
        i = i + 1;
    }
    out
}

/// Compute a window function over a partition. Functions over a range of
/// timestamps need timestamps.
pub fn compute_partition(func: &WindowFn, p: &Partition) -> (r: Vec<WindowValue>)
    requires
        p@.is_partition(),
        is_range(*func) ==> p@.times is Some,
    ensures
        is_window(r@, *func, p@),
{
    match func {
        WindowFn::Rank { .. } => compute_ranks(func, p, false),
        WindowFn::DenseRank { .. } => compute_ranks(func, p, true),
        WindowFn::MovingAverage { window_size } => compute_moving(func, p, *window_size),
        WindowFn::RangeMovingAverage { range_ns } => match &p.times {
            Some(times) => compute_range(func, p, times, *range_ns),
            None => Vec::new(),
        },
        WindowFn::RangeSum { range_ns } => match &p.times {
            Some(times) => compute_range(func, p, times, *range_ns),
            None => Vec::new(),
        },
        WindowFn::RangeCount { range_ns } => match &p.times {
            Some(times) => compute_range(func, p, times, *range_ns),
            None => Vec::new(),
        },
        _ => {
            let mut out: Vec<WindowValue> = Vec::new();
            let mut i: usize = 0;
            while i < p.values.len()
                invariant
                    i <= p.values.len(),
                    p@.is_partition(),
                    !is_range(*func),
                    !(func is Rank),
                    !(func is DenseRank),
                    !(func is MovingAverage),
                    out@.len() == i,
                    forall|j: int| 0 <= j < i ==> #[trigger] out@[j] == window_value(*func, p@, j),
                decreases p.values.len() - i,
            {
                out.push(compute_pointwise(func, p, i));
                i = i + 1;
            }
            out
        },
    }
}

/// Where timestamps ascend, the range frame of a row is made of the rows up to
/// it whose timestamps lie at most `range` before its own.
pub proof fn range_frames_hold_the_range(times: Seq<i64>, range: i64, i: int, j: int)
    requires
        range >= 0,
        0 <= j <= i < times.len(),
        forall|a: int, b: int| 0 <= a <= b < times.len() ==> #[trigger] times[a] <= #[trigger] times[b],
    ensures
        range_start(times, range, i) <= j <==> times[i] - times[j] <= range,
    decreases i,
{
    lemma_range_start(times, range, i);
    if i > 0 {
        let before = range_start(times, range, i - 1);
        lemma_range_start(times, range, i - 1);
        lemma_advance_stops(times, range, i, before, j);
        if j < before {
            if j <= i - 1 {
                range_frames_hold_the_range(times, range, i - 1, j);
                assert(times[i - 1] <= times[i]);
            }
        }
    }
}

proof fn lemma_advance_stops(times: Seq<i64>, range: i64, i: int, s: int, j: int)
    requires
        range >= 0,
        0 <= s <= i < times.len(),
        0 <= j <= i,
        forall|a: int, b: int| 0 <= a <= b < times.len() ==> #[trigger] times[a] <= #[trigger] times[b],
    ensures
        s <= j ==> (advanced(times, range, i, s) <= j <==> times[i] - times[j] <= range),
        s <= advanced(times, range, i, s) <= i,
    decreases i - s,
{
    if s < i && times[i] - times[s] > range {
        lemma_advance_stops(times, range, i, s + 1, j);
    } else if s <= j {
        assert(times[s] <= times[j]);
    }
}

/// Rows with equal order values in a row share a rank; the next rank skips as
/// many numbers as rows were tied, while the next dense rank skips none.
pub proof fn ties_share_a_rank(orders: Seq<Option<u64>>, i: int)
    requires
        0 < i < orders.len(),
    ensures
        orders[i] == orders[i - 1] ==> rank_at(orders, i) == rank_at(orders, i - 1)
            && dense_rank_at(orders, i) == dense_rank_at(orders, i - 1),
        orders[i] != orders[i - 1] ==> rank_at(orders, i) == i + 1 && dense_rank_at(orders, i)
            == dense_rank_at(orders, i - 1) + 1,
        dense_rank_at(orders, i) <= rank_at(orders, i),
    decreases i,
{
    if i > 1 {
        ties_share_a_rank(orders, i - 1);
    }
    lemma_ranks(orders, i - 1);
}

} // verus!
