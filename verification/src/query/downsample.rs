//! Time-bucket downsampling.
//!
//! Groups samples into fixed-width time buckets and applies an aggregation
//! function per bucket.
//!
//! [`downsample`] takes a whole batch and returns every bucket in it. It is
//! correct only when the batch contains *all* the rows for the buckets it
//! covers.
//!
//! [`StreamingDownsampler`] is the one to use over a chunked scan. It keeps
//! one open bucket across batches and closes it only when a row from a later
//! bucket arrives, so a bucket is emitted exactly once no matter how the input
//! was chunked.
use vstd::prelude::*;
use vstd::string::*;

use crate::query::accumulator::{IncrementalAccumulator, Moment, Num, Reading};
#[allow(unused_imports)]
use crate::query::accumulator::aggregate_of;
use crate::query::agg_fn::AggFn;
use crate::query::buckets::{add_row, bucket_rows, bucket_starts, no_buckets};
#[allow(unused_imports)]
use crate::query::buckets::rows_in;
use crate::query::error::{invalid, QueryError};
#[allow(unused_imports)]
use crate::query::float::is_nan;
use crate::query::float::not_a_number;
use crate::query::frame::{extract_f64, ColumnData};
use crate::query::order::{sort_rows, RowOrder};
#[allow(unused_imports)]
use crate::query::order::{holds_row, is_sorted, stably_before};
#[allow(unused_imports)]
use crate::query::grouping::account;
use crate::query::memory::MemoryTracker;
use crate::query::output::{charge_result, timed_bytes};
#[allow(unused_imports)]
use crate::query::output::{at_least, settles, word_least};
use crate::query::track::AggResult;
use crate::text::joined_text;

verus! {

broadcast use vstd::string::group_string_axioms;

/// The time column of a batch.
#[derive(Debug)]
pub enum TimeColumn {
    /// There is none.
    Missing,
    /// It does not hold 64-bit integers.
    NotInt64,
    /// Timestamps.
    Times(Vec<Option<i64>>),
}

/// The value column of a batch, as floating-point bits.
#[derive(Debug)]
pub enum ValueColumn {
    /// There is none.
    Missing,
    /// It holds no numbers, but values of the named type.
    Unsupported(String),
    /// Values.
    Values(Vec<Option<u64>>),
}

impl ValueColumn {
    /// The values of a column, whose type has the given name: numbers as
    /// double-precision values. There are none of a column of another type.
    pub fn of(data: &ColumnData, kind: &str) -> (r: Self)
        ensures
            if data@.is_numeric() {
                &&& r matches ValueColumn::Values(values)
                &&& values@ == Seq::new(data@.len(), |row: int| data@.float_at(row))
            } else {
                r matches ValueColumn::Unsupported(name) && name@ == kind@
            },
    {
        if !data.is_numeric() {
            return ValueColumn::Unsupported(kind.to_owned());
        }
        let mut values: Vec<Option<u64>> = Vec::new();
        let n: usize = data.len();
        while values.len() < n
            invariant
                values@.len() <= n,
                n == data@.len(),
                forall|row: int|
                    0 <= row < values@.len() ==> #[trigger] values@[row] == data@.float_at(row),
            decreases n - values.len(),
        {
            values.push(extract_f64(data, values.len()));
        }
        assert(values@ =~= Seq::new(data@.len(), |row: int| data@.float_at(row)));
        ValueColumn::Values(values)
    }
}

/// The columns that downsampling reads.
#[derive(Debug)]
pub struct Samples {
    time: TimeColumn,
    value: ValueColumn,
    rows: usize,
}

/// A row with a timestamp, and its value if it has one.
pub type Row = (i64, Option<u64>);

/// What the samples of a batch stand for.
#[verifier::ext_equal]
pub enum SamplesModel {
    /// The columns can be read: the rows with timestamps, each with its number
    /// in the batch.
    Rows(Seq<(int, Row)>),
    /// There is no time column.
    NoTime,
    /// There is no value column.
    NoValue,
    /// The time column does not hold integers.
    TimeNotInt64,
    /// The value column holds no numbers.
    Unsupported(Seq<char>),
}

/// The rows with timestamps among the first `n`.
pub open spec fn timed_rows(
    times: Seq<Option<i64>>,
    values: Seq<Option<u64>>,
    n: int,
) -> Seq<(int, Row)>
    decreases n,
{
    if n <= 0 {
        Seq::empty()
    } else {
        let before = timed_rows(times, values, n - 1);
        match times[n - 1] {
            Some(t) => before.push((n - 1, (t, values[n - 1]))),
            None => before,
        }
    }
}

impl View for Samples {
    type V = SamplesModel;

    closed spec fn view(&self) -> SamplesModel {
        match (self.time, self.value) {
            (TimeColumn::Missing, _) => SamplesModel::NoTime,
            (_, ValueColumn::Missing) => SamplesModel::NoValue,
            (TimeColumn::NotInt64, _) => SamplesModel::TimeNotInt64,
            (_, ValueColumn::Unsupported(kind)) => SamplesModel::Unsupported(kind@),
            (TimeColumn::Times(times), ValueColumn::Values(values)) => SamplesModel::Rows(
                timed_rows(times@, values@, self.rows as int),
            ),
        }
    }
}

impl Samples {
    /// Number of rows in the batch.
    pub closed spec fn row_count(&self) -> nat {
        self.rows as nat
    }

    #[verifier::type_invariant]
    spec fn holds_together(&self) -> bool {
        &&& self.time matches TimeColumn::Times(times) ==> times@.len() == self.rows
        &&& self.value matches ValueColumn::Values(values) ==> values@.len() == self.rows
    }

    /// Number of rows in the batch.
    pub fn rows(&self) -> (r: usize)
        ensures
            r == self.row_count(),
    {
        self.rows
    }

    /// The columns of a batch of `rows` rows. There are none if a column has
    /// another number of cells.
    pub fn new(rows: usize, time: TimeColumn, value: ValueColumn) -> (r: Option<Self>)
        ensures
            r matches Some(samples) ==> samples@ == columns_model(time, value, rows as int)
                && samples.row_count() == rows,
            r is Some == ((time matches TimeColumn::Times(times) ==> times@.len() == rows) && (
            value matches ValueColumn::Values(values) ==> values@.len() == rows)),
    {
        let fits_time = match &time {
            TimeColumn::Times(times) => times.len() == rows,
            _ => true,
        };
        let fits_value = match &value {
            ValueColumn::Values(values) => values.len() == rows,
            _ => true,
        };
        if fits_time && fits_value {
            Some(Samples { time, value, rows })
        } else {
            None
        }
    }
}

/// What columns stand for.
pub open spec fn columns_model(time: TimeColumn, value: ValueColumn, rows: int) -> SamplesModel {
    match (time, value) {
        (TimeColumn::Missing, _) => SamplesModel::NoTime,
        (_, ValueColumn::Missing) => SamplesModel::NoValue,
        (TimeColumn::NotInt64, _) => SamplesModel::TimeNotInt64,
        (_, ValueColumn::Unsupported(kind)) => SamplesModel::Unsupported(kind@),
        (TimeColumn::Times(times), ValueColumn::Values(values)) => SamplesModel::Rows(
            timed_rows(times@, values@, rows),
        ),
    }
}

impl SamplesModel {
    /// The error for columns that cannot be read.
    pub open spec fn refused_as(self, column: Seq<char>, e: QueryError) -> bool {
        match self {
            SamplesModel::Rows(_) => false,
            SamplesModel::NoTime => e.is_validation("'timestamp' column not found"@),
            SamplesModel::NoValue => {
                &&& e matches QueryError::FieldNotFound { measurement, field }
                &&& measurement@ == ""@
                &&& field@ == column
            },
            SamplesModel::TimeNotInt64 => e.is_validation("'timestamp' column is not Int64"@),
            SamplesModel::Unsupported(kind) => e.is_validation(
                "'"@ + column + "' column has unsupported type "@ + kind
                    + " (expected Float64, Int64, UInt64, or Decimal128)"@,
            ),
        }
    }
}

/// The start of the bucket that holds a timestamp.
#[verifier::opaque]
pub open spec fn bucket_of(t: int, interval: int) -> int {
    t - t % interval
}

/// All bucket starts are timestamps.
pub open spec fn buckets_fit(rows: Seq<(int, Row)>, interval: int) -> bool {
    forall|i: int|
        0 <= i < rows.len() ==> bucket_of((#[trigger] rows[i]).1.0 as int, interval) >= i64::MIN
}

/// A row counts: it has a value, and that is a number.
pub open spec fn counts(row: Row) -> bool {
    row.1 matches Some(v) && !is_nan(v)
}

/// The reading of a row that counts.
pub open spec fn sample(row: Row) -> (Reading, Moment) {
    (Reading::Number(Num::F64(row.1.unwrap())), Moment::At(row.0))
}

/// The samples in a bucket: the rows in it that count, in their order.
pub open spec fn samples_in(rows: Seq<Row>, interval: int, start: int) -> Seq<(Reading, Moment)>
    decreases rows.len(),
{
    if rows.len() == 0 {
        Seq::empty()
    } else {
        let before = samples_in(rows.drop_last(), interval, start);
        if bucket_of(rows.last().0 as int, interval) == start && counts(rows.last()) {
            before.push(sample(rows.last()))
        } else {
            before
        }
    }
}

/// The result of downsampling: one entry per bucket that has samples, in
/// ascending order, with the aggregate of its samples.
pub open spec fn is_downsampled(
    out: Seq<(i64, AggResult)>,
    rows: Seq<Row>,
    interval: int,
    function: AggFn,
) -> bool {
    &&& forall|i: int, j: int|
        0 <= i < j < out.len() ==> (#[trigger] out[i]).0 < (#[trigger] out[j]).0
    &&& forall|i: int|
        0 <= i < out.len() ==> {
            let samples = samples_in(rows, interval, (#[trigger] out[i]).0 as int);
            samples.len() > 0 && out[i].1 == aggregate_of(samples, function)
        }
    &&& forall|start: int| #[trigger]
        samples_in(rows, interval, start).len() > 0 ==> exists|i: int|
            0 <= i < out.len() && (#[trigger] out[i]).0 == start
}

/// The rows alone.
pub open spec fn plain_rows(rows: Seq<(int, Row)>) -> Seq<Row> {
    rows.map_values(|row: (int, Row)| row.1)
}

/// One bucket of a downsampled batch.
#[derive(Debug)]
pub struct Bucket {
    /// Start of the bucket.
    pub start: i64,
    /// Aggregate of its samples.
    pub value: AggResult,
    /// The rows of the batch that count in it.
    pub rows: Vec<usize>,
}

/// The buckets as pairs of start and aggregate.
pub open spec fn bucket_pairs(buckets: Seq<Bucket>) -> Seq<(i64, AggResult)> {
    buckets.map_values(|b: Bucket| (b.start, b.value))
}

/// The rows of a batch that count in a bucket.
pub open spec fn counted_rows(rows: Seq<(int, Row)>, interval: int, start: int) -> Seq<int>
    decreases rows.len(),
{
    if rows.len() == 0 {
        Seq::empty()
    } else {
        let before = counted_rows(rows.drop_last(), interval, start);
        if bucket_of(rows.last().1.0 as int, interval) == start && counts(rows.last().1) {
            before.push(rows.last().0)
        } else {
            before
        }
    }
}

/// The start of the bucket that holds a timestamp.
pub fn bucket_start(t: i64, interval: i64) -> (r: i64)
    requires
        interval > 0,
        bucket_of(t as int, interval as int) >= i64::MIN,
    ensures
        r == bucket_of(t as int, interval as int),
{
    proof {
        reveal(bucket_of);
    }
    let wide: i128 = t as i128;
    let width: i128 = interval as i128;
    let rest: i128 = if wide >= 0 {
        wide % width
    } else {
        let back: i128 = (-wide) % width;
        if back == 0 {
            0
        } else {
            width - back
        }
    };
    proof {
        let x = t as int;
        let w = interval as int;
        if x < 0 {
            let y = -x;
            vstd::arithmetic::div_mod::lemma_fundamental_div_mod(y, w);
            let q = y / w;
            let m = y % w;
            if m == 0 {
                assert(x == w * (-q)) by (nonlinear_arith)
                    requires
                        y == w * q + m,
                        m == 0,
                        x == -y,
                ;
                vstd::arithmetic::div_mod::lemma_fundamental_div_mod_converse(x, w, -q, 0);
            } else {
                assert(x == w * (-q - 1) + (w - m)) by (nonlinear_arith)
                    requires
                        y == w * q + m,
                        x == -y,
                ;
                vstd::arithmetic::div_mod::lemma_fundamental_div_mod_converse(
                    x,
                    w,
                    -q - 1,
                    w - m,
                );
            }
            assert(rest == x % w);
        }
    }
    (wide - rest) as i64
}

/// A bucket holds the timestamps from its start on, up to the next start.
pub proof fn buckets_partition_time(t: int, interval: int)
    requires
        interval > 0,
    ensures
        bucket_of(t, interval) <= t < bucket_of(t, interval) + interval,
        bucket_of(t, interval) % interval == 0,
        bucket_of(bucket_of(t, interval), interval) == bucket_of(t, interval),
{
    reveal(bucket_of);
    vstd::arithmetic::div_mod::lemma_fundamental_div_mod(t, interval);
    let q = t / interval;
    assert(bucket_of(t, interval) == interval * q);
    assert(q * interval == interval * q) by (nonlinear_arith);
    vstd::arithmetic::div_mod::lemma_fundamental_div_mod_converse(
        bucket_of(t, interval),
        interval,
        q,
        0,
    );
}

/// Bucket starts ascend with the timestamps.
pub proof fn buckets_ascend(s: int, t: int, interval: int)
    requires
        interval > 0,
        s <= t,
    ensures
        bucket_of(s, interval) <= bucket_of(t, interval),
{
    reveal(bucket_of);
    vstd::arithmetic::div_mod::lemma_fundamental_div_mod(s, interval);
    vstd::arithmetic::div_mod::lemma_fundamental_div_mod(t, interval);
    vstd::arithmetic::div_mod::lemma_div_is_ordered(s, t, interval);
    let a = s / interval;
    let b = t / interval;
    assert(interval * a <= interval * b) by (nonlinear_arith)
        requires
            a <= b,
            interval > 0,
    ;
}

/// The bucket starts, in ascending order.
struct Starts {
    starts: Vec<i64>,
}

impl RowOrder for Starts {
    closed spec fn count(&self) -> nat {
        self.starts@.len()
    }

    closed spec fn not_after(&self, i: int, j: int) -> bool {
        self.starts@[i] <= self.starts@[j]
    }

    proof fn lemma_ordered(&self, i: int, j: int, k: int) {
    }

    fn is_not_after(&self, i: usize, j: usize) -> (r: bool) {
        self.starts[i] <= self.starts[j]
    }
}

/// The error for columns that cannot be read.
fn refusal(samples: &Samples, column: &str) -> (r: Option<QueryError>)
    ensures
        match r {
            Some(e) => samples@.refused_as(column@, e),
            None => samples@ is Rows && samples.time is Times && samples.value is Values,
        },
{
    match (&samples.time, &samples.value) {
        (TimeColumn::Missing, _) => Some(invalid("'timestamp' column not found")),
        (_, ValueColumn::Missing) => Some(
            QueryError::FieldNotFound { measurement: "".to_owned(), field: column.to_owned() },
        ),
        (TimeColumn::NotInt64, _) => Some(invalid("'timestamp' column is not Int64")),
        (_, ValueColumn::Unsupported(kind)) => {
            let mut text = joined_text("'", column, "' column has unsupported type ");
            text.append(kind.as_str());
            text.append(" (expected Float64, Int64, UInt64, or Decimal128)");
            Some(invalid(text.as_str()))
        },
        _ => None,
    }
}

/// The timestamps and values of a batch, or the error for columns that cannot
/// be read.
pub(crate) fn read_columns<'a>(samples: &'a Samples, column: &str) -> (r: Result<
    (&'a Vec<Option<i64>>, &'a Vec<Option<u64>>),
    QueryError,
>)
    ensures
        match r {
            Ok((times, values)) => samples@ == SamplesModel::Rows(
                timed_rows(times@, values@, times@.len() as int),
            ) && times@.len() == values@.len() && times@.len() == samples.row_count(),
            Err(e) => samples@.refused_as(column@, e),
        },
{
    proof {
        use_type_invariant(samples);
    }
    if let Some(e) = refusal(samples, column) {
        return Err(e);
    }
    match (&samples.time, &samples.value) {
        (TimeColumn::Times(times), ValueColumn::Values(values)) => Ok((times, values)),
        _ => Err(invalid("'timestamp' column not found")),
    }
}

/// The positions of a bucket's rows among the timed rows: those below `n` that
/// lie in the bucket.
spec fn positions(rows: Seq<(int, Row)>, interval: int, start: int) -> Seq<int>
    decreases rows.len(),
{
    if rows.len() == 0 {
        Seq::empty()
    } else {
        let before = positions(rows.drop_last(), interval, start);
        if bucket_of(rows.last().1.0 as int, interval) == start {
            before.push(rows.last().0)
        } else {
            before
        }
    }
}

/// The samples among some rows of a batch.
spec fn samples_at(
    times: Seq<Option<i64>>,
    values: Seq<Option<u64>>,
    at: Seq<int>,
) -> Seq<(Reading, Moment)>
    decreases at.len(),
{
    if at.len() == 0 {
        Seq::empty()
    } else {
        let before = samples_at(times, values, at.drop_last());
        let row: Row = (times[at.last()].unwrap(), values[at.last()]);
        if counts(row) {
            before.push(sample(row))
        } else {
            before
        }
    }
}

/// The rows that count among some rows of a batch.
spec fn counted_at(
    times: Seq<Option<i64>>,
    values: Seq<Option<u64>>,
    at: Seq<int>,
) -> Seq<int>
    decreases at.len(),
{
    if at.len() == 0 {
        Seq::empty()
    } else {
        let before = counted_at(times, values, at.drop_last());
        let row: Row = (times[at.last()].unwrap(), values[at.last()]);
        if counts(row) {
            before.push(at.last())
        } else {
            before
        }
    }
}

proof fn lemma_positions(
    times: Seq<Option<i64>>,
    values: Seq<Option<u64>>,
    interval: int,
    start: int,
    n: int,
)
    requires
        0 <= n <= times.len(),
        times.len() == values.len(),
    ensures
        ({
            let rows = timed_rows(times, values, n);
            let at = positions(rows, interval, start);
            &&& samples_at(times, values, at) == samples_in(plain_rows(rows), interval, start)
            &&& counted_at(times, values, at) == counted_rows(rows, interval, start)
            &&& forall|i: int|
                0 <= i < at.len() ==> 0 <= (#[trigger] at[i]) < n && times[at[i]] is Some
        }),
    decreases n,
{
    if n > 0 {
        lemma_positions(times, values, interval, start, n - 1);
        let before = timed_rows(times, values, n - 1);
        let rows = timed_rows(times, values, n);
        if times[n - 1] is Some {
            assert(rows.drop_last() =~= before);
            assert(plain_rows(rows).drop_last() =~= plain_rows(before));
            let at = positions(before, interval, start);
            assert(at.push(n - 1).drop_last() =~= at);
        }
    }
}

proof fn lemma_rows_have_buckets(
    times: Seq<Option<i64>>,
    values: Seq<Option<u64>>,
    interval: int,
    start: int,
    n: int,
)
    requires
        0 <= n <= times.len(),
        samples_in(plain_rows(timed_rows(times, values, n)), interval, start).len() > 0,
    ensures
        exists|i: int| #[trigger] is_in_bucket(times, interval, start, i) && i < n,
    decreases n,
{
    if n > 0 {
        let before = timed_rows(times, values, n - 1);
        let rows = timed_rows(times, values, n);
        if times[n - 1] is Some {
            assert(plain_rows(rows).drop_last() =~= plain_rows(before));
            if bucket_of(times[n - 1].unwrap() as int, interval) == start {
                assert(is_in_bucket(times, interval, start, n - 1));
            } else {
                lemma_rows_have_buckets(times, values, interval, start, n - 1);
            }
        } else {
            lemma_rows_have_buckets(times, values, interval, start, n - 1);
        }
    }
}

spec fn is_in_bucket(times: Seq<Option<i64>>, interval: int, start: int, i: int) -> bool {
    0 <= i < times.len() && (times[i] matches Some(t) && bucket_of(t as int, interval) == start)
}

/// Aggregate the samples of one bucket.
fn reduce_bucket(
    times: &Vec<Option<i64>>,
    values: &Vec<Option<u64>>,
    rows: &Vec<usize>,
    function: AggFn,
) -> (r: (Vec<usize>, AggResult))
    requires
        times@.len() == values@.len(),
        forall|i: int|
            0 <= i < rows@.len() ==> (#[trigger] rows@[i]) < times@.len()
                && times@[rows@[i] as int] is Some,
    ensures
        ({
            let at = rows@.map_values(|i: usize| i as int);
            &&& r.0@.map_values(|i: usize| i as int) == counted_at(times@, values@, at)
            &&& r.0@.len() == samples_at(times@, values@, at).len()
            &&& r.1 == aggregate_of(samples_at(times@, values@, at), function)
        }),
{
    let ghost at = rows@.map_values(|i: usize| i as int);
    let mut acc = IncrementalAccumulator::new();
    let mut counted: Vec<usize> = Vec::new();
    let mut i: usize = 0;
    assert(at.take(0) =~= Seq::empty());
    assert(counted@.map_values(|i: usize| i as int) =~= Seq::empty());
    while i < rows.len()
        invariant
            i <= rows.len(),
            times@.len() == values@.len(),
            forall|j: int|
                0 <= j < rows@.len() ==> (#[trigger] rows@[j]) < times@.len()
                    && times@[rows@[j] as int] is Some,
            at == rows@.map_values(|i: usize| i as int),
            acc.taken() <= i,
            acc.summarizes(samples_at(times@, values@, at.take(i as int))),
            counted@.map_values(|i: usize| i as int) == counted_at(
                times@,
                values@,
                at.take(i as int),
            ),
            counted@.len() == samples_at(times@, values@, at.take(i as int)).len(),
        decreases rows.len() - i,
    {
        let row: usize = rows[i];
        let ghost before = counted@;
        proof {
            assert(at.take(i + 1).drop_last() =~= at.take(i as int));
            assert(at.take(i + 1).last() == row as int);
        }
        if let Some(t) = times[row] {
            if let Some(v) = values[row] {
                if !not_a_number(v) {
                    acc.update(Reading::Number(Num::F64(v)), Moment::At(t));
                    counted.push(row);
                    assert(counted@.map_values(|i: usize| i as int) =~= before.map_values(
                        |i: usize| i as int,
                    ).push(row as int));
                }
            }
        }
        i = i + 1;
    }
    assert(at.take(rows.len() as int) =~= at);
    let value = acc.finalize(function);
    (counted, value)
}

/// What downsampling comes to, before the result is charged.
pub open spec fn downsample_outcome(
    r: Result<Vec<Bucket>, QueryError>,
    samples: SamplesModel,
    value_column: Seq<char>,
    interval: i64,
    function: AggFn,
) -> bool {
    if interval <= 0 {
        r matches Err(e) && e.is_validation("downsample interval must be positive"@)
    } else {
        match samples {
            SamplesModel::Rows(rows) => {
                &&& r matches Ok(buckets)
                &&& is_downsampled(
                    bucket_pairs(buckets@),
                    plain_rows(rows),
                    interval as int,
                    function,
                )
                &&& forall|b: int|
                    0 <= b < buckets@.len() ==> (#[trigger] buckets@[b]).rows@.map_values(
                        |i: usize| i as int,
                    ) == counted_rows(rows, interval as int, buckets@[b].start as int)
            },
            refused => r matches Err(e) && refused.refused_as(value_column, e),
        }
    }
}

/// Downsample a batch into fixed-width time buckets.
///
/// For each bucket `[start, start + interval)`, the aggregation function is
/// applied to the values of its rows that are numbers. A bucket without any
/// is left out. The memory that the result takes is charged: at least eight
/// bytes for the start of each bucket and as many for its value.
pub fn downsample(
    samples: &Samples,
    value_column: &str,
    interval: i64,
    function: AggFn,
    tracker: &mut Option<MemoryTracker>,
) -> (r: Result<Vec<Bucket>, QueryError>)
    requires
        interval > 0 ==> (samples@ matches SamplesModel::Rows(rows) ==> buckets_fit(
            rows,
            interval as int,
        )),
    ensures
        exists|made: Result<Vec<Bucket>, QueryError>, size: usize|
            downsample_outcome(made, samples@, value_column@, interval, function) && (
            made matches Ok(buckets) ==> at_least(size, 2 * word_least(buckets@.len())))
                && #[trigger] settles(
                made,
                account(*old(tracker)),
                r,
                account(*final(tracker)),
                size,
            ),
{
    let ghost start = account(*tracker);
    let made = downsample_samples(samples, value_column, interval, function);
    let ghost outcome = made;
    match made {
        Ok(buckets) => {
            let size: usize = if tracker.is_some() {
                buckets_bytes(&buckets)
            } else {
                usize::MAX
            };
            let r = charge_result(buckets, size, tracker);
            assert(settles(outcome, start, r, account(*tracker), size));
            r
        },
        Err(e) => {
            assert(settles(outcome, start, Err(e), account(*tracker), 0));
            Err(e)
        },
    }
}

/// What a list of buckets takes: their starts and their values.
fn buckets_bytes(buckets: &Vec<Bucket>) -> (r: usize)
    ensures
        at_least(r, 2 * word_least(buckets@.len())),
{
    let mut times: Vec<Option<i64>> = Vec::new();
    let mut present: Vec<bool> = Vec::new();
    let mut i: usize = 0;
    while i < buckets.len()
        invariant
            i <= buckets.len(),
            times@.len() == i,
            present@.len() == i,
        decreases buckets.len() - i,
    {
        times.push(Some(buckets[i].start));
        present.push(buckets[i].value != AggResult::Null);
        i = i + 1;
    }
    timed_bytes(&times, &present)
}

/// Downsample a batch, with nothing charged.
pub fn downsample_samples(
    samples: &Samples,
    value_column: &str,
    interval: i64,
    function: AggFn,
) -> (r: Result<Vec<Bucket>, QueryError>)
    requires
        interval > 0 ==> (samples@ matches SamplesModel::Rows(rows) ==> buckets_fit(
            rows,
            interval as int,
        )),
    ensures
        downsample_outcome(r, samples@, value_column@, interval, function),
{
    if interval <= 0 {
        return Err(invalid("downsample interval must be positive"));
    }
    match read_columns(samples, value_column) {
        Ok((times, values)) => Ok(downsample_columns(times, values, interval, function)),
        Err(e) => Err(e),
    }
}

fn downsample_columns(
    times: &Vec<Option<i64>>,
    values: &Vec<Option<u64>>,
    interval: i64,
    function: AggFn,
) -> (r: Vec<Bucket>)
    requires
        times@.len() == values@.len(),
        interval > 0,
        buckets_fit(timed_rows(times@, values@, times@.len() as int), interval as int),
    ensures
        ({
            let rows = timed_rows(times@, values@, times@.len() as int);
            &&& is_downsampled(bucket_pairs(r@), plain_rows(rows), interval as int, function)
            &&& forall|b: int|
                0 <= b < r@.len() ==> (#[trigger] r@[b]).rows@.map_values(|i: usize| i as int)
                    == counted_rows(rows, interval as int, r@[b].start as int)
        }),
{
    let ghost n = times@.len() as int;
    let ghost all = timed_rows(times@, values@, n);
    let ghost wide = interval as int;
    let mut buckets = no_buckets();
    let mut i: usize = 0;
    assert(forall|start: i64| #[trigger] rows_in(buckets@, start) =~= Seq::empty());
    while i < times.len()
        invariant
            i <= times.len(),
            n == times@.len(),
            times@.len() == values@.len(),
            interval > 0,
            wide == interval,
            all == timed_rows(times@, values@, n),
            buckets_fit(all, wide),
            forall|start: i64|
                #![trigger rows_in(buckets@, start)]
                rows_in(buckets@, start).map_values(|i: usize| i as int) == positions(
                    timed_rows(times@, values@, i as int),
                    wide,
                    start as int,
                ),
            forall|j: int|
                0 <= j < i ==> ((#[trigger] times@[j]) matches Some(t) ==> buckets@.contains_key(
                    bucket_of(t as int, wide) as i64,
                )),
        decreases times.len() - i,
    {
        let ghost before = buckets@;
        let ghost seen = timed_rows(times@, values@, i as int);
        if let Some(t) = times[i] {
            proof {
                lemma_timed_row(times@, values@, i as int, n);
                let k = choose|k: int| 0 <= k < all.len() && (#[trigger] all[k]).0 == i as int
                    && all[k].1.0 == t;
                assert(bucket_of(all[k].1.0 as int, wide) >= i64::MIN);
                buckets_partition_time(t as int, wide);
            }
            let start: i64 = bucket_start(t, interval);
            add_row(&mut buckets, start, i);
            proof {
                let now = timed_rows(times@, values@, i + 1);
                assert(now.drop_last() =~= seen);
                assert forall|s: i64|
                    #![trigger rows_in(buckets@, s)]
                    rows_in(buckets@, s).map_values(|i: usize| i as int) == positions(
                        now,
                        wide,
                        s as int,
                    ) by {
                    assert(rows_in(before, s).map_values(|i: usize| i as int) == positions(
                        seen,
                        wide,
                        s as int,
                    ));
                    if s == start {
                        assert(rows_in(before, s).push(i).map_values(|i: usize| i as int)
                            =~= rows_in(before, s).map_values(|i: usize| i as int).push(i as int));
                    }
                }
            }
        }
        i = i + 1;
    }
    let starts = Starts { starts: bucket_starts(&buckets) };
    let ghost list = starts.starts@;
    let order = sort_rows(&starts, starts.starts.len());
    let mut out: Vec<Bucket> = Vec::new();
    let mut p: usize = 0;
    while p < order.len()
        invariant
            p <= order.len(),
            n == times@.len(),
            times@.len() == values@.len(),
            wide == interval,
            all == timed_rows(times@, values@, n),
            list == starts.starts@,
            list.no_duplicates(),
            list.to_set() == buckets@.dom(),
            is_sorted(&starts, order@, 0, list.len() as int),
            forall|start: i64|
                #![trigger rows_in(buckets@, start)]
                rows_in(buckets@, start).map_values(|i: usize| i as int) == positions(
                    all,
                    wide,
                    start as int,
                ),
            forall|b: int|
                0 <= b < out@.len() ==> {
                    let samples = samples_in(
                        plain_rows(all),
                        wide,
                        (#[trigger] out@[b]).start as int,
                    );
                    &&& samples.len() > 0
                    &&& out@[b].value == aggregate_of(samples, function)
                    &&& out@[b].rows@.map_values(|i: usize| i as int) == counted_rows(
                        all,
                        wide,
                        out@[b].start as int,
                    )
                    &&& exists|q: int|
                        0 <= q < p && list[(#[trigger] order@[q]) as int] == out@[b].start
                },
            forall|b: int, c: int|
                0 <= b < c < out@.len() ==> (#[trigger] out@[b]).start < (#[trigger] out@[c]).start,
            forall|q: int|
                0 <= q < p ==> {
                    let start = list[(#[trigger] order@[q]) as int];
                    samples_in(plain_rows(all), wide, start as int).len() > 0 ==> shown_in(
                        out@,
                        start as int,
                    )
                },
        decreases order.len() - p,
    {
        let start: i64 = starts.starts[order[p]];
        let ghost before = out@;
        proof {
            assert(list.contains(start));
            assert(list.to_set().contains(start));
            lemma_positions(times@, values@, wide, start as int, n);
            assert(rows_in(buckets@, start).map_values(|i: usize| i as int) == positions(
                all,
                wide,
                start as int,
            ));
        }
        if let Some(rows) = bucket_rows(&buckets, start) {
            proof {
                let at = positions(all, wide, start as int);
                assert(rows@ == rows_in(buckets@, start));
                assert forall|j: int| 0 <= j < rows@.len() implies (#[trigger] rows@[j])
                    < times@.len() && times@[rows@[j] as int] is Some by {
                    assert(at[j] == rows@[j] as int);
                }
            }
            let (counted, value) = reduce_bucket(times, values, rows, function);
            if counted.len() > 0 {
                out.push(Bucket { start, value, rows: counted });
                assert(shown_in(out@, start as int)) by {
                    assert(out@[before.len() as int].start == start);
                }
            }
        }
        proof {
            assert forall|b: int, c: int| 0 <= b < c < out@.len() implies (
            #[trigger] out@[b]).start < (#[trigger] out@[c]).start by {
                if c == before.len() {
                    let q = choose|q: int|
                        0 <= q < p && list[(#[trigger] order@[q]) as int] == before[b].start;
                    assert(stably_before(&starts, order@[q] as int, order@[p as int] as int));
                    if list[order@[q] as int] == list[order@[p as int] as int] {
                        assert(order@[q] == order@[p as int]);
                    }
                }
            }
            assert forall|q: int| 0 <= q < p + 1 implies {
                let s = list[(#[trigger] order@[q]) as int];
                samples_in(plain_rows(all), wide, s as int).len() > 0 ==> shown_in(out@, s as int)
            } by {
                let s = list[order@[q] as int];
                if q < p && samples_in(plain_rows(all), wide, s as int).len() > 0 {
                    assert(shown_in(before, s as int));
                    let b = choose|b: int|
                        0 <= b < before.len() && (#[trigger] before[b]).start == s;
                    assert(out@[b].start == s);
                }
            }
        }
        p = p + 1;
    }
    proof {
        let pairs = bucket_pairs(out@);
        assert forall|start: int| #[trigger]
            samples_in(plain_rows(all), wide, start).len() > 0 implies exists|i: int|
            0 <= i < pairs.len() && (#[trigger] pairs[i]).0 == start by {
            lemma_rows_have_buckets(times@, values@, wide, start, n);
            let j = choose|j: int| #[trigger] is_in_bucket(times@, wide, start, j) && j < n;
            let t = times@[j].unwrap();
            buckets_partition_time(t as int, wide);
            lemma_timed_row(times@, values@, j, n);
            let k = choose|k: int| 0 <= k < all.len() && (#[trigger] all[k]).0 == j
                && all[k].1.0 == t;
            assert(bucket_of(all[k].1.0 as int, wide) >= i64::MIN);
            let s = start as i64;
            assert(buckets@.contains_key(s));
            assert(list.to_set().contains(s));
            let m = choose|m: int| 0 <= m < list.len() && list[m] == s;
            assert(holds_row(order@, m));
            let q = choose|q: int| 0 <= q < order@.len() && (#[trigger] order@[q]) == m;
            assert(list[order@[q] as int] == s);
            assert(shown_in(out@, s as int));
            let b = choose|b: int| 0 <= b < out@.len() && (#[trigger] out@[b]).start == s;
            assert(pairs[b].0 == start);
        }
        assert forall|i: int| 0 <= i < pairs.len() implies {
            let samples = samples_in(plain_rows(all), wide, (#[trigger] pairs[i]).0 as int);
            samples.len() > 0 && pairs[i].1 == aggregate_of(samples, function)
        } by {
            assert(pairs[i] == (out@[i].start, out@[i].value));
        }
        assert forall|i: int, j: int| 0 <= i < j < pairs.len() implies (#[trigger] pairs[i]).0 < (
        #[trigger] pairs[j]).0 by {
            assert(out@[i].start < out@[j].start);
        }
    }
    out
}

spec fn shown_in(out: Seq<Bucket>, start: int) -> bool {
    exists|b: int| 0 <= b < out.len() && (#[trigger] out[b]).start == start
}

proof fn lemma_timed_row(
    times: Seq<Option<i64>>,
    values: Seq<Option<u64>>,
    i: int,
    n: int,
)
    requires
        0 <= i < n <= times.len(),
        times[i] is Some,
    ensures
        exists|k: int|
            0 <= k < timed_rows(times, values, n).len() && (#[trigger] timed_rows(
                times,
                values,
                n,
            )[k]).0 == i && timed_rows(times, values, n)[k].1.0 == times[i].unwrap(),
    decreases n,
{
    let rows = timed_rows(times, values, n);
    if i < n - 1 {
        lemma_timed_row(times, values, i, n - 1);
        let before = timed_rows(times, values, n - 1);
        let k = choose|k: int|
            0 <= k < before.len() && (#[trigger] before[k]).0 == i && before[k].1.0
                == times[i].unwrap();
        assert(rows[k] == before[k]);
    } else {
        assert(rows[rows.len() - 1].0 == i);
    }
}

} // verus!
