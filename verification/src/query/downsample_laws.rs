//! What the buckets of a downsampling hold.
use vstd::prelude::*;

#[allow(unused_imports)]
use crate::query::accumulator::{aggregate_of, Moment, Num, Reading};
#[allow(unused_imports)]
use crate::query::agg_fn::AggFn;
#[allow(unused_imports)]
use crate::query::downsample::{
    bucket_of, bucket_pairs, buckets_partition_time, columns_model, counted_rows, counts,
    downsample_outcome, plain_rows, samples_in, timed_rows, Bucket, Row, Samples, SamplesModel,
    TimeColumn, ValueColumn,
};
#[allow(unused_imports)]
use crate::query::downsample_stream::{
    are_full, are_full_but_last, joined, late_text, pushed, StreamModel, StreamingDownsampler,
};
#[allow(unused_imports)]
use crate::query::error::QueryError;
#[allow(unused_imports)]
use crate::query::float::is_nan;
#[allow(unused_imports)]
use crate::query::track::AggResult;

verus! {

/// The row is in the interval that starts here, and its value is a number.
pub open spec fn falls_in(row: Row, start: int, interval: int) -> bool {
    &&& start <= row.0 < start + interval
    &&& row.1 matches Some(v) && !is_nan(v)
}

/// The rows that are in the interval that starts here and hold a number.
pub open spec fn rows_falling_in(
    rows: Seq<(int, Row)>,
    start: int,
    interval: int,
) -> Seq<(int, Row)> {
    rows.filter(|row: (int, Row)| falls_in(row.1, start, interval))
}

/// What a row of numbers is read as: its value, at its time.
pub open spec fn read_at_its_time(row: (int, Row)) -> (Reading, Moment) {
    (Reading::Number(Num::F64(row.1.1.unwrap())), Moment::At(row.1.0))
}

proof fn lemma_aligned(t: int, start: int, interval: int)
    requires
        interval > 0,
        start % interval == 0,
    ensures
        bucket_of(t, interval) == start <==> start <= t < start + interval,
{
    buckets_partition_time(t, interval);
    let b = bucket_of(t, interval);
    vstd::arithmetic::div_mod::lemma_fundamental_div_mod(b, interval);
    vstd::arithmetic::div_mod::lemma_fundamental_div_mod(start, interval);
    let p = b / interval;
    let q = start / interval;
    if start <= t < start + interval {
        if p < q {
            assert(interval * p + interval <= interval * q) by (nonlinear_arith)
                requires
                    p + 1 <= q,
                    interval > 0,
            ;
        }
        if q < p {
            assert(interval * q + interval <= interval * p) by (nonlinear_arith)
                requires
                    q + 1 <= p,
                    interval > 0,
            ;
        }
    }
}

proof fn lemma_falling(rows: Seq<(int, Row)>, start: int, interval: int)
    requires
        interval > 0,
        start % interval == 0,
    ensures
        samples_in(plain_rows(rows), interval, start) == rows_falling_in(
            rows,
            start,
            interval,
        ).map_values(|row: (int, Row)| read_at_its_time(row)),
        counted_rows(rows, interval, start) == rows_falling_in(rows, start, interval).map_values(
            |row: (int, Row)| row.0,
        ),
    decreases rows.len(),
{
    reveal(Seq::filter);
    let read = |row: (int, Row)| read_at_its_time(row);
    let numbered = |row: (int, Row)| row.0;
    let all = rows_falling_in(rows, start, interval);
    if rows.len() > 0 {
        let rest = rows.drop_last();
        lemma_falling(rest, start, interval);
        lemma_aligned(rows.last().1.0 as int, start, interval);
        let before = rows_falling_in(rest, start, interval);
        assert(plain_rows(rows).drop_last() =~= plain_rows(rest));
        assert(plain_rows(rows).last() == rows.last().1);
        if falls_in(rows.last().1, start, interval) {
            assert(all == before.push(rows.last()));
            assert(all.map_values(read) =~= before.map_values(read).push(read(rows.last())));
            assert(all.map_values(numbered) =~= before.map_values(numbered).push(
                numbered(rows.last()),
            ));
        }
    } else {
        assert(samples_in(plain_rows(rows), interval, start) =~= all.map_values(read));
        assert(counted_rows(rows, interval, start) =~= all.map_values(numbered));
    }
}

proof fn lemma_bucket_is_of_a_row(rows: Seq<Row>, interval: int, start: int)
    requires
        samples_in(rows, interval, start).len() > 0,
    ensures
        exists|i: int|
            0 <= i < rows.len() && counts(#[trigger] rows[i]) && bucket_of(
                rows[i].0 as int,
                interval,
            ) == start,
    decreases rows.len(),
{
    if rows.len() > 0 {
        let n = rows.len() - 1;
        if !(counts(rows[n]) && bucket_of(rows[n].0 as int, interval) == start) {
            lemma_bucket_is_of_a_row(rows.drop_last(), interval, start);
            let i = choose|i: int|
                0 <= i < rows.drop_last().len() && counts(#[trigger] rows.drop_last()[i])
                    && bucket_of(rows.drop_last()[i].0 as int, interval) == start;
            assert(rows[i] == rows.drop_last()[i]);
        }
    }
}

/// A bucket starts at a multiple of the interval. Its value is the aggregate of
/// the numbers in the rows from its start on and before the next multiple, each
/// at its time, and there is at least one. Its rows are those rows.
pub proof fn a_bucket_is_the_aggregate_of_its_interval(
    buckets: Vec<Bucket>,
    rows: Seq<(int, Row)>,
    column: Seq<char>,
    interval: i64,
    function: AggFn,
    b: int,
)
    requires
        downsample_outcome(Ok(buckets), SamplesModel::Rows(rows), column, interval, function),
        0 <= b < buckets@.len(),
    ensures
        interval > 0,
        buckets@[b].start as int % interval as int == 0,
        rows_falling_in(rows, buckets@[b].start as int, interval as int).len() > 0,
        buckets@[b].value == aggregate_of(
            rows_falling_in(rows, buckets@[b].start as int, interval as int).map_values(
                |row: (int, Row)| read_at_its_time(row),
            ),
            function,
        ),
        buckets@[b].rows@.map_values(|i: usize| i as int) == rows_falling_in(
            rows,
            buckets@[b].start as int,
            interval as int,
        ).map_values(|row: (int, Row)| row.0),
{
    let out = bucket_pairs(buckets@);
    let start = buckets@[b].start as int;
    assert(out[b] == (buckets@[b].start, buckets@[b].value));
    lemma_bucket_is_of_a_row(plain_rows(rows), interval as int, start);
    let i = choose|i: int|
        0 <= i < plain_rows(rows).len() && counts(#[trigger] plain_rows(rows)[i]) && bucket_of(
            plain_rows(rows)[i].0 as int,
            interval as int,
        ) == start;
    buckets_partition_time(plain_rows(rows)[i].0 as int, interval as int);
    lemma_falling(rows, start, interval as int);
}

/// Buckets come in ascending order, and every row that holds a number is in one.
pub proof fn every_number_is_in_a_bucket(
    buckets: Vec<Bucket>,
    rows: Seq<(int, Row)>,
    column: Seq<char>,
    interval: i64,
    function: AggFn,
    i: int,
)
    requires
        downsample_outcome(Ok(buckets), SamplesModel::Rows(rows), column, interval, function),
        0 <= i < rows.len(),
        rows[i].1.1 matches Some(v) && !is_nan(v),
    ensures
        exists|b: int|
            0 <= b < buckets@.len() && (#[trigger] buckets@[b]).start <= rows[i].1.0
                < buckets@[b].start + interval,
        forall|a: int, b: int|
            0 <= a < b < buckets@.len() ==> (#[trigger] buckets@[a]).start < (
            #[trigger] buckets@[b]).start,
{
    let out = bucket_pairs(buckets@);
    let plain = plain_rows(rows);
    let t = rows[i].1.0 as int;
    let start = bucket_of(t, interval as int);
    buckets_partition_time(t, interval as int);
    lemma_falling(rows, start, interval as int);
    assert(falls_in(rows[i].1, start, interval as int));
    lemma_filter_holds(rows, start, interval as int, i);
    assert(samples_in(plain, interval as int, start).len() > 0);
    let b = choose|b: int| 0 <= b < out.len() && (#[trigger] out[b]).0 == start;
    assert(out[b] == (buckets@[b].start, buckets@[b].value));
    assert(buckets@[b].start == start);
    assert forall|a: int, b: int| 0 <= a < b < buckets@.len() implies (#[trigger] buckets@[a]).start
        < (#[trigger] buckets@[b]).start by {
        assert(out[a].0 < out[b].0);
    }
}

proof fn lemma_filter_holds(rows: Seq<(int, Row)>, start: int, interval: int, i: int)
    requires
        0 <= i < rows.len(),
        falls_in(rows[i].1, start, interval),
    ensures
        rows_falling_in(rows, start, interval).len() > 0,
    decreases rows.len(),
{
    reveal(Seq::filter);
    if i < rows.len() - 1 {
        assert(rows.drop_last()[i] == rows[i]);
        lemma_filter_holds(rows.drop_last(), start, interval, i);
    }
}

/// The rows that are read are those that have a timestamp, each with its number,
/// its time and its value.
pub proof fn rows_with_timestamps_are_read(
    times: Seq<Option<i64>>,
    values: Seq<Option<u64>>,
    n: int,
)
    requires
        0 <= n,
    ensures
        timed_rows(times, values, n) == Seq::new(n as nat, |i: int| i).filter(
            |i: int| times[i] is Some,
        ).map_values(|i: int| (i, (times[i].unwrap(), values[i]))),
    decreases n,
{
    reveal(Seq::filter);
    let timed = |i: int| times[i] is Some;
    let read = |i: int| (i, (times[i].unwrap(), values[i]));
    let all = Seq::new(n as nat, |i: int| i);
    if n > 0 {
        rows_with_timestamps_are_read(times, values, n - 1);
        assert(all.drop_last() =~= Seq::new((n - 1) as nat, |i: int| i));
        assert(all.last() == n - 1);
        let before = all.drop_last().filter(timed);
        if timed(n - 1) {
            assert(before.push(n - 1).map_values(read) =~= before.map_values(read).push(
                read(n - 1),
            ));
        }
    } else {
        assert(timed_rows(times, values, n) =~= all.filter(timed).map_values(read));
    }
}

/// An interval that is not positive is refused, whatever the columns hold. Then
/// a time column or a value column that is missing is, and then one that holds
/// no timestamps or no numbers.
pub proof fn unreadable_samples_are_refused(
    r: Result<Vec<Bucket>, QueryError>,
    time: TimeColumn,
    value: ValueColumn,
    rows: int,
    column: Seq<char>,
    interval: i64,
    function: AggFn,
)
    requires
        downsample_outcome(r, columns_model(time, value, rows), column, interval, function),
    ensures
        r is Ok <==> interval > 0 && time is Times && value is Values,
        interval <= 0 ==> (r matches Err(e) && e.is_validation(
            "downsample interval must be positive"@,
        )),
        interval > 0 && time is Missing ==> (r matches Err(e) && e.is_validation(
            "'timestamp' column not found"@,
        )),
        interval > 0 && !(time is Missing) && value is Missing ==> (r matches Err(
            QueryError::FieldNotFound { field, .. },
        ) && field@ == column),
        interval > 0 && time is NotInt64 && !(value is Missing) ==> (r matches Err(e)
            && e.is_validation("'timestamp' column is not Int64"@)),
{
}

/// Rows can be pushed just if the timestamps never go back, neither among them
/// nor behind the row taken last.
pub proof fn just_descending_rows_are_late(
    m: StreamModel,
    rows: Seq<Row>,
    interval: int,
    function: AggFn,
)
    ensures
        m.none_late(rows, interval, function) <==> {
            &&& rows.len() > 0 ==> (m.last matches Some(t) ==> rows[0].0 >= t)
            &&& forall|i: int| 0 < i < rows.len() ==> (#[trigger] rows[i]).0 >= rows[i - 1].0
        },
{
    assert forall|j: int| 0 < j < rows.len() implies (m.with_rows(
        rows.take(j),
        interval,
        function,
    ).is_late(#[trigger] rows[j]) <==> rows[j].0 < rows[j - 1].0) by {
        assert(rows.take(j).last() == rows[j - 1]);
    }
    if rows.len() > 0 {
        assert(rows.take(0) =~= Seq::empty());
        assert(m.with_rows(rows.take(0), interval, function) == m);
        assert(m.is_late(rows[0]) <==> (m.last matches Some(t) && rows[0].0 < t));
    }
}

/// Pushing a batch that can be read fails just if a row of it is late, and the
/// rows before the first late one have then been taken.
pub proof fn a_push_fails_at_a_late_row(
    interval: int,
    function: AggFn,
    column: Seq<char>,
    samples: &Samples,
    rows: Seq<(int, Row)>,
    m: StreamModel,
    emitted: int,
    r: Result<Vec<Vec<(i64, AggResult)>>, QueryError>,
    after: &StreamingDownsampler,
)
    requires
        samples@ == SamplesModel::Rows(rows),
        samples.row_count() > 0,
        pushed(interval, function, column, samples, m, emitted, r, after),
    ensures
        r is Ok <==> m.none_late(plain_rows(rows), interval, function),
        r matches Ok(chunks) ==> after.stands_at(
            m.with_rows(plain_rows(rows), interval, function),
            emitted + joined(chunks@).len(),
        ),
        r is Err ==> exists|i: int|
            #![trigger plain_rows(rows)[i]]
            {
                &&& 0 <= i < rows.len()
                &&& m.with_rows(plain_rows(rows).take(i), interval, function).is_late(
                    plain_rows(rows)[i],
                )
                &&& after.stands_at(
                    m.with_rows(plain_rows(rows).take(i), interval, function),
                    emitted,
                )
            },
{
    if r is Err {
        let e = r->Err_0;
        let plain = plain_rows(rows);
        let i = choose|i: int|
            {
                let mid = m.with_rows(plain.take(i), interval, function);
                &&& #[trigger] m.first_late(plain, interval, function, i)
                &&& e.is_validation(late_text(mid, plain[i], interval))
                &&& after.stands_at(mid, emitted)
            };
        assert(m.first_late(plain, interval, function, i));
        assert(m.with_rows(plain.take(i), interval, function).is_late(plain[i]));
    }
}

/// Chunks that are handed out along the way have 65536 buckets each; at the end
/// the last one may have fewer, but has at least one.
pub proof fn chunks_of_buckets_are_full(chunks: Seq<Vec<(i64, AggResult)>>, c: int)
    requires
        0 <= c < chunks.len(),
    ensures
        are_full(chunks) ==> chunks[c]@.len() == 65_536,
        are_full_but_last(chunks) ==> 0 < chunks[c]@.len() <= 65_536,
        are_full_but_last(chunks) && c < chunks.len() - 1 ==> chunks[c]@.len() == 65_536,
{
}

} // verus!
