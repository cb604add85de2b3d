//! Boundary-safe downsampling over a sequence of time-ordered batches.
use vstd::prelude::*;
use vstd::string::*;

use crate::query::accumulator::{IncrementalAccumulator, Moment, Num, Reading};
#[allow(unused_imports)]
use crate::query::accumulator::aggregate_of;
use crate::query::agg_fn::AggFn;
use crate::query::downsample::{bucket_start, read_columns, Samples};
#[allow(unused_imports)]
use crate::query::downsample::{
    bucket_of, buckets_fit, counts, is_downsampled, plain_rows, sample, samples_in, timed_rows,
    Row, SamplesModel,
};
use crate::query::error::{invalid, QueryError};
use crate::query::float::not_a_number;
use crate::query::track::AggResult;
use crate::text::push_signed;
#[allow(unused_imports)]
use crate::text::signed_decimal;

verus! {

broadcast use vstd::string::group_string_axioms;

/// Buckets per emitted batch.
pub const DEFAULT_CHUNK_ROWS: usize = 65_536;

/// Where a streaming downsampler stands: the open bucket, the samples in it,
/// and all buckets closed so far.
#[verifier::ext_equal]
pub struct StreamModel {
    /// Start of the open bucket.
    pub open: Option<int>,
    /// Timestamp of the row taken last.
    pub last: Option<int>,
    /// Samples in the open bucket.
    pub samples: Seq<(Reading, Moment)>,
    /// Closed buckets that had samples.
    pub closed_buckets: Seq<(i64, AggResult)>,
}

/// Nothing has been taken.
pub open spec fn stream_start() -> StreamModel {
    StreamModel {
        open: None,
        last: None,
        samples: Seq::empty(),
        closed_buckets: Seq::empty(),
    }
}

impl StreamModel {
    /// The closed buckets with the open one among them, if it has samples.
    pub open spec fn with_open_closed(self, function: AggFn) -> Seq<(i64, AggResult)> {
        match self.open {
            Some(start) if self.samples.len() > 0 => self.closed_buckets.push(
                (start as i64, aggregate_of(self.samples, function)),
            ),
            _ => self.closed_buckets,
        }
    }

    /// The row lies before the row taken last.
    pub open spec fn is_late(self, row: Row) -> bool {
        self.last matches Some(t) && row.0 < t
    }

    /// After a row that is not late was taken.
    pub open spec fn with_row(self, row: Row, interval: int, function: AggFn) -> StreamModel {
        let start = bucket_of(row.0 as int, interval);
        let stays = self.open == Some(start);
        let samples = if stays {
            self.samples
        } else {
            Seq::empty()
        };
        StreamModel {
            open: Some(start),
            last: Some(row.0 as int),
            samples: if counts(row) {
                samples.push(sample(row))
            } else {
                samples
            },
            closed_buckets: if stays {
                self.closed_buckets
            } else {
                self.with_open_closed(function)
            },
        }
    }

    /// After some rows were taken.
    pub open spec fn with_rows(self, rows: Seq<Row>, interval: int, function: AggFn) -> StreamModel
        decreases rows.len(),
    {
        if rows.len() == 0 {
            self
        } else {
            self.with_rows(rows.drop_last(), interval, function).with_row(
                rows.last(),
                interval,
                function,
            )
        }
    }

    /// The first row that is late.
    pub open spec fn first_late(
        self,
        rows: Seq<Row>,
        interval: int,
        function: AggFn,
        i: int,
    ) -> bool {
        &&& 0 <= i < rows.len()
        &&& self.with_rows(rows.take(i), interval, function).is_late(rows[i])
        &&& forall|j: int|
            0 <= j < i ==> !self.with_rows(rows.take(j), interval, function).is_late(#[trigger] rows[j])
    }

    /// No row is late.
    pub open spec fn none_late(self, rows: Seq<Row>, interval: int, function: AggFn) -> bool {
        forall|j: int|
            0 <= j < rows.len() ==> !self.with_rows(rows.take(j), interval, function).is_late(#[trigger] rows[j])
    }
}

/// The text of the error for a late row: it names the buckets where that of
/// the row was closed, and the timestamps where it is still open.
pub open spec fn late_text(m: StreamModel, row: Row, interval: int) -> Seq<char> {
    let bucket = bucket_of(row.0 as int, interval);
    let open = m.open.unwrap();
    if bucket < open {
        "downsample input is not ascending by timestamp: bucket "@ + signed_decimal(bucket)
            + " arrived after "@ + signed_decimal(open) + " was closed"@
    } else {
        "downsample input is not ascending by timestamp: "@ + signed_decimal(row.0 as int)
            + " arrived after "@ + signed_decimal(m.last.unwrap())
    }
}

/// Some chunks, one after the other.
pub open spec fn joined(chunks: Seq<Vec<(i64, AggResult)>>) -> Seq<(i64, AggResult)>
    decreases chunks.len(),
{
    if chunks.len() == 0 {
        Seq::empty()
    } else {
        joined(chunks.drop_last()) + chunks.last()@
    }
}

/// Every chunk has as many buckets as a chunk can have.
pub open spec fn are_full(chunks: Seq<Vec<(i64, AggResult)>>) -> bool {
    forall|c: int| 0 <= c < chunks.len() ==> (#[trigger] chunks[c])@.len() == DEFAULT_CHUNK_ROWS
}

/// Every chunk but the last is full, and none is empty.
pub open spec fn are_full_but_last(chunks: Seq<Vec<(i64, AggResult)>>) -> bool {
    &&& forall|c: int| 0 <= c < chunks.len() ==> 0 < (#[trigger] chunks[c])@.len() <= DEFAULT_CHUNK_ROWS
    &&& forall|c: int|
        0 <= c < chunks.len() - 1 ==> (#[trigger] chunks[c])@.len() == DEFAULT_CHUNK_ROWS
}

/// The error for a row at `t` that comes after one at `last`.
fn late_error(t: i64, last: i64, bucket: i64, open: i64) -> (r: QueryError)
    ensures
        forall|m: StreamModel, row: Row, interval: int|
            m.open == Some(open as int) && m.last == Some(last as int) && row.0 == t && bucket_of(
                t as int,
                interval,
            ) == bucket ==> r.is_validation(#[trigger] late_text(m, row, interval)),
{
    if bucket < open {
        let mut text = "downsample input is not ascending by timestamp: bucket ".to_owned();
        push_signed(&mut text, bucket as i128);
        text.append(" arrived after ");
        push_signed(&mut text, open as i128);
        text.append(" was closed");
        invalid(text.as_str())
    } else {
        let mut text = "downsample input is not ascending by timestamp: ".to_owned();
        push_signed(&mut text, t as i128);
        text.append(" arrived after ");
        push_signed(&mut text, last as i128);
        invalid(text.as_str())
    }
}

/// Boundary-safe downsampling over a sequence of time-ordered batches.
///
/// Rows must arrive ascending by timestamp, so a bucket is complete as soon as
/// a row belonging to a later bucket is seen. Buckets are emitted in order and
/// exactly once.
#[derive(Debug)]
pub struct StreamingDownsampler {
    value_column: String,
    interval: i64,
    function: AggFn,
    /// Start of the open bucket, and the timestamp of the row taken last.
    open_bucket: Option<(i64, i64)>,
    acc: IncrementalAccumulator,
    pending: Vec<(i64, AggResult)>,
    taken: u64,
}

impl StreamingDownsampler {
    /// Bucket width.
    pub closed spec fn interval(&self) -> int {
        self.interval as int
    }

    /// Aggregation function.
    pub closed spec fn function(&self) -> AggFn {
        self.function
    }

    /// Value column.
    pub closed spec fn column(&self) -> Seq<char> {
        self.value_column@
    }

    /// Number of rows taken.
    pub closed spec fn rows_taken(&self) -> u64 {
        self.taken
    }

    #[verifier::type_invariant]
    spec fn is_consistent(&self) -> bool {
        &&& self.interval > 0
        &&& self.acc.taken() <= self.taken
    }

    /// The downsampler stands at `m`, and the first `emitted` closed buckets
    /// have been handed out.
    pub closed spec fn stands_at(&self, m: StreamModel, emitted: int) -> bool {
        &&& 0 <= emitted <= m.closed_buckets.len()
        &&& match self.open_bucket {
            Some((start, last)) => m.open == Some(start as int) && m.last == Some(last as int),
            None => m.open is None && m.last is None,
        }
        &&& m.open is None ==> m.samples.len() == 0
        &&& self.acc.summarizes(m.samples)
        &&& self.pending@ == m.closed_buckets.skip(emitted)
    }

    /// No more buckets were handed out than were closed.
    pub proof fn lemma_stands_within(&self, m: StreamModel, emitted: int)
        requires
            self.stands_at(m, emitted),
        ensures
            0 <= emitted <= m.closed_buckets.len(),
    {
    }

    /// Create a downsampler for `value_column` over `interval`-wide buckets.
    pub fn new(value_column: &str, interval: i64, function: AggFn) -> (r: Result<
        Self,
        QueryError,
    >)
        ensures
            if interval <= 0 {
                r matches Err(e) && e.is_validation("downsample interval must be positive"@)
            } else {
                &&& r matches Ok(d)
                &&& d.interval() == interval
                &&& d.function() == function
                &&& d.column() == value_column@
                &&& d.rows_taken() == 0
                &&& d.stands_at(stream_start(), 0)
            },
    {
        if interval <= 0 {
            return Err(invalid("downsample interval must be positive"));
        }
        let r = StreamingDownsampler {
            value_column: value_column.to_owned(),
            interval,
            function,
            open_bucket: None,
            acc: IncrementalAccumulator::new(),
            pending: Vec::new(),
            taken: 0,
        };
        assert(r.pending@ =~= stream_start().closed_buckets.skip(0));
        Ok(r)
    }

    /// Take one row. Fails if the row lies before the one taken last.
    fn take_row(&mut self, t: i64, value: Option<u64>) -> (r: Result<(), QueryError>)
        requires
            bucket_of(t as int, old(self).interval()) >= i64::MIN,
            old(self).rows_taken() < u64::MAX,
        ensures
            final(self).interval() == old(self).interval(),
            final(self).function() == old(self).function(),
            final(self).column() == old(self).column(),
            forall|m: StreamModel, emitted: int| #[trigger]
                old(self).stands_at(m, emitted) ==> {
                    let row = (t, value);
                    if m.is_late(row) {
                        &&& r matches Err(e)
                        &&& e.is_validation(
                            late_text(m, row, old(self).interval()),
                        )
                        &&& final(self).stands_at(m, emitted)
                    } else {
                        &&& r is Ok
                        &&& final(self).stands_at(
                            m.with_row(row, old(self).interval(), old(self).function()),
                            emitted,
                        )
                    }
                },
            final(self).rows_taken() <= old(self).rows_taken() + 1,
            old(self).rows_taken() <= final(self).rows_taken(),
    {
        proof {
            use_type_invariant(&*self);
        }
        let ghost before = *self;
        let bucket: i64 = bucket_start(t, self.interval);
        let stays: bool = match self.open_bucket {
            Some((open, last)) => {
                if t < last {
                    return Err(late_error(t, last, bucket, open));
                }
                bucket == open
            },
            None => false,
        };
        let mut acc = self.acc;
        if !stays {
            if let Some((open, _)) = self.open_bucket {
                let count: u64 = acc.count();
                if count > 0 {
                    let value = acc.finalize(self.function);
                    let mut pending: Vec<(i64, AggResult)> = Vec::new();
                    std::mem::swap(&mut pending, &mut self.pending);
                    pending.push((open, value));
                    self.pending = pending;
                }
            }
            acc = IncrementalAccumulator::new();
        }
        let ghost middle = acc;
        if let Some(v) = value {
            if !not_a_number(v) {
                acc.update(Reading::Number(Num::F64(v)), Moment::At(t));
            }
        }
        self.taken = self.taken + 1;
        self.acc = acc;
        self.open_bucket = Some((bucket, t));
        proof {
            assert forall|m: StreamModel, emitted: int| #[trigger]
                before.stands_at(m, emitted) implies !m.is_late((t, value))
                && self.stands_at(
                m.with_row((t, value), before.interval(), before.function()),
                emitted,
            ) by {
                let next = m.with_row((t, value), before.interval(), before.function());
                assert(self.pending@ =~= next.closed_buckets.skip(emitted));
                if stays {
                    assert(middle.summarizes(m.samples));
                } else {
                    assert(middle.summarizes(Seq::empty()));
                }
            }
        }
        Ok(())
    }

    /// Turn completed buckets into chunks. Unless `flush`, a partial chunk is
    /// kept back so that emitted chunks stay a uniform size.
    fn drain(&mut self, flush: bool) -> (r: Vec<Vec<(i64, AggResult)>>)
        ensures
            final(self).interval() == old(self).interval(),
            final(self).function() == old(self).function(),
            final(self).column() == old(self).column(),
            final(self).rows_taken() == old(self).rows_taken(),
            flush ==> are_full_but_last(r@) && final(self).pending@.len() == 0,
            !flush ==> are_full(r@) && final(self).pending@.len() < DEFAULT_CHUNK_ROWS,
            old(self).pending@ == joined(r@) + final(self).pending@,
            final(self).open_bucket == old(self).open_bucket,
            final(self).acc == old(self).acc,
    {
        proof {
            use_type_invariant(&*self);
        }
        let ghost all = self.pending@;
        let mut pending: Vec<(i64, AggResult)> = Vec::new();
        std::mem::swap(&mut pending, &mut self.pending);
        let mut out: Vec<Vec<(i64, AggResult)>> = Vec::new();
        assert(joined(out@) + pending@ =~= all);
        while pending.len() >= DEFAULT_CHUNK_ROWS || (flush && pending.len() > 0)
            invariant
                joined(out@) + pending@ == all,
                !flush ==> are_full(out@),
                flush ==> are_full_but_last(out@),
                flush && out@.len() > 0 && pending@.len() > 0 ==> out@.last()@.len()
                    == DEFAULT_CHUNK_ROWS,
            decreases pending.len(),
        {
            let take: usize = if pending.len() < DEFAULT_CHUNK_ROWS {
                pending.len()
            } else {
                DEFAULT_CHUNK_ROWS
            };
            let ghost before = out@;
            let ghost was = pending@;
            let mut rest = pending.split_off(take);
            std::mem::swap(&mut pending, &mut rest);
            out.push(rest);
            proof {
                assert(out@.drop_last() =~= before);
                assert(was =~= rest@ + pending@);
                assert(joined(out@) + pending@ =~= all);
                assert forall|c: int| 0 <= c < out@.len() implies 0 < (#[trigger] out@[c])@.len()
                    <= DEFAULT_CHUNK_ROWS by {
                    if c < before.len() {
                        assert(out@[c] == before[c]);
                    }
                }
                assert forall|c: int| 0 <= c < out@.len() - 1 implies (
                #[trigger] out@[c])@.len() == DEFAULT_CHUNK_ROWS by {
                    assert(out@[c] == before[c]);
                }
            }
        }
        self.pending = pending;
        out
    }

    /// Fold one batch in, returning any chunks of completed buckets.
    ///
    /// Fails if the timestamp or value column is missing or has an unsupported
    /// type, or if a row arrives out of timestamp order. The rows before such a
    /// row have then been taken.
    pub fn push(&mut self, samples: &Samples) -> (r: Result<
        Vec<Vec<(i64, AggResult)>>,
        QueryError,
    >)
        requires
            samples@ matches SamplesModel::Rows(rows) ==> buckets_fit(rows, old(self).interval()),
            old(self).rows_taken() + samples.row_count() <= u64::MAX,
        ensures
            final(self).interval() == old(self).interval(),
            final(self).function() == old(self).function(),
            final(self).column() == old(self).column(),
            final(self).rows_taken() <= old(self).rows_taken() + samples.row_count(),
            forall|m: StreamModel, emitted: int| #[trigger]
                old(self).stands_at(m, emitted) ==> pushed(
                    old(self).interval(),
                    old(self).function(),
                    old(self).column(),
                    samples,
                    m,
                    emitted,
                    r,
                    final(self),
                ),
    {
        let ghost interval = self.interval();
        let ghost function = self.function();
        let ghost column = self.column();
        let ghost before = *self;
        if samples.rows() == 0 {
            proof {
                assert forall|m: StreamModel, emitted: int| #[trigger]
                    before.stands_at(m, emitted) implies m.closed_buckets.subrange(
                    emitted,
                    emitted,
                ) =~= Seq::empty() by {}
            }
            let none: Vec<Vec<(i64, AggResult)>> = Vec::new();
            assert(joined(none@) =~= Seq::empty());
            return Ok(none);
        }
        let (times, values) = match read_columns(samples, self.value_column.as_str()) {
            Ok(columns) => columns,
            Err(e) => {
                return Err(e);
            },
        };
        let ghost all = timed_rows(times@, values@, times@.len() as int);
        let ghost rows = plain_rows(all);
        let mut i: usize = 0;
        assert(plain_rows(timed_rows(times@, values@, 0)) =~= Seq::empty());
        while i < times.len()
            invariant
                i <= times.len(),
                times@.len() == values@.len(),
                times@.len() == samples.row_count(),
                all == timed_rows(times@, values@, times@.len() as int),
                rows == plain_rows(all),
                samples@ == SamplesModel::Rows(all),
                samples.row_count() > 0,
                buckets_fit(all, interval),
                self.interval() == interval,
                self.function() == function,
                self.column() == column,
                before.rows_taken() + times@.len() <= u64::MAX,
                self.rows_taken() <= before.rows_taken() + i,
                before == *old(self),
                interval == before.interval(),
                function == before.function(),
                column == before.column(),
                forall|m: StreamModel, emitted: int| #[trigger]
                    before.stands_at(m, emitted) ==> {
                        let seen = plain_rows(timed_rows(times@, values@, i as int));
                        &&& self.stands_at(m.with_rows(seen, interval, function), emitted)
                        &&& m.none_late(seen, interval, function)
                    },
            decreases times.len() - i,
        {
            let ghost here = *self;
            let ghost seen = plain_rows(timed_rows(times@, values@, i as int));
            if let Some(t) = times[i] {
                let ghost row: Row = (t, values@[i as int]);
                let ghost now = plain_rows(timed_rows(times@, values@, i + 1));
                proof {
                    assert(now =~= seen.push(row));
                    lemma_prefix(times@, values@, i + 1, times@.len() as int);
                    let k = (timed_rows(times@, values@, i + 1).len() - 1) as int;
                    assert(all[k] == timed_rows(times@, values@, i + 1)[k]);
                    assert(all[k].1.0 == t);
                }
                let taken = self.take_row(t, values[i]);
                match taken {
                    Ok(_) => {
                        proof {
                            assert forall|m: StreamModel, emitted: int| #[trigger]
                                before.stands_at(m, emitted) implies self.stands_at(
                                m.with_rows(now, interval, function),
                                emitted,
                            ) && m.none_late(now, interval, function) by {
                                let mid = m.with_rows(seen, interval, function);
                                assert(here.stands_at(mid, emitted));
                                assert(now.drop_last() =~= seen);
                                assert forall|j: int| 0 <= j < now.len() implies !m.with_rows(
                                    now.take(j),
                                    interval,
                                    function,
                                ).is_late(#[trigger] now[j]) by {
                                    if j < seen.len() {
                                        assert(now.take(j) =~= seen.take(j));
                                        assert(now[j] == seen[j]);
                                    } else {
                                        assert(now.take(j) =~= seen);
                                    }
                                }
                            }
                        }
                    },
                    Err(e) => {
                        proof {
                            lemma_prefix(times@, values@, i as int, times@.len() as int);
                            assert forall|m: StreamModel, emitted: int| #[trigger]
                                before.stands_at(m, emitted) implies pushed(
                                interval,
                                function,
                                column,
                                samples,
                                m,
                                emitted,
                                Err(e),
                                self,
                            ) by {
                                let mid = m.with_rows(seen, interval, function);
                                assert(here.stands_at(mid, emitted));
                                assert(mid.is_late(row));
                                let at = seen.len() as int;
                                assert(rows.take(at) =~= seen);
                                assert(rows[at] == row);
                                assert forall|j: int| 0 <= j < at implies !m.with_rows(
                                    rows.take(j),
                                    interval,
                                    function,
                                ).is_late(#[trigger] rows[j]) by {
                                    assert(rows.take(j) =~= seen.take(j));
                                    assert(rows[j] == seen[j]);
                                }
                                assert(m.first_late(rows, interval, function, at));
                            }
                        }
                        return Err(e);
                    },
                }
            }
            i = i + 1;
        }
        let ghost full = *self;
        let chunks = self.drain(false);
        proof {
            assert forall|m: StreamModel, emitted: int| #[trigger]
                before.stands_at(m, emitted) implies pushed(
                interval,
                function,
                column,
                samples,
                m,
                emitted,
                Ok(chunks),
                self,
            ) by {
                let end = m.with_rows(rows, interval, function);
                assert(full.stands_at(end, emitted));
                let done = emitted + joined(chunks@).len();
                let tail = end.closed_buckets.skip(emitted);
                assert(tail == joined(chunks@) + self.pending@);
                assert(tail.len() == end.closed_buckets.len() - emitted);
                assert(tail.len() == joined(chunks@).len() + self.pending@.len());
                assert(end.closed_buckets.subrange(emitted, done) =~= joined(chunks@)) by {
                    assert forall|k: int| 0 <= k < joined(chunks@).len() implies #[trigger] joined(
                        chunks@,
                    )[k] == end.closed_buckets.subrange(emitted, done)[k] by {
                        assert(tail[k] == joined(chunks@)[k]);
                        assert(tail[k] == end.closed_buckets[emitted + k]);
                    }
                }
                assert(self.pending@ =~= end.closed_buckets.skip(done)) by {
                    assert forall|k: int| 0 <= k < self.pending@.len() implies self.pending@[k]
                        == end.closed_buckets.skip(done)[k] by {
                        assert(tail[joined(chunks@).len() + k] == self.pending@[k]);
                    }
                }
                assert(self.stands_at(end, done));
            }
        }
        Ok(chunks)
    }

    /// How many completed buckets wait to be handed out.
    pub closed spec fn waiting(&self) -> nat {
        self.pending@.len()
    }

    /// Close the final bucket and return any remaining output.
    pub fn finish(self) -> (r: Vec<Vec<(i64, AggResult)>>)
        ensures
            are_full_but_last(r@),
            forall|m: StreamModel, emitted: int| #[trigger]
                self.stands_at(m, emitted) ==> joined(r@) == m.with_open_closed(
                    self.function(),
                ).skip(emitted),
    {
        proof {
            use_type_invariant(&self);
        }
        let ghost before = self;
        let mut this = self;
        if let Some((open, _)) = this.open_bucket {
            let count: u64 = this.acc.count();
            if count > 0 {
                let value = this.acc.finalize(this.function);
                let mut pending: Vec<(i64, AggResult)> = Vec::new();
                std::mem::swap(&mut pending, &mut this.pending);
                pending.push((open, value));
                this.pending = pending;
            }
        }
        proof {
            assert forall|m: StreamModel, emitted: int| #[trigger]
                before.stands_at(m, emitted) implies this.pending@ == m.with_open_closed(
                before.function(),
            ).skip(emitted) by {
                assert(this.pending@ =~= m.with_open_closed(before.function()).skip(emitted));
            }
        }
        let r = this.drain(true);
        assert(joined(r@) + this.pending@ =~= joined(r@));
        r
    }
}

/// The outcome of pushing a batch into a downsampler that stands at `m` with
/// `emitted` buckets handed out.
pub open spec fn pushed(
    interval: int,
    function: AggFn,
    column: Seq<char>,
    samples: &Samples,
    m: StreamModel,
    emitted: int,
    r: Result<Vec<Vec<(i64, AggResult)>>, QueryError>,
    after: &StreamingDownsampler,
) -> bool {
    if samples.row_count() == 0 {
        r matches Ok(chunks) && chunks@.len() == 0 && after.stands_at(m, emitted)
    } else {
        match samples@ {
            SamplesModel::Rows(all) => {
                let rows = plain_rows(all);
                let end = m.with_rows(rows, interval, function);
                match r {
                    Ok(chunks) => {
                        let done = emitted + joined(chunks@).len();
                        &&& m.none_late(rows, interval, function)
                        &&& are_full(chunks@)
                        &&& joined(chunks@) == end.closed_buckets.subrange(emitted, done)
                        &&& after.stands_at(end, done)
                        &&& after.waiting() < DEFAULT_CHUNK_ROWS
                    },
                    Err(e) => exists|i: int|
                        {
                            let mid = m.with_rows(rows.take(i), interval, function);
                            &&& #[trigger] m.first_late(rows, interval, function, i)
                            &&& e.is_validation(late_text(mid, rows[i], interval))
                            &&& after.stands_at(mid, emitted)
                        },
                }
            },
            refused => r matches Err(e) && refused.refused_as(column, e) && after.stands_at(
                m,
                emitted,
            ),
        }
    }
}

proof fn lemma_prefix(times: Seq<Option<i64>>, values: Seq<Option<u64>>, i: int, n: int)
    requires
        0 <= i <= n,
    ensures
        timed_rows(times, values, i).len() <= timed_rows(times, values, n).len(),
        forall|k: int|
            0 <= k < timed_rows(times, values, i).len() ==> #[trigger] timed_rows(
                times,
                values,
                n,
            )[k] == timed_rows(times, values, i)[k],
    decreases n - i,
{
    if i < n {
        lemma_prefix(times, values, i, n - 1);
        let before = timed_rows(times, values, n - 1);
        let all = timed_rows(times, values, n);
        assert forall|k: int| 0 <= k < timed_rows(times, values, i).len() implies #[trigger] all[k]
            == timed_rows(times, values, i)[k] by {
            assert(all[k] == before[k]);
        }
    }
}

/// How the input was chunked does not matter: pushing two batches comes to the
/// same as pushing their rows at once, and no row is late in the one just if
/// none is in the other.
pub proof fn chunking_does_not_matter(
    m: StreamModel,
    a: Seq<Row>,
    b: Seq<Row>,
    interval: int,
    function: AggFn,
)
    ensures
        m.with_rows(a + b, interval, function) == m.with_rows(a, interval, function).with_rows(
            b,
            interval,
            function,
        ),
        m.none_late(a + b, interval, function) == (m.none_late(a, interval, function) && m.with_rows(
            a,
            interval,
            function,
        ).none_late(b, interval, function)),
{
    lemma_chunks(m, a, b, interval, function);
    let mid = m.with_rows(a, interval, function);
    let all = a + b;
    if m.none_late(all, interval, function) {
        assert forall|j: int| 0 <= j < a.len() implies !m.with_rows(
            a.take(j),
            interval,
            function,
        ).is_late(#[trigger] a[j]) by {
            assert(all.take(j) =~= a.take(j));
            assert(all[j] == a[j]);
        }
        assert forall|j: int| 0 <= j < b.len() implies !mid.with_rows(
            b.take(j),
            interval,
            function,
        ).is_late(#[trigger] b[j]) by {
            lemma_chunks(m, a, b.take(j), interval, function);
            assert(all.take(a.len() + j) =~= a + b.take(j));
            assert(all[a.len() + j] == b[j]);
        }
    }
    if m.none_late(a, interval, function) && mid.none_late(b, interval, function) {
        assert forall|j: int| 0 <= j < all.len() implies !m.with_rows(
            all.take(j),
            interval,
            function,
        ).is_late(#[trigger] all[j]) by {
            if j < a.len() {
                assert(all.take(j) =~= a.take(j));
                assert(all[j] == a[j]);
            } else {
                let k = j - a.len();
                lemma_chunks(m, a, b.take(k), interval, function);
                assert(all.take(j) =~= a + b.take(k));
                assert(all[j] == b[k]);
            }
        }
    }
}

proof fn lemma_chunks(
    m: StreamModel,
    a: Seq<Row>,
    b: Seq<Row>,
    interval: int,
    function: AggFn,
)
    ensures
        m.with_rows(a + b, interval, function) == m.with_rows(a, interval, function).with_rows(
            b,
            interval,
            function,
        ),
    decreases b.len(),
{
    if b.len() == 0 {
        assert(a + b =~= a);
    } else {
        lemma_chunks(m, a, b.drop_last(), interval, function);
        assert((a + b).drop_last() =~= a + b.drop_last());
        assert((a + b).last() == b.last());
    }
}

/// Where a stream stands that took these rows: everything in a bucket before
/// the open one is closed, and the samples of the open one are at hand.
spec fn covers(m: StreamModel, rows: Seq<Row>, interval: int, function: AggFn) -> bool {
    if rows.len() == 0 {
        m == stream_start()
    } else {
        let open = bucket_of(rows.last().0 as int, interval);
        &&& m.open == Some(open)
        &&& m.last == Some(rows.last().0 as int)
        &&& forall|i: int| 0 <= i < rows.len() ==> bucket_of((#[trigger] rows[i]).0 as int, interval)
            <= open
        &&& m.samples == samples_in(rows, interval, open)
        &&& forall|i: int, j: int|
            0 <= i < j < m.closed_buckets.len() ==> (#[trigger] m.closed_buckets[i]).0 < (
            #[trigger] m.closed_buckets[j]).0
        &&& forall|i: int|
            0 <= i < m.closed_buckets.len() ==> {
                let start = (#[trigger] m.closed_buckets[i]).0 as int;
                let samples = samples_in(rows, interval, start);
                &&& start < open
                &&& samples.len() > 0
                &&& m.closed_buckets[i].1 == aggregate_of(samples, function)
            }
        &&& forall|start: int|
            start < open && #[trigger] samples_in(rows, interval, start).len() > 0 ==> exists|
                i: int,
            |
                0 <= i < m.closed_buckets.len() && (#[trigger] m.closed_buckets[i]).0 == start
    }
}

proof fn lemma_no_samples(rows: Seq<Row>, interval: int, start: int)
    requires
        forall|i: int| 0 <= i < rows.len() ==> bucket_of((#[trigger] rows[i]).0 as int, interval)
            != start,
    ensures
        samples_in(rows, interval, start).len() == 0,
    decreases rows.len(),
{
    if rows.len() > 0 {
        let rest = rows.drop_last();
        assert forall|i: int| 0 <= i < rest.len() implies bucket_of(
            (#[trigger] rest[i]).0 as int,
            interval,
        ) != start by {
            assert(rest[i] == rows[i]);
        }
        assert(bucket_of(rows[rows.len() - 1].0 as int, interval) != start);
        lemma_no_samples(rest, interval, start);
    }
}

/// A row of the open bucket keeps the closed ones as they are.
proof fn lemma_covers_same(
    m: StreamModel,
    rest: Seq<Row>,
    row: Row,
    interval: int,
    function: AggFn,
)
    requires
        covers(m, rest, interval, function),
        m.open == Some(bucket_of(row.0 as int, interval)),
    ensures
        covers(m.with_row(row, interval, function), rest.push(row), interval, function),
{
    let rows = rest.push(row);
    let after = m.with_row(row, interval, function);
    let open = bucket_of(row.0 as int, interval);
    assert(rows.drop_last() =~= rest);
    assert(rest.len() > 0);
    assert forall|i: int| 0 <= i < rows.len() implies bucket_of(
        (#[trigger] rows[i]).0 as int,
        interval,
    ) <= open by {
        if i < rest.len() {
            assert(rest[i] == rows[i]);
        }
    }
    assert(after.closed_buckets == m.closed_buckets);
    assert forall|start: int| start != open implies #[trigger] samples_in(rows, interval, start)
        == samples_in(rest, interval, start) by {}
    assert forall|start: int|
        start < open && #[trigger] samples_in(rows, interval, start).len() > 0 implies exists|i: int|
        0 <= i < after.closed_buckets.len() && (#[trigger] after.closed_buckets[i]).0 == start by {
        assert(samples_in(rest, interval, start).len() > 0);
    }
}

/// A row of a later bucket closes the open one.
proof fn lemma_covers_next(
    m: StreamModel,
    rest: Seq<Row>,
    row: Row,
    interval: int,
    function: AggFn,
)
    requires
        covers(m, rest, interval, function),
        m.open matches Some(was) ==> was < bucket_of(row.0 as int, interval) && i64::MIN <= was
            <= i64::MAX,
    ensures
        covers(m.with_row(row, interval, function), rest.push(row), interval, function),
{
    let rows = rest.push(row);
    let after = m.with_row(row, interval, function);
    let open = bucket_of(row.0 as int, interval);
    assert(rows.drop_last() =~= rest);
    assert forall|i: int| 0 <= i < rest.len() implies bucket_of(
        (#[trigger] rest[i]).0 as int,
        interval,
    ) < open by {}
    assert forall|i: int| 0 <= i < rows.len() implies bucket_of(
        (#[trigger] rows[i]).0 as int,
        interval,
    ) <= open by {
        if i < rest.len() {
            assert(rest[i] == rows[i]);
        }
    }
    assert forall|start: int| start != open implies #[trigger] samples_in(rows, interval, start)
        == samples_in(rest, interval, start) by {}
    lemma_no_samples(rest, interval, open);
    assert(samples_in(rest, interval, open) =~= Seq::empty());
    let then = m.closed_buckets;
    let now = after.closed_buckets;
    if rest.len() > 0 {
        let was = m.open.unwrap();
        if m.samples.len() > 0 {
            assert(now == then.push((was as i64, aggregate_of(m.samples, function))));
        } else {
            assert(now == then);
        }
        assert forall|start: int|
            start < open && #[trigger] samples_in(rows, interval, start).len() > 0 implies exists|
            i: int,
        |
            0 <= i < now.len() && (#[trigger] now[i]).0 == start by {
            assert(samples_in(rest, interval, start).len() > 0);
            if start < was {
                let i = choose|i: int| 0 <= i < then.len() && (#[trigger] then[i]).0 == start;
                assert(now[i] == then[i]);
            } else if start == was {
                assert(now[then.len() as int].0 == start);
            } else {
                lemma_no_samples(rest, interval, start);
            }
        }
        assert forall|i: int| 0 <= i < now.len() implies {
            let start = (#[trigger] now[i]).0 as int;
            let samples = samples_in(rows, interval, start);
            &&& start < open
            &&& samples.len() > 0
            &&& now[i].1 == aggregate_of(samples, function)
        } by {
            if i < then.len() {
                assert(now[i] == then[i]);
            }
        }
        assert forall|i: int, j: int| 0 <= i < j < now.len() implies (#[trigger] now[i]).0 < (
        #[trigger] now[j]).0 by {
            assert(now[i] == then[i]);
            if j < then.len() {
                assert(now[j] == then[j]);
            }
        }
    } else {
        assert(now =~= Seq::empty());
        assert forall|start: int| start < open implies #[trigger] samples_in(
            rows,
            interval,
            start,
        ).len() == 0 by {
            assert(samples_in(rest, interval, start) =~= Seq::empty());
        }
    }
}

proof fn lemma_covers(rows: Seq<Row>, interval: int, function: AggFn)
    requires
        interval > 0,
        forall|i: int|
            0 <= i < rows.len() ==> bucket_of((#[trigger] rows[i]).0 as int, interval) >= i64::MIN,
        stream_start().none_late(rows, interval, function),
    ensures
        covers(stream_start().with_rows(rows, interval, function), rows, interval, function),
    decreases rows.len(),
{
    if rows.len() > 0 {
        let rest = rows.drop_last();
        let n = rest.len() as int;
        let row = rows.last();
        let before = stream_start().with_rows(rest, interval, function);
        assert forall|i: int| 0 <= i < rest.len() implies bucket_of(
            (#[trigger] rest[i]).0 as int,
            interval,
        ) >= i64::MIN by {
            assert(rest[i] == rows[i]);
        }
        assert forall|j: int| 0 <= j < rest.len() implies !stream_start().with_rows(
            rest.take(j),
            interval,
            function,
        ).is_late(#[trigger] rest[j]) by {
            assert(rest.take(j) =~= rows.take(j));
            assert(rest[j] == rows[j]);
        }
        lemma_covers(rest, interval, function);
        assert(rows.take(n) =~= rest);
        assert(!before.is_late(rows[n]));
        assert(rows =~= rest.push(row));
        if before.open == Some(bucket_of(row.0 as int, interval)) {
            lemma_covers_same(before, rest, row, interval, function);
        } else {
            if n > 0 {
                crate::query::downsample::buckets_partition_time(
                    rest.last().0 as int,
                    interval,
                );
                assert(rest[n - 1] == rest.last());
                crate::query::downsample::buckets_ascend(
                    rest.last().0 as int,
                    row.0 as int,
                    interval,
                );
            }
            lemma_covers_next(before, rest, row, interval, function);
        }
    }
}

/// A stream of rows that arrive in order yields what downsampling all the rows
/// at once yields: every bucket that has samples, exactly once, in order, with
/// the aggregate of its samples.
pub proof fn streaming_comes_to_downsampling(rows: Seq<Row>, interval: int, function: AggFn)
    requires
        interval > 0,
        forall|i: int|
            0 <= i < rows.len() ==> bucket_of((#[trigger] rows[i]).0 as int, interval) >= i64::MIN,
        stream_start().none_late(rows, interval, function),
    ensures
        is_downsampled(
            stream_start().with_rows(rows, interval, function).with_open_closed(function),
            rows,
            interval,
            function,
        ),
{
    lemma_covers(rows, interval, function);
    let m = stream_start().with_rows(rows, interval, function);
    let out = m.with_open_closed(function);
    if rows.len() > 0 {
        let open = bucket_of(rows.last().0 as int, interval);
        crate::query::downsample::buckets_partition_time(rows.last().0 as int, interval);
        assert(rows[rows.len() - 1] == rows.last());
        assert(i64::MIN <= open <= i64::MAX);
        assert forall|start: int| #[trigger]
            samples_in(rows, interval, start).len() > 0 implies exists|i: int|
            0 <= i < out.len() && (#[trigger] out[i]).0 == start by {
            if start < open {
                let i = choose|i: int|
                    0 <= i < m.closed_buckets.len() && (#[trigger] m.closed_buckets[i]).0 == start;
                assert(out[i] == m.closed_buckets[i]);
            } else if start == open {
                assert(out[m.closed_buckets.len() as int].0 == start);
            } else {
                lemma_no_samples(rows, interval, start);
            }
        }
    }
}

/// What a sequence of pushes into a new downsampler hands out: `outs[k]` is
/// what comes of the batch `batches[k]`, none of whose rows is late.
pub open spec fn pushes_hand_out(
    batches: Seq<Seq<Row>>,
    outs: Seq<Seq<(i64, AggResult)>>,
    interval: int,
    function: AggFn,
) -> bool {
    &&& outs.len() == batches.len()
    &&& forall|k: int|
        0 <= k < batches.len() ==> {
            let m = stream_start().with_rows(batches.take(k).flatten(), interval, function);
            let end = m.with_rows(#[trigger] batches[k], interval, function);
            let emitted = outs.take(k).flatten().len() as int;
            &&& m.none_late(batches[k], interval, function)
            &&& emitted + outs[k].len() <= end.closed_buckets.len()
            &&& outs[k] == end.closed_buckets.subrange(emitted, emitted + outs[k].len())
        }
}

/// The rows that a batch brings.
pub open spec fn rows_brought(samples: &Samples) -> Seq<Row> {
    match samples@ {
        SamplesModel::Rows(all) if samples.row_count() > 0 => plain_rows(all),
        _ => Seq::empty(),
    }
}

/// A push that succeeds extends the sequence by its batch and by what it hands
/// out, and leaves the downsampler where the next push takes on.
pub proof fn a_push_extends_the_sequence(
    batches: Seq<Seq<Row>>,
    outs: Seq<Seq<(i64, AggResult)>>,
    interval: int,
    function: AggFn,
    column: Seq<char>,
    samples: &Samples,
    chunks: Vec<Vec<(i64, AggResult)>>,
    after: &StreamingDownsampler,
)
    requires
        pushes_hand_out(batches, outs, interval, function),
        outs.flatten().len() <= stream_start().with_rows(
            batches.flatten(),
            interval,
            function,
        ).closed_buckets.len(),
        pushed(
            interval,
            function,
            column,
            samples,
            stream_start().with_rows(batches.flatten(), interval, function),
            outs.flatten().len() as int,
            Ok(chunks),
            after,
        ),
    ensures
        ({
            let all = batches.push(rows_brought(samples));
            let given = outs.push(joined(chunks@));
            let end = stream_start().with_rows(all.flatten(), interval, function);
            &&& pushes_hand_out(all, given, interval, function)
            &&& given.flatten().len() <= end.closed_buckets.len()
            &&& after.stands_at(end, given.flatten().len() as int)
        }),
{
    let rows = rows_brought(samples);
    let all = batches.push(rows);
    let given = outs.push(joined(chunks@));
    let m = stream_start().with_rows(batches.flatten(), interval, function);
    let emitted = outs.flatten().len() as int;
    let end = m.with_rows(rows, interval, function);
    batches.lemma_flatten_push(rows);
    outs.lemma_flatten_push(joined(chunks@));
    chunking_does_not_matter(stream_start(), batches.flatten(), rows, interval, function);
    if samples.row_count() == 0 {
        assert(chunks@ =~= Seq::empty());
        assert(joined(chunks@) =~= Seq::empty());
        assert(m.none_late(rows, interval, function));
    }
    lemma_closed_stay(m, rows, interval, function);
    after.lemma_stands_within(end, emitted + joined(chunks@).len());
    assert forall|k: int| 0 <= k < all.len() implies {
        let before = stream_start().with_rows(all.take(k).flatten(), interval, function);
        let now = before.with_rows(#[trigger] all[k], interval, function);
        let done = given.take(k).flatten().len() as int;
        &&& before.none_late(all[k], interval, function)
        &&& done + given[k].len() <= now.closed_buckets.len()
        &&& given[k] == now.closed_buckets.subrange(done, done + given[k].len())
    } by {
        if k < batches.len() {
            assert(all.take(k) =~= batches.take(k));
            assert(given.take(k) =~= outs.take(k));
            assert(all[k] == batches[k]);
            assert(given[k] == outs[k]);
        } else {
            assert(all.take(k) =~= batches);
            assert(given.take(k) =~= outs);
            assert(all[k] == rows);
            assert(given[k] =~= end.closed_buckets.subrange(emitted, emitted + given[k].len()));
        }
    }
}

/// Pushing the batches of a sequence and finishing yields what downsampling
/// their concatenation yields, however the rows were cut into batches: what
/// the pushes hand out, followed by what finishing hands out, holds every
/// bucket that has samples, exactly once, in order, with its aggregate.
pub proof fn pushed_batches_come_to_downsampling(
    batches: Seq<Seq<Row>>,
    outs: Seq<Seq<(i64, AggResult)>>,
    rest: Seq<(i64, AggResult)>,
    interval: int,
    function: AggFn,
)
    requires
        interval > 0,
        forall|i: int|
            0 <= i < batches.flatten().len() ==> bucket_of(
                (#[trigger] batches.flatten()[i]).0 as int,
                interval,
            ) >= i64::MIN,
        pushes_hand_out(batches, outs, interval, function),
        rest == stream_start().with_rows(
            batches.flatten(),
            interval,
            function,
        ).with_open_closed(function).skip(outs.flatten().len() as int),
    ensures
        is_downsampled(outs.flatten() + rest, batches.flatten(), interval, function),
        forall|whole: Seq<(i64, AggResult)>| #[trigger]
            is_downsampled(whole, batches.flatten(), interval, function) ==> whole
                == outs.flatten() + rest,
{
    let n = batches.len() as int;
    lemma_handed_out(batches, outs, interval, function, n);
    assert(batches.take(n) =~= batches);
    assert(outs.take(n) =~= outs);
    let rows = batches.flatten();
    let end = stream_start().with_rows(rows, interval, function);
    let whole = end.with_open_closed(function);
    streaming_comes_to_downsampling(rows, interval, function);
    assert(outs.flatten() =~= whole.take(outs.flatten().len() as int)) by {
        assert(outs.flatten() == end.closed_buckets.take(outs.flatten().len() as int));
    }
    assert(outs.flatten() + rest =~= whole);
    assert forall|other: Seq<(i64, AggResult)>| #[trigger]
        is_downsampled(other, rows, interval, function) implies other == whole by {
        downsampling_is_determined(other, whole, rows, interval, function);
    }
}

proof fn lemma_handed_out(
    batches: Seq<Seq<Row>>,
    outs: Seq<Seq<(i64, AggResult)>>,
    interval: int,
    function: AggFn,
    k: int,
)
    requires
        0 <= k <= batches.len(),
        pushes_hand_out(batches, outs, interval, function),
    ensures
        ({
            let end = stream_start().with_rows(batches.take(k).flatten(), interval, function);
            let out = outs.take(k).flatten();
            &&& stream_start().none_late(batches.take(k).flatten(), interval, function)
            &&& out.len() <= end.closed_buckets.len()
            &&& out == end.closed_buckets.take(out.len() as int)
        }),
    decreases k,
{
    if k == 0 {
        assert(batches.take(0).flatten() =~= Seq::empty());
        assert(outs.take(0).flatten() =~= Seq::empty());
        assert(Seq::<(i64, AggResult)>::empty().take(0) =~= Seq::empty());
    } else {
        lemma_handed_out(batches, outs, interval, function, k - 1);
        let seen = batches.take(k - 1).flatten();
        let before = outs.take(k - 1).flatten();
        let batch = batches[k - 1];
        let m = stream_start().with_rows(seen, interval, function);
        assert(batches.take(k) =~= batches.take(k - 1).push(batch));
        assert(outs.take(k) =~= outs.take(k - 1).push(outs[k - 1]));
        batches.take(k - 1).lemma_flatten_push(batch);
        outs.take(k - 1).lemma_flatten_push(outs[k - 1]);
        chunking_does_not_matter(stream_start(), seen, batch, interval, function);
        lemma_closed_stay(m, batch, interval, function);
        let end = m.with_rows(batch, interval, function);
        lemma_longer_prefix(before, outs[k - 1], m.closed_buckets, end.closed_buckets);
    }
}

proof fn lemma_longer_prefix<A>(before: Seq<A>, more: Seq<A>, short: Seq<A>, long: Seq<A>)
    requires
        before.len() <= short.len() <= long.len(),
        before == short.take(before.len() as int),
        long.take(short.len() as int) == short,
        before.len() + more.len() <= long.len(),
        more == long.subrange(before.len() as int, (before.len() + more.len()) as int),
    ensures
        before + more == long.take((before.len() + more.len()) as int),
{
    assert forall|i: int| 0 <= i < before.len() implies before[i] == long[i] by {
        assert(before[i] == short[i]);
        assert(short[i] == long.take(short.len() as int)[i]);
    }
    assert(before + more =~= long.take((before.len() + more.len()) as int));
}

/// Buckets that were closed stay as they are.
proof fn lemma_closed_stay(m: StreamModel, rows: Seq<Row>, interval: int, function: AggFn)
    ensures
        ({
            let after = m.with_rows(rows, interval, function).closed_buckets;
            &&& m.closed_buckets.len() <= after.len()
            &&& after.take(m.closed_buckets.len() as int) == m.closed_buckets
        }),
    decreases rows.len(),
{
    let n = m.closed_buckets.len() as int;
    let after = m.with_rows(rows, interval, function).closed_buckets;
    if rows.len() > 0 {
        lemma_closed_stay(m, rows.drop_last(), interval, function);
        let before = m.with_rows(rows.drop_last(), interval, function).closed_buckets;
        assert(before.take(n) == m.closed_buckets);
        assert(after.len() >= before.len());
        assert(after.take(n) =~= before.take(n));
    } else {
        assert(after.take(n) =~= m.closed_buckets);
    }
}

/// Rows that ascend by timestamp are never late.
pub proof fn ascending_rows_are_never_late(rows: Seq<Row>, interval: int, function: AggFn)
    requires
        interval > 0,
        forall|i: int, j: int|
            0 <= i < j < rows.len() ==> (#[trigger] rows[i]).0 <= (#[trigger] rows[j]).0,
    ensures
        stream_start().none_late(rows, interval, function),
{
    assert forall|j: int| 0 <= j < rows.len() implies !stream_start().with_rows(
        rows.take(j),
        interval,
        function,
    ).is_late(#[trigger] rows[j]) by {
        if j > 0 {
            assert(rows.take(j).last() == rows[j - 1]);
            crate::query::downsample::buckets_ascend(
                rows[j - 1].0 as int,
                rows[j].0 as int,
                interval,
            );
        }
    }
}

/// Downsampling has one result: what is emitted is determined by the rows.
pub proof fn downsampling_is_determined(
    a: Seq<(i64, AggResult)>,
    b: Seq<(i64, AggResult)>,
    rows: Seq<Row>,
    interval: int,
    function: AggFn,
)
    requires
        is_downsampled(a, rows, interval, function),
        is_downsampled(b, rows, interval, function),
    ensures
        a == b,
{
    lemma_places(a, b, rows, interval, function, a.len() as int);
    lemma_places(b, a, rows, interval, function, b.len() as int);
    assert(a.len() == b.len());
    assert forall|i: int| 0 <= i < a.len() implies a[i] == b[i] by {
        lemma_same_entry(a, b, rows, interval, function, i);
    }
    assert(a =~= b);
}

proof fn lemma_same_entry(
    a: Seq<(i64, AggResult)>,
    b: Seq<(i64, AggResult)>,
    rows: Seq<Row>,
    interval: int,
    function: AggFn,
    i: int,
)
    requires
        is_downsampled(a, rows, interval, function),
        is_downsampled(b, rows, interval, function),
        a.len() == b.len(),
        0 <= i < a.len(),
    ensures
        a[i] == b[i],
    decreases i,
{
    assert forall|j: int| 0 <= j < i implies a[j] == b[j] by {
        lemma_same_entry(a, b, rows, interval, function, j);
    }
    assert(samples_in(rows, interval, a[i].0 as int).len() > 0);
    assert(samples_in(rows, interval, b[i].0 as int).len() > 0);
    let k = choose|k: int| 0 <= k < b.len() && (#[trigger] b[k]).0 == a[i].0 as int;
    let l = choose|l: int| 0 <= l < a.len() && (#[trigger] a[l]).0 == b[i].0 as int;
    if k < i {
        assert(a[k] == b[k]);
        assert(a[k].0 < a[i].0);
    }
    if l < i {
        assert(a[l] == b[l]);
        assert(b[l].0 < b[i].0);
    }
    if a[i].0 != b[i].0 {
        assert(b[i].0 < b[k].0);
        assert(a[i].0 < a[l].0);
    }
}

/// The first `n` entries of a result stand in the other no earlier.
proof fn lemma_places(
    a: Seq<(i64, AggResult)>,
    b: Seq<(i64, AggResult)>,
    rows: Seq<Row>,
    interval: int,
    function: AggFn,
    n: int,
)
    requires
        is_downsampled(a, rows, interval, function),
        is_downsampled(b, rows, interval, function),
        0 <= n <= a.len(),
    ensures
        n <= b.len(),
        n > 0 ==> exists|j: int| n - 1 <= j < b.len() && (#[trigger] b[j]).0 == a[n - 1].0,
    decreases n,
{
    if n > 0 {
        lemma_places(a, b, rows, interval, function, n - 1);
        assert(samples_in(rows, interval, a[n - 1].0 as int).len() > 0);
        let j = choose|j: int| 0 <= j < b.len() && (#[trigger] b[j]).0 == a[n - 1].0 as int;
        if n > 1 {
            let k = choose|k: int| n - 2 <= k < b.len() && (#[trigger] b[k]).0 == a[n - 2].0;
            assert(a[n - 2].0 < a[n - 1].0);
            if j <= k {
                if j < k {
                    assert(b[j].0 < b[k].0);
                }
            }
        }
        assert(n - 1 <= j < b.len() && b[j].0 == a[n - 1].0);
    }
}

} // verus!
