//! Which queries over a batch are refused: just those that ask for what the batch
//! does not have.
use vstd::prelude::*;

#[allow(unused_imports)]
use crate::query::agg_fn::AggFn;
#[allow(unused_imports)]
use crate::query::aggregate::{batch_outcome, first_missing, first_unnumbered, first_untexted};
#[allow(unused_imports)]
use crate::query::budget_laws::sharing;
#[allow(unused_imports)]
use crate::query::error::QueryError;
#[allow(unused_imports)]
use crate::query::frame::FrameModel;
#[allow(unused_imports)]
use crate::query::frame_laws::result_columns_come_field_by_field;
#[allow(unused_imports)]
use crate::query::grouped::{frame_keys, grouped_as, hash_outcome, hashed_group_bytes, GroupedTable};
#[allow(unused_imports)]
use crate::query::grouping::{groups_after, key_hash, GroupKey};
#[allow(unused_imports)]
use crate::query::groups::{failure_at, stops_at};
#[allow(unused_imports)]
use crate::query::output::settles;
#[allow(unused_imports)]
use crate::query::result::{lemma_result_pairs, result_pairs, ResultTable};
#[allow(unused_imports)]
use crate::query::sorted::{sort_outcome, sorted_as, sorted_group_bytes};
#[allow(unused_imports)]
use crate::query::streaming::{
    first_incomplete, is_complete_frame, stream_outcome, stream_stops_at, streamed_as,
};
#[allow(unused_imports)]
use crate::query::window::{first_range, largest_time, windowed, WindowOutcome};
#[allow(unused_imports)]
use crate::query::window_fn::WindowFn;
#[allow(unused_imports)]
use crate::text::{decimal, signed_decimal};

verus! {

/// The batch has all the columns.
pub open spec fn has_columns(frame: FrameModel, names: Seq<Seq<char>>) -> bool {
    forall|i: int| 0 <= i < names.len() ==> frame.column(#[trigger] names[i]) is Some
}

/// The batch has all the columns, and they hold texts.
pub open spec fn has_texts(frame: FrameModel, names: Seq<Seq<char>>) -> bool {
    forall|i: int| 0 <= i < names.len() ==> frame.texts(#[trigger] names[i]) is Some
}

/// The batch has all the columns, and they hold numbers.
pub open spec fn has_numbers(frame: FrameModel, names: Seq<Seq<char>>) -> bool {
    forall|i: int|
        0 <= i < names.len() ==> (frame.column(#[trigger] names[i]) matches Some(data)
            && data.is_numeric())
}

proof fn lemma_missing(frame: FrameModel, names: Seq<Seq<char>>, from: int)
    requires
        0 <= from <= names.len(),
        forall|i: int| 0 <= i < from ==> frame.column(#[trigger] names[i]) is Some,
    ensures
        first_missing(frame, names, from) is None <==> has_columns(frame, names),
    decreases names.len() - from,
{
    if from < names.len() && frame.column(names[from]) is Some {
        lemma_missing(frame, names, from + 1);
    }
}

proof fn lemma_untexted(frame: FrameModel, names: Seq<Seq<char>>, from: int)
    requires
        0 <= from <= names.len(),
        forall|i: int| 0 <= i < from ==> frame.texts(#[trigger] names[i]) is Some,
    ensures
        first_untexted(frame, names, from) is None <==> has_texts(frame, names),
    decreases names.len() - from,
{
    if from < names.len() && frame.texts(names[from]) is Some {
        lemma_untexted(frame, names, from + 1);
    }
}

proof fn lemma_unnumbered(frame: FrameModel, names: Seq<Seq<char>>, from: int)
    requires
        0 <= from <= names.len(),
        has_columns(frame, names),
        forall|i: int|
            0 <= i < from ==> (frame.column(#[trigger] names[i]) matches Some(data)
                && data.is_numeric()),
    ensures
        first_unnumbered(frame, names, from) is None <==> has_numbers(frame, names),
    decreases names.len() - from,
{
    if from < names.len() {
        assert(frame.column(names[from]) is Some);
        if frame.column(names[from]).unwrap().is_numeric() {
            lemma_unnumbered(frame, names, from + 1);
        }
    }
}

/// Whole columns are aggregated just if there are rows, there is something to
/// aggregate, and all the columns are there and hold numbers.
pub proof fn just_these_batches_are_aggregated(
    r: Result<ResultTable, QueryError>,
    frame: FrameModel,
    functions: Seq<AggFn>,
    fields: Seq<Seq<char>>,
)
    requires
        batch_outcome(r, frame, functions, fields),
    ensures
        r is Ok <==> frame.rows > 0 && has_numbers(frame, fields) && fields.len() > 0
            && functions.len() > 0,
{
    lemma_missing(frame, fields, 0);
    if has_columns(frame, fields) {
        lemma_unnumbered(frame, fields, 0);
    }
    if has_numbers(frame, fields) {
        assert forall|i: int| 0 <= i < fields.len() implies frame.column(
            #[trigger] fields[i],
        ) is Some by {}
    }
    lemma_result_pairs(fields, functions);
    if fields.len() > 0 && functions.len() > 0 {
        result_columns_come_field_by_field(fields, functions, 0, 0);
    } else if functions.len() == 0 {
        lemma_no_pairs(fields, functions);
    }
}

proof fn lemma_no_pairs(fields: Seq<Seq<char>>, functions: Seq<AggFn>)
    requires
        functions.len() == 0,
    ensures
        result_pairs(fields, functions).len() == 0,
    decreases fields.len(),
{
    if fields.len() > 0 {
        lemma_result_pairs(fields, functions);
        lemma_no_pairs(fields.drop_last(), functions);
    }
}

/// Window functions are computed just if the value column is there and holds
/// numbers, the columns to partition by are there and hold texts, and there are
/// timestamps where a function is over a range of them.
pub proof fn just_these_windows_are_computed(
    r: Result<WindowOutcome, QueryError>,
    frame: FrameModel,
    functions: Seq<WindowFn>,
    by: Seq<Seq<char>>,
    value_name: Seq<char>,
)
    requires
        windowed(r, frame, functions, by, value_name),
    ensures
        r is Ok <==> {
            &&& frame.column(value_name) matches Some(data) && data.is_numeric()
            &&& has_texts(frame, by)
            &&& frame.rows == 0 || frame.times is Some || forall|k: int|
                0 <= k < functions.len() ==> !((#[trigger] functions[k]) is RangeMovingAverage)
                    && !(functions[k] is RangeSum) && !(functions[k] is RangeCount)
        },
        r is Ok ==> r->Ok_0.columns@.len() == functions.len(),
{
    lemma_untexted(frame, by, 0);
    lemma_range(functions, 0);
}

proof fn lemma_range(functions: Seq<WindowFn>, from: int)
    requires
        0 <= from <= functions.len(),
        forall|k: int|
            0 <= k < from ==> !((#[trigger] functions[k]) is RangeMovingAverage)
                && !(functions[k] is RangeSum) && !(functions[k] is RangeCount),
    ensures
        first_range(functions, from) is None <==> forall|k: int|
            0 <= k < functions.len() ==> !((#[trigger] functions[k]) is RangeMovingAverage)
                && !(functions[k] is RangeSum) && !(functions[k] is RangeCount),
    decreases functions.len() - from,
{
    if from < functions.len() && !(functions[from] is RangeMovingAverage) && !(
    functions[from] is RangeSum) && !(functions[from] is RangeCount) {
        lemma_range(functions, from + 1);
    }
}

/// Without a memory budget rows are grouped by hashing just if the columns are
/// there, those to group by hold texts, and no row finds as many groups with its
/// hash as are allowed.
pub proof fn just_these_rows_are_grouped(
    r: Result<GroupedTable, QueryError>,
    frame: FrameModel,
    functions: Seq<AggFn>,
    fields: Seq<Seq<char>>,
    by: Seq<Seq<char>>,
    end: Option<(int, int)>,
)
    requires
        grouped_as(r, frame, functions, fields, by, None, end),
        by.len() > 0,
    ensures
        r is Ok <==> {
            &&& has_texts(frame, by)
            &&& has_columns(frame, fields)
            &&& forall|row: int|
                0 <= row < frame.rows ==> sharing(
                    groups_after(Seq::empty(), frame_keys(frame, by).take(row)),
                    key_hash(#[trigger] frame_keys(frame, by)[row]),
                ).len() < 1024
        },
{
    let ks = frame_keys(frame, by);
    let none = Seq::<GroupKey>::empty();
    let bytes = hashed_group_bytes(by.len(), fields.len()) as usize;
    lemma_untexted(frame, by, 0);
    lemma_missing(frame, fields, 0);
    if has_texts(frame, by) && has_columns(frame, fields) {
        assert forall|row: int| 0 <= row < frame.rows implies (#[trigger] failure_at(
            none,
            ks,
            row,
            true,
            None,
            bytes,
        ) is None <==> sharing(groups_after(none, ks.take(row)), key_hash(ks[row])).len() < 1024) by {
            crate::query::budget_laws::only_new_groups_need_room(
                groups_after(none, ks.take(row)),
                ks[row],
                0,
                0,
                bytes,
            );
        }
        let (made, held, size) = choose|
            made: Result<GroupedTable, QueryError>,
            held: Option<(int, int)>,
            size: usize,
        |
            hash_outcome(made, frame, functions, fields, by, None, held, bytes)
                && crate::query::grouped::takes_table(made, size) && #[trigger] settles(
                made,
                held,
                r,
                end,
                size,
            );
        assert(settles(made, held, r, end, size));
        if made is Ok {
            assert(held is None);
            assert forall|row: int| 0 <= row < frame.rows implies sharing(
                groups_after(none, ks.take(row)),
                key_hash(#[trigger] ks[row]),
            ).len() < 1024 by {
                assert(failure_at(none, ks, row, true, None, bytes) is None);
            }
        } else {
            let e = made->Err_0;
            let row = choose|row: int|
                {
                    &&& #[trigger] stops_at(none, ks, row, true, None, bytes)
                    &&& failure_at(none, ks, row, true, None, bytes).unwrap().reported_as(
                        e,
                        crate::query::groups::account_at(none, ks, row, None, bytes),
                        bytes,
                    )
                    &&& held == crate::query::groups::account_at(none, ks, row, None, bytes)
                };
            assert(stops_at(none, ks, row, true, None, bytes));
            assert(failure_at(none, ks, row, true, None, bytes) is Some);
            assert(ks[row] == ks[row]);
        }
    }
}

/// Without a memory budget rows are grouped by sorting just if the columns are
/// there and those to group by hold texts.
pub proof fn just_these_rows_are_sorted(
    r: Result<GroupedTable, QueryError>,
    frame: FrameModel,
    functions: Seq<AggFn>,
    fields: Seq<Seq<char>>,
    by: Seq<Seq<char>>,
    end: Option<(int, int)>,
)
    requires
        sorted_as(r, frame, functions, fields, by, None, end),
        by.len() > 0,
    ensures
        r is Ok <==> has_texts(frame, by) && has_columns(frame, fields),
{
    lemma_untexted(frame, by, 0);
    lemma_missing(frame, fields, 0);
    lemma_missing(frame, by, 0);
    if has_texts(frame, by) {
        assert forall|i: int| 0 <= i < by.len() implies frame.column(#[trigger] by[i]) is Some by {
            assert(frame.texts(by[i]) is Some);
        }
    }
    if has_texts(frame, by) && has_columns(frame, fields) {
        let bytes = sorted_group_bytes(by.len(), fields.len()) as usize;
        let (made, held, size) = choose|
            made: Result<GroupedTable, QueryError>,
            held: Option<(int, int)>,
            size: usize,
        |
            sort_outcome(made, frame, functions, fields, by, None, held, bytes)
                && crate::query::grouped::takes_table(made, size) && #[trigger] settles(
                made,
                held,
                r,
                end,
                size,
            );
        assert(settles(made, held, r, end, size));
        assert(held is None);
    }
}

/// Without a memory budget batches are aggregated just if there are any and each
/// has all the columns, those to group by with texts.
pub proof fn just_these_batches_are_streamed(
    r: Result<ResultTable, QueryError>,
    frames: Seq<FrameModel>,
    functions: Seq<AggFn>,
    fields: Seq<Seq<char>>,
    by: Seq<Seq<char>>,
    end: Option<(int, int)>,
)
    requires
        streamed_as(r, frames, functions, fields, by, None, end),
    ensures
        r is Ok <==> frames.len() > 0 && forall|i: int|
            0 <= i < frames.len() ==> has_texts(#[trigger] frames[i], by) && has_columns(
                frames[i],
                fields,
            ),
{
    lemma_incomplete(frames, fields, by, 0);
    if frames.len() > 0 && first_incomplete(frames, fields, by, 0) is None {
        let (made, held, size) = choose|
            made: Result<ResultTable, QueryError>,
            held: Option<(int, int)>,
            size: usize,
        |
            stream_outcome(made, frames, functions, fields, by, None, held) && (
            made matches Ok(table) ==> crate::query::output::at_least(
                size,
                crate::query::output::table_least(&table),
            )) && #[trigger] settles(made, held, r, end, size);
        assert(settles(made, held, r, end, size));
        if by.len() > 0 && made is Err {
            let e = made->Err_0;
            let (i, row) = choose|i: int, row: int| #[trigger]
                stream_stops_at(frames, fields, by, None, held, e, i, row);
            assert(stream_stops_at(frames, fields, by, None, held, e, i, row));
        }
        assert(held is None);
    }
}

proof fn lemma_incomplete(
    frames: Seq<FrameModel>,
    fields: Seq<Seq<char>>,
    by: Seq<Seq<char>>,
    from: int,
)
    requires
        0 <= from <= frames.len(),
        forall|i: int|
            0 <= i < from ==> has_texts(#[trigger] frames[i], by) && has_columns(
                frames[i],
                fields,
            ),
    ensures
        first_incomplete(frames, fields, by, from) is None <==> forall|i: int|
            0 <= i < frames.len() ==> has_texts(#[trigger] frames[i], by) && has_columns(
                frames[i],
                fields,
            ),
    decreases frames.len() - from,
{
    if from < frames.len() {
        lemma_untexted(frames[from], by, 0);
        lemma_missing(frames[from], fields, 0);
        if is_complete_frame(frames[from], fields, by) {
            lemma_incomplete(frames, fields, by, from + 1);
        }
    }
}

/// The largest timestamp is one of them, and none is larger; a null counts as
/// zero.
pub proof fn the_largest_time_is_a_time(times: Seq<Option<i64>>, n: int)
    requires
        0 < n <= times.len(),
    ensures
        exists|i: int| 0 <= i < n && #[trigger] time_or_zero(times, i) == largest_time(times, n),
        forall|i: int| 0 <= i < n ==> #[trigger] time_or_zero(times, i) <= largest_time(times, n),
    decreases n,
{
    if n > 1 {
        the_largest_time_is_a_time(times, n - 1);
        let last = time_or_zero(times, n - 1);
        let i = choose|i: int|
            0 <= i < n - 1 && #[trigger] time_or_zero(times, i) == largest_time(times, n - 1);
        if last > largest_time(times, n - 1) {
            assert(last == largest_time(times, n));
        } else {
            assert(time_or_zero(times, i) == largest_time(times, n));
        }
    } else {
        assert(time_or_zero(times, 0) == largest_time(times, 1));
    }
}

/// A timestamp, or zero where there is none.
pub open spec fn time_or_zero(times: Seq<Option<i64>>, i: int) -> i64 {
    match times[i] {
        Some(t) => t,
        None => 0,
    }
}

/// An error that is shown names what it is about: the measurement, the field and
/// its measurement, the start of the range and then its end, and for the memory
/// what was requested, what was allocated already, and the budget.
pub proof fn errors_name_what_they_are_about(e: QueryError)
    ensures
        e matches QueryError::MeasurementNotFound(name) ==> e.message()
            == "Measurement not found: '"@ + name@ + "'"@,
        e matches QueryError::FieldNotFound { measurement, field } ==> e.message() == "Field '"@
            + field@ + "' not found in measurement '"@ + measurement@ + "'"@,
        e matches QueryError::InvalidTimeRange { start, end } ==> e.message()
            == "Invalid time range: start ("@ + signed_decimal(start as int) + ") > end ("@
            + signed_decimal(end as int) + ")"@,
        e matches QueryError::QueryMemoryExceeded { requested, allocated, budget } ==> e.message()
            == "Query memory budget exceeded: requested "@ + decimal(requested as nat)
            + " bytes, already allocated "@ + decimal(allocated as nat) + " of "@ + decimal(
            budget as nat,
        ) + " bytes"@,
        e matches QueryError::Validation(text) ==> e.message() == "Query validation error: "@ + text@
            + ""@,
        e matches QueryError::Segment(text) ==> e.message() == "Segment error: "@ + text@ + ""@,
        e matches QueryError::Arrow(text) ==> e.message() == "Arrow error: "@ + text@ + ""@,
        e matches QueryError::Index(text) ==> e.message() == "Index error: "@ + text@ + ""@,
        e matches QueryError::Io(text) ==> e.message() == "I/O error: "@ + text@ + ""@,
{
}

} // verus!
