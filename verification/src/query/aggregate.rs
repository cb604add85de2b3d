//! Aggregation functions for query results.
//!
//! `count`, `sum`, `min`, `max`, `avg`, `first` and `last`, over a whole batch
//! or per group of rows that share a key.
//!
//! [`StreamingAggregator`](crate::query::streaming::StreamingAggregator) is the
//! form to reach for over a lazy scan: batches are pushed in and dropped, and
//! the state held is one accumulator set per group.
use vstd::prelude::*;
use vstd::string::*;

use crate::query::accumulator::{IncrementalAccumulator, Num};
#[allow(unused_imports)]
use crate::query::accumulator::{aggregate_of, decimals, numbers, Moment, Reading};
use crate::query::agg_fn::{result_column_name, AggFn};
#[allow(unused_imports)]
use crate::query::agg_fn::result_name;
use crate::query::error::{invalid, QueryError};
use crate::query::float::{divide_as_floats, is_total_less, nearest_float};
#[allow(unused_imports)]
use crate::query::float::{float_of, float_ratio, total_less};
use crate::query::frame::{ColumnData, Frame};
#[allow(unused_imports)]
use crate::query::frame::{all_rows, DataModel, FrameModel};
#[allow(unused_imports)]
use crate::query::groups::{are_columns, are_text_columns, columns_of, text_columns_of};
use crate::query::result::{agg_result_column, ResultColumn, ResultTable};
#[allow(unused_imports)]
use crate::query::result::{lemma_possible_scale, lemma_result_pairs, result_pairs};
#[allow(unused_imports)]
use crate::query::grouping::account;
#[allow(unused_imports)]
use crate::query::memory::countable;
use crate::query::memory::MemoryTracker;
use crate::query::output::charge_table;
#[allow(unused_imports)]
use crate::query::output::{at_least, settles, table_least};
#[allow(unused_imports)]
use crate::query::totals::{integer_total, signed_total, unsigned_total};
use crate::query::totals::sum_integers;
use crate::query::track::AggResult;
#[allow(unused_imports)]
use crate::text::texts;
use crate::text::joined_text;

verus! {

broadcast use vstd::string::group_string_axioms;

/// Bytes that one accumulator is taken to need.
pub const ACCUMULATOR_BYTES: usize = 80;

/// Bytes that a group is taken to need: some for the group, some for each part
/// of its key, and its accumulators.
pub(crate) fn group_bytes(fixed: u32, per_key: u32, keys: usize, fields: usize) -> (r: usize)
    ensures
        r == countable(fixed + keys * per_key + fields * ACCUMULATOR_BYTES),
{
    proof {
        let k = keys as int;
        let f = fields as int;
        let p = per_key as int;
        assert(0 <= k * p <= 0xffff_ffff_ffff_ffff * 0xffff_ffff) by (nonlinear_arith)
            requires
                0 <= k <= 0xffff_ffff_ffff_ffff,
                0 <= p <= 0xffff_ffff,
        ;
    }
    let bytes: u128 = fixed as u128 + keys as u128 * per_key as u128 + fields as u128
        * ACCUMULATOR_BYTES as u128;
    if bytes > usize::MAX as u128 {
        usize::MAX
    } else {
        bytes as usize
    }
}

/// The first of some columns that the frame lacks, from the `from`-th on.
pub open spec fn first_missing(frame: FrameModel, names: Seq<Seq<char>>, from: int) -> Option<int>
    decreases names.len() - from,
{
    if from < 0 || from >= names.len() {
        None
    } else if frame.column(names[from]) is None {
        Some(from)
    } else {
        first_missing(frame, names, from + 1)
    }
}

/// The first of some columns that the frame lacks, or that holds no texts,
/// from the `from`-th on.
pub open spec fn first_untexted(frame: FrameModel, names: Seq<Seq<char>>, from: int) -> Option<int>
    decreases names.len() - from,
{
    if from < 0 || from >= names.len() {
        None
    } else if frame.texts(names[from]) is None {
        Some(from)
    } else {
        first_untexted(frame, names, from + 1)
    }
}

/// The first of some columns that holds no numbers, from the `from`-th on.
pub open spec fn first_unnumbered(
    frame: FrameModel,
    names: Seq<Seq<char>>,
    from: int,
) -> Option<int>
    decreases names.len() - from,
{
    if from < 0 || from >= names.len() {
        None
    } else if frame.column(names[from]) matches Some(data) && !data.is_numeric() {
        Some(from)
    } else {
        first_unnumbered(frame, names, from + 1)
    }
}

/// The columns of a frame with these names.
pub open spec fn named_columns(
    frame: FrameModel,
    names: Seq<Seq<char>>,
) -> Seq<Option<DataModel>> {
    names.map_values(|name: Seq<char>| frame.column(name))
}

/// The text columns of a frame with these names.
pub open spec fn named_texts(
    frame: FrameModel,
    names: Seq<Seq<char>>,
) -> Seq<Option<Seq<Option<Seq<char>>>>> {
    names.map_values(|name: Seq<char>| frame.texts(name))
}

/// Look columns up by their names.
pub fn find_columns<'a>(frame: &'a Frame, names: &[&str]) -> (r: Vec<Option<&'a ColumnData>>)
    ensures
        columns_of(r@) == named_columns(frame@, texts(names@)),
        are_columns(columns_of(r@), frame@.rows),
        r@.len() == names@.len(),
{
    let mut out: Vec<Option<&'a ColumnData>> = Vec::new();
    let mut i: usize = 0;
    while i < names.len()
        invariant
            i <= names.len(),
            out@.len() == i,
            forall|j: int|
                0 <= j < i ==> #[trigger] columns_of(out@)[j] == frame@.column(names@[j]@),
            are_columns(columns_of(out@), frame@.rows),
        decreases names.len() - i,
    {
        let ghost before = out@;
        let found = frame.column(names[i]);
        out.push(found);
        proof {
            assert(forall|j: int| 0 <= j < i ==> columns_of(out@)[j] == columns_of(before)[j]);
            assert forall|j: int| 0 <= j < i + 1 implies #[trigger] columns_of(out@)[j]
                == frame@.column(names@[j]@) by {
                if j < i {
                    assert(columns_of(before)[j] == frame@.column(names@[j]@));
                }
            }
            assert forall|j: int|
                0 <= j < columns_of(out@).len() && columns_of(out@)[j] is Some implies (
            #[trigger] columns_of(out@)[j]).unwrap().is_column(frame@.rows) by {
                if j < i {
                    assert(columns_of(before)[j].unwrap().is_column(frame@.rows));
                }
            }
        }
        i = i + 1;
    }
    assert(columns_of(out@) =~= named_columns(frame@, texts(names@)));
    out
}

/// Look text columns up by their names.
pub fn find_texts<'a>(frame: &'a Frame, names: &[&str]) -> (r: Vec<Option<&'a Vec<Option<String>>>>)
    ensures
        text_columns_of(r@) == named_texts(frame@, texts(names@)),
        are_text_columns(text_columns_of(r@), frame@.rows),
        r@.len() == names@.len(),
{
    let mut out: Vec<Option<&'a Vec<Option<String>>>> = Vec::new();
    let mut i: usize = 0;
    while i < names.len()
        invariant
            i <= names.len(),
            out@.len() == i,
            forall|j: int|
                0 <= j < i ==> #[trigger] text_columns_of(out@)[j] == frame@.texts(names@[j]@),
            are_text_columns(text_columns_of(out@), frame@.rows),
        decreases names.len() - i,
    {
        let ghost before = out@;
        let found = frame.texts(names[i]);
        out.push(found);
        proof {
            assert forall|j: int| 0 <= j < i + 1 implies #[trigger] text_columns_of(out@)[j]
                == frame@.texts(names@[j]@) by {
                if j < i {
                    assert(text_columns_of(before)[j] == frame@.texts(names@[j]@));
                }
            }
            assert forall|j: int|
                0 <= j < text_columns_of(out@).len() && text_columns_of(out@)[j] is Some implies (
            #[trigger] text_columns_of(out@)[j]).unwrap().len() == frame@.rows by {
                if j < i {
                    assert(text_columns_of(before)[j].unwrap().len() == frame@.rows);
                }
            }
        }
        i = i + 1;
    }
    assert(text_columns_of(out@) =~= named_texts(frame@, texts(names@)));
    out
}

/// The error for a column that is not there.
pub fn column_not_found(name: &str) -> (r: QueryError)
    ensures
        r.is_validation("column '"@ + name@ + "' not found"@),
{
    invalid(joined_text("column '", name, "' not found").as_str())
}

pub fn check_columns(frame: &Frame, names: &[&str], columns: &Vec<Option<&ColumnData>>) -> (r: Result<
    (),
    QueryError,
>)
    requires
        columns_of(columns@) == named_columns(frame@, texts(names@)),
        columns@.len() == names@.len(),
    ensures
        match first_missing(frame@, texts(names@), 0) {
            None => r is Ok,
            Some(i) => r matches Err(e) && e.is_validation(
                "column '"@ + texts(names@)[i] + "' not found"@,
            ),
        },
{
    let ghost list = texts(names@);
    let mut i: usize = 0;
    while i < names.len()
        invariant
            i <= names.len(),
            list == texts(names@),
            columns_of(columns@) == named_columns(frame@, list),
            columns@.len() == names@.len(),
            first_missing(frame@, list, 0) == first_missing(frame@, list, i as int),
        decreases names.len() - i,
    {
        assert(columns_of(columns@)[i as int] == frame@.column(list[i as int]));
        if columns[i].is_none() {
            return Err(column_not_found(names[i]));
        }
        i = i + 1;
    }
    Ok(())
}

/// Check that columns hold numbers.
fn check_numbers(frame: &Frame, names: &[&str], columns: &Vec<Option<&ColumnData>>) -> (r: Result<
    (),
    QueryError,
>)
    requires
        columns_of(columns@) == named_columns(frame@, texts(names@)),
        columns@.len() == names@.len(),
    ensures
        match first_unnumbered(frame@, texts(names@), 0) {
            None => r is Ok,
            Some(i) => r matches Err(e) && e.is_validation(
                "column '"@ + texts(names@)[i] + "' has an unexpected type"@,
            ),
        },
{
    let ghost list = texts(names@);
    let mut i: usize = 0;
    while i < names.len()
        invariant
            i <= names.len(),
            list == texts(names@),
            columns_of(columns@) == named_columns(frame@, list),
            columns@.len() == names@.len(),
            first_unnumbered(frame@, list, 0) == first_unnumbered(frame@, list, i as int),
        decreases names.len() - i,
    {
        assert(columns_of(columns@)[i as int] == frame@.column(list[i as int]));
        if let Some(data) = columns[i] {
            if !data.is_numeric() {
                return Err(
                    invalid(joined_text("column '", names[i], "' has an unexpected type").as_str()),
                );
            }
        }
        i = i + 1;
    }
    Ok(())
}

pub fn check_texts(
    frame: &Frame,
    names: &[&str],
    columns: &Vec<Option<&Vec<Option<String>>>>,
) -> (r: Result<(), QueryError>)
    requires
        text_columns_of(columns@) == named_texts(frame@, texts(names@)),
        columns@.len() == names@.len(),
    ensures
        match first_untexted(frame@, texts(names@), 0) {
            None => r is Ok && forall|c: int|
                0 <= c < columns@.len() ==> (#[trigger] columns@[c]) is Some,
            Some(i) => r matches Err(e) && e.is_validation(
                "group-by column '"@ + texts(names@)[i] + "' not found or not string"@,
            ),
        },
{
    let ghost list = texts(names@);
    let mut i: usize = 0;
    while i < names.len()
        invariant
            i <= names.len(),
            list == texts(names@),
            text_columns_of(columns@) == named_texts(frame@, list),
            columns@.len() == names@.len(),
            first_untexted(frame@, list, 0) == first_untexted(frame@, list, i as int),
            forall|c: int| 0 <= c < i ==> (#[trigger] columns@[c]) is Some,
        decreases names.len() - i,
    {
        assert(text_columns_of(columns@)[i as int] == frame@.texts(list[i as int]));
        if columns[i].is_none() {
            return Err(
                invalid(
                    joined_text(
                        "group-by column '",
                        names[i],
                        "' not found or not string",
                    ).as_str(),
                ),
            );
        }
        i = i + 1;
    }
    Ok(())
}

/// The least float among some numbers, in the total order.
pub open spec fn kernel_min(ns: Seq<(Num, Moment)>) -> Option<u64>
    decreases ns.len(),
{
    if ns.len() == 0 {
        None
    } else {
        let before = kernel_min(ns.drop_last());
        match ns.last().0 {
            Num::F64(v) if before is None || total_less(v, before.unwrap()) => Some(v),
            _ => before,
        }
    }
}

/// The greatest float among some numbers, in the total order.
pub open spec fn kernel_max(ns: Seq<(Num, Moment)>) -> Option<u64>
    decreases ns.len(),
{
    if ns.len() == 0 {
        None
    } else {
        let before = kernel_max(ns.drop_last());
        match ns.last().0 {
            Num::F64(v) if before is None || total_less(before.unwrap(), v) => Some(v),
            _ => before,
        }
    }
}

/// The readings of a whole column.
pub open spec fn column_readings(frame: FrameModel, data: DataModel) -> Seq<(Reading, Moment)> {
    frame.readings(data, all_rows(frame.rows))
}

/// The aggregate of a whole column. Floats are compared in the total order,
/// so that a value that is not a number can be the least or the greatest.
/// Integers are added up as integers.
pub open spec fn column_aggregate(frame: FrameModel, data: DataModel, func: AggFn) -> AggResult {
    let rs = column_readings(frame, data);
    let ns = numbers(rs);
    if func is Sum && integer_total(data) is Some {
        AggResult::F64(float_of(integer_total(data).unwrap()))
    } else if func is Avg && integer_total(data) is Some {
        AggResult::F64(float_ratio(integer_total(data).unwrap(), rs.len() as int))
    } else if func is Min && ns.len() > 0 && decimals(ns).len() == 0 {
        AggResult::F64(kernel_min(ns).unwrap())
    } else if func is Max && ns.len() > 0 && decimals(ns).len() == 0 {
        AggResult::F64(kernel_max(ns).unwrap())
    } else {
        aggregate_of(rs, func)
    }
}

/// One pass over a column: an accumulator with its readings taken, and its
/// extremes in the total order.
pub fn scan_column(frame: &Frame, data: &ColumnData, start: IncrementalAccumulator) -> (r: (
    IncrementalAccumulator,
    Option<u64>,
    Option<u64>,
))
    requires
        data@.is_column(frame@.rows),
        start.taken() + frame@.rows <= u64::MAX,
    ensures
        forall|rs: Seq<(Reading, Moment)>| #[trigger]
            start.summarizes(rs) ==> r.0.summarizes(rs + column_readings(frame@, data@)),
        start.fits_a_column() ==> r.0.fits_a_column(),
        r.0.taken() <= start.taken() + frame@.rows,
        r.1 == kernel_min(numbers(column_readings(frame@, data@))),
        r.2 == kernel_max(numbers(column_readings(frame@, data@))),
{
    let mut acc = start;
    let mut low: Option<u64> = None;
    let mut high: Option<u64> = None;
    let n: usize = frame.rows();
    let mut row: usize = 0;
    assert(all_rows(0) =~= Seq::empty());
    assert forall|rs: Seq<(Reading, Moment)>| #[trigger] start.summarizes(rs) implies acc.summarizes(
        rs + frame@.readings(data@, all_rows(0)),
    ) by {
        assert(rs + Seq::<(Reading, Moment)>::empty() =~= rs);
    }
    while row < n
        invariant
            row <= n,
            n == frame@.rows,
            data@.is_column(frame@.rows),
            start.taken() + frame@.rows <= u64::MAX,
            acc.taken() <= start.taken() + row,
            start.fits_a_column() ==> acc.fits_a_column(),
            forall|rs: Seq<(Reading, Moment)>| #[trigger]
                start.summarizes(rs) ==> acc.summarizes(
                    rs + frame@.readings(data@, all_rows(row as nat)),
                ),
            low == kernel_min(numbers(frame@.readings(data@, all_rows(row as nat)))),
            high == kernel_max(numbers(frame@.readings(data@, all_rows(row as nat)))),
        decreases n - row,
    {
        let ghost before = frame@.readings(data@, all_rows(row as nat));
        let ghost was = acc;
        proof {
            assert(all_rows((row + 1) as nat).drop_last() =~= all_rows(row as nat));
            assert(all_rows((row + 1) as nat).last() == row);
        }
        if let Some(reading) = data.reading(row) {
            let moment = frame.moment(row);
            acc.update(reading, moment);
            if let Reading::Number(Num::F64(v)) = reading {
                let lower = match low {
                    None => true,
                    Some(best) => is_total_less(v, best),
                };
                if lower {
                    low = Some(v);
                }
                let higher = match high {
                    None => true,
                    Some(best) => is_total_less(best, v),
                };
                if higher {
                    high = Some(v);
                }
            }
            proof {
                let after = before.push((reading, moment));
                assert(after.drop_last() =~= before);
                assert(frame@.readings(data@, all_rows((row + 1) as nat)) == after);
                if let Reading::Number(n) = reading {
                    assert(numbers(after).drop_last() =~= numbers(before));
                }
                assert forall|rs: Seq<(Reading, Moment)>| #[trigger]
                    start.summarizes(rs) implies acc.summarizes(rs + after) by {
                    assert(was.summarizes(rs + before));
                    assert((rs + before).push((reading, moment)) =~= rs + after);
                }
            }
        }
        row = row + 1;
    }
    (acc, low, high)
}

proof fn lemma_floats_have_extremes(ns: Seq<(Num, Moment)>)
    requires
        ns.len() > 0,
        decimals(ns).len() == 0,
    ensures
        kernel_min(ns) is Some,
        kernel_max(ns) is Some,
{
}

/// A column of integers that has a total has readings.
proof fn lemma_integers_are_read(frame: FrameModel, data: DataModel)
    requires
        data.is_column(frame.rows),
        integer_total(data) is Some,
    ensures
        column_readings(frame, data).len() > 0,
{
    lemma_some_read(frame, data, frame.rows as int);
}

proof fn lemma_some_read(frame: FrameModel, data: DataModel, n: int)
    requires
        data.is_column(frame.rows),
        0 <= n <= frame.rows,
        data is Integers || data is Unsigned,
    ensures
        data matches DataModel::Integers(cells) ==> (signed_total(cells.take(n)) is Some
            ==> frame.readings(data, all_rows(n as nat)).len() > 0) && (n == frame.rows
            ==> cells.take(n) == cells),
        data matches DataModel::Unsigned(cells) ==> (unsigned_total(cells.take(n)) is Some
            ==> frame.readings(data, all_rows(n as nat)).len() > 0) && (n == frame.rows
            ==> cells.take(n) == cells),
    decreases n,
{
    if n > 0 {
        lemma_some_read(frame, data, n - 1);
        let rows = all_rows(n as nat);
        assert(rows.drop_last() =~= all_rows((n - 1) as nat));
        assert(rows.last() == n - 1);
    }
    match data {
        DataModel::Integers(cells) => {
            if n > 0 {
                assert(cells.take(n).drop_last() =~= cells.take(n - 1));
            }
            if n == frame.rows {
                assert(cells.take(n) =~= cells);
            }
        },
        DataModel::Unsigned(cells) => {
            if n > 0 {
                assert(cells.take(n).drop_last() =~= cells.take(n - 1));
            }
            if n == frame.rows {
                assert(cells.take(n) =~= cells);
            }
        },
        _ => {},
    }
}

/// Aggregate a single column using the given function.
pub fn aggregate_column_ts(frame: &Frame, data: &ColumnData, func: AggFn) -> (r: AggResult)
    requires
        data@.is_column(frame@.rows),
    ensures
        r == column_aggregate(frame@, data@, func),
        r matches AggResult::Decimal { scale, .. } ==> scale
            <= crate::query::accumulator::MAX_COLUMN_SCALE,
{
    let start = IncrementalAccumulator::new();
    let _ = frame.rows();
    let (acc, low, high) = scan_column(frame, data, start);
    assert(start.summarizes(Seq::empty()));
    assert(Seq::empty() + column_readings(frame@, data@) =~= column_readings(frame@, data@));
    let ghost ns = numbers(column_readings(frame@, data@));
    let r = acc.finalize(func);
    proof {
        if ns.len() > 0 && decimals(ns).len() == 0 {
            lemma_floats_have_extremes(ns);
        }
        if ns.len() == 0 {
            assert(decimals(ns).len() == 0);
        }
    }
    if let Some(total) = sum_integers(data) {
        match func {
            AggFn::Sum => {
                return AggResult::F64(nearest_float(total));
            },
            AggFn::Avg => {
                let count: u64 = acc.count();
                proof {
                    lemma_integers_are_read(frame@, data@);
                }
                return AggResult::F64(divide_as_floats(total, count as i128));
            },
            _ => {},
        }
    }
    match (func, r) {
        (AggFn::Min, AggResult::F64(_)) => match low {
            Some(v) => AggResult::F64(v),
            None => r,
        },
        (AggFn::Max, AggResult::F64(_)) => match high {
            Some(v) => AggResult::F64(v),
            None => r,
        },
        _ => r,
    }
}

/// The table of the aggregates of whole columns.
pub open spec fn shows_batch(
    table: &ResultTable,
    frame: FrameModel,
    fields: Seq<Seq<char>>,
    functions: Seq<AggFn>,
) -> bool {
    let pairs = result_pairs(fields, functions);
    &&& table.keys@.len() == 0
    &&& table.results@.len() == pairs.len()
    &&& forall|p: int|
        0 <= p < pairs.len() ==> (#[trigger] table.results@[p]).shows(
            result_name(fields[pairs[p].0], pairs[p].1),
            seq![column_aggregate(frame, frame.column(fields[pairs[p].0]).unwrap(), pairs[p].1)],
        )
}

/// What aggregating whole columns comes to, before the result is charged. A
/// batch without rows, a column that is missing, and a column that holds no
/// numbers are refused.
pub open spec fn batch_outcome(
    r: Result<ResultTable, QueryError>,
    frame: FrameModel,
    functions: Seq<AggFn>,
    fields: Seq<Seq<char>>,
) -> bool {
    if frame.rows == 0 {
        r matches Err(e) && e.is_validation("batch is empty"@)
    } else if let Some(i) = first_missing(frame, fields, 0) {
        r matches Err(e) && e.is_validation("column '"@ + fields[i] + "' not found"@)
    } else if let Some(i) = first_unnumbered(frame, fields, 0) {
        r matches Err(e) && e.is_validation("column '"@ + fields[i] + "' has an unexpected type"@)
    } else if result_pairs(fields, functions).len() == 0 {
        r matches Err(e) && e.is_validation("no columns to aggregate"@)
    } else {
        r matches Ok(table) && shows_batch(&table, frame, fields, functions)
    }
}

/// Apply aggregation to a batch without grouping.
///
/// Returns a single-row table with one column per field per function, and
/// charges the memory that it takes.
pub fn aggregate_batch(
    frame: &Frame,
    functions: &[AggFn],
    field_columns: &[&str],
    tracker: &mut Option<MemoryTracker>,
) -> (r: Result<ResultTable, QueryError>)
    ensures
        frame@.rows == 0 ==> (r matches Err(e) && e is Validation),
        exists|made: Result<ResultTable, QueryError>, size: usize|
            {
                &&& batch_outcome(made, frame@, functions@, texts(field_columns@))
                &&& made matches Ok(table) ==> at_least(size, table_least(&table))
                &&& #[trigger] settles(
                    made,
                    account(*old(tracker)),
                    r,
                    account(*final(tracker)),
                    size,
                )
            },
{
    let ghost start = account(*tracker);
    let made = batch_table(frame, functions, field_columns);
    let ghost outcome = made;
    match made {
        Ok(table) => {
            charge_table(table, tracker)
        },
        Err(e) => {
            assert(settles(outcome, start, Err(e), account(*tracker), 0));
            Err(e)
        },
    }
}

/// The aggregates of whole columns.
pub fn batch_table(frame: &Frame, functions: &[AggFn], field_columns: &[&str]) -> (r: Result<
    ResultTable,
    QueryError,
>)
    ensures
        batch_outcome(r, frame@, functions@, texts(field_columns@)),
{
    let ghost fields = texts(field_columns@);
    if frame.rows() == 0 {
        return Err(invalid("batch is empty"));
    }
    let columns = find_columns(frame, field_columns);
    match check_columns(frame, field_columns, &columns) {
        Ok(_) => {},
        Err(e) => {
            return Err(e);
        },
    }
    match check_numbers(frame, field_columns, &columns) {
        Ok(_) => {},
        Err(e) => {
            return Err(e);
        },
    }
    let mut results: Vec<ResultColumn> = Vec::new();
    let mut i: usize = 0;
    proof {
        assert(fields.take(0) =~= Seq::empty());
    }
    while i < field_columns.len()
        invariant
            i <= field_columns.len(),
            fields == texts(field_columns@),
            columns@.len() == fields.len(),
            columns_of(columns@) == named_columns(frame@, fields),
            are_columns(columns_of(columns@), frame@.rows),
            frame@.rows > 0,
            first_missing(frame@, fields, 0) is None,
            first_unnumbered(frame@, fields, 0) is None,
            results@.len() == result_pairs(fields.take(i as int), functions@).len(),
            forall|p: int|
                0 <= p < results@.len() ==> {
                    let pair = result_pairs(fields.take(i as int), functions@)[p];
                    &&& 0 <= pair.0 < i
                    &&& (#[trigger] results@[p]).shows(
                        result_name(fields[pair.0], pair.1),
                        seq![
                            column_aggregate(frame@, frame@.column(fields[pair.0]).unwrap(), pair.1),
                        ],
                    )
                },
        decreases field_columns.len() - i,
    {
        let ghost done = result_pairs(fields.take(i as int), functions@);
        assert(columns_of(columns@)[i as int] == frame@.column(fields[i as int]));
        proof {
            lemma_none_missing(frame@, fields, 0, i as int);
            lemma_result_pairs(fields.take(i as int), functions@);
            assert(fields.take(i + 1).drop_last() =~= fields.take(i as int));
        }
        if let Some(data) = columns[i] {
            assert(columns_of(columns@)[i as int].unwrap().is_column(frame@.rows));
            let ghost next = done + functions@.map_values(|f: AggFn| (i as int, f));
            let mut k: usize = 0;
            while k < functions.len()
                invariant
                    k <= functions.len(),
                    i < field_columns.len(),
                    fields == texts(field_columns@),
                    frame@.column(fields[i as int]) == Some(data@),
                    data@.is_column(frame@.rows),
                    next == done + functions@.map_values(|f: AggFn| (i as int, f)),
                    results@.len() == done.len() + k,
                    forall|p: int| 0 <= p < done.len() ==> 0 <= (#[trigger] done[p]).0 < i,
                    forall|p: int|
                        0 <= p < results@.len() ==> (#[trigger] results@[p]).shows(
                            result_name(fields[next[p].0], next[p].1),
                            seq![
                                column_aggregate(
                                    frame@,
                                    frame@.column(fields[next[p].0]).unwrap(),
                                    next[p].1,
                                ),
                            ],
                        ),
                decreases functions.len() - k,
            {
                let name = result_column_name(field_columns[i], functions[k]);
                let value = aggregate_column_ts(frame, data, functions[k]);
                let mut values: Vec<AggResult> = Vec::new();
                values.push(value);
                assert(values@ =~= seq![value]);
                proof {
                    lemma_possible_scale(values@);
                    assert(next[done.len() + k] == (i as int, functions@[k as int]));
                }
                match agg_result_column(name.as_str(), values.as_slice()) {
                    Ok(column) => {
                        results.push(column);
                    },
                    Err(e) => {
                        return Err(e);
                    },
                }
                k = k + 1;
            }
            proof {
                assert(next == result_pairs(fields.take(i + 1), functions@));
            }
        }
        i = i + 1;
    }
    assert(fields.take(i as int) =~= fields);
    if results.len() == 0 {
        return Err(invalid("no columns to aggregate"));
    }
    Ok(ResultTable { keys: Vec::new(), results })
}

pub proof fn lemma_none_missing(frame: FrameModel, names: Seq<Seq<char>>, from: int, i: int)
    requires
        0 <= from <= i < names.len(),
        first_missing(frame, names, from) is None,
    ensures
        frame.column(names[i]) is Some,
    decreases i - from,
{
    if from < i {
        lemma_none_missing(frame, names, from + 1, i);
    }
}

/// Aggregation strategy chosen based on estimated group-key cardinality.
#[derive(Debug, Clone, Copy, PartialEq, Eq, Structural)]
pub enum AggregationStrategy {
    /// FNV-1a hash-table grouping (default).
    Hash,
    /// Sort group-by columns first, then linear-scan contiguous runs.
    Sort,
}

/// Cardinality up to which sort-based aggregation is preferred.
pub const SORT_CARDINALITY_THRESHOLD: usize = 1024;

/// Choose an aggregation strategy based on estimated cardinality: sorting for
/// a small number of groups, hashing for a large or an unknown one.
pub fn choose_strategy(estimated_cardinality: Option<usize>) -> (r: AggregationStrategy)
    ensures
        r == match estimated_cardinality {
            Some(c) if c <= SORT_CARDINALITY_THRESHOLD => AggregationStrategy::Sort,
            _ => AggregationStrategy::Hash,
        },
{
    match estimated_cardinality {
        Some(c) => if c <= SORT_CARDINALITY_THRESHOLD {
            AggregationStrategy::Sort
        } else {
            AggregationStrategy::Hash
        },
        None => AggregationStrategy::Hash,
    }
}

} // verus!
