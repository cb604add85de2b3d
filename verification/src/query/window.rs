//! Window functions for time-series query processing.
//!
//! Window functions compute values over a sliding window or partition of rows
//! without collapsing the result set: each input row yields exactly one output
//! value.
use vstd::prelude::*;
use vstd::string::*;

use crate::query::aggregate::find_texts;
#[allow(unused_imports)]
use crate::query::aggregate::{first_untexted, named_texts};
use crate::query::error::{invalid, QueryError};
use crate::query::frame::{extract_f64, ColumnData, Frame};
#[allow(unused_imports)]
use crate::query::frame::{all_rows, optional_texts, DataModel, FrameModel};
use crate::query::grouping::GroupIndex;
#[allow(unused_imports)]
use crate::query::grouping::{account, charged, groups_after, groups_are_distinct, GroupKey};
use crate::query::groups::key_of_row;
#[allow(unused_imports)]
use crate::query::groups::{
    are_text_columns, row_key, row_keys, rows_with_key, text_columns_of,
};
#[allow(unused_imports)]
use crate::query::memory::countable;
use crate::query::memory::MemoryTracker;
use crate::query::output::{charge_result, result_bytes};
#[allow(unused_imports)]
use crate::query::output::{at_least, exceeds, is_over_budget, settles, word_least};
use crate::query::window_fn::{needs_timestamps, window_fn_name, WindowFn};
use crate::query::window_values::{compute_partition, Partition, WindowValue};
#[allow(unused_imports)]
use crate::query::window_values::{is_range, is_window, window_value, PartitionModel};
use crate::text::joined_text;
#[allow(unused_imports)]
use crate::text::texts;

verus! {

broadcast use vstd::string::group_string_axioms;

/// The timestamp of a row; a null reads as zero.
pub open spec fn time_at(times: Seq<Option<i64>>, row: int) -> i64 {
    match times[row] {
        Some(t) => t,
        None => 0,
    }
}

/// Some rows of a frame, as a window function reads them.
pub open spec fn rows_model(
    frame: FrameModel,
    value: DataModel,
    order: DataModel,
    rows: Seq<int>,
) -> PartitionModel {
    PartitionModel {
        values: Seq::new(rows.len(), |i: int| value.float_at(rows[i])),
        orders: Seq::new(rows.len(), |i: int| order.float_at(rows[i])),
        times: match frame.times {
            None => None,
            Some(times) => Some(Seq::new(rows.len(), |i: int| time_at(times, rows[i]))),
        },
    }
}

/// The column that a function ranks by: the one it names, if the frame has it,
/// otherwise the value column.
pub open spec fn order_data(func: WindowFn, frame: FrameModel, value: DataModel) -> DataModel {
    match func {
        WindowFn::Rank { order_column: Some(name) } => match frame.column(name@) {
            Some(data) => data,
            None => value,
        },
        WindowFn::DenseRank { order_column: Some(name) } => match frame.column(name@) {
            Some(data) => data,
            None => value,
        },
        _ => value,
    }
}

/// The rows of each partition: all rows if there is nothing to partition by,
/// otherwise the rows with each key, in the order in which the keys are first
/// seen.
pub open spec fn partition_rows(frame: FrameModel, by: Seq<Seq<char>>) -> Seq<Seq<int>> {
    if by.len() == 0 {
        seq![all_rows(frame.rows)]
    } else {
        let columns = named_texts(frame, by);
        let n = frame.rows as int;
        let groups = groups_after(Seq::empty(), row_keys(columns, n));
        Seq::new(groups.len(), |g: int| rows_with_key(columns, groups[g], n))
    }
}

/// One window function's results.
#[derive(Debug)]
pub struct WindowColumn {
    /// Column name.
    pub name: String,
    /// One result per row.
    pub values: Vec<WindowValue>,
}

/// The results of some window functions, and the partitions that they were
/// computed over.
#[derive(Debug)]
pub struct WindowOutcome {
    /// One column per function.
    pub columns: Vec<WindowColumn>,
    /// The rows of each partition.
    pub partitions: Vec<Vec<usize>>,
}

/// Some lists of rows.
pub open spec fn row_lists(lists: Seq<Vec<usize>>) -> Seq<Seq<int>> {
    lists.map_values(|rows: Vec<usize>| rows@.map_values(|row: usize| row as int))
}

/// The column holds a function's results over some partitions.
pub open spec fn shows_window(
    column: &WindowColumn,
    func: WindowFn,
    frame: FrameModel,
    value_name: Seq<char>,
    partitions: Seq<Seq<int>>,
) -> bool {
    let value = frame.column(value_name).unwrap();
    let order = order_data(func, frame, value);
    &&& column.name@ == value_name + "_"@ + func.name()
    &&& column.values@.len() == frame.rows
    &&& forall|g: int, i: int|
        #![trigger partitions[g][i]]
        0 <= g < partitions.len() && 0 <= i < partitions[g].len() ==> column.values@[partitions[g][i]]
            == window_value(func, rows_model(frame, value, order, partitions[g]), i)
}

/// The first function over a range of timestamps, from the `from`-th on.
pub open spec fn first_range(functions: Seq<WindowFn>, from: int) -> Option<int>
    decreases functions.len() - from,
{
    if from < 0 || from >= functions.len() {
        None
    } else if is_range(functions[from]) {
        Some(from)
    } else {
        first_range(functions, from + 1)
    }
}

/// The error of a function that lacks timestamps.
pub open spec fn timestamps_required(func: WindowFn, e: QueryError) -> bool {
    match func {
        WindowFn::RangeMovingAverage { .. } => e.is_validation(
            "timestamp column required for RangeMovingAverage"@,
        ),
        WindowFn::RangeSum { .. } => e.is_validation("timestamp column required for RangeSum"@),
        _ => e.is_validation("timestamp column required for RangeCount"@),
    }
}

fn no_timestamps(func: &WindowFn) -> (r: QueryError)
    ensures
        timestamps_required(*func, r),
{
    match func {
        WindowFn::RangeMovingAverage { .. } => invalid(
            "timestamp column required for RangeMovingAverage",
        ),
        WindowFn::RangeSum { .. } => invalid("timestamp column required for RangeSum"),
        _ => invalid("timestamp column required for RangeCount"),
    }
}

fn is_range_fn(func: &WindowFn) -> (r: bool)
    ensures
        r == is_range(*func),
{
    match func {
        WindowFn::RangeMovingAverage { .. } => true,
        WindowFn::RangeSum { .. } => true,
        WindowFn::RangeCount { .. } => true,
        _ => false,
    }
}

pub proof fn lemma_rows_below(columns: Seq<Option<Seq<Option<Seq<char>>>>>, key: GroupKey, n: int)
    requires
        0 <= n,
    ensures
        rows_with_key(columns, key, n).len() <= n,
        forall|i: int|
            0 <= i < rows_with_key(columns, key, n).len() ==> 0 <= (#[trigger] rows_with_key(
                columns,
                key,
                n,
            )[i]) < n,
    decreases n,
{
    if n > 0 {
        lemma_rows_below(columns, key, n - 1);
        let before = rows_with_key(columns, key, n - 1);
        let all = rows_with_key(columns, key, n);
        assert forall|i: int| 0 <= i < all.len() implies 0 <= (#[trigger] all[i]) < n by {
            if i < before.len() {
                assert(all[i] == before[i]);
            }
        }
    }
}

/// Every row of a frame is in one of its partitions, once.
pub proof fn partitions_hold_every_row(frame: FrameModel, by: Seq<Seq<char>>, row: int)
    requires
        0 <= row < frame.rows,
    ensures
        exists|g: int, i: int|
            #![trigger partition_rows(frame, by)[g][i]]
            0 <= g < partition_rows(frame, by).len() && 0 <= i < partition_rows(
                frame,
                by,
            )[g].len() && partition_rows(frame, by)[g][i] == row,
{
    if by.len() == 0 {
        assert(partition_rows(frame, by)[0][row] == row);
    } else {
        let columns = named_texts(frame, by);
        let n = frame.rows as int;
        let ks = row_keys(columns, n);
        let groups = groups_after(Seq::empty(), ks);
        groups_are_distinct(Seq::empty(), ks);
        assert(ks[row] == row_key(columns, row));
        assert(groups.contains(ks[row]));
        let g = choose|g: int| 0 <= g < groups.len() && groups[g] == ks[row];
        lemma_holds_row(columns, groups[g], n, row);
        let rows = rows_with_key(columns, groups[g], n);
        let i = choose|i: int| 0 <= i < rows.len() && rows[i] == row;
        assert(partition_rows(frame, by)[g][i] == row);
    }
}

pub proof fn lemma_holds_row(
    columns: Seq<Option<Seq<Option<Seq<char>>>>>,
    key: GroupKey,
    n: int,
    row: int,
)
    requires
        0 <= row < n,
        row_key(columns, row) == key,
    ensures
        exists|i: int|
            0 <= i < rows_with_key(columns, key, n).len() && rows_with_key(columns, key, n)[i] == row,
    decreases n,
{
    let all = rows_with_key(columns, key, n);
    if row < n - 1 {
        lemma_holds_row(columns, key, n - 1, row);
        let before = rows_with_key(columns, key, n - 1);
        let i = choose|i: int| 0 <= i < before.len() && before[i] == row;
        assert(all[i] == row);
    } else {
        assert(all[all.len() - 1] == row);
    }
}

/// List the rows of each partition, in order. The partitions come in the order
/// in which they are first seen.
fn build_partitions(frame: &Frame, partition_by: &[&str]) -> (r: Result<
    Vec<Vec<usize>>,
    QueryError,
>)
    ensures
        ({
            let by = texts(partition_by@);
            match first_untexted(frame@, by, 0) {
                Some(i) => r matches Err(e) && e.is_validation(
                    "partition-by column '"@ + by[i] + "' not found or not string"@,
                ),
                None => r matches Ok(lists) && row_lists(lists@) == partition_rows(frame@, by),
            }
        }),
{
    let ghost by = texts(partition_by@);
    let n: usize = frame.rows();
    if partition_by.len() == 0 {
        let mut rows: Vec<usize> = Vec::new();
        let mut i: usize = 0;
        while i < n
            invariant
                i <= n,
                rows@.len() == i,
                rows@.map_values(|row: usize| row as int) == all_rows(i as nat),
            decreases n - i,
        {
            let ghost before = rows@;
            rows.push(i);
            proof {
                let list = rows@.map_values(|row: usize| row as int);
                assert forall|j: int| 0 <= j < list.len() implies list[j] == all_rows(
                    (i + 1) as nat,
                )[j] by {
                    if j < i {
                        assert(before.map_values(|row: usize| row as int)[j] == all_rows(
                            i as nat,
                        )[j]);
                    }
                }
                assert(list =~= all_rows((i + 1) as nat));
            }
            i = i + 1;
        }
        let mut lists: Vec<Vec<usize>> = Vec::new();
        lists.push(rows);
        assert(row_lists(lists@) =~= partition_rows(frame@, by));
        return Ok(lists);
    }
    let columns = find_texts(frame, partition_by);
    let ghost model = text_columns_of(columns@);
    let mut c: usize = 0;
    while c < partition_by.len()
        invariant
            c <= partition_by.len(),
            by == texts(partition_by@),
            columns@.len() == partition_by@.len(),
            model == text_columns_of(columns@),
            model == named_texts(frame@, by),
            first_untexted(frame@, by, 0) == first_untexted(frame@, by, c as int),
        decreases partition_by.len() - c,
    {
        assert(model[c as int] == frame@.texts(by[c as int]));
        if columns[c].is_none() {
            return Err(
                invalid(
                    joined_text(
                        "partition-by column '",
                        partition_by[c],
                        "' not found or not string",
                    ).as_str(),
                ),
            );
        }
        c = c + 1;
    }
    let ghost ks = row_keys(model, n as int);
    let ghost none = Seq::<GroupKey>::empty();
    let mut index = GroupIndex::new();
    let mut lists: Vec<Vec<usize>> = Vec::new();
    let mut tracker: Option<MemoryTracker> = None;
    let mut row: usize = 0;
    assert(ks.take(0) =~= Seq::empty());
    assert(row_lists(lists@) =~= Seq::empty());
    while row < n
        invariant
            row <= n,
            n == frame@.rows,
            model == text_columns_of(columns@),
            are_text_columns(model, frame@.rows),
            ks == row_keys(model, n as int),
            none == Seq::<GroupKey>::empty(),
            account(tracker) is None,
            index@ == groups_after(none, ks.take(row as int)),
            lists@.len() == index@.len(),
            forall|g: int|
                0 <= g < lists@.len() ==> (#[trigger] lists@[g])@.map_values(
                    |row: usize| row as int,
                ) == rows_with_key(model, index@[g], row as int),
        decreases n - row,
    {
        let key = key_of_row(&columns, row, Ghost(frame@.rows));
        let ghost k = optional_texts(key@);
        let ghost was = index@;
        let ghost old_lists = lists@;
        proof {
            assert(ks[row as int] == k);
            assert(ks.take(row + 1).drop_last() =~= ks.take(row as int));
            assert(ks.take(row + 1).last() == k);
            assert(seq![k].drop_last() =~= Seq::<GroupKey>::empty());
            assert(groups_after(was, Seq::<GroupKey>::empty()) == was);
            groups_are_distinct(none, ks.take(row as int));
        }
        let g: usize = match index.place(key, false, &mut tracker, 0) {
            Ok(g) => g,
            Err(e) => {
                return Err(e);
            },
        };
        if g == lists.len() {
            lists.push(Vec::new());
            proof {
                lemma_no_earlier_rows(model, was, k, row as int, ks);
                assert(lists@[g as int]@.map_values(|row: usize| row as int) =~= Seq::empty());
                assert(rows_with_key(model, k, row as int) =~= Seq::empty());
            }
        }
        let ghost middle = lists@;
        assert(index@ == groups_after(none, ks.take(row + 1)));
        proof {
            if g < old_lists.len() && !was.contains(k) {
                assert(index@ == was.push(k));
                assert(index@[g as int] == was[g as int]);
                assert(was.contains(k));
            }
            assert(middle.len() == index@.len());
            assert(middle[g as int]@.map_values(|row: usize| row as int) == rows_with_key(
                model,
                k,
                row as int,
            ));
        }
        let mut list: Vec<usize> = Vec::new();
        std::mem::swap(&mut list, &mut lists[g]);
        let ghost before = list@;
        list.push(row);
        std::mem::swap(&mut list, &mut lists[g]);
        proof {
            assert(lists@[g as int]@ =~= before.push(row));
            assert(before.push(row).map_values(|row: usize| row as int) =~= before.map_values(
                |row: usize| row as int,
            ).push(row as int));
            assert forall|h: int| 0 <= h < lists@.len() implies (#[trigger] lists@[h])@.map_values(
                |row: usize| row as int,
            ) == rows_with_key(model, index@[h], row + 1) by {
                if h != g {
                    assert(lists@[h] == old_lists[h]);
                    assert(index@[h] == was[h]);
                    assert(index@[h] != k) by {
                        groups_are_distinct(none, ks.take(row + 1));
                        if h < g {
                            assert(index@[h] != index@[g as int]);
                        } else {
                            assert(index@[g as int] != index@[h]);
                        }
                    }
                }
            }
        }
        row = row + 1;
    }
    proof {
        assert(ks.take(n as int) =~= ks);
        assert(row_lists(lists@) =~= partition_rows(frame@, by));
    }
    Ok(lists)
}

proof fn lemma_no_earlier_rows(
    columns: Seq<Option<Seq<Option<Seq<char>>>>>,
    was: Seq<GroupKey>,
    key: GroupKey,
    n: int,
    ks: Seq<GroupKey>,
)
    requires
        0 <= n <= ks.len(),
        forall|row: int| 0 <= row < ks.len() ==> #[trigger] ks[row] == row_key(columns, row),
        was == groups_after(Seq::empty(), ks.take(n)),
        !was.contains(key),
    ensures
        rows_with_key(columns, key, n).len() == 0,
{
    groups_are_distinct(Seq::empty(), ks.take(n));
    assert forall|row: int| 0 <= row < n implies #[trigger] row_key(columns, row) != key by {
        assert(ks.take(n)[row] == ks[row]);
        assert(was.contains(ks.take(n)[row]));
    }
    lemma_none_with_key(columns, key, n);
}

proof fn lemma_none_with_key(columns: Seq<Option<Seq<Option<Seq<char>>>>>, key: GroupKey, n: int)
    requires
        0 <= n,
        forall|row: int| 0 <= row < n ==> #[trigger] row_key(columns, row) != key,
    ensures
        rows_with_key(columns, key, n).len() == 0,
    decreases n,
{
    if n > 0 {
        assert(row_key(columns, n - 1) != key);
        lemma_none_with_key(columns, key, n - 1);
    }
}

/// The floating-point values of a column in some rows.
fn floats_of(data: &ColumnData, rows: &Vec<usize>) -> (r: Vec<Option<u64>>)
    requires
        forall|i: int| 0 <= i < rows@.len() ==> (#[trigger] rows@[i]) < data@.len(),
    ensures
        r@ == Seq::new(rows@.len(), |i: int| data@.float_at(rows@[i] as int)),
{
    let mut out: Vec<Option<u64>> = Vec::new();
    let mut i: usize = 0;
    while i < rows.len()
        invariant
            i <= rows.len(),
            forall|j: int| 0 <= j < rows@.len() ==> (#[trigger] rows@[j]) < data@.len(),
            out@.len() == i,
            forall|j: int| 0 <= j < i ==> #[trigger] out@[j] == data@.float_at(rows@[j] as int),
        decreases rows.len() - i,
    {
        let row: usize = rows[i];
        out.push(extract_f64(data, row));
        i = i + 1;
    }
    assert(out@ =~= Seq::new(rows@.len(), |i: int| data@.float_at(rows@[i] as int)));
    out
}

/// The timestamps of some rows.
fn times_of_rows(frame: &Frame, rows: &Vec<usize>) -> (r: Option<Vec<i64>>)
    requires
        forall|i: int| 0 <= i < rows@.len() ==> (#[trigger] rows@[i]) < frame@.rows,
    ensures
        match (r, frame@.times) {
            (Some(list), Some(times)) => list@ == Seq::new(
                rows@.len(),
                |i: int| time_at(times, rows@[i] as int),
            ),
            (None, None) => true,
            _ => false,
        },
{
    match frame.times() {
        None => None,
        Some(times) => {
            let mut out: Vec<i64> = Vec::new();
            let mut i: usize = 0;
            while i < rows.len()
                invariant
                    i <= rows.len(),
                    times@.len() == frame@.rows,
                    forall|j: int| 0 <= j < rows@.len() ==> (#[trigger] rows@[j]) < frame@.rows,
                    out@.len() == i,
                    forall|j: int|
                        0 <= j < i ==> #[trigger] out@[j] == time_at(times@, rows@[j] as int),
                decreases rows.len() - i,
            {
                out.push(
                    match times[rows[i]] {
                        Some(t) => t,
                        None => 0,
                    },
                );
                i = i + 1;
            }
            assert(out@ =~= Seq::new(rows@.len(), |i: int| time_at(times@, rows@[i] as int)));
            Some(out)
        },
    }
}

/// Compute one window function over all partitions.
fn compute_window_fn(
    func: &WindowFn,
    frame: &Frame,
    value: &ColumnData,
    value_name: &str,
    partitions: &Vec<Vec<usize>>,
    Ghost(by): Ghost<Seq<Seq<char>>>,
) -> (r: WindowColumn)
    requires
        frame@.column(value_name@) == Some(value@),
        value@.is_column(frame@.rows),
        row_lists(partitions@) == partition_rows(frame@, by),
        is_range(*func) ==> frame@.times is Some,
    ensures
        shows_window(&r, *func, frame@, value_name@, partition_rows(frame@, by)),
{
    let ghost lists = partition_rows(frame@, by);
    let ghost order = order_data(*func, frame@, value@);
    let n: usize = frame.rows();
    let named: Option<&ColumnData> = match func {
        WindowFn::Rank { order_column: Some(name) } => frame.column(name.as_str()),
        WindowFn::DenseRank { order_column: Some(name) } => frame.column(name.as_str()),
        _ => None,
    };
    let order_column: &ColumnData = match named {
        Some(data) => data,
        None => value,
    };
    assert(order_column@ == order);
    let mut values: Vec<WindowValue> = Vec::new();
    while values.len() < n
        invariant
            values@.len() <= n,
        decreases n - values.len(),
    {
        values.push(WindowValue::Null);
    }
    let mut g: usize = 0;
    while g < partitions.len()
        invariant
            g <= partitions.len(),
            n == frame@.rows,
            values@.len() == n,
            lists == row_lists(partitions@),
            lists.len() == partitions@.len(),
            lists == partition_rows(frame@, by),
            value@.is_column(frame@.rows),
            order_column@.is_column(frame@.rows),
            order_column@ == order,
            is_range(*func) ==> frame@.times is Some,
            forall|h: int, i: int|
                #![trigger lists[h][i]]
                0 <= h < g && 0 <= i < lists[h].len() ==> values@[lists[h][i]] == window_value(
                    *func,
                    rows_model(frame@, value@, order, lists[h]),
                    i,
                ),
        decreases partitions.len() - g,
    {
        let rows = &partitions[g];
        let ghost list = lists[g as int];
        proof {
            assert(list == rows@.map_values(|row: usize| row as int));
            lemma_partition_bounds(frame@, by, g as int);
            assert forall|i: int| 0 <= i < rows@.len() implies (#[trigger] rows@[i])
                < frame@.rows by {
                assert(list[i] == rows@[i] as int);
            }
        }
        let partition = Partition {
            values: floats_of(value, rows),
            orders: floats_of(order_column, rows),
            times: times_of_rows(frame, rows),
        };
        let ghost model = rows_model(frame@, value@, order, list);
        proof {
            assert(partition@.values =~= model.values);
            assert(partition@.orders =~= model.orders);
            if frame@.times is Some {
                assert(partition@.times.unwrap() =~= model.times.unwrap());
            }
            assert(partition@ =~= model);
        }
        let results = compute_partition(func, &partition);
        let ghost before = values@;
        let mut i: usize = 0;
        while i < rows.len()
            invariant
                i <= rows.len(),
                n == frame@.rows,
                values@.len() == n,
                g < lists.len(),
                lists == partition_rows(frame@, by),
                list == lists[g as int],
                list == rows@.map_values(|row: usize| row as int),
                before.len() == n,
                results@.len() == rows@.len(),
                is_window(results@, *func, model),
                forall|j: int| 0 <= j < rows@.len() ==> (#[trigger] rows@[j]) < n,
                forall|j: int|
                    0 <= j < i ==> values@[(#[trigger] rows@[j]) as int] == results@[j],
                forall|row: int|
                    0 <= row < n && (forall|j: int| 0 <= j < i ==> (#[trigger] rows@[j]) != row)
                        ==> #[trigger] values@[row] == before[row],
            decreases rows.len() - i,
        {
            let ghost here = values@;
            let row: usize = rows[i];
            values.set(row, results[i]);
            proof {
                lemma_partition_distinct(frame@, by, g as int);
                assert forall|j: int| 0 <= j < i + 1 implies values@[(#[trigger] rows@[j]) as int]
                    == results@[j] by {
                    if j < i {
                        assert(list[j] != list[i as int]);
                        assert(here[rows@[j] as int] == results@[j]);
                    }
                }
                assert forall|other: int|
                    0 <= other < n && (forall|j: int|
                        0 <= j < i + 1 ==> (#[trigger] rows@[j]) != other) implies #[trigger] values@[other]
                    == before[other] by {
                    assert(rows@[i as int] != other);
                    assert(here[other] == before[other]);
                }
            }
            i = i + 1;
        }
        proof {
            assert forall|h: int, k: int|
                #![trigger lists[h][k]]
                0 <= h < g + 1 && 0 <= k < lists[h].len() implies values@[lists[h][k]]
                == window_value(*func, rows_model(frame@, value@, order, lists[h]), k) by {
                if h < g {
                    lemma_partition_bounds(frame@, by, h);
                    lemma_partitions_apart(frame@, by, h, g as int);
                    let other = lists[h][k];
                    assert forall|j: int| 0 <= j < rows@.len() implies (#[trigger] rows@[j])
                        != other by {
                        assert(list[j] == rows@[j] as int);
                    }
                    assert(values@[other] == before[other]);
                } else {
                    assert(rows@[k] as int == lists[h][k]);
                    assert(results@[k] == window_value(*func, model, k));
                }
            }
        }
        g = g + 1;
    }
    let name = joined_text(value_name, "_", window_fn_name(func).as_str());
    WindowColumn { name, values }
}

pub proof fn lemma_partition_bounds(frame: FrameModel, by: Seq<Seq<char>>, g: int)
    requires
        0 <= g < partition_rows(frame, by).len(),
    ensures
        forall|i: int|
            0 <= i < partition_rows(frame, by)[g].len() ==> 0 <= (#[trigger] partition_rows(
                frame,
                by,
            )[g][i]) < frame.rows,
{
    if by.len() > 0 {
        let columns = named_texts(frame, by);
        let n = frame.rows as int;
        let groups = groups_after(Seq::empty(), row_keys(columns, n));
        lemma_rows_below(columns, groups[g], n);
    }
}

pub proof fn lemma_partition_distinct(frame: FrameModel, by: Seq<Seq<char>>, g: int)
    requires
        0 <= g < partition_rows(frame, by).len(),
    ensures
        forall|i: int, j: int|
            0 <= i < j < partition_rows(frame, by)[g].len() ==> #[trigger] partition_rows(
                frame,
                by,
            )[g][i] != #[trigger] partition_rows(frame, by)[g][j],
{
    if by.len() > 0 {
        let columns = named_texts(frame, by);
        let n = frame.rows as int;
        let groups = groups_after(Seq::empty(), row_keys(columns, n));
        lemma_rows_ascend(columns, groups[g], n);
    }
}

pub proof fn lemma_rows_ascend(columns: Seq<Option<Seq<Option<Seq<char>>>>>, key: GroupKey, n: int)
    requires
        0 <= n,
    ensures
        forall|i: int, j: int|
            0 <= i < j < rows_with_key(columns, key, n).len() ==> (#[trigger] rows_with_key(
                columns,
                key,
                n,
            )[i]) < (#[trigger] rows_with_key(columns, key, n)[j]),
        forall|i: int|
            0 <= i < rows_with_key(columns, key, n).len() ==> row_key(
                columns,
                #[trigger] rows_with_key(columns, key, n)[i],
            ) == key,
    decreases n,
{
    if n > 0 {
        lemma_rows_ascend(columns, key, n - 1);
        lemma_rows_below(columns, key, n - 1);
        let before = rows_with_key(columns, key, n - 1);
        let all = rows_with_key(columns, key, n);
        assert forall|i: int, j: int| 0 <= i < j < all.len() implies (#[trigger] all[i]) < (
        #[trigger] all[j]) by {
            assert(all[i] == before[i]);
            if j < before.len() {
                assert(all[j] == before[j]);
            }
        }
        assert forall|i: int| 0 <= i < all.len() implies row_key(columns, #[trigger] all[i])
            == key by {
            if i < before.len() {
                assert(all[i] == before[i]);
            }
        }
    }
}

pub proof fn lemma_partitions_apart(frame: FrameModel, by: Seq<Seq<char>>, g: int, h: int)
    requires
        0 <= g < partition_rows(frame, by).len(),
        0 <= h < partition_rows(frame, by).len(),
        g != h,
    ensures
        forall|i: int, j: int|
            0 <= i < partition_rows(frame, by)[g].len() && 0 <= j < partition_rows(
                frame,
                by,
            )[h].len() ==> #[trigger] partition_rows(frame, by)[g][i]
                != #[trigger] partition_rows(frame, by)[h][j],
{
    let columns = named_texts(frame, by);
    let n = frame.rows as int;
    let ks = row_keys(columns, n);
    let groups = groups_after(Seq::empty(), ks);
    groups_are_distinct(Seq::empty(), ks);
    lemma_rows_ascend(columns, groups[g], n);
    lemma_rows_ascend(columns, groups[h], n);
    assert(groups[g] != groups[h]) by {
        if g < h {
            assert(groups[g] != groups[h]);
        } else {
            assert(groups[h] != groups[g]);
        }
    }
    let a = partition_rows(frame, by)[g];
    let b = partition_rows(frame, by)[h];
    assert forall|i: int, j: int| 0 <= i < a.len() && 0 <= j < b.len() implies #[trigger] a[i]
        != #[trigger] b[j] by {
        assert(row_key(columns, a[i]) == groups[g]);
        assert(row_key(columns, b[j]) == groups[h]);
    }
}

/// Bytes that the results of window functions are taken to need.
pub open spec fn window_bytes(rows: nat, functions: nat) -> int {
    countable((rows * functions * 8 + rows * 16) as int)
}

/// What the columns of window functions take at least: eight bytes for each
/// row, and something for each column.
pub open spec fn windows_least(columns: Seq<WindowColumn>) -> nat
    decreases columns.len(),
{
    if columns.len() == 0 {
        0
    } else {
        windows_least(columns.drop_last()) + word_least(columns.last().values@.len())
    }
}

fn estimated_bytes(rows: usize, functions: usize) -> (r: usize)
    ensures
        r == window_bytes(rows as nat, functions as nat),
{
    proof {
        let n = rows as int;
        let f = functions as int;
        assert(0 <= n * f <= 0xffff_ffff_ffff_ffff * 0xffff_ffff_ffff_ffff) by (nonlinear_arith)
            requires
                0 <= n <= 0xffff_ffff_ffff_ffff,
                0 <= f <= 0xffff_ffff_ffff_ffff,
        ;
    }
    let cells: u128 = rows as u128 * functions as u128;
    if cells > usize::MAX as u128 {
        return usize::MAX;
    }
    let bytes: u128 = cells * 8 + rows as u128 * 16;
    if bytes > usize::MAX as u128 {
        usize::MAX
    } else {
        bytes as usize
    }
}

/// What window functions come to, before the result is charged: the memory
/// that computing them takes is charged first.
pub open spec fn window_outcome(
    r: Result<WindowOutcome, QueryError>,
    frame: FrameModel,
    functions: Seq<WindowFn>,
    by: Seq<Seq<char>>,
    value_name: Seq<char>,
    start: Option<(int, int)>,
    end: Option<(int, int)>,
) -> bool {
    let bytes = window_bytes(frame.rows, functions.len());
    if exceeds(start, bytes as usize) {
        &&& r matches Err(e)
        &&& is_over_budget(e, start, bytes as usize)
        &&& end == start
    } else {
        &&& end == charged(start, bytes as int)
        &&& windowed(r, frame, functions, by, value_name)
    }
}

/// Apply window functions to a batch.
///
/// The rows are expected in timestamp order. When `partition_by` is non-empty,
/// the rows are partitioned by those columns and each function is computed
/// independently within each partition. Fails if a column is missing or has an
/// unexpected type, or if the memory budget does not allow for the computation
/// or for the result, which holds the arrays of the batch too.
pub fn apply_window(
    frame: &Frame,
    functions: &[WindowFn],
    partition_by: &[&str],
    value_column: &str,
    tracker: &mut Option<MemoryTracker>,
) -> (r: Result<WindowOutcome, QueryError>)
    ensures
        ({
            let by = texts(partition_by@);
            let start = account(*old(tracker));
            let end = account(*final(tracker));
            if functions@.len() == 0 {
                &&& r matches Ok(outcome)
                &&& outcome.columns@.len() == 0
                &&& outcome.partitions@.len() == 0
                &&& end == start
            } else {
                exists|
                    made: Result<WindowOutcome, QueryError>,
                    held: Option<(int, int)>,
                    size: usize,
                |
                    window_outcome(
                        made,
                        frame@,
                        functions@,
                        by,
                        value_column@,
                        start,
                        held,
                    ) && (made matches Ok(outcome) ==> at_least(
                        size,
                        frame.taken_bytes() as nat + windows_least(outcome.columns@),
                    )) && #[trigger] settles(made, held, r, end, size)
            }
        }),
{
    if functions.len() == 0 {
        return Ok(WindowOutcome { columns: Vec::new(), partitions: Vec::new() });
    }
    let made = compute_windows(frame, functions, partition_by, value_column, tracker);
    let ghost held = account(*tracker);
    let ghost outcome = made;
    match made {
        Ok(windows) => {
            let size: usize = if tracker.is_some() {
                frame.bytes().saturating_add(columns_bytes(&windows.columns))
            } else {
                usize::MAX
            };
            let r = charge_result(windows, size, tracker);
            assert(settles(outcome, held, r, account(*tracker), size));
            r
        },
        Err(e) => {
            assert(settles(outcome, held, Err(e), account(*tracker), 0));
            Err(e)
        },
    }
}

/// What the columns of window functions take.
fn columns_bytes(columns: &Vec<WindowColumn>) -> (r: usize)
    ensures
        at_least(r, windows_least(columns@)),
{
    let mut total: usize = 0;
    let mut c: usize = 0;
    assert(columns@.take(0) =~= Seq::empty());
    while c < columns.len()
        invariant
            c <= columns.len(),
            at_least(total, windows_least(columns@.take(c as int))),
        decreases columns.len() - c,
    {
        assert(columns@.take(c + 1).drop_last() =~= columns@.take(c as int));
        let values = &columns[c].values;
        let mut present: Vec<bool> = Vec::new();
        while present.len() < values.len()
            invariant
                present@.len() <= values@.len(),
            decreases values.len() - present.len(),
        {
            let there: bool = match values[present.len()] {
                WindowValue::Null => false,
                _ => true,
            };
            present.push(there);
        }
        total = total.saturating_add(result_bytes(&present));
        c = c + 1;
    }
    assert(columns@.take(c as int) =~= columns@);
    total
}

/// Compute window functions.
fn compute_windows(
    frame: &Frame,
    functions: &[WindowFn],
    partition_by: &[&str],
    value_column: &str,
    tracker: &mut Option<MemoryTracker>,
) -> (r: Result<WindowOutcome, QueryError>)
    requires
        functions@.len() > 0,
    ensures
        window_outcome(
            r,
            frame@,
            functions@,
            texts(partition_by@),
            value_column@,
            account(*old(tracker)),
            account(*final(tracker)),
        ),
{
    let ghost by = texts(partition_by@);
    let n: usize = frame.rows();
    let bytes: usize = estimated_bytes(n, functions.len());
    match tracker {
        Some(t) => match t.try_allocate(bytes) {
            Ok(_) => {},
            Err(e) => {
                return Err(e);
            },
        },
        None => {},
    }
    let value = match frame.column(value_column) {
        Some(data) => data,
        None => {
            return Err(
                QueryError::FieldNotFound {
                    measurement: "".to_owned(),
                    field: value_column.to_owned(),
                },
            );
        },
    };
    if !value.is_numeric() {
        return Err(
            invalid(joined_text("column '", value_column, "' has an unexpected type").as_str()),
        );
    }
    let partitions = match build_partitions(frame, partition_by) {
        Ok(lists) => lists,
        Err(e) => {
            return Err(e);
        },
    };
    let ghost lists = partition_rows(frame@, by);
    let timed: bool = frame.times().is_some();
    let mut columns: Vec<WindowColumn> = Vec::new();
    let ghost start = account(*old(tracker));
    let mut k: usize = 0;
    while k < functions.len()
        invariant
            k <= functions.len(),
            functions@.len() > 0,
            start == account(*old(tracker)),
            bytes == window_bytes(frame@.rows, functions@.len()),
            account(*tracker) == charged(start, bytes as int),
            start matches Some((used, limit)) ==> used + bytes <= limit,
            n == frame@.rows,
            by == texts(partition_by@),
            lists == partition_rows(frame@, by),
            row_lists(partitions@) == lists,
            frame@.column(value_column@) == Some(value@),
            value@.is_column(frame@.rows),
            value@.is_numeric(),
            timed == (frame@.times is Some),
            first_untexted(frame@, by, 0) is None,
            n > 0 && !timed ==> first_range(functions@, 0) == first_range(functions@, k as int),
            columns@.len() == k,
            forall|j: int|
                0 <= j < k ==> shows_window(
                    #[trigger] &columns@[j],
                    functions@[j],
                    frame@,
                    value_column@,
                    lists,
                ),
        decreases functions.len() - k,
    {
        let func = &functions[k];
        let ghost before = columns@;
        if !timed && is_range_fn(func) {
            if n > 0 {
                return Err(no_timestamps(func));
            }
            let name = joined_text(value_column, "_", window_fn_name(func).as_str());
            let column = WindowColumn { name, values: Vec::new() };
            proof {
                assert forall|g: int, i: int|
                    #![trigger lists[g][i]]
                    0 <= g < lists.len() && 0 <= i < lists[g].len() implies false by {
                    lemma_partition_bounds(frame@, by, g);
                    assert(0 <= lists[g][i] < frame@.rows);
                }
                assert(shows_window(&column, *func, frame@, value_column@, lists));
            }
            columns.push(column);
        } else {
            let column = compute_window_fn(
                func,
                frame,
                value,
                value_column,
                &partitions,
                Ghost(by),
            );
            columns.push(column);
        }
        proof {
            assert forall|j: int| 0 <= j < k + 1 implies shows_window(
                #[trigger] &columns@[j],
                functions@[j],
                frame@,
                value_column@,
                lists,
            ) by {
                if j < k {
                    assert(columns@[j] == before[j]);
                }
            }
        }
        k = k + 1;
    }
    Ok(WindowOutcome { columns, partitions })
}

/// The outcome of window functions for which there is memory.
pub open spec fn windowed(
    r: Result<WindowOutcome, QueryError>,
    frame: FrameModel,
    functions: Seq<WindowFn>,
    by: Seq<Seq<char>>,
    value_name: Seq<char>,
) -> bool {
    if frame.column(value_name) is None {
        &&& r matches Err(QueryError::FieldNotFound { measurement, field })
        &&& measurement@ == ""@
        &&& field@ == value_name
    } else if !frame.column(value_name).unwrap().is_numeric() {
        &&& r matches Err(e)
        &&& e.is_validation("column '"@ + value_name + "' has an unexpected type"@)
    } else if let Some(i) = first_untexted(frame, by, 0) {
        &&& r matches Err(e)
        &&& e.is_validation("partition-by column '"@ + by[i] + "' not found or not string"@)
    } else if frame.rows > 0 && frame.times is None && first_range(functions, 0) is Some {
        &&& r matches Err(e)
        &&& timestamps_required(functions[first_range(functions, 0).unwrap()], e)
    } else {
        &&& r matches Ok(outcome)
        &&& row_lists(outcome.partitions@) == partition_rows(frame, by)
        &&& outcome.columns@.len() == functions.len()
        &&& forall|k: int|
            0 <= k < functions.len() ==> shows_window(
                #[trigger] &outcome.columns@[k],
                functions[k],
                frame,
                value_name,
                partition_rows(frame, by),
            )
    }
}

/// The largest timestamp among the first `n` rows; a null reads as zero.
pub open spec fn largest_time(times: Seq<Option<i64>>, n: int) -> i64
    decreases n,
{
    if n <= 1 {
        time_at(times, 0)
    } else if time_at(times, n - 1) > largest_time(times, n - 1) {
        time_at(times, n - 1)
    } else {
        largest_time(times, n - 1)
    }
}

/// The largest timestamp, if a function reads timestamps and they look like
/// seconds rather than nanoseconds: the largest lies from a thousand million to
/// below a hundred thousand million.
pub fn suspected_seconds(frame: &Frame, functions: &[WindowFn]) -> (r: Option<i64>)
    ensures
        r == (if (exists|k: int|
            0 <= k < functions@.len() && (#[trigger] functions@[k]).reads_time()) && frame@.times is Some
            && frame@.rows > 0 && 1_000_000_000 <= largest_time(
            frame@.times.unwrap(),
            frame@.rows as int,
        ) < 100_000_000_000 {
            Some(largest_time(frame@.times.unwrap(), frame@.rows as int))
        } else {
            None
        }),
{
    let mut needed: bool = false;
    let mut k: usize = 0;
    while k < functions.len()
        invariant
            k <= functions.len(),
            needed == exists|j: int| 0 <= j < k && (#[trigger] functions@[j]).reads_time(),
        decreases functions.len() - k,
    {
        let reads: bool = needs_timestamps(&functions[k]);
        assert(reads == functions@[k as int].reads_time());
        needed = needed || reads;
        k = k + 1;
    }
    match frame.times() {
        None => None,
        Some(times) => {
            if !needed || times.len() == 0 {
                return None;
            }
            let mut best: i64 = match times[0] {
                Some(t) => t,
                None => 0,
            };
            let mut i: usize = 1;
            while i < times.len()
                invariant
                    1 <= i <= times.len(),
                    best == largest_time(times@, i as int),
                decreases times.len() - i,
            {
                let t: i64 = match times[i] {
                    Some(t) => t,
                    None => 0,
                };
                if t > best {
                    best = t;
                }
                i = i + 1;
            }
            if 1_000_000_000 <= best && best < 100_000_000_000 {
                Some(best)
            } else {
                None
            }
        },
    }
}

} // verus!
