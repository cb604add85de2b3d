//! What window functions are for: what each of them tells of the rows of its
//! partition.
use vstd::prelude::*;

#[allow(unused_imports)]
use crate::query::aggregate::named_texts;
#[allow(unused_imports)]
use crate::query::float::{is_nan, less};
#[allow(unused_imports)]
use crate::query::frame::{DataModel, FrameModel};
#[allow(unused_imports)]
use crate::query::grouping::{
    groups_after, groups_are_distinct, new_groups_come_from_keys, GroupKey,
};
#[allow(unused_imports)]
use crate::query::groups::{row_key, row_keys, rows_with_key};
#[allow(unused_imports)]
use crate::query::window::{
    lemma_holds_row, lemma_partition_bounds, lemma_rows_ascend, lemma_rows_below, order_data,
    partition_rows, partitions_hold_every_row, row_lists, rows_model, shows_window, windowed,
    WindowOutcome,
};
#[allow(unused_imports)]
use crate::query::window_fn::WindowFn;
#[allow(unused_imports)]
use crate::query::window_values::{
    filled, lemma_filled, lemma_range_start, lemma_ranks, range_frames_hold_the_range, range_start,
    window_value, PartitionModel, WindowValue,
};

verus! {

// ---------------------------------------------------------------------------
// Within a partition
// ---------------------------------------------------------------------------

/// Rows are numbered from one, without a gap.
pub proof fn row_numbers_count_from_one(p: PartitionModel, i: int)
    requires
        0 <= i < p.values.len() <= u64::MAX,
    ensures
        window_value(WindowFn::RowNumber, p, i) matches WindowValue::Number(n) && n == i + 1,
{
}

/// Row `j` is the first of the rows that are tied with row `i`: all from there
/// on have the order value of row `i`, and the row before has another.
pub open spec fn starts_the_tie(orders: Seq<Option<u64>>, j: int, i: int) -> bool {
    &&& 0 <= j <= i
    &&& forall|k: int| j <= k <= i ==> #[trigger] orders[k] == orders[i]
    &&& j > 0 ==> orders[j - 1] != orders[i]
}

/// A rank is one more than the number of rows before the first of the tied
/// rows.
pub proof fn a_rank_counts_the_rows_before_the_tie(
    p: PartitionModel,
    order_column: Option<String>,
    i: int,
)
    requires
        0 <= i < p.orders.len() <= u64::MAX,
    ensures
        exists|j: int| #[trigger]
            starts_the_tie(p.orders, j, i) && window_value(WindowFn::Rank { order_column }, p, i)
                == WindowValue::Number((j + 1) as u64),
    decreases i,
{
    let func = WindowFn::Rank { order_column };
    if i == 0 {
        assert(starts_the_tie(p.orders, 0, i));
    } else if p.orders[i] == p.orders[i - 1] {
        a_rank_counts_the_rows_before_the_tie(p, order_column, i - 1);
        let j = choose|j: int| #[trigger]
            starts_the_tie(p.orders, j, i - 1) && window_value(func, p, i - 1)
                == WindowValue::Number((j + 1) as u64);
        assert(starts_the_tie(p.orders, j, i));
        lemma_ranks(p.orders, i);
    } else {
        assert(starts_the_tie(p.orders, i, i));
    }
}

/// Dense ranks start at one, stay while the order value stays, and go up by one
/// where it changes.
pub proof fn dense_ranks_count_the_changes(
    p: PartitionModel,
    order_column: Option<String>,
    i: int,
)
    requires
        0 <= i < p.orders.len() < u64::MAX,
    ensures
        window_value(WindowFn::DenseRank { order_column }, p, 0) == WindowValue::Number(1),
        i > 0 ==> (window_value(WindowFn::DenseRank { order_column }, p, i - 1) matches WindowValue::Number(
            before,
        ) && (window_value(WindowFn::DenseRank { order_column }, p, i) matches WindowValue::Number(
            here,
        ) && here == before + if p.orders[i] == p.orders[i - 1] {
            0int
        } else {
            1int
        })),
{
    lemma_ranks(p.orders, i);
    if i > 0 {
        lemma_ranks(p.orders, i - 1);
    }
}

/// Looking ahead gives the value so many rows ahead; where there is none, be it
/// null or beyond the end, the default.
pub proof fn lead_looks_ahead(p: PartitionModel, offset: usize, default: u64, i: int)
    requires
        0 <= i < p.values.len(),
    ensures
        ({
            let given = window_value(WindowFn::Lead { offset, default }, p, i);
            &&& i + offset < p.values.len() ==> (p.values[i + offset] matches Some(v) ==> given
                == WindowValue::Value(v))
            &&& (i + offset >= p.values.len() || p.values[i + offset] is None) ==> given
                == WindowValue::Value(default)
        }),
{
}

/// Looking behind gives the value so many rows behind; where there is none, be
/// it null or before the start, the default.
pub proof fn lag_looks_behind(p: PartitionModel, offset: usize, default: u64, i: int)
    requires
        0 <= i < p.values.len(),
    ensures
        ({
            let given = window_value(WindowFn::Lag { offset, default }, p, i);
            &&& i >= offset ==> (p.values[i - offset] matches Some(v) ==> given
                == WindowValue::Value(v))
            &&& (i < offset || p.values[i - offset] is None) ==> given == WindowValue::Value(
                default,
            )
        }),
{
}

/// Looking behind undoes looking ahead: what a row sees so many rows ahead, it
/// is seen by from there so many rows behind.
pub proof fn lag_mirrors_lead(p: PartitionModel, offset: usize, default: u64, i: int)
    requires
        0 <= i,
        i + 2 * offset < p.values.len(),
    ensures
        window_value(WindowFn::Lead { offset, default }, p, i) == window_value(
            WindowFn::Lag { offset, default },
            p,
            i + 2 * offset,
        ),
{
}

/// A delta is the difference to the row just before; the first row has none,
/// nor has a row of which either value is null.
pub proof fn a_delta_is_between_neighbours(p: PartitionModel, i: int)
    requires
        0 <= i < p.values.len(),
    ensures
        ({
            let given = window_value(WindowFn::Delta, p, i);
            &&& i == 0 ==> given is Null
            &&& i > 0 && (p.values[i] is None || p.values[i - 1] is None) ==> given is Null
            &&& i > 0 && p.values[i] is Some && p.values[i - 1] is Some ==> given == (
            WindowValue::Difference {
                current: p.values[i].unwrap(),
                previous: p.values[i - 1].unwrap(),
            })
        }),
{
}

/// A rate is the difference to the row just before over the time that passed
/// since. There is none in the first row, where a value is null, without
/// timestamps, and where no time passed.
pub proof fn a_rate_is_over_the_time_between(p: PartitionModel, i: int)
    requires
        0 <= i < p.values.len(),
        p.is_partition(),
    ensures
        ({
            let given = window_value(WindowFn::Rate, p, i);
            &&& i == 0 || p.times is None ==> given is Null
            &&& i > 0 && (p.values[i] is None || p.values[i - 1] is None) ==> given is Null
            &&& i > 0 ==> (p.times matches Some(times) ==> {
                &&& times[i] <= times[i - 1] ==> given is Null
                &&& times[i] > times[i - 1] && p.values[i] is Some && p.values[i - 1] is Some ==> (
                given matches WindowValue::PerSecond { current, previous, nanos } && current
                    == p.values[i].unwrap() && previous == p.values[i - 1].unwrap() && nanos
                    == times[i] - times[i - 1])
            })
        }),
{
}

/// Every row has the rate between the last two rows of the partition.
pub proof fn an_instant_rate_is_that_of_the_last_two_rows(p: PartitionModel, i: int)
    requires
        0 <= i < p.values.len(),
        p.is_partition(),
    ensures
        ({
            let given = window_value(WindowFn::IRate, p, i);
            let n = p.values.len();
            &&& n < 2 || p.times is None ==> given is Null
            &&& n >= 2 && (p.values[n - 1] is None || p.values[n - 2] is None) ==> given is Null
            &&& n >= 2 ==> (p.times matches Some(times) ==> {
                &&& times[n - 1] <= times[n - 2] ==> given is Null
                &&& times[n - 1] > times[n - 2] && p.values[n - 1] is Some && p.values[n
                    - 2] is Some ==> (given matches WindowValue::PerSecond {
                    current,
                    previous,
                    nanos,
                } && current == p.values[n - 1].unwrap() && previous == p.values[n - 2].unwrap()
                    && nanos == times[n - 1] - times[n - 2])
            })
            &&& n >= 2 ==> given == window_value(WindowFn::Rate, p, n - 1)
        }),
{
}

/// Rows with the same values and other spacing have other rates.
pub proof fn spacing_changes_the_rate(
    p: PartitionModel,
    q: PartitionModel,
    i: int,
)
    requires
        p.is_partition(),
        q.is_partition(),
        p.values == q.values,
        0 < i < p.values.len(),
        p.values[i] is Some,
        p.values[i - 1] is Some,
        p.times is Some,
        q.times is Some,
        p.times.unwrap()[i] > p.times.unwrap()[i - 1],
        q.times.unwrap()[i] > q.times.unwrap()[i - 1],
    ensures
        window_value(WindowFn::Rate, p, i) == window_value(WindowFn::Rate, q, i)
            <==> p.times.unwrap()[i] - p.times.unwrap()[i - 1] == q.times.unwrap()[i]
            - q.times.unwrap()[i - 1],
{
}

/// The number of values that are not null.
pub open spec fn values_among(values: Seq<Option<u64>>, from: int, to: int) -> nat {
    values.subrange(from, to).filter(|v: Option<u64>| v is Some).len()
}

proof fn lemma_values_among(values: Seq<Option<u64>>, from: int, to: int)
    requires
        0 <= from <= to <= values.len(),
    ensures
        values_among(values, from, to) == filled(values, from, to),
    decreases to - from,
{
    reveal(Seq::filter);
    if from < to {
        lemma_values_among(values, from, to - 1);
        assert(values.subrange(from, to).drop_last() =~= values.subrange(from, to - 1));
    }
}

/// A moving average is over the row and the rows before it, `window_size` in
/// all, divided by the number of values among them. There is none before so
/// many rows were seen, nor where all of them are null.
pub proof fn a_moving_average_is_over_the_last_rows(p: PartitionModel, window_size: usize, i: int)
    requires
        0 <= i < p.values.len() < usize::MAX,
        window_size > 0,
    ensures
        ({
            let given = window_value(WindowFn::MovingAverage { window_size }, p, i);
            let first = i + 1 - window_size;
            &&& first < 0 ==> given is Null
            &&& first >= 0 ==> {
                let count = values_among(p.values, first, i + 1);
                &&& count == 0 ==> given is Null
                &&& count > 0 ==> (given matches WindowValue::Mean { from, to, count: n } && from
                    == first && to == i + 1 && n == count)
            }
        }),
{
    let first = i + 1 - window_size;
    if first >= 0 {
        lemma_values_among(p.values, first, i + 1);
        lemma_filled(p.values, first, i + 1);
    }
}

/// A cumulative sum is over the row and all rows before it.
pub proof fn a_cumulative_sum_is_over_all_rows_so_far(p: PartitionModel, i: int)
    requires
        0 <= i < p.values.len() < usize::MAX,
    ensures
        ({
            let given = window_value(WindowFn::CumulativeSum, p, i);
            &&& p.values[i] is None ==> given is Null
            &&& p.values[i] is Some ==> (given matches WindowValue::Sum { from, to } && from == 0
                && to == i + 1)
        }),
{
}

/// A counter grows by the difference to the row just before, unless that is
/// greater: the counter was then reset, and the total stays. A null in either
/// row gives none.
pub proof fn a_counter_grows_unless_it_was_reset(p: PartitionModel, i: int)
    requires
        0 <= i < p.values.len(),
    ensures
        ({
            let given = window_value(WindowFn::Increase, p, i);
            &&& i == 0 ==> given is NoGrowth
            &&& i > 0 && (p.values[i] is None || p.values[i - 1] is None) ==> given is Null
            &&& i > 0 ==> (p.values[i] matches Some(current) ==> (p.values[i - 1] matches Some(
                previous,
            ) ==> {
                &&& less(current, previous) ==> given is NoGrowth
                &&& is_nan(current) || is_nan(previous) ==> given is NoGrowth
                &&& !is_nan(current) && !is_nan(previous) && !less(current, previous) ==> given == (
                WindowValue::Growth { current, previous })
            }))
        }),
{
}

/// The rows from `first` to `i` are those up to `i` whose timestamps lie at most
/// `range` before that of `i`.
pub open spec fn is_range_frame(times: Seq<i64>, range: int, first: int, i: int) -> bool {
    &&& 0 <= first <= i
    &&& forall|j: int| 0 <= j <= i ==> (first <= j <==> times[i] - #[trigger] times[j] <= range)
}

/// A range function is over the rows up to the row whose timestamps lie at most
/// the range before its own, where timestamps ascend. It is null where all of
/// these are null.
pub proof fn range_functions_are_over_the_range(p: PartitionModel, range_ns: i64, i: int)
    requires
        p.is_partition(),
        range_ns >= 0,
        0 <= i < p.values.len() < usize::MAX,
        p.values.len() < u64::MAX,
        p.times is Some,
        forall|a: int, b: int|
            0 <= a <= b < p.values.len() ==> #[trigger] p.times.unwrap()[a]
                <= #[trigger] p.times.unwrap()[b],
    ensures
        exists|first: int| #[trigger]
            is_range_frame(p.times.unwrap(), range_ns as int, first, i) && shows_range(
                p,
                range_ns,
                first,
                i,
            ),
{
    let times = p.times.unwrap();
    let first = range_start(times, range_ns, i);
    lemma_range_start(times, range_ns, i);
    lemma_values_among(p.values, first, i + 1);
    lemma_filled(p.values, first, i + 1);
    assert forall|j: int| 0 <= j <= i implies (first <= j <==> times[i] - #[trigger] times[j]
        <= range_ns) by {
        range_frames_hold_the_range(times, range_ns, i, j);
    }
    assert(is_range_frame(times, range_ns as int, first, i));
}

/// The range functions give the mean, the sum and the number of the values from
/// `first` to `i`.
pub open spec fn shows_range(p: PartitionModel, range_ns: i64, first: int, i: int) -> bool {
    let count = values_among(p.values, first, i + 1);
    let mean = window_value(WindowFn::RangeMovingAverage { range_ns }, p, i);
    let sum = window_value(WindowFn::RangeSum { range_ns }, p, i);
    let number = window_value(WindowFn::RangeCount { range_ns }, p, i);
    if count == 0 {
        mean is Null && sum is Null && number is Null
    } else {
        &&& mean == (WindowValue::Mean {
            from: first as usize,
            to: (i + 1) as usize,
            count: count as usize,
        })
        &&& sum == (WindowValue::Sum { from: first as usize, to: (i + 1) as usize })
        &&& number == WindowValue::Number(count as u64)
    }
}

// ---------------------------------------------------------------------------
// From the rows of a frame to its window columns
// ---------------------------------------------------------------------------

/// Two rows have the same texts in the columns that rows are partitioned by.
pub open spec fn share_texts(frame: FrameModel, by: Seq<Seq<char>>, a: int, b: int) -> bool {
    forall|c: int|
        0 <= c < by.len() ==> frame.texts(#[trigger] by[c]).unwrap()[a] == frame.texts(
            by[c],
        ).unwrap()[b]
}

/// A partition is made of all rows that share their partition-by texts, in
/// ascending order: two rows are in one partition just if they share them, and
/// every row is in one.
pub proof fn a_partition_is_the_rows_that_share_their_texts(
    outcome: WindowOutcome,
    frame: FrameModel,
    functions: Seq<WindowFn>,
    by: Seq<Seq<char>>,
    value_name: Seq<char>,
)
    requires
        windowed(Ok(outcome), frame, functions, by, value_name),
    ensures
        forall|g: int, i: int, h: int, j: int|
            #![trigger outcome.partitions@[g]@[i], outcome.partitions@[h]@[j]]
            0 <= g < outcome.partitions@.len() && 0 <= i < outcome.partitions@[g]@.len() && 0 <= h
                < outcome.partitions@.len() && 0 <= j < outcome.partitions@[h]@.len() ==> {
                &&& outcome.partitions@[g]@[i] < frame.rows
                &&& g == h <==> share_texts(
                    frame,
                    by,
                    outcome.partitions@[g]@[i] as int,
                    outcome.partitions@[h]@[j] as int,
                )
                &&& g == h && i < j ==> outcome.partitions@[g]@[i] < outcome.partitions@[h]@[j]
            },
        forall|row: int|
            0 <= row < frame.rows ==> #[trigger] is_in_a_partition(outcome.partitions@, row),
{
    let lists = partition_rows(frame, by);
    let parts = outcome.partitions@;
    let columns = named_texts(frame, by);
    let n = frame.rows as int;
    assert(row_lists(parts) == lists);
    assert forall|g: int, i: int, h: int, j: int|
        #![trigger parts[g]@[i], parts[h]@[j]]
        0 <= g < parts.len() && 0 <= i < parts[g]@.len() && 0 <= h < parts.len() && 0 <= j
            < parts[h]@.len() implies {
        &&& parts[g]@[i] < frame.rows
        &&& g == h <==> share_texts(frame, by, parts[g]@[i] as int, parts[h]@[j] as int)
        &&& g == h && i < j ==> parts[g]@[i] < parts[h]@[j]
    } by {
        let a = parts[g]@[i] as int;
        let b = parts[h]@[j] as int;
        assert(row_lists(parts)[g] == parts[g]@.map_values(|row: usize| row as int));
        assert(row_lists(parts)[h] == parts[h]@.map_values(|row: usize| row as int));
        assert(lists[g][i] == a);
        assert(lists[h][j] == b);
        lemma_partition_bounds(frame, by, g);
        lemma_partition_bounds(frame, by, h);
        if by.len() > 0 {
            let ks = row_keys(columns, n);
            let groups = groups_after(Seq::empty(), ks);
            groups_are_distinct(Seq::empty(), ks);
            lemma_rows_ascend(columns, groups[g], n);
            lemma_rows_ascend(columns, groups[h], n);
            assert(row_key(columns, a) == groups[g]);
            assert(row_key(columns, b) == groups[h]);
            lemma_texts_there(frame, by);
            if share_texts(frame, by, a, b) {
                assert forall|c: int| 0 <= c < by.len() implies row_key(columns, a)[c] == row_key(
                    columns,
                    b,
                )[c] by {
                    assert(frame.texts(by[c]).unwrap()[a] == frame.texts(by[c]).unwrap()[b]);
                }
                assert(row_key(columns, a) =~= row_key(columns, b));
                if g < h {
                    assert(groups[g] != groups[h]);
                }
                if h < g {
                    assert(groups[h] != groups[g]);
                }
            }
            if g == h {
                assert forall|c: int| 0 <= c < by.len() implies frame.texts(
                    #[trigger] by[c],
                ).unwrap()[a] == frame.texts(by[c]).unwrap()[b] by {
                    assert(row_key(columns, a)[c] == row_key(columns, b)[c]);
                }
            }
        }
    }
    assert forall|row: int| 0 <= row < frame.rows implies #[trigger] is_in_a_partition(
        parts,
        row,
    ) by {
        partitions_hold_every_row(frame, by, row);
        let (g, i) = choose|g: int, i: int|
            #![trigger lists[g][i]]
            0 <= g < lists.len() && 0 <= i < lists[g].len() && lists[g][i] == row;
        assert(row_lists(parts)[g] == parts[g]@.map_values(|row: usize| row as int));
        assert(parts[g]@[i] == row);
    }
}

/// The row is in one of the partitions.
pub open spec fn is_in_a_partition(partitions: Seq<Vec<usize>>, row: int) -> bool {
    exists|g: int, i: int|
        #![trigger partitions[g]@[i]]
        0 <= g < partitions.len() && 0 <= i < partitions[g]@.len() && partitions[g]@[i] == row
}

proof fn lemma_texts_there(frame: FrameModel, by: Seq<Seq<char>>)
    requires
        crate::query::aggregate::first_untexted(frame, by, 0) is None,
    ensures
        forall|c: int| 0 <= c < by.len() ==> frame.texts(#[trigger] by[c]) is Some,
{
    assert forall|c: int| 0 <= c < by.len() implies frame.texts(#[trigger] by[c]) is Some by {
        lemma_texts_from(frame, by, 0, c);
    }
}

proof fn lemma_texts_from(frame: FrameModel, by: Seq<Seq<char>>, from: int, c: int)
    requires
        0 <= from <= c < by.len(),
        crate::query::aggregate::first_untexted(frame, by, from) is None,
    ensures
        frame.texts(by[c]) is Some,
    decreases c - from,
{
    if from < c {
        lemma_texts_from(frame, by, from + 1, c);
    }
}

/// A window column's rate in a row is over that row and the row before it in
/// its partition: the difference of their values over the time between them.
pub proof fn a_rate_column_is_over_neighbouring_rows(
    outcome: WindowOutcome,
    frame: FrameModel,
    functions: Seq<WindowFn>,
    by: Seq<Seq<char>>,
    value_name: Seq<char>,
    cells: Seq<Option<u64>>,
    times: Seq<Option<i64>>,
    k: int,
    g: int,
    i: int,
)
    requires
        windowed(Ok(outcome), frame, functions, by, value_name),
        frame.is_frame(),
        frame.column(value_name) == Some(DataModel::Floats(cells)),
        frame.times == Some(times),
        0 <= k < functions.len(),
        functions[k] is Rate,
        0 <= g < outcome.partitions@.len(),
        0 < i < outcome.partitions@[g]@.len(),
        ({
            let a = outcome.partitions@[g]@[i - 1] as int;
            let b = outcome.partitions@[g]@[i] as int;
            &&& cells[a] is Some && cells[b] is Some
            &&& times[a] is Some && times[b] is Some
            &&& times[a].unwrap() < times[b].unwrap()
        }),
    ensures
        ({
            let a = outcome.partitions@[g]@[i - 1] as int;
            let b = outcome.partitions@[g]@[i] as int;
            &&& outcome.columns@[k].values@[b] matches WindowValue::PerSecond {
                current,
                previous,
                nanos,
            }
            &&& current == cells[b].unwrap()
            &&& previous == cells[a].unwrap()
            &&& nanos == times[b].unwrap() - times[a].unwrap()
        }),
{
    let lists = partition_rows(frame, by);
    let parts = outcome.partitions@;
    assert(row_lists(parts)[g] == parts[g]@.map_values(|row: usize| row as int));
    assert(lists[g][i] == parts[g]@[i]);
    assert(lists[g][i - 1] == parts[g]@[i - 1]);
    assert(shows_window(&outcome.columns@[k], functions[k], frame, value_name, lists));
}

/// Some rows as a window function reads them: the values of the value column,
/// what the rows are ranked by, and the timestamps, with zero for a missing one.
pub open spec fn read_rows(
    frame: FrameModel,
    value: DataModel,
    order: DataModel,
    rows: Seq<usize>,
) -> PartitionModel {
    PartitionModel {
        values: Seq::new(rows.len(), |j: int| value.float_at(rows[j] as int)),
        orders: Seq::new(rows.len(), |j: int| order.float_at(rows[j] as int)),
        times: match frame.times {
            None => None,
            Some(times) => Some(
                Seq::new(
                    rows.len(),
                    |j: int|
                        match times[rows[j] as int] {
                            Some(t) => t,
                            None => 0,
                        },
                ),
            ),
        },
    }
}

/// A window column holds, in each row of a partition, what its function gives at
/// the place of that row among the rows of the partition, and is named after the
/// value column and the function. Ranks go by the column that the function names,
/// where the frame has it, and by the value column else.
pub proof fn a_window_column_is_over_its_partitions(
    outcome: WindowOutcome,
    frame: FrameModel,
    functions: Seq<WindowFn>,
    by: Seq<Seq<char>>,
    value_name: Seq<char>,
    k: int,
    g: int,
    i: int,
)
    requires
        windowed(Ok(outcome), frame, functions, by, value_name),
        0 <= k < functions.len(),
        0 <= g < outcome.partitions@.len(),
        0 <= i < outcome.partitions@[g]@.len(),
    ensures
        outcome.columns@.len() == functions.len(),
        outcome.columns@[k].values@.len() == frame.rows,
        outcome.columns@[k].name@ == value_name + "_"@ + functions[k].name(),
        frame.column(value_name) is Some,
        ({
            let value = frame.column(value_name).unwrap();
            let named = match functions[k] {
                WindowFn::Rank { order_column: Some(name) } => frame.column(name@),
                WindowFn::DenseRank { order_column: Some(name) } => frame.column(name@),
                _ => None,
            };
            let order = match named {
                Some(data) => data,
                None => value,
            };
            let rows = outcome.partitions@[g]@;
            outcome.columns@[k].values@[rows[i] as int] == window_value(
                functions[k],
                read_rows(frame, value, order, rows),
                i,
            )
        }),
{
    let lists = partition_rows(frame, by);
    let parts = outcome.partitions@;
    let rows = parts[g]@;
    let value = frame.column(value_name).unwrap();
    let order = order_data(functions[k], frame, value);
    assert(row_lists(parts)[g] == rows.map_values(|row: usize| row as int));
    assert(lists[g] =~= rows.map_values(|row: usize| row as int));
    assert(lists[g][i] == rows[i]);
    assert(shows_window(&outcome.columns@[k], functions[k], frame, value_name, lists));
    let p = rows_model(frame, value, order, lists[g]);
    let q = read_rows(frame, value, order, rows);
    assert(p.values =~= q.values);
    assert(p.orders =~= q.orders);
    if let Some(times) = frame.times {
        assert(p.times.unwrap() =~= q.times.unwrap());
    }
    assert(p == q);
}

/// A window column's delta in a row is the difference to the row before it in
/// its partition, and a column that looks behind gives the value from there.
pub proof fn window_columns_read_the_rows_of_their_partition(
    outcome: WindowOutcome,
    frame: FrameModel,
    functions: Seq<WindowFn>,
    by: Seq<Seq<char>>,
    value_name: Seq<char>,
    cells: Seq<Option<u64>>,
    k: int,
    g: int,
    i: int,
)
    requires
        windowed(Ok(outcome), frame, functions, by, value_name),
        frame.column(value_name) == Some(DataModel::Floats(cells)),
        0 <= k < functions.len(),
        0 <= g < outcome.partitions@.len(),
        0 <= i < outcome.partitions@[g]@.len(),
    ensures
        outcome.columns@.len() == functions.len(),
        outcome.columns@[k].values@.len() == frame.rows,
        outcome.columns@[k].name@ == value_name + "_"@ + functions[k].name(),
        ({
            let rows = outcome.partitions@[g]@;
            let given = outcome.columns@[k].values@[rows[i] as int];
            &&& functions[k] is Delta && i > 0 && cells[rows[i] as int] is Some && cells[rows[i
                - 1] as int] is Some ==> given == (WindowValue::Difference {
                current: cells[rows[i] as int].unwrap(),
                previous: cells[rows[i - 1] as int].unwrap(),
            })
            &&& functions[k] matches WindowFn::Lag { offset, default } ==> given
                == WindowValue::Value(
                if i >= offset && cells[rows[i - offset] as int] is Some {
                    cells[rows[i - offset] as int].unwrap()
                } else {
                    default
                },
            )
            &&& functions[k] matches WindowFn::Lead { offset, default } ==> given
                == WindowValue::Value(
                if i + offset < rows.len() && cells[rows[i + offset] as int] is Some {
                    cells[rows[i + offset] as int].unwrap()
                } else {
                    default
                },
            )
        }),
{
    a_window_column_is_over_its_partitions(outcome, frame, functions, by, value_name, k, g, i);
}

/// A rank column goes by the column that the function names, or by the value
/// column where it names none: two rows in a row of a partition have the same
/// rank just if that column holds the same in both.
pub proof fn a_rank_column_goes_by_its_order_column(
    outcome: WindowOutcome,
    frame: FrameModel,
    functions: Seq<WindowFn>,
    by: Seq<Seq<char>>,
    value_name: Seq<char>,
    order_name: Option<String>,
    cells: Seq<Option<u64>>,
    k: int,
    g: int,
    i: int,
)
    requires
        windowed(Ok(outcome), frame, functions, by, value_name),
        frame.rows < u64::MAX,
        frame.column(
            match order_name {
                Some(name) => name@,
                None => value_name,
            },
        ) == Some(DataModel::Floats(cells)),
        0 <= k < functions.len(),
        functions[k] == (WindowFn::Rank { order_column: order_name }) || functions[k] == (
        WindowFn::DenseRank { order_column: order_name }),
        0 <= g < outcome.partitions@.len(),
        0 < i < outcome.partitions@[g]@.len(),
    ensures
        ({
            let a = outcome.partitions@[g]@[i - 1] as int;
            let b = outcome.partitions@[g]@[i] as int;
            outcome.columns@[k].values@[a] == outcome.columns@[k].values@[b] <==> cells[a]
                == cells[b]
        }),
{
    let lists = partition_rows(frame, by);
    let parts = outcome.partitions@;
    let value = frame.column(value_name).unwrap();
    let order = DataModel::Floats(cells);
    assert(row_lists(parts)[g] == parts[g]@.map_values(|row: usize| row as int));
    assert(lists[g][i] == parts[g]@[i]);
    assert(lists[g][i - 1] == parts[g]@[i - 1]);
    assert(shows_window(&outcome.columns@[k], functions[k], frame, value_name, lists));
    let p = rows_model(frame, value, order, lists[g]);
    lemma_ranks(p.orders, i);
    lemma_ranks(p.orders, i - 1);
    lemma_list_fits(frame, by, g);
    assert(p.orders[i] == cells[parts[g]@[i] as int]);
    assert(p.orders[i - 1] == cells[parts[g]@[i - 1] as int]);
}

proof fn lemma_list_fits(frame: FrameModel, by: Seq<Seq<char>>, g: int)
    requires
        0 <= g < partition_rows(frame, by).len(),
    ensures
        partition_rows(frame, by)[g].len() <= frame.rows,
{
    if by.len() > 0 {
        let columns = named_texts(frame, by);
        let n = frame.rows as int;
        let groups = groups_after(Seq::empty(), row_keys(columns, n));
        lemma_rows_below(columns, groups[g], n);
    }
}

/// A function that reads no timestamps gives the same whatever they are, and rates
/// and functions over ranges do read them.
pub proof fn only_these_functions_read_timestamps(
    func: WindowFn,
    p: PartitionModel,
    times: Option<Seq<i64>>,
    i: int,
)
    ensures
        !func.reads_time() ==> window_value(func, p, i) == window_value(
            func,
            PartitionModel { times, ..p },
            i,
        ),
        func is Rate || func is IRate || func is RangeMovingAverage || func is RangeSum
            || func is RangeCount ==> func.reads_time(),
{
}

/// Partitions come in the order of their first rows, and none is empty unless
/// all rows are one partition and there are no rows.
pub proof fn partitions_come_in_the_order_of_their_first_rows(
    outcome: WindowOutcome,
    frame: FrameModel,
    functions: Seq<WindowFn>,
    by: Seq<Seq<char>>,
    value_name: Seq<char>,
    g: int,
    h: int,
)
    requires
        windowed(Ok(outcome), frame, functions, by, value_name),
        0 <= g < h < outcome.partitions@.len(),
    ensures
        outcome.partitions@[g]@.len() > 0,
        outcome.partitions@[h]@.len() > 0,
        outcome.partitions@[g]@[0] < outcome.partitions@[h]@[0],
{
    let lists = partition_rows(frame, by);
    let parts = outcome.partitions@;
    let columns = named_texts(frame, by);
    let n = frame.rows as int;
    let ks = row_keys(columns, n);
    let groups = groups_after(Seq::empty(), ks);
    assert(row_lists(parts) == lists);
    assert(row_lists(parts)[g] == parts[g]@.map_values(|row: usize| row as int));
    assert(row_lists(parts)[h] == parts[h]@.map_values(|row: usize| row as int));
    let a = lemma_seen_in_order(ks, g, h);
    assert(ks[a] == row_key(columns, a));
    lemma_holds_row(columns, groups[g], n, a);
    lemma_rows_ascend(columns, groups[g], n);
    lemma_rows_ascend(columns, groups[h], n);
    lemma_rows_below(columns, groups[h], n);
    let first = rows_with_key(columns, groups[g], n);
    let second = rows_with_key(columns, groups[h], n);
    let i = choose|i: int| 0 <= i < first.len() && first[i] == a;
    assert(i > 0 ==> first[0] < first[i]);
    new_groups_come_from_keys(Seq::empty(), ks, h);
    let b = choose|b: int| 0 <= b < ks.len() && ks[b] == groups[h];
    assert(ks[b] == row_key(columns, b));
    lemma_holds_row(columns, groups[h], n, b);
    assert(second.len() > 0);
    let c = second[0];
    assert(row_key(columns, c) == groups[h]);
    assert(ks[c] == groups[h]);
    assert(a < c);
    assert(lists[g][0] == parts[g]@[0]);
    assert(lists[h][0] == parts[h]@[0]);
}

proof fn lemma_seen_in_order(ks: Seq<GroupKey>, g: int, h: int) -> (a: int)
    requires
        0 <= g < h < groups_after(Seq::empty(), ks).len(),
    ensures
        0 <= a < ks.len(),
        ks[a] == groups_after(Seq::empty(), ks)[g],
        forall|b: int|
            0 <= b < ks.len() && #[trigger] ks[b] == groups_after(Seq::empty(), ks)[h] ==> a < b,
    decreases ks.len(),
{
    let none = Seq::<GroupKey>::empty();
    let rest = ks.drop_last();
    let before = groups_after(none, rest);
    let all = groups_after(none, ks);
    let n = ks.len() - 1;
    groups_are_distinct(none, rest);
    groups_are_distinct(none, ks);
    if h < before.len() {
        let a = lemma_seen_in_order(rest, g, h);
        assert forall|b: int| 0 <= b < ks.len() && #[trigger] ks[b] == all[h] implies a < b by {
            if b < n {
                assert(rest[b] == ks[b]);
            }
        }
        a
    } else {
        new_groups_come_from_keys(none, rest, g);
        let a = choose|a: int| 0 <= a < rest.len() && rest[a] == before[g];
        assert(ks[a] == all[g]);
        assert forall|b: int| 0 <= b < ks.len() && #[trigger] ks[b] == all[h] implies a < b by {
            if b < n {
                assert(rest[b] == ks[b]);
                assert(before.contains(rest[b]));
            }
        }
        a
    }
}

} // verus!
