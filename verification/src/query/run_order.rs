//! Sorting the rows of a batch into a run of keys.
use vstd::prelude::*;

use std::sync::Arc;

use crate::query::error::QueryError;
#[allow(unused_imports)]
use crate::query::merge::{
    is_merge, is_newer, is_newest, is_place, is_run, has_key, key_at, key_before, time_before,
};
use crate::query::merge::MergeKey;
#[allow(unused_imports)]
use crate::query::tags::numbers_of;

verus! {

/// The most rows whose numbers fit in the indices of a sort.
pub const MAX_ROWS: u64 = 0x1_0000_0000;

/// Row `i` comes before row `j`, column by column; a missing timestamp comes
/// after all others.
pub open spec fn columns_before(
    times: Seq<Option<i64>>,
    hashes: Seq<u64>,
    series: Seq<u64>,
    rows: Seq<u64>,
    i: int,
    j: int,
) -> bool {
    time_before(times[i], times[j]) || (times[i] == times[j] && (hashes[i] < hashes[j] || (hashes[i]
        == hashes[j] && (series[i] < series[j] || (series[i] == series[j] && rows[i] < rows[j])))))
}

/// The sort succeeded, and its indices are those of all rows, none before one
/// that it comes after.
pub open spec fn sorts_columns(
    sorted: Result<Vec<u32>, String>,
    times: Seq<Option<i64>>,
    hashes: Seq<u64>,
    series: Seq<u64>,
    rows: Seq<u64>,
) -> bool {
    sorted matches Ok(order) && {
        &&& order@.len() == times.len()
        &&& forall|p: int| 0 <= p < order@.len() ==> (#[trigger] order@[p]) < times.len()
        &&& forall|row: u32|
            row < times.len() ==> #[trigger] order@.contains(row)
        &&& forall|p: int, q: int|
            0 <= p < q < order@.len() ==> !columns_before(
                times,
                hashes,
                series,
                rows,
                (#[trigger] order@[q]) as int,
                (#[trigger] order@[p]) as int,
            )
    }
}

/// `arrow::compute::lexsort_to_indices` of four columns of equal length, all
/// ascending with nulls last: succeeds, and gives the numbers of all rows in
/// lexicographic order.
///
/// The indices are 32 bits wide, so no more rows than they can number are
/// sorted.
#[verifier::external_body]
fn lexsort(times: &Vec<Option<i64>>, hashes: &Vec<u64>, series: &Vec<u64>, rows: &Vec<u64>) -> (r:
    Result<Vec<u32>, String>)
    requires
        times@.len() == hashes@.len() == series@.len() == rows@.len(),
        times@.len() <= MAX_ROWS,
    ensures
        sorts_columns(r, times@, hashes@, series@, rows@),
{
    let options = Some(arrow::compute::SortOptions { descending: false, nulls_first: false });
    let columns: [arrow::array::ArrayRef; 4] = [
        Arc::new(times.iter().copied().collect::<arrow::array::Int64Array>()),
        Arc::new(arrow::array::UInt64Array::from(hashes.clone())),
        Arc::new(arrow::array::UInt64Array::from(series.clone())),
        Arc::new(arrow::array::UInt64Array::from(rows.clone())),
    ];
    let columns = columns.map(|values| arrow::compute::SortColumn { values, options });
    arrow::compute::lexsort_to_indices(&columns, None)
        .map(|order| order.values().to_vec())
        .map_err(|e| e.to_string())
}

/// The order lists every row once, by ascending key, and rows with equal keys
/// by ascending number.
pub open spec fn is_key_order(order: Seq<int>, keys: Seq<MergeKey>) -> bool {
    &&& order.len() == keys.len()
    &&& forall|p: int| 0 <= p < order.len() ==> 0 <= (#[trigger] order[p]) < keys.len()
    &&& forall|row: int| 0 <= row < keys.len() ==> #[trigger] order.contains(row)
    &&& forall|p: int, q: int|
        0 <= p < q < order.len() ==> key_before(
            keys[#[trigger] order[p]],
            keys[#[trigger] order[q]],
        ) || (keys[order[p]] == keys[order[q]] && order[p] < order[q])
}

/// The rows of a batch in the order of their keys, and rows with equal keys as
/// they were.
pub fn sort_keys(keys: &Vec<MergeKey>) -> (r: Result<Vec<usize>, QueryError>)
    requires
        keys@.len() <= MAX_ROWS,
    ensures
        r matches Ok(order) && is_key_order(numbers_of(order@), keys@),
{
    let mut times: Vec<Option<i64>> = Vec::new();
    let mut hashes: Vec<u64> = Vec::new();
    let mut series: Vec<u64> = Vec::new();
    let mut rows: Vec<u64> = Vec::new();
    let mut i: usize = 0;
    while i < keys.len()
        invariant
            i <= keys.len(),
            times@.len() == i,
            hashes@.len() == i,
            series@.len() == i,
            rows@.len() == i,
            forall|j: int| 0 <= j < i ==> (#[trigger] times@[j]) == keys@[j].time,
            forall|j: int| 0 <= j < i ==> (#[trigger] hashes@[j]) == keys@[j].hash,
            forall|j: int| 0 <= j < i ==> (#[trigger] series@[j]) == keys@[j].series,
            forall|j: int| 0 <= j < i ==> (#[trigger] rows@[j]) == j,
        decreases keys.len() - i,
    {
        let key = keys[i];
        times.push(key.time);
        hashes.push(key.hash);
        series.push(key.series);
        rows.push(i as u64);
        i = i + 1;
    }
    let sorted = match lexsort(&times, &hashes, &series, &rows) {
        Ok(sorted) => sorted,
        Err(message) => {
            return Err(QueryError::Arrow(message));
        },
    };
    let mut order: Vec<usize> = Vec::new();
    let mut k: usize = 0;
    while k < sorted.len()
        invariant
            k <= sorted.len(),
            order@.len() == k,
            forall|j: int| 0 <= j < k ==> (#[trigger] order@[j]) == sorted@[j],
        decreases sorted.len() - k,
    {
        order.push(sorted[k] as usize);
        k = k + 1;
    }
    proof {
        let numbers = numbers_of(order@);
        assert forall|p: int| 0 <= p < numbers.len() implies 0 <= (#[trigger] numbers[p])
            < keys@.len() by {
            assert(order@[p] == sorted@[p]);
        }
        assert forall|row: int| 0 <= row < keys@.len() implies #[trigger] numbers.contains(row) by {
            assert(sorted@.contains(row as u32));
            let p = choose|p: int| 0 <= p < sorted@.len() && sorted@[p] == row as u32;
            assert(order@[p] == sorted@[p]);
            assert(numbers[p] == row);
        }
        lemma_no_repeats(numbers, keys@.len());
        assert forall|p: int, q: int| 0 <= p < q < numbers.len() implies key_before(
            keys@[#[trigger] numbers[p]],
            keys@[#[trigger] numbers[q]],
        ) || (keys@[numbers[p]] == keys@[numbers[q]] && numbers[p] < numbers[q]) by {
            assert(order@[p] == sorted@[p]);
            assert(order@[q] == sorted@[q]);
            let a = sorted@[p] as int;
            let b = sorted@[q] as int;
            assert(!columns_before(times@, hashes@, series@, rows@, b, a));
            assert(numbers[p] != numbers[q]);
            assert(a != b);
            assert(rows@[a] == a && rows@[b] == b);
            assert(times@[a] == keys@[a].time && times@[b] == keys@[b].time);
            assert(hashes@[a] == keys@[a].hash && hashes@[b] == keys@[b].hash);
            assert(series@[a] == keys@[a].series && series@[b] == keys@[b].series);
        }
    }
    Ok(order)
}

/// A list that holds every number below its length holds none twice.
proof fn lemma_no_repeats(list: Seq<int>, n: nat)
    requires
        list.len() == n,
        forall|p: int| 0 <= p < list.len() ==> 0 <= (#[trigger] list[p]) < n,
        forall|x: int| 0 <= x < n ==> #[trigger] list.contains(x),
    ensures
        forall|p: int, q: int| 0 <= p < q < list.len() ==> #[trigger] list[p] != #[trigger] list[q],
{
    let all = vstd::set_lib::set_int_range(0, n as int);
    vstd::set_lib::lemma_int_range(0, n as int);
    assert(list.to_set() =~= all) by {
        assert forall|x: int| list.to_set().contains(x) == all.contains(x) by {
            if all.contains(x) {
                assert(list.contains(x));
            }
        }
    }
    list.lemma_no_dup_set_cardinality();
}

/// The keys in this order.
pub open spec fn reordered(keys: Seq<MergeKey>, order: Seq<int>) -> Seq<MergeKey> {
    order.map_values(|row: int| keys[row])
}

/// Keys in their order make up a run.
pub proof fn lemma_is_run(keys: Seq<MergeKey>, order: Seq<int>)
    requires
        is_key_order(order, keys),
    ensures
        is_run(reordered(keys, order)),
{
    let run = reordered(keys, order);
    assert forall|p: int, q: int| 0 <= p < q < run.len() implies !key_before(
        #[trigger] run[q],
        #[trigger] run[p],
    ) by {
        assert(key_before(keys[order[p]], keys[order[q]]) || keys[order[p]] == keys[order[q]]);
    }
}

/// Places in runs, as rows of the batches that the runs were sorted from.
pub open spec fn rows_of(orders: Seq<Seq<int>>, places: Seq<(int, int)>) -> Seq<(int, int)> {
    places.map_values(|at: (int, int)| (at.0, orders[at.0][at.1]))
}

/// What a merge keeps of the sorted runs is what it keeps of the unsorted ones.
pub proof fn sorting_does_not_change_the_merge(
    keys: Seq<Seq<MergeKey>>,
    orders: Seq<Seq<int>>,
    runs: Seq<Seq<MergeKey>>,
    places: Seq<(int, int)>,
)
    requires
        orders.len() == keys.len(),
        runs.len() == keys.len(),
        forall|c: int|
            0 <= c < keys.len() ==> is_key_order(orders[c], #[trigger] keys[c]) && runs[c]
                == reordered(keys[c], orders[c]),
        is_merge(runs, places),
    ensures
        is_merge(keys, rows_of(orders, places)),
{
    let rows = rows_of(orders, places);
    assert forall|k: int| 0 <= k < rows.len() implies is_place(keys, #[trigger] rows[k]) && key_at(
        keys,
        rows[k],
    ) == key_at(runs, places[k]) by {
        lemma_row_of(keys, orders, runs, places[k]);
    }
    assert forall|k: int| 0 <= k < rows.len() implies is_newest(keys, #[trigger] rows[k]) by {
        let at = places[k];
        assert(is_place(keys, rows[k]));
        lemma_row_of(keys, orders, runs, at);
        assert forall|other: (int, int)| #[trigger]
            is_place(keys, other) && key_at(keys, other) == key_at(keys, rows[k]) implies !is_newer(
            other,
            rows[k],
        ) by {
            assert(is_key_order(orders[other.0], keys[other.0]));
            assert(orders[other.0].contains(other.1));
            let p = choose|p: int| 0 <= p < orders[other.0].len() && orders[other.0][p] == other.1;
            let there = (other.0, p);
            lemma_row_of(keys, orders, runs, there);
            assert(is_newest(runs, at));
            assert(!is_newer(there, at));
            if other.0 == at.0 && p < at.1 {
                assert(is_key_order(orders[at.0], keys[at.0]));
                assert(orders[at.0][p] < orders[at.0][at.1]);
            }
        }
    }
    assert forall|i: int, j: int| 0 <= i < j < rows.len() implies key_before(
        key_at(keys, #[trigger] rows[i]),
        key_at(keys, #[trigger] rows[j]),
    ) by {
        assert(key_at(keys, rows[i]) == key_at(runs, places[i]));
        assert(key_at(keys, rows[j]) == key_at(runs, places[j]));
    }
    assert forall|at: (int, int)| #[trigger] is_place(keys, at) implies has_key(
        keys,
        rows,
        key_at(keys, at),
    ) by {
        assert(is_key_order(orders[at.0], keys[at.0]));
        assert(orders[at.0].contains(at.1));
        let p = choose|p: int| 0 <= p < orders[at.0].len() && orders[at.0][p] == at.1;
        lemma_row_of(keys, orders, runs, (at.0, p));
        assert(has_key(runs, places, key_at(runs, (at.0, p))));
        let k = choose|k: int|
            0 <= k < places.len() && key_at(runs, #[trigger] places[k]) == key_at(runs, (at.0, p));
        assert(key_at(keys, rows[k]) == key_at(runs, places[k]));
    }
}

proof fn lemma_row_of(
    keys: Seq<Seq<MergeKey>>,
    orders: Seq<Seq<int>>,
    runs: Seq<Seq<MergeKey>>,
    at: (int, int),
)
    requires
        orders.len() == keys.len(),
        runs.len() == keys.len(),
        forall|c: int|
            0 <= c < keys.len() ==> is_key_order(orders[c], #[trigger] keys[c]) && runs[c]
                == reordered(keys[c], orders[c]),
        0 <= at.0 < keys.len(),
        0 <= at.1 < orders[at.0].len() || is_place(runs, at),
    ensures
        is_place(runs, at),
        is_place(keys, (at.0, orders[at.0][at.1])),
        key_at(keys, (at.0, orders[at.0][at.1])) == key_at(runs, at),
{
    assert(is_key_order(orders[at.0], keys[at.0]));
}

} // verus!
