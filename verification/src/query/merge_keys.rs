//! The merge keys of the rows of batches that share a schema.
use vstd::prelude::*;
use vstd::string::*;

use crate::query::batch::Batch;
#[allow(unused_imports)]
use crate::query::batch::BatchModel;
use crate::query::filter::read_integers;
#[allow(unused_imports)]
use crate::query::filter::{integers, time_at};
#[allow(unused_imports)]
use crate::query::frame::optional_texts;
use crate::query::grouping::GroupIndex;
#[allow(unused_imports)]
use crate::query::grouping::{distinct, groups_after, groups_are_distinct, GroupKey};
use crate::query::memory::MemoryTracker;
use crate::query::merge::MergeKey;
#[allow(unused_imports)]
use crate::query::merge::runs_of;
use crate::query::series::{hash_canonical, time_column_name};
#[allow(unused_imports)]
use crate::query::series::{series_hash, time_column};
use crate::query::error::QueryError;
use crate::query::tags::{compute_series_canonical, sort_by_name};
#[allow(unused_imports)]
use crate::query::tags::{by_name, numbers_of, row_series};
#[allow(unused_imports)]
use crate::query::union::models_of;

verus! {

broadcast use vstd::string::group_string_axioms;

/// The series of a row, as a key of one part.
pub open spec fn series_key(
    batch: BatchModel,
    measurement: Seq<char>,
    tags: Seq<int>,
    row: int,
) -> GroupKey {
    seq![Some(row_series(batch, measurement, tags, row))]
}

/// The series of the rows of a batch.
pub open spec fn batch_series(
    batch: BatchModel,
    measurement: Seq<char>,
    tags: Seq<int>,
) -> Seq<GroupKey> {
    Seq::new(batch.rows, |row: int| series_key(batch, measurement, tags, row))
}

/// The series of the rows of all batches, in their order.
pub open spec fn all_series(
    batches: Seq<BatchModel>,
    measurement: Seq<char>,
    tags: Seq<int>,
) -> Seq<GroupKey>
    decreases batches.len(),
{
    if batches.len() == 0 {
        Seq::empty()
    } else {
        all_series(batches.drop_last(), measurement, tags) + batch_series(
            batches.last(),
            measurement,
            tags,
        )
    }
}

/// The series that occur, in the order in which they are first seen.
pub open spec fn series_seen(
    batches: Seq<BatchModel>,
    measurement: Seq<char>,
    tags: Seq<int>,
) -> Seq<GroupKey> {
    groups_after(Seq::empty(), all_series(batches, measurement, tags))
}

/// The number of a key among distinct keys.
pub open spec fn number_in(seen: Seq<GroupKey>, key: GroupKey) -> int {
    choose|i: int| 0 <= i < seen.len() && #[trigger] seen[i] == key
}

/// The merge key of a row: its timestamp, and the hash and the number of its
/// series.
pub open spec fn merge_key(
    batch: BatchModel,
    measurement: Seq<char>,
    tags: Seq<int>,
    seen: Seq<GroupKey>,
    row: int,
) -> MergeKey {
    MergeKey {
        time: time_at(batch, row),
        hash: series_hash(row_series(batch, measurement, tags, row)),
        series: number_in(seen, series_key(batch, measurement, tags, row)) as u64,
    }
}

/// The merge keys of all rows of all batches.
pub open spec fn merge_keys(
    batches: Seq<BatchModel>,
    measurement: Seq<char>,
    tags: Seq<int>,
) -> Seq<Seq<MergeKey>> {
    let seen = series_seen(batches, measurement, tags);
    batches.map_values(
        |batch: BatchModel|
            Seq::new(batch.rows, |row: int| merge_key(batch, measurement, tags, seen, row)),
    )
}

/// The merge key has the row's timestamp, the hash of its series, and the
/// number that the series has among those seen.
spec fn is_numbered(
    key: MergeKey,
    batch: BatchModel,
    measurement: Seq<char>,
    tags: Seq<int>,
    seen: Seq<GroupKey>,
    row: int,
) -> bool {
    &&& key.time == time_at(batch, row)
    &&& key.hash == series_hash(row_series(batch, measurement, tags, row))
    &&& key.series < seen.len()
    &&& seen[key.series as int] == series_key(batch, measurement, tags, row)
}

proof fn lemma_groups_after_both(gs: Seq<GroupKey>, a: Seq<GroupKey>, b: Seq<GroupKey>)
    ensures
        groups_after(gs, a + b) == groups_after(groups_after(gs, a), b),
    decreases b.len(),
{
    if b.len() > 0 {
        assert((a + b).drop_last() =~= a + b.drop_last());
        assert((a + b).last() == b.last());
        lemma_groups_after_both(gs, a, b.drop_last());
    } else {
        assert(a + b =~= a);
    }
}

/// The merge keys of the rows of one batch.
fn number_batch(
    batch: &Batch,
    measurement: &str,
    tags: &Vec<usize>,
    index: &mut GroupIndex,
) -> (r: Result<Vec<MergeKey>, QueryError>)
    requires
        forall|i: int| 0 <= i < tags@.len() ==> (#[trigger] tags@[i]) < batch@.columns.len(),
        distinct(old(index)@),
    ensures
        r matches Ok(keys) && keys@.len() == batch@.rows,
        forall|row: int|
            0 <= row < batch@.rows ==> is_numbered(
                #[trigger] r->Ok_0@[row],
                batch@,
                measurement@,
                numbers_of(tags@),
                final(index)@,
                row,
            ),
        final(index)@ == groups_after(
            old(index)@,
            batch_series(batch@, measurement@, numbers_of(tags@)),
        ),
{
    let ghost cols = numbers_of(tags@);
    let ghost before = index@;
    let ghost series = batch_series(batch@, measurement@, cols);
    let count: usize = batch.num_rows();
    let columns = sort_by_name(batch, tags);
    let times: Option<Vec<Option<i64>>> = match batch.index_of(time_column_name()) {
        Some(c) => Some(read_integers(batch.column(c))),
        None => None,
    };
    let mut none: Option<MemoryTracker> = None;
    let mut keys: Vec<MergeKey> = Vec::new();
    let mut row: usize = 0;
    assert(series.take(0) =~= Seq::empty());
    while row < count
        invariant
            row <= count,
            count == batch@.rows,
            cols == numbers_of(tags@),
            series == batch_series(batch@, measurement@, cols),
            numbers_of(columns@) == by_name(batch@, cols),
            forall|i: int|
                0 <= i < columns@.len() ==> (#[trigger] columns@[i]) < batch@.columns.len(),
            times is None ==> batch@.index_of(time_column()) is None,
            times matches Some(list) ==> (batch@.index_of(time_column()) matches Some(c) && list@
                == integers(batch@.columns[c]) && list@.len() == count),
            none is None,
            keys@.len() == row,
            distinct(before),
            index@ == groups_after(before, series.take(row as int)),
            forall|i: int|
                0 <= i < row ==> is_numbered(
                    #[trigger] keys@[i],
                    batch@,
                    measurement@,
                    cols,
                    index@,
                    i,
                ),
        decreases count - row,
    {
        let canonical = compute_series_canonical(measurement, &columns, batch, row);
        let time: Option<i64> = match &times {
            Some(list) => list[row],
            None => None,
        };
        let hash: u64 = hash_canonical(canonical.as_str());
        let ghost text = canonical@;
        let mut key: Vec<Option<String>> = Vec::new();
        key.push(Some(canonical));
        let ghost now = index@;
        let ghost k = series_key(batch@, measurement@, cols, row as int);
        assert(optional_texts(key@) =~= k);
        let number: usize = match index.place(key, false, &mut none, 0) {
            Ok(number) => number,
            Err(e) => {
                return Err(e);
            },
        };
        keys.push(MergeKey { time, hash, series: number as u64 });
        proof {
            assert(series.take(row + 1).drop_last() =~= series.take(row as int));
            assert(series.take(row + 1).last() == k);
            assert(seq![k].drop_last() =~= Seq::<GroupKey>::empty());
            assert(groups_after(now, Seq::<GroupKey>::empty()) == now);
            assert(groups_after(now, seq![k]) == if now.contains(k) {
                now
            } else {
                now.push(k)
            });
            groups_are_distinct(before, series.take(row as int));
            groups_are_distinct(now, seq![k]);
            assert(index@ == groups_after(before, series.take(row + 1)));
            assert forall|i: int| 0 <= i < row + 1 implies is_numbered(
                #[trigger] keys@[i],
                batch@,
                measurement@,
                cols,
                index@,
                i,
            ) by {
                if i < row {
                    let n = keys@[i].series as int;
                    assert(is_numbered(keys@[i], batch@, measurement@, cols, now, i));
                    assert(index@.take(now.len() as int)[n] == now[n]);
                }
            }
        }
        row = row + 1;
    }
    assert(series.take(row as int) =~= series);
    Ok(keys)
}

/// The merge keys of all rows of batches that share a schema, given its tag
/// columns.
pub fn number_batches(batches: &Vec<Batch>, measurement: &str, tags: &Vec<usize>) -> (r: Result<
    Vec<Vec<MergeKey>>,
    QueryError,
>)
    requires
        forall|b: int, i: int|
            #![trigger batches@[b], tags@[i]]
            0 <= b < batches@.len() && 0 <= i < tags@.len() ==> tags@[i]
                < batches@[b]@.columns.len(),
    ensures
        r matches Ok(keys) && runs_of(keys@) == merge_keys(
            models_of(batches@),
            measurement@,
            numbers_of(tags@),
        ),
{
    let ghost models = models_of(batches@);
    let ghost cols = numbers_of(tags@);
    let mut index = GroupIndex::new();
    let mut all: Vec<Vec<MergeKey>> = Vec::new();
    let mut b: usize = 0;
    while b < batches.len()
        invariant
            b <= batches.len(),
            models == models_of(batches@),
            cols == numbers_of(tags@),
            forall|b: int, i: int|
                #![trigger batches@[b], tags@[i]]
                0 <= b < batches@.len() && 0 <= i < tags@.len() ==> tags@[i]
                    < batches@[b]@.columns.len(),
            index@ == series_seen(models.take(b as int), measurement@, cols),
            distinct(index@),
            all@.len() == b,
            forall|d: int| 0 <= d < b ==> (#[trigger] all@[d])@.len() == models[d].rows,
            forall|d: int, row: int|
                0 <= d < b && 0 <= row < models[d].rows ==> is_numbered(
                    #[trigger] all@[d]@[row],
                    models[d],
                    measurement@,
                    cols,
                    index@,
                    row,
                ),
        decreases batches.len() - b,
    {
        let batch = &batches[b];
        assert(models[b as int] == batch@);
        let ghost now = index@;
        let keys = match number_batch(batch, measurement, tags, &mut index) {
            Ok(keys) => keys,
            Err(e) => {
                return Err(e);
            },
        };
        let ghost old_all = all@;
        all.push(keys);
        proof {
            let series = batch_series(batch@, measurement@, cols);
            assert(models.take(b + 1).drop_last() =~= models.take(b as int));
            assert(models.take(b + 1).last() == batch@);
            lemma_groups_after_both(
                Seq::empty(),
                all_series(models.take(b as int), measurement@, cols),
                series,
            );
            groups_are_distinct(now, series);
            assert forall|d: int, row: int|
                0 <= d < b + 1 && 0 <= row < models[d].rows implies is_numbered(
                #[trigger] all@[d]@[row],
                models[d],
                measurement@,
                cols,
                index@,
                row,
            ) by {
                if d < b {
                    let n = all@[d]@[row].series as int;
                    assert(is_numbered(
                        old_all[d]@[row],
                        models[d],
                        measurement@,
                        cols,
                        now,
                        row,
                    ));
                    assert(index@.take(now.len() as int)[n] == now[n]);
                }
            }
        }
        b = b + 1;
    }
    proof {
        assert(models.take(b as int) =~= models);
        let seen = series_seen(models, measurement@, cols);
        let want = merge_keys(models, measurement@, cols);
        assert forall|d: int| 0 <= d < models.len() implies #[trigger] all@[d]@ == want[d] by {
            assert forall|row: int| 0 <= row < models[d].rows implies all@[d]@[row]
                == want[d][row] by {
                let key = all@[d]@[row];
                assert(is_numbered(key, models[d], measurement@, cols, seen, row));
                let k = series_key(models[d], measurement@, cols, row);
                lemma_number_in(seen, k, key.series as int);
            }
            assert(all@[d]@ =~= want[d]);
        }
        assert(runs_of(all@) =~= want);
    }
    Ok(all)
}

proof fn lemma_number_in(seen: Seq<GroupKey>, key: GroupKey, i: int)
    requires
        distinct(seen),
        0 <= i < seen.len(),
        seen[i] == key,
    ensures
        number_in(seen, key) == i,
{
    let j = number_in(seen, key);
    assert(0 <= j < seen.len() && seen[j] == key);
    if i < j {
        assert(seen[i] != seen[j]);
    }
    if j < i {
        assert(seen[j] != seen[i]);
    }
}

/// Number of rows of all batches.
pub open spec fn total_rows(batches: Seq<BatchModel>) -> nat
    decreases batches.len(),
{
    if batches.len() == 0 {
        0
    } else {
        total_rows(batches.drop_last()) + batches.last().rows
    }
}

proof fn lemma_series_count(batches: Seq<BatchModel>, measurement: Seq<char>, tags: Seq<int>)
    ensures
        all_series(batches, measurement, tags).len() == total_rows(batches),
    decreases batches.len(),
{
    if batches.len() > 0 {
        lemma_series_count(batches.drop_last(), measurement, tags);
    }
}

proof fn lemma_seen_count(gs: Seq<GroupKey>, ks: Seq<GroupKey>)
    ensures
        groups_after(gs, ks).len() <= gs.len() + ks.len(),
    decreases ks.len(),
{
    if ks.len() > 0 {
        lemma_seen_count(gs, ks.drop_last());
    }
}

proof fn lemma_series_occurs(
    batches: Seq<BatchModel>,
    measurement: Seq<char>,
    tags: Seq<int>,
    b: int,
    row: int,
)
    requires
        0 <= b < batches.len(),
        0 <= row < batches[b].rows,
    ensures
        all_series(batches, measurement, tags).contains(
            series_key(batches[b], measurement, tags, row),
        ),
    decreases batches.len(),
{
    let before = all_series(batches.drop_last(), measurement, tags);
    let last = batch_series(batches.last(), measurement, tags);
    let key = series_key(batches[b], measurement, tags, row);
    if b == batches.len() - 1 {
        assert(last[row] == key);
        assert((before + last)[before.len() + row] == key);
    } else {
        lemma_series_occurs(batches.drop_last(), measurement, tags, b, row);
        let k = choose|k: int| 0 <= k < before.len() && before[k] == key;
        assert((before + last)[k] == key);
    }
}

/// Two rows have equal merge keys just if they have the same timestamp and
/// belong to the same series: a collision of hashes makes no duplicates.
pub proof fn duplicates_share_time_and_series(
    batches: Seq<BatchModel>,
    measurement: Seq<char>,
    tags: Seq<int>,
    a: (int, int),
    b: (int, int),
)
    requires
        0 <= a.0 < batches.len() && 0 <= a.1 < batches[a.0].rows,
        0 <= b.0 < batches.len() && 0 <= b.1 < batches[b.0].rows,
        total_rows(batches) <= usize::MAX,
    ensures
        (merge_keys(batches, measurement, tags)[a.0][a.1] == merge_keys(
            batches,
            measurement,
            tags,
        )[b.0][b.1]) == (time_at(batches[a.0], a.1) == time_at(batches[b.0], b.1) && row_series(
            batches[a.0],
            measurement,
            tags,
            a.1,
        ) == row_series(batches[b.0], measurement, tags, b.1)),
{
    let all = all_series(batches, measurement, tags);
    let seen = series_seen(batches, measurement, tags);
    lemma_series_count(batches, measurement, tags);
    lemma_seen_count(Seq::empty(), all);
    groups_are_distinct(Seq::empty(), all);
    let ka = series_key(batches[a.0], measurement, tags, a.1);
    let kb = series_key(batches[b.0], measurement, tags, b.1);
    lemma_series_occurs(batches, measurement, tags, a.0, a.1);
    lemma_series_occurs(batches, measurement, tags, b.0, b.1);
    let i = choose|i: int| 0 <= i < all.len() && all[i] == ka;
    let j = choose|j: int| 0 <= j < all.len() && all[j] == kb;
    assert(seen.contains(all[i]));
    assert(seen.contains(all[j]));
    let m = choose|m: int| 0 <= m < seen.len() && seen[m] == ka;
    let n = choose|n: int| 0 <= n < seen.len() && seen[n] == kb;
    lemma_number_in(seen, ka, m);
    lemma_number_in(seen, kb, n);
    let sa = row_series(batches[a.0], measurement, tags, a.1);
    let sb = row_series(batches[b.0], measurement, tags, b.1);
    assert((ka == kb) == (sa == sb)) by {
        assert(ka[0] == Some(sa));
        assert(kb[0] == Some(sb));
    }
    if m == n {
        assert(ka == kb);
    }
}

} // verus!
