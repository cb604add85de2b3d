//! How rows, points and series relate to each other.
use vstd::prelude::*;

#[allow(unused_imports)]
use crate::query::batch::BatchModel;
#[allow(unused_imports)]
use crate::query::convert::{batch_of, tag_cell, tag_column, tag_names, tags_have_columns, PointModel};
#[allow(unused_imports)]
use crate::query::filter::{
    found_columns, row_is_deleted, row_matches, rows_are_found, rows_where, surviving,
    TombstoneModel,
};
#[allow(unused_imports)]
use crate::query::series::{canonical, time_column, SeriesKeyModel};
#[allow(unused_imports)]
use crate::query::tags::{by_name, inserted, name_before, row_series, row_tags, text_at};
#[allow(unused_imports)]
use crate::sorted_map::{ascending, enumeration, map_of, Key};
#[allow(unused_imports)]
use crate::text::{lemma_text_before_irreflexive, lemma_text_before_transitive, text_before};

verus! {

/// Filtering keeps just the rows that lie in the time range and have all the
/// tags.
pub proof fn just_the_matching_rows_stay(
    batch: BatchModel,
    start: i64,
    end: i64,
    tags: Seq<(Seq<char>, Seq<char>)>,
    row: int,
)
    requires
        0 <= row < batch.rows,
    ensures
        rows_where(
            |row: int| row_matches(batch, row, start, end, tags),
            batch.rows,
        ).contains(row) == row_matches(batch, row, start, end, tags),
{
    let meets = |row: int| row_matches(batch, row, start, end, tags);
    rows_are_found(meets, batch.rows);
    let found = rows_where(meets, batch.rows);
    if found.contains(row) {
        let p = choose|p: int| 0 <= p < found.len() && found[p] == row;
        assert(meets(found[p]));
    }
    if meets(row) {
        assert(found.contains(row));
    }
}

/// Deleting removes just the rows of deleted series.
pub proof fn just_the_deleted_rows_go(
    batch: BatchModel,
    measurement: Seq<char>,
    tombstones: Seq<TombstoneModel>,
    names: Option<Seq<Seq<char>>>,
    row: int,
)
    requires
        0 <= row < batch.rows,
    ensures
        surviving(batch, measurement, tombstones, names).contains(row) == !row_is_deleted(
            batch,
            measurement,
            tombstones,
            names,
            row,
        ),
{
    let meets = |row: int| !row_is_deleted(batch, measurement, tombstones, names, row);
    rows_are_found(meets, batch.rows);
    let found = rows_where(meets, batch.rows);
    if found.contains(row) {
        let p = choose|p: int| 0 <= p < found.len() && found[p] == row;
        assert(meets(found[p]));
    }
    if meets(row) {
        assert(found.contains(row));
    }
}

/// The tags of some points, by name.
pub open spec fn point_tags(points: Seq<PointModel>) -> Seq<(Seq<char>, u8)> {
    enumeration::<String, u8>(tag_names(points))
}

/// The names of the tags of some points.
pub open spec fn point_tag_names(points: Seq<PointModel>) -> Seq<Seq<char>> {
    point_tags(points).map_values(|tag: (Seq<char>, u8)| tag.0)
}

/// The tag columns of the batch of some points: they stand behind the time
/// column.
pub open spec fn tag_positions(count: nat) -> Seq<int> {
    Seq::new(count, |i: int| i + 1)
}

proof fn lemma_tag_column(points: Seq<PointModel>, i: int)
    requires
        points.len() > 0,
        0 <= i < point_tags(points).len(),
    ensures
        1 + i < batch_of(points).columns.len(),
        batch_of(points).columns[1 + i] == tag_column(points, point_tags(points)[i].0),
{
}

proof fn lemma_positions_are_by_name(points: Seq<PointModel>, n: nat)
    requires
        points.len() > 0,
        n <= point_tags(points).len(),
        ascending::<String, u8>(point_tags(points)),
    ensures
        by_name(batch_of(points), tag_positions(n)) == tag_positions(n),
    decreases n,
{
    let batch = batch_of(points);
    let tags = point_tags(points);
    if n > 0 {
        let m = (n - 1) as nat;
        lemma_positions_are_by_name(points, m);
        assert(tag_positions(n).drop_last() =~= tag_positions(m));
        assert(tag_positions(n).last() == n);
        lemma_tag_column(points, n - 1);
        if m > 0 {
            lemma_tag_column(points, m - 1);
            assert(text_before(tags[m - 1].0, tags[n - 1].0));
            if name_before(batch, n as int, m as int) {
                lemma_text_before_transitive(tags[m - 1].0, tags[n - 1].0, tags[m - 1].0);
                lemma_text_before_irreflexive(tags[m - 1].0);
            }
            assert(tag_positions(m).last() == m);
        }
        assert(inserted(batch, tag_positions(m), n as int) == tag_positions(m).push(n as int));
        assert(tag_positions(m).push(n as int) =~= tag_positions(n));
    } else {
        assert(tag_positions(0) =~= Seq::empty());
        assert(by_name(batch, tag_positions(0)) =~= tag_positions(0));
    }
}

/// One of the tag columns from the `n`-th on has this name.
spec fn is_ahead(points: Seq<PointModel>, n: int, name: Seq<char>) -> bool {
    exists|j: int| n <= j < point_tags(points).len() && (#[trigger] point_tags(points)[j]).0 == name
}

/// The tag of a point is what stands under its name.
proof fn lemma_point_tag(key: SeriesKeyModel, k: int)
    requires
        ascending::<String, Seq<char>>(key.tags),
        0 <= k < key.tags.len(),
    ensures
        key.tag(key.tags[k].0) == Some(key.tags[k].1),
{
    let name = key.tags[k].0;
    assert forall|i: int| 0 <= i < key.tags.len() && (#[trigger] key.tags[i]).0 == name implies i
        == k by {
        if i < k {
            assert(text_before(key.tags[i].0, key.tags[k].0));
            lemma_text_before_irreflexive(name);
        }
        if k < i {
            assert(text_before(key.tags[k].0, key.tags[i].0));
            lemma_text_before_irreflexive(name);
        }
    }
}

/// After the first `n` tag columns, the tags of a row are the first `m` tags of
/// its point, and the others are still to come.
proof fn lemma_row_tags(points: Seq<PointModel>, row: int, n: nat) -> (m: int)
    requires
        0 <= row < points.len(),
        n <= point_tags(points).len(),
        ascending::<String, u8>(point_tags(points)),
        map_of(point_tags(points)) == tag_names(points),
        ascending::<String, Seq<char>>(points[row].key.tags),
    ensures
        0 <= m <= points[row].key.tags.len(),
        row_tags(batch_of(points), tag_positions(n), row) == points[row].key.tags.take(m),
        forall|k: int|
            m <= k < points[row].key.tags.len() ==> is_ahead(
                points,
                n as int,
                (#[trigger] points[row].key.tags[k]).0,
            ),
    decreases n,
{
    let batch = batch_of(points);
    let tags = point_tags(points);
    let key = points[row].key;
    let own = key.tags;
    if n == 0 {
        assert(tag_positions(0) =~= Seq::empty());
        assert(row_tags(batch, tag_positions(0), row) =~= own.take(0));
        assert forall|k: int| 0 <= k < own.len() implies is_ahead(
            points,
            0,
            (#[trigger] points[row].key.tags[k]).0,
        ) by {
            tags_have_columns(points, own[k].0);
            assert(points[row].key.tags[k].0 == own[k].0);
            assert(map_of(tags).contains_key(own[k].0));
            let j = choose|j: int| 0 <= j < tags.len() && (#[trigger] tags[j]).0 == own[k].0;
            assert(tags[j].0 == own[k].0);
        }
        return 0;
    }
    let before = (n - 1) as nat;
    let m = lemma_row_tags(points, row, before);
    let c = n - 1;
    assert(tag_positions(n).drop_last() =~= tag_positions(before));
    assert(tag_positions(n).last() == n);
    lemma_tag_column(points, c);
    let name = tags[c].0;
    assert(batch.columns[n as int].cells[row] == tag_cell(points[row], name));
    if m < own.len() && own[m].0 == name {
        lemma_point_tag(key, m);
        assert(text_at(batch, n as int, row) == Some(own[m].1));
        assert(own.take(m + 1) =~= own.take(m).push(own[m]));
        assert forall|k: int| m + 1 <= k < own.len() implies is_ahead(
            points,
            n as int,
            (#[trigger] points[row].key.tags[k]).0,
        ) by {
            assert(is_ahead(points, before as int, own[k].0));
            let j = choose|j: int|
                before <= j < tags.len() && (#[trigger] tags[j]).0 == own[k].0;
            if j == c {
                assert(text_before(own[m].0, own[k].0));
                lemma_text_before_irreflexive(name);
            }
            assert(tags[j].0 == own[k].0);
        }
        return m + 1;
    }
    assert(key.tag(name) is None) by {
        if exists|i: int| 0 <= i < own.len() && (#[trigger] own[i]).0 == name {
            let i = choose|i: int| 0 <= i < own.len() && (#[trigger] own[i]).0 == name;
            lemma_taken(points, row, before, m, i);
        }
    }
    assert(text_at(batch, n as int, row) is None);
    assert forall|k: int| m <= k < own.len() implies is_ahead(
        points,
        n as int,
        (#[trigger] points[row].key.tags[k]).0,
    ) by {
        assert(is_ahead(points, before as int, own[k].0));
        let j = choose|j: int| before <= j < tags.len() && (#[trigger] tags[j]).0 == own[k].0;
        if j == c {
            lemma_taken(points, row, before, m, k);
        }
        assert(tags[j].0 == own[k].0);
    }
    m
}

/// Where the next tag of a point is not the next tag column's, the point does
/// not have that column's tag.
proof fn lemma_taken(points: Seq<PointModel>, row: int, n: nat, m: int, i: int)
    requires
        0 <= row < points.len(),
        n < point_tags(points).len(),
        ascending::<String, u8>(point_tags(points)),
        ascending::<String, Seq<char>>(points[row].key.tags),
        0 <= m <= points[row].key.tags.len(),
        row_tags(batch_of(points), tag_positions(n), row) == points[row].key.tags.take(m),
        forall|k: int|
            m <= k < points[row].key.tags.len() ==> is_ahead(
                points,
                n as int,
                (#[trigger] points[row].key.tags[k]).0,
            ),
        m == points[row].key.tags.len() || points[row].key.tags[m].0 != point_tags(
            points,
        )[n as int].0,
        0 <= i < points[row].key.tags.len(),
    ensures
        points[row].key.tags[i].0 != point_tags(points)[n as int].0,
{
    let tags = point_tags(points);
    let own = points[row].key.tags;
    let name = tags[n as int].0;
    if own[i].0 == name && i >= m {
        assert(is_ahead(points, n as int, points[row].key.tags[m].0));
        let j = choose|j: int| n <= j < tags.len() && (#[trigger] tags[j]).0 == own[m].0;
        if i > m {
            assert(text_before(own[m].0, own[i].0));
            if j > n {
                assert(text_before(tags[n as int].0, tags[j].0));
                lemma_text_before_transitive(name, own[m].0, name);
                lemma_text_before_irreflexive(name);
            }
        }
    } else if i < m {
        lemma_earlier_column(points, row, n, i, m);
    }
}

/// A tag that a row has in the first columns is one of theirs.
proof fn lemma_earlier_column(points: Seq<PointModel>, row: int, n: nat, i: int, m: int)
    requires
        0 <= row < points.len(),
        n < point_tags(points).len(),
        ascending::<String, u8>(point_tags(points)),
        0 <= i < m <= points[row].key.tags.len(),
        row_tags(batch_of(points), tag_positions(n), row) == points[row].key.tags.take(m),
    ensures
        points[row].key.tags[i].0 != point_tags(points)[n as int].0,
{
    let tags = point_tags(points);
    let own = points[row].key.tags;
    assert(own.take(m)[i] == own[i]);
    let j = lemma_row_tag_column(points, row, n, i);
    assert(text_before(tags[j].0, tags[n as int].0));
    lemma_text_before_irreflexive(tags[j].0);
}

proof fn lemma_row_tag_column(points: Seq<PointModel>, row: int, n: nat, i: int) -> (j: int)
    requires
        0 <= row < points.len(),
        n <= point_tags(points).len(),
        0 <= i < row_tags(batch_of(points), tag_positions(n), row).len(),
    ensures
        0 <= j < n,
        point_tags(points)[j].0 == row_tags(batch_of(points), tag_positions(n), row)[i].0,
    decreases n,
{
    let batch = batch_of(points);
    if n == 0 {
        assert(tag_positions(0) =~= Seq::empty());
        return 0;
    }
    let before = (n - 1) as nat;
    assert(tag_positions(n).drop_last() =~= tag_positions(before));
    assert(tag_positions(n).last() == n);
    lemma_tag_column(points, n - 1);
    let rest = row_tags(batch, tag_positions(before), row);
    if i < rest.len() {
        lemma_row_tag_column(points, row, before, i)
    } else {
        n - 1
    }
}

/// A row of the batch of some points belongs to the series of its point: the
/// canonical form told from the tag columns is that of the point's series key.
pub proof fn a_row_has_the_series_of_its_point(
    points: Seq<PointModel>,
    measurement: Seq<char>,
    row: int,
)
    requires
        0 <= row < points.len(),
        ascending::<String, u8>(point_tags(points)),
        map_of(point_tags(points)) == tag_names(points),
        ascending::<String, Seq<char>>(points[row].key.tags),
        points[row].key.measurement == measurement,
    ensures
        row_series(
            batch_of(points),
            measurement,
            tag_positions(point_tags(points).len()),
            row,
        ) == canonical(points[row].key.measurement, points[row].key.tags),
{
    let n = point_tags(points).len();
    let own = points[row].key.tags;
    lemma_positions_are_by_name(points, n);
    let m = lemma_row_tags(points, row, n);
    if m < own.len() {
        assert(is_ahead(points, n as int, points[row].key.tags[m].0));
        let j = choose|j: int|
            n <= j < point_tags(points).len() && (#[trigger] point_tags(points)[j]).0 == own[m].0;
        assert(j < n);
    }
    assert(own.take(m) =~= own);
}

/// The tag columns of the batch of some points are found by the names of the
/// tags, unless a tag has the name of the time column.
pub proof fn tag_columns_are_found_by_name(points: Seq<PointModel>, n: nat)
    requires
        points.len() > 0,
        n <= point_tags(points).len(),
        ascending::<String, u8>(point_tags(points)),
        forall|i: int|
            0 <= i < point_tags(points).len() ==> (#[trigger] point_tags(points)[i]).0
                != time_column(),
    ensures
        found_columns(batch_of(points), point_tag_names(points).take(n as int)) == tag_positions(n),
    decreases n,
{
    let batch = batch_of(points);
    let names = point_tag_names(points);
    let tags = point_tags(points);
    if n > 0 {
        let before = (n - 1) as nat;
        tag_columns_are_found_by_name(points, before);
        assert(names.take(n as int).drop_last() =~= names.take(before as int));
        assert(names.take(n as int).last() == tags[n - 1].0);
        lemma_first_column(points, n - 1, 0);
        assert(tag_positions(before).push(n as int) =~= tag_positions(n));
    } else {
        assert(names.take(0) =~= Seq::empty());
        assert(found_columns(batch, names.take(0)) =~= tag_positions(0));
    }
}

proof fn lemma_first_column(points: Seq<PointModel>, i: int, from: int)
    requires
        points.len() > 0,
        0 <= i < point_tags(points).len(),
        0 <= from <= 1 + i,
        ascending::<String, u8>(point_tags(points)),
        point_tags(points)[i].0 != time_column(),
    ensures
        batch_of(points).index_from(point_tags(points)[i].0, from) == Some(1 + i),
    decreases 1 + i - from,
{
    let tags = point_tags(points);
    lemma_tag_column(points, i);
    if from < 1 + i {
        if from > 0 {
            lemma_tag_column(points, from - 1);
            assert(text_before(tags[from - 1].0, tags[i].0));
            if tags[from - 1].0 == tags[i].0 {
                lemma_text_before_irreflexive(tags[i].0);
            }
        }
        lemma_first_column(points, i, from + 1);
    }
}

} // verus!
