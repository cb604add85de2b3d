//! Which rows and columns a filter, a projection or a deletion leaves.
use vstd::prelude::*;

#[allow(unused_imports)]
use crate::query::batch::{holds_texts, BatchModel, CellModel};
#[allow(unused_imports)]
use crate::query::filter::{
    filter_refusal, filtered, found_columns, has_tag, has_tags, integers, is_deleted, kept,
    projected, row_is_deleted, row_matches, rows_where, surviving, tag_columns, time_at,
    without_time, TombstoneModel,
};
#[allow(unused_imports)]
use crate::query::mask::{all_of, decoded, equal_to, even, within, Mask};
#[allow(unused_imports)]
use crate::query::series::canonical;
#[allow(unused_imports)]
use crate::query::tags::{by_name, row_series, row_tags};

verus! {

// ---------------------------------------------------------------------------
// Rows
// ---------------------------------------------------------------------------

/// The `c`-th column is the first under this name.
pub open spec fn is_first_named(batch: BatchModel, name: Seq<char>, c: int) -> bool {
    &&& 0 <= c < batch.columns.len()
    &&& batch.columns[c].field.name == name
    &&& forall|d: int| 0 <= d < c ==> (#[trigger] batch.columns[d]).field.name != name
}

/// A column is found by its name: the first that has it.
pub proof fn a_column_is_found_by_its_name(batch: BatchModel, name: Seq<char>)
    ensures
        match batch.index_of(name) {
            Some(c) => is_first_named(batch, name, c),
            None => forall|c: int|
                0 <= c < batch.columns.len() ==> (#[trigger] batch.columns[c]).field.name != name,
        },
        forall|c: int| #[trigger]
            is_first_named(batch, name, c) ==> batch.index_of(name) == Some(c),
{
    lemma_index_from(batch, name, 0);
}

proof fn lemma_index_from(batch: BatchModel, name: Seq<char>, from: int)
    requires
        0 <= from <= batch.columns.len(),
        forall|d: int| 0 <= d < from ==> (#[trigger] batch.columns[d]).field.name != name,
    ensures
        match batch.index_from(name, from) {
            Some(c) => is_first_named(batch, name, c),
            None => forall|c: int|
                0 <= c < batch.columns.len() ==> (#[trigger] batch.columns[c]).field.name != name,
        },
    decreases batch.columns.len() - from,
{
    if from < batch.columns.len() && batch.columns[from].field.name != name {
        lemma_index_from(batch, name, from + 1);
    }
}

pub proof fn lemma_rows_where(meets: spec_fn(int) -> bool, n: nat)
    ensures
        rows_where(meets, n) == Seq::new(n, |i: int| i).filter(meets),
    decreases n,
{
    reveal(Seq::filter);
    let all = Seq::new(n, |i: int| i);
    if n > 0 {
        lemma_rows_where(meets, (n - 1) as nat);
        assert(all.drop_last() =~= Seq::new((n - 1) as nat, |i: int| i));
        assert(all.last() == n - 1);
    } else {
        assert(rows_where(meets, n) =~= all);
    }
}

pub proof fn lemma_same_filter(
    rows: Seq<int>,
    n: nat,
    a: spec_fn(int) -> bool,
    b: spec_fn(int) -> bool,
)
    requires
        forall|p: int| 0 <= p < rows.len() ==> 0 <= #[trigger] rows[p] < n,
        forall|row: int| 0 <= row < n ==> #[trigger] a(row) == b(row),
    ensures
        rows.filter(a) == rows.filter(b),
    decreases rows.len(),
{
    reveal(Seq::filter);
    if rows.len() > 0 {
        let last = rows.len() - 1;
        assert(0 <= rows[last] < n);
        assert forall|p: int| 0 <= p < rows.drop_last().len() implies 0
            <= #[trigger] rows.drop_last()[p] < n by {
            assert(rows.drop_last()[p] == rows[p]);
        }
        lemma_same_filter(rows.drop_last(), n, a, b);
        assert(a(rows.last()) == b(rows.last()));
    }
}

/// The batch holds just these rows of the other, in this order, with the same
/// columns.
pub open spec fn holds_rows(out: BatchModel, batch: BatchModel, rows: Seq<int>) -> bool {
    &&& out.rows == rows.len()
    &&& out.columns.len() == batch.columns.len()
    &&& forall|c: int|
        0 <= c < batch.columns.len() ==> (#[trigger] out.columns[c]).field
            == batch.columns[c].field && out.columns[c].cells.len() == rows.len()
    &&& forall|c: int, p: int|
        #![trigger out.columns[c].cells[p]]
        0 <= c < batch.columns.len() && 0 <= p < rows.len() ==> out.columns[c].cells[p]
            == batch.columns[c].cells[rows[p]]
}

/// The row's cell in the time column is an integer from the start up to the end,
/// both of them among it.
pub open spec fn lies_between(batch: BatchModel, row: int, start: i64, end: i64) -> bool {
    exists|c: int| #[trigger]
        is_first_named(batch, "timestamp"@, c) && (
        batch.columns[c].cells[row] matches CellModel::Int(t) && start <= t <= end)
}

/// The row's cell in the tag's column is the text asked for.
pub open spec fn is_tagged(batch: BatchModel, row: int, tag: (Seq<char>, Seq<char>)) -> bool {
    exists|c: int| #[trigger]
        is_first_named(batch, tag.0, c) && holds_texts(batch.columns[c].field.kind)
            && batch.columns[c].cells[row] == CellModel::Text(tag.1)
}

/// The row is asked for.
pub open spec fn is_asked_for(
    batch: BatchModel,
    row: int,
    start: i64,
    end: i64,
    tags: Seq<(Seq<char>, Seq<char>)>,
) -> bool {
    &&& lies_between(batch, row, start, end) || (start == i64::MIN && end == i64::MAX)
    &&& forall|f: int| 0 <= f < tags.len() ==> is_tagged(batch, row, #[trigger] tags[f])
}

proof fn lemma_asked_for(
    batch: BatchModel,
    row: int,
    start: i64,
    end: i64,
    tags: Seq<(Seq<char>, Seq<char>)>,
)
    requires
        batch.is_batch(),
        0 <= row < batch.rows,
    ensures
        row_matches(batch, row, start, end, tags) == is_asked_for(batch, row, start, end, tags),
{
    a_column_is_found_by_its_name(batch, "timestamp"@);
    match batch.index_of("timestamp"@) {
        Some(c) => {
            assert(is_first_named(batch, "timestamp"@, c));
            assert(batch.columns[c].is_column(batch.rows));
            assert(integers(batch.columns[c])[row] == match batch.columns[c].cells[row] {
                CellModel::Int(v) => Some(v),
                _ => None,
            });
        },
        None => {
            assert forall|c: int| !#[trigger] is_first_named(batch, "timestamp"@, c) by {}
        },
    }
    assert forall|f: int| 0 <= f < tags.len() implies has_tag(batch, row, #[trigger] tags[f])
        == is_tagged(batch, row, tags[f]) by {
        let tag = tags[f];
        a_column_is_found_by_its_name(batch, tag.0);
        match batch.index_of(tag.0) {
            Some(c) => {
                assert(is_first_named(batch, tag.0, c));
            },
            None => {
                assert forall|c: int| !#[trigger] is_first_named(batch, tag.0, c) by {}
            },
        }
    }
    if has_tags(batch, row, tags) {
        assert forall|f: int| 0 <= f < tags.len() implies is_tagged(batch, row, #[trigger] tags[f]) by {
            assert(has_tag(batch, row, tags[f]));
        }
    }
    if forall|f: int| 0 <= f < tags.len() ==> is_tagged(batch, row, #[trigger] tags[f]) {
        assert forall|f: int| 0 <= f < tags.len() implies has_tag(batch, row, #[trigger] tags[f]) by {
            assert(is_tagged(batch, row, tags[f]));
        }
    }
}

/// Filtering a batch leaves the rows whose timestamps are in the range, both
/// ends among it, and which hold the text asked for in every tag's column; in
/// their order and with all their cells.
pub proof fn a_filter_leaves_the_rows_asked_for(
    batch: BatchModel,
    start: i64,
    end: i64,
    tags: Seq<(Seq<char>, Seq<char>)>,
)
    requires
        batch.is_batch(),
    ensures
        holds_rows(
            filtered(batch, start, end, tags),
            batch,
            Seq::new(batch.rows, |i: int| i).filter(
                |row: int| is_asked_for(batch, row, start, end, tags),
            ),
        ),
{
    let meets = |row: int| row_matches(batch, row, start, end, tags);
    let asked = |row: int| is_asked_for(batch, row, start, end, tags);
    let all = Seq::new(batch.rows, |i: int| i);
    lemma_rows_where(meets, batch.rows);
    assert forall|row: int| 0 <= row < batch.rows implies #[trigger] meets(row) == asked(row) by {
        lemma_asked_for(batch, row, start, end, tags);
    }
    lemma_same_filter(all, batch.rows, meets, asked);
}

/// A batch with rows is refused just if it has no time column, or one that does
/// not hold integers.
pub proof fn batches_without_times_are_refused(batch: BatchModel)
    ensures
        filter_refusal(batch) is None <==> (batch.rows == 0 || exists|c: int| #[trigger]
            is_first_named(batch, "timestamp"@, c) && batch.columns[c].field.kind is Int64),
{
    a_column_is_found_by_its_name(batch, "timestamp"@);
    match batch.index_of("timestamp"@) {
        Some(c) => {
            assert(is_first_named(batch, "timestamp"@, c));
        },
        None => {
            assert forall|c: int| !#[trigger] is_first_named(batch, "timestamp"@, c) by {}
        },
    }
}

/// A mask keeps the rows on which it is true, not those on which it is null.
pub proof fn a_mask_keeps_the_rows_on_which_it_is_true(batch: BatchModel, mask: Mask)
    requires
        mask.len() <= batch.rows,
    ensures
        holds_rows(
            batch.rows_at(kept(mask)),
            batch,
            Seq::new(mask.len(), |i: int| i).filter(|i: int| mask[i] == Some(true)),
        ),
{
    lemma_rows_where(|i: int| mask[i] == Some(true), mask.len());
}

/// Masks that are combined are true where all of them are.
pub proof fn combined_masks_are_true_where_all_are(masks: Seq<Mask>, row: int)
    requires
        masks.len() > 0,
        even(masks),
        0 <= row < masks[0].len(),
    ensures
        all_of(masks).len() == masks[0].len(),
        all_of(masks)[row] == Some(true) <==> forall|m: int|
            0 <= m < masks.len() ==> (#[trigger] masks[m])[row] == Some(true),
        all_of(masks)[row] is None <==> exists|m: int|
            0 <= m < masks.len() && (#[trigger] masks[m])[row] is None,
    decreases masks.len(),
{
    let n = masks.len() - 1;
    if masks.len() > 1 {
        let rest = masks.drop_last();
        assert(even(rest)) by {
            assert forall|i: int| 0 <= i < rest.len() implies (#[trigger] rest[i]).len()
                == rest[0].len() by {
                assert(masks[i].len() == masks[0].len());
            }
        }
        combined_masks_are_true_where_all_are(rest, row);
        assert(masks[n].len() == masks[0].len());
        assert forall|m: int| 0 <= m < rest.len() implies rest[m] == masks[m] by {}
        if all_of(rest)[row] is None {
            let m = choose|m: int| 0 <= m < rest.len() && (#[trigger] rest[m])[row] is None;
            assert(masks[m][row] is None);
        }
        if exists|m: int| 0 <= m < masks.len() && (#[trigger] masks[m])[row] is None {
            let m = choose|m: int| 0 <= m < masks.len() && (#[trigger] masks[m])[row] is None;
            if m < n {
                assert(rest[m][row] is None);
            }
        }
        if all_of(masks)[row] == Some(true) {
            assert forall|m: int| 0 <= m < masks.len() implies (#[trigger] masks[m])[row] == Some(
                true,
            ) by {
                if m < n {
                    assert(rest[m][row] == Some(true));
                }
            }
        }
        if forall|m: int| 0 <= m < masks.len() ==> (#[trigger] masks[m])[row] == Some(true) {
            assert(masks[n][row] == Some(true));
            assert forall|m: int| 0 <= m < rest.len() implies (#[trigger] rest[m])[row] == Some(
                true,
            ) by {
                assert(masks[m][row] == Some(true));
            }
        }
    } else {
        assert(masks[0] == masks[n]);
    }
}

/// A timestamp is in a range just if it is neither before its start nor after
/// its end; of a null nothing is said.
pub proof fn a_range_holds_both_its_ends(
    times: Seq<Option<i64>>,
    start: i64,
    end: i64,
    row: int,
)
    requires
        0 <= row < times.len(),
    ensures
        within(times, start, end).len() == times.len(),
        times[row] is None <==> within(times, start, end)[row] is None,
        times[row] matches Some(t) ==> within(times, start, end)[row] == Some(
            !(t < start) && !(t > end),
        ),
{
}

/// A mask of texts is true where the text is the one asked for, false where it
/// is another, and null where there is none. Texts held in a dictionary compare
/// as those that their keys stand for.
pub proof fn a_text_is_compared_as_a_whole(
    column: Seq<Option<Seq<char>>>,
    keys: Seq<Option<usize>>,
    values: Seq<Option<Seq<char>>>,
    value: Seq<char>,
    row: int,
)
    ensures
        0 <= row < column.len() ==> {
            let mask = equal_to(column, value);
            &&& mask.len() == column.len()
            &&& mask[row] == Some(true) <==> column[row] == Some(value)
            &&& mask[row] is None <==> column[row] is None
        },
        0 <= row < keys.len() ==> {
            let mask = equal_to(decoded(keys, values), value);
            &&& mask.len() == keys.len()
            &&& mask[row] == Some(true) <==> keys[row] is Some && values[keys[row].unwrap() as int]
                == Some(value)
            &&& mask[row] is None <==> keys[row] is None
                || values[keys[row].unwrap() as int] is None
        },
{
}

// ---------------------------------------------------------------------------
// Columns
// ---------------------------------------------------------------------------

/// A projection keeps the time column first, and then the columns asked for that
/// there are, in the order asked for, with all their cells.
pub proof fn a_projection_keeps_the_columns_asked_for(batch: BatchModel, names: Seq<Seq<char>>)
    requires
        names.len() > 0,
        batch.index_of("timestamp"@) is Some,
    ensures
        ({
            let wanted = names.filter(
                |name: Seq<char>| name != "timestamp"@ && batch.index_of(name) is Some,
            );
            let out = projected(batch, names);
            &&& out.rows == batch.rows
            &&& out.columns.len() == 1 + wanted.len()
            &&& out.columns[0] == batch.columns[batch.index_of("timestamp"@).unwrap()]
            &&& forall|i: int|
                0 <= i < wanted.len() ==> #[trigger] out.columns[1 + i]
                    == batch.columns[batch.index_of(wanted[i]).unwrap()]
        }),
{
    lemma_projected(batch, names);
    let all = seq!["timestamp"@] + without_time(names);
    let found = found_columns(batch, all);
    let wanted = names.filter(
        |name: Seq<char>| name != "timestamp"@ && batch.index_of(name) is Some,
    );
    let out = projected(batch, names);
    assert forall|i: int| 0 <= i < wanted.len() implies #[trigger] out.columns[1 + i]
        == batch.columns[batch.index_of(wanted[i]).unwrap()] by {
        assert(found[1 + i] == batch.index_of(wanted[i]).unwrap());
    }
}

proof fn lemma_projected(batch: BatchModel, names: Seq<Seq<char>>)
    requires
        batch.index_of("timestamp"@) is Some,
    ensures
        found_columns(batch, seq!["timestamp"@] + without_time(names)) == seq![
            batch.index_of("timestamp"@).unwrap(),
        ] + names.filter(
            |name: Seq<char>| name != "timestamp"@ && batch.index_of(name) is Some,
        ).map_values(|name: Seq<char>| batch.index_of(name).unwrap()),
    decreases names.len(),
{
    reveal(Seq::filter);
    let asked = |name: Seq<char>| name != "timestamp"@ && batch.index_of(name) is Some;
    let place = |name: Seq<char>| batch.index_of(name).unwrap();
    let time = seq!["timestamp"@];
    let first = seq![batch.index_of("timestamp"@).unwrap()];
    if names.len() > 0 {
        let rest = names.drop_last();
        lemma_projected(batch, rest);
        let before = rest.filter(asked);
        if names.last() != "timestamp"@ {
            assert((time + without_time(names)).drop_last() =~= time + without_time(rest));
            assert((time + without_time(names)).last() == names.last());
        }
        if asked(names.last()) {
            assert(first + before.push(names.last()).map_values(place) =~= (first
                + before.map_values(place)).push(place(names.last())));
        }
    } else {
        let none = Seq::<Seq<char>>::empty();
        assert(time + without_time(names) =~= time);
        assert(time.drop_last() =~= none);
        assert(found_columns(batch, none) =~= Seq::empty());
        assert(found_columns(batch, time) =~= first);
        assert(first + names.filter(asked).map_values(place) =~= first);
    }
}

/// Where there is no time column, a projection keeps the columns asked for that
/// there are, in the order asked for; all of them where none of those is there.
pub proof fn a_projection_without_a_time_column(batch: BatchModel, names: Seq<Seq<char>>)
    requires
        names.len() > 0,
        batch.index_of("timestamp"@) is None,
    ensures
        ({
            let wanted = names.filter(
                |name: Seq<char>| name != "timestamp"@ && batch.index_of(name) is Some,
            );
            let out = projected(batch, names);
            &&& out.rows == batch.rows
            &&& wanted.len() == 0 ==> out == batch
            &&& wanted.len() > 0 ==> out.columns == wanted.map_values(
                |name: Seq<char>| batch.columns[batch.index_of(name).unwrap()],
            )
        }),
{
    lemma_projected_without(batch, names);
    let wanted = names.filter(
        |name: Seq<char>| name != "timestamp"@ && batch.index_of(name) is Some,
    );
    let found = found_columns(batch, seq!["timestamp"@] + without_time(names));
    assert(found.len() == wanted.len());
    if wanted.len() > 0 {
        assert(projected(batch, names).columns =~= wanted.map_values(
            |name: Seq<char>| batch.columns[batch.index_of(name).unwrap()],
        ));
    }
}

proof fn lemma_projected_without(batch: BatchModel, names: Seq<Seq<char>>)
    requires
        batch.index_of("timestamp"@) is None,
    ensures
        found_columns(batch, seq!["timestamp"@] + without_time(names)) == names.filter(
            |name: Seq<char>| name != "timestamp"@ && batch.index_of(name) is Some,
        ).map_values(|name: Seq<char>| batch.index_of(name).unwrap()),
    decreases names.len(),
{
    reveal(Seq::filter);
    let asked = |name: Seq<char>| name != "timestamp"@ && batch.index_of(name) is Some;
    let place = |name: Seq<char>| batch.index_of(name).unwrap();
    let time = seq!["timestamp"@];
    if names.len() > 0 {
        let rest = names.drop_last();
        lemma_projected_without(batch, rest);
        let before = rest.filter(asked);
        if names.last() != "timestamp"@ {
            assert((time + without_time(names)).drop_last() =~= time + without_time(rest));
            assert((time + without_time(names)).last() == names.last());
        }
        if asked(names.last()) {
            assert(before.push(names.last()).map_values(place) =~= before.map_values(place).push(
                place(names.last()),
            ));
        }
    } else {
        let none = Seq::<Seq<char>>::empty();
        assert(time + without_time(names) =~= time);
        assert(time.drop_last() =~= none);
        assert(time.last() == "timestamp"@);
        assert(found_columns(batch, none) =~= Seq::empty());
        assert(found_columns(batch, time) =~= Seq::empty());
        assert(names.filter(asked).map_values(place) =~= Seq::empty());
    }
}

/// Without names to go by, a projection keeps the whole batch.
pub proof fn an_empty_projection_keeps_everything(batch: BatchModel)
    ensures
        projected(batch, Seq::empty()) == batch,
{
}

// ---------------------------------------------------------------------------
// Deletions
// ---------------------------------------------------------------------------

/// A point is deleted just if a deletion of its series covers its time, both
/// ends among it.
pub proof fn a_deletion_covers_a_range_of_its_series(
    tombstones: Seq<TombstoneModel>,
    series: Seq<char>,
    time: i64,
)
    ensures
        is_deleted(tombstones, series, time) <==> exists|i: int|
            0 <= i < tombstones.len() && (#[trigger] tombstones[i]).series == series
                && tombstones[i].start <= time && time <= tombstones[i].end,
{
    if is_deleted(tombstones, series, time) {
        let i = choose|i: int|
            0 <= i < tombstones.len() && (#[trigger] tombstones[i]).covers(series, time);
        assert(tombstones[i].series == series);
    }
    if exists|i: int|
        0 <= i < tombstones.len() && (#[trigger] tombstones[i]).series == series
            && tombstones[i].start <= time && time <= tombstones[i].end {
        let i = choose|i: int|
            0 <= i < tombstones.len() && (#[trigger] tombstones[i]).series == series
                && tombstones[i].start <= time && time <= tombstones[i].end;
        assert(tombstones[i].covers(series, time));
    }
}

/// Applying deletions leaves the rows whose series is not deleted at their
/// timestamp, in their order and with all their cells.
pub proof fn deletions_leave_the_other_rows(
    batch: BatchModel,
    measurement: Seq<char>,
    tombstones: Seq<TombstoneModel>,
    names: Option<Seq<Seq<char>>>,
)
    ensures
        holds_rows(
            batch.rows_at(surviving(batch, measurement, tombstones, names)),
            batch,
            Seq::new(batch.rows, |i: int| i).filter(
                |row: int|
                    !is_deleted(
                        tombstones,
                        row_series(batch, measurement, tag_columns(batch, names), row),
                        match time_at(batch, row) {
                            Some(t) => t,
                            None => 0,
                        },
                    ),
            ),
        ),
{
    let meets = |row: int| !row_is_deleted(batch, measurement, tombstones, names, row);
    let asked = |row: int|
        !is_deleted(
            tombstones,
            row_series(batch, measurement, tag_columns(batch, names), row),
            match time_at(batch, row) {
                Some(t) => t,
                None => 0,
            },
        );
    lemma_rows_where(meets, batch.rows);
    lemma_same_filter(Seq::new(batch.rows, |i: int| i), batch.rows, meets, asked);
}

/// The timestamp of a row is the integer in the time column.
pub proof fn a_row_is_timed_by_the_time_column(batch: BatchModel, row: int, t: i64)
    requires
        batch.is_batch(),
        0 <= row < batch.rows,
    ensures
        time_at(batch, row) == Some(t) <==> lies_between(batch, row, t, t),
{
    a_column_is_found_by_its_name(batch, "timestamp"@);
    match batch.index_of("timestamp"@) {
        Some(c) => {
            assert(is_first_named(batch, "timestamp"@, c));
            assert(batch.columns[c].is_column(batch.rows));
        },
        None => {
            assert forall|c: int| !#[trigger] is_first_named(batch, "timestamp"@, c) by {}
        },
    }
}

/// The tag columns are those named, as far as they are there, or else all columns
/// of texts but the time column.
pub proof fn tag_columns_hold_texts(batch: BatchModel, names: Seq<Seq<char>>)
    ensures
        tag_columns(batch, None) == Seq::new(batch.columns.len(), |c: int| c).filter(
            |c: int|
                holds_texts(batch.columns[c].field.kind) && batch.columns[c].field.name
                    != "timestamp"@,
        ),
        tag_columns(batch, Some(names)) == names.filter(
            |name: Seq<char>| batch.index_of(name) is Some,
        ).map_values(|name: Seq<char>| batch.index_of(name).unwrap()),
{
    lemma_rows_where(
        |c: int|
            holds_texts(batch.columns[c].field.kind) && batch.columns[c].field.name != "timestamp"@,
        batch.columns.len(),
    );
    lemma_found(batch, names);
}

proof fn lemma_found(batch: BatchModel, names: Seq<Seq<char>>)
    ensures
        found_columns(batch, names) == names.filter(
            |name: Seq<char>| batch.index_of(name) is Some,
        ).map_values(|name: Seq<char>| batch.index_of(name).unwrap()),
    decreases names.len(),
{
    reveal(Seq::filter);
    let there = |name: Seq<char>| batch.index_of(name) is Some;
    let place = |name: Seq<char>| batch.index_of(name).unwrap();
    if names.len() > 0 {
        let rest = names.drop_last();
        lemma_found(batch, rest);
        let before = rest.filter(there);
        if there(names.last()) {
            assert(before.push(names.last()).map_values(place) =~= before.map_values(place).push(
                place(names.last()),
            ));
        }
    } else {
        assert(found_columns(batch, names) =~= names.filter(there).map_values(place));
    }
}

/// The tags of a row are the texts in its tag columns, each under its column's
/// name; a column that is null in the row adds none.
pub proof fn the_tags_of_a_row_are_its_texts(batch: BatchModel, columns: Seq<int>, row: int)
    ensures
        row_tags(batch, columns, row) == columns.filter(
            |c: int|
                (batch.columns[c].field.kind is Utf8 || batch.columns[c].field.kind is Dictionary)
                    && batch.columns[c].cells[row] is Text,
        ).map_values(
            |c: int| (batch.columns[c].field.name, batch.columns[c].cells[row]->Text_0),
        ),
    decreases columns.len(),
{
    reveal(Seq::filter);
    let there = |c: int|
        (batch.columns[c].field.kind is Utf8 || batch.columns[c].field.kind is Dictionary)
            && batch.columns[c].cells[row] is Text;
    let read = |c: int| (batch.columns[c].field.name, batch.columns[c].cells[row]->Text_0);
    if columns.len() > 0 {
        let rest = columns.drop_last();
        the_tags_of_a_row_are_its_texts(batch, rest, row);
        let before = rest.filter(there);
        if there(columns.last()) {
            assert(before.push(columns.last()).map_values(read) =~= before.map_values(read).push(
                read(columns.last()),
            ));
        }
    } else {
        assert(row_tags(batch, columns, row) =~= columns.filter(there).map_values(read));
    }
}

/// The series of a row is its measurement and its tags in the order of their
/// names, each set apart by a zero and joined to its value by an equals sign.
pub proof fn a_series_is_told_by_its_tags(
    batch: BatchModel,
    measurement: Seq<char>,
    columns: Seq<int>,
    row: int,
)
    ensures
        row_series(batch, measurement, columns, row) == row_tags(
            batch,
            by_name(batch, columns),
            row,
        ).fold_left(
            measurement,
            |form: Seq<char>, tag: (Seq<char>, Seq<char>)|
                form + "\0"@ + tag.0 + "="@ + tag.1,
        ),
{
    lemma_canonical(measurement, row_tags(batch, by_name(batch, columns), row));
}

proof fn lemma_canonical(measurement: Seq<char>, tags: Seq<(Seq<char>, Seq<char>)>)
    ensures
        canonical(measurement, tags) == tags.fold_left(
            measurement,
            |form: Seq<char>, tag: (Seq<char>, Seq<char>)|
                form + "\0"@ + tag.0 + "="@ + tag.1,
        ),
    decreases tags.len(),
{
    if tags.len() > 0 {
        lemma_canonical(measurement, tags.drop_last());
    }
}

} // verus!
