//! What merging batches keeps, and what schema it gives.
use vstd::prelude::*;

#[allow(unused_imports)]
use crate::query::batch::{Batch, BatchModel, CellModel, ColumnKind, FieldModel};
#[allow(unused_imports)]
use crate::query::dedup::{
    aligned_all, batch_chunks, chunk_rows, chunks, chunks_hold_everything, dedup_failure, dedup_outcome,
    is_duplicate, is_time_order, joined_cells, keys_for, merged_batch, merged_rows,
    one_row_per_series_and_time, row_order, row_time, the_last_write_wins, time_order,
    times_or_zero,
};
#[allow(unused_imports)]
use crate::query::error::QueryError;
#[allow(unused_imports)]
use crate::query::filter::integers;
#[allow(unused_imports)]
use crate::query::filter_laws::{a_column_is_found_by_its_name, is_first_named, lemma_rows_where};
#[allow(unused_imports)]
use crate::query::merge::{is_merge, is_newer, is_place};
#[allow(unused_imports)]
use crate::query::merge_keys::total_rows;
#[allow(unused_imports)]
use crate::query::tags::row_series;
#[allow(unused_imports)]
use crate::query::union::{
    aligned, cells_for, fits_schema, has_field, is_row, tag_fields, union_fields, union_of,
    with_fields,
};

verus! {

// ---------------------------------------------------------------------------
// The common schema
// ---------------------------------------------------------------------------

/// The place comes before the other: in an earlier batch, or in the same and
/// further left.
pub open spec fn is_ahead_of(a: (int, int), b: (int, int)) -> bool {
    a.0 < b.0 || (a.0 == b.0 && a.1 < b.1)
}

/// There is a column at this place.
pub open spec fn is_column_place(batches: Seq<BatchModel>, at: (int, int)) -> bool {
    0 <= at.0 < batches.len() && 0 <= at.1 < batches[at.0].columns.len()
}

/// The field of the column at this place.
pub open spec fn field_at(batches: Seq<BatchModel>, at: (int, int)) -> FieldModel {
    batches[at.0].columns[at.1].field
}

/// The column at this place is the first of its name in all batches.
pub open spec fn is_first_seen(batches: Seq<BatchModel>, at: (int, int)) -> bool {
    &&& is_column_place(batches, at)
    &&& forall|other: (int, int)| #[trigger]
        is_column_place(batches, other) && is_ahead_of(other, at) ==> field_at(batches, other).name
            != field_at(batches, at).name
}

/// The fields are those of the first columns of their names, at these places.
pub open spec fn are_first_seen(
    batches: Seq<BatchModel>,
    fields: Seq<FieldModel>,
    places: Seq<(int, int)>,
    several: bool,
) -> bool {
    &&& places.len() == fields.len()
    &&& forall|f: int|
        0 <= f < fields.len() ==> {
            &&& is_first_seen(batches, #[trigger] places[f])
            &&& fields[f].name == field_at(batches, places[f]).name
            &&& fields[f].kind == field_at(batches, places[f]).kind
            &&& fields[f].tag == field_at(batches, places[f]).tag
            &&& fields[f].nullable == (several || field_at(batches, places[f]).nullable)
        }
    &&& forall|f: int, g: int|
        0 <= f < g < places.len() ==> is_ahead_of(#[trigger] places[f], #[trigger] places[g])
}

/// The schema of several batches has each name once, in the order in which the
/// names are first seen, with the type under which it is first seen. Every
/// column of every batch is in it. Where there are several batches, cells may be
/// null.
pub proof fn a_common_schema_has_each_name_once(batches: Seq<BatchModel>) -> (places: Seq<
    (int, int),
>)
    ensures
        are_first_seen(batches, union_fields(batches), places, batches.len() > 1),
        forall|at: (int, int)| #[trigger]
            is_column_place(batches, at) ==> exists|f: int|
                0 <= f < union_fields(batches).len() && (#[trigger] union_fields(batches)[f]).name
                    == field_at(batches, at).name,
{
    let places = lemma_union(batches, batches.len() as int, batches.len() > 1);
    assert(batches.take(batches.len() as int) =~= batches);
    assert forall|at: (int, int)| #[trigger] is_column_place(batches, at) implies exists|f: int|
        0 <= f < union_fields(batches).len() && (#[trigger] union_fields(batches)[f]).name
            == field_at(batches, at).name by {
        assert(has_field(union_fields(batches), field_at(batches, at).name));
    }
    places
}

proof fn lemma_union(batches: Seq<BatchModel>, n: int, several: bool) -> (places: Seq<(int, int)>)
    requires
        0 <= n <= batches.len(),
    ensures
        are_first_seen(batches, union_of(batches.take(n), several), places, several),
        forall|f: int|
            0 <= f < places.len() ==> is_ahead_of(#[trigger] places[f], (n, 0)),
        forall|at: (int, int)| #[trigger]
            is_column_place(batches, at) && at.0 < n ==> has_field(
                union_of(batches.take(n), several),
                field_at(batches, at).name,
            ),
    decreases n,
{
    if n == 0 {
        Seq::empty()
    } else {
        let before = lemma_union(batches, n - 1, several);
        let last = batches[n - 1];
        assert(batches.take(n).drop_last() =~= batches.take(n - 1));
        assert(batches.take(n).last() == last);
        let base = union_of(batches.take(n - 1), several);
        let places = lemma_with_columns(
            batches,
            n - 1,
            base,
            before,
            last.columns.len() as int,
            several,
        );
        assert(last.fields().take(last.columns.len() as int) =~= last.fields());
        places
    }
}

proof fn lemma_with_columns(
    batches: Seq<BatchModel>,
    b: int,
    base: Seq<FieldModel>,
    before: Seq<(int, int)>,
    k: int,
    several: bool,
) -> (places: Seq<(int, int)>)
    requires
        0 <= b < batches.len(),
        0 <= k <= batches[b].columns.len(),
        are_first_seen(batches, base, before, several),
        forall|f: int| 0 <= f < before.len() ==> is_ahead_of(#[trigger] before[f], (b, 0)),
        forall|at: (int, int)| #[trigger]
            is_column_place(batches, at) && at.0 < b ==> has_field(
                base,
                field_at(batches, at).name,
            ),
    ensures
        ({
            let fields = with_fields(base, batches[b].fields().take(k), several);
            &&& are_first_seen(batches, fields, places, several)
            &&& forall|f: int| 0 <= f < places.len() ==> is_ahead_of(#[trigger] places[f], (b, k))
            &&& forall|at: (int, int)| #[trigger]
                is_column_place(batches, at) && is_ahead_of(at, (b, k)) ==> has_field(
                    fields,
                    field_at(batches, at).name,
                )
        }),
    decreases k,
{
    if k == 0 {
        assert(batches[b].fields().take(0) =~= Seq::empty());
        before
    } else {
        let earlier = lemma_with_columns(batches, b, base, before, k - 1, several);
        let more = batches[b].fields().take(k);
        assert(more.drop_last() =~= batches[b].fields().take(k - 1));
        let field = batches[b].columns[k - 1].field;
        assert(more.last() == field);
        let known = with_fields(base, more.drop_last(), several);
        let fields = with_fields(base, more, several);
        let here = (b, k - 1);
        assert(is_column_place(batches, here));
        if has_field(known, field.name) {
            assert(fields == known);
            assert forall|at: (int, int)| #[trigger]
                is_column_place(batches, at) && is_ahead_of(at, (b, k)) implies has_field(
                fields,
                field_at(batches, at).name,
            ) by {
                if !is_ahead_of(at, here) {
                    assert(at == here);
                }
            }
            earlier
        } else {
            let places = earlier.push(here);
            assert(is_first_seen(batches, here));
            assert forall|f: int| 0 <= f < fields.len() implies {
                &&& is_first_seen(batches, #[trigger] places[f])
                &&& fields[f].name == field_at(batches, places[f]).name
                &&& fields[f].kind == field_at(batches, places[f]).kind
                &&& fields[f].tag == field_at(batches, places[f]).tag
                &&& fields[f].nullable == (several || field_at(batches, places[f]).nullable)
            } by {
                if f < earlier.len() {
                    assert(places[f] == earlier[f]);
                    assert(fields[f] == known[f]);
                }
            }
            assert forall|f: int, g: int| 0 <= f < g < places.len() implies is_ahead_of(
                #[trigger] places[f],
                #[trigger] places[g],
            ) by {
                assert(places[f] == earlier[f]);
                if g < earlier.len() {
                    assert(places[g] == earlier[g]);
                }
            }
            assert forall|at: (int, int)| #[trigger]
                is_column_place(batches, at) && is_ahead_of(at, (b, k)) implies has_field(
                fields,
                field_at(batches, at).name,
            ) by {
                if is_ahead_of(at, here) {
                    assert(has_field(known, field_at(batches, at).name));
                    let i = choose|i: int|
                        0 <= i < known.len() && (#[trigger] known[i]).name == field_at(
                            batches,
                            at,
                        ).name;
                    assert(fields[i] == known[i]);
                } else {
                    assert(at == here);
                    assert(fields[known.len() as int].name == field.name);
                }
            }
            places
        }
    }
}

/// The cell of a row in the first column of a name, or null where there is none.
pub open spec fn cell_named(batch: BatchModel, name: Seq<char>, row: int) -> CellModel {
    match batch.index_of(name) {
        Some(c) => batch.columns[c].cells[row],
        None => CellModel::Null,
    }
}

/// A batch that is brought to a schema keeps its rows and, under each name of the
/// schema, its cells; null where it has no such column.
pub proof fn an_aligned_batch_keeps_its_cells(
    batch: BatchModel,
    fields: Seq<FieldModel>,
    f: int,
    row: int,
)
    requires
        0 <= f < fields.len(),
        0 <= row < batch.rows,
    ensures
        aligned(batch, fields).rows == batch.rows,
        aligned(batch, fields).columns.len() == fields.len(),
        aligned(batch, fields).columns[f].field == fields[f],
        aligned(batch, fields).columns[f].cells[row] == cell_named(batch, fields[f].name, row),
{
}

/// The tags of a schema are the columns marked as such; where none is, the
/// columns of plain texts but the time column.
pub proof fn tags_are_marked_or_plain_texts(fields: Seq<FieldModel>)
    ensures
        ({
            let all = Seq::new(fields.len(), |c: int| c);
            let marked = all.filter(|c: int| fields[c].tag);
            tag_fields(fields) == if marked.len() > 0 {
                marked
            } else {
                all.filter(|c: int| fields[c].kind is Utf8 && fields[c].name != "timestamp"@)
            }
        }),
{
    let is_text = |c: int| fields[c].kind == ColumnKind::Utf8 && fields[c].name != "timestamp"@;
    let named = |c: int| fields[c].kind is Utf8 && fields[c].name != "timestamp"@;
    lemma_rows_where(|c: int| fields[c].tag, fields.len());
    lemma_rows_where(is_text, fields.len());
    crate::query::filter_laws::lemma_same_filter(
        Seq::new(fields.len(), |c: int| c),
        fields.len(),
        is_text,
        named,
    );
}

// ---------------------------------------------------------------------------
// The rows that are kept
// ---------------------------------------------------------------------------

/// The timestamp that a row's cell in the time column holds.
pub open spec fn timestamp_of(batches: Seq<BatchModel>, at: (int, int)) -> Option<i64> {
    match cell_named(batches[at.0], "timestamp"@, at.1) {
        CellModel::Int(t) => Some(t),
        _ => None,
    }
}

/// The series that a row belongs to, once the batches have their common schema.
pub open spec fn series_of(
    batches: Seq<BatchModel>,
    measurement: Seq<char>,
    at: (int, int),
) -> Seq<char> {
    row_series(
        aligned(batches[at.0], union_fields(batches)),
        measurement,
        tag_fields(union_fields(batches)),
        at.1,
    )
}

/// There is a row at this place.
pub open spec fn is_row_place(batches: Seq<BatchModel>, at: (int, int)) -> bool {
    0 <= at.0 < batches.len() && 0 <= at.1 < batches[at.0].rows
}

/// The row at this place is written again: a later one has its timestamp and its
/// series.
pub open spec fn is_overwritten(
    batches: Seq<BatchModel>,
    measurement: Seq<char>,
    at: (int, int),
) -> bool {
    exists|other: (int, int)| #[trigger]
        is_row_place(batches, other) && is_ahead_of(at, other) && timestamp_of(batches, other)
            == timestamp_of(batches, at) && series_of(batches, measurement, other) == series_of(
            batches,
            measurement,
            at,
        )
}

proof fn lemma_timestamp(batches: Seq<BatchModel>, at: (int, int))
    requires
        forall|b: int| 0 <= b < batches.len() ==> (#[trigger] batches[b]).is_batch(),
        is_row_place(batches, at),
    ensures
        row_time(batches, at) == timestamp_of(batches, at),
{
    let fields = union_fields(batches);
    let batch = batches[at.0];
    let here = aligned(batch, fields);
    a_column_is_found_by_its_name(here, "timestamp"@);
    a_column_is_found_by_its_name(batch, "timestamp"@);
    let places = a_common_schema_has_each_name_once(batches);
    assert(aligned_all(batches)[at.0] == here);
    match batch.index_of("timestamp"@) {
        Some(c) => {
            assert(is_first_named(batch, "timestamp"@, c));
            assert(batch.columns[c].is_column(batch.rows));
            assert(is_column_place(batches, (at.0, c)));
            let f = choose|f: int|
                0 <= f < fields.len() && (#[trigger] fields[f]).name == field_at(
                    batches,
                    (at.0, c),
                ).name;
            assert(here.columns[f].field.name == "timestamp"@);
        },
        None => {},
    }
    if let Some(f) = here.index_of("timestamp"@) {
        assert(here.columns[f].field.name == "timestamp"@);
        assert(here.columns[f].cells == cells_for(batch, "timestamp"@));
        assert(integers(here.columns[f])[at.1] == match here.columns[f].cells[at.1] {
            CellModel::Int(v) => Some(v),
            _ => None,
        });
    }
}

/// Merging batches keeps just the rows that are not written again later, by
/// ascending timestamp, each with its cells under the names of the common
/// schema.
pub proof fn a_merge_keeps_the_last_writes<M: Fn(&Batch) -> usize>(
    out: Batch,
    batches: Seq<BatchModel>,
    measurement: Seq<char>,
    measure: M,
    start: Option<(int, int)>,
    end: Option<(int, int)>,
) -> (places: Seq<(int, int)>)
    requires
        dedup_outcome(Ok(out), batches, measurement, measure, start, end),
        batches.len() > 1,
        total_rows(batches) <= usize::MAX,
        forall|b: int| 0 <= b < batches.len() ==> (#[trigger] batches[b]).is_batch(),
    ensures
        out@.rows == places.len(),
        out@.fields() == union_fields(batches),
        forall|p: int| 0 <= p < places.len() ==> is_row_place(batches, #[trigger] places[p]),
        forall|at: (int, int)| #[trigger]
            is_row_place(batches, at) ==> (places.contains(at) <==> !is_overwritten(
                batches,
                measurement,
                at,
            )),
        forall|p: int, q: int|
            0 <= p < q < places.len() ==> #[trigger] places[p] != #[trigger] places[q],
        forall|p: int, q: int|
            #![trigger places[p], places[q]]
            0 <= p < q < places.len() ==> (timestamp_of(batches, places[q]) matches Some(later)
                ==> (timestamp_of(batches, places[p]) matches Some(earlier) && earlier <= later)),
        forall|p: int, c: int|
            #![trigger places[p], out@.columns[c]]
            0 <= p < places.len() && 0 <= c < out@.columns.len() ==> out@.columns[c].cells[p]
                == cell_named(
                batches[places[p].0],
                union_fields(batches)[c].name,
                places[p].1,
            ),
{
    let places = merged_rows(batches, measurement);
    let keys = keys_for(batches, measurement);
    let all = aligned_all(batches);
    let fields = union_fields(batches);
    assert(is_merge(keys, places));
    assert(out@ == merged_batch(batches, measurement)) by {
        if total_rows(batches) != 0 {
            let held = crate::query::dedup::dedup_account(batches, start);
            let (made, size) = choose|made: Result<Batch, QueryError>, size: usize|
                (made matches Ok(o) && o@ == merged_batch(batches, measurement)) && (held is Some
                    ==> crate::query::dedup::is_measured(
                    measure,
                    merged_batch(batches, measurement),
                    size,
                )) && #[trigger] crate::query::output::settles(made, held, Ok(out), end, size);
            assert(crate::query::output::settles(made, held, Ok(out), end, size));
        }
    }
    assert(out@.fields() =~= fields);
    assert forall|p: int| 0 <= p < places.len() implies is_row_place(batches, #[trigger] places[p]) by {
        assert(is_place(keys, places[p]));
        assert(all[places[p].0].rows == batches[places[p].0].rows);
    }
    assert forall|at: (int, int)| #[trigger] is_row_place(batches, at) implies (places.contains(at)
        <==> !is_overwritten(batches, measurement, at)) by {
        the_last_write_wins(batches, measurement, at);
        lemma_timestamp(batches, at);
        assert(all[at.0] == aligned(batches[at.0], fields));
        if places.contains(at) && is_overwritten(batches, measurement, at) {
            let other = choose|other: (int, int)| #[trigger]
                is_row_place(batches, other) && is_ahead_of(at, other) && timestamp_of(
                    batches,
                    other,
                ) == timestamp_of(batches, at) && series_of(batches, measurement, other)
                    == series_of(batches, measurement, at);
            lemma_timestamp(batches, other);
            assert(all[other.0] == aligned(batches[other.0], fields));
            assert(is_row(batches, other));
            assert(is_duplicate(batches, measurement, at, other));
            assert(is_newer(other, at));
        }
        if !places.contains(at) {
            let other = choose|other: (int, int)|
                is_row(batches, other) && #[trigger] is_duplicate(batches, measurement, at, other)
                    && is_newer(other, at);
            assert(is_row(batches, other) && is_duplicate(batches, measurement, at, other)
                && is_newer(other, at));
            assert(is_row_place(batches, other));
            lemma_timestamp(batches, other);
            assert(all[other.0] == aligned(batches[other.0], fields));
            assert(is_ahead_of(at, other));
        }
    }
    assert forall|p: int, q: int| 0 <= p < q < places.len() implies #[trigger] places[p]
        != #[trigger] places[q] by {
        one_row_per_series_and_time(batches, measurement, p, q);
    }
    assert forall|p: int, q: int|
        #![trigger places[p], places[q]]
        0 <= p < q < places.len() implies (timestamp_of(batches, places[q]) matches Some(later)
        ==> (timestamp_of(batches, places[p]) matches Some(earlier) && earlier <= later)) by {
        one_row_per_series_and_time(batches, measurement, p, q);
        lemma_timestamp(batches, places[p]);
        lemma_timestamp(batches, places[q]);
    }
    assert forall|p: int, c: int|
        #![trigger places[p], out@.columns[c]]
        0 <= p < places.len() && 0 <= c < out@.columns.len() implies out@.columns[c].cells[p]
        == cell_named(batches[places[p].0], union_fields(batches)[c].name, places[p].1) by {
        assert(is_row_place(batches, places[p]));
        assert(all[places[p].0] == aligned(batches[places[p].0], fields));
        assert(out@.columns[c].cells[p] == all[places[p].0].columns[c].cells[places[p].1]);
    }
    places
}

/// A single batch comes out as it is.
pub proof fn a_single_batch_is_kept_whole<M: Fn(&Batch) -> usize>(
    r: Result<Batch, QueryError>,
    batch: BatchModel,
    measurement: Seq<char>,
    measure: M,
    start: Option<(int, int)>,
    end: Option<(int, int)>,
)
    requires
        dedup_outcome(r, seq![batch], measurement, measure, start, end),
    ensures
        r matches Ok(out) && out@ == batch,
        end == start,
{
}

/// The batch's columns have the types under which the schema has their names.
pub open spec fn has_the_types(batch: BatchModel, fields: Seq<FieldModel>) -> bool {
    forall|c: int, f: int|
        #![trigger batch.columns[c], fields[f]]
        0 <= f < fields.len() && is_first_named(batch, fields[f].name, c)
            ==> batch.columns[c].field.kind == fields[f].kind
}

proof fn lemma_has_the_types(batch: BatchModel, fields: Seq<FieldModel>)
    ensures
        fits_schema(batch, fields) <==> has_the_types(batch, fields),
{
    if fits_schema(batch, fields) {
        assert forall|c: int, f: int|
            #![trigger batch.columns[c], fields[f]]
            0 <= f < fields.len() && is_first_named(
                batch,
                fields[f].name,
                c,
            ) implies batch.columns[c].field.kind == fields[f].kind by {
            a_column_is_found_by_its_name(batch, fields[f].name);
            assert(batch.index_of(fields[f].name) == Some(c));
        }
    }
    if has_the_types(batch, fields) {
        assert forall|f: int| 0 <= f < fields.len() implies (batch.index_of(
            (#[trigger] fields[f]).name,
        ) matches Some(c) ==> batch.columns[c].field.kind == fields[f].kind) by {
            a_column_is_found_by_its_name(batch, fields[f].name);
            if let Some(c) = batch.index_of(fields[f].name) {
                assert(is_first_named(batch, fields[f].name, c));
                assert(batch.columns[c].field.kind == fields[f].kind);
            }
        }
    }
}

/// Batches cannot be merged just if there are none, if there is no room for their
/// rows in the common schema, if a column has different types in different
/// batches, or if there are rows and no time column of integers.
pub proof fn just_these_batches_cannot_be_merged(
    batches: Seq<BatchModel>,
    account: Option<(int, int)>,
)
    requires
        batches.len() != 1,
    ensures
        ({
            let fields = union_fields(batches);
            let room = total_rows(batches) * (fields.len() * 8 + 16);
            let no_room = account matches Some((used, limit)) && used + room > limit;
            let mixed = exists|b: int|
                0 <= b < batches.len() && !has_the_types(#[trigger] batches[b], fields);
            let timed = exists|f: int|
                0 <= f < fields.len() && (#[trigger] fields[f]).name == "timestamp"@
                    && fields[f].kind is Int64;
            dedup_failure(batches, account) is Some <==> batches.len() == 0 || no_room || mixed || (
            total_rows(batches) > 0 && !timed)
        }),
{
    let fields = union_fields(batches);
    if batches.len() > 1 {
        assert forall|b: int| 0 <= b < batches.len() implies (fits_schema(
            #[trigger] batches[b],
            fields,
        ) <==> has_the_types(batches[b], fields)) by {
            lemma_has_the_types(batches[b], fields);
        }
        let first = aligned(batches[0], fields);
        a_column_is_found_by_its_name(first, "timestamp"@);
        let places = a_common_schema_has_each_name_once(batches);
        match first.index_of("timestamp"@) {
            Some(c) => {
                assert(first.columns[c].field == fields[c]);
                assert forall|f: int|
                    0 <= f < fields.len() && (#[trigger] fields[f]).name
                        == "timestamp"@ implies f == c by {
                    assert(is_first_seen(batches, places[f]));
                    assert(is_first_seen(batches, places[c]));
                    if f < c {
                        assert(is_ahead_of(places[f], places[c]));
                    } else if c < f {
                        assert(is_ahead_of(places[c], places[f]));
                    }
                }
            },
            None => {
                assert forall|f: int| 0 <= f < fields.len() implies (#[trigger] fields[f]).name
                    != "timestamp"@ by {
                    assert(first.columns[f].field.name != "timestamp"@);
                }
            },
        }
    }
}

/// The timestamp that rows are ordered by: zero where there is none.
pub open spec fn ordering_time(cell: CellModel) -> i64 {
    match cell {
        CellModel::Int(t) => t,
        _ => 0,
    }
}

/// A single batch that is handed out in chunks has its rows by ascending
/// timestamp, those with equal timestamps as they were, and each row once. A null
/// counts as zero.
pub proof fn a_single_batch_is_sorted_by_time(batch: BatchModel, c: int, order: Seq<int>)
    requires
        batch.is_batch(),
        is_first_named(batch, "timestamp"@, c),
        batch.columns[c].field.kind is Int64,
        order.len() == batch.rows,
        forall|row: int| 0 <= row < batch.rows ==> #[trigger] order.contains(row),
        forall|p: int| 0 <= p < order.len() ==> 0 <= #[trigger] order[p] < batch.rows,
        forall|p: int, q: int|
            #![trigger order[p], order[q]]
            0 <= p < q < order.len() ==> {
                let a = ordering_time(batch.columns[c].cells[order[p]]);
                let b = ordering_time(batch.columns[c].cells[order[q]]);
                a < b || (a == b && order[p] < order[q])
            },
    ensures
        row_order(batch) == order,
{
    a_column_is_found_by_its_name(batch, "timestamp"@);
    assert(batch.columns[c].is_column(batch.rows));
    let times = times_or_zero(integers(batch.columns[c]));
    assert forall|row: int| 0 <= row < batch.rows implies #[trigger] times[row] == ordering_time(
        batch.columns[c].cells[row],
    ) by {}
    assert(is_time_order(times, order)) by {
        assert forall|p: int, q: int|
            0 <= p < q < order.len() implies crate::query::dedup::time_row_before(
            times,
            #[trigger] order[p],
            #[trigger] order[q],
        ) by {
            assert(times[order[p]] == ordering_time(batch.columns[c].cells[order[p]]));
            assert(times[order[q]] == ordering_time(batch.columns[c].cells[order[q]]));
        }
    }
    crate::query::dedup::the_time_order_is_unique(times, order, time_order(times));
}

/// A single batch without a time column of integers keeps its rows as they are.
pub proof fn a_batch_without_times_is_not_sorted(batch: BatchModel)
    requires
        forall|c: int| #[trigger]
            is_first_named(batch, "timestamp"@, c) ==> !(batch.columns[c].field.kind is Int64),
    ensures
        row_order(batch) == Seq::new(batch.rows, |i: int| i),
{
    a_column_is_found_by_its_name(batch, "timestamp"@);
    if let Some(c) = batch.index_of("timestamp"@) {
        assert(is_first_named(batch, "timestamp"@, c));
    }
    assert(row_order(batch) =~= Seq::new(batch.rows, |i: int| i));
}

/// The chunks of a single batch hold its rows in that order.
pub proof fn chunks_of_a_batch_hold_its_rows(
    batch: BatchModel,
    rows: Seq<int>,
    size: nat,
    c: int,
)
    requires
        size > 0,
        0 <= c < batch.columns.len(),
    ensures
        ({
            let parts = batch_chunks(batch, rows, size);
            &&& joined_cells(parts, c) == rows.map_values(|row: int| batch.columns[c].cells[row])
            &&& forall|i: int| 0 <= i < parts.len() ==> 0 < (#[trigger] parts[i]).rows <= size
            &&& forall|i: int| 0 <= i < parts.len() - 1 ==> (#[trigger] parts[i]).rows == size
        }),
{
    chunks_hold_everything(rows, size);
    let parts = batch_chunks(batch, rows, size);
    assert forall|i: int| 0 <= i < parts.len() implies (#[trigger] parts[i]).rows == chunks(
        rows,
        size,
    )[i].len() by {}
    lemma_chunk_cells(batch, rows, size, c);
}

proof fn lemma_chunk_cells(batch: BatchModel, rows: Seq<int>, size: nat, c: int)
    requires
        size > 0,
        0 <= c < batch.columns.len(),
    ensures
        joined_cells(batch_chunks(batch, rows, size), c) == rows.map_values(
            |row: int| batch.columns[c].cells[row],
        ),
    decreases rows.len(),
{
    let cell = |row: int| batch.columns[c].cells[row];
    let parts = batch_chunks(batch, rows, size);
    let cells = parts.map_values(|b: BatchModel| b.columns[c].cells);
    if rows.len() == 0 {
        assert(cells.flatten() =~= rows.map_values(cell));
    } else if rows.len() <= size {
        assert(chunks(rows, size) =~= seq![rows]);
        assert(cells.len() == 1);
        assert(cells[0] =~= rows.map_values(cell));
        assert(cells.first() =~= rows.map_values(cell));
        assert(cells.drop_first() =~= Seq::empty());
        assert(cells.drop_first().flatten() =~= Seq::empty());
        assert(cells.flatten() =~= rows.map_values(cell));
    } else {
        let head = rows.take(size as int);
        let rest = rows.skip(size as int);
        lemma_chunk_cells(batch, rest, size, c);
        let tail = batch_chunks(batch, rest, size).map_values(
            |b: BatchModel| b.columns[c].cells,
        );
        assert(cells.first() =~= head.map_values(cell));
        assert(cells.drop_first() =~= tail);
        assert(cells.flatten() =~= head.map_values(cell) + rest.map_values(cell));
        assert(rows.map_values(cell) =~= head.map_values(cell) + rest.map_values(cell));
    }
}

/// A chunk size of zero counts as one; any other is taken as it is.
pub proof fn chunks_have_at_least_one_row(size: usize)
    ensures
        chunk_rows(0) == 1,
        size > 0 ==> chunk_rows(size) == size,
{
}

} // verus!
