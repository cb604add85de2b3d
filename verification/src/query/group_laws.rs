//! How the ways of grouping relate to each other.
use vstd::prelude::*;

#[allow(unused_imports)]
use crate::query::accumulator::{numbers, Moment, Num, Reading};
#[allow(unused_imports)]
use crate::query::agg_fn::{result_name, AggFn};
#[allow(unused_imports)]
use crate::query::aggregate::{
    column_aggregate, column_readings, first_missing, first_untexted, lemma_none_missing, named_columns, named_texts,
};
#[allow(unused_imports)]
use crate::query::error::QueryError;
#[allow(unused_imports)]
use crate::query::frame::{all_rows, optional_texts, DataModel, FrameModel};
#[allow(unused_imports)]
use crate::query::grouped::{
    are_row_groups, frame_groups, frame_keys, group_results, grouped_as, key_parts, shows_groups,
    takes_table, GroupedTable,
};
#[allow(unused_imports)]
use crate::query::grouping::{
    groups_after, groups_are_distinct, new_groups_come_from_keys, GroupKey,
};
#[allow(unused_imports)]
use crate::query::groups::{
    a_group_is_the_rows_with_its_key, lemma_with_rows, no_groups, row_key, rows_with_key,
    with_reading, GroupsModel,
};
#[allow(unused_imports)]
use crate::query::merge::one_ascending_list;
#[allow(unused_imports)]
use crate::query::output::{at_least, settles, table_least};
#[allow(unused_imports)]
use crate::query::result::{result_pairs, ResultColumn, ResultTable, ResultValues};
#[allow(unused_imports)]
use crate::query::row_encoding::key_before;
#[allow(unused_imports)]
use crate::query::sorted::{
    is_key_order, sort_outcome, sorted_as, sorted_group_bytes, sorted_groups,
};
#[allow(unused_imports)]
use crate::query::streaming::{
    first_incomplete, stream_aggregate, stream_groups, stream_outcome, stream_readings,
    stream_stops_at, streamed_as,
};
#[allow(unused_imports)]
use crate::query::totals::{column_summands, group_floats, present};
#[allow(unused_imports)]
use crate::text::{lemma_text_before_irreflexive, lemma_text_before_transitive, text_before};

verus! {

pub proof fn lemma_key_before(a: GroupKey, b: GroupKey)
    ensures
        key_before(a, b) ==> !key_before(b, a),
    decreases a.len(),
{
    if a.len() > 0 && b.len() > 0 {
        if a[0] == b[0] {
            lemma_key_before(a.skip(1), b.skip(1));
        } else {
            match (a[0], b[0]) {
                (Some(x), Some(y)) => {
                    if text_before(x, y) && text_before(y, x) {
                        lemma_text_before_transitive(x, y, x);
                        lemma_text_before_irreflexive(x);
                    }
                },
                _ => {},
            }
        }
    }
}

/// There is one list of the distinct keys of some rows in ascending order.
pub proof fn the_key_order_is_unique(a: Seq<GroupKey>, b: Seq<GroupKey>, ks: Seq<GroupKey>)
    requires
        is_key_order(a, ks),
        is_key_order(b, ks),
    ensures
        a == b,
{
    let before = |x: GroupKey, y: GroupKey| key_before(x, y);
    assert forall|x: GroupKey, y: GroupKey| #[trigger] before(x, y) implies !before(y, x) by {
        lemma_key_before(x, y);
    }
    assert forall|i: int, j: int| 0 <= i < j < a.len() implies before(
        #[trigger] a[i],
        #[trigger] a[j],
    ) by {}
    assert forall|i: int, j: int| 0 <= i < j < b.len() implies before(
        #[trigger] b[i],
        #[trigger] b[j],
    ) by {}
    lemma_same_keys(a, b, ks);
    lemma_same_keys(b, a, ks);
    one_ascending_list(before, a, b);
}

proof fn lemma_same_keys(a: Seq<GroupKey>, b: Seq<GroupKey>, ks: Seq<GroupKey>)
    requires
        is_key_order(a, ks),
        is_key_order(b, ks),
    ensures
        forall|i: int| 0 <= i < a.len() ==> b.contains(#[trigger] a[i]),
{
    assert forall|i: int| 0 <= i < a.len() implies b.contains(#[trigger] a[i]) by {
        assert(ks.contains(a[i]));
        let row = choose|row: int| 0 <= row < ks.len() && ks[row] == a[i];
        assert(b.contains(ks[row]));
    }
}

/// Sorting and hashing give the same groups: every group that one of them finds
/// the other finds too, with the same readings of every field.
pub proof fn sorting_and_hashing_agree(
    frame: FrameModel,
    fields: Seq<Seq<char>>,
    by: Seq<Seq<char>>,
    groups: Seq<GroupKey>,
    key: GroupKey,
)
    requires
        is_key_order(groups, frame_keys(frame, by)),
        first_missing(frame, fields, 0) is None,
    ensures
        groups.contains(key) == frame_groups(frame, fields, by).keys.contains(key),
        groups.contains(key) ==> sorted_groups(frame, fields, by, groups).readings[groups.index_of(
            key,
        )] == frame_groups(frame, fields, by).readings[frame_groups(
            frame,
            fields,
            by,
        ).keys.index_of(key)],
{
    let ks = frame_keys(frame, by);
    let columns = named_columns(frame, fields);
    let texts = named_texts(frame, by);
    let n = frame.rows as int;
    let hashed = frame_groups(frame, fields, by);
    let none = Seq::<GroupKey>::empty();
    lemma_with_rows(no_groups(), frame, columns, texts, n);
    groups_are_distinct(none, ks);
    assert(hashed.keys == groups_after(none, ks));
    if groups.contains(key) {
        let g = choose|g: int| 0 <= g < groups.len() && groups[g] == key;
        assert(ks.contains(groups[g]));
        let row = choose|row: int| 0 <= row < ks.len() && ks[row] == key;
        assert(groups_after(none, ks).contains(ks[row]));
    }
    if hashed.keys.contains(key) {
        let h = choose|h: int| 0 <= h < hashed.keys.len() && hashed.keys[h] == key;
        new_groups_come_from_keys(none, ks, h);
        let row = choose|row: int| 0 <= row < ks.len() && ks[row] == key;
        assert(groups.contains(ks[row]));
    }
    if groups.contains(key) {
        let g = groups.index_of(key);
        let h = hashed.keys.index_of(key);
        let sorted = sorted_groups(frame, fields, by, groups);
        assert(sorted.readings[g].len() == fields.len());
        assert(hashed.readings[h].len() == columns.len());
        assert forall|f: int| 0 <= f < fields.len() implies sorted.readings[g][f]
            == hashed.readings[h][f] by {
            lemma_none_missing(frame, fields, 0, f);
            a_group_is_the_rows_with_its_key(frame, columns, texts, n, h, f);
        }
        assert(sorted.readings[g] =~= hashed.readings[h]);
    }
}

/// A single frame streams as it is grouped.
pub proof fn one_frame_streams_as_it_groups(
    frame: FrameModel,
    fields: Seq<Seq<char>>,
    by: Seq<Seq<char>>,
)
    ensures
        stream_groups(seq![frame], fields, by) == frame_groups(frame, fields, by),
{
    assert(seq![frame].drop_last() =~= Seq::empty());
    assert(seq![frame].last() == frame);
    assert(stream_groups(Seq::empty(), fields, by) == no_groups());
}

/// Some rows of a column.
pub open spec fn data_part(data: DataModel, from: int, to: int) -> DataModel {
    match data {
        DataModel::Texts(cells) => DataModel::Texts(cells.subrange(from, to)),
        DataModel::Floats(cells) => DataModel::Floats(cells.subrange(from, to)),
        DataModel::Integers(cells) => DataModel::Integers(cells.subrange(from, to)),
        DataModel::Unsigned(cells) => DataModel::Unsigned(cells.subrange(from, to)),
        DataModel::Decimals { scale, mantissas } => DataModel::Decimals {
            scale,
            mantissas: mantissas.subrange(from, to),
        },
        DataModel::Others(cells) => DataModel::Others(cells.subrange(from, to)),
    }
}

/// The rows of a frame from `from` to `to`.
pub open spec fn frame_part(frame: FrameModel, from: int, to: int) -> FrameModel {
    FrameModel {
        rows: (to - from) as nat,
        times: match frame.times {
            Some(times) => Some(times.subrange(from, to)),
            None => None,
        },
        columns: frame.columns.map_values(
            |column: (Seq<char>, DataModel)| (column.0, data_part(column.1, from, to)),
        ),
    }
}

proof fn lemma_part_column_from(
    frame: FrameModel,
    from: int,
    to: int,
    name: Seq<char>,
    c: int,
)
    requires
        0 <= c,
    ensures
        frame_part(frame, from, to).column_from(name, c) == frame.column_from(name, c),
        frame.column_from(name, c) matches Some(d) ==> 0 <= d < frame.columns.len(),
    decreases frame.columns.len() - c,
{
    if c < frame.columns.len() {
        assert(frame_part(frame, from, to).columns[c].0 == frame.columns[c].0);
        if frame.columns[c].0 != name {
            lemma_part_column_from(frame, from, to, name, c + 1);
        }
    }
}

proof fn lemma_part_column(frame: FrameModel, from: int, to: int, name: Seq<char>)
    ensures
        match frame.column(name) {
            Some(data) => frame_part(frame, from, to).column(name) == Some(
                data_part(data, from, to),
            ),
            None => frame_part(frame, from, to).column(name) is None,
        },
        match frame.texts(name) {
            Some(cells) => frame_part(frame, from, to).texts(name) == Some(
                cells.subrange(from, to),
            ),
            None => frame_part(frame, from, to).texts(name) is None,
        },
        frame.is_frame() ==> (frame.column(name) matches Some(data) ==> data.is_column(frame.rows)),
{
    lemma_part_column_from(frame, from, to, name, 0);
    if let Some(c) = frame.column_from(name, 0) {
        let part = frame_part(frame, from, to);
        assert(part.columns[c].1 == data_part(frame.columns[c].1, from, to));
        if frame.is_frame() {
            assert(frame.columns[c].1.is_column(frame.rows));
        }
    }
}

proof fn lemma_part_row(
    m: GroupsModel,
    frame: FrameModel,
    fields: Seq<Seq<char>>,
    by: Seq<Seq<char>>,
    from: int,
    to: int,
    row: int,
)
    requires
        frame.is_frame(),
        0 <= from <= row < to <= frame.rows,
    ensures
        ({
            let part = frame_part(frame, from, to);
            let key = row_key(named_texts(frame, by), row);
            &&& row_key(named_texts(part, by), row - from) == key
            &&& m.with_row(part, named_columns(part, fields), key, row - from) == m.with_row(
                frame,
                named_columns(frame, fields),
                key,
                row,
            )
        }),
{
    let part = frame_part(frame, from, to);
    let key = row_key(named_texts(frame, by), row);
    assert forall|c: int| 0 <= c < by.len() implies row_key(named_texts(part, by), row - from)[c]
        == key[c] by {
        lemma_part_column(frame, from, to, by[c]);
        if let Some(cells) = frame.texts(by[c]) {
            assert(cells.len() == frame.rows);
            assert(cells.subrange(from, to)[row - from] == cells[row]);
        }
    }
    assert(row_key(named_texts(part, by), row - from) =~= key);
    let known = m.with_key(key, fields.len());
    let g = known.keys.index_of(key);
    assert(part.moment(row - from) == frame.moment(row));
    let a = Seq::new(
        fields.len(),
        |f: int|
            with_reading(
                known.readings[g][f],
                part,
                named_columns(part, fields)[f],
                row - from,
            ),
    );
    let b = Seq::new(
        fields.len(),
        |f: int| with_reading(known.readings[g][f], frame, named_columns(frame, fields)[f], row),
    );
    assert forall|f: int| 0 <= f < fields.len() implies a[f] == b[f] by {
        lemma_part_column(frame, from, to, fields[f]);
        if let Some(data) = frame.column(fields[f]) {
            assert(data.is_column(frame.rows));
            assert(data_part(data, from, to).reading(row - from) == data.reading(row));
        }
    }
    assert(a =~= b);
    assert(m.with_row(part, named_columns(part, fields), key, row - from).readings
        =~= m.with_row(frame, named_columns(frame, fields), key, row).readings);
}

proof fn lemma_part_rows(
    m: GroupsModel,
    frame: FrameModel,
    fields: Seq<Seq<char>>,
    by: Seq<Seq<char>>,
    from: int,
    to: int,
    n: int,
)
    requires
        frame.is_frame(),
        0 <= from <= n <= to <= frame.rows,
    ensures
        m.with_rows(
            frame,
            named_columns(frame, fields),
            named_texts(frame, by),
            from,
        ).with_rows(
            frame_part(frame, from, to),
            named_columns(frame_part(frame, from, to), fields),
            named_texts(frame_part(frame, from, to), by),
            n - from,
        ) == m.with_rows(frame, named_columns(frame, fields), named_texts(frame, by), n),
    decreases n,
{
    if n > from {
        lemma_part_rows(m, frame, fields, by, from, to, n - 1);
        lemma_part_row(
            m.with_rows(frame, named_columns(frame, fields), named_texts(frame, by), n - 1),
            frame,
            fields,
            by,
            from,
            to,
            n - 1,
        );
    }
}

/// It does not matter how rows are cut into frames: a frame that is streamed in
/// two parts leaves the same groups, with the same readings, as the whole.
pub proof fn cutting_a_frame_does_not_matter(
    frames: Seq<FrameModel>,
    frame: FrameModel,
    fields: Seq<Seq<char>>,
    by: Seq<Seq<char>>,
    cut: int,
)
    requires
        frame.is_frame(),
        0 <= cut <= frame.rows,
    ensures
        stream_groups(
            frames.push(frame_part(frame, 0, cut)).push(
                frame_part(frame, cut, frame.rows as int),
            ),
            fields,
            by,
        ) == stream_groups(frames.push(frame), fields, by),
{
    let n = frame.rows as int;
    let a = frame_part(frame, 0, cut);
    let b = frame_part(frame, cut, n);
    let m = stream_groups(frames, fields, by);
    assert(frames.push(frame).drop_last() =~= frames);
    assert(frames.push(a).push(b).drop_last() =~= frames.push(a));
    assert(frames.push(a).drop_last() =~= frames);
    lemma_part_rows(m, frame, fields, by, 0, cut, cut);
    lemma_part_rows(m, frame, fields, by, cut, n, n);
    let columns = named_columns(frame, fields);
    let texts = named_texts(frame, by);
    assert(m.with_rows(frame, columns, texts, 0) == m);
    assert(stream_groups(frames.push(a), fields, by) == m.with_rows(frame, columns, texts, cut));
    assert(stream_groups(frames.push(a).push(b), fields, by) == m.with_rows(
        frame,
        columns,
        texts,
        n,
    ));
}

proof fn lemma_readings_part(
    frame: FrameModel,
    data: DataModel,
    from: int,
    to: int,
    n: int,
)
    requires
        frame.is_frame(),
        data.is_column(frame.rows),
        0 <= from <= n <= to <= frame.rows,
    ensures
        frame.readings(data, all_rows(from as nat)) + frame_part(frame, from, to).readings(
            data_part(data, from, to),
            all_rows((n - from) as nat),
        ) == frame.readings(data, all_rows(n as nat)),
    decreases n,
{
    let part = frame_part(frame, from, to);
    let cells = data_part(data, from, to);
    let first = frame.readings(data, all_rows(from as nat));
    if n > from {
        lemma_readings_part(frame, data, from, to, n - 1);
        let rows = all_rows(n as nat);
        let own = all_rows((n - from) as nat);
        assert(rows.drop_last() =~= all_rows((n - 1) as nat));
        assert(rows.last() == n - 1);
        assert(own.drop_last() =~= all_rows((n - 1 - from) as nat));
        assert(own.last() == n - 1 - from);
        assert(cells.reading(n - 1 - from) == data.reading(n - 1));
        assert(part.moment(n - 1 - from) == frame.moment(n - 1));
        assert(first + part.readings(cells, own) =~= frame.readings(data, rows));
    } else {
        assert(all_rows(0) =~= Seq::<int>::empty());
        assert(part.readings(cells, all_rows(0)) =~= Seq::empty());
        assert(first + part.readings(cells, all_rows(0)) =~= first);
    }
}

/// Without groups too it does not matter how rows are cut into frames: the
/// readings of a field are the same.
pub proof fn cutting_a_frame_keeps_the_readings(
    frames: Seq<FrameModel>,
    frame: FrameModel,
    field: Seq<char>,
    cut: int,
)
    requires
        frame.is_frame(),
        0 <= cut <= frame.rows,
    ensures
        stream_readings(
            frames.push(frame_part(frame, 0, cut)).push(
                frame_part(frame, cut, frame.rows as int),
            ),
            field,
        ) == stream_readings(frames.push(frame), field),
{
    let n = frame.rows as int;
    let a = frame_part(frame, 0, cut);
    let b = frame_part(frame, cut, n);
    assert(frames.push(frame).drop_last() =~= frames);
    assert(frames.push(a).push(b).drop_last() =~= frames.push(a));
    assert(frames.push(a).drop_last() =~= frames);
    lemma_part_column(frame, 0, cut, field);
    lemma_part_column(frame, cut, n, field);
    if let Some(data) = frame.column(field) {
        lemma_readings_part(frame, data, 0, cut, cut);
        lemma_readings_part(frame, data, cut, n, n);
        assert(frame.readings(data, all_rows(0)) =~= Seq::empty()) by {
            assert(all_rows(0) =~= Seq::<int>::empty());
        }
        let before = stream_readings(frames, field);
        let first = column_readings(a, data_part(data, 0, cut));
        let second = column_readings(b, data_part(data, cut, n));
        assert(first =~= frame.readings(data, all_rows(cut as nat)));
        assert(first + second =~= column_readings(frame, data));
        assert(stream_readings(frames.push(a), field) == before + first);
        assert(stream_readings(frames.push(a).push(b), field) == before + first + second);
        assert(before + first + second =~= before + (first + second));
    } else {
        assert(stream_readings(frames.push(a), field) == stream_readings(frames, field));
    }
}

// ---------------------------------------------------------------------------
// Frames of one schema
// ---------------------------------------------------------------------------

/// The cells of two columns are of one type.
pub open spec fn same_kind(a: DataModel, b: DataModel) -> bool {
    match (a, b) {
        (DataModel::Texts(_), DataModel::Texts(_)) => true,
        (DataModel::Floats(_), DataModel::Floats(_)) => true,
        (DataModel::Integers(_), DataModel::Integers(_)) => true,
        (DataModel::Unsigned(_), DataModel::Unsigned(_)) => true,
        (
            DataModel::Decimals { scale: s, mantissas: _ },
            DataModel::Decimals { scale: t, mantissas: _ },
        ) => s == t,
        (DataModel::Others(_), DataModel::Others(_)) => true,
        _ => false,
    }
}

/// Two frames have the same columns, of the same types.
pub open spec fn same_schema(a: FrameModel, b: FrameModel) -> bool {
    &&& a.times is Some <==> b.times is Some
    &&& a.columns.len() == b.columns.len()
    &&& forall|c: int|
        0 <= c < a.columns.len() ==> (#[trigger] a.columns[c]).0 == b.columns[c].0 && same_kind(
            a.columns[c].1,
            b.columns[c].1,
        )
}

/// The cells of two columns of one type, one after the other.
pub open spec fn data_joined(a: DataModel, b: DataModel) -> DataModel {
    match (a, b) {
        (DataModel::Texts(x), DataModel::Texts(y)) => DataModel::Texts(x + y),
        (DataModel::Floats(x), DataModel::Floats(y)) => DataModel::Floats(x + y),
        (DataModel::Integers(x), DataModel::Integers(y)) => DataModel::Integers(x + y),
        (DataModel::Unsigned(x), DataModel::Unsigned(y)) => DataModel::Unsigned(x + y),
        (
            DataModel::Decimals { scale, mantissas: m },
            DataModel::Decimals { scale: _, mantissas: n },
        ) => DataModel::Decimals { scale, mantissas: m + n },
        (DataModel::Others(x), DataModel::Others(y)) => DataModel::Others(x + y),
        _ => a,
    }
}

/// The rows of two frames of one schema, one after the other.
pub open spec fn frame_joined(a: FrameModel, b: FrameModel) -> FrameModel {
    FrameModel {
        rows: a.rows + b.rows,
        times: match (a.times, b.times) {
            (Some(x), Some(y)) => Some(x + y),
            _ => None,
        },
        columns: Seq::new(
            a.columns.len(),
            |c: int| (a.columns[c].0, data_joined(a.columns[c].1, b.columns[c].1)),
        ),
    }
}

/// The concatenation of frames of one schema.
pub open spec fn concatenated(frames: Seq<FrameModel>) -> FrameModel
    recommends
        frames.len() > 0,
    decreases frames.len(),
{
    if frames.len() <= 1 {
        frames[0]
    } else {
        frame_joined(concatenated(frames.drop_last()), frames.last())
    }
}

/// Frames of one schema.
pub open spec fn share_schema(frames: Seq<FrameModel>) -> bool {
    &&& frames.len() > 0
    &&& forall|i: int| 0 <= i < frames.len() ==> (#[trigger] frames[i]).is_frame()
    &&& forall|i: int| 0 <= i < frames.len() ==> same_schema(frames[0], #[trigger] frames[i])
}

/// Frames that were joined can be cut apart again.
proof fn lemma_joined(a: FrameModel, b: FrameModel)
    requires
        a.is_frame(),
        b.is_frame(),
        same_schema(a, b),
    ensures
        frame_joined(a, b).is_frame(),
        same_schema(a, frame_joined(a, b)),
        frame_part(frame_joined(a, b), 0, a.rows as int) == a,
        frame_part(frame_joined(a, b), a.rows as int, (a.rows + b.rows) as int) == b,
{
    let j = frame_joined(a, b);
    let n = a.rows as int;
    let all = (a.rows + b.rows) as int;
    assert forall|c: int| 0 <= c < j.columns.len() implies {
        let data = (#[trigger] j.columns[c]).1;
        &&& data.is_column(j.rows)
        &&& data_part(data, 0, n) == a.columns[c].1
        &&& data_part(data, n, all) == b.columns[c].1
        &&& same_kind(a.columns[c].1, data)
    } by {
        let x = a.columns[c].1;
        let y = b.columns[c].1;
        assert(a.columns[c].0 == b.columns[c].0 && same_kind(x, y));
        assert(x.is_column(a.rows));
        assert(y.is_column(b.rows));
        let data = j.columns[c].1;
        assert(data == data_joined(x, y));
        assert(data.len() == j.rows);
        assert(data_part(data, 0, n) =~= x);
        assert(data_part(data, n, all) =~= y);
    }
    assert(frame_part(j, 0, n).columns =~= a.columns);
    assert(frame_part(j, n, all).columns =~= b.columns);
    if a.times is Some {
        assert(frame_part(j, 0, n).times.unwrap() =~= a.times.unwrap());
        assert(frame_part(j, n, all).times.unwrap() =~= b.times.unwrap());
    }
    assert(frame_part(j, 0, n) =~= a);
    assert(frame_part(j, n, all) =~= b);
    assert forall|c: int| 0 <= c < a.columns.len() implies (#[trigger] a.columns[c]).0
        == j.columns[c].0 && same_kind(a.columns[c].1, j.columns[c].1) by {
        assert(same_kind(a.columns[c].1, j.columns[c].1));
    }
}

proof fn lemma_concatenated(frames: Seq<FrameModel>)
    requires
        share_schema(frames),
    ensures
        concatenated(frames).is_frame(),
        same_schema(frames[0], concatenated(frames)),
        frames.len() > 1 ==> {
            let rest = frames.drop_last();
            &&& share_schema(rest)
            &&& concatenated(rest).is_frame()
            &&& same_schema(concatenated(rest), frames.last())
        },
    decreases frames.len(),
{
    if frames.len() == 1 {
        assert(frames[0].is_frame());
        assert(same_schema(frames[0], frames[0]));
    } else {
        let rest = frames.drop_last();
        let last = frames[frames.len() - 1];
        assert forall|i: int| 0 <= i < rest.len() implies (#[trigger] rest[i]).is_frame()
            && same_schema(rest[0], rest[i]) by {
            assert(rest[i] == frames[i]);
            assert(frames[i].is_frame());
            assert(same_schema(frames[0], frames[i]));
        }
        lemma_concatenated(rest);
        let whole = concatenated(rest);
        assert(rest[0] == frames[0]);
        assert(last.is_frame());
        assert(same_schema(frames[0], last));
        assert forall|c: int| 0 <= c < whole.columns.len() implies (#[trigger] whole.columns[c]).0
            == last.columns[c].0 && same_kind(whole.columns[c].1, last.columns[c].1) by {
            assert(frames[0].columns[c].0 == whole.columns[c].0);
            assert(same_kind(frames[0].columns[c].1, whole.columns[c].1));
            assert(same_kind(frames[0].columns[c].1, last.columns[c].1));
        }
        assert(same_schema(whole, last));
        lemma_joined(whole, last);
        let joined = frame_joined(whole, last);
        assert forall|c: int| 0 <= c < frames[0].columns.len() implies (
        #[trigger] frames[0].columns[c]).0 == joined.columns[c].0 && same_kind(
            frames[0].columns[c].1,
            joined.columns[c].1,
        ) by {
            assert(frames[0].columns[c].0 == whole.columns[c].0);
            assert(same_kind(frames[0].columns[c].1, whole.columns[c].1));
            assert(whole.columns[c].0 == joined.columns[c].0);
            assert(same_kind(whole.columns[c].1, joined.columns[c].1));
        }
    }
}

/// Frames of one schema, streamed one after the other, leave the groups of
/// their concatenation: the same keys in the same order, with the same
/// readings of every field.
pub proof fn streaming_comes_to_grouping(
    frames: Seq<FrameModel>,
    fields: Seq<Seq<char>>,
    by: Seq<Seq<char>>,
)
    requires
        share_schema(frames),
    ensures
        stream_groups(frames, fields, by) == frame_groups(concatenated(frames), fields, by),
    decreases frames.len(),
{
    if frames.len() == 1 {
        assert(frames =~= seq![frames[0]]);
        one_frame_streams_as_it_groups(frames[0], fields, by);
    } else {
        let rest = frames.drop_last();
        let last = frames.last();
        lemma_concatenated(frames);
        lemma_concatenated(rest);
        streaming_comes_to_grouping(rest, fields, by);
        let whole = concatenated(rest);
        let none = Seq::<FrameModel>::empty();
        assert(frames[frames.len() - 1].is_frame());
        lemma_joined(whole, last);
        cutting_a_frame_does_not_matter(
            none,
            frame_joined(whole, last),
            fields,
            by,
            whole.rows as int,
        );
        assert(none.push(whole) =~= seq![whole]);
        assert(none.push(whole).push(last).drop_last() =~= seq![whole]);
        assert(none.push(frame_joined(whole, last)) =~= seq![frame_joined(whole, last)]);
        one_frame_streams_as_it_groups(whole, fields, by);
        one_frame_streams_as_it_groups(frame_joined(whole, last), fields, by);
        assert(stream_groups(frames, fields, by) == stream_groups(
            none.push(whole).push(last),
            fields,
            by,
        ));
    }
}

/// The readings of a field over frames of one schema are those of their
/// concatenation.
pub proof fn streamed_readings_are_those_of_the_whole(frames: Seq<FrameModel>, field: Seq<char>)
    requires
        share_schema(frames),
    ensures
        stream_readings(frames, field) == match concatenated(frames).column(field) {
            Some(data) => column_readings(concatenated(frames), data),
            None => Seq::empty(),
        },
    decreases frames.len(),
{
    let none = Seq::<FrameModel>::empty();
    lemma_concatenated(frames);
    if frames.len() == 1 {
        assert(frames.drop_last() =~= none);
        lemma_one_frame_readings(frames[0], field);
        assert(frames =~= none.push(frames[0]));
    } else {
        let rest = frames.drop_last();
        let last = frames.last();
        lemma_concatenated(rest);
        streamed_readings_are_those_of_the_whole(rest, field);
        let whole = concatenated(rest);
        assert(frames[frames.len() - 1].is_frame());
        lemma_joined(whole, last);
        let joined = frame_joined(whole, last);
        cutting_a_frame_keeps_the_readings(none, joined, field, whole.rows as int);
        lemma_one_frame_readings(whole, field);
        lemma_one_frame_readings(joined, field);
        assert(none.push(whole).push(last).drop_last() =~= none.push(whole));
        assert(stream_readings(rest, field) == stream_readings(none.push(whole), field));
        assert(stream_readings(frames, field) == stream_readings(
            none.push(whole).push(last),
            field,
        ));
    }
}

proof fn lemma_one_frame_readings(frame: FrameModel, field: Seq<char>)
    ensures
        stream_readings(Seq::<FrameModel>::empty().push(frame), field) == match frame.column(
            field,
        ) {
            Some(data) => column_readings(frame, data),
            None => Seq::empty(),
        },
{
    let none = Seq::<FrameModel>::empty();
    assert(none.push(frame).drop_last() =~= none);
    assert(stream_readings(none, field) =~= Seq::empty());
    if let Some(data) = frame.column(field) {
        assert(Seq::empty() + column_readings(frame, data) =~= column_readings(frame, data));
    }
}

/// Without groups, the number of values and the first and last of them are the
/// same for frames of one schema and for their concatenation.
pub proof fn ungrouped_streams_agree_with_the_whole(
    frames: Seq<FrameModel>,
    field: Seq<char>,
    func: AggFn,
)
    requires
        share_schema(frames),
        concatenated(frames).column(field) is Some,
        func is Count || func is First || func is Last,
    ensures
        stream_aggregate(frames, field, func) == column_aggregate(
            concatenated(frames),
            concatenated(frames).column(field).unwrap(),
            func,
        ),
{
    streamed_readings_are_those_of_the_whole(frames, field);
    assert(stream_readings(frames, field).len() == 0 ==> numbers(
        stream_readings(frames, field),
    ).len() == 0);
}

/// Without a memory budget, streaming the frames of one schema always succeeds,
/// and its table is one that grouping their concatenation gives: the same
/// columns, with the same rows in the same order.
pub proof fn a_streamed_table_shows_the_groups_of_the_whole(
    r: Result<ResultTable, QueryError>,
    frames: Seq<FrameModel>,
    functions: Seq<AggFn>,
    fields: Seq<Seq<char>>,
    by: Seq<Seq<char>>,
    end: Option<(int, int)>,
)
    requires
        share_schema(frames),
        by.len() > 0,
        stream_outcome(r, frames, functions, fields, by, None, end),
    ensures
        r matches Ok(table) && shows_groups(
            &table,
            frame_groups(concatenated(frames), fields, by),
            by,
            fields,
            functions,
        ),
{
    streaming_comes_to_grouping(frames, fields, by);
    if let Err(e) = r {
        let (i, row) = choose|i: int, row: int| #[trigger]
            stream_stops_at(frames, fields, by, None, end, e, i, row);
        assert(stream_stops_at(frames, fields, by, None, end, e, i, row));
    }
}

// ---------------------------------------------------------------------------
// Sorting and hashing
// ---------------------------------------------------------------------------

/// The list holds every number below `n`, once.
pub open spec fn is_permutation(order: Seq<int>, n: nat) -> bool {
    &&& order.len() == n
    &&& order.no_duplicates()
    &&& forall|i: int| 0 <= i < order.len() ==> 0 <= (#[trigger] order[i]) < n
}

/// The groups of `a` are those of `b` in another order.
pub open spec fn is_reordered(a: GroupsModel, b: GroupsModel, order: Seq<int>) -> bool {
    &&& is_permutation(order, b.keys.len())
    &&& a.keys.len() == b.keys.len()
    &&& forall|g: int|
        0 <= g < order.len() ==> a.keys[g] == b.keys[#[trigger] order[g]] && a.readings[g]
            == b.readings[order[g]]
}

/// Sorting gives the groups that hashing gives, each exactly once, in the order
/// of their keys.
pub proof fn sorting_reorders_hashing(
    frame: FrameModel,
    fields: Seq<Seq<char>>,
    by: Seq<Seq<char>>,
    groups: Seq<GroupKey>,
)
    requires
        is_key_order(groups, frame_keys(frame, by)),
        first_missing(frame, fields, 0) is None,
    ensures
        exists|order: Seq<int>| #[trigger]
            is_reordered(
                sorted_groups(frame, fields, by, groups),
                frame_groups(frame, fields, by),
                order,
            ),
        groups.no_duplicates(),
{
    let sorted = sorted_groups(frame, fields, by, groups);
    let hashed = frame_groups(frame, fields, by);
    let ks = frame_keys(frame, by);
    let none = Seq::<GroupKey>::empty();
    lemma_with_rows(
        no_groups(),
        frame,
        named_columns(frame, fields),
        named_texts(frame, by),
        frame.rows as int,
    );
    groups_are_distinct(none, ks);
    let order = Seq::new(groups.len(), |g: int| hashed.keys.index_of(groups[g]));
    assert forall|g: int, h: int| 0 <= g < h < groups.len() implies groups[g] != groups[h] by {
        assert(key_before(groups[g], groups[h]));
        lemma_key_before(groups[g], groups[h]);
    }
    assert(groups.no_duplicates());
    assert(hashed.keys.no_duplicates());
    assert forall|g: int| 0 <= g < groups.len() implies {
        let h = #[trigger] order[g];
        &&& 0 <= h < hashed.keys.len()
        &&& hashed.keys[h] == groups[g]
        &&& sorted.readings[g] == hashed.readings[h]
    } by {
        assert(groups.contains(groups[g]));
        sorting_and_hashing_agree(frame, fields, by, groups, groups[g]);
        let at = groups.index_of(groups[g]);
        assert(groups[at] == groups[g]);
        assert(at == g);
    }
    assert forall|g: int, h: int| 0 <= g < order.len() && 0 <= h < order.len() && g != h implies
        order[g] != order[h] by {
        assert(hashed.keys[order[g]] == groups[g]);
        assert(hashed.keys[order[h]] == groups[h]);
    }
    assert(groups.to_set() =~= hashed.keys.to_set()) by {
        assert forall|key: GroupKey| #[trigger] groups.to_set().contains(key)
            == hashed.keys.to_set().contains(key) by {
            sorting_and_hashing_agree(frame, fields, by, groups, key);
        }
    }
    groups.unique_seq_to_set();
    hashed.keys.unique_seq_to_set();
    assert(is_reordered(sorted, hashed, order));
}

/// Groups in another order show the same rows in that order: the same keys, with
/// the same result of every function over every field.
pub proof fn reordered_groups_show_the_same_rows(
    a: GroupsModel,
    b: GroupsModel,
    order: Seq<int>,
    part: int,
    field: int,
    func: AggFn,
    g: int,
)
    requires
        is_reordered(a, b, order),
        0 <= g < a.keys.len(),
    ensures
        key_parts(a, part)[g] == key_parts(b, part)[order[g]],
        group_results(a, field, func)[g] == group_results(b, field, func)[order[g]],
{
    assert(a.keys[g] == b.keys[order[g]]);
}

/// Two tables have the same columns, with the same cells.
pub open spec fn same_table(a: &ResultTable, b: &ResultTable) -> bool {
    &&& a.keys@.len() == b.keys@.len()
    &&& forall|c: int|
        0 <= c < a.keys@.len() ==> (#[trigger] a.keys@[c]).name@ == b.keys@[c].name@
            && optional_texts(a.keys@[c].values@) == optional_texts(b.keys@[c].values@)
    &&& a.results@.len() == b.results@.len()
    &&& forall|p: int|
        0 <= p < a.results@.len() ==> same_results(#[trigger] &a.results@[p], &b.results@[p])
}

/// Two columns of results have the same name and cells.
pub open spec fn same_results(a: &ResultColumn, b: &ResultColumn) -> bool {
    &&& a.name@ == b.name@
    &&& match (a.values, b.values) {
        (
            ResultValues::Decimals { scale: s, mantissas: m },
            ResultValues::Decimals { scale: t, mantissas: n },
        ) => s == t && m@ == n@,
        (ResultValues::Floats(x), ResultValues::Floats(y)) => x@ == y@,
        _ => false,
    }
}

/// Tables that show the same groups are the same.
pub proof fn a_table_is_determined_by_its_groups(
    a: &ResultTable,
    b: &ResultTable,
    m: GroupsModel,
    by: Seq<Seq<char>>,
    fields: Seq<Seq<char>>,
    functions: Seq<AggFn>,
)
    requires
        shows_groups(a, m, by, fields, functions),
        shows_groups(b, m, by, fields, functions),
    ensures
        same_table(a, b),
{
    let pairs = result_pairs(fields, functions);
    assert forall|c: int| 0 <= c < a.keys@.len() implies (#[trigger] a.keys@[c]).name@
        == b.keys@[c].name@ && optional_texts(a.keys@[c].values@) == optional_texts(
        b.keys@[c].values@,
    ) by {
        assert(b.keys@[c].name@ == by[c]);
    }
    assert forall|p: int| 0 <= p < a.results@.len() implies same_results(
        #[trigger] &a.results@[p],
        &b.results@[p],
    ) by {
        let results = group_results(m, pairs[p].0, pairs[p].1);
        let name = result_name(fields[pairs[p].0], pairs[p].1);
        assert(a.results@[p].shows(name, results));
        assert(b.results@[p].shows(name, results));
    }
}

/// Without a memory budget, sorting succeeds, and its table shows the groups
/// that hashing gives, in strictly ascending order of their keys, nulls first.
pub proof fn a_sorted_table_shows_the_hashed_groups(
    r: Result<GroupedTable, QueryError>,
    frame: FrameModel,
    functions: Seq<AggFn>,
    fields: Seq<Seq<char>>,
    by: Seq<Seq<char>>,
    end: Option<(int, int)>,
    bytes: usize,
)
    requires
        first_missing(frame, fields, 0) is None,
        sort_outcome(r, frame, functions, fields, by, None, end, bytes),
    ensures
        r is Ok,
        exists|groups: Seq<GroupKey>, order: Seq<int>|
            {
                &&& is_key_order(groups, frame_keys(frame, by))
                &&& shows_groups(
                    &r->Ok_0.table,
                    sorted_groups(frame, fields, by, groups),
                    by,
                    fields,
                    functions,
                )
                &&& #[trigger] is_reordered(
                    sorted_groups(frame, fields, by, groups),
                    frame_groups(frame, fields, by),
                    order,
                )
            },
{
    if let Ok(grouped) = r {
        let ks = frame_keys(frame, by);
        let groups = choose|groups: Seq<GroupKey>|
            {
                let model = sorted_groups(frame, fields, by, groups);
                &&& #[trigger] is_key_order(groups, ks)
                &&& shows_groups(&grouped.table, model, by, fields, functions)
            };
        sorting_reorders_hashing(frame, fields, by, groups);
        let order = choose|order: Seq<int>| #[trigger]
            is_reordered(
                sorted_groups(frame, fields, by, groups),
                frame_groups(frame, fields, by),
                order,
            );
        assert(is_reordered(
            sorted_groups(frame, fields, by, groups),
            frame_groups(frame, fields, by),
            order,
        ));
    }
}

/// Where aggregating by hashing succeeds without a memory budget, aggregating by
/// sorting does too: its table has the same columns and the same rows, each
/// exactly once, in strictly ascending order of their keys, nulls first.
pub proof fn sorting_agrees_with_hashing(
    hashed: GroupedTable,
    r: Result<GroupedTable, QueryError>,
    frame: FrameModel,
    functions: Seq<AggFn>,
    fields: Seq<Seq<char>>,
    by: Seq<Seq<char>>,
    hashed_end: Option<(int, int)>,
    end: Option<(int, int)>,
)
    requires
        by.len() > 0,
        grouped_as(Ok(hashed), frame, functions, fields, by, None, hashed_end),
        sorted_as(r, frame, functions, fields, by, None, end),
    ensures
        r is Ok,
        shows_groups(
            &hashed.table,
            frame_groups(frame, fields, by),
            by,
            fields,
            functions,
        ),
        exists|groups: Seq<GroupKey>, order: Seq<int>|
            {
                &&& is_key_order(groups, frame_keys(frame, by))
                &&& shows_groups(
                    &r->Ok_0.table,
                    sorted_groups(frame, fields, by, groups),
                    by,
                    fields,
                    functions,
                )
                &&& #[trigger] is_reordered(
                    sorted_groups(frame, fields, by, groups),
                    frame_groups(frame, fields, by),
                    order,
                )
            },
{
    lemma_texts_are_there(frame, by, 0);
    let (made, held, size) = choose|
        made: Result<GroupedTable, QueryError>,
        held: Option<(int, int)>,
        size: usize,
    |
        sort_outcome(
            made,
            frame,
            functions,
            fields,
            by,
            None,
            held,
            sorted_group_bytes(by.len(), fields.len()) as usize,
        ) && takes_table(made, size) && #[trigger] settles(made, held, r, end, size);
    assert(settles(made, held, r, end, size));
    a_sorted_table_shows_the_hashed_groups(
        made,
        frame,
        functions,
        fields,
        by,
        held,
        sorted_group_bytes(by.len(), fields.len()) as usize,
    );
    assert(held is None);
}

proof fn lemma_texts_are_there(frame: FrameModel, names: Seq<Seq<char>>, from: int)
    requires
        0 <= from,
        first_untexted(frame, names, from) is None,
    ensures
        first_missing(frame, names, from) is None,
    decreases names.len() - from,
{
    if from < names.len() {
        lemma_texts_are_there(frame, names, from + 1);
    }
}

/// Batches of one schema that have all the columns are aggregated, without a
/// memory budget, to the table that aggregating their concatenation gives: the
/// same columns, with the same rows in the same order. How the rows are cut
/// into batches does not matter.
pub proof fn streaming_agrees_with_grouping(
    r: Result<ResultTable, QueryError>,
    whole: GroupedTable,
    frames: Seq<FrameModel>,
    functions: Seq<AggFn>,
    fields: Seq<Seq<char>>,
    by: Seq<Seq<char>>,
    end: Option<(int, int)>,
    whole_end: Option<(int, int)>,
)
    requires
        share_schema(frames),
        first_incomplete(frames, fields, by, 0) is None,
        by.len() > 0,
        streamed_as(r, frames, functions, fields, by, None, end),
        grouped_as(Ok(whole), concatenated(frames), functions, fields, by, None, whole_end),
    ensures
        r matches Ok(table) && same_table(&table, &whole.table),
{
    let (made, held, size) = choose|
        made: Result<ResultTable, QueryError>,
        held: Option<(int, int)>,
        size: usize,
    |
        stream_outcome(made, frames, functions, fields, by, None, held) && (
        made matches Ok(table) ==> at_least(size, table_least(&table))) && #[trigger] settles(
            made,
            held,
            r,
            end,
            size,
        );
    assert(settles(made, held, r, end, size));
    a_streamed_table_shows_the_groups_of_the_whole(made, frames, functions, fields, by, held);
    assert(held is None);
    a_table_is_determined_by_its_groups(
        &made->Ok_0,
        &whole.table,
        frame_groups(concatenated(frames), fields, by),
        by,
        fields,
        functions,
    );
}

// ---------------------------------------------------------------------------
// What sums are made of
// ---------------------------------------------------------------------------

/// The double-precision values among some readings.
pub open spec fn floats_read(rs: Seq<(Reading, Moment)>) -> Seq<u64>
    decreases rs.len(),
{
    if rs.len() == 0 {
        Seq::empty()
    } else {
        match rs.last().0 {
            Reading::Number(Num::F64(v)) => floats_read(rs.drop_last()).push(v),
            _ => floats_read(rs.drop_last()),
        }
    }
}

/// The cells are numbers that are read as double-precision values.
pub open spec fn is_read_as_floats(data: DataModel) -> bool {
    data is Floats || data is Integers || data is Unsigned
}

/// The values whose sum a group's result tells are those that the group's
/// readings hold, in the order of the rows.
pub proof fn summands_are_the_readings_of_a_group(
    frame: FrameModel,
    fields: Seq<Seq<char>>,
    by: Seq<Seq<char>>,
    row_groups: Seq<usize>,
    g: usize,
    f: int,
)
    requires
        frame.is_frame(),
        are_row_groups(
            row_groups,
            frame_groups(frame, fields, by).keys,
            frame_keys(frame, by),
        ),
        g < frame_groups(frame, fields, by).keys.len(),
        0 <= f < fields.len(),
        frame.column(fields[f]) matches Some(data) && is_read_as_floats(data),
    ensures
        floats_read(frame_groups(frame, fields, by).readings[g as int][f]) == group_floats(
            frame.column(fields[f]).unwrap(),
            row_groups,
            g,
            frame.rows as int,
        ),
{
    let ks = frame_keys(frame, by);
    let columns = named_columns(frame, fields);
    let texts = named_texts(frame, by);
    let n = frame.rows as int;
    let hashed = frame_groups(frame, fields, by);
    let none = Seq::<GroupKey>::empty();
    let data = frame.column(fields[f]).unwrap();
    lemma_with_rows(no_groups(), frame, columns, texts, n);
    groups_are_distinct(none, ks);
    a_group_is_the_rows_with_its_key(frame, columns, texts, n, g as int, f);
    let key = hashed.keys[g as int];
    assert forall|row: int| 0 <= row < n implies (#[trigger] row_groups[row] == g <==> row_key(
        texts,
        row,
    ) == key) by {
        assert(hashed.keys[row_groups[row] as int] == ks[row]);
        assert(ks[row] == row_key(texts, row));
        let h = row_groups[row] as int;
        if h < g {
            assert(hashed.keys[h] != hashed.keys[g as int]);
        } else if h > g {
            assert(hashed.keys[g as int] != hashed.keys[h]);
        }
    }
    lemma_group_floats(frame, data, texts, key, row_groups, g, n);
}

proof fn lemma_group_floats(
    frame: FrameModel,
    data: DataModel,
    texts: Seq<Option<Seq<Option<Seq<char>>>>>,
    key: GroupKey,
    row_groups: Seq<usize>,
    g: usize,
    n: int,
)
    requires
        0 <= n,
        is_read_as_floats(data),
        forall|row: int|
            0 <= row < n ==> (#[trigger] row_groups[row] == g <==> row_key(texts, row) == key),
    ensures
        floats_read(frame.readings(data, rows_with_key(texts, key, n))) == group_floats(
            data,
            row_groups,
            g,
            n,
        ),
    decreases n,
{
    if n > 0 {
        lemma_group_floats(frame, data, texts, key, row_groups, g, n - 1);
        let before = rows_with_key(texts, key, n - 1);
        assert(row_groups[n - 1] == g <==> row_key(texts, n - 1) == key);
        if row_key(texts, n - 1) == key {
            let rows = before.push(n - 1);
            assert(rows.drop_last() =~= before);
            let rs = frame.readings(data, rows);
            if data.float_at(n - 1) is Some {
                assert(rs.drop_last() =~= frame.readings(data, before));
            }
        }
    }
}

/// The values whose sum a whole column of floats tells are those that its
/// readings hold.
pub proof fn summands_are_the_readings_of_a_column(frame: FrameModel, cells: Seq<Option<u64>>)
    requires
        cells.len() == frame.rows,
    ensures
        column_summands(DataModel::Floats(cells)) == floats_read(
            column_readings(frame, DataModel::Floats(cells)),
        ),
{
    lemma_column_floats(frame, cells, cells.len() as int);
    assert(cells.take(cells.len() as int) =~= cells);
}

proof fn lemma_column_floats(frame: FrameModel, cells: Seq<Option<u64>>, n: int)
    requires
        0 <= n <= cells.len(),
    ensures
        present(cells.take(n)) == floats_read(
            frame.readings(DataModel::Floats(cells), all_rows(n as nat)),
        ),
    decreases n,
{
    let data = DataModel::Floats(cells);
    if n > 0 {
        lemma_column_floats(frame, cells, n - 1);
        let rows = all_rows(n as nat);
        assert(rows.drop_last() =~= all_rows((n - 1) as nat));
        assert(rows.last() == n - 1);
        assert(cells.take(n).drop_last() =~= cells.take(n - 1));
        let rs = frame.readings(data, rows);
        if cells[n - 1] is Some {
            assert(rs.drop_last() =~= frame.readings(data, rows.drop_last()));
        }
    } else {
        assert(all_rows(0) =~= Seq::<int>::empty());
        assert(cells.take(0) =~= Seq::empty());
    }
}

} // verus!
