//! Where the tags, the values and the timestamps of points are in their batch.
use vstd::prelude::*;

#[allow(unused_imports)]
use crate::query::batch::{BatchModel, CellModel, ColumnKind};
#[allow(unused_imports)]
use crate::query::cells::{value_of, CellFailure, ColumnType, ValueModel};
#[allow(unused_imports)]
use crate::query::convert::{
    batch_of, field_cell, field_column, field_types, tag_column, tag_names, tags_have_columns,
    type_of, types_after, widened, PointModel,
};
#[allow(unused_imports)]
use crate::query::float::float_of;
#[allow(unused_imports)]
use crate::sorted_map::{ascending, enumeration, lemma_map_of_ascending, map_of, Key};

verus! {

/// The names of the tags and those of the fields can be listed in order, and the
/// points list theirs so.
pub open spec fn are_in_order(points: Seq<PointModel>) -> bool {
    let tags = enumeration::<String, u8>(tag_names(points));
    let fields = enumeration::<String, ColumnType>(field_types(points));
    &&& ascending::<String, u8>(tags)
    &&& map_of(tags) == tag_names(points)
    &&& ascending::<String, ColumnType>(fields)
    &&& map_of(fields) == field_types(points)
    &&& forall|i: int|
        0 <= i < points.len() ==> ascending::<String, Seq<char>>((#[trigger] points[i]).key.tags)
            && ascending::<String, ValueModel>(points[i].fields)
}

/// The types of the values under a name, point by point.
pub open spec fn types_under(points: Seq<PointModel>, name: Seq<char>) -> Seq<ColumnType>
    decreases points.len(),
{
    if points.len() == 0 {
        Seq::empty()
    } else {
        types_under(points.drop_last(), name) + types_in(points.last().fields, name)
    }
}

/// The types of the values under a name in one point.
pub open spec fn types_in(
    fields: Seq<(Seq<char>, ValueModel)>,
    name: Seq<char>,
) -> Seq<ColumnType> {
    fields.filter(|f: (Seq<char>, ValueModel)| f.0 == name).map_values(
        |f: (Seq<char>, ValueModel)| type_of(f.1),
    )
}

/// All types are the same.
pub open spec fn are_alike(types: Seq<ColumnType>) -> bool {
    forall|i: int| 0 <= i < types.len() ==> #[trigger] types[i] == types[0]
}

/// All types are of numbers that are not decimals.
pub open spec fn are_numeric(types: Seq<ColumnType>) -> bool {
    forall|i: int|
        0 <= i < types.len() ==> (#[trigger] types[i]) is I64 || types[i] is U64 || types[i] is F64
}

/// The type that values of these types share: the one that they all have, else
/// double precision where all are numbers, else text.
pub open spec fn is_shared(types: Seq<ColumnType>, t: ColumnType) -> bool {
    &&& are_alike(types) ==> t == types[0]
    &&& !are_alike(types) && are_numeric(types) ==> t is F64
    &&& !are_alike(types) && !are_numeric(types) ==> t is String
}

proof fn lemma_shared(types: Seq<ColumnType>, t: ColumnType, next: ColumnType)
    requires
        types.len() > 0,
        is_shared(types, t),
    ensures
        is_shared(types.push(next), widened(t, next)),
{
    let all = types.push(next);
    assert(all[types.len() as int] == next);
    assert forall|i: int| 0 <= i < types.len() implies all[i] == types[i] by {}
    assert(all[0] == types[0]);
    if are_alike(types) && next == types[0] {
        assert(are_alike(all)) by {
            assert forall|i: int| 0 <= i < all.len() implies #[trigger] all[i] == all[0] by {
                if i < types.len() {
                    assert(types[i] == types[0]);
                }
            }
        }
    }
    if are_alike(all) {
        assert(are_alike(types)) by {
            assert forall|i: int| 0 <= i < types.len() implies #[trigger] types[i] == types[0] by {
                assert(all[i] == all[0]);
            }
        }
    }
    if are_numeric(all) {
        assert(are_numeric(types)) by {
            assert forall|i: int| 0 <= i < types.len() implies (#[trigger] types[i]) is I64
                || types[i] is U64 || types[i] is F64 by {
                assert(all[i] == types[i]);
            }
        }
        assert(types[0] == all[0]);
    }
    if are_numeric(types) && (next is I64 || next is U64 || next is F64) {
        assert(are_numeric(all)) by {
            assert forall|i: int| 0 <= i < all.len() implies (#[trigger] all[i]) is I64
                || all[i] is U64 || all[i] is F64 by {
                if i < types.len() {
                    assert(types[i] is I64 || types[i] is U64 || types[i] is F64);
                }
            }
        }
    }
    if are_alike(types) && (types[0] is I64 || types[0] is U64 || types[0] is F64) {
        assert(are_numeric(types));
    }
    if are_alike(types) && !(types[0] is I64 || types[0] is U64 || types[0] is F64) {
        assert(!are_numeric(types));
    }
}

proof fn lemma_types_after(
    types: Map<Seq<char>, ColumnType>,
    seen: Seq<ColumnType>,
    fields: Seq<(Seq<char>, ValueModel)>,
    name: Seq<char>,
)
    requires
        types.contains_key(name) <==> seen.len() > 0,
        seen.len() > 0 ==> is_shared(seen, types[name]),
    ensures
        ({
            let all = seen + types_in(fields, name);
            let after = types_after(types, fields);
            &&& after.contains_key(name) <==> all.len() > 0
            &&& all.len() > 0 ==> is_shared(all, after[name])
        }),
    decreases fields.len(),
{
    reveal(Seq::filter);
    let named = |f: (Seq<char>, ValueModel)| f.0 == name;
    let typed = |f: (Seq<char>, ValueModel)| type_of(f.1);
    if fields.len() > 0 {
        let rest = fields.drop_last();
        lemma_types_after(types, seen, rest, name);
        let before = seen + types_in(rest, name);
        if named(fields.last()) {
            assert(rest.filter(named).push(fields.last()).map_values(typed) =~= rest.filter(
                named,
            ).map_values(typed).push(typed(fields.last())));
            assert(seen + types_in(fields, name) =~= before.push(type_of(fields.last().1)));
            if before.len() > 0 {
                lemma_shared(
                    before,
                    types_after(types, rest)[name],
                    type_of(fields.last().1),
                );
            }
        }
    } else {
        assert(seen + types_in(fields, name) =~= seen);
    }
}

/// A field has a column just if some point has it. Its type is that of its
/// values where they agree; values of different numeric types are held as double
/// precision, and any others as texts.
pub proof fn a_field_has_the_type_of_its_values(points: Seq<PointModel>, name: Seq<char>)
    ensures
        field_types(points).contains_key(name) <==> types_under(points, name).len() > 0,
        field_types(points).contains_key(name) ==> is_shared(
            types_under(points, name),
            field_types(points)[name],
        ),
    decreases points.len(),
{
    if points.len() > 0 {
        a_field_has_the_type_of_its_values(points.drop_last(), name);
        lemma_types_after(
            field_types(points.drop_last()),
            types_under(points.drop_last(), name),
            points.last().fields,
            name,
        );
    }
}

/// Every point is a row, and the first column holds the timestamps.
pub proof fn every_point_is_a_row(points: Seq<PointModel>, i: int)
    requires
        0 <= i < points.len(),
    ensures
        batch_of(points).rows == points.len(),
        batch_of(points).columns[0].field.name == "timestamp"@,
        batch_of(points).columns[0].field.kind is Int64,
        batch_of(points).columns[0].cells[i] == CellModel::Int(points[i].timestamp),
{
}

/// The batch has a column of this name and type that holds this cell in a row.
pub open spec fn has_cell(
    batch: BatchModel,
    row: int,
    name: Seq<char>,
    kind: ColumnKind,
    cell: CellModel,
) -> bool {
    exists|c: int|
        1 <= c < batch.columns.len() && (#[trigger] batch.columns[c]).field.name == name
            && batch.columns[c].field.kind == kind && batch.columns[c].cells[row] == cell
}

/// The value of a tag is in the column of the tag, in the row of the point.
pub proof fn a_tag_is_in_its_column(points: Seq<PointModel>, i: int, k: int)
    requires
        are_in_order(points),
        0 <= i < points.len(),
        0 <= k < points[i].key.tags.len(),
    ensures
        has_cell(
            batch_of(points),
            i,
            points[i].key.tags[k].0,
            ColumnKind::Utf8,
            CellModel::Text(points[i].key.tags[k].1),
        ),
{
    let (name, value) = points[i].key.tags[k];
    let tags = enumeration::<String, u8>(tag_names(points));
    tags_have_columns(points, name);
    assert(points[i].key.tags[k].0 == name);
    assert(map_of(tags).contains_key(name));
    let t = choose|t: int| 0 <= t < tags.len() && (#[trigger] tags[t]).0 == name;
    let batch = batch_of(points);
    assert(batch.columns[1 + t] == tag_column(points, name));
    lemma_map_of_ascending::<String, Seq<char>>(points[i].key.tags);
    let key = points[i].key;
    let j = choose|j: int| 0 <= j < key.tags.len() && (#[trigger] key.tags[j]).0 == name;
    assert(key.tags[j].0 == name);
    assert(map_of(key.tags)[name] == key.tags[k].1);
    assert(map_of(key.tags)[name] == key.tags[j].1);
    assert(key.tag(name) == Some(value));
    assert(batch.columns[1 + t].cells[i] == CellModel::Text(value));
}

/// A tag that a point lacks is null in its row.
pub proof fn a_missing_tag_is_null(points: Seq<PointModel>, i: int, c: int)
    requires
        are_in_order(points),
        0 <= i < points.len(),
        1 <= c <= enumeration::<String, u8>(tag_names(points)).len(),
        forall|k: int|
            0 <= k < points[i].key.tags.len() ==> (#[trigger] points[i].key.tags[k]).0
                != batch_of(points).columns[c].field.name,
    ensures
        batch_of(points).columns[c].cells[i] is Null,
{
    let tags = enumeration::<String, u8>(tag_names(points));
    assert(batch_of(points).columns[c] == tag_column(points, tags[c - 1].0));
}

/// The type of the column that holds values of one type.
pub open spec fn kind_for(t: ColumnType) -> ColumnKind {
    match t {
        ColumnType::Timestamp | ColumnType::I64 => ColumnKind::Int64,
        ColumnType::U64 => ColumnKind::UInt64,
        ColumnType::F64 => ColumnKind::Float64,
        ColumnType::Bool => ColumnKind::Boolean,
        ColumnType::String => ColumnKind::Utf8,
        ColumnType::Decimal { scale } => ColumnKind::Decimal128 {
            precision: 38,
            scale: if scale <= 127 {
                scale as i8
            } else {
                0
            },
        },
    }
}

/// The value of a field is in the column of the field, in the row of the point:
/// as it is where all values of the field have its type, and as the nearest
/// double-precision value where they have different numeric types.
pub proof fn a_value_is_in_its_column(points: Seq<PointModel>, i: int, k: int)
    requires
        are_in_order(points),
        0 <= i < points.len(),
        0 <= k < points[i].fields.len(),
    ensures
        ({
            let (name, value) = points[i].fields[k];
            let types = types_under(points, name);
            let cell = match value {
                ValueModel::I64(v) => CellModel::Int(v),
                ValueModel::U64(v) => CellModel::UInt(v),
                ValueModel::F64(v) => CellModel::Float(v),
                ValueModel::Bool(v) => CellModel::Bool(v),
                ValueModel::String(v) => CellModel::Text(v),
                ValueModel::Decimal { mantissa, .. } => CellModel::Decimal(mantissa),
            };
            let widest = match value {
                ValueModel::I64(v) => CellModel::Float(float_of(v as int)),
                ValueModel::U64(v) => CellModel::Float(float_of(v as int)),
                _ => cell,
            };
            &&& are_alike(types) ==> has_cell(
                batch_of(points),
                i,
                name,
                kind_for(type_of(value)),
                cell,
            )
            &&& !are_alike(types) && are_numeric(types) ==> has_cell(
                batch_of(points),
                i,
                name,
                ColumnKind::Float64,
                widest,
            )
            &&& !are_alike(types) && !are_numeric(types) && value is String ==> has_cell(
                batch_of(points),
                i,
                name,
                ColumnKind::Utf8,
                cell,
            )
        }),
{
    let (name, value) = points[i].fields[k];
    let types = types_under(points, name);
    let tags = enumeration::<String, u8>(tag_names(points));
    let fields = enumeration::<String, ColumnType>(field_types(points));
    let batch = batch_of(points);
    a_field_has_the_type_of_its_values(points, name);
    let at = lemma_type_is_listed(points, i, k);
    assert(map_of(fields).contains_key(name));
    let f = choose|f: int| 0 <= f < fields.len() && (#[trigger] fields[f]).0 == name;
    lemma_map_of_ascending::<String, ColumnType>(fields);
    assert(map_of(fields)[fields[f].0] == fields[f].1);
    let c = 1 + tags.len() + f;
    assert(batch.columns[c] == field_column(points, name, fields[f].1));
    lemma_map_of_ascending::<String, ValueModel>(points[i].fields);
    assert(map_of(points[i].fields)[points[i].fields[k].0] == value);
    assert(points[i].field(name) == Some(value));
    assert(batch.columns[c].cells[i] == field_cell(points[i], name, fields[f].1));
    assert(types[at] == type_of(value));
    if are_alike(types) {
        assert(types[at] == types[0]);
    } else if are_numeric(types) {
        assert(types[at] is I64 || types[at] is U64 || types[at] is F64);
    }
}

proof fn lemma_type_is_listed(points: Seq<PointModel>, i: int, k: int) -> (at: int)
    requires
        0 <= i < points.len(),
        0 <= k < points[i].fields.len(),
    ensures
        0 <= at < types_under(points, points[i].fields[k].0).len(),
        types_under(points, points[i].fields[k].0)[at] == type_of(points[i].fields[k].1),
    decreases points.len(),
{
    let name = points[i].fields[k].0;
    let rest = points.drop_last();
    if i < rest.len() {
        lemma_type_is_listed(rest, i, k)
    } else {
        let types = types_in(points[i].fields, name);
        lemma_type_is_in(points[i].fields, k, name);
        let at = choose|at: int| 0 <= at < types.len() && types[at] == type_of(points[i].fields[k].1);
        types_under(rest, name).len() + at
    }
}

proof fn lemma_type_is_in(fields: Seq<(Seq<char>, ValueModel)>, k: int, name: Seq<char>)
    requires
        0 <= k < fields.len(),
        fields[k].0 == name,
    ensures
        types_in(fields, name).contains(type_of(fields[k].1)),
    decreases fields.len(),
{
    reveal(Seq::filter);
    let named = |f: (Seq<char>, ValueModel)| f.0 == name;
    let typed = |f: (Seq<char>, ValueModel)| type_of(f.1);
    let rest = fields.drop_last();
    let before = rest.filter(named);
    if named(fields.last()) {
        assert(fields.filter(named) == before.push(fields.last()));
        assert(types_in(fields, name) =~= types_in(rest, name).push(type_of(fields.last().1)));
        assert(types_in(fields, name)[types_in(rest, name).len() as int] == type_of(
            fields.last().1,
        ));
    }
    if k < rest.len() {
        assert(rest[k] == fields[k]);
        lemma_type_is_in(rest, k, name);
        let at = choose|at: int|
            0 <= at < types_in(rest, name).len() && types_in(rest, name)[at] == type_of(
                fields[k].1,
            );
        assert(types_in(fields, name)[at] == type_of(fields[k].1));
    }
}

/// A field that a point lacks is null in its row.
pub proof fn a_missing_field_is_null(points: Seq<PointModel>, i: int, c: int)
    requires
        are_in_order(points),
        0 <= i < points.len(),
        enumeration::<String, u8>(tag_names(points)).len() < c < batch_of(points).columns.len(),
        forall|k: int|
            0 <= k < points[i].fields.len() ==> (#[trigger] points[i].fields[k]).0 != batch_of(
                points,
            ).columns[c].field.name,
    ensures
        batch_of(points).columns[c].cells[i] is Null,
{
    let tags = enumeration::<String, u8>(tag_names(points));
    let fields = enumeration::<String, ColumnType>(field_types(points));
    let f = c - 1 - tags.len();
    assert(batch_of(points).columns[c] == field_column(points, fields[f].0, fields[f].1));
}

/// The columns behind the timestamps are those of the tags and then those of the
/// fields, each in ascending order of their names, and there are no others.
pub proof fn columns_are_in_the_order_of_their_names(points: Seq<PointModel>)
    requires
        are_in_order(points),
        points.len() > 0,
    ensures
        ({
            let columns = batch_of(points).columns;
            let n = enumeration::<String, u8>(tag_names(points)).len();
            &&& columns.len() > n
            &&& forall|a: int, b: int|
                (1 <= a < b <= n || n < a < b < columns.len()) ==> crate::text::text_before(
                    (#[trigger] columns[a]).field.name,
                    (#[trigger] columns[b]).field.name,
                )
            &&& forall|c: int|
                1 <= c <= n ==> tag_names(points).contains_key((#[trigger] columns[c]).field.name)
            &&& forall|c: int|
                n < c < columns.len() ==> types_under(
                    points,
                    (#[trigger] columns[c]).field.name,
                ).len() > 0
        }),
{
    let columns = batch_of(points).columns;
    let tags = enumeration::<String, u8>(tag_names(points));
    let fields = enumeration::<String, ColumnType>(field_types(points));
    let n = tags.len();
    assert forall|c: int| 1 <= c <= n implies (#[trigger] columns[c]).field.name == tags[c - 1].0 by {}
    assert forall|c: int| n < c < columns.len() implies (#[trigger] columns[c]).field.name
        == fields[c - 1 - n].0 by {}
    assert forall|c: int| 1 <= c <= n implies tag_names(points).contains_key(
        (#[trigger] columns[c]).field.name,
    ) by {
        assert(map_of(tags).contains_key(tags[c - 1].0));
    }
    assert forall|c: int| n < c < columns.len() implies types_under(
        points,
        (#[trigger] columns[c]).field.name,
    ).len() > 0 by {
        assert(map_of(fields).contains_key(fields[c - 1 - n].0));
        a_field_has_the_type_of_its_values(points, fields[c - 1 - n].0);
    }
}

/// A cell is read as the value that it holds, where its column has the type of
/// such values, and a null as none. A decimal needs a scale that is not negative
/// and at most 38 digits before and behind the point.
pub proof fn a_cell_is_read_as_its_value(v: i64, u: u64, b: bool, text: Seq<char>, m: i128, s: i8)
    ensures
        value_of(ColumnKind::Int64, CellModel::Int(v)) == Ok::<_, CellFailure>(
            Some(ValueModel::I64(v)),
        ),
        value_of(ColumnKind::UInt64, CellModel::UInt(u)) == Ok::<_, CellFailure>(
            Some(ValueModel::U64(u)),
        ),
        value_of(ColumnKind::Float64, CellModel::Float(u)) == Ok::<_, CellFailure>(
            Some(ValueModel::F64(u)),
        ),
        value_of(ColumnKind::Boolean, CellModel::Bool(b)) == Ok::<_, CellFailure>(
            Some(ValueModel::Bool(b)),
        ),
        value_of(ColumnKind::Utf8, CellModel::Text(text)) == Ok::<_, CellFailure>(
            Some(ValueModel::String(text)),
        ),
        ({
            let read = value_of(
                ColumnKind::Decimal128 { precision: 38, scale: s },
                CellModel::Decimal(m),
            );
            let digits = crate::query::decimal::pow10(38);
            &&& read is Ok <==> 0 <= s <= 38 && -digits < m < digits
            &&& read matches Ok(value) ==> value == Some(
                ValueModel::Decimal { mantissa: m, scale: s as u8 },
            )
        }),
        forall|kind: ColumnKind| #[trigger]
            value_of(kind, CellModel::Null) == Ok::<Option<ValueModel>, CellFailure>(None),
{
    crate::query::decimal::lemma_pow10_38();
}

/// A cell that is not null and cannot be read says why: its column has a type
/// that no stored value has, or it is not of its column's type, or its decimal
/// has a scale or digits that are not stored.
pub proof fn an_unreadable_cell_says_why(kind: ColumnKind, cell: CellModel)
    requires
        !(cell is Null),
    ensures
        value_of(kind, cell) matches Err(CellFailure::NoSuchType) <==> !(kind is Int64
            || kind is UInt64 || kind is Float64 || kind is Boolean || kind is Utf8
            || kind is Decimal128),
        value_of(kind, cell) matches Err(CellFailure::Disagrees) <==> {
            ||| kind is Int64 && !(cell is Int)
            ||| kind is UInt64 && !(cell is UInt)
            ||| kind is Float64 && !(cell is Float)
            ||| kind is Boolean && !(cell is Bool)
            ||| kind is Utf8 && !(cell is Text)
            ||| kind is Decimal128 && !(cell is Decimal)
        },
        value_of(kind, cell) matches Err(CellFailure::NegativeScale) <==> (
        kind matches ColumnKind::Decimal128 { scale, .. } && cell is Decimal && scale < 0),
        value_of(kind, cell) matches Err(CellFailure::ScaleTooLarge) <==> (
        kind matches ColumnKind::Decimal128 { scale, .. } && cell is Decimal && scale > 38),
        value_of(kind, cell) != Ok::<Option<ValueModel>, CellFailure>(None),
{
}

} // verus!
