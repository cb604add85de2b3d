//! Conversion of points, which are rows, to batches of columns.
use vstd::prelude::*;
use vstd::string::*;

use crate::query::batch::{Batch, Cell, Column, ColumnField, ColumnKind};
#[allow(unused_imports)]
use crate::query::batch::{can_hold, BatchModel, CellModel, ColumnModel, FieldModel};
use crate::query::cells::{column_type_to_arrow, ColumnType, FieldValue};
#[allow(unused_imports)]
use crate::query::cells::{kind_of, ValueModel};
use crate::query::error::QueryError;
#[allow(unused_imports)]
use crate::query::float::float_of;
use crate::query::float::nearest_float;
use crate::query::series::{time_column_name, SeriesKey};
#[allow(unused_imports)]
use crate::query::series::{time_column, SeriesKeyModel};
use crate::sorted_map::SortedMap;
#[allow(unused_imports)]
use crate::sorted_map::{ascending, enumeration, map_of};

verus! {

broadcast use vstd::string::group_string_axioms;

/// A row of a measurement: a series, its fields, and a timestamp.
#[derive(Debug)]
pub struct Point {
    key: SeriesKey,
    fields: SortedMap<String, FieldValue>,
    timestamp: i64,
}

/// What a point stands for.
#[verifier::ext_equal]
pub struct PointModel {
    /// The series.
    pub key: SeriesKeyModel,
    /// Field names and values, in ascending order of the names.
    pub fields: Seq<(Seq<char>, ValueModel)>,
    /// Timestamp.
    pub timestamp: i64,
}

impl View for Point {
    type V = PointModel;

    closed spec fn view(&self) -> PointModel {
        PointModel {
            key: self.key@,
            fields: self.fields.pairs(),
            timestamp: self.timestamp,
        }
    }
}

impl PointModel {
    /// The value of a field.
    pub open spec fn field(self, name: Seq<char>) -> Option<ValueModel> {
        if map_of(self.fields).contains_key(name) {
            Some(map_of(self.fields)[name])
        } else {
            None
        }
    }
}

impl Point {
    /// A point of a series.
    pub fn new(key: SeriesKey, fields: SortedMap<String, FieldValue>, timestamp: i64) -> (r: Self)
        ensures
            r@ == (PointModel { key: key@, fields: fields.pairs(), timestamp }),
    {
        Point { key, fields, timestamp }
    }

    /// The series.
    pub fn series_key(&self) -> (r: &SeriesKey)
        ensures
            r@ == self@.key,
    {
        &self.key
    }

    /// Timestamp.
    pub fn timestamp(&self) -> (r: i64)
        ensures
            r == self@.timestamp,
    {
        self.timestamp
    }

    /// The value of a field.
    pub fn field(&self, name: &String) -> (r: Option<&FieldValue>)
        ensures
            match r {
                Some(value) => self@.field(name@) == Some(value.deep_view()),
                None => self@.field(name@) is None,
            },
    {
        self.fields.get(name)
    }
}

/// Points, by their contents.
pub open spec fn points_of(points: Seq<Point>) -> Seq<PointModel> {
    points.map_values(|point: Point| point@)
}

/// The type of a column that holds the value.
pub open spec fn type_of(value: ValueModel) -> ColumnType {
    match value {
        ValueModel::I64(_) => ColumnType::I64,
        ValueModel::U64(_) => ColumnType::U64,
        ValueModel::F64(_) => ColumnType::F64,
        ValueModel::Bool(_) => ColumnType::Bool,
        ValueModel::String(_) => ColumnType::String,
        ValueModel::Decimal { mantissa: _, scale } => ColumnType::Decimal { scale },
    }
}

fn value_type(value: &FieldValue) -> (r: ColumnType)
    ensures
        r == type_of(value.deep_view()),
{
    match value {
        FieldValue::I64(_) => ColumnType::I64,
        FieldValue::U64(_) => ColumnType::U64,
        FieldValue::F64(_) => ColumnType::F64,
        FieldValue::Bool(_) => ColumnType::Bool,
        FieldValue::String(_) => ColumnType::String,
        FieldValue::Decimal { mantissa: _, scale } => ColumnType::Decimal { scale: *scale },
    }
}

/// One of the types that widen to double precision.
pub open spec fn is_numeric(t: ColumnType) -> bool {
    t == ColumnType::I64 || t == ColumnType::U64 || t == ColumnType::F64
}

/// The type of a field that has values of both types: double precision where
/// both are numeric, else text.
pub open spec fn widened(a: ColumnType, b: ColumnType) -> ColumnType {
    if a == b {
        a
    } else if is_numeric(a) && is_numeric(b) {
        ColumnType::F64
    } else {
        ColumnType::String
    }
}

fn widen(a: ColumnType, b: ColumnType) -> (r: ColumnType)
    ensures
        r == widened(a, b),
{
    let a_counts = a == ColumnType::I64 || a == ColumnType::U64 || a == ColumnType::F64;
    let b_counts = b == ColumnType::I64 || b == ColumnType::U64 || b == ColumnType::F64;
    if a == b {
        a
    } else if a_counts && b_counts {
        ColumnType::F64
    } else {
        ColumnType::String
    }
}

/// The type of a field does not depend on the order in which its values are
/// seen.
pub proof fn widening_goes_by_the_set_of_types(a: ColumnType, b: ColumnType, c: ColumnType)
    ensures
        widened(a, a) == a,
        widened(a, b) == widened(b, a),
        widened(widened(a, b), c) == widened(a, widened(b, c)),
{
}

/// The names of the tags seen, with those of one more point.
pub open spec fn names_after(
    names: Map<Seq<char>, u8>,
    tags: Seq<(Seq<char>, Seq<char>)>,
) -> Map<Seq<char>, u8>
    decreases tags.len(),
{
    if tags.len() == 0 {
        names
    } else {
        names_after(names, tags.drop_last()).insert(tags.last().0, 0)
    }
}

/// The names of the tags of all points.
pub open spec fn tag_names(points: Seq<PointModel>) -> Map<Seq<char>, u8>
    decreases points.len(),
{
    if points.len() == 0 {
        Map::empty()
    } else {
        names_after(tag_names(points.drop_last()), points.last().key.tags)
    }
}

/// The types of the fields seen, with those of one more point.
pub open spec fn types_after(
    types: Map<Seq<char>, ColumnType>,
    fields: Seq<(Seq<char>, ValueModel)>,
) -> Map<Seq<char>, ColumnType>
    decreases fields.len(),
{
    if fields.len() == 0 {
        types
    } else {
        let before = types_after(types, fields.drop_last());
        let (name, value) = fields.last();
        before.insert(
            name,
            if before.contains_key(name) {
                widened(before[name], type_of(value))
            } else {
                type_of(value)
            },
        )
    }
}

/// The types of the fields of all points.
pub open spec fn field_types(points: Seq<PointModel>) -> Map<Seq<char>, ColumnType>
    decreases points.len(),
{
    if points.len() == 0 {
        Map::empty()
    } else {
        types_after(field_types(points.drop_last()), points.last().fields)
    }
}

/// A tag has a column just if one of the points has the tag.
pub proof fn tags_have_columns(points: Seq<PointModel>, name: Seq<char>)
    ensures
        tag_names(points).contains_key(name) == exists|i: int, k: int|
            0 <= i < points.len() && 0 <= k < points[i].key.tags.len()
                && (#[trigger] points[i].key.tags[k]).0 == name,
    decreases points.len(),
{
    if points.len() > 0 {
        let rest = points.drop_last();
        tags_have_columns(rest, name);
        lemma_names_after(tag_names(rest), points.last().key.tags, name);
        if tag_names(rest).contains_key(name) {
            let (i, k) = choose|i: int, k: int|
                0 <= i < rest.len() && 0 <= k < rest[i].key.tags.len()
                    && (#[trigger] rest[i].key.tags[k]).0 == name;
            assert(points[i].key.tags[k].0 == name);
        } else if tag_names(points).contains_key(name) {
            let k = choose|k: int|
                0 <= k < points.last().key.tags.len()
                    && (#[trigger] points.last().key.tags[k]).0 == name;
            assert(points[points.len() - 1].key.tags[k].0 == name);
        }
        if exists|i: int, k: int|
            0 <= i < points.len() && 0 <= k < points[i].key.tags.len()
                && (#[trigger] points[i].key.tags[k]).0 == name {
            let (i, k) = choose|i: int, k: int|
                0 <= i < points.len() && 0 <= k < points[i].key.tags.len()
                    && (#[trigger] points[i].key.tags[k]).0 == name;
            if i < rest.len() {
                assert(rest[i].key.tags[k].0 == name);
            } else {
                assert(points.last().key.tags[k].0 == name);
            }
        }
    }
}

proof fn lemma_names_after(
    names: Map<Seq<char>, u8>,
    tags: Seq<(Seq<char>, Seq<char>)>,
    name: Seq<char>,
)
    ensures
        names_after(names, tags).contains_key(name) == (names.contains_key(name) || exists|k: int|
            0 <= k < tags.len() && (#[trigger] tags[k]).0 == name),
    decreases tags.len(),
{
    if tags.len() > 0 {
        let rest = tags.drop_last();
        lemma_names_after(names, rest, name);
        if exists|k: int| 0 <= k < rest.len() && (#[trigger] rest[k]).0 == name {
            let k = choose|k: int| 0 <= k < rest.len() && (#[trigger] rest[k]).0 == name;
            assert(tags[k].0 == name);
        }
        if tags.last().0 == name {
            assert(tags[tags.len() - 1].0 == name);
        }
        if exists|k: int| 0 <= k < tags.len() && (#[trigger] tags[k]).0 == name {
            let k = choose|k: int| 0 <= k < tags.len() && (#[trigger] tags[k]).0 == name;
            if k < rest.len() {
                assert(rest[k].0 == name);
            }
        }
    }
}

/// The cell of a point in a tag column.
pub open spec fn tag_cell(point: PointModel, name: Seq<char>) -> CellModel {
    match point.key.tag(name) {
        Some(value) => CellModel::Text(value),
        None => CellModel::Null,
    }
}

/// The cell of a point in a field column: null where the point does not have the
/// field, or has a value of another type than the column. An integer in a
/// column of double-precision values is widened to the nearest such value.
pub open spec fn field_cell(point: PointModel, name: Seq<char>, t: ColumnType) -> CellModel {
    match (point.field(name), t) {
        (Some(ValueModel::I64(v)), ColumnType::I64) => CellModel::Int(v),
        (Some(ValueModel::U64(v)), ColumnType::U64) => CellModel::UInt(v),
        (Some(ValueModel::F64(v)), ColumnType::F64) => CellModel::Float(v),
        (Some(ValueModel::I64(v)), ColumnType::F64) => CellModel::Float(float_of(v as int)),
        (Some(ValueModel::U64(v)), ColumnType::F64) => CellModel::Float(float_of(v as int)),
        (Some(ValueModel::Bool(v)), ColumnType::Bool) => CellModel::Bool(v),
        (Some(ValueModel::String(v)), ColumnType::String) => CellModel::Text(v),
        (
            Some(ValueModel::Decimal { mantissa, scale }),
            ColumnType::Decimal { scale: wanted },
        ) => if scale == wanted {
            CellModel::Decimal(mantissa)
        } else {
            CellModel::Null
        },
        _ => CellModel::Null,
    }
}

/// A field of a batch of points.
pub open spec fn plain_field(name: Seq<char>, kind: ColumnKind) -> FieldModel {
    FieldModel { name, kind, nullable: true, tag: false }
}

/// The column of timestamps.
pub open spec fn timestamps(points: Seq<PointModel>) -> ColumnModel {
    ColumnModel {
        field: plain_field(time_column(), ColumnKind::Int64),
        cells: points.map_values(|p: PointModel| CellModel::Int(p.timestamp)),
    }
}

/// The column of a tag.
pub open spec fn tag_column(points: Seq<PointModel>, name: Seq<char>) -> ColumnModel {
    ColumnModel {
        field: plain_field(name, ColumnKind::Utf8),
        cells: points.map_values(|p: PointModel| tag_cell(p, name)),
    }
}

/// The column of a field.
pub open spec fn field_column(
    points: Seq<PointModel>,
    name: Seq<char>,
    t: ColumnType,
) -> ColumnModel {
    ColumnModel {
        field: plain_field(name, kind_of(t)),
        cells: points.map_values(|p: PointModel| field_cell(p, name, t)),
    }
}

/// The batch of the points: the timestamps, then the tags and then the fields,
/// each by name. No points make a batch without columns.
pub open spec fn batch_of(points: Seq<PointModel>) -> BatchModel {
    let tags = enumeration::<String, u8>(tag_names(points));
    let fields = enumeration::<String, ColumnType>(field_types(points));
    BatchModel {
        rows: points.len(),
        columns: if points.len() == 0 {
            Seq::empty()
        } else {
            seq![timestamps(points)] + tags.map_values(
                |t: (Seq<char>, u8)| tag_column(points, t.0),
            ) + fields.map_values(|f: (Seq<char>, ColumnType)| field_column(points, f.0, f.1))
        },
    }
}

/// What has been found out about the columns of some points.
struct Discovery {
    tags: SortedMap<String, u8>,
    fields: SortedMap<String, ColumnType>,
}

/// Find out the tags, and the fields and their types, of the points.
fn discover_columns(points: &Vec<Point>) -> (r: Discovery)
    ensures
        r.tags@ == tag_names(points_of(points@)),
        r.fields@ == field_types(points_of(points@)),
{
    let ghost models = points_of(points@);
    let mut tags: SortedMap<String, u8> = SortedMap::new();
    let mut fields: SortedMap<String, ColumnType> = SortedMap::new();
    let mut i: usize = 0;
    while i < points.len()
        invariant
            i <= points.len(),
            models == points_of(points@),
            tags@ == tag_names(models.take(i as int)),
            fields@ == field_types(models.take(i as int)),
        decreases points.len() - i,
    {
        let point = &points[i];
        proof {
            assert(models.take(i + 1).drop_last() =~= models.take(i as int));
            assert(models.take(i + 1).last() == point@);
        }
        let ghost names_before = tags@;
        let ghost own_tags = point@.key.tags;
        let key = point.series_key();
        let mut k: usize = 0;
        assert(own_tags.take(0) =~= Seq::empty());
        while k < key.tag_count()
            invariant
                k <= own_tags.len(),
                own_tags == key@.tags,
                tags@ == names_after(names_before, own_tags.take(k as int)),
            decreases own_tags.len() - k,
        {
            tags.insert(key.tag_name(k).clone(), 0);
            proof {
                assert(own_tags.take(k + 1).drop_last() =~= own_tags.take(k as int));
                assert(own_tags.take(k + 1).last() == own_tags[k as int]);
            }
            k = k + 1;
        }
        assert(own_tags.take(k as int) =~= own_tags);
        let ghost types_before = fields@;
        let ghost own_fields = point@.fields;
        let mut f: usize = 0;
        assert(own_fields.take(0) =~= Seq::empty());
        while f < point.fields.len()
            invariant
                f <= own_fields.len(),
                own_fields == point.fields.pairs(),
                fields@ == types_after(types_before, own_fields.take(f as int)),
            decreases own_fields.len() - f,
        {
            let name = point.fields.key_at(f);
            let t = value_type(point.fields.value_at(f));
            let wide = match fields.get(name) {
                Some(known) => widen(*known, t),
                None => t,
            };
            fields.insert(name.clone(), wide);
            proof {
                assert(own_fields.take(f + 1).drop_last() =~= own_fields.take(f as int));
                assert(own_fields.take(f + 1).last() == own_fields[f as int]);
            }
            f = f + 1;
        }
        assert(own_fields.take(f as int) =~= own_fields);
        i = i + 1;
    }
    assert(models.take(i as int) =~= models);
    Discovery { tags, fields }
}

fn plain(name: &str, kind: ColumnKind) -> (r: ColumnField)
    ensures
        r.deep_view() == plain_field(name@, kind),
{
    ColumnField { name: name.to_owned(), kind, nullable: true, tag: false }
}

fn timestamps_column(points: &Vec<Point>) -> (r: Column)
    ensures
        r.deep_view() == timestamps(points_of(points@)),
        r.deep_view().is_column(points@.len()),
{
    let mut cells: Vec<Cell> = Vec::new();
    let mut i: usize = 0;
    while i < points.len()
        invariant
            i <= points.len(),
            cells@.len() == i,
            forall|j: int|
                0 <= j < i ==> (#[trigger] cells@[j]).deep_view() == CellModel::Int(
                    points@[j]@.timestamp,
                ),
        decreases points.len() - i,
    {
        cells.push(Cell::Int(points[i].timestamp()));
        i = i + 1;
    }
    let r = Column { field: plain(time_column_name(), ColumnKind::Int64), cells };
    assert(r.deep_view().cells =~= timestamps(points_of(points@)).cells);
    r
}

fn tag_cells(points: &Vec<Point>, name: &String) -> (r: Column)
    ensures
        r.deep_view() == tag_column(points_of(points@), name@),
        r.deep_view().is_column(points@.len()),
{
    let mut cells: Vec<Cell> = Vec::new();
    let mut i: usize = 0;
    while i < points.len()
        invariant
            i <= points.len(),
            cells@.len() == i,
            forall|j: int|
                0 <= j < i ==> (#[trigger] cells@[j]).deep_view() == tag_cell(points@[j]@, name@),
        decreases points.len() - i,
    {
        let cell = match points[i].series_key().tag(name) {
            Some(value) => Cell::Text(value.clone()),
            None => Cell::Null,
        };
        cells.push(cell);
        i = i + 1;
    }
    let r = Column { field: plain(name.as_str(), ColumnKind::Utf8), cells };
    assert(r.deep_view().cells =~= tag_column(points_of(points@), name@).cells);
    r
}

fn value_cell(point: &Point, name: &String, t: ColumnType) -> (r: Cell)
    ensures
        r.deep_view() == field_cell(point@, name@, t),
        can_hold(kind_of(t), r.deep_view()),
{
    match (point.field(name), t) {
        (Some(FieldValue::I64(v)), ColumnType::I64) => Cell::Int(*v),
        (Some(FieldValue::U64(v)), ColumnType::U64) => Cell::UInt(*v),
        (Some(FieldValue::F64(v)), ColumnType::F64) => Cell::Float(*v),
        (Some(FieldValue::I64(v)), ColumnType::F64) => Cell::Float(nearest_float(*v as i128)),
        (Some(FieldValue::U64(v)), ColumnType::F64) => Cell::Float(nearest_float(*v as i128)),
        (Some(FieldValue::Bool(v)), ColumnType::Bool) => Cell::Bool(*v),
        (Some(FieldValue::String(v)), ColumnType::String) => Cell::Text(v.clone()),
        (
            Some(FieldValue::Decimal { mantissa, scale }),
            ColumnType::Decimal { scale: wanted },
        ) => {
            if *scale == wanted {
                Cell::Decimal(*mantissa)
            } else {
                Cell::Null
            }
        },
        _ => Cell::Null,
    }
}

fn field_cells(points: &Vec<Point>, name: &String, t: ColumnType) -> (r: Column)
    ensures
        r.deep_view() == field_column(points_of(points@), name@, t),
        r.deep_view().is_column(points@.len()),
{
    let mut cells: Vec<Cell> = Vec::new();
    let mut i: usize = 0;
    while i < points.len()
        invariant
            i <= points.len(),
            cells@.len() == i,
            forall|j: int|
                0 <= j < i ==> (#[trigger] cells@[j]).deep_view() == field_cell(
                    points@[j]@,
                    name@,
                    t,
                ),
            forall|j: int|
                0 <= j < i ==> can_hold(kind_of(t), (#[trigger] cells@[j]).deep_view()),
        decreases points.len() - i,
    {
        cells.push(value_cell(&points[i], name, t));
        i = i + 1;
    }
    let r = Column { field: plain(name.as_str(), column_type_to_arrow(t)), cells };
    assert(r.deep_view().cells =~= field_column(points_of(points@), name@, t).cells);
    r
}

/// The batch of some points of one measurement.
///
/// A field whose values have different types gets a column of double precision
/// where all of them are numeric, else one of texts; values of another type than
/// the column's are null in it.
pub fn points_to_record_batch(points: &Vec<Point>) -> (r: Result<Batch, QueryError>)
    ensures
        r matches Ok(batch) && batch@ == batch_of(points_of(points@)),
        ascending::<String, u8>(enumeration::<String, u8>(tag_names(points_of(points@)))),
        map_of(enumeration::<String, u8>(tag_names(points_of(points@)))) == tag_names(
            points_of(points@),
        ),
        ascending::<String, ColumnType>(
            enumeration::<String, ColumnType>(field_types(points_of(points@))),
        ),
        map_of(enumeration::<String, ColumnType>(field_types(points_of(points@)))) == field_types(
            points_of(points@),
        ),
{
    let ghost models = points_of(points@);
    let ghost want = batch_of(models);
    let found = discover_columns(points);
    let ghost tags = enumeration::<String, u8>(tag_names(models));
    let ghost fields = enumeration::<String, ColumnType>(field_types(models));
    let tag_count: usize = found.tags.len();
    let field_count: usize = found.fields.len();
    let mut columns: Vec<Column> = Vec::new();
    if points.len() == 0 {
        assert(columns.deep_view() =~= Seq::empty());
        return Batch::try_new(0, columns);
    }
    columns.push(timestamps_column(points));
    let mut k: usize = 0;
    while k < tag_count
        invariant
            k <= tag_count == tags.len(),
            models == points_of(points@),
            want == batch_of(models),
            points@.len() > 0,
            tags == enumeration::<String, u8>(tag_names(models)),
            tags == found.tags.pairs(),
            columns@.len() == 1 + k,
            forall|c: int|
                0 <= c < columns@.len() ==> (#[trigger] columns@[c]).deep_view()
                    == want.columns[c],
            forall|c: int|
                0 <= c < columns@.len() ==> (#[trigger] columns@[c]).deep_view().is_column(
                    points@.len(),
                ),
        decreases tag_count - k,
    {
        columns.push(tag_cells(points, found.tags.key_at(k)));
        assert(want.columns[1 + k] == tag_column(models, tags[k as int].0));
        k = k + 1;
    }
    let mut f: usize = 0;
    while f < field_count
        invariant
            f <= field_count == fields.len(),
            tag_count == tags.len(),
            models == points_of(points@),
            want == batch_of(models),
            points@.len() > 0,
            tags == enumeration::<String, u8>(tag_names(models)),
            fields == enumeration::<String, ColumnType>(field_types(models)),
            fields == found.fields.pairs(),
            columns@.len() == 1 + tag_count + f,
            forall|c: int|
                0 <= c < columns@.len() ==> (#[trigger] columns@[c]).deep_view()
                    == want.columns[c],
            forall|c: int|
                0 <= c < columns@.len() ==> (#[trigger] columns@[c]).deep_view().is_column(
                    points@.len(),
                ),
        decreases field_count - f,
    {
        let t = *found.fields.value_at(f);
        columns.push(field_cells(points, found.fields.key_at(f), t));
        assert(want.columns[1 + tag_count + f] == field_column(
            models,
            fields[f as int].0,
            fields[f as int].1,
        ));
        f = f + 1;
    }
    proof {
        assert(columns.deep_view() =~= want.columns);
        assert forall|c: int| 0 <= c < want.columns.len() implies (
        #[trigger] want.columns[c]).is_column(want.rows) by {
            assert(columns@[c].deep_view() == want.columns[c]);
        }
    }
    Batch::try_new(points.len(), columns)
}

} // verus!
