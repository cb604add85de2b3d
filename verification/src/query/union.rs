//! Bringing batches with different columns to a common schema.
use vstd::prelude::*;
use vstd::string::*;

use crate::duplicate::Duplicate;
#[allow(unused_imports)]
use crate::query::batch::{can_hold, BatchModel, CellModel, ColumnModel, FieldModel};
use crate::query::batch::{Batch, Cell, Column, ColumnField, ColumnKind};
use crate::query::error::QueryError;
#[allow(unused_imports)]
use crate::query::filter::rows_where;
#[allow(unused_imports)]
use crate::query::merge::places_of;
#[allow(unused_imports)]
use crate::query::series::time_column;
use crate::query::series::time_column_name;
#[allow(unused_imports)]
use crate::query::tags::numbers_of;
use crate::text::same_text;

verus! {

broadcast use vstd::string::group_string_axioms;

/// Batches, by their contents.
pub open spec fn models_of(batches: Seq<Batch>) -> Seq<BatchModel> {
    batches.map_values(|batch: Batch| batch@)
}

/// One of the fields has this name.
pub open spec fn has_field(fields: Seq<FieldModel>, name: Seq<char>) -> bool {
    exists|i: int| 0 <= i < fields.len() && (#[trigger] fields[i]).name == name
}

/// The fields with one more, unless its name is there already. Where fields of
/// several batches come together, cells may be null.
pub open spec fn with_field(fields: Seq<FieldModel>, field: FieldModel, several: bool) -> Seq<
    FieldModel,
> {
    if has_field(fields, field.name) {
        fields
    } else {
        fields.push(FieldModel { nullable: several || field.nullable, ..field })
    }
}

/// The fields with those of another batch.
pub open spec fn with_fields(
    fields: Seq<FieldModel>,
    more: Seq<FieldModel>,
    several: bool,
) -> Seq<FieldModel>
    decreases more.len(),
{
    if more.len() == 0 {
        fields
    } else {
        with_field(with_fields(fields, more.drop_last(), several), more.last(), several)
    }
}

/// The fields of all batches, in the order in which their names are first seen.
pub open spec fn union_of(batches: Seq<BatchModel>, several: bool) -> Seq<FieldModel>
    decreases batches.len(),
{
    if batches.len() == 0 {
        Seq::empty()
    } else {
        with_fields(union_of(batches.drop_last(), several), batches.last().fields(), several)
    }
}

/// The schema that holds all columns of all batches.
pub open spec fn union_fields(batches: Seq<BatchModel>) -> Seq<FieldModel> {
    union_of(batches, batches.len() > 1)
}

/// No name occurs twice.
pub open spec fn distinct_fields(fields: Seq<FieldModel>) -> bool {
    forall|i: int, j: int|
        0 <= i < j < fields.len() ==> (#[trigger] fields[i]).name != (#[trigger] fields[j]).name
}

proof fn lemma_with_fields(fields: Seq<FieldModel>, more: Seq<FieldModel>, several: bool)
    requires
        distinct_fields(fields),
    ensures
        distinct_fields(with_fields(fields, more, several)),
        forall|i: int|
            0 <= i < fields.len() ==> with_fields(fields, more, several)[i]
                == #[trigger] fields[i],
        fields.len() <= with_fields(fields, more, several).len(),
        forall|i: int|
            0 <= i < more.len() ==> has_field(
                with_fields(fields, more, several),
                (#[trigger] more[i]).name,
            ),
        several ==> forall|i: int|
            fields.len() <= i < with_fields(fields, more, several).len() ==> (
            #[trigger] with_fields(fields, more, several)[i]).nullable,
    decreases more.len(),
{
    if more.len() > 0 {
        let rest = more.drop_last();
        lemma_with_fields(fields, rest, several);
        let before = with_fields(fields, rest, several);
        let all = with_fields(fields, more, several);
        assert forall|i: int| 0 <= i < more.len() implies has_field(
            all,
            (#[trigger] more[i]).name,
        ) by {
            if i < rest.len() {
                assert(has_field(before, rest[i].name));
                let k = choose|k: int|
                    0 <= k < before.len() && (#[trigger] before[k]).name == rest[i].name;
                assert(all[k] == before[k]);
            } else if !has_field(before, more.last().name) {
                assert(all[before.len() as int].name == more.last().name);
            }
        }
        assert forall|i: int, j: int| 0 <= i < j < all.len() implies (#[trigger] all[i]).name != (
        #[trigger] all[j]).name by {
            if j == before.len() {
                assert(before[i].name != more.last().name);
            } else {
                assert(before[i].name != before[j].name);
            }
        }
    }
}

/// The union of schemas holds every column of every batch once, and where there
/// are several batches every column may hold nulls.
pub proof fn the_union_holds_every_column(batches: Seq<BatchModel>, several: bool)
    ensures
        distinct_fields(union_of(batches, several)),
        forall|b: int, c: int|
            #![trigger batches[b].columns[c]]
            0 <= b < batches.len() && 0 <= c < batches[b].columns.len() ==> has_field(
                union_of(batches, several),
                batches[b].columns[c].field.name,
            ),
        several ==> forall|i: int|
            0 <= i < union_of(batches, several).len() ==> (#[trigger] union_of(
                batches,
                several,
            )[i]).nullable,
    decreases batches.len(),
{
    if batches.len() > 0 {
        let rest = batches.drop_last();
        the_union_holds_every_column(rest, several);
        let before = union_of(rest, several);
        let more = batches.last().fields();
        lemma_with_fields(before, more, several);
        let all = union_of(batches, several);
        assert forall|b: int, c: int|
            #![trigger batches[b].columns[c]]
            0 <= b < batches.len() && 0 <= c < batches[b].columns.len() implies has_field(
            all,
            batches[b].columns[c].field.name,
        ) by {
            if b < rest.len() {
                assert(rest[b] == batches[b]);
                assert(has_field(before, rest[b].columns[c].field.name));
                let k = choose|k: int|
                    0 <= k < before.len() && (#[trigger] before[k]).name
                        == rest[b].columns[c].field.name;
                assert(all[k] == before[k]);
            } else {
                assert(more[c] == batches[b].columns[c].field);
            }
        }
        assert forall|i: int| several && 0 <= i < all.len() implies (#[trigger] all[i]).nullable by {
            if i < before.len() {
                assert(before[i].nullable);
            }
        }
    }
}

/// Whether one of the fields has this name.
fn holds_field(fields: &Vec<ColumnField>, name: &str) -> (r: bool)
    ensures
        r == has_field(fields.deep_view(), name@),
{
    let ghost model = fields.deep_view();
    let mut i: usize = 0;
    while i < fields.len()
        invariant
            i <= fields.len() == model.len(),
            model == fields.deep_view(),
            forall|j: int| 0 <= j < i ==> (#[trigger] model[j]).name != name@,
        decreases fields.len() - i,
    {
        assert(model[i as int] == fields@[i as int].deep_view());
        if same_text(fields[i].name.as_str(), name) {
            assert(model[i as int].name == name@);
            return true;
        }
        i = i + 1;
    }
    false
}

/// The schema that holds all columns of all batches: those of the first batch,
/// and then those that later batches add.
pub fn build_union_schema(batches: &Vec<Batch>) -> (r: Vec<ColumnField>)
    ensures
        r.deep_view() == union_fields(models_of(batches@)),
{
    let ghost models = models_of(batches@);
    let several = batches.len() > 1;
    let mut fields: Vec<ColumnField> = Vec::new();
    let mut b: usize = 0;
    assert(fields.deep_view() =~= union_of(models.take(0), several));
    while b < batches.len()
        invariant
            b <= batches.len(),
            models == models_of(batches@),
            fields.deep_view() == union_of(models.take(b as int), several),
        decreases batches.len() - b,
    {
        let batch = &batches[b];
        let ghost before = fields.deep_view();
        let ghost more = batch@.fields();
        let mut c: usize = 0;
        assert(more.take(0) =~= Seq::empty());
        while c < batch.num_columns()
            invariant
                c <= batch@.columns.len(),
                more == batch@.fields(),
                fields.deep_view() == with_fields(before, more.take(c as int), several),
            decreases batch@.columns.len() - c,
        {
            let field = &batch.column(c).field;
            proof {
                assert(more.take(c + 1).drop_last() =~= more.take(c as int));
                assert(more.take(c + 1).last() == field.deep_view());
            }
            if !holds_field(&fields, field.name.as_str()) {
                let mut added = field.duplicate();
                if several {
                    added.nullable = true;
                }
                let ghost sofar = fields.deep_view();
                let ghost model = added.deep_view();
                fields.push(added);
                assert(fields.deep_view() =~= sofar.push(model));
            }
            c = c + 1;
        }
        proof {
            assert(more.take(c as int) =~= more);
            assert(models.take(b + 1).drop_last() =~= models.take(b as int));
            assert(models.take(b + 1).last() == batch@);
        }
        b = b + 1;
    }
    assert(models.take(b as int) =~= models);
    fields
}

/// The cells of a batch for a field: those of its column of that name, or nulls.
pub open spec fn cells_for(batch: BatchModel, name: Seq<char>) -> Seq<CellModel> {
    match batch.index_of(name) {
        Some(c) => batch.columns[c].cells,
        None => Seq::new(batch.rows, |i: int| CellModel::Null),
    }
}

/// The batch brought to the schema: missing columns are null, and columns that
/// the schema does not have are dropped.
pub open spec fn aligned(batch: BatchModel, fields: Seq<FieldModel>) -> BatchModel {
    BatchModel {
        rows: batch.rows,
        columns: fields.map_values(
            |field: FieldModel| ColumnModel { field, cells: cells_for(batch, field.name) },
        ),
    }
}

/// The batch's columns have the types that the schema gives them.
pub open spec fn fits_schema(batch: BatchModel, fields: Seq<FieldModel>) -> bool {
    forall|f: int|
        0 <= f < fields.len() ==> (batch.index_of((#[trigger] fields[f]).name) matches Some(c)
            ==> batch.columns[c].field.kind == fields[f].kind)
}

/// Bring a batch to a schema whose columns may all hold nulls. Fails where a
/// column has another type than the schema gives it.
pub fn align_batch(batch: &Batch, fields: &Vec<ColumnField>) -> (r: Result<Batch, QueryError>)
    requires
        forall|f: int| 0 <= f < fields@.len() ==> (#[trigger] fields@[f]).nullable,
    ensures
        match r {
            Ok(out) => fits_schema(batch@, fields.deep_view()) && out@ == aligned(
                batch@,
                fields.deep_view(),
            ),
            Err(e) => !fits_schema(batch@, fields.deep_view()) && e is Arrow,
        },
{
    let ghost model = fields.deep_view();
    let ghost want = aligned(batch@, model);
    let rows: usize = batch.num_rows();
    let mut columns: Vec<Column> = Vec::new();
    let mut f: usize = 0;
    while f < fields.len()
        invariant
            f <= fields.len() == model.len(),
            rows == batch@.rows,
            batch@.is_batch(),
            model == fields.deep_view(),
            want == aligned(batch@, model),
            forall|g: int| 0 <= g < fields@.len() ==> (#[trigger] fields@[g]).nullable,
            forall|g: int|
                0 <= g < f ==> (batch@.index_of((#[trigger] model[g]).name) matches Some(c)
                    ==> batch@.columns[c].field.kind == model[g].kind),
            columns@.len() == f,
            forall|g: int|
                0 <= g < f ==> (#[trigger] columns@[g]).deep_view() == want.columns[g],
            forall|g: int| 0 <= g < f ==> (#[trigger] want.columns[g]).is_column(rows as nat),
        decreases fields.len() - f,
    {
        let field = &fields[f];
        assert(model[f as int] == field.deep_view());
        let cells = match batch.index_of(field.name.as_str()) {
            Some(c) => {
                let column = batch.column(c);
                assert(batch@.columns[c as int].is_column(batch@.rows));
                if column.field.kind != field.kind {
                    return Err(
                        QueryError::Arrow("column types must match schema types".to_owned()),
                    );
                }
                column.cells.duplicate()
            },
            None => null_cells(rows),
        };
        let column = Column { field: field.duplicate(), cells };
        assert(column.deep_view() == want.columns[f as int]);
        assert(want.columns[f as int].is_column(rows as nat));
        columns.push(column);
        f = f + 1;
    }
    assert(columns.deep_view() =~= want.columns);
    assert(want.is_batch());
    Batch::try_new(rows, columns)
}

/// A column of nulls.
fn null_cells(rows: usize) -> (r: Vec<Cell>)
    ensures
        r.deep_view() == Seq::new(rows as nat, |i: int| CellModel::Null),
{
    let mut cells: Vec<Cell> = Vec::new();
    let mut i: usize = 0;
    while i < rows
        invariant
            i <= rows,
            cells@.len() == i,
            forall|j: int| 0 <= j < i ==> (#[trigger] cells@[j]).deep_view() == CellModel::Null,
        decreases rows - i,
    {
        cells.push(Cell::Null);
        i = i + 1;
    }
    assert(cells.deep_view() =~= Seq::new(rows as nat, |i: int| CellModel::Null));
    cells
}

/// The columns that are marked as tags.
pub open spec fn marked_columns(fields: Seq<FieldModel>) -> Seq<int> {
    rows_where(|c: int| fields[c].tag, fields.len())
}

/// The tag columns of a schema: those marked as tags, or, where none are, every
/// column of plain texts but the time column.
pub open spec fn tag_fields(fields: Seq<FieldModel>) -> Seq<int> {
    if marked_columns(fields).len() > 0 {
        marked_columns(fields)
    } else {
        rows_where(
            |c: int| fields[c].kind == ColumnKind::Utf8 && fields[c].name != time_column(),
            fields.len(),
        )
    }
}

/// The tag columns of a schema.
pub fn resolve_tag_columns(fields: &Vec<ColumnField>) -> (r: Vec<usize>)
    ensures
        numbers_of(r@) == tag_fields(fields.deep_view()),
        forall|i: int| 0 <= i < r@.len() ==> (#[trigger] r@[i]) < fields@.len(),
{
    let ghost model = fields.deep_view();
    let ghost is_marked = |c: int| model[c].tag;
    let ghost is_text = |c: int|
        model[c].kind == ColumnKind::Utf8 && model[c].name != time_column();
    let mut marked: Vec<usize> = Vec::new();
    let mut plain: Vec<usize> = Vec::new();
    let mut c: usize = 0;
    assert(numbers_of(marked@) =~= rows_where(is_marked, 0));
    assert(numbers_of(plain@) =~= rows_where(is_text, 0));
    while c < fields.len()
        invariant
            c <= fields.len() == model.len(),
            model == fields.deep_view(),
            is_marked == (|c: int| model[c].tag),
            is_text == (|c: int|
                model[c].kind == ColumnKind::Utf8 && model[c].name != time_column()),
            numbers_of(marked@) == rows_where(is_marked, c as nat),
            numbers_of(plain@) == rows_where(is_text, c as nat),
            forall|i: int| 0 <= i < marked@.len() ==> (#[trigger] marked@[i]) < fields@.len(),
            forall|i: int| 0 <= i < plain@.len() ==> (#[trigger] plain@[i]) < fields@.len(),
        decreases fields.len() - c,
    {
        let field = &fields[c];
        assert(model[c as int] == field.deep_view());
        let ghost marked_before = marked@;
        let ghost plain_before = plain@;
        assert(field.tag == is_marked(c as int));
        if field.tag {
            marked.push(c);
            assert(numbers_of(marked@) =~= numbers_of(marked_before).push(c as int));
        }
        let is_plain = field.kind == ColumnKind::Utf8 && !same_text(
            field.name.as_str(),
            time_column_name(),
        );
        assert(is_plain == is_text(c as int));
        if is_plain {
            plain.push(c);
            assert(numbers_of(plain@) =~= numbers_of(plain_before).push(c as int));
        }
        assert(rows_where(is_marked, (c + 1) as nat) == if is_marked(c as int) {
            rows_where(is_marked, c as nat).push(c as int)
        } else {
            rows_where(is_marked, c as nat)
        });
        assert(rows_where(is_text, (c + 1) as nat) == if is_text(c as int) {
            rows_where(is_text, c as nat).push(c as int)
        } else {
            rows_where(is_text, c as nat)
        });
        c = c + 1;
    }
    if marked.len() > 0 {
        assert(marked_columns(model) == numbers_of(marked@));
        marked
    } else {
        assert(marked_columns(model) == numbers_of(marked@));
        plain
    }
}

/// Rows of several batches, each given by its batch and its number, as a batch.
pub open spec fn gathered(
    batches: Seq<BatchModel>,
    fields: Seq<FieldModel>,
    rows: Seq<(int, int)>,
) -> BatchModel {
    BatchModel {
        rows: rows.len(),
        columns: Seq::new(
            fields.len(),
            |c: int|
                ColumnModel {
                    field: fields[c],
                    cells: Seq::new(
                        rows.len(),
                        |i: int| batches[rows[i].0].columns[c].cells[rows[i].1],
                    ),
                },
        ),
    }
}

/// All batches have the schema, and its columns may all hold nulls.
pub open spec fn share_schema(batches: Seq<BatchModel>, fields: Seq<FieldModel>) -> bool {
    &&& forall|b: int| 0 <= b < batches.len() ==> (#[trigger] batches[b]).fields() == fields
    &&& forall|f: int| 0 <= f < fields.len() ==> (#[trigger] fields[f]).nullable
}

/// The row is within the batches.
pub open spec fn is_row(batches: Seq<BatchModel>, row: (int, int)) -> bool {
    0 <= row.0 < batches.len() && 0 <= row.1 < batches[row.0].rows
}

/// Gather rows of several batches that share a schema into one batch.
pub fn materialize_chunk(
    batches: &Vec<Batch>,
    fields: &Vec<ColumnField>,
    rows: &Vec<(usize, usize)>,
) -> (r: Result<Batch, QueryError>)
    requires
        share_schema(models_of(batches@), fields.deep_view()),
        forall|i: int|
            0 <= i < rows@.len() ==> is_row(
                models_of(batches@),
                ((#[trigger] rows@[i]).0 as int, rows@[i].1 as int),
            ),
    ensures
        r matches Ok(out) && out@ == gathered(
            models_of(batches@),
            fields.deep_view(),
            places_of(rows@),
        ),
{
    let ghost models = models_of(batches@);
    let ghost model = fields.deep_view();
    let ghost at = places_of(rows@);
    let ghost want = gathered(models, model, at);
    let mut columns: Vec<Column> = Vec::new();
    let mut c: usize = 0;
    while c < fields.len()
        invariant
            c <= fields.len() == model.len(),
            models == models_of(batches@),
            model == fields.deep_view(),
            at == places_of(rows@),
            want == gathered(models, model, at),
            share_schema(models, model),
            forall|i: int|
                0 <= i < rows@.len() ==> is_row(
                    models,
                    ((#[trigger] rows@[i]).0 as int, rows@[i].1 as int),
                ),
            columns@.len() == c,
            forall|d: int|
                0 <= d < c ==> (#[trigger] columns@[d]).deep_view() == want.columns[d],
            forall|d: int|
                0 <= d < c ==> (#[trigger] want.columns[d]).is_column(rows@.len()),
        decreases fields.len() - c,
    {
        let field = &fields[c];
        assert(model[c as int] == field.deep_view());
        let mut cells: Vec<Cell> = Vec::new();
        let mut i: usize = 0;
        while i < rows.len()
            invariant
                i <= rows.len(),
                c < model.len(),
                models == models_of(batches@),
                at == places_of(rows@),
                share_schema(models, model),
                forall|j: int|
                    0 <= j < rows@.len() ==> is_row(
                        models,
                        ((#[trigger] rows@[j]).0 as int, rows@[j].1 as int),
                    ),
                cells@.len() == i,
                forall|j: int|
                    0 <= j < i ==> (#[trigger] cells@[j]).deep_view()
                        == models[at[j].0].columns[c as int].cells[at[j].1],
                forall|j: int|
                    0 <= j < i ==> can_hold(
                        model[c as int].kind,
                        (#[trigger] cells@[j]).deep_view(),
                    ),
            decreases rows.len() - i,
        {
            let (b, row) = rows[i];
            let batch = &batches[b];
            proof {
                assert(is_row(models, (rows@[i as int].0 as int, rows@[i as int].1 as int)));
                assert(models[b as int] == batch@);
                assert(models[b as int].fields() == model);
                assert(batch@.fields().len() == batch@.columns.len());
                assert(batch@.fields()[c as int] == batch@.columns[c as int].field);
            }
            let column = batch.column(c);
            let cell = column.cells[row].duplicate();
            proof {
                assert(column.deep_view().cells[row as int] == column.cells@[row as int].deep_view());
                assert(can_hold(column.deep_view().field.kind, column.deep_view().cells[row as int]));
            }
            cells.push(cell);
            i = i + 1;
        }
        let column = Column { field: field.duplicate(), cells };
        proof {
            assert(column.deep_view().cells =~= want.columns[c as int].cells);
            assert forall|j: int| 0 <= j < want.columns[c as int].cells.len() implies can_hold(
                want.columns[c as int].field.kind,
                #[trigger] want.columns[c as int].cells[j],
            ) by {
                assert(column.deep_view().cells[j] == column.cells@[j].deep_view());
            }
        }
        columns.push(column);
        c = c + 1;
    }
    assert(columns.deep_view() =~= want.columns);
    assert(want.is_batch());
    Batch::try_new(rows.len(), columns)
}

} // verus!
