//! Record batches: named, typed columns of equal length.
use vstd::prelude::*;
use vstd::string::*;

use crate::duplicate::Duplicate;
use crate::query::error::QueryError;
use crate::text::same_text;

verus! {

broadcast use vstd::string::group_string_axioms;

/// The type of a column.
#[derive(Debug, Clone, Copy, PartialEq, Eq, Structural)]
pub enum ColumnKind {
    /// Signed 64-bit integers.
    Int64,
    /// Unsigned 64-bit integers.
    UInt64,
    /// Double-precision values.
    Float64,
    /// Booleans.
    Boolean,
    /// Texts.
    Utf8,
    /// Texts with 64-bit offsets.
    LargeUtf8,
    /// Texts as views.
    Utf8View,
    /// Texts encoded with a dictionary of texts and 32-bit keys.
    Dictionary,
    /// Values encoded with any other dictionary, given as texts.
    OtherDictionary,
    /// Exact decimals.
    Decimal128 {
        /// Digits of precision.
        precision: u8,
        /// Digits after the decimal point.
        scale: i8,
    },
    /// Any other type; its values are given by numbers that stand for them.
    Other,
}

/// One cell.
#[derive(Debug)]
pub enum Cell {
    /// Null.
    Null,
    /// A signed integer.
    Int(i64),
    /// An unsigned integer.
    UInt(u64),
    /// The bits of a double-precision value.
    Float(u64),
    /// A boolean.
    Bool(bool),
    /// A text.
    Text(String),
    /// The mantissa of a decimal.
    Decimal(i128),
    /// The number of a value of another type.
    Opaque(u64),
}

/// What a cell holds.
#[verifier::ext_equal]
pub enum CellModel {
    /// Null.
    Null,
    /// A signed integer.
    Int(i64),
    /// An unsigned integer.
    UInt(u64),
    /// The bits of a double-precision value.
    Float(u64),
    /// A boolean.
    Bool(bool),
    /// A text.
    Text(Seq<char>),
    /// The mantissa of a decimal.
    Decimal(i128),
    /// The number of a value of another type.
    Opaque(u64),
}

impl DeepView for Cell {
    type V = CellModel;

    open spec fn deep_view(&self) -> CellModel {
        match self {
            Cell::Null => CellModel::Null,
            Cell::Int(v) => CellModel::Int(*v),
            Cell::UInt(v) => CellModel::UInt(*v),
            Cell::Float(v) => CellModel::Float(*v),
            Cell::Bool(v) => CellModel::Bool(*v),
            Cell::Text(v) => CellModel::Text(v@),
            Cell::Decimal(v) => CellModel::Decimal(*v),
            Cell::Opaque(v) => CellModel::Opaque(*v),
        }
    }
}

impl Duplicate for Cell {
    fn duplicate(&self) -> (r: Self) {
        match self {
            Cell::Null => Cell::Null,
            Cell::Int(v) => Cell::Int(*v),
            Cell::UInt(v) => Cell::UInt(*v),
            Cell::Float(v) => Cell::Float(*v),
            Cell::Bool(v) => Cell::Bool(*v),
            Cell::Text(v) => Cell::Text(v.clone()),
            Cell::Decimal(v) => Cell::Decimal(*v),
            Cell::Opaque(v) => Cell::Opaque(*v),
        }
    }
}

/// What a column is called and what it holds.
#[derive(Debug)]
pub struct ColumnField {
    /// Column name.
    pub name: String,
    /// Type of its cells.
    pub kind: ColumnKind,
    /// Whether cells may be null.
    pub nullable: bool,
    /// Whether the column is marked as a tag.
    pub tag: bool,
}

/// The column type holds texts.
pub open spec fn holds_texts(kind: ColumnKind) -> bool {
    kind == ColumnKind::Utf8 || kind == ColumnKind::LargeUtf8 || kind == ColumnKind::Utf8View || kind
        == ColumnKind::Dictionary || kind == ColumnKind::OtherDictionary
}

/// A column of this type can hold the cell.
pub open spec fn can_hold(kind: ColumnKind, cell: CellModel) -> bool {
    match cell {
        CellModel::Null => true,
        CellModel::Int(_) => kind == ColumnKind::Int64,
        CellModel::UInt(_) => kind == ColumnKind::UInt64,
        CellModel::Float(_) => kind == ColumnKind::Float64,
        CellModel::Bool(_) => kind == ColumnKind::Boolean,
        CellModel::Text(_) => holds_texts(kind),
        CellModel::Decimal(_) => kind is Decimal128,
        CellModel::Opaque(_) => kind == ColumnKind::Other,
    }
}

/// Whether a column of this type can hold the cell.
fn is_held(kind: ColumnKind, cell: &Cell) -> (r: bool)
    ensures
        r == can_hold(kind, cell.deep_view()),
{
    match cell {
        Cell::Null => true,
        Cell::Int(_) => kind == ColumnKind::Int64,
        Cell::UInt(_) => kind == ColumnKind::UInt64,
        Cell::Float(_) => kind == ColumnKind::Float64,
        Cell::Bool(_) => kind == ColumnKind::Boolean,
        Cell::Text(_) => is_string_like(kind),
        Cell::Decimal(_) => matches!(kind, ColumnKind::Decimal128 { .. }),
        Cell::Opaque(_) => kind == ColumnKind::Other,
    }
}

/// Whether a column of this type holds texts, in whatever encoding.
pub fn is_string_like(kind: ColumnKind) -> (r: bool)
    ensures
        r == holds_texts(kind),
{
    kind == ColumnKind::Utf8 || kind == ColumnKind::LargeUtf8 || kind == ColumnKind::Utf8View || kind
        == ColumnKind::Dictionary || kind == ColumnKind::OtherDictionary
}

/// What a field stands for.
#[verifier::ext_equal]
pub struct FieldModel {
    /// Column name.
    pub name: Seq<char>,
    /// Type of its cells.
    pub kind: ColumnKind,
    /// Whether cells may be null.
    pub nullable: bool,
    /// Whether the column is marked as a tag.
    pub tag: bool,
}

impl DeepView for ColumnField {
    type V = FieldModel;

    open spec fn deep_view(&self) -> FieldModel {
        FieldModel {
            name: self.name@,
            kind: self.kind,
            nullable: self.nullable,
            tag: self.tag,
        }
    }
}

impl Duplicate for ColumnField {
    fn duplicate(&self) -> (r: Self) {
        ColumnField {
            name: self.name.clone(),
            kind: self.kind,
            nullable: self.nullable,
            tag: self.tag,
        }
    }
}

/// A column.
#[derive(Debug)]
pub struct Column {
    /// What it is called and what it holds.
    pub field: ColumnField,
    /// Its cells.
    pub cells: Vec<Cell>,
}

/// What a column stands for.
#[verifier::ext_equal]
pub struct ColumnModel {
    /// What it is called and what it holds.
    pub field: FieldModel,
    /// Its cells.
    pub cells: Seq<CellModel>,
}

impl ColumnModel {
    /// The column has a cell for every row, each of its type, and none of them
    /// null unless the field allows for it.
    pub open spec fn is_column(self, rows: nat) -> bool {
        &&& self.cells.len() == rows
        &&& forall|i: int|
            0 <= i < self.cells.len() ==> can_hold(self.field.kind, #[trigger] self.cells[i])
        &&& self.field.nullable || forall|i: int|
            0 <= i < self.cells.len() ==> !((#[trigger] self.cells[i]) is Null)
    }
}

impl DeepView for Column {
    type V = ColumnModel;

    open spec fn deep_view(&self) -> ColumnModel {
        ColumnModel { field: self.field.deep_view(), cells: self.cells.deep_view() }
    }
}

impl Column {
    /// Whether the column has a fitting cell for each of `rows` rows.
    fn fits(&self, rows: usize) -> (r: bool)
        ensures
            r == self.deep_view().is_column(rows as nat),
    {
        let ghost model = self.deep_view();
        if self.cells.len() != rows {
            return false;
        }
        let mut i: usize = 0;
        while i < self.cells.len()
            invariant
                i <= self.cells.len() == rows,
                model == self.deep_view(),
                forall|j: int| 0 <= j < i ==> can_hold(model.field.kind, #[trigger] model.cells[j]),
                model.field.nullable || forall|j: int|
                    0 <= j < i ==> !((#[trigger] model.cells[j]) is Null),
            decreases self.cells.len() - i,
        {
            let cell = &self.cells[i];
            assert(model.cells[i as int] == cell.deep_view());
            if !is_held(self.field.kind, cell) {
                return false;
            }
            if !self.field.nullable && matches!(cell, Cell::Null) {
                assert(model.cells[i as int] is Null);
                return false;
            }
            i = i + 1;
        }
        true
    }
}

impl Duplicate for Column {
    fn duplicate(&self) -> (r: Self) {
        Column { field: self.field.duplicate(), cells: self.cells.duplicate() }
    }
}

/// What a batch stands for.
#[verifier::ext_equal]
pub struct BatchModel {
    /// Number of rows.
    pub rows: nat,
    /// Columns.
    pub columns: Seq<ColumnModel>,
}

impl BatchModel {
    /// Every column has a fitting cell for every row.
    pub open spec fn is_batch(self) -> bool {
        forall|c: int|
            0 <= c < self.columns.len() ==> (#[trigger] self.columns[c]).is_column(self.rows)
    }

    /// The first column with this name, from the `from`-th on.
    pub open spec fn index_from(self, name: Seq<char>, from: int) -> Option<int>
        decreases self.columns.len() - from,
    {
        if from < 0 || from >= self.columns.len() {
            None
        } else if self.columns[from].field.name == name {
            Some(from)
        } else {
            self.index_from(name, from + 1)
        }
    }

    /// The first column with this name.
    pub open spec fn index_of(self, name: Seq<char>) -> Option<int> {
        self.index_from(name, 0)
    }

    /// Some rows of the batch, in the order given.
    pub open spec fn rows_at(self, rows: Seq<int>) -> BatchModel {
        BatchModel {
            rows: rows.len(),
            columns: self.columns.map_values(
                |column: ColumnModel|
                    ColumnModel {
                        field: column.field,
                        cells: Seq::new(rows.len(), |i: int| column.cells[rows[i]]),
                    },
            ),
        }
    }

    /// The fields of the columns.
    pub open spec fn fields(self) -> Seq<FieldModel> {
        self.columns.map_values(|column: ColumnModel| column.field)
    }
}

/// A column that is found lies within the batch and has the name.
pub proof fn lemma_index_from(batch: BatchModel, name: Seq<char>, from: int)
    requires
        0 <= from,
    ensures
        batch.index_from(name, from) matches Some(c) ==> from <= c < batch.columns.len()
            && batch.columns[c].field.name == name,
    decreases batch.columns.len() - from,
{
    if from < batch.columns.len() && batch.columns[from].field.name != name {
        lemma_index_from(batch, name, from + 1);
    }
}

/// A batch of rows.
#[derive(Debug)]
pub struct Batch {
    rows: usize,
    columns: Vec<Column>,
}

impl View for Batch {
    type V = BatchModel;

    closed spec fn view(&self) -> BatchModel {
        BatchModel { rows: self.rows as nat, columns: self.columns.deep_view() }
    }
}

impl Batch {
    #[verifier::type_invariant]
    spec fn holds_together(&self) -> bool {
        self@.is_batch()
    }

    /// A batch of `rows` rows. Fails unless every column has a fitting cell for
    /// every row.
    pub fn try_new(rows: usize, columns: Vec<Column>) -> (r: Result<Self, QueryError>)
        ensures
            ({
                let model = BatchModel { rows: rows as nat, columns: columns.deep_view() };
                match r {
                    Ok(batch) => batch@ == model && model.is_batch(),
                    Err(e) => !model.is_batch() && (e matches QueryError::Arrow(text) && text@
                        == "a column does not have one cell of its type per row"@),
                }
            }),
    {
        let ghost model = BatchModel { rows: rows as nat, columns: columns.deep_view() };
        let mut c: usize = 0;
        while c < columns.len()
            invariant
                c <= columns.len(),
                model == (BatchModel { rows: rows as nat, columns: columns.deep_view() }),
                forall|d: int|
                    0 <= d < c ==> (#[trigger] model.columns[d]).is_column(model.rows),
            decreases columns.len() - c,
        {
            assert(model.columns[c as int] == columns@[c as int].deep_view());
            if !columns[c].fits(rows) {
                assert(!model.columns[c as int].is_column(model.rows));
                return Err(
                    QueryError::Arrow(
                        "a column does not have one cell of its type per row".to_owned(),
                    ),
                );
            }
            c = c + 1;
        }
        Ok(Batch { rows, columns })
    }

    /// Number of rows.
    pub fn num_rows(&self) -> (r: usize)
        ensures
            r == self@.rows,
            self@.is_batch(),
    {
        proof {
            use_type_invariant(self);
        }
        self.rows
    }

    /// Number of columns.
    pub fn num_columns(&self) -> (r: usize)
        ensures
            r == self@.columns.len(),
    {
        self.columns.len()
    }

    /// A column.
    pub fn column(&self, c: usize) -> (r: &Column)
        requires
            c < self@.columns.len(),
        ensures
            r.deep_view() == self@.columns[c as int],
            r.cells@.len() == self@.rows,
            r.deep_view().is_column(self@.rows),
    {
        proof {
            use_type_invariant(self);
            assert(self@.columns[c as int] == self.columns@[c as int].deep_view());
        }
        &self.columns[c]
    }

    /// The first column with this name.
    pub fn index_of(&self, name: &str) -> (r: Option<usize>)
        ensures
            match r {
                Some(c) => self@.index_of(name@) == Some(c as int) && c < self@.columns.len(),
                None => self@.index_of(name@) is None,
            },
    {
        let mut c: usize = 0;
        while c < self.columns.len()
            invariant
                c <= self.columns.len(),
                self@.columns.len() == self.columns.len(),
                self@.index_from(name@, 0) == self@.index_from(name@, c as int),
            decreases self.columns.len() - c,
        {
            assert(self@.columns[c as int] == self.columns@[c as int].deep_view());
            if same_text(self.columns[c].field.name.as_str(), name) {
                return Some(c);
            }
            c = c + 1;
        }
        None
    }

    /// Some rows of the batch, in the order given.
    pub fn select(&self, rows: &Vec<usize>) -> (r: Batch)
        requires
            forall|i: int| 0 <= i < rows@.len() ==> (#[trigger] rows@[i]) < self@.rows,
        ensures
            r@ == self@.rows_at(rows@.map_values(|row: usize| row as int)),
    {
        proof {
            use_type_invariant(self);
        }
        let ghost at = rows@.map_values(|row: usize| row as int);
        let ghost want = self@.rows_at(at);
        let mut columns: Vec<Column> = Vec::new();
        let mut c: usize = 0;
        while c < self.columns.len()
            invariant
                c <= self.columns.len(),
                self@.is_batch(),
                self@.columns.len() == self.columns.len(),
                at == rows@.map_values(|row: usize| row as int),
                want == self@.rows_at(at),
                forall|i: int| 0 <= i < rows@.len() ==> (#[trigger] rows@[i]) < self@.rows,
                columns@.len() == c,
                forall|d: int| 0 <= d < c ==> (#[trigger] columns@[d]).deep_view() == want.columns[d],
            decreases self.columns.len() - c,
        {
            let source = &self.columns[c];
            assert(self@.columns[c as int] == source.deep_view());
            let mut cells: Vec<Cell> = Vec::new();
            let mut i: usize = 0;
            while i < rows.len()
                invariant
                    i <= rows.len(),
                    at == rows@.map_values(|row: usize| row as int),
                    source.cells@.len() == self@.rows,
                    forall|j: int| 0 <= j < rows@.len() ==> (#[trigger] rows@[j]) < self@.rows,
                    cells@.len() == i,
                    forall|j: int|
                        0 <= j < i ==> (#[trigger] cells@[j]).deep_view()
                            == source.cells.deep_view()[at[j]],
                decreases rows.len() - i,
            {
                let cell = source.cells[rows[i]].duplicate();
                assert(source.cells.deep_view()[at[i as int]]
                    == source.cells@[rows@[i as int] as int].deep_view());
                cells.push(cell);
                i = i + 1;
            }
            let column = Column { field: source.field.duplicate(), cells };
            assert(column.deep_view().cells =~= want.columns[c as int].cells);
            columns.push(column);
            c = c + 1;
        }
        assert(columns.deep_view() =~= want.columns);
        assert forall|c: int| 0 <= c < want.columns.len() implies (
        #[trigger] want.columns[c]).is_column(want.rows) by {
            let source = self@.columns[c];
            assert(source.is_column(self@.rows));
            assert forall|i: int| 0 <= i < want.columns[c].cells.len() implies can_hold(
                want.columns[c].field.kind,
                #[trigger] want.columns[c].cells[i],
            ) && (source.field.nullable || !(want.columns[c].cells[i] is Null)) by {
                assert(at[i] == rows@[i] as int);
                assert(want.columns[c].cells[i] == source.cells[at[i]]);
            }
        }
        Batch { rows: rows.len(), columns }
    }

    /// A copy of the batch.
    pub fn duplicate(&self) -> (r: Batch)
        ensures
            r@ == self@,
    {
        proof {
            use_type_invariant(self);
        }
        Batch { rows: self.rows, columns: self.columns.duplicate() }
    }
}

} // verus!
