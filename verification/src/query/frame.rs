//! A batch of rows as the reducing operators read it: timestamps, texts and
//! numbers.
use vstd::prelude::*;

use crate::query::accumulator::{Moment, Num, Reading, MAX_COLUMN_SCALE};
#[allow(unused_imports)]
use crate::query::decimal::pow10;
use crate::query::decimal::power_of_ten;
use crate::query::float::{divide_as_floats, nearest_float};
#[allow(unused_imports)]
use crate::query::float::{float_of, float_ratio};
use crate::text::same_text;

verus! {

/// The cells of a column.
#[derive(Debug)]
pub enum ColumnData {
    /// Texts.
    Texts(Vec<Option<String>>),
    /// Double-precision values, by their bits.
    Floats(Vec<Option<u64>>),
    /// Signed integers.
    Integers(Vec<Option<i64>>),
    /// Unsigned integers.
    Unsigned(Vec<Option<u64>>),
    /// Exact decimals, at one scale.
    Decimals {
        /// Digits after the decimal point.
        scale: u8,
        /// The unscaled values.
        mantissas: Vec<Option<i128>>,
    },
    /// Values of another type: whether each cell holds one.
    Others(Vec<bool>),
}

/// A named column.
#[derive(Debug)]
pub struct FrameColumn {
    /// Column name.
    pub name: String,
    /// Cells.
    pub data: ColumnData,
}

/// What the cells of a column stand for.
#[verifier::ext_equal]
pub enum DataModel {
    /// Texts.
    Texts(Seq<Option<Seq<char>>>),
    /// Double-precision values.
    Floats(Seq<Option<u64>>),
    /// Signed integers.
    Integers(Seq<Option<i64>>),
    /// Unsigned integers.
    Unsigned(Seq<Option<u64>>),
    /// Exact decimals.
    Decimals {
        /// Digits after the decimal point.
        scale: u8,
        /// The unscaled values.
        mantissas: Seq<Option<i128>>,
    },
    /// Values of another type.
    Others(Seq<bool>),
}

/// What a frame stands for.
#[verifier::ext_equal]
pub struct FrameModel {
    /// Number of rows.
    pub rows: nat,
    /// The timestamp column, if there is one.
    pub times: Option<Seq<Option<i64>>>,
    /// The columns by name.
    pub columns: Seq<(Seq<char>, DataModel)>,
}

/// The contents of some optional texts.
pub open spec fn optional_texts(cells: Seq<Option<String>>) -> Seq<Option<Seq<char>>> {
    cells.map_values(
        |cell: Option<String>|
            match cell {
                Some(text) => Some(text@),
                None => None::<Seq<char>>,
            },
    )
}

impl View for ColumnData {
    type V = DataModel;

    open spec fn view(&self) -> DataModel {
        match self {
            ColumnData::Texts(cells) => DataModel::Texts(optional_texts(cells@)),
            ColumnData::Floats(cells) => DataModel::Floats(cells@),
            ColumnData::Integers(cells) => DataModel::Integers(cells@),
            ColumnData::Unsigned(cells) => DataModel::Unsigned(cells@),
            ColumnData::Decimals { scale, mantissas } => DataModel::Decimals {
                scale: *scale,
                mantissas: mantissas@,
            },
            ColumnData::Others(cells) => DataModel::Others(cells@),
        }
    }
}

impl DataModel {
    /// Number of cells.
    pub open spec fn len(self) -> nat {
        match self {
            DataModel::Texts(cells) => cells.len(),
            DataModel::Floats(cells) => cells.len(),
            DataModel::Integers(cells) => cells.len(),
            DataModel::Unsigned(cells) => cells.len(),
            DataModel::Decimals { scale: _, mantissas } => mantissas.len(),
            DataModel::Others(cells) => cells.len(),
        }
    }

    /// The cells are numbers.
    pub open spec fn is_numeric(self) -> bool {
        !(self is Texts || self is Others)
    }

    /// The double-precision value in a row: that of a float, the one nearest
    /// to an integer, and for a decimal the quotient of those nearest to its
    /// mantissa and to its unit.
    pub open spec fn float_at(self, row: int) -> Option<u64> {
        match self {
            DataModel::Floats(cells) => cells[row],
            DataModel::Integers(cells) => match cells[row] {
                Some(v) => Some(float_of(v as int)),
                None => None,
            },
            DataModel::Unsigned(cells) => match cells[row] {
                Some(v) => Some(float_of(v as int)),
                None => None,
            },
            DataModel::Decimals { scale, mantissas } => match mantissas[row] {
                Some(m) => Some(float_ratio(m as int, decimal_unit(scale))),
                None => None,
            },
            _ => None,
        }
    }

    /// The reading in a row, unless the cell is null.
    pub open spec fn reading(self, row: int) -> Option<Reading> {
        match self {
            DataModel::Texts(cells) => if cells[row] is Some {
                Some(Reading::Present)
            } else {
                None
            },
            DataModel::Decimals { scale, mantissas } => match mantissas[row] {
                Some(m) => Some(Reading::Number(Num::Dec(m, scale))),
                None => None,
            },
            DataModel::Floats(_) | DataModel::Integers(_) | DataModel::Unsigned(_) => match self.float_at(
                row,
            ) {
                Some(bits) => Some(Reading::Number(Num::F64(bits))),
                None => None,
            },
            DataModel::Others(cells) => if cells[row] {
                Some(Reading::Present)
            } else {
                None
            },
        }
    }

    /// The column has `rows` cells. Decimals are at a scale that a column can
    /// have.
    pub open spec fn is_column(self, rows: nat) -> bool {
        &&& self.len() == rows
        &&& self matches DataModel::Decimals { scale, mantissas } ==> scale <= MAX_COLUMN_SCALE
    }
}

/// What the mantissas of decimals at a scale count: the power of ten, where 38
/// digits hold it.
pub open spec fn decimal_unit(scale: u8) -> int {
    if scale <= 38 {
        pow10(scale as nat)
    } else {
        1
    }
}

impl FrameModel {
    /// All columns have as many cells as there are rows.
    pub open spec fn is_frame(self) -> bool {
        &&& self.times matches Some(times) ==> times.len() == self.rows
        &&& forall|c: int|
            0 <= c < self.columns.len() ==> (#[trigger] self.columns[c]).1.is_column(self.rows)
    }

    /// When a row was taken.
    pub open spec fn moment(self, row: int) -> Moment {
        match self.times {
            None => Moment::NoColumn,
            Some(times) => match times[row] {
                None => Moment::Unknown,
                Some(t) => Moment::At(t),
            },
        }
    }

    /// The first column with this name, from the `from`-th on.
    pub open spec fn column_from(self, name: Seq<char>, from: int) -> Option<int>
        decreases self.columns.len() - from,
    {
        if from < 0 || from >= self.columns.len() {
            None
        } else if self.columns[from].0 == name {
            Some(from)
        } else {
            self.column_from(name, from + 1)
        }
    }

    /// The first column with this name.
    pub open spec fn column(self, name: Seq<char>) -> Option<DataModel> {
        match self.column_from(name, 0) {
            Some(c) => Some(self.columns[c].1),
            None => None,
        }
    }

    /// The texts of the first column with this name, if it holds texts.
    pub open spec fn texts(self, name: Seq<char>) -> Option<Seq<Option<Seq<char>>>> {
        match self.column(name) {
            Some(DataModel::Texts(cells)) => Some(cells),
            _ => None,
        }
    }

    /// The readings of a column in some rows, in the order of the rows.
    pub open spec fn readings(self, data: DataModel, rows: Seq<int>) -> Seq<(Reading, Moment)>
        decreases rows.len(),
    {
        if rows.len() == 0 {
            Seq::empty()
        } else {
            let before = self.readings(data, rows.drop_last());
            match data.reading(rows.last()) {
                Some(reading) => before.push((reading, self.moment(rows.last()))),
                None => before,
            }
        }
    }
}

/// All row numbers below `n`, in order.
pub open spec fn all_rows(n: nat) -> Seq<int> {
    Seq::new(n, |i: int| i)
}

/// The contents of a timestamp column.
pub open spec fn times_of(times: Option<Vec<Option<i64>>>) -> Option<Seq<Option<i64>>> {
    match times {
        None => None,
        Some(times) => Some(times@),
    }
}

/// A batch of rows.
#[derive(Debug)]
pub struct Frame {
    rows: usize,
    times: Option<Vec<Option<i64>>>,
    columns: Vec<FrameColumn>,
    bytes: usize,
}

impl View for Frame {
    type V = FrameModel;

    closed spec fn view(&self) -> FrameModel {
        FrameModel {
            rows: self.rows as nat,
            times: times_of(self.times),
            columns: self.columns@.map_values(|c: FrameColumn| (c.name@, c.data@)),
        }
    }
}

/// Whether some cells are a column of `rows` cells.
fn is_column(data: &ColumnData, rows: usize) -> (r: bool)
    ensures
        r == data@.is_column(rows as nat),
{
    match data {
        ColumnData::Texts(cells) => cells.len() == rows,
        ColumnData::Floats(cells) => cells.len() == rows,
        ColumnData::Integers(cells) => cells.len() == rows,
        ColumnData::Unsigned(cells) => cells.len() == rows,
        ColumnData::Others(cells) => cells.len() == rows,
        ColumnData::Decimals { scale, mantissas } => mantissas.len() == rows && *scale
            <= MAX_COLUMN_SCALE,
    }
}

impl Frame {
    #[verifier::type_invariant]
    spec fn holds_together(&self) -> bool {
        self@.is_frame()
    }

    /// The memory that the arrays of the batch take.
    pub closed spec fn taken_bytes(&self) -> usize {
        self.bytes
    }

    /// A frame of `rows` rows, of a batch whose arrays take `bytes` bytes of
    /// memory. There is none if a column has another number of cells, or
    /// decimals at a scale that no column has.
    pub fn new(
        rows: usize,
        times: Option<Vec<Option<i64>>>,
        columns: Vec<FrameColumn>,
        bytes: usize,
    ) -> (r: Option<Self>)
        ensures
            ({
                let model = FrameModel {
                    rows: rows as nat,
                    times: times_of(times),
                    columns: columns@.map_values(|c: FrameColumn| (c.name@, c.data@)),
                };
                match r {
                    Some(frame) => frame@ == model && model.is_frame() && frame.taken_bytes()
                        == bytes,
                    None => !model.is_frame(),
                }
            }),
    {
        let ghost model = FrameModel {
            rows: rows as nat,
            times: times_of(times),
            columns: columns@.map_values(|c: FrameColumn| (c.name@, c.data@)),
        };
        if let Some(times) = &times {
            if times.len() != rows {
                return None;
            }
        }
        let mut c: usize = 0;
        while c < columns.len()
            invariant
                c <= columns.len(),
                model.rows == rows,
                model.times == times_of(times),
                model.columns == columns@.map_values(|c: FrameColumn| (c.name@, c.data@)),
                forall|d: int|
                    0 <= d < c ==> (#[trigger] model.columns[d]).1.is_column(rows as nat),
            decreases columns.len() - c,
        {
            if !is_column(&columns[c].data, rows) {
                assert(!model.columns[c as int].1.is_column(rows as nat));
                return None;
            }
            c = c + 1;
        }
        Some(Frame { rows, times, columns, bytes })
    }

    /// Number of rows.
    pub fn rows(&self) -> (r: usize)
        ensures
            r == self@.rows,
            self@.is_frame(),
    {
        proof {
            use_type_invariant(self);
        }
        self.rows
    }

    /// When a row was taken.
    pub fn moment(&self, row: usize) -> (r: Moment)
        requires
            row < self@.rows,
        ensures
            r == self@.moment(row as int),
    {
        proof {
            use_type_invariant(self);
        }
        match &self.times {
            None => Moment::NoColumn,
            Some(times) => match times[row] {
                None => Moment::Unknown,
                Some(t) => Moment::At(t),
            },
        }
    }

    /// The timestamp column, if there is one.
    pub fn times(&self) -> (r: Option<&Vec<Option<i64>>>)
        ensures
            match r {
                Some(times) => self@.times == Some(times@) && times@.len() == self@.rows,
                None => self@.times is None,
            },
    {
        proof {
            use_type_invariant(self);
        }
        match &self.times {
            Some(times) => Some(times),
            None => None,
        }
    }

    /// The memory that the arrays of the batch take.
    pub fn bytes(&self) -> (r: usize)
        ensures
            r == self.taken_bytes(),
    {
        self.bytes
    }

    /// The first column with this name.
    pub fn column(&self, name: &str) -> (r: Option<&ColumnData>)
        ensures
            match r {
                Some(data) => self@.column(name@) == Some(data@) && data@.is_column(self@.rows),
                None => self@.column(name@) is None,
            },
    {
        proof {
            use_type_invariant(self);
        }
        let ghost model = self@;
        let mut c: usize = 0;
        while c < self.columns.len()
            invariant
                c <= self.columns.len(),
                model == self@,
                model.is_frame(),
                model.columns.len() == self.columns.len(),
                model.column_from(name@, 0) == model.column_from(name@, c as int),
            decreases self.columns.len() - c,
        {
            assert(model.columns[c as int] == (self.columns@[c as int].name@, self.columns@[c as int].data@));
            if same_text(self.columns[c].name.as_str(), name) {
                return Some(&self.columns[c].data);
            }
            c = c + 1;
        }
        None
    }

    /// The texts of the first column with this name, if it holds texts.
    pub fn texts(&self, name: &str) -> (r: Option<&Vec<Option<String>>>)
        ensures
            match r {
                Some(cells) => self@.texts(name@) == Some(optional_texts(cells@)) && cells@.len()
                    == self@.rows,
                None => self@.texts(name@) is None,
            },
    {
        match self.column(name) {
            Some(ColumnData::Texts(cells)) => Some(cells),
            _ => None,
        }
    }
}

impl ColumnData {
    /// Number of cells.
    pub fn len(&self) -> (r: usize)
        ensures
            r == self@.len(),
    {
        match self {
            ColumnData::Texts(cells) => cells.len(),
            ColumnData::Floats(cells) => cells.len(),
            ColumnData::Integers(cells) => cells.len(),
            ColumnData::Unsigned(cells) => cells.len(),
            ColumnData::Decimals { scale: _, mantissas } => mantissas.len(),
            ColumnData::Others(cells) => cells.len(),
        }
    }

    /// Whether the cells are numbers.
    pub fn is_numeric(&self) -> (r: bool)
        ensures
            r == self@.is_numeric(),
    {
        match self {
            ColumnData::Texts(_) => false,
            ColumnData::Others(_) => false,
            _ => true,
        }
    }

    /// The reading in a row, unless the cell is null.
    pub fn reading(&self, row: usize) -> (r: Option<Reading>)
        requires
            row < self@.len(),
        ensures
            r == self@.reading(row as int),
    {
        match self {
            ColumnData::Texts(cells) => if cells[row].is_some() {
                Some(Reading::Present)
            } else {
                None
            },
            ColumnData::Decimals { scale, mantissas } => match mantissas[row] {
                Some(m) => Some(Reading::Number(Num::Dec(m, *scale))),
                None => None,
            },
            ColumnData::Floats(cells) => match cells[row] {
                Some(bits) => Some(Reading::Number(Num::F64(bits))),
                None => None,
            },
            ColumnData::Integers(cells) => match cells[row] {
                Some(v) => Some(Reading::Number(Num::F64(nearest_float(v as i128)))),
                None => None,
            },
            ColumnData::Unsigned(cells) => match cells[row] {
                Some(v) => Some(Reading::Number(Num::F64(nearest_float(v as i128)))),
                None => None,
            },
            ColumnData::Others(cells) => if cells[row] {
                Some(Reading::Present)
            } else {
                None
            },
        }
    }
}

/// The double-precision value in a row, unless the cell is null or holds no
/// number.
///
/// This is the one place where a decimal becomes approximate: aggregates keep
/// it exact.
pub fn extract_f64(data: &ColumnData, index: usize) -> (r: Option<u64>)
    requires
        index < data@.len(),
    ensures
        r == data@.float_at(index as int),
{
    match data {
        ColumnData::Floats(cells) => cells[index],
        ColumnData::Integers(cells) => match cells[index] {
            Some(v) => Some(nearest_float(v as i128)),
            None => None,
        },
        ColumnData::Unsigned(cells) => match cells[index] {
            Some(v) => Some(nearest_float(v as i128)),
            None => None,
        },
        ColumnData::Decimals { scale, mantissas } => match mantissas[index] {
            Some(m) => {
                let unit: i128 = match power_of_ten(*scale as u32) {
                    Some(unit) => unit,
                    None => 1,
                };
                Some(divide_as_floats(m, unit))
            },
            None => None,
        },
        _ => None,
    }
}

} // verus!
