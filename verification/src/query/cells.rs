//! Stored values and the columns that hold them.
use vstd::prelude::*;
use vstd::string::*;

use crate::duplicate::Duplicate;
use crate::query::batch::{Cell, ColumnKind};
#[allow(unused_imports)]
use crate::query::batch::{can_hold, CellModel};
#[allow(unused_imports)]
use crate::query::decimal::fits;
use crate::query::decimal::{DECIMAL_PRECISION, LIMIT, MAX_DECIMAL_SCALE};
use crate::query::error::{invalid, QueryError};

verus! {

broadcast use vstd::string::group_string_axioms;

/// The type of a stored column.
#[derive(Debug, Clone, Copy, PartialEq, Eq, Structural)]
pub enum ColumnType {
    /// The time column.
    Timestamp,
    /// Signed 64-bit integers.
    I64,
    /// Unsigned 64-bit integers.
    U64,
    /// Double-precision values.
    F64,
    /// Booleans.
    Bool,
    /// Texts.
    String,
    /// Exact decimals.
    Decimal {
        /// Digits after the decimal point.
        scale: u8,
    },
}

impl DeepView for ColumnType {
    type V = ColumnType;

    open spec fn deep_view(&self) -> ColumnType {
        *self
    }
}

impl Duplicate for ColumnType {
    fn duplicate(&self) -> (r: Self) {
        *self
    }
}

/// The type of the column that a stored column is read into. Timestamps are
/// stored as integers.
pub open spec fn kind_of(ct: ColumnType) -> ColumnKind {
    match ct {
        ColumnType::Timestamp => ColumnKind::Int64,
        ColumnType::I64 => ColumnKind::Int64,
        ColumnType::U64 => ColumnKind::UInt64,
        ColumnType::F64 => ColumnKind::Float64,
        ColumnType::Bool => ColumnKind::Boolean,
        ColumnType::String => ColumnKind::Utf8,
        ColumnType::Decimal { scale } => ColumnKind::Decimal128 {
            precision: DECIMAL_PRECISION,
            scale: if scale <= i8::MAX {
                scale as i8
            } else {
                0
            },
        },
    }
}

/// The type of the column that a stored column is read into. A scale that no
/// decimal column can have is read as zero.
pub fn column_type_to_arrow(ct: ColumnType) -> (r: ColumnKind)
    ensures
        r == kind_of(ct),
{
    match ct {
        ColumnType::Timestamp => ColumnKind::Int64,
        ColumnType::I64 => ColumnKind::Int64,
        ColumnType::U64 => ColumnKind::UInt64,
        ColumnType::F64 => ColumnKind::Float64,
        ColumnType::Bool => ColumnKind::Boolean,
        ColumnType::String => ColumnKind::Utf8,
        ColumnType::Decimal { scale } => ColumnKind::Decimal128 {
            precision: DECIMAL_PRECISION,
            scale: if scale <= 127 {
                scale as i8
            } else {
                0
            },
        },
    }
}

/// A stored value.
#[derive(Debug)]
pub enum FieldValue {
    /// A signed integer.
    I64(i64),
    /// An unsigned integer.
    U64(u64),
    /// The bits of a double-precision value.
    F64(u64),
    /// A boolean.
    Bool(bool),
    /// A text.
    String(String),
    /// An exact decimal.
    Decimal {
        /// The digits.
        mantissa: i128,
        /// How many of them come after the decimal point.
        scale: u8,
    },
}

/// What a stored value stands for.
#[verifier::ext_equal]
pub enum ValueModel {
    /// A signed integer.
    I64(i64),
    /// An unsigned integer.
    U64(u64),
    /// The bits of a double-precision value.
    F64(u64),
    /// A boolean.
    Bool(bool),
    /// A text.
    String(Seq<char>),
    /// An exact decimal.
    Decimal {
        /// The digits.
        mantissa: i128,
        /// How many of them come after the decimal point.
        scale: u8,
    },
}

impl DeepView for FieldValue {
    type V = ValueModel;

    open spec fn deep_view(&self) -> ValueModel {
        match self {
            FieldValue::I64(v) => ValueModel::I64(*v),
            FieldValue::U64(v) => ValueModel::U64(*v),
            FieldValue::F64(v) => ValueModel::F64(*v),
            FieldValue::Bool(v) => ValueModel::Bool(*v),
            FieldValue::String(v) => ValueModel::String(v@),
            FieldValue::Decimal { mantissa, scale } => ValueModel::Decimal {
                mantissa: *mantissa,
                scale: *scale,
            },
        }
    }
}

impl Duplicate for FieldValue {
    fn duplicate(&self) -> (r: Self) {
        match self {
            FieldValue::I64(v) => FieldValue::I64(*v),
            FieldValue::U64(v) => FieldValue::U64(*v),
            FieldValue::F64(v) => FieldValue::F64(*v),
            FieldValue::Bool(v) => FieldValue::Bool(*v),
            FieldValue::String(v) => FieldValue::String(v.clone()),
            FieldValue::Decimal { mantissa, scale } => FieldValue::Decimal {
                mantissa: *mantissa,
                scale: *scale,
            },
        }
    }
}

/// Why a cell is no stored value.
pub enum CellFailure {
    /// The cell is not of the column's type.
    Disagrees,
    /// The decimal has a negative scale.
    NegativeScale,
    /// The decimal has a scale that is not stored.
    ScaleTooLarge,
    /// The decimal has more digits than are stored.
    TooManyDigits,
    /// No stored column has the type.
    NoSuchType,
}

/// The stored value of a cell, none where it is null, or why there is none.
pub open spec fn value_of(kind: ColumnKind, cell: CellModel) -> Result<
    Option<ValueModel>,
    CellFailure,
> {
    match (cell, kind) {
        (CellModel::Null, _) => Ok(None),
        (CellModel::Float(v), ColumnKind::Float64) => Ok(Some(ValueModel::F64(v))),
        (CellModel::Int(v), ColumnKind::Int64) => Ok(Some(ValueModel::I64(v))),
        (CellModel::UInt(v), ColumnKind::UInt64) => Ok(Some(ValueModel::U64(v))),
        (CellModel::Bool(v), ColumnKind::Boolean) => Ok(Some(ValueModel::Bool(v))),
        (CellModel::Text(v), ColumnKind::Utf8) => Ok(Some(ValueModel::String(v))),
        (CellModel::Decimal(v), ColumnKind::Decimal128 { precision: _, scale }) => if scale < 0 {
            Err(CellFailure::NegativeScale)
        } else if scale > MAX_DECIMAL_SCALE {
            Err(CellFailure::ScaleTooLarge)
        } else if !fits(v as int) {
            Err(CellFailure::TooManyDigits)
        } else {
            Ok(Some(ValueModel::Decimal { mantissa: v, scale: scale as u8 }))
        },
        (_, ColumnKind::Float64) => Err(CellFailure::Disagrees),
        (_, ColumnKind::Int64) => Err(CellFailure::Disagrees),
        (_, ColumnKind::UInt64) => Err(CellFailure::Disagrees),
        (_, ColumnKind::Boolean) => Err(CellFailure::Disagrees),
        (_, ColumnKind::Utf8) => Err(CellFailure::Disagrees),
        (_, ColumnKind::Decimal128 { precision: _, scale: _ }) => Err(CellFailure::Disagrees),
        _ => Err(CellFailure::NoSuchType),
    }
}

impl CellFailure {
    /// The text of the error.
    pub open spec fn text(self, named: Seq<char>) -> Seq<char> {
        match self {
            CellFailure::Disagrees => {
                "column has an array that disagrees with its own Arrow type, which no Chronix column type can hold"@
            },
            CellFailure::NegativeScale => {
                "column has a decimal with a negative scale, which no Chronix column type can hold"@
            },
            CellFailure::ScaleTooLarge => "decimal cell: the scale is too large"@,
            CellFailure::TooManyDigits => "decimal cell: the value has too many digits"@,
            CellFailure::NoSuchType => "column has Arrow type "@ + named
                + ", which no Chronix column type can hold"@,
        }
    }
}

fn disagrees() -> (r: QueryError)
    ensures
        r.is_validation(CellFailure::Disagrees.text(Seq::empty())),
{
    invalid(
        "column has an array that disagrees with its own Arrow type, which no Chronix column type can hold",
    )
}

/// The stored value of a cell of a column, none where it is null.
///
/// Fails where no stored column has the type, given by its name, and for a
/// decimal that is not stored. That is a mistake in the schema and not a missing
/// value.
pub fn arrow_cell_to_field_value(kind: ColumnKind, named: &str, cell: &Cell) -> (r: Result<
    Option<FieldValue>,
    QueryError,
>)
    ensures
        match (r, value_of(kind, cell.deep_view())) {
            (Ok(None), Ok(None)) => true,
            (Ok(Some(v)), Ok(Some(model))) => v.deep_view() == model,
            (Err(e), Err(failure)) => e.is_validation(failure.text(named@)),
            _ => false,
        },
{
    match cell {
        Cell::Null => {
            return Ok(None);
        },
        _ => {},
    }
    match kind {
        ColumnKind::Float64 => match cell {
            Cell::Float(v) => Ok(Some(FieldValue::F64(*v))),
            _ => Err(disagrees()),
        },
        ColumnKind::Int64 => match cell {
            Cell::Int(v) => Ok(Some(FieldValue::I64(*v))),
            _ => Err(disagrees()),
        },
        ColumnKind::UInt64 => match cell {
            Cell::UInt(v) => Ok(Some(FieldValue::U64(*v))),
            _ => Err(disagrees()),
        },
        ColumnKind::Boolean => match cell {
            Cell::Bool(v) => Ok(Some(FieldValue::Bool(*v))),
            _ => Err(disagrees()),
        },
        ColumnKind::Utf8 => match cell {
            Cell::Text(v) => Ok(Some(FieldValue::String(v.clone()))),
            _ => Err(disagrees()),
        },
        ColumnKind::Decimal128 { precision: _, scale } => match cell {
            Cell::Decimal(v) => {
                if scale < 0 {
                    Err(
                        invalid(
                            "column has a decimal with a negative scale, which no Chronix column type can hold",
                        ),
                    )
                } else if scale as u8 > MAX_DECIMAL_SCALE {
                    Err(invalid("decimal cell: the scale is too large"))
                } else if *v <= -LIMIT || *v >= LIMIT {
                    Err(invalid("decimal cell: the value has too many digits"))
                } else {
                    Ok(Some(FieldValue::Decimal { mantissa: *v, scale: scale as u8 }))
                }
            },
            _ => Err(disagrees()),
        },
        _ => {
            let mut text: String = "column has Arrow type ".to_owned();
            text.append(named);
            text.append(", which no Chronix column type can hold");
            Err(QueryError::Validation(text))
        },
    }
}

/// The value is one that a column of this type stores.
pub open spec fn is_stored_as(value: ValueModel, ct: ColumnType) -> bool {
    match value {
        ValueModel::I64(_) => ct == ColumnType::I64 || ct == ColumnType::Timestamp,
        ValueModel::U64(_) => ct == ColumnType::U64,
        ValueModel::F64(_) => ct == ColumnType::F64,
        ValueModel::Bool(_) => ct == ColumnType::Bool,
        ValueModel::String(_) => ct == ColumnType::String,
        ValueModel::Decimal { mantissa, scale } => ct == ColumnType::Decimal { scale } && scale
            <= MAX_DECIMAL_SCALE && fits(mantissa as int),
    }
}

/// The cell that holds a value.
pub open spec fn cell_of(value: ValueModel) -> CellModel {
    match value {
        ValueModel::I64(v) => CellModel::Int(v),
        ValueModel::U64(v) => CellModel::UInt(v),
        ValueModel::F64(v) => CellModel::Float(v),
        ValueModel::Bool(v) => CellModel::Bool(v),
        ValueModel::String(v) => CellModel::Text(v),
        ValueModel::Decimal { mantissa, scale: _ } => CellModel::Decimal(mantissa),
    }
}

/// Every stored value survives the round trip through the column that its type
/// is read into.
pub proof fn every_storage_type_survives_the_round_trip(value: ValueModel, ct: ColumnType)
    requires
        is_stored_as(value, ct),
    ensures
        can_hold(kind_of(ct), cell_of(value)),
        value_of(kind_of(ct), cell_of(value)) == Ok::<Option<ValueModel>, CellFailure>(Some(value)),
{
}

/// A cell that its column can hold is null, is a value, or fails because of the
/// column's type or its decimals: it never disagrees with its column.
pub proof fn held_cells_do_not_disagree(kind: ColumnKind, cell: CellModel)
    requires
        can_hold(kind, cell),
    ensures
        !(value_of(kind, cell) matches Err(CellFailure::Disagrees)),
        (value_of(kind, cell) == Ok::<Option<ValueModel>, CellFailure>(None)) == (cell is Null),
{
}

} // verus!
