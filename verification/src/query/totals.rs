//! Totals of integer columns.
//!
//! Integers are added up as integers, and the total becomes a
//! double-precision value once.
use vstd::prelude::*;

#[allow(unused_imports)]
use crate::query::float::float_of;
use crate::query::float::nearest_float;
use crate::query::frame::{extract_f64, ColumnData};
#[allow(unused_imports)]
use crate::query::frame::DataModel;

verus! {

/// The sum of the integers that are not null, if there are any.
pub open spec fn signed_total(cells: Seq<Option<i64>>) -> Option<int>
    decreases cells.len(),
{
    if cells.len() == 0 {
        None
    } else {
        match (signed_total(cells.drop_last()), cells.last()) {
            (Some(total), Some(v)) => Some(total + v),
            (None, Some(v)) => Some(v as int),
            (before, None) => before,
        }
    }
}

/// The sum of the unsigned integers that are not null, if there are any.
pub open spec fn unsigned_total(cells: Seq<Option<u64>>) -> Option<int>
    decreases cells.len(),
{
    if cells.len() == 0 {
        None
    } else {
        match (unsigned_total(cells.drop_last()), cells.last()) {
            (Some(total), Some(v)) => Some(total + v),
            (None, Some(v)) => Some(v as int),
            (before, None) => before,
        }
    }
}

/// An integer wrapped around into the signed range.
pub open spec fn wrapped_signed(total: int) -> i64 {
    ((total + 0x8000_0000_0000_0000) % 0x1_0000_0000_0000_0000 - 0x8000_0000_0000_0000) as i64
}

/// An integer wrapped around into the unsigned range.
pub open spec fn wrapped_unsigned(total: int) -> u64 {
    (total % 0x1_0000_0000_0000_0000) as u64
}

/// The total of signed integers, wrapped around.
pub open spec fn signed_sum(cells: Seq<Option<i64>>) -> Option<i64> {
    match signed_total(cells) {
        Some(total) => Some(wrapped_signed(total)),
        None => None,
    }
}

/// The total of unsigned integers, wrapped around.
pub open spec fn unsigned_sum(cells: Seq<Option<u64>>) -> Option<u64> {
    match unsigned_total(cells) {
        Some(total) => Some(wrapped_unsigned(total)),
        None => None,
    }
}

/// `arrow::compute::sum` on a signed integer array: the sum of the values that
/// are not null, wrapped around at 64 bits, or nothing where there is no such
/// value.
#[verifier::external_body]
fn sum_signed(cells: &Vec<Option<i64>>) -> (r: Option<i64>)
    ensures
        r == signed_sum(cells@),
{
    arrow::compute::sum(&arrow::array::Int64Array::from(cells.clone()))
}

/// `arrow::compute::sum` on an unsigned integer array: the sum of the values
/// that are not null, wrapped around at 64 bits, or nothing where there is no
/// such value.
#[verifier::external_body]
fn sum_unsigned(cells: &Vec<Option<u64>>) -> (r: Option<u64>)
    ensures
        r == unsigned_sum(cells@),
{
    arrow::compute::sum(&arrow::array::UInt64Array::from(cells.clone()))
}

/// The total of a column of integers, wrapped around. There is none for a
/// column of another type, or of nulls.
pub open spec fn integer_total(data: DataModel) -> Option<int> {
    match data {
        DataModel::Integers(cells) => match signed_sum(cells) {
            Some(total) => Some(total as int),
            None => None,
        },
        DataModel::Unsigned(cells) => match unsigned_sum(cells) {
            Some(total) => Some(total as int),
            None => None,
        },
        _ => None,
    }
}

/// Add up a column of integers.
pub fn sum_integers(data: &ColumnData) -> (r: Option<i128>)
    ensures
        match r {
            Some(total) => integer_total(data@) == Some(total as int),
            None => integer_total(data@) is None,
        },
{
    match data {
        ColumnData::Integers(cells) => match sum_signed(cells) {
            Some(total) => Some(total as i128),
            None => None,
        },
        ColumnData::Unsigned(cells) => match sum_unsigned(cells) {
            Some(total) => Some(total as i128),
            None => None,
        },
        _ => None,
    }
}

/// The values whose floating-point sum a whole column adds to an aggregate:
/// its floats, or the one total of its integers.
pub open spec fn column_summands(data: DataModel) -> Seq<u64> {
    match data {
        DataModel::Floats(cells) => present(cells),
        _ => match integer_total(data) {
            Some(total) => seq![float_of(total)],
            None => Seq::empty(),
        },
    }
}

/// The values that are not null.
pub open spec fn present(cells: Seq<Option<u64>>) -> Seq<u64>
    decreases cells.len(),
{
    if cells.len() == 0 {
        Seq::empty()
    } else {
        match cells.last() {
            Some(v) => present(cells.drop_last()).push(v),
            None => present(cells.drop_last()),
        }
    }
}

/// The values that a whole column adds to a floating-point sum.
pub fn summands(data: &ColumnData) -> (r: Vec<u64>)
    ensures
        r@ == column_summands(data@),
{
    let mut out: Vec<u64> = Vec::new();
    match data {
        ColumnData::Floats(cells) => {
            let mut i: usize = 0;
            assert(cells@.take(0) =~= Seq::empty());
            while i < cells.len()
                invariant
                    i <= cells.len(),
                    out@ == present(cells@.take(i as int)),
                decreases cells.len() - i,
            {
                assert(cells@.take(i + 1).drop_last() =~= cells@.take(i as int));
                if let Some(v) = cells[i] {
                    out.push(v);
                }
                i = i + 1;
            }
            assert(cells@.take(i as int) =~= cells@);
        },
        _ => {
            if let Some(total) = sum_integers(data) {
                out.push(nearest_float(total));
            }
            assert(out@ =~= column_summands(data@));
        },
    }
    out
}

/// The double-precision values of a column in the rows of one group, among the
/// first `n` rows.
pub open spec fn group_floats(
    data: DataModel,
    row_groups: Seq<usize>,
    group: usize,
    n: int,
) -> Seq<u64>
    decreases n,
{
    if n <= 0 {
        Seq::empty()
    } else {
        let before = group_floats(data, row_groups, group, n - 1);
        match data.float_at(n - 1) {
            Some(v) if row_groups[n - 1] == group => before.push(v),
            _ => before,
        }
    }
}

/// The values that the rows of one group add to a floating-point sum, in the
/// order of the rows.
pub fn group_summands(data: &ColumnData, row_groups: &Vec<usize>, group: usize) -> (r: Vec<u64>)
    requires
        data@.len() == row_groups@.len(),
    ensures
        r@ == group_floats(data@, row_groups@, group, row_groups@.len() as int),
{
    let mut out: Vec<u64> = Vec::new();
    let mut i: usize = 0;
    while i < row_groups.len()
        invariant
            i <= row_groups.len(),
            data@.len() == row_groups@.len(),
            out@ == group_floats(data@, row_groups@, group, i as int),
        decreases row_groups.len() - i,
    {
        if let Some(v) = extract_f64(data, i) {
            if row_groups[i] == group {
                out.push(v);
            }
        }
        i = i + 1;
    }
    out
}

/// A total that lies in the range of 64 bits is not wrapped around.
pub proof fn small_totals_are_exact(total: int)
    ensures
        i64::MIN <= total <= i64::MAX ==> wrapped_signed(total) == total,
        0 <= total <= u64::MAX ==> wrapped_unsigned(total) == total,
{
}

} // verus!
