//! How the cells of a frame are read, and what the tables of aggregates hold of
//! them.
use vstd::prelude::*;

#[allow(unused_imports)]
use crate::query::accumulator::{aggregate_of, Moment, Num, Reading};
#[allow(unused_imports)]
use crate::query::agg_fn::{result_name, AggFn};
#[allow(unused_imports)]
use crate::query::aggregate::{
    batch_outcome, column_aggregate, first_unnumbered, first_untexted, lemma_none_missing,
    named_columns, named_texts,
};
#[allow(unused_imports)]
use crate::query::float::{float_of, float_ratio};
#[allow(unused_imports)]
use crate::query::frame::{all_rows, optional_texts, DataModel, FrameModel};
#[allow(unused_imports)]
use crate::query::grouped::{
    are_row_groups, frame_groups, frame_keys, group_results, grouped_as, key_parts, GroupedTable,
};
#[allow(unused_imports)]
use crate::query::grouping::{groups_after, groups_are_distinct, GroupKey};
#[allow(unused_imports)]
use crate::query::groups::{
    a_group_is_the_rows_with_its_key, lemma_with_rows, no_groups, row_key, rows_with_key,
};
#[allow(unused_imports)]
use crate::query::result::{
    lemma_result_pairs, result_pairs, results_scale, ResultColumn, ResultTable, ResultValues,
};
#[allow(unused_imports)]
use crate::query::totals::{integer_total, signed_total, unsigned_total};
#[allow(unused_imports)]
use crate::query::track::AggResult;

verus! {

// ---------------------------------------------------------------------------
// Cells
// ---------------------------------------------------------------------------

/// A column is found by its name: the first that has it.
pub proof fn a_column_is_the_first_of_its_name(frame: FrameModel, name: Seq<char>)
    ensures
        match frame.column(name) {
            Some(data) => exists|c: int|
                {
                    &&& 0 <= c < frame.columns.len()
                    &&& #[trigger] frame.columns[c] == (name, data)
                    &&& forall|d: int| 0 <= d < c ==> (#[trigger] frame.columns[d]).0 != name
                },
            None => forall|c: int|
                0 <= c < frame.columns.len() ==> (#[trigger] frame.columns[c]).0 != name,
        },
        frame.texts(name) matches Some(cells) <==> frame.column(name) == Some(
            DataModel::Texts(frame.texts(name).unwrap()),
        ) && frame.texts(name) is Some,
        frame.column(name) matches Some(DataModel::Texts(cells)) ==> frame.texts(name) == Some(
            cells,
        ),
        !(frame.column(name) matches Some(DataModel::Texts(_))) ==> frame.texts(name) is None,
{
    lemma_column_from(frame, name, 0);
}

proof fn lemma_column_from(frame: FrameModel, name: Seq<char>, from: int)
    requires
        0 <= from <= frame.columns.len(),
        forall|d: int| 0 <= d < from ==> (#[trigger] frame.columns[d]).0 != name,
    ensures
        match frame.column_from(name, from) {
            Some(c) => 0 <= c < frame.columns.len() && frame.columns[c].0 == name && forall|d: int|
                0 <= d < c ==> (#[trigger] frame.columns[d]).0 != name,
            None => forall|c: int|
                0 <= c < frame.columns.len() ==> (#[trigger] frame.columns[c]).0 != name,
        },
    decreases frame.columns.len() - from,
{
    if from < frame.columns.len() && frame.columns[from].0 != name {
        lemma_column_from(frame, name, from + 1);
    }
}

/// A cell is read as what it holds, and a null as nothing: a float as itself,
/// an integer as the float nearest to it, a decimal exactly, and what is no
/// number as being there.
pub proof fn cells_are_read_as_they_are(data: DataModel, row: int)
    ensures
        data matches DataModel::Floats(cells) ==> (cells[row] matches Some(v) ==> data.reading(row)
            == Some(Reading::Number(Num::F64(v)))) && (cells[row] is None ==> data.reading(
            row,
        ) is None),
        data matches DataModel::Integers(cells) ==> (cells[row] matches Some(v) ==> data.reading(
            row,
        ) == Some(Reading::Number(Num::F64(float_of(v as int))))) && (cells[row] is None
            ==> data.reading(row) is None),
        data matches DataModel::Unsigned(cells) ==> (cells[row] matches Some(v) ==> data.reading(
            row,
        ) == Some(Reading::Number(Num::F64(float_of(v as int))))) && (cells[row] is None
            ==> data.reading(row) is None),
        data matches DataModel::Decimals { scale, mantissas } ==> (mantissas[row] matches Some(m)
            ==> data.reading(row) == Some(Reading::Number(Num::Dec(m, scale)))) && (
        mantissas[row] is None ==> data.reading(row) is None),
        data matches DataModel::Texts(cells) ==> (cells[row] is Some <==> data.reading(row)
            == Some(Reading::Present)) && (cells[row] is None <==> data.reading(row) is None),
        data matches DataModel::Others(cells) ==> (cells[row] <==> data.reading(row) == Some(
            Reading::Present,
        )) && (!cells[row] <==> data.reading(row) is None),
{
}

/// Cells of a window or of a downsampling are read as floats: a float as itself,
/// an integer as the float nearest to it, a decimal as its mantissa over its
/// power of ten, both as floats. What is no number reads as null.
pub proof fn cells_are_read_as_floats(data: DataModel, row: int)
    ensures
        data matches DataModel::Floats(cells) ==> data.float_at(row) == cells[row],
        data matches DataModel::Integers(cells) ==> (cells[row] matches Some(v) ==> data.float_at(
            row,
        ) == Some(float_of(v as int))) && (cells[row] is None ==> data.float_at(row) is None),
        data matches DataModel::Unsigned(cells) ==> (cells[row] matches Some(v) ==> data.float_at(
            row,
        ) == Some(float_of(v as int))) && (cells[row] is None ==> data.float_at(row) is None),
        data matches DataModel::Decimals { scale, mantissas } ==> (mantissas[row] matches Some(m)
            ==> (scale <= 38 ==> data.float_at(row) == Some(
            float_ratio(m as int, crate::query::decimal::pow10(scale as nat)),
        ))) && (mantissas[row] is None ==> data.float_at(row) is None),
        data is Texts || data is Others ==> data.float_at(row) is None,
        data.is_numeric() <==> !(data is Texts) && !(data is Others),
{
}

/// A row's moment is its timestamp, where there is a timestamp column and the
/// row has one.
pub proof fn moments_are_timestamps(frame: FrameModel, row: int)
    ensures
        frame.times is None ==> frame.moment(row) is NoColumn,
        frame.times matches Some(times) ==> (times[row] matches Some(t) ==> frame.moment(row)
            == Moment::At(t)) && (times[row] is None ==> frame.moment(row) is Unknown),
{
}

/// The readings of some rows are those of the rows that are not null, in their
/// order, each with its moment.
pub proof fn readings_are_of_the_rows_not_null(
    frame: FrameModel,
    data: DataModel,
    rows: Seq<int>,
)
    ensures
        frame.readings(data, rows) == rows.filter(
            |row: int| data.reading(row) is Some,
        ).map_values(|row: int| (data.reading(row).unwrap(), frame.moment(row))),
    decreases rows.len(),
{
    reveal(Seq::filter);
    let held = |row: int| data.reading(row) is Some;
    let read = |row: int| (data.reading(row).unwrap(), frame.moment(row));
    if rows.len() > 0 {
        readings_are_of_the_rows_not_null(frame, data, rows.drop_last());
        let before = rows.drop_last().filter(held);
        if held(rows.last()) {
            assert(before.push(rows.last()).map_values(read) =~= before.map_values(read).push(
                read(rows.last()),
            ));
        }
    } else {
        assert(frame.readings(data, rows) =~= rows.filter(held).map_values(read));
    }
}

/// A column's total is the sum of its integers that are not null.
pub proof fn integer_totals_are_sums(cells: Seq<Option<i64>>, wide: Seq<Option<u64>>)
    ensures
        signed_total(cells) is None <==> forall|i: int|
            0 <= i < cells.len() ==> (#[trigger] cells[i]) is None,
        signed_total(cells) matches Some(total) ==> total == cells.fold_left(
            0int,
            |sum: int, c: Option<i64>|
                match c {
                    Some(v) => sum + v,
                    None => sum,
                },
        ),
        unsigned_total(wide) is None <==> forall|i: int|
            0 <= i < wide.len() ==> (#[trigger] wide[i]) is None,
        unsigned_total(wide) matches Some(total) ==> total == wide.fold_left(
            0int,
            |sum: int, c: Option<u64>|
                match c {
                    Some(v) => sum + v,
                    None => sum,
                },
        ),
{
    lemma_signed(cells);
    lemma_unsigned(wide);
}

proof fn lemma_signed(cells: Seq<Option<i64>>)
    ensures
        signed_total(cells) is None <==> forall|i: int|
            0 <= i < cells.len() ==> (#[trigger] cells[i]) is None,
        cells.fold_left(
            0int,
            |sum: int, c: Option<i64>|
                match c {
                    Some(v) => sum + v,
                    None => sum,
                },
        ) == match signed_total(cells) {
            Some(total) => total,
            None => 0,
        },
    decreases cells.len(),
{
    let step = |sum: int, c: Option<i64>|
        match c {
            Some(v) => sum + v,
            None => sum,
        };
    if cells.len() > 0 {
        let rest = cells.drop_last();
        lemma_signed(rest);
        assert(cells.fold_left(0int, step) == step(rest.fold_left(0int, step), cells.last()));
        let n = cells.len() - 1;
        if signed_total(cells) is None {
            assert forall|i: int| 0 <= i < cells.len() implies (#[trigger] cells[i]) is None by {
                if i < n {
                    assert(rest[i] is None);
                }
            }
        }
        if forall|i: int| 0 <= i < cells.len() ==> (#[trigger] cells[i]) is None {
            assert(cells[n] is None);
            assert forall|i: int| 0 <= i < rest.len() implies (#[trigger] rest[i]) is None by {
                assert(cells[i] is None);
            }
        }
    }
}

proof fn lemma_unsigned(cells: Seq<Option<u64>>)
    ensures
        unsigned_total(cells) is None <==> forall|i: int|
            0 <= i < cells.len() ==> (#[trigger] cells[i]) is None,
        cells.fold_left(
            0int,
            |sum: int, c: Option<u64>|
                match c {
                    Some(v) => sum + v,
                    None => sum,
                },
        ) == match unsigned_total(cells) {
            Some(total) => total,
            None => 0,
        },
    decreases cells.len(),
{
    let step = |sum: int, c: Option<u64>|
        match c {
            Some(v) => sum + v,
            None => sum,
        };
    if cells.len() > 0 {
        let rest = cells.drop_last();
        lemma_unsigned(rest);
        assert(cells.fold_left(0int, step) == step(rest.fold_left(0int, step), cells.last()));
        let n = cells.len() - 1;
        if unsigned_total(cells) is None {
            assert forall|i: int| 0 <= i < cells.len() implies (#[trigger] cells[i]) is None by {
                if i < n {
                    assert(rest[i] is None);
                }
            }
        }
        if forall|i: int| 0 <= i < cells.len() ==> (#[trigger] cells[i]) is None {
            assert(cells[n] is None);
            assert forall|i: int| 0 <= i < rest.len() implies (#[trigger] rest[i]) is None by {
                assert(cells[i] is None);
            }
        }
    }
}

// ---------------------------------------------------------------------------
// Tables
// ---------------------------------------------------------------------------

/// The result columns come field by field, and for each field function by
/// function.
pub proof fn result_columns_come_field_by_field(
    fields: Seq<Seq<char>>,
    functions: Seq<AggFn>,
    f: int,
    k: int,
)
    requires
        0 <= f < fields.len(),
        0 <= k < functions.len(),
    ensures
        result_pairs(fields, functions).len() == fields.len() * functions.len(),
        0 <= f * functions.len() + k < result_pairs(fields, functions).len(),
        result_pairs(fields, functions)[f * functions.len() + k] == (f, functions[k]),
    decreases fields.len(),
{
    let n = functions.len() as int;
    let last = fields.len() - 1;
    lemma_result_pairs(fields, functions);
    lemma_result_pairs(fields.drop_last(), functions);
    let before = result_pairs(fields.drop_last(), functions);
    assert(f * n + k < (f + 1) * n) by (nonlinear_arith)
        requires
            0 <= k < n,
    ;
    assert((f + 1) * n <= fields.len() * n) by (nonlinear_arith)
        requires
            f + 1 <= fields.len(),
            n >= 0,
    ;
    assert(0 <= f * n) by (nonlinear_arith)
        requires
            f >= 0,
            n >= 0,
    ;
    if f < last {
        result_columns_come_field_by_field(fields.drop_last(), functions, f, k);
        assert(result_pairs(fields, functions)[f * n + k] == before[f * n + k]);
    } else {
        assert(before.len() == f * n);
    }
}

/// What a column of results shows in a row.
pub open spec fn shown_in(column: ResultColumn, row: int) -> AggResult {
    match column.values {
        ResultValues::Floats(values) => values@[row],
        ResultValues::Decimals { scale, mantissas } => match mantissas@[row] {
            Some(mantissa) => AggResult::Decimal { mantissa, scale },
            None => AggResult::Null,
        },
    }
}

/// The results are all of one scale, where they are decimals, and the others
/// null then.
pub open spec fn are_of_one_type(results: Seq<AggResult>) -> bool {
    (forall|i: int| 0 <= i < results.len() ==> !((#[trigger] results[i]) is Decimal)) || exists|
        scale: u8,
    | #[trigger] are_at(results, scale)
}

/// The results are decimals at this scale, or null.
pub open spec fn are_at(results: Seq<AggResult>, scale: u8) -> bool {
    forall|i: int|
        0 <= i < results.len() ==> (#[trigger] results[i]) is Null || (
        results[i] matches AggResult::Decimal { scale: s, .. } && s == scale)
}

pub proof fn lemma_scale(results: Seq<AggResult>)
    ensures
        results_scale(results) is None <==> forall|i: int|
            0 <= i < results.len() ==> !((#[trigger] results[i]) is Decimal),
        forall|scale: u8| #[trigger] are_at(results, scale) ==> (results_scale(results) matches Some(
            s,
        ) ==> s == scale),
    decreases results.len(),
{
    if results.len() > 0 {
        let rest = results.skip(1);
        lemma_scale(rest);
        if results_scale(results) is None {
            assert forall|i: int| 0 <= i < results.len() implies !((
            #[trigger] results[i]) is Decimal) by {
                if i > 0 {
                    assert(rest[i - 1] == results[i]);
                }
            }
        }
        if forall|i: int| 0 <= i < results.len() ==> !((#[trigger] results[i]) is Decimal) {
            assert(!(results[0] is Decimal));
            assert forall|i: int| 0 <= i < rest.len() implies !((#[trigger] rest[i]) is Decimal) by {
                assert(rest[i] == results[i + 1]);
            }
        }
        assert forall|scale: u8| #[trigger] are_at(results, scale) implies (results_scale(
            results,
        ) matches Some(s) ==> s == scale) by {
            assert(results[0] is Null || results[0] is Decimal);
            assert(are_at(rest, scale)) by {
                assert forall|i: int| 0 <= i < rest.len() implies (#[trigger] rest[i]) is Null || (
                rest[i] matches AggResult::Decimal { scale: s, .. } && s == scale) by {
                    assert(rest[i] == results[i + 1]);
                }
            }
        }
    }
}

pub proof fn lemma_shown(column: ResultColumn, name: Seq<char>, results: Seq<AggResult>, row: int)
    requires
        column.shows(name, results),
        are_of_one_type(results),
        0 <= row < results.len(),
    ensures
        column.name@ == name,
        shown_in(column, row) == results[row],
{
    lemma_scale(results);
    if let ResultValues::Decimals { scale, mantissas } = column.values {
        let s = choose|s: u8| #[trigger] are_at(results, s);
        if !(forall|i: int| 0 <= i < results.len() ==> !((#[trigger] results[i]) is Decimal)) {
            assert(are_at(results, s));
            assert(results[row] is Null || results[row] is Decimal);
        }
    }
}

/// A table of whole columns has a column for each field and function, named
/// after both, with the one result of the function over the field's values.
pub proof fn a_batch_table_holds_each_aggregate(
    table: ResultTable,
    frame: FrameModel,
    functions: Seq<AggFn>,
    fields: Seq<Seq<char>>,
    f: int,
    k: int,
)
    requires
        batch_outcome(Ok(table), frame, functions, fields),
        0 <= f < fields.len(),
        0 <= k < functions.len(),
        frame.rows <= u64::MAX,
    ensures
        table.keys@.len() == 0,
        table.results@.len() == fields.len() * functions.len(),
        ({
            let column = table.results@[f * functions.len() + k];
            let data = frame.column(fields[f]).unwrap();
            let rs = frame.readings(data, Seq::new(frame.rows, |i: int| i));
            &&& frame.column(fields[f]) is Some
            &&& data.is_numeric()
            &&& frame.rows > 0
            &&& column.name@ == fields[f] + "_"@ + functions[k].name()
            &&& functions[k] is Count ==> shown_in(column, 0) == AggResult::Count(rs.len() as u64)
            &&& functions[k] is First || functions[k] is Last || data is Decimals ==> shown_in(
                column,
                0,
            ) == aggregate_of(rs, functions[k])
            &&& functions[k] is Sum && (data is Integers || data is Unsigned) ==> (integer_total(
                data,
            ) matches Some(total) ==> shown_in(column, 0) == AggResult::F64(float_of(total)))
            &&& functions[k] is Avg && (data is Integers || data is Unsigned) ==> (integer_total(
                data,
            ) matches Some(total) ==> shown_in(column, 0) == AggResult::F64(
                float_ratio(total, rs.len() as int),
            ))
        }),
{
    result_columns_come_field_by_field(fields, functions, f, k);
    let p = f * functions.len() + k;
    let data = frame.column(fields[f]).unwrap();
    lemma_none_missing(frame, fields, 0, f);
    lemma_numbered(frame, fields, 0, f);
    let result = column_aggregate(frame, data, functions[k]);
    assert(all_rows(frame.rows) =~= Seq::new(frame.rows, |i: int| i));
    assert(seq![result][0] == result);
    assert(are_of_one_type(seq![result])) by {
        if let AggResult::Decimal { mantissa, scale } = result {
            assert(are_at(seq![result], scale));
        }
    }
    assert(table.results@[p].shows(result_name(fields[f], functions[k]), seq![result]));
    lemma_shown(table.results@[p], result_name(fields[f], functions[k]), seq![result], 0);
    if data is Decimals {
        lemma_decimal_column(frame, data, all_rows(frame.rows));
    }
}

proof fn lemma_numbered(frame: FrameModel, names: Seq<Seq<char>>, from: int, i: int)
    requires
        0 <= from <= i < names.len(),
        first_unnumbered(frame, names, from) is None,
    ensures
        frame.column(names[i]) matches Some(data) ==> data.is_numeric(),
    decreases i - from,
{
    if from < i {
        lemma_numbered(frame, names, from + 1, i);
    }
}

proof fn lemma_decimal_column(frame: FrameModel, data: DataModel, rows: Seq<int>)
    requires
        data is Decimals,
    ensures
        ({
            let ns = crate::query::accumulator::numbers(frame.readings(data, rows));
            ns.len() > 0 ==> crate::query::accumulator::decimals(ns).len() > 0
        }),
    decreases rows.len(),
{
    if rows.len() > 0 {
        lemma_decimal_column(frame, data, rows.drop_last());
        let before = frame.readings(data, rows.drop_last());
        if let Some(reading) = data.reading(rows.last()) {
            let after = before.push((reading, frame.moment(rows.last())));
            assert(after.drop_last() =~= before);
            let ns = crate::query::accumulator::numbers(after);
            assert(ns.drop_last() =~= crate::query::accumulator::numbers(before));
        }
    }
}

/// The rows of one group, in order.
pub open spec fn rows_of_group(row_groups: Seq<usize>, g: int) -> Seq<int> {
    first_rows_of_group(row_groups, g, row_groups.len())
}

/// The rows of one group among the first `n`, in order.
pub open spec fn first_rows_of_group(row_groups: Seq<usize>, g: int, n: nat) -> Seq<int> {
    Seq::new(n, |i: int| i).filter(|row: int| row_groups[row] == g)
}

pub proof fn lemma_rows_of_group(
    texts: Seq<Option<Seq<Option<Seq<char>>>>>,
    key: GroupKey,
    row_groups: Seq<usize>,
    g: int,
    n: int,
)
    requires
        0 <= n <= row_groups.len(),
        forall|row: int|
            0 <= row < row_groups.len() ==> (#[trigger] row_groups[row] == g <==> row_key(
                texts,
                row,
            ) == key),
    ensures
        rows_with_key(texts, key, n) == first_rows_of_group(row_groups, g, n as nat),
    decreases n,
{
    reveal(Seq::filter);
    let rows = Seq::new(n as nat, |i: int| i);
    if n > 0 {
        lemma_rows_of_group(texts, key, row_groups, g, n - 1);
        assert(rows.drop_last() =~= Seq::new((n - 1) as nat, |i: int| i));
        assert(rows.last() == n - 1);
        assert(row_groups[n - 1] == g <==> row_key(texts, n - 1) == key);
    } else {
        assert(rows_with_key(texts, key, n) =~= rows);
    }
}

/// Some row is in this group.
pub open spec fn has_a_row(row_groups: Seq<usize>, g: int) -> bool {
    exists|row: int| 0 <= row < row_groups.len() && #[trigger] row_groups[row] == g
}

/// A table of groups has one row for each combination of texts that the rows
/// hold in the group-by columns, in the order in which they are first seen: each
/// row of the frame is in the group that shows its texts, no two groups show the
/// same, and no group is without a row.
pub proof fn a_grouped_table_has_one_row_per_combination(
    grouped: GroupedTable,
    frame: FrameModel,
    functions: Seq<AggFn>,
    fields: Seq<Seq<char>>,
    by: Seq<Seq<char>>,
    start: Option<(int, int)>,
    end: Option<(int, int)>,
)
    requires
        grouped_as(Ok(grouped), frame, functions, fields, by, start, end),
        by.len() > 0,
    ensures
        grouped.table.keys@.len() == by.len(),
        grouped.row_groups@.len() == frame.rows,
        forall|c: int, row: int|
            #![trigger by[c], grouped.row_groups@[row]]
            0 <= c < by.len() && 0 <= row < frame.rows ==> {
                &&& grouped.table.keys@[c].name@ == by[c]
                &&& grouped.row_groups@[row] < grouped.table.keys@[c].values@.len()
                &&& optional_texts(
                    grouped.table.keys@[c].values@,
                )[grouped.row_groups@[row] as int] == frame.texts(by[c]).unwrap()[row]
            },
        forall|a: int, b: int|
            #![trigger grouped.row_groups@[a], grouped.row_groups@[b]]
            0 <= a < frame.rows && 0 <= b < frame.rows ==> (grouped.row_groups@[a]
                == grouped.row_groups@[b] <==> crate::query::window_laws::share_texts(
                frame,
                by,
                a,
                b,
            )),
        forall|row: int|
            0 <= row < frame.rows ==> (#[trigger] grouped.row_groups@[row]) == 0 || exists|a: int|
                0 <= a < row && #[trigger] grouped.row_groups@[a] == grouped.row_groups@[row] - 1,
        forall|g: int|
            0 <= g < grouped.table.keys@[0].values@.len() ==> #[trigger] has_a_row(
                grouped.row_groups@,
                g,
            ),
{
    let ks = frame_keys(frame, by);
    let texts = named_texts(frame, by);
    let model = frame_groups(frame, fields, by);
    let none = Seq::<GroupKey>::empty();
    let n = frame.rows as int;
    lemma_with_rows(no_groups(), frame, named_columns(frame, fields), texts, n);
    groups_are_distinct(none, ks);
    crate::query::grouped::lemma_keys_have_parts(texts, n);
    let groups = groups_after(none, ks);
    assert(model.keys == groups);
    let rg = grouped.row_groups@;
    assert(are_row_groups(rg, groups, ks));
    lemma_all_texts(frame, by, 0);
    assert forall|c: int, row: int|
        #![trigger by[c], rg[row]]
        0 <= c < by.len() && 0 <= row < frame.rows implies {
        &&& grouped.table.keys@[c].name@ == by[c]
        &&& rg[row] < grouped.table.keys@[c].values@.len()
        &&& optional_texts(grouped.table.keys@[c].values@)[rg[row] as int] == frame.texts(
            by[c],
        ).unwrap()[row]
    } by {
        assert(grouped.table.keys@[c].name@ == by[c]);
        assert(optional_texts(grouped.table.keys@[c].values@) == key_parts(model, c));
        assert(optional_texts(grouped.table.keys@[c].values@).len() == groups.len());
        assert(groups[rg[row] as int] == ks[row]);
        assert(ks[row] == row_key(texts, row));
        assert(frame.texts(by[c]) is Some);
    }
    assert forall|a: int, b: int|
        #![trigger rg[a], rg[b]]
        0 <= a < frame.rows && 0 <= b < frame.rows implies (rg[a] == rg[b]
        <==> crate::query::window_laws::share_texts(frame, by, a, b)) by {
        assert(groups[rg[a] as int] == ks[a]);
        assert(groups[rg[b] as int] == ks[b]);
        assert(ks[a] == row_key(texts, a));
        assert(ks[b] == row_key(texts, b));
        if rg[a] == rg[b] {
            assert forall|c: int| 0 <= c < by.len() implies frame.texts(
                #[trigger] by[c],
            ).unwrap()[a] == frame.texts(by[c]).unwrap()[b] by {
                assert(row_key(texts, a)[c] == row_key(texts, b)[c]);
            }
        }
        if crate::query::window_laws::share_texts(frame, by, a, b) {
            assert forall|c: int| 0 <= c < by.len() implies row_key(texts, a)[c] == row_key(
                texts,
                b,
            )[c] by {
                assert(frame.texts(by[c]).unwrap()[a] == frame.texts(by[c]).unwrap()[b]);
            }
            assert(row_key(texts, a) =~= row_key(texts, b));
            if rg[a] < rg[b] {
                assert(groups[rg[a] as int] != groups[rg[b] as int]);
            } else if rg[b] < rg[a] {
                assert(groups[rg[b] as int] != groups[rg[a] as int]);
            }
        }
    }
    assert forall|row: int| 0 <= row < frame.rows implies (#[trigger] rg[row]) == 0 || exists|
        a: int,
    | 0 <= a < row && #[trigger] rg[a] == rg[row] - 1 by {
        if rg[row] > 0 {
            lemma_first_seen(ks, groups, rg, n, row);
        }
    }
    assert forall|g: int| 0 <= g < grouped.table.keys@[0].values@.len() implies #[trigger] has_a_row(
        rg,
        g,
    ) by {
        assert(grouped.table.keys@[0].name@ == by[0]);
        assert(optional_texts(grouped.table.keys@[0].values@) == key_parts(model, 0));
        assert(optional_texts(grouped.table.keys@[0].values@).len() == groups.len());
        crate::query::grouping::new_groups_come_from_keys(none, ks, g);
        let row = choose|row: int| 0 <= row < ks.len() && ks[row] == groups[g];
        assert(groups[rg[row] as int] == ks[row]);
        if rg[row] < g {
            assert(groups[rg[row] as int] != groups[g]);
        } else if g < rg[row] {
            assert(groups[g] != groups[rg[row] as int]);
        }
        assert(rg[row] == g);
    }
}

pub proof fn lemma_all_texts(frame: FrameModel, by: Seq<Seq<char>>, from: int)
    requires
        0 <= from <= by.len(),
        first_untexted(frame, by, from) is None,
    ensures
        forall|c: int| from <= c < by.len() ==> frame.texts(#[trigger] by[c]) is Some,
    decreases by.len() - from,
{
    if from < by.len() {
        lemma_all_texts(frame, by, from + 1);
    }
}

proof fn lemma_first_seen(
    ks: Seq<GroupKey>,
    groups: Seq<GroupKey>,
    rg: Seq<usize>,
    n: int,
    row: int,
)
    requires
        groups == groups_after(Seq::empty(), ks),
        ks.len() == n,
        are_row_groups(rg, groups, ks),
        0 <= row < n,
        rg[row] > 0,
    ensures
        exists|a: int| 0 <= a < row && #[trigger] rg[a] == rg[row] - 1,
{
    let none = Seq::<GroupKey>::empty();
    groups_are_distinct(none, ks);
    let upto = groups_after(none, ks.take(row + 1));
    groups_are_distinct(none, ks.take(row + 1));
    lemma_groups_prefix(ks, row + 1);
    assert(ks.take(row + 1)[row] == ks[row]);
    assert(upto.contains(ks[row]));
    let i = choose|i: int| 0 <= i < upto.len() && upto[i] == ks[row];
    assert(groups[i] == upto[i]);
    assert(groups[rg[row] as int] == ks[row]);
    if i < rg[row] {
        assert(groups[i] != groups[rg[row] as int]);
    } else if rg[row] < i {
        assert(groups[rg[row] as int] != groups[i]);
    }
    let g = rg[row] - 1;
    crate::query::grouping::new_groups_come_from_keys(none, ks.take(row + 1), g);
    let seen = ks.take(row + 1);
    let a = choose|a: int| 0 <= a < seen.len() && #[trigger] seen[a] == upto[g];
    assert(groups[g] == upto[g]);
    assert(ks[a] == groups[g]);
    assert(groups[rg[a] as int] == ks[a]);
    if rg[a] < g {
        assert(groups[rg[a] as int] != groups[g]);
    } else if g < rg[a] {
        assert(groups[g] != groups[rg[a] as int]);
    }
    if a == row {
        assert(groups[g] != groups[rg[row] as int]);
    }
    assert(rg[a] == rg[row] - 1);
}

proof fn lemma_groups_prefix(ks: Seq<GroupKey>, k: int)
    requires
        0 <= k <= ks.len(),
    ensures
        ({
            let part = groups_after(Seq::empty(), ks.take(k));
            let all = groups_after(Seq::empty(), ks);
            part.len() <= all.len() && forall|i: int|
                0 <= i < part.len() ==> #[trigger] all[i] == part[i]
        }),
    decreases ks.len() - k,
{
    if k < ks.len() {
        lemma_groups_prefix(ks, k + 1);
        assert(ks.take(k + 1).drop_last() =~= ks.take(k));
        let part = groups_after(Seq::empty(), ks.take(k));
        let more = groups_after(Seq::empty(), ks.take(k + 1));
        let all = groups_after(Seq::empty(), ks);
        assert forall|i: int| 0 <= i < part.len() implies #[trigger] all[i] == part[i] by {
            assert(more[i] == part[i]);
        }
    } else {
        assert(ks.take(k) =~= ks);
    }
}

proof fn lemma_group_readings(
    frame: FrameModel,
    fields: Seq<Seq<char>>,
    by: Seq<Seq<char>>,
    rg: Seq<usize>,
    f: int,
    g: int,
)
    requires
        are_row_groups(rg, frame_groups(frame, fields, by).keys, frame_keys(frame, by)),
        0 <= f < fields.len(),
        frame.column(fields[f]) is Some,
        0 <= g < frame_groups(frame, fields, by).keys.len(),
    ensures
        frame_groups(frame, fields, by).readings[g][f] == frame.readings(
            frame.column(fields[f]).unwrap(),
            rows_of_group(rg, g),
        ),
{
    let ks = frame_keys(frame, by);
    let texts = named_texts(frame, by);
    let columns = named_columns(frame, fields);
    let none = Seq::<GroupKey>::empty();
    let n = frame.rows as int;
    lemma_with_rows(no_groups(), frame, columns, texts, n);
    groups_are_distinct(none, ks);
    let groups = groups_after(none, ks);
    let key = groups[g];
    assert forall|row: int| 0 <= row < rg.len() implies (#[trigger] rg[row] == g <==> row_key(
        texts,
        row,
    ) == key) by {
        assert(groups[rg[row] as int] == ks[row]);
        assert(ks[row] == row_key(texts, row));
        if rg[row] < g {
            assert(groups[rg[row] as int] != groups[g]);
        } else if g < rg[row] {
            assert(groups[g] != groups[rg[row] as int]);
        }
    }
    a_group_is_the_rows_with_its_key(frame, columns, texts, n, g, f);
    lemma_rows_of_group(texts, key, rg, g, n);
    assert(rg.len() == n);
    assert(columns[f] == frame.column(fields[f]));
}

/// The column holds this result in this row: as it is, or, in a column of
/// decimals, by its mantissa, with null for what is no decimal.
pub open spec fn holds_result(column: ResultColumn, row: int, result: AggResult) -> bool {
    match column.values {
        ResultValues::Floats(values) => values@[row] == result && !(result is Decimal),
        ResultValues::Decimals { mantissas, .. } => match result {
            AggResult::Decimal { mantissa, .. } => mantissas@[row] == Some(mantissa),
            _ => mantissas@[row] is None,
        },
    }
}

pub proof fn lemma_holds_result(
    column: ResultColumn,
    name: Seq<char>,
    results: Seq<AggResult>,
    row: int,
)
    requires
        column.shows(name, results),
        0 <= row < results.len(),
    ensures
        column.name@ == name,
        holds_result(column, row, results[row]),
{
    lemma_scale(results);
}

/// The results of a group are the aggregates of the values in the rows of that
/// group, one column for each field and function, named after both.
pub proof fn a_grouped_table_holds_each_aggregate(
    grouped: GroupedTable,
    frame: FrameModel,
    functions: Seq<AggFn>,
    fields: Seq<Seq<char>>,
    by: Seq<Seq<char>>,
    start: Option<(int, int)>,
    end: Option<(int, int)>,
    f: int,
    k: int,
    g: int,
)
    requires
        grouped_as(Ok(grouped), frame, functions, fields, by, start, end),
        by.len() > 0,
        0 <= f < fields.len(),
        0 <= k < functions.len(),
        0 <= g < grouped.table.keys@[0].values@.len(),
    ensures
        grouped.table.results@.len() == fields.len() * functions.len(),
        frame.column(fields[f]) is Some,
        grouped.table.results@[f * functions.len() + k].name@ == fields[f] + "_"@
            + functions[k].name(),
        holds_result(
            grouped.table.results@[f * functions.len() + k],
            g,
            aggregate_of(
                frame.readings(
                    frame.column(fields[f]).unwrap(),
                    rows_of_group(grouped.row_groups@, g),
                ),
                functions[k],
            ),
        ),
{
    let model = frame_groups(frame, fields, by);
    assert(grouped.table.keys@[0].name@ == by[0]);
    assert(optional_texts(grouped.table.keys@[0].values@) == key_parts(model, 0));
    assert(optional_texts(grouped.table.keys@[0].values@).len() == model.keys.len());
    result_columns_come_field_by_field(fields, functions, f, k);
    lemma_none_missing(frame, fields, 0, f);
    lemma_group_readings(frame, fields, by, grouped.row_groups@, f, g);
    let p = f * functions.len() + k;
    let results = group_results(model, f, functions[k]);
    assert(result_pairs(fields, functions)[p] == (f, functions[k]));
    assert(grouped.table.results@[p].shows(result_name(fields[f], functions[k]), results));
    lemma_holds_result(
        grouped.table.results@[p],
        result_name(fields[f], functions[k]),
        results,
        g,
    );
    assert(results[g] == aggregate_of(model.readings[g][f], functions[k]));
}

/// Without group-by columns all rows are one group, with the table of the whole
/// columns.
pub proof fn without_columns_all_rows_are_one_group(
    grouped: GroupedTable,
    frame: FrameModel,
    functions: Seq<AggFn>,
    fields: Seq<Seq<char>>,
    start: Option<(int, int)>,
    end: Option<(int, int)>,
)
    requires
        grouped_as(Ok(grouped), frame, functions, fields, Seq::empty(), start, end),
    ensures
        batch_outcome(Ok(grouped.table), frame, functions, fields),
        grouped.row_groups@.len() == frame.rows,
        forall|row: int| 0 <= row < frame.rows ==> #[trigger] grouped.row_groups@[row] == 0,
{
}

} // verus!
