//! What the tables of sorted groups, of whole columns and of streamed batches
//! hold.
use vstd::prelude::*;

#[allow(unused_imports)]
use crate::query::accumulator::{
    aggregate_of, decimals, numbers, Moment, Num, Reading,
};
#[allow(unused_imports)]
use crate::query::agg_fn::{result_name, AggFn};
#[allow(unused_imports)]
use crate::query::aggregate::{
    batch_outcome, column_aggregate, column_readings, kernel_max, kernel_min, lemma_none_missing,
    named_columns, named_texts,
};
#[allow(unused_imports)]
use crate::query::aggregate_laws::{
    are_floats, float_in, kernel_extremes_are_readings, lemma_floats,
};
#[allow(unused_imports)]
use crate::query::float::{
    is_nan, less, numbers_lie_between_the_infinities, the_total_order_refines_the_numbers,
    total_less,
};
#[allow(unused_imports)]
use crate::query::frame::{optional_texts, DataModel, FrameModel};
#[allow(unused_imports)]
use crate::query::frame_laws::{
    has_a_row, holds_result, lemma_all_texts, lemma_holds_result, lemma_rows_of_group, lemma_shown,
    result_columns_come_field_by_field, rows_of_group, shown_in, are_of_one_type, are_at,
};
#[allow(unused_imports)]
use crate::query::grouped::{
    are_row_groups, frame_keys, group_results, key_parts, shows_groups, GroupedTable,
};
#[allow(unused_imports)]
use crate::query::grouping::{groups_are_distinct, GroupKey};
#[allow(unused_imports)]
use crate::query::groups::{
    lemma_index_of, lemma_none, lemma_with_rows, row_key, row_keys, rows_with_key, with_reading,
    GroupsModel,
};
#[allow(unused_imports)]
use crate::query::row_encoding::key_before;
#[allow(unused_imports)]
use crate::query::result::{result_pairs, ResultTable};
#[allow(unused_imports)]
use crate::query::sorted::{is_key_order, sorted_as, sorted_groups};
#[allow(unused_imports)]
use crate::query::streaming::{
    lemma_stream_groups, shows_stream, stream_aggregate, stream_groups, stream_max, stream_min,
    stream_readings, streamed_as,
};
#[allow(unused_imports)]
use crate::query::totals::{integer_total, signed_total, unsigned_total};
#[allow(unused_imports)]
use crate::query::track::AggResult;

verus! {

// ---------------------------------------------------------------------------
// Sorted groups
// ---------------------------------------------------------------------------

/// The key that a table of groups shows in a row.
pub open spec fn key_shown(table: ResultTable, g: int) -> GroupKey {
    Seq::new(table.keys@.len(), |c: int| optional_texts(table.keys@[c].values@)[g])
}

/// A table of sorted groups has its rows in ascending order of their keys. Each
/// row of the frame is in the group that shows its texts, and no group is
/// without a row.
pub proof fn a_sorted_table_is_in_key_order(
    grouped: GroupedTable,
    frame: FrameModel,
    functions: Seq<AggFn>,
    fields: Seq<Seq<char>>,
    by: Seq<Seq<char>>,
    start: Option<(int, int)>,
    end: Option<(int, int)>,
)
    requires
        sorted_as(Ok(grouped), frame, functions, fields, by, start, end),
        by.len() > 0,
    ensures
        grouped.table.keys@.len() == by.len(),
        grouped.row_groups@.len() == frame.rows,
        forall|c: int, row: int|
            #![trigger by[c], grouped.row_groups@[row]]
            0 <= c < by.len() && 0 <= row < frame.rows ==> {
                &&& grouped.table.keys@[c].name@ == by[c]
                &&& grouped.row_groups@[row] < grouped.table.keys@[c].values@.len()
                &&& optional_texts(
                    grouped.table.keys@[c].values@,
                )[grouped.row_groups@[row] as int] == frame.texts(by[c]).unwrap()[row]
            },
        forall|g: int, h: int|
            #![trigger key_shown(grouped.table, g), key_shown(grouped.table, h)]
            0 <= g < h < grouped.table.keys@[0].values@.len() ==> key_before(
                key_shown(grouped.table, g),
                key_shown(grouped.table, h),
            ),
        forall|g: int|
            0 <= g < grouped.table.keys@[0].values@.len() ==> #[trigger] has_a_row(
                grouped.row_groups@,
                g,
            ),
{
    let ks = frame_keys(frame, by);
    let texts = named_texts(frame, by);
    let groups = lemma_sorted(grouped, frame, functions, fields, by, start, end);
    let model = sorted_groups(frame, fields, by, groups);
    let rg = grouped.row_groups@;
    lemma_all_texts(frame, by, 0);
    assert forall|c: int, row: int|
        #![trigger by[c], rg[row]]
        0 <= c < by.len() && 0 <= row < frame.rows implies {
        &&& grouped.table.keys@[c].name@ == by[c]
        &&& rg[row] < grouped.table.keys@[c].values@.len()
        &&& optional_texts(grouped.table.keys@[c].values@)[rg[row] as int] == frame.texts(
            by[c],
        ).unwrap()[row]
    } by {
        assert(grouped.table.keys@[c].name@ == by[c]);
        assert(optional_texts(grouped.table.keys@[c].values@) == key_parts(model, c));
        assert(optional_texts(grouped.table.keys@[c].values@).len() == groups.len());
        assert(groups[rg[row] as int] == ks[row]);
        assert(ks[row] == row_key(texts, row));
        assert(frame.texts(by[c]) is Some);
    }
    assert(grouped.table.keys@[0].name@ == by[0]);
    assert(optional_texts(grouped.table.keys@[0].values@) == key_parts(model, 0));
    assert(optional_texts(grouped.table.keys@[0].values@).len() == groups.len());
    assert forall|g: int| 0 <= g < groups.len() implies #[trigger] key_shown(grouped.table, g)
        == groups[g] by {
        assert(ks.contains(groups[g]));
        let row = choose|row: int| 0 <= row < ks.len() && ks[row] == groups[g];
        assert(ks[row] == row_key(texts, row));
        assert forall|c: int| 0 <= c < by.len() implies key_shown(grouped.table, g)[c]
            == groups[g][c] by {
            assert(grouped.table.keys@[c].name@ == by[c]);
            assert(optional_texts(grouped.table.keys@[c].values@) == key_parts(model, c));
        }
        assert(key_shown(grouped.table, g) =~= groups[g]);
    }
    assert forall|g: int, h: int|
        #![trigger key_shown(grouped.table, g), key_shown(grouped.table, h)]
        0 <= g < h < groups.len() implies key_before(
        key_shown(grouped.table, g),
        key_shown(grouped.table, h),
    ) by {
        assert(key_before(groups[g], groups[h]));
    }
    assert forall|g: int| 0 <= g < groups.len() implies #[trigger] has_a_row(rg, g) by {
        lemma_sorted_rows(groups, ks, rg, g);
        assert(ks.contains(groups[g]));
        let row = choose|row: int| 0 <= row < ks.len() && ks[row] == groups[g];
        assert(rg[row] == g <==> ks[row] == groups[g]);
    }
}

proof fn lemma_sorted(
    grouped: GroupedTable,
    frame: FrameModel,
    functions: Seq<AggFn>,
    fields: Seq<Seq<char>>,
    by: Seq<Seq<char>>,
    start: Option<(int, int)>,
    end: Option<(int, int)>,
) -> (groups: Seq<GroupKey>)
    requires
        sorted_as(Ok(grouped), frame, functions, fields, by, start, end),
        by.len() > 0,
    ensures
        is_key_order(groups, frame_keys(frame, by)),
        shows_groups(
            &grouped.table,
            sorted_groups(frame, fields, by, groups),
            by,
            fields,
            functions,
        ),
        are_row_groups(grouped.row_groups@, groups, frame_keys(frame, by)),
        crate::query::aggregate::first_missing(frame, fields, 0) is None,
        crate::query::aggregate::first_untexted(frame, by, 0) is None,
{
    choose|groups: Seq<GroupKey>|
        {
            &&& #[trigger] is_key_order(groups, frame_keys(frame, by))
            &&& shows_groups(
                &grouped.table,
                sorted_groups(frame, fields, by, groups),
                by,
                fields,
                functions,
            )
            &&& are_row_groups(grouped.row_groups@, groups, frame_keys(frame, by))
        }
}

proof fn lemma_sorted_rows(groups: Seq<GroupKey>, ks: Seq<GroupKey>, rg: Seq<usize>, g: int)
    requires
        is_key_order(groups, ks),
        are_row_groups(rg, groups, ks),
        0 <= g < groups.len(),
    ensures
        forall|row: int| 0 <= row < rg.len() ==> (#[trigger] rg[row] == g <==> ks[row] == groups[g]),
{
    assert forall|row: int| 0 <= row < rg.len() implies (#[trigger] rg[row] == g <==> ks[row]
        == groups[g]) by {
        let h = rg[row] as int;
        assert(groups[h] == ks[row]);
        if h < g {
            assert(key_before(groups[h], groups[g]));
        } else if g < h {
            assert(key_before(groups[g], groups[h]));
        }
        if h != g && ks[row] == groups[g] {
            crate::query::group_laws::lemma_key_before(groups[g], groups[g]);
        }
    }
}

/// The results of a sorted group are the aggregates of the values in the rows of
/// that group, one column for each field and function, named after both.
pub proof fn a_sorted_table_holds_each_aggregate(
    grouped: GroupedTable,
    frame: FrameModel,
    functions: Seq<AggFn>,
    fields: Seq<Seq<char>>,
    by: Seq<Seq<char>>,
    start: Option<(int, int)>,
    end: Option<(int, int)>,
    f: int,
    k: int,
    g: int,
)
    requires
        sorted_as(Ok(grouped), frame, functions, fields, by, start, end),
        by.len() > 0,
        0 <= f < fields.len(),
        0 <= k < functions.len(),
        0 <= g < grouped.table.keys@[0].values@.len(),
    ensures
        grouped.table.results@.len() == fields.len() * functions.len(),
        frame.column(fields[f]) is Some,
        grouped.table.results@[f * functions.len() + k].name@ == fields[f] + "_"@
            + functions[k].name(),
        holds_result(
            grouped.table.results@[f * functions.len() + k],
            g,
            aggregate_of(
                frame.readings(
                    frame.column(fields[f]).unwrap(),
                    rows_of_group(grouped.row_groups@, g),
                ),
                functions[k],
            ),
        ),
{
    let ks = frame_keys(frame, by);
    let texts = named_texts(frame, by);
    let groups = lemma_sorted(grouped, frame, functions, fields, by, start, end);
    let model = sorted_groups(frame, fields, by, groups);
    let rg = grouped.row_groups@;
    assert(grouped.table.keys@[0].name@ == by[0]);
    assert(optional_texts(grouped.table.keys@[0].values@) == key_parts(model, 0));
    assert(optional_texts(grouped.table.keys@[0].values@).len() == groups.len());
    result_columns_come_field_by_field(fields, functions, f, k);
    lemma_none_missing(frame, fields, 0, f);
    lemma_sorted_rows(groups, ks, rg, g);
    assert forall|row: int| 0 <= row < rg.len() implies (#[trigger] rg[row] == g <==> row_key(
        texts,
        row,
    ) == groups[g]) by {
        assert(ks[row] == row_key(texts, row));
    }
    lemma_rows_of_group(texts, groups[g], rg, g, frame.rows as int);
    let p = f * functions.len() + k;
    let results = group_results(model, f, functions[k]);
    assert(result_pairs(fields, functions)[p] == (f, functions[k]));
    assert(grouped.table.results@[p].shows(result_name(fields[f], functions[k]), results));
    lemma_holds_result(
        grouped.table.results@[p],
        result_name(fields[f], functions[k]),
        results,
        g,
    );
    assert(results[g] == aggregate_of(model.readings[g][f], functions[k]));
}

/// Without group-by columns sorting leaves all rows in one group, with the table
/// of the whole columns.
pub proof fn without_columns_nothing_is_sorted(
    grouped: GroupedTable,
    frame: FrameModel,
    functions: Seq<AggFn>,
    fields: Seq<Seq<char>>,
    start: Option<(int, int)>,
    end: Option<(int, int)>,
)
    requires
        sorted_as(Ok(grouped), frame, functions, fields, Seq::empty(), start, end),
    ensures
        batch_outcome(Ok(grouped.table), frame, functions, fields),
        grouped.row_groups@.len() == frame.rows,
        forall|row: int| 0 <= row < frame.rows ==> #[trigger] grouped.row_groups@[row] == 0,
{
}

// ---------------------------------------------------------------------------
// Whole columns
// ---------------------------------------------------------------------------

/// Over a whole column of floats, or of integers as floats, the greatest and the
/// least are values of the column, and no value comes after the greatest or
/// before the least in the total order. A sum or a mean of floats is told by
/// what it is of.
pub proof fn extremes_of_a_column_are_its_values(frame: FrameModel, data: DataModel)
    requires
        are_floats(column_readings(frame, data)),
        column_readings(frame, data).len() > 0,
    ensures
        ({
            let rs = column_readings(frame, data);
            &&& exists|i: int|
                0 <= i < rs.len() && column_aggregate(frame, data, AggFn::Max) == AggResult::F64(
                    float_in(#[trigger] rs[i]),
                )
            &&& exists|i: int|
                0 <= i < rs.len() && column_aggregate(frame, data, AggFn::Min) == AggResult::F64(
                    float_in(#[trigger] rs[i]),
                )
            &&& forall|j: int|
                0 <= j < rs.len() ==> !total_less(
                    column_aggregate(frame, data, AggFn::Max)->F64_0,
                    float_in(#[trigger] rs[j]),
                ) && !total_less(
                    float_in(rs[j]),
                    column_aggregate(frame, data, AggFn::Min)->F64_0,
                )
            &&& data is Floats ==> column_aggregate(frame, data, AggFn::Sum) is FloatSum
            &&& data is Floats ==> column_aggregate(frame, data, AggFn::Avg)
                == AggResult::FloatMean { count: rs.len() as u64 }
        }),
{
    let rs = column_readings(frame, data);
    lemma_floats(rs);
    kernel_extremes_are_readings(rs);
}

/// The total of a column of integers is their sum, where that is an integer of
/// their type; otherwise it is off by a multiple of the number of integers that
/// there are.
pub proof fn integer_totals_wrap_around(cells: Seq<Option<i64>>, wide: Seq<Option<u64>>)
    ensures
        ({
            let total = integer_total(DataModel::Integers(cells));
            &&& total is Some <==> signed_total(cells) is Some
            &&& total matches Some(t) ==> i64::MIN <= t <= i64::MAX && (t
                - signed_total(cells).unwrap()) % 0x1_0000_0000_0000_0000 == 0
        }),
        ({
            let total = integer_total(DataModel::Unsigned(wide));
            &&& total is Some <==> unsigned_total(wide) is Some
            &&& total matches Some(t) ==> 0 <= t <= u64::MAX && (t - unsigned_total(wide).unwrap())
                % 0x1_0000_0000_0000_0000 == 0
        }),
{
}

// ---------------------------------------------------------------------------
// Streamed batches
// ---------------------------------------------------------------------------

/// The readings of a field in some batches are those of each, one after the
/// other; a batch without the field has none.
pub proof fn streamed_readings_are_of_each_batch(
    frames: Seq<FrameModel>,
    frame: FrameModel,
    field: Seq<char>,
)
    ensures
        stream_readings(Seq::empty(), field).len() == 0,
        stream_readings(frames.push(frame), field) == stream_readings(frames, field) + match frame.column(
            field,
        ) {
            Some(data) => frame.readings(data, Seq::new(frame.rows, |i: int| i)),
            None => Seq::empty(),
        },
{
    assert(frames.push(frame).drop_last() =~= frames);
    assert(crate::query::frame::all_rows(frame.rows) =~= Seq::new(frame.rows, |i: int| i));
    let before = stream_readings(frames, field);
    assert(before + Seq::<(Reading, Moment)>::empty() =~= before);
}

/// No reading is other than a number.
pub open spec fn are_all_numbers(rs: Seq<(Reading, Moment)>) -> bool {
    are_floats(rs) && forall|i: int| 0 <= i < rs.len() ==> !is_nan(float_in(#[trigger] rs[i]))
}

proof fn lemma_stream_extremes(frames: Seq<FrameModel>, field: Seq<char>)
    requires
        are_all_numbers(stream_readings(frames, field)),
    ensures
        ({
            let rs = stream_readings(frames, field);
            let max = stream_max(frames, field);
            let min = stream_min(frames, field);
            &&& !is_nan(max)
            &&& !is_nan(min)
            &&& forall|j: int|
                0 <= j < rs.len() ==> !less(max, float_in(#[trigger] rs[j])) && !less(
                    float_in(rs[j]),
                    min,
                )
            &&& max == crate::query::float::NEG_INFINITY || exists|i: int|
                0 <= i < rs.len() && max == float_in(#[trigger] rs[i])
            &&& min == crate::query::float::INFINITY || exists|i: int|
                0 <= i < rs.len() && min == float_in(#[trigger] rs[i])
        }),
    decreases frames.len(),
{
    if frames.len() == 0 {
        numbers_lie_between_the_infinities(0);
    } else {
        let rs = stream_readings(frames, field);
        let rest = stream_readings(frames.drop_last(), field);
        assert(are_all_numbers(rest)) by {
            assert forall|i: int| 0 <= i < rest.len() implies (
            #[trigger] rest[i]).0 matches Reading::Number(Num::F64(_)) && !is_nan(
                float_in(rest[i]),
            ) by {
                assert(rs[i] == rest[i]);
                assert(!is_nan(float_in(rs[i])));
            }
        }
        lemma_stream_extremes(frames.drop_last(), field);
        if let Some(data) = frames.last().column(field) {
            let new = column_readings(frames.last(), data);
            assert(rs == rest + new);
            assert(are_all_numbers(new)) by {
                assert forall|i: int| 0 <= i < new.len() implies (
                #[trigger] new[i]).0 matches Reading::Number(Num::F64(_)) && !is_nan(
                    float_in(new[i]),
                ) by {
                    assert(rs[rest.len() + i] == new[i]);
                    assert(!is_nan(float_in(rs[rest.len() + i])));
                }
            }
            lemma_floats(new);
            let max = stream_max(frames.drop_last(), field);
            let min = stream_min(frames.drop_last(), field);
            if new.len() > 0 {
                kernel_extremes_are_readings(new);
                let i = choose|i: int|
                    0 <= i < new.len() && kernel_max(numbers(new)) == Some(
                        float_in(#[trigger] new[i]),
                    );
                let l = choose|l: int|
                    0 <= l < new.len() && kernel_min(numbers(new)) == Some(
                        float_in(#[trigger] new[l]),
                    );
                assert(rs[rest.len() + i] == new[i]);
                assert(rs[rest.len() + l] == new[l]);
                assert(!is_nan(float_in(new[i])));
                assert(!is_nan(float_in(new[l])));
            } else {
                assert(kernel_max(numbers(new)) is None);
                assert(kernel_min(numbers(new)) is None);
            }
            assert forall|j: int| 0 <= j < rs.len() implies !less(
                stream_max(frames, field),
                float_in(#[trigger] rs[j]),
            ) && !less(float_in(rs[j]), stream_min(frames, field)) by {
                if j < rest.len() {
                    assert(rs[j] == rest[j]);
                    assert(!less(max, float_in(rest[j])));
                    assert(!less(float_in(rest[j]), min));
                } else {
                    assert(rs[j] == new[j - rest.len()]);
                    let v = float_in(new[j - rest.len()]);
                    the_total_order_refines_the_numbers(kernel_max(numbers(new)).unwrap(), v);
                    the_total_order_refines_the_numbers(v, kernel_min(numbers(new)).unwrap());
                }
            }
            if stream_max(frames, field) == max && max != crate::query::float::NEG_INFINITY {
                let i = choose|i: int| 0 <= i < rest.len() && max == float_in(#[trigger] rest[i]);
                assert(rs[i] == rest[i]);
            }
            if stream_min(frames, field) == min && min != crate::query::float::INFINITY {
                let i = choose|i: int| 0 <= i < rest.len() && min == float_in(#[trigger] rest[i]);
                assert(rs[i] == rest[i]);
            }
        }
    }
}

/// Over all batches the number of values is that of all readings, the greatest
/// and the least are readings that no other exceeds or falls below, and sums and
/// means are told with the number of values.
pub proof fn streamed_aggregates_are_over_all_batches(frames: Seq<FrameModel>, field: Seq<char>)
    requires
        are_all_numbers(stream_readings(frames, field)),
    ensures
        ({
            let rs = stream_readings(frames, field);
            let max = stream_aggregate(frames, field, AggFn::Max);
            let min = stream_aggregate(frames, field, AggFn::Min);
            &&& stream_aggregate(frames, field, AggFn::Count) == AggResult::Count(rs.len() as u64)
            &&& rs.len() == 0 ==> max is Null && min is Null && stream_aggregate(
                frames,
                field,
                AggFn::Sum,
            ) is Null && stream_aggregate(frames, field, AggFn::Avg) is Null
            &&& rs.len() > 0 ==> {
                &&& stream_aggregate(frames, field, AggFn::Sum) is FloatSum
                &&& stream_aggregate(frames, field, AggFn::Avg) == AggResult::FloatMean {
                    count: rs.len() as u64,
                }
                &&& max is F64
                &&& min is F64
                &&& exists|i: int|
                    0 <= i < rs.len() && crate::query::float::same_number(
                        max->F64_0,
                        float_in(#[trigger] rs[i]),
                    )
                &&& exists|i: int|
                    0 <= i < rs.len() && crate::query::float::same_number(
                        min->F64_0,
                        float_in(#[trigger] rs[i]),
                    )
                &&& forall|j: int|
                    0 <= j < rs.len() ==> !less(max->F64_0, float_in(#[trigger] rs[j])) && !less(
                        float_in(rs[j]),
                        min->F64_0,
                    )
            }
        }),
{
    let rs = stream_readings(frames, field);
    lemma_floats(rs);
    lemma_stream_extremes(frames, field);
    if rs.len() > 0 {
        let max = stream_max(frames, field);
        let min = stream_min(frames, field);
        assert(!is_nan(float_in(rs[0])));
        assert(!less(max, float_in(rs[0])));
        assert(!less(float_in(rs[0]), min));
        numbers_lie_between_the_infinities(float_in(rs[0]));
        if max != crate::query::float::NEG_INFINITY {
            let i = choose|i: int| 0 <= i < rs.len() && max == float_in(#[trigger] rs[i]);
            assert(!is_nan(float_in(rs[i])));
            assert(crate::query::float::same_number(max, float_in(rs[i])));
        } else {
            assert(crate::query::float::same_number(max, float_in(rs[0])));
        }
        if min != crate::query::float::INFINITY {
            let i = choose|i: int| 0 <= i < rs.len() && min == float_in(#[trigger] rs[i]);
            assert(!is_nan(float_in(rs[i])));
            assert(crate::query::float::same_number(min, float_in(rs[i])));
        } else {
            assert(crate::query::float::same_number(min, float_in(rs[0])));
        }
    }
}

/// Where the values are decimals, or a first or last one is asked for, the
/// aggregate over all batches is that of their readings.
pub proof fn streamed_decimals_are_aggregated_as_one(
    frames: Seq<FrameModel>,
    field: Seq<char>,
    func: AggFn,
)
    requires
        numbers(stream_readings(frames, field)).len() == stream_readings(frames, field).len(),
        decimals(numbers(stream_readings(frames, field))).len() > 0 || func is First
            || func is Last,
    ensures
        stream_aggregate(frames, field, func) == aggregate_of(stream_readings(frames, field), func),
{
}

/// A table of streamed batches without groups has a column for each field and
/// function, named after both, with the one aggregate over all batches.
pub proof fn a_streamed_table_holds_each_aggregate(
    table: ResultTable,
    frames: Seq<FrameModel>,
    functions: Seq<AggFn>,
    fields: Seq<Seq<char>>,
    start: Option<(int, int)>,
    end: Option<(int, int)>,
    f: int,
    k: int,
)
    requires
        streamed_as(Ok(table), frames, functions, fields, Seq::empty(), start, end),
        0 <= f < fields.len(),
        0 <= k < functions.len(),
    ensures
        frames.len() > 0,
        table.keys@.len() == 0,
        table.results@.len() == fields.len() * functions.len(),
        table.results@[f * functions.len() + k].name@ == fields[f] + "_"@ + functions[k].name(),
        shown_in(table.results@[f * functions.len() + k], 0) == stream_aggregate(
            frames,
            fields[f],
            functions[k],
        ),
{
    result_columns_come_field_by_field(fields, functions, f, k);
    let p = f * functions.len() + k;
    let result = stream_aggregate(frames, fields[f], functions[k]);
    assert(are_of_one_type(seq![result])) by {
        if let AggResult::Decimal { mantissa, scale } = result {
            assert(are_at(seq![result], scale));
        }
    }
    assert(shows_stream(&table, frames, fields, functions));
    assert(result_pairs(fields, functions)[p] == (f, functions[k]));
    assert(table.results@[p].shows(result_name(fields[f], functions[k]), seq![result]));
    lemma_shown(table.results@[p], result_name(fields[f], functions[k]), seq![result], 0);
}

/// What a field held in a group before: nothing where the group is new.
pub open spec fn readings_before(m: GroupsModel, g: int, f: int) -> Seq<(Reading, Moment)> {
    if g < m.keys.len() {
        m.readings[g][f]
    } else {
        Seq::empty()
    }
}

/// What a batch adds to a field in a group: the readings of the rows with the
/// group's key, or nothing where the batch lacks the field.
pub open spec fn readings_added(
    frame: FrameModel,
    column: Option<DataModel>,
    by: Seq<Option<Seq<Option<Seq<char>>>>>,
    key: GroupKey,
    n: int,
) -> Seq<(Reading, Moment)> {
    match column {
        Some(data) => frame.readings(data, rows_with_key(by, key, n)),
        None => Seq::empty(),
    }
}

proof fn lemma_added(
    m: GroupsModel,
    frame: FrameModel,
    columns: Seq<Option<DataModel>>,
    by: Seq<Option<Seq<Option<Seq<char>>>>>,
    n: int,
    g: int,
    f: int,
)
    requires
        m.is_groups(columns.len()),
        0 <= n,
        0 <= g < m.with_rows(frame, columns, by, n).keys.len(),
        0 <= f < columns.len(),
    ensures
        ({
            let after = m.with_rows(frame, columns, by, n);
            after.readings[g][f] == readings_before(m, g, f) + readings_added(
                frame,
                columns[f],
                by,
                after.keys[g],
                n,
            )
        }),
    decreases n,
{
    let old_readings = readings_before(m, g, f);
    if n > 0 {
        let before = m.with_rows(frame, columns, by, n - 1);
        let after = m.with_rows(frame, columns, by, n);
        let key = row_key(by, n - 1);
        lemma_with_rows(m, frame, columns, by, n - 1);
        lemma_with_rows(m, frame, columns, by, n);
        groups_are_distinct(m.keys, row_keys(by, n - 1));
        let known = before.with_key(key, columns.len());
        let at = known.keys.index_of(key);
        assert(known.keys.contains(key)) by {
            if !before.keys.contains(key) {
                assert(known.keys[before.keys.len() as int] == key);
            }
        }
        let rows = rows_with_key(by, after.keys[g], n - 1);
        let part = readings_added(frame, columns[f], by, after.keys[g], n - 1);
        if g < before.keys.len() {
            lemma_added(m, frame, columns, by, n - 1, g, f);
            assert(known.readings[g][f] == old_readings + part);
        } else {
            assert(after.keys[g] == key);
            assert forall|row: int| 0 <= row < n - 1 implies #[trigger] row_key(by, row) != key by {
                assert(row_keys(by, n - 1)[row] == row_key(by, row));
            }
            lemma_none(by, key, n - 1);
            assert(rows =~= Seq::empty());
            assert(known.readings[g][f] =~= Seq::empty());
            assert(known.readings[g][f] =~= old_readings + part);
        }
        lemma_index_of(known.keys, g);
        if after.keys[g] == key {
            assert(at == g);
            assert(after.readings[g][f] == with_reading(
                known.readings[g][f],
                frame,
                columns[f],
                n - 1,
            ));
            assert(rows.push(n - 1).drop_last() =~= rows);
            assert(rows.push(n - 1).last() == n - 1);
            assert(rows_with_key(by, after.keys[g], n) == rows.push(n - 1));
            if let Some(data) = columns[f] {
                if let Some(reading) = data.reading(n - 1) {
                    let entry = (reading, frame.moment(n - 1));
                    assert(frame.readings(data, rows.push(n - 1)) == part.push(entry));
                    assert((old_readings + part).push(entry) =~= old_readings + part.push(entry));
                } else {
                    assert(frame.readings(data, rows.push(n - 1)) == part);
                }
            }
        } else {
            assert(at != g);
            assert(after.readings[g] == known.readings[g]);
            assert(rows_with_key(by, after.keys[g], n) == rows);
        }
    } else {
        assert(old_readings + readings_added(
            frame,
            columns[f],
            by,
            m.with_rows(frame, columns, by, n).keys[g],
            n,
        ) =~= old_readings);
    }
}

/// A batch that is streamed in adds its rows to the groups of their keys. Known
/// groups keep their places, new ones come behind them, and every row is in one.
/// A field that the batch lacks stays as it was, and a group-by column that it
/// lacks, or that holds no texts, reads as null in all its rows.
pub proof fn a_streamed_batch_adds_to_its_groups(
    frames: Seq<FrameModel>,
    frame: FrameModel,
    fields: Seq<Seq<char>>,
    by: Seq<Seq<char>>,
    g: int,
    f: int,
    row: int,
    c: int,
)
    requires
        0 <= g < stream_groups(frames.push(frame), fields, by).keys.len(),
        0 <= f < fields.len(),
        0 <= row < frame.rows,
        0 <= c < by.len(),
    ensures
        ({
            let before = stream_groups(frames, fields, by);
            let after = stream_groups(frames.push(frame), fields, by);
            let texts = named_texts(frame, by);
            &&& before.keys.is_prefix_of(after.keys)
            &&& after.keys.contains(row_key(texts, row))
            &&& row_key(texts, row)[c] == match frame.texts(by[c]) {
                Some(cells) => cells[row],
                None => None,
            }
            &&& after.readings[g][f] == readings_before(before, g, f) + readings_added(
                frame,
                frame.column(fields[f]),
                texts,
                after.keys[g],
                frame.rows as int,
            )
        }),
{
    let before = stream_groups(frames, fields, by);
    let columns = named_columns(frame, fields);
    let texts = named_texts(frame, by);
    let n = frame.rows as int;
    assert(frames.push(frame).drop_last() =~= frames);
    lemma_stream_groups(frames, fields, by);
    lemma_with_rows(before, frame, columns, texts, n);
    groups_are_distinct(before.keys, row_keys(texts, n));
    lemma_added(before, frame, columns, texts, n, g, f);
    assert(row_keys(texts, n)[row] == row_key(texts, row));
    let after = stream_groups(frames.push(frame), fields, by);
    assert forall|i: int| 0 <= i < before.keys.len() implies before.keys[i] == after.keys[i] by {
        assert(after.keys.take(before.keys.len() as int)[i] == after.keys[i]);
    }
}

} // verus!
