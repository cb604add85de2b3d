//! Aggregation, whole and by group.
use chronix::query::accumulator::{IncrementalAccumulator, Moment, Num, Reading};
use chronix::query::agg_fn::AggFn;
use chronix::query::aggregate::{
    aggregate_batch, aggregate_column_ts, choose_strategy, AggregationStrategy,
};
use chronix::query::error::QueryError;
use chronix::query::frame::{extract_f64, ColumnData, Frame, FrameColumn};
use chronix::query::grouped::{aggregate_grouped, GroupedTable};
use chronix::query::memory::MemoryTracker;
use chronix::query::output::charge_result;
use chronix::query::result::{agg_result_column, ResultTable, ResultValues};
use chronix::query::sorted::aggregate_sorted;
use chronix::query::streaming::{aggregate_grouped_streaming, StreamingAggregator};
use chronix::query::totals::{group_summands, summands};
use chronix::query::track::AggResult;

fn floats(values: &[f64]) -> ColumnData {
    ColumnData::Floats(values.iter().map(|v| Some(v.to_bits())).collect())
}

fn decimals(values: &[Option<i128>], scale: u8) -> ColumnData {
    ColumnData::Decimals { scale, mantissas: values.to_vec() }
}

fn texts(values: &[&str]) -> ColumnData {
    ColumnData::Texts(values.iter().map(|v| Some(v.to_string())).collect())
}

fn column(name: &str, data: ColumnData) -> FrameColumn {
    FrameColumn { name: name.to_string(), data }
}

fn frame_of(times: &[i64], key: &str, keys: &[&str], values: &[f64]) -> Frame {
    Frame::new(
        times.len(),
        Some(times.iter().map(|t| Some(*t)).collect()),
        vec![column(key, texts(keys)), column("value", floats(values))],
        0,
    )
    .unwrap()
}

const VALUES: [f64; 5] = [10.0, 20.0, 30.0, 40.0, 50.0];

fn test_frame() -> Frame {
    frame_of(&[100, 200, 300, 400, 500], "host", &["a", "a", "b", "b", "a"], &VALUES)
}

fn u64_frame() -> Frame {
    let counts = [10u64, 20, 30, 40, 50].iter().map(|c| Some(*c)).collect();
    Frame::new(
        5,
        Some(vec![Some(100), Some(200), Some(300), Some(400), Some(500)]),
        vec![column("count", ColumnData::Unsigned(counts))],
        0,
    )
    .unwrap()
}

/// A result as a float, given the floats that it is the aggregate of.
fn number(result: &AggResult, of: &[f64]) -> f64 {
    match result {
        AggResult::F64(bits) => f64::from_bits(*bits),
        AggResult::Count(n) => *n as f64,
        AggResult::FloatSum => of.iter().sum(),
        AggResult::FloatMean { count } => of.iter().sum::<f64>() / *count as f64,
        other => panic!("not a float: {other:?}"),
    }
}

fn results(table: &ResultTable, c: usize) -> &Vec<AggResult> {
    match &table.results[c].values {
        ResultValues::Floats(values) => values,
        other => panic!("not floats: {other:?}"),
    }
}

fn named<'a>(table: &'a ResultTable, name: &str) -> &'a Vec<AggResult> {
    let c = table.results.iter().position(|r| r.name == name).unwrap();
    results(table, c)
}

fn whole(frame: &Frame, func: AggFn, field: &str) -> f64 {
    let table = aggregate_batch(frame, &[func], &[field], &mut None).unwrap();
    assert_eq!(results(&table, 0).len(), 1);
    number(&results(&table, 0)[0], &totals(frame, field))
}

fn close(a: f64, b: f64) -> bool {
    (a - b).abs() < f64::EPSILON
}

fn as_floats(bits: Vec<u64>) -> Vec<f64> {
    bits.into_iter().map(f64::from_bits).collect()
}

/// The values that a whole column adds to a sum.
fn totals(frame: &Frame, field: &str) -> Vec<f64> {
    as_floats(summands(frame.column(field).unwrap()))
}

/// The values that the rows of a group add to a sum.
fn members(grouped: &GroupedTable, frame: &Frame, g: usize) -> Vec<f64> {
    as_floats(group_summands(frame.column("value").unwrap(), &grouped.row_groups, g))
}

fn group_of(grouped: &GroupedTable, key: &str) -> usize {
    grouped.table.keys[0].values.iter().position(|k| k.as_deref() == Some(key)).unwrap()
}

fn no_column_of_times(data: ColumnData, rows: usize) -> Frame {
    Frame::new(rows, None, vec![column("v", data)], 0).unwrap()
}

fn single(frame: &Frame, func: AggFn) -> AggResult {
    aggregate_column_ts(frame, frame.column("v").unwrap(), func)
}

#[test]
fn first_and_last_over_a_decimal_column_without_timestamps() {
    // No timestamp column, so First and Last mean array position.
    let frame = no_column_of_times(decimals(&[Some(111), None, Some(333)], 2), 3);
    assert_eq!(single(&frame, AggFn::First), AggResult::Decimal { mantissa: 111, scale: 2 });
    assert_eq!(single(&frame, AggFn::Last), AggResult::Decimal { mantissa: 333, scale: 2 });
    // And an all-null column has no first value at all.
    let empty = no_column_of_times(decimals(&[None, None], 2), 2);
    assert_eq!(single(&empty, AggFn::First), AggResult::Null);
}

#[test]
fn a_decimal_sum_that_overflows_38_digits_is_null_not_wrapped() {
    let widest = 99_999_999_999_999_999_999_999_999_999_999_999_999_i128;
    let frame = no_column_of_times(decimals(&[Some(widest), Some(widest)], 0), 2);
    assert_eq!(single(&frame, AggFn::Sum), AggResult::Null);
    // Min and max are untouched by the sum's overflow.
    assert_eq!(single(&frame, AggFn::Max), AggResult::Decimal { mantissa: widest, scale: 0 });
}

fn feed(acc: &mut IncrementalAccumulator, n: Num, t: i64) {
    acc.update(Reading::Number(n), Moment::At(t));
}

#[test]
fn a_decimal_column_at_two_scales_folds_at_the_wider_one() {
    let mut acc = IncrementalAccumulator::new();
    feed(&mut acc, Num::Dec(150, 2), 1); // 1.50
    feed(&mut acc, Num::Dec(15_000, 4), 2); // 1.5000
    assert_eq!(acc.finalize(AggFn::Sum), AggResult::Decimal { mantissa: 30_000, scale: 4 });
    // and in the other order, which widens the track after the fact.
    let mut acc = IncrementalAccumulator::new();
    feed(&mut acc, Num::Dec(15_000, 4), 1);
    feed(&mut acc, Num::Dec(150, 2), 2);
    assert_eq!(acc.finalize(AggFn::Sum), AggResult::Decimal { mantissa: 30_000, scale: 4 });
}

#[test]
fn the_average_of_decimals_rounds_half_away_from_zero() {
    let mut acc = IncrementalAccumulator::new();
    for m in [100_i128, 100, 200] {
        feed(&mut acc, Num::Dec(m, 2), 1);
    }
    // (1 + 1 + 2) / 3 = 1.333333..., at the scale of the column and six digits more.
    assert_eq!(acc.finalize(AggFn::Avg), AggResult::Decimal { mantissa: 133_333_333, scale: 8 });
    // A negative mean rounds away from zero too, not toward it.
    let mut acc = IncrementalAccumulator::new();
    for m in [-100_i128, -100, -200] {
        feed(&mut acc, Num::Dec(m, 2), 1);
    }
    assert_eq!(acc.finalize(AggFn::Avg), AggResult::Decimal { mantissa: -133_333_333, scale: 8 });
}

#[test]
fn a_half_rounds_away_from_zero() {
    let mut acc = IncrementalAccumulator::new();
    feed(&mut acc, Num::Dec(1, 32), 1);
    feed(&mut acc, Num::Dec(2, 32), 1);
    assert_eq!(acc.finalize(AggFn::Avg), AggResult::Decimal { mantissa: 1_500_000, scale: 38 });
}

#[test]
fn a_count_of_decimals_is_a_float_column_not_a_decimal_one() {
    let values = [AggResult::F64(3.0f64.to_bits())];
    let column = agg_result_column("v_count", &values).unwrap();
    assert!(matches!(column.values, ResultValues::Floats(_)));
    // And a decimal result produces a decimal column at its own scale.
    let values = [AggResult::Decimal { mantissa: 30, scale: 2 }];
    let column = agg_result_column("v_sum", &values).unwrap();
    match column.values {
        ResultValues::Decimals { scale, mantissas } => {
            assert_eq!(scale, 2);
            assert_eq!(mantissas.len(), 1);
        }
        other => panic!("expected decimals: {other:?}"),
    }
}

#[test]
fn a_scale_that_no_column_has_is_refused() {
    let values = [AggResult::Decimal { mantissa: 30, scale: 200 }];
    let err = agg_result_column("v", &values).unwrap_err();
    assert_eq!(err, QueryError::Validation("decimal scale 200 is out of range".to_string()));
}

#[test]
fn aggregate_count() {
    assert!(close(whole(&test_frame(), AggFn::Count, "value"), 5.0));
}

#[test]
fn aggregate_sum() {
    assert!(close(whole(&test_frame(), AggFn::Sum, "value"), 150.0));
}

#[test]
fn aggregate_min_max() {
    let frame = test_frame();
    let table =
        aggregate_batch(&frame, &[AggFn::Min, AggFn::Max], &["value"], &mut None).unwrap();
    assert!(close(number(&results(&table, 0)[0], &[]), 10.0));
    assert!(close(number(&results(&table, 1)[0], &[]), 50.0));
}

#[test]
fn aggregate_avg() {
    assert!(close(whole(&test_frame(), AggFn::Avg, "value"), 30.0));
}

fn first_and_last(frame: &Frame, field: &str) -> (f64, f64) {
    let table =
        aggregate_batch(frame, &[AggFn::First, AggFn::Last], &[field], &mut None).unwrap();
    (number(&results(&table, 0)[0], &[]), number(&results(&table, 1)[0], &[]))
}

#[test]
fn aggregate_first_last() {
    let (first, last) = first_and_last(&test_frame(), "value");
    assert!(close(first, 10.0));
    assert!(close(last, 50.0));
}

#[test]
fn aggregate_grouped_by_host() {
    let frame = test_frame();
    let grouped =
        aggregate_grouped(&frame, &[AggFn::Sum, AggFn::Count], &["value"], &["host"], &mut None)
            .unwrap();
    let hosts = &grouped.table.keys[0].values;
    assert_eq!(hosts.len(), 2); // two groups: a, b

    // Groups maintain insertion order (first-seen order)
    let sums = results(&grouped.table, 0);
    let counts = results(&grouped.table, 1);
    assert_eq!(hosts[0].as_deref(), Some("a"));
    assert!(close(number(&sums[0], &members(&grouped, &frame, 0)), 80.0)); // 10+20+50
    assert!(close(number(&counts[0], &[]), 3.0));

    assert_eq!(hosts[1].as_deref(), Some("b"));
    assert!(close(number(&sums[1], &members(&grouped, &frame, 1)), 70.0)); // 30+40
    assert!(close(number(&counts[1], &[]), 2.0));
}

#[test]
fn all_functions_on_known_data() {
    let frame = test_frame();
    let table = aggregate_batch(
        &frame,
        &[
            AggFn::Count,
            AggFn::Sum,
            AggFn::Min,
            AggFn::Max,
            AggFn::Avg,
            AggFn::First,
            AggFn::Last,
        ],
        &["value"],
        &mut None,
    )
    .unwrap();

    assert_eq!(table.results.len(), 7);
    let of = totals(&frame, "value");
    let cols: Vec<f64> = (0..7).map(|i| number(&results(&table, i)[0], &of)).collect();

    assert!(close(cols[0], 5.0)); // count
    assert!(close(cols[1], 150.0)); // sum
    assert!(close(cols[2], 10.0)); // min
    assert!(close(cols[3], 50.0)); // max
    assert!(close(cols[4], 30.0)); // avg
    assert!(close(cols[5], 10.0)); // first
    assert!(close(cols[6], 50.0)); // last
    assert_eq!(table.results[4].name, "value_avg");
}

#[test]
fn aggregate_u64_sum() {
    assert!(close(whole(&u64_frame(), AggFn::Sum, "count"), 150.0));
}

#[test]
fn aggregate_u64_min_max() {
    assert!(close(whole(&u64_frame(), AggFn::Min, "count"), 10.0));
    assert!(close(whole(&u64_frame(), AggFn::Max, "count"), 50.0));
}

#[test]
fn aggregate_u64_avg() {
    assert!(close(whole(&u64_frame(), AggFn::Avg, "count"), 30.0));
}

#[test]
fn aggregate_u64_first_last() {
    let (first, last) = first_and_last(&u64_frame(), "count");
    assert!(close(first, 10.0));
    assert!(close(last, 50.0));
}

#[test]
fn aggregate_u64_count() {
    assert!(close(whole(&u64_frame(), AggFn::Count, "count"), 5.0));
}

#[test]
fn aggregate_respects_memory_tracker() {
    let mut tracker = Some(MemoryTracker::new(1_000_000));
    let frame = test_frame();
    let table = aggregate_batch(&frame, &[AggFn::Sum], &["value"], &mut tracker).unwrap();
    assert!(tracker.unwrap().allocated() > 0);
    assert!(close(number(&results(&table, 0)[0], &totals(&frame, "value")), 150.0));
}

#[test]
fn aggregate_exceeds_memory_budget() {
    let mut tracker = Some(MemoryTracker::new(1)); // 1 byte budget
    let err =
        aggregate_batch(&test_frame(), &[AggFn::Sum], &["value"], &mut tracker).unwrap_err();
    assert!(matches!(err, QueryError::QueryMemoryExceeded { .. }));
    assert_eq!(tracker.unwrap().allocated(), 0);
}

#[test]
fn every_result_is_charged() {
    let frame = test_frame();
    let fs = [AggFn::Sum];
    let spent = |tracker: Option<MemoryTracker>| tracker.unwrap().allocated();
    // A table of a long key takes at least its text.
    let long = "k".repeat(5_000);
    let keyed = frame_of(&[1, 2], "host", &[&long, &long], &[1.0, 2.0]);
    let mut tracker = Some(MemoryTracker::new(1_000_000));
    aggregate_grouped(&keyed, &fs, &["value"], &["host"], &mut tracker).unwrap();
    assert!(spent(tracker) > 184 + 5_000 + 4 + 8);
    // Decimals take sixteen bytes each.
    let cents = no_column_of_times(decimals(&[Some(1)], 2), 1);
    let mut tracker = Some(MemoryTracker::new(16));
    assert!(aggregate_batch(&cents, &fs, &["v"], &mut tracker).is_err());
    // One column of one double: more than its eight bytes.
    let mut tracker = Some(MemoryTracker::new(1_000_000));
    aggregate_grouped(&frame, &fs, &["value"], &[], &mut tracker).unwrap();
    let whole = spent(tracker);
    assert!(whole > 8);
    let mut tracker = Some(MemoryTracker::new(1_000_000));
    aggregate_sorted(&frame, &fs, &["value"], &[], &mut tracker).unwrap();
    assert_eq!(spent(tracker), whole);
    // With groups the result is charged on top of the groups, 184 bytes each.
    let mut tracker = Some(MemoryTracker::new(1_000_000));
    aggregate_grouped(&frame, &fs, &["value"], &["host"], &mut tracker).unwrap();
    assert!(spent(tracker) > 2 * 184);
    // A budget that the groups fit into, and the result does not.
    let mut tracker = Some(MemoryTracker::new(2 * 184));
    let err =
        aggregate_grouped(&frame, &fs, &["value"], &["host"], &mut tracker).unwrap_err();
    assert!(matches!(
        err,
        QueryError::QueryMemoryExceeded { allocated: 368, budget: 368, .. }
    ));
    assert_eq!(spent(tracker), 2 * 184);
    // 24 + 48 + 80 + 64 bytes for a sorted group.
    let mut tracker = Some(MemoryTracker::new(2 * 216));
    let err = aggregate_sorted(&frame, &fs, &["value"], &["host"], &mut tracker).unwrap_err();
    assert!(matches!(err, QueryError::QueryMemoryExceeded { allocated: 432, .. }));
    // 48 + 80 + 48 bytes for a streamed group.
    let mut tracker = Some(MemoryTracker::new(2 * 176));
    let frames = vec![test_frame()];
    let err = aggregate_grouped_streaming(&frames, &fs, &["value"], &["host"], &mut tracker)
        .unwrap_err();
    assert!(matches!(err, QueryError::QueryMemoryExceeded { allocated: 352, .. }));
    let mut tracker = Some(MemoryTracker::new(1));
    let mut aggregator = StreamingAggregator::new(&fs, &["value"], &[]);
    aggregator.push(&frame, &mut tracker).unwrap();
    let err = aggregator.finish(&mut tracker).unwrap_err();
    assert!(matches!(err, QueryError::QueryMemoryExceeded { allocated: 0, budget: 1, .. }));
}

#[test]
fn a_charge_is_settled_exactly() {
    let mut tracker = Some(MemoryTracker::new(10));
    assert_eq!(charge_result(7u8, 6, &mut tracker), Ok(7));
    assert_eq!(
        charge_result(7u8, 5, &mut tracker),
        Err(QueryError::QueryMemoryExceeded { requested: 5, allocated: 6, budget: 10 })
    );
    assert_eq!(charge_result(7u8, 4, &mut tracker), Ok(7));
    assert_eq!(tracker.unwrap().allocated(), 10);
    assert_eq!(charge_result(7u8, usize::MAX, &mut None), Ok(7));
}

#[test]
fn an_empty_batch_is_refused() {
    let empty = Frame::new(0, None, vec![column("value", floats(&[]))], 0).unwrap();
    assert_eq!(
        aggregate_batch(&empty, &[AggFn::Count], &["value"], &mut None).unwrap_err(),
        QueryError::Validation("batch is empty".to_string())
    );
    assert!(aggregate_grouped(&empty, &[AggFn::Count], &["value"], &[], &mut None).is_err());
}

#[test]
fn a_column_of_an_unexpected_type_is_refused() {
    assert_eq!(
        aggregate_batch(&test_frame(), &[AggFn::Count], &["host"], &mut None).unwrap_err(),
        QueryError::Validation("column 'host' has an unexpected type".to_string())
    );
}

#[test]
fn integers_are_added_up_as_integers() {
    // As doubles, these would not keep the units apart.
    let big = 9_007_199_254_740_992i64;
    let cells = vec![Some(big), Some(1), None, Some(1), Some(-3)];
    let frame = no_column_of_times(ColumnData::Integers(cells), 5);
    let sum = (big + 1 + 1 - 3) as f64;
    assert_eq!(single(&frame, AggFn::Sum), AggResult::F64(sum.to_bits()));
    assert_eq!(single(&frame, AggFn::Avg), AggResult::F64((sum / 4f64).to_bits()));
    assert_eq!(single(&frame, AggFn::Min), AggResult::F64((-3f64).to_bits()));
    assert_eq!(single(&frame, AggFn::Max), AggResult::F64((big as f64).to_bits()));
    assert_eq!(summands(frame.column("v").unwrap()), vec![sum.to_bits()]);
    // Totals wrap around.
    let wide = no_column_of_times(ColumnData::Unsigned(vec![Some(u64::MAX), Some(3)]), 2);
    assert_eq!(single(&wide, AggFn::Sum), AggResult::F64(2f64.to_bits()));
    let low = no_column_of_times(ColumnData::Integers(vec![Some(i64::MAX), Some(1)]), 2);
    assert_eq!(single(&low, AggFn::Sum), AggResult::F64((i64::MIN as f64).to_bits()));
    let nulls = no_column_of_times(ColumnData::Integers(vec![None]), 1);
    assert_eq!(single(&nulls, AggFn::Sum), AggResult::Null);
    assert_eq!(single(&nulls, AggFn::Count), AggResult::Count(0));
}

#[test]
fn numbers_are_read_as_doubles() {
    let mantissas: Vec<i128> = vec![
        0,
        1,
        -1,
        3,
        10,
        -15,
        123_456_789,
        9_007_199_254_740_993,
        -170_141_183_460_469,
        99_999_999_999_999_999_999_999_999_999_999_999_999,
        i128::MAX,
        i128::MIN,
        i128::MIN + 1,
    ];
    for scale in 0..=38u8 {
        let unit = 10i128.pow(u32::from(scale)) as f64;
        for m in &mantissas {
            let data = decimals(&[Some(*m), None], scale);
            let want = *m as f64 / unit;
            assert_eq!(extract_f64(&data, 0), Some(want.to_bits()), "{m} at {scale}");
            assert_eq!(extract_f64(&data, 1), None);
        }
    }
    // A unit that is out of range counts as one.
    assert_eq!(extract_f64(&decimals(&[Some(7)], 39), 0), Some(7f64.to_bits()));
    for v in [0, 1, -7, i64::MAX, i64::MIN, (1 << 53) + 1] {
        let data = ColumnData::Integers(vec![Some(v)]);
        assert_eq!(extract_f64(&data, 0), Some((v as f64).to_bits()));
    }
    let data = ColumnData::Unsigned(vec![Some(u64::MAX)]);
    assert_eq!(extract_f64(&data, 0), Some((u64::MAX as f64).to_bits()));
    assert_eq!(extract_f64(&floats(&[2.5]), 0), Some(2.5f64.to_bits()));
    assert_eq!(extract_f64(&texts(&["a"]), 0), None);
    assert!(Frame::new(1, None, vec![column("v", decimals(&[Some(1)], 128))], 0).is_none());
}

#[test]
fn an_average_of_integers_is_one_division() {
    let cells: Vec<Option<i64>> = vec![Some(1), Some(1), Some(5), Some(-17), None, Some(3)];
    let frame = no_column_of_times(ColumnData::Integers(cells), 6);
    assert_eq!(single(&frame, AggFn::Avg), AggResult::F64((-7f64 / 5f64).to_bits()));
    let zero = no_column_of_times(ColumnData::Integers(vec![Some(1), Some(-1)]), 2);
    assert_eq!(single(&zero, AggFn::Avg), AggResult::F64(0f64.to_bits()));
}

#[test]
fn a_streamed_batch_has_all_columns() {
    let frames = vec![
        test_frame(),
        Frame::new(1, None, vec![column("value", floats(&[1.0]))], 0).unwrap(),
    ];
    let fs = [AggFn::Sum];
    assert_eq!(
        aggregate_grouped_streaming(&frames, &fs, &["value"], &["host"], &mut None).unwrap_err(),
        QueryError::Validation("group-by column 'host' not found or not string".to_string())
    );
    assert_eq!(
        aggregate_grouped_streaming(&frames, &fs, &["value", "other"], &[], &mut None)
            .unwrap_err(),
        QueryError::Validation("column 'other' not found".to_string())
    );
    assert_eq!(
        aggregate_grouped_streaming(&vec![], &fs, &["value"], &[], &mut None).unwrap_err(),
        QueryError::Validation("no batches to aggregate".to_string())
    );
    // An aggregator that batches are pushed into takes them as they are.
    let mut aggregator = StreamingAggregator::new(&fs, &["value"], &["host"]);
    assert_eq!(aggregator.push(&frames[1], &mut None).unwrap(), vec![0]);
}

#[test]
fn grouped_aggregate_respects_memory_tracker() {
    let mut tracker = Some(MemoryTracker::new(1_000_000));
    let grouped =
        aggregate_grouped(&test_frame(), &[AggFn::Sum], &["value"], &["host"], &mut tracker)
            .unwrap();
    assert!(tracker.unwrap().allocated() > 0);
    assert_eq!(grouped.table.keys[0].values.len(), 2);
}

#[test]
fn a_group_over_budget_is_refused() {
    let mut tracker = Some(MemoryTracker::new(200));
    let err = aggregate_grouped(&test_frame(), &[AggFn::Sum], &["value"], &["host"], &mut tracker)
        .unwrap_err();
    // The first group takes 24 + 16 + 80 + 64 bytes, and a second does not fit.
    assert_eq!(
        err,
        QueryError::QueryMemoryExceeded { requested: 184, allocated: 184, budget: 200 }
    );
    assert_eq!(tracker.unwrap().allocated(), 184);
}

#[test]
fn a_sorted_group_over_budget_is_refused() {
    let mut tracker = Some(MemoryTracker::new(200));
    let err = aggregate_sorted(&test_frame(), &[AggFn::Sum], &["value"], &["host"], &mut tracker)
        .unwrap_err();
    assert!(matches!(err, QueryError::QueryMemoryExceeded { .. }));
}

/// Out-of-order timestamps: First/Last should use timestamp ordering,
/// not positional ordering.
#[test]
fn first_last_out_of_order_timestamps() {
    let frame = frame_of(
        &[300, 100, 500, 200, 400],
        "host",
        &["a", "a", "a", "a", "a"],
        &[3.0, 1.0, 5.0, 2.0, 4.0],
    );
    let (first, last) = first_and_last(&frame, "value");
    // First = value at min timestamp (100) = 1.0
    assert!(close(first, 1.0), "First should be 1.0, got {first}");
    // Last = value at max timestamp (500) = 5.0
    assert!(close(last, 5.0), "Last should be 5.0, got {last}");
}

/// Timestamp ties: Last should keep the last-encountered row.
#[test]
fn first_last_timestamp_ties() {
    // Two rows at ts=100 (first wins = 1.0), two at ts=200 (last-encountered wins = 4.0).
    let frame = frame_of(
        &[100, 200, 100, 200],
        "host",
        &["a", "a", "a", "a"],
        &[1.0, 2.0, 3.0, 4.0],
    );
    let (first, last) = first_and_last(&frame, "value");
    assert!(close(first, 1.0));
    assert!(close(last, 4.0));
}

/// Grouped First/Last should also use timestamps correctly.
#[test]
fn grouped_first_last_by_timestamp() {
    let frame = frame_of(
        &[200, 100, 300, 100, 200],
        "host",
        &["a", "a", "b", "b", "b"],
        &[20.0, 10.0, 30.0, 10.0, 20.0],
    );
    let grouped =
        aggregate_grouped(&frame, &[AggFn::First, AggFn::Last], &["value"], &["host"], &mut None)
            .unwrap();
    let firsts = named(&grouped.table, "value_first");
    let lasts = named(&grouped.table, "value_last");
    let a = group_of(&grouped, "a");
    let b = group_of(&grouped, "b");
    assert!(close(number(&firsts[a], &[]), 10.0), "host=a first");
    assert!(close(number(&lasts[a], &[]), 20.0), "host=a last");
    assert!(close(number(&firsts[b], &[]), 10.0), "host=b first");
    assert!(close(number(&lasts[b], &[]), 30.0), "host=b last");
}

/// Grouped Last with timestamp ties should use last-encountered.
#[test]
fn grouped_last_timestamp_tie_breaking() {
    let frame = frame_of(&[100, 100], "host", &["a", "a"], &[1.0, 2.0]);
    let grouped =
        aggregate_grouped(&frame, &[AggFn::Last], &["value"], &["host"], &mut None).unwrap();
    let last = number(&named(&grouped.table, "value_last")[0], &[]);
    assert!(close(last, 2.0), "Last with tie should keep last-encountered (2.0), got {last}");
}

/// Single-row batch: First and Last should return the same value.
#[test]
fn first_last_single_row() {
    let frame = frame_of(&[100], "host", &["a"], &[42.0]);
    let (first, last) = first_and_last(&frame, "value");
    assert!(close(first, 42.0));
    assert!(close(last, 42.0));
}

#[test]
fn sort_aggregate_matches_hash() {
    let frame = test_frame();
    let functions = [AggFn::Sum, AggFn::Count, AggFn::Min, AggFn::Max, AggFn::Avg];
    let hashed =
        aggregate_grouped(&frame, &functions, &["value"], &["host"], &mut None).unwrap();
    let sorted = aggregate_sorted(&frame, &functions, &["value"], &["host"], &mut None).unwrap();

    // Same number of groups.
    assert_eq!(hashed.table.keys[0].values.len(), sorted.table.keys[0].values.len());

    for host in ["a", "b"] {
        let hi = group_of(&hashed, host);
        let si = group_of(&sorted, host);
        for col in ["value_sum", "value_count", "value_min", "value_max", "value_avg"] {
            let hv = number(&named(&hashed.table, col)[hi], &members(&hashed, &frame, hi));
            let sv = number(&named(&sorted.table, col)[si], &members(&sorted, &frame, si));
            assert!(close(hv, sv), "mismatch for host={host} col={col}: hash={hv}, sort={sv}");
        }
    }
}

#[test]
fn sort_aggregate_first_last() {
    let frame = test_frame();
    let grouped =
        aggregate_sorted(&frame, &[AggFn::First, AggFn::Last], &["value"], &["host"], &mut None)
            .unwrap();
    let firsts = named(&grouped.table, "value_first");
    let lasts = named(&grouped.table, "value_last");
    let a = group_of(&grouped, "a");
    let b = group_of(&grouped, "b");
    // ts=[100,200,500] vals=[10,20,50]: first=10, last=50
    assert!(close(number(&firsts[a], &[]), 10.0));
    assert!(close(number(&lasts[a], &[]), 50.0));
    // ts=[300,400] vals=[30,40]: first=30, last=40
    assert!(close(number(&firsts[b], &[]), 30.0));
    assert!(close(number(&lasts[b], &[]), 40.0));
}

#[test]
fn sort_aggregate_produces_sorted_output() {
    let frame = frame_of(&[100, 200, 300], "region", &["eu", "us", "ap"], &[1.0, 2.0, 3.0]);
    let grouped =
        aggregate_sorted(&frame, &[AggFn::Sum], &["value"], &["region"], &mut None).unwrap();
    let regions: Vec<&str> =
        grouped.table.keys[0].values.iter().map(|r| r.as_deref().unwrap()).collect();
    assert_eq!(regions, vec!["ap", "eu", "us"], "output should be sorted by group key");
}

#[test]
fn sorted_keys_start_with_null_and_compare_part_by_part() {
    let frame = Frame::new(
        5,
        None,
        vec![
            FrameColumn {
                name: "a".to_string(),
                data: ColumnData::Texts(vec![
                    Some("x".to_string()),
                    None,
                    Some("ab".to_string()),
                    Some("x".to_string()),
                    Some(String::new()),
                ]),
            },
            column("b", texts(&["2", "9", "9", "1", "9"])),
            column("value", floats(&VALUES)),
        ],
        0,
    )
    .unwrap();
    let grouped =
        aggregate_sorted(&frame, &[AggFn::Count], &["value"], &["a", "b"], &mut None).unwrap();
    let keys: Vec<(Option<&str>, &str)> = grouped.table.keys[0]
        .values
        .iter()
        .zip(&grouped.table.keys[1].values)
        .map(|(a, b)| (a.as_deref(), b.as_deref().unwrap()))
        .collect();
    assert_eq!(
        keys,
        vec![
            (None, "9"),
            (Some(""), "9"),
            (Some("ab"), "9"),
            (Some("x"), "1"),
            (Some("x"), "2"),
        ]
    );
    assert_eq!(grouped.row_groups, vec![4, 0, 2, 3, 1]);
}

#[test]
fn choose_strategy_defaults_to_hash() {
    assert_eq!(choose_strategy(None), AggregationStrategy::Hash);
    assert_eq!(choose_strategy(Some(2000)), AggregationStrategy::Hash);
}

#[test]
fn choose_strategy_low_cardinality_uses_sort() {
    assert_eq!(choose_strategy(Some(5)), AggregationStrategy::Sort);
    assert_eq!(choose_strategy(Some(1024)), AggregationStrategy::Sort);
}

#[test]
fn sort_aggregate_no_group_by_delegates() {
    let frame = test_frame();
    let grouped = aggregate_sorted(&frame, &[AggFn::Sum], &["value"], &[], &mut None).unwrap();
    assert!(close(number(&results(&grouped.table, 0)[0], &totals(&frame, "value")), 150.0));
}

#[test]
fn missing_columns_are_reported() {
    let frame = test_frame();
    assert_eq!(
        aggregate_batch(&frame, &[AggFn::Sum], &["nope"], &mut None).unwrap_err(),
        QueryError::Validation("column 'nope' not found".to_string())
    );
    assert_eq!(
        aggregate_grouped(&frame, &[AggFn::Sum], &["value"], &["value"], &mut None).unwrap_err(),
        QueryError::Validation("group-by column 'value' not found or not string".to_string())
    );
    assert_eq!(
        aggregate_batch(&frame, &[], &["value"], &mut None).unwrap_err(),
        QueryError::Validation("no columns to aggregate".to_string())
    );
}

#[test]
fn null_timestamps_do_not_order_first_and_last() {
    let frame = Frame::new(
        3,
        Some(vec![None, Some(5), None]),
        vec![column("v", floats(&[1.0, 2.0, 3.0]))],
        0,
    )
    .unwrap();
    assert_eq!(single(&frame, AggFn::First), AggResult::F64(2.0f64.to_bits()));
    assert_eq!(single(&frame, AggFn::Last), AggResult::F64(2.0f64.to_bits()));
    let unknown =
        Frame::new(1, Some(vec![None]), vec![column("v", floats(&[1.0]))], 0).unwrap();
    assert_eq!(single(&unknown, AggFn::First), AggResult::Null);
}

#[test]
fn streaming_in_parts_comes_to_grouping_the_whole() {
    let whole =
        aggregate_grouped(&test_frame(), &[AggFn::Count, AggFn::Max], &["value"], &["host"], &mut None)
            .unwrap();
    let frames = vec![
        frame_of(&[100, 200], "host", &["a", "a"], &[10.0, 20.0]),
        frame_of(&[300, 400, 500], "host", &["b", "b", "a"], &[30.0, 40.0, 50.0]),
    ];
    let streamed = aggregate_grouped_streaming(
        &frames,
        &[AggFn::Count, AggFn::Max],
        &["value"],
        &["host"],
        &mut None,
    )
    .unwrap();
    assert_eq!(whole.table.keys[0].values, streamed.keys[0].values);
    assert_eq!(named(&whole.table, "value_count"), named(&streamed, "value_count"));
    assert_eq!(named(&whole.table, "value_max"), named(&streamed, "value_max"));
}

#[test]
fn an_aggregator_tells_the_group_of_each_row() {
    let mut aggregator = StreamingAggregator::new(&[AggFn::Count], &["value"], &["host"]);
    let rows = aggregator.push(&test_frame(), &mut None).unwrap();
    assert_eq!(rows, vec![0, 0, 1, 1, 0]);
    let table = aggregator.finish(&mut None).unwrap();
    assert_eq!(*named(&table, "value_count"), vec![AggResult::Count(3), AggResult::Count(2)]);
}

#[test]
fn an_ungrouped_stream_folds_all_frames() {
    let frames = vec![test_frame(), test_frame()];
    let table = aggregate_grouped_streaming(
        &frames,
        &[AggFn::Count, AggFn::Min, AggFn::Max, AggFn::Avg],
        &["value"],
        &[],
        &mut None,
    )
    .unwrap();
    assert_eq!(results(&table, 0)[0], AggResult::Count(10));
    assert_eq!(results(&table, 1)[0], AggResult::F64(10.0f64.to_bits()));
    assert_eq!(results(&table, 2)[0], AggResult::F64(50.0f64.to_bits()));
    assert_eq!(results(&table, 3)[0], AggResult::FloatMean { count: 10 });
}

#[test]
fn not_a_number_is_the_greatest_in_the_total_order() {
    let frame = no_column_of_times(floats(&[1.0, f64::NAN, -0.0, 0.0]), 4);
    match single(&frame, AggFn::Max) {
        AggResult::F64(bits) => assert!(f64::from_bits(bits).is_nan()),
        other => panic!("not a float: {other:?}"),
    }
    assert_eq!(single(&frame, AggFn::Min), AggResult::F64((-0.0f64).to_bits()));
}
