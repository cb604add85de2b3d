//! Window functions.
use chronix::query::error::QueryError;
use chronix::query::frame::{ColumnData, Frame, FrameColumn};
use chronix::query::memory::MemoryTracker;
use chronix::query::window::{apply_window, suspected_seconds, WindowOutcome};
use chronix::query::window_fn::WindowFn;
use chronix::query::window_values::WindowValue;

const SECOND: i64 = 1_000_000_000;

/// What the arrays of the test batch take.
const BATCH_BYTES: usize = 500;

fn numbers(values: &[Option<f64>]) -> ColumnData {
    ColumnData::Floats(values.iter().map(|v| v.map(f64::to_bits)).collect())
}

fn column(name: &str, data: ColumnData) -> FrameColumn {
    FrameColumn { name: name.to_string(), data }
}

fn hosts(values: &[&str]) -> ColumnData {
    ColumnData::Texts(values.iter().map(|v| Some(v.to_string())).collect())
}

fn present(values: &[f64]) -> Vec<Option<f64>> {
    values.iter().map(|v| Some(*v)).collect()
}

fn times(values: &[i64]) -> Option<Vec<Option<i64>>> {
    Some(values.iter().map(|t| Some(*t)).collect())
}

/// A frame with its values.
struct Input {
    frame: Frame,
    values: Vec<Option<f64>>,
}

fn input(at: &[i64], values: Vec<Option<f64>>) -> Input {
    let frame =
        Frame::new(values.len(), times(at), vec![column("value", numbers(&values))], 0).unwrap();
    Input { frame, values }
}

fn test_batch() -> Input {
    let values = present(&[10.0, 20.0, 15.0, 25.0, 30.0]);
    let frame = Frame::new(
        5,
        times(&[SECOND, 2 * SECOND, 3 * SECOND, 4 * SECOND, 5 * SECOND]),
        vec![
            column("host", hosts(&["a", "a", "a", "a", "a"])),
            column("value", numbers(&values)),
        ],
        BATCH_BYTES,
    )
    .unwrap();
    Input { frame, values }
}

fn partitioned_batch() -> Input {
    let values = present(&[10.0, 100.0, 20.0, 200.0, 30.0, 300.0]);
    let frame = Frame::new(
        6,
        times(&[SECOND, SECOND, 2 * SECOND, 2 * SECOND, 3 * SECOND, 3 * SECOND]),
        vec![
            column("host", hosts(&["a", "b", "a", "b", "a", "b"])),
            column("value", numbers(&values)),
        ],
        0,
    )
    .unwrap();
    Input { frame, values }
}

/// The results of the `c`-th function as floats.
fn evaluate(outcome: &WindowOutcome, c: usize, values: &[Option<f64>]) -> Vec<Option<f64>> {
    let mut out = vec![None; values.len()];
    for rows in &outcome.partitions {
        let part: Vec<f64> = rows.iter().map(|r| values[*r].unwrap_or(0.0)).collect();
        let mut total = 0.0;
        for row in rows {
            out[*row] = match outcome.columns[c].values[*row] {
                WindowValue::Null => None,
                WindowValue::Number(n) => Some(n as f64),
                WindowValue::Value(bits) => Some(f64::from_bits(bits)),
                WindowValue::Difference { current, previous } => {
                    Some(f64::from_bits(current) - f64::from_bits(previous))
                }
                WindowValue::PerSecond { current, previous, nanos } => Some(
                    (f64::from_bits(current) - f64::from_bits(previous)) / (nanos as f64 / 1e9),
                ),
                WindowValue::Sum { from, to } => Some(part[from..to].iter().sum()),
                WindowValue::Mean { from, to, count } => {
                    Some(part[from..to].iter().sum::<f64>() / count as f64)
                }
                WindowValue::Growth { current, previous } => {
                    total += f64::from_bits(current) - f64::from_bits(previous);
                    Some(total)
                }
                WindowValue::NoGrowth => Some(total),
            };
        }
    }
    out
}

fn run(input: &Input, func: WindowFn, by: &[&str]) -> (String, Vec<Option<f64>>) {
    let outcome = apply_window(&input.frame, &[func], by, "value", &mut None).unwrap();
    (outcome.columns[0].name.clone(), evaluate(&outcome, 0, &input.values))
}

fn close(a: Option<f64>, b: f64) -> bool {
    (a.unwrap() - b).abs() < f64::EPSILON
}

#[test]
fn row_number() {
    let (name, rn) = run(&test_batch(), WindowFn::RowNumber, &[]);
    assert_eq!(name, "value_row_number");
    assert_eq!(rn.len(), 5);
    for i in 0..5 {
        assert!(close(rn[i], (i + 1) as f64));
    }
}

#[test]
fn rank_and_dense_rank() {
    // Values: 10, 20, 20, 25, 30: rank 1, 2, 2, 4, 5; dense_rank 1, 2, 2, 3, 4
    let input = input(&[1, 2, 3, 4, 5], present(&[10.0, 20.0, 20.0, 25.0, 30.0]));
    let (name, rank) = run(&input, WindowFn::Rank { order_column: None }, &[]);
    assert_eq!(name, "value_rank");
    assert_eq!(rank, present(&[1.0, 2.0, 2.0, 4.0, 5.0]));

    let (name, dense) = run(&input, WindowFn::DenseRank { order_column: None }, &[]);
    assert_eq!(name, "value_dense_rank");
    assert_eq!(dense, present(&[1.0, 2.0, 2.0, 3.0, 4.0]));
}

#[test]
fn a_rank_can_go_by_another_column() {
    let values = present(&[1.0, 2.0, 3.0]);
    let frame = Frame::new(
        3,
        None,
        vec![
            column("value", numbers(&values)),
            column("score", numbers(&present(&[7.0, 7.0, 9.0]))),
        ],
        0,
    )
    .unwrap();
    let (_, rank) = run(
        &Input { frame, values },
        WindowFn::Rank { order_column: Some("score".to_string()) },
        &[],
    );
    assert_eq!(rank, present(&[1.0, 1.0, 3.0]));
}

#[test]
fn lead_and_lag() {
    let input = test_batch(); // values: 10, 20, 15, 25, 30
    let minus = (-1.0f64).to_bits();
    let (name, lead) = run(&input, WindowFn::Lead { offset: 1, default: minus }, &[]);
    assert_eq!(name, "value_lead_1");
    assert_eq!(lead[0], Some(20.0));
    assert_eq!(lead[3], Some(30.0));
    assert_eq!(lead[4], Some(-1.0)); // default

    let (name, lag) = run(&input, WindowFn::Lag { offset: 1, default: minus }, &[]);
    assert_eq!(name, "value_lag_1");
    assert_eq!(lag[0], Some(-1.0)); // default
    assert_eq!(lag[1], Some(10.0));
    assert_eq!(lag[4], Some(25.0));
}

#[test]
fn lead_offset_2() {
    let zero = 0.0f64.to_bits();
    let (name, lead) = run(&test_batch(), WindowFn::Lead { offset: 2, default: zero }, &[]);
    assert_eq!(name, "value_lead_2");
    assert_eq!(lead[0], Some(15.0));
    assert_eq!(lead[2], Some(30.0));
    assert_eq!(lead[3], Some(0.0)); // default
    assert_eq!(lead[4], Some(0.0)); // default
}

#[test]
fn delta() {
    let (name, delta) = run(&test_batch(), WindowFn::Delta, &[]);
    assert_eq!(name, "value_delta");
    assert!(delta[0].is_none()); // first row is null
    assert_eq!(delta[1], Some(10.0)); // 20-10
    assert_eq!(delta[2], Some(-5.0)); // 15-20
    assert_eq!(delta[3], Some(10.0)); // 25-15
    assert_eq!(delta[4], Some(5.0)); // 30-25
}

#[test]
fn rate() {
    let (name, rate) = run(&test_batch(), WindowFn::Rate, &[]);
    assert_eq!(name, "value_rate");
    assert!(rate[0].is_none());
    // delta_v = 10, delta_t = 1s
    assert!(close(rate[1], 10.0));
    // delta_v = -5, delta_t = 1s
    assert!(close(rate[2], -5.0));
}

#[test]
fn irate() {
    let (name, irate) = run(&test_batch(), WindowFn::IRate, &[]);
    assert_eq!(name, "value_irate");
    // (30 - 25) / (5s - 4s) = 5.0 per second
    for i in 0..5 {
        assert!(close(irate[i], 5.0));
    }
}

#[test]
fn moving_average() {
    let (name, ma) = run(&test_batch(), WindowFn::MovingAverage { window_size: 3 }, &[]);
    assert_eq!(name, "value_moving_avg_3");
    assert!(ma[0].is_none()); // not enough data
    assert!(ma[1].is_none());
    // avg(10, 20, 15) = 15
    assert!(close(ma[2], 15.0));
    // avg(20, 15, 25) = 20
    assert!(close(ma[3], 20.0));
    // avg(15, 25, 30)
    assert!((ma[4].unwrap() - 70.0 / 3.0).abs() < 1e-10);
}

#[test]
fn cumulative_sum() {
    let (name, cs) = run(&test_batch(), WindowFn::CumulativeSum, &[]);
    assert_eq!(name, "value_cumulative_sum");
    assert_eq!(cs, present(&[10.0, 30.0, 45.0, 70.0, 100.0]));
}

#[test]
fn increase() {
    // Counter: 10, 20, 15 (reset!), 25, 30
    let (name, inc) = run(&test_batch(), WindowFn::Increase, &[]);
    assert_eq!(name, "value_increase");
    assert_eq!(inc[0], Some(0.0)); // start
    assert_eq!(inc[1], Some(10.0)); // 20-10
    assert_eq!(inc[2], Some(10.0)); // reset (15<20): no increase
    assert_eq!(inc[3], Some(20.0)); // 25-15 = +10
    assert_eq!(inc[4], Some(25.0)); // 30-25 = +5
}

#[test]
fn partitioned_row_number() {
    let (_, rn) = run(&partitioned_batch(), WindowFn::RowNumber, &["host"]);
    // host "a": rows 0, 2, 4
    assert_eq!(rn[0], Some(1.0));
    assert_eq!(rn[2], Some(2.0));
    assert_eq!(rn[4], Some(3.0));
    // host "b": rows 1, 3, 5
    assert_eq!(rn[1], Some(1.0));
    assert_eq!(rn[3], Some(2.0));
    assert_eq!(rn[5], Some(3.0));
}

#[test]
fn partitioned_delta() {
    let (_, delta) = run(&partitioned_batch(), WindowFn::Delta, &["host"]);
    // host "a": 10, 20, 30
    assert!(delta[0].is_none());
    assert_eq!(delta[2], Some(10.0));
    assert_eq!(delta[4], Some(10.0));
    // host "b": 100, 200, 300
    assert!(delta[1].is_none());
    assert_eq!(delta[3], Some(100.0));
    assert_eq!(delta[5], Some(100.0));
}

#[test]
fn partitions_hold_every_row_once() {
    let outcome =
        apply_window(&partitioned_batch().frame, &[WindowFn::Delta], &["host"], "value", &mut None)
            .unwrap();
    assert_eq!(outcome.partitions, vec![vec![0, 2, 4], vec![1, 3, 5]]);
}

#[test]
fn empty_functions_returns_clone() {
    let outcome = apply_window(&test_batch().frame, &[], &[], "value", &mut None).unwrap();
    assert!(outcome.columns.is_empty());
}

#[test]
fn multiple_window_functions() {
    let outcome = apply_window(
        &test_batch().frame,
        &[WindowFn::RowNumber, WindowFn::Delta, WindowFn::CumulativeSum],
        &[],
        "value",
        &mut None,
    )
    .unwrap();
    let names: Vec<&str> = outcome.columns.iter().map(|c| c.name.as_str()).collect();
    assert_eq!(names, vec!["value_row_number", "value_delta", "value_cumulative_sum"]);
}

#[test]
fn missing_value_column_errors() {
    let err = apply_window(&test_batch().frame, &[WindowFn::Delta], &[], "nonexistent", &mut None)
        .unwrap_err();
    assert!(matches!(err, QueryError::FieldNotFound { .. }));
}

#[test]
fn i64_and_u64_columns() {
    let at = [SECOND, 2 * SECOND, 3 * SECOND];
    let integers: Vec<Option<f64>> = [10i64, 20, 30].iter().map(|v| Some(*v as f64)).collect();
    let (_, cs) = run(&input(&at, integers), WindowFn::CumulativeSum, &[]);
    assert_eq!(cs, present(&[10.0, 30.0, 60.0]));

    let unsigned: Vec<Option<f64>> = [100u64, 200, 300].iter().map(|v| Some(*v as f64)).collect();
    let (_, delta) = run(&input(&at, unsigned), WindowFn::Delta, &[]);
    assert!(delta[0].is_none());
    assert_eq!(delta[1], Some(100.0));
    assert_eq!(delta[2], Some(100.0));
}

#[test]
fn window_respects_memory_tracker() {
    let mut tracker = Some(MemoryTracker::new(1_000_000));
    let outcome =
        apply_window(&test_batch().frame, &[WindowFn::CumulativeSum], &[], "value", &mut tracker)
            .unwrap();
    // Eight bytes per row and function, and sixteen per row, and the result on
    // top of that: the arrays of the batch, and five doubles.
    assert!(tracker.unwrap().allocated() > 120 + BATCH_BYTES + 40);
    assert_eq!(outcome.columns[0].values.len(), 5);
}

#[test]
fn window_exceeds_memory_budget() {
    let mut tracker = Some(MemoryTracker::new(1));
    let err =
        apply_window(&test_batch().frame, &[WindowFn::CumulativeSum], &[], "value", &mut tracker)
            .unwrap_err();
    assert!(matches!(err, QueryError::QueryMemoryExceeded { .. }));
    // The computation fits into this budget, and its result does not.
    let mut tracker = Some(MemoryTracker::new(120 + BATCH_BYTES + 40));
    let err =
        apply_window(&test_batch().frame, &[WindowFn::CumulativeSum], &[], "value", &mut tracker)
            .unwrap_err();
    assert!(matches!(err, QueryError::QueryMemoryExceeded { allocated: 120, .. }));
    assert_eq!(tracker.unwrap().allocated(), 120);
}

#[test]
fn windows_read_integers_and_decimals_as_doubles() {
    let integers = ColumnData::Integers(vec![Some(3), None, Some(-4)]);
    let decimals = ColumnData::Decimals {
        scale: 1,
        mantissas: vec![Some(15), Some(20), None],
    };
    let frame =
        Frame::new(3, None, vec![column("i", integers), column("d", decimals)], 0).unwrap();
    let lag = |name: &str| {
        let lag = WindowFn::Lag { offset: 1, default: 9f64.to_bits() };
        apply_window(&frame, &[lag], &[], name, &mut None).unwrap().columns[0].values.clone()
    };
    assert_eq!(
        lag("i"),
        vec![
            WindowValue::Value(9f64.to_bits()),
            WindowValue::Value(3f64.to_bits()),
            WindowValue::Null,
        ]
    );
    assert_eq!(
        lag("d"),
        vec![
            WindowValue::Value(9f64.to_bits()),
            WindowValue::Value(1.5f64.to_bits()),
            WindowValue::Value(2f64.to_bits()),
        ]
    );
}

#[test]
fn range_moving_average() {
    // Timestamps: 1s to 5s; values: 10, 20, 15, 25, 30
    let (name, avg) =
        run(&test_batch(), WindowFn::RangeMovingAverage { range_ns: 2_000_000_000 }, &[]);
    assert_eq!(name, "value_range_avg_2000000000ns");
    // row 0: window=[10]
    assert!(close(avg[0], 10.0));
    // row 1: window=[10,20]
    assert!(close(avg[1], 15.0));
    // row 2: window=[10,20,15]
    assert!(close(avg[2], 15.0));
    // row 3: window=[20,15,25]
    assert!(close(avg[3], 20.0));
    // row 4: window=[15,25,30]
    assert!((avg[4].unwrap() - 70.0 / 3.0).abs() < 0.01);
}

#[test]
fn range_sum() {
    let (name, sum) = run(&test_batch(), WindowFn::RangeSum { range_ns: 1_000_000_000 }, &[]);
    assert_eq!(name, "value_range_sum_1000000000ns");
    assert!(close(sum[0], 10.0));
    assert!(close(sum[1], 30.0));
    assert!(close(sum[2], 35.0));
    assert!(close(sum[3], 40.0));
    assert!(close(sum[4], 55.0));
}

#[test]
fn range_count() {
    let (name, cnt) = run(&test_batch(), WindowFn::RangeCount { range_ns: 1_500_000_000 }, &[]);
    assert_eq!(name, "value_range_count_1500000000ns");
    assert!(close(cnt[0], 1.0));
    assert!(close(cnt[1], 2.0));
    assert!(close(cnt[2], 2.0));
    assert!(close(cnt[3], 2.0));
}

#[test]
fn range_moving_average_partitioned() {
    // One partition with all 5 rows, whose values come to 100
    let (name, avg) = run(
        &test_batch(),
        WindowFn::RangeMovingAverage { range_ns: 5_000_000_000 },
        &["host"],
    );
    assert_eq!(name, "value_range_avg_5000000000ns");
    assert!(close(avg[4], 20.0));
}

#[test]
fn range_zero_range_is_self_only() {
    let (name, avg) = run(&test_batch(), WindowFn::RangeMovingAverage { range_ns: 0 }, &[]);
    assert_eq!(name, "value_range_avg_0ns");
    assert!(close(avg[0], 10.0));
    assert!(close(avg[1], 20.0));
    assert!(close(avg[2], 15.0));
    assert!(close(avg[3], 25.0));
    assert!(close(avg[4], 30.0));
}

#[test]
fn range_with_null_values() {
    // Second and third values are null
    let input = input(
        &[SECOND, 2 * SECOND, 3 * SECOND, 4 * SECOND],
        vec![Some(10.0), None, None, Some(40.0)],
    );
    let range_ns = 2_000_000_000;
    let (_, avg) = run(&input, WindowFn::RangeMovingAverage { range_ns }, &[]);
    let (_, sum) = run(&input, WindowFn::RangeSum { range_ns }, &[]);
    let (_, cnt) = run(&input, WindowFn::RangeCount { range_ns }, &[]);

    // row 0: window=[10]
    assert!(close(avg[0], 10.0));
    assert!(close(sum[0], 10.0));
    assert!(close(cnt[0], 1.0));

    // row 1: window=[10, null]
    assert!(close(avg[1], 10.0));
    assert!(close(sum[1], 10.0));
    assert!(close(cnt[1], 1.0));

    // row 2: window=[10, null, null]
    assert!(close(avg[2], 10.0));

    // row 3: window=[null, null, 40]
    assert!(close(avg[3], 40.0));
    assert!(close(sum[3], 40.0));
    assert!(close(cnt[3], 1.0));
}

#[test]
fn range_all_null_returns_none() {
    let input = input(&[SECOND, 2 * SECOND], vec![None, None]);
    let range_ns = 5_000_000_000;
    let (_, avg) = run(&input, WindowFn::RangeMovingAverage { range_ns }, &[]);
    let (_, sum) = run(&input, WindowFn::RangeSum { range_ns }, &[]);
    let (_, cnt) = run(&input, WindowFn::RangeCount { range_ns }, &[]);
    assert_eq!(avg, vec![None, None]);
    assert_eq!(sum, vec![None, None]);
    assert_eq!(cnt, vec![None, None]);
}

#[test]
fn range_missing_timestamp_errors() {
    let frame =
        Frame::new(3, None, vec![column("value", numbers(&present(&[1.0, 2.0, 3.0])))], 0).unwrap();
    for func in [
        WindowFn::RangeMovingAverage { range_ns: 1000 },
        WindowFn::RangeSum { range_ns: 1000 },
        WindowFn::RangeCount { range_ns: 1000 },
    ] {
        let err = apply_window(&frame, &[func], &[], "value", &mut None).unwrap_err();
        assert!(matches!(err, QueryError::Validation(_)));
    }
}

#[test]
fn range_duplicate_timestamps() {
    // Two rows at the same timestamp
    let input = input(&[SECOND, SECOND, 2 * SECOND], present(&[10.0, 20.0, 30.0]));
    let (name, avg) = run(&input, WindowFn::RangeMovingAverage { range_ns: 500_000_000 }, &[]);
    assert_eq!(name, "value_range_avg_500000000ns");
    // row 0: window=[10]
    assert!(close(avg[0], 10.0));
    // row 1: window=[10,20]
    assert!(close(avg[1], 15.0));
    // row 2: window=[30]
    assert!(close(avg[2], 30.0));
}

#[test]
fn range_single_row() {
    let input = input(&[SECOND], present(&[42.0]));
    let range_ns = 1_000_000_000;
    let (_, avg) = run(&input, WindowFn::RangeMovingAverage { range_ns }, &[]);
    let (_, sum) = run(&input, WindowFn::RangeSum { range_ns }, &[]);
    let (_, cnt) = run(&input, WindowFn::RangeCount { range_ns }, &[]);
    assert!(close(avg[0], 42.0));
    assert!(close(sum[0], 42.0));
    assert!(close(cnt[0], 1.0));
}

#[test]
fn timestamps_in_seconds_are_suspected() {
    let seconds = input(&[1_700_000_000, 1_700_000_001], present(&[1.0, 2.0]));
    assert_eq!(suspected_seconds(&seconds.frame, &[WindowFn::Rate]), Some(1_700_000_001));
    assert_eq!(suspected_seconds(&seconds.frame, &[WindowFn::Delta]), None);
    let nanos = input(&[1_700_000_000_000_000_000], present(&[1.0]));
    assert_eq!(suspected_seconds(&nanos.frame, &[WindowFn::Rate]), None);
}

#[test]
fn a_value_column_without_numbers_is_refused() {
    assert_eq!(
        apply_window(&test_batch().frame, &[WindowFn::Delta], &[], "host", &mut None).unwrap_err(),
        QueryError::Validation("column 'host' has an unexpected type".to_string())
    );
}
