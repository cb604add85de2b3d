//! Downsampling into time buckets.
use chronix::query::agg_fn::AggFn;
use chronix::query::downsample::{
    bucket_start, downsample, Bucket, Samples, TimeColumn, ValueColumn,
};
use chronix::query::downsample_stream::{StreamingDownsampler, DEFAULT_CHUNK_ROWS};
use chronix::query::error::QueryError;
use chronix::query::frame::{extract_f64, ColumnData};
use chronix::query::memory::MemoryTracker;
use chronix::query::track::AggResult;

fn make_samples(times: &[i64], values: &[f64]) -> Samples {
    Samples::new(
        times.len(),
        TimeColumn::Times(times.iter().map(|t| Some(*t)).collect()),
        ValueColumn::Values(values.iter().map(|v| Some(v.to_bits())).collect()),
    )
    .unwrap()
}

/// The result of a bucket, given the values of the batch.
fn number(bucket: &Bucket, values: &[f64]) -> f64 {
    let of: Vec<f64> = bucket.rows.iter().map(|row| values[*row]).collect();
    match bucket.value {
        AggResult::F64(bits) => f64::from_bits(bits),
        AggResult::Count(n) => n as f64,
        AggResult::FloatSum => of.iter().sum(),
        AggResult::FloatMean { count } => of.iter().sum::<f64>() / count as f64,
        other => panic!("not a float: {other:?}"),
    }
}

/// The buckets of a column of numbers.
fn run_on(times: &[i64], data: &ColumnData, function: AggFn) -> Vec<(i64, f64)> {
    let samples = Samples::new(
        times.len(),
        TimeColumn::Times(times.iter().map(|t| Some(*t)).collect()),
        ValueColumn::of(data, "a number"),
    )
    .unwrap();
    let values: Vec<f64> =
        (0..times.len()).map(|row| f64::from_bits(extract_f64(data, row).unwrap())).collect();
    downsample(&samples, "value", 10, function, &mut None)
        .unwrap()
        .iter()
        .map(|bucket| (bucket.start, number(bucket, &values)))
        .collect()
}

fn run(times: &[i64], values: &[f64], function: AggFn) -> Vec<(i64, f64)> {
    let cells = values.iter().map(|v| Some(v.to_bits())).collect();
    run_on(times, &ColumnData::Floats(cells), function)
}

fn close(a: f64, b: f64) -> bool {
    (a - b).abs() < f64::EPSILON
}

#[test]
fn downsample_avg_10s_buckets() {
    let result = run(&[0, 5, 10, 15, 20, 25], &[1.0, 2.0, 3.0, 4.0, 5.0, 6.0], AggFn::Avg);
    assert_eq!(result.len(), 3);

    // Bucket [0, 10): ts=0, 5: avg 1.5
    assert_eq!(result[0].0, 0);
    assert!(close(result[0].1, 1.5));

    // Bucket [10, 20): ts=10, 15: avg 3.5
    assert_eq!(result[1].0, 10);
    assert!(close(result[1].1, 3.5));

    // Bucket [20, 30): ts=20, 25: avg 5.5
    assert_eq!(result[2].0, 20);
    assert!(close(result[2].1, 5.5));
}

#[test]
fn downsample_sum() {
    let result = run(&[0, 5, 10, 15], &[10.0, 20.0, 30.0, 40.0], AggFn::Sum);
    assert_eq!(result.len(), 2);
    assert!(close(result[0].1, 30.0));
    assert!(close(result[1].1, 70.0));
}

#[test]
fn downsample_count() {
    let result = run(&[0, 1, 2, 10, 20, 21, 22, 23], &[1.0; 8], AggFn::Count);
    assert_eq!(result.len(), 3);
    assert!(close(result[0].1, 3.0)); // [0,10): 3 points
    assert!(close(result[1].1, 1.0)); // [10,20): 1 point
    assert!(close(result[2].1, 4.0)); // [20,30): 4 points
}

#[test]
fn downsample_min_max() {
    let min = run(&[0, 5, 10, 15], &[3.0, 1.0, 4.0, 2.0], AggFn::Min);
    let max = run(&[0, 5, 10, 15], &[3.0, 1.0, 4.0, 2.0], AggFn::Max);
    assert!(close(min[0].1, 1.0)); // min(3, 1)
    assert!(close(min[1].1, 2.0)); // min(4, 2)
    assert!(close(max[0].1, 3.0)); // max(3, 1)
    assert!(close(max[1].1, 4.0)); // max(4, 2)
}

#[test]
fn downsample_first_last() {
    let first = run(&[0, 5, 10, 15], &[10.0, 20.0, 30.0, 40.0], AggFn::First);
    let last = run(&[0, 5, 10, 15], &[10.0, 20.0, 30.0, 40.0], AggFn::Last);
    assert!(close(first[0].1, 10.0));
    assert!(close(first[1].1, 30.0));
    assert!(close(last[0].1, 20.0));
    assert!(close(last[1].1, 40.0));
}

#[test]
fn zero_interval_fails() {
    assert!(downsample(&make_samples(&[0], &[1.0]), "value", 0, AggFn::Avg, &mut None).is_err());
}

#[test]
fn empty_batch() {
    assert!(run(&[], &[], AggFn::Avg).is_empty());
}

#[test]
fn downsample_i64_column() {
    let cells = [10i64, 20, 30, 40].iter().map(|v| Some(*v)).collect();
    let result = run_on(&[0, 5, 10, 15], &ColumnData::Integers(cells), AggFn::Sum);
    assert_eq!(result.len(), 2);
    assert!(close(result[0].1, 30.0));
    assert!(close(result[1].1, 70.0));
}

#[test]
fn downsample_u64_column() {
    let cells = [100u64, 200, 300, 400].iter().map(|v| Some(*v)).collect();
    let result = run_on(&[0, 5, 10, 15], &ColumnData::Unsigned(cells), AggFn::Avg);
    assert_eq!(result.len(), 2);
    assert!(close(result[0].1, 150.0));
    assert!(close(result[1].1, 350.0));
}

#[test]
fn downsample_unsupported_type_fails() {
    let column = ValueColumn::of(&ColumnData::Others(vec![true]), "Boolean");
    let samples = Samples::new(1, TimeColumn::Times(vec![Some(0)]), column).unwrap();
    let err = downsample(&samples, "value", 10, AggFn::Avg, &mut None).unwrap_err();
    let msg = err.to_text();
    assert!(msg.contains("unsupported"), "expected unsupported type error, got: {msg}");
}

#[test]
fn missing_columns_fail() {
    let no_time =
        Samples::new(0, TimeColumn::Missing, ValueColumn::Values(vec![])).unwrap();
    assert!(downsample(&no_time, "value", 10, AggFn::Avg, &mut None).is_err());
    let no_int = Samples::new(0, TimeColumn::NotInt64, ValueColumn::Values(vec![])).unwrap();
    assert!(downsample(&no_int, "value", 10, AggFn::Avg, &mut None).is_err());
    let no_value =
        Samples::new(0, TimeColumn::Times(vec![]), ValueColumn::Missing).unwrap();
    assert!(downsample(&no_value, "value", 10, AggFn::Avg, &mut None).is_err());
}

#[test]
fn downsample_respects_memory_tracker() {
    let samples = make_samples(&[0, 5, 10, 15], &[1.0, 2.0, 3.0, 4.0]);
    let mut tracker = Some(MemoryTracker::new(1_000_000));
    let result = downsample(&samples, "value", 10, AggFn::Avg, &mut tracker).unwrap();
    // Two starts and two values, of eight bytes each.
    assert!(tracker.unwrap().allocated() > 32);
    assert_eq!(result.len(), 2);
}

#[test]
fn downsample_exceeds_memory_budget() {
    let samples = make_samples(&[0, 5, 10, 15], &[1.0, 2.0, 3.0, 4.0]);
    let mut tracker = Some(MemoryTracker::new(1));
    let err = downsample(&samples, "value", 10, AggFn::Avg, &mut tracker).unwrap_err();
    assert!(matches!(err, QueryError::QueryMemoryExceeded { .. }));
    assert_eq!(tracker.unwrap().allocated(), 0);
}

#[test]
fn buckets_before_the_epoch_start_below() {
    assert_eq!(bucket_start(-1, 10), -10);
    assert_eq!(bucket_start(-10, 10), -10);
    assert_eq!(bucket_start(19, 10), 10);
    assert_eq!(run(&[-1, 0, -11], &[1.0, 2.0, 3.0], AggFn::Count),
        vec![(-20, 1.0), (-10, 1.0), (0, 1.0)]);
}

#[test]
fn values_that_are_no_numbers_are_left_out() {
    let result = run(&[0, 1, 10], &[f64::NAN, 2.0, f64::NAN], AggFn::Count);
    assert_eq!(result, vec![(0, 1.0)]);
}

fn streamed(parts: &[(&[i64], &[f64])], function: AggFn) -> Vec<(i64, AggResult)> {
    let mut stream = StreamingDownsampler::new("value", 10, function).unwrap();
    let mut out = Vec::new();
    for (times, values) in parts {
        out.extend(stream.push(&make_samples(times, values)).unwrap().into_iter().flatten());
    }
    out.extend(stream.finish().into_iter().flatten());
    out
}

#[test]
fn streaming_in_parts_comes_to_downsampling_the_whole() {
    let whole = streamed(&[(&[0, 5, 10, 15], &[3.0, 1.0, 4.0, 2.0])], AggFn::Max);
    let parts =
        streamed(&[(&[0], &[3.0]), (&[5, 10], &[1.0, 4.0]), (&[15], &[2.0])], AggFn::Max);
    assert_eq!(whole, parts);
    assert_eq!(
        whole,
        vec![(0, AggResult::F64(3.0f64.to_bits())), (10, AggResult::F64(4.0f64.to_bits()))]
    );
}

#[test]
fn pushing_and_finishing_comes_to_downsampling_the_concatenation() {
    let times = [-15, -15, -3, 0, 4, 9, 10, 31, 31, 58];
    let values = [3.0, 1.0, f64::NAN, 4.0, 2.0, 7.0, -1.0, 0.5, 0.25, 6.0];
    for function in [AggFn::Count, AggFn::Min, AggFn::Max, AggFn::First, AggFn::Last] {
        let whole: Vec<(i64, AggResult)> =
            downsample(&make_samples(&times, &values), "value", 10, function, &mut None)
                .unwrap()
                .iter()
                .map(|bucket| (bucket.start, bucket.value))
                .collect();
        for cut in 0..=times.len() {
            for next in cut..=times.len() {
                let parts: [(&[i64], &[f64]); 3] = [
                    (&times[..cut], &values[..cut]),
                    (&times[cut..next], &values[cut..next]),
                    (&times[next..], &values[next..]),
                ];
                assert_eq!(streamed(&parts, function), whole);
            }
        }
    }
}

#[test]
fn a_bucket_that_is_closed_is_not_opened_again() {
    let mut stream = StreamingDownsampler::new("value", 10, AggFn::Count).unwrap();
    stream.push(&make_samples(&[0, 10], &[1.0, 1.0])).unwrap();
    let err = stream.push(&make_samples(&[5], &[1.0])).unwrap_err();
    assert!(matches!(err, QueryError::Validation(_)));
}

#[test]
fn a_stream_needs_a_positive_interval() {
    assert!(StreamingDownsampler::new("value", 0, AggFn::Count).is_err());
    assert_eq!(DEFAULT_CHUNK_ROWS, 65_536);
}

#[test]
fn a_row_out_of_timestamp_order_is_refused() {
    // The two rows lie in one bucket.
    let mut stream = StreamingDownsampler::new("value", 10, AggFn::Sum).unwrap();
    assert_eq!(
        stream.push(&make_samples(&[5, 3], &[1.0, 2.0])).unwrap_err(),
        QueryError::Validation(
            "downsample input is not ascending by timestamp: 3 arrived after 5".to_string()
        )
    );
    // Equal timestamps are in order.
    let mut stream = StreamingDownsampler::new("value", 10, AggFn::Count).unwrap();
    assert!(stream.push(&make_samples(&[5, 5], &[1.0, 2.0])).unwrap().is_empty());
    let out: Vec<(i64, AggResult)> = stream.finish().into_iter().flatten().collect();
    assert_eq!(out, vec![(0, AggResult::Count(2))]);
}
