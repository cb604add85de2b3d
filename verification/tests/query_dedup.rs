//! Merging and deduplicating batches.
use chronix::query::batch::{Batch, Cell, Column, ColumnField, ColumnKind};
use chronix::query::dedup::{sort_merge_dedup, sort_merge_dedup_chunked};
use chronix::query::error::QueryError;
use chronix::query::memory::MemoryTracker;
use chronix::query::output::batch_bytes;

fn column(name: &str, kind: ColumnKind, cells: Vec<Cell>) -> Column {
    Column {
        field: ColumnField { name: name.to_string(), kind, nullable: true, tag: false },
        cells,
    }
}

fn tag_column(name: &str, cells: Vec<Cell>) -> Column {
    Column {
        field: ColumnField {
            name: name.to_string(),
            kind: ColumnKind::Utf8,
            nullable: true,
            tag: true,
        },
        cells,
    }
}

fn ints(values: &[i64]) -> Vec<Cell> {
    values.iter().map(|v| Cell::Int(*v)).collect()
}

fn texts(values: &[&str]) -> Vec<Cell> {
    values.iter().map(|v| Cell::Text(v.to_string())).collect()
}

fn floats(values: &[f64]) -> Vec<Cell> {
    values.iter().map(|v| Cell::Float(v.to_bits())).collect()
}

fn time_column(times: &[i64]) -> Column {
    column("timestamp", ColumnKind::Int64, ints(times))
}

fn make_batch(times: &[i64], values: &[f64]) -> Batch {
    Batch::try_new(
        times.len(),
        vec![time_column(times), column("value", ColumnKind::Float64, floats(values))],
    )
    .unwrap()
}

fn times_of(batch: &Batch) -> Vec<i64> {
    let c = batch.index_of("timestamp").unwrap();
    batch
        .column(c)
        .cells
        .iter()
        .map(|cell| match cell {
            Cell::Int(t) => *t,
            other => panic!("not a timestamp: {other:?}"),
        })
        .collect()
}

fn values_of(batch: &Batch, name: &str) -> Vec<f64> {
    let c = batch.index_of(name).unwrap();
    batch
        .column(c)
        .cells
        .iter()
        .map(|cell| match cell {
            Cell::Float(bits) => f64::from_bits(*bits),
            other => panic!("not a float: {other:?}"),
        })
        .collect()
}

fn texts_of(batch: &Batch, name: &str) -> Vec<Option<String>> {
    let c = batch.index_of(name).unwrap();
    batch
        .column(c)
        .cells
        .iter()
        .map(|cell| match cell {
            Cell::Text(text) => Some(text.clone()),
            _ => None,
        })
        .collect()
}

#[test]
fn single_batch_passthrough() {
    let batch = make_batch(&[100, 200, 300], &[1.0, 2.0, 3.0]);
    let result = sort_merge_dedup(&vec![batch], "cpu", &mut None, batch_bytes).unwrap();
    assert_eq!(result.num_rows(), 3);
}

#[test]
fn merge_no_overlap() {
    let b1 = make_batch(&[100, 200], &[1.0, 2.0]);
    let b2 = make_batch(&[300, 400], &[3.0, 4.0]);

    let result = sort_merge_dedup(&vec![b1, b2], "cpu", &mut None, batch_bytes).unwrap();
    assert_eq!(result.num_rows(), 4);
    assert_eq!(times_of(&result), vec![100, 200, 300, 400]);
}

#[test]
fn dedup_overlapping_last_write_wins() {
    // b1 is older, b2 is newer
    let b1 = make_batch(&[100, 200, 300], &[1.0, 2.0, 3.0]);
    let b2 = make_batch(&[200, 300, 400], &[22.0, 33.0, 44.0]);

    // b2 listed last, so it wins on conflict
    let result = sort_merge_dedup(&vec![b1, b2], "cpu", &mut None, batch_bytes).unwrap();
    assert_eq!(result.num_rows(), 4); // 100, 200, 300, 400

    assert_eq!(times_of(&result), vec![100, 200, 300, 400]);
    // ts=200 and ts=300 should have values from b2 (last-write-wins)
    assert_eq!(values_of(&result, "value"), vec![1.0, 22.0, 33.0, 44.0]);
}

#[test]
fn within_a_batch_the_last_row_wins() {
    let b1 = make_batch(&[100, 100, 50], &[1.0, 2.0, 3.0]);
    let b2 = make_batch(&[70], &[4.0]);
    let result = sort_merge_dedup(&vec![b1, b2], "cpu", &mut None, batch_bytes).unwrap();
    assert_eq!(times_of(&result), vec![50, 70, 100]);
    assert_eq!(values_of(&result, "value"), vec![3.0, 4.0, 2.0]);
}

#[test]
fn empty_batches_error() {
    let result = sort_merge_dedup(&vec![], "cpu", &mut None, batch_bytes);
    assert_eq!(
        result.unwrap_err(),
        QueryError::Validation("no batches to deduplicate".to_string())
    );
    assert!(sort_merge_dedup_chunked(&vec![], "cpu", 10, &mut None, batch_bytes).is_err());
}

#[test]
fn batches_without_rows_merge_to_none() {
    let batches = vec![make_batch(&[], &[]), make_batch(&[], &[])];
    let result = sort_merge_dedup(&batches, "cpu", &mut None, batch_bytes).unwrap();
    assert_eq!(result.num_rows(), 0);
    assert_eq!(result.num_columns(), 2);
    assert!(sort_merge_dedup_chunked(&batches, "cpu", 10, &mut None, batch_bytes).unwrap().is_empty());
}

#[test]
fn schema_evolution_missing_column_filled_with_nulls() {
    // b1 has (timestamp, value)
    let b1 = make_batch(&[100, 200], &[1.0, 2.0]);

    // b2 has (timestamp, value, extra_field)
    let b2 = Batch::try_new(
        2,
        vec![
            time_column(&[300, 400]),
            column("value", ColumnKind::Float64, floats(&[3.0, 4.0])),
            column("extra_field", ColumnKind::Utf8, texts(&["hello", "world"])),
        ],
    )
    .unwrap();

    let result = sort_merge_dedup(&vec![b1, b2], "cpu", &mut None, batch_bytes).unwrap();
    // Union schema should have 3 columns
    assert_eq!(result.num_columns(), 3);
    assert_eq!(result.num_rows(), 4);
    assert_eq!(times_of(&result), vec![100, 200, 300, 400]);
    assert_eq!(
        texts_of(&result, "extra_field"),
        vec![None, None, Some("hello".to_string()), Some("world".to_string())]
    );
}

#[test]
fn different_column_order_aligned() {
    // b1: (timestamp, host, region, value)
    let b1 = Batch::try_new(
        1,
        vec![
            time_column(&[100]),
            column("host", ColumnKind::Utf8, texts(&["srv1"])),
            column("region", ColumnKind::Utf8, texts(&["us-east"])),
            column("value", ColumnKind::Float64, floats(&[1.0])),
        ],
    )
    .unwrap();

    // b2: (timestamp, region, host, value)
    let b2 = Batch::try_new(
        1,
        vec![
            time_column(&[200]),
            column("region", ColumnKind::Utf8, texts(&["eu-west"])),
            column("host", ColumnKind::Utf8, texts(&["srv2"])),
            column("value", ColumnKind::Float64, floats(&[2.0])),
        ],
    )
    .unwrap();

    let result = sort_merge_dedup(&vec![b1, b2], "cpu", &mut None, batch_bytes).unwrap();
    assert_eq!(result.num_rows(), 2);
    assert_eq!(result.num_columns(), 4);

    // Columns are in b1's order: timestamp, host, region, value
    assert_eq!(result.column(1).field.name, "host");
    assert_eq!(result.column(2).field.name, "region");

    assert_eq!(
        texts_of(&result, "host"),
        vec![Some("srv1".to_string()), Some("srv2".to_string())]
    );
}

fn host_batch(host: &str, values: &[f64]) -> Batch {
    Batch::try_new(
        2,
        vec![
            time_column(&[100, 200]),
            tag_column("host", texts(&[host, host])),
            column("value", ColumnKind::Float64, floats(values)),
        ],
    )
    .unwrap()
}

#[test]
fn multi_series_same_timestamp_preserved() {
    // Two different series (host=srv1 vs host=srv2) at the same timestamp
    // must both be preserved after dedup.
    let batches = vec![host_batch("srv1", &[1.0, 2.0]), host_batch("srv2", &[10.0, 20.0])];
    let result = sort_merge_dedup(&batches, "cpu", &mut None, batch_bytes).unwrap();
    // All 4 rows must survive
    assert_eq!(result.num_rows(), 4);

    // Sorted by (timestamp, series_hash)
    assert_eq!(times_of(&result), vec![100, 100, 200, 200]);

    // Both srv1 and srv2 must appear at each timestamp
    let hosts = texts_of(&result, "host");
    for pair in [&hosts[0..2], &hosts[2..4]] {
        assert!(pair.contains(&Some("srv1".to_string())));
        assert!(pair.contains(&Some("srv2".to_string())));
    }
}

#[test]
fn a_text_field_beside_marked_tags_is_not_part_of_the_series() {
    let with_note = |note: &str, value: f64| {
        Batch::try_new(
            1,
            vec![
                time_column(&[100]),
                tag_column("host", texts(&["srv1"])),
                column("note", ColumnKind::Utf8, texts(&[note])),
                column("value", ColumnKind::Float64, floats(&[value])),
            ],
        )
        .unwrap()
    };
    let result =
        sort_merge_dedup(&vec![with_note("a", 1.0), with_note("b", 2.0)], "cpu", &mut None, batch_bytes)
            .unwrap();
    assert_eq!(values_of(&result, "value"), vec![2.0]);
    assert_eq!(texts_of(&result, "note"), vec![Some("b".to_string())]);
}

#[test]
fn dedup_respects_memory_tracker() {
    let batches = vec![make_batch(&[100, 200], &[1.0, 2.0]), make_batch(&[300, 400], &[3.0, 4.0])];

    // Tracker with generous budget: should succeed.
    let mut tracker = Some(MemoryTracker::new(1_000_000));
    let result = sort_merge_dedup(&batches, "cpu", &mut tracker, batch_bytes).unwrap();
    assert_eq!(result.num_rows(), 4);
    // Four rows of two columns, at 8 bytes a column and 16 a row, and the
    // result on top of that.
    assert!(tracker.unwrap().allocated() > 128, "tracker should have charged memory");

    // Tracker with tiny budget: should fail.
    let mut tiny = Some(MemoryTracker::new(1));
    let err = sort_merge_dedup(&batches, "cpu", &mut tiny, batch_bytes);
    assert!(err.is_err(), "should fail when memory budget exceeded");
    assert_eq!(
        err.unwrap_err(),
        QueryError::QueryMemoryExceeded { requested: 128, allocated: 0, budget: 1 }
    );
}

#[test]
fn a_batch_takes_at_least_its_values() {
    let batch = Batch::try_new(
        3,
        vec![
            time_column(&[1, 2, 3]),
            column("u", ColumnKind::UInt64, vec![Cell::UInt(1), Cell::Null, Cell::UInt(3)]),
            column("f", ColumnKind::Float64, floats(&[1.0, 2.0, 3.0])),
            column("b", ColumnKind::Boolean, vec![Cell::Bool(true), Cell::Null, Cell::Null]),
            column("t", ColumnKind::Utf8, texts(&["one", "two", &"x".repeat(10_000)])),
            column(
                "d",
                ColumnKind::Decimal128 { precision: 38, scale: 2 },
                vec![Cell::Decimal(1), Cell::Decimal(2), Cell::Null],
            ),
        ],
    )
    .unwrap();
    assert!(batch_bytes(&batch) >= 3 * 25 + 1 + (10_006 + 13) + 49);
    assert_eq!(batch_bytes(&Batch::try_new(0, vec![]).unwrap()), 0);
}

#[test]
fn merged_rows_are_charged_as_they_are_measured() {
    let with_kind = |time: i64| {
        let host = column("host", ColumnKind::Dictionary, texts(&["a"]));
        Batch::try_new(1, vec![time_column(&[time]), host]).unwrap()
    };
    let batches = vec![with_kind(1), with_kind(2)];
    // Two rows of two columns, at 8 bytes a column and 16 a row.
    let measure = |batch: &Batch| 1_000 * batch.num_rows();
    let mut tracker = Some(MemoryTracker::new(1_000_000));
    sort_merge_dedup(&batches, "cpu", &mut tracker, measure).unwrap();
    assert_eq!(tracker.unwrap().allocated(), 64 + 2_000);
    let mut tracker = Some(MemoryTracker::new(64 + 1_999));
    let err = sort_merge_dedup_chunked(&batches, "cpu", 1, &mut tracker, measure).unwrap_err();
    assert_eq!(
        err,
        QueryError::QueryMemoryExceeded { requested: 1_000, allocated: 1_064, budget: 2_063 }
    );
    // Without a budget nothing is measured.
    let chunks = sort_merge_dedup_chunked(&batches, "cpu", 1, &mut None, |_: &Batch| {
        unreachable!("measured")
    });
    assert_eq!(chunks.unwrap().len(), 2);
}

#[test]
fn merged_chunks_are_charged_one_by_one() {
    let batches = vec![make_batch(&[100, 200], &[1.0, 2.0]), make_batch(&[300, 400], &[3.0, 4.0])];
    // The merge fits into this budget, and its result does not.
    let mut tracker = Some(MemoryTracker::new(128));
    let err = sort_merge_dedup(&batches, "cpu", &mut tracker, batch_bytes).unwrap_err();
    assert!(matches!(err, QueryError::QueryMemoryExceeded { allocated: 128, .. }));
    let mut tracker = Some(MemoryTracker::new(1_000_000));
    let whole = sort_merge_dedup_chunked(&batches, "cpu", 1, &mut tracker, batch_bytes).unwrap();
    assert_eq!(whole.len(), 4);
    let spent = tracker.unwrap().allocated() - 128;
    // One byte short of what the chunks take: all but the last are charged.
    let mut tracker = Some(MemoryTracker::new(128 + spent - 1));
    let err = sort_merge_dedup_chunked(&batches, "cpu", 1, &mut tracker, batch_bytes).unwrap_err();
    let held = tracker.unwrap().allocated();
    assert!(matches!(
        err,
        QueryError::QueryMemoryExceeded { requested, allocated, .. }
            if allocated == held && requested > 0 && held + requested == 128 + spent
    ));
}

/// A single input is returned in timestamp order, not in the order it
/// happens to lie on disk.
#[test]
fn a_single_series_major_batch_comes_back_in_time_order() {
    // host a at t=1,2,3 then host b at t=1,2,3: series-major.
    let batch = Batch::try_new(
        6,
        vec![
            time_column(&[1, 2, 3, 1, 2, 3]),
            column("host", ColumnKind::Utf8, texts(&["a", "a", "a", "b", "b", "b"])),
            column("v", ColumnKind::Float64, floats(&[1.0, 2.0, 3.0, 4.0, 5.0, 6.0])),
        ],
    )
    .unwrap();

    let out = sort_merge_dedup_chunked(&vec![batch], "m", 1024, &mut None, batch_bytes).unwrap();
    assert_eq!(out.len(), 1);
    assert_eq!(times_of(&out[0]), vec![1, 1, 2, 2, 3, 3]);
    // Both series survive: this sorts, it does not deduplicate across
    // series that merely share a timestamp.
    assert_eq!(out[0].num_rows(), 6);
    assert_eq!(values_of(&out[0], "v"), vec![1.0, 4.0, 2.0, 5.0, 3.0, 6.0]);
}

/// An already-ordered batch is passed through untouched.
#[test]
fn an_ordered_batch_is_not_reshuffled() {
    let batch = Batch::try_new(
        3,
        vec![
            time_column(&[10, 20, 30]),
            column("v", ColumnKind::Float64, floats(&[1.0, 2.0, 3.0])),
        ],
    )
    .unwrap();
    let out = sort_merge_dedup_chunked(&vec![batch], "m", 1024, &mut None, batch_bytes).unwrap();
    assert_eq!(values_of(&out[0], "v"), vec![1.0, 2.0, 3.0]);
}

#[test]
fn chunks_hold_the_rows_of_the_whole() {
    let batches = vec![
        make_batch(&[100, 200, 300], &[1.0, 2.0, 3.0]),
        make_batch(&[200, 250, 400], &[22.0, 25.0, 44.0]),
    ];
    let whole = sort_merge_dedup(&batches, "cpu", &mut None, batch_bytes).unwrap();
    let chunks = sort_merge_dedup_chunked(&batches, "cpu", 2, &mut None, batch_bytes).unwrap();
    assert_eq!(chunks.iter().map(|c| c.num_rows()).collect::<Vec<_>>(), vec![2, 2, 1]);
    let joined: Vec<f64> = chunks.iter().flat_map(|c| values_of(c, "value")).collect();
    assert_eq!(joined, values_of(&whole, "value"));

    let single = sort_merge_dedup_chunked(&vec![make_batch(&[3, 1, 2], &[3.0, 1.0, 2.0])], "m", 2, &mut None, batch_bytes)
        .unwrap();
    assert_eq!(single.iter().map(times_of).collect::<Vec<_>>(), vec![vec![1, 2], vec![3]]);
}

#[test]
fn merging_needs_integer_timestamps_and_one_type_per_column() {
    let plain = |kind: ColumnKind, cells: Vec<Cell>| {
        Batch::try_new(1, vec![column("v", kind, cells)]).unwrap()
    };
    let no_time = vec![
        plain(ColumnKind::Float64, floats(&[1.0])),
        plain(ColumnKind::Float64, floats(&[2.0])),
    ];
    assert_eq!(
        sort_merge_dedup(&no_time, "m", &mut None, batch_bytes).unwrap_err(),
        QueryError::Validation("'timestamp' column not found".to_string())
    );
    let wrong = |text: &str| {
        Batch::try_new(1, vec![column("timestamp", ColumnKind::Utf8, texts(&[text]))]).unwrap()
    };
    assert_eq!(
        sort_merge_dedup(&vec![wrong("1"), wrong("2")], "m", &mut None, batch_bytes).unwrap_err(),
        QueryError::Validation("timestamp column must be Int64".to_string())
    );
    let mixed =
        vec![plain(ColumnKind::Float64, floats(&[1.0])), plain(ColumnKind::Int64, ints(&[1]))];
    assert!(matches!(
        sort_merge_dedup(&mixed, "m", &mut None, batch_bytes).unwrap_err(),
        QueryError::Arrow(_)
    ));
}

#[test]
fn rows_without_a_timestamp_come_last() {
    let b1 = Batch::try_new(
        2,
        vec![
            column("timestamp", ColumnKind::Int64, vec![Cell::Null, Cell::Int(5)]),
            column("value", ColumnKind::Float64, floats(&[1.0, 2.0])),
        ],
    )
    .unwrap();
    let b2 = make_batch(&[-3], &[3.0]);
    let result = sort_merge_dedup(&vec![b1, b2], "cpu", &mut None, batch_bytes).unwrap();
    assert_eq!(values_of(&result, "value"), vec![3.0, 2.0, 1.0]);
}
