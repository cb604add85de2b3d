//! Filtering rows and projecting columns.
use chronix::query::batch::{Batch, Cell, Column, ColumnField, ColumnKind};
use chronix::query::error::QueryError;
use chronix::query::filter::{
    apply_filter, combine_masks, dict_equality_mask, filter_batch, filter_tombstoned,
    project_batch, tag_equality_mask, time_range_mask, Tombstone, TombstoneSet,
};

fn column(name: &str, kind: ColumnKind, cells: Vec<Cell>) -> Column {
    Column {
        field: ColumnField { name: name.to_string(), kind, nullable: false, tag: false },
        cells,
    }
}

fn ints(values: &[i64]) -> Vec<Cell> {
    values.iter().map(|v| Cell::Int(*v)).collect()
}

fn texts(values: &[&str]) -> Vec<Cell> {
    values.iter().map(|v| Cell::Text(v.to_string())).collect()
}

fn floats(values: &[f64]) -> Vec<Cell> {
    values.iter().map(|v| Cell::Float(v.to_bits())).collect()
}

fn batch_with(times: &[i64], kind: ColumnKind, hosts: &[&str], values: &[f64]) -> Batch {
    Batch::try_new(
        times.len(),
        vec![
            column("timestamp", ColumnKind::Int64, ints(times)),
            column("host", kind, texts(hosts)),
            column("value", ColumnKind::Float64, floats(values)),
        ],
    )
    .unwrap()
}

fn hosts_of(kind: ColumnKind) -> Batch {
    batch_with(
        &[100, 200, 300, 400, 500],
        kind,
        &["a", "b", "a", "b", "a"],
        &[1.0, 2.0, 3.0, 4.0, 5.0],
    )
}

fn test_batch() -> Batch {
    hosts_of(ColumnKind::Utf8)
}

fn times_of(batch: &Batch) -> Vec<i64> {
    let c = batch.index_of("timestamp").unwrap();
    batch
        .column(c)
        .cells
        .iter()
        .map(|cell| match cell {
            Cell::Int(t) => *t,
            other => panic!("not a timestamp: {other:?}"),
        })
        .collect()
}

#[test]
fn time_range_filter() {
    let filtered = filter_batch(&test_batch(), 200, 400, &[]).unwrap();
    assert_eq!(filtered.num_rows(), 3);
    assert_eq!(times_of(&filtered), vec![200, 300, 400]);
}

#[test]
fn tag_equality_filter() {
    let filtered = filter_batch(&test_batch(), i64::MIN, i64::MAX, &[("host", "a")]).unwrap();
    assert_eq!(filtered.num_rows(), 3);
    for cell in &filtered.column(1).cells {
        assert!(matches!(cell, Cell::Text(host) if host == "a"));
    }
}

#[test]
fn combined_time_and_tag_filter() {
    let filtered = filter_batch(&test_batch(), 200, 400, &[("host", "a")]).unwrap();
    assert_eq!(filtered.num_rows(), 1);
    assert_eq!(times_of(&filtered), vec![300]);
}

#[test]
fn filter_empty_batch() {
    let batch =
        Batch::try_new(0, vec![column("timestamp", ColumnKind::Int64, vec![])]).unwrap();
    let result = filter_batch(&batch, 0, 100, &[]).unwrap();
    assert_eq!(result.num_rows(), 0);
}

#[test]
fn a_filter_on_a_missing_tag_matches_nothing() {
    let filtered = filter_batch(&test_batch(), 0, 1000, &[("dc", "eu")]).unwrap();
    assert_eq!(filtered.num_rows(), 0);
    assert_eq!(filtered.num_columns(), 3);
    let filtered = filter_batch(&test_batch(), 0, 1000, &[("value", "1")]).unwrap();
    assert_eq!(filtered.num_rows(), 0);
}

#[test]
fn no_filter_keeps_everything() {
    let filtered = filter_batch(&test_batch(), i64::MIN, i64::MAX, &[]).unwrap();
    assert_eq!(filtered.num_rows(), 5);
}

#[test]
fn a_filter_needs_integer_timestamps() {
    let none = Batch::try_new(1, vec![column("v", ColumnKind::Float64, floats(&[1.0]))]).unwrap();
    assert_eq!(
        filter_batch(&none, 0, 1, &[]).unwrap_err(),
        QueryError::Validation("'timestamp' column not found".to_string())
    );
    let wrong =
        Batch::try_new(1, vec![column("timestamp", ColumnKind::Utf8, texts(&["1"]))]).unwrap();
    assert_eq!(
        filter_batch(&wrong, 0, 1, &[]).unwrap_err(),
        QueryError::Validation("'timestamp' column is not Int64".to_string())
    );
}

#[test]
fn project_columns() {
    let projected = project_batch(&test_batch(), &vec!["value".to_string()]).unwrap();
    assert_eq!(projected.num_columns(), 2); // timestamp + value
    assert_eq!(projected.column(0).field.name, "timestamp");
    assert_eq!(projected.column(1).field.name, "value");
}

#[test]
fn project_empty_returns_all() {
    let batch = test_batch();
    let projected = project_batch(&batch, &vec![]).unwrap();
    assert_eq!(projected.num_columns(), batch.num_columns());
}

#[test]
fn a_projection_passes_over_unknown_columns() {
    let names = vec!["nope".to_string(), "timestamp".to_string(), "host".to_string()];
    let projected = project_batch(&test_batch(), &names).unwrap();
    assert_eq!(projected.num_columns(), 2);
    assert_eq!(projected.column(1).field.name, "host");
}

#[test]
fn time_range_mask_correctness() {
    let ts = vec![Some(10), Some(20), Some(30), Some(40), Some(50)];
    let mask = time_range_mask(&ts, 20, 40).unwrap();
    assert_eq!(mask, vec![Some(false), Some(true), Some(true), Some(true), Some(false)]);
}

#[test]
fn a_mask_is_null_where_the_value_is() {
    assert_eq!(time_range_mask(&vec![None, Some(5)], 5, 5).unwrap(), vec![None, Some(true)]);
    assert_eq!(
        tag_equality_mask(&vec![None, Some("a".to_string())], "a").unwrap(),
        vec![None, Some(true)]
    );
}

#[test]
fn tag_equality_mask_correctness() {
    let col: Vec<Option<String>> =
        ["a", "b", "a", "c", "a"].iter().map(|s| Some(s.to_string())).collect();
    let mask = tag_equality_mask(&col, "a").unwrap();
    assert_eq!(mask, vec![Some(true), Some(false), Some(true), Some(false), Some(true)]);
}

#[test]
fn combine_two_masks() {
    let m1 = vec![Some(true), Some(true), Some(false), Some(true)];
    let m2 = vec![Some(true), Some(false), Some(false), Some(true)];
    let result = combine_masks(&vec![m1, m2]).unwrap();
    assert_eq!(result, vec![Some(true), Some(false), Some(false), Some(true)]);
}

#[test]
fn masks_that_do_not_fit_are_refused() {
    assert_eq!(
        combine_masks(&vec![]).unwrap_err(),
        QueryError::Validation("no masks to combine".to_string())
    );
    let uneven = vec![vec![Some(true)], vec![Some(true), None]];
    assert!(matches!(combine_masks(&uneven).unwrap_err(), QueryError::Arrow(_)));
    let long = vec![Some(true); 6];
    assert!(matches!(apply_filter(&test_batch(), &long).unwrap_err(), QueryError::Arrow(_)));
}

#[test]
fn a_short_mask_drops_the_rest() {
    let mask = vec![Some(false), Some(true), None];
    let filtered = apply_filter(&test_batch(), &mask).unwrap();
    assert_eq!(times_of(&filtered), vec![200]);
}

#[test]
fn dict_equality_mask_matches() {
    // ["a", "b", "a", "c", "a"]
    let values: Vec<Option<String>> =
        ["a", "b", "c"].iter().map(|s| Some(s.to_string())).collect();
    let keys = vec![Some(0), Some(1), Some(0), Some(2), Some(0)];
    let mask = dict_equality_mask(&keys, &values, "a").unwrap();
    assert_eq!(mask, vec![Some(true), Some(false), Some(true), Some(false), Some(true)]);
}

#[test]
fn dict_equality_mask_no_match() {
    let values: Vec<Option<String>> =
        ["a", "b", "c"].iter().map(|s| Some(s.to_string())).collect();
    let keys = vec![Some(0), Some(1), Some(2)];
    let mask = dict_equality_mask(&keys, &values, "z").unwrap();
    assert_eq!(mask, vec![Some(false), Some(false), Some(false)]);
}

#[test]
fn filter_batch_with_dict_column() {
    let batch = hosts_of(ColumnKind::Dictionary);
    let filtered = filter_batch(&batch, i64::MIN, i64::MAX, &[("host", "a")]).unwrap();
    assert_eq!(filtered.num_rows(), 3);
}

#[test]
fn tombstone_filter_with_dict_column() {
    let batch = batch_with(
        &[100, 200, 300],
        ColumnKind::Dictionary,
        &["host-a", "host-b", "host-a"],
        &[1.0, 2.0, 3.0],
    );
    // Tombstone for the canonical form of cpu{host=host-a}
    let mut tombstones = TombstoneSet::new();
    tombstones.insert(Tombstone::all_time("cpu\0host=host-a"));

    let result = filter_tombstoned(&batch, "cpu", &tombstones, Some(&["host"])).unwrap();
    // Only "host-b" rows should survive
    assert_eq!(result.num_rows(), 1);
    assert_eq!(times_of(&result), vec![200]);
}

#[test]
fn tombstone_filter_heuristic_detects_dict_columns() {
    let batch =
        batch_with(&[100, 200], ColumnKind::Dictionary, &["host-x", "host-y"], &[1.0, 2.0]);
    let mut tombstones = TombstoneSet::new();
    tombstones.insert(Tombstone::all_time("cpu\0host=host-x"));

    let result = filter_tombstoned(&batch, "cpu", &tombstones, None).unwrap();
    assert_eq!(result.num_rows(), 1);
}

#[test]
fn a_ranged_tombstone_deletes_only_its_range() {
    let mut tombstones = TombstoneSet::new();
    tombstones.insert(Tombstone { series: "cpu\0host=a".to_string(), start: 100, end: 300 });
    let result = filter_tombstoned(&test_batch(), "cpu", &tombstones, Some(&["host"])).unwrap();
    assert_eq!(times_of(&result), vec![200, 400, 500]);
    assert!(tombstones.is_tombstoned("cpu\0host=a", 300));
    assert!(!tombstones.is_tombstoned("cpu\0host=a", 301));
    let untouched =
        filter_tombstoned(&test_batch(), "cpu", &TombstoneSet::new(), None).unwrap();
    assert_eq!(untouched.num_rows(), 5);
}

#[test]
fn a_batch_needs_fitting_columns() {
    let uneven = Batch::try_new(2, vec![column("timestamp", ColumnKind::Int64, ints(&[1]))]);
    assert!(matches!(uneven.unwrap_err(), QueryError::Arrow(_)));
    let mixed = Batch::try_new(1, vec![column("timestamp", ColumnKind::Int64, texts(&["1"]))]);
    assert!(matches!(mixed.unwrap_err(), QueryError::Arrow(_)));
}
