//! Points, batches and stored values.
use chronix::query::batch::{Batch, Cell, ColumnKind};
use chronix::query::cells::{
    arrow_cell_to_field_value, column_type_to_arrow, ColumnType, FieldValue,
};
use chronix::query::convert::{points_to_record_batch, Point};
use chronix::query::error::QueryError;
use chronix::query::series::SeriesKey;
use chronix::sorted_map::SortedMap;

fn series(measurement: &str, tags: &[(&str, &str)]) -> SeriesKey {
    let mut map = SortedMap::new();
    for (name, value) in tags {
        map.insert(name.to_string(), value.to_string());
    }
    SeriesKey::new(measurement, map)
}

fn point(key: SeriesKey, fields: Vec<(&str, FieldValue)>, ts: i64) -> Point {
    let mut map = SortedMap::new();
    for (name, value) in fields {
        map.insert(name.to_string(), value);
    }
    Point::new(key, map, ts)
}

fn make_point(measurement: &str, host: &str, ts: i64, value: f64) -> Point {
    point(
        series(measurement, &[("host", host)]),
        vec![("value", FieldValue::F64(value.to_bits()))],
        ts,
    )
}

fn text_at(batch: &Batch, c: usize, row: usize) -> &str {
    match &batch.column(c).cells[row] {
        Cell::Text(text) => text,
        other => panic!("not a text: {other:?}"),
    }
}

#[test]
fn empty_points_returns_empty_batch() {
    let batch = points_to_record_batch(&vec![]).unwrap();
    assert_eq!(batch.num_rows(), 0);
}

#[test]
fn single_point_roundtrip() {
    let points = vec![make_point("cpu", "server-1", 1000, 42.5)];
    let batch = points_to_record_batch(&points).unwrap();

    assert_eq!(batch.num_rows(), 1);
    assert_eq!(batch.num_columns(), 3); // timestamp, host, value

    assert!(matches!(batch.column(0).cells[0], Cell::Int(1000)));
    assert_eq!(text_at(&batch, 1, 0), "server-1");
    match batch.column(2).cells[0] {
        Cell::Float(bits) => assert!((f64::from_bits(bits) - 42.5).abs() < f64::EPSILON),
        _ => panic!("not a float"),
    }
}

#[test]
fn multiple_points_same_series() {
    let points: Vec<Point> = (0..10).map(|i| make_point("cpu", "a", i * 100, i as f64)).collect();
    let batch = points_to_record_batch(&points).unwrap();

    assert_eq!(batch.num_rows(), 10);
    assert_eq!(batch.num_columns(), 3);
}

#[test]
fn multiple_series_different_tags() {
    let points = vec![make_point("cpu", "a", 100, 1.0), make_point("cpu", "b", 200, 2.0)];
    let batch = points_to_record_batch(&points).unwrap();

    assert_eq!(batch.num_rows(), 2);
    assert_eq!(text_at(&batch, 1, 0), "a");
    assert_eq!(text_at(&batch, 1, 1), "b");
}

#[test]
fn multiple_field_types() {
    let fields = vec![
        ("f_i64", FieldValue::I64(42)),
        ("f_u64", FieldValue::U64(99)),
        ("f_f64", FieldValue::F64(3.125f64.to_bits())),
        ("f_bool", FieldValue::Bool(true)),
        ("f_str", FieldValue::String("hello".into())),
    ];
    let batch = points_to_record_batch(&vec![point(series("m", &[]), fields, 1000)]).unwrap();
    assert_eq!(batch.num_rows(), 1);
    // timestamp + 5 fields = 6 columns (no tags)
    assert_eq!(batch.num_columns(), 6);

    // Verify schema field types
    assert_eq!(batch.column(0).field.kind, ColumnKind::Int64); // timestamp
    assert_eq!(batch.column(1).field.kind, ColumnKind::Boolean); // f_bool
    assert_eq!(batch.column(2).field.kind, ColumnKind::Float64); // f_f64
    assert_eq!(batch.column(3).field.kind, ColumnKind::Int64); // f_i64
    assert_eq!(batch.column(4).field.kind, ColumnKind::Utf8); // f_str
    assert_eq!(batch.column(5).field.kind, ColumnKind::UInt64); // f_u64
}

#[test]
fn schema_order_is_deterministic() {
    let key = series("cpu", &[("host", "a"), ("dc", "us")]);
    let fields = vec![
        ("z_field", FieldValue::F64(1.0f64.to_bits())),
        ("a_field", FieldValue::F64(2.0f64.to_bits())),
    ];
    let batch = points_to_record_batch(&vec![point(key, fields, 1000)]).unwrap();
    let names: Vec<&str> = (0..5).map(|c| batch.column(c).field.name.as_str()).collect();
    // Order: timestamp, tags sorted, fields sorted
    assert_eq!(names, vec!["timestamp", "dc", "host", "a_field", "z_field"]);
}

#[test]
fn conflicting_types_are_widened() {
    let points = vec![
        point(series("m", &[("a", "1")]), vec![("n", FieldValue::I64(1))], 1),
        point(series("m", &[("b", "2")]), vec![("n", FieldValue::F64(2.5f64.to_bits()))], 2),
        point(series("m", &[]), vec![("t", FieldValue::Bool(true))], 3),
        point(series("m", &[]), vec![("t", FieldValue::U64(4))], 4),
    ];
    let batch = points_to_record_batch(&points).unwrap();
    let n = batch.index_of("n").unwrap();
    assert_eq!(batch.column(n).field.kind, ColumnKind::Float64);
    assert!(matches!(batch.column(n).cells[0], Cell::Float(bits) if bits == 1.0f64.to_bits()));
    assert!(matches!(batch.column(n).cells[1], Cell::Float(bits) if bits == 2.5f64.to_bits()));
    let t = batch.index_of("t").unwrap();
    assert_eq!(batch.column(t).field.kind, ColumnKind::Utf8);
    // A tag that a point does not have is null.
    let a = batch.index_of("a").unwrap();
    assert!(matches!(batch.column(a).cells[1], Cell::Null));
}

#[test]
fn every_storage_type_survives_the_round_trip() {
    let cases: Vec<(ColumnType, Cell, FieldValue)> = vec![
        (
            ColumnType::F64,
            Cell::Float(1.5f64.to_bits()),
            FieldValue::F64(1.5f64.to_bits()),
        ),
        (ColumnType::I64, Cell::Int(i64::MIN), FieldValue::I64(i64::MIN)),
        (ColumnType::U64, Cell::UInt(u64::MAX), FieldValue::U64(u64::MAX)),
        (ColumnType::Bool, Cell::Bool(true), FieldValue::Bool(true)),
        (
            ColumnType::String,
            Cell::Text("s".to_string()),
            FieldValue::String("s".to_string()),
        ),
        (
            ColumnType::Decimal { scale: 4 },
            Cell::Decimal(12_345),
            FieldValue::Decimal { mantissa: 12_345, scale: 4 },
        ),
    ];
    for (ct, cell, want) in cases {
        let got = arrow_cell_to_field_value(column_type_to_arrow(ct), "", &cell).unwrap();
        assert_eq!(format!("{got:?}"), format!("{:?}", Some(want)), "round trip failed for {ct:?}");
    }
}

#[test]
fn a_null_cell_is_absent_not_an_error() {
    assert!(arrow_cell_to_field_value(ColumnKind::Float64, "Float64", &Cell::Null)
        .unwrap()
        .is_none());
}

#[test]
fn a_type_storage_cannot_hold_is_an_error_not_a_silent_drop() {
    let err = arrow_cell_to_field_value(ColumnKind::Other, "Int32", &Cell::Opaque(1)).unwrap_err();
    assert!(err.to_text().contains("Int32"), "the error should name the type: {err:?}");
}

#[test]
fn a_negative_scale_is_an_error_not_a_dropped_column() {
    let kind = ColumnKind::Decimal128 { precision: 10, scale: -2 };
    let err =
        arrow_cell_to_field_value(kind, "Decimal128(10, -2)", &Cell::Decimal(123)).unwrap_err();
    assert!(err.to_text().contains("negative scale"), "the error should say why: {err:?}");
}

#[test]
fn a_decimal_that_is_not_stored_is_an_error() {
    let wide = ColumnKind::Decimal128 { precision: 38, scale: 39 };
    assert_eq!(
        arrow_cell_to_field_value(wide, "", &Cell::Decimal(1)).unwrap_err(),
        QueryError::Validation("decimal cell: the scale is too large".to_string())
    );
    let long = ColumnKind::Decimal128 { precision: 38, scale: 0 };
    assert_eq!(
        arrow_cell_to_field_value(long, "", &Cell::Decimal(i128::MAX)).unwrap_err(),
        QueryError::Validation("decimal cell: the value has too many digits".to_string())
    );
    let mixed = arrow_cell_to_field_value(ColumnKind::Int64, "", &Cell::Bool(true)).unwrap_err();
    assert!(mixed.to_text().contains("disagrees with its own Arrow type"));
}

#[test]
fn a_scale_that_no_column_has_is_read_as_zero() {
    assert_eq!(
        column_type_to_arrow(ColumnType::Decimal { scale: 200 }),
        ColumnKind::Decimal128 { precision: 38, scale: 0 }
    );
    assert_eq!(column_type_to_arrow(ColumnType::Timestamp), ColumnKind::Int64);
}

#[test]
fn integers_are_widened_to_the_nearest_double() {
    let integers: Vec<i64> = vec![
        0,
        1,
        -1,
        3,
        9_007_199_254_740_991,
        9_007_199_254_740_992,
        9_007_199_254_740_993,
        9_007_199_254_740_995,
        -9_007_199_254_740_993,
        18_014_398_509_481_985,
        i64::MAX,
        i64::MAX - 511,
        i64::MAX - 512,
        i64::MIN,
        i64::MIN + 1,
    ];
    for v in integers {
        let points = vec![
            point(series("m", &[]), vec![("n", FieldValue::I64(v))], 1),
            point(series("m", &[]), vec![("n", FieldValue::F64(0.5f64.to_bits()))], 2),
            point(series("m", &[]), vec![("n", FieldValue::U64(v as u64))], 3),
        ];
        let batch = points_to_record_batch(&points).unwrap();
        let n = batch.index_of("n").unwrap();
        let cells = &batch.column(n).cells;
        assert!(matches!(cells[0], Cell::Float(bits) if bits == (v as f64).to_bits()), "{v}");
        assert!(matches!(cells[2], Cell::Float(bits) if bits == (v as u64 as f64).to_bits()), "{v}");
    }
}
