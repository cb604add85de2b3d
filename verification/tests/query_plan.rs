//! Building query plans.
use chronix::query::agg_fn::AggFn;
use chronix::query::encoded_pushdown::ZoneMapOp;
use chronix::query::error::QueryError;
use chronix::query::plan::{
    extract_field_predicates, extract_namespace, extract_scan, set_field_predicates,
    FieldPredicate, QueryBuilder, QueryPlan, TimeRange,
};
use chronix::query::window_fn::WindowFn;


#[test]
fn build_simple_scan() {
    let plan = QueryBuilder::new()
        .measurement("cpu")
        .range(100, 200)
        .build()
        .unwrap();

    match plan {
        QueryPlan::Scan {
            measurement,
            time_range,
            ..
        } => {
            assert_eq!(measurement, "cpu");
            assert_eq!(
                time_range,
                TimeRange {
                    start: 100,
                    end: 200
                }
            );
        }
        _ => panic!("expected Scan plan"),
    }
}

#[test]
fn build_with_tags_and_fields() {
    let plan = QueryBuilder::new()
        .measurement("cpu")
        .tag("host", "srv1")
        .tag("dc", "eu")
        .field("usage_idle")
        .field("usage_system")
        .range(100, 200)
        .build()
        .unwrap();

    match plan {
        QueryPlan::Scan {
            tag_filters,
            projection,
            ..
        } => {
            assert_eq!(tag_filters.len(), 2);
            assert_eq!(tag_filters[0].key, "host");
            assert_eq!(tag_filters[0].value, "srv1");
            assert_eq!(projection.len(), 2);
            assert_eq!(projection[0], "usage_idle");
        }
        _ => panic!("expected Scan plan"),
    }
}

#[test]
fn build_aggregate() {
    let plan = QueryBuilder::new()
        .measurement("cpu")
        .range(100, 200)
        .aggregate(AggFn::Avg)
        .group_by(&["host"])
        .build()
        .unwrap();

    assert!(matches!(plan, QueryPlan::Aggregate { .. }));
}

#[test]
fn build_downsample() {
    let plan = QueryBuilder::new()
        .measurement("cpu")
        .range(0, 3_600_000_000_000)
        .downsample(60_000_000_000, AggFn::Avg)
        .build()
        .unwrap();

    assert!(matches!(plan, QueryPlan::Downsample { .. }));
}

#[test]
fn missing_measurement_fails() {
    let err = QueryBuilder::new().range(0, 100).build().unwrap_err();
    assert!(matches!(err, QueryError::Validation(_)));
}

#[test]
fn invalid_time_range_fails() {
    let err = QueryBuilder::new()
        .measurement("cpu")
        .range(200, 100) // start > end
        .build()
        .unwrap_err();
    assert!(matches!(err, QueryError::InvalidTimeRange { .. }));
}

#[test]
fn default_time_range_is_all() {
    let plan = QueryBuilder::new().measurement("cpu").build().unwrap();

    match plan {
        QueryPlan::Scan { time_range, .. } => {
            assert_eq!(time_range.start, i64::MIN);
            assert_eq!(time_range.end, i64::MAX);
        }
        _ => panic!("expected Scan"),
    }
}

#[test]
fn extract_scan_from_aggregate() {
    let plan = QueryBuilder::new()
        .measurement("cpu")
        .range(100, 200)
        .aggregate(AggFn::Sum)
        .build()
        .unwrap();

    let (m, _, _, tr) = extract_scan(&plan).unwrap();
    assert_eq!(m, "cpu");
    assert_eq!(tr.start, 100);
}

#[test]
fn tags_helper() {
    let plan = QueryBuilder::new()
        .measurement("cpu")
        .tags(&[("host", "srv1"), ("dc", "eu")])
        .range(0, 100)
        .build()
        .unwrap();

    match plan {
        QueryPlan::Scan { tag_filters, .. } => {
            assert_eq!(tag_filters.len(), 2);
        }
        _ => panic!("expected Scan"),
    }
}

#[test]
fn fields_helper() {
    let plan = QueryBuilder::new()
        .measurement("cpu")
        .fields(&["a", "b", "c"])
        .range(0, 100)
        .build()
        .unwrap();

    match plan {
        QueryPlan::Scan { projection, .. } => {
            assert_eq!(projection, vec!["a", "b", "c"]);
        }
        _ => panic!("expected Scan"),
    }
}

#[test]
fn combined_downsample_and_aggregate_rejected() {
    let err = QueryBuilder::new()
        .measurement("cpu")
        .range(0, 100)
        .downsample(60_000_000_000, AggFn::Max)
        .aggregate(AggFn::Avg)
        .build()
        .unwrap_err();
    assert!(matches!(err, QueryError::Validation(_)));
}

#[test]
fn build_with_limit() {
    let plan = QueryBuilder::new()
        .measurement("cpu")
        .range(0, 100)
        .limit(10)
        .build()
        .unwrap();

    match plan {
        QueryPlan::Limit { limit, offset, .. } => {
            assert_eq!(limit, 10);
            assert_eq!(offset, 0);
        }
        _ => panic!("expected Limit plan"),
    }
}

#[test]
fn build_with_limit_and_offset() {
    let plan = QueryBuilder::new()
        .measurement("cpu")
        .range(0, 100)
        .limit(20)
        .offset(5)
        .build()
        .unwrap();

    match plan {
        QueryPlan::Limit {
            limit,
            offset,
            source,
        } => {
            assert_eq!(limit, 20);
            assert_eq!(offset, 5);
            assert!(matches!(*source, QueryPlan::Scan { .. }));
        }
        _ => panic!("expected Limit plan"),
    }
}

#[test]
fn limit_wraps_aggregate() {
    let plan = QueryBuilder::new()
        .measurement("cpu")
        .range(0, 100)
        .aggregate(AggFn::Avg)
        .limit(5)
        .build()
        .unwrap();

    match plan {
        QueryPlan::Limit { source, limit, .. } => {
            assert_eq!(limit, 5);
            assert!(matches!(*source, QueryPlan::Aggregate { .. }));
        }
        _ => panic!("expected Limit wrapping Aggregate"),
    }
}

#[test]
fn extract_scan_from_limit() {
    let plan = QueryBuilder::new()
        .measurement("cpu")
        .range(100, 200)
        .limit(10)
        .build()
        .unwrap();

    let (m, _, _, tr) = extract_scan(&plan).unwrap();
    assert_eq!(m, "cpu");
    assert_eq!(tr.start, 100);
}

#[test]
fn offset_without_limit_rejected() {
    // offset without limit is ambiguous and must be rejected.
    let err = QueryBuilder::new()
        .measurement("cpu")
        .range(0, 100)
        .offset(5)
        .build()
        .unwrap_err();

    assert!(
        matches!(err, QueryError::Validation(ref msg) if msg.contains("offset requires a limit")),
        "unexpected error: {err:?}",
    );
}

#[test]
fn offset_with_limit_accepted() {
    let plan = QueryBuilder::new()
        .measurement("cpu")
        .range(0, 100)
        .limit(10)
        .offset(5)
        .build()
        .unwrap();

    assert!(matches!(
        plan,
        QueryPlan::Limit {
            offset: 5,
            limit: 10,
            ..
        }
    ));
}

#[test]
fn namespace_sets_id_and_tag_filter() {
    let plan = QueryBuilder::new()
        .measurement("cpu")
        .range(0, 100)
        .namespace("tenant-a")
        .build()
        .unwrap();

    // Structural namespace_id is set
    assert_eq!(extract_namespace(&plan), Some("tenant-a"));

    // __namespace__ tag filter is injected
    match &plan {
        QueryPlan::Scan {
            tag_filters,
            namespace_id,
            ..
        } => {
            assert_eq!(namespace_id.as_deref(), Some("tenant-a"));
            assert!(tag_filters
                .iter()
                .any(|f| f.key == "__namespace__" && f.value == "tenant-a"));
        }
        _ => panic!("expected Scan"),
    }
}

#[test]
fn namespace_none_by_default() {
    let plan = QueryBuilder::new()
        .measurement("cpu")
        .range(0, 100)
        .build()
        .unwrap();

    assert_eq!(extract_namespace(&plan), None);
}

#[test]
fn namespace_through_aggregate() {
    let plan = QueryBuilder::new()
        .measurement("cpu")
        .range(0, 100)
        .namespace("ns-x")
        .aggregate(AggFn::Sum)
        .group_by(&["host"])
        .build()
        .unwrap();

    assert_eq!(extract_namespace(&plan), Some("ns-x"));
}

#[test]
fn the_last_nanoseconds_end_now() {
    let plan = QueryBuilder::new().measurement("cpu").last_until(30, 100).build().unwrap();
    let (_, _, _, range) = extract_scan(&plan).unwrap();
    assert_eq!(*range, TimeRange { start: 70, end: 100 });

    let plan = QueryBuilder::new().measurement("cpu").last(1_000).build().unwrap();
    let (_, _, _, range) = extract_scan(&plan).unwrap();
    assert_eq!(range.end - range.start, 1_000);
    assert!(range.end > 0);
}

#[test]
fn a_window_wraps_the_scan() {
    let plan = QueryBuilder::new()
        .measurement("cpu")
        .window(WindowFn::RowNumber)
        .window_value_column("usage")
        .window_partition_by(&["host"])
        .build()
        .unwrap();
    assert!(matches!(plan, QueryPlan::Window { .. }));
}

#[test]
fn a_window_reads_the_first_projected_field() {
    let read = |builder: QueryBuilder| match builder.window(WindowFn::Delta).build().unwrap() {
        QueryPlan::Window { value_column, .. } => value_column,
        other => panic!("not a window: {other:?}"),
    };
    let cpu = || QueryBuilder::new().measurement("cpu");
    assert_eq!(read(cpu().field("usage")), "usage");
    assert_eq!(read(cpu().field("usage").field("idle")), "usage");
    assert_eq!(read(cpu().field("usage").window_value_column("idle")), "idle");
    assert_eq!(read(cpu()), "value");
}

#[test]
fn predicates_are_set_and_extracted() {
    let mut plan =
        QueryBuilder::new().measurement("cpu").aggregate(AggFn::Sum).limit(3).build().unwrap();
    assert!(extract_field_predicates(&plan).is_empty());
    set_field_predicates(
        &mut plan,
        vec![FieldPredicate {
            column: "usage".to_string(),
            op: ZoneMapOp::Gt,
            value: 5.0f64.to_bits(),
        }],
    );
    assert_eq!(extract_field_predicates(&plan).len(), 1);
    assert_eq!(extract_field_predicates(&plan)[0].column, "usage");
}

#[test]
fn errors_have_texts() {
    let err = QueryBuilder::new().measurement("cpu").range(200, 100).build().unwrap_err();
    assert_eq!(err.to_text(), "Invalid time range: start (200) > end (100)");
    let err = QueryBuilder::new().measurement("cpu").range(-2, -5).build().unwrap_err();
    assert_eq!(err.to_text(), "Invalid time range: start (-2) > end (-5)");
}

#[test]
fn every_error_has_a_text() {
    let cases = [
        (
            QueryError::MeasurementNotFound("cpu".to_string()),
            "Measurement not found: 'cpu'",
        ),
        (
            QueryError::FieldNotFound { measurement: "cpu".to_string(), field: "x".to_string() },
            "Field 'x' not found in measurement 'cpu'",
        ),
        (QueryError::Validation("no".to_string()), "Query validation error: no"),
        (QueryError::Segment("s".to_string()), "Segment error: s"),
        (QueryError::Arrow("a".to_string()), "Arrow error: a"),
        (QueryError::Index("i".to_string()), "Index error: i"),
        (QueryError::Io("d".to_string()), "I/O error: d"),
        (
            QueryError::QueryMemoryExceeded { requested: 3, allocated: 2, budget: 4 },
            "Query memory budget exceeded: requested 3 bytes, already allocated 2 of 4 bytes",
        ),
    ];
    for (error, text) in cases {
        assert_eq!(error.to_text(), text);
    }
}
