//! Verdicts on row groups.
use chronix::query::encoded_pushdown::{
    conclude, ColumnPredicate, EncodedDomainEvaluator, RowGroupVerdict, ZoneMapOp,
    ZoneMapPredicate, ZoneMapResult,
};

/// What the bounds of a column say about a predicate.
fn zone_map(p: &ColumnPredicate, bounds: (f64, f64)) -> Option<ZoneMapResult> {
    let value = f64::from_bits(p.predicate.value);
    let holds = |x: f64| match p.predicate.op {
        ZoneMapOp::Eq => x == value,
        ZoneMapOp::Lt => x < value,
        ZoneMapOp::Le => x <= value,
        ZoneMapOp::Gt => x > value,
        ZoneMapOp::Ge => x >= value,
    };
    let (min, max) = bounds;
    let inside = min <= value && value <= max;
    Some(if holds(min) && holds(max) {
        ZoneMapResult::AllMatch
    } else if holds(min) || holds(max) || (p.predicate.op == ZoneMapOp::Eq && inside) {
        ZoneMapResult::MaybeMatch
    } else {
        ZoneMapResult::NoneMatch
    })
}

fn make_evaluator(col: &str, op: ZoneMapOp, value: f64) -> EncodedDomainEvaluator {
    EncodedDomainEvaluator::new(vec![ColumnPredicate {
        column: col.to_string(),
        predicate: ZoneMapPredicate { op, value: value.to_bits() },
    }])
}

#[test]
fn skip_when_predicate_excludes() {
    // Predicate: value > 100, row group has max=50
    let eval = make_evaluator("value", ZoneMapOp::Gt, 100.0);
    let verdict = eval.evaluate(|p: &ColumnPredicate| zone_map(p, (10.0, 50.0)));
    assert_eq!(verdict, RowGroupVerdict::Skip);
}

#[test]
fn all_match_when_predicate_fully_satisfied() {
    // Predicate: value > 5, row group has min=10, max=100
    let eval = make_evaluator("value", ZoneMapOp::Gt, 5.0);
    let verdict = eval.evaluate(|p: &ColumnPredicate| zone_map(p, (10.0, 100.0)));
    assert_eq!(verdict, RowGroupVerdict::AllMatch);
}

#[test]
fn decode_when_predicate_partially_matches() {
    // Predicate: value > 50, row group has min=10, max=100
    let eval = make_evaluator("value", ZoneMapOp::Gt, 50.0);
    let verdict = eval.evaluate(|p: &ColumnPredicate| zone_map(p, (10.0, 100.0)));
    assert_eq!(verdict, RowGroupVerdict::Decode);
}

#[test]
fn decode_when_no_stats_available() {
    let eval = make_evaluator("value", ZoneMapOp::Gt, 50.0);
    let verdict = eval.evaluate(|_p: &ColumnPredicate| None);
    assert_eq!(verdict, RowGroupVerdict::Decode);
}

#[test]
fn empty_predicates_returns_decode() {
    let eval = EncodedDomainEvaluator::new(vec![]);
    let verdict = eval.evaluate(|p: &ColumnPredicate| zone_map(p, (10.0, 100.0)));
    assert_eq!(verdict, RowGroupVerdict::Decode);
}

#[test]
fn multiple_predicates_all_match() {
    // value > 5 AND value < 200
    let eval = EncodedDomainEvaluator::new(vec![
        ColumnPredicate {
            column: "value".to_string(),
            predicate: ZoneMapPredicate {
                op: ZoneMapOp::Gt,
                value: 5.0f64.to_bits(),
            },
        },
        ColumnPredicate {
            column: "value".to_string(),
            predicate: ZoneMapPredicate {
                op: ZoneMapOp::Lt,
                value: 200.0f64.to_bits(),
            },
        },
    ]);
    // Row group: [10, 100] - both predicates fully satisfied
    let verdict = eval.evaluate(|p: &ColumnPredicate| zone_map(p, (10.0, 100.0)));
    assert_eq!(verdict, RowGroupVerdict::AllMatch);
}

#[test]
fn multiple_predicates_one_excludes() {
    // value > 5 AND value < 8
    let eval = EncodedDomainEvaluator::new(vec![
        ColumnPredicate {
            column: "value".to_string(),
            predicate: ZoneMapPredicate {
                op: ZoneMapOp::Gt,
                value: 5.0f64.to_bits(),
            },
        },
        ColumnPredicate {
            column: "value".to_string(),
            predicate: ZoneMapPredicate {
                op: ZoneMapOp::Lt,
                value: 8.0f64.to_bits(),
            },
        },
    ]);
    // Row group: [10, 100] - second predicate excludes (min=10 >= 8)
    let verdict = eval.evaluate(|p: &ColumnPredicate| zone_map(p, (10.0, 100.0)));
    assert_eq!(verdict, RowGroupVerdict::Skip);
}

#[test]
fn batch_evaluation() {
    let eval = make_evaluator("value", ZoneMapOp::Gt, 50.0);
    let stats = [
        (10.0, 40.0),  // all below 50 means Skip
        (60.0, 100.0), // all above 50 means AllMatch
        (30.0, 80.0),  // straddles 50 means Decode
    ];
    let verdicts = eval.evaluate_batch(3, |rg: usize, p: &ColumnPredicate| zone_map(p, stats[rg]));
    assert_eq!(verdicts[0], RowGroupVerdict::Skip);
    assert_eq!(verdicts[1], RowGroupVerdict::AllMatch);
    assert_eq!(verdicts[2], RowGroupVerdict::Decode);
}

#[test]
fn skip_entire_sorted_column() {
    // Simulates a segment with sorted column: 5 row groups, each
    // with non-overlapping ranges. Query: value == 75.
    let eval = make_evaluator("value", ZoneMapOp::Eq, 75.0);
    let rg_stats = [
        (0.0, 20.0),   // Skip
        (20.0, 40.0),  // Skip
        (40.0, 60.0),  // Skip
        (60.0, 80.0),  // Decode (75 could be in here)
        (80.0, 100.0), // Skip
    ];
    let verdicts = eval.evaluate_batch(5, |rg: usize, p: &ColumnPredicate| zone_map(p, rg_stats[rg]));
    assert_eq!(
        verdicts
            .iter()
            .filter(|v| **v == RowGroupVerdict::Skip)
            .count(),
        4
    );
    assert_eq!(verdicts[3], RowGroupVerdict::Decode);
}

#[test]
fn evaluation_stops_at_the_first_exclusion() {
    let predicate = |column: &str| ColumnPredicate {
        column: column.to_string(),
        predicate: ZoneMapPredicate { op: ZoneMapOp::Gt, value: 5.0f64.to_bits() },
    };
    let eval = EncodedDomainEvaluator::new(vec![predicate("a"), predicate("b"), predicate("c")]);
    let asked = std::cell::RefCell::new(Vec::new());
    let verdict = eval.evaluate(|p: &ColumnPredicate| {
        asked.borrow_mut().push(p.column.clone());
        zone_map(p, if p.column == "b" { (1.0, 2.0) } else { (6.0, 7.0) })
    });
    assert_eq!(verdict, RowGroupVerdict::Skip);
    assert_eq!(*asked.borrow(), vec!["a".to_string(), "b".to_string()]);
}

#[test]
fn results_are_concluded_from() {
    let all = Some(ZoneMapResult::AllMatch);
    let maybe = Some(ZoneMapResult::MaybeMatch);
    let none = Some(ZoneMapResult::NoneMatch);
    assert_eq!(conclude(&vec![]), RowGroupVerdict::Decode);
    assert_eq!(conclude(&vec![all, all]), RowGroupVerdict::AllMatch);
    assert_eq!(conclude(&vec![all, maybe]), RowGroupVerdict::Decode);
    assert_eq!(conclude(&vec![all, None]), RowGroupVerdict::Decode);
    assert_eq!(conclude(&vec![None, none]), RowGroupVerdict::Skip);
    assert_eq!(conclude(&vec![none, all]), RowGroupVerdict::Skip);
}
