use heliosdb_lite::zone_summary::{
    can_satisfy, evaluate_predicate_against_summary, value_le, value_lt, AnalyzedPredicate, BlockDecision, Histogram,
    HistogramBucket, HyperLogLog, PredicateOp, SummaryMatch, ZoneBounds,
};
use heliosdb_lite::value::Value;
use heliosdb_lite::zone_blocks::{BlockZoneSummary, ColumnZoneSummary, TableZoneSummaries};

fn bounds(min: i64, max: i64, nulls: u64, rows: u64) -> ZoneBounds {
    ZoneBounds { min: Some(Value::Int8(min)), max: Some(Value::Int8(max)), null_count: nulls, row_count: rows }
}

fn pred(op: PredicateOp, v: i64) -> AnalyzedPredicate {
    AnalyzedPredicate { column_name: "c".to_string(), op, value: Value::Int8(v) }
}

#[test]
fn hll_registers_and_counts() {
    let mut hll = HyperLogLog::new(12);
    assert_eq!(hll.precision(), 12);
    assert_eq!(hll.registers().len(), 4096);
    assert!(hll.registers().iter().all(|r| *r == 0));
    hll.add(&Value::Int8(42));
    let after_one: Vec<u8> = hll.registers().to_vec();
    for _ in 0..100 {
        hll.add(&Value::Int8(42));
    }
    assert_eq!(hll.registers().to_vec(), after_one);
    assert_eq!(hll.count(), 101);
    assert_eq!(after_one.iter().filter(|r| **r != 0).count(), 1);
}

#[test]
fn hll_precision_is_clamped() {
    assert_eq!(HyperLogLog::new(0).precision(), 4);
    assert_eq!(HyperLogLog::new(30).precision(), 18);
    assert_eq!(HyperLogLog::new(4).registers().len(), 16);
}

#[test]
fn hll_merge_takes_register_maximum() {
    let mut a = HyperLogLog::new(6);
    let mut b = HyperLogLog::new(6);
    a.add_hash(0);
    b.add_hash(u64::MAX);
    let ra = a.registers().to_vec();
    let rb = b.registers().to_vec();
    a.merge(&b);
    let merged = a.registers().to_vec();
    for i in 0..merged.len() {
        assert_eq!(merged[i], ra[i].max(rb[i]));
    }
    assert_eq!(a.count(), 2);
}

#[test]
fn zone_predicate_matches() {
    let z = bounds(10, 20, 0, 5);
    assert_eq!(evaluate_predicate_against_summary(&pred(PredicateOp::Eq, 5), &z), SummaryMatch::Impossible);
    assert_eq!(evaluate_predicate_against_summary(&pred(PredicateOp::Eq, 15), &z), SummaryMatch::Partial);
    assert_eq!(evaluate_predicate_against_summary(&pred(PredicateOp::Lt, 10), &z), SummaryMatch::Impossible);
    assert_eq!(evaluate_predicate_against_summary(&pred(PredicateOp::Lt, 21), &z), SummaryMatch::Full);
    assert_eq!(evaluate_predicate_against_summary(&pred(PredicateOp::LtEq, 20), &z), SummaryMatch::Full);
    assert_eq!(evaluate_predicate_against_summary(&pred(PredicateOp::Gt, 20), &z), SummaryMatch::Impossible);
    assert_eq!(evaluate_predicate_against_summary(&pred(PredicateOp::GtEq, 10), &z), SummaryMatch::Full);
    assert_eq!(evaluate_predicate_against_summary(&pred(PredicateOp::NotEq, 10), &z), SummaryMatch::Partial);
    assert_eq!(evaluate_predicate_against_summary(&pred(PredicateOp::IsNull, 0), &z), SummaryMatch::Impossible);
    assert_eq!(evaluate_predicate_against_summary(&pred(PredicateOp::IsNotNull, 0), &z), SummaryMatch::Full);
    let all_null = bounds(0, 0, 5, 5);
    assert_eq!(evaluate_predicate_against_summary(&pred(PredicateOp::IsNull, 0), &all_null), SummaryMatch::Full);
}

#[test]
fn test_block_zone_summary_skip() {
    let mut block = BlockZoneSummary::new(0, 0);

    for i in 100..200i64 {
        block.update_on_insert(i as u64, &[("id", &Value::Int8(i))]);
    }

    let pred = AnalyzedPredicate { column_name: "id".to_string(), op: PredicateOp::Eq, value: Value::Int8(50) };

    assert_eq!(block.can_satisfy(&[pred]), BlockDecision::Skip);
}

#[test]
fn column_zone_summary_counts() {
    let mut summary = ColumnZoneSummary::new("test_col");
    for i in 0..100i64 {
        summary.update_incremental(&Value::Int8(i));
    }
    summary.update_incremental(&Value::Null);
    assert_eq!(summary.bounds.row_count, 101);
    assert_eq!(summary.bounds.null_count, 1);
    assert_eq!(summary.bounds.min, Some(Value::Int8(0)));
    assert_eq!(summary.bounds.max, Some(Value::Int8(99)));
    assert_eq!(summary.hll.count(), 100);
}

#[test]
fn block_zone_merge_and_table_candidates() {
    let mut a = BlockZoneSummary::new(0, 0);
    a.update_on_insert(1, &[("x", &Value::Int8(5)), ("y", &Value::Null)]);
    let mut b = BlockZoneSummary::new(0, 0);
    b.update_on_insert(7, &[("x", &Value::Int8(-2)), ("z", &Value::Int8(9))]);
    a.merge(&b);
    assert_eq!(a.row_count, 2);
    assert_eq!(a.last_row_id, 7);
    assert_eq!(a.columns.len(), 3);
    assert_eq!(a.columns[0].column_name, "x");
    assert_eq!(a.columns[0].bounds.row_count, 2);
    assert_eq!(a.columns[0].bounds.min, Some(Value::Int8(-2)));
    assert_eq!(a.columns[0].bounds.max, Some(Value::Int8(5)));
    assert_eq!(a.columns[1].bounds.null_count, 1);
    assert_eq!(a.columns[2].column_name, "z");

    let mut t = TableZoneSummaries::new("t", 10);
    for row in 0..30u64 {
        let v = Value::Int8(row as i64);
        t.on_insert(row, &[("id", &v)]);
    }
    assert_eq!(t.total_rows, 30);
    assert_eq!(t.blocks.len(), 3);
    assert_eq!(t.blocks[2].first_row_id, 20);
    let pred = AnalyzedPredicate { column_name: "id".to_string(), op: PredicateOp::GtEq, value: Value::Int8(15) };
    assert_eq!(t.get_candidate_blocks(&[pred]), vec![1, 2]);
    let idx = t.get_block_for_row(45);
    assert_eq!(idx, 3);
    assert_eq!(t.blocks[3].block_id, 4);
    assert_eq!(t.blocks[3].first_row_id, 40);
}

#[test]
fn zone_block_decisions() {
    let preds = vec![pred(PredicateOp::Gt, 100)];
    assert_eq!(can_satisfy(&preds, &vec![Some(bounds(0, 50, 0, 10))]), BlockDecision::Skip);
    assert_eq!(can_satisfy(&preds, &vec![Some(bounds(0, 150, 0, 10))]), BlockDecision::Scan);
    assert_eq!(can_satisfy(&preds, &vec![Some(bounds(101, 150, 0, 10))]), BlockDecision::FullMatch);
    assert_eq!(can_satisfy(&preds, &vec![None]), BlockDecision::Scan);
}

#[test]
fn zone_bounds_track_min_max_nulls() {
    let mut z = ZoneBounds::new();
    z.update_incremental(&Value::Int8(5));
    z.update_incremental(&Value::Null);
    z.update_incremental(&Value::Int8(-3));
    z.update_incremental(&Value::Int8(9));
    assert_eq!(z.min, Some(Value::Int8(-3)));
    assert_eq!(z.max, Some(Value::Int8(9)));
    assert_eq!(z.null_count, 1);
    assert_eq!(z.row_count, 4);
    z.merge_bound_values(Some(&Value::Int8(-10)), Some(&Value::Int8(2)));
    assert_eq!(z.min, Some(Value::Int8(-10)));
    assert_eq!(z.max, Some(Value::Int8(9)));
}

#[test]
fn zone_value_order() {
    assert!(value_lt(&Value::Int8(1), &Value::Int8(2)));
    assert!(!value_lt(&Value::Int8(2), &Value::Int8(2)));
    assert!(value_le(&Value::Int8(2), &Value::Int8(2)));
    assert!(value_lt(&Value::String("a".to_string()), &Value::String("b".to_string())));
    assert!(!value_lt(&Value::Int8(1), &Value::String("b".to_string())));
}

#[test]
fn histogram_rows_in_range() {
    let mut h = Histogram::new(2);
    assert_eq!(h.rows_in_range(None, None), 0);
    h.buckets.push(HistogramBucket { lower_bound: Value::Int8(0), upper_bound: Value::Int8(9), count: 10, distinct_count: 10 });
    h.buckets.push(HistogramBucket { lower_bound: Value::Int8(10), upper_bound: Value::Int8(19), count: 5, distinct_count: 5 });
    assert_eq!(h.rows_in_range(None, None), 15);
    assert_eq!(h.rows_in_range(Some(&Value::Int8(12)), None), 5);
}

#[test]
fn zone_comparison_with_nulls_is_partial() {
    let z = bounds(1, 5, 1, 3);
    assert_eq!(evaluate_predicate_against_summary(&pred(PredicateOp::Lt, 10), &z), SummaryMatch::Partial);
    assert_eq!(evaluate_predicate_against_summary(&pred(PredicateOp::LtEq, 5), &z), SummaryMatch::Partial);
    assert_eq!(evaluate_predicate_against_summary(&pred(PredicateOp::Gt, 0), &z), SummaryMatch::Partial);
    assert_eq!(evaluate_predicate_against_summary(&pred(PredicateOp::GtEq, 1), &z), SummaryMatch::Partial);
    assert_eq!(evaluate_predicate_against_summary(&pred(PredicateOp::Lt, 1), &z), SummaryMatch::Impossible);
}
