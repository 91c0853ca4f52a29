use knn_core::{check_order, column_weights, infer_types, knn, record_dist, ColumnType, Error,
    TopK, Value};

fn num(x: i64) -> Value {
    Value::Number(x)
}

fn cat(s: &str) -> Value {
    Value::Category(s.to_string())
}

fn one_col(vals: &[Value]) -> Vec<Vec<Value>> {
    vals.iter().map(|v| vec![v.clone()]).collect()
}

#[test]
fn numeric_mean_and_sd() {
    // population 1,2,3,4,5: mean 3.0, sd sqrt(2) = 1.4142 in fixed point
    let pop = one_col(&[num(10_000), num(20_000), num(30_000), num(40_000), num(50_000)]);
    let ts = infer_types(&pop).unwrap();
    assert_eq!(ts, vec![ColumnType::Numeric { mean: 30_000, sd: 14_142 }]);
}

#[test]
fn mixed_column_detected() {
    let pop = one_col(&[num(35_000), cat("red")]);
    assert_eq!(infer_types(&pop), Err(Error::MixedColumnType { col: 0 }));
}

#[test]
fn mixed_column_reports_first_offender() {
    let pop = vec![
        vec![num(10_000), num(35_000)],
        vec![num(20_000), cat("red")],
    ];
    assert_eq!(infer_types(&pop), Err(Error::MixedColumnType { col: 1 }));
}

#[test]
fn type_inference_ignores_row_order() {
    let rows = [num(10_000), num(30_000), Value::Missing, num(20_000)];
    let pop1 = one_col(&rows);
    let pop2 = one_col(&[rows[3].clone(), rows[1].clone(), rows[0].clone(), rows[2].clone()]);
    assert_eq!(infer_types(&pop1).unwrap(), infer_types(&pop2).unwrap());
}

#[test]
fn categorical_column_counts_distinct_labels() {
    let pop = one_col(&[cat("a"), cat("b"), cat("a"), Value::Missing]);
    let ts = infer_types(&pop).unwrap();
    assert_eq!(ts, vec![ColumnType::Categorical { distinct: 2 }]);
}

#[test]
fn all_missing_column_is_degenerate_categorical() {
    let pop = one_col(&[Value::Missing, Value::Missing]);
    let ts = infer_types(&pop).unwrap();
    assert_eq!(ts, vec![ColumnType::Categorical { distinct: 0 }]);
}

#[test]
fn perfect_correlation_weighs_one() {
    // target 1,0,1,0 against predictor 10,20,10,20: |r| = 1, and both
    // square-roots leave the weight at exactly 1.0
    let tg = vec![num(10_000), num(0), num(10_000), num(0)];
    let pop = one_col(&[num(100_000), num(200_000), num(100_000), num(200_000)]);
    let ts = infer_types(&pop).unwrap();
    let ws = column_weights(&tg, &pop, &ts).unwrap();
    assert_eq!(ws, vec![10_000]);
}

#[test]
fn category_count_mismatch_detected() {
    let tg = vec![num(0), num(10_000)];
    let pop = one_col(&[cat("a"), cat("b")]);
    let ts = vec![ColumnType::Categorical { distinct: 3 }];
    assert_eq!(
        column_weights(&tg, &pop, &ts),
        Err(Error::CategoryCountMismatch { col: 0 })
    );
}

#[test]
fn single_label_column_weighs_zero() {
    let tg = vec![num(0), num(10_000)];
    let pop = one_col(&[cat("a"), cat("a")]);
    let ts = infer_types(&pop).unwrap();
    let ws = column_weights(&tg, &pop, &ts).unwrap();
    assert_eq!(ws, vec![0]);
}

#[test]
fn check_order_sorts_descending_stably() {
    let ws = vec![5, 9, 9, 1];
    assert_eq!(check_order(&ws), vec![1, 2, 0, 3]);
}

#[test]
fn distance_is_symmetric() {
    let ts = vec![
        ColumnType::Numeric { mean: 0, sd: 10_000 },
        ColumnType::Categorical { distinct: 2 },
    ];
    let ws = vec![10_000, 10_000];
    let a = vec![num(20_000), cat("x")];
    let b = vec![num(-10_000), cat("y")];
    let d1 = record_dist(&a, &b, &ts, &ws, None, None, None).unwrap();
    let d2 = record_dist(&b, &a, &ts, &ws, None, None, None).unwrap();
    assert_eq!(d1, d2);
    assert_eq!(d1, 30_000 + 10_000);
}

#[test]
fn missing_field_contributes_nothing() {
    let ts = vec![
        ColumnType::Numeric { mean: 0, sd: 10_000 },
        ColumnType::Categorical { distinct: 2 },
    ];
    let ws = vec![10_000, 10_000];
    let a = vec![num(20_000), Value::Missing];
    let b = vec![num(-10_000), cat("y")];
    assert_eq!(record_dist(&a, &b, &ts, &ws, None, None, None), Ok(30_000));
    let a2 = vec![Value::Missing, Value::Missing];
    assert_eq!(record_dist(&a2, &b, &ts, &ws, None, None, None), Ok(0));
}

#[test]
fn zero_deviation_column_contributes_nothing() {
    let ts = vec![ColumnType::Numeric { mean: 50_000, sd: 0 }];
    let ws = vec![10_000];
    let a = vec![num(50_000)];
    let b = vec![num(90_000)];
    assert_eq!(record_dist(&a, &b, &ts, &ws, None, None, None), Ok(0));
}

#[test]
fn early_exit_returns_excess_partial_sum() {
    let ts = vec![
        ColumnType::Categorical { distinct: 2 },
        ColumnType::Categorical { distinct: 2 },
    ];
    let ws = vec![10_000, 10_000];
    let a = vec![cat("x"), cat("x")];
    let b = vec![cat("y"), cat("y")];
    // the full distance is 20_000; with threshold 5_000 the metric stops
    // after the first column, already over the threshold
    assert_eq!(
        record_dist(&a, &b, &ts, &ws, Some(5_000), None, None),
        Ok(10_000)
    );
    assert_eq!(record_dist(&a, &b, &ts, &ws, None, None, None), Ok(20_000));
}

#[test]
fn type_mismatch_reported() {
    let ts = vec![ColumnType::Categorical { distinct: 2 }];
    let ws = vec![10_000];
    let a = vec![num(10_000)];
    let b = vec![cat("y")];
    assert_eq!(
        record_dist(&a, &b, &ts, &ws, None, None, None),
        Err(Error::TypeMismatch { col: 0 })
    );
    // numbers in a column declared categorical are a mismatch too
    let b2 = vec![num(10_000)];
    assert_eq!(
        record_dist(&a, &b2, &ts, &ws, None, None, None),
        Err(Error::TypeMismatch { col: 0 })
    );
}

#[test]
fn topk_keeps_k_smallest_sorted() {
    let mut t = TopK::new(2);
    assert_eq!(t.worst(), None);
    t.insert(8_798, 0);
    assert_eq!(t.worst(), None);
    t.insert(799, 1);
    assert_eq!(t.worst(), Some(8_798));
    t.insert(7_199, 2);
    assert_eq!(t.worst(), Some(7_199));
    t.insert(15_197, 3);
    assert_eq!(t.entries().as_slice(), &[(1, 799), (2, 7_199)]);
}

#[test]
fn topk_insert_after_equal_distances() {
    let mut t = TopK::new(3);
    t.insert(5, 0);
    t.insert(5, 1);
    t.insert(5, 2);
    assert_eq!(t.entries().as_slice(), &[(0, 5), (1, 5), (2, 5)]);
}

#[test]
fn knn_scenario_single_feature() {
    // features 0,1,2,3 with targets 0,0,1,1; query 1.1 with K = 2 selects
    // the records at 1 and 2, whose targets average to 0.5
    let pop = one_col(&[num(0), num(10_000), num(20_000), num(30_000)]);
    let tg = vec![num(0), num(0), num(10_000), num(10_000)];
    let ts = infer_types(&pop).unwrap();
    let ws = column_weights(&tg, &pop, &ts).unwrap();
    let ord = check_order(&ws);
    let q = vec![num(11_000)];
    let p = knn(&q, &pop, &tg, &ts, &ws, Some(&ord), 2, None).unwrap();
    assert_eq!(p, 5_000);
}

#[test]
fn knn_divides_by_configured_k() {
    // a population smaller than K still divides by K
    let pop = one_col(&[num(0)]);
    let tg = vec![num(10_000)];
    let ts = infer_types(&pop).unwrap();
    let ws = vec![10_000];
    let q = vec![num(0)];
    let p = knn(&q, &pop, &tg, &ts, &ws, None, 2, None).unwrap();
    assert_eq!(p, 5_000);
}

#[test]
fn knn_rejects_non_numeric_target() {
    let pop = one_col(&[num(0)]);
    let tg = vec![cat("bad")];
    let ts = infer_types(&pop).unwrap();
    let ws = vec![10_000];
    let q = vec![num(0)];
    assert_eq!(
        knn(&q, &pop, &tg, &ts, &ws, None, 1, None),
        Err(Error::NonNumericTarget)
    );
}

#[test]
fn knn_query_with_missing_fields() {
    // a partial query: the missing column never penalizes any candidate
    let pop = vec![
        vec![num(0), cat("m")],
        vec![num(10_000), cat("f")],
    ];
    let tg = vec![num(0), num(10_000)];
    let ts = infer_types(&pop).unwrap();
    let ws = vec![10_000, 10_000];
    let q = vec![Value::Missing, cat("f")];
    let p = knn(&q, &pop, &tg, &ts, &ws, None, 1, None).unwrap();
    assert_eq!(p, 10_000);
}

#[test]
fn max_check_limits_inspected_columns() {
    let ts = vec![
        ColumnType::Categorical { distinct: 2 },
        ColumnType::Categorical { distinct: 2 },
    ];
    let ws = vec![10_000, 10_000];
    let a = vec![cat("x"), cat("x")];
    let b = vec![cat("y"), cat("y")];
    assert_eq!(
        record_dist(&a, &b, &ts, &ws, None, None, Some(1)),
        Ok(10_000)
    );
    assert_eq!(record_dist(&a, &b, &ts, &ws, None, None, Some(0)), Ok(0));
}

#[test]
fn check_order_drives_early_exit_first() {
    // the heavier column stands first in the check order, so the metric
    // crosses the threshold on it alone
    let ts = vec![
        ColumnType::Categorical { distinct: 2 },
        ColumnType::Categorical { distinct: 2 },
    ];
    let ws = vec![100, 10_000];
    let ord = check_order(&ws);
    assert_eq!(ord, vec![1, 0]);
    let a = vec![cat("x"), cat("x")];
    let b = vec![cat("y"), cat("y")];
    assert_eq!(
        record_dist(&a, &b, &ts, &ws, Some(5_000), Some(&ord), None),
        Ok(10_000)
    );
}

#[test]
fn perfect_categorical_association_weighs_one() {
    // labels split the target perfectly: the normalized chi-square is 1.0
    // and both square-roots leave the weight at exactly 1.0
    let tg = vec![num(10_000), num(10_000), num(0), num(0)];
    let pop = one_col(&[cat("a"), cat("a"), cat("b"), cat("b")]);
    let ts = infer_types(&pop).unwrap();
    let ws = column_weights(&tg, &pop, &ts).unwrap();
    assert_eq!(ws, vec![10_000]);
}

#[test]
fn independent_categorical_column_weighs_zero() {
    let tg = vec![num(10_000), num(10_000), num(0), num(0)];
    let pop = one_col(&[cat("a"), cat("b"), cat("a"), cat("b")]);
    let ts = infer_types(&pop).unwrap();
    let ws = column_weights(&tg, &pop, &ts).unwrap();
    assert_eq!(ws, vec![0]);
}

#[test]
fn missing_values_form_their_own_category_bucket() {
    // one label plus the missing bucket: the declared count stays 1, and
    // the two buckets split the target perfectly
    let tg = vec![num(10_000), num(0)];
    let pop = one_col(&[cat("a"), Value::Missing]);
    let ts = infer_types(&pop).unwrap();
    assert_eq!(ts, vec![ColumnType::Categorical { distinct: 1 }]);
    let ws = column_weights(&tg, &pop, &ts).unwrap();
    assert_eq!(ws, vec![10_000]);
}

#[test]
fn numeric_weight_never_exceeds_one() {
    // a column whose true deviation sits just at the fixed-point
    // precision: the floored deviation would let the raw coefficient
    // overshoot one, and the cap brings the weight back to exactly 1.0
    let tg = vec![num(0), num(10_000)];
    let pop = one_col(&[num(0), num(3)]);
    let ts = infer_types(&pop).unwrap();
    assert_eq!(ts, vec![ColumnType::Numeric { mean: 1, sd: 1 }]);
    let ws = column_weights(&tg, &pop, &ts).unwrap();
    assert_eq!(ws, vec![10_000]);
}
