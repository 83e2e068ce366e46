use statcore::rational::Rat;
use statcore::matrix::Mat;
use statcore::solve::{solve_square, invert};
use statcore::levels::{str_lt, distinct_sorted_levels};
use statcore::design::{build_dummy_columns, interaction_columns, assemble_design};
use statcore::descr::{mean, sample_variance};
use statcore::ttest::{welch_from_groups, welch_t_test, paired_t_test, split_two_groups};
use statcore::anova::{one_way_anova, two_way_anova};
use statcore::regression::linear_regression;
use statcore::multivar::{covariance_matrix, screened_variances, descending_order,
    explained_variance, varimax_interaction, leading_positive_count};
use statcore::dataset::{Dataset, Column, ColumnData};
use statcore::error::StatError;
use statrs::distribution::{StudentsT, FisherSnedecor, ContinuousCDF};
use nalgebra::DMatrix;

fn q(n: i64, d: i64) -> Rat {
    Rat::new(n, d).unwrap()
}

fn qi(n: i64) -> Rat {
    Rat::from_int(n)
}

fn qv(vals: &[i64]) -> Vec<Rat> {
    vals.iter().map(|v| qi(*v)).collect()
}

fn sv(vals: &[&str]) -> Vec<String> {
    vals.iter().map(|v| v.to_string()).collect()
}

fn is_exactly(r: &Rat, n: i128, d: i128) -> bool {
    r.numer() == n && r.denom() == d
}

fn to_f64(r: &Rat) -> f64 {
    r.numer() as f64 / r.denom() as f64
}

#[test]
fn rational_reduction_and_ops() {
    assert!(Rat::new(1, 0).is_none());
    let half = q(2, 4);
    assert!(is_exactly(&half, 1, 2));
    let neg = q(3, -6);
    assert!(is_exactly(&neg, -1, 2));
    let s = half.add(&q(1, 3)).unwrap();
    assert!(is_exactly(&s, 5, 6));
    let p = q(2, 3).mul(&q(3, 4)).unwrap();
    assert!(is_exactly(&p, 1, 2));
    let d = q(1, 2).div(&q(3, 4)).unwrap();
    assert!(is_exactly(&d, 2, 3));
    assert!(q(1, 2).div(&qi(0)).is_none());
    let big = Rat::new(i64::MAX, 1).unwrap();
    let sq = big.mul(&big).unwrap();
    assert!(sq.mul(&big).is_none());
}

#[test]
fn mean_and_variance_exact() {
    let v = qv(&[1, 2, 3, 4]);
    let m = mean(&v).unwrap();
    assert!(is_exactly(&m, 5, 2));
    let var = sample_variance(&v).unwrap();
    assert!(is_exactly(&var, 5, 3));
    assert!(matches!(mean(&Vec::new()), Err(StatError::InputError)));
    assert!(matches!(sample_variance(&qv(&[7])), Err(StatError::SampleSizeError)));
}

#[test]
fn variance_overflow_reported() {
    let v = vec![Rat::new(i64::MAX, 1).unwrap(), Rat::new(i64::MAX, 1).unwrap(), Rat::new(
        -i64::MAX,
        1,
    )
        .unwrap()];
    assert!(matches!(sample_variance(&v), Err(StatError::OverflowError)));
}

#[test]
fn string_order_and_levels() {
    assert!(str_lt("a", "b"));
    assert!(!str_lt("b", "a"));
    assert!(str_lt("ab", "b"));
    assert!(str_lt("a", "ab"));
    assert!(!str_lt("a", "a"));
    let lv = distinct_sorted_levels(&sv(&["b", "a", "b", "c", "a"]));
    assert_eq!(lv.len(), 3);
    assert_eq!(lv[0], "a");
    assert_eq!(lv[1], "b");
    assert_eq!(lv[2], "c");
}

#[test]
fn dummy_coding_reference_level() {
    // Levels sort to [a, b, c]; "a" is the reference.
    let values = sv(&["b", "a", "c", "a"]);
    let (cols, lv) = build_dummy_columns(&values);
    assert_eq!(lv.len(), 3);
    assert_eq!(cols.len(), 2);
    // Indicator of "b".
    let expect_b = [1i128, 0, 0, 0];
    let expect_c = [0i128, 0, 1, 0];
    for i in 0..4 {
        assert!(is_exactly(&cols[0][i], expect_b[i], 1));
        assert!(is_exactly(&cols[1][i], expect_c[i], 1));
    }
    // Each non-reference row's dummy block sums to 1; reference rows to 0.
    for i in 0..4 {
        let sum = cols[0][i].add(&cols[1][i]).unwrap();
        let expected: i128 = if values[i] == "a" { 0 } else { 1 };
        assert!(is_exactly(&sum, expected, 1));
    }
    // A single-level factor is degenerate: no columns.
    let (c2, l2) = build_dummy_columns(&sv(&["x", "x"]));
    assert_eq!(l2.len(), 1);
    assert!(c2.is_empty());
}

#[test]
fn design_matrix_column_count() {
    // 1 (intercept) + (k-1) dummies, entries exactly 0/1.
    let (cols, _lv) = build_dummy_columns(&sv(&["b", "a", "c", "a"]));
    let m = assemble_design(4, &cols, true).unwrap();
    assert_eq!(m.rows(), 4);
    assert_eq!(m.cols(), 3);
    for i in 0..4 {
        assert!(is_exactly(&m.get(i, 0), 1, 1));
    }
}

#[test]
fn interaction_columns_are_products() {
    let a = vec![qv(&[1, 0, 1, 0])];
    let b = vec![qv(&[1, 1, 0, 0])];
    let inter = interaction_columns(&a, &b, 4);
    assert_eq!(inter.len(), 1);
    let expect = [1i128, 0, 0, 0];
    for i in 0..4 {
        assert!(is_exactly(&inter[0][i], expect[i], 1));
    }
}

#[test]
fn solve_certified_exact() {
    let a = Mat::new(2, 2, qv(&[2, 1, 1, 3])).unwrap();
    let x = solve_square(&a, &qv(&[3, 5])).unwrap();
    assert!(is_exactly(&x[0], 4, 5));
    assert!(is_exactly(&x[1], 7, 5));
    // A singular system is refused.
    let s = Mat::new(2, 2, qv(&[1, 2, 2, 4])).unwrap();
    assert!(matches!(solve_square(&s, &qv(&[1, 1])), Err(StatError::SingularMatrixError)));
}

#[test]
fn inverse_certified_exact() {
    let a = Mat::new(2, 2, qv(&[2, 1, 1, 3])).unwrap();
    let inv = invert(&a).unwrap();
    // inv = [[3, -1], [-1, 2]] / 5
    assert!(is_exactly(&inv.get(0, 0), 3, 5));
    assert!(is_exactly(&inv.get(0, 1), -1, 5));
    assert!(is_exactly(&inv.get(1, 0), -1, 5));
    assert!(is_exactly(&inv.get(1, 1), 2, 5));
    let prod = a.mul(&inv).unwrap();
    for i in 0..2 {
        for j in 0..2 {
            let e = prod.get(i, j);
            assert!(is_exactly(&e, if i == j { 1 } else { 0 }, 1));
        }
    }
}

#[test]
fn welch_concrete_scenario() {
    // Groups A = [1,2,3], B = [4,5,6].
    let values = qv(&[1, 2, 3, 4, 5, 6]);
    let groups = sv(&["A", "A", "A", "B", "B", "B"]);
    let (lv, w) = welch_t_test(&values, &groups).unwrap();
    assert_eq!(lv[0], "A");
    assert_eq!(lv[1], "B");
    assert_eq!(w.n1, 3);
    assert_eq!(w.n2, 3);
    assert!(is_exactly(&w.mean1, 2, 1));
    assert!(is_exactly(&w.mean2, 5, 1));
    assert!(is_exactly(&w.var1, 1, 1));
    assert!(is_exactly(&w.var2, 1, 1));
    assert!(is_exactly(&w.t_sq, 27, 2));
    assert!(is_exactly(&w.df, 4, 1));
    assert!(is_exactly(&w.pooled_var, 1, 1));
    assert!(is_exactly(&w.d_sq, 9, 1));
    assert!(w.mean1_lt_mean2);
    // t = -sqrt(27/2) = -3.674..., p = 0.0213 from Student's t with df 4.
    let t = -to_f64(&w.t_sq).sqrt();
    assert!((t - (-3.6742)).abs() < 1e-3);
    let dist = StudentsT::new(0.0, 1.0, to_f64(&w.df)).unwrap();
    let p = 2.0 * (1.0 - dist.cdf(t.abs()));
    assert!((p - 0.0213).abs() < 1e-3);
}

#[test]
fn welch_group_count_errors() {
    let values = qv(&[1, 2, 3, 4, 5, 6]);
    let three = sv(&["A", "A", "B", "B", "C", "C"]);
    assert!(matches!(welch_t_test(&values, &three), Err(StatError::DegenerateFactorError)));
    let one = sv(&["A", "A", "A", "A", "A", "A"]);
    assert!(matches!(welch_t_test(&values, &one), Err(StatError::DegenerateFactorError)));
    let small = sv(&["A", "B", "B", "B", "B", "B"]);
    assert!(matches!(welch_t_test(&values, &small), Err(StatError::SampleSizeError)));
    let short = sv(&["A", "B"]);
    assert!(matches!(welch_t_test(&values, &short), Err(StatError::InputError)));
}

#[test]
fn welch_zero_variance_error() {
    let a = qv(&[2, 2, 2]);
    let b = qv(&[5, 5, 5]);
    assert!(matches!(welch_from_groups(&a, &b), Err(StatError::ZeroVarianceError)));
}

#[test]
fn split_groups_in_level_order() {
    let values = qv(&[10, 20, 30, 40]);
    let groups = sv(&["z", "y", "z", "y"]);
    let (lv, g1, g2) = split_two_groups(&values, &groups).unwrap();
    assert_eq!(lv[0], "y");
    assert_eq!(lv[1], "z");
    assert!(is_exactly(&g1[0], 20, 1));
    assert!(is_exactly(&g1[1], 40, 1));
    assert!(is_exactly(&g2[0], 10, 1));
    assert!(is_exactly(&g2[1], 30, 1));
}

#[test]
fn paired_t_concrete() {
    let a = qv(&[1, 2, 3]);
    let b = qv(&[2, 4, 9]);
    let p = paired_t_test(&a, &b).unwrap();
    assert_eq!(p.n, 3);
    assert_eq!(p.df, 2);
    assert!(is_exactly(&p.mean_diff, -3, 1));
    assert!(is_exactly(&p.var_diff, 7, 1));
    assert!(is_exactly(&p.t_sq, 27, 7));
    assert!(is_exactly(&p.d_z_sq, 9, 7));
    assert!(p.mean_diff_neg);
}

#[test]
fn paired_t_errors() {
    assert!(matches!(
        paired_t_test(&qv(&[1, 2]), &qv(&[1, 2, 3])),
        Err(StatError::InputError)
    ));
    assert!(matches!(paired_t_test(&qv(&[1]), &qv(&[2])), Err(StatError::SampleSizeError)));
    // A constant difference has zero variance.
    assert!(matches!(
        paired_t_test(&qv(&[1, 2, 3]), &qv(&[2, 3, 4])),
        Err(StatError::ZeroVarianceError)
    ));
}

#[test]
fn one_way_anova_f_equals_pooled_t_squared() {
    // Balanced two groups with equal variances: F = t^2 (Student's
    // pooled t, which here coincides with Welch's).
    let y = qv(&[1, 2, 3, 4, 5, 6]);
    let groups = sv(&["A", "A", "A", "B", "B", "B"]);
    let a = one_way_anova(&y, &groups).unwrap();
    assert_eq!(a.levels.len(), 2);
    assert_eq!(a.df_between, 1);
    assert_eq!(a.df_within, 4);
    assert!(is_exactly(&a.ss_between, 27, 2));
    assert!(is_exactly(&a.ss_within, 4, 1));
    assert!(is_exactly(&a.f, 27, 2));
    let (_lv, w) = welch_t_test(&y, &groups).unwrap();
    assert!(a.f.eq_val(&w.t_sq).unwrap());
    // F's upper tail from the F distribution.
    let dist = FisherSnedecor::new(1.0, 4.0).unwrap();
    let p = 1.0 - dist.cdf(to_f64(&a.f));
    assert!((p - 0.0213).abs() < 1e-3);
}

#[test]
fn one_way_anova_errors() {
    let y = qv(&[1, 2, 3, 4]);
    assert!(matches!(
        one_way_anova(&y, &sv(&["a", "a", "a", "a"])),
        Err(StatError::DegenerateFactorError)
    ));
    assert!(matches!(one_way_anova(&y, &sv(&["a", "b"])), Err(StatError::InputError)));
    // Groups predicting y perfectly leave zero within-group variance.
    assert!(matches!(
        one_way_anova(&qv(&[1, 1, 2, 2]), &sv(&["a", "a", "b", "b"])),
        Err(StatError::ZeroVarianceError)
    ));
    // More levels than observations can support.
    assert!(matches!(
        one_way_anova(&qv(&[1, 2, 3]), &sv(&["a", "b", "c"])),
        Err(StatError::SampleSizeError)
    ));
}

#[test]
fn two_way_anova_balanced_decomposition() {
    // A balanced orthogonal 2x2 design: the Type II sums of squares add
    // up exactly to the total sum of squares.
    let y = qv(&[0, 2, 2, 4, 4, 6, 6, 8]);
    let ga = sv(&["x", "x", "x", "x", "y", "y", "y", "y"]);
    let gb = sv(&["u", "u", "v", "v", "u", "u", "v", "v"]);
    let a = two_way_anova(&y, &ga, &gb).unwrap();
    assert_eq!(a.df_a, 1);
    assert_eq!(a.df_b, 1);
    assert_eq!(a.df_axb, 1);
    assert_eq!(a.df_error, 4);
    assert!(is_exactly(&a.ss_a, 32, 1));
    assert!(is_exactly(&a.ss_b, 8, 1));
    assert!(is_exactly(&a.ss_axb, 0, 1));
    assert!(is_exactly(&a.ss_error, 8, 1));
    // SS(A) + SS(B) + SS(A:B) + SS(error) == SST for this balanced design.
    let total = a.ss_a.add(&a.ss_b).unwrap().add(&a.ss_axb).unwrap().add(&a.ss_error).unwrap();
    let sst = sample_variance(&y).unwrap().mul(&Rat::from_int(7)).unwrap();
    assert!(total.eq_val(&sst).unwrap());
    assert!(is_exactly(&total, 48, 1));
    assert!(is_exactly(&a.f_a, 16, 1));
    assert!(is_exactly(&a.f_b, 4, 1));
    assert!(is_exactly(&a.f_axb, 0, 1));
}

#[test]
fn two_way_anova_errors() {
    let y = qv(&[1, 2, 3, 4]);
    assert!(matches!(
        two_way_anova(&y, &sv(&["a", "a", "a", "a"]), &sv(&["u", "v", "u", "v"])),
        Err(StatError::DegenerateFactorError)
    ));
    assert!(matches!(
        two_way_anova(&y, &sv(&["a", "b"]), &sv(&["u", "v", "u", "v"])),
        Err(StatError::InputError)
    ));
}

#[test]
fn regression_exact_inference() {
    let y = qv(&[2, 4, 5, 4, 5]);
    let x = vec![qv(&[1, 2, 3, 4, 5])];
    let r = linear_regression(&y, &x).unwrap();
    assert_eq!(r.df_model, 1);
    assert_eq!(r.df_resid, 3);
    assert!(is_exactly(&r.beta[0], 11, 5));
    assert!(is_exactly(&r.beta[1], 3, 5));
    assert!(is_exactly(&r.sse, 12, 5));
    assert!(is_exactly(&r.sst, 6, 1));
    assert!(is_exactly(&r.r2, 3, 5));
    assert!(is_exactly(&r.adj_r2, 7, 15));
    assert!(is_exactly(&r.f, 9, 2));
    assert!(is_exactly(&r.mse, 4, 5));
    assert!(is_exactly(&r.se_sq[1], 2, 25));
    assert!(is_exactly(&r.t_sq[1], 9, 2));
}

#[test]
fn regression_r2_invariant_under_rescaling() {
    // Doubling a predictor leaves R^2, adjusted R^2, F and t^2 exactly
    // unchanged and halves the coefficient.
    let y = qv(&[2, 4, 5, 4, 5]);
    let x1 = vec![qv(&[1, 2, 3, 4, 5])];
    let x2 = vec![qv(&[2, 4, 6, 8, 10])];
    let r1 = linear_regression(&y, &x1).unwrap();
    let r2 = linear_regression(&y, &x2).unwrap();
    assert!(r1.r2.eq_val(&r2.r2).unwrap());
    assert!(r1.adj_r2.eq_val(&r2.adj_r2).unwrap());
    assert!(r1.f.eq_val(&r2.f).unwrap());
    assert!(r1.t_sq[1].eq_val(&r2.t_sq[1]).unwrap());
    assert!(is_exactly(&r2.beta[1], 3, 10));
    let half_b = r1.beta[1].div(&qi(2)).unwrap();
    assert!(half_b.eq_val(&r2.beta[1]).unwrap());
    // The squared standard error rescales by the squared inverse factor.
    let quarter_se = r1.se_sq[1].div(&qi(4)).unwrap();
    assert!(quarter_se.eq_val(&r2.se_sq[1]).unwrap());
}

#[test]
fn regression_collinear_is_singular() {
    // A predictor duplicated as two columns must give
    // SingularMatrixError, never a numeric result.
    let y = qv(&[2, 4, 5, 4, 5]);
    let x = vec![qv(&[1, 2, 3, 4, 5]), qv(&[1, 2, 3, 4, 5])];
    assert!(matches!(linear_regression(&y, &x), Err(StatError::SingularMatrixError)));
}

#[test]
fn regression_errors() {
    let y = qv(&[1, 2, 3]);
    assert!(matches!(linear_regression(&y, &Vec::new()), Err(StatError::InputError)));
    assert!(matches!(
        linear_regression(&y, &vec![qv(&[1, 2])]),
        Err(StatError::InputError)
    ));
    assert!(matches!(
        linear_regression(&y, &vec![qv(&[1, 2, 3]), qv(&[2, 5, 9])]),
        Err(StatError::SampleSizeError)
    ));
    // A constant dependent variable has zero total variance.
    assert!(matches!(
        linear_regression(&qv(&[4, 4, 4, 4, 4]), &vec![qv(&[1, 2, 3, 4, 5])]),
        Err(StatError::ZeroVarianceError)
    ));
}

#[test]
fn covariance_matrix_exact() {
    let cols = vec![qv(&[1, 2, 3]), qv(&[2, 4, 6])];
    let m = covariance_matrix(&cols).unwrap();
    assert!(is_exactly(&m.get(0, 0), 1, 1));
    assert!(is_exactly(&m.get(0, 1), 2, 1));
    assert!(is_exactly(&m.get(1, 0), 2, 1));
    assert!(is_exactly(&m.get(1, 1), 4, 1));
    assert!(matches!(
        covariance_matrix(&vec![qv(&[1, 2, 3])]),
        Err(StatError::InputError)
    ));
}

#[test]
fn zero_variance_screening() {
    let good = vec![qv(&[1, 2, 3]), qv(&[2, 1, 5])];
    let vs = screened_variances(&good).unwrap();
    assert!(is_exactly(&vs[0], 1, 1));
    let bad = vec![qv(&[1, 2, 3]), qv(&[4, 4, 4])];
    assert!(matches!(screened_variances(&bad), Err(StatError::ZeroVarianceError)));
}

#[test]
fn eigenvalue_ordering_and_explained_variance() {
    let vals = vec![q(1, 2), qi(3), qi(-2), qi(3)];
    let ord = descending_order(&vals).unwrap();
    assert_eq!(ord.len(), 4);
    let sorted: Vec<Rat> = ord.iter().map(|i| vals[*i]).collect();
    assert!(is_exactly(&sorted[0], 3, 1));
    assert!(is_exactly(&sorted[1], 3, 1));
    assert!(is_exactly(&sorted[2], 1, 2));
    assert!(is_exactly(&sorted[3], -2, 1));
    let (ratios, cum) = explained_variance(&vec![qi(2), qi(1), qi(1)], 4).unwrap();
    assert!(is_exactly(&ratios[0], 1, 2));
    assert!(is_exactly(&ratios[1], 1, 4));
    assert!(is_exactly(&cum[1], 3, 4));
    assert!(is_exactly(&cum[2], 1, 1));
}

#[test]
fn pca_correlation_eigenvalues_sum_to_variable_count() {
    // Build the correlation matrix from the library's exact covariance
    // and variances, then eigendecompose; the eigenvalues of a
    // correlation matrix sum to the number of variables.
    let cols = vec![qv(&[1, 2, 3, 4, 5]), qv(&[2, 1, 4, 3, 6]), qv(&[1, 3, 2, 5, 4])];
    let cov = covariance_matrix(&cols).unwrap();
    let vars = screened_variances(&cols).unwrap();
    let k = cols.len();
    let mut data: Vec<f64> = Vec::new();
    for i in 0..k {
        for j in 0..k {
            let c = to_f64(&cov.get(i, j));
            let denom = (to_f64(&vars[i]) * to_f64(&vars[j])).sqrt();
            data.push(c / denom);
        }
    }
    let r = DMatrix::from_row_slice(k, k, &data);
    let eig = nalgebra::SymmetricEigen::new(r);
    let sum: f64 = eig.eigenvalues.iter().sum();
    assert!(((sum - k as f64) / k as f64).abs() < 1e-9);
}

#[test]
fn varimax_interaction_exact() {
    // L is the single column [1, 2]: c = 5, alpha = 5/2,
    // B = [1 - 5/2, 8 - 5] = [-3/2, 3], M = L^T B = 9/2.
    let l = Mat::new(2, 1, qv(&[1, 2])).unwrap();
    let m = varimax_interaction(&l).unwrap();
    assert!(is_exactly(&m.get(0, 0), 9, 2));
}

#[test]
fn rotation_preserves_squared_loadings() {
    // An exactly orthonormal rotation preserves the total squared
    // loadings: sum(rotated^2) == sum(unrotated^2).
    let l = Mat::new(3, 2, qv(&[1, 2, 3, 4, 5, 6])).unwrap();
    let r = Mat::new(
        2,
        2,
        vec![q(3, 5), q(4, 5), q(-4, 5), q(3, 5)],
    )
        .unwrap();
    let rotated = l.mul(&r).unwrap();
    let mut before = qi(0);
    let mut after = qi(0);
    for i in 0..3 {
        for j in 0..2 {
            let a = l.get(i, j);
            before = before.add(&a.mul(&a).unwrap()).unwrap();
            let b = rotated.get(i, j);
            after = after.add(&b.mul(&b).unwrap()).unwrap();
        }
    }
    assert!(before.eq_val(&after).unwrap());
    assert!(is_exactly(&before, 91, 1));
}

#[test]
fn dataset_lookup_and_errors() {
    let ds = Dataset::new(vec![
        Column { name: "score".to_string(), data: ColumnData::Numeric(qv(&[1, 2, 3])) },
        Column { name: "group".to_string(), data: ColumnData::Categorical(sv(&["a", "b", "a"])) },
    ])
        .unwrap();
    assert_eq!(ds.n_rows(), 3);
    let score = ds.numeric_column(&"score".to_string()).unwrap();
    assert!(is_exactly(&score[2], 3, 1));
    let group = ds.categorical_column(&"group".to_string()).unwrap();
    assert_eq!(group[1], "b");
    assert!(matches!(
        ds.numeric_column(&"group".to_string()),
        Err(StatError::InputError)
    ));
    assert!(matches!(
        ds.categorical_column(&"missing".to_string()),
        Err(StatError::InputError)
    ));
    let bad = Dataset::new(vec![
        Column { name: "a".to_string(), data: ColumnData::Numeric(qv(&[1, 2])) },
        Column { name: "b".to_string(), data: ColumnData::Numeric(qv(&[1, 2, 3])) },
    ]);
    assert!(matches!(bad, Err(StatError::InputError)));
}

#[test]
fn unbalanced_two_way_documented_behavior() {
    // For unbalanced data the Type II sums of squares need not add to
    // the total sum of squares; the decomposition is still exact.
    let y = qv(&[0, 2, 2, 4, 4, 6, 6, 8, 9]);
    let ga = sv(&["x", "x", "x", "x", "y", "y", "y", "y", "y"]);
    let gb = sv(&["u", "u", "v", "v", "u", "u", "v", "v", "v"]);
    let a = two_way_anova(&y, &ga, &gb).unwrap();
    let total = a.ss_a.add(&a.ss_b).unwrap().add(&a.ss_axb).unwrap().add(&a.ss_error).unwrap();
    let sst = sample_variance(&y).unwrap().mul(&Rat::from_int(8)).unwrap();
    // This particular unbalanced design happens to show the gap.
    assert!(!total.eq_val(&sst).unwrap());
}

#[test]
fn factor_count_guards() {
    // More factors than variables is an input error.
    let vals = vec![qi(3), qi(1), q(1, 2)];
    assert!(matches!(leading_positive_count(&vals, 4), Err(StatError::InputError)));
    // All requested leading eigenvalues positive: the full count.
    assert_eq!(leading_positive_count(&vals, 2).unwrap(), 2);
    // A nonpositive eigenvalue ends the usable prefix.
    let mixed = vec![qi(2), qi(0), qi(-1)];
    assert_eq!(leading_positive_count(&mixed, 3).unwrap(), 1);
    let negs = vec![qi(-2), qi(-3)];
    assert_eq!(leading_positive_count(&negs, 2).unwrap(), 0);
}

#[test]
fn one_way_anova_decomposes_total_sum_of_squares() {
    // The intercept-only residual sum of squares is exactly the total
    // sum of squares, so SS_between + SS_within == SST.
    let y = qv(&[1, 2, 3, 4, 5, 6]);
    let groups = sv(&["A", "A", "A", "B", "B", "B"]);
    let a = one_way_anova(&y, &groups).unwrap();
    assert!(is_exactly(&a.sse0, 35, 2));
    let sst = sample_variance(&y).unwrap().mul(&qi(5)).unwrap();
    assert!(a.sse0.eq_val(&sst).unwrap());
    let total = a.ss_between.add(&a.ss_within).unwrap();
    assert!(total.eq_val(&sst).unwrap());
}
