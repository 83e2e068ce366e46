use vstd::prelude::*;
use crate::rational::{Frac, Rat, q_wf, q_eq, q_le, q_lt, q_int, q_add, q_sub, q_mul, q_div,
    lemma_q_eq_trans, lemma_q_add_congr, lemma_q_sub_congr, lemma_q_mul_congr, lemma_q_div_congr,
    lemma_q_div_congr_l, lemma_q_eq_sign, lemma_q_nonzero_num, lemma_q_div_den_nonzero,
    lemma_q_le_lt_trans, lemma_q_ops_wf};
use crate::sums::{vq, all_wf, rats_wf, q_sum, q_dot, lemma_q_sum_wf, lemma_q_dot_wf,
    lemma_q_sum_take_succ, lemma_q_dot_congr, dot_rats};
use crate::descr::{q_mean, q_var, sample_variance, mean, lemma_q_mean_wf, lemma_q_var_wf};
use crate::matrix::Mat;
use crate::error::StatError;

verus! {

/// The sample covariance of two equally long columns, with the `n - 1`
/// divisor.
pub open spec fn q_cov(s1: Seq<Frac>, s2: Seq<Frac>) -> Frac {
    q_div(q_sum(cross_dev_seq(s1, s2)), q_int(s1.len() - 1))
}

/// The elementwise products of deviations from the two means.
pub open spec fn cross_dev_seq(s1: Seq<Frac>, s2: Seq<Frac>) -> Seq<Frac> {
    Seq::new(s1.len(), |i: int| q_mul(q_sub(s1[i], q_mean(s1)), q_sub(s2[i], q_mean(s2))))
}

proof fn lemma_cross_dev_wf(s1: Seq<Frac>, s2: Seq<Frac>)
    requires
        all_wf(s1),
        all_wf(s2),
        s1.len() == s2.len(),
        s1.len() >= 1,
    ensures
        all_wf(cross_dev_seq(s1, s2)),
{
    lemma_q_mean_wf(s1);
    lemma_q_mean_wf(s2);
    assert forall|i: int| 0 <= i < cross_dev_seq(s1, s2).len() implies q_wf(
        #[trigger] cross_dev_seq(s1, s2)[i],
    ) by {
        lemma_q_ops_wf(s1[i], q_mean(s1));
        lemma_q_ops_wf(s2[i], q_mean(s2));
        lemma_q_ops_wf(q_sub(s1[i], q_mean(s1)), q_sub(s2[i], q_mean(s2)));
    }
}

/// The exact sample covariance of two columns.
fn cov_pair(a: &Vec<Rat>, b: &Vec<Rat>) -> (r: Option<Rat>)
    requires
        rats_wf(a@),
        rats_wf(b@),
        a@.len() == b@.len(),
        a@.len() >= 2,
    ensures
        r is Some ==> q_wf(r->0@) && q_eq(r->0@, q_cov(vq(a@), vq(b@))),
{
    let n: usize = a.len();
    let ma: Rat = match mean(a) {
        Ok(z) => z,
        Err(_) => {
            return None;
        },
    };
    let mb: Rat = match mean(b) {
        Ok(z) => z,
        Err(_) => {
            return None;
        },
    };
    let ghost s1: Seq<Frac> = vq(a@);
    let ghost s2: Seq<Frac> = vq(b@);
    proof {
        assert(all_wf(s1));
        assert(all_wf(s2));
        lemma_q_mean_wf(s1);
        lemma_q_mean_wf(s2);
        lemma_cross_dev_wf(s1, s2);
    }
    let mut acc: Rat = Rat::from_int(0);
    let mut i: usize = 0;
    while i < n
        invariant
            0 <= i <= n,
            n == a@.len(),
            n == b@.len(),
            n >= 2,
            rats_wf(a@),
            rats_wf(b@),
            s1 == vq(a@),
            s2 == vq(b@),
            all_wf(s1),
            all_wf(s2),
            all_wf(cross_dev_seq(s1, s2)),
            q_wf(q_mean(s1)),
            q_wf(q_mean(s2)),
            q_wf(ma@),
            q_eq(ma@, q_mean(s1)),
            q_wf(mb@),
            q_eq(mb@, q_mean(s2)),
            q_wf(acc@),
            q_eq(acc@, q_sum(cross_dev_seq(s1, s2).take(i as int))),
        decreases n - i,
    {
        proof {
            assert(all_wf(cross_dev_seq(s1, s2).take(i as int)));
            lemma_q_sum_wf(cross_dev_seq(s1, s2).take(i as int));
        }
        let da: Rat = match a[i].sub(&ma) {
            Some(z) => z,
            None => {
                return None;
            },
        };
        let db: Rat = match b[i].sub(&mb) {
            Some(z) => z,
            None => {
                return None;
            },
        };
        let pr: Rat = match da.mul(&db) {
            Some(z) => z,
            None => {
                return None;
            },
        };
        let acc2: Rat = match acc.add(&pr) {
            Some(z) => z,
            None => {
                return None;
            },
        };
        proof {
            let ghost d1 = q_sub(s1[i as int], q_mean(s1));
            let ghost d2 = q_sub(s2[i as int], q_mean(s2));
            lemma_q_sub_congr(a@[i as int]@, s1[i as int], ma@, q_mean(s1));
            lemma_q_sub_congr(b@[i as int]@, s2[i as int], mb@, q_mean(s2));
            lemma_q_ops_wf(a@[i as int]@, ma@);
            lemma_q_ops_wf(b@[i as int]@, mb@);
            lemma_q_ops_wf(s1[i as int], q_mean(s1));
            lemma_q_ops_wf(s2[i as int], q_mean(s2));
            lemma_q_eq_trans(da@, q_sub(a@[i as int]@, ma@), d1);
            lemma_q_eq_trans(db@, q_sub(b@[i as int]@, mb@), d2);
            lemma_q_mul_congr(da@, d1, db@, d2);
            lemma_q_ops_wf(da@, db@);
            lemma_q_ops_wf(d1, d2);
            lemma_q_eq_trans(pr@, q_mul(da@, db@), q_mul(d1, d2));
            lemma_q_sum_take_succ(cross_dev_seq(s1, s2), i as int);
            assert(all_wf(cross_dev_seq(s1, s2).take(i as int)));
            lemma_q_sum_wf(cross_dev_seq(s1, s2).take(i as int));
            lemma_q_add_congr(
                acc@,
                q_sum(cross_dev_seq(s1, s2).take(i as int)),
                pr@,
                q_mul(d1, d2),
            );
            lemma_q_ops_wf(acc@, pr@);
            lemma_q_ops_wf(q_sum(cross_dev_seq(s1, s2).take(i as int)), q_mul(d1, d2));
            lemma_q_eq_trans(
                acc2@,
                q_add(acc@, pr@),
                q_add(q_sum(cross_dev_seq(s1, s2).take(i as int)), q_mul(d1, d2)),
            );
        }
        acc = acc2;
        i = i + 1;
    }
    proof {
        assert(cross_dev_seq(s1, s2).take(n as int) =~= cross_dev_seq(s1, s2));
    }
    let nm1: Rat = Rat::from_nat(n - 1);
    let c: Rat = match acc.div(&nm1) {
        Some(z) => z,
        None => {
            return None;
        },
    };
    proof {
        assert(!q_eq(nm1@, q_int(0)));
        lemma_q_sum_wf(cross_dev_seq(s1, s2));
        lemma_q_div_congr_l(acc@, q_sum(cross_dev_seq(s1, s2)), nm1@);
        lemma_q_nonzero_num(nm1@);
        lemma_q_div_den_nonzero(acc@, nm1@);
        lemma_q_eq_trans(
            c@,
            q_div(acc@, nm1@),
            q_div(q_sum(cross_dev_seq(s1, s2)), q_int(n as int - 1)),
        );
    }
    Some(c)
}

/// The exact sample covariance matrix of a set of numeric columns.
/// Requires at least two variables and at least two observations.
pub fn covariance_matrix(cols: &Vec<Vec<Rat>>) -> (r: Result<Mat, StatError>)
    requires
        forall|j: int| 0 <= j < cols@.len() ==> rats_wf(#[trigger] cols@[j]@),
    ensures
        (cols@.len() < 2 || exists|j: int|
            0 <= j < cols@.len() && (#[trigger] cols@[j]@).len() != cols@[0]@.len()) <==> (r is Err
            && r->Err_0 == StatError::InputError),
        (cols@.len() >= 2 && (forall|j: int|
            0 <= j < cols@.len() ==> (#[trigger] cols@[j]@).len() == cols@[0]@.len())
            && cols@[0]@.len() < 2) <==> (r is Err && r->Err_0 == StatError::SampleSizeError),
        r is Err ==> r->Err_0 == StatError::InputError || r->Err_0 == StatError::SampleSizeError
            || r->Err_0 == StatError::OverflowError,
        r is Ok ==> r->Ok_0.wf() && r->Ok_0.nrows() == cols@.len() && r->Ok_0.ncols() == cols@.len(),
        r is Ok ==> forall|i: int, j: int|
            0 <= i < cols@.len() && 0 <= j < cols@.len() ==> q_eq(
                #[trigger] r->Ok_0.ent(i, j),
                q_cov(vq(cols@[i]@), vq(cols@[j]@)),
            ),
{
    let k: usize = cols.len();
    let mut ok_len: bool = true;
    let mut j0: usize = 0;
    if k < 2 {
        return Err(StatError::InputError);
    }
    let n: usize = cols[0].len();
    while j0 < k
        invariant
            0 <= j0 <= k,
            k == cols@.len(),
            k >= 2,
            n == cols@[0]@.len(),
            ok_len <==> (forall|j: int|
                0 <= j < j0 as int ==> (#[trigger] cols@[j]@).len() == n as int),
        decreases k - j0,
    {
        if cols[j0].len() != n {
            ok_len = false;
        }
        j0 = j0 + 1;
    }
    if !ok_len {
        return Err(StatError::InputError);
    }
    if n < 2 {
        return Err(StatError::SampleSizeError);
    }
    let mut out_cols: Vec<Vec<Rat>> = Vec::new();
    let mut j: usize = 0;
    while j < k
        invariant
            0 <= j <= k,
            k == cols@.len(),
            k >= 2,
            n >= 2,
            n == cols@[0]@.len(),
            forall|t: int| 0 <= t < cols@.len() ==> rats_wf(#[trigger] cols@[t]@),
            forall|t: int| 0 <= t < cols@.len() ==> (#[trigger] cols@[t]@).len() == n as int,
            out_cols@.len() == j as int,
            forall|t: int|
                0 <= t < j as int ==> (#[trigger] out_cols@[t]@).len() == k as int && rats_wf(
                    out_cols@[t]@,
                ),
            forall|t: int, i: int|
                0 <= t < j as int && 0 <= i < k as int ==> q_eq(
                    (#[trigger] out_cols@[t]@[i])@,
                    q_cov(vq(cols@[i]@), vq(cols@[t]@)),
                ),
        decreases k - j,
    {
        let mut col: Vec<Rat> = Vec::new();
        let mut i: usize = 0;
        while i < k
            invariant
                0 <= i <= k,
                0 <= j < k,
                k == cols@.len(),
                k >= 2,
                n >= 2,
                n == cols@[0]@.len(),
                forall|t: int| 0 <= t < cols@.len() ==> rats_wf(#[trigger] cols@[t]@),
                forall|t: int| 0 <= t < cols@.len() ==> (#[trigger] cols@[t]@).len() == n as int,
                col@.len() == i as int,
                rats_wf(col@),
                forall|t: int|
                    0 <= t < i as int ==> q_eq(
                        (#[trigger] col@[t])@,
                        q_cov(vq(cols@[t]@), vq(cols@[j as int]@)),
                    ),
            decreases k - i,
        {
            let c: Rat = match cov_pair(&cols[i], &cols[j]) {
                Some(z) => z,
                None => {
                    return Err(StatError::OverflowError);
                },
            };
            col.push(c);
            i = i + 1;
        }
        out_cols.push(col);
        j = j + 1;
    }
    let prod_ok: Option<usize> = k.checked_mul(k);
    match prod_ok {
        Some(_) => {
        },
        None => {
            return Err(StatError::OverflowError);
        },
    }
    let m: Mat = match Mat::from_cols(k, &out_cols) {
        Ok(m) => m,
        Err(_) => {
            return Err(StatError::OverflowError);
        },
    };
    Ok(m)
}

/// The exact sample variance of each column, which must all be nonzero:
/// standardization divides by them.  Fails with `ZeroVarianceError`
/// exactly when some column has zero variance.
pub fn screened_variances(cols: &Vec<Vec<Rat>>) -> (r: Result<Vec<Rat>, StatError>)
    requires
        forall|j: int| 0 <= j < cols@.len() ==> rats_wf(#[trigger] cols@[j]@),
        forall|j: int| 0 <= j < cols@.len() ==> (#[trigger] cols@[j]@).len() >= 2,
    ensures
        r is Err ==> r->Err_0 == StatError::ZeroVarianceError || r->Err_0
            == StatError::OverflowError,
        (r is Err && r->Err_0 == StatError::ZeroVarianceError) ==> exists|j: int|
            0 <= j < cols@.len() && q_eq(#[trigger] q_var(vq(cols@[j]@)), q_int(0)),
        r is Ok ==> r->Ok_0@.len() == cols@.len() && rats_wf(r->Ok_0@),
        r is Ok ==> forall|j: int|
            0 <= j < cols@.len() ==> q_eq((#[trigger] r->Ok_0@[j])@, q_var(vq(cols@[j]@))),
        r is Ok ==> forall|j: int|
            0 <= j < cols@.len() ==> !q_eq(#[trigger] q_var(vq(cols@[j]@)), q_int(0)),
{
    let k: usize = cols.len();
    let mut out: Vec<Rat> = Vec::new();
    let mut j: usize = 0;
    while j < k
        invariant
            0 <= j <= k,
            k == cols@.len(),
            forall|t: int| 0 <= t < cols@.len() ==> rats_wf(#[trigger] cols@[t]@),
            forall|t: int| 0 <= t < cols@.len() ==> (#[trigger] cols@[t]@).len() >= 2,
            out@.len() == j as int,
            rats_wf(out@),
            forall|t: int|
                0 <= t < j as int ==> q_eq((#[trigger] out@[t])@, q_var(vq(cols@[t]@))),
            forall|t: int|
                0 <= t < j as int ==> !q_eq(#[trigger] q_var(vq(cols@[t]@)), q_int(0)),
        decreases k - j,
    {
        let v: Rat = match sample_variance(&cols[j]) {
            Ok(z) => z,
            Err(_) => {
                return Err(StatError::OverflowError);
            },
        };
        if v.is_zero() {
            proof {
                assert(all_wf(vq(cols@[j as int]@)));
                lemma_q_var_wf(vq(cols@[j as int]@));
                lemma_q_eq_sign(v@, q_var(vq(cols@[j as int]@)));
            }
            return Err(StatError::ZeroVarianceError);
        }
        proof {
            assert(all_wf(vq(cols@[j as int]@)));
            lemma_q_var_wf(vq(cols@[j as int]@));
            lemma_q_eq_sign(v@, q_var(vq(cols@[j as int]@)));
        }
        let ghost old_out: Seq<Rat> = out@;
        out.push(v);
        proof {
            assert forall|t: int| 0 <= t < j as int + 1 implies q_eq(
                (#[trigger] out@[t])@,
                q_var(vq(cols@[t]@)),
            ) by {
                if t < j as int {
                    assert(out@[t] == old_out[t]);
                    assert(q_eq(old_out[t]@, q_var(vq(cols@[t]@))));
                } else {
                    assert(out@[t] == v);
                }
            }
        }
        j = j + 1;
    }
    Ok(out)
}

/// A permutation of `0 .. vals.len()` that lists the values in
/// descending order: the eigenvalue ordering of a principal component
/// analysis.
pub fn descending_order(vals: &Vec<Rat>) -> (r: Result<Vec<usize>, StatError>)
    requires
        rats_wf(vals@),
    ensures
        r is Err ==> r->Err_0 == StatError::OverflowError,
        r is Ok ==> ({
            let ord = r->Ok_0@;
            &&& ord.len() == vals@.len()
            &&& forall|t: int| 0 <= t < ord.len() ==> (#[trigger] ord[t]) < vals@.len()
            &&& forall|t1: int, t2: int|
                0 <= t1 < t2 < ord.len() ==> (#[trigger] ord[t1]) != (#[trigger] ord[t2])
            &&& forall|t1: int, t2: int|
                0 <= t1 < t2 < ord.len() ==> q_le(
                    vals@[(#[trigger] ord[t2]) as int]@,
                    vals@[(#[trigger] ord[t1]) as int]@,
                )
        }),
{
    let n: usize = vals.len();
    let mut ord: Vec<usize> = Vec::new();
    let mut t: usize = 0;
    while t < n
        invariant
            0 <= t <= n,
            n == vals@.len(),
            rats_wf(vals@),
            ord@.len() == t as int,
            forall|u: int| 0 <= u < ord@.len() ==> (#[trigger] ord@[u]) < t,
            forall|u1: int, u2: int|
                0 <= u1 < u2 < ord@.len() ==> (#[trigger] ord@[u1]) != (#[trigger] ord@[u2]),
            forall|u1: int, u2: int|
                0 <= u1 < u2 < ord@.len() ==> q_le(
                    vals@[(#[trigger] ord@[u2]) as int]@,
                    vals@[(#[trigger] ord@[u1]) as int]@,
                ),
        decreases n - t,
    {
        // Scan for the insertion point: past every entry at least as
        // large as the new value.
        let mut p: usize = 0;
        let mut scanning: bool = true;
        while scanning && p < ord.len()
            invariant
                0 <= p <= ord@.len(),
                t < n,
                n == vals@.len(),
                rats_wf(vals@),
                forall|u: int| 0 <= u < ord@.len() ==> (#[trigger] ord@[u]) < t,
                scanning ==> forall|u: int|
                    0 <= u < p as int ==> q_le(
                        vals@[t as int]@,
                        vals@[(#[trigger] ord@[u]) as int]@,
                    ),
                !scanning ==> p < ord@.len() && q_lt(
                    vals@[(ord@[p as int]) as int]@,
                    vals@[t as int]@,
                ) && (forall|u: int|
                    0 <= u < p as int ==> q_le(
                        vals@[t as int]@,
                        vals@[(#[trigger] ord@[u]) as int]@,
                    )),
            decreases ord@.len() - p + (if scanning { 1int } else { 0int }),
        {
            let oi: usize = ord[p];
            let le_res: Option<bool> = vals[t].le(&vals[oi]);
            match le_res {
                Some(true) => {
                    p = p + 1;
                },
                Some(false) => {
                    scanning = false;
                },
                None => {
                    return Err(StatError::OverflowError);
                },
            }
        }
        let ghost old_ord: Seq<usize> = ord@;
        ord.insert(p, t);
        proof {
            assert forall|u1: int, u2: int| 0 <= u1 < u2 < ord@.len() implies q_le(
                vals@[(#[trigger] ord@[u2]) as int]@,
                vals@[(#[trigger] ord@[u1]) as int]@,
            ) by {
                if u2 < p as int {
                } else if u1 < p as int && u2 == p as int {
                    assert(ord@[u1] == old_ord[u1]);
                } else if u1 < p as int && u2 > p as int {
                    assert(ord@[u2] == old_ord[u2 - 1]);
                } else if u1 == p as int {
                    // The new value strictly exceeds the entry that ended
                    // the scan, and by old sortedness everything after.
                    assert(ord@[u2] == old_ord[u2 - 1]);
                    if u2 - 1 == p as int {
                        assert(q_lt(vals@[(old_ord[p as int]) as int]@, vals@[t as int]@));
                    } else {
                        lemma_q_le_lt_trans(
                            vals@[(old_ord[u2 - 1]) as int]@,
                            vals@[(old_ord[p as int]) as int]@,
                            vals@[t as int]@,
                        );
                    }
                } else {
                    assert(ord@[u1] == old_ord[u1 - 1]);
                    assert(ord@[u2] == old_ord[u2 - 1]);
                }
            }
            assert forall|u1: int, u2: int| 0 <= u1 < u2 < ord@.len() implies (
            #[trigger] ord@[u1]) != (#[trigger] ord@[u2]) by {
                if u1 != p as int && u2 != p as int {
                    if u1 < p as int {
                        assert(ord@[u1] == old_ord[u1]);
                    } else {
                        assert(ord@[u1] == old_ord[u1 - 1]);
                    }
                    if u2 < p as int {
                        assert(ord@[u2] == old_ord[u2]);
                    } else {
                        assert(ord@[u2] == old_ord[u2 - 1]);
                    }
                } else if u1 == p as int {
                    assert(ord@[u2] == old_ord[u2 - 1]);
                } else {
                    assert(ord@[u1] == old_ord[u1]);
                }
            }
        }
        t = t + 1;
    }
    Ok(ord)
}

/// The explained-variance ratios `v_i / n_vars` of sorted eigenvalues
/// of a correlation matrix, and their running (cumulative) sums.
pub fn explained_variance(sorted_vals: &Vec<Rat>, n_vars: usize) -> (r: Result<
    (Vec<Rat>, Vec<Rat>),
    StatError,
>)
    requires
        rats_wf(sorted_vals@),
        n_vars >= 1,
    ensures
        r is Err ==> r->Err_0 == StatError::OverflowError,
        r is Ok ==> ({
            let (ratios, cum) = r->Ok_0;
            &&& ratios@.len() == sorted_vals@.len() && rats_wf(ratios@)
            &&& cum@.len() == sorted_vals@.len() && rats_wf(cum@)
            &&& forall|i: int|
                0 <= i < sorted_vals@.len() ==> q_eq(
                    (#[trigger] ratios@[i])@,
                    q_div(sorted_vals@[i]@, q_int(n_vars as int)),
                )
            &&& forall|i: int|
                0 <= i < sorted_vals@.len() ==> q_eq(
                    (#[trigger] cum@[i])@,
                    q_sum(ratio_seq(sorted_vals@, n_vars as int).take(i + 1)),
                )
        }),
{
    let n: usize = sorted_vals.len();
    let nv: Rat = Rat::from_nat(n_vars);
    let mut ratios: Vec<Rat> = Vec::new();
    let mut cum: Vec<Rat> = Vec::new();
    let mut acc: Rat = Rat::from_int(0);
    let mut i: usize = 0;
    proof {
        assert(!q_eq(nv@, q_int(0))) by (nonlinear_arith)
            requires
                nv@ == q_int(n_vars as int),
                n_vars >= 1,
        ;
        lemma_ratio_seq_wf(sorted_vals@, n_vars as int);
    }
    while i < n
        invariant
            0 <= i <= n,
            n == sorted_vals@.len(),
            n_vars >= 1,
            rats_wf(sorted_vals@),
            nv@ == q_int(n_vars as int),
            all_wf(ratio_seq(sorted_vals@, n_vars as int)),
            ratios@.len() == i as int,
            rats_wf(ratios@),
            cum@.len() == i as int,
            rats_wf(cum@),
            q_wf(acc@),
            q_eq(acc@, q_sum(ratio_seq(sorted_vals@, n_vars as int).take(i as int))),
            forall|t: int|
                0 <= t < i as int ==> q_eq(
                    (#[trigger] ratios@[t])@,
                    q_div(sorted_vals@[t]@, q_int(n_vars as int)),
                ),
            forall|t: int|
                0 <= t < i as int ==> q_eq(
                    (#[trigger] cum@[t])@,
                    q_sum(ratio_seq(sorted_vals@, n_vars as int).take(t + 1)),
                ),
        decreases n - i,
    {
        proof {
            assert(all_wf(ratio_seq(sorted_vals@, n_vars as int).take(i as int)));
            lemma_q_sum_wf(ratio_seq(sorted_vals@, n_vars as int).take(i as int));
        }
        let rt: Rat = match sorted_vals[i].div(&nv) {
            Some(z) => z,
            None => {
                return Err(StatError::OverflowError);
            },
        };
        let acc2: Rat = match acc.add(&rt) {
            Some(z) => z,
            None => {
                return Err(StatError::OverflowError);
            },
        };
        proof {
            let ghost spec_rt = ratio_seq(sorted_vals@, n_vars as int)[i as int];
            assert(spec_rt == q_div(sorted_vals@[i as int]@, q_int(n_vars as int)));
            lemma_q_sum_take_succ(ratio_seq(sorted_vals@, n_vars as int), i as int);
            assert(all_wf(ratio_seq(sorted_vals@, n_vars as int).take(i as int)));
            lemma_q_sum_wf(ratio_seq(sorted_vals@, n_vars as int).take(i as int));
            lemma_q_add_congr(
                acc@,
                q_sum(ratio_seq(sorted_vals@, n_vars as int).take(i as int)),
                rt@,
                spec_rt,
            );
            lemma_q_ops_wf(acc@, rt@);
            lemma_q_ops_wf(
                q_sum(ratio_seq(sorted_vals@, n_vars as int).take(i as int)),
                spec_rt,
            );
            lemma_q_eq_trans(
                acc2@,
                q_add(acc@, rt@),
                q_add(q_sum(ratio_seq(sorted_vals@, n_vars as int).take(i as int)), spec_rt),
            );
        }
        ratios.push(rt);
        cum.push(acc2);
        acc = acc2;
        i = i + 1;
    }
    Ok((ratios, cum))
}

/// The ratio of each value to the variable count.
pub open spec fn ratio_seq(vals: Seq<Rat>, m: int) -> Seq<Frac> {
    Seq::new(vals.len(), |i: int| q_div(vals[i]@, q_int(m)))
}

proof fn lemma_ratio_seq_wf(vals: Seq<Rat>, m: int)
    requires
        rats_wf(vals),
        m >= 1,
    ensures
        all_wf(ratio_seq(vals, m)),
{
    assert forall|i: int| 0 <= i < ratio_seq(vals, m).len() implies q_wf(
        #[trigger] ratio_seq(vals, m)[i],
    ) by {
        assert(vals[i]@.d * m > 0) by (nonlinear_arith)
            requires
                vals[i]@.d > 0,
                m >= 1,
        ;
    }
}

/// One entry of the Varimax target matrix `B = L^3 - L diag(c/p)`,
/// where `c_j` is the sum of squares of column `j` of the loadings and
/// `p` the number of variables.
pub open spec fn varimax_b_ent(l: Mat, i: int, j: int) -> Frac {
    q_sub(
        q_mul(l.ent(i, j), q_mul(l.ent(i, j), l.ent(i, j))),
        q_mul(l.ent(i, j), q_div(q_dot(l.mcol(j), l.mcol(j)), q_int(l.nrows()))),
    )
}

/// Column `j` of the Varimax target matrix.
pub open spec fn varimax_b_col(l: Mat, j: int) -> Seq<Frac> {
    Seq::new(l.nrows() as nat, |i: int| varimax_b_ent(l, i, j))
}

/// The exact Varimax interaction matrix `M = L^T (L^3 - L diag(c/p))`
/// of one rotation step.  The singular value decomposition of `M`,
/// which yields the incremental rotation, is irrational and is the
/// caller's; the caller then applies the rotation with `Mat::mul`.
pub fn varimax_interaction(l: &Mat) -> (r: Result<Mat, StatError>)
    requires
        l.wf(),
        l.nrows() >= 1,
    ensures
        r is Err ==> r->Err_0 == StatError::OverflowError,
        r is Ok ==> r->Ok_0.wf() && r->Ok_0.nrows() == l.ncols() && r->Ok_0.ncols() == l.ncols(),
        r is Ok ==> forall|i: int, j: int|
            0 <= i < l.ncols() && 0 <= j < l.ncols() ==> q_eq(
                #[trigger] r->Ok_0.ent(i, j),
                q_dot(l.mcol(i), varimax_b_col(*l, j)),
            ),
{
    let p: usize = l.rows();
    let kf: usize = l.cols();
    let pr: Rat = Rat::from_nat(p);
    let mut bcols: Vec<Vec<Rat>> = Vec::new();
    let mut j: usize = 0;
    proof {
        assert(!q_eq(pr@, q_int(0))) by (nonlinear_arith)
            requires
                pr@ == q_int(p as int),
                p >= 1,
        ;
    }
    while j < kf
        invariant
            0 <= j <= kf,
            p as int == l.nrows(),
            kf as int == l.ncols(),
            p >= 1,
            l.wf(),
            pr@ == q_int(p as int),
            bcols@.len() == j as int,
            forall|t: int|
                0 <= t < j as int ==> (#[trigger] bcols@[t]@).len() == p as int && rats_wf(
                    bcols@[t]@,
                ),
            forall|t: int, i: int|
                0 <= t < j as int && 0 <= i < p as int ==> q_eq(
                    (#[trigger] bcols@[t]@[i])@,
                    varimax_b_ent(*l, i, t),
                ),
        decreases kf - j,
    {
        let cj: Vec<Rat> = l.col_vec(j);
        proof {
            assert(vq(cj@) =~= l.mcol(j as int));
            l.lemma_col_wf(j as int);
        }
        let csum: Rat = match dot_rats(&cj, &cj) {
            Some(z) => z,
            None => {
                return Err(StatError::OverflowError);
            },
        };
        let alpha: Rat = match csum.div(&pr) {
            Some(z) => z,
            None => {
                return Err(StatError::OverflowError);
            },
        };
        let ghost alpha_spec: Frac = q_div(
            q_dot(l.mcol(j as int), l.mcol(j as int)),
            q_int(p as int),
        );
        proof {
            lemma_q_dot_wf(l.mcol(j as int), l.mcol(j as int));
            lemma_q_div_congr_l(csum@, q_dot(l.mcol(j as int), l.mcol(j as int)), pr@);
            lemma_q_nonzero_num(pr@);
            lemma_q_div_den_nonzero(csum@, pr@);
            lemma_q_eq_trans(alpha@, q_div(csum@, pr@), alpha_spec);
            assert(q_wf(alpha_spec)) by (nonlinear_arith)
                requires
                    q_dot(l.mcol(j as int), l.mcol(j as int)).d > 0,
                    p >= 1,
                    alpha_spec.d == q_dot(l.mcol(j as int), l.mcol(j as int)).d * (p as int),
                    alpha_spec == q_div(
                        q_dot(l.mcol(j as int), l.mcol(j as int)),
                        q_int(p as int),
                    ),
            ;
        }
        let mut col: Vec<Rat> = Vec::new();
        let mut i: usize = 0;
        while i < p
            invariant
                0 <= i <= p,
                0 <= j < kf,
                p as int == l.nrows(),
                kf as int == l.ncols(),
                l.wf(),
                q_wf(alpha@),
                q_wf(alpha_spec),
                q_eq(alpha@, alpha_spec),
                alpha_spec == q_div(q_dot(l.mcol(j as int), l.mcol(j as int)), q_int(p as int)),
                col@.len() == i as int,
                rats_wf(col@),
                forall|t: int|
                    0 <= t < i as int ==> q_eq((#[trigger] col@[t])@, varimax_b_ent(*l, t, j as int)),
            decreases p - i,
        {
            let e: Rat = l.get(i, j);
            let e2: Rat = match e.mul(&e) {
                Some(z) => z,
                None => {
                    return Err(StatError::OverflowError);
                },
            };
            let e3: Rat = match e.mul(&e2) {
                Some(z) => z,
                None => {
                    return Err(StatError::OverflowError);
                },
            };
            let term: Rat = match e.mul(&alpha) {
                Some(z) => z,
                None => {
                    return Err(StatError::OverflowError);
                },
            };
            let b: Rat = match e3.sub(&term) {
                Some(z) => z,
                None => {
                    return Err(StatError::OverflowError);
                },
            };
            proof {
                let ghost ee = l.ent(i as int, j as int);
                l.lemma_ent_wf(i as int, j as int);
                lemma_q_ops_wf(ee, ee);
                lemma_q_mul_congr(e@, ee, e2@, q_mul(ee, ee));
                lemma_q_ops_wf(e@, e2@);
                lemma_q_ops_wf(ee, q_mul(ee, ee));
                lemma_q_ops_wf(ee, ee);
                lemma_q_eq_trans(e3@, q_mul(e@, e2@), q_mul(ee, q_mul(ee, ee)));
                lemma_q_mul_congr(e@, ee, alpha@, alpha_spec);
                lemma_q_ops_wf(e@, alpha@);
                lemma_q_ops_wf(ee, alpha_spec);
                lemma_q_eq_trans(term@, q_mul(e@, alpha@), q_mul(ee, alpha_spec));
                lemma_q_sub_congr(
                    e3@,
                    q_mul(ee, q_mul(ee, ee)),
                    term@,
                    q_mul(ee, alpha_spec),
                );
                lemma_q_ops_wf(e3@, term@);
                lemma_q_ops_wf(q_mul(ee, q_mul(ee, ee)), q_mul(ee, alpha_spec));
                lemma_q_eq_trans(
                    b@,
                    q_sub(e3@, term@),
                    q_sub(q_mul(ee, q_mul(ee, ee)), q_mul(ee, alpha_spec)),
                );
            }
            col.push(b);
            i = i + 1;
        }
        bcols.push(col);
        j = j + 1;
    }
    let prod_ok: Option<usize> = p.checked_mul(kf);
    match prod_ok {
        Some(_) => {
        },
        None => {
            return Err(StatError::OverflowError);
        },
    }
    let bm: Mat = match Mat::from_cols(p, &bcols) {
        Ok(m) => m,
        Err(_) => {
            return Err(StatError::OverflowError);
        },
    };
    let m: Mat = match l.gram_with(&bm) {
        Ok(m) => m,
        Err(_) => {
            return Err(StatError::OverflowError);
        },
    };
    proof {
        assert forall|i: int, j2: int| 0 <= i < l.ncols() && 0 <= j2 < l.ncols() implies q_eq(
            #[trigger] m.ent(i, j2),
            q_dot(l.mcol(i), varimax_b_col(*l, j2)),
        ) by {
            l.lemma_col_wf(i);
            assert forall|t: int| 0 <= t < bm.mcol(j2).len() implies q_wf(#[trigger] bm.mcol(j2)[t])
                && q_eq(bm.mcol(j2)[t], varimax_b_col(*l, j2)[t]) by {
                bm.lemma_ent_wf(t, j2);
                assert(bm.ent(t, j2) == bcols@[j2]@[t]@);
            }
            assert(all_wf(bm.mcol(j2)));
            assert forall|t: int| 0 <= t < varimax_b_col(*l, j2).len() implies q_wf(
                #[trigger] varimax_b_col(*l, j2)[t],
            ) by {
                lemma_varimax_b_wf(*l, t, j2);
            }
            lemma_q_dot_congr(
                l.mcol(i),
                l.mcol(i),
                bm.mcol(j2),
                varimax_b_col(*l, j2),
            );
            lemma_q_dot_wf(l.mcol(i), bm.mcol(j2));
            lemma_q_dot_wf(l.mcol(i), varimax_b_col(*l, j2));
            lemma_q_eq_trans(
                m.ent(i, j2),
                q_dot(l.mcol(i), bm.mcol(j2)),
                q_dot(l.mcol(i), varimax_b_col(*l, j2)),
            );
        }
    }
    Ok(m)
}

proof fn lemma_varimax_b_wf(l: Mat, i: int, j: int)
    requires
        l.wf(),
        0 <= i < l.nrows(),
        0 <= j < l.ncols(),
        l.nrows() >= 1,
    ensures
        q_wf(varimax_b_ent(l, i, j)),
{
    l.lemma_ent_wf(i, j);
    l.lemma_col_wf(j);
    lemma_q_dot_wf(l.mcol(j), l.mcol(j));
    let ee = l.ent(i, j);
    lemma_q_ops_wf(ee, ee);
    lemma_q_ops_wf(ee, q_mul(ee, ee));
    assert(q_dot(l.mcol(j), l.mcol(j)).d * l.nrows() > 0) by (nonlinear_arith)
        requires
            q_dot(l.mcol(j), l.mcol(j)).d > 0,
            l.nrows() >= 1,
    ;
    lemma_q_ops_wf(ee, q_div(q_dot(l.mcol(j), l.mcol(j)), q_int(l.nrows())));
    lemma_q_ops_wf(
        q_mul(ee, q_mul(ee, ee)),
        q_mul(ee, q_div(q_dot(l.mcol(j), l.mcol(j)), q_int(l.nrows()))),
    );
}

/// The usable factor count of a principal-component extraction: the
/// number of leading strictly positive eigenvalues among the first `k`
/// of the descending list.  Requesting more factors than there are
/// variables is an input error; eigenvalues at or below zero are
/// screened out, ending the prefix.
pub fn leading_positive_count(sorted_vals: &Vec<Rat>, k: usize) -> (r: Result<usize, StatError>)
    requires
        rats_wf(sorted_vals@),
    ensures
        (k > sorted_vals@.len()) <==> (r is Err && r->Err_0 == StatError::InputError),
        r is Err ==> r->Err_0 == StatError::InputError,
        r is Ok ==> ({
            let m = r->Ok_0;
            &&& m <= k
            &&& forall|t: int| 0 <= t < m as int ==> q_lt(q_int(0), (#[trigger] sorted_vals@[t])@)
            &&& m < k ==> !q_lt(q_int(0), sorted_vals@[m as int]@)
        }),
{
    if k > sorted_vals.len() {
        return Err(StatError::InputError);
    }
    let mut i: usize = 0;
    while i < k
        invariant
            0 <= i <= k,
            k <= sorted_vals@.len(),
            rats_wf(sorted_vals@),
            forall|t: int| 0 <= t < i as int ==> q_lt(q_int(0), (#[trigger] sorted_vals@[t])@),
        decreases k - i,
    {
        let v: Rat = sorted_vals[i];
        if v.is_neg() || v.is_zero() {
            proof {
                assert(!q_lt(q_int(0), v@)) by (nonlinear_arith)
                    requires
                        v@.d > 0,
                        q_lt(v@, q_int(0)) || q_eq(v@, q_int(0)),
                ;
            }
            return Ok(i);
        }
        proof {
            assert(q_lt(q_int(0), v@)) by (nonlinear_arith)
                requires
                    v@.d > 0,
                    !q_lt(v@, q_int(0)),
                    !q_eq(v@, q_int(0)),
            ;
        }
        i = i + 1;
    }
    Ok(k)
}

} // verus!
