use vstd::prelude::*;
use crate::rational::{Frac, Rat, q_wf, q_eq, q_lt, q_int, q_add, q_sub, q_mul, q_div,
    lemma_q_eq_trans, lemma_q_add_congr, lemma_q_sub_congr, lemma_q_mul_congr, lemma_q_div_congr,
    lemma_q_eq_sign, lemma_q_nonzero_num, lemma_q_div_den_nonzero, lemma_q_ops_wf};
use crate::sums::{vq, all_wf, rats_wf};
use crate::descr::{q_mean, q_var, lemma_q_mean_wf, lemma_q_var_wf, lemma_mean_var_congr, mean,
    sample_variance};
use crate::levels::{strictly_sorted, view_present, distinct_sorted_levels, chars_lt,
    lemma_bytes_lt_irrefl};
use crate::error::StatError;
use vstd::utf8::encode_utf8;

verus! {

/// The variance of one group divided by its size: one summand of the
/// Welch standard error.
pub open spec fn welch_u(s: Seq<Frac>) -> Frac {
    q_div(q_var(s), q_int(s.len() as int))
}

/// The squared standard error of the mean difference in Welch's test.
pub open spec fn welch_se2(s1: Seq<Frac>, s2: Seq<Frac>) -> Frac {
    q_add(welch_u(s1), welch_u(s2))
}

/// The squared Welch t statistic.
pub open spec fn welch_t_sq(s1: Seq<Frac>, s2: Seq<Frac>) -> Frac {
    q_div(
        q_mul(q_sub(q_mean(s1), q_mean(s2)), q_sub(q_mean(s1), q_mean(s2))),
        welch_se2(s1, s2),
    )
}

/// The denominator of the Welch-Satterthwaite degrees of freedom.
pub open spec fn welch_df_den(s1: Seq<Frac>, s2: Seq<Frac>) -> Frac {
    q_add(
        q_div(q_mul(welch_u(s1), welch_u(s1)), q_int(s1.len() - 1)),
        q_div(q_mul(welch_u(s2), welch_u(s2)), q_int(s2.len() - 1)),
    )
}

/// The Welch-Satterthwaite degrees of freedom.
pub open spec fn welch_df(s1: Seq<Frac>, s2: Seq<Frac>) -> Frac {
    q_div(q_mul(welch_se2(s1, s2), welch_se2(s1, s2)), welch_df_den(s1, s2))
}

/// The pooled variance of two groups.
pub open spec fn pooled_var(s1: Seq<Frac>, s2: Seq<Frac>) -> Frac {
    q_div(
        q_add(q_mul(q_int(s1.len() - 1), q_var(s1)), q_mul(q_int(s2.len() - 1), q_var(s2))),
        q_int(s1.len() + s2.len() - 2),
    )
}

/// The squared Cohen's d effect size (pooled standard deviation).
pub open spec fn cohen_d_sq(s1: Seq<Frac>, s2: Seq<Frac>) -> Frac {
    q_div(
        q_mul(q_sub(q_mean(s1), q_mean(s2)), q_sub(q_mean(s1), q_mean(s2))),
        pooled_var(s1, s2),
    )
}

/// The result of Welch's independent two-sample t-test, in exact
/// rationals.  The irrational pieces, `t` itself and the p-value, are
/// the caller's: `t = sign * sqrt(t_sq)` where the sign is negative
/// exactly when `mean1 < mean2`, and the p-value is the two-tailed tail
/// probability of Student's t with `df` degrees of freedom.
pub struct WelchResult {
    pub n1: usize,
    pub n2: usize,
    pub mean1: Rat,
    pub mean2: Rat,
    pub var1: Rat,
    pub var2: Rat,
    pub t_sq: Rat,
    pub df: Rat,
    pub pooled_var: Rat,
    pub d_sq: Rat,
    pub mean1_lt_mean2: bool,
}

/// Welch's t-test over two already separated groups.
pub fn welch_from_groups(a: &Vec<Rat>, b: &Vec<Rat>) -> (r: Result<WelchResult, StatError>)
    requires
        rats_wf(a@),
        rats_wf(b@),
    ensures
        (a@.len() < 2 || b@.len() < 2) <==> (r is Err && r->Err_0 == StatError::SampleSizeError),
        r is Err ==> r->Err_0 == StatError::SampleSizeError || r->Err_0
            == StatError::ZeroVarianceError || r->Err_0 == StatError::OverflowError,
        r is Err && r->Err_0 == StatError::ZeroVarianceError ==> q_eq(
            welch_se2(vq(a@), vq(b@)),
            q_int(0),
        ) || q_eq(welch_df_den(vq(a@), vq(b@)), q_int(0)) || q_eq(
            pooled_var(vq(a@), vq(b@)),
            q_int(0),
        ),
        r is Ok ==> ({
            let w = r->Ok_0;
            let s1 = vq(a@);
            let s2 = vq(b@);
            &&& w.n1 == a@.len()
            &&& w.n2 == b@.len()
            &&& q_wf(w.mean1@) && q_eq(w.mean1@, q_mean(s1))
            &&& q_wf(w.mean2@) && q_eq(w.mean2@, q_mean(s2))
            &&& q_wf(w.var1@) && q_eq(w.var1@, q_var(s1))
            &&& q_wf(w.var2@) && q_eq(w.var2@, q_var(s2))
            &&& q_wf(w.t_sq@) && q_eq(w.t_sq@, welch_t_sq(s1, s2))
            &&& q_wf(w.df@) && q_eq(w.df@, welch_df(s1, s2))
            &&& q_wf(w.pooled_var@) && q_eq(w.pooled_var@, pooled_var(s1, s2))
            &&& q_wf(w.d_sq@) && q_eq(w.d_sq@, cohen_d_sq(s1, s2))
            &&& w.mean1_lt_mean2 == q_lt(q_mean(s1), q_mean(s2))
            &&& !q_eq(welch_se2(s1, s2), q_int(0))
        }),
{
    let n1: usize = a.len();
    let n2: usize = b.len();
    if n1 < 2 || n2 < 2 {
        return Err(StatError::SampleSizeError);
    }
    let ghost s1: Seq<Frac> = vq(a@);
    let ghost s2: Seq<Frac> = vq(b@);
    proof {
        assert(all_wf(s1));
        assert(all_wf(s2));
        lemma_q_mean_wf(s1);
        lemma_q_mean_wf(s2);
        lemma_q_var_wf(s1);
        lemma_q_var_wf(s2);
        lemma_wf_u(s1);
        lemma_wf_u(s2);
        lemma_q_ops_wf(welch_u(s1), welch_u(s2));
    }
    let m1: Rat = match mean(a) {
        Ok(z) => z,
        Err(_) => {
            return Err(StatError::OverflowError);
        },
    };
    let m2: Rat = match mean(b) {
        Ok(z) => z,
        Err(_) => {
            return Err(StatError::OverflowError);
        },
    };
    let v1: Rat = match sample_variance(a) {
        Ok(z) => z,
        Err(_) => {
            return Err(StatError::OverflowError);
        },
    };
    let v2: Rat = match sample_variance(b) {
        Ok(z) => z,
        Err(_) => {
            return Err(StatError::OverflowError);
        },
    };
    // u1 = var1/n1, u2 = var2/n2, se2 = u1 + u2
    let n1r: Rat = Rat::from_nat(n1);
    let n2r: Rat = Rat::from_nat(n2);
    let u1: Rat = match v1.div(&n1r) {
        Some(z) => z,
        None => {
            return Err(StatError::OverflowError);
        },
    };
    let u2: Rat = match v2.div(&n2r) {
        Some(z) => z,
        None => {
            return Err(StatError::OverflowError);
        },
    };
    proof {
        assert(!q_eq(n1r@, q_int(0)));
        assert(!q_eq(n2r@, q_int(0)));
        lemma_q_div_congr(v1@, q_var(s1), n1r@, q_int(n1 as int));
        lemma_q_div_congr(v2@, q_var(s2), n2r@, q_int(n2 as int));
        assert(q_div(v1@, n1r@).d != 0) by (nonlinear_arith)
            requires
                v1@.d > 0,
                q_div(v1@, n1r@).d == v1@.d * n1r@.n,
                n1r@.n == n1 as int,
                n1 >= 2,
        ;
        assert(q_div(v2@, n2r@).d != 0) by (nonlinear_arith)
            requires
                v2@.d > 0,
                q_div(v2@, n2r@).d == v2@.d * n2r@.n,
                n2r@.n == n2 as int,
                n2 >= 2,
        ;
        lemma_q_eq_trans(u1@, q_div(v1@, n1r@), welch_u(s1));
        lemma_q_eq_trans(u2@, q_div(v2@, n2r@), welch_u(s2));
    }
    let se2: Rat = match u1.add(&u2) {
        Some(z) => z,
        None => {
            return Err(StatError::OverflowError);
        },
    };
    proof {
        lemma_q_add_congr(u1@, welch_u(s1), u2@, welch_u(s2));
        lemma_q_ops_wf(u1@, u2@);
        lemma_q_eq_trans(se2@, q_add(u1@, u2@), welch_se2(s1, s2));
    }
    if se2.is_zero() {
        proof {
            lemma_q_eq_sign(se2@, welch_se2(s1, s2));
        }
        return Err(StatError::ZeroVarianceError);
    }
    proof {
        lemma_q_eq_sign(se2@, welch_se2(s1, s2));
    }
    // t^2 = (m1 - m2)^2 / se2
    let md: Rat = match m1.sub(&m2) {
        Some(z) => z,
        None => {
            return Err(StatError::OverflowError);
        },
    };
    let md2: Rat = match md.mul(&md) {
        Some(z) => z,
        None => {
            return Err(StatError::OverflowError);
        },
    };
    let ghost mds: Frac = q_sub(q_mean(s1), q_mean(s2));
    proof {
        lemma_q_sub_congr(m1@, q_mean(s1), m2@, q_mean(s2));
        lemma_q_ops_wf(m1@, m2@);
        lemma_q_ops_wf(q_mean(s1), q_mean(s2));
        lemma_q_eq_trans(md@, q_sub(m1@, m2@), mds);
        lemma_q_mul_congr(md@, mds, md@, mds);
        lemma_q_ops_wf(md@, md@);
        lemma_q_ops_wf(mds, mds);
        lemma_q_eq_trans(md2@, q_mul(md@, md@), q_mul(mds, mds));
    }
    let t_sq: Rat = match md2.div(&se2) {
        Some(z) => z,
        None => {
            return Err(StatError::OverflowError);
        },
    };
    proof {
        lemma_q_div_congr(md2@, q_mul(mds, mds), se2@, welch_se2(s1, s2));
        lemma_q_nonzero_num(se2@);
        lemma_q_div_den_nonzero(md2@, se2@);
        lemma_q_eq_trans(t_sq@, q_div(md2@, se2@), welch_t_sq(s1, s2));
    }
    // Welch-Satterthwaite degrees of freedom
    let u1sq: Rat = match u1.mul(&u1) {
        Some(z) => z,
        None => {
            return Err(StatError::OverflowError);
        },
    };
    let u2sq: Rat = match u2.mul(&u2) {
        Some(z) => z,
        None => {
            return Err(StatError::OverflowError);
        },
    };
    let n1m: Rat = Rat::from_nat(n1 - 1);
    let n2m: Rat = Rat::from_nat(n2 - 1);
    let da: Rat = match u1sq.div(&n1m) {
        Some(z) => z,
        None => {
            return Err(StatError::OverflowError);
        },
    };
    let db: Rat = match u2sq.div(&n2m) {
        Some(z) => z,
        None => {
            return Err(StatError::OverflowError);
        },
    };
    proof {
        assert(!q_eq(n1m@, q_int(0)));
        assert(!q_eq(n2m@, q_int(0)));
        lemma_q_mul_congr(u1@, welch_u(s1), u1@, welch_u(s1));
        lemma_q_mul_congr(u2@, welch_u(s2), u2@, welch_u(s2));
        lemma_q_ops_wf(u1@, u1@);
        lemma_q_ops_wf(u2@, u2@);
        lemma_q_ops_wf(welch_u(s1), welch_u(s1));
        lemma_q_ops_wf(welch_u(s2), welch_u(s2));
        lemma_q_eq_trans(u1sq@, q_mul(u1@, u1@), q_mul(welch_u(s1), welch_u(s1)));
        lemma_q_eq_trans(u2sq@, q_mul(u2@, u2@), q_mul(welch_u(s2), welch_u(s2)));
        lemma_q_div_congr(u1sq@, q_mul(welch_u(s1), welch_u(s1)), n1m@, q_int(n1 as int - 1));
        lemma_q_div_congr(u2sq@, q_mul(welch_u(s2), welch_u(s2)), n2m@, q_int(n2 as int - 1));
        lemma_q_nonzero_num(n1m@);
        lemma_q_nonzero_num(n2m@);
        lemma_q_div_den_nonzero(u1sq@, n1m@);
        lemma_q_div_den_nonzero(u2sq@, n2m@);
        lemma_wf_df_den(s1, s2);
        lemma_q_eq_trans(
            da@,
            q_div(u1sq@, n1m@),
            q_div(q_mul(welch_u(s1), welch_u(s1)), q_int(n1 as int - 1)),
        );
        lemma_q_eq_trans(
            db@,
            q_div(u2sq@, n2m@),
            q_div(q_mul(welch_u(s2), welch_u(s2)), q_int(n2 as int - 1)),
        );
    }
    let dfd: Rat = match da.add(&db) {
        Some(z) => z,
        None => {
            return Err(StatError::OverflowError);
        },
    };
    proof {
        lemma_q_add_congr(
            da@,
            q_div(q_mul(welch_u(s1), welch_u(s1)), q_int(n1 as int - 1)),
            db@,
            q_div(q_mul(welch_u(s2), welch_u(s2)), q_int(n2 as int - 1)),
        );
        lemma_q_ops_wf(da@, db@);
        lemma_wf_df_den(s1, s2);
        lemma_q_eq_trans(dfd@, q_add(da@, db@), welch_df_den(s1, s2));
    }
    if dfd.is_zero() {
        proof {
            lemma_q_eq_sign(dfd@, welch_df_den(s1, s2));
        }
        return Err(StatError::ZeroVarianceError);
    }
    let se2sq: Rat = match se2.mul(&se2) {
        Some(z) => z,
        None => {
            return Err(StatError::OverflowError);
        },
    };
    let df: Rat = match se2sq.div(&dfd) {
        Some(z) => z,
        None => {
            return Err(StatError::OverflowError);
        },
    };
    proof {
        lemma_q_eq_sign(dfd@, welch_df_den(s1, s2));
        lemma_q_mul_congr(se2@, welch_se2(s1, s2), se2@, welch_se2(s1, s2));
        lemma_q_ops_wf(se2@, se2@);
        lemma_q_ops_wf(welch_se2(s1, s2), welch_se2(s1, s2));
        lemma_q_eq_trans(se2sq@, q_mul(se2@, se2@), q_mul(welch_se2(s1, s2), welch_se2(s1, s2)));
        lemma_q_div_congr(
            se2sq@,
            q_mul(welch_se2(s1, s2), welch_se2(s1, s2)),
            dfd@,
            welch_df_den(s1, s2),
        );
        lemma_q_nonzero_num(dfd@);
        lemma_q_div_den_nonzero(se2sq@, dfd@);
        lemma_q_eq_trans(df@, q_div(se2sq@, dfd@), welch_df(s1, s2));
    }
    // Pooled variance and Cohen's d
    let w1: Rat = match n1m.mul(&v1) {
        Some(z) => z,
        None => {
            return Err(StatError::OverflowError);
        },
    };
    let w2: Rat = match n2m.mul(&v2) {
        Some(z) => z,
        None => {
            return Err(StatError::OverflowError);
        },
    };
    let wsum: Rat = match w1.add(&w2) {
        Some(z) => z,
        None => {
            return Err(StatError::OverflowError);
        },
    };
    let nsum: usize = match n1.checked_add(n2) {
        Some(z) => z,
        None => {
            return Err(StatError::OverflowError);
        },
    };
    let ndf: Rat = Rat::from_nat(nsum - 2);
    let pv: Rat = match wsum.div(&ndf) {
        Some(z) => z,
        None => {
            return Err(StatError::OverflowError);
        },
    };
    proof {
        assert(!q_eq(ndf@, q_int(0)));
        lemma_q_mul_congr(n1m@, q_int(n1 as int - 1), v1@, q_var(s1));
        lemma_q_mul_congr(n2m@, q_int(n2 as int - 1), v2@, q_var(s2));
        lemma_q_ops_wf(n1m@, v1@);
        lemma_q_ops_wf(n2m@, v2@);
        lemma_q_ops_wf(q_int(n1 as int - 1), q_var(s1));
        lemma_q_ops_wf(q_int(n2 as int - 1), q_var(s2));
        lemma_q_eq_trans(w1@, q_mul(n1m@, v1@), q_mul(q_int(n1 as int - 1), q_var(s1)));
        lemma_q_eq_trans(w2@, q_mul(n2m@, v2@), q_mul(q_int(n2 as int - 1), q_var(s2)));
        lemma_q_add_congr(
            w1@,
            q_mul(q_int(n1 as int - 1), q_var(s1)),
            w2@,
            q_mul(q_int(n2 as int - 1), q_var(s2)),
        );
        lemma_q_ops_wf(w1@, w2@);
        lemma_q_ops_wf(
            q_mul(q_int(n1 as int - 1), q_var(s1)),
            q_mul(q_int(n2 as int - 1), q_var(s2)),
        );
        lemma_q_eq_trans(
            wsum@,
            q_add(w1@, w2@),
            q_add(q_mul(q_int(n1 as int - 1), q_var(s1)), q_mul(q_int(n2 as int - 1), q_var(s2))),
        );
        lemma_q_div_congr(
            wsum@,
            q_add(q_mul(q_int(n1 as int - 1), q_var(s1)), q_mul(q_int(n2 as int - 1), q_var(s2))),
            ndf@,
            q_int(n1 as int + n2 as int - 2),
        );
        lemma_q_nonzero_num(ndf@);
        lemma_q_div_den_nonzero(wsum@, ndf@);
        lemma_q_eq_trans(pv@, q_div(wsum@, ndf@), pooled_var(s1, s2));
    }
    if pv.is_zero() {
        proof {
            lemma_wf_pooled(s1, s2);
            lemma_q_eq_sign(pv@, pooled_var(s1, s2));
        }
        return Err(StatError::ZeroVarianceError);
    }
    let d_sq: Rat = match md2.div(&pv) {
        Some(z) => z,
        None => {
            return Err(StatError::OverflowError);
        },
    };
    proof {
        lemma_wf_pooled(s1, s2);
        lemma_q_eq_sign(pv@, pooled_var(s1, s2));
        lemma_q_div_congr(md2@, q_mul(mds, mds), pv@, pooled_var(s1, s2));
        lemma_q_nonzero_num(pv@);
        lemma_q_div_den_nonzero(md2@, pv@);
        lemma_q_eq_trans(d_sq@, q_div(md2@, pv@), cohen_d_sq(s1, s2));
    }
    let neg: bool = md.is_neg();
    proof {
        lemma_q_eq_sign(md@, mds);
        assert(q_lt(mds, q_int(0)) <==> q_lt(q_mean(s1), q_mean(s2))) by (nonlinear_arith)
            requires
                q_wf(q_mean(s1)),
                q_wf(q_mean(s2)),
                mds == q_sub(q_mean(s1), q_mean(s2)),
        ;
    }
    Ok(WelchResult {
        n1,
        n2,
        mean1: m1,
        mean2: m2,
        var1: v1,
        var2: v2,
        t_sq,
        df,
        pooled_var: pv,
        d_sq,
        mean1_lt_mean2: neg,
    })
}

proof fn lemma_wf_u(s: Seq<Frac>)
    requires
        all_wf(s),
        s.len() >= 2,
    ensures
        q_wf(welch_u(s)),
{
    lemma_q_var_wf(s);
    assert(q_var(s).d * (s.len() as int) > 0) by (nonlinear_arith)
        requires
            q_var(s).d > 0,
            s.len() >= 2,
    ;
}

proof fn lemma_wf_pooled(s1: Seq<Frac>, s2: Seq<Frac>)
    requires
        all_wf(s1),
        all_wf(s2),
        s1.len() >= 2,
        s2.len() >= 2,
    ensures
        q_wf(pooled_var(s1, s2)),
{
    lemma_q_var_wf(s1);
    lemma_q_var_wf(s2);
    lemma_q_ops_wf(q_int(s1.len() - 1), q_var(s1));
    lemma_q_ops_wf(q_int(s2.len() - 1), q_var(s2));
    lemma_q_ops_wf(
        q_mul(q_int(s1.len() - 1), q_var(s1)),
        q_mul(q_int(s2.len() - 1), q_var(s2)),
    );
    let num = q_add(q_mul(q_int(s1.len() - 1), q_var(s1)), q_mul(q_int(s2.len() - 1), q_var(s2)));
    assert(num.d * (s1.len() + s2.len() - 2) > 0) by (nonlinear_arith)
        requires
            num.d > 0,
            s1.len() >= 2,
            s2.len() >= 2,
    ;
}

proof fn lemma_wf_df_den(s1: Seq<Frac>, s2: Seq<Frac>)
    requires
        all_wf(s1),
        all_wf(s2),
        s1.len() >= 2,
        s2.len() >= 2,
    ensures
        q_wf(welch_df_den(s1, s2)),
        q_wf(q_div(q_mul(welch_u(s1), welch_u(s1)), q_int(s1.len() - 1))),
        q_wf(q_div(q_mul(welch_u(s2), welch_u(s2)), q_int(s2.len() - 1))),
{
    lemma_wf_u(s1);
    lemma_wf_u(s2);
    lemma_q_ops_wf(welch_u(s1), welch_u(s1));
    lemma_q_ops_wf(welch_u(s2), welch_u(s2));
    assert(q_mul(welch_u(s1), welch_u(s1)).d * (s1.len() - 1) > 0) by (nonlinear_arith)
        requires
            q_mul(welch_u(s1), welch_u(s1)).d > 0,
            s1.len() >= 2,
    ;
    assert(q_mul(welch_u(s2), welch_u(s2)).d * (s2.len() - 1) > 0) by (nonlinear_arith)
        requires
            q_mul(welch_u(s2), welch_u(s2)).d > 0,
            s2.len() >= 2,
    ;
    lemma_q_ops_wf(
        q_div(q_mul(welch_u(s1), welch_u(s1)), q_int(s1.len() - 1)),
        q_div(q_mul(welch_u(s2), welch_u(s2)), q_int(s2.len() - 1)),
    );
}

/// The result of a paired t-test, in exact rationals: `t = sign *
/// sqrt(t_sq)` with a negative sign exactly when the mean difference is
/// negative, `df = n - 1`, and the effect size is `d_z = sqrt(d_z_sq)`.
pub struct PairedResult {
    pub n: usize,
    pub mean_diff: Rat,
    pub var_diff: Rat,
    pub t_sq: Rat,
    pub df: usize,
    pub d_z_sq: Rat,
    pub mean_diff_neg: bool,
}

/// The elementwise differences of two paired samples.
pub open spec fn diff_seq(a: Seq<Rat>, b: Seq<Rat>) -> Seq<Frac> {
    Seq::new(a.len(), |i: int| q_sub(vq(a)[i], vq(b)[i]))
}

/// The squared paired t statistic: `mean(d)^2 / (var(d) / n)`.
pub open spec fn paired_t_sq(d: Seq<Frac>) -> Frac {
    q_div(q_mul(q_mean(d), q_mean(d)), q_div(q_var(d), q_int(d.len() as int)))
}

/// The paired t-test on two equally long numeric samples.
pub fn paired_t_test(a: &Vec<Rat>, b: &Vec<Rat>) -> (r: Result<PairedResult, StatError>)
    requires
        rats_wf(a@),
        rats_wf(b@),
    ensures
        (a@.len() != b@.len()) <==> (r is Err && r->Err_0 == StatError::InputError),
        (a@.len() == b@.len() && a@.len() < 2) <==> (r is Err && r->Err_0
            == StatError::SampleSizeError),
        r is Err ==> r->Err_0 == StatError::InputError || r->Err_0 == StatError::SampleSizeError
            || r->Err_0 == StatError::ZeroVarianceError || r->Err_0 == StatError::OverflowError,
        r is Err && r->Err_0 == StatError::ZeroVarianceError ==> q_eq(
            q_var(diff_seq(a@, b@)),
            q_int(0),
        ),
        r is Ok ==> ({
            let p = r->Ok_0;
            let d = diff_seq(a@, b@);
            &&& p.n == a@.len()
            &&& p.df == a@.len() - 1
            &&& q_wf(p.mean_diff@) && q_eq(p.mean_diff@, q_mean(d))
            &&& q_wf(p.var_diff@) && q_eq(p.var_diff@, q_var(d))
            &&& q_wf(p.t_sq@) && q_eq(p.t_sq@, paired_t_sq(d))
            &&& q_wf(p.d_z_sq@) && q_eq(p.d_z_sq@, q_div(paired_t_sq(d), q_int(d.len() as int)))
            &&& p.mean_diff_neg == q_lt(q_mean(d), q_int(0))
            &&& !q_eq(q_var(d), q_int(0))
        }),
{
    let n: usize = a.len();
    if b.len() != n {
        return Err(StatError::InputError);
    }
    if n < 2 {
        return Err(StatError::SampleSizeError);
    }
    let ghost ds: Seq<Frac> = diff_seq(a@, b@);
    // The computed difference vector, elementwise exact.
    let mut dv: Vec<Rat> = Vec::new();
    let mut i: usize = 0;
    while i < n
        invariant
            0 <= i <= n,
            n == a@.len(),
            n == b@.len(),
            n >= 2,
            rats_wf(a@),
            rats_wf(b@),
            ds == diff_seq(a@, b@),
            dv@.len() == i as int,
            rats_wf(dv@),
            forall|t: int| 0 <= t < i as int ==> q_eq((#[trigger] dv@[t])@, ds[t]),
        decreases n - i,
    {
        let d: Rat = match a[i].sub(&b[i]) {
            Some(z) => z,
            None => {
                return Err(StatError::OverflowError);
            },
        };
        dv.push(d);
        i = i + 1;
    }
    proof {
        assert(all_wf(ds)) by {
            assert forall|t: int| 0 <= t < ds.len() implies q_wf(#[trigger] ds[t]) by {
                lemma_q_ops_wf(vq(a@)[t], vq(b@)[t]);
            }
        }
        assert(all_wf(vq(dv@)));
        lemma_mean_var_congr(vq(dv@), ds);
    }
    let md: Rat = match mean(&dv) {
        Ok(z) => z,
        Err(_) => {
            return Err(StatError::OverflowError);
        },
    };
    let vd: Rat = match sample_variance(&dv) {
        Ok(z) => z,
        Err(_) => {
            return Err(StatError::OverflowError);
        },
    };
    proof {
        lemma_q_mean_wf(ds);
        lemma_q_var_wf(ds);
        lemma_q_mean_wf(vq(dv@));
        lemma_q_var_wf(vq(dv@));
        lemma_q_eq_trans(md@, q_mean(vq(dv@)), q_mean(ds));
        lemma_q_eq_trans(vd@, q_var(vq(dv@)), q_var(ds));
    }
    if vd.is_zero() {
        proof {
            lemma_q_eq_sign(vd@, q_var(ds));
        }
        return Err(StatError::ZeroVarianceError);
    }
    proof {
        lemma_q_eq_sign(vd@, q_var(ds));
    }
    let nr: Rat = Rat::from_nat(n);
    let sem2: Rat = match vd.div(&nr) {
        Some(z) => z,
        None => {
            return Err(StatError::OverflowError);
        },
    };
    let md2: Rat = match md.mul(&md) {
        Some(z) => z,
        None => {
            return Err(StatError::OverflowError);
        },
    };
    proof {
        assert(!q_eq(nr@, q_int(0)));
        lemma_q_div_congr(vd@, q_var(ds), nr@, q_int(n as int));
        lemma_q_nonzero_num(nr@);
        lemma_q_div_den_nonzero(vd@, nr@);
        lemma_q_eq_trans(sem2@, q_div(vd@, nr@), q_div(q_var(ds), q_int(n as int)));
        lemma_q_mul_congr(md@, q_mean(ds), md@, q_mean(ds));
        lemma_q_ops_wf(md@, md@);
        lemma_q_ops_wf(q_mean(ds), q_mean(ds));
        lemma_q_eq_trans(md2@, q_mul(md@, md@), q_mul(q_mean(ds), q_mean(ds)));
        // var(d)/n is nonzero since var(d) is
        assert(!q_eq(q_div(q_var(ds), q_int(n as int)), q_int(0))) by (nonlinear_arith)
            requires
                q_wf(q_var(ds)),
                !q_eq(q_var(ds), q_int(0)),
                n >= 2,
                q_div(q_var(ds), q_int(n as int)) == (Frac {
                    n: q_var(ds).n * 1,
                    d: q_var(ds).d * (n as int),
                }),
        ;
        assert(q_wf(q_div(q_var(ds), q_int(n as int)))) by (nonlinear_arith)
            requires
                q_var(ds).d > 0,
                n >= 2,
                q_div(q_var(ds), q_int(n as int)).d == q_var(ds).d * (n as int),
        ;
        lemma_q_eq_sign(sem2@, q_div(q_var(ds), q_int(n as int)));
    }
    let t_sq: Rat = match md2.div(&sem2) {
        Some(z) => z,
        None => {
            return Err(StatError::OverflowError);
        },
    };
    proof {
        lemma_q_div_congr(
            md2@,
            q_mul(q_mean(ds), q_mean(ds)),
            sem2@,
            q_div(q_var(ds), q_int(n as int)),
        );
        lemma_q_nonzero_num(sem2@);
        lemma_q_div_den_nonzero(md2@, sem2@);
        lemma_q_eq_trans(t_sq@, q_div(md2@, sem2@), paired_t_sq(ds));
    }
    let dz: Rat = match t_sq.div(&nr) {
        Some(z) => z,
        None => {
            return Err(StatError::OverflowError);
        },
    };
    proof {
        crate::rational::lemma_q_div_congr_l(t_sq@, paired_t_sq(ds), q_int(n as int));
        assert(q_div(t_sq@, q_int(n as int)).d != 0) by (nonlinear_arith)
            requires
                t_sq@.d > 0,
                n >= 2,
                q_div(t_sq@, q_int(n as int)).d == t_sq@.d * (n as int),
        ;
        assert(nr@ == q_int(n as int));
        lemma_q_eq_trans(dz@, q_div(t_sq@, q_int(n as int)), q_div(paired_t_sq(ds), q_int(n as int)));
    }
    let neg: bool = md.is_neg();
    proof {
        lemma_q_eq_sign(md@, q_mean(ds));
    }
    Ok(PairedResult {
        n,
        mean_diff: md,
        var_diff: vd,
        t_sq,
        df: n - 1,
        d_z_sq: dz,
        mean_diff_neg: neg,
    })
}

/// The values of the observations that carry the given group level.
pub open spec fn group_vals(values: Seq<Rat>, groups: Seq<String>, level: Seq<char>) -> Seq<Rat>
    decreases values.len(),
{
    if values.len() == 0 || groups.len() == 0 {
        Seq::empty()
    } else if groups.last()@ == level {
        group_vals(values.drop_last(), groups.drop_last(), level).push(values.last())
    } else {
        group_vals(values.drop_last(), groups.drop_last(), level)
    }
}

/// `a` and `b` are two distinct values that together cover the whole
/// grouping column, and each occurs.
pub open spec fn pair_covers(groups: Seq<String>, a: Seq<char>, b: Seq<char>) -> bool {
    &&& a != b
    &&& forall|i: int| 0 <= i < groups.len() ==> (#[trigger] groups[i])@ == a || groups[i]@ == b
    &&& exists|i: int| 0 <= i < groups.len() && (#[trigger] groups[i])@ == a
    &&& exists|i: int| 0 <= i < groups.len() && (#[trigger] groups[i])@ == b
}

/// The grouping column has exactly two distinct values.
pub open spec fn exactly_two_levels(groups: Seq<String>) -> bool {
    exists|p: (Seq<char>, Seq<char>)| #[trigger] pair_covers(groups, p.0, p.1)
}

/// The two distinct values of such a column, in ascending order.
pub open spec fn sorted_level_pair(groups: Seq<String>) -> (Seq<char>, Seq<char>) {
    choose|p: (Seq<char>, Seq<char>)| #[trigger] pair_covers(groups, p.0, p.1) && chars_lt(p.0, p.1)
}

proof fn lemma_chars_lt_ne(a: Seq<char>, b: Seq<char>)
    requires
        chars_lt(a, b),
    ensures
        a != b,
{
    if a == b {
        lemma_bytes_lt_irrefl(encode_utf8(a));
    }
}

proof fn lemma_pair_unique(groups: Seq<String>, a: Seq<char>, b: Seq<char>)
    requires
        pair_covers(groups, a, b),
        chars_lt(a, b),
    ensures
        sorted_level_pair(groups) == (a, b),
{
    let w: (Seq<char>, Seq<char>) = (a, b);
    assert(w.0 == a && w.1 == b);
    assert(pair_covers(groups, w.0, w.1) && chars_lt(w.0, w.1));
    let p = sorted_level_pair(groups);
    assert(pair_covers(groups, p.0, p.1) && chars_lt(p.0, p.1));
    let a2 = p.0;
    let b2 = p.1;
    // Each member of one pair occurs, so it is one of the other pair.
    let oa = choose|i: int| 0 <= i < groups.len() && (#[trigger] groups[i])@ == a;
    let ob = choose|i: int| 0 <= i < groups.len() && (#[trigger] groups[i])@ == b;
    let oa2 = choose|i: int| 0 <= i < groups.len() && (#[trigger] groups[i])@ == a2;
    let ob2 = choose|i: int| 0 <= i < groups.len() && (#[trigger] groups[i])@ == b2;
    lemma_chars_lt_ne(a, b);
    lemma_chars_lt_ne(a2, b2);
    if a == a2 {
        if b == a2 {
            assert(false);
        }
        assert(b == b2);
    } else {
        // a == b2, and then a2 can only be b: both orders hold, which
        // the strict order forbids.
        assert(a == b2);
        if a2 == a {
            assert(false);
        }
        assert(a2 == b);
        crate::levels::lemma_bytes_lt_trans(encode_utf8(a), encode_utf8(b), encode_utf8(b2));
        lemma_bytes_lt_irrefl(encode_utf8(a));
        assert(false);
    }
}

proof fn lemma_group_vals_take(values: Seq<Rat>, groups: Seq<String>, level: Seq<char>, i: int)
    requires
        values.len() == groups.len(),
        0 <= i < values.len(),
    ensures
        group_vals(values.take(i + 1), groups.take(i + 1), level) == if groups[i]@ == level {
            group_vals(values.take(i), groups.take(i), level).push(values[i])
        } else {
            group_vals(values.take(i), groups.take(i), level)
        },
{
    assert(values.take(i + 1).drop_last() =~= values.take(i));
    assert(groups.take(i + 1).drop_last() =~= groups.take(i));
}

proof fn lemma_group_vals_wf(values: Seq<Rat>, groups: Seq<String>, level: Seq<char>)
    requires
        rats_wf(values),
    ensures
        rats_wf(group_vals(values, groups, level)),
        group_vals(values, groups, level).len() <= values.len(),
    decreases values.len(),
{
    if values.len() == 0 || groups.len() == 0 {
    } else {
        assert(rats_wf(values.drop_last()));
        lemma_group_vals_wf(values.drop_last(), groups.drop_last(), level);
    }
}

/// Separate the observations of a two-level grouping column into the
/// two groups, in ascending level order.  Fails with
/// `DegenerateFactorError` exactly when the column does not have
/// exactly two distinct values.
pub fn split_two_groups(values: &Vec<Rat>, groups: &Vec<String>) -> (r: Result<
    (Vec<String>, Vec<Rat>, Vec<Rat>),
    StatError,
>)
    requires
        rats_wf(values@),
        values@.len() == groups@.len(),
    ensures
        r is Err ==> r->Err_0 == StatError::DegenerateFactorError,
        (r is Err) <==> !exactly_two_levels(groups@),
        r is Ok ==> ({
            let (lv, g1, g2) = r->Ok_0;
            &&& lv@.len() == 2
            &&& chars_lt(lv@[0]@, lv@[1]@)
            &&& pair_covers(groups@, lv@[0]@, lv@[1]@)
            &&& sorted_level_pair(groups@) == (lv@[0]@, lv@[1]@)
            &&& rats_wf(g1@) && g1@ == group_vals(values@, groups@, lv@[0]@)
            &&& rats_wf(g2@) && g2@ == group_vals(values@, groups@, lv@[1]@)
        }),
{
    let n: usize = values.len();
    let levels: Vec<String> = distinct_sorted_levels(groups);
    if levels.len() != 2 {
        proof {
            lemma_no_two_levels(groups@, levels@);
        }
        return Err(StatError::DegenerateFactorError);
    }
    let mut g1: Vec<Rat> = Vec::new();
    let mut g2: Vec<Rat> = Vec::new();
    let mut i: usize = 0;
    while i < n
        invariant
            0 <= i <= n,
            n == values@.len(),
            n == groups@.len(),
            rats_wf(values@),
            levels@.len() == 2,
            strictly_sorted(levels@),
            forall|j: int| 0 <= j < levels@.len() ==> view_present(groups@, (#[trigger] levels@[j])@),
            forall|t: int| 0 <= t < groups@.len() ==> view_present(levels@, (#[trigger] groups@[t])@),
            rats_wf(g1@),
            rats_wf(g2@),
            g1@ == group_vals(values@.take(i as int), groups@.take(i as int), levels@[0]@),
            g2@ == group_vals(values@.take(i as int), groups@.take(i as int), levels@[1]@),
        decreases n - i,
    {
        proof {
            lemma_group_vals_take(values@, groups@, levels@[0]@, i as int);
            lemma_group_vals_take(values@, groups@, levels@[1]@, i as int);
        }
        if groups[i].eq(&levels[0]) {
            proof {
                lemma_level_distinct(levels@);
            }
            g1.push(values[i]);
        } else if groups[i].eq(&levels[1]) {
            g2.push(values[i]);
        } else {
            proof {
                assert(view_present(levels@, groups@[i as int]@));
                let j = choose|j: int|
                    0 <= j < levels@.len() && (#[trigger] levels@[j])@ == groups@[i as int]@;
                assert(false);
            }
        }
        i = i + 1;
    }
    proof {
        assert(values@.take(n as int) =~= values@);
        assert(groups@.take(n as int) =~= groups@);
        lemma_two_levels_cover(groups@, levels@);
        lemma_pair_unique(groups@, levels@[0]@, levels@[1]@);
    }
    Ok((levels, g1, g2))
}

/// A two-element sorted level list of a column is a covering pair.
proof fn lemma_two_levels_cover(groups: Seq<String>, levels: Seq<String>)
    requires
        levels.len() == 2,
        strictly_sorted(levels),
        forall|j: int| 0 <= j < levels.len() ==> view_present(groups, (#[trigger] levels[j])@),
        forall|t: int| 0 <= t < groups.len() ==> view_present(levels, (#[trigger] groups[t])@),
    ensures
        pair_covers(groups, levels[0]@, levels[1]@),
        chars_lt(levels[0]@, levels[1]@),
        exactly_two_levels(groups),
{
    lemma_level_distinct(levels);
    assert forall|i: int| 0 <= i < groups.len() implies (#[trigger] groups[i])@ == levels[0]@
        || groups[i]@ == levels[1]@ by {
        assert(view_present(levels, groups[i]@));
        let j = choose|j: int| 0 <= j < levels.len() && (#[trigger] levels[j])@ == groups[i]@;
    }
    assert(view_present(groups, levels[0]@));
    let o0 = choose|i: int| 0 <= i < groups.len() && (#[trigger] groups[i])@ == levels[0]@;
    assert(view_present(groups, levels[1]@));
    let o1 = choose|i: int| 0 <= i < groups.len() && (#[trigger] groups[i])@ == levels[1]@;
    assert(pair_covers(groups, levels[0]@, levels[1]@));
    let w: (Seq<char>, Seq<char>) = (levels[0]@, levels[1]@);
    assert(w.0 == levels[0]@ && w.1 == levels[1]@);
    assert(pair_covers(groups, w.0, w.1));
}

/// Adjacent entries of a strictly sorted level list differ.
proof fn lemma_level_distinct(levels: Seq<String>)
    requires
        strictly_sorted(levels),
        levels.len() >= 2,
    ensures
        levels[0]@ != levels[1]@,
{
    if levels[0]@ == levels[1]@ {
        assert(chars_lt(levels[0]@, levels[1]@));
        lemma_bytes_lt_irrefl(encode_utf8(levels[0]@));
    }
}

/// With a level count other than two, no covering pair exists.
proof fn lemma_no_two_levels(groups: Seq<String>, levels: Seq<String>)
    requires
        levels.len() != 2,
        strictly_sorted(levels),
        forall|j: int| 0 <= j < levels.len() ==> view_present(groups, (#[trigger] levels[j])@),
        forall|t: int| 0 <= t < groups.len() ==> view_present(levels, (#[trigger] groups[t])@),
    ensures
        !exactly_two_levels(groups),
{
    if exactly_two_levels(groups) {
        let p = choose|p: (Seq<char>, Seq<char>)| #[trigger] pair_covers(groups, p.0, p.1);
        let a = p.0;
        let b = p.1;
        let oa = choose|i: int| 0 <= i < groups.len() && (#[trigger] groups[i])@ == a;
        let ob = choose|i: int| 0 <= i < groups.len() && (#[trigger] groups[i])@ == b;
        if levels.len() == 0 {
            assert(view_present(levels, groups[oa]@));
            let j = choose|j: int|
                0 <= j < levels.len() && (#[trigger] levels[j])@ == groups[oa]@;
            assert(false);
        } else if levels.len() == 1 {
            assert(view_present(levels, groups[oa]@));
            let ja = choose|j: int|
                0 <= j < levels.len() && (#[trigger] levels[j])@ == groups[oa]@;
            assert(view_present(levels, groups[ob]@));
            let jb = choose|j: int|
                0 <= j < levels.len() && (#[trigger] levels[j])@ == groups[ob]@;
            assert(a == levels[0]@ && b == levels[0]@);
            assert(false);
        } else {
            // Three or more distinct levels, each occurring in the
            // column, cannot all lie in a two-element set.
            assert forall|t: int| 0 <= t < 3 implies (#[trigger] levels[t])@ == a || levels[t]@
                == b by {
                assert(view_present(groups, levels[t]@));
                let o = choose|i: int|
                    0 <= i < groups.len() && (#[trigger] groups[i])@ == levels[t]@;
                assert(groups[o]@ == a || groups[o]@ == b);
            }
            assert forall|t1: int, t2: int| 0 <= t1 < t2 < 3 implies (#[trigger] levels[t1])@ != (
            #[trigger] levels[t2])@ by {
                if levels[t1]@ == levels[t2]@ {
                    assert(chars_lt(levels[t1]@, levels[t2]@));
                    lemma_bytes_lt_irrefl(encode_utf8(levels[t1]@));
                }
            }
            assert(levels[0]@ == a || levels[0]@ == b);
            assert(levels[1]@ == a || levels[1]@ == b);
            assert(levels[2]@ == a || levels[2]@ == b);
            assert(levels[0]@ != levels[1]@);
            assert(levels[0]@ != levels[2]@);
            assert(levels[1]@ != levels[2]@);
            assert(false);
        }
    }
}

/// Welch's independent two-sample t-test on a numeric column split by a
/// two-level grouping column, per the sorted level pair: group 1 is the
/// lexicographically smaller level.
pub fn welch_t_test(values: &Vec<Rat>, groups: &Vec<String>) -> (r: Result<
    (Vec<String>, WelchResult),
    StatError,
>)
    requires
        rats_wf(values@),
    ensures
        (values@.len() != groups@.len()) <==> (r is Err && r->Err_0 == StatError::InputError),
        (values@.len() == groups@.len() && !exactly_two_levels(groups@)) <==> (r is Err && r->Err_0
            == StatError::DegenerateFactorError),
        r is Err ==> r->Err_0 == StatError::InputError || r->Err_0
            == StatError::DegenerateFactorError || r->Err_0 == StatError::SampleSizeError
            || r->Err_0 == StatError::ZeroVarianceError || r->Err_0 == StatError::OverflowError,
        (values@.len() == groups@.len() && exactly_two_levels(groups@) && (group_vals(
            values@,
            groups@,
            sorted_level_pair(groups@).0,
        ).len() < 2 || group_vals(values@, groups@, sorted_level_pair(groups@).1).len() < 2)) <==> (
        r is Err && r->Err_0 == StatError::SampleSizeError),
        r is Err && r->Err_0 == StatError::ZeroVarianceError ==> ({
            let s1 = vq(group_vals(values@, groups@, sorted_level_pair(groups@).0));
            let s2 = vq(group_vals(values@, groups@, sorted_level_pair(groups@).1));
            q_eq(welch_se2(s1, s2), q_int(0)) || q_eq(welch_df_den(s1, s2), q_int(0)) || q_eq(
                pooled_var(s1, s2),
                q_int(0),
            )
        }),
        r is Ok ==> !q_eq(
            welch_se2(
                vq(group_vals(values@, groups@, sorted_level_pair(groups@).0)),
                vq(group_vals(values@, groups@, sorted_level_pair(groups@).1)),
            ),
            q_int(0),
        ),
        r is Ok ==> ({
            let (lv, w) = r->Ok_0;
            let s1 = vq(group_vals(values@, groups@, sorted_level_pair(groups@).0));
            let s2 = vq(group_vals(values@, groups@, sorted_level_pair(groups@).1));
            &&& lv@.len() == 2
            &&& (lv@[0]@, lv@[1]@) == sorted_level_pair(groups@)
            &&& pair_covers(groups@, lv@[0]@, lv@[1]@)
            &&& w.n1 == s1.len() && w.n2 == s2.len()
            &&& q_wf(w.mean1@) && q_eq(w.mean1@, q_mean(s1))
            &&& q_wf(w.mean2@) && q_eq(w.mean2@, q_mean(s2))
            &&& q_wf(w.var1@) && q_eq(w.var1@, q_var(s1))
            &&& q_wf(w.var2@) && q_eq(w.var2@, q_var(s2))
            &&& q_wf(w.t_sq@) && q_eq(w.t_sq@, welch_t_sq(s1, s2))
            &&& q_wf(w.df@) && q_eq(w.df@, welch_df(s1, s2))
            &&& q_wf(w.pooled_var@) && q_eq(w.pooled_var@, pooled_var(s1, s2))
            &&& q_wf(w.d_sq@) && q_eq(w.d_sq@, cohen_d_sq(s1, s2))
            &&& w.mean1_lt_mean2 == q_lt(q_mean(s1), q_mean(s2))
        }),
{
    if values.len() != groups.len() {
        return Err(StatError::InputError);
    }
    let (lv, g1, g2) = match split_two_groups(values, groups) {
        Ok(t) => t,
        Err(e) => {
            return Err(e);
        },
    };
    let w = match welch_from_groups(&g1, &g2) {
        Ok(w) => w,
        Err(e) => {
            return Err(e);
        },
    };
    Ok((lv, w))
}

} // verus!
