use vstd::prelude::*;
use crate::rational::{Frac, Rat, q_wf, q_eq, q_le, q_int, q_sub, q_mul, q_div, lemma_q_eq_trans,
    lemma_q_sub_congr, lemma_q_mul_congr, lemma_q_div_congr, lemma_q_div_congr_l, lemma_q_eq_sign,
    lemma_q_nonzero_num, lemma_q_div_den_nonzero, lemma_q_ops_wf};
use crate::sums::{vq, all_wf, rats_wf, q_sum};
use crate::descr::{q_mean, q_var, sq_dev_seq, sst_of, sample_variance, lemma_q_mean_wf,
    lemma_q_var_wf, lemma_sq_dev_all_wf};
use crate::sums::lemma_q_sum_wf;
use crate::matrix::Mat;
use crate::ols::{OlsFit, fit, normal_equations, gram_inverse, sq_resid_seq};
use crate::design::assemble_design;
use crate::anova::{cols_ne, cols_sse, const_ones, cols_gram_row, intercept_only_cols,
    lemma_mat_to_cols, lemma_cols_sse_wf, ratio_f, lemma_f_chain};
use crate::vecalg::{lemma_ne_minimizes_sse, lemma_mean_coeff_sse_is_sst, lemma_cols_sse_nonneg,
    lemma_sst_nonneg, lemma_inv_diag_nonneg, lemma_q_le_congr, lemma_r2_bounds, lemma_adj_r2_le,
    lemma_s_div_pos_nonneg, lemma_s_mul_nonneg, lemma_first_col_padding};
use crate::descr::mean;
use crate::error::StatError;

verus! {

/// The design of a multiple regression: an intercept followed by the
/// selected predictor columns.
pub open spec fn regression_design_cols(xcols: Seq<Vec<Rat>>, n: int) -> Seq<Seq<Frac>> {
    Seq::new(
        (xcols.len() + 1) as nat,
        |j: int|
            if j == 0 {
                const_ones(n)
            } else {
                vq(xcols[j - 1]@)
            },
    )
}

/// The inverse of the Gram matrix of a design given as columns.
pub open spec fn cols_gram_inverse(cols: Seq<Seq<Frac>>, m: Mat) -> bool {
    &&& m.wf()
    &&& m.nrows() == cols.len()
    &&& m.ncols() == cols.len()
    &&& forall|i: int, j: int|
        0 <= i < cols.len() && 0 <= j < cols.len() ==> q_eq(
            #[trigger] crate::sums::q_dot(cols_gram_row(cols, i), m.mcol(j)),
            q_int(if i == j { 1int } else { 0int }),
        )
}

/// The result of a multiple linear regression with inference, in exact
/// rationals.  `beta` satisfies the normal equations of the
/// intercept-plus-predictors design; `sse` and `sst` are exact sums of
/// squares; `r2 = 1 - sse/sst`; `adj_r2 = 1 - (1-r2)(n-1)/(n-p)`;
/// `f = ((sst-sse)/k) / (sse/(n-p))`; `se_sq[j] = mse * (X^T X)^-1_jj`
/// is the squared standard error of coefficient `j`, and
/// `t_sq[j] = beta_j^2 / se_sq[j]` the squared t statistic.  The square
/// roots and the t and F tail probabilities are the caller's.
pub struct RegressionResult {
    pub beta: Vec<Rat>,
    pub sse: Rat,
    pub sst: Rat,
    pub r2: Rat,
    pub adj_r2: Rat,
    pub f: Rat,
    pub mse: Rat,
    pub df_model: usize,
    pub df_resid: usize,
    pub xtx_inv: Mat,
    pub se_sq: Vec<Rat>,
    pub t_sq: Vec<Rat>,
}

/// Multiple linear regression of `y` on the given numeric predictor
/// columns, with an intercept.
#[verifier::rlimit(60)]
pub fn linear_regression(y: &Vec<Rat>, xcols: &Vec<Vec<Rat>>) -> (r: Result<
    RegressionResult,
    StatError,
>)
    requires
        rats_wf(y@),
        forall|j: int| 0 <= j < xcols@.len() ==> rats_wf(#[trigger] xcols@[j]@),
    ensures
        (xcols@.len() == 0 || exists|j: int|
            0 <= j < xcols@.len() && (#[trigger] xcols@[j]@).len() != y@.len()) <==> (r is Err
            && r->Err_0 == StatError::InputError),
        (xcols@.len() > 0 && (forall|j: int|
            0 <= j < xcols@.len() ==> (#[trigger] xcols@[j]@).len() == y@.len()) && y@.len()
            <= xcols@.len() + 1) <==> (r is Err && r->Err_0 == StatError::SampleSizeError),
        r is Err ==> r->Err_0 == StatError::InputError || r->Err_0 == StatError::SampleSizeError
            || r->Err_0 == StatError::SingularMatrixError || r->Err_0 == StatError::ZeroVarianceError
            || r->Err_0 == StatError::OverflowError,
        r is Err && r->Err_0 == StatError::ZeroVarianceError ==> q_eq(sst_of(y@), q_int(0)) || (
        exists|b: Seq<Rat>|
            cols_ne(regression_design_cols(xcols@, y@.len() as int), y@, b) && q_eq(
                #[trigger] cols_sse(regression_design_cols(xcols@, y@.len() as int), y@, b),
                q_int(0),
            )) || (exists|m: Mat, j: int|
            #![trigger cols_gram_inverse(regression_design_cols(xcols@, y@.len() as int), m), m.ent(j, j)]
            cols_gram_inverse(regression_design_cols(xcols@, y@.len() as int), m) && 0 <= j
                && q_eq(m.ent(j, j), q_int(0))),
        r is Ok ==> ({
            let a = r->Ok_0;
            let n = y@.len();
            let k = xcols@.len();
            let p = k + 1;
            let cols = regression_design_cols(xcols@, n as int);
            &&& n > p
            &&& a.df_model == k
            &&& a.df_resid == n - p
            &&& rats_wf(a.beta@) && a.beta@.len() == p
            &&& cols_ne(cols, y@, a.beta@)
            &&& q_wf(a.sse@) && q_eq(a.sse@, cols_sse(cols, y@, a.beta@))
            &&& q_wf(a.sst@) && q_eq(a.sst@, sst_of(y@)) && !q_eq(a.sst@, q_int(0))
            &&& q_wf(a.r2@) && q_eq(a.r2@, q_sub(q_int(1), q_div(a.sse@, a.sst@)))
            &&& q_wf(a.adj_r2@) && q_eq(
                a.adj_r2@,
                q_sub(
                    q_int(1),
                    q_div(q_mul(q_sub(q_int(1), a.r2@), q_int(n as int - 1)), q_int(n - p)),
                ),
            )
            &&& q_wf(a.f@) && q_eq(
                a.f@,
                q_div(q_div(q_sub(a.sst@, a.sse@), q_int(k as int)), q_div(a.sse@, q_int(n - p))),
            )
            &&& q_wf(a.mse@) && q_eq(a.mse@, q_div(a.sse@, q_int(n - p)))
            &&& cols_gram_inverse(cols, a.xtx_inv)
            &&& a.se_sq@.len() == p && rats_wf(a.se_sq@)
            &&& forall|j: int|
                0 <= j < p ==> q_eq(
                    (#[trigger] a.se_sq@[j])@,
                    q_mul(a.mse@, a.xtx_inv.ent(j, j)),
                ) && !q_eq(a.se_sq@[j]@, q_int(0))
            &&& a.t_sq@.len() == p && rats_wf(a.t_sq@)
            &&& forall|j: int|
                0 <= j < p ==> q_eq(
                    (#[trigger] a.t_sq@[j])@,
                    q_div(q_mul(a.beta@[j]@, a.beta@[j]@), a.se_sq@[j]@),
                )
        }),
        r is Ok ==> ({
            let a = r->Ok_0;
            &&& q_le(q_int(0), a.sse@)
            &&& q_le(a.sse@, a.sst@)
            &&& q_le(q_int(0), a.sst@)
            &&& q_le(q_int(0), a.r2@)
            &&& q_le(a.r2@, q_int(1))
            &&& q_le(a.adj_r2@, a.r2@)
            &&& q_le(q_int(0), a.mse@)
        }),
        r is Ok ==> forall|j: int|
            0 <= j < xcols@.len() + 1 ==> q_le(q_int(0), (#[trigger] r->Ok_0.se_sq@[j])@),
{
    let n: usize = y.len();
    let k: usize = xcols.len();
    // Predictor validation.
    let mut ok_len: bool = true;
    let mut j0: usize = 0;
    while j0 < k
        invariant
            0 <= j0 <= k,
            k == xcols@.len(),
            n == y@.len(),
            ok_len <==> (forall|j: int|
                0 <= j < j0 as int ==> (#[trigger] xcols@[j]@).len() == n as int),
        decreases k - j0,
    {
        if xcols[j0].len() != n {
            ok_len = false;
        }
        j0 = j0 + 1;
    }
    if k == 0 || !ok_len {
        return Err(StatError::InputError);
    }
    if n == 0 || n - 1 <= k {
        return Err(StatError::SampleSizeError);
    }
    let x: Mat = match assemble_design(n, xcols, true) {
        Ok(m) => m,
        Err(_) => {
            return Err(StatError::OverflowError);
        },
    };
    let ghost cols: Seq<Seq<Frac>> = regression_design_cols(xcols@, n as int);
    proof {
        assert forall|j: int| 0 <= j < cols.len() implies (#[trigger] cols[j]) == x.mcol(j) by {
            if j == 0 {
                assert(cols[0] =~= x.mcol(0));
            } else {
                assert forall|i: int| 0 <= i < n as int implies x.mcol(j)[i] == vq(
                    xcols@[j - 1]@,
                )[i] by {
                    assert(x.ent(i, (j - 1) + 1) == xcols@[j - 1]@[i]@);
                }
                assert(cols[j] =~= x.mcol(j));
            }
        }
    }
    let ft: OlsFit = match fit(y, &x, true) {
        Ok(f) => f,
        Err(e) => {
            if e == StatError::SampleSizeError {
                return Err(StatError::SampleSizeError);
            }
            if e == StatError::SingularMatrixError {
                return Err(StatError::SingularMatrixError);
            }
            return Err(StatError::OverflowError);
        },
    };
    let inv: Mat = match ft.xtx_inv {
        Some(m) => m,
        None => {
            return Err(StatError::OverflowError);
        },
    };
    proof {
        lemma_mat_to_cols(x, cols, y@, ft.beta@);
        assert forall|i: int, j: int| 0 <= i < cols.len() && 0 <= j < cols.len() implies q_eq(
            #[trigger] crate::sums::q_dot(cols_gram_row(cols, i), inv.mcol(j)),
            q_int(if i == j { 1int } else { 0int }),
        ) by {
            assert(cols_gram_row(cols, i) =~= crate::ols::gram_row(x, i));
        }
    }
    // Total sum of squares about the mean.
    let v: Rat = match sample_variance(y) {
        Ok(z) => z,
        Err(_) => {
            return Err(StatError::OverflowError);
        },
    };
    let nm1: Rat = Rat::from_nat(n - 1);
    let sst: Rat = match v.mul(&nm1) {
        Some(z) => z,
        None => {
            return Err(StatError::OverflowError);
        },
    };
    proof {
        assert(all_wf(vq(y@)));
        lemma_q_mean_wf(vq(y@));
        lemma_sq_dev_all_wf(vq(y@), q_mean(vq(y@)));
        lemma_q_sum_wf(sq_dev_seq(vq(y@), q_mean(vq(y@))));
        lemma_q_var_wf(vq(y@));
        lemma_q_mul_congr(v@, q_var(vq(y@)), nm1@, q_int(n as int - 1));
        lemma_q_ops_wf(v@, nm1@);
        lemma_q_ops_wf(q_var(vq(y@)), q_int(n as int - 1));
        lemma_q_eq_trans(
            sst@,
            q_mul(v@, nm1@),
            q_mul(q_var(vq(y@)), q_int(n as int - 1)),
        );
        lemma_var_times_back(sq_dev_seq(vq(y@), q_mean(vq(y@))), n as int - 1);
        lemma_q_eq_trans(sst@, q_mul(q_var(vq(y@)), q_int(n as int - 1)), sst_of(y@));
    }
    if sst.is_zero() {
        proof {
            lemma_q_eq_sign(sst@, sst_of(y@));
        }
        return Err(StatError::ZeroVarianceError);
    }
    let p: usize = k + 1;
    let nmp: usize = n - p;
    let nmpr: Rat = Rat::from_nat(nmp);
    proof {
        assert forall|t2: int| 0 <= t2 < cols.len() implies (#[trigger] cols[t2]).len()
            == y@.len() && all_wf(cols[t2]) by {
            x.lemma_col_wf(t2);
        }
        lemma_cols_sse_nonneg(cols, y@, ft.beta@);
        lemma_cols_sse_wf(cols, y@, ft.beta@);
        lemma_q_le_congr(q_int(0), q_int(0), cols_sse(cols, y@, ft.beta@), ft.sse@);
        lemma_sst_nonneg(y@);
        lemma_q_le_congr(q_int(0), q_int(0), sst_of(y@), sst@);
    }
    // The mean-only fit embeds in the full design with zero
    // coefficients for the predictors, so its residual sum of squares,
    // the total sum of squares, bounds the fit's from above.
    let mv: Rat = match mean(y) {
        Ok(z) => z,
        Err(_) => {
            return Err(StatError::OverflowError);
        },
    };
    let mut b1v: Vec<Rat> = Vec::new();
    b1v.push(mv);
    let mut pad: Vec<Rat> = Vec::new();
    pad.push(mv);
    let mut tpad: usize = 1;
    while tpad < p
        invariant
            1 <= tpad <= p,
            pad@.len() == tpad as int,
            rats_wf(pad@),
            pad@[0] == mv,
            q_wf(mv@),
            forall|j: int| 1 <= j < pad@.len() ==> (#[trigger] vq(pad@)[j]) == q_int(0),
        decreases p - tpad,
    {
        let ghost old_pad: Seq<Rat> = pad@;
        pad.push(Rat::from_int(0));
        proof {
            assert forall|j: int| 1 <= j < pad@.len() implies (#[trigger] vq(pad@)[j]) == q_int(0)
                by {
                if j < old_pad.len() {
                    assert(pad@[j] == old_pad[j]);
                    assert(vq(old_pad)[j] == q_int(0));
                } else {
                    assert(pad@[j]@ == q_int(0));
                }
            }
        }
        tpad = tpad + 1;
    }
    proof {
        lemma_first_col_padding(cols, y@, b1v@, pad@);
        lemma_mean_coeff_sse_is_sst(y@, b1v@);
        assert(seq![cols[0]] =~= intercept_only_cols(n as int));
        lemma_ne_minimizes_sse(cols, y@, ft.beta@, pad@);
        lemma_cols_sse_wf(cols, y@, pad@);
        assert forall|t2: int|
            0 <= t2 < intercept_only_cols(n as int).len() implies (
        #[trigger] intercept_only_cols(n as int)[t2]).len() == y@.len() && all_wf(
            intercept_only_cols(n as int)[t2],
        ) by {
            assert(intercept_only_cols(n as int)[t2] == const_ones(n as int));
        }
        lemma_cols_sse_wf(intercept_only_cols(n as int), y@, b1v@);
        lemma_q_eq_trans(
            cols_sse(cols, y@, pad@),
            cols_sse(intercept_only_cols(n as int), y@, b1v@),
            sst_of(y@),
        );
        lemma_q_eq_trans(cols_sse(cols, y@, pad@), sst_of(y@), sst@);
        lemma_q_le_congr(
            cols_sse(cols, y@, ft.beta@),
            ft.sse@,
            cols_sse(cols, y@, pad@),
            sst@,
        );
    }
    // R^2 and adjusted R^2.
    let ratio: Rat = match ft.sse.div(&sst) {
        Some(z) => z,
        None => {
            return Err(StatError::OverflowError);
        },
    };
    let one: Rat = Rat::from_int(1);
    let r2: Rat = match one.sub(&ratio) {
        Some(z) => z,
        None => {
            return Err(StatError::OverflowError);
        },
    };
    proof {
        lemma_q_ops_wf(one@, ratio@);
        lemma_q_sub_congr_signless(one@, ratio@, q_div(ft.sse@, sst@));
        lemma_q_eq_trans(r2@, q_sub(one@, ratio@), q_sub(q_int(1), q_div(ft.sse@, sst@)));
        lemma_r2_bounds(r2@, ft.sse@, sst@);
    }
    let onem: Rat = match one.sub(&r2) {
        Some(z) => z,
        None => {
            return Err(StatError::OverflowError);
        },
    };
    let num: Rat = match onem.mul(&nm1) {
        Some(z) => z,
        None => {
            return Err(StatError::OverflowError);
        },
    };
    let frac: Rat = match num.div(&nmpr) {
        Some(z) => z,
        None => {
            return Err(StatError::OverflowError);
        },
    };
    let adj: Rat = match one.sub(&frac) {
        Some(z) => z,
        None => {
            return Err(StatError::OverflowError);
        },
    };
    proof {
        // onem ~ 1 - r2 exactly by construction; carry the pieces through.
        lemma_q_mul_congr(onem@, q_sub(q_int(1), r2@), nm1@, q_int(n as int - 1));
        lemma_q_ops_wf(onem@, nm1@);
        lemma_q_ops_wf(q_sub(q_int(1), r2@), q_int(n as int - 1));
        lemma_q_eq_trans(
            num@,
            q_mul(onem@, nm1@),
            q_mul(q_sub(q_int(1), r2@), q_int(n as int - 1)),
        );
        assert(!q_eq(nmpr@, q_int(0)));
        lemma_q_div_congr(
            num@,
            q_mul(q_sub(q_int(1), r2@), q_int(n as int - 1)),
            nmpr@,
            q_int(nmp as int),
        );
        lemma_q_nonzero_num(nmpr@);
        lemma_q_div_den_nonzero(num@, nmpr@);
        lemma_q_eq_trans(
            frac@,
            q_div(num@, nmpr@),
            q_div(q_mul(q_sub(q_int(1), r2@), q_int(n as int - 1)), q_int(nmp as int)),
        );
        lemma_q_sub_congr_signless(
            one@,
            frac@,
            q_div(q_mul(q_sub(q_int(1), r2@), q_int(n as int - 1)), q_int(nmp as int)),
        );
        lemma_q_eq_trans(
            adj@,
            q_sub(one@, frac@),
            q_sub(
                q_int(1),
                q_div(q_mul(q_sub(q_int(1), r2@), q_int(n as int - 1)), q_int(nmp as int)),
            ),
        );
        lemma_adj_r2_le(adj@, r2@, n as int - 1, nmp as int);
    }
    // Overall F test.
    let ssm: Rat = match sst.sub(&ft.sse) {
        Some(z) => z,
        None => {
            return Err(StatError::OverflowError);
        },
    };
    let mse: Rat = match ft.sse.div(&nmpr) {
        Some(z) => z,
        None => {
            return Err(StatError::OverflowError);
        },
    };
    if mse.is_zero() {
        proof {
            assert(q_wf(q_div(ft.sse@, q_int(nmp as int)))) by (nonlinear_arith)
                requires
                    ft.sse@.d > 0,
                    nmp >= 1,
                    q_div(ft.sse@, q_int(nmp as int)).d == ft.sse@.d * (nmp as int),
            ;
            lemma_q_eq_sign(mse@, q_div(ft.sse@, q_int(nmp as int)));
            assert(q_eq(ft.sse@, q_int(0))) by (nonlinear_arith)
                requires
                    q_wf(ft.sse@),
                    q_eq(q_div(ft.sse@, q_int(nmp as int)), q_int(0)),
                    q_div(ft.sse@, q_int(nmp as int)).n == ft.sse@.n * 1,
                    q_div(ft.sse@, q_int(nmp as int)).d == ft.sse@.d * (nmp as int),
                    nmp >= 1,
            ;
            lemma_cols_sse_wf(cols, y@, ft.beta@);
            lemma_q_eq_sign(ft.sse@, cols_sse(cols, y@, ft.beta@));
            assert(cols_ne(cols, y@, ft.beta@) && q_eq(
                cols_sse(cols, y@, ft.beta@),
                q_int(0),
            ));
        }
        return Err(StatError::ZeroVarianceError);
    }
    let f_val: Rat = match ratio_f(&ssm, k, &mse) {
        Some(z) => z,
        None => {
            return Err(StatError::OverflowError);
        },
    };
    proof {
        lemma_q_ops_wf(sst@, ft.sse@);
        assert(q_wf(q_div(ft.sse@, q_int(nmp as int)))) by (nonlinear_arith)
            requires
                ft.sse@.d > 0,
                nmp >= 1,
                q_div(ft.sse@, q_int(nmp as int)).d == ft.sse@.d * (nmp as int),
        ;
        lemma_q_eq_sign(mse@, q_div(ft.sse@, q_int(nmp as int)));
        assert(!q_eq(ft.sse@, q_int(0))) by (nonlinear_arith)
            requires
                q_wf(ft.sse@),
                !q_eq(q_div(ft.sse@, q_int(nmp as int)), q_int(0)),
                q_div(ft.sse@, q_int(nmp as int)).n == ft.sse@.n * 1,
                q_div(ft.sse@, q_int(nmp as int)).d == ft.sse@.d * (nmp as int),
                nmp >= 1,
        ;
        lemma_f_chain(
            ssm@,
            q_sub(sst@, ft.sse@),
            k as int,
            mse@,
            ft.sse@,
            nmp as int,
            f_val@,
        );
        lemma_s_div_pos_nonneg(ft.sse@, nmp as int);
        lemma_q_le_congr(q_int(0), q_int(0), q_div(ft.sse@, q_int(nmp as int)), mse@);
    }
    // Per-coefficient squared standard errors and t statistics.
    let mut se_sq: Vec<Rat> = Vec::new();
    let mut t_sq: Vec<Rat> = Vec::new();
    let mut j: usize = 0;
    while j < p
        invariant
            0 <= j <= p,
            p == k + 1,
            k == xcols@.len(),
            k >= 1,
            forall|t2: int| 0 <= t2 < k as int ==> (#[trigger] xcols@[t2]@).len() == n as int,
            cols == regression_design_cols(xcols@, n as int),
            p as int == cols.len(),
            n == y@.len(),
            n > p,
            nmp == n - p,
            inv.wf(),
            inv.nrows() == p as int,
            inv.ncols() == p as int,
            q_wf(mse@),
            q_le(q_int(0), mse@),
            !q_eq(mse@, q_int(0)),
            forall|t2: int|
                0 <= t2 < cols.len() ==> (#[trigger] cols[t2]).len() == y@.len() && all_wf(
                    cols[t2],
                ),
            ft.beta@.len() == p as int,
            rats_wf(ft.beta@),
            se_sq@.len() == j as int,
            rats_wf(se_sq@),
            t_sq@.len() == j as int,
            rats_wf(t_sq@),
            cols_gram_inverse(cols, inv),
            forall|t: int|
                0 <= t < j as int ==> q_eq((#[trigger] se_sq@[t])@, q_mul(mse@, inv.ent(t, t)))
                    && !q_eq(se_sq@[t]@, q_int(0)),
            forall|t: int| 0 <= t < j as int ==> q_le(q_int(0), (#[trigger] se_sq@[t])@),
            forall|t: int|
                0 <= t < j as int ==> q_eq(
                    (#[trigger] t_sq@[t])@,
                    q_div(q_mul(ft.beta@[t]@, ft.beta@[t]@), se_sq@[t]@),
                ),
        decreases p - j,
    {
        let d: Rat = inv.get(j, j);
        let se: Rat = match mse.mul(&d) {
            Some(z) => z,
            None => {
                return Err(StatError::OverflowError);
            },
        };
        if se.is_zero() {
            proof {
                lemma_q_ops_wf(mse@, d@);
                lemma_q_eq_sign(se@, q_mul(mse@, d@));
                // A zero product has a zero factor: either the mean
                // square error or the Gram-inverse diagonal entry.
                assert(q_eq(mse@, q_int(0)) || q_eq(d@, q_int(0))) by (nonlinear_arith)
                    requires
                        q_wf(mse@),
                        q_wf(d@),
                        q_eq(q_mul(mse@, d@), q_int(0)),
                        q_mul(mse@, d@).n == mse@.n * d@.n,
                ;
                if q_eq(mse@, q_int(0)) {
                    assert(false);
                } else {
                    assert(q_eq(inv.ent(j as int, j as int), q_int(0)));
                    assert(cols_gram_inverse(cols, inv) && 0 <= j as int && q_eq(
                        inv.ent(j as int, j as int),
                        q_int(0),
                    ));
                }
            }
            return Err(StatError::ZeroVarianceError);
        }
        let bj: Rat = ft.beta[j];
        let b2: Rat = match bj.mul(&bj) {
            Some(z) => z,
            None => {
                return Err(StatError::OverflowError);
            },
        };
        let tj: Rat = match b2.div(&se) {
            Some(z) => z,
            None => {
                return Err(StatError::OverflowError);
            },
        };
        proof {
            lemma_inv_diag_nonneg(cols, inv, n as int, j as int);
            lemma_q_ops_wf(mse@, d@);
            lemma_s_mul_nonneg(mse@, d@);
            lemma_q_le_congr(q_int(0), q_int(0), q_mul(mse@, d@), se@);
            lemma_q_div_congr_l(b2@, q_mul(ft.beta@[j as int]@, ft.beta@[j as int]@), se@);
            lemma_q_nonzero_num(se@);
            lemma_q_div_den_nonzero(b2@, se@);
            lemma_q_eq_trans(
                tj@,
                q_div(b2@, se@),
                q_div(q_mul(ft.beta@[j as int]@, ft.beta@[j as int]@), se@),
            );
        }
        se_sq.push(se);
        t_sq.push(tj);
        j = j + 1;
    }
    Ok(RegressionResult {
        beta: ft.beta,
        sse: ft.sse,
        sst,
        r2,
        adj_r2: adj,
        f: f_val,
        mse,
        df_model: k,
        df_resid: nmp,
        xtx_inv: inv,
        se_sq,
        t_sq,
    })
}


/// `(sum / m) * m` is the sum again.
proof fn lemma_var_times_back(s_terms: Seq<Frac>, m: int)
    requires
        m >= 1,
    ensures
        q_eq(q_mul(q_div(q_sum(s_terms), q_int(m)), q_int(m)), q_sum(s_terms)),
{
    let s = q_sum(s_terms);
    assert((s.n * 1 * m) * s.d == s.n * (s.d * m * 1)) by (nonlinear_arith);
}

/// Subtraction congruence in the second operand without a sign demand
/// on its denominator.
#[verifier::rlimit(60)]
proof fn lemma_q_sub_congr_signless(a: Frac, b: Frac, b2: Frac)
    requires
        q_eq(b, b2),
    ensures
        q_eq(q_sub(a, b), q_sub(a, b2)),
{
    assert((a.n * b.d - b.n * a.d) * (a.d * b2.d) == (a.n * b2.d - b2.n * a.d) * (a.d * b.d))
        by (nonlinear_arith)
        requires
            b.n * b2.d == b2.n * b.d,
    ;
}

} // verus!
