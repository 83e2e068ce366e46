use vstd::prelude::*;
use crate::rational::{Frac, Rat, q_wf, q_eq, q_int, q_add, q_sub, q_mul, q_div, lemma_q_eq_trans,
    lemma_q_sub_congr, lemma_q_div_congr, lemma_q_div_congr_l, lemma_q_eq_sign,
    lemma_q_nonzero_num, lemma_q_div_den_nonzero, lemma_q_ops_wf};
use crate::sums::{vq, all_wf, rats_wf, q_sum, q_dot, lemma_q_sum_wf, lemma_q_dot_wf};
use crate::matrix::Mat;
use crate::ols::{OlsFit, fit, normal_equations, sq_resid_seq, gram_row, resid};
use crate::design::{build_dummy_columns, assemble_design, indicator_col,
    interaction_columns, copy_rats};
use crate::levels::{level_list_of, has_two_distinct};
use crate::descr::sst_of;
use crate::vecalg::{lemma_ne_minimizes_sse, lemma_intercept_ne_gives_mean,
    lemma_mean_coeff_sse_is_sst, lemma_cols_sse_nonneg, lemma_q_le_congr, lemma_s_sub_nonneg,
    lemma_first_col_padding};
use crate::rational::q_le;
use crate::error::StatError;

verus! {

/// A column of ones: the intercept.
pub open spec fn const_ones(n: int) -> Seq<Frac> {
    Seq::new(n as nat, |i: int| q_int(1))
}

/// Row `i` of a design given as a list of columns.
pub open spec fn design_row(cols: Seq<Seq<Frac>>, i: int) -> Seq<Frac> {
    Seq::new(cols.len(), |j: int| cols[j][i])
}

/// Row `j` of the Gram matrix of a design given as a list of columns.
pub open spec fn cols_gram_row(cols: Seq<Seq<Frac>>, j: int) -> Seq<Frac> {
    Seq::new(cols.len(), |k: int| q_dot(cols[j], cols[k]))
}

/// The normal equations of the design `cols`, written over its columns.
pub open spec fn cols_ne(cols: Seq<Seq<Frac>>, y: Seq<Rat>, b: Seq<Rat>) -> bool {
    forall|j: int|
        0 <= j < cols.len() ==> q_eq(
            #[trigger] q_dot(cols_gram_row(cols, j), vq(b)),
            q_dot(cols[j], vq(y)),
        )
}

/// The residual sum of squares of coefficients `b` for the design
/// `cols`.
pub open spec fn cols_sse(cols: Seq<Seq<Frac>>, y: Seq<Rat>, b: Seq<Rat>) -> Frac {
    q_sum(
        Seq::new(
            y.len(),
            |i: int|
                q_mul(
                    q_sub(vq(y)[i], q_dot(design_row(cols, i), vq(b))),
                    q_sub(vq(y)[i], q_dot(design_row(cols, i), vq(b))),
                ),
        ),
    )
}

/// The one-way design: an intercept, then one indicator column per
/// non-reference level.
pub open spec fn oneway_design_cols(groups: Seq<String>, lv: Seq<String>) -> Seq<Seq<Frac>> {
    Seq::new(
        lv.len(),
        |j: int|
            if j == 0 {
                const_ones(groups.len() as int)
            } else {
                indicator_col(groups, lv[j]@)
            },
    )
}

/// The intercept-only design.
pub open spec fn intercept_only_cols(n: int) -> Seq<Seq<Frac>> {
    seq![const_ones(n)]
}

/// Well-formedness of a residual sum of squares over a column design.
pub proof fn lemma_cols_sse_wf(cols: Seq<Seq<Frac>>, y: Seq<Rat>, b: Seq<Rat>)
    requires
        forall|j: int| 0 <= j < cols.len() ==> all_wf(#[trigger] cols[j]),
        forall|j: int| 0 <= j < cols.len() ==> (#[trigger] cols[j]).len() == y.len(),
        rats_wf(y),
        rats_wf(b),
    ensures
        q_wf(cols_sse(cols, y, b)),
{
    let terms = Seq::new(
        y.len(),
        |i: int|
            q_mul(
                q_sub(vq(y)[i], q_dot(design_row(cols, i), vq(b))),
                q_sub(vq(y)[i], q_dot(design_row(cols, i), vq(b))),
            ),
    );
    assert forall|i: int| 0 <= i < terms.len() implies q_wf(#[trigger] terms[i]) by {
        assert forall|j: int| 0 <= j < design_row(cols, i).len() implies q_wf(
            #[trigger] design_row(cols, i)[j],
        ) by {
            assert(all_wf(cols[j]));
        }
        assert(all_wf(vq(b)));
        lemma_q_dot_wf(design_row(cols, i), vq(b));
        lemma_q_ops_wf(vq(y)[i], q_dot(design_row(cols, i), vq(b)));
        lemma_q_ops_wf(
            q_sub(vq(y)[i], q_dot(design_row(cols, i), vq(b))),
            q_sub(vq(y)[i], q_dot(design_row(cols, i), vq(b))),
        );
    }
    lemma_q_sum_wf(terms);
}

/// Matrix-level ordinary-least-squares facts carry over to the same
/// design written as a list of columns.
pub proof fn lemma_mat_to_cols(x: Mat, cols: Seq<Seq<Frac>>, y: Seq<Rat>, b: Seq<Rat>)
    requires
        x.wf(),
        cols.len() == x.ncols(),
        forall|j: int| 0 <= j < cols.len() ==> (#[trigger] cols[j]) == x.mcol(j),
        y.len() == x.nrows(),
        normal_equations(x, y, b),
    ensures
        cols_ne(cols, y, b),
        q_sum(sq_resid_seq(x, y, b)) == cols_sse(cols, y, b),
{
    assert forall|j: int| 0 <= j < cols.len() implies q_eq(
        #[trigger] q_dot(cols_gram_row(cols, j), vq(b)),
        q_dot(cols[j], vq(y)),
    ) by {
        assert(cols_gram_row(cols, j) =~= gram_row(x, j));
        assert(q_dot(cols[j], vq(y)) == q_dot(x.mcol(j), vq(y)));
    }
    assert forall|i: int| 0 <= i < y.len() implies design_row(cols, i) =~= x.mrow(i) by {
        assert forall|j: int| 0 <= j < cols.len() implies design_row(cols, i)[j] == x.mrow(i)[j]
            by {
            assert(cols[j] == x.mcol(j));
            assert(cols[j][i] == x.mcol(j)[i]);
        }
    }
    assert(sq_resid_seq(x, y, b) =~= Seq::new(
        y.len(),
        |i: int|
            q_mul(
                q_sub(vq(y)[i], q_dot(design_row(cols, i), vq(b))),
                q_sub(vq(y)[i], q_dot(design_row(cols, i), vq(b))),
            ),
    ));
}

/// The result of a one-way analysis of variance, in exact rationals.
/// `sse0` and `sse1` are the exact residual sums of squares of the
/// intercept-only model and the full dummy-coded model, whose
/// coefficients `beta0` and `beta1` satisfy the respective normal
/// equations; `ss_between = sse0 - sse1`, `ss_within = sse1`, and
/// `F = (ss_between/df_between) / (ss_within/df_within)`.  The p-value,
/// the upper tail of the F distribution at `f`, is the caller's.
pub struct OneWayAnova {
    pub levels: Vec<String>,
    pub beta0: Vec<Rat>,
    pub beta1: Vec<Rat>,
    pub sse0: Rat,
    pub sse1: Rat,
    pub df_between: usize,
    pub df_within: usize,
    pub ss_between: Rat,
    pub ss_within: Rat,
    pub f: Rat,
}

/// One-way analysis of variance of a numeric column over a categorical
/// factor, by comparing the intercept-only model with the dummy-coded
/// factor model.
#[verifier::rlimit(100)]
#[verifier::spinoff_prover]
pub fn one_way_anova(y: &Vec<Rat>, groups: &Vec<String>) -> (r: Result<OneWayAnova, StatError>)
    requires
        rats_wf(y@),
    ensures
        (y@.len() != groups@.len()) <==> (r is Err && r->Err_0 == StatError::InputError),
        (y@.len() == groups@.len() && !has_two_distinct(groups@)) <==> (r is Err && r->Err_0
            == StatError::DegenerateFactorError),
        r is Err ==> r->Err_0 == StatError::InputError || r->Err_0
            == StatError::DegenerateFactorError || r->Err_0 == StatError::SampleSizeError
            || r->Err_0 == StatError::SingularMatrixError || r->Err_0 == StatError::ZeroVarianceError
            || r->Err_0 == StatError::OverflowError,
        r is Err && r->Err_0 == StatError::SampleSizeError ==> exists|lv: Seq<String>|
            #[trigger] level_list_of(groups@, lv) && y@.len() <= lv.len(),
        r is Err && r->Err_0 == StatError::ZeroVarianceError ==> exists|
            lv: Seq<String>,
            b: Seq<Rat>,
        |
            level_list_of(groups@, lv) && q_eq(
                #[trigger] cols_sse(oneway_design_cols(groups@, lv), y@, b),
                q_int(0),
            ),
        r is Ok ==> ({
            let a = r->Ok_0;
            let k = a.levels@.len();
            let n = y@.len();
            &&& level_list_of(groups@, a.levels@)
            &&& k >= 2
            &&& n == groups@.len() && n > k
            &&& rats_wf(a.beta0@) && a.beta0@.len() == 1
            &&& rats_wf(a.beta1@) && a.beta1@.len() == k
            &&& a.df_between == k - 1
            &&& a.df_within == n - k
            &&& a.ss_within == a.sse1
        }),
        r is Ok ==> ({
            let a = r->Ok_0;
            let n = y@.len();
            let cols0 = intercept_only_cols(n as int);
            &&& cols_ne(cols0, y@, a.beta0@)
            &&& q_wf(a.sse0@) && q_eq(a.sse0@, cols_sse(cols0, y@, a.beta0@))
            &&& q_eq(a.sse0@, sst_of(y@))
        }),
        r is Ok ==> ({
            let a = r->Ok_0;
            let cols1 = oneway_design_cols(groups@, a.levels@);
            &&& cols_ne(cols1, y@, a.beta1@)
            &&& q_wf(a.sse1@) && q_eq(a.sse1@, cols_sse(cols1, y@, a.beta1@))
            &&& !q_eq(a.sse1@, q_int(0))
            &&& (exists|m: Mat| #[trigger] crate::regression::cols_gram_inverse(cols1, m))
        }),
        r is Ok ==> ({
            let a = r->Ok_0;
            let k = a.levels@.len();
            let n = y@.len();
            &&& q_wf(a.ss_between@) && q_eq(a.ss_between@, q_sub(a.sse0@, a.sse1@))
            &&& q_le(q_int(0), a.ss_between@)
            &&& q_le(q_int(0), a.ss_within@)
            &&& q_wf(a.f@) && q_eq(
                a.f@,
                q_div(
                    q_div(q_sub(a.sse0@, a.sse1@), q_int(k - 1)),
                    q_div(a.sse1@, q_int(n as int - k)),
                ),
            )
        }),
{
    let n: usize = y.len();
    if groups.len() != n {
        return Err(StatError::InputError);
    }
    let (dummies, lv) = build_dummy_columns(groups);
    let k: usize = lv.len();
    if k < 2 {
        return Err(StatError::DegenerateFactorError);
    }
    // Model 1: intercept + dummies.
    let x1: Mat = match assemble_design(n, &dummies, true) {
        Ok(m) => m,
        Err(_) => {
            return Err(StatError::OverflowError);
        },
    };
    let ghost cols1: Seq<Seq<Frac>> = oneway_design_cols(groups@, lv@);
    proof {
        assert forall|j: int| 0 <= j < cols1.len() implies (#[trigger] cols1[j]) == x1.mcol(j) by {
            if j == 0 {
                assert(cols1[0] =~= x1.mcol(0));
            } else {
                assert(vq(dummies@[j - 1]@) =~= indicator_col(groups@, lv@[j]@));
                assert forall|i: int| 0 <= i < n as int implies x1.mcol(j)[i] == indicator_col(
                    groups@,
                    lv@[j]@,
                )[i] by {
                    assert(x1.ent(i, (j - 1) + 1) == dummies@[j - 1]@[i]@);
                }
                assert(cols1[j] =~= x1.mcol(j));
            }
        }
    }
    let fit1: OlsFit = match fit(y, &x1, true) {
        Ok(f) => f,
        Err(e) => {
            if e == StatError::SampleSizeError {
                proof {
                    assert(level_list_of(groups@, lv@) && y@.len() <= lv@.len());
                }
                return Err(StatError::SampleSizeError);
            }
            if e == StatError::SingularMatrixError {
                return Err(StatError::SingularMatrixError);
            }
            return Err(StatError::OverflowError);
        },
    };
    proof {
        lemma_mat_to_cols(x1, cols1, y@, fit1.beta@);
    }
    // Model 0: intercept only.
    let empty_cols: Vec<Vec<Rat>> = Vec::new();
    let x0: Mat = match assemble_design(n, &empty_cols, true) {
        Ok(m) => m,
        Err(_) => {
            return Err(StatError::OverflowError);
        },
    };
    let ghost cols0: Seq<Seq<Frac>> = intercept_only_cols(n as int);
    proof {
        assert forall|j: int| 0 <= j < cols0.len() implies (#[trigger] cols0[j]) == x0.mcol(j) by {
            assert(cols0[0] =~= x0.mcol(0));
        }
    }
    let fit0: OlsFit = match fit(y, &x0, false) {
        Ok(f) => f,
        Err(e) => {
            if e == StatError::SingularMatrixError {
                return Err(StatError::SingularMatrixError);
            }
            return Err(StatError::OverflowError);
        },
    };
    proof {
        lemma_mat_to_cols(x0, cols0, y@, fit0.beta@);
        // The Gram matrix of the factor design has an exact inverse.
        match fit1.xtx_inv {
            Some(m) => {
                assert forall|i: int, j: int|
                    0 <= i < cols1.len() && 0 <= j < cols1.len() implies q_eq(
                    #[trigger] q_dot(cols_gram_row(cols1, i), m.mcol(j)),
                    q_int(if i == j { 1int } else { 0int }),
                ) by {
                    assert(cols_gram_row(cols1, i) =~= crate::ols::gram_row(x1, i));
                }
                assert(crate::regression::cols_gram_inverse(cols1, m));
                assert(exists|mm: Mat| #[trigger] crate::regression::cols_gram_inverse(
                    cols1,
                    mm,
                ));
            },
            None => {
                assert(false);
            },
        }
        // The intercept-only residual sum of squares is the total sum
        // of squares about the mean.
        assert forall|j: int| 0 <= j < cols0.len() implies (#[trigger] cols0[j]).len() == y@.len()
            && all_wf(cols0[j]) by {
            x0.lemma_col_wf(j);
        }
        lemma_intercept_ne_gives_mean(y@, fit0.beta@);
        lemma_mean_coeff_sse_is_sst(y@, fit0.beta@);
        lemma_cols_sse_wf(cols0, y@, fit0.beta@);
        lemma_q_eq_trans(fit0.sse@, cols_sse(cols0, y@, fit0.beta@), sst_of(y@));
        // The within sum of squares is nonnegative.
        assert forall|j: int| 0 <= j < cols1.len() implies (#[trigger] cols1[j]).len() == y@.len()
            && all_wf(cols1[j]) by {
            x1.lemma_col_wf(j);
        }
        lemma_cols_sse_nonneg(cols1, y@, fit1.beta@);
        lemma_cols_sse_wf(cols1, y@, fit1.beta@);
        lemma_q_le_congr(q_int(0), q_int(0), cols_sse(cols1, y@, fit1.beta@), fit1.sse@);
    }
    // A zero-padded copy of the intercept fit embeds the smaller model
    // in the factor design, so its residual sum of squares bounds the
    // factor model's from above.
    let mut pad: Vec<Rat> = Vec::new();
    pad.push(fit0.beta[0]);
    let mut tpad: usize = 1;
    while tpad < k
        invariant
            1 <= tpad <= k,
            pad@.len() == tpad as int,
            rats_wf(pad@),
            pad@[0] == fit0.beta@[0],
            forall|j: int| 1 <= j < pad@.len() ==> (#[trigger] vq(pad@)[j]) == q_int(0),
            rats_wf(fit0.beta@),
            q_wf(fit0.beta@[0]@),
        decreases k - tpad,
    {
        let ghost old_pad: Seq<Rat> = pad@;
        pad.push(Rat::from_int(0));
        proof {
            assert forall|j: int| 1 <= j < pad@.len() implies (#[trigger] vq(pad@)[j]) == q_int(0)
                by {
                if j < old_pad.len() {
                    assert(pad@[j] == old_pad[j]);
                    assert(vq(old_pad)[j] == q_int(0));
                } else {
                    assert(pad@[j]@ == q_int(0));
                }
            }
        }
        tpad = tpad + 1;
    }
    proof {
        lemma_first_col_padding(cols1, y@, fit0.beta@, pad@);
        assert(seq![cols1[0]] =~= cols0);
        lemma_ne_minimizes_sse(cols1, y@, fit1.beta@, pad@);
        lemma_cols_sse_wf(cols1, y@, pad@);
        lemma_q_eq_trans(
            cols_sse(cols1, y@, pad@),
            cols_sse(cols0, y@, fit0.beta@),
            fit0.sse@,
        );
        lemma_q_le_congr(
            cols_sse(cols1, y@, fit1.beta@),
            fit1.sse@,
            cols_sse(cols1, y@, pad@),
            fit0.sse@,
        );
        lemma_s_sub_nonneg(fit0.sse@, fit1.sse@);
        lemma_q_ops_wf(fit0.sse@, fit1.sse@);
    }
    proof {
        assert forall|j: int| 0 <= j < cols1.len() implies all_wf(#[trigger] cols1[j]) by {
            x1.lemma_col_wf(j);
        }
        assert(forall|j: int| 0 <= j < cols1.len() ==> (#[trigger] cols1[j]).len() == y@.len());
        lemma_cols_sse_wf(cols1, y@, fit1.beta@);
    }
    if fit1.sse.is_zero() {
        proof {
            lemma_q_eq_sign(fit1.sse@, cols_sse(cols1, y@, fit1.beta@));
            assert(level_list_of(groups@, lv@) && q_eq(
                cols_sse(oneway_design_cols(groups@, lv@), y@, fit1.beta@),
                q_int(0),
            ));
        }
        return Err(StatError::ZeroVarianceError);
    }
    let ss_between: Rat = match fit0.sse.sub(&fit1.sse) {
        Some(z) => z,
        None => {
            return Err(StatError::OverflowError);
        },
    };
    proof {
        lemma_q_le_congr(
            q_int(0),
            q_int(0),
            q_sub(fit0.sse@, fit1.sse@),
            ss_between@,
        );
    }
    let kb: Rat = Rat::from_nat(k - 1);
    let kw: Rat = Rat::from_nat(n - k);
    let ms_b: Rat = match ss_between.div(&kb) {
        Some(z) => z,
        None => {
            return Err(StatError::OverflowError);
        },
    };
    let ms_w: Rat = match fit1.sse.div(&kw) {
        Some(z) => z,
        None => {
            return Err(StatError::OverflowError);
        },
    };
    let f_val: Rat = match ms_b.div(&ms_w) {
        Some(z) => z,
        None => {
            return Err(StatError::OverflowError);
        },
    };
    proof {
        assert(!q_eq(kb@, q_int(0)));
        assert(!q_eq(kw@, q_int(0)));
        // ms_b ~ (sse0 - sse1) / (k - 1)
        lemma_q_div_congr_l(ss_between@, q_sub(fit0.sse@, fit1.sse@), kb@);
        lemma_q_nonzero_num(kb@);
        lemma_q_div_den_nonzero(ss_between@, kb@);
        lemma_q_eq_trans(
            ms_b@,
            q_div(ss_between@, kb@),
            q_div(q_sub(fit0.sse@, fit1.sse@), q_int(k as int - 1)),
        );
        // the final F ratio
        lemma_q_ops_wf(fit0.sse@, fit1.sse@);
        assert(q_wf(q_div(q_sub(fit0.sse@, fit1.sse@), q_int(k as int - 1)))) by (nonlinear_arith)
            requires
                q_sub(fit0.sse@, fit1.sse@).d > 0,
                k >= 2,
                q_div(q_sub(fit0.sse@, fit1.sse@), q_int(k as int - 1)).d == q_sub(
                    fit0.sse@,
                    fit1.sse@,
                ).d * (k as int - 1),
        ;
        assert(q_wf(q_div(fit1.sse@, q_int(n as int - k as int)))) by (nonlinear_arith)
            requires
                fit1.sse@.d > 0,
                n > k,
                q_div(fit1.sse@, q_int(n as int - k as int)).d == fit1.sse@.d * (n as int
                    - k as int),
        ;
        assert(!q_eq(q_div(fit1.sse@, q_int(n as int - k as int)), q_int(0))) by (nonlinear_arith)
            requires
                q_wf(fit1.sse@),
                !q_eq(fit1.sse@, q_int(0)),
                q_div(fit1.sse@, q_int(n as int - k as int)).n == fit1.sse@.n * 1,
                q_div(fit1.sse@, q_int(n as int - k as int)).d == fit1.sse@.d * (n as int
                    - k as int),
                n > k,
        ;
        lemma_q_eq_sign(ms_w@, q_div(fit1.sse@, q_int(n as int - k as int)));
        lemma_q_div_congr(
            ms_b@,
            q_div(q_sub(fit0.sse@, fit1.sse@), q_int(k as int - 1)),
            ms_w@,
            q_div(fit1.sse@, q_int(n as int - k as int)),
        );
        lemma_q_nonzero_num(ms_w@);
        lemma_q_div_den_nonzero(ms_b@, ms_w@);
        lemma_q_eq_trans(
            f_val@,
            q_div(ms_b@, ms_w@),
            q_div(
                q_div(q_sub(fit0.sse@, fit1.sse@), q_int(k as int - 1)),
                q_div(fit1.sse@, q_int(n as int - k as int)),
            ),
        );
    }
    proof {
        assert(q_eq(fit0.sse@, sst_of(y@)));
        assert(q_le(q_int(0), fit1.sse@));
        assert(q_le(q_int(0), ss_between@));
        assert(exists|m: Mat| #[trigger] crate::regression::cols_gram_inverse(cols1, m));
    }
    Ok(OneWayAnova {
        levels: lv,
        beta0: fit0.beta,
        beta1: fit1.beta,
        sse0: fit0.sse,
        sse1: fit1.sse,
        df_between: k - 1,
        df_within: n - k,
        ss_between,
        ss_within: fit1.sse,
        f: f_val,
    })
}

/// One interaction column: the elementwise product of two indicators.
pub open spec fn inter_col(
    ga: Seq<String>,
    lvl_a: Seq<char>,
    gb: Seq<String>,
    lvl_b: Seq<char>,
) -> Seq<Frac> {
    Seq::new(
        ga.len(),
        |i: int| q_int(if ga[i]@ == lvl_a && gb[i]@ == lvl_b { 1int } else { 0int }),
    )
}

/// The additive two-way design: intercept, dummies of A, dummies of B.
pub open spec fn additive_design_cols(
    ga: Seq<String>,
    la: Seq<String>,
    gb: Seq<String>,
    lb: Seq<String>,
) -> Seq<Seq<Frac>> {
    Seq::new(
        (1 + (la.len() - 1) + (lb.len() - 1)) as nat,
        |j: int|
            if j == 0 {
                const_ones(ga.len() as int)
            } else if j < la.len() {
                indicator_col(ga, la[j]@)
            } else {
                indicator_col(gb, lb[j - la.len() + 1]@)
            },
    )
}

/// The full two-way design: the additive design followed by all
/// `(kA-1)(kB-1)` interaction columns, in row-major pair order.
pub open spec fn full_design_cols(
    ga: Seq<String>,
    la: Seq<String>,
    gb: Seq<String>,
    lb: Seq<String>,
) -> Seq<Seq<Frac>> {
    let p_add = 1 + (la.len() - 1) + (lb.len() - 1);
    Seq::new(
        (p_add + (la.len() - 1) * (lb.len() - 1)) as nat,
        |j: int|
            if j < p_add {
                additive_design_cols(ga, la, gb, lb)[j]
            } else {
                inter_col(
                    ga,
                    la[(j - p_add) / (lb.len() - 1) + 1]@,
                    gb,
                    lb[(j - p_add) % (lb.len() - 1) + 1]@,
                )
            },
    )
}

/// The result of a two-way analysis of variance with Type II sums of
/// squares, in exact rationals.  Four models are fitted: A-only,
/// B-only, additive A+B, and the full model with interactions; each
/// `sse_*` is the exact residual sum of squares of its model and each
/// `beta_*` satisfies that model's normal equations.  The sums of
/// squares are the Type II differences `SS(A) = SSE(B) - SSE(A+B)`,
/// `SS(B) = SSE(A) - SSE(A+B)`, `SS(A:B) = SSE(A+B) - SSE(full)`, and
/// `SS(error) = SSE(full)`; each F ratio divides an effect mean square
/// by the error mean square.  The three p-values are the caller's.
pub struct TwoWayAnova {
    pub levels_a: Vec<String>,
    pub levels_b: Vec<String>,
    pub beta_a: Vec<Rat>,
    pub beta_b: Vec<Rat>,
    pub beta_ab: Vec<Rat>,
    pub beta_full: Vec<Rat>,
    pub sse_a: Rat,
    pub sse_b: Rat,
    pub sse_ab: Rat,
    pub sse_full: Rat,
    pub df_a: usize,
    pub df_b: usize,
    pub df_axb: usize,
    pub df_error: usize,
    pub ss_a: Rat,
    pub ss_b: Rat,
    pub ss_axb: Rat,
    pub ss_error: Rat,
    pub f_a: Rat,
    pub f_b: Rat,
    pub f_axb: Rat,
}

/// Two-way analysis of variance with Type II sums of squares.
#[verifier::rlimit(80)]
pub fn two_way_anova(y: &Vec<Rat>, ga: &Vec<String>, gb: &Vec<String>) -> (r: Result<
    TwoWayAnova,
    StatError,
>)
    requires
        rats_wf(y@),
    ensures
        (y@.len() != ga@.len() || y@.len() != gb@.len()) <==> (r is Err && r->Err_0
            == StatError::InputError),
        (y@.len() == ga@.len() && y@.len() == gb@.len() && (!has_two_distinct(ga@)
            || !has_two_distinct(gb@))) <==> (r is Err && r->Err_0
            == StatError::DegenerateFactorError),
        r is Err ==> r->Err_0 == StatError::InputError || r->Err_0
            == StatError::DegenerateFactorError || r->Err_0 == StatError::SampleSizeError
            || r->Err_0 == StatError::SingularMatrixError || r->Err_0 == StatError::ZeroVarianceError
            || r->Err_0 == StatError::OverflowError,
        r is Ok ==> ({
            let a = r->Ok_0;
            let ka = a.levels_a@.len();
            let kb = a.levels_b@.len();
            let n = y@.len();
            let ca = oneway_design_cols(ga@, a.levels_a@);
            let cb = oneway_design_cols(gb@, a.levels_b@);
            let cab = additive_design_cols(ga@, a.levels_a@, gb@, a.levels_b@);
            let cfull = full_design_cols(ga@, a.levels_a@, gb@, a.levels_b@);
            &&& level_list_of(ga@, a.levels_a@)
            &&& level_list_of(gb@, a.levels_b@)
            &&& ka >= 2 && kb >= 2
            &&& n == ga@.len() && n == gb@.len()
            &&& n > cfull.len()
            &&& rats_wf(a.beta_a@) && cols_ne(ca, y@, a.beta_a@)
            &&& rats_wf(a.beta_b@) && cols_ne(cb, y@, a.beta_b@)
            &&& rats_wf(a.beta_ab@) && cols_ne(cab, y@, a.beta_ab@)
            &&& rats_wf(a.beta_full@) && cols_ne(cfull, y@, a.beta_full@)
            &&& q_wf(a.sse_a@) && q_eq(a.sse_a@, cols_sse(ca, y@, a.beta_a@))
            &&& q_wf(a.sse_b@) && q_eq(a.sse_b@, cols_sse(cb, y@, a.beta_b@))
            &&& q_wf(a.sse_ab@) && q_eq(a.sse_ab@, cols_sse(cab, y@, a.beta_ab@))
            &&& q_wf(a.sse_full@) && q_eq(a.sse_full@, cols_sse(cfull, y@, a.beta_full@))
            &&& a.df_a == ka - 1
            &&& a.df_b == kb - 1
            &&& a.df_axb == (ka - 1) * (kb - 1)
            &&& a.df_error == n - cfull.len()
            &&& q_wf(a.ss_a@) && q_eq(a.ss_a@, q_sub(a.sse_b@, a.sse_ab@))
            &&& q_wf(a.ss_b@) && q_eq(a.ss_b@, q_sub(a.sse_a@, a.sse_ab@))
            &&& q_wf(a.ss_axb@) && q_eq(a.ss_axb@, q_sub(a.sse_ab@, a.sse_full@))
            &&& a.ss_error == a.sse_full
            &&& !q_eq(a.sse_full@, q_int(0))
            &&& q_wf(a.f_a@) && q_eq(
                a.f_a@,
                q_div(
                    q_div(q_sub(a.sse_b@, a.sse_ab@), q_int(ka - 1)),
                    q_div(a.sse_full@, q_int(n - cfull.len())),
                ),
            )
            &&& q_wf(a.f_b@) && q_eq(
                a.f_b@,
                q_div(
                    q_div(q_sub(a.sse_a@, a.sse_ab@), q_int(kb - 1)),
                    q_div(a.sse_full@, q_int(n - cfull.len())),
                ),
            )
            &&& q_wf(a.f_axb@) && q_eq(
                a.f_axb@,
                q_div(
                    q_div(q_sub(a.sse_ab@, a.sse_full@), q_int((ka - 1) * (kb - 1))),
                    q_div(a.sse_full@, q_int(n - cfull.len())),
                ),
            )
        }),
        r is Err && r->Err_0 == StatError::SampleSizeError ==> exists|
            lva: Seq<String>,
            lvb: Seq<String>,
        |
            level_list_of(ga@, lva) && level_list_of(gb@, lvb) && y@.len() <= (
            #[trigger] full_design_cols(ga@, lva, gb@, lvb)).len(),
        r is Err && r->Err_0 == StatError::ZeroVarianceError ==> exists|
            lva: Seq<String>,
            lvb: Seq<String>,
            b: Seq<Rat>,
        |
            level_list_of(ga@, lva) && level_list_of(gb@, lvb) && q_eq(
                #[trigger] cols_sse(full_design_cols(ga@, lva, gb@, lvb), y@, b),
                q_int(0),
            ),
        r is Ok ==> ({
            let a = r->Ok_0;
            let ca = oneway_design_cols(ga@, a.levels_a@);
            let cb = oneway_design_cols(gb@, a.levels_b@);
            let cab = additive_design_cols(ga@, a.levels_a@, gb@, a.levels_b@);
            let cfull = full_design_cols(ga@, a.levels_a@, gb@, a.levels_b@);
            &&& (exists|m: Mat| #[trigger] crate::regression::cols_gram_inverse(ca, m))
            &&& (exists|m: Mat| #[trigger] crate::regression::cols_gram_inverse(cb, m))
            &&& (exists|m: Mat| #[trigger] crate::regression::cols_gram_inverse(cab, m))
            &&& (exists|m: Mat| #[trigger] crate::regression::cols_gram_inverse(cfull, m))
        }),
{
    let n: usize = y.len();
    if ga.len() != n || gb.len() != n {
        return Err(StatError::InputError);
    }
    let (da, la) = build_dummy_columns(ga);
    let (db, lb) = build_dummy_columns(gb);
    let ka: usize = la.len();
    let kb: usize = lb.len();
    if ka < 2 || kb < 2 {
        return Err(StatError::DegenerateFactorError);
    }
    // The interaction columns.
    proof {
        assert forall|j: int, i: int|
            0 <= j < da@.len() && 0 <= i < n as int implies (#[trigger] da@[j]@[i])@ == q_int(0)
            || da@[j]@[i]@ == q_int(1) by {
            assert(vq(da@[j]@)[i] == indicator_col(ga@, la@[j + 1]@)[i]);
        }
        assert forall|j: int, i: int|
            0 <= j < db@.len() && 0 <= i < n as int implies (#[trigger] db@[j]@[i])@ == q_int(0)
            || db@[j]@[i]@ == q_int(1) by {
            assert(vq(db@[j]@)[i] == indicator_col(gb@, lb@[j + 1]@)[i]);
        }
    }
    let inters: Vec<Vec<Rat>> = interaction_columns(&da, &db, n);
    // Factor-only designs.
    let xa: Mat = match assemble_design(n, &da, true) {
        Ok(m) => m,
        Err(_) => {
            return Err(StatError::OverflowError);
        },
    };
    let xb: Mat = match assemble_design(n, &db, true) {
        Ok(m) => m,
        Err(_) => {
            return Err(StatError::OverflowError);
        },
    };
    // The additive design A+B.
    let mut cols_ab: Vec<Vec<Rat>> = Vec::new();
    let mut t: usize = 0;
    while t < ka - 1
        invariant
            0 <= t <= ka - 1,
            2 <= ka,
            ka == la@.len(),
            da@.len() == ka - 1,
            forall|j: int|
                0 <= j < da@.len() ==> (#[trigger] da@[j]@).len() == n as int && rats_wf(da@[j]@),
            cols_ab@.len() == t as int,
            forall|j: int|
                0 <= j < t as int ==> (#[trigger] cols_ab@[j]@) == da@[j]@,
        decreases ka - 1 - t,
    {
        cols_ab.push(copy_rats(&da[t]));
        t = t + 1;
    }
    let mut t2: usize = 0;
    while t2 < kb - 1
        invariant
            0 <= t2 <= kb - 1,
            2 <= ka && 2 <= kb,
            ka == la@.len(),
            kb == lb@.len(),
            da@.len() == ka - 1,
            db@.len() == kb - 1,
            forall|j: int|
                0 <= j < da@.len() ==> (#[trigger] da@[j]@).len() == n as int && rats_wf(da@[j]@),
            forall|j: int|
                0 <= j < db@.len() ==> (#[trigger] db@[j]@).len() == n as int && rats_wf(db@[j]@),
            cols_ab@.len() == ka - 1 + t2 as int,
            forall|j: int|
                0 <= j < ka - 1 ==> (#[trigger] cols_ab@[j]@) == da@[j]@,
            forall|j: int|
                0 <= j < t2 as int ==> (#[trigger] cols_ab@[ka - 1 + j]@) == db@[j]@,
        decreases kb - 1 - t2,
    {
        cols_ab.push(copy_rats(&db[t2]));
        proof {
            assert forall|j: int| 0 <= j < t2 as int + 1 implies (#[trigger] cols_ab@[ka - 1
                + j]@) == db@[j]@ by {
                if j < t2 as int {
                    assert(cols_ab@[ka - 1 + j]@ == db@[j]@);
                }
            }
        }
        t2 = t2 + 1;
    }
    proof {
        assert forall|j: int| 0 <= j < cols_ab@.len() implies rats_wf(#[trigger] cols_ab@[j]@) by {
            if j < ka - 1 {
                assert(cols_ab@[j]@ == da@[j]@);
            } else {
                assert(cols_ab@[(ka - 1) + (j - (ka - 1))]@ == db@[j - (ka - 1)]@);
            }
        }
    }
    let xab: Mat = match assemble_design(n, &cols_ab, true) {
        Ok(m) => m,
        Err(_) => {
            return Err(StatError::OverflowError);
        },
    };
    // The full design with interactions.
    let mut cols_full: Vec<Vec<Rat>> = Vec::new();
    let mut t3: usize = 0;
    let p_main: usize = cols_ab.len();
    while t3 < p_main
        invariant
            0 <= t3 <= p_main,
            p_main == (ka - 1) + (kb - 1),
            cols_ab@.len() == p_main as int,
            forall|j: int|
                0 <= j < cols_ab@.len() ==> rats_wf((#[trigger] cols_ab@[j]@)),
            cols_full@.len() == t3 as int,
            forall|j: int|
                0 <= j < t3 as int ==> (#[trigger] cols_full@[j]@) == cols_ab@[j]@,
        decreases p_main - t3,
    {
        cols_full.push(copy_rats(&cols_ab[t3]));
        t3 = t3 + 1;
    }
    let n_int: usize = inters.len();
    let mut t4: usize = 0;
    while t4 < n_int
        invariant
            0 <= t4 <= n_int,
            n_int == inters@.len(),
            p_main == (ka - 1) + (kb - 1),
            cols_ab@.len() == p_main as int,
            forall|j: int|
                0 <= j < inters@.len() ==> rats_wf((#[trigger] inters@[j]@)),
            cols_full@.len() == p_main as int + t4 as int,
            forall|j: int|
                0 <= j < p_main as int ==> (#[trigger] cols_full@[j]@) == cols_ab@[j]@,
            forall|j: int|
                0 <= j < t4 as int ==> (#[trigger] cols_full@[p_main as int + j]@) == inters@[j]@,
        decreases n_int - t4,
    {
        cols_full.push(copy_rats(&inters[t4]));
        proof {
            assert forall|j: int| 0 <= j < t4 as int + 1 implies (#[trigger] cols_full@[
                p_main as int + j]@) == inters@[j]@ by {
                if j < t4 as int {
                    assert(cols_full@[p_main as int + j]@ == inters@[j]@);
                }
            }
        }
        t4 = t4 + 1;
    }
    proof {
        assert forall|j: int| 0 <= j < cols_full@.len() implies rats_wf(#[trigger] cols_full@[j]@)
            by {
            if j < p_main as int {
                assert(cols_full@[j]@ == cols_ab@[j]@);
            } else {
                assert(cols_full@[p_main as int + (j - p_main as int)]@ == inters@[j
                    - p_main as int]@);
            }
        }
    }
    let xfull: Mat = match assemble_design(n, &cols_full, true) {
        Ok(m) => m,
        Err(_) => {
            return Err(StatError::OverflowError);
        },
    };
    // Connect the four matrices to their specification designs.
    let ghost sca: Seq<Seq<Frac>> = oneway_design_cols(ga@, la@);
    let ghost scb: Seq<Seq<Frac>> = oneway_design_cols(gb@, lb@);
    let ghost scab: Seq<Seq<Frac>> = additive_design_cols(ga@, la@, gb@, lb@);
    let ghost scfull: Seq<Seq<Frac>> = full_design_cols(ga@, la@, gb@, lb@);
    proof {
        lemma_twoway_cols(
            *y,
            *ga,
            *gb,
            la@,
            lb@,
            da@,
            db@,
            inters@,
            cols_ab@,
            cols_full@,
            xa,
            xb,
            xab,
            xfull,
        );
    }
    // Fit the four models, largest first so that a short sample is
    // reported against the full parameter count.
    let fit_full: OlsFit = match fit(y, &xfull, true) {
        Ok(f) => f,
        Err(e) => {
            if e == StatError::SampleSizeError {
                proof {
                    assert(inters@.len() == da@.len() * db@.len());
                    assert(scfull.len() == 1 + (ka as int - 1) + (kb as int - 1) + (ka as int - 1)
                        * (kb as int - 1));
                    assert(xfull.ncols() == scfull.len());
                    assert(level_list_of(ga@, la@) && level_list_of(gb@, lb@) && y@.len()
                        <= full_design_cols(ga@, la@, gb@, lb@).len());
                }
                return Err(StatError::SampleSizeError);
            }
            if e == StatError::SingularMatrixError {
                return Err(StatError::SingularMatrixError);
            }
            return Err(StatError::OverflowError);
        },
    };
    let fit_ab: OlsFit = match fit(y, &xab, true) {
        Ok(f) => f,
        Err(e) => {
            if e == StatError::SingularMatrixError {
                return Err(StatError::SingularMatrixError);
            }
            return Err(StatError::OverflowError);
        },
    };
    let fit_a: OlsFit = match fit(y, &xa, true) {
        Ok(f) => f,
        Err(e) => {
            if e == StatError::SingularMatrixError {
                return Err(StatError::SingularMatrixError);
            }
            return Err(StatError::OverflowError);
        },
    };
    let fit_b: OlsFit = match fit(y, &xb, true) {
        Ok(f) => f,
        Err(e) => {
            if e == StatError::SingularMatrixError {
                return Err(StatError::SingularMatrixError);
            }
            return Err(StatError::OverflowError);
        },
    };
    proof {
        lemma_mat_to_cols(xa, sca, y@, fit_a.beta@);
        lemma_mat_to_cols(xb, scb, y@, fit_b.beta@);
        lemma_mat_to_cols(xab, scab, y@, fit_ab.beta@);
        lemma_mat_to_cols(xfull, scfull, y@, fit_full.beta@);
        // Each design's Gram matrix has a certified exact inverse.
        match fit_a.xtx_inv {
            Some(m) => {
                assert forall|i: int, j: int|
                    0 <= i < sca.len() && 0 <= j < sca.len() implies q_eq(
                    #[trigger] q_dot(cols_gram_row(sca, i), m.mcol(j)),
                    q_int(if i == j { 1int } else { 0int }),
                ) by {
                    assert(cols_gram_row(sca, i) =~= crate::ols::gram_row(xa, i));
                }
                assert(crate::regression::cols_gram_inverse(sca, m));
                assert(exists|mm: Mat| #[trigger] crate::regression::cols_gram_inverse(sca, mm));
            },
            None => {
                assert(false);
            },
        }
        match fit_b.xtx_inv {
            Some(m) => {
                assert forall|i: int, j: int|
                    0 <= i < scb.len() && 0 <= j < scb.len() implies q_eq(
                    #[trigger] q_dot(cols_gram_row(scb, i), m.mcol(j)),
                    q_int(if i == j { 1int } else { 0int }),
                ) by {
                    assert(cols_gram_row(scb, i) =~= crate::ols::gram_row(xb, i));
                }
                assert(crate::regression::cols_gram_inverse(scb, m));
                assert(exists|mm: Mat| #[trigger] crate::regression::cols_gram_inverse(scb, mm));
            },
            None => {
                assert(false);
            },
        }
        match fit_ab.xtx_inv {
            Some(m) => {
                assert forall|i: int, j: int|
                    0 <= i < scab.len() && 0 <= j < scab.len() implies q_eq(
                    #[trigger] q_dot(cols_gram_row(scab, i), m.mcol(j)),
                    q_int(if i == j { 1int } else { 0int }),
                ) by {
                    assert(cols_gram_row(scab, i) =~= crate::ols::gram_row(xab, i));
                }
                assert(crate::regression::cols_gram_inverse(scab, m));
                assert(exists|mm: Mat| #[trigger] crate::regression::cols_gram_inverse(scab, mm));
            },
            None => {
                assert(false);
            },
        }
        match fit_full.xtx_inv {
            Some(m) => {
                assert forall|i: int, j: int|
                    0 <= i < scfull.len() && 0 <= j < scfull.len() implies q_eq(
                    #[trigger] q_dot(cols_gram_row(scfull, i), m.mcol(j)),
                    q_int(if i == j { 1int } else { 0int }),
                ) by {
                    assert(cols_gram_row(scfull, i) =~= crate::ols::gram_row(xfull, i));
                }
                assert(crate::regression::cols_gram_inverse(scfull, m));
                assert(exists|mm: Mat| #[trigger] crate::regression::cols_gram_inverse(
                    scfull,
                    mm,
                ));
            },
            None => {
                assert(false);
            },
        }
        assert forall|j: int| 0 <= j < scfull.len() implies all_wf(#[trigger] scfull[j]) by {
            xfull.lemma_col_wf(j);
        }
        assert(forall|j: int|
            0 <= j < scfull.len() ==> (#[trigger] scfull[j]).len() == y@.len());
        lemma_cols_sse_wf(scfull, y@, fit_full.beta@);
    }
    if fit_full.sse.is_zero() {
        proof {
            lemma_q_eq_sign(fit_full.sse@, cols_sse(scfull, y@, fit_full.beta@));
            assert(level_list_of(ga@, la@) && level_list_of(gb@, lb@) && q_eq(
                cols_sse(full_design_cols(ga@, la@, gb@, lb@), y@, fit_full.beta@),
                q_int(0),
            ));
        }
        return Err(StatError::ZeroVarianceError);
    }
    let p_full: usize = xfull.cols();
    let df_err: usize = n - p_full;
    // Type II differencing.
    let ss_a: Rat = match fit_b.sse.sub(&fit_ab.sse) {
        Some(z) => z,
        None => {
            return Err(StatError::OverflowError);
        },
    };
    let ss_b: Rat = match fit_a.sse.sub(&fit_ab.sse) {
        Some(z) => z,
        None => {
            return Err(StatError::OverflowError);
        },
    };
    let ss_axb: Rat = match fit_ab.sse.sub(&fit_full.sse) {
        Some(z) => z,
        None => {
            return Err(StatError::OverflowError);
        },
    };
    let ms_err: Rat = match fit_full.sse.div(&Rat::from_nat(df_err)) {
        Some(z) => z,
        None => {
            return Err(StatError::OverflowError);
        },
    };
    let f_a: Rat = match ratio_f(&ss_a, ka - 1, &ms_err) {
        Some(z) => z,
        None => {
            return Err(StatError::OverflowError);
        },
    };
    let f_b: Rat = match ratio_f(&ss_b, kb - 1, &ms_err) {
        Some(z) => z,
        None => {
            return Err(StatError::OverflowError);
        },
    };
    let df_axb: usize = match (ka - 1).checked_mul(kb - 1) {
        Some(z) => z,
        None => {
            return Err(StatError::OverflowError);
        },
    };
    proof {
        assert(df_axb as int >= 1) by (nonlinear_arith)
            requires
                df_axb as int == (ka as int - 1) * (kb as int - 1),
                ka >= 2,
                kb >= 2,
        ;
    }
    let f_axb: Rat = match ratio_f(&ss_axb, df_axb, &ms_err) {
        Some(z) => z,
        None => {
            return Err(StatError::OverflowError);
        },
    };
    proof {
        lemma_q_ops_wf(fit_b.sse@, fit_ab.sse@);
        lemma_q_ops_wf(fit_a.sse@, fit_ab.sse@);
        lemma_q_ops_wf(fit_ab.sse@, fit_full.sse@);
        lemma_f_chain(
            ss_a@,
            q_sub(fit_b.sse@, fit_ab.sse@),
            ka as int - 1,
            ms_err@,
            fit_full.sse@,
            df_err as int,
            f_a@,
        );
        lemma_f_chain(
            ss_b@,
            q_sub(fit_a.sse@, fit_ab.sse@),
            kb as int - 1,
            ms_err@,
            fit_full.sse@,
            df_err as int,
            f_b@,
        );
        lemma_f_chain(
            ss_axb@,
            q_sub(fit_ab.sse@, fit_full.sse@),
            df_axb as int,
            ms_err@,
            fit_full.sse@,
            df_err as int,
            f_axb@,
        );
        assert(df_axb as int == (ka as int - 1) * (kb as int - 1));
        assert((ka as int - 1) * (kb as int - 1) >= 1) by (nonlinear_arith)
            requires
                ka >= 2,
                kb >= 2,
        ;
    }
    Ok(TwoWayAnova {
        levels_a: la,
        levels_b: lb,
        beta_a: fit_a.beta,
        beta_b: fit_b.beta,
        beta_ab: fit_ab.beta,
        beta_full: fit_full.beta,
        sse_a: fit_a.sse,
        sse_b: fit_b.sse,
        sse_ab: fit_ab.sse,
        sse_full: fit_full.sse,
        df_a: ka - 1,
        df_b: kb - 1,
        df_axb,
        df_error: df_err,
        ss_a,
        ss_b,
        ss_axb,
        ss_error: fit_full.sse,
        f_a,
        f_b,
        f_axb,
    })
}

/// `(ss / df) / ms_err`, with checked exact arithmetic.
pub fn ratio_f(ss: &Rat, df: usize, ms_err: &Rat) -> (r: Option<Rat>)
    requires
        q_wf(ss@),
        q_wf(ms_err@),
        df >= 1,
    ensures
        r is Some ==> q_wf(r->0@) && q_eq(r->0@, q_div(q_div(ss@, q_int(df as int)), ms_err@)),
{
    let dfr: Rat = Rat::from_nat(df);
    let ms: Rat = match ss.div(&dfr) {
        Some(z) => z,
        None => {
            return None;
        },
    };
    let f: Rat = match ms.div(ms_err) {
        Some(z) => z,
        None => {
            return None;
        },
    };
    proof {
        assert(!q_eq(dfr@, q_int(0)));
        lemma_q_nonzero_num(dfr@);
        lemma_q_div_den_nonzero(ss@, dfr@);
        lemma_q_div_congr_l(ms@, q_div(ss@, q_int(df as int)), ms_err@);
        assert(q_div(ms@, ms_err@).d != 0) by (nonlinear_arith)
            requires
                ms@.d > 0,
                ms_err@.n != 0,
                q_div(ms@, ms_err@).d == ms@.d * ms_err@.n,
        ;
        lemma_q_eq_trans(f@, q_div(ms@, ms_err@), q_div(q_div(ss@, q_int(df as int)), ms_err@));
    }
    Some(f)
}

/// Chain the computed F ratio to its specification form.
pub proof fn lemma_f_chain(
    ss: Frac,
    ss_spec: Frac,
    df: int,
    ms_err: Frac,
    sse_full: Frac,
    df_err: int,
    f: Frac,
)
    requires
        q_wf(ss),
        q_wf(ss_spec),
        q_wf(ms_err),
        q_wf(sse_full),
        df >= 1,
        df_err >= 1,
        q_eq(ss, ss_spec),
        q_eq(ms_err, q_div(sse_full, q_int(df_err))),
        !q_eq(sse_full, q_int(0)),
        q_eq(f, q_div(q_div(ss, q_int(df)), ms_err)),
    ensures
        q_eq(f, q_div(q_div(ss_spec, q_int(df)), q_div(sse_full, q_int(df_err)))),
{
    assert(q_wf(q_div(ss, q_int(df)))) by (nonlinear_arith)
        requires
            ss.d > 0,
            df >= 1,
            q_div(ss, q_int(df)).d == ss.d * df,
    ;
    assert(q_wf(q_div(ss_spec, q_int(df)))) by (nonlinear_arith)
        requires
            ss_spec.d > 0,
            df >= 1,
            q_div(ss_spec, q_int(df)).d == ss_spec.d * df,
    ;
    assert(q_wf(q_div(sse_full, q_int(df_err)))) by (nonlinear_arith)
        requires
            sse_full.d > 0,
            df_err >= 1,
            q_div(sse_full, q_int(df_err)).d == sse_full.d * df_err,
    ;
    assert(!q_eq(q_div(sse_full, q_int(df_err)), q_int(0))) by (nonlinear_arith)
        requires
            q_wf(sse_full),
            !q_eq(sse_full, q_int(0)),
            q_div(sse_full, q_int(df_err)).n == sse_full.n * 1,
            q_div(sse_full, q_int(df_err)).d == sse_full.d * df_err,
            df_err >= 1,
    ;
    lemma_q_eq_sign(ms_err, q_div(sse_full, q_int(df_err)));
    lemma_q_div_congr_l(ss, ss_spec, q_int(df));
    lemma_q_div_congr(
        q_div(ss, q_int(df)),
        q_div(ss_spec, q_int(df)),
        ms_err,
        q_div(sse_full, q_int(df_err)),
    );
    lemma_q_nonzero_num(ms_err);
    lemma_q_div_den_nonzero(q_div(ss, q_int(df)), ms_err);
    lemma_q_eq_trans(
        f,
        q_div(q_div(ss, q_int(df)), ms_err),
        q_div(q_div(ss_spec, q_int(df)), q_div(sse_full, q_int(df_err))),
    );
}

/// The four executable design matrices of a two-way analysis match
/// their specification designs column for column.
#[verifier::rlimit(80)]
proof fn lemma_twoway_cols(
    y: Vec<Rat>,
    ga: Vec<String>,
    gb: Vec<String>,
    la: Seq<String>,
    lb: Seq<String>,
    da: Seq<Vec<Rat>>,
    db: Seq<Vec<Rat>>,
    inters: Seq<Vec<Rat>>,
    cab: Seq<Vec<Rat>>,
    cfull: Seq<Vec<Rat>>,
    xa: Mat,
    xb: Mat,
    xab: Mat,
    xfull: Mat,
)
    requires
        ga@.len() == y@.len(),
        gb@.len() == y@.len(),
        la.len() >= 2,
        lb.len() >= 2,
        da.len() == la.len() - 1,
        db.len() == lb.len() - 1,
        forall|j: int|
            0 <= j < da.len() ==> (#[trigger] da[j]@).len() == y@.len() && vq(da[j]@)
                =~= indicator_col(ga@, la[j + 1]@),
        forall|j: int|
            0 <= j < db.len() ==> (#[trigger] db[j]@).len() == y@.len() && vq(db[j]@)
                =~= indicator_col(gb@, lb[j + 1]@),
        inters.len() == da.len() * db.len(),
        forall|ja: int, jb: int, i: int|
            0 <= ja < da.len() && 0 <= jb < db.len() && 0 <= i < y@.len() ==> (#[trigger] inters[ja
                * db.len() + jb]@[i])@ == q_int(
                if da[ja]@[i]@ == q_int(1) && db[jb]@[i]@ == q_int(1) {
                    1int
                } else {
                    0int
                },
            ),
        cab.len() == (la.len() - 1) + (lb.len() - 1),
        forall|j: int| 0 <= j < la.len() - 1 ==> (#[trigger] cab[j]@) == da[j]@,
        forall|j: int|
            0 <= j < lb.len() - 1 ==> (#[trigger] cab[la.len() - 1 + j]@) == db[j]@,
        cfull.len() == cab.len() + inters.len(),
        forall|j: int| 0 <= j < cab.len() ==> (#[trigger] cfull[j]@) == cab[j]@,
        forall|j: int|
            0 <= j < inters.len() ==> (#[trigger] cfull[cab.len() + j]@) == inters[j]@,
        xa.wf() && xa.nrows() == y@.len() && xa.ncols() == la.len(),
        forall|i: int| 0 <= i < y@.len() ==> #[trigger] xa.ent(i, 0) == q_int(1),
        forall|i: int, j: int|
            0 <= i < y@.len() && 0 <= j < da.len() ==> #[trigger] xa.ent(i, j + 1) == da[j]@[i]@,
        xb.wf() && xb.nrows() == y@.len() && xb.ncols() == lb.len(),
        forall|i: int| 0 <= i < y@.len() ==> #[trigger] xb.ent(i, 0) == q_int(1),
        forall|i: int, j: int|
            0 <= i < y@.len() && 0 <= j < db.len() ==> #[trigger] xb.ent(i, j + 1) == db[j]@[i]@,
        xab.wf() && xab.nrows() == y@.len() && xab.ncols() == cab.len() + 1,
        forall|i: int| 0 <= i < y@.len() ==> #[trigger] xab.ent(i, 0) == q_int(1),
        forall|i: int, j: int|
            0 <= i < y@.len() && 0 <= j < cab.len() ==> #[trigger] xab.ent(i, j + 1) == cab[j]@[i]@,
        xfull.wf() && xfull.nrows() == y@.len() && xfull.ncols() == cfull.len() + 1,
        forall|i: int| 0 <= i < y@.len() ==> #[trigger] xfull.ent(i, 0) == q_int(1),
        forall|i: int, j: int|
            0 <= i < y@.len() && 0 <= j < cfull.len() ==> #[trigger] xfull.ent(i, j + 1)
                == cfull[j]@[i]@,
    ensures
        forall|j: int|
            0 <= j < oneway_design_cols(ga@, la).len() ==> (#[trigger] oneway_design_cols(
                ga@,
                la,
            )[j]) == xa.mcol(j),
        forall|j: int|
            0 <= j < oneway_design_cols(gb@, lb).len() ==> (#[trigger] oneway_design_cols(
                gb@,
                lb,
            )[j]) == xb.mcol(j),
        forall|j: int|
            0 <= j < additive_design_cols(ga@, la, gb@, lb).len() ==> (
            #[trigger] additive_design_cols(ga@, la, gb@, lb)[j]) == xab.mcol(j),
        forall|j: int|
            0 <= j < full_design_cols(ga@, la, gb@, lb).len() ==> (#[trigger] full_design_cols(
                ga@,
                la,
                gb@,
                lb,
            )[j]) == xfull.mcol(j),
{
    let n = y@.len();
    let ka = la.len();
    let kb = lb.len();
    assert forall|j: int| 0 <= j < oneway_design_cols(ga@, la).len() implies (
    #[trigger] oneway_design_cols(ga@, la)[j]) == xa.mcol(j) by {
        if j == 0 {
            assert(oneway_design_cols(ga@, la)[0] =~= xa.mcol(0));
        } else {
            assert forall|i: int| 0 <= i < n implies xa.mcol(j)[i] == indicator_col(
                ga@,
                la[j]@,
            )[i] by {
                assert(xa.ent(i, (j - 1) + 1) == da[j - 1]@[i]@);
                assert(vq(da[j - 1]@)[i] == indicator_col(ga@, la[j]@)[i]);
            }
            assert(oneway_design_cols(ga@, la)[j] =~= xa.mcol(j));
        }
    }
    assert forall|j: int| 0 <= j < oneway_design_cols(gb@, lb).len() implies (
    #[trigger] oneway_design_cols(gb@, lb)[j]) == xb.mcol(j) by {
        if j == 0 {
            assert(oneway_design_cols(gb@, lb)[0] =~= xb.mcol(0));
        } else {
            assert forall|i: int| 0 <= i < n implies xb.mcol(j)[i] == indicator_col(
                gb@,
                lb[j]@,
            )[i] by {
                assert(xb.ent(i, (j - 1) + 1) == db[j - 1]@[i]@);
                assert(vq(db[j - 1]@)[i] == indicator_col(gb@, lb[j]@)[i]);
            }
            assert(oneway_design_cols(gb@, lb)[j] =~= xb.mcol(j));
        }
    }
    assert forall|j: int| 0 <= j < additive_design_cols(ga@, la, gb@, lb).len() implies (
    #[trigger] additive_design_cols(ga@, la, gb@, lb)[j]) == xab.mcol(j) by {
        if j == 0 {
            assert(additive_design_cols(ga@, la, gb@, lb)[0] =~= xab.mcol(0));
        } else if j < ka {
            assert forall|i: int| 0 <= i < n implies xab.mcol(j)[i] == indicator_col(
                ga@,
                la[j]@,
            )[i] by {
                assert(xab.ent(i, (j - 1) + 1) == cab[j - 1]@[i]@);
                assert(cab[j - 1]@ == da[j - 1]@);
                assert(vq(da[j - 1]@)[i] == indicator_col(ga@, la[j]@)[i]);
            }
            assert(additive_design_cols(ga@, la, gb@, lb)[j] =~= xab.mcol(j));
        } else {
            let jb = j - ka;
            assert forall|i: int| 0 <= i < n implies xab.mcol(j)[i] == indicator_col(
                gb@,
                lb[jb + 1]@,
            )[i] by {
                assert(xab.ent(i, (j - 1) + 1) == cab[j - 1]@[i]@);
                assert(cab[(ka - 1) + jb]@ == db[jb]@);
                assert(vq(db[jb]@)[i] == indicator_col(gb@, lb[jb + 1]@)[i]);
            }
            assert(additive_design_cols(ga@, la, gb@, lb)[j] =~= xab.mcol(j));
        }
    }
    let p_add = 1 + (ka - 1) + (kb - 1);
    assert forall|j: int| 0 <= j < full_design_cols(ga@, la, gb@, lb).len() implies (
    #[trigger] full_design_cols(ga@, la, gb@, lb)[j]) == xfull.mcol(j) by {
        if j < p_add {
            assert forall|i: int| 0 <= i < n implies xfull.mcol(j)[i] == xab.mcol(j)[i] by {
                if j > 0 {
                    assert(xfull.ent(i, (j - 1) + 1) == cfull[j - 1]@[i]@);
                    assert(cfull[j - 1]@ == cab[j - 1]@);
                    assert(xab.ent(i, (j - 1) + 1) == cab[j - 1]@[i]@);
                }
            }
            assert(full_design_cols(ga@, la, gb@, lb)[j] == additive_design_cols(
                ga@,
                la,
                gb@,
                lb,
            )[j]);
            assert(xfull.mcol(j) =~= xab.mcol(j));
        } else {
            let tt = j - p_add;
            let ja = tt / (kb - 1);
            let jb = tt % (kb - 1);
            vstd::arithmetic::div_mod::lemma_fundamental_div_mod(tt, kb - 1);
            vstd::arithmetic::div_mod::lemma_mod_division_less_than_divisor(tt, kb - 1);
            assert(tt == (kb - 1) * ja + jb);
            assert(tt < (ka - 1) * (kb - 1));
            assert(ja < ka - 1) by (nonlinear_arith)
                requires
                    tt == (kb - 1) * ja + jb,
                    0 <= jb < kb - 1,
                    tt < (ka - 1) * (kb - 1),
                    0 <= ja,
                    kb - 1 >= 1,
            ;
            assert(ja * (kb - 1) + jb == tt) by (nonlinear_arith)
                requires
                    tt == (kb - 1) * ja + jb,
            ;
            assert forall|i: int| 0 <= i < n implies xfull.mcol(j)[i] == inter_col(
                ga@,
                la[ja + 1]@,
                gb@,
                lb[jb + 1]@,
            )[i] by {
                assert(xfull.ent(i, (j - 1) + 1) == cfull[j - 1]@[i]@);
                assert(cfull[(cab.len() as int) + tt]@ == inters[tt]@);
                assert(j - 1 == cab.len() as int + tt);
                assert(inters[ja * db.len() + jb]@[i]@ == q_int(
                    if da[ja]@[i]@ == q_int(1) && db[jb]@[i]@ == q_int(1) {
                        1int
                    } else {
                        0int
                    },
                ));
                assert(vq(da[ja]@)[i] == indicator_col(ga@, la[ja + 1]@)[i]);
                assert(vq(db[jb]@)[i] == indicator_col(gb@, lb[jb + 1]@)[i]);
            }
            assert(full_design_cols(ga@, la, gb@, lb)[j] =~= xfull.mcol(j));
        }
    }
}

} // verus!
