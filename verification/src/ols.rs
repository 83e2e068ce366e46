use vstd::prelude::*;
use crate::rational::{Frac, Rat, q_wf, q_eq, q_int, q_sub, q_mul, q_add, lemma_q_eq_trans,
    lemma_q_add_congr, lemma_q_sub_congr, lemma_q_mul_congr, lemma_q_ops_wf};
use crate::sums::{vq, all_wf, rats_wf, q_sum, q_dot, lemma_q_sum_wf, lemma_q_dot_wf,
    lemma_q_sum_take_succ, lemma_q_dot_congr};
use crate::matrix::Mat;
use crate::solve::{solve_square, invert};
use crate::error::StatError;

verus! {

/// Row `j` of the Gram matrix `X^T X`, written over the columns of `X`.
pub open spec fn gram_row(x: Mat, j: int) -> Seq<Frac> {
    Seq::new(x.ncols() as nat, |k: int| q_dot(x.mcol(j), x.mcol(k)))
}

/// The residual of observation `i` under coefficients `b`.
pub open spec fn resid(x: Mat, y: Seq<Rat>, b: Seq<Rat>, i: int) -> Frac {
    q_sub(vq(y)[i], q_dot(x.mrow(i), vq(b)))
}

/// The squared residuals of all observations.
pub open spec fn sq_resid_seq(x: Mat, y: Seq<Rat>, b: Seq<Rat>) -> Seq<Frac> {
    Seq::new(x.nrows() as nat, |i: int| q_mul(resid(x, y, b, i), resid(x, y, b, i)))
}

/// The coefficients `b` satisfy the normal equations `X^T X b = X^T y`
/// exactly.
pub open spec fn normal_equations(x: Mat, y: Seq<Rat>, b: Seq<Rat>) -> bool {
    forall|j: int|
        0 <= j < x.ncols() ==> q_eq(
            #[trigger] q_dot(gram_row(x, j), vq(b)),
            q_dot(x.mcol(j), vq(y)),
        )
}

/// The matrix `m` is an exact inverse of the Gram matrix of `x`.
pub open spec fn gram_inverse(x: Mat, m: Mat) -> bool {
    &&& m.wf()
    &&& m.nrows() == x.ncols()
    &&& m.ncols() == x.ncols()
    &&& forall|i: int, j: int|
        0 <= i < x.ncols() && 0 <= j < x.ncols() ==> q_eq(
            #[trigger] q_dot(gram_row(x, i), m.mcol(j)),
            q_int(if i == j { 1int } else { 0int }),
        )
}

/// One ordinary-least-squares fit: exact coefficients satisfying the
/// normal equations, the exact residual sum of squares, the residual
/// degrees of freedom, and (on demand) the exact inverse of `X^T X`.
pub struct OlsFit {
    pub beta: Vec<Rat>,
    pub sse: Rat,
    pub df_resid: usize,
    pub xtx_inv: Option<Mat>,
}

proof fn lemma_gram_row_wf(x: Mat, j: int)
    requires
        x.wf(),
        0 <= j < x.ncols(),
    ensures
        all_wf(gram_row(x, j)),
{
    assert forall|k: int| 0 <= k < gram_row(x, j).len() implies q_wf(#[trigger] gram_row(x, j)[k])
        by {
        x.lemma_col_wf(j);
        x.lemma_col_wf(k);
        lemma_q_dot_wf(x.mcol(j), x.mcol(k));
    }
}

/// Fit `y = X b` by exact least squares via the normal equations.
///
/// On success the returned coefficients satisfy `X^T X b = X^T y`
/// exactly, the returned `sse` is exactly the sum of squared residuals
/// of those coefficients, and `df_resid` is `n - p`.  The fit fails with
/// `InputError` when `y` does not match the row count, with
/// `SampleSizeError` when there are no more observations than
/// parameters, with `SingularMatrixError` when elimination meets a zero
/// pivot column (collinear regressors), and with `OverflowError` when an
/// exact intermediate leaves the 128-bit range.
pub fn fit(y: &Vec<Rat>, x: &Mat, want_cov: bool) -> (r: Result<OlsFit, StatError>)
    requires
        x.wf(),
        rats_wf(y@),
    ensures
        r is Err ==> r->Err_0 == StatError::InputError || r->Err_0 == StatError::SampleSizeError
            || r->Err_0 == StatError::SingularMatrixError || r->Err_0 == StatError::OverflowError,
        (y@.len() != x.nrows()) <==> (r is Err && r->Err_0 == StatError::InputError),
        (y@.len() == x.nrows() && x.nrows() <= x.ncols()) <==> (r is Err && r->Err_0
            == StatError::SampleSizeError),
        r is Ok ==> r->Ok_0.beta@.len() == x.ncols() && rats_wf(r->Ok_0.beta@),
        r is Ok ==> normal_equations(*x, y@, r->Ok_0.beta@),
        r is Ok ==> q_wf(r->Ok_0.sse@) && q_eq(
            r->Ok_0.sse@,
            q_sum(sq_resid_seq(*x, y@, r->Ok_0.beta@)),
        ),
        r is Ok ==> r->Ok_0.df_resid == x.nrows() - x.ncols(),
        r is Ok ==> (r->Ok_0.xtx_inv is Some <==> want_cov),
        r is Ok && want_cov ==> gram_inverse(*x, r->Ok_0.xtx_inv->0),
{
    let n: usize = x.rows();
    let p: usize = x.cols();
    if y.len() != n {
        return Err(StatError::InputError);
    }
    if n <= p {
        return Err(StatError::SampleSizeError);
    }
    // Extract the columns of X once.
    let mut cols: Vec<Vec<Rat>> = Vec::new();
    let mut j: usize = 0;
    while j < p
        invariant
            0 <= j <= p,
            n as int == x.nrows(),
            p as int == x.ncols(),
            x.wf(),
            cols@.len() == j as int,
            forall|t: int|
                0 <= t < j as int ==> (#[trigger] cols@[t]@).len() == n as int && rats_wf(
                    cols@[t]@,
                ) && vq(cols@[t]@) =~= x.mcol(t),
        decreases p - j,
    {
        let c: Vec<Rat> = x.col_vec(j);
        proof {
            assert(vq(c@) =~= x.mcol(j as int));
        }
        cols.push(c);
        j = j + 1;
    }
    // The Gram matrix X^T X, column by column.
    let mut gcols: Vec<Vec<Rat>> = Vec::new();
    let mut jg: usize = 0;
    while jg < p
        invariant
            0 <= jg <= p,
            n as int == x.nrows(),
            p as int == x.ncols(),
            n > p,
            x.wf(),
            rats_wf(y@),
            y@.len() == n as int,
            cols@.len() == p as int,
            forall|t: int|
                0 <= t < p as int ==> (#[trigger] cols@[t]@).len() == n as int && rats_wf(
                    cols@[t]@,
                ) && vq(cols@[t]@) =~= x.mcol(t),
            gcols@.len() == jg as int,
            forall|t: int|
                0 <= t < jg as int ==> (#[trigger] gcols@[t]@).len() == p as int && rats_wf(
                    gcols@[t]@,
                ),
            forall|t: int, i: int|
                0 <= t < jg as int && 0 <= i < p as int ==> q_wf((#[trigger] gcols@[t]@[i])@)
                    && q_eq(gcols@[t]@[i]@, q_dot(x.mcol(i), x.mcol(t))),
        decreases p - jg,
    {
        let mut gc: Vec<Rat> = Vec::new();
        let mut ig: usize = 0;
        while ig < p
            invariant
                0 <= ig <= p,
                0 <= jg < p,
                n as int == x.nrows(),
                p as int == x.ncols(),
                n > p,
                x.wf(),
                rats_wf(y@),
                y@.len() == n as int,
                cols@.len() == p as int,
                forall|t: int|
                    0 <= t < p as int ==> (#[trigger] cols@[t]@).len() == n as int && rats_wf(
                        cols@[t]@,
                    ) && vq(cols@[t]@) =~= x.mcol(t),
                gc@.len() == ig as int,
                rats_wf(gc@),
                forall|i: int|
                    0 <= i < ig as int ==> q_eq((#[trigger] gc@[i])@, q_dot(x.mcol(i), x.mcol(
                        jg as int,
                    ))),
            decreases p - ig,
        {
            let d: Rat = match crate::sums::dot_rats(&cols[ig], &cols[jg]) {
                Some(v) => v,
                None => {
                    return Err(StatError::OverflowError);
                },
            };
            gc.push(d);
            ig = ig + 1;
        }
        gcols.push(gc);
        jg = jg + 1;
    }
    proof {
        x.lemma_dims_bounded();
        assert((p as int) * (p as int) <= (n as int) * (p as int)) by (nonlinear_arith)
            requires
                0 <= p as int,
                p as int <= n as int,
        ;
    }
    let g: Mat = match Mat::from_cols(p, &gcols) {
        Ok(m) => m,
        Err(_) => {
            return Err(StatError::OverflowError);
        },
    };
    // The right-hand side X^T y.
    let mut rhs: Vec<Rat> = Vec::new();
    let mut jr: usize = 0;
    while jr < p
        invariant
            0 <= jr <= p,
            n as int == x.nrows(),
            p as int == x.ncols(),
            n > p,
            x.wf(),
            rats_wf(y@),
            y@.len() == n as int,
            cols@.len() == p as int,
            forall|t: int|
                0 <= t < p as int ==> (#[trigger] cols@[t]@).len() == n as int && rats_wf(
                    cols@[t]@,
                ) && vq(cols@[t]@) =~= x.mcol(t),
            rhs@.len() == jr as int,
            rats_wf(rhs@),
            forall|t: int|
                0 <= t < jr as int ==> q_eq((#[trigger] rhs@[t])@, q_dot(x.mcol(t), vq(y@))),
        decreases p - jr,
    {
        let d: Rat = match crate::sums::dot_rats(&cols[jr], y) {
            Some(v) => v,
            None => {
                return Err(StatError::OverflowError);
            },
        };
        rhs.push(d);
        jr = jr + 1;
    }
    // Solve the normal equations.
    let beta: Vec<Rat> = match solve_square(&g, &rhs) {
        Ok(v) => v,
        Err(e) => {
            return Err(e);
        },
    };
    proof {
        lemma_transfer_gram(*x, g, gcols@, rhs@, beta@, y@);
    }
    // Residual sum of squares.
    let yhat: Vec<Rat> = match x.mul_vec(&beta) {
        Ok(v) => v,
        Err(_) => {
            return Err(StatError::OverflowError);
        },
    };
    let mut acc: Rat = Rat::from_int(0);
    let mut i: usize = 0;
    while i < n
        invariant
            0 <= i <= n,
            n as int == x.nrows(),
            p as int == x.ncols(),
            n > p,
            x.wf(),
            rats_wf(y@),
            y@.len() == n as int,
            beta@.len() == p as int,
            rats_wf(beta@),
            yhat@.len() == n as int,
            rats_wf(yhat@),
            forall|t: int|
                0 <= t < n as int ==> q_eq((#[trigger] yhat@[t])@, q_dot(x.mrow(t), vq(beta@))),
            q_wf(acc@),
            q_eq(acc@, q_sum(sq_resid_seq(*x, y@, beta@).take(i as int))),
        decreases n - i,
    {
        proof {
            lemma_sq_resid_all_wf(*x, y@, beta@);
            assert(all_wf(sq_resid_seq(*x, y@, beta@).take(i as int)));
            lemma_q_sum_wf(sq_resid_seq(*x, y@, beta@).take(i as int));
        }
        let e: Rat = match y[i].sub(&yhat[i]) {
            Some(v) => v,
            None => {
                return Err(StatError::OverflowError);
            },
        };
        let sq: Rat = match e.mul(&e) {
            Some(v) => v,
            None => {
                return Err(StatError::OverflowError);
            },
        };
        let acc2: Rat = match acc.add(&sq) {
            Some(v) => v,
            None => {
                return Err(StatError::OverflowError);
            },
        };
        proof {
            let ghost rr = resid(*x, y@, beta@, i as int);
            x.lemma_row_wf(i as int);
            lemma_q_dot_wf(x.mrow(i as int), vq(beta@));
            // e ~ the specification residual
            lemma_q_sub_congr(y@[i as int]@, y@[i as int]@, yhat@[i as int]@, q_dot(
                x.mrow(i as int),
                vq(beta@),
            ));
            lemma_q_ops_wf(y@[i as int]@, yhat@[i as int]@);
            lemma_q_ops_wf(y@[i as int]@, q_dot(x.mrow(i as int), vq(beta@)));
            lemma_q_eq_trans(e@, q_sub(y@[i as int]@, yhat@[i as int]@), rr);
            // sq ~ the squared residual
            lemma_q_mul_congr(e@, rr, e@, rr);
            lemma_q_ops_wf(e@, e@);
            lemma_q_ops_wf(rr, rr);
            lemma_q_eq_trans(sq@, q_mul(e@, e@), q_mul(rr, rr));
            // accumulate
            lemma_q_sum_take_succ(sq_resid_seq(*x, y@, beta@), i as int);
            lemma_sq_resid_all_wf(*x, y@, beta@);
            assert(all_wf(sq_resid_seq(*x, y@, beta@).take(i as int)));
            lemma_q_sum_wf(sq_resid_seq(*x, y@, beta@).take(i as int));
            lemma_q_add_congr(
                acc@,
                q_sum(sq_resid_seq(*x, y@, beta@).take(i as int)),
                sq@,
                q_mul(rr, rr),
            );
            lemma_q_ops_wf(acc@, sq@);
            lemma_q_ops_wf(q_sum(sq_resid_seq(*x, y@, beta@).take(i as int)), q_mul(rr, rr));
            lemma_q_eq_trans(
                acc2@,
                q_add(acc@, sq@),
                q_add(q_sum(sq_resid_seq(*x, y@, beta@).take(i as int)), q_mul(rr, rr)),
            );
        }
        acc = acc2;
        i = i + 1;
    }
    proof {
        assert(sq_resid_seq(*x, y@, beta@).take(n as int) =~= sq_resid_seq(*x, y@, beta@));
    }
    // Coefficient covariance basis, on demand.
    let xtx_inv: Option<Mat> = if want_cov {
        match invert(&g) {
            Ok(m) => {
                proof {
                    lemma_transfer_inverse(*x, g, gcols@, m);
                }
                Some(m)
            },
            Err(e) => {
                return Err(e);
            },
        }
    } else {
        None
    };
    Ok(OlsFit { beta, sse: acc, df_resid: n - p, xtx_inv })
}

proof fn lemma_sq_resid_all_wf(x: Mat, y: Seq<Rat>, b: Seq<Rat>)
    requires
        x.wf(),
        rats_wf(y),
        rats_wf(b),
        y.len() == x.nrows(),
    ensures
        all_wf(sq_resid_seq(x, y, b)),
{
    assert forall|i: int| 0 <= i < sq_resid_seq(x, y, b).len() implies q_wf(
        #[trigger] sq_resid_seq(x, y, b)[i],
    ) by {
        x.lemma_row_wf(i);
        assert(all_wf(vq(b)));
        lemma_q_dot_wf(x.mrow(i), vq(b));
        lemma_q_ops_wf(vq(y)[i], q_dot(x.mrow(i), vq(b)));
        lemma_q_ops_wf(resid(x, y, b, i), resid(x, y, b, i));
    }
}

/// Transfer the solver's certificate on the computed Gram matrix to the
/// normal equations stated over the columns of `X`.
proof fn lemma_transfer_gram(
    x: Mat,
    g: Mat,
    gcols: Seq<Vec<Rat>>,
    rhs: Seq<Rat>,
    beta: Seq<Rat>,
    y: Seq<Rat>,
)
    requires
        x.wf(),
        g.wf(),
        g.nrows() == x.ncols(),
        g.ncols() == x.ncols(),
        gcols.len() == x.ncols(),
        forall|t: int, i: int|
            0 <= t < x.ncols() && 0 <= i < x.ncols() ==> q_wf((#[trigger] gcols[t]@[i])@) && q_eq(
                gcols[t]@[i]@,
                q_dot(x.mcol(i), x.mcol(t)),
            ),
        forall|t: int| 0 <= t < x.ncols() ==> (#[trigger] gcols[t]@).len() == x.ncols(),
        forall|i: int, jj: int|
            0 <= i < x.ncols() && 0 <= jj < x.ncols() ==> g.ent(i, jj) == (#[trigger] gcols[jj]@[
                i
            ])@,
        rhs.len() == x.ncols(),
        rats_wf(rhs),
        forall|t: int| 0 <= t < x.ncols() ==> q_eq((#[trigger] rhs[t])@, q_dot(x.mcol(t), vq(y))),
        beta.len() == x.ncols(),
        rats_wf(beta),
        forall|j: int|
            0 <= j < g.nrows() ==> q_eq(#[trigger] q_dot(g.mrow(j), vq(beta)), vq(rhs)[j]),
    ensures
        normal_equations(x, y, beta),
{
    assert forall|j: int| 0 <= j < x.ncols() implies q_eq(
        #[trigger] q_dot(gram_row(x, j), vq(beta)),
        q_dot(x.mcol(j), vq(y)),
    ) by {
        lemma_gram_row_wf(x, j);
        g.lemma_row_wf(j);
        assert(forall|k: int|
            0 <= k < x.ncols() ==> #[trigger] g.mrow(j)[k] == gcols[k]@[j]@);
        assert(forall|k: int|
            0 <= k < x.ncols() ==> q_eq(#[trigger] gram_row(x, j)[k], g.mrow(j)[k]));
        assert(all_wf(vq(beta)));
        lemma_q_dot_congr(gram_row(x, j), g.mrow(j), vq(beta), vq(beta));
        lemma_q_dot_wf(gram_row(x, j), vq(beta));
        lemma_q_dot_wf(g.mrow(j), vq(beta));
        lemma_q_eq_trans(q_dot(gram_row(x, j), vq(beta)), q_dot(g.mrow(j), vq(beta)), vq(rhs)[j]);
        lemma_q_eq_trans(q_dot(gram_row(x, j), vq(beta)), vq(rhs)[j], q_dot(x.mcol(j), vq(y)));
    }
}

/// Transfer the inverse certificate on the computed Gram matrix to the
/// Gram rows of `X`.
proof fn lemma_transfer_inverse(x: Mat, g: Mat, gcols: Seq<Vec<Rat>>, m: Mat)
    requires
        x.wf(),
        g.wf(),
        g.nrows() == x.ncols(),
        g.ncols() == x.ncols(),
        gcols.len() == x.ncols(),
        forall|t: int, i: int|
            0 <= t < x.ncols() && 0 <= i < x.ncols() ==> q_wf((#[trigger] gcols[t]@[i])@) && q_eq(
                gcols[t]@[i]@,
                q_dot(x.mcol(i), x.mcol(t)),
            ),
        forall|t: int| 0 <= t < x.ncols() ==> (#[trigger] gcols[t]@).len() == x.ncols(),
        forall|i: int, jj: int|
            0 <= i < x.ncols() && 0 <= jj < x.ncols() ==> g.ent(i, jj) == (#[trigger] gcols[jj]@[
                i
            ])@,
        m.wf(),
        m.nrows() == x.ncols(),
        m.ncols() == x.ncols(),
        forall|i: int, j: int|
            0 <= i < g.nrows() && 0 <= j < g.nrows() ==> q_eq(
                q_dot(g.mrow(i), m.mcol(j)),
                q_int(if i == j { 1int } else { 0int }),
            ),
    ensures
        gram_inverse(x, m),
{
    assert forall|i: int, j: int| 0 <= i < x.ncols() && 0 <= j < x.ncols() implies q_eq(
        #[trigger] q_dot(gram_row(x, i), m.mcol(j)),
        q_int(if i == j { 1int } else { 0int }),
    ) by {
        lemma_gram_row_wf(x, i);
        g.lemma_row_wf(i);
        m.lemma_col_wf(j);
        assert(forall|k: int|
            0 <= k < x.ncols() ==> #[trigger] g.mrow(i)[k] == gcols[k]@[i]@);
        assert(forall|k: int|
            0 <= k < x.ncols() ==> q_eq(#[trigger] gram_row(x, i)[k], g.mrow(i)[k]));
        lemma_q_dot_congr(gram_row(x, i), g.mrow(i), m.mcol(j), m.mcol(j));
        lemma_q_dot_wf(gram_row(x, i), m.mcol(j));
        lemma_q_dot_wf(g.mrow(i), m.mcol(j));
        lemma_q_eq_trans(
            q_dot(gram_row(x, i), m.mcol(j)),
            q_dot(g.mrow(i), m.mcol(j)),
            q_int(if i == j { 1int } else { 0int }),
        );
    }
}

} // verus!
