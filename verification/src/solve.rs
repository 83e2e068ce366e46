use vstd::prelude::*;
use vstd::pervasive::VecAdditionalExecFns;
use crate::rational::{Rat, q_wf, q_eq, q_int, lemma_q_eq_trans};
use crate::sums::{vq, rats_wf, q_dot};
use crate::matrix::Mat;
use crate::error::StatError;

verus! {

/// A rectangular working grid: `n` rows of width `w`, all entries
/// well-formed rationals.
pub open spec fn grid_wf(g: Seq<Vec<Rat>>, n: int, w: int) -> bool {
    g.len() == n && forall|i: int|
        0 <= i < n ==> (#[trigger] g[i])@.len() == w && rats_wf(g[i]@)
}

/// `target - f * base`, elementwise; `None` only on overflow.
fn combine_rows(target: &Vec<Rat>, base: &Vec<Rat>, f: &Rat) -> (r: Option<Vec<Rat>>)
    requires
        rats_wf(target@),
        rats_wf(base@),
        q_wf(f@),
        target@.len() == base@.len(),
    ensures
        r is Some ==> r->0@.len() == target@.len() && rats_wf(r->0@),
{
    let w: usize = target.len();
    let mut out: Vec<Rat> = Vec::new();
    let mut j: usize = 0;
    while j < w
        invariant
            0 <= j <= w,
            w == target@.len(),
            target@.len() == base@.len(),
            rats_wf(target@),
            rats_wf(base@),
            q_wf(f@),
            out@.len() == j as int,
            rats_wf(out@),
        decreases w - j,
    {
        let scaled: Rat = match f.mul(&base[j]) {
            Some(z) => z,
            None => {
                return None;
            },
        };
        let nv: Rat = match target[j].sub(&scaled) {
            Some(z) => z,
            None => {
                return None;
            },
        };
        out.push(nv);
        j = j + 1;
    }
    Some(out)
}

/// The first row that is not yet a pivot row and has a nonzero entry in
/// column `k`.
fn find_pivot(aug: &Vec<Vec<Rat>>, used: &Vec<bool>, k: usize) -> (r: Option<usize>)
    requires
        grid_wf(aug@, aug@.len() as int, aug@.len() as int + 1),
        used@.len() == aug@.len(),
        (k as int) < aug@.len() + 1,
    ensures
        r is Some ==> (r->0 as int) < aug@.len() && used@[r->0 as int] == false,
{
    let n: usize = aug.len();
    let mut i: usize = 0;
    while i < n
        invariant
            0 <= i <= n,
            n == aug@.len(),
            grid_wf(aug@, n as int, n as int + 1),
            used@.len() == n as int,
            (k as int) < n as int + 1,
        decreases n - i,
    {
        if !used[i] {
            let x: Rat = aug[i][k];
            proof {
                assert(rats_wf(aug@[i as int]@));
            }
            if !x.is_zero() {
                return Some(i);
            }
        }
        i = i + 1;
    }
    None
}

/// Solve the square linear system `A x = b` by exact Gauss-Jordan
/// elimination.  The returned solution is certified: on success the
/// contract guarantees that `x` satisfies every equation of the system
/// exactly.  `SingularMatrixError` reports a zero pivot column, the way
/// an exactly singular system shows itself under exact arithmetic.
pub fn solve_square(a: &Mat, b: &Vec<Rat>) -> (r: Result<Vec<Rat>, StatError>)
    requires
        a.wf(),
        rats_wf(b@),
    ensures
        r is Err ==> r->Err_0 == StatError::InputError || r->Err_0
            == StatError::SingularMatrixError || r->Err_0 == StatError::OverflowError,
        (a.nrows() != a.ncols() || b@.len() != a.nrows()) <==> (r is Err && r->Err_0
            == StatError::InputError),
        r is Ok ==> r->Ok_0@.len() == a.ncols() && rats_wf(r->Ok_0@),
        r is Ok ==> forall|i: int|
            0 <= i < a.nrows() ==> q_eq(#[trigger] q_dot(a.mrow(i), vq(r->Ok_0@)), vq(b@)[i]),
{
    let n: usize = a.rows();
    if a.cols() != n || b.len() != n {
        return Err(StatError::InputError);
    }
    // Augmented working grid [A | b].
    let mut aug: Vec<Vec<Rat>> = Vec::new();
    let mut i: usize = 0;
    while i < n
        invariant
            0 <= i <= n,
            n as int == a.nrows(),
            n as int == a.ncols(),
            a.wf(),
            rats_wf(b@),
            b@.len() == n as int,
            grid_wf(aug@, i as int, n as int + 1),
        decreases n - i,
    {
        let mut row: Vec<Rat> = Vec::new();
        let mut j: usize = 0;
        while j < n
            invariant
                0 <= j <= n,
                0 <= i < n,
                n as int == a.nrows(),
                n as int == a.ncols(),
                a.wf(),
                row@.len() == j as int,
                rats_wf(row@),
            decreases n - j,
        {
            row.push(a.get(i, j));
            j = j + 1;
        }
        row.push(b[i]);
        aug.push(row);
        i = i + 1;
    }
    // Gauss-Jordan elimination over the columns.
    let mut used: Vec<bool> = Vec::new();
    let mut t: usize = 0;
    while t < n
        invariant
            0 <= t <= n,
            used@.len() == t as int,
        decreases n - t,
    {
        used.push(false);
        t = t + 1;
    }
    let mut piv: Vec<usize> = Vec::new();
    let mut k: usize = 0;
    while k < n
        invariant
            0 <= k <= n,
            n as int == a.nrows(),
            n as int == a.ncols(),
            b@.len() == n as int,
            grid_wf(aug@, n as int, n as int + 1),
            used@.len() == n as int,
            piv@.len() == k as int,
            forall|t: int| 0 <= t < k as int ==> (#[trigger] piv@[t]) < n,
        decreases n - k,
    {
        let pr: usize = match find_pivot(&aug, &used, k) {
            Some(p) => p,
            None => {
                return Err(StatError::SingularMatrixError);
            },
        };
        used.set(pr, true);
        piv.push(pr);
        let pivval: Rat = aug[pr][k];
        proof {
            assert(rats_wf(aug@[pr as int]@));
        }
        let mut i2: usize = 0;
        while i2 < n
            invariant
                0 <= i2 <= n,
                0 <= k < n,
                pr < n,
                n as int == a.nrows(),
                n as int == a.ncols(),
                b@.len() == n as int,
                q_wf(pivval@),
                grid_wf(aug@, n as int, n as int + 1),
            decreases n - i2,
        {
            if i2 != pr {
                proof {
                    assert(rats_wf(aug@[i2 as int]@));
                }
                let lead: Rat = aug[i2][k];
                if !lead.is_zero() {
                    let f: Rat = match lead.div(&pivval) {
                        Some(z) => z,
                        None => {
                            return Err(StatError::OverflowError);
                        },
                    };
                    let nr: Vec<Rat> = match combine_rows(&aug[i2], &aug[pr], &f) {
                        Some(z) => z,
                        None => {
                            return Err(StatError::OverflowError);
                        },
                    };
                    aug.set(i2, nr);
                }
            }
            i2 = i2 + 1;
        }
        k = k + 1;
    }
    // Read the solution off the pivot rows.
    let mut x: Vec<Rat> = Vec::new();
    let mut k2: usize = 0;
    while k2 < n
        invariant
            0 <= k2 <= n,
            n as int == a.nrows(),
            n as int == a.ncols(),
            b@.len() == n as int,
            grid_wf(aug@, n as int, n as int + 1),
            piv@.len() == n as int,
            forall|t: int| 0 <= t < n as int ==> (#[trigger] piv@[t]) < n,
            x@.len() == k2 as int,
            rats_wf(x@),
        decreases n - k2,
    {
        let pr: usize = piv[k2];
        proof {
            assert(rats_wf(aug@[pr as int]@));
        }
        let d: Rat = aug[pr][k2];
        if d.is_zero() {
            return Err(StatError::SingularMatrixError);
        }
        let xk: Rat = match aug[pr][n].div(&d) {
            Some(z) => z,
            None => {
                return Err(StatError::OverflowError);
            },
        };
        x.push(xk);
        k2 = k2 + 1;
    }
    // Certify the candidate solution against the original system.
    let ax: Vec<Rat> = match a.mul_vec(&x) {
        Ok(v) => v,
        Err(_) => {
            return Err(StatError::OverflowError);
        },
    };
    let mut i3: usize = 0;
    while i3 < n
        invariant
            0 <= i3 <= n,
            n as int == a.nrows(),
            n as int == a.ncols(),
            a.wf(),
            rats_wf(b@),
            b@.len() == n as int,
            x@.len() == n as int,
            rats_wf(x@),
            ax@.len() == n as int,
            rats_wf(ax@),
            forall|i: int|
                0 <= i < n as int ==> q_eq((#[trigger] ax@[i])@, q_dot(a.mrow(i), vq(x@))),
            forall|i: int|
                0 <= i < i3 as int ==> q_eq(#[trigger] q_dot(a.mrow(i), vq(x@)), vq(b@)[i]),
        decreases n - i3,
    {
        let same: bool = match ax[i3].eq_val(&b[i3]) {
            Some(s) => s,
            None => {
                return Err(StatError::OverflowError);
            },
        };
        if !same {
            return Err(StatError::SingularMatrixError);
        }
        proof {
            lemma_q_eq_trans(q_dot(a.mrow(i3 as int), vq(x@)), ax@[i3 as int]@, vq(b@)[i3 as int]);
        }
        i3 = i3 + 1;
    }
    Ok(x)
}

/// The exact inverse of a square matrix, certified column by column: on
/// success each column `j` of the result satisfies `A * inv_col_j = e_j`
/// exactly, so `A * Inv` is exactly the identity.
pub fn invert(a: &Mat) -> (r: Result<Mat, StatError>)
    requires
        a.wf(),
    ensures
        r is Err ==> r->Err_0 == StatError::InputError || r->Err_0
            == StatError::SingularMatrixError || r->Err_0 == StatError::OverflowError,
        (a.nrows() != a.ncols()) <==> (r is Err && r->Err_0 == StatError::InputError),
        r is Ok ==> r->Ok_0.wf() && r->Ok_0.nrows() == a.nrows() && r->Ok_0.ncols() == a.nrows(),
        r is Ok ==> forall|i: int, j: int|
            0 <= i < a.nrows() && 0 <= j < a.nrows() ==> q_eq(
                q_dot(a.mrow(i), r->Ok_0.mcol(j)),
                q_int(if i == j { 1 } else { 0 }),
            ),
{
    let n: usize = a.rows();
    if a.cols() != n {
        return Err(StatError::InputError);
    }
    let mut cols: Vec<Vec<Rat>> = Vec::new();
    let mut j: usize = 0;
    while j < n
        invariant
            0 <= j <= n,
            n as int == a.nrows(),
            n as int == a.ncols(),
            a.wf(),
            cols@.len() == j as int,
            forall|jj: int|
                0 <= jj < j as int ==> (#[trigger] cols@[jj]@).len() == n as int && rats_wf(
                    cols@[jj]@,
                ),
            forall|i: int, jj: int|
                0 <= i < n as int && 0 <= jj < j as int ==> q_eq(
                    #[trigger] q_dot(a.mrow(i), vq(cols@[jj]@)),
                    q_int(if i == jj { 1 } else { 0 }),
                ),
        decreases n - j,
    {
        // Unit vector e_j.
        let mut e: Vec<Rat> = Vec::new();
        let mut i: usize = 0;
        while i < n
            invariant
                0 <= i <= n,
                j < n,
                e@.len() == i as int,
                rats_wf(e@),
                forall|t: int|
                    0 <= t < i as int ==> (#[trigger] e@[t])@ == q_int(
                        if t == j as int { 1 } else { 0 },
                    ),
            decreases n - i,
        {
            if i == j {
                e.push(Rat::from_int(1));
            } else {
                e.push(Rat::from_int(0));
            }
            i = i + 1;
        }
        let xj: Vec<Rat> = match solve_square(a, &e) {
            Ok(v) => v,
            Err(err) => {
                return Err(err);
            },
        };
        proof {
            assert(forall|i: int| 0 <= i < n as int ==> vq(e@)[i] == q_int(if i == j as int { 1 } else { 0 }));
        }
        cols.push(xj);
        j = j + 1;
    }
    proof {
        a.lemma_dims_bounded();
    }
    let m: Mat = match Mat::from_cols(n, &cols) {
        Ok(m) => m,
        Err(_) => {
            return Err(StatError::OverflowError);
        },
    };
    proof {
        assert forall|i: int, jj: int|
            0 <= i < a.nrows() && 0 <= jj < a.nrows() implies q_eq(
            q_dot(a.mrow(i), m.mcol(jj)),
            q_int(if i == jj { 1 } else { 0 }),
        ) by {
            assert(m.mcol(jj) =~= vq(cols@[jj]@));
        }
    }
    Ok(m)
}

} // verus!
