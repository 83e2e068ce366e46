use vstd::prelude::*;
use crate::rational::{Frac, Rat, q_wf, q_eq, q_int, q_add, q_mul, lemma_q_eq_trans,
    lemma_q_add_congr, lemma_q_mul_congr, lemma_q_ops_wf};
use crate::sums::{vq, all_wf, rats_wf, q_dot, lemma_q_dot_wf, lemma_q_dot_take_succ};
use crate::error::StatError;

verus! {

/// A dense matrix of exact rationals, stored row-major.
pub struct Mat {
    r: usize,
    c: usize,
    a: Vec<Rat>,
}

proof fn lemma_idx(i: int, j: int, r: int, c: int)
    requires
        0 <= i < r,
        0 <= j < c,
    ensures
        0 <= i * c + j < r * c,
{
    assert(i * c + j < r * c) by (nonlinear_arith)
        requires
            0 <= i < r,
            0 <= j < c,
    ;
    assert(0 <= i * c) by (nonlinear_arith)
        requires
            0 <= i,
            0 <= c,
    ;
}

impl Mat {
    /// The stored element count matches the dimensions and every entry
    /// is a well-formed rational.
    pub closed spec fn wf(&self) -> bool {
        self.a@.len() == (self.r as int) * (self.c as int) && rats_wf(self.a@)
    }

    pub closed spec fn nrows(&self) -> int {
        self.r as int
    }

    pub closed spec fn ncols(&self) -> int {
        self.c as int
    }

    /// The fraction stored at row `i`, column `j`.
    pub closed spec fn ent(&self, i: int, j: int) -> Frac {
        self.a@[i * (self.c as int) + j]@
    }

    /// Row `i` as a sequence of fractions.
    pub open spec fn mrow(&self, i: int) -> Seq<Frac> {
        Seq::new(self.ncols() as nat, |j: int| self.ent(i, j))
    }

    /// Column `j` as a sequence of fractions.
    pub open spec fn mcol(&self, j: int) -> Seq<Frac> {
        Seq::new(self.nrows() as nat, |i: int| self.ent(i, j))
    }

    pub proof fn lemma_ent_wf(&self, i: int, j: int)
        requires
            self.wf(),
            0 <= i < self.nrows(),
            0 <= j < self.ncols(),
        ensures
            q_wf(self.ent(i, j)),
    {
        lemma_idx(i, j, self.nrows(), self.ncols());
    }

    pub proof fn lemma_row_wf(&self, i: int)
        requires
            self.wf(),
            0 <= i < self.nrows(),
        ensures
            all_wf(self.mrow(i)),
    {
        assert forall|j: int| 0 <= j < self.mrow(i).len() implies q_wf(#[trigger] self.mrow(i)[j])
            by {
            self.lemma_ent_wf(i, j);
        }
    }

    pub proof fn lemma_col_wf(&self, j: int)
        requires
            self.wf(),
            0 <= j < self.ncols(),
        ensures
            all_wf(self.mcol(j)),
    {
        assert forall|i: int| 0 <= i < self.mcol(j).len() implies q_wf(#[trigger] self.mcol(j)[i])
            by {
            self.lemma_ent_wf(i, j);
        }
    }

    /// Dimensions are never negative.
    pub proof fn lemma_dims_nonneg(&self)
        ensures
            self.nrows() >= 0,
            self.ncols() >= 0,
    {
    }

    /// The element count, and hence the product of the dimensions, fits
    /// in `usize`.
    pub proof fn lemma_dims_bounded(&self)
        requires
            self.wf(),
        ensures
            0 <= self.nrows() * self.ncols() <= usize::MAX as int,
    {
        broadcast use vstd::std_specs::vec::axiom_spec_len;

        assert(vstd::std_specs::vec::spec_vec_len(&self.a) == self.a@.len());
    }

    /// Number of rows, as an executable value.
    pub fn rows(&self) -> (n: usize)
        ensures
            n as int == self.nrows(),
    {
        self.r
    }

    /// Number of columns, as an executable value.
    pub fn cols(&self) -> (n: usize)
        ensures
            n as int == self.ncols(),
    {
        self.c
    }

    /// Build a matrix from a row-major list of entries.  Fails exactly
    /// when the element count does not match the dimensions.
    pub fn new(r: usize, c: usize, vals: Vec<Rat>) -> (m: Result<Mat, StatError>)
        requires
            rats_wf(vals@),
        ensures
            m is Ok <==> vals@.len() == (r as int) * (c as int),
            m is Err ==> m->Err_0 == StatError::InputError,
            m is Ok ==> m->Ok_0.wf() && m->Ok_0.nrows() == r as int && m->Ok_0.ncols() == c as int,
            m is Ok ==> forall|i: int, j: int|
                0 <= i < r as int && 0 <= j < c as int ==> m->Ok_0.ent(i, j) == vals@[
                    i * (c as int) + j
                ]@,
    {
        let vl: usize = vals.len();
        let prod: Option<usize> = r.checked_mul(c);
        match prod {
            Some(p) => {
                if vl == p {
                    Ok(Mat { r, c, a: vals })
                } else {
                    Err(StatError::InputError)
                }
            },
            None => {
                proof {
                    assert(vals@.len() != (r as int) * (c as int));
                }
                Err(StatError::InputError)
            },
        }
    }

    /// Build a matrix from a list of equally long columns.
    pub fn from_cols(rows: usize, cols: &Vec<Vec<Rat>>) -> (m: Result<Mat, StatError>)
        requires
            forall|j: int| 0 <= j < cols@.len() ==> rats_wf(#[trigger] cols@[j]@),
        ensures
            m is Ok <==> (forall|j: int|
                0 <= j < cols@.len() ==> (#[trigger] cols@[j]@).len() == rows as int)
                && (rows as int) * (cols@.len() as int) <= usize::MAX as int,
            m is Err ==> m->Err_0 == StatError::InputError,
            m is Ok ==> m->Ok_0.wf() && m->Ok_0.nrows() == rows as int && m->Ok_0.ncols()
                == cols@.len(),
            m is Ok ==> forall|i: int, j: int|
                0 <= i < rows as int && 0 <= j < cols@.len() ==> m->Ok_0.ent(i, j) == cols@[j]@[i]@,
    {
        let p: usize = cols.len();
        let mut ok: bool = true;
        let mut j0: usize = 0;
        while j0 < p
            invariant
                0 <= j0 <= p,
                p == cols@.len(),
                ok <==> (forall|j: int|
                    0 <= j < j0 as int ==> (#[trigger] cols@[j]@).len() == rows as int),
            decreases p - j0,
        {
            if cols[j0].len() != rows {
                ok = false;
            }
            j0 = j0 + 1;
        }
        if !ok {
            return Err(StatError::InputError);
        }
        let prod: Option<usize> = rows.checked_mul(p);
        match prod {
            Some(_) => {
            },
            None => {
                return Err(StatError::InputError);
            },
        }
        let mut data: Vec<Rat> = Vec::new();
        let mut i: usize = 0;
        while i < rows
            invariant
                0 <= i <= rows,
                p == cols@.len(),
                forall|j: int| 0 <= j < p as int ==> (#[trigger] cols@[j]@).len() == rows as int,
                forall|j: int| 0 <= j < cols@.len() ==> rats_wf(#[trigger] cols@[j]@),
                data@.len() == (i as int) * (p as int),
                rats_wf(data@),
                (rows as int) * (p as int) <= usize::MAX as int,
                forall|ii: int, jj: int|
                    0 <= ii < i as int && 0 <= jj < p as int ==> data@[ii * (p as int) + jj]
                        == cols@[jj]@[ii],
            decreases rows - i,
        {
            let mut j: usize = 0;
            while j < p
                invariant
                    0 <= i < rows,
                    0 <= j <= p,
                    p == cols@.len(),
                    forall|jj: int|
                        0 <= jj < p as int ==> (#[trigger] cols@[jj]@).len() == rows as int,
                    forall|jj: int| 0 <= jj < cols@.len() ==> rats_wf(#[trigger] cols@[jj]@),
                    data@.len() == (i as int) * (p as int) + j as int,
                    rats_wf(data@),
                    (rows as int) * (p as int) <= usize::MAX as int,
                    forall|ii: int, jj: int|
                        0 <= ii < i as int && 0 <= jj < p as int ==> data@[ii * (p as int) + jj]
                            == cols@[jj]@[ii],
                    forall|jj: int|
                        0 <= jj < j as int ==> data@[(i as int) * (p as int) + jj] == cols@[jj]@[
                            i as int
                        ],
                decreases p - j,
            {
                proof {
                    lemma_idx(i as int, j as int, rows as int, p as int);
                    assert((i as int) * (p as int) + (j as int) < (rows as int) * (p as int));
                }
                let x: Rat = cols[j][i];
                data.push(x);
                proof {
                    assert forall|ii: int, jj: int|
                        0 <= ii < i as int && 0 <= jj < p as int implies data@[ii * (p as int) + jj]
                        == cols@[jj]@[ii] by {
                        lemma_idx(ii, jj, i as int, p as int);
                        assert(ii * (p as int) + jj < (i as int) * (p as int));
                    }
                }
                j = j + 1;
            }
            proof {
                assert((i as int + 1) * (p as int) == (i as int) * (p as int) + (p as int))
                    by (nonlinear_arith);
                assert forall|ii: int, jj: int|
                    0 <= ii < i as int + 1 && 0 <= jj < p as int implies data@[ii * (p as int) + jj]
                    == cols@[jj]@[ii] by {
                    lemma_idx(ii, jj, i as int + 1, p as int);
                    if ii < i as int {
                        assert(data@[ii * (p as int) + jj] == cols@[jj]@[ii]);
                    } else {
                        assert(data@[(i as int) * (p as int) + jj] == cols@[jj]@[i as int]);
                    }
                }
            }
            i = i + 1;
        }
        let m = Mat { r: rows, c: p, a: data };
        proof {
            assert forall|ii: int, jj: int|
                0 <= ii < rows as int && 0 <= jj < p as int implies m.ent(ii, jj) == cols@[jj]@[ii]@
                by {
                lemma_idx(ii, jj, rows as int, p as int);
            }
        }
        Ok(m)
    }

    /// Column `j` as a vector of exact rationals.
    pub fn col_vec(&self, j: usize) -> (out: Vec<Rat>)
        requires
            self.wf(),
            (j as int) < self.ncols(),
        ensures
            out@.len() == self.nrows(),
            rats_wf(out@),
            forall|i: int| 0 <= i < self.nrows() ==> (#[trigger] out@[i])@ == self.ent(i, j as int),
    {
        let n: usize = self.rows();
        let mut out: Vec<Rat> = Vec::new();
        let mut i: usize = 0;
        while i < n
            invariant
                0 <= i <= n,
                n as int == self.nrows(),
                (j as int) < self.ncols(),
                self.wf(),
                out@.len() == i as int,
                rats_wf(out@),
                forall|ii: int|
                    0 <= ii < i as int ==> (#[trigger] out@[ii])@ == self.ent(ii, j as int),
            decreases n - i,
        {
            out.push(self.get(i, j));
            i = i + 1;
        }
        out
    }

    /// Fetch one entry.
    pub fn get(&self, i: usize, j: usize) -> (x: Rat)
        requires
            self.wf(),
            (i as int) < self.nrows(),
            (j as int) < self.ncols(),
        ensures
            x@ == self.ent(i as int, j as int),
            q_wf(x@),
    {
        let l: usize = self.a.len();
        proof {
            lemma_idx(i as int, j as int, self.nrows(), self.ncols());
        }
        let idx: usize = i * self.c + j;
        self.a[idx]
    }

    /// The matrix product `self * other`; each entry of the result is
    /// exactly the inner product of the matching row and column.
    pub fn mul(&self, other: &Mat) -> (r: Result<Mat, StatError>)
        requires
            self.wf(),
            other.wf(),
        ensures
            r is Err ==> r->Err_0 == StatError::InputError || r->Err_0 == StatError::OverflowError,
            (self.ncols() != other.nrows()) <==> (r is Err && r->Err_0 == StatError::InputError),
            r is Ok ==> r->Ok_0.wf() && r->Ok_0.nrows() == self.nrows() && r->Ok_0.ncols()
                == other.ncols(),
            r is Ok ==> forall|i: int, j: int|
                0 <= i < self.nrows() && 0 <= j < other.ncols() ==> q_eq(
                    #[trigger] r->Ok_0.ent(i, j),
                    q_dot(self.mrow(i), other.mcol(j)),
                ),
    {
        if self.cols() != other.rows() {
            return Err(StatError::InputError);
        }
        let n: usize = self.rows();
        let p: usize = other.cols();
        let mut cols_out: Vec<Vec<Rat>> = Vec::new();
        let mut j: usize = 0;
        while j < p
            invariant
                0 <= j <= p,
                n as int == self.nrows(),
                p as int == other.ncols(),
                self.ncols() == other.nrows(),
                self.wf(),
                other.wf(),
                cols_out@.len() == j as int,
                forall|t: int|
                    0 <= t < j as int ==> (#[trigger] cols_out@[t]@).len() == n as int && rats_wf(
                        cols_out@[t]@,
                    ),
                forall|t: int, i: int|
                    0 <= t < j as int && 0 <= i < n as int ==> q_eq(
                        (#[trigger] cols_out@[t]@[i])@,
                        q_dot(self.mrow(i), other.mcol(t)),
                    ),
            decreases p - j,
        {
            let cj: Vec<Rat> = other.col_vec(j);
            proof {
                assert(vq(cj@) =~= other.mcol(j as int));
            }
            let mut col: Vec<Rat> = Vec::new();
            let mut i: usize = 0;
            while i < n
                invariant
                    0 <= i <= n,
                    0 <= j < p,
                    n as int == self.nrows(),
                    p as int == other.ncols(),
                    self.ncols() == other.nrows(),
                    self.wf(),
                    other.wf(),
                    cj@.len() == other.nrows(),
                    rats_wf(cj@),
                    vq(cj@) =~= other.mcol(j as int),
                    col@.len() == i as int,
                    rats_wf(col@),
                    forall|t: int|
                        0 <= t < i as int ==> q_eq(
                            (#[trigger] col@[t])@,
                            q_dot(self.mrow(t), other.mcol(j as int)),
                        ),
                decreases n - i,
            {
                let d: Rat = match self.row_dot_checked(i, &cj) {
                    Some(z) => z,
                    None => {
                        return Err(StatError::OverflowError);
                    },
                };
                col.push(d);
                i = i + 1;
            }
            cols_out.push(col);
            j = j + 1;
        }
        proof {
            self.lemma_dims_bounded();
            broadcast use vstd::std_specs::vec::axiom_spec_len;

        }
        let m: Mat = match Mat::from_cols(n, &cols_out) {
            Ok(m) => m,
            Err(_) => {
                return Err(StatError::OverflowError);
            },
        };
        Ok(m)
    }

    /// The cross Gram matrix `self^T * other`; entry `(i, j)` is exactly
    /// the inner product of column `i` of `self` with column `j` of
    /// `other`.
    pub fn gram_with(&self, other: &Mat) -> (r: Result<Mat, StatError>)
        requires
            self.wf(),
            other.wf(),
        ensures
            r is Err ==> r->Err_0 == StatError::InputError || r->Err_0 == StatError::OverflowError,
            (self.nrows() != other.nrows()) <==> (r is Err && r->Err_0 == StatError::InputError),
            r is Ok ==> r->Ok_0.wf() && r->Ok_0.nrows() == self.ncols() && r->Ok_0.ncols()
                == other.ncols(),
            r is Ok ==> forall|i: int, j: int|
                0 <= i < self.ncols() && 0 <= j < other.ncols() ==> q_eq(
                    #[trigger] r->Ok_0.ent(i, j),
                    q_dot(self.mcol(i), other.mcol(j)),
                ),
    {
        if self.rows() != other.rows() {
            return Err(StatError::InputError);
        }
        let p1: usize = self.cols();
        let p2: usize = other.cols();
        let mut cols_out: Vec<Vec<Rat>> = Vec::new();
        let mut j: usize = 0;
        while j < p2
            invariant
                0 <= j <= p2,
                p1 as int == self.ncols(),
                p2 as int == other.ncols(),
                self.nrows() == other.nrows(),
                self.wf(),
                other.wf(),
                cols_out@.len() == j as int,
                forall|t: int|
                    0 <= t < j as int ==> (#[trigger] cols_out@[t]@).len() == p1 as int && rats_wf(
                        cols_out@[t]@,
                    ),
                forall|t: int, i: int|
                    0 <= t < j as int && 0 <= i < p1 as int ==> q_eq(
                        (#[trigger] cols_out@[t]@[i])@,
                        q_dot(self.mcol(i), other.mcol(t)),
                    ),
            decreases p2 - j,
        {
            let cj: Vec<Rat> = other.col_vec(j);
            proof {
                assert(vq(cj@) =~= other.mcol(j as int));
            }
            let mut col: Vec<Rat> = Vec::new();
            let mut i: usize = 0;
            while i < p1
                invariant
                    0 <= i <= p1,
                    0 <= j < p2,
                    p1 as int == self.ncols(),
                    p2 as int == other.ncols(),
                    self.nrows() == other.nrows(),
                    self.wf(),
                    other.wf(),
                    cj@.len() == other.nrows(),
                    rats_wf(cj@),
                    vq(cj@) =~= other.mcol(j as int),
                    col@.len() == i as int,
                    rats_wf(col@),
                    forall|t: int|
                        0 <= t < i as int ==> q_eq(
                            (#[trigger] col@[t])@,
                            q_dot(self.mcol(t), other.mcol(j as int)),
                        ),
                decreases p1 - i,
            {
                let ci: Vec<Rat> = self.col_vec(i);
                proof {
                    assert(vq(ci@) =~= self.mcol(i as int));
                }
                let d: Rat = match crate::sums::dot_rats(&ci, &cj) {
                    Some(z) => z,
                    None => {
                        return Err(StatError::OverflowError);
                    },
                };
                col.push(d);
                i = i + 1;
            }
            cols_out.push(col);
            j = j + 1;
        }
        let prod_ok: Option<usize> = p1.checked_mul(p2);
        match prod_ok {
            Some(_) => {
            },
            None => {
                return Err(StatError::OverflowError);
            },
        }
        let m: Mat = match Mat::from_cols(p1, &cols_out) {
            Ok(m) => m,
            Err(_) => {
                return Err(StatError::OverflowError);
            },
        };
        Ok(m)
    }

    /// The product of this matrix with a column vector; each result entry
    /// is exactly the inner product of the matching row with the vector.
    pub fn mul_vec(&self, v: &Vec<Rat>) -> (r: Result<Vec<Rat>, StatError>)
        requires
            self.wf(),
            rats_wf(v@),
        ensures
            r is Err ==> r->Err_0 == StatError::InputError || r->Err_0 == StatError::OverflowError,
            v@.len() != self.ncols() <==> r is Err && r->Err_0 == StatError::InputError,
            r is Ok ==> r->Ok_0@.len() == self.nrows() && rats_wf(r->Ok_0@),
            r is Ok ==> forall|i: int|
                0 <= i < self.nrows() ==> q_eq((#[trigger] r->Ok_0@[i])@, q_dot(self.mrow(i), vq(v@))),
    {
        if v.len() != self.cols() {
            return Err(StatError::InputError);
        }
        let n: usize = self.rows();
        let mut out: Vec<Rat> = Vec::new();
        let mut i: usize = 0;
        while i < n
            invariant
                0 <= i <= n,
                n as int == self.nrows(),
                self.wf(),
                rats_wf(v@),
                v@.len() == self.ncols(),
                out@.len() == i as int,
                rats_wf(out@),
                forall|ii: int|
                    0 <= ii < i as int ==> q_eq(
                        (#[trigger] out@[ii])@,
                        q_dot(self.mrow(ii), vq(v@)),
                    ),
            decreases n - i,
        {
            match self.row_dot_checked(i, v) {
                Some(y) => {
                    out.push(y);
                },
                None => {
                    return Err(StatError::OverflowError);
                },
            }
            i = i + 1;
        }
        Ok(out)
    }

    /// The inner product of row `i` with `v`; `None` only on overflow.
    fn row_dot_checked(&self, i: usize, v: &Vec<Rat>) -> (r: Option<Rat>)
        requires
            self.wf(),
            rats_wf(v@),
            (i as int) < self.nrows(),
            v@.len() == self.ncols(),
        ensures
            r is Some ==> q_wf(r->0@) && q_eq(r->0@, q_dot(self.mrow(i as int), vq(v@))),
    {
        let p: usize = self.cols();
        let mut acc: Rat = Rat::from_int(0);
        let mut k: usize = 0;
        proof {
            self.lemma_row_wf(i as int);
        }
        while k < p
            invariant
                0 <= k <= p,
                p as int == self.ncols(),
                (i as int) < self.nrows(),
                self.wf(),
                rats_wf(v@),
                v@.len() == self.ncols(),
                q_wf(acc@),
                all_wf(self.mrow(i as int)),
                q_eq(acc@, q_dot(self.mrow(i as int).take(k as int), vq(v@).take(k as int))),
            decreases p - k,
        {
            proof {
                assert(all_wf(vq(v@)));
                assert(all_wf(self.mrow(i as int).take(k as int)));
                assert(all_wf(vq(v@).take(k as int)));
                lemma_q_dot_wf(self.mrow(i as int).take(k as int), vq(v@).take(k as int));
            }
            let x: Rat = self.get(i, k);
            let y: Rat = v[k];
            let xy: Rat = match x.mul(&y) {
                Some(z) => z,
                None => {
                    return None;
                },
            };
            let a2: Rat = match acc.add(&xy) {
                Some(z) => z,
                None => {
                    return None;
                },
            };
            proof {
                lemma_q_dot_take_succ(self.mrow(i as int), vq(v@), k as int);
                lemma_q_ops_wf(x@, y@);
                lemma_q_ops_wf(acc@, xy@);
                lemma_q_add_congr(
                    acc@,
                    q_dot(self.mrow(i as int).take(k as int), vq(v@).take(k as int)),
                    xy@,
                    q_mul(x@, y@),
                );
                lemma_q_ops_wf(
                    q_dot(self.mrow(i as int).take(k as int), vq(v@).take(k as int)),
                    q_mul(x@, y@),
                );
                lemma_q_eq_trans(
                    a2@,
                    q_add(acc@, xy@),
                    q_add(
                        q_dot(self.mrow(i as int).take(k as int), vq(v@).take(k as int)),
                        q_mul(x@, y@),
                    ),
                );
            }
            acc = a2;
            k = k + 1;
        }
        proof {
            assert(self.mrow(i as int).take(self.ncols()) =~= self.mrow(i as int));
            assert(vq(v@).take(self.ncols()) =~= vq(v@));
        }
        Some(acc)
    }
}

} // verus!
