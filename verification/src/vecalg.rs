use vstd::prelude::*;
use crate::rational::{Frac, Rat, q_wf, q_eq, q_le, q_int, q_add, q_sub, q_mul, q_div,
    lemma_q_eq_trans,
    lemma_q_add_congr, lemma_q_sub_congr, lemma_q_mul_congr, lemma_q_ops_wf};
use crate::sums::{vq, all_wf, rats_wf, q_sum, q_dot, lemma_q_dot_wf, lemma_q_dot_congr,
    lemma_q_sum_congr, lemma_q_sum_wf};
use crate::matrix::Mat;

verus! {

/// The zero vector of width `w`.
pub open spec fn zvec(w: int) -> Seq<Frac> {
    Seq::new(w as nat, |i: int| q_int(0))
}

/// Elementwise sum of two vectors.
pub open spec fn vec_add(a: Seq<Frac>, b: Seq<Frac>) -> Seq<Frac> {
    Seq::new(a.len(), |i: int| q_add(a[i], b[i]))
}

/// A vector scaled by `c`.
pub open spec fn vec_scale(c: Frac, a: Seq<Frac>) -> Seq<Frac> {
    Seq::new(a.len(), |i: int| q_mul(c, a[i]))
}

/// The linear combination of the rows with coefficients `u`: the row
/// vector `u * R` of matrix algebra, over rows of width `w`.
pub open spec fn lin_comb(u: Seq<Frac>, rows: Seq<Seq<Frac>>, w: int) -> Seq<Frac>
    decreases u.len(),
{
    if u.len() == 0 || rows.len() == 0 {
        zvec(w)
    } else {
        vec_add(lin_comb(u.drop_last(), rows.drop_last(), w), vec_scale(u.last(), rows.last()))
    }
}

/// Distribution of a product over a sum of fractions.
#[verifier::rlimit(30)]
proof fn lemma_s_mul_add(a: Frac, b: Frac, c: Frac)
    ensures
        q_eq(q_mul(q_add(a, b), c), q_add(q_mul(a, c), q_mul(b, c))),
{
    let x = a.n * b.d * c.n;
    let y = b.n * a.d * c.n;
    assert(q_mul(q_add(a, b), c).n == x + y) by (nonlinear_arith)
        requires
            x == a.n * b.d * c.n,
            y == b.n * a.d * c.n,
    ;
    let x2 = a.n * c.n * (b.d * c.d);
    let y2 = b.n * c.n * (a.d * c.d);
    assert(q_add(q_mul(a, c), q_mul(b, c)).n == x2 + y2) by (nonlinear_arith)
        requires
            x2 == a.n * c.n * (b.d * c.d),
            y2 == b.n * c.n * (a.d * c.d),
    ;
    let d1 = q_mul(q_add(a, b), c).d;
    let d2 = q_add(q_mul(a, c), q_mul(b, c)).d;
    assert((x + y) * d2 == x * d2 + y * d2) by (nonlinear_arith);
    assert((x2 + y2) * d1 == x2 * d1 + y2 * d1) by (nonlinear_arith);
    assert(x * d2 == x2 * d1) by (nonlinear_arith)
        requires
            x == a.n * b.d * c.n,
            x2 == a.n * c.n * (b.d * c.d),
            d1 == a.d * b.d * c.d,
            d2 == (a.d * c.d) * (b.d * c.d),
    ;
    assert(y * d2 == y2 * d1) by (nonlinear_arith)
        requires
            y == b.n * a.d * c.n,
            y2 == b.n * c.n * (a.d * c.d),
            d1 == a.d * b.d * c.d,
            d2 == (a.d * c.d) * (b.d * c.d),
    ;
}

/// Products of fractions associate exactly.
proof fn lemma_s_mul_assoc(a: Frac, b: Frac, c: Frac)
    ensures
        q_mul(q_mul(a, b), c) == q_mul(a, q_mul(b, c)),
{
    assert((a.n * b.n) * c.n == a.n * (b.n * c.n)) by (nonlinear_arith);
    assert((a.d * b.d) * c.d == a.d * (b.d * c.d)) by (nonlinear_arith);
}

/// A sum with a summand equal to zero equals the other summand.
proof fn lemma_s_add_zero(a: Frac, b: Frac, s: Frac)
    requires
        q_wf(a) && q_wf(b),
        q_eq(a, s),
        q_eq(b, q_int(0)),
    ensures
        q_eq(q_add(a, b), s),
{
    assert((a.n * b.d + b.n * a.d) * s.d == s.n * (a.d * b.d)) by (nonlinear_arith)
        requires
            a.n * s.d == s.n * a.d,
            b.n * 1 == 0 * b.d,
    ;
}

/// Multiplying by an exact zero gives zero.
proof fn lemma_s_mul_zero(a: Frac, b: Frac)
    requires
        q_eq(b, q_int(0)),
    ensures
        q_eq(q_mul(a, b), q_int(0)),
{
    assert((a.n * b.n) * 1 == 0 * (a.d * b.d)) by (nonlinear_arith)
        requires
            b.n * 1 == 0 * b.d,
    ;
}

/// The inner product is symmetric.
proof fn lemma_dot_comm(a: Seq<Frac>, b: Seq<Frac>)
    requires
        a.len() == b.len(),
    ensures
        q_dot(a, b) == q_dot(b, a),
    decreases a.len(),
{
    if a.len() == 0 {
    } else {
        lemma_dot_comm(a.drop_last(), b.drop_last());
        assert(a.last().n * b.last().n == b.last().n * a.last().n) by (nonlinear_arith);
        assert(a.last().d * b.last().d == b.last().d * a.last().d) by (nonlinear_arith);
        assert(q_mul(a.last(), b.last()) == q_mul(b.last(), a.last()));
    }
}

/// The inner product with the zero vector is zero.
proof fn lemma_dot_zero(z: Seq<Frac>, w: int)
    requires
        z.len() == w,
        0 <= w,
        all_wf(z),
    ensures
        q_eq(q_dot(zvec(w), z), q_int(0)),
    decreases w,
{
    if w == 0 {
    } else {
        assert(zvec(w).drop_last() =~= zvec(w - 1));
        assert(all_wf(z.drop_last()));
        lemma_dot_zero(z.drop_last(), w - 1);
        lemma_dot_wfs(zvec(w - 1), z.drop_last());
        lemma_s_mul_zero(z.last(), zvec(w).last());
        assert(q_mul(zvec(w).last(), z.last()) == q_mul(
            q_int(0),
            z.last(),
        ));
        assert(q_eq(q_mul(q_int(0), z.last()), q_int(0))) by (nonlinear_arith);
        lemma_s_add_zero_zero(
            q_dot(zvec(w - 1), z.drop_last()),
            q_mul(zvec(w).last(), z.last()),
        );
    }
}

/// A sum of two exact zeros is zero.
proof fn lemma_s_add_zero_zero(a: Frac, b: Frac)
    requires
        q_eq(a, q_int(0)),
        q_eq(b, q_int(0)),
    ensures
        q_eq(q_add(a, b), q_int(0)),
{
    assert((a.n * b.d + b.n * a.d) * 1 == 0 * (a.d * b.d)) by (nonlinear_arith)
        requires
            a.n * 1 == 0 * a.d,
            b.n * 1 == 0 * b.d,
    ;
}

/// Well-formedness of the zero vector and helper for dot products.
proof fn lemma_dot_wfs(a: Seq<Frac>, b: Seq<Frac>)
    requires
        all_wf(a),
        all_wf(b),
    ensures
        q_wf(q_dot(a, b)),
{
    lemma_q_dot_wf(a, b);
}

proof fn lemma_vec_add_wf(a: Seq<Frac>, b: Seq<Frac>)
    requires
        a.len() == b.len(),
        all_wf(a),
        all_wf(b),
    ensures
        all_wf(vec_add(a, b)),
{
    assert forall|i: int| 0 <= i < vec_add(a, b).len() implies q_wf(#[trigger] vec_add(a, b)[i])
        by {
        lemma_q_ops_wf(a[i], b[i]);
    }
}

proof fn lemma_vec_scale_wf(c: Frac, a: Seq<Frac>)
    requires
        q_wf(c),
        all_wf(a),
    ensures
        all_wf(vec_scale(c, a)),
{
    assert forall|i: int| 0 <= i < vec_scale(c, a).len() implies q_wf(#[trigger] vec_scale(c, a)[i])
        by {
        lemma_q_ops_wf(c, a[i]);
    }
}

proof fn lemma_zvec_wf(w: int)
    requires
        0 <= w,
    ensures
        all_wf(zvec(w)),
{
}

/// The inner product distributes over an elementwise vector sum.
proof fn lemma_dot_add_left(x: Seq<Frac>, y: Seq<Frac>, z: Seq<Frac>)
    requires
        x.len() == y.len(),
        x.len() == z.len(),
        all_wf(x),
        all_wf(y),
        all_wf(z),
    ensures
        q_eq(q_dot(vec_add(x, y), z), q_add(q_dot(x, z), q_dot(y, z))),
    decreases x.len(),
{
    if x.len() == 0 {
        assert(q_eq(q_int(0), q_add(q_int(0), q_int(0)))) by (nonlinear_arith);
    } else {
        assert(vec_add(x, y).drop_last() =~= vec_add(x.drop_last(), y.drop_last()));
        assert(all_wf(x.drop_last()));
        assert(all_wf(y.drop_last()));
        assert(all_wf(z.drop_last()));
        lemma_dot_add_left(x.drop_last(), y.drop_last(), z.drop_last());
        let dx = q_dot(x.drop_last(), z.drop_last());
        let dy = q_dot(y.drop_last(), z.drop_last());
        let tx = q_mul(x.last(), z.last());
        let ty = q_mul(y.last(), z.last());
        lemma_dot_wfs(x.drop_last(), z.drop_last());
        lemma_dot_wfs(y.drop_last(), z.drop_last());
        lemma_q_ops_wf(x.last(), z.last());
        lemma_q_ops_wf(y.last(), z.last());
        lemma_q_ops_wf(x.last(), y.last());
        // The head: dot(vec_add', z') ~ (dx + dy); the tail:
        // (x_l + y_l) * z_l ~ (tx + ty).
        lemma_s_mul_add(x.last(), y.last(), z.last());
        // Combine: ((dx + dy) + (tx + ty)) rearranges to
        // ((dx + tx) + (dy + ty)) exactly.
        lemma_s_add_rearrange(dx, dy, tx, ty);
        lemma_q_ops_wf(dx, dy);
        lemma_q_ops_wf(tx, ty);
        lemma_q_ops_wf(q_add(dx, dy), q_add(tx, ty));
        lemma_vec_add_wf(x.drop_last(), y.drop_last());
        lemma_dot_wfs(vec_add(x.drop_last(), y.drop_last()), z.drop_last());
        lemma_q_ops_wf(q_add(x.last(), y.last()), z.last());
        lemma_q_add_congr(
            q_dot(vec_add(x.drop_last(), y.drop_last()), z.drop_last()),
            q_add(dx, dy),
            q_mul(vec_add(x, y).last(), z.last()),
            q_add(tx, ty),
        );
        assert(vec_add(x, y).last() == q_add(x.last(), y.last()));
        lemma_q_eq_trans(
            q_dot(vec_add(x, y), z),
            q_add(q_add(dx, dy), q_add(tx, ty)),
            q_add(q_add(dx, tx), q_add(dy, ty)),
        );
    }
}

/// `((a + b) + (c + d)) == ((a + c) + (b + d))`, exactly.
proof fn lemma_s_add_rearrange(a: Frac, b: Frac, c: Frac, d: Frac)
    ensures
        q_add(q_add(a, b), q_add(c, d)) == q_add(q_add(a, c), q_add(b, d)),
{
    let l = q_add(q_add(a, b), q_add(c, d));
    let r = q_add(q_add(a, c), q_add(b, d));
    assert(l.d == r.d) by (nonlinear_arith)
        requires
            l.d == (a.d * b.d) * (c.d * d.d),
            r.d == (a.d * c.d) * (b.d * d.d),
    ;
    assert((a.n * b.d + b.n * a.d) * (c.d * d.d) == a.n * b.d * c.d * d.d + b.n * a.d * c.d * d.d)
        by (nonlinear_arith);
    assert((c.n * d.d + d.n * c.d) * (a.d * b.d) == c.n * d.d * a.d * b.d + d.n * c.d * a.d * b.d)
        by (nonlinear_arith);
    assert((a.n * c.d + c.n * a.d) * (b.d * d.d) == a.n * c.d * b.d * d.d + c.n * a.d * b.d * d.d)
        by (nonlinear_arith);
    assert((b.n * d.d + d.n * b.d) * (a.d * c.d) == b.n * d.d * a.d * c.d + d.n * b.d * a.d * c.d)
        by (nonlinear_arith);
    assert(a.n * c.d * b.d * d.d == a.n * b.d * c.d * d.d) by (nonlinear_arith);
    assert(c.n * a.d * b.d * d.d == c.n * d.d * a.d * b.d) by (nonlinear_arith);
    assert(b.n * d.d * a.d * c.d == b.n * a.d * c.d * d.d) by (nonlinear_arith);
    assert(d.n * b.d * a.d * c.d == d.n * c.d * a.d * b.d) by (nonlinear_arith);
}

/// The inner product commutes with scaling one side.
proof fn lemma_dot_scale_left(c: Frac, x: Seq<Frac>, z: Seq<Frac>)
    requires
        x.len() == z.len(),
        q_wf(c),
        all_wf(x),
        all_wf(z),
    ensures
        q_eq(q_dot(vec_scale(c, x), z), q_mul(c, q_dot(x, z))),
    decreases x.len(),
{
    if x.len() == 0 {
        assert(q_eq(q_int(0), q_mul(c, q_int(0)))) by (nonlinear_arith)
            requires
                q_mul(c, q_int(0)) == (Frac { n: c.n * 0, d: c.d * 1 }),
        ;
    } else {
        assert(vec_scale(c, x).drop_last() =~= vec_scale(c, x.drop_last()));
        assert(all_wf(x.drop_last()));
        assert(all_wf(z.drop_last()));
        lemma_dot_scale_left(c, x.drop_last(), z.drop_last());
        let dd = q_dot(x.drop_last(), z.drop_last());
        lemma_dot_wfs(x.drop_last(), z.drop_last());
        lemma_q_ops_wf(x.last(), z.last());
        lemma_q_ops_wf(c, dd);
        lemma_q_ops_wf(c, q_mul(x.last(), z.last()));
        // Tail: (c * x_l) * z_l == c * (x_l * z_l), exactly.
        lemma_s_mul_assoc(c, x.last(), z.last());
        assert(vec_scale(c, x).last() == q_mul(c, x.last()));
        lemma_vec_scale_wf(c, x.drop_last());
        lemma_dot_wfs(vec_scale(c, x.drop_last()), z.drop_last());
        lemma_q_ops_wf(c, x.last());
        lemma_q_ops_wf(q_mul(c, x.last()), z.last());
        lemma_q_add_congr(
            q_dot(vec_scale(c, x.drop_last()), z.drop_last()),
            q_mul(c, dd),
            q_mul(vec_scale(c, x).last(), z.last()),
            q_mul(c, q_mul(x.last(), z.last())),
        );
        // c*dd + c*t ~ c*(dd + t).
        lemma_s_mul_add_comm(c, dd, q_mul(x.last(), z.last()));
        lemma_q_ops_wf(q_mul(c, dd), q_mul(c, q_mul(x.last(), z.last())));
        lemma_q_eq_trans(
            q_dot(vec_scale(c, x), z),
            q_add(q_mul(c, dd), q_mul(c, q_mul(x.last(), z.last()))),
            q_mul(c, q_add(dd, q_mul(x.last(), z.last()))),
        );
    }
}

/// `c*a + c*b ~ c*(a + b)`.
proof fn lemma_s_mul_add_comm(c: Frac, a: Frac, b: Frac)
    ensures
        q_eq(q_add(q_mul(c, a), q_mul(c, b)), q_mul(c, q_add(a, b))),
{
    lemma_s_mul_add(a, b, c);
    assert(q_mul(q_add(a, b), c) == q_mul(c, q_add(a, b))) by (nonlinear_arith);
    assert(q_mul(a, c) == q_mul(c, a)) by (nonlinear_arith);
    assert(q_mul(b, c) == q_mul(c, b)) by (nonlinear_arith);
}

/// The coefficient-weighted inner products of the rows with `z`.
pub open spec fn comb_seq(u: Seq<Frac>, rows: Seq<Seq<Frac>>, z: Seq<Frac>) -> Seq<Frac> {
    Seq::new(u.len(), |t: int| q_mul(u[t], q_dot(rows[t], z)))
}

/// Column `j` of a matrix given as a list of rows.
pub open spec fn row_col(rows: Seq<Seq<Frac>>, j: int) -> Seq<Frac> {
    Seq::new(rows.len(), |t: int| rows[t][j])
}

/// The rows of `r` are pairwise orthonormal.
pub open spec fn orthonormal_rows(r: Mat) -> bool {
    forall|a: int, b: int|
        0 <= a < r.nrows() && 0 <= b < r.nrows() ==> q_eq(
            #[trigger] q_dot(r.mrow(a), r.mrow(b)),
            q_int(if a == b { 1int } else { 0int }),
        )
}

/// The total of the squared entries of a matrix, row by row.
pub open spec fn mat_sq_sum(m: Mat) -> Frac {
    q_sum(Seq::new(m.nrows() as nat, |i: int| q_dot(m.mrow(i), m.mrow(i))))
}

proof fn lemma_lin_comb_shape(u: Seq<Frac>, rows: Seq<Seq<Frac>>, w: int)
    requires
        u.len() == rows.len(),
        0 <= w,
        all_wf(u),
        forall|t: int| 0 <= t < rows.len() ==> (#[trigger] rows[t]).len() == w && all_wf(rows[t]),
    ensures
        lin_comb(u, rows, w).len() == w,
        all_wf(lin_comb(u, rows, w)),
    decreases u.len(),
{
    if u.len() == 0 {
        lemma_zvec_wf(w);
    } else {
        assert(all_wf(u.drop_last()));
        lemma_lin_comb_shape(u.drop_last(), rows.drop_last(), w);
        lemma_vec_scale_wf(u.last(), rows.last());
        lemma_vec_add_wf(
            lin_comb(u.drop_last(), rows.drop_last(), w),
            vec_scale(u.last(), rows.last()),
        );
    }
}

/// The inner product of a linear combination of rows with `z` is the
/// coefficient-weighted sum of the rows' inner products with `z`.
proof fn lemma_dot_lin_comb(u: Seq<Frac>, rows: Seq<Seq<Frac>>, z: Seq<Frac>, w: int)
    requires
        u.len() == rows.len(),
        z.len() == w,
        0 <= w,
        all_wf(u),
        all_wf(z),
        forall|t: int| 0 <= t < rows.len() ==> (#[trigger] rows[t]).len() == w && all_wf(rows[t]),
    ensures
        q_eq(q_dot(lin_comb(u, rows, w), z), q_sum(comb_seq(u, rows, z))),
    decreases u.len(),
{
    if u.len() == 0 {
        assert(q_eq(q_dot(zvec(w), z), q_int(0))) by {
            lemma_dot_zero(z, w);
        }
    } else {
        assert(all_wf(u.drop_last()));
        lemma_dot_lin_comb(u.drop_last(), rows.drop_last(), z, w);
        lemma_lin_comb_shape(u.drop_last(), rows.drop_last(), w);
        let lc = lin_comb(u.drop_last(), rows.drop_last(), w);
        let sc = vec_scale(u.last(), rows.last());
        lemma_vec_scale_wf(u.last(), rows.last());
        lemma_dot_add_left(lc, sc, z);
        lemma_dot_scale_left(u.last(), rows.last(), z);
        // Combine the two halves up to rational equality.
        lemma_dot_wfs(lc, z);
        lemma_dot_wfs(sc, z);
        lemma_dot_wfs(rows.last(), z);
        assert(all_wf(comb_seq(u.drop_last(), rows.drop_last(), z))) by {
            assert forall|t: int|
                0 <= t < comb_seq(u.drop_last(), rows.drop_last(), z).len() implies q_wf(
                #[trigger] comb_seq(u.drop_last(), rows.drop_last(), z)[t],
            ) by {
                lemma_dot_wfs(rows.drop_last()[t], z);
                lemma_q_ops_wf(u.drop_last()[t], q_dot(rows.drop_last()[t], z));
            }
        }
        crate::sums::lemma_q_sum_wf(comb_seq(u.drop_last(), rows.drop_last(), z));
        lemma_q_ops_wf(u.last(), q_dot(rows.last(), z));
        lemma_q_add_congr(
            q_dot(lc, z),
            q_sum(comb_seq(u.drop_last(), rows.drop_last(), z)),
            q_dot(sc, z),
            q_mul(u.last(), q_dot(rows.last(), z)),
        );
        lemma_q_ops_wf(q_dot(lc, z), q_dot(sc, z));
        lemma_q_ops_wf(
            q_sum(comb_seq(u.drop_last(), rows.drop_last(), z)),
            q_mul(u.last(), q_dot(rows.last(), z)),
        );
        assert(comb_seq(u, rows, z).drop_last() =~= comb_seq(u.drop_last(), rows.drop_last(), z));
        assert(comb_seq(u, rows, z).last() == q_mul(u.last(), q_dot(rows.last(), z)));
        lemma_q_eq_trans(
            q_dot(lin_comb(u, rows, w), z),
            q_add(q_dot(lc, z), q_dot(sc, z)),
            q_sum(comb_seq(u, rows, z)),
        );
    }
}

/// A sum whose summands are all zero except one equals that one.
proof fn lemma_sum_collapse(s: Seq<Frac>, hot: int, v: Frac)
    requires
        all_wf(s),
        q_wf(v),
        0 <= hot <= s.len(),
        hot < s.len() ==> q_eq(s[hot], v),
        hot == s.len() ==> q_eq(q_int(0), v),
        forall|t: int| 0 <= t < s.len() && t != hot ==> q_eq(#[trigger] s[t], q_int(0)),
    ensures
        q_eq(q_sum(s), v),
    decreases s.len(),
{
    if s.len() == 0 {
    } else {
        assert(all_wf(s.drop_last()));
        crate::sums::lemma_q_sum_wf(s.drop_last());
        if hot == s.len() - 1 {
            lemma_sum_collapse(s.drop_last(), s.len() - 1, q_int(0));
            lemma_s_zero_add(q_sum(s.drop_last()), s.last(), v);
        } else if hot == s.len() {
            lemma_sum_collapse(s.drop_last(), s.len() - 1, q_int(0));
            lemma_s_add_zero_zero(q_sum(s.drop_last()), s.last());
            assert((0int) * v.d == v.n * 1 ==> q_eq(q_int(0), v));
            lemma_zero_chain(q_add(q_sum(s.drop_last()), s.last()), v);
        } else {
            lemma_sum_collapse(s.drop_last(), hot, v);
            lemma_s_add_zero(q_sum(s.drop_last()), s.last(), v);
        }
    }
}

/// A zero plus a value equal to `v` is equal to `v`.
proof fn lemma_s_zero_add(a: Frac, b: Frac, v: Frac)
    requires
        q_wf(a) && q_wf(b),
        q_eq(a, q_int(0)),
        q_eq(b, v),
    ensures
        q_eq(q_add(a, b), v),
{
    assert((a.n * b.d + b.n * a.d) * v.d == v.n * (a.d * b.d)) by (nonlinear_arith)
        requires
            a.n * 1 == 0 * a.d,
            b.n * v.d == v.n * b.d,
    ;
}

/// Something equal to zero is equal to anything zero is equal to.
proof fn lemma_zero_chain(a: Frac, v: Frac)
    requires
        q_eq(a, q_int(0)),
        q_eq(q_int(0), v),
    ensures
        q_eq(a, v),
{
    assert(a.n * v.d == v.n * a.d) by (nonlinear_arith)
        requires
            a.n * 1 == 0 * a.d,
            0 * v.d == v.n * 1,
    ;
}

/// Each entry of a linear combination of rows is the inner product of
/// the coefficients with the matching column.
proof fn lemma_lin_comb_entry(u: Seq<Frac>, rows: Seq<Seq<Frac>>, w: int, j: int)
    requires
        u.len() == rows.len(),
        0 <= w,
        0 <= j < w,
        all_wf(u),
        forall|t: int| 0 <= t < rows.len() ==> (#[trigger] rows[t]).len() == w && all_wf(rows[t]),
    ensures
        q_eq(lin_comb(u, rows, w)[j], q_dot(u, row_col(rows, j))),
    decreases u.len(),
{
    if u.len() == 0 {
    } else {
        assert(all_wf(u.drop_last()));
        lemma_lin_comb_entry(u.drop_last(), rows.drop_last(), w, j);
        lemma_lin_comb_shape(u.drop_last(), rows.drop_last(), w);
        assert(row_col(rows, j).drop_last() =~= row_col(rows.drop_last(), j));
        assert(row_col(rows, j).last() == rows.last()[j]);
        let lcd = lin_comb(u.drop_last(), rows.drop_last(), w);
        assert(lin_comb(u, rows, w)[j] == q_add(lcd[j], q_mul(u.last(), rows.last()[j])));
        assert(all_wf(row_col(rows.drop_last(), j))) by {
            assert forall|t: int|
                0 <= t < row_col(rows.drop_last(), j).len() implies q_wf(
                #[trigger] row_col(rows.drop_last(), j)[t],
            ) by {
                assert(all_wf(rows.drop_last()[t]));
            }
        }
        lemma_dot_wfs(u.drop_last(), row_col(rows.drop_last(), j));
        lemma_q_ops_wf(u.last(), rows.last()[j]);
        lemma_q_add_congr(
            lcd[j],
            q_dot(u.drop_last(), row_col(rows.drop_last(), j)),
            q_mul(u.last(), rows.last()[j]),
            q_mul(u.last(), rows.last()[j]),
        );
    }
}

/// The squared length of a linear combination of orthonormal rows is
/// the squared length of its coefficients.
proof fn lemma_row_norm_preserved(u: Seq<Frac>, rows: Seq<Seq<Frac>>, w: int)
    requires
        u.len() == rows.len(),
        0 <= w,
        all_wf(u),
        forall|t: int| 0 <= t < rows.len() ==> (#[trigger] rows[t]).len() == w && all_wf(rows[t]),
        forall|a: int, b: int|
            0 <= a < rows.len() && 0 <= b < rows.len() ==> q_eq(
                #[trigger] q_dot(rows[a], rows[b]),
                q_int(if a == b { 1int } else { 0int }),
            ),
    ensures
        q_eq(
            q_dot(lin_comb(u, rows, w), lin_comb(u, rows, w)),
            q_dot(u, u),
        ),
{
    let k = u.len() as int;
    let v = lin_comb(u, rows, w);
    lemma_lin_comb_shape(u, rows, w);
    lemma_dot_lin_comb(u, rows, v, w);
    // Each row's inner product with the combination collapses to its
    // own coefficient.
    assert forall|t: int| 0 <= t < k implies q_eq(#[trigger] q_dot(rows[t], v), u[t]) by {
        lemma_dot_comm(rows[t], v);
        lemma_dot_lin_comb(u, rows, rows[t], w);
        let cs = comb_seq(u, rows, rows[t]);
        assert forall|t2: int| 0 <= t2 < k implies q_wf(#[trigger] cs[t2]) by {
            lemma_dot_wfs(rows[t2], rows[t]);
            lemma_q_ops_wf(u[t2], q_dot(rows[t2], rows[t]));
        }
        assert forall|t2: int| 0 <= t2 < k && t2 != t implies q_eq(#[trigger] cs[t2], q_int(0))
            by {
            lemma_s_mul_zero_right(u[t2], q_dot(rows[t2], rows[t]));
        }
        assert(q_eq(cs[t], u[t])) by {
            lemma_s_mul_one_right(u[t], q_dot(rows[t], rows[t]));
        }
        lemma_sum_collapse(cs, t, u[t]);
        crate::sums::lemma_q_sum_wf(cs);
        lemma_q_eq_trans(q_dot(rows[t], v), q_sum(cs), u[t]);
    }
    // The weighted sum of those collapses is the squared length of `u`.
    let outer = comb_seq(u, rows, v);
    let usq = Seq::new(u.len(), |t: int| q_mul(u[t], u[t]));
    assert forall|t: int| 0 <= t < k implies q_wf(#[trigger] outer[t]) && q_eq(
        outer[t],
        usq[t],
    ) by {
        lemma_dot_wfs(rows[t], v);
        lemma_q_ops_wf(u[t], q_dot(rows[t], v));
        lemma_q_ops_wf(u[t], u[t]);
        lemma_q_mul_congr(u[t], u[t], q_dot(rows[t], v), u[t]);
    }
    assert forall|t: int| 0 <= t < usq.len() implies q_wf(#[trigger] usq[t]) by {
        lemma_q_ops_wf(u[t], u[t]);
    }
    assert(all_wf(outer));
    assert(all_wf(usq));
    lemma_q_sum_congr(outer, usq);
    lemma_usq_is_dot(u);
    crate::sums::lemma_q_sum_wf(outer);
    crate::sums::lemma_q_sum_wf(usq);
    lemma_q_eq_trans(q_dot(v, v), q_sum(outer), q_sum(usq));
    lemma_q_eq_trans(q_dot(v, v), q_sum(usq), q_dot(u, u));
}

/// The product of a value with an exact zero is zero.
proof fn lemma_s_mul_zero_right(a: Frac, b: Frac)
    requires
        q_eq(b, q_int(0)),
    ensures
        q_eq(q_mul(a, b), q_int(0)),
{
    assert((a.n * b.n) * 1 == 0 * (a.d * b.d)) by (nonlinear_arith)
        requires
            b.n * 1 == 0 * b.d,
    ;
}

/// The product of a value with an exact one is the value.
proof fn lemma_s_mul_one_right(a: Frac, b: Frac)
    requires
        q_eq(b, q_int(1)),
    ensures
        q_eq(q_mul(a, b), a),
{
    assert((a.n * b.n) * a.d == a.n * (a.d * b.d)) by (nonlinear_arith)
        requires
            b.n * 1 == 1 * b.d,
    ;
}

/// The elementwise squares of a vector sum to its inner product with
/// itself.
proof fn lemma_usq_is_dot(u: Seq<Frac>)
    ensures
        q_sum(Seq::new(u.len(), |t: int| q_mul(u[t], u[t]))) == q_dot(u, u),
    decreases u.len(),
{
    if u.len() == 0 {
    } else {
        lemma_usq_is_dot(u.drop_last());
        assert(Seq::new(u.len(), |t: int| q_mul(u[t], u[t])).drop_last() =~= Seq::new(
            u.drop_last().len(),
            |t: int| q_mul(u.drop_last()[t], u.drop_last()[t]),
        ));
    }
}

/// Rotation by an exactly orthonormal matrix preserves the total of
/// the squared loadings: when `m` is the product `l * r` and the rows
/// of `r` are orthonormal, the squared entries of `m` sum to exactly
/// the same rational as the squared entries of `l`.  This is the
/// variance-preservation law of an orthogonal (Varimax) rotation.
pub proof fn lemma_rotation_preserves_sq_sum(l: Mat, r: Mat, m: Mat)
    requires
        l.wf(),
        r.wf(),
        m.wf(),
        r.nrows() == l.ncols(),
        r.ncols() == l.ncols(),
        m.nrows() == l.nrows(),
        m.ncols() == l.ncols(),
        orthonormal_rows(r),
        forall|i: int, j: int|
            0 <= i < m.nrows() && 0 <= j < m.ncols() ==> q_eq(
                #[trigger] m.ent(i, j),
                q_dot(l.mrow(i), r.mcol(j)),
            ),
    ensures
        q_eq(mat_sq_sum(m), mat_sq_sum(l)),
{
    let w = l.ncols();
    l.lemma_dims_nonneg();
    r.lemma_dims_nonneg();
    m.lemma_dims_nonneg();
    let rrows = Seq::new(r.nrows() as nat, |t: int| r.mrow(t));
    assert forall|t: int| 0 <= t < rrows.len() implies (#[trigger] rrows[t]).len() == w && all_wf(
        rrows[t],
    ) by {
        r.lemma_row_wf(t);
    }
    let ms = Seq::new(m.nrows() as nat, |i: int| q_dot(m.mrow(i), m.mrow(i)));
    let ls = Seq::new(l.nrows() as nat, |i: int| q_dot(l.mrow(i), l.mrow(i)));
    assert forall|i: int| 0 <= i < m.nrows() implies q_wf(#[trigger] ms[i]) && q_wf(ls[i]) && q_eq(
        ms[i],
        ls[i],
    ) by {
        let u = l.mrow(i);
        l.lemma_row_wf(i);
        m.lemma_row_wf(i);
        lemma_dot_wfs(m.mrow(i), m.mrow(i));
        lemma_dot_wfs(u, u);
        lemma_lin_comb_shape(u, rrows, w);
        let v = lin_comb(u, rrows, w);
        // The product row agrees with the linear combination of the
        // rotation's rows, entry by entry.
        assert forall|j: int| 0 <= j < w implies q_eq(#[trigger] m.mrow(i)[j], v[j]) by {
            lemma_lin_comb_entry(u, rrows, w, j);
            assert(row_col(rrows, j) =~= r.mcol(j));
            lemma_dot_wfs(u, r.mcol(j));
            r.lemma_col_wf(j);
            lemma_q_eq_trans(m.ent(i, j), q_dot(u, row_col(rrows, j)), v[j]);
        }
        lemma_q_dot_congr(m.mrow(i), v, m.mrow(i), v);
        assert forall|a: int, b: int|
            0 <= a < rrows.len() && 0 <= b < rrows.len() implies q_eq(
            #[trigger] q_dot(rrows[a], rrows[b]),
            q_int(if a == b { 1int } else { 0int }),
        ) by {
            assert(rrows[a] == r.mrow(a));
            assert(rrows[b] == r.mrow(b));
        }
        lemma_row_norm_preserved(u, rrows, w);
        lemma_dot_wfs(v, v);
        lemma_q_eq_trans(q_dot(m.mrow(i), m.mrow(i)), q_dot(v, v), q_dot(u, u));
    }
    assert(all_wf(ms));
    assert forall|i: int| 0 <= i < ls.len() implies q_wf(#[trigger] ls[i]) by {
        l.lemma_row_wf(i);
        lemma_dot_wfs(l.mrow(i), l.mrow(i));
    }
    assert(all_wf(ls));
    lemma_q_sum_congr(ms, ls);
}

/// Elementwise difference of two vectors.
pub open spec fn vec_sub(a: Seq<Frac>, b: Seq<Frac>) -> Seq<Frac> {
    Seq::new(a.len(), |i: int| q_sub(a[i], b[i]))
}

/// Distribution of a product over a difference of fractions.
proof fn lemma_s_mul_sub(a: Frac, b: Frac, c: Frac)
    ensures
        q_eq(q_mul(q_sub(a, b), c), q_sub(q_mul(a, c), q_mul(b, c))),
{
    let nb = Frac { n: -b.n, d: b.d };
    assert(q_add(a, nb) == q_sub(a, b)) by (nonlinear_arith)
        requires
            nb.n == -b.n,
            nb.d == b.d,
    ;
    assert(q_mul(nb, c) == (Frac { n: -(b.n * c.n), d: b.d * c.d })) by (nonlinear_arith)
        requires
            nb.n == -b.n,
            nb.d == b.d,
    ;
    assert(q_add(q_mul(a, c), q_mul(nb, c)) == q_sub(q_mul(a, c), q_mul(b, c)))
        by (nonlinear_arith)
        requires
            q_mul(nb, c).n == -(b.n * c.n),
            q_mul(nb, c).d == b.d * c.d,
    ;
    lemma_s_mul_add(a, nb, c);
}

/// `((a - b) + (c - d)) == ((a + c) - (b + d))`, exactly.
proof fn lemma_s_sub_rearrange(a: Frac, b: Frac, c: Frac, d: Frac)
    ensures
        q_add(q_sub(a, b), q_sub(c, d)) == q_sub(q_add(a, c), q_add(b, d)),
{
    let l = q_add(q_sub(a, b), q_sub(c, d));
    let r = q_sub(q_add(a, c), q_add(b, d));
    assert(l.d == r.d) by (nonlinear_arith)
        requires
            l.d == (a.d * b.d) * (c.d * d.d),
            r.d == (a.d * c.d) * (b.d * d.d),
    ;
    assert((a.n * b.d - b.n * a.d) * (c.d * d.d) == a.n * b.d * c.d * d.d - b.n * a.d * c.d * d.d)
        by (nonlinear_arith);
    assert((c.n * d.d - d.n * c.d) * (a.d * b.d) == c.n * d.d * a.d * b.d - d.n * c.d * a.d * b.d)
        by (nonlinear_arith);
    assert((a.n * c.d + c.n * a.d) * (b.d * d.d) == a.n * c.d * b.d * d.d + c.n * a.d * b.d * d.d)
        by (nonlinear_arith);
    assert((b.n * d.d + d.n * b.d) * (a.d * c.d) == b.n * d.d * a.d * c.d + d.n * b.d * a.d * c.d)
        by (nonlinear_arith);
    assert(a.n * c.d * b.d * d.d == a.n * b.d * c.d * d.d) by (nonlinear_arith);
    assert(c.n * a.d * b.d * d.d == c.n * d.d * a.d * b.d) by (nonlinear_arith);
    assert(b.n * d.d * a.d * c.d == b.n * a.d * c.d * d.d) by (nonlinear_arith);
    assert(d.n * b.d * a.d * c.d == d.n * c.d * a.d * b.d) by (nonlinear_arith);
}

proof fn lemma_vec_sub_wf(a: Seq<Frac>, b: Seq<Frac>)
    requires
        a.len() == b.len(),
        all_wf(a),
        all_wf(b),
    ensures
        all_wf(vec_sub(a, b)),
{
    assert forall|i: int| 0 <= i < vec_sub(a, b).len() implies q_wf(#[trigger] vec_sub(a, b)[i])
        by {
        lemma_q_ops_wf(a[i], b[i]);
    }
}

/// The inner product distributes over an elementwise vector difference.
proof fn lemma_dot_sub_left(x: Seq<Frac>, y: Seq<Frac>, z: Seq<Frac>)
    requires
        x.len() == y.len(),
        x.len() == z.len(),
        all_wf(x),
        all_wf(y),
        all_wf(z),
    ensures
        q_eq(q_dot(vec_sub(x, y), z), q_sub(q_dot(x, z), q_dot(y, z))),
    decreases x.len(),
{
    if x.len() == 0 {
        assert(q_eq(q_int(0), q_sub(q_int(0), q_int(0)))) by (nonlinear_arith);
    } else {
        assert(vec_sub(x, y).drop_last() =~= vec_sub(x.drop_last(), y.drop_last()));
        assert(all_wf(x.drop_last()));
        assert(all_wf(y.drop_last()));
        assert(all_wf(z.drop_last()));
        lemma_dot_sub_left(x.drop_last(), y.drop_last(), z.drop_last());
        let dx = q_dot(x.drop_last(), z.drop_last());
        let dy = q_dot(y.drop_last(), z.drop_last());
        let tx = q_mul(x.last(), z.last());
        let ty = q_mul(y.last(), z.last());
        lemma_dot_wfs(x.drop_last(), z.drop_last());
        lemma_dot_wfs(y.drop_last(), z.drop_last());
        lemma_q_ops_wf(x.last(), z.last());
        lemma_q_ops_wf(y.last(), z.last());
        lemma_q_ops_wf(x.last(), y.last());
        lemma_s_mul_sub(x.last(), y.last(), z.last());
        lemma_s_sub_rearrange(dx, dy, tx, ty);
        lemma_q_ops_wf(dx, dy);
        lemma_q_ops_wf(tx, ty);
        lemma_q_ops_wf(q_sub(dx, dy), q_sub(tx, ty));
        lemma_vec_sub_wf(x.drop_last(), y.drop_last());
        lemma_dot_wfs(vec_sub(x.drop_last(), y.drop_last()), z.drop_last());
        lemma_q_ops_wf(q_sub(x.last(), y.last()), z.last());
        lemma_q_add_congr(
            q_dot(vec_sub(x.drop_last(), y.drop_last()), z.drop_last()),
            q_sub(dx, dy),
            q_mul(vec_sub(x, y).last(), z.last()),
            q_sub(tx, ty),
        );
        assert(vec_sub(x, y).last() == q_sub(x.last(), y.last()));
        lemma_q_eq_trans(
            q_dot(vec_sub(x, y), z),
            q_add(q_sub(dx, dy), q_sub(tx, ty)),
            q_sub(q_add(dx, tx), q_add(dy, ty)),
        );
    }
}

/// The inner product written as the sum of the pairwise products.
proof fn lemma_dot_as_sum(a: Seq<Frac>, b: Seq<Frac>)
    requires
        a.len() == b.len(),
    ensures
        q_dot(a, b) == q_sum(Seq::new(a.len(), |t: int| q_mul(a[t], b[t]))),
    decreases a.len(),
{
    if a.len() == 0 {
    } else {
        lemma_dot_as_sum(a.drop_last(), b.drop_last());
        assert(Seq::new(a.len(), |t: int| q_mul(a[t], b[t])).drop_last() =~= Seq::new(
            a.drop_last().len(),
            |t: int| q_mul(a.drop_last()[t], b.drop_last()[t]),
        ));
    }
}

/// Equal rationals differ by an exact zero.
proof fn lemma_s_eq_sub_zero(x: Frac, y: Frac)
    requires
        q_eq(x, y),
    ensures
        q_eq(q_sub(x, y), q_int(0)),
{
    assert((x.n * y.d - y.n * x.d) * 1 == 0 * (x.d * y.d)) by (nonlinear_arith)
        requires
            x.n * y.d == y.n * x.d,
    ;
}

/// Rationals with an exactly zero difference are equal.
proof fn lemma_s_sub_zero_eq(x: Frac, y: Frac)
    requires
        q_eq(q_sub(x, y), q_int(0)),
    ensures
        q_eq(x, y),
{
    assert(x.n * y.d == y.n * x.d) by (nonlinear_arith)
        requires
            (x.n * y.d - y.n * x.d) * 1 == 0 * (x.d * y.d),
    ;
}

/// A square is never negative.
proof fn lemma_s_sq_nonneg(x: Frac)
    requires
        q_wf(x),
    ensures
        q_le(q_int(0), q_mul(x, x)),
{
    assert(0 * (x.d * x.d) <= (x.n * x.n) * 1) by (nonlinear_arith);
}

/// An exactly zero square has an exactly zero root.
proof fn lemma_s_sq_zero_root(x: Frac)
    requires
        q_wf(x),
        q_eq(q_mul(x, x), q_int(0)),
    ensures
        q_eq(x, q_int(0)),
{
    assert(x.n * 1 == 0 * x.d) by (nonlinear_arith)
        requires
            (x.n * x.n) * 1 == 0 * (x.d * x.d),
    ;
}

/// A sum of nonnegative rationals is nonnegative, and when it is
/// exactly zero every summand is exactly zero.
proof fn lemma_sum_nonneg_zero(s: Seq<Frac>)
    requires
        all_wf(s),
        forall|t: int| 0 <= t < s.len() ==> q_le(q_int(0), #[trigger] s[t]),
        q_eq(q_sum(s), q_int(0)),
    ensures
        forall|t: int| 0 <= t < s.len() ==> q_eq(#[trigger] s[t], q_int(0)),
    decreases s.len(),
{
    if s.len() == 0 {
    } else {
        assert(all_wf(s.drop_last()));
        lemma_q_sum_wf(s.drop_last());
        lemma_sum_nonneg(s.drop_last());
        // head >= 0, last >= 0, head + last ~ 0: both are zero.
        assert(q_eq(q_sum(s.drop_last()), q_int(0)) && q_eq(s.last(), q_int(0)))
            by (nonlinear_arith)
            requires
                q_sum(s.drop_last()).d > 0,
                s.last().d > 0,
                0 * q_sum(s.drop_last()).d <= q_sum(s.drop_last()).n * 1,
                0 * s.last().d <= s.last().n * 1,
                q_sum(s) == q_add(q_sum(s.drop_last()), s.last()),
                (q_sum(s.drop_last()).n * s.last().d + s.last().n * q_sum(s.drop_last()).d) * 1
                    == 0 * (q_sum(s.drop_last()).d * s.last().d),
        ;
        lemma_sum_nonneg_zero(s.drop_last());
        assert forall|t: int| 0 <= t < s.len() implies q_eq(#[trigger] s[t], q_int(0)) by {
            if t < s.len() - 1 {
                assert(s.drop_last()[t] == s[t]);
                assert(q_eq(s.drop_last()[t], q_int(0)));
            }
        }
    }
}

/// A sum of nonnegative rationals is nonnegative.
proof fn lemma_sum_nonneg(s: Seq<Frac>)
    requires
        all_wf(s),
        forall|t: int| 0 <= t < s.len() ==> q_le(q_int(0), #[trigger] s[t]),
    ensures
        q_le(q_int(0), q_sum(s)),
    decreases s.len(),
{
    if s.len() == 0 {
    } else {
        assert(all_wf(s.drop_last()));
        lemma_sum_nonneg(s.drop_last());
        lemma_q_sum_wf(s.drop_last());
        assert(q_le(q_int(0), q_add(q_sum(s.drop_last()), s.last()))) by (nonlinear_arith)
            requires
                q_sum(s.drop_last()).d > 0,
                s.last().d > 0,
                0 * q_sum(s.drop_last()).d <= q_sum(s.drop_last()).n * 1,
                0 * s.last().d <= s.last().n * 1,
        ;
    }
}

/// The residual sum of squares of a least-squares problem is fully
/// determined by the normal equations: any two coefficient vectors that
/// both satisfy them have exactly equal residual sums of squares.  The
/// model-comparison sums of squares of the analyses of variance and the
/// regression statistics therefore do not depend on which solution of
/// the normal equations the solver produced.
#[verifier::rlimit(60)]
pub proof fn lemma_ne_determines_sse(
    cols: Seq<Seq<Frac>>,
    y: Seq<Rat>,
    b1: Seq<Rat>,
    b2: Seq<Rat>,
)
    requires
        forall|j: int|
            0 <= j < cols.len() ==> (#[trigger] cols[j]).len() == y.len() && all_wf(cols[j]),
        rats_wf(y),
        rats_wf(b1),
        rats_wf(b2),
        b1.len() == cols.len(),
        b2.len() == cols.len(),
        crate::anova::cols_ne(cols, y, b1),
        crate::anova::cols_ne(cols, y, b2),
    ensures
        q_eq(
            crate::anova::cols_sse(cols, y, b1),
            crate::anova::cols_sse(cols, y, b2),
        ),
{
    let n = y.len() as int;
    let k = cols.len() as int;
    let d = vec_sub(vq(b1), vq(b2));
    assert(all_wf(vq(b1)));
    assert(all_wf(vq(b2)));
    assert(all_wf(vq(y)));
    lemma_vec_sub_wf(vq(b1), vq(b2));
    // Step 1: the difference of the two solutions is orthogonal to
    // every Gram row.
    assert forall|j: int| 0 <= j < k implies q_eq(
        #[trigger] q_dot(crate::anova::cols_gram_row(cols, j), d),
        q_int(0),
    ) by {
        let gr = crate::anova::cols_gram_row(cols, j);
        assert forall|t: int| 0 <= t < gr.len() implies q_wf(#[trigger] gr[t]) by {
            lemma_dot_wfs(cols[j], cols[t]);
        }
        lemma_dot_sub_left(vq(b1), vq(b2), gr);
        lemma_dot_comm(vq(b1), gr);
        lemma_dot_comm(vq(b2), gr);
        lemma_dot_wfs(gr, vq(b1));
        lemma_dot_wfs(gr, vq(b2));
        lemma_dot_wfs(cols[j], vq(y));
        lemma_q_eq_trans(q_dot(gr, vq(b1)), q_dot(cols[j], vq(y)), q_dot(gr, vq(b2)));
        lemma_s_eq_sub_zero(q_dot(gr, vq(b1)), q_dot(gr, vq(b2)));
        lemma_q_ops_wf(q_dot(gr, vq(b1)), q_dot(gr, vq(b2)));
        lemma_q_eq_trans(
            q_dot(d, gr),
            q_sub(q_dot(gr, vq(b1)), q_dot(gr, vq(b2))),
            q_int(0),
        );
        lemma_dot_comm(gr, d);
    }
    // Step 2: the fitted-value difference, the combination of the
    // columns with coefficients `d`, has zero squared length.
    lemma_lin_comb_shape(d, cols, n);
    let v = lin_comb(d, cols, n);
    lemma_dot_lin_comb(d, cols, v, n);
    let cs = comb_seq(d, cols, v);
    assert forall|t: int| 0 <= t < k implies q_wf(#[trigger] cs[t]) && q_eq(cs[t], q_int(0)) by {
        lemma_dot_wfs(cols[t], v);
        lemma_q_ops_wf(d[t], q_dot(cols[t], v));
        lemma_dot_comm(cols[t], v);
        lemma_dot_lin_comb(d, cols, cols[t], n);
        let inner = comb_seq(d, cols, cols[t]);
        let gr = crate::anova::cols_gram_row(cols, t);
        assert forall|t2: int| 0 <= t2 < k implies q_wf(#[trigger] gr[t2]) by {
            lemma_dot_wfs(cols[t], cols[t2]);
        }
        assert forall|t2: int| 0 <= t2 < k implies #[trigger] inner[t2] == q_mul(d[t2], gr[t2])
            by {
            lemma_dot_comm(cols[t2], cols[t]);
        }
        lemma_dot_as_sum(d, gr);
        assert(inner =~= Seq::new(d.len(), |t2: int| q_mul(d[t2], gr[t2])));
        lemma_dot_comm(gr, d);
        assert(q_eq(q_sum(inner), q_int(0)));
        assert forall|t2: int| 0 <= t2 < inner.len() implies q_wf(#[trigger] inner[t2]) by {
            lemma_dot_wfs(cols[t2], cols[t]);
            lemma_q_ops_wf(d[t2], q_dot(cols[t2], cols[t]));
        }
        lemma_q_sum_wf(inner);
        lemma_q_eq_trans(q_dot(cols[t], v), q_sum(inner), q_int(0));
        lemma_s_mul_zero_right(d[t], q_dot(cols[t], v));
    }
    assert(all_wf(cs));
    lemma_sum_collapse(cs, cs.len() as int, q_int(0));
    lemma_q_sum_wf(cs);
    lemma_dot_wfs(v, v);
    lemma_q_eq_trans(q_dot(v, v), q_sum(cs), q_int(0));
    // Step 3: a zero sum of squares forces every fitted-value
    // difference to zero.
    let vsq = Seq::new(v.len(), |t: int| q_mul(v[t], v[t]));
    lemma_usq_is_dot(v);
    assert forall|t: int| 0 <= t < vsq.len() implies q_wf(#[trigger] vsq[t]) && q_le(
        q_int(0),
        vsq[t],
    ) by {
        lemma_q_ops_wf(v[t], v[t]);
        lemma_s_sq_nonneg(v[t]);
    }
    assert(all_wf(vsq));
    lemma_sum_nonneg_zero(vsq);
    assert forall|i: int| 0 <= i < n implies q_eq(#[trigger] v[i], q_int(0)) by {
        assert(q_eq(vsq[i], q_int(0)));
        lemma_s_sq_zero_root(v[i]);
    }
    // Step 4: the two solutions give the same fitted value in every row.
    assert forall|i: int| 0 <= i < n implies q_eq(
        q_dot(d, #[trigger] crate::anova::design_row(cols, i)),
        q_int(0),
    ) by {
        let dr = crate::anova::design_row(cols, i);
        assert forall|t: int| 0 <= t < dr.len() implies q_wf(#[trigger] dr[t]) by {
            assert(all_wf(cols[t]));
        }
        assert(all_wf(dr));
        lemma_lin_comb_entry(d, cols, n, i);
        assert(row_col(cols, i) =~= dr);
        lemma_dot_wfs(d, dr);
        lemma_q_eq_trans(q_dot(d, dr), v[i], q_int(0));
    }
    let t1 = Seq::new(
        y.len(),
        |i: int|
            q_mul(
                q_sub(vq(y)[i], q_dot(crate::anova::design_row(cols, i), vq(b1))),
                q_sub(vq(y)[i], q_dot(crate::anova::design_row(cols, i), vq(b1))),
            ),
    );
    let t2 = Seq::new(
        y.len(),
        |i: int|
            q_mul(
                q_sub(vq(y)[i], q_dot(crate::anova::design_row(cols, i), vq(b2))),
                q_sub(vq(y)[i], q_dot(crate::anova::design_row(cols, i), vq(b2))),
            ),
    );
    assert forall|i: int| 0 <= i < t1.len() implies q_wf(#[trigger] t1[i]) by {
        lemma_equal_fit(cols, y, b1, b2, i);
    }
    assert(all_wf(t1));
    assert forall|i: int| 0 <= i < t2.len() implies q_wf(#[trigger] t2[i]) by {
        lemma_equal_fit(cols, y, b1, b2, i);
    }
    assert(all_wf(t2));
    assert forall|i: int| 0 <= i < t1.len() implies q_eq(#[trigger] t1[i], t2[i]) by {
        lemma_equal_fit(cols, y, b1, b2, i);
    }
    lemma_q_sum_congr(t1, t2);
    assert(crate::anova::cols_sse(cols, y, b1) == q_sum(t1));
    assert(crate::anova::cols_sse(cols, y, b2) == q_sum(t2));
}

/// With equal fitted values in row `i`, the two squared residuals are
/// well-formed and equal.
proof fn lemma_equal_fit(cols: Seq<Seq<Frac>>, y: Seq<Rat>, b1: Seq<Rat>, b2: Seq<Rat>, i: int)
    requires
        forall|j: int|
            0 <= j < cols.len() ==> (#[trigger] cols[j]).len() == y.len() && all_wf(cols[j]),
        rats_wf(y),
        rats_wf(b1),
        rats_wf(b2),
        b1.len() == cols.len(),
        b2.len() == cols.len(),
        0 <= i < y.len(),
        q_eq(
            q_dot(vec_sub(vq(b1), vq(b2)), crate::anova::design_row(cols, i)),
            q_int(0),
        ),
    ensures
        q_wf(
            q_mul(
                q_sub(vq(y)[i], q_dot(crate::anova::design_row(cols, i), vq(b1))),
                q_sub(vq(y)[i], q_dot(crate::anova::design_row(cols, i), vq(b1))),
            ),
        ),
        q_wf(
            q_mul(
                q_sub(vq(y)[i], q_dot(crate::anova::design_row(cols, i), vq(b2))),
                q_sub(vq(y)[i], q_dot(crate::anova::design_row(cols, i), vq(b2))),
            ),
        ),
        q_eq(
            q_mul(
                q_sub(vq(y)[i], q_dot(crate::anova::design_row(cols, i), vq(b1))),
                q_sub(vq(y)[i], q_dot(crate::anova::design_row(cols, i), vq(b1))),
            ),
            q_mul(
                q_sub(vq(y)[i], q_dot(crate::anova::design_row(cols, i), vq(b2))),
                q_sub(vq(y)[i], q_dot(crate::anova::design_row(cols, i), vq(b2))),
            ),
        ),
{
    let dr = crate::anova::design_row(cols, i);
    assert(all_wf(vq(b1)));
    assert(all_wf(vq(b2)));
    assert(all_wf(vq(y)));
    assert forall|t: int| 0 <= t < dr.len() implies q_wf(#[trigger] dr[t]) by {
        assert(all_wf(cols[t]));
    }
    assert(all_wf(dr));
    lemma_vec_sub_wf(vq(b1), vq(b2));
    lemma_dot_sub_left(vq(b1), vq(b2), dr);
    lemma_dot_comm(vq(b1), dr);
    lemma_dot_comm(vq(b2), dr);
    lemma_dot_wfs(dr, vq(b1));
    lemma_dot_wfs(dr, vq(b2));
    lemma_q_ops_wf(q_dot(dr, vq(b1)), q_dot(dr, vq(b2)));
    lemma_vec_sub_wf(vq(b1), vq(b2));
    lemma_dot_wfs(vec_sub(vq(b1), vq(b2)), dr);
    lemma_q_eq_trans(
        q_sub(q_dot(dr, vq(b1)), q_dot(dr, vq(b2))),
        q_dot(vec_sub(vq(b1), vq(b2)), dr),
        q_int(0),
    );
    lemma_s_sub_zero_eq(q_dot(dr, vq(b1)), q_dot(dr, vq(b2)));
    lemma_q_sub_congr(vq(y)[i], vq(y)[i], q_dot(dr, vq(b1)), q_dot(dr, vq(b2)));
    lemma_q_ops_wf(vq(y)[i], q_dot(dr, vq(b1)));
    lemma_q_ops_wf(vq(y)[i], q_dot(dr, vq(b2)));
    lemma_q_mul_congr(
        q_sub(vq(y)[i], q_dot(dr, vq(b1))),
        q_sub(vq(y)[i], q_dot(dr, vq(b2))),
        q_sub(vq(y)[i], q_dot(dr, vq(b1))),
        q_sub(vq(y)[i], q_dot(dr, vq(b2))),
    );
    lemma_q_ops_wf(
        q_sub(vq(y)[i], q_dot(dr, vq(b1))),
        q_sub(vq(y)[i], q_dot(dr, vq(b1))),
    );
    lemma_q_ops_wf(
        q_sub(vq(y)[i], q_dot(dr, vq(b2))),
        q_sub(vq(y)[i], q_dot(dr, vq(b2))),
    );
}

/// The residual vector of coefficients `b` for the design `cols`.
pub open spec fn resid_vec(cols: Seq<Seq<Frac>>, y: Seq<Rat>, b: Seq<Rat>) -> Seq<Frac> {
    Seq::new(
        y.len(),
        |i: int| q_sub(vq(y)[i], q_dot(crate::anova::design_row(cols, i), vq(b))),
    )
}

/// A sum over an elementwise vector sum splits into two sums.
proof fn lemma_sum_add(s1: Seq<Frac>, s2: Seq<Frac>)
    requires
        s1.len() == s2.len(),
    ensures
        q_sum(vec_add(s1, s2)) == q_add(q_sum(s1), q_sum(s2)),
    decreases s1.len(),
{
    if s1.len() == 0 {
        assert(q_add(q_int(0), q_int(0)) == q_int(0)) by (nonlinear_arith);
        assert(vec_add(s1, s2).len() == 0);
    } else {
        assert(vec_add(s1, s2).drop_last() =~= vec_add(s1.drop_last(), s2.drop_last()));
        lemma_sum_add(s1.drop_last(), s2.drop_last());
        assert(vec_add(s1, s2).last() == q_add(s1.last(), s2.last()));
        lemma_s_add_rearrange(q_sum(s1.drop_last()), q_sum(s2.drop_last()), s1.last(), s2.last());
    }
}

/// The binomial square of a sum of fractions.
proof fn lemma_s_binomial(a: Frac, b: Frac)
    requires
        q_wf(a),
        q_wf(b),
    ensures
        q_eq(
            q_mul(q_add(a, b), q_add(a, b)),
            q_add(q_mul(a, a), q_add(q_add(q_mul(a, b), q_mul(b, a)), q_mul(b, b))),
        ),
{
    let c = q_add(a, b);
    lemma_q_ops_wf(a, b);
    lemma_s_mul_add(a, b, c);
    lemma_s_mul_add_comm(a, a, b);
    lemma_s_mul_add_comm(b, a, b);
    assert(q_mul(a, c) == q_mul(c, a)) by (nonlinear_arith);
    assert(q_mul(b, c) == q_mul(c, b)) by (nonlinear_arith);
    lemma_q_ops_wf(a, a);
    lemma_q_ops_wf(a, c);
    lemma_q_ops_wf(b, c);
    lemma_q_ops_wf(b, b);
    lemma_q_ops_wf(q_mul(a, a), q_mul(a, b));
    lemma_q_ops_wf(b, a);
    lemma_q_ops_wf(q_mul(b, a), q_mul(b, b));
    lemma_q_ops_wf(q_mul(a, c), q_mul(b, c));
    // (a+b)c ~ ac + bc; ac ~ aa + ab; bc ~ ba + bb.
    lemma_q_add_congr(
        q_mul(a, c),
        q_add(q_mul(a, a), q_mul(a, b)),
        q_mul(b, c),
        q_add(q_mul(b, a), q_mul(b, b)),
    );
    lemma_q_ops_wf(q_mul(a, b), q_mul(b, a));
    lemma_s_add_rearrange(q_mul(a, a), q_mul(a, b), q_mul(b, a), q_mul(b, b));
    // ((aa + ba) + (ab + bb)) rearranges once more to the stated shape.
    lemma_s_add_reassoc(q_mul(a, a), q_mul(a, b), q_mul(b, a), q_mul(b, b));
    lemma_q_ops_wf(q_add(q_mul(a, a), q_mul(a, b)), q_add(q_mul(b, a), q_mul(b, b)));
    lemma_q_eq_trans(
        q_mul(c, c),
        q_add(q_mul(a, c), q_mul(b, c)),
        q_add(q_add(q_mul(a, a), q_mul(a, b)), q_add(q_mul(b, a), q_mul(b, b))),
    );
    lemma_q_eq_trans(
        q_mul(c, c),
        q_add(q_add(q_mul(a, a), q_mul(a, b)), q_add(q_mul(b, a), q_mul(b, b))),
        q_add(q_mul(a, a), q_add(q_add(q_mul(a, b), q_mul(b, a)), q_mul(b, b))),
    );
}

/// `((w + x) + (y + z)) == (w + ((x + y) + z))`, exactly.
#[verifier::rlimit(60)]
proof fn lemma_s_add_reassoc(w: Frac, x: Frac, y: Frac, z: Frac)
    ensures
        q_add(q_add(w, x), q_add(y, z)) == q_add(w, q_add(q_add(x, y), z)),
{
    let l = q_add(q_add(w, x), q_add(y, z));
    let r = q_add(w, q_add(q_add(x, y), z));
    assert(l.d == r.d) by (nonlinear_arith)
        requires
            l.d == (w.d * x.d) * (y.d * z.d),
            r.d == w.d * ((x.d * y.d) * z.d),
    ;
    assert((w.n * x.d + x.n * w.d) * (y.d * z.d) == w.n * x.d * y.d * z.d + x.n * w.d * y.d * z.d)
        by (nonlinear_arith);
    assert((y.n * z.d + z.n * y.d) * (w.d * x.d) == y.n * z.d * w.d * x.d + z.n * y.d * w.d * x.d)
        by (nonlinear_arith);
    assert((x.n * y.d + y.n * x.d) * z.d + z.n * (x.d * y.d) == x.n * y.d * z.d + y.n * x.d * z.d
        + z.n * x.d * y.d) by (nonlinear_arith);
    assert(w.n * ((x.d * y.d) * z.d) + (x.n * y.d * z.d + y.n * x.d * z.d + z.n * x.d * y.d) * w.d
        == w.n * x.d * y.d * z.d + x.n * y.d * z.d * w.d + y.n * x.d * z.d * w.d + z.n * x.d * y.d
        * w.d) by (nonlinear_arith);
    assert(x.n * w.d * y.d * z.d == x.n * y.d * z.d * w.d) by (nonlinear_arith);
    assert(y.n * z.d * w.d * x.d == y.n * x.d * z.d * w.d) by (nonlinear_arith);
    assert(z.n * y.d * w.d * x.d == z.n * x.d * y.d * w.d) by (nonlinear_arith);
}

/// A value equal to a sum with a nonnegative second summand is at
/// least the first summand.
proof fn lemma_s_le_from_add(x: Frac, s: Frac, e: Frac)
    requires
        q_wf(x),
        q_wf(s),
        q_wf(e),
        q_eq(x, q_add(s, e)),
        q_le(q_int(0), e),
    ensures
        q_le(s, x),
{
    assert(s.n * x.d <= x.n * s.d) by (nonlinear_arith)
        requires
            x.d > 0,
            s.d > 0,
            e.d > 0,
            0 * e.d <= e.n * 1,
            x.n * (s.d * e.d) == (s.n * e.d + e.n * s.d) * x.d,
    ;
}

/// The order respects rational equality on both sides.
pub proof fn lemma_q_le_congr(a: Frac, a2: Frac, b: Frac, b2: Frac)
    requires
        q_wf(a) && q_wf(a2) && q_wf(b) && q_wf(b2),
        q_eq(a, a2),
        q_eq(b, b2),
        q_le(a, b),
    ensures
        q_le(a2, b2),
{
    assert(a2.n * b2.d <= b2.n * a2.d) by (nonlinear_arith)
        requires
            a.d > 0 && a2.d > 0 && b.d > 0 && b2.d > 0,
            a.n * a2.d == a2.n * a.d,
            b.n * b2.d == b2.n * b.d,
            a.n * b.d <= b.n * a.d,
    ;
}

/// Every column of a design is orthogonal to the residual vector of a
/// solution of the normal equations.
proof fn lemma_col_dot_resid_zero(cols: Seq<Seq<Frac>>, y: Seq<Rat>, b: Seq<Rat>, k: int)
    requires
        forall|j: int|
            0 <= j < cols.len() ==> (#[trigger] cols[j]).len() == y.len() && all_wf(cols[j]),
        rats_wf(y),
        rats_wf(b),
        b.len() == cols.len(),
        crate::anova::cols_ne(cols, y, b),
        0 <= k < cols.len(),
    ensures
        q_eq(q_dot(cols[k], resid_vec(cols, y, b)), q_int(0)),
{
    let n = y.len() as int;
    let rv = resid_vec(cols, y, b);
    assert(all_wf(vq(b)));
    assert(all_wf(vq(y)));
    lemma_resid_vec_wf(cols, y, b);
    // The fitted values as a combination of the columns.
    lemma_lin_comb_shape(vq(b), cols, n);
    let xb = lin_comb(vq(b), cols, n);
    assert forall|i: int| 0 <= i < n implies q_eq(#[trigger] rv[i], vec_sub(vq(y), xb)[i]) by {
        let dr = crate::anova::design_row(cols, i);
        assert forall|t: int| 0 <= t < dr.len() implies q_wf(#[trigger] dr[t]) by {
            assert(all_wf(cols[t]));
        }
        assert(all_wf(dr));
        lemma_lin_comb_entry(vq(b), cols, n, i);
        assert(row_col(cols, i) =~= dr);
        lemma_dot_comm(vq(b), dr);
        lemma_dot_wfs(vq(b), dr);
        lemma_q_sub_congr(vq(y)[i], vq(y)[i], q_dot(dr, vq(b)), xb[i]);
    }
    lemma_vec_sub_wf2(vq(y), xb);
    assert(all_wf(rv)) by {
        lemma_resid_vec_wf(cols, y, b);
    }
    lemma_q_dot_congr(cols[k], cols[k], rv, vec_sub(vq(y), xb));
    lemma_dot_sub_left(vq(y), xb, cols[k]);
    lemma_dot_comm(vq(y), cols[k]);
    lemma_dot_comm(xb, cols[k]);
    // The fitted values' product with the column is the Gram-row form.
    lemma_dot_lin_comb(vq(b), cols, cols[k], n);
    let inner = comb_seq(vq(b), cols, cols[k]);
    let gr = crate::anova::cols_gram_row(cols, k);
    assert forall|t2: int| 0 <= t2 < cols.len() as int implies q_wf(#[trigger] gr[t2]) by {
        lemma_dot_wfs(cols[k], cols[t2]);
    }
    assert forall|t2: int| 0 <= t2 < cols.len() as int implies #[trigger] inner[t2] == q_mul(
        vq(b)[t2],
        gr[t2],
    ) by {
        lemma_dot_comm(cols[t2], cols[k]);
    }
    lemma_dot_as_sum(vq(b), gr);
    assert(inner =~= Seq::new(vq(b).len(), |t2: int| q_mul(vq(b)[t2], gr[t2])));
    lemma_dot_comm(gr, vq(b));
    // By the normal equations the Gram-row form equals the column's
    // product with the observations.
    lemma_dot_wfs(cols[k], vq(y));
    assert forall|t2: int| 0 <= t2 < inner.len() implies q_wf(#[trigger] inner[t2]) by {
        lemma_dot_wfs(cols[t2], cols[k]);
        lemma_q_ops_wf(vq(b)[t2], q_dot(cols[t2], cols[k]));
    }
    lemma_q_sum_wf(inner);
    lemma_dot_wfs(xb, cols[k]);
    lemma_dot_wfs(vq(y), cols[k]);
    lemma_q_eq_trans(q_dot(xb, cols[k]), q_sum(inner), q_dot(cols[k], vq(y)));
    lemma_s_eq_sub_zero_sym(q_dot(vq(y), cols[k]), q_dot(xb, cols[k]), q_dot(cols[k], vq(y)));
    lemma_q_ops_wf(q_dot(vq(y), cols[k]), q_dot(xb, cols[k]));
    lemma_dot_wfs(vec_sub(vq(y), xb), cols[k]);
    lemma_dot_comm(cols[k], vec_sub(vq(y), xb));
    lemma_dot_wfs(cols[k], vec_sub(vq(y), xb));
    lemma_q_eq_trans(
        q_dot(cols[k], rv),
        q_dot(vec_sub(vq(y), xb), cols[k]),
        q_sub(q_dot(vq(y), cols[k]), q_dot(xb, cols[k])),
    );
    lemma_q_eq_trans(
        q_dot(cols[k], rv),
        q_sub(q_dot(vq(y), cols[k]), q_dot(xb, cols[k])),
        q_int(0),
    );
}

/// `x ~ z` and `y ~ z` give `x - y ~ 0`.
proof fn lemma_s_eq_sub_zero_sym(x: Frac, y: Frac, z: Frac)
    requires
        z.d != 0,
        q_eq(x, z),
        q_eq(y, z),
    ensures
        q_eq(q_sub(x, y), q_int(0)),
{
    lemma_q_eq_trans(x, z, y);
    lemma_s_eq_sub_zero(x, y);
}

proof fn lemma_resid_vec_wf(cols: Seq<Seq<Frac>>, y: Seq<Rat>, b: Seq<Rat>)
    requires
        forall|j: int|
            0 <= j < cols.len() ==> (#[trigger] cols[j]).len() == y.len() && all_wf(cols[j]),
        rats_wf(y),
        rats_wf(b),
    ensures
        all_wf(resid_vec(cols, y, b)),
{
    assert forall|i: int| 0 <= i < resid_vec(cols, y, b).len() implies q_wf(
        #[trigger] resid_vec(cols, y, b)[i],
    ) by {
        let dr = crate::anova::design_row(cols, i);
        assert forall|t: int| 0 <= t < dr.len() implies q_wf(#[trigger] dr[t]) by {
            assert(all_wf(cols[t]));
        }
        assert(all_wf(dr));
        assert(all_wf(vq(b)));
        lemma_dot_wfs(dr, vq(b));
        lemma_q_ops_wf(vq(y)[i], q_dot(dr, vq(b)));
    }
}

proof fn lemma_vec_sub_wf2(a: Seq<Frac>, b: Seq<Frac>)
    requires
        a.len() == b.len(),
        all_wf(a),
        all_wf(b),
    ensures
        all_wf(vec_sub(a, b)),
{
    lemma_vec_sub_wf(a, b);
}

/// `(x - p) + (p - q) ~ (x - q)`.
#[verifier::rlimit(30)]
proof fn lemma_s_telescope(x: Frac, p: Frac, q: Frac)
    ensures
        q_eq(q_add(q_sub(x, p), q_sub(p, q)), q_sub(x, q)),
{
    let l = q_add(q_sub(x, p), q_sub(p, q));
    assert(l.n == (x.n * p.d - p.n * x.d) * (p.d * q.d) + (p.n * q.d - q.n * p.d) * (x.d * p.d));
    assert(l.d == (x.d * p.d) * (p.d * q.d));
    let a1 = x.n * p.d * p.d * q.d;
    let a4 = q.n * p.d * x.d * p.d;
    assert((x.n * p.d - p.n * x.d) * (p.d * q.d) == a1 - p.n * x.d * p.d * q.d)
        by (nonlinear_arith)
        requires
            a1 == x.n * p.d * p.d * q.d,
    ;
    assert((p.n * q.d - q.n * p.d) * (x.d * p.d) == p.n * q.d * x.d * p.d - a4)
        by (nonlinear_arith)
        requires
            a4 == q.n * p.d * x.d * p.d,
    ;
    assert(p.n * x.d * p.d * q.d == p.n * q.d * x.d * p.d) by (nonlinear_arith);
    assert((a1 - a4) * (x.d * q.d) == a1 * (x.d * q.d) - a4 * (x.d * q.d)) by (nonlinear_arith);
    assert(a1 * (x.d * q.d) == x.n * q.d * ((x.d * p.d) * (p.d * q.d))) by (nonlinear_arith)
        requires
            a1 == x.n * p.d * p.d * q.d,
    ;
    assert(a4 * (x.d * q.d) == q.n * x.d * ((x.d * p.d) * (p.d * q.d))) by (nonlinear_arith)
        requires
            a4 == q.n * p.d * x.d * p.d,
    ;
    assert((x.n * q.d - q.n * x.d) * ((x.d * p.d) * (p.d * q.d)) == x.n * q.d * ((x.d * p.d) * (
    p.d * q.d)) - q.n * x.d * ((x.d * p.d) * (p.d * q.d))) by (nonlinear_arith);
}

/// A zero plus a nonnegative value is nonnegative.
proof fn lemma_s_nonneg_add_zero(c: Frac, w: Frac)
    requires
        q_wf(c),
        q_wf(w),
        q_eq(c, q_int(0)),
        q_le(q_int(0), w),
    ensures
        q_le(q_int(0), q_add(c, w)),
{
    assert(0 * (c.d * w.d) <= (c.n * w.d + w.n * c.d) * 1) by (nonlinear_arith)
        requires
            c.d > 0,
            w.d > 0,
            c.n * 1 == 0 * c.d,
            0 * w.d <= w.n * 1,
    ;
}

/// Least-squares optimality: a solution of the normal equations has the
/// smallest residual sum of squares among all coefficient vectors.  The
/// model-comparison sums of squares built from such fits are therefore
/// the true least-squares quantities, and every nested-model difference
/// of them is nonnegative.
#[verifier::rlimit(60)]
pub proof fn lemma_ne_minimizes_sse(cols: Seq<Seq<Frac>>, y: Seq<Rat>, b: Seq<Rat>, b2: Seq<Rat>)
    requires
        forall|j: int|
            0 <= j < cols.len() ==> (#[trigger] cols[j]).len() == y.len() && all_wf(cols[j]),
        rats_wf(y),
        rats_wf(b),
        rats_wf(b2),
        b.len() == cols.len(),
        b2.len() == cols.len(),
        crate::anova::cols_ne(cols, y, b),
    ensures
        q_le(crate::anova::cols_sse(cols, y, b), crate::anova::cols_sse(cols, y, b2)),
{
    let n = y.len() as int;
    let k = cols.len() as int;
    assert(all_wf(vq(b)));
    assert(all_wf(vq(b2)));
    assert(all_wf(vq(y)));
    let d = vec_sub(vq(b), vq(b2));
    lemma_vec_sub_wf(vq(b), vq(b2));
    lemma_lin_comb_shape(d, cols, n);
    let v = lin_comb(d, cols, n);
    let rv = resid_vec(cols, y, b);
    let rv2 = resid_vec(cols, y, b2);
    lemma_resid_vec_wf(cols, y, b);
    lemma_resid_vec_wf(cols, y, b2);
    // The second residual is the first plus the fitted-value shift.
    assert forall|i: int| 0 <= i < n implies q_eq(#[trigger] rv2[i], q_add(rv[i], v[i])) by {
        let dr = crate::anova::design_row(cols, i);
        assert forall|t: int| 0 <= t < dr.len() implies q_wf(#[trigger] dr[t]) by {
            assert(all_wf(cols[t]));
        }
        assert(all_wf(dr));
        lemma_lin_comb_entry(d, cols, n, i);
        assert(row_col(cols, i) =~= dr);
        lemma_dot_sub_left(vq(b), vq(b2), dr);
        lemma_dot_wfs(d, dr);
        lemma_dot_wfs(dr, vq(b));
        lemma_dot_wfs(dr, vq(b2));
        lemma_dot_comm(vq(b), dr);
        lemma_dot_comm(vq(b2), dr);
        lemma_q_ops_wf(q_dot(dr, vq(b)), q_dot(dr, vq(b2)));
        lemma_q_eq_trans(v[i], q_dot(d, dr), q_sub(q_dot(dr, vq(b)), q_dot(dr, vq(b2))));
        // rv[i] + v[i] ~ (y_i - B) + (B - B2) ~ y_i - B2.
        lemma_s_telescope(vq(y)[i], q_dot(dr, vq(b)), q_dot(dr, vq(b2)));
        lemma_q_ops_wf(vq(y)[i], q_dot(dr, vq(b)));
        lemma_q_ops_wf(vq(y)[i], q_dot(dr, vq(b2)));
        lemma_q_add_congr(
            rv[i],
            rv[i],
            v[i],
            q_sub(q_dot(dr, vq(b)), q_dot(dr, vq(b2))),
        );
        lemma_q_ops_wf(rv[i], v[i]);
        lemma_q_ops_wf(rv[i], q_sub(q_dot(dr, vq(b)), q_dot(dr, vq(b2))));
        lemma_q_eq_trans(
            q_add(rv[i], v[i]),
            q_add(
                q_sub(vq(y)[i], q_dot(dr, vq(b))),
                q_sub(q_dot(dr, vq(b)), q_dot(dr, vq(b2))),
            ),
            rv2[i],
        );
    }
    // Split the squared second residuals into square, cross and shift
    // parts.
    let s_rr = Seq::new(n as nat, |i: int| q_mul(rv[i], rv[i]));
    let c1 = Seq::new(n as nat, |i: int| q_mul(rv[i], v[i]));
    let c2 = Seq::new(n as nat, |i: int| q_mul(v[i], rv[i]));
    let s_vv = Seq::new(n as nat, |i: int| q_mul(v[i], v[i]));
    let sq2 = Seq::new(n as nat, |i: int| q_mul(rv2[i], rv2[i]));
    let split = vec_add(s_rr, vec_add(vec_add(c1, c2), s_vv));
    assert forall|i: int| 0 <= i < sq2.len() implies q_wf(#[trigger] sq2[i]) by {
        lemma_split_term(rv[i], v[i], rv2[i]);
    }
    assert(all_wf(sq2));
    assert forall|i: int| 0 <= i < split.len() implies q_wf(#[trigger] split[i]) by {
        lemma_split_term(rv[i], v[i], rv2[i]);
        assert(split[i] == q_add(
            q_mul(rv[i], rv[i]),
            q_add(q_add(q_mul(rv[i], v[i]), q_mul(v[i], rv[i])), q_mul(v[i], v[i])),
        ));
    }
    assert(all_wf(split));
    assert forall|i: int| 0 <= i < sq2.len() implies q_eq(#[trigger] sq2[i], split[i]) by {
        lemma_split_term(rv[i], v[i], rv2[i]);
        assert(split[i] == q_add(
            q_mul(rv[i], rv[i]),
            q_add(q_add(q_mul(rv[i], v[i]), q_mul(v[i], rv[i])), q_mul(v[i], v[i])),
        ));
    }
    lemma_q_sum_congr(sq2, split);
    lemma_sum_add(s_rr, vec_add(vec_add(c1, c2), s_vv));
    lemma_sum_add(vec_add(c1, c2), s_vv);
    lemma_sum_add(c1, c2);
    // The cross sums vanish by orthogonality of columns and residuals.
    lemma_dot_as_sum(rv, v);
    lemma_dot_as_sum(v, rv);
    assert(c1 =~= Seq::new(rv.len(), |t: int| q_mul(rv[t], v[t])));
    assert(c2 =~= Seq::new(v.len(), |t: int| q_mul(v[t], rv[t])));
    lemma_dot_comm(rv, v);
    lemma_dot_lin_comb(d, cols, rv, n);
    let cs = comb_seq(d, cols, rv);
    assert forall|t: int| 0 <= t < k implies q_wf(#[trigger] cs[t]) && q_eq(cs[t], q_int(0)) by {
        lemma_dot_wfs(cols[t], rv);
        lemma_q_ops_wf(d[t], q_dot(cols[t], rv));
        lemma_col_dot_resid_zero(cols, y, b, t);
        lemma_s_mul_zero_right(d[t], q_dot(cols[t], rv));
    }
    assert(all_wf(cs));
    lemma_sum_collapse(cs, cs.len() as int, q_int(0));
    lemma_q_sum_wf(cs);
    lemma_dot_wfs(v, rv);
    lemma_q_eq_trans(q_dot(v, rv), q_sum(cs), q_int(0));
    assert(q_eq(q_sum(c1), q_int(0)));
    assert(q_eq(q_sum(c2), q_int(0)));
    assert forall|t: int| 0 <= t < c1.len() implies q_wf(#[trigger] c1[t]) by {
        lemma_q_ops_wf(rv[t], v[t]);
    }
    assert forall|t: int| 0 <= t < c2.len() implies q_wf(#[trigger] c2[t]) by {
        lemma_q_ops_wf(v[t], rv[t]);
    }
    lemma_q_sum_wf(c1);
    lemma_q_sum_wf(c2);
    lemma_s_add_zero_zero(q_sum(c1), q_sum(c2));
    // The shift sum is nonnegative.
    assert forall|t: int| 0 <= t < s_vv.len() implies q_wf(#[trigger] s_vv[t]) && q_le(
        q_int(0),
        s_vv[t],
    ) by {
        lemma_q_ops_wf(v[t], v[t]);
        lemma_s_sq_nonneg(v[t]);
    }
    assert(all_wf(s_vv));
    lemma_sum_nonneg(s_vv);
    lemma_q_sum_wf(s_vv);
    assert(all_wf(c1));
    assert(all_wf(c2));
    lemma_vec_add_wf(c1, c2);
    lemma_q_sum_wf(vec_add(c1, c2));
    lemma_s_nonneg_add_zero(q_sum(vec_add(c1, c2)), q_sum(s_vv));
    // Assemble the inequality.
    assert(all_wf(s_rr)) by {
        assert forall|t: int| 0 <= t < s_rr.len() implies q_wf(#[trigger] s_rr[t]) by {
            lemma_q_ops_wf(rv[t], rv[t]);
        }
    }
    lemma_q_sum_wf(s_rr);
    lemma_q_sum_wf(sq2);
    lemma_q_sum_wf(split);
    lemma_q_ops_wf(q_sum(vec_add(c1, c2)), q_sum(s_vv));
    assert(s_rr =~= Seq::new(
        y.len(),
        |i: int|
            q_mul(
                q_sub(vq(y)[i], q_dot(crate::anova::design_row(cols, i), vq(b))),
                q_sub(vq(y)[i], q_dot(crate::anova::design_row(cols, i), vq(b))),
            ),
    ));
    assert(sq2 =~= Seq::new(
        y.len(),
        |i: int|
            q_mul(
                q_sub(vq(y)[i], q_dot(crate::anova::design_row(cols, i), vq(b2))),
                q_sub(vq(y)[i], q_dot(crate::anova::design_row(cols, i), vq(b2))),
            ),
    ));
    assert(crate::anova::cols_sse(cols, y, b) == q_sum(s_rr));
    assert(crate::anova::cols_sse(cols, y, b2) == q_sum(sq2));
    lemma_s_le_from_add2(
        q_sum(sq2),
        q_sum(split),
        q_sum(s_rr),
        q_add(q_sum(vec_add(c1, c2)), q_sum(s_vv)),
    );
}

/// The square of a value equal to `r + v` splits into square, cross
/// and shift parts.
proof fn lemma_split_term(r: Frac, v: Frac, r2: Frac)
    requires
        q_wf(r),
        q_wf(v),
        q_wf(r2),
        q_eq(r2, q_add(r, v)),
    ensures
        q_wf(q_mul(r2, r2)),
        q_wf(
            q_add(
                q_mul(r, r),
                q_add(q_add(q_mul(r, v), q_mul(v, r)), q_mul(v, v)),
            ),
        ),
        q_eq(
            q_mul(r2, r2),
            q_add(
                q_mul(r, r),
                q_add(q_add(q_mul(r, v), q_mul(v, r)), q_mul(v, v)),
            ),
        ),
{
    lemma_q_ops_wf(r, r);
    lemma_q_ops_wf(r, v);
    lemma_q_ops_wf(v, r);
    lemma_q_ops_wf(v, v);
    lemma_q_ops_wf(r2, r2);
    lemma_q_ops_wf(q_mul(r, v), q_mul(v, r));
    lemma_q_ops_wf(q_add(q_mul(r, v), q_mul(v, r)), q_mul(v, v));
    lemma_q_ops_wf(
        q_mul(r, r),
        q_add(q_add(q_mul(r, v), q_mul(v, r)), q_mul(v, v)),
    );
    lemma_s_binomial(r, v);
    lemma_q_ops_wf(q_add(r, v), q_add(r, v));
    lemma_q_mul_congr(r2, q_add(r, v), r2, q_add(r, v));
    lemma_q_eq_trans(
        q_mul(r2, r2),
        q_mul(q_add(r, v), q_add(r, v)),
        q_add(
            q_mul(r, r),
            q_add(q_add(q_mul(r, v), q_mul(v, r)), q_mul(v, v)),
        ),
    );
}

/// `x ~ s'` with `s' == s + e` and `e >= 0` give `s <= x`.
proof fn lemma_s_le_from_add2(x: Frac, xs: Frac, s: Frac, e: Frac)
    requires
        q_wf(x),
        q_wf(s),
        q_wf(e),
        q_eq(x, xs),
        xs == q_add(s, e),
        q_le(q_int(0), e),
    ensures
        q_le(s, x),
{
    lemma_s_le_from_add(x, s, e);
}

/// `0 + x ~ x`.
proof fn lemma_s_zero_add_id(x: Frac)
    ensures
        q_eq(q_add(q_int(0), x), x),
{
    assert((0 * x.d + x.n * 1) * x.d == x.n * (1 * x.d)) by (nonlinear_arith);
}

/// The all-ones column's inner product with itself is the row count.
proof fn lemma_ones_dot_ones(n: int)
    requires
        0 <= n,
    ensures
        q_dot(crate::anova::const_ones(n), crate::anova::const_ones(n)) == q_int(n),
    decreases n,
{
    if n == 0 {
    } else {
        assert(crate::anova::const_ones(n).drop_last() =~= crate::anova::const_ones(n - 1));
        lemma_ones_dot_ones(n - 1);
        assert(q_mul(q_int(1), q_int(1)) == q_int(1)) by (nonlinear_arith);
        assert(q_add(q_int(n - 1), q_int(1)) == q_int(n)) by (nonlinear_arith);
    }
}

/// The all-ones column's inner product with a vector is its sum.
proof fn lemma_ones_dot(s: Seq<Frac>)
    ensures
        q_dot(crate::anova::const_ones(s.len() as int), s) == q_sum(s),
    decreases s.len(),
{
    if s.len() == 0 {
    } else {
        assert(crate::anova::const_ones(s.len() as int).drop_last() =~= crate::anova::const_ones(
            s.drop_last().len() as int,
        ));
        lemma_ones_dot(s.drop_last());
        assert(q_mul(q_int(1), s.last()) == s.last()) by (nonlinear_arith);
    }
}

/// A coefficient satisfying the intercept-only normal equation is the
/// sample mean.
pub proof fn lemma_intercept_ne_gives_mean(y: Seq<Rat>, b: Seq<Rat>)
    requires
        rats_wf(y),
        rats_wf(b),
        b.len() == 1,
        y.len() >= 1,
        crate::anova::cols_ne(crate::anova::intercept_only_cols(y.len() as int), y, b),
    ensures
        q_eq(vq(b)[0], crate::descr::q_mean(vq(y))),
{
    let n = y.len() as int;
    let ic = crate::anova::intercept_only_cols(n);
    let ones = crate::anova::const_ones(n);
    assert(all_wf(vq(y)));
    assert(all_wf(vq(b)));
    let gr = crate::anova::cols_gram_row(ic, 0);
    assert(gr =~= seq![q_dot(ones, ones)]);
    lemma_ones_dot_ones(n);
    // The one-element inner products unfold to single products.
    assert(q_dot(gr, vq(b)) == q_add(q_int(0), q_mul(q_int(n), vq(b)[0]))) by {
        assert(gr.len() == 1 && vq(b).len() == 1);
        assert(gr.drop_last().len() == 0);
        assert(q_dot(gr.drop_last(), vq(b).drop_last()) == q_int(0));
        assert(gr.last() == q_int(n));
        assert(vq(b).last() == vq(b)[0]);
    }
    lemma_q_ops_wf(q_int(n), vq(b)[0]);
    lemma_s_zero_add_id(q_mul(q_int(n), vq(b)[0]));
    assert(vq(y).len() == n);
    lemma_ones_dot(vq(y));
    assert(q_dot(ic[0], vq(y)) == q_sum(vq(y)));
    lemma_q_sum_wf(vq(y));
    lemma_q_eq_trans(
        q_mul(q_int(n), vq(b)[0]),
        q_dot(gr, vq(b)),
        q_sum(vq(y)),
    );
    let sy = q_sum(vq(y));
    assert(q_eq(vq(b)[0], crate::descr::q_mean(vq(y)))) by (nonlinear_arith)
        requires
            vq(b)[0].d > 0,
            sy.d > 0,
            n >= 1,
            (n * vq(b)[0].n) * sy.d == sy.n * (1 * vq(b)[0].d),
            crate::descr::q_mean(vq(y)) == (Frac { n: sy.n * 1, d: sy.d * n }),
    ;
}

/// Any coefficient equal to the sample mean gives the intercept-only
/// model the total sum of squares as its residual sum of squares.
pub proof fn lemma_mean_coeff_sse_is_sst(y: Seq<Rat>, b: Seq<Rat>)
    requires
        rats_wf(y),
        rats_wf(b),
        b.len() == 1,
        y.len() >= 1,
        q_eq(vq(b)[0], crate::descr::q_mean(vq(y))),
    ensures
        q_eq(
            crate::anova::cols_sse(crate::anova::intercept_only_cols(y.len() as int), y, b),
            crate::descr::sst_of(y),
        ),
{
    let n = y.len() as int;
    let ic = crate::anova::intercept_only_cols(n);
    let m = crate::descr::q_mean(vq(y));
    assert(all_wf(vq(y)));
    assert(all_wf(vq(b)));
    crate::descr::lemma_q_mean_wf(vq(y));
    let terms = Seq::new(
        y.len(),
        |i: int|
            q_mul(
                q_sub(vq(y)[i], q_dot(crate::anova::design_row(ic, i), vq(b))),
                q_sub(vq(y)[i], q_dot(crate::anova::design_row(ic, i), vq(b))),
            ),
    );
    let devs = crate::descr::sq_dev_seq(vq(y), m);
    assert forall|i: int| 0 <= i < n implies q_wf(#[trigger] terms[i]) && q_eq(
        terms[i],
        devs[i],
    ) by {
        let dr = crate::anova::design_row(ic, i);
        assert(dr =~= seq![q_int(1)]);
        assert(q_dot(dr, vq(b)) == q_add(q_int(0), q_mul(q_int(1), vq(b)[0]))) by {
            assert(dr.len() == 1 && vq(b).len() == 1);
            assert(dr.drop_last().len() == 0);
            assert(q_dot(dr.drop_last(), vq(b).drop_last()) == q_int(0));
            assert(dr.last() == q_int(1));
            assert(vq(b).last() == vq(b)[0]);
        }
        assert(q_mul(q_int(1), vq(b)[0]) == vq(b)[0]) by (nonlinear_arith);
        lemma_s_zero_add_id(vq(b)[0]);
        lemma_q_eq_trans(q_dot(dr, vq(b)), vq(b)[0], m);
        lemma_q_sub_congr(vq(y)[i], vq(y)[i], q_dot(dr, vq(b)), m);
        lemma_q_ops_wf(vq(y)[i], q_dot(dr, vq(b)));
        lemma_q_ops_wf(vq(y)[i], m);
        lemma_q_mul_congr(
            q_sub(vq(y)[i], q_dot(dr, vq(b))),
            q_sub(vq(y)[i], m),
            q_sub(vq(y)[i], q_dot(dr, vq(b))),
            q_sub(vq(y)[i], m),
        );
        lemma_q_ops_wf(q_sub(vq(y)[i], q_dot(dr, vq(b))), q_sub(vq(y)[i], q_dot(dr, vq(b))));
    }
    assert(all_wf(terms)) by {
        assert forall|i: int| 0 <= i < terms.len() implies q_wf(#[trigger] terms[i]) by {
            assert(q_wf(terms[i]) && q_eq(terms[i], devs[i]));
        }
    }
    crate::descr::lemma_sq_dev_all_wf(vq(y), m);
    lemma_q_sum_congr(terms, devs);
    assert(crate::anova::cols_sse(ic, y, b) == q_sum(terms));
}

/// A residual sum of squares is never negative.
pub proof fn lemma_cols_sse_nonneg(cols: Seq<Seq<Frac>>, y: Seq<Rat>, b: Seq<Rat>)
    requires
        forall|j: int|
            0 <= j < cols.len() ==> (#[trigger] cols[j]).len() == y.len() && all_wf(cols[j]),
        rats_wf(y),
        rats_wf(b),
    ensures
        q_le(q_int(0), crate::anova::cols_sse(cols, y, b)),
{
    let rv = resid_vec(cols, y, b);
    lemma_resid_vec_wf(cols, y, b);
    let terms = Seq::new(y.len(), |i: int| q_mul(rv[i], rv[i]));
    assert forall|i: int| 0 <= i < terms.len() implies q_wf(#[trigger] terms[i]) && q_le(
        q_int(0),
        terms[i],
    ) by {
        lemma_q_ops_wf(rv[i], rv[i]);
        lemma_s_sq_nonneg(rv[i]);
    }
    assert(all_wf(terms)) by {
        assert forall|i: int| 0 <= i < terms.len() implies q_wf(#[trigger] terms[i]) by {
            assert(q_wf(terms[i]) && q_le(q_int(0), terms[i]));
        }
    }
    lemma_sum_nonneg(terms);
    assert(terms =~= Seq::new(
        y.len(),
        |i: int|
            q_mul(
                q_sub(vq(y)[i], q_dot(crate::anova::design_row(cols, i), vq(b))),
                q_sub(vq(y)[i], q_dot(crate::anova::design_row(cols, i), vq(b))),
            ),
    ));
    assert(crate::anova::cols_sse(cols, y, b) == q_sum(terms));
}

/// The total sum of squares is never negative.
pub proof fn lemma_sst_nonneg(y: Seq<Rat>)
    requires
        rats_wf(y),
        y.len() >= 1,
    ensures
        q_le(q_int(0), crate::descr::sst_of(y)),
        q_wf(crate::descr::sst_of(y)),
{
    let m = crate::descr::q_mean(vq(y));
    assert(all_wf(vq(y)));
    crate::descr::lemma_q_mean_wf(vq(y));
    let devs = crate::descr::sq_dev_seq(vq(y), m);
    crate::descr::lemma_sq_dev_all_wf(vq(y), m);
    assert forall|i: int| 0 <= i < devs.len() implies q_le(q_int(0), #[trigger] devs[i]) by {
        lemma_q_ops_wf(vq(y)[i], m);
        lemma_s_sq_nonneg(q_sub(vq(y)[i], m));
    }
    lemma_sum_nonneg(devs);
    lemma_q_sum_wf(devs);
}

/// The diagonal of an exact Gram inverse is never negative: each entry
/// is the squared length of a combination of the design's columns.
pub proof fn lemma_inv_diag_nonneg(cols: Seq<Seq<Frac>>, m: Mat, n: int, j: int)
    requires
        forall|t: int| 0 <= t < cols.len() ==> (#[trigger] cols[t]).len() == n && all_wf(cols[t]),
        0 <= n,
        crate::regression::cols_gram_inverse(cols, m),
        0 <= j < cols.len(),
    ensures
        q_le(q_int(0), m.ent(j, j)),
{
    let k = cols.len() as int;
    let c = m.mcol(j);
    m.lemma_col_wf(j);
    lemma_lin_comb_shape(c, cols, n);
    let v = lin_comb(c, cols, n);
    lemma_dot_lin_comb(c, cols, v, n);
    let cs = comb_seq(c, cols, v);
    // Each column's product with the combination is the matching
    // Gram-inverse certificate entry.
    assert forall|t: int| 0 <= t < k implies q_eq(
        #[trigger] q_dot(cols[t], v),
        q_int(if t == j { 1int } else { 0int }),
    ) by {
        lemma_dot_comm(cols[t], v);
        lemma_dot_lin_comb(c, cols, cols[t], n);
        let inner = comb_seq(c, cols, cols[t]);
        let gr = crate::anova::cols_gram_row(cols, t);
        assert forall|t2: int| 0 <= t2 < k implies q_wf(#[trigger] gr[t2]) by {
            lemma_dot_wfs(cols[t], cols[t2]);
        }
        assert forall|t2: int| 0 <= t2 < k implies #[trigger] inner[t2] == q_mul(c[t2], gr[t2])
            by {
            lemma_dot_comm(cols[t2], cols[t]);
        }
        lemma_dot_as_sum(c, gr);
        assert(inner =~= Seq::new(c.len(), |t2: int| q_mul(c[t2], gr[t2])));
        lemma_dot_comm(gr, c);
        assert forall|t2: int| 0 <= t2 < inner.len() implies q_wf(#[trigger] inner[t2]) by {
            lemma_dot_wfs(cols[t2], cols[t]);
            lemma_q_ops_wf(c[t2], q_dot(cols[t2], cols[t]));
        }
        lemma_q_sum_wf(inner);
        lemma_dot_wfs(cols[t], v);
        lemma_q_eq_trans(
            q_dot(cols[t], v),
            q_sum(inner),
            q_int(if t == j { 1int } else { 0int }),
        );
    }
    assert forall|t: int| 0 <= t < k && t != j implies q_eq(#[trigger] cs[t], q_int(0)) by {
        lemma_s_mul_zero_right(c[t], q_dot(cols[t], v));
    }
    assert(q_eq(cs[j], c[j])) by {
        lemma_s_mul_one_right(c[j], q_dot(cols[j], v));
    }
    assert(all_wf(cs)) by {
        assert forall|t: int| 0 <= t < cs.len() implies q_wf(#[trigger] cs[t]) by {
            lemma_dot_wfs(cols[t], v);
            lemma_q_ops_wf(c[t], q_dot(cols[t], v));
        }
    }
    lemma_sum_collapse(cs, j, c[j]);
    // The combination's squared length is the diagonal entry and is
    // nonnegative.
    let vsq = Seq::new(v.len(), |t: int| q_mul(v[t], v[t]));
    lemma_usq_is_dot(v);
    assert forall|t: int| 0 <= t < vsq.len() implies q_wf(#[trigger] vsq[t]) && q_le(
        q_int(0),
        vsq[t],
    ) by {
        lemma_q_ops_wf(v[t], v[t]);
        lemma_s_sq_nonneg(v[t]);
    }
    assert(all_wf(vsq)) by {
        assert forall|t: int| 0 <= t < vsq.len() implies q_wf(#[trigger] vsq[t]) by {
            assert(q_wf(vsq[t]) && q_le(q_int(0), vsq[t]));
        }
    }
    lemma_sum_nonneg(vsq);
    lemma_q_sum_wf(cs);
    lemma_dot_wfs(v, v);
    lemma_q_eq_trans(q_dot(v, v), q_sum(cs), c[j]);
    lemma_q_le_congr(q_int(0), q_int(0), q_dot(v, v), c[j]);
    assert(c[j] == m.ent(j, j));
}

/// `y <= x` makes the difference nonnegative.
pub proof fn lemma_s_sub_nonneg(x: Frac, y: Frac)
    requires
        q_wf(x),
        q_wf(y),
        q_le(y, x),
    ensures
        q_le(q_int(0), q_sub(x, y)),
{
    assert(0 * (x.d * y.d) <= (x.n * y.d - y.n * x.d) * 1) by (nonlinear_arith)
        requires
            x.d > 0,
            y.d > 0,
            y.n * x.d <= x.n * y.d,
    ;
}

/// Padding a one-coefficient fit with zeros for the remaining columns
/// leaves the residual sum of squares of the first column's model.
pub proof fn lemma_first_col_padding(
    cols: Seq<Seq<Frac>>,
    y: Seq<Rat>,
    b1: Seq<Rat>,
    pad: Seq<Rat>,
)
    requires
        forall|j: int|
            0 <= j < cols.len() ==> (#[trigger] cols[j]).len() == y.len() && all_wf(cols[j]),
        cols.len() >= 1,
        rats_wf(y),
        rats_wf(b1),
        rats_wf(pad),
        b1.len() == 1,
        pad.len() == cols.len(),
        vq(pad)[0] == vq(b1)[0],
        forall|j: int| 1 <= j < pad.len() ==> (#[trigger] vq(pad)[j]) == q_int(0),
    ensures
        q_eq(
            crate::anova::cols_sse(cols, y, pad),
            crate::anova::cols_sse(seq![cols[0]], y, b1),
        ),
{
    let n = y.len() as int;
    let k = cols.len() as int;
    let small = seq![cols[0]];
    assert(all_wf(vq(y)));
    assert(all_wf(vq(pad)));
    assert(all_wf(vq(b1)));
    let tb = Seq::new(
        y.len(),
        |i: int|
            q_mul(
                q_sub(vq(y)[i], q_dot(crate::anova::design_row(cols, i), vq(pad))),
                q_sub(vq(y)[i], q_dot(crate::anova::design_row(cols, i), vq(pad))),
            ),
    );
    let ts = Seq::new(
        y.len(),
        |i: int|
            q_mul(
                q_sub(vq(y)[i], q_dot(crate::anova::design_row(small, i), vq(b1))),
                q_sub(vq(y)[i], q_dot(crate::anova::design_row(small, i), vq(b1))),
            ),
    );
    assert forall|i: int| 0 <= i < n implies q_wf(#[trigger] tb[i]) && q_eq(tb[i], ts[i]) by {
        let dr = crate::anova::design_row(cols, i);
        assert forall|t: int| 0 <= t < dr.len() implies q_wf(#[trigger] dr[t]) by {
            assert(all_wf(cols[t]));
        }
        assert(all_wf(dr));
        let b0 = vq(b1)[0];
        let v0 = q_mul(dr[0], b0);
        lemma_q_ops_wf(dr[0], b0);
        // The padded inner product collapses to the first column's term.
        lemma_dot_as_sum(dr, vq(pad));
        let terms = Seq::new(dr.len(), |t: int| q_mul(dr[t], vq(pad)[t]));
        assert forall|t: int| 0 <= t < terms.len() implies q_wf(#[trigger] terms[t]) by {
            lemma_q_ops_wf(dr[t], vq(pad)[t]);
        }
        assert forall|t: int| 0 <= t < terms.len() && t != 0 implies q_eq(
            #[trigger] terms[t],
            q_int(0),
        ) by {
            lemma_s_mul_zero_right(dr[t], vq(pad)[t]);
        }
        assert(terms[0] == v0);
        lemma_sum_collapse(terms, 0, v0);
        lemma_q_sum_wf(terms);
        lemma_dot_wfs(dr, vq(pad));
        lemma_q_eq_trans(q_dot(dr, vq(pad)), q_sum(terms), v0);
        // The one-column inner product is the same term.
        let drs = crate::anova::design_row(small, i);
        assert(drs =~= seq![cols[0][i]]);
        assert(q_dot(drs, vq(b1)) == q_add(q_int(0), q_mul(cols[0][i], b0))) by {
            assert(drs.len() == 1 && vq(b1).len() == 1);
            assert(drs.drop_last().len() == 0);
            assert(q_dot(drs.drop_last(), vq(b1).drop_last()) == q_int(0));
            assert(drs.last() == cols[0][i]);
            assert(vq(b1).last() == b0);
        }
        assert(dr[0] == cols[0][i]);
        lemma_s_zero_add_id(q_mul(cols[0][i], b0));
        assert(all_wf(cols[0]));
        lemma_q_ops_wf(cols[0][i], b0);
        assert(all_wf(drs)) by {
            assert forall|t: int| 0 <= t < drs.len() implies q_wf(#[trigger] drs[t]) by {
                assert(drs[t] == cols[0][i]);
            }
        }
        lemma_dot_wfs(drs, vq(b1));
        lemma_q_eq_trans(q_dot(dr, vq(pad)), v0, q_dot(drs, vq(b1)));
        // Equal fitted values give equal squared residuals.
        lemma_q_sub_congr(vq(y)[i], vq(y)[i], q_dot(dr, vq(pad)), q_dot(drs, vq(b1)));
        lemma_q_ops_wf(vq(y)[i], q_dot(dr, vq(pad)));
        lemma_q_ops_wf(vq(y)[i], q_dot(drs, vq(b1)));
        lemma_q_mul_congr(
            q_sub(vq(y)[i], q_dot(dr, vq(pad))),
            q_sub(vq(y)[i], q_dot(drs, vq(b1))),
            q_sub(vq(y)[i], q_dot(dr, vq(pad))),
            q_sub(vq(y)[i], q_dot(drs, vq(b1))),
        );
        lemma_q_ops_wf(
            q_sub(vq(y)[i], q_dot(dr, vq(pad))),
            q_sub(vq(y)[i], q_dot(dr, vq(pad))),
        );
    }
    assert(all_wf(tb)) by {
        assert forall|i: int| 0 <= i < tb.len() implies q_wf(#[trigger] tb[i]) by {
            assert(q_wf(tb[i]) && q_eq(tb[i], ts[i]));
        }
    }
    assert forall|i: int| 0 <= i < ts.len() implies q_wf(#[trigger] ts[i]) by {
        let drs = crate::anova::design_row(small, i);
        assert(all_wf(drs)) by {
            assert forall|t: int| 0 <= t < drs.len() implies q_wf(#[trigger] drs[t]) by {
                assert(all_wf(cols[0]));
                assert(drs[t] == cols[0][i]);
            }
        }
        lemma_dot_wfs(drs, vq(b1));
        lemma_q_ops_wf(vq(y)[i], q_dot(drs, vq(b1)));
        lemma_q_ops_wf(
            q_sub(vq(y)[i], q_dot(drs, vq(b1))),
            q_sub(vq(y)[i], q_dot(drs, vq(b1))),
        );
    }
    assert(all_wf(ts));
    lemma_q_sum_congr(tb, ts);
    assert(crate::anova::cols_sse(cols, y, pad) == q_sum(tb));
    assert(crate::anova::cols_sse(small, y, b1) == q_sum(ts));
}

/// The coefficient of determination lies between zero and one when the
/// residual sum of squares is between zero and the total sum of squares.
pub proof fn lemma_r2_bounds(r2v: Frac, ssev: Frac, sstv: Frac)
    requires
        q_wf(r2v),
        q_wf(ssev),
        q_wf(sstv),
        q_eq(r2v, q_sub(q_int(1), q_div(ssev, sstv))),
        q_le(q_int(0), ssev),
        q_le(ssev, sstv),
        q_le(q_int(0), sstv),
        !q_eq(sstv, q_int(0)),
    ensures
        q_le(q_int(0), r2v),
        q_le(r2v, q_int(1)),
{
    let e = q_sub(q_int(1), q_div(ssev, sstv));
    assert(sstv.n > 0) by (nonlinear_arith)
        requires
            0 * sstv.d <= sstv.n * 1,
            !(sstv.n * 1 == 0 * sstv.d),
    ;
    assert(e.d > 0 && q_le(q_int(0), e) && q_le(e, q_int(1))) by (nonlinear_arith)
        requires
            ssev.d > 0,
            sstv.d > 0,
            sstv.n > 0,
            0 * ssev.d <= ssev.n * 1,
            ssev.n * sstv.d <= sstv.n * ssev.d,
            e.n == 1 * (ssev.d * sstv.n) - ssev.n * sstv.d * 1,
            e.d == 1 * (ssev.d * sstv.n),
    ;
    lemma_q_le_congr(q_int(0), q_int(0), e, r2v);
    lemma_q_le_congr(e, r2v, q_int(1), q_int(1));
}

/// A nonnegative value divided by a positive count stays nonnegative.
pub proof fn lemma_s_div_pos_nonneg(x: Frac, m: int)
    requires
        q_wf(x),
        q_le(q_int(0), x),
        m >= 1,
    ensures
        q_le(q_int(0), q_div(x, q_int(m))),
{
    assert(0 * (x.d * m) <= (x.n * 1) * 1) by (nonlinear_arith)
        requires
            x.d > 0,
            m >= 1,
            0 * x.d <= x.n * 1,
    ;
}

/// A product of nonnegative rationals is nonnegative.
pub proof fn lemma_s_mul_nonneg(x: Frac, y: Frac)
    requires
        q_wf(x),
        q_wf(y),
        q_le(q_int(0), x),
        q_le(q_int(0), y),
    ensures
        q_le(q_int(0), q_mul(x, y)),
{
    assert(0 * (x.d * y.d) <= (x.n * y.n) * 1) by (nonlinear_arith)
        requires
            x.d > 0,
            y.d > 0,
            0 * x.d <= x.n * 1,
            0 * y.d <= y.n * 1,
    ;
}

/// The adjusted coefficient of determination never exceeds the plain
/// one: the penalty factor `(n-1)/(n-p)` is at least one.
pub proof fn lemma_adj_r2_le(adjv: Frac, r2v: Frac, nm1: int, nmp: int)
    requires
        q_wf(adjv),
        q_wf(r2v),
        1 <= nmp <= nm1,
        q_le(r2v, q_int(1)),
        q_eq(
            adjv,
            q_sub(q_int(1), q_div(q_mul(q_sub(q_int(1), r2v), q_int(nm1)), q_int(nmp))),
        ),
    ensures
        q_le(adjv, r2v),
{
    let a = q_sub(q_int(1), q_div(q_mul(q_sub(q_int(1), r2v), q_int(nm1)), q_int(nmp)));
    assert(a.d > 0 && q_le(a, r2v)) by (nonlinear_arith)
        requires
            r2v.d > 0,
            1 <= nmp <= nm1,
            r2v.n * 1 <= 1 * r2v.d,
            a.n == 1 * ((1 * r2v.d) * 1 * nmp) - (1 * r2v.d - r2v.n * 1) * nm1 * 1,
            a.d == (1 * r2v.d) * 1 * nmp,
    ;
    lemma_q_le_congr(a, adjv, r2v, r2v);
}

} // verus!
