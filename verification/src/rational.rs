use vstd::prelude::*;
use vstd::arithmetic::div_mod::lemma_fundamental_div_mod;
use vstd::arithmetic::div_mod::lemma_div_by_multiple;
use vstd::arithmetic::div_mod::lemma_mod_division_less_than_divisor;

verus! {

/// A rational number as it appears in specifications: the integer `n`
/// divided by the integer `d`.  Well-formed values keep `d` positive.
pub struct Frac {
    pub n: int,
    pub d: int,
}

/// A well-formed specification rational has a positive denominator.
pub open spec fn q_wf(a: Frac) -> bool {
    a.d > 0
}

/// Two fractions denote the same rational number (cross multiplication).
pub open spec fn q_eq(a: Frac, b: Frac) -> bool {
    a.n * b.d == b.n * a.d
}

/// The fraction `i / 1`.
pub open spec fn q_int(i: int) -> Frac {
    Frac { n: i, d: 1 }
}

pub open spec fn q_add(a: Frac, b: Frac) -> Frac {
    Frac { n: a.n * b.d + b.n * a.d, d: a.d * b.d }
}

pub open spec fn q_sub(a: Frac, b: Frac) -> Frac {
    Frac { n: a.n * b.d - b.n * a.d, d: a.d * b.d }
}

pub open spec fn q_mul(a: Frac, b: Frac) -> Frac {
    Frac { n: a.n * b.n, d: a.d * b.d }
}

/// The quotient `a / b`; its denominator is negative when `b` is, so it
/// is meaningful only up to `q_eq`.
pub open spec fn q_div(a: Frac, b: Frac) -> Frac {
    Frac { n: a.n * b.d, d: a.d * b.n }
}

pub open spec fn q_neg(a: Frac) -> Frac {
    Frac { n: -a.n, d: a.d }
}

/// Ordering of well-formed fractions (both denominators positive).
pub open spec fn q_le(a: Frac, b: Frac) -> bool {
    a.n * b.d <= b.n * a.d
}

pub open spec fn q_lt(a: Frac, b: Frac) -> bool {
    a.n * b.d < b.n * a.d
}

/// Numerator and denominator both bounded by `m` in magnitude.
pub open spec fn q_bounded(a: Frac, m: int) -> bool {
    -m <= a.n <= m && 0 < a.d <= m
}

/// Magnitude bound under which one exact rational operation is
/// guaranteed not to overflow its 128-bit intermediates.
pub open spec fn q_small() -> int {
    0x4000_0000_0000_0000
}

/// `g` divides `x` exactly.
pub open spec fn divides(g: int, x: int) -> bool {
    exists|k: int| x == #[trigger] (g * k)
}

pub proof fn lemma_q_eq_trans(a: Frac, b: Frac, c: Frac)
    requires
        b.d != 0,
        q_eq(a, b),
        q_eq(b, c),
    ensures
        q_eq(a, c),
{
    assert(q_eq(a, c)) by (nonlinear_arith)
        requires
            b.d != 0,
            a.n * b.d == b.n * a.d,
            b.n * c.d == c.n * b.d,
    ;
}

proof fn lemma_add_congr_l(a: Frac, a2: Frac, b: Frac)
    requires
        q_wf(a) && q_wf(a2) && q_wf(b),
        q_eq(a, a2),
    ensures
        q_eq(q_add(a, b), q_add(a2, b)),
{
    assert((a.n * b.d) * (a2.d * b.d) == (a.n * a2.d) * (b.d * b.d)) by (nonlinear_arith);
    assert((a2.n * b.d) * (a.d * b.d) == (a2.n * a.d) * (b.d * b.d)) by (nonlinear_arith);
    assert((b.n * a.d) * (a2.d * b.d) == (b.n * a2.d) * (a.d * b.d)) by (nonlinear_arith);
    assert((a.n * b.d + b.n * a.d) * (a2.d * b.d) == (a.n * b.d) * (a2.d * b.d) + (b.n * a.d) * (
    a2.d * b.d)) by (nonlinear_arith);
    assert((a2.n * b.d + b.n * a2.d) * (a.d * b.d) == (a2.n * b.d) * (a.d * b.d) + (b.n * a2.d) * (
    a.d * b.d)) by (nonlinear_arith);
}

proof fn lemma_sub_congr_l(a: Frac, a2: Frac, b: Frac)
    requires
        q_wf(a) && q_wf(a2) && q_wf(b),
        q_eq(a, a2),
    ensures
        q_eq(q_sub(a, b), q_sub(a2, b)),
{
    assert((a.n * b.d) * (a2.d * b.d) == (a.n * a2.d) * (b.d * b.d)) by (nonlinear_arith);
    assert((a2.n * b.d) * (a.d * b.d) == (a2.n * a.d) * (b.d * b.d)) by (nonlinear_arith);
    assert((b.n * a.d) * (a2.d * b.d) == (b.n * a2.d) * (a.d * b.d)) by (nonlinear_arith);
    assert((a.n * b.d - b.n * a.d) * (a2.d * b.d) == (a.n * b.d) * (a2.d * b.d) - (b.n * a.d) * (
    a2.d * b.d)) by (nonlinear_arith);
    assert((a2.n * b.d - b.n * a2.d) * (a.d * b.d) == (a2.n * b.d) * (a.d * b.d) - (b.n * a2.d) * (
    a.d * b.d)) by (nonlinear_arith);
}

proof fn lemma_sub_congr_r(a: Frac, b: Frac, b2: Frac)
    requires
        q_wf(a) && q_wf(b) && q_wf(b2),
        q_eq(b, b2),
    ensures
        q_eq(q_sub(a, b), q_sub(a, b2)),
{
    assert((a.n * b.d) * (a.d * b2.d) == (a.n * b2.d) * (a.d * b.d)) by (nonlinear_arith);
    assert((b.n * a.d) * (a.d * b2.d) == (b.n * b2.d) * (a.d * a.d)) by (nonlinear_arith);
    assert((b2.n * b.d) * (a.d * a.d) == (b2.n * a.d) * (a.d * b.d)) by (nonlinear_arith);
    assert((a.n * b.d - b.n * a.d) * (a.d * b2.d) == (a.n * b.d) * (a.d * b2.d) - (b.n * a.d) * (
    a.d * b2.d)) by (nonlinear_arith);
    assert((a.n * b2.d - b2.n * a.d) * (a.d * b.d) == (a.n * b2.d) * (a.d * b.d) - (b2.n * a.d) * (
    a.d * b.d)) by (nonlinear_arith);
}

pub proof fn lemma_q_add_congr(a: Frac, a2: Frac, b: Frac, b2: Frac)
    requires
        q_wf(a) && q_wf(a2) && q_wf(b) && q_wf(b2),
        q_eq(a, a2),
        q_eq(b, b2),
    ensures
        q_eq(q_add(a, b), q_add(a2, b2)),
{
    lemma_add_congr_l(a, a2, b);
    lemma_add_congr_l(b, b2, a2);
    assert(q_add(a2, b) == q_add(b, a2)) by (nonlinear_arith);
    assert(q_add(b2, a2) == q_add(a2, b2)) by (nonlinear_arith);
    lemma_q_ops_wf(a2, b);
    lemma_q_eq_trans(q_add(a, b), q_add(a2, b), q_add(a2, b2));
}

pub proof fn lemma_q_sub_congr(a: Frac, a2: Frac, b: Frac, b2: Frac)
    requires
        q_wf(a) && q_wf(a2) && q_wf(b) && q_wf(b2),
        q_eq(a, a2),
        q_eq(b, b2),
    ensures
        q_eq(q_sub(a, b), q_sub(a2, b2)),
{
    lemma_sub_congr_l(a, a2, b);
    lemma_sub_congr_r(a2, b, b2);
    lemma_q_ops_wf(a2, b);
    lemma_q_eq_trans(q_sub(a, b), q_sub(a2, b), q_sub(a2, b2));
}

pub proof fn lemma_q_mul_congr(a: Frac, a2: Frac, b: Frac, b2: Frac)
    requires
        q_wf(a) && q_wf(a2) && q_wf(b) && q_wf(b2),
        q_eq(a, a2),
        q_eq(b, b2),
    ensures
        q_eq(q_mul(a, b), q_mul(a2, b2)),
{
    assert((a.n * b.n) * (a2.d * b2.d) == (a2.n * b2.n) * (a.d * b.d)) by (nonlinear_arith)
        requires
            a.n * a2.d == a2.n * a.d,
            b.n * b2.d == b2.n * b.d,
    ;
}

/// Division congruence in the dividend.
pub proof fn lemma_q_div_congr_l(a: Frac, a2: Frac, c: Frac)
    requires
        q_eq(a, a2),
    ensures
        q_eq(q_div(a, c), q_div(a2, c)),
{
    assert((a.n * c.d) * (a2.d * c.n) == (a.n * a2.d) * (c.d * c.n)) by (nonlinear_arith);
    assert((a2.n * c.d) * (a.d * c.n) == (a2.n * a.d) * (c.d * c.n)) by (nonlinear_arith);
}

/// Division congruence in the divisor.
proof fn lemma_q_div_congr_r(a: Frac, c: Frac, c2: Frac)
    requires
        q_eq(c, c2),
    ensures
        q_eq(q_div(a, c), q_div(a, c2)),
{
    assert((a.n * c.d) * (a.d * c2.n) == (a.n * a.d) * (c.d * c2.n)) by (nonlinear_arith);
    assert((a.n * c2.d) * (a.d * c.n) == (a.n * a.d) * (c2.d * c.n)) by (nonlinear_arith);
    assert(c.d * c2.n == c2.n * c.d && c2.d * c.n == c.n * c2.d) by (nonlinear_arith);
}

/// Division congruence in both operands, for a nonzero divisor.
pub proof fn lemma_q_div_congr(a: Frac, a2: Frac, c: Frac, c2: Frac)
    requires
        q_wf(a) && q_wf(a2) && q_wf(c) && q_wf(c2),
        q_eq(a, a2),
        q_eq(c, c2),
        !q_eq(c, q_int(0)),
    ensures
        q_eq(q_div(a, c), q_div(a2, c2)),
{
    lemma_q_div_congr_l(a, a2, c);
    lemma_q_div_congr_r(a2, c, c2);
    assert(c.n != 0) by (nonlinear_arith)
        requires
            !(c.n * 1 == 0 * c.d),
    ;
    assert(a2.d * c.n != 0) by (nonlinear_arith)
        requires
            a2.d > 0,
            c.n != 0,
    ;
    lemma_q_eq_trans(q_div(a, c), q_div(a2, c), q_div(a2, c2));
}

/// A value at most `b`, which is strictly below `c`, is strictly below
/// `c`.
pub proof fn lemma_q_le_lt_trans(a: Frac, b: Frac, c: Frac)
    requires
        q_wf(a) && q_wf(b) && q_wf(c),
        q_le(a, b),
        q_lt(b, c),
    ensures
        q_lt(a, c),
{
    assert(a.n * c.d < c.n * a.d) by (nonlinear_arith)
        requires
            a.d > 0,
            b.d > 0,
            c.d > 0,
            a.n * b.d <= b.n * a.d,
            b.n * c.d < c.n * b.d,
    ;
}

/// A well-formed nonzero rational has a nonzero numerator.
pub proof fn lemma_q_nonzero_num(a: Frac)
    requires
        q_wf(a),
        !q_eq(a, q_int(0)),
    ensures
        a.n != 0,
{
    assert(a.n != 0) by (nonlinear_arith)
        requires
            !(a.n * 1 == 0 * a.d),
    ;
}

/// A quotient by a nonzero divisor has a nonzero denominator.
pub proof fn lemma_q_div_den_nonzero(a: Frac, c: Frac)
    requires
        q_wf(a),
        c.n != 0,
    ensures
        q_div(a, c).d != 0,
{
    assert(a.d * c.n != 0) by (nonlinear_arith)
        requires
            a.d > 0,
            c.n != 0,
    ;
}

/// Equal rationals have the same sign.
pub proof fn lemma_q_eq_sign(a: Frac, b: Frac)
    requires
        q_wf(a),
        q_wf(b),
        q_eq(a, b),
    ensures
        q_lt(a, q_int(0)) <==> q_lt(b, q_int(0)),
        q_eq(a, q_int(0)) <==> q_eq(b, q_int(0)),
{
    assert((a.n < 0 <==> b.n < 0) && (a.n == 0 <==> b.n == 0)) by (nonlinear_arith)
        requires
            a.d > 0,
            b.d > 0,
            a.n * b.d == b.n * a.d,
    ;
    assert(a.n * 1 == a.n && b.n * 1 == b.n && 0 * a.d == 0 && 0 * b.d == 0 && a.n * 0 == 0
        && b.n * 0 == 0) by (nonlinear_arith);
}

pub proof fn lemma_q_ops_wf(a: Frac, b: Frac)
    requires
        q_wf(a),
        q_wf(b),
    ensures
        q_wf(q_add(a, b)),
        q_wf(q_sub(a, b)),
        q_wf(q_mul(a, b)),
        q_wf(q_neg(a)),
{
    assert(a.d * b.d > 0) by (nonlinear_arith)
        requires
            a.d > 0,
            b.d > 0,
    ;
}

/// Euclid's algorithm; the result is a positive common divisor.
fn gcd_u128(a: u128, b: u128) -> (g: u128)
    requires
        a > 0,
    ensures
        g > 0,
        divides(g as int, a as int),
        divides(g as int, b as int),
    decreases b,
{
    if b == 0 {
        proof {
            assert(a as int == (a as int) * 1);
            assert(0int == (a as int) * 0);
        }
        a
    } else {
        let r: u128 = a % b;
        proof {
            lemma_mod_division_less_than_divisor(a as int, b as int);
        }
        let g: u128 = gcd_u128(b, r);
        proof {
            lemma_fundamental_div_mod(a as int, b as int);
            let q: int = (a as int) / (b as int);
            let kb = choose|k: int| b as int == #[trigger] ((g as int) * k);
            let kr = choose|k: int| r as int == #[trigger] ((g as int) * k);
            assert(a as int == (g as int) * (kb * q + kr)) by (nonlinear_arith)
                requires
                    b as int == (g as int) * kb,
                    r as int == (g as int) * kr,
                    a as int == (b as int) * q + (r as int),
            ;
        }
        g
    }
}

/// An exact rational number held in 128-bit integers, kept in lowest
/// terms with a positive denominator.  All arithmetic is checked: an
/// operation whose exact result no longer fits reports `None` instead of
/// wrapping or rounding.
#[derive(Clone, Copy, Debug)]
pub struct Rat {
    num: i128,
    den: i128,
}

impl View for Rat {
    type V = Frac;

    closed spec fn view(&self) -> Frac {
        Frac { n: self.num as int, d: self.den as int }
    }
}

/// Reduce `n_raw / d_raw` to lowest terms.  Fails only for the one
/// unrepresentable magnitude `i128::MIN`.
fn reduced(n_raw: i128, d_raw: i128) -> (r: Option<Rat>)
    requires
        d_raw > 0,
    ensures
        r is Some ==> q_wf(r->0@) && q_eq(r->0@, (Frac { n: n_raw as int, d: d_raw as int })),
        n_raw > i128::MIN ==> r is Some,
        d_raw == 1 && n_raw > i128::MIN ==> r is Some && r->0@ == (Frac {
            n: n_raw as int,
            d: 1,
        }),
{
    if n_raw == i128::MIN {
        return None;
    }
    let neg: bool = n_raw < 0;
    let mag: i128 = if neg {
        -n_raw
    } else {
        n_raw
    };
    if mag == 0 {
        proof {
            assert(n_raw as int == 0);
            assert(q_eq((Frac { n: 0, d: 1 }), (Frac { n: n_raw as int, d: d_raw as int })))
                by (nonlinear_arith)
                requires
                    n_raw as int == 0,
            ;
        }
        return Some(Rat { num: 0, den: 1 });
    }
    let un: u128 = mag as u128;
    let ud: u128 = d_raw as u128;
    let g: u128 = gcd_u128(un, ud);
    let ghost ka: int = choose|k: int| un as int == #[trigger] ((g as int) * k);
    let ghost kd: int = choose|k: int| ud as int == #[trigger] ((g as int) * k);
    proof {
        assert(ka > 0 && kd > 0) by (nonlinear_arith)
            requires
                un as int == (g as int) * ka,
                ud as int == (g as int) * kd,
                un > 0,
                ud > 0,
                g > 0,
        ;
        lemma_div_by_multiple(ka, g as int);
        lemma_div_by_multiple(kd, g as int);
        assert((g as int) * ka == ka * (g as int));
        assert((g as int) * kd == kd * (g as int));
        assert(ka <= ka * (g as int)) by (nonlinear_arith)
            requires
                ka > 0,
                g >= 1,
        ;
        assert(kd <= kd * (g as int)) by (nonlinear_arith)
            requires
                kd > 0,
                g >= 1,
        ;
    }
    proof {
        if d_raw == 1 {
            // The only positive divisor of 1 is 1 itself.
            let kg = choose|k: int| ud as int == #[trigger] ((g as int) * k);
            assert(g == 1) by (nonlinear_arith)
                requires
                    1int == (g as int) * kg,
                    g >= 1,
            ;
            lemma_div_by_multiple(un as int, 1int);
            assert((un as int) * 1 == un as int);
        }
    }
    let rn_u: u128 = un / g;
    let rd_u: u128 = ud / g;
    let rn: i128 = rn_u as i128;
    let rd: i128 = rd_u as i128;
    let num: i128 = if neg {
        -rn
    } else {
        rn
    };
    proof {
        assert((num as int) * (ud as int) == (n_raw as int) * kd) by (nonlinear_arith)
            requires
                un as int == (g as int) * ka,
                ud as int == (g as int) * kd,
                (num as int == -ka && n_raw as int == -(un as int)) || (num as int == ka
                    && n_raw as int == un as int),
        ;
    }
    Some(Rat { num, den: rd })
}

impl Rat {
    /// The rational `i / 1`.
    pub fn from_int(i: i64) -> (r: Rat)
        ensures
            q_wf(r@),
            r@ == q_int(i as int),
    {
        Rat { num: i as i128, den: 1 }
    }

    /// The rational `i / 1`, from an unsigned count.
    pub fn from_nat(i: usize) -> (r: Rat)
        ensures
            q_wf(r@),
            r@ == q_int(i as int),
    {
        Rat { num: i as i128, den: 1 }
    }

    /// The rational `num / den`; `None` exactly when `den` is zero.
    pub fn new(num: i64, den: i64) -> (r: Option<Rat>)
        ensures
            r is Some <==> den != 0,
            r is Some ==> q_wf(r->0@) && q_eq(r->0@, (Frac { n: num as int, d: den as int })),
    {
        if den == 0 {
            return None;
        }
        let n_wide: i128 = num as i128;
        let d_wide: i128 = den as i128;
        let (n_signed, d_pos): (i128, i128) = if d_wide < 0 {
            (-n_wide, -d_wide)
        } else {
            (n_wide, d_wide)
        };
        let r = reduced(n_signed, d_pos);
        proof {
            if r is Some {
                if d_wide < 0 {
                    assert(q_eq(r->0@, (Frac { n: num as int, d: den as int }))) by (nonlinear_arith)
                        requires
                            q_eq(r->0@, (Frac { n: -(num as int), d: -(den as int) })),
                    ;
                }
            }
        }
        r
    }

    pub fn numer(&self) -> (r: i128)
        ensures
            r as int == self@.n,
    {
        self.num
    }

    pub fn denom(&self) -> (r: i128)
        ensures
            r as int == self@.d,
    {
        self.den
    }

    /// Exact sum.
    pub fn add(&self, other: &Rat) -> (r: Option<Rat>)
        requires
            q_wf(self@),
            q_wf(other@),
        ensures
            r is Some ==> q_wf(r->0@) && q_eq(r->0@, q_add(self@, other@)),
            q_bounded(self@, q_small()) && q_bounded(other@, q_small()) ==> r is Some,
            self@.d == 1 && other@.d == 1 && i128::MIN < self@.n + other@.n <= i128::MAX ==> r
                is Some && r->0@ == (Frac { n: self@.n + other@.n, d: 1 }),
    {
        proof {
            if q_bounded(self@, q_small()) && q_bounded(other@, q_small()) {
                lemma_raw_in_range(self@, other@);
            }
            if self@.d == 1 && other@.d == 1 {
                assert(self@.n * 1 == self@.n && other@.n * 1 == other@.n && 1 * 1 == 1int)
                    by (nonlinear_arith);
            }
        }
        let p1 = self.num.checked_mul(other.den);
        let p2 = other.num.checked_mul(self.den);
        let dd = self.den.checked_mul(other.den);
        match (p1, p2, dd) {
            (Some(a), Some(b), Some(d)) => {
                match a.checked_add(b) {
                    Some(n) => {
                        proof {
                            assert(d > 0) by (nonlinear_arith)
                                requires
                                    self@.d > 0,
                                    other@.d > 0,
                                    d as int == self@.d * other@.d,
                            ;
                        }
                        reduced(n, d)
                    },
                    None => None,
                }
            },
            _ => None,
        }
    }

    /// Exact difference.
    pub fn sub(&self, other: &Rat) -> (r: Option<Rat>)
        requires
            q_wf(self@),
            q_wf(other@),
        ensures
            r is Some ==> q_wf(r->0@) && q_eq(r->0@, q_sub(self@, other@)),
            q_bounded(self@, q_small()) && q_bounded(other@, q_small()) ==> r is Some,
            self@.d == 1 && other@.d == 1 && i128::MIN < self@.n - other@.n <= i128::MAX ==> r
                is Some && r->0@ == (Frac { n: self@.n - other@.n, d: 1 }),
    {
        proof {
            if q_bounded(self@, q_small()) && q_bounded(other@, q_small()) {
                lemma_raw_in_range(self@, other@);
            }
            if self@.d == 1 && other@.d == 1 {
                assert(self@.n * 1 == self@.n && other@.n * 1 == other@.n && 1 * 1 == 1int)
                    by (nonlinear_arith);
            }
        }
        let p1 = self.num.checked_mul(other.den);
        let p2 = other.num.checked_mul(self.den);
        let dd = self.den.checked_mul(other.den);
        match (p1, p2, dd) {
            (Some(a), Some(b), Some(d)) => {
                match a.checked_sub(b) {
                    Some(n) => {
                        proof {
                            assert(d > 0) by (nonlinear_arith)
                                requires
                                    self@.d > 0,
                                    other@.d > 0,
                                    d as int == self@.d * other@.d,
                            ;
                        }
                        reduced(n, d)
                    },
                    None => None,
                }
            },
            _ => None,
        }
    }

    /// Exact product.
    pub fn mul(&self, other: &Rat) -> (r: Option<Rat>)
        requires
            q_wf(self@),
            q_wf(other@),
        ensures
            r is Some ==> q_wf(r->0@) && q_eq(r->0@, q_mul(self@, other@)),
            q_bounded(self@, q_small()) && q_bounded(other@, q_small()) ==> r is Some,
            self@.d == 1 && other@.d == 1 && i128::MIN < self@.n * other@.n <= i128::MAX ==> r
                is Some && r->0@ == (Frac { n: self@.n * other@.n, d: 1 }),
    {
        proof {
            if q_bounded(self@, q_small()) && q_bounded(other@, q_small()) {
                lemma_raw_in_range(self@, other@);
            }
            if self@.d == 1 && other@.d == 1 {
                assert(1 * 1 == 1int) by (nonlinear_arith);
            }
        }
        let nn = self.num.checked_mul(other.num);
        let dd = self.den.checked_mul(other.den);
        match (nn, dd) {
            (Some(n), Some(d)) => {
                proof {
                    assert(d > 0) by (nonlinear_arith)
                        requires
                            self@.d > 0,
                            other@.d > 0,
                            d as int == self@.d * other@.d,
                    ;
                }
                reduced(n, d)
            },
            _ => None,
        }
    }

    /// Exact quotient; `None` when the divisor is zero or on overflow.
    pub fn div(&self, other: &Rat) -> (r: Option<Rat>)
        requires
            q_wf(self@),
            q_wf(other@),
        ensures
            r is Some ==> q_wf(r->0@) && q_eq(r->0@, q_div(self@, other@)),
            q_eq(other@, q_int(0)) ==> r is None,
            q_bounded(self@, q_small()) && q_bounded(other@, q_small()) && !q_eq(other@, q_int(0))
                ==> r is Some,
            self@.d == 1 && other@.d == 1 && self@.n > i128::MIN && other@.n > i128::MIN
                && other@.n != 0 ==> r is Some,
    {
        if other.num == 0 {
            return None;
        }
        proof {
            if q_bounded(self@, q_small()) && q_bounded(other@, q_small()) {
                lemma_raw_in_range(self@, other@);
            }
            if self@.d == 1 && other@.d == 1 {
                assert(self@.n * 1 == self@.n && 1 * other@.n == other@.n) by (nonlinear_arith);
            }
        }
        let nn = self.num.checked_mul(other.den);
        let dd = self.den.checked_mul(other.num);
        match (nn, dd) {
            (Some(n0), Some(d0)) => {
                if d0 == i128::MIN || n0 == i128::MIN {
                    return None;
                }
                let (n, d): (i128, i128) = if d0 < 0 {
                    (-n0, -d0)
                } else {
                    (n0, d0)
                };
                proof {
                    assert(d0 != 0) by (nonlinear_arith)
                        requires
                            self@.d > 0,
                            other@.n != 0,
                            d0 as int == self@.d * other@.n,
                    ;
                }
                let r = reduced(n, d);
                proof {
                    if r is Some {
                        if d0 < 0 {
                            assert(q_eq(r->0@, q_div(self@, other@))) by (nonlinear_arith)
                                requires
                                    q_eq(r->0@, (Frac { n: -(n0 as int), d: -(d0 as int) })),
                                    n0 as int == self@.n * other@.d,
                                    d0 as int == self@.d * other@.n,
                            ;
                        }
                    }
                }
                r
            },
            _ => None,
        }
    }

    /// Exact negation.
    pub fn neg(&self) -> (r: Option<Rat>)
        requires
            q_wf(self@),
        ensures
            r is Some ==> q_wf(r->0@) && q_eq(r->0@, q_neg(self@)),
            q_bounded(self@, q_small()) ==> r is Some,
    {
        if self.num == i128::MIN {
            return None;
        }
        Some(Rat { num: -self.num, den: self.den })
    }

    /// Whether this rational is exactly zero.
    pub fn is_zero(&self) -> (r: bool)
        requires
            q_wf(self@),
        ensures
            r == q_eq(self@, q_int(0)),
    {
        self.num == 0
    }

    /// Whether this rational is negative.
    pub fn is_neg(&self) -> (r: bool)
        requires
            q_wf(self@),
        ensures
            r == q_lt(self@, q_int(0)),
    {
        self.num < 0
    }

    /// Exact order comparison; `None` on 128-bit overflow of the cross
    /// products.
    pub fn le(&self, other: &Rat) -> (r: Option<bool>)
        requires
            q_wf(self@),
            q_wf(other@),
        ensures
            r is Some ==> r->0 == q_le(self@, other@),
            q_bounded(self@, q_small()) && q_bounded(other@, q_small()) ==> r is Some,
    {
        proof {
            if q_bounded(self@, q_small()) && q_bounded(other@, q_small()) {
                lemma_raw_in_range(self@, other@);
            }
        }
        let a = self.num.checked_mul(other.den);
        let b = other.num.checked_mul(self.den);
        match (a, b) {
            (Some(x), Some(y)) => Some(x <= y),
            _ => None,
        }
    }

    /// Exact equality of the denoted rationals.
    pub fn eq_val(&self, other: &Rat) -> (r: Option<bool>)
        requires
            q_wf(self@),
            q_wf(other@),
        ensures
            r is Some ==> r->0 == q_eq(self@, other@),
            q_bounded(self@, q_small()) && q_bounded(other@, q_small()) ==> r is Some,
    {
        proof {
            if q_bounded(self@, q_small()) && q_bounded(other@, q_small()) {
                lemma_raw_in_range(self@, other@);
            }
        }
        let a = self.num.checked_mul(other.den);
        let b = other.num.checked_mul(self.den);
        match (a, b) {
            (Some(x), Some(y)) => Some(x == y),
            _ => None,
        }
    }
}

/// Products and sums of `q_small`-bounded fractions stay inside `i128`.
proof fn lemma_raw_in_range(a: Frac, b: Frac)
    requires
        q_bounded(a, q_small()),
        q_bounded(b, q_small()),
    ensures
        i128::MIN < a.n * b.d <= i128::MAX,
        i128::MIN < b.n * a.d <= i128::MAX,
        i128::MIN < a.n * b.n <= i128::MAX,
        i128::MIN < a.d * b.n <= i128::MAX,
        i128::MIN < a.d * b.d <= i128::MAX,
        i128::MIN < a.n * b.d + b.n * a.d <= i128::MAX,
        i128::MIN < a.n * b.d - b.n * a.d <= i128::MAX,
{
    let s: int = q_small();
    assert(-(s * s) <= a.n * b.d <= s * s) by (nonlinear_arith)
        requires
            -s <= a.n <= s,
            0 < b.d <= s,
            s > 0,
    ;
    assert(-(s * s) <= b.n * a.d <= s * s) by (nonlinear_arith)
        requires
            -s <= b.n <= s,
            0 < a.d <= s,
            s > 0,
    ;
    assert(-(s * s) <= a.n * b.n <= s * s) by (nonlinear_arith)
        requires
            -s <= a.n <= s,
            -s <= b.n <= s,
            s > 0,
    ;
    assert(-(s * s) <= a.d * b.n <= s * s) by (nonlinear_arith)
        requires
            -s <= b.n <= s,
            0 < a.d <= s,
            s > 0,
    ;
    assert(0 < a.d * b.d <= s * s) by (nonlinear_arith)
        requires
            0 < a.d <= s,
            0 < b.d <= s,
            s > 0,
    ;
}

} // verus!
