use vstd::prelude::*;
use crate::rational::{Frac, Rat, q_wf, q_eq, q_int, q_add, q_sub, q_mul, q_div, lemma_q_eq_trans,
    lemma_q_add_congr, lemma_q_sub_congr, lemma_q_mul_congr, lemma_q_div_congr_l, lemma_q_div_congr, lemma_q_ops_wf};
use crate::sums::{vq, all_wf, rats_wf, small_ints, q_sum, lemma_q_sum_wf, lemma_q_sum_take_succ,
    sum_rats};
use crate::error::StatError;

verus! {

/// The arithmetic mean of a sequence of fractions (meaningful for a
/// nonempty sequence).
pub open spec fn q_mean(s: Seq<Frac>) -> Frac {
    q_div(q_sum(s), q_int(s.len() as int))
}

/// The squared deviations of each element from `m`.
pub open spec fn sq_dev_seq(s: Seq<Frac>, m: Frac) -> Seq<Frac> {
    Seq::new(s.len(), |i: int| q_mul(q_sub(s[i], m), q_sub(s[i], m)))
}

/// The sample variance with the `n - 1` divisor (meaningful for at
/// least two elements).
pub open spec fn q_var(s: Seq<Frac>) -> Frac {
    q_div(q_sum(sq_dev_seq(s, q_mean(s))), q_int(s.len() - 1))
}

pub proof fn lemma_q_mean_wf(s: Seq<Frac>)
    requires
        all_wf(s),
        s.len() > 0,
    ensures
        q_wf(q_mean(s)),
{
    lemma_q_sum_wf(s);
    assert(q_sum(s).d * (s.len() as int) > 0) by (nonlinear_arith)
        requires
            q_sum(s).d > 0,
            s.len() > 0,
    ;
}

pub proof fn lemma_sq_dev_all_wf(s: Seq<Frac>, m: Frac)
    requires
        all_wf(s),
        q_wf(m),
    ensures
        all_wf(sq_dev_seq(s, m)),
{
    assert forall|i: int| 0 <= i < sq_dev_seq(s, m).len() implies q_wf(#[trigger] sq_dev_seq(s, m)[i])
        by {
        lemma_q_ops_wf(s[i], m);
        lemma_q_ops_wf(q_sub(s[i], m), q_sub(s[i], m));
    }
}

pub proof fn lemma_q_var_wf(s: Seq<Frac>)
    requires
        all_wf(s),
        s.len() >= 2,
    ensures
        q_wf(q_var(s)),
{
    lemma_q_mean_wf(s);
    lemma_sq_dev_all_wf(s, q_mean(s));
    lemma_q_sum_wf(sq_dev_seq(s, q_mean(s)));
    assert(q_sum(sq_dev_seq(s, q_mean(s))).d * (s.len() - 1) > 0) by (nonlinear_arith)
        requires
            q_sum(sq_dev_seq(s, q_mean(s))).d > 0,
            s.len() >= 2,
    ;
}

/// Pointwise equal samples have equal means and variances.
pub proof fn lemma_mean_var_congr(s: Seq<Frac>, s2: Seq<Frac>)
    requires
        s.len() == s2.len(),
        s.len() >= 1,
        all_wf(s),
        all_wf(s2),
        forall|i: int| 0 <= i < s.len() ==> q_eq(#[trigger] s[i], s2[i]),
    ensures
        q_eq(q_mean(s), q_mean(s2)),
        s.len() >= 2 ==> q_eq(q_var(s), q_var(s2)),
{
    lemma_q_sum_wf(s);
    lemma_q_sum_wf(s2);
    crate::sums::lemma_q_sum_congr(s, s2);
    lemma_q_div_congr(
        q_sum(s),
        q_sum(s2),
        q_int(s.len() as int),
        q_int(s2.len() as int),
    );
    if s.len() >= 2 {
        lemma_q_mean_wf(s);
        lemma_q_mean_wf(s2);
        lemma_sq_dev_all_wf(s, q_mean(s));
        lemma_sq_dev_all_wf(s2, q_mean(s2));
        assert forall|i: int| 0 <= i < sq_dev_seq(s, q_mean(s)).len() implies q_eq(
            #[trigger] sq_dev_seq(s, q_mean(s))[i],
            sq_dev_seq(s2, q_mean(s2))[i],
        ) by {
            lemma_q_sub_congr(s[i], s2[i], q_mean(s), q_mean(s2));
            lemma_q_ops_wf(s[i], q_mean(s));
            lemma_q_ops_wf(s2[i], q_mean(s2));
            lemma_q_mul_congr(
                q_sub(s[i], q_mean(s)),
                q_sub(s2[i], q_mean(s2)),
                q_sub(s[i], q_mean(s)),
                q_sub(s2[i], q_mean(s2)),
            );
        }
        crate::sums::lemma_q_sum_congr(sq_dev_seq(s, q_mean(s)), sq_dev_seq(s2, q_mean(s2)));
        lemma_q_sum_wf(sq_dev_seq(s, q_mean(s)));
        lemma_q_sum_wf(sq_dev_seq(s2, q_mean(s2)));
        lemma_q_div_congr(
            q_sum(sq_dev_seq(s, q_mean(s))),
            q_sum(sq_dev_seq(s2, q_mean(s2))),
            q_int(s.len() - 1),
            q_int(s2.len() - 1),
        );
    }
}

/// The total sum of squares of a sample about its mean.
pub open spec fn sst_of(y: Seq<Rat>) -> Frac {
    q_sum(sq_dev_seq(vq(y), q_mean(vq(y))))
}

/// The exact mean of a vector of rationals.  Fails with `InputError` on
/// an empty vector and with `OverflowError` when the exact sum leaves
/// the 128-bit range.
pub fn mean(v: &Vec<Rat>) -> (r: Result<Rat, StatError>)
    requires
        rats_wf(v@),
    ensures
        v@.len() == 0 <==> (r is Err && r->Err_0 == StatError::InputError),
        r is Err ==> r->Err_0 == StatError::InputError || r->Err_0 == StatError::OverflowError,
        r is Ok ==> q_wf(r->Ok_0@) && q_eq(r->Ok_0@, q_mean(vq(v@))),
        small_ints(v@) && 1 <= v@.len() <= 0x8000_0000 ==> r is Ok,
{
    let n: usize = v.len();
    if n == 0 {
        return Err(StatError::InputError);
    }
    let s: Rat = match sum_rats(v) {
        Some(z) => z,
        None => {
            return Err(StatError::OverflowError);
        },
    };
    let nn: Rat = Rat::from_nat(n);
    proof {
        assert(!q_eq(nn@, q_int(0)));
        if small_ints(v@) && v@.len() <= 0x8000_0000 {
            assert(s@.n > i128::MIN) by (nonlinear_arith)
                requires
                    -(v@.len() as int) * 0x8000_0000 <= s@.n,
                    0 <= v@.len() as int <= 0x8000_0000,
            ;
        }
    }
    let m: Rat = match s.div(&nn) {
        Some(z) => z,
        None => {
            return Err(StatError::OverflowError);
        },
    };
    proof {
        assert(all_wf(vq(v@)));
        lemma_q_sum_wf(vq(v@));
        lemma_q_div_congr_l(s@, q_sum(vq(v@)), nn@);
        assert(q_wf(q_div(s@, nn@))) by (nonlinear_arith)
            requires
                s@.d > 0,
                nn@.n == n as int,
                nn@.d == 1,
                n > 0,
                q_div(s@, nn@) == (Frac { n: s@.n * nn@.d, d: s@.d * nn@.n }),
        ;
        lemma_q_eq_trans(m@, q_div(s@, nn@), q_div(q_sum(vq(v@)), nn@));
        assert(q_div(q_sum(vq(v@)), nn@) == q_mean(vq(v@)));
    }
    Ok(m)
}

/// The exact sample variance (divisor `n - 1`) of a vector of
/// rationals.  Fails with `SampleSizeError` on fewer than two values
/// and with `OverflowError` when an exact intermediate leaves the
/// 128-bit range.
pub fn sample_variance(v: &Vec<Rat>) -> (r: Result<Rat, StatError>)
    requires
        rats_wf(v@),
    ensures
        v@.len() < 2 <==> (r is Err && r->Err_0 == StatError::SampleSizeError),
        r is Err ==> r->Err_0 == StatError::SampleSizeError || r->Err_0 == StatError::OverflowError,
        r is Ok ==> q_wf(r->Ok_0@) && q_eq(r->Ok_0@, q_var(vq(v@))),
{
    let n: usize = v.len();
    if n < 2 {
        return Err(StatError::SampleSizeError);
    }
    let m: Rat = match mean(v) {
        Ok(z) => z,
        Err(_) => {
            return Err(StatError::OverflowError);
        },
    };
    let ghost s: Seq<Frac> = vq(v@);
    let ghost ms: Frac = q_mean(s);
    proof {
        assert(all_wf(s));
        lemma_q_mean_wf(s);
        lemma_sq_dev_all_wf(s, ms);
    }
    let mut acc: Rat = Rat::from_int(0);
    let mut i: usize = 0;
    while i < n
        invariant
            0 <= i <= n,
            n == v@.len(),
            n >= 2,
            rats_wf(v@),
            s == vq(v@),
            ms == q_mean(s),
            q_wf(ms),
            all_wf(s),
            all_wf(sq_dev_seq(s, ms)),
            q_wf(m@),
            q_eq(m@, ms),
            q_wf(acc@),
            q_eq(acc@, q_sum(sq_dev_seq(s, ms).take(i as int))),
        decreases n - i,
    {
        proof {
            assert(all_wf(sq_dev_seq(s, ms).take(i as int)));
            lemma_q_sum_wf(sq_dev_seq(s, ms).take(i as int));
        }
        let d: Rat = match v[i].sub(&m) {
            Some(z) => z,
            None => {
                return Err(StatError::OverflowError);
            },
        };
        let sq: Rat = match d.mul(&d) {
            Some(z) => z,
            None => {
                return Err(StatError::OverflowError);
            },
        };
        let acc2: Rat = match acc.add(&sq) {
            Some(z) => z,
            None => {
                return Err(StatError::OverflowError);
            },
        };
        proof {
            let ghost dev = q_sub(s[i as int], ms);
            // d ~ the specification deviation
            lemma_q_sub_congr(v@[i as int]@, s[i as int], m@, ms);
            lemma_q_ops_wf(v@[i as int]@, m@);
            lemma_q_ops_wf(s[i as int], ms);
            lemma_q_eq_trans(d@, q_sub(v@[i as int]@, m@), dev);
            // sq ~ the squared deviation
            lemma_q_mul_congr(d@, dev, d@, dev);
            lemma_q_ops_wf(d@, d@);
            lemma_q_ops_wf(dev, dev);
            lemma_q_eq_trans(sq@, q_mul(d@, d@), q_mul(dev, dev));
            // accumulate
            lemma_q_sum_take_succ(sq_dev_seq(s, ms), i as int);
            assert(all_wf(sq_dev_seq(s, ms).take(i as int)));
            lemma_q_sum_wf(sq_dev_seq(s, ms).take(i as int));
            lemma_q_add_congr(
                acc@,
                q_sum(sq_dev_seq(s, ms).take(i as int)),
                sq@,
                q_mul(dev, dev),
            );
            lemma_q_ops_wf(acc@, sq@);
            lemma_q_ops_wf(q_sum(sq_dev_seq(s, ms).take(i as int)), q_mul(dev, dev));
            lemma_q_eq_trans(
                acc2@,
                q_add(acc@, sq@),
                q_add(q_sum(sq_dev_seq(s, ms).take(i as int)), q_mul(dev, dev)),
            );
        }
        acc = acc2;
        i = i + 1;
    }
    proof {
        assert(sq_dev_seq(s, ms).take(n as int) =~= sq_dev_seq(s, ms));
    }
    let nm1: Rat = Rat::from_nat(n - 1);
    proof {
        assert(!q_eq(nm1@, q_int(0)));
    }
    let var: Rat = match acc.div(&nm1) {
        Some(z) => z,
        None => {
            return Err(StatError::OverflowError);
        },
    };
    proof {
        lemma_q_sum_wf(sq_dev_seq(s, ms));
        lemma_q_div_congr_l(acc@, q_sum(sq_dev_seq(s, ms)), nm1@);
        assert(q_wf(q_div(acc@, nm1@))) by (nonlinear_arith)
            requires
                acc@.d > 0,
                nm1@.n == n as int - 1,
                nm1@.d == 1,
                n >= 2,
                q_div(acc@, nm1@) == (Frac { n: acc@.n * nm1@.d, d: acc@.d * nm1@.n }),
        ;
        lemma_q_eq_trans(var@, q_div(acc@, nm1@), q_div(q_sum(sq_dev_seq(s, ms)), nm1@));
        assert(q_div(q_sum(sq_dev_seq(s, ms)), nm1@) == q_var(s));
    }
    Ok(var)
}

} // verus!
