use vstd::prelude::*;
use crate::rational::{Frac, Rat, q_wf, q_eq, q_int, q_add, q_mul, lemma_q_eq_trans,
    lemma_q_add_congr, lemma_q_mul_congr, lemma_q_ops_wf};

verus! {

/// The fractions denoted by a sequence of exact rationals.
pub open spec fn vq(s: Seq<Rat>) -> Seq<Frac> {
    s.map_values(|r: Rat| r@)
}

/// Every fraction in the sequence is well-formed.
pub open spec fn all_wf(s: Seq<Frac>) -> bool {
    forall|i: int| 0 <= i < s.len() ==> q_wf(#[trigger] s[i])
}

/// Every entry is integer-valued with magnitude within the budget that
/// guarantees overflow-free exact summation.
pub open spec fn small_ints(s: Seq<Rat>) -> bool {
    forall|i: int|
        0 <= i < s.len() ==> ((#[trigger] s[i]@).d == 1 && -0x8000_0000 <= s[i]@.n <= 0x8000_0000)
}

/// Every exact rational in the sequence is well-formed.
pub open spec fn rats_wf(s: Seq<Rat>) -> bool {
    forall|i: int| 0 <= i < s.len() ==> q_wf(#[trigger] s[i]@)
}

/// The sum of a sequence of fractions.
pub open spec fn q_sum(s: Seq<Frac>) -> Frac
    decreases s.len(),
{
    if s.len() == 0 {
        q_int(0)
    } else {
        q_add(q_sum(s.drop_last()), s.last())
    }
}

/// The inner product of two equally long sequences of fractions.
pub open spec fn q_dot(a: Seq<Frac>, b: Seq<Frac>) -> Frac
    decreases a.len(),
{
    if a.len() == 0 || b.len() == 0 {
        q_int(0)
    } else {
        q_add(q_dot(a.drop_last(), b.drop_last()), q_mul(a.last(), b.last()))
    }
}

pub proof fn lemma_q_sum_wf(s: Seq<Frac>)
    requires
        all_wf(s),
    ensures
        q_wf(q_sum(s)),
    decreases s.len(),
{
    if s.len() == 0 {
    } else {
        assert(all_wf(s.drop_last()));
        lemma_q_sum_wf(s.drop_last());
        lemma_q_ops_wf(q_sum(s.drop_last()), s.last());
    }
}

pub proof fn lemma_q_dot_wf(a: Seq<Frac>, b: Seq<Frac>)
    requires
        all_wf(a),
        all_wf(b),
    ensures
        q_wf(q_dot(a, b)),
    decreases a.len(),
{
    if a.len() == 0 || b.len() == 0 {
    } else {
        assert(all_wf(a.drop_last()));
        assert(all_wf(b.drop_last()));
        lemma_q_dot_wf(a.drop_last(), b.drop_last());
        lemma_q_ops_wf(a.last(), b.last());
        lemma_q_ops_wf(q_dot(a.drop_last(), b.drop_last()), q_mul(a.last(), b.last()));
    }
}

pub proof fn lemma_q_sum_take_succ(s: Seq<Frac>, i: int)
    requires
        0 <= i < s.len(),
    ensures
        q_sum(s.take(i + 1)) == q_add(q_sum(s.take(i)), s[i]),
{
    assert(s.take(i + 1).drop_last() =~= s.take(i));
    assert(s.take(i + 1).last() == s[i]);
}

pub proof fn lemma_q_dot_take_succ(a: Seq<Frac>, b: Seq<Frac>, i: int)
    requires
        0 <= i < a.len(),
        0 <= i < b.len(),
    ensures
        q_dot(a.take(i + 1), b.take(i + 1)) == q_add(
            q_dot(a.take(i), b.take(i)),
            q_mul(a[i], b[i]),
        ),
{
    assert(a.take(i + 1).drop_last() =~= a.take(i));
    assert(b.take(i + 1).drop_last() =~= b.take(i));
}

/// Sums of pointwise equal rationals are equal.
pub proof fn lemma_q_sum_congr(s: Seq<Frac>, s2: Seq<Frac>)
    requires
        s.len() == s2.len(),
        all_wf(s),
        all_wf(s2),
        forall|i: int| 0 <= i < s.len() ==> q_eq(#[trigger] s[i], s2[i]),
    ensures
        q_eq(q_sum(s), q_sum(s2)),
    decreases s.len(),
{
    if s.len() == 0 {
    } else {
        assert(all_wf(s.drop_last()));
        assert(all_wf(s2.drop_last()));
        assert(forall|i: int|
            0 <= i < s.drop_last().len() ==> q_eq(#[trigger] s.drop_last()[i], s2.drop_last()[i]));
        lemma_q_sum_congr(s.drop_last(), s2.drop_last());
        lemma_q_sum_wf(s.drop_last());
        lemma_q_sum_wf(s2.drop_last());
        assert(q_eq(s.last(), s2.last()));
        lemma_q_add_congr(q_sum(s.drop_last()), q_sum(s2.drop_last()), s.last(), s2.last());
    }
}

/// Inner products of pointwise equal sequences are equal.
pub proof fn lemma_q_dot_congr(a: Seq<Frac>, a2: Seq<Frac>, b: Seq<Frac>, b2: Seq<Frac>)
    requires
        a.len() == a2.len(),
        b.len() == b2.len(),
        a.len() == b.len(),
        all_wf(a),
        all_wf(a2),
        all_wf(b),
        all_wf(b2),
        forall|i: int| 0 <= i < a.len() ==> q_eq(#[trigger] a[i], a2[i]),
        forall|i: int| 0 <= i < b.len() ==> q_eq(#[trigger] b[i], b2[i]),
    ensures
        q_eq(q_dot(a, b), q_dot(a2, b2)),
    decreases a.len(),
{
    if a.len() == 0 {
    } else {
        assert(all_wf(a.drop_last()));
        assert(all_wf(a2.drop_last()));
        assert(all_wf(b.drop_last()));
        assert(all_wf(b2.drop_last()));
        assert(forall|i: int|
            0 <= i < a.drop_last().len() ==> q_eq(#[trigger] a.drop_last()[i], a2.drop_last()[i]));
        assert(forall|i: int|
            0 <= i < b.drop_last().len() ==> q_eq(#[trigger] b.drop_last()[i], b2.drop_last()[i]));
        lemma_q_dot_congr(a.drop_last(), a2.drop_last(), b.drop_last(), b2.drop_last());
        lemma_q_dot_wf(a.drop_last(), b.drop_last());
        lemma_q_dot_wf(a2.drop_last(), b2.drop_last());
        assert(q_eq(a.last(), a2.last()));
        assert(q_eq(b.last(), b2.last()));
        lemma_q_mul_congr(a.last(), a2.last(), b.last(), b2.last());
        lemma_q_ops_wf(a.last(), b.last());
        lemma_q_ops_wf(a2.last(), b2.last());
        lemma_q_add_congr(
            q_dot(a.drop_last(), b.drop_last()),
            q_dot(a2.drop_last(), b2.drop_last()),
            q_mul(a.last(), b.last()),
            q_mul(a2.last(), b2.last()),
        );
    }
}

/// The exact sum of a vector of rationals; `None` only on overflow.
pub fn sum_rats(v: &Vec<Rat>) -> (r: Option<Rat>)
    requires
        rats_wf(v@),
    ensures
        r is Some ==> q_wf(r->0@) && q_eq(r->0@, q_sum(vq(v@))),
        small_ints(v@) && v@.len() <= 0x8000_0000 ==> r is Some && r->0@.d == 1 && -(
        v@.len() as int) * 0x8000_0000 <= r->0@.n <= (v@.len() as int) * 0x8000_0000,
{
    let mut acc: Rat = Rat::from_int(0);
    let mut i: usize = 0;
    while i < v.len()
        invariant
            0 <= i <= v.len(),
            rats_wf(v@),
            q_wf(acc@),
            q_eq(acc@, q_sum(vq(v@).take(i as int))),
            small_ints(v@) && v@.len() <= 0x8000_0000 ==> acc@.d == 1 && -(i as int) * 0x8000_0000
                <= acc@.n <= (i as int) * 0x8000_0000,
        decreases v.len() - i,
    {
        proof {
            assert(all_wf(vq(v@)));
            assert(all_wf(vq(v@).take(i as int)));
            lemma_q_sum_wf(vq(v@).take(i as int));
        }
        let x: Rat = v[i];
        proof {
            if small_ints(v@) && v@.len() <= 0x8000_0000 {
                assert(i128::MIN < acc@.n + x@.n <= i128::MAX && -(i as int + 1) * 0x8000_0000
                    <= acc@.n + x@.n <= (i as int + 1) * 0x8000_0000) by (nonlinear_arith)
                    requires
                        -(i as int) * 0x8000_0000 <= acc@.n <= (i as int) * 0x8000_0000,
                        -0x8000_0000 <= x@.n <= 0x8000_0000,
                        0 <= (i as int),
                        (i as int) < v@.len(),
                        v@.len() <= 0x8000_0000,
                ;
            }
        }
        match acc.add(&x) {
            Some(a2) => {
                proof {
                    lemma_q_sum_take_succ(vq(v@), i as int);
                    lemma_q_ops_wf(acc@, x@);
                    lemma_q_add_congr(acc@, q_sum(vq(v@).take(i as int)), x@, x@);
                    lemma_q_ops_wf(q_sum(vq(v@).take(i as int)), x@);
                    lemma_q_eq_trans(
                        a2@,
                        q_add(acc@, x@),
                        q_add(q_sum(vq(v@).take(i as int)), x@),
                    );
                }
                acc = a2;
            },
            None => {
                return None;
            },
        }
        i = i + 1;
    }
    proof {
        assert(vq(v@).take(v@.len() as int) =~= vq(v@));
    }
    Some(acc)
}

/// The exact inner product of two equally long vectors of rationals;
/// `None` only on overflow.
pub fn dot_rats(a: &Vec<Rat>, b: &Vec<Rat>) -> (r: Option<Rat>)
    requires
        rats_wf(a@),
        rats_wf(b@),
        a@.len() == b@.len(),
    ensures
        r is Some ==> q_wf(r->0@) && q_eq(r->0@, q_dot(vq(a@), vq(b@))),
{
    let mut acc: Rat = Rat::from_int(0);
    let mut i: usize = 0;
    while i < a.len()
        invariant
            0 <= i <= a.len(),
            a@.len() == b@.len(),
            rats_wf(a@),
            rats_wf(b@),
            q_wf(acc@),
            q_eq(acc@, q_dot(vq(a@).take(i as int), vq(b@).take(i as int))),
        decreases a.len() - i,
    {
        proof {
            assert(all_wf(vq(a@)));
            assert(all_wf(vq(b@)));
            assert(all_wf(vq(a@).take(i as int)));
            assert(all_wf(vq(b@).take(i as int)));
            lemma_q_dot_wf(vq(a@).take(i as int), vq(b@).take(i as int));
        }
        let x: Rat = a[i];
        let y: Rat = b[i];
        let p: Option<Rat> = x.mul(&y);
        match p {
            Some(xy) => {
                match acc.add(&xy) {
                    Some(a2) => {
                        proof {
                            lemma_q_dot_take_succ(vq(a@), vq(b@), i as int);
                            lemma_q_ops_wf(x@, y@);
                            lemma_q_ops_wf(acc@, xy@);
                            lemma_q_add_congr(
                                acc@,
                                q_dot(vq(a@).take(i as int), vq(b@).take(i as int)),
                                xy@,
                                q_mul(x@, y@),
                            );
                            lemma_q_ops_wf(
                                q_dot(vq(a@).take(i as int), vq(b@).take(i as int)),
                                q_mul(x@, y@),
                            );
                            lemma_q_eq_trans(
                                a2@,
                                q_add(acc@, xy@),
                                q_add(
                                    q_dot(vq(a@).take(i as int), vq(b@).take(i as int)),
                                    q_mul(x@, y@),
                                ),
                            );
                        }
                        acc = a2;
                    },
                    None => {
                        return None;
                    },
                }
            },
            None => {
                return None;
            },
        }
        i = i + 1;
    }
    proof {
        assert(vq(a@).take(a@.len() as int) =~= vq(a@));
        assert(vq(b@).take(b@.len() as int) =~= vq(b@));
    }
    Some(acc)
}

} // verus!
