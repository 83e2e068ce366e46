use vstd::prelude::*;
use crate::rational::{Frac, Rat, q_wf, q_eq, q_int, q_add, lemma_q_ops_wf};
use crate::sums::{vq, all_wf, rats_wf, q_sum};
use crate::levels::{strictly_sorted, chars_lt, view_present, distinct_sorted_levels,
    lemma_bytes_lt_irrefl, lemma_encode_injective};
use crate::matrix::Mat;
use crate::error::StatError;
use vstd::utf8::encode_utf8;

verus! {

/// The indicator column of one non-reference level: 1 where the
/// observation carries that level, 0 elsewhere.
pub open spec fn indicator_col(values: Seq<String>, level: Seq<char>) -> Seq<Frac> {
    Seq::new(values.len(), |i: int| q_int(if values[i]@ == level { 1int } else { 0int }))
}

/// Dummy-code a categorical column by reference-level coding: sort the
/// distinct values ascending, drop the first (the reference level), and
/// emit one 0/1 indicator column per remaining level.  With fewer than
/// two distinct levels the factor is degenerate and no columns are
/// produced.
pub fn build_dummy_columns(values: &Vec<String>) -> (r: (Vec<Vec<Rat>>, Vec<String>))
    ensures
        strictly_sorted(r.1@),
        forall|j: int| 0 <= j < r.1@.len() ==> view_present(values@, (#[trigger] r.1@[j])@),
        forall|i: int| 0 <= i < values@.len() ==> view_present(r.1@, (#[trigger] values@[i])@),
        crate::levels::level_list_of(values@, r.1@),
        r.1@.len() >= 2 <==> crate::levels::has_two_distinct(values@),
        r.1@.len() < 2 ==> r.0@.len() == 0,
        r.1@.len() >= 2 ==> r.0@.len() == r.1@.len() - 1,
        forall|j: int|
            0 <= j < r.0@.len() ==> (#[trigger] r.0@[j]@).len() == values@.len() && rats_wf(
                r.0@[j]@,
            ),
        forall|j: int|
            0 <= j < r.0@.len() ==> vq((#[trigger] r.0@[j])@) =~= indicator_col(
                values@,
                r.1@[j + 1]@,
            ),
{
    let levels: Vec<String> = distinct_sorted_levels(values);
    let mut cols: Vec<Vec<Rat>> = Vec::new();
    let k: usize = levels.len();
    if k < 2 {
        return (cols, levels);
    }
    let n: usize = values.len();
    let mut j: usize = 1;
    while j < k
        invariant
            1 <= j <= k,
            k == levels@.len(),
            n == values@.len(),
            cols@.len() == j as int - 1,
            forall|t: int|
                0 <= t < cols@.len() ==> (#[trigger] cols@[t]@).len() == values@.len() && rats_wf(
                    cols@[t]@,
                ),
            forall|t: int|
                0 <= t < cols@.len() ==> vq((#[trigger] cols@[t])@) =~= indicator_col(
                    values@,
                    levels@[t + 1]@,
                ),
        decreases k - j,
    {
        let mut col: Vec<Rat> = Vec::new();
        let mut i: usize = 0;
        while i < n
            invariant
                0 <= i <= n,
                1 <= j < k,
                k == levels@.len(),
                n == values@.len(),
                col@.len() == i as int,
                rats_wf(col@),
                forall|t: int|
                    0 <= t < i as int ==> (#[trigger] col@[t])@ == q_int(
                        if values@[t]@ == levels@[j as int]@ {
                            1int
                        } else {
                            0int
                        },
                    ),
            decreases n - i,
        {
            if values[i].eq(&levels[j]) {
                col.push(Rat::from_int(1));
            } else {
                col.push(Rat::from_int(0));
            }
            i = i + 1;
        }
        proof {
            assert(vq(col@) =~= indicator_col(values@, levels@[j as int]@));
        }
        cols.push(col);
        j = j + 1;
    }
    (cols, levels)
}

/// Elementwise products of every dummy column of factor A with every
/// dummy column of factor B: the `(kA-1) * (kB-1)` interaction columns
/// of a two-way model.  Indicator inputs are required, so each product
/// is again an exact 0/1 indicator.
pub fn interaction_columns(a: &Vec<Vec<Rat>>, b: &Vec<Vec<Rat>>, n: usize) -> (out: Vec<Vec<Rat>>)
    requires
        forall|j: int|
            0 <= j < a@.len() ==> (#[trigger] a@[j]@).len() == n as int && rats_wf(a@[j]@),
        forall|j: int|
            0 <= j < b@.len() ==> (#[trigger] b@[j]@).len() == n as int && rats_wf(b@[j]@),
        forall|j: int, i: int|
            0 <= j < a@.len() && 0 <= i < n as int ==> (#[trigger] a@[j]@[i])@ == q_int(0)
                || a@[j]@[i]@ == q_int(1),
        forall|j: int, i: int|
            0 <= j < b@.len() && 0 <= i < n as int ==> (#[trigger] b@[j]@[i])@ == q_int(0)
                || b@[j]@[i]@ == q_int(1),
    ensures
        out@.len() == a@.len() * b@.len(),
        forall|t: int|
            0 <= t < out@.len() ==> (#[trigger] out@[t]@).len() == n as int && rats_wf(out@[t]@),
        forall|ja: int, jb: int, i: int|
            0 <= ja < a@.len() && 0 <= jb < b@.len() && 0 <= i < n as int ==> (#[trigger] out@[ja
                * b@.len() + jb]@[i])@ == q_int(
                if a@[ja]@[i]@ == q_int(1) && b@[jb]@[i]@ == q_int(1) {
                    1int
                } else {
                    0int
                },
            ),
{
    let ka: usize = a.len();
    let kb: usize = b.len();
    let mut out: Vec<Vec<Rat>> = Vec::new();
    let mut ja: usize = 0;
    while ja < ka
        invariant
            0 <= ja <= ka,
            ka == a@.len(),
            kb == b@.len(),
            forall|j: int|
                0 <= j < a@.len() ==> (#[trigger] a@[j]@).len() == n as int && rats_wf(a@[j]@),
            forall|j: int|
                0 <= j < b@.len() ==> (#[trigger] b@[j]@).len() == n as int && rats_wf(b@[j]@),
            forall|j: int, i: int|
                0 <= j < a@.len() && 0 <= i < n as int ==> (#[trigger] a@[j]@[i])@ == q_int(0)
                    || a@[j]@[i]@ == q_int(1),
            forall|j: int, i: int|
                0 <= j < b@.len() && 0 <= i < n as int ==> (#[trigger] b@[j]@[i])@ == q_int(0)
                    || b@[j]@[i]@ == q_int(1),
            out@.len() == ja as int * kb as int,
            forall|t: int|
                0 <= t < out@.len() ==> (#[trigger] out@[t]@).len() == n as int && rats_wf(
                    out@[t]@,
                ),
            forall|j1: int, j2: int, i: int|
                0 <= j1 < ja as int && 0 <= j2 < kb as int && 0 <= i < n as int ==> (
                #[trigger] out@[j1 * kb as int + j2]@[i])@ == q_int(
                    if a@[j1]@[i]@ == q_int(1) && b@[j2]@[i]@ == q_int(1) {
                        1int
                    } else {
                        0int
                    },
                ),
        decreases ka - ja,
    {
        let mut jb: usize = 0;
        while jb < kb
            invariant
                0 <= jb <= kb,
                0 <= ja < ka,
                ka == a@.len(),
                kb == b@.len(),
                forall|j: int|
                    0 <= j < a@.len() ==> (#[trigger] a@[j]@).len() == n as int && rats_wf(a@[j]@),
                forall|j: int|
                    0 <= j < b@.len() ==> (#[trigger] b@[j]@).len() == n as int && rats_wf(b@[j]@),
                forall|j: int, i: int|
                    0 <= j < a@.len() && 0 <= i < n as int ==> (#[trigger] a@[j]@[i])@ == q_int(0)
                        || a@[j]@[i]@ == q_int(1),
                forall|j: int, i: int|
                    0 <= j < b@.len() && 0 <= i < n as int ==> (#[trigger] b@[j]@[i])@ == q_int(0)
                        || b@[j]@[i]@ == q_int(1),
                out@.len() == ja as int * kb as int + jb as int,
                forall|t: int|
                    0 <= t < out@.len() ==> (#[trigger] out@[t]@).len() == n as int && rats_wf(
                        out@[t]@,
                    ),
                forall|j1: int, j2: int, i: int|
                    0 <= j1 < ja as int && 0 <= j2 < kb as int && 0 <= i < n as int ==> (
                    #[trigger] out@[j1 * kb as int + j2]@[i])@ == q_int(
                        if a@[j1]@[i]@ == q_int(1) && b@[j2]@[i]@ == q_int(1) {
                            1int
                        } else {
                            0int
                        },
                    ),
                forall|j2: int, i: int|
                    0 <= j2 < jb as int && 0 <= i < n as int ==> (#[trigger] out@[ja as int
                        * kb as int + j2]@[i])@ == q_int(
                        if a@[ja as int]@[i]@ == q_int(1) && b@[j2]@[i]@ == q_int(1) {
                            1int
                        } else {
                            0int
                        },
                    ),
            decreases kb - jb,
        {
            let mut col: Vec<Rat> = Vec::new();
            let mut i: usize = 0;
            while i < n
                invariant
                    0 <= i <= n,
                    0 <= ja < ka,
                    0 <= jb < kb,
                    ka == a@.len(),
                    kb == b@.len(),
                    forall|j: int|
                        0 <= j < a@.len() ==> (#[trigger] a@[j]@).len() == n as int && rats_wf(
                            a@[j]@,
                        ),
                    forall|j: int|
                        0 <= j < b@.len() ==> (#[trigger] b@[j]@).len() == n as int && rats_wf(
                            b@[j]@,
                        ),
                    forall|j: int, ii: int|
                        0 <= j < a@.len() && 0 <= ii < n as int ==> (#[trigger] a@[j]@[ii])@
                            == q_int(0) || a@[j]@[ii]@ == q_int(1),
                    forall|j: int, ii: int|
                        0 <= j < b@.len() && 0 <= ii < n as int ==> (#[trigger] b@[j]@[ii])@
                            == q_int(0) || b@[j]@[ii]@ == q_int(1),
                    col@.len() == i as int,
                    rats_wf(col@),
                    forall|ii: int|
                        0 <= ii < i as int ==> (#[trigger] col@[ii])@ == q_int(
                            if a@[ja as int]@[ii]@ == q_int(1) && b@[jb as int]@[ii]@ == q_int(1) {
                                1int
                            } else {
                                0int
                            },
                        ),
                decreases n - i,
            {
                let xa: Rat = a[ja][i];
                let xb: Rat = b[jb][i];
                if !xa.is_zero() && !xb.is_zero() {
                    col.push(Rat::from_int(1));
                } else {
                    col.push(Rat::from_int(0));
                }
                proof {
                    if a@[ja as int]@[i as int]@ == q_int(1) {
                        assert(!q_eq(a@[ja as int]@[i as int]@, q_int(0)));
                    }
                    if a@[ja as int]@[i as int]@ == q_int(0) {
                        assert(q_eq(a@[ja as int]@[i as int]@, q_int(0)));
                    }
                    if b@[jb as int]@[i as int]@ == q_int(1) {
                        assert(!q_eq(b@[jb as int]@[i as int]@, q_int(0)));
                    }
                    if b@[jb as int]@[i as int]@ == q_int(0) {
                        assert(q_eq(b@[jb as int]@[i as int]@, q_int(0)));
                    }
                }
                i = i + 1;
            }
            out.push(col);
            proof {
                assert forall|j1: int, j2: int, i2: int|
                    0 <= j1 < ja as int && 0 <= j2 < kb as int && 0 <= i2 < n as int implies (
                #[trigger] out@[j1 * kb as int + j2]@[i2])@ == q_int(
                    if a@[j1]@[i2]@ == q_int(1) && b@[j2]@[i2]@ == q_int(1) {
                        1int
                    } else {
                        0int
                    },
                ) by {
                    assert(j1 * kb as int + j2 < ja as int * kb as int) by (nonlinear_arith)
                        requires
                            0 <= j1 < ja as int,
                            0 <= j2 < kb as int,
                    ;
                    assert(0 <= j1 * kb as int + j2) by (nonlinear_arith)
                        requires
                            0 <= j1,
                            0 <= j2,
                            0 <= kb as int,
                    ;
                }
            }
            jb = jb + 1;
        }
        proof {
            assert(ja as int * kb as int + kb as int == (ja as int + 1) * kb as int)
                by (nonlinear_arith);
        }
        ja = ja + 1;
    }
    proof {
        assert(out@.len() == a@.len() * b@.len());
    }
    out
}

/// An owned copy of a vector of rationals.
pub(crate) fn copy_rats(v: &Vec<Rat>) -> (out: Vec<Rat>)
    ensures
        out@ == v@,
{
    let n: usize = v.len();
    let mut out: Vec<Rat> = Vec::new();
    let mut i: usize = 0;
    while i < n
        invariant
            0 <= i <= n,
            n == v@.len(),
            out@.len() == i as int,
            forall|t: int| 0 <= t < i as int ==> out@[t] == v@[t],
        decreases n - i,
    {
        out.push(v[i]);
        i = i + 1;
    }
    proof {
        assert(out@ =~= v@);
    }
    out
}

/// Assemble a design matrix from a list of predictor columns, with an
/// all-ones intercept column in front when requested.  The column count
/// is the intercept plus one column per supplied predictor.
pub fn assemble_design(rows: usize, cols: &Vec<Vec<Rat>>, include_intercept: bool) -> (m: Result<
    Mat,
    StatError,
>)
    requires
        forall|j: int| 0 <= j < cols@.len() ==> rats_wf(#[trigger] cols@[j]@),
    ensures
        m is Err ==> m->Err_0 == StatError::InputError,
        m is Ok ==> m->Ok_0.wf() && m->Ok_0.nrows() == rows as int && m->Ok_0.ncols() == cols@.len()
            + (if include_intercept { 1int } else { 0int }),
        (forall|j: int| 0 <= j < cols@.len() ==> (#[trigger] cols@[j]@).len() == rows as int)
            && (rows as int) * (cols@.len() + (if include_intercept { 1int } else { 0int }))
            <= usize::MAX as int ==> m is Ok,
        m is Ok && include_intercept ==> forall|i: int|
            0 <= i < rows as int ==> #[trigger] m->Ok_0.ent(i, 0) == q_int(1),
        m is Ok && include_intercept ==> forall|i: int, j: int|
            0 <= i < rows as int && 0 <= j < cols@.len() ==> #[trigger] m->Ok_0.ent(i, j + 1)
                == cols@[j]@[i]@,
        m is Ok && !include_intercept ==> forall|i: int, j: int|
            0 <= i < rows as int && 0 <= j < cols@.len() ==> #[trigger] m->Ok_0.ent(i, j)
                == cols@[j]@[i]@,
{
    let mut all: Vec<Vec<Rat>> = Vec::new();
    if include_intercept {
        let mut ones: Vec<Rat> = Vec::new();
        let mut i: usize = 0;
        while i < rows
            invariant
                0 <= i <= rows,
                ones@.len() == i as int,
                rats_wf(ones@),
                forall|t: int| 0 <= t < i as int ==> (#[trigger] ones@[t])@ == q_int(1),
            decreases rows - i,
        {
            ones.push(Rat::from_int(1));
            i = i + 1;
        }
        all.push(ones);
    }
    let ghost off: int = if include_intercept { 1int } else { 0int };
    let mut j: usize = 0;
    while j < cols.len()
        invariant
            0 <= j <= cols@.len(),
            forall|t: int| 0 <= t < cols@.len() ==> rats_wf(#[trigger] cols@[t]@),
            all@.len() == j as int + off,
            off == if include_intercept { 1int } else { 0int },
            include_intercept ==> all@[0]@.len() == rows as int && rats_wf(all@[0]@) && forall|
                t: int,
            |
                0 <= t < rows as int ==> (#[trigger] all@[0]@[t])@ == q_int(1),
            forall|t: int| 0 <= t < j as int ==> (#[trigger] all@[t + off])@ == cols@[t]@,
            forall|t: int| 0 <= t < all@.len() ==> rats_wf(#[trigger] all@[t]@),
        decreases cols.len() - j,
    {
        let c: Vec<Rat> = copy_rats(&cols[j]);
        all.push(c);
        j = j + 1;
    }
    let m = Mat::from_cols(rows, &all);
    match m {
        Ok(mm) => {
            proof {
                if include_intercept {
                    assert forall|i: int, jj: int|
                        0 <= i < rows as int && 0 <= jj < cols@.len() implies #[trigger] mm.ent(
                        i,
                        jj + 1,
                    ) == cols@[jj]@[i]@ by {
                        assert(all@[jj + off]@ == cols@[jj]@);
                        assert(jj + off == jj + 1);
                    }
                } else {
                    assert forall|i: int, jj: int|
                        0 <= i < rows as int && 0 <= jj < cols@.len() implies #[trigger] mm.ent(
                        i,
                        jj,
                    ) == cols@[jj]@[i]@ by {
                        assert(all@[jj + off]@ == cols@[jj]@);
                        assert(jj + off == jj);
                    }
                }
            }
            Ok(mm)
        },
        Err(e) => {
            proof {
                if (forall|t: int|
                    0 <= t < cols@.len() ==> (#[trigger] cols@[t]@).len() == rows as int) && (
                rows as int) * (cols@.len() + off) <= usize::MAX as int {
                    assert forall|t: int|
                        0 <= t < all@.len() implies (#[trigger] all@[t]@).len() == rows as int by {
                        if t >= off {
                            assert(all@[(t - off) + off]@ == cols@[t - off]@);
                        }
                    }
                    assert(false);
                }
            }
            Err(StatError::InputError)
        },
    }
}

/// The sum of one row of a dummy block.
pub open spec fn dummy_row_sum(values: Seq<String>, levels: Seq<String>, i: int) -> Frac {
    q_sum(Seq::new((levels.len() - 1) as nat, |j: int| indicator_col(values, levels[j + 1]@)[i]))
}

proof fn lemma_q_sum_ints(s: Seq<Frac>, total: int)
    requires
        forall|i: int| 0 <= i < s.len() ==> exists|v: int| #[trigger] s[i] == q_int(v),
        total == fold_int_sum(s),
    ensures
        q_sum(s) == q_int(total),
    decreases s.len(),
{
    if s.len() == 0 {
    } else {
        assert(forall|i: int|
            0 <= i < s.drop_last().len() ==> exists|v: int| #[trigger] s.drop_last()[i] == q_int(
                v,
            ));
        lemma_q_sum_ints(s.drop_last(), fold_int_sum(s.drop_last()));
        let v = choose|v: int| s[s.len() - 1] == q_int(v);
        assert(q_add(q_int(fold_int_sum(s.drop_last())), q_int(v)) == q_int(
            fold_int_sum(s.drop_last()) + v,
        ));
    }
}

/// The integer total of a sequence of integer-valued fractions.
pub open spec fn fold_int_sum(s: Seq<Frac>) -> int
    decreases s.len(),
{
    if s.len() == 0 {
        0
    } else {
        fold_int_sum(s.drop_last()) + s.last().n
    }
}

/// The row-sum law of dummy coding: in a dummy block built from a factor
/// with at least two levels, each row of the block sums to exactly 1
/// when the observation carries a non-reference level, and to exactly 0
/// when it carries the reference level.  (A row of the reference level
/// is the one input on which the sum is not 1.)
pub proof fn lemma_dummy_row_sum(values: Seq<String>, levels: Seq<String>, i: int)
    requires
        strictly_sorted(levels),
        levels.len() >= 2,
        0 <= i < values.len(),
        view_present(levels, values[i]@),
    ensures
        values[i]@ != levels[0]@ ==> dummy_row_sum(values, levels, i) == q_int(1),
        values[i]@ == levels[0]@ ==> dummy_row_sum(values, levels, i) == q_int(0),
{
    let s = Seq::new((levels.len() - 1) as nat, |j: int| indicator_col(values, levels[j + 1]@)[i]);
    assert(forall|j: int|
        0 <= j < s.len() ==> #[trigger] s[j] == q_int(
            if values[i]@ == levels[j + 1]@ {
                1int
            } else {
                0int
            },
        ));
    // Levels are pairwise distinct, so at most one indicator fires.
    assert forall|j1: int, j2: int| 0 <= j1 < j2 < levels.len() implies (#[trigger] levels[j1])@
        != (#[trigger] levels[j2])@ by {
        if levels[j1]@ == levels[j2]@ {
            lemma_bytes_lt_irrefl(encode_utf8(levels[j1]@));
        }
    }
    let jm = choose|j: int| 0 <= j < levels.len() && (#[trigger] levels[j])@ == values[i]@;
    if values[i]@ == levels[0]@ {
        assert(forall|j: int| 0 <= j < s.len() ==> #[trigger] s[j] == q_int(0));
        lemma_fold_indicator(s, s.len() as int);
        lemma_q_sum_ints(s, 0);
    } else {
        assert(1 <= jm < levels.len());
        assert(s[jm - 1] == q_int(1));
        lemma_fold_indicator(s, jm - 1);
        lemma_q_sum_ints(s, 1);
    }
}

/// The integer total of a 0/1 sequence with at most one 1: it is 1 when
/// position `hot` holds `q_int(1)`, and 0 when no position does (encoded
/// by `hot == s.len()`).
proof fn lemma_fold_indicator(s: Seq<Frac>, hot: int)
    requires
        forall|j: int| 0 <= j < s.len() ==> #[trigger] s[j] == q_int(0) || s[j] == q_int(1),
        forall|j: int| 0 <= j < s.len() && j != hot ==> #[trigger] s[j] == q_int(0),
        0 <= hot <= s.len(),
        hot < s.len() ==> s[hot] == q_int(1),
    ensures
        fold_int_sum(s) == if hot < s.len() { 1int } else { 0int },
    decreases s.len(),
{
    if s.len() == 0 {
    } else {
        if hot == s.len() - 1 {
            lemma_fold_indicator(s.drop_last(), s.len() - 1);
        } else if hot == s.len() {
            lemma_fold_indicator(s.drop_last(), s.len() - 1);
        } else {
            lemma_fold_indicator(s.drop_last(), hot);
        }
    }
}

} // verus!
