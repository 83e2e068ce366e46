use vstd::prelude::*;
use vstd::utf8::{encode_utf8, encode_utf8_decode_utf8};
use vstd::string::StringSliceAdditionalSpecFns;

verus! {

/// Strict byte-lexicographic order on byte sequences: the order in which
/// Rust compares strings, and the order that picks the reference level of
/// a categorical factor.
pub open spec fn bytes_lt(a: Seq<u8>, b: Seq<u8>) -> bool
    decreases a.len(),
{
    if b.len() == 0 {
        false
    } else if a.len() == 0 {
        true
    } else if a[0] < b[0] {
        true
    } else if a[0] > b[0] {
        false
    } else {
        bytes_lt(a.drop_first(), b.drop_first())
    }
}

/// Strict lexicographic order on strings, through their UTF-8 encoding.
pub open spec fn chars_lt(a: Seq<char>, b: Seq<char>) -> bool {
    bytes_lt(encode_utf8(a), encode_utf8(b))
}

/// A strictly ascending sequence of strings (hence pairwise distinct).
pub open spec fn strictly_sorted(s: Seq<String>) -> bool {
    forall|i: int, j: int| 0 <= i < j < s.len() ==> chars_lt((#[trigger] s[i])@, (#[trigger] s[j])@)
}

/// Some element of `s` has exactly the characters `v`.
pub open spec fn view_present(s: Seq<String>, v: Seq<char>) -> bool {
    exists|j: int| 0 <= j < s.len() && (#[trigger] s[j])@ == v
}

/// `lv` is the ascending list of the distinct values of `groups`.
pub open spec fn level_list_of(groups: Seq<String>, lv: Seq<String>) -> bool {
    &&& strictly_sorted(lv)
    &&& forall|j: int| 0 <= j < lv.len() ==> view_present(groups, (#[trigger] lv[j])@)
    &&& forall|i: int| 0 <= i < groups.len() ==> view_present(lv, (#[trigger] groups[i])@)
}

/// The column has at least two distinct values.
pub open spec fn has_two_distinct(groups: Seq<String>) -> bool {
    exists|i: int, j: int|
        0 <= i < groups.len() && 0 <= j < groups.len() && (#[trigger] groups[i])@ != (
        #[trigger] groups[j])@
}

pub proof fn lemma_bytes_lt_irrefl(a: Seq<u8>)
    ensures
        !bytes_lt(a, a),
    decreases a.len(),
{
    if a.len() > 0 {
        lemma_bytes_lt_irrefl(a.drop_first());
    }
}

pub proof fn lemma_bytes_lt_total(a: Seq<u8>, b: Seq<u8>)
    requires
        !bytes_lt(a, b),
        !bytes_lt(b, a),
    ensures
        a =~= b,
    decreases a.len(),
{
    if a.len() == 0 || b.len() == 0 {
    } else {
        lemma_bytes_lt_total(a.drop_first(), b.drop_first());
        assert(a =~= seq![a[0]] + a.drop_first());
        assert(b =~= seq![b[0]] + b.drop_first());
    }
}

pub proof fn lemma_bytes_lt_trans(a: Seq<u8>, b: Seq<u8>, c: Seq<u8>)
    requires
        bytes_lt(a, b),
        bytes_lt(b, c),
    ensures
        bytes_lt(a, c),
    decreases a.len(),
{
    if a.len() == 0 || b.len() == 0 || c.len() == 0 {
    } else {
        if a[0] == b[0] && b[0] == c[0] {
            lemma_bytes_lt_trans(a.drop_first(), b.drop_first(), c.drop_first());
        }
    }
}

/// Equal encodings come from equal strings.
pub proof fn lemma_encode_injective(a: Seq<char>, b: Seq<char>)
    requires
        encode_utf8(a) == encode_utf8(b),
    ensures
        a == b,
{
    encode_utf8_decode_utf8(a);
    encode_utf8_decode_utf8(b);
}

/// Whether `a` precedes `b` in strict lexicographic (byte) order.
pub fn str_lt(a: &str, b: &str) -> (r: bool)
    ensures
        r == chars_lt(a@, b@),
{
    let ab: &[u8] = a.as_bytes();
    let bb: &[u8] = b.as_bytes();
    let alen: usize = ab.len();
    let blen: usize = bb.len();
    let mut i: usize = 0;
    proof {
        assert(ab@.skip(0) =~= ab@);
        assert(bb@.skip(0) =~= bb@);
    }
    while i < alen && i < blen
        invariant
            0 <= i,
            i <= alen,
            i <= blen,
            alen == ab@.len(),
            blen == bb@.len(),
            ab@ == a.spec_bytes(),
            bb@ == b.spec_bytes(),
            bytes_lt(ab@, bb@) == bytes_lt(ab@.skip(i as int), bb@.skip(i as int)),
        decreases alen - i,
    {
        let x: u8 = ab[i];
        let y: u8 = bb[i];
        proof {
            assert(ab@.skip(i as int)[0] == ab@[i as int]);
            assert(bb@.skip(i as int)[0] == bb@[i as int]);
        }
        if x < y {
            return true;
        }
        if x > y {
            return false;
        }
        proof {
            assert(ab@.skip(i as int).drop_first() =~= ab@.skip(i as int + 1));
            assert(bb@.skip(i as int).drop_first() =~= bb@.skip(i as int + 1));
        }
        i = i + 1;
    }
    proof {
        if alen == i {
            assert(ab@.skip(i as int).len() == 0);
        } else {
            assert(bb@.skip(i as int).len() == 0);
        }
    }
    alen < blen
}

/// The position where `v` belongs in the ascending list `out`.
fn insert_position(out: &Vec<String>, v: &String) -> (p: usize)
    requires
        strictly_sorted(out@),
    ensures
        p <= out@.len(),
        forall|i: int| 0 <= i < p as int ==> chars_lt((#[trigger] out@[i])@, v@),
        (p as int) < out@.len() ==> !chars_lt(out@[p as int]@, v@),
{
    let n: usize = out.len();
    let mut p: usize = 0;
    while p < n
        invariant
            0 <= p <= n,
            n == out@.len(),
            forall|i: int| 0 <= i < p as int ==> chars_lt((#[trigger] out@[i])@, v@),
        decreases n - p,
    {
        if str_lt(out[p].as_str(), v.as_str()) {
            p = p + 1;
        } else {
            return p;
        }
    }
    p
}

/// Add one value to an ascending list of distinct values, keeping it
/// ascending and distinct.
fn add_value(out: &mut Vec<String>, v: &String)
    requires
        strictly_sorted(old(out)@),
    ensures
        strictly_sorted(final(out)@),
        forall|j: int|
            0 <= j < final(out)@.len() ==> view_present(old(out)@, (#[trigger] final(out)@[j])@)
                || final(out)@[j]@ == v@,
        view_present(final(out)@, v@),
        forall|jj: int|
            0 <= jj < old(out)@.len() ==> view_present(final(out)@, (#[trigger] old(out)@[jj])@),
{
    let p: usize = insert_position(out, v);
    let ghost old_out: Seq<String> = out@;
    let ghost old_dup: Seq<String> = out@;
    if p < out.len() {
        if out[p].eq(v) {
            proof {
                assert(out@[p as int]@ == v@);
                assert(view_present(out@, v@));
                assert forall|j: int| 0 <= j < out@.len() implies view_present(
                    old_dup,
                    (#[trigger] out@[j])@,
                ) by {
                    assert(old_dup[j]@ == out@[j]@);
                }
                assert forall|jj: int| 0 <= jj < old_dup.len() implies view_present(
                    out@,
                    (#[trigger] old_dup[jj])@,
                ) by {
                    assert(out@[jj]@ == old_dup[jj]@);
                }
            }
            return ;
        }
    }
    proof {
        if (p as int) < old_out.len() {
            // At the stop position the entry differs from `v`, so by
            // totality of the byte order `v` strictly precedes it, and by
            // transitivity everything after it too.
            assert(old_out[p as int]@ != v@);
            if !chars_lt(v@, old_out[p as int]@) {
                lemma_bytes_lt_total(encode_utf8(old_out[p as int]@), encode_utf8(v@));
                lemma_encode_injective(old_out[p as int]@, v@);
                assert(false);
            }
            assert forall|j: int| p as int <= j < old_out.len() implies chars_lt(
                v@,
                (#[trigger] old_out[j])@,
            ) by {
                if j > p as int {
                    lemma_bytes_lt_trans(
                        encode_utf8(v@),
                        encode_utf8(old_out[p as int]@),
                        encode_utf8(old_out[j]@),
                    );
                }
            }
        }
    }
    let vv: String = v.clone();
    out.insert(p, vv);
    proof {
        assert forall|i: int, j: int| 0 <= i < j < out@.len() implies chars_lt(
            (#[trigger] out@[i])@,
            (#[trigger] out@[j])@,
        ) by {
            if j < p as int {
            } else if i < p as int && j == p as int {
            } else if i < p as int && j > p as int {
                assert(out@[j] == old_out[j - 1]);
            } else if i == p as int {
                assert(out@[j] == old_out[j - 1]);
            } else {
                assert(out@[i] == old_out[i - 1]);
                assert(out@[j] == old_out[j - 1]);
            }
        }
        assert(out@[p as int]@ == v@);
        assert(view_present(out@, v@));
        assert forall|jj: int| 0 <= jj < old_out.len() implies view_present(
            out@,
            (#[trigger] old_out[jj])@,
        ) by {
            if jj < p as int {
                assert(out@[jj]@ == old_out[jj]@);
            } else {
                assert(out@[jj + 1]@ == old_out[jj]@);
            }
        }
        assert forall|j: int| 0 <= j < out@.len() implies view_present(
            old_out,
            (#[trigger] out@[j])@,
        ) || out@[j]@ == v@ by {
            if j < p as int {
                assert(out@[j]@ == old_out[j]@);
                assert(old_out[j]@ == out@[j]@);
            } else if j > p as int {
                assert(out@[j]@ == old_out[j - 1]@);
                assert(old_out[j - 1]@ == out@[j]@);
            }
        }
    }
}

/// The distinct values of a categorical column, in ascending
/// lexicographic order: the first element is the reference level of a
/// dummy coding.  The result holds exactly the distinct values that
/// occur, each once.
pub fn distinct_sorted_levels(values: &Vec<String>) -> (out: Vec<String>)
    ensures
        strictly_sorted(out@),
        forall|j: int| 0 <= j < out@.len() ==> view_present(values@, (#[trigger] out@[j])@),
        forall|i: int| 0 <= i < values@.len() ==> view_present(out@, (#[trigger] values@[i])@),
        level_list_of(values@, out@),
        out@.len() >= 2 <==> has_two_distinct(values@),
{
    let n: usize = values.len();
    let mut acc: Vec<String> = Vec::new();
    let mut t: usize = 0;
    while t < n
        invariant
            0 <= t <= n,
            n == values@.len(),
            strictly_sorted(acc@),
            forall|j: int| 0 <= j < acc@.len() ==> view_present(values@, (#[trigger] acc@[j])@),
            forall|i: int| 0 <= i < t as int ==> view_present(acc@, (#[trigger] values@[i])@),
        decreases n - t,
    {
        let ghost prev: Seq<String> = acc@;
        add_value(&mut acc, &values[t]);
        proof {
            assert forall|j: int| 0 <= j < acc@.len() implies view_present(
                values@,
                (#[trigger] acc@[j])@,
            ) by {
                if view_present(prev, acc@[j]@) {
                    let jj = choose|jj: int| 0 <= jj < prev.len() && (#[trigger] prev[jj])@
                        == acc@[j]@;
                    assert(view_present(values@, prev[jj]@));
                } else {
                    assert(acc@[j]@ == values@[t as int]@);
                    assert(values@[t as int]@ == acc@[j]@);
                }
            }
            assert forall|i: int| 0 <= i < t as int + 1 implies view_present(
                acc@,
                (#[trigger] values@[i])@,
            ) by {
                if i < t as int {
                    let jj = choose|jj: int| 0 <= jj < prev.len() && (#[trigger] prev[jj])@
                        == values@[i]@;
                    assert(view_present(acc@, prev[jj]@));
                }
            }
        }
        t = t + 1;
    }
    proof {
        if acc@.len() >= 2 {
            lemma_sorted_distinct(acc@, 0, 1);
            let o0 = choose|i: int|
                0 <= i < values@.len() && (#[trigger] values@[i])@ == acc@[0]@;
            let o1 = choose|i: int|
                0 <= i < values@.len() && (#[trigger] values@[i])@ == acc@[1]@;
            assert(view_present(values@, acc@[0]@));
            assert(view_present(values@, acc@[1]@));
            assert(values@[o0]@ != values@[o1]@);
        } else {
            if has_two_distinct(values@) {
                let (i, j): (int, int) = choose|i: int, j: int|
                    0 <= i < values@.len() && 0 <= j < values@.len() && (#[trigger] values@[i])@
                        != (#[trigger] values@[j])@;
                assert(view_present(acc@, values@[i]@));
                assert(view_present(acc@, values@[j]@));
                let ji = choose|t: int| 0 <= t < acc@.len() && (#[trigger] acc@[t])@ == values@[i]@;
                let jj = choose|t: int| 0 <= t < acc@.len() && (#[trigger] acc@[t])@ == values@[j]@;
                assert(false);
            }
        }
    }
    acc
}

/// Distinct positions of a strictly sorted list hold distinct strings.
pub proof fn lemma_sorted_distinct(lv: Seq<String>, i: int, j: int)
    requires
        strictly_sorted(lv),
        0 <= i < j < lv.len(),
    ensures
        lv[i]@ != lv[j]@,
{
    if lv[i]@ == lv[j]@ {
        assert(chars_lt(lv[i]@, lv[j]@));
        lemma_bytes_lt_irrefl(encode_utf8(lv[i]@));
    }
}

} // verus!
