//! Lexicographic signs of integer vectors moved along nonnegative
//! combinations of fixed directions.
use vstd::prelude::*;

verus! {

/// From component `j` on, the first nonzero component of `v` is positive.
pub open spec fn lexpos_from(v: Seq<int>, j: int) -> bool
    decreases v.len() - j,
{
    if j < 0 || j >= v.len() {
        false
    } else if v[j] > 0 {
        true
    } else if v[j] < 0 {
        false
    } else {
        lexpos_from(v, j + 1)
    }
}

/// `b` moved `m` times along `g`.
pub open spec fn moved(b: Seq<int>, m: int, g: Seq<int>) -> Seq<int> {
    Seq::new(b.len(), |i: int| b[i] + m * g[i])
}

/// One entry's share at component `j`: its two weights times its two directions.
pub open spec fn share(w: (Seq<int>, Seq<int>), lam: (int, int), j: int) -> int {
    lam.0 * w.0[j] + lam.1 * w.1[j]
}

/// The weighted sum of the directions at component `j`.
pub open spec fn cone_sum(w: Seq<(Seq<int>, Seq<int>)>, lam: Seq<(int, int)>, j: int) -> int
    decreases lam.len(),
{
    if lam.len() == 0 || w.len() != lam.len() {
        0
    } else {
        cone_sum(w.drop_last(), lam.drop_last(), j) + share(w.last(), lam.last(), j)
    }
}

/// The direction has zeros before component `j`.
pub open spec fn zero_before(g: Seq<int>, j: int) -> bool {
    forall|i: int| 0 <= i < j ==> g[i] == 0
}

proof fn lemma_share_sign(a: int, x: int)
    requires
        a >= 0,
        a > 0 ==> x <= 0,
    ensures
        a * x <= 0,
        a * x == 0 ==> (a == 0 || x == 0),
{
    assert(a * x <= 0) by (nonlinear_arith)
        requires
            a >= 0,
            a > 0 ==> x <= 0,
    ;
    assert(a * x == 0 ==> (a == 0 || x == 0)) by (nonlinear_arith);
}

/// When every direction with a positive weight is at most zero at `j`, the
/// sum is at most zero, and it is zero only if each such direction is zero there.
proof fn lemma_cone_sum_nonpos(w: Seq<(Seq<int>, Seq<int>)>, lam: Seq<(int, int)>, j: int)
    requires
        w.len() == lam.len(),
        forall|k: int| 0 <= k < lam.len() ==> (#[trigger] lam[k]).0 >= 0 && lam[k].1 >= 0,
        forall|k: int|
            0 <= k < lam.len() ==> ((#[trigger] lam[k]).0 > 0 ==> w[k].0[j] <= 0) && (lam[k].1 > 0 ==> w[k].1[j] <= 0),
    ensures
        cone_sum(w, lam, j) <= 0,
        cone_sum(w, lam, j) == 0 ==> forall|k: int|
            0 <= k < lam.len() ==> ((#[trigger] lam[k]).0 > 0 ==> w[k].0[j] == 0) && (lam[k].1 > 0 ==> w[k].1[j] == 0),
    decreases lam.len(),
{
    if lam.len() > 0 {
        let n = lam.len() - 1;
        assert forall|k: int| 0 <= k < n implies (#[trigger] lam.drop_last()[k]).0 >= 0 && lam.drop_last()[k].1 >= 0
            && ((lam.drop_last()[k].0 > 0 ==> w.drop_last()[k].0[j] <= 0) && (lam.drop_last()[k].1 > 0
            ==> w.drop_last()[k].1[j] <= 0)) by {
            assert(lam.drop_last()[k] == lam[k]);
            assert(w.drop_last()[k] == w[k]);
        }
        lemma_cone_sum_nonpos(w.drop_last(), lam.drop_last(), j);
        assert(lam.last() == lam[n]);
        assert(w.last() == w[n]);
        lemma_share_sign(lam[n].0, w[n].0[j]);
        lemma_share_sign(lam[n].1, w[n].1[j]);
        if cone_sum(w, lam, j) == 0 {
            assert forall|k: int| 0 <= k < lam.len() implies ((#[trigger] lam[k]).0 > 0 ==> w[k].0[j] == 0) && (lam[k].1
                > 0 ==> w[k].1[j] == 0) by {
                if k < n {
                    assert(lam.drop_last()[k] == lam[k]);
                    assert(w.drop_last()[k] == w[k]);
                }
            }
        }
    }
}

/// Zeros before `j` carry a positive sign from `j` back to the start.
proof fn lemma_lexpos_lift(v: Seq<int>, j: int)
    requires
        0 <= j,
        lexpos_from(v, j),
        forall|i: int| 0 <= i < j ==> v[i] == 0,
    ensures
        lexpos_from(v, 0),
    decreases j,
{
    if j > 0 {
        lemma_lexpos_lift(v, j - 1);
    }
}

proof fn lemma_lex_cone_from(
    b: Seq<int>,
    w: Seq<(Seq<int>, Seq<int>)>,
    lam: Seq<(int, int)>,
    v: Seq<int>,
    m: int,
    j: int,
)
    requires
        b.len() == v.len(),
        w.len() == lam.len(),
        0 <= j <= b.len(),
        forall|k: int| 0 <= k < lam.len() ==> (#[trigger] lam[k]).0 >= 0 && lam[k].1 >= 0,
        forall|k: int| 0 <= k < w.len() ==> (#[trigger] w[k]).0.len() == b.len() && w[k].1.len() == b.len(),
        forall|i: int| 0 <= i < v.len() ==> #[trigger] v[i] == b[i] + cone_sum(w, lam, i),
        forall|k: int, i: int|
            0 <= k < w.len() && 0 <= i < b.len() ==> ((#[trigger] w[k]).0[i] > 0 ==> b[i] + m * w[k].0[i] > 0) && (
            w[k].1[i] > 0 ==> #[trigger] b[i] + m * w[k].1[i] > 0),
        forall|i: int| 0 <= i < j ==> b[i] == 0,
        forall|k: int|
            0 <= k < lam.len() ==> ((#[trigger] lam[k]).0 > 0 ==> zero_before(w[k].0, j)) && (lam[k].1 > 0
                ==> zero_before(w[k].1, j)),
        lexpos_from(v, j),
    ensures
        lexpos_from(b, 0) || exists|k: int|
            0 <= k < w.len() && (lexpos_from(moved(b, m, (#[trigger] w[k]).0), 0) || lexpos_from(moved(b, m, w[k].1), 0)),
    decreases b.len() - j,
{
    if j == b.len() {
        assert(!lexpos_from(v, j));
    } else if exists|k: int| 0 <= k < w.len() && zero_before((#[trigger] w[k]).0, j) && w[k].0[j] > 0 {
        let k = choose|k: int| 0 <= k < w.len() && zero_before((#[trigger] w[k]).0, j) && w[k].0[j] > 0;
        let d = moved(b, m, w[k].0);
        assert(d[j] > 0);
        assert forall|i: int| 0 <= i < j implies d[i] == 0 by {
            assert(w[k].0[i] == 0);
        }
        lemma_lexpos_lift(d, j);
    } else if exists|k: int| 0 <= k < w.len() && zero_before((#[trigger] w[k]).1, j) && w[k].1[j] > 0 {
        let k = choose|k: int| 0 <= k < w.len() && zero_before((#[trigger] w[k]).1, j) && w[k].1[j] > 0;
        let d = moved(b, m, w[k].1);
        assert(d[j] > 0);
        assert forall|i: int| 0 <= i < j implies d[i] == 0 by {
            assert(w[k].1[i] == 0);
        }
        lemma_lexpos_lift(d, j);
    } else {
        lemma_cone_sum_nonpos(w, lam, j);
        assert(v[j] == b[j] + cone_sum(w, lam, j));
        if b[j] > 0 {
            lemma_lexpos_lift(b, j);
        } else {
            assert(b[j] == 0);
            assert(v[j] == 0);
            assert forall|k: int|
                0 <= k < lam.len() implies ((#[trigger] lam[k]).0 > 0 ==> zero_before(w[k].0, j + 1)) && (lam[k].1 > 0
                    ==> zero_before(w[k].1, j + 1)) by {
                if lam[k].0 > 0 {
                    assert(zero_before(w[k].0, j));
                    assert(w[k].0[j] == 0);
                }
                if lam[k].1 > 0 {
                    assert(zero_before(w[k].1, j));
                    assert(w[k].1[j] == 0);
                }
            }
            lemma_lex_cone_from(b, w, lam, v, m, j + 1);
        }
    }
}

/// If `b` moved along a nonnegative combination of directions is
/// lexicographically positive, then `b` itself is, or `b` moved far enough
/// along a single direction is.
pub proof fn lemma_lex_cone(b: Seq<int>, w: Seq<(Seq<int>, Seq<int>)>, lam: Seq<(int, int)>, v: Seq<int>, m: int)
    requires
        b.len() == v.len(),
        w.len() == lam.len(),
        forall|k: int| 0 <= k < lam.len() ==> (#[trigger] lam[k]).0 >= 0 && lam[k].1 >= 0,
        forall|k: int| 0 <= k < w.len() ==> (#[trigger] w[k]).0.len() == b.len() && w[k].1.len() == b.len(),
        forall|i: int| 0 <= i < v.len() ==> #[trigger] v[i] == b[i] + cone_sum(w, lam, i),
        forall|k: int, i: int|
            0 <= k < w.len() && 0 <= i < b.len() ==> ((#[trigger] w[k]).0[i] > 0 ==> b[i] + m * w[k].0[i] > 0) && (
            w[k].1[i] > 0 ==> #[trigger] b[i] + m * w[k].1[i] > 0),
        lexpos_from(v, 0),
    ensures
        lexpos_from(b, 0) || exists|k: int|
            0 <= k < w.len() && (lexpos_from(moved(b, m, (#[trigger] w[k]).0), 0) || lexpos_from(moved(b, m, w[k].1), 0)),
{
    lemma_lex_cone_from(b, w, lam, v, m, 0);
}

} // verus!
