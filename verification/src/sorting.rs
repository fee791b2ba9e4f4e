//! Stable insertion order, stated once for any element type and any strict
//! "sorts before" relation.
use vstd::prelude::*;
use vstd::multiset::Multiset;

verus! {

/// `x` placed into `s` in front of the first element it sorts strictly before,
/// so that it lands after every element that is not greater than it.
pub open spec fn insert_sorted<T>(x: T, s: Seq<T>, before: spec_fn(T, T) -> bool) -> Seq<T>
    decreases s.len(),
{
    if s.len() == 0 {
        seq![x]
    } else if before(x, s[0]) {
        seq![x] + s
    } else {
        seq![s[0]] + insert_sorted(x, s.drop_first(), before)
    }
}

/// `s` sorted by `before`, stably: the order a stable sort gives when `before`
/// is the strict part of a total preorder.
pub open spec fn sort_seq<T>(s: Seq<T>, before: spec_fn(T, T) -> bool) -> Seq<T>
    decreases s.len(),
{
    if s.len() == 0 {
        s
    } else {
        insert_sorted(s.last(), sort_seq(s.drop_last(), before), before)
    }
}

/// Inserting in front of the first element that `x` sorts before is `Seq::insert`
/// at that index.
pub proof fn lemma_insert_at<T>(x: T, s: Seq<T>, before: spec_fn(T, T) -> bool, k: int)
    requires
        0 <= k <= s.len(),
        forall|j: int| 0 <= j < k ==> !before(x, #[trigger] s[j]),
        k == s.len() || before(x, s[k]),
    ensures
        insert_sorted(x, s, before) == s.insert(k, x),
    decreases s.len(),
{
    if s.len() == 0 {
        assert(s.insert(k, x) =~= seq![x]);
    } else if k == 0 {
        assert(s.insert(0, x) =~= seq![x] + s);
    } else {
        assert(!before(x, s[0]));
        let rest = s.drop_first();
        assert forall|j: int| 0 <= j < k - 1 implies !before(x, #[trigger] rest[j]) by {
            assert(rest[j] == s[j + 1]);
        }
        if k < s.len() {
            assert(rest[k - 1] == s[k]);
        }
        lemma_insert_at(x, rest, before, k - 1);
        assert(seq![s[0]] + rest.insert(k - 1, x) =~= s.insert(k, x));
    }
}

/// Insertion keeps every element and adds one.
pub proof fn lemma_insert_multiset<T>(x: T, s: Seq<T>, before: spec_fn(T, T) -> bool)
    ensures
        insert_sorted(x, s, before).to_multiset() == s.to_multiset().insert(x),
        insert_sorted(x, s, before).len() == s.len() + 1,
    decreases s.len(),
{
    broadcast use vstd::seq_lib::group_to_multiset_ensures;

    if s.len() == 0 {
        assert(seq![x] =~= Seq::<T>::empty().push(x));
    } else if before(x, s[0]) {
        assert(seq![x] + s =~= s.insert(0, x));
        vstd::seq_lib::to_multiset_insert(s, 0, x);
    } else {
        let rest = s.drop_first();
        lemma_insert_multiset(x, rest, before);
        assert(s =~= seq![s[0]] + rest);
        vstd::seq_lib::lemma_multiset_commutative(seq![s[0]], rest);
        vstd::seq_lib::lemma_multiset_commutative(seq![s[0]], insert_sorted(x, rest, before));
        assert(seq![s[0]].to_multiset() =~= Multiset::empty().insert(s[0])) by {
            assert(seq![s[0]] =~= Seq::<T>::empty().push(s[0]));
        }
    }
}

/// Sorting keeps every element: the result is a permutation of the input.
pub proof fn lemma_sort_multiset<T>(s: Seq<T>, before: spec_fn(T, T) -> bool)
    ensures
        sort_seq(s, before).to_multiset() == s.to_multiset(),
        sort_seq(s, before).len() == s.len(),
    decreases s.len(),
{
    broadcast use vstd::seq_lib::group_to_multiset_ensures;

    if s.len() > 0 {
        lemma_sort_multiset(s.drop_last(), before);
        lemma_insert_multiset(s.last(), sort_seq(s.drop_last(), before), before);
        assert(s =~= s.drop_last().push(s.last()));
    }
}

/// The elements of `s` that satisfy `p`, in order.
pub open spec fn filter_seq<T>(s: Seq<T>, p: spec_fn(T) -> bool) -> Seq<T>
    decreases s.len(),
{
    if s.len() == 0 {
        s
    } else if p(s.last()) {
        filter_seq(s.drop_last(), p).push(s.last())
    } else {
        filter_seq(s.drop_last(), p)
    }
}

/// Splitting a sequence by a predicate and its negation keeps every element
/// exactly once.
pub proof fn lemma_filter_split<T>(s: Seq<T>, p: spec_fn(T) -> bool)
    ensures
        filter_seq(s, p).to_multiset().add(filter_seq(s, |x: T| !p(x)).to_multiset())
            == s.to_multiset(),
        filter_seq(s, p).len() + filter_seq(s, |x: T| !p(x)).len() == s.len(),
    decreases s.len(),
{
    broadcast use vstd::seq_lib::group_to_multiset_ensures;

    let q = |x: T| !p(x);
    if s.len() > 0 {
        lemma_filter_split(s.drop_last(), p);
        assert(s =~= s.drop_last().push(s.last()));
        assert(filter_seq(s, q) == (if q(s.last()) {
            filter_seq(s.drop_last(), q).push(s.last())
        } else {
            filter_seq(s.drop_last(), q)
        }));
        assert(filter_seq(s, p).to_multiset().add(filter_seq(s, q).to_multiset())
            =~= s.to_multiset());
    } else {
        assert(filter_seq(s, p).to_multiset() =~= Multiset::empty());
        assert(filter_seq(s, q).to_multiset() =~= Multiset::empty());
        assert(s.to_multiset() =~= Multiset::empty());
    }
}

/// Every element kept by a filter satisfies the predicate and was in the input.
pub proof fn lemma_filter_members<T>(s: Seq<T>, p: spec_fn(T) -> bool)
    ensures
        forall|i: int|
            0 <= i < filter_seq(s, p).len() ==> p(#[trigger] filter_seq(s, p)[i])
                && s.contains(filter_seq(s, p)[i]),
        forall|i: int| 0 <= i < s.len() && p(#[trigger] s[i]) ==> filter_seq(s, p).contains(s[i]),
    decreases s.len(),
{
    if s.len() > 0 {
        let init = s.drop_last();
        lemma_filter_members(init, p);
        let f = filter_seq(s, p);
        let fi = filter_seq(init, p);
        assert forall|i: int| 0 <= i < f.len() implies p(#[trigger] f[i]) && s.contains(f[i]) by {
            if i < fi.len() {
                assert(f[i] == fi[i]);
                let k = choose|k: int| 0 <= k < init.len() && init[k] == fi[i];
                assert(s[k] == init[k]);
            } else {
                assert(f[i] == s.last());
                assert(s[s.len() - 1] == s.last());
            }
        }
        assert forall|i: int| 0 <= i < s.len() && p(#[trigger] s[i]) implies f.contains(s[i]) by {
            if i < s.len() - 1 {
                assert(init[i] == s[i]);
                let k = choose|k: int| 0 <= k < fi.len() && fi[k] == init[i];
                assert(f[k] == fi[k]);
            } else {
                assert(f[f.len() - 1] == s[i]);
            }
        }
    }
}


/// `s` is in `before` order: no element sorts strictly before an earlier one.
pub open spec fn sorted_by<T>(s: Seq<T>, before: spec_fn(T, T) -> bool) -> bool {
    forall|i: int, j: int| 0 <= i < j < s.len() ==> !before(#[trigger] s[j], #[trigger] s[i])
}

/// `before` is irreflexive and transitive: the strict part of an order.
pub open spec fn strict_order<T>(before: spec_fn(T, T) -> bool) -> bool {
    &&& forall|x: T| !#[trigger] before(x, x)
    &&& forall|x: T, y: T, z: T| #[trigger] before(x, y) && #[trigger] before(y, z) ==> before(x, z)
}

/// Inserting into a sorted sequence keeps it sorted.
pub proof fn lemma_insert_sorted<T>(x: T, s: Seq<T>, before: spec_fn(T, T) -> bool)
    requires
        strict_order(before),
        sorted_by(s, before),
    ensures
        sorted_by(insert_sorted(x, s, before), before),
    decreases s.len(),
{
    broadcast use vstd::seq_lib::group_to_multiset_ensures;

    if s.len() == 0 {
    } else if before(x, s[0]) {
        let r = seq![x] + s;
        assert forall|i: int, j: int| 0 <= i < j < r.len() implies !before(#[trigger] r[j], #[trigger] r[i]) by {
            if i == 0 {
                assert(r[j] == s[j - 1]);
                if before(s[j - 1], x) {
                    assert(before(s[j - 1], s[0]));
                }
            } else {
                assert(r[i] == s[i - 1]);
                assert(r[j] == s[j - 1]);
            }
        }
    } else {
        let rest = s.drop_first();
        assert(sorted_by(rest, before)) by {
            assert forall|i: int, j: int| 0 <= i < j < rest.len() implies !before(#[trigger] rest[j], #[trigger] rest[i]) by {
                assert(rest[i] == s[i + 1]);
                assert(rest[j] == s[j + 1]);
            }
        }
        lemma_insert_sorted(x, rest, before);
        lemma_insert_multiset(x, rest, before);
        let ins = insert_sorted(x, rest, before);
        let r = seq![s[0]] + ins;
        assert forall|i: int, j: int| 0 <= i < j < r.len() implies !before(#[trigger] r[j], #[trigger] r[i]) by {
            if i == 0 {
                let y = ins[j - 1];
                assert(r[j] == y);
                assert(ins.to_multiset().count(y) > 0);
                if y != x {
                    assert(rest.to_multiset().count(y) > 0);
                    assert(rest.contains(y));
                    let q = choose|q: int| 0 <= q < rest.len() && rest[q] == y;
                    assert(s[q + 1] == y);
                }
            } else {
                assert(r[i] == ins[i - 1]);
                assert(r[j] == ins[j - 1]);
            }
        }
    }
}

/// Sorting by a strict order gives a sorted sequence.
pub proof fn lemma_sort_sorted<T>(s: Seq<T>, before: spec_fn(T, T) -> bool)
    requires
        strict_order(before),
    ensures
        sorted_by(sort_seq(s, before), before),
    decreases s.len(),
{
    if s.len() > 0 {
        lemma_sort_sorted(s.drop_last(), before);
        lemma_insert_sorted(s.last(), sort_seq(s.drop_last(), before), before);
    }
}

/// Filters that agree element by element on two sequences of one length keep
/// as many elements.
pub proof fn lemma_filter_len_match<A, B>(s: Seq<A>, u: Seq<B>, p: spec_fn(A) -> bool, q: spec_fn(B) -> bool)
    requires
        s.len() == u.len(),
        forall|j: int| 0 <= j < s.len() ==> p(#[trigger] s[j]) == q(u[j]),
    ensures
        filter_seq(s, p).len() == filter_seq(u, q).len(),
    decreases s.len(),
{
    if s.len() > 0 {
        assert forall|j: int| 0 <= j < s.len() - 1 implies p(#[trigger] s.drop_last()[j]) == q(u.drop_last()[j]) by {
            assert(s.drop_last()[j] == s[j]);
            assert(u.drop_last()[j] == u[j]);
        }
        lemma_filter_len_match(s.drop_last(), u.drop_last(), p, q);
        assert(p(s[s.len() - 1]) == q(u[u.len() - 1]));
    }
}

/// A filter that keeps at least what another keeps, element by element, keeps
/// at least as many elements.
pub proof fn lemma_filter_len_le<A, B>(s: Seq<A>, u: Seq<B>, p: spec_fn(A) -> bool, q: spec_fn(B) -> bool)
    requires
        s.len() == u.len(),
        forall|j: int| 0 <= j < s.len() && p(#[trigger] s[j]) ==> q(u[j]),
    ensures
        filter_seq(s, p).len() <= filter_seq(u, q).len(),
    decreases s.len(),
{
    if s.len() > 0 {
        assert forall|j: int| 0 <= j < s.len() - 1 && p(#[trigger] s.drop_last()[j]) implies q(u.drop_last()[j]) by {
            assert(s.drop_last()[j] == s[j]);
            assert(u.drop_last()[j] == u[j]);
        }
        lemma_filter_len_le(s.drop_last(), u.drop_last(), p, q);
        assert(p(s[s.len() - 1]) ==> q(u[u.len() - 1]));
    }
}

} // verus!
