//! Stable sorting of records by a rank of their own.

use vstd::prelude::*;
use vstd::multiset::*;
use vstd::seq_lib::to_multiset_build;
use crate::names::views;

verus! {

/// A record with a rank: `before` says which of two values comes first.
pub trait Ranked: View {
    /// `a` has to come before `b`.
    spec fn before(a: Self::V, b: Self::V) -> bool;

    fn precedes(&self, other: &Self) -> (r: bool)
        ensures
            r == Self::before(self@, other@),
    ;
}

/// The sorted sequence `s` with `x` put in: behind every value that `x` need not come before.
pub open spec fn insert_ranked<T: Ranked>(s: Seq<T::V>, x: T::V) -> Seq<T::V>
    decreases s.len(),
{
    if s.len() == 0 {
        seq![x]
    } else if T::before(x, s.last()) {
        insert_ranked::<T>(s.drop_last(), x).push(s.last())
    } else {
        s.push(x)
    }
}

/// `s` sorted by rank; values of which neither has to come first keep their order.
pub open spec fn sorted<T: Ranked>(s: Seq<T::V>) -> Seq<T::V>
    decreases s.len(),
{
    if s.len() == 0 {
        s
    } else {
        insert_ranked::<T>(sorted::<T>(s.drop_last()), s.last())
    }
}

/// Putting `x` in is inserting it at the place behind which all values come after it.
pub proof fn lemma_insert_ranked_at<T: Ranked>(s: Seq<T::V>, x: T::V, at: int)
    requires
        0 <= at <= s.len(),
        forall|i: int| at <= i < s.len() ==> T::before(x, #[trigger] s[i]),
        at > 0 ==> !T::before(x, s[at - 1]),
    ensures
        insert_ranked::<T>(s, x) == s.insert(at, x),
    decreases s.len(),
{
    if s.len() == 0 {
        assert(seq![x] =~= s.insert(at, x));
    } else if at == s.len() {
        assert(s.push(x) =~= s.insert(at, x));
    } else {
        assert(T::before(x, s[s.len() - 1]));
        lemma_insert_ranked_at::<T>(s.drop_last(), x, at);
        assert(s.drop_last().insert(at, x).push(s.last()) =~= s.insert(at, x));
    }
}

/// Putting `x` in adds `x` to the values and takes none away.
pub proof fn lemma_insert_ranked_has<T: Ranked>(s: Seq<T::V>, x: T::V, y: T::V)
    ensures
        insert_ranked::<T>(s, x).contains(y) <==> s.contains(y) || y == x,
    decreases s.len(),
{
    let r = insert_ranked::<T>(s, x);
    if s.len() == 0 {
        assert(r[0] == x);
        if r.contains(y) {
            let k = choose|k: int| 0 <= k < r.len() && r[k] == y;
            assert(k == 0);
        }
    } else if T::before(x, s.last()) {
        let inner = insert_ranked::<T>(s.drop_last(), x);
        lemma_insert_ranked_has::<T>(s.drop_last(), x, y);
        if r.contains(y) {
            let k = choose|k: int| 0 <= k < r.len() && r[k] == y;
            if k < inner.len() {
                assert(inner[k] == y);
                if y != x {
                    let j = choose|j: int| 0 <= j < s.drop_last().len() && s.drop_last()[j] == y;
                    assert(s[j] == y);
                }
            } else {
                assert(s[s.len() - 1] == y);
            }
        }
        if s.contains(y) {
            let j = choose|j: int| 0 <= j < s.len() && s[j] == y;
            if j < s.len() - 1 {
                assert(s.drop_last()[j] == y);
                let k = choose|k: int| 0 <= k < inner.len() && inner[k] == y;
                assert(r[k] == y);
            } else {
                assert(r[inner.len() as int] == y);
            }
        }
        if y == x {
            let k = choose|k: int| 0 <= k < inner.len() && inner[k] == y;
            assert(r[k] == y);
        }
    } else {
        if r.contains(y) {
            let k = choose|k: int| 0 <= k < r.len() && r[k] == y;
            if k < s.len() {
                assert(s[k] == y);
            }
        }
        if s.contains(y) {
            let j = choose|j: int| 0 <= j < s.len() && s[j] == y;
            assert(r[j] == y);
        }
        if y == x {
            assert(r[s.len() as int] == x);
        }
    }
}

/// Sorting keeps the values: none is added and none is lost.
pub proof fn lemma_sorted_has<T: Ranked>(s: Seq<T::V>, y: T::V)
    ensures
        sorted::<T>(s).contains(y) <==> s.contains(y),
    decreases s.len(),
{
    if s.len() > 0 {
        lemma_sorted_has::<T>(s.drop_last(), y);
        lemma_insert_ranked_has::<T>(sorted::<T>(s.drop_last()), s.last(), y);
        if s.contains(y) {
            let j = choose|j: int| 0 <= j < s.len() && s[j] == y;
            if j < s.len() - 1 {
                assert(s.drop_last()[j] == y);
            }
        }
        if s.drop_last().contains(y) {
            let j = choose|j: int| 0 <= j < s.drop_last().len() && s.drop_last()[j] == y;
            assert(s[j] == y);
        }
        if y == s.last() {
            assert(s[s.len() - 1] == y);
        }
    }
}

/// The rank is a strict weak order: of two values not both have to come
/// first, and where neither of two has to come before the next, the first
/// need not come before the last.
pub open spec fn ranks_well<T: Ranked>() -> bool {
    &&& forall|a: T::V, b: T::V| #[trigger] T::before(a, b) ==> !T::before(b, a)
    &&& forall|a: T::V, b: T::V, c: T::V|
        !#[trigger] T::before(a, b) && !#[trigger] T::before(b, c) ==> !T::before(a, c)
}

/// No value has to come before one that stands before it.
pub open spec fn in_order<T: Ranked>(s: Seq<T::V>) -> bool {
    forall|i: int, j: int| 0 <= i < j < s.len() ==> !T::before(#[trigger] s[j], #[trigger] s[i])
}

/// Putting a value in keeps the order.
pub proof fn lemma_insert_ranked_in_order<T: Ranked>(s: Seq<T::V>, x: T::V)
    requires
        ranks_well::<T>(),
        in_order::<T>(s),
    ensures
        in_order::<T>(insert_ranked::<T>(s, x)),
    decreases s.len(),
{
    let r = insert_ranked::<T>(s, x);
    if s.len() == 0 {
    } else if T::before(x, s.last()) {
        let rest = s.drop_last();
        let inner = insert_ranked::<T>(rest, x);
        assert forall|i: int, j: int| 0 <= i < j < rest.len() implies !T::before(
            #[trigger] rest[j],
            #[trigger] rest[i],
        ) by {
            assert(rest[i] == s[i] && rest[j] == s[j]);
        }
        lemma_insert_ranked_in_order::<T>(rest, x);
        lemma_insert_ranked_len::<T>(rest, x);
        assert forall|i: int, j: int| 0 <= i < j < r.len() implies !T::before(
            #[trigger] r[j],
            #[trigger] r[i],
        ) by {
            if j < inner.len() {
                assert(r[i] == inner[i] && r[j] == inner[j]);
            } else {
                assert(r[j] == s.last());
                assert(r[i] == inner[i]);
                assert(inner.contains(inner[i]));
                lemma_insert_ranked_has::<T>(rest, x, inner[i]);
                if inner[i] == x {
                } else {
                    let k = choose|k: int| 0 <= k < rest.len() && rest[k] == inner[i];
                    assert(s[k] == inner[i]);
                    assert(!T::before(s[s.len() - 1], s[k]));
                }
            }
        }
    } else {
        assert forall|i: int, j: int| 0 <= i < j < r.len() implies !T::before(
            #[trigger] r[j],
            #[trigger] r[i],
        ) by {
            if j < s.len() {
                assert(r[i] == s[i] && r[j] == s[j]);
            } else {
                assert(r[j] == x);
                assert(r[i] == s[i]);
                if i < s.len() - 1 {
                    assert(!T::before(s[s.len() - 1], s[i]));
                }
            }
        }
    }
}

/// What is sorted is in order, where the rank is a strict weak order.
pub proof fn lemma_sorted_in_order<T: Ranked>(s: Seq<T::V>)
    requires
        ranks_well::<T>(),
    ensures
        in_order::<T>(sorted::<T>(s)),
    decreases s.len(),
{
    if s.len() > 0 {
        lemma_sorted_in_order::<T>(s.drop_last());
        lemma_insert_ranked_in_order::<T>(sorted::<T>(s.drop_last()), s.last());
    }
}

/// Putting a value in adds it to the values, as many times as they occur.
pub proof fn lemma_insert_ranked_permutes<T: Ranked>(s: Seq<T::V>, x: T::V)
    ensures
        insert_ranked::<T>(s, x).to_multiset() == s.to_multiset().insert(x),
    decreases s.len(),
{
    broadcast use group_multiset_axioms;

    if s.len() == 0 {
        assert(seq![x] =~= s.push(x));
        to_multiset_build(s, x);
    } else if T::before(x, s.last()) {
        let rest = s.drop_last();
        lemma_insert_ranked_permutes::<T>(rest, x);
        to_multiset_build(insert_ranked::<T>(rest, x), s.last());
        assert(rest.push(s.last()) =~= s);
        to_multiset_build(rest, s.last());
        assert(insert_ranked::<T>(s, x).to_multiset() =~= s.to_multiset().insert(x));
    } else {
        to_multiset_build(s, x);
    }
}

/// What is sorted holds the values that there were, each as many times as it occurred.
pub proof fn lemma_sorted_permutes<T: Ranked>(s: Seq<T::V>)
    ensures
        sorted::<T>(s).to_multiset() == s.to_multiset(),
    decreases s.len(),
{
    if s.len() > 0 {
        lemma_sorted_permutes::<T>(s.drop_last());
        lemma_insert_ranked_permutes::<T>(sorted::<T>(s.drop_last()), s.last());
        assert(s.drop_last().push(s.last()) =~= s);
        to_multiset_build(s.drop_last(), s.last());
    }
}

/// Of any two of the values one has to come before the other.
pub open spec fn all_ranked<T: Ranked>(s: Seq<T::V>) -> bool {
    forall|i: int, j: int|
        0 <= i < s.len() && 0 <= j < s.len() && i != j ==> T::before(
            #[trigger] s[i],
            #[trigger] s[j],
        ) || T::before(s[j], s[i])
}

/// Two sequences in order that hold the same values, of which any two are ranked, are the same.
pub proof fn lemma_in_order_unique<T: Ranked>(a: Seq<T::V>, b: Seq<T::V>)
    requires
        ranks_well::<T>(),
        in_order::<T>(a),
        in_order::<T>(b),
        a.to_multiset() == b.to_multiset(),
        all_ranked::<T>(a),
    ensures
        a == b,
    decreases a.len(),
{
    broadcast use group_multiset_axioms;

    a.to_multiset_ensures();
    b.to_multiset_ensures();
    if a.len() == 0 {
        assert(a =~= b);
    } else {
        let n = a.len() as int;
        assert(b.len() == n);
        let la = a[n - 1];
        let lb = b[n - 1];
        assert(a.contains(la));
        assert(b.contains(lb));
        assert(a.to_multiset().count(la) > 0);
        assert(b.to_multiset().count(lb) > 0);
        assert(b.to_multiset().count(la) > 0);
        assert(a.to_multiset().count(lb) > 0);
        assert(b.contains(la));
        assert(a.contains(lb));
        if la != lb {
            let m = choose|m: int| 0 <= m < a.len() && a[m] == lb;
            let k = choose|k: int| 0 <= k < b.len() && b[k] == la;
            assert(!T::before(a[n - 1], a[m]));
            assert(T::before(a[m], a[n - 1]) || T::before(a[n - 1], a[m]));
            assert(!T::before(b[n - 1], b[k]));
        }
        let ra = a.drop_last();
        let rb = b.drop_last();
        assert(ra.push(la) =~= a);
        assert(rb.push(lb) =~= b);
        to_multiset_build(ra, la);
        to_multiset_build(rb, lb);
        assert(ra.to_multiset() =~= a.to_multiset().remove(la));
        assert(rb.to_multiset() =~= b.to_multiset().remove(lb));
        assert forall|i: int, j: int| 0 <= i < j < ra.len() implies !T::before(
            #[trigger] ra[j],
            #[trigger] ra[i],
        ) by {
            assert(ra[i] == a[i] && ra[j] == a[j]);
        }
        assert forall|i: int, j: int| 0 <= i < j < rb.len() implies !T::before(
            #[trigger] rb[j],
            #[trigger] rb[i],
        ) by {
            assert(rb[i] == b[i] && rb[j] == b[j]);
        }
        assert forall|i: int, j: int|
            0 <= i < ra.len() && 0 <= j < ra.len() && i != j implies T::before(
            #[trigger] ra[i],
            #[trigger] ra[j],
        ) || T::before(ra[j], ra[i]) by {
            assert(ra[i] == a[i] && ra[j] == a[j]);
        }
        lemma_in_order_unique::<T>(ra, rb);
    }
}

/// Sorting does not depend on the order in which the values stood, where
/// any two of them are ranked.
pub proof fn lemma_sorted_canonical<T: Ranked>(s: Seq<T::V>, t: Seq<T::V>)
    requires
        ranks_well::<T>(),
        s.to_multiset() == t.to_multiset(),
        all_ranked::<T>(s),
    ensures
        sorted::<T>(s) == sorted::<T>(t),
{
    let a = sorted::<T>(s);
    let b = sorted::<T>(t);
    lemma_sorted_permutes::<T>(s);
    lemma_sorted_permutes::<T>(t);
    lemma_sorted_in_order::<T>(s);
    lemma_sorted_in_order::<T>(t);
    assert(s.no_duplicates()) by {
        assert forall|i: int, j: int|
            0 <= i < s.len() && 0 <= j < s.len() && i != j implies s[i] != s[j] by {
            if s[i] == s[j] {
                assert(T::before(s[i], s[j]) || T::before(s[j], s[i]));
            }
        }
    }
    s.lemma_multiset_has_no_duplicates();
    a.lemma_multiset_has_no_duplicates_conv();
    assert forall|i: int, j: int|
        0 <= i < a.len() && 0 <= j < a.len() && i != j implies T::before(
        #[trigger] a[i],
        #[trigger] a[j],
    ) || T::before(a[j], a[i]) by {
        assert(a.contains(a[i]));
        assert(a.contains(a[j]));
        lemma_sorted_has::<T>(s, a[i]);
        lemma_sorted_has::<T>(s, a[j]);
        let p = choose|p: int| 0 <= p < s.len() && s[p] == a[i];
        let q = choose|q: int| 0 <= q < s.len() && s[q] == a[j];
        assert(T::before(s[p], s[q]) || T::before(s[q], s[p]));
    }
    lemma_in_order_unique::<T>(a, b);
}

/// Sorting keeps the length.
pub proof fn lemma_sorted_len<T: Ranked>(s: Seq<T::V>)
    ensures
        sorted::<T>(s).len() == s.len(),
    decreases s.len(),
{
    if s.len() > 0 {
        lemma_sorted_len::<T>(s.drop_last());
        lemma_insert_ranked_len::<T>(sorted::<T>(s.drop_last()), s.last());
    }
}

/// Putting a value in makes the sequence one longer.
pub proof fn lemma_insert_ranked_len<T: Ranked>(s: Seq<T::V>, x: T::V)
    ensures
        insert_ranked::<T>(s, x).len() == s.len() + 1,
    decreases s.len(),
{
    if s.len() > 0 && T::before(x, s.last()) {
        lemma_insert_ranked_len::<T>(s.drop_last(), x);
    }
}

/// Sorts the records by rank, keeping the order of those of which neither has to come first.
pub fn sort<T: Ranked>(v: Vec<T>) -> (r: Vec<T>)
    ensures
        views(r@) == sorted::<T>(views(v@)),
{
    let mut r = v;
    let n = r.len();
    let mut i: usize = 0;
    proof {
        assert(views(r@.take(0)) =~= Seq::<T::V>::empty());
    }
    while i < n
        invariant
            n == v@.len(),
            r@.len() == n,
            i <= n,
            views(r@.take(i as int)) == sorted::<T>(views(v@.take(i as int))),
            r@.skip(i as int) == v@.skip(i as int),
        decreases n - i,
    {
        let ghost head = views(r@.take(i as int));
        let ghost whole = r@;
        let x = r.remove(i);
        proof {
            assert(whole[i as int] == whole.skip(i as int)[0]);
            assert(x == v@[i as int]);
            assert(r@.take(i as int) =~= whole.take(i as int));
            assert(r@.skip(i as int) =~= v@.skip(i + 1)) by {
                assert forall|k: int| 0 <= k < r@.skip(i as int).len() implies #[trigger] r@.skip(
                    i as int,
                )[k] == v@.skip(i + 1)[k] by {
                    assert(r@[i + k] == whole[i + k + 1]);
                    assert(whole.skip(i as int)[k + 1] == v@.skip(i as int)[k + 1]);
                }
            }
        }
        let mut at: usize = i;
        while at > 0 && x.precedes(&r[at - 1])
            invariant
                at <= i,
                i < n,
                r@.len() == n - 1,
                head == views(r@.take(i as int)),
                forall|k: int| at <= k < i ==> T::before(x@, #[trigger] head[k]),
            decreases at,
        {
            at -= 1;
        }
        proof {
            lemma_insert_ranked_at::<T>(head, x@, at as int);
        }
        let ghost without = r@;
        r.insert(at, x);
        proof {
            assert(views(r@.take(i + 1)) =~= head.insert(at as int, x@));
            assert(views(v@.take(i + 1)).drop_last() =~= views(v@.take(i as int)));
            assert(views(v@.take(i + 1)).last() == x@);
            assert(r@.skip(i + 1) =~= without.skip(i as int));
        }
        i += 1;
    }
    proof {
        assert(r@.take(n as int) =~= r@);
        assert(v@.take(n as int) =~= v@);
    }
    r
}

} // verus!
