//! A stable insertion sort with binary search, for any total preorder.
use crate::model::views;
use vstd::prelude::*;

verus! {

/// Values ranked by a total preorder: `after(a, b)` says that `a` ranks
/// strictly after `b`.
pub trait Ranked: View + Sized {
    /// What an exec value must satisfy for its rank to be computed.
    spec fn inv(&self) -> bool;

    /// `a` ranks strictly after `b`.
    spec fn after(a: Self::V, b: Self::V) -> bool;

    /// Whether `self` ranks strictly after `other`.
    fn ranks_after(&self, other: &Self) -> (r: bool)
        requires
            self.inv(),
            other.inv(),
        ensures
            r == Self::after(self@, other@),
    ;

    /// Nothing ranks both after and before another.
    proof fn lemma_asymmetric(a: Self::V, b: Self::V)
        ensures
            Self::after(a, b) ==> !Self::after(b, a),
    ;

    /// "Not after" is transitive.
    proof fn lemma_transitive(a: Self::V, b: Self::V, c: Self::V)
        ensures
            !Self::after(a, b) && !Self::after(b, c) ==> !Self::after(a, c),
    ;
}

/// The first position of `s` whose value `x` does not rank after.
pub open spec fn lower_pos<T: Ranked>(s: Seq<T::V>, x: T::V) -> nat
    decreases s.len(),
{
    if s.len() == 0 {
        0
    } else if !T::after(x, s[0]) {
        0
    } else {
        1 + lower_pos::<T>(s.drop_first(), x)
    }
}

/// The stable sort of `s`: the sorted rest, with the first value inserted
/// before everything it does not rank after (so equals keep their order).
pub open spec fn stable_sort<T: Ranked>(s: Seq<T::V>) -> Seq<T::V>
    decreases s.len(),
{
    if s.len() == 0 {
        s
    } else {
        let r = stable_sort::<T>(s.drop_first());
        r.insert(lower_pos::<T>(r, s[0]) as int, s[0])
    }
}

/// No value ranks after a later one.
pub open spec fn is_sorted<T: Ranked>(s: Seq<T::V>) -> bool {
    forall|i: int, j: int| 0 <= i < j < s.len() ==> !T::after(#[trigger] s[i], #[trigger] s[j])
}

proof fn lemma_lower_pos<T: Ranked>(s: Seq<T::V>, x: T::V)
    ensures
        lower_pos::<T>(s, x) <= s.len(),
        forall|i: int| 0 <= i < lower_pos::<T>(s, x) ==> T::after(x, #[trigger] s[i]),
        lower_pos::<T>(s, x) < s.len() ==> !T::after(x, s[lower_pos::<T>(s, x) as int]),
    decreases s.len(),
{
    if s.len() > 0 && T::after(x, s[0]) {
        lemma_lower_pos::<T>(s.drop_first(), x);
        assert forall|i: int| 0 <= i < lower_pos::<T>(s, x) implies T::after(x, #[trigger] s[i]) by {
            if i > 0 {
                assert(s[i] == s.drop_first()[i - 1]);
            }
        }
    }
}

proof fn lemma_lower_pos_is<T: Ranked>(s: Seq<T::V>, x: T::V, k: int)
    requires
        0 <= k <= s.len(),
        forall|i: int| 0 <= i < k ==> T::after(x, #[trigger] s[i]),
        k == s.len() || !T::after(x, s[k]),
    ensures
        lower_pos::<T>(s, x) == k,
    decreases s.len(),
{
    if k > 0 {
        assert(T::after(x, s[0]));
        assert forall|i: int| 0 <= i < k - 1 implies T::after(x, #[trigger] s.drop_first()[i]) by {
            assert(s.drop_first()[i] == s[i + 1]);
        }
        lemma_lower_pos_is::<T>(s.drop_first(), x, k - 1);
    }
}

/// Sorting yields a sorted permutation of the input.
pub proof fn lemma_stable_sort<T: Ranked>(s: Seq<T::V>)
    ensures
        is_sorted::<T>(stable_sort::<T>(s)),
        stable_sort::<T>(s).to_multiset() == s.to_multiset(),
        stable_sort::<T>(s).len() == s.len(),
    decreases s.len(),
{
    broadcast use vstd::seq_lib::to_multiset_insert, vstd::seq_lib::to_multiset_build;

    if s.len() > 0 {
        let rest = s.drop_first();
        lemma_stable_sort::<T>(rest);
        let r = stable_sort::<T>(rest);
        let x = s[0];
        lemma_lower_pos::<T>(r, x);
        let k = lower_pos::<T>(r, x) as int;
        let out = r.insert(k, x);
        assert(out =~= stable_sort::<T>(s));
        assert forall|i: int, j: int| 0 <= i < j < out.len() implies !T::after(
            #[trigger] out[i],
            #[trigger] out[j],
        ) by {
            if i < k && j < k {
                assert(out[i] == r[i] && out[j] == r[j]);
            } else if i < k && j == k {
                T::lemma_asymmetric(x, r[i]);
            } else if i < k && j > k {
                assert(out[i] == r[i] && out[j] == r[j - 1]);
            } else if i == k {
                assert(out[j] == r[j - 1]);
                if j - 1 > k {
                    T::lemma_transitive(x, r[k], r[j - 1]);
                }
            } else {
                assert(out[i] == r[i - 1] && out[j] == r[j - 1]);
            }
        }
        assert(s =~= seq![x] + rest);
        assert(s.to_multiset() == rest.to_multiset().insert(x)) by {
            assert(s =~= rest.insert(0, x));
        }
    }
}

/// The first position of the sorted `v` whose value `x` does not rank after.
fn lower_bound<T: Ranked>(v: &Vec<T>, x: &T) -> (k: usize)
    requires
        is_sorted::<T>(views(v@)),
        x.inv(),
        forall|i: int| 0 <= i < v@.len() ==> (#[trigger] v@[i]).inv(),
    ensures
        k == lower_pos::<T>(views(v@), x@),
{
    let ghost s = views(v@);
    let mut lo: usize = 0;
    let mut hi: usize = v.len();
    while lo < hi
        invariant
            0 <= lo <= hi <= v@.len(),
            s == views(v@),
            is_sorted::<T>(s),
            x.inv(),
            forall|i: int| 0 <= i < v@.len() ==> (#[trigger] v@[i]).inv(),
            forall|i: int| 0 <= i < lo ==> T::after(x@, #[trigger] s[i]),
            forall|i: int| hi <= i < s.len() ==> !T::after(x@, #[trigger] s[i]),
        decreases hi - lo,
    {
        let mid = lo + (hi - lo) / 2;
        if x.ranks_after(&v[mid]) {
            assert forall|i: int| 0 <= i < mid + 1 implies T::after(x@, #[trigger] s[i]) by {
                if i < mid {
                    T::lemma_transitive(x@, s[i], s[mid as int]);
                }
            }
            lo = mid + 1;
        } else {
            assert forall|i: int| mid <= i < s.len() implies !T::after(x@, #[trigger] s[i]) by {
                if i > mid {
                    T::lemma_transitive(x@, s[mid as int], s[i]);
                }
            }
            hi = mid;
        }
    }
    proof {
        lemma_lower_pos_is::<T>(s, x@, lo as int);
    }
    lo
}

/// Sorts `v` stably: values that rank equally keep their relative order.
pub fn sort_stable<T: Ranked>(v: Vec<T>) -> (r: Vec<T>)
    requires
        forall|i: int| 0 <= i < v@.len() ==> (#[trigger] v@[i]).inv(),
    ensures
        views(r@) == stable_sort::<T>(views(v@)),
        forall|i: int| 0 <= i < r@.len() ==> (#[trigger] r@[i]).inv(),
{
    let ghost orig = v@;
    let ghost n = v@.len();
    let mut v = v;
    let mut out: Vec<T> = Vec::new();
    assert(views(orig).subrange(n as int, n as int) =~= Seq::<T::V>::empty());
    while v.len() > 0
        invariant
            v@ == orig.take(v@.len() as int),
            v@.len() <= n,
            n == orig.len(),
            forall|i: int| 0 <= i < orig.len() ==> (#[trigger] orig[i]).inv(),
            forall|i: int| 0 <= i < out@.len() ==> (#[trigger] out@[i]).inv(),
            views(out@) == stable_sort::<T>(views(orig).subrange(v@.len() as int, n as int)),
        decreases v@.len(),
    {
        let ghost k = v@.len() - 1;
        let x = v.pop().unwrap();
        assert(x == orig[k]);
        proof {
            lemma_stable_sort::<T>(views(orig).subrange(k + 1, n as int));
        }
        let pos = lower_bound(&out, &x);
        proof {
            lemma_lower_pos::<T>(views(out@), x@);
        }
        let ghost before = out@;
        out.insert(pos, x);
        proof {
            let sub = views(orig).subrange(k, n as int);
            assert(sub.drop_first() =~= views(orig).subrange(k + 1, n as int));
            assert(sub[0] == x@);
            assert(views(out@) =~= views(before).insert(pos as int, x@));
            assert(v@ =~= orig.take(v@.len() as int));
        }
    }
    assert(views(orig).subrange(0, n as int) =~= views(orig));
    out
}

/// The elements of `v` in reverse order.
pub fn reversed<T>(v: Vec<T>) -> (r: Vec<T>)
    ensures
        r@ == v@.reverse(),
{
    let ghost orig = v@;
    let ghost n = v@.len();
    let mut v = v;
    let mut out: Vec<T> = Vec::new();
    while v.len() > 0
        invariant
            n == orig.len(),
            v@.len() <= n,
            v@ == orig.take(v@.len() as int),
            out@ == orig.subrange(v@.len() as int, n as int).reverse(),
        decreases v@.len(),
    {
        let x = v.pop().unwrap();
        out.push(x);
        assert(out@ =~= orig.subrange(v@.len() as int, n as int).reverse());
        assert(v@ =~= orig.take(v@.len() as int));
    }
    assert(orig.subrange(0, n as int) =~= orig);
    out
}

} // verus!
