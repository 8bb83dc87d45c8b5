//! In-place sorting of a stretch of a slice.

use vstd::prelude::*;
use vstd::seq_lib::to_multiset_update;

verus! {

/// Whether `s` is in ascending order from place `l` to place `r`, both
/// included.
pub open spec fn sorted_between(s: Seq<i32>, l: int, r: int) -> bool {
    forall|i: int, j: int| l <= i <= j <= r ==> s[i] <= s[j]
}

/// Whether `s` and `t` agree everywhere but from place `l` to place `r`.
pub open spec fn same_outside(s: Seq<i32>, t: Seq<i32>, l: int, r: int) -> bool {
    &&& s.len() == t.len()
    &&& forall|i: int| 0 <= i < s.len() && (i < l || i > r) ==> s[i] == t[i]
}

/// Whether `t` holds, from place `l` to place `r`, the same elements as `s`
/// does there, each as often.
pub open spec fn same_elements(s: Seq<i32>, t: Seq<i32>, l: int, r: int) -> bool {
    s.subrange(l, r + 1).to_multiset() == t.subrange(l, r + 1).to_multiset()
}

/// Whether `t` is `s` with the elements from place `l` to place `r`
/// rearranged and nothing else touched.
pub open spec fn rearranged(s: Seq<i32>, t: Seq<i32>, l: int, r: int) -> bool {
    &&& 0 <= l <= r < s.len()
    &&& same_outside(s, t, l, r)
    &&& same_elements(s, t, l, r)
}

/// Exchanging two elements of a stretch keeps what the stretch holds.
pub proof fn lemma_swap_same_elements(s: Seq<i32>, l: int, r: int, i: int, j: int)
    requires
        0 <= l <= i <= r < s.len(),
        l <= j <= r,
    ensures
        same_elements(s, s.update(i, s[j]).update(j, s[i]), l, r),
{
    let t = s.subrange(l, r + 1);
    let u = s.update(i, s[j]).update(j, s[i]).subrange(l, r + 1);
    assert(u =~= t.update(i - l, t[j - l]).update(j - l, t[i - l]));
    to_multiset_update(t, i - l, t[j - l]);
    to_multiset_update(t.update(i - l, t[j - l]), j - l, t[i - l]);
    assert(t.to_multiset().count(t[i - l]) > 0) by {
        vstd::seq_lib::to_multiset_contains(t, t[i - l]);
        assert(t.contains(t[i - l]));
    }
    assert(t.to_multiset().count(t[j - l]) > 0) by {
        vstd::seq_lib::to_multiset_contains(t, t[j - l]);
        assert(t.contains(t[j - l]));
    }
    assert(u.to_multiset() =~= t.to_multiset());
}

/// An element found in a stretch of `t` is also found in that stretch of
/// `s`, when both hold the same elements.
pub proof fn lemma_element_comes_from(s: Seq<i32>, t: Seq<i32>, l: int, r: int, k: int)
    requires
        0 <= l <= r < s.len(),
        s.len() == t.len(),
        same_elements(s, t, l, r),
        l <= k <= r,
    ensures
        exists|m: int| l <= m <= r && s[m] == t[k],
{
    let ss = s.subrange(l, r + 1);
    let ts = t.subrange(l, r + 1);
    assert(ts[k - l] == t[k]);
    assert(ts.contains(t[k]));
    vstd::seq_lib::to_multiset_contains(ts, t[k]);
    vstd::seq_lib::to_multiset_contains(ss, t[k]);
    assert(ss.contains(t[k]));
    let m = choose|m: int| 0 <= m < ss.len() && ss[m] == t[k];
    assert(s[m + l] == t[k]);
}

/// Rearranging a part of a stretch rearranges the stretch.
pub proof fn lemma_rearranged_within(s: Seq<i32>, t: Seq<i32>, l: int, r: int, a: int, b: int)
    requires
        0 <= l <= a <= b <= r < s.len(),
        rearranged(s, t, a, b),
    ensures
        rearranged(s, t, l, r),
{
    let s0 = s.subrange(l, a);
    let s1 = s.subrange(a, b + 1);
    let s2 = s.subrange(b + 1, r + 1);
    let t0 = t.subrange(l, a);
    let t1 = t.subrange(a, b + 1);
    let t2 = t.subrange(b + 1, r + 1);
    assert(s0 =~= t0);
    assert(s2 =~= t2);
    assert(s.subrange(l, r + 1) =~= s0 + s1 + s2);
    assert(t.subrange(l, r + 1) =~= t0 + t1 + t2);
    vstd::seq_lib::lemma_multiset_commutative(s0, s1);
    vstd::seq_lib::lemma_multiset_commutative(s0 + s1, s2);
    vstd::seq_lib::lemma_multiset_commutative(t0, t1);
    vstd::seq_lib::lemma_multiset_commutative(t0 + t1, t2);
}

/// Leaving a stretch as it is counts as rearranging it.
pub proof fn lemma_rearranged_refl(s: Seq<i32>, l: int, r: int)
    requires
        0 <= l <= r < s.len(),
    ensures
        rearranged(s, s, l, r),
{
}

/// Splits the stretch from `l` to `r` around its first element: returns the
/// place `k` where that element ends up, with nothing greater before it and
/// nothing smaller after it.
pub(crate) fn partition(a: &mut [i32], l: usize, r: usize) -> (k: usize)
    requires
        l <= r < old(a)@.len(),
    ensures
        l <= k <= r,
        rearranged(old(a)@, final(a)@, l as int, r as int),
        final(a)@[k as int] == old(a)@[l as int],
        forall|x: int| l <= x < k ==> final(a)@[x] <= final(a)@[k as int],
        forall|x: int| k < x <= r ==> final(a)@[x] >= final(a)@[k as int],
{
    let mut i = l;
    let mut j = r;
    let pivot = a[l];
    let ghost orig = a@;
    let ghost mut g = a@;
    assert(g =~= a@.update(i as int, pivot));
    while i < j
        invariant
            l <= i <= j <= r < a@.len(),
            a@.len() == orig.len(),
            g == a@.update(i as int, pivot),
            same_elements(orig, g, l as int, r as int),
            same_outside(orig, a@, l as int, r as int),
            forall|x: int| l <= x < i ==> a@[x] <= pivot,
            forall|x: int| j < x <= r ==> a@[x] >= pivot,
        decreases j - i,
    {
        let ghost j0 = j;
        while a[j] >= pivot && i < j
            invariant
                l <= i <= j <= j0 <= r < a@.len(),
                forall|x: int| j < x <= r ==> a@[x] >= pivot,
            decreases j - i,
        {
            j -= 1;
        }
        let ghost a1 = a@;
        a[i] = a[j];
        proof {
            // The hole moves from i to j.
            let g2 = a@.update(j as int, pivot);
            assert(g2 =~= g.update(i as int, g[j as int]).update(j as int, g[i as int]));
            lemma_swap_same_elements(g, l as int, r as int, i as int, j as int);
            g = g2;
        }
        let ghost i0 = i;
        while a[i] <= pivot && i < j
            invariant
                l <= i0 <= i <= j <= r < a@.len(),
                forall|x: int| l <= x < i ==> a@[x] <= pivot,
            decreases j - i,
        {
            i += 1;
        }
        assert(j0 == j ==> i > i0);
        a[j] = a[i];
        proof {
            // The hole moves from j back to i.
            let g3 = a@.update(i as int, pivot);
            assert(g3 =~= g.update(i as int, g[j as int]).update(j as int, g[i as int]));
            lemma_swap_same_elements(g, l as int, r as int, i as int, j as int);
            g = g3;
        }
    }
    a[i] = pivot;
    i
}

/// Sorts the stretch of `a` from place `l` to place `r`, both included.
/// Does nothing unless `l < r`.
pub fn quick_sort(a: &mut [i32], l: usize, r: usize)
    requires
        l < r ==> r < old(a)@.len(),
    ensures
        l < r ==> rearranged(old(a)@, final(a)@, l as int, r as int),
        l < r ==> sorted_between(final(a)@, l as int, r as int),
        !(l < r) ==> final(a)@ == old(a)@,
    decreases
            (if l < r {
                r - l
            } else {
                0
            }),
{
    if l < r {
        let ghost orig = a@;
        let n = a.len();
        assert(r < n);
        let k = partition(a, l, r);
        let ghost parted = a@;
        if k > 0 {
            quick_sort(a, l, k - 1);
        }
        let ghost left = a@;
        assert(left.len() == parted.len());
        quick_sort(a, k + 1, r);
        proof {
            let fin = a@;
            let p = parted[k as int];
            if l < k - 1 {
                lemma_rearranged_within(parted, left, l as int, r as int, l as int, k - 1);
            } 
            assert(rearranged(parted, left, l as int, r as int));
            if k + 1 < r {
                lemma_rearranged_within(left, fin, l as int, r as int, k + 1, r as int);
            }
            assert(rearranged(left, fin, l as int, r as int));
            assert(fin[k as int] == p);
            assert forall|x: int| l <= x < k implies fin[x] <= p by {
                assert(fin[x] == left[x]);
                if l < k - 1 {
                    lemma_element_comes_from(parted, left, l as int, k - 1, x);
                }
            }
            assert forall|x: int| k < x <= r implies fin[x] >= p by {
                if k + 1 < r {
                    lemma_element_comes_from(left, fin, k + 1, r as int, x);
                    let m = choose|m: int| k + 1 <= m <= r && left[m] == fin[x];
                    assert(left[m] == parted[m]);
                }
            }
            assert forall|x: int, y: int| l <= x <= y <= r implies fin[x] <= fin[y] by {
                if y < k {
                    assert(fin[x] == left[x] && fin[y] == left[y]);
                } else if x > k {
                } else {
                }
            }
        }
    }
}

/// Sorts the stretch of `a` from place `l` to place `r`, both included, by
/// insertion. Does nothing unless `l < r`.
pub fn insert_sort(a: &mut [i32], l: usize, r: usize)
    requires
        l < r ==> r < old(a)@.len(),
    ensures
        l < r ==> rearranged(old(a)@, final(a)@, l as int, r as int),
        l < r ==> sorted_between(final(a)@, l as int, r as int),
        !(l < r) ==> final(a)@ == old(a)@,
{
    if l >= r {
        return ;
    }
    let ghost orig = a@;
    let mut i = l + 1;
    while i <= r
        invariant
            l < i <= r + 1,
            r < a@.len(),
            a@.len() == orig.len(),
            same_outside(orig, a@, l as int, r as int),
            same_elements(orig, a@, l as int, r as int),
            sorted_between(a@, l as int, i - 1),
        decreases r + 1 - i,
    {
        if a[i - 1] > a[i] {
            let t = a[i];
            let mut j = i;
            let ghost mut g = a@;
            assert(g =~= a@.update(j as int, t));
            while j > l && a[j - 1] > t
                invariant
                    l <= j <= i <= r < a@.len(),
                    a@.len() == orig.len(),
                    g == a@.update(j as int, t),
                    same_outside(orig, a@, l as int, r as int),
                    same_elements(orig, g, l as int, r as int),
                    forall|x: int, y: int|
                        l <= x <= y <= i && x != j && y != j ==> a@[x] <= a@[y],
                    forall|x: int| j < x <= i ==> a@[x] > t,
                decreases j,
            {
                a[j] = a[j - 1];
                proof {
                    let g2 = a@.update(j - 1, t);
                    assert(g2 =~= g.update(j - 1, g[j as int]).update(j as int, g[j - 1]));
                    lemma_swap_same_elements(g, l as int, r as int, j - 1, j as int);
                    g = g2;
                }
                j -= 1;
            }
            a[j] = t;
            assert(a@ == g);
            assert forall|x: int, y: int| l <= x <= y <= i implies a@[x] <= a@[y] by {
                if x == j && y != j {
                } else if y == j && x != j {
                } else {
                }
            }
        }
        i += 1;
    }
}

/// Whether `t` is `s` with the stretch from place `l` to place `r` put in
/// ascending order and nothing else touched. A stretch of fewer than two
/// places is left as it is.
pub open spec fn sorted_from(s: Seq<i32>, t: Seq<i32>, l: int, r: int) -> bool {
    if l < r {
        rearranged(s, t, l, r) && sorted_between(t, l, r)
    } else {
        t == s
    }
}

/// There is one way only to put a stretch in ascending order.
pub proof fn lemma_sorted_from_unique(s: Seq<i32>, t: Seq<i32>, u: Seq<i32>, l: int, r: int)
    requires
        sorted_from(s, t, l, r),
        sorted_from(s, u, l, r),
    ensures
        t == u,
{
    if l < r {
        let leq = |a: i32, b: i32| a <= b;
        let x = t.subrange(l, r + 1);
        let y = u.subrange(l, r + 1);
        assert(vstd::relations::sorted_by(x, leq)) by {
            assert forall|i: int, j: int| 0 <= i < j < x.len() implies #[trigger] leq(
                x[i],
                x[j],
            ) by {
                assert(t[i + l] <= t[j + l]);
            }
        }
        assert(vstd::relations::sorted_by(y, leq)) by {
            assert forall|i: int, j: int| 0 <= i < j < y.len() implies #[trigger] leq(
                y[i],
                y[j],
            ) by {
                assert(u[i + l] <= u[j + l]);
            }
        }
        assert(vstd::relations::total_ordering(leq)) by {
            assert(vstd::relations::reflexive(leq));
            assert(vstd::relations::antisymmetric(leq));
            assert(vstd::relations::transitive(leq));
            assert(vstd::relations::strongly_connected(leq));
        }
        vstd::seq_lib::lemma_sorted_unique(x, y, leq);
        assert forall|i: int| 0 <= i < t.len() implies t[i] == u[i] by {
            if l <= i <= r {
                assert(x[i - l] == t[i]);
                assert(y[i - l] == u[i]);
            } else {
                assert(t[i] == s[i]);
                assert(u[i] == s[i]);
            }
        }
        assert(t =~= u);
    }
}

/// `s` with the stretch from place `l` to place `r` put in ascending
/// order.
pub open spec fn with_sorted(s: Seq<i32>, l: int, r: int) -> Seq<i32> {
    choose|t: Seq<i32>| sorted_from(s, t, l, r)
}

/// What is `s` with a stretch put in order is `with_sorted` of `s`.
pub proof fn lemma_with_sorted(s: Seq<i32>, t: Seq<i32>, l: int, r: int)
    requires
        sorted_from(s, t, l, r),
    ensures
        t == with_sorted(s, l, r),
{
    lemma_sorted_from_unique(s, t, with_sorted(s, l, r), l, r);
}

} // verus!
