//! Selection of the k-th smallest element in linear time, by the median of
//! medians.

use crate::sort::insert_sort;
use crate::sort::lemma_element_comes_from;
use crate::sort::lemma_rearranged_refl;
use crate::sort::lemma_rearranged_within;
use crate::sort::lemma_swap_same_elements;
use crate::sort::rearranged;
use vstd::prelude::*;

verus! {

/// Exchanges the elements at places `i` and `j`.
fn swap(a: &mut [i32], i: usize, j: usize)
    requires
        i < old(a)@.len(),
        j < old(a)@.len(),
    ensures
        final(a)@ == old(a)@.update(i as int, old(a)@[j as int]).update(j as int, old(a)@[i as int]),
{
    let t = a[i];
    a[i] = a[j];
    a[j] = t;
}

/// Exchanges two elements of the stretch from `l` to `r`.
fn swap_between(a: &mut [i32], l: usize, r: usize, i: usize, j: usize)
    requires
        l <= i <= r < old(a)@.len(),
        l <= j <= r,
    ensures
        rearranged(old(a)@, final(a)@, l as int, r as int),
        final(a)@ == swapped(old(a)@, i as int, j as int),
{
    swap(a, i, j);
    proof {
        lemma_swap_same_elements(old(a)@, l as int, r as int, i as int, j as int);
    }
}

/// Puts the part from `from` to `to` of the stretch from `l` to `r` in
/// ascending order.
fn sort_between(a: &mut [i32], l: usize, r: usize, from: usize, to: usize)
    requires
        l <= from <= to <= r < old(a)@.len(),
    ensures
        crate::sort::sorted_from(old(a)@, final(a)@, from as int, to as int),
        rearranged(old(a)@, final(a)@, l as int, r as int),
{
    insert_sort(a, from, to);
    proof {
        if from < to {
            lemma_rearranged_within(old(a)@, a@, l as int, r as int, from as int, to as int);
        } else {
            lemma_rearranged_refl(old(a)@, l as int, r as int);
        }
    }
}

/// Picks the place of a pivot for the stretch from `l` to `r` among the
/// medians of its groups of five, which it gathers at the stretch's start.
fn find_mid(a: &mut [i32], l: usize, r: usize) -> (p: usize)
    requires
        l <= r < old(a)@.len(),
    ensures
        l <= p <= r,
        rearranged(old(a)@, final(a)@, l as int, r as int),
        (final(a)@, p as int) == mid_of(old(a)@, l as int, r as int),
    decreases r - l,
{
    proof {
        lemma_rearranged_refl(a@, l as int, r as int);
    }
    let len = a.len();
    if l == r {
        return l;
    }
    let mut n: usize = 0;
    let mut i = l;
    while r - i > 5
        invariant
            l <= i <= r < a@.len(),
            a@.len() == len,
            n <= i - l,
            rearranged(old(a)@, a@, l as int, r as int),
            medians_gathered(old(a)@, l as int, r as int, l as int) == medians_gathered(
                a@,
                l as int,
                r as int,
                i as int,
            ),
        decreases r - i,
    {
        let ghost before = a@;
        sort_between(a, l, r, i, i + 4);
        proof {
            crate::sort::lemma_with_sorted(before, a@, i as int, i + 4);
        }
        n = i - l;
        swap_between(a, l, r, l + n / 5, i + 2);
        i += 5;
    }
    let num = r - i + 1;
    if num > 0 {
        let ghost before = a@;
        sort_between(a, l, r, i, i + num - 1);
        proof {
            crate::sort::lemma_with_sorted(before, a@, i as int, r as int);
        }
        n = i - l;
        swap_between(a, l, r, l + n / 5, i + num / 2);
    }
    n /= 5;
    if n == l {
        l
    } else {
        let ghost mid = a@;
        let p = find_mid(a, l, l + n);
        proof {
            lemma_rearranged_within(mid, a@, l as int, r as int, l as int, l + n);
        }
        p
    }
}

/// Splits the stretch from `l` to `r` around the element at place `p`:
/// returns the place `k` where that element ends up, with nothing greater
/// before it and nothing smaller after it.
fn partition(a: &mut [i32], l: usize, r: usize, p: usize) -> (k: usize)
    requires
        l <= p <= r < old(a)@.len(),
    ensures
        l <= k <= r,
        rearranged(old(a)@, final(a)@, l as int, r as int),
        final(a)@[k as int] == old(a)@[p as int],
        forall|x: int| l <= x < k ==> final(a)@[x] <= final(a)@[k as int],
        forall|x: int| k < x <= r ==> final(a)@[x] >= final(a)@[k as int],
{
    swap_between(a, l, r, p, l);
    crate::sort::partition(a, l, r)
}

/// Rearranges the stretch of `a` from place `l` to place `r` so that its
/// `k`-th smallest element (counting from one) stands at place `l + k - 1`,
/// with nothing greater before it and nothing smaller after it, and returns
/// that element.
pub fn bfprt(a: &mut [i32], l: usize, r: usize, k: usize) -> (x: i32)
    requires
        l <= r < old(a)@.len(),
        1 <= k <= r - l + 1,
    ensures
        rearranged(old(a)@, final(a)@, l as int, r as int),
        x == final(a)@[l + k - 1],
        forall|i: int| l <= i < l + k - 1 ==> final(a)@[i] <= x,
        forall|i: int| l + k - 1 < i <= r ==> final(a)@[i] >= x,
    decreases r - l,
{
    let len = a.len();
    let p = find_mid(a, l, r);
    let i = partition(a, l, r, p);
    let m = i - l + 1;
    let ghost parted = a@;
    let ghost pivot = a@[i as int];
    if m == k {
        a[i]
    } else if m > k {
        let x = bfprt(a, l, i - 1, k);
        proof {
            let fin = a@;
            lemma_rearranged_within(parted, fin, l as int, r as int, l as int, i - 1);
            assert forall|y: int| l <= y <= i - 1 implies fin[y] <= pivot by {
                lemma_element_comes_from(parted, fin, l as int, i - 1, y);
            }
            assert(fin[i as int] == pivot);
            assert forall|y: int| l + k - 1 < y <= r implies fin[y] >= x by {
                if y >= i {
                    assert(fin[y] == parted[y]);
                    assert(fin[l + k - 1] <= pivot);
                }
            }
        }
        x
    } else {
        let x = bfprt(a, i + 1, r, k - m);
        proof {
            let fin = a@;
            lemma_rearranged_within(parted, fin, l as int, r as int, i + 1, r as int);
            assert forall|y: int| i + 1 <= y <= r implies fin[y] >= pivot by {
                lemma_element_comes_from(parted, fin, i + 1, r as int, y);
                let w = choose|w: int| i + 1 <= w <= r && parted[w] == fin[y];
                assert(parted[w] >= pivot);
            }
            assert forall|y: int| l <= y < l + k - 1 implies fin[y] <= x by {
                if y <= i {
                    assert(fin[y] == parted[y]);
                    assert(fin[l + k - 1] >= pivot);
                }
            }
        }
        x
    }
}

/// `s` with the elements at places `i` and `j` exchanged.
pub open spec fn swapped(s: Seq<i32>, i: int, j: int) -> Seq<i32> {
    s.update(i, s[j]).update(j, s[i])
}

/// What gathering the medians makes of the stretch from `l` to `r`, from
/// place `i` on: as long as more than six places are left, the next five
/// are put in order and their middle one is exchanged with the element at
/// the next place for a median, counted from `l`. Gives the slice and the
/// place where the last group begins.
pub open spec fn medians_gathered(s: Seq<i32>, l: int, r: int, i: int) -> (Seq<i32>, int)
    decreases r - i,
{
    if r - i > 5 {
        medians_gathered(swapped(crate::sort::with_sorted(s, i, i + 4), l + (i - l) / 5, i + 2), l, r, i + 5)
    } else {
        (s, i)
    }
}

/// The last group begins within the stretch.
pub proof fn lemma_last_group(s: Seq<i32>, l: int, r: int, i: int)
    requires
        l <= i <= r,
    ensures
        i <= medians_gathered(s, l, r, i).1 <= r,
    decreases r - i,
{
    if r - i > 5 {
        lemma_last_group(swapped(crate::sort::with_sorted(s, i, i + 4), l + (i - l) / 5, i + 2), l, r, i + 5);
    }
}

/// What picking a pivot makes of the stretch from `l` to `r`, and the
/// place picked. A stretch of one place is left as it is and gives that
/// place. Else the medians of the groups of five are gathered at the
/// start of the stretch; the last group, of up to six, is put in order
/// and its middle one gathered too. When the number of full groups equals
/// `l`, the place picked is `l`; else a pivot is picked among the
/// gathered medians in the same way.
pub open spec fn mid_of(s: Seq<i32>, l: int, r: int) -> (Seq<i32>, int)
    decreases r - l,
{
    if l >= r {
        (s, l)
    } else {
        let g = medians_gathered(s, l, r, l);
        let i = g.1;
        let num = r - i + 1;
        let last = swapped(crate::sort::with_sorted(g.0, i, r), l + (i - l) / 5, i + num / 2);
        let n = (i - l) / 5;
        if n == l {
            (last, l)
        } else {
            proof {
                lemma_last_group(s, l, r, l);
            }
            mid_of(last, l, l + n)
        }
    }
}

} // verus!
