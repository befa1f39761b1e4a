//! Quicksort: two-pointer in-place partition around the last element, then
//! recursion on both sides of the pivot's final position. Average
//! `O(n log n)`; the worst case (already sorted or adversarial input)
//! degrades to `O(n^2)` comparisons and recursion depth `O(n)`.

use vstd::prelude::*;
use crate::order::SortOrd;
use crate::order::gt;
use crate::order::sorted;
use crate::order::sorted_rng;
use crate::facts::same_outside;
use crate::facts::lemma_perm_rng_full;
use crate::facts::lemma_perm_rng_all;
use crate::utils::swap;

verus! {

/// Sort the range `[lo, hi)` in place.
fn quick_sort_inner<T: SortOrd>(arr: &mut Vec<T>, lo: usize, hi: usize)
    requires
        lo <= hi <= old(arr)@.len(),
    ensures
        final(arr)@.len() == old(arr)@.len(),
        final(arr)@.to_multiset() == old(arr)@.to_multiset(),
        same_outside(old(arr)@, final(arr)@, lo as int, hi as int),
        sorted_rng::<T>(final(arr)@, lo as int, hi as int),
    decreases hi - lo,
{
    proof {
        T::lt_laws();
    }
    if hi - lo < 2 {
        return ;
    }
    let ghost s0 = arr@;
    let last = hi - 1;
    let ghost p = arr@[last as int];
    let mut l = lo;
    let mut r = last;
    while l < r
        invariant
            lo <= l <= r <= last < arr@.len(),
            last == hi - 1,
            arr@.len() == s0.len(),
            arr@[last as int] == p,
            arr@.to_multiset() == s0.to_multiset(),
            same_outside(s0, arr@, lo as int, hi as int),
            forall|k: int| lo <= k < l ==> !T::lt_spec(p, #[trigger] arr@[k]),
            forall|k: int| r <= k < last ==> T::lt_spec(p, #[trigger] arr@[k]),
        decreases r - l,
    {
        proof {
            T::lt_laws();
        }
        if gt(&arr[l], &arr[last]) {
            r -= 1;
            swap(arr, l, r);
        } else {
            l += 1;
        }
    }
    swap(arr, l, last);
    let ghost s2 = arr@;
    proof {
        assert(s2[l as int] == p);
        assert forall|k: int| l < k < hi implies T::lt_spec(p, #[trigger] s2[k]) by {
            if k == last {
                assert(T::lt_spec(p, arr@[k]));
            }
        }
    }
    quick_sort_inner(arr, lo, l);
    let ghost s3 = arr@;
    proof {
        T::lt_laws();
        lemma_perm_rng_full(s2, s3, lo as int, l as int);
        assert forall|k: int| lo <= k < l implies !T::lt_spec(p, #[trigger] s3[k]) by {
            lemma_perm_rng_all(s2, s3, lo as int, l as int, |x: T| !T::lt_spec(p, x));
        }
        assert(s3[l as int] == p);
        assert forall|k: int| l < k < hi implies T::lt_spec(p, #[trigger] s3[k]) by {
            assert(s3[k] == s2[k]);
        }
    }
    quick_sort_inner(arr, l + 1, hi);
    let ghost s4 = arr@;
    proof {
        T::lt_laws();
        lemma_perm_rng_full(s3, s4, l + 1, hi as int);
        assert forall|k: int| l < k < hi implies T::lt_spec(p, #[trigger] s4[k]) by {
            lemma_perm_rng_all(s3, s4, l + 1, hi as int, |x: T| T::lt_spec(p, x));
        }
        assert(s4[l as int] == p);
        assert forall|k: int| lo <= k < l implies !T::lt_spec(p, #[trigger] s4[k]) by {
            assert(s4[k] == s3[k]);
        }
        assert(sorted_rng::<T>(s4, lo as int, l as int));
        assert forall|i: int, j: int| lo <= i <= j < hi implies !(#[trigger] T::lt_spec(
            s4[j],
            s4[i],
        )) by {
            if j < l {
            } else if i > l {
            } else if i == l && j == l {
            } else if i < l && j == l {
                assert(!T::lt_spec(p, s4[i]));
            } else if i == l && j > l {
                assert(T::lt_spec(p, s4[j]));
            } else {
                assert(!T::lt_spec(p, s4[i]));
                assert(T::lt_spec(p, s4[j]));
            }
        }
    }
}

/// Quicksort.
///
/// After the call the vector is non-decreasing under the element order and
/// holds exactly the elements it held before.
pub fn quick_sort<T: SortOrd>(arr: &mut Vec<T>)
    ensures
        final(arr)@.len() == old(arr)@.len(),
        sorted::<T>(final(arr)@),
        final(arr)@.to_multiset() == old(arr)@.to_multiset(),
{
    let n = arr.len();
    quick_sort_inner(arr, 0, n);
}

} // verus!
