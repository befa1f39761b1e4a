//! Bubble sort: repeated adjacent-pair passes. Every pass carries the
//! greatest remaining element to the end of the active range, and a pass
//! without a single swap means the range is already sorted.

use vstd::prelude::*;
use crate::order::SortOrd;
use crate::order::gt;
use crate::order::sorted;
use crate::order::sorted_rng;
use crate::facts::same_outside;
use crate::facts::ties_of;
use crate::facts::lemma_adjacent_swap_ties;
use crate::facts::lemma_sorted_ties_unique;
use crate::basic::insert::stable_sorted;
use crate::basic::insert::lemma_stable_sorted_sorted;
use crate::basic::insert::lemma_stable_sorted_multiset;
use crate::basic::insert::lemma_stable_sorted_keeps_ties;
use crate::facts::perm_rng;
use crate::facts::lemma_perm_rng_full;
use crate::facts::lemma_perm_rng_all;
use crate::facts::lemma_adjacent_sorted;
use crate::utils::swap;

verus! {

/// One adjacent-pair pass over `[lo, hi)`. Reports whether anything moved;
/// afterwards the last position of the range holds an element no other
/// element of the range comes after.
pub(crate) fn bubble_pass<T: SortOrd>(arr: &mut Vec<T>, lo: usize, hi: usize) -> (edited: bool)
    requires
        lo < hi <= old(arr)@.len(),
    ensures
        final(arr)@.len() == old(arr)@.len(),
        final(arr)@.to_multiset() == old(arr)@.to_multiset(),
        same_outside(old(arr)@, final(arr)@, lo as int, hi as int),
        forall|k: int|
            lo <= k < hi ==> !T::lt_spec(final(arr)@[hi - 1], #[trigger] final(arr)@[k]),
        !edited ==> final(arr)@ == old(arr)@,
        !edited ==> sorted_rng::<T>(final(arr)@, lo as int, hi as int),
        edited ==> hi - lo >= 2,
        forall|x: T| #![trigger ties_of::<T>(final(arr)@, x)]
            ties_of::<T>(final(arr)@, x) == ties_of::<T>(old(arr)@, x),
{
    proof {
        T::lt_laws();
    }
    let ghost s0 = arr@;
    let mut edited = false;
    let mut k: usize = lo;
    while k + 1 < hi
        invariant
            lo < hi <= arr@.len(),
            arr@.len() == s0.len(),
            lo <= k <= hi - 1,
            arr@.to_multiset() == s0.to_multiset(),
            same_outside(s0, arr@, lo as int, hi as int),
            forall|m: int| lo <= m <= k ==> !T::lt_spec(arr@[k as int], #[trigger] arr@[m]),
            !edited ==> arr@ == s0,
            !edited ==> forall|m: int|
                lo <= m < k ==> !(#[trigger] T::lt_spec(arr@[m + 1], arr@[m])),
            edited ==> hi - lo >= 2,
            forall|x: T| #![trigger ties_of::<T>(arr@, x)]
                ties_of::<T>(arr@, x) == ties_of::<T>(s0, x),
        decreases hi - k,
    {
        proof {
            T::lt_laws();
        }
        if gt(&arr[k], &arr[k + 1]) {
            let ghost sp = arr@;
            swap(arr, k, k + 1);
            proof {
                lemma_adjacent_swap_ties::<T>(sp, arr@, k as int);
                assert forall|x: T| #![trigger ties_of::<T>(arr@, x)]
                    ties_of::<T>(arr@, x) == ties_of::<T>(s0, x) by {
                    assert(ties_of::<T>(arr@, x) == ties_of::<T>(sp, x));
                    assert(ties_of::<T>(sp, x) == ties_of::<T>(s0, x));
                }
            }
            edited = true;
        }
        k += 1;
    }
    proof {
        if !edited {
            lemma_adjacent_sorted::<T>(arr@, lo as int, hi as int);
        }
    }
    edited
}

/// Bubble sort.
///
/// After the call the vector holds the canonical stable non-decreasing
/// arrangement of its old elements: sorted, the same multiset, and ties in
/// their original order.
pub fn bubble_sort<T: SortOrd>(arr: &mut Vec<T>)
    ensures
        final(arr)@.len() == old(arr)@.len(),
        sorted::<T>(final(arr)@),
        final(arr)@.to_multiset() == old(arr)@.to_multiset(),
        final(arr)@ == stable_sorted::<T>(old(arr)@),
{
    proof {
        T::lt_laws();
    }
    if arr.len() < 2 {
        proof {
            lemma_stable_sorted_sorted::<T>(arr@);
            lemma_stable_sorted_multiset::<T>(arr@);
            crate::basic::insert::lemma_stable_sorted_len::<T>(arr@);
            crate::facts::lemma_short_perm_eq(stable_sorted::<T>(arr@), arr@);
        }
        return ;
    }
    let ghost n = arr@.len() as int;
    let mut r = arr.len();
    let mut edited = true;
    while edited
        invariant
            r <= arr@.len(),
            arr@.len() == old(arr)@.len(),
            arr@.to_multiset() == old(arr)@.to_multiset(),
            sorted_rng::<T>(arr@, r as int, arr@.len() as int),
            forall|i: int, j: int|
                0 <= i < r <= j < arr@.len() ==> !(#[trigger] T::lt_spec(arr@[j], arr@[i])),
            !edited ==> sorted_rng::<T>(arr@, 0, r as int),
            edited ==> r >= 1,
            forall|x: T| #![trigger ties_of::<T>(arr@, x)]
                ties_of::<T>(arr@, x) == ties_of::<T>(old(arr)@, x),
        decreases r,
    {
        let ghost s1 = arr@;
        let e = bubble_pass(arr, 0, r);
        proof {
            T::lt_laws();
            assert forall|x: T| #![trigger ties_of::<T>(arr@, x)]
                ties_of::<T>(arr@, x) == ties_of::<T>(old(arr)@, x) by {
                assert(ties_of::<T>(arr@, x) == ties_of::<T>(s1, x));
                assert(ties_of::<T>(s1, x) == ties_of::<T>(old(arr)@, x));
            }
            let s2 = arr@;
            lemma_perm_rng_full(s1, s2, 0, r as int);
            assert(perm_rng(s1, s2, 0, r as int));
            // elements past the range did not move, and the range is only
            // permuted, so the old separation between the two still holds
            assert forall|i: int, j: int| 0 <= i < r && r <= j < s2.len() implies !(
            #[trigger] T::lt_spec(s2[j], s2[i])) by {
                lemma_perm_rng_all(s1, s2, 0, r as int, |x: T| !T::lt_spec(s2[j], x));
            }
            assert forall|i: int, j: int|
                0 <= i < r - 1 && r - 1 <= j < s2.len() implies !(#[trigger] T::lt_spec(
                s2[j],
                s2[i],
            )) by {
                if j == r - 1 {
                    assert(!T::lt_spec(s2[r - 1], s2[i]));
                }
            }
            // the range's new last element extends the sorted suffix
            assert(sorted_rng::<T>(s2, r - 1, s2.len() as int)) by {
                assert forall|i: int, j: int| r - 1 <= i <= j < s2.len() implies !(
                #[trigger] T::lt_spec(s2[j], s2[i])) by {
                    if i == j {
                    } else if i == r - 1 {
                        assert(!T::lt_spec(s2[j], s2[i]));
                    } else {
                        assert(!T::lt_spec(s2[j], s2[i]));
                    }
                }
            }
        }
        r -= 1;
        edited = e;
    }
    proof {
        T::lt_laws();
        assert forall|i: int, j: int| 0 <= i <= j < arr@.len() implies !(#[trigger] T::lt_spec(
            arr@[j],
            arr@[i],
        )) by {
            if i < r && j >= r {
            } else if j < r {
                assert(!T::lt_spec(arr@[j], arr@[i]));
            } else {
                assert(!T::lt_spec(arr@[j], arr@[i]));
            }
        }
        // sorted, same elements, same tie order: that pins the canonical
        // stable arrangement
        lemma_stable_sorted_sorted::<T>(old(arr)@);
        lemma_stable_sorted_multiset::<T>(old(arr)@);
        assert forall|x: T| #![trigger ties_of::<T>(arr@, x)]
            ties_of::<T>(arr@, x) == ties_of::<T>(stable_sorted::<T>(old(arr)@), x) by {
            lemma_stable_sorted_keeps_ties::<T>(old(arr)@, x);
        }
        lemma_sorted_ties_unique::<T>(arr@, stable_sorted::<T>(old(arr)@));
    }
}

} // verus!
