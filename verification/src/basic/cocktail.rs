//! Cocktail sort: bubble sort with alternating directions. Each round a
//! forward pass fixes the greatest element at the right end of the active
//! range and a backward pass fixes the least at the left end, so the range
//! shrinks from both sides.

use vstd::prelude::*;
use crate::order::SortOrd;
use crate::order::sorted;
use crate::order::sorted_rng;
use crate::facts::same_outside;
use crate::facts::ties_of;
use crate::facts::lemma_adjacent_swap_ties;
use crate::facts::lemma_sorted_ties_unique;
use crate::basic::insert::stable_sorted;
use crate::basic::insert::lemma_stable_sorted_sorted;
use crate::basic::insert::lemma_stable_sorted_multiset;
use crate::basic::insert::lemma_stable_sorted_keeps_ties;
use crate::facts::lemma_perm_rng_full;
use crate::facts::lemma_perm_rng_all;
use crate::facts::lemma_adjacent_sorted;
use crate::basic::bubble::bubble_pass;
use crate::utils::swap;

verus! {

/// One adjacent-pair pass over `[lo, hi)` from right to left. Reports
/// whether anything moved; afterwards the first position of the range holds
/// an element that comes after no other element of the range. An element at
/// the last position that nothing of the range comes after stays there.
fn bubble_back_pass<T: SortOrd>(arr: &mut Vec<T>, lo: usize, hi: usize) -> (edited: bool)
    requires
        lo < hi <= old(arr)@.len(),
    ensures
        final(arr)@.len() == old(arr)@.len(),
        final(arr)@.to_multiset() == old(arr)@.to_multiset(),
        same_outside(old(arr)@, final(arr)@, lo as int, hi as int),
        forall|k: int|
            lo <= k < hi ==> !T::lt_spec(#[trigger] final(arr)@[k], final(arr)@[lo as int]),
        !edited ==> final(arr)@ == old(arr)@,
        !edited ==> sorted_rng::<T>(final(arr)@, lo as int, hi as int),
        edited ==> hi - lo >= 2,
        (forall|m: int| lo <= m < hi ==> !T::lt_spec(old(arr)@[hi - 1], #[trigger] old(arr)@[m]))
            ==> final(arr)@[hi - 1] == old(arr)@[hi - 1],
        forall|x: T| #![trigger ties_of::<T>(final(arr)@, x)]
            ties_of::<T>(final(arr)@, x) == ties_of::<T>(old(arr)@, x),
{
    proof {
        T::lt_laws();
    }
    let ghost s0 = arr@;
    let ghost guarded = forall|m: int|
        lo <= m < hi ==> !T::lt_spec(s0[hi - 1], #[trigger] s0[m]);
    let mut edited = false;
    let mut k: usize = hi - 1;
    while k > lo
        invariant
            lo < hi <= arr@.len(),
            arr@.len() == s0.len(),
            lo <= k <= hi - 1,
            arr@.to_multiset() == s0.to_multiset(),
            same_outside(s0, arr@, lo as int, hi as int),
            forall|m: int| k <= m < hi ==> !T::lt_spec(#[trigger] arr@[m], arr@[k as int]),
            !edited ==> arr@ == s0,
            !edited ==> forall|m: int|
                k <= m < hi - 1 ==> !(#[trigger] T::lt_spec(arr@[m + 1], arr@[m])),
            edited ==> hi - lo >= 2,
            guarded ==> arr@[hi - 1] == s0[hi - 1],
            guarded ==> forall|m: int|
                lo <= m < hi ==> !T::lt_spec(arr@[hi - 1], #[trigger] arr@[m]),
            forall|x: T| #![trigger ties_of::<T>(arr@, x)]
                ties_of::<T>(arr@, x) == ties_of::<T>(s0, x),
        decreases k,
    {
        proof {
            T::lt_laws();
        }
        if T::lt(&arr[k], &arr[k - 1]) {
            let ghost sp = arr@;
            swap(arr, k - 1, k);
            proof {
                lemma_adjacent_swap_ties::<T>(sp, arr@, k - 1);
                assert forall|x: T| #![trigger ties_of::<T>(arr@, x)]
                    ties_of::<T>(arr@, x) == ties_of::<T>(s0, x) by {
                    assert(ties_of::<T>(arr@, x) == ties_of::<T>(sp, x));
                    assert(ties_of::<T>(sp, x) == ties_of::<T>(s0, x));
                }
            }
            edited = true;
        }
        k -= 1;
    }
    proof {
        if !edited {
            lemma_adjacent_sorted::<T>(arr@, lo as int, hi as int);
        }
    }
    edited
}

/// Cocktail sort (bidirectional bubble sort).
///
/// After the call the vector holds the canonical stable non-decreasing
/// arrangement of its old elements: sorted, the same multiset, and ties in
/// their original order.
pub fn cocktail_sort<T: SortOrd>(arr: &mut Vec<T>)
    ensures
        final(arr)@.len() == old(arr)@.len(),
        sorted::<T>(final(arr)@),
        final(arr)@.to_multiset() == old(arr)@.to_multiset(),
        final(arr)@ == stable_sorted::<T>(old(arr)@),
{
    proof {
        T::lt_laws();
    }
    let mut lo: usize = 0;
    let mut hi: usize = arr.len();
    let mut edited = true;
    while edited && hi - lo > 1
        invariant
            lo <= hi <= arr@.len(),
            arr@.len() == old(arr)@.len(),
            arr@.to_multiset() == old(arr)@.to_multiset(),
            // every element before the active range is not after anything past it
            forall|i: int, j: int|
                0 <= i < lo && i < j < arr@.len() ==> !(#[trigger] T::lt_spec(arr@[j], arr@[i])),
            // every element past the active range is not before anything up to it
            forall|i: int, j: int|
                hi <= j < arr@.len() && 0 <= i < j ==> !(#[trigger] T::lt_spec(arr@[j], arr@[i])),
            !edited ==> sorted_rng::<T>(arr@, lo as int, hi as int),
            forall|x: T| #![trigger ties_of::<T>(arr@, x)]
                ties_of::<T>(arr@, x) == ties_of::<T>(old(arr)@, x),
        decreases hi - lo,
    {
        let ghost s1 = arr@;
        let e1 = bubble_pass(arr, lo, hi);
        let ghost s2 = arr@;
        proof {
            T::lt_laws();
            lemma_perm_rng_full(s1, s2, lo as int, hi as int);
            assert forall|i: int, j: int|
                0 <= i < lo && i < j < s2.len() implies !(#[trigger] T::lt_spec(
                s2[j],
                s2[i],
            )) by {
                if lo <= j < hi {
                    lemma_perm_rng_all(
                        s1,
                        s2,
                        lo as int,
                        hi as int,
                        |x: T| !T::lt_spec(x, s2[i]),
                    );
                }
            }
            assert forall|i: int, j: int|
                hi <= j < s2.len() && 0 <= i < j implies !(#[trigger] T::lt_spec(
                s2[j],
                s2[i],
            )) by {
                if lo <= i < hi {
                    lemma_perm_rng_all(
                        s1,
                        s2,
                        lo as int,
                        hi as int,
                        |x: T| !T::lt_spec(s2[j], x),
                    );
                }
            }
        }
        let e2 = bubble_back_pass(arr, lo, hi);
        let ghost s3 = arr@;
        proof {
            T::lt_laws();
            assert forall|x: T| #![trigger ties_of::<T>(s3, x)]
                ties_of::<T>(s3, x) == ties_of::<T>(old(arr)@, x) by {
                assert(ties_of::<T>(s3, x) == ties_of::<T>(s2, x));
                assert(ties_of::<T>(s2, x) == ties_of::<T>(s1, x));
                assert(ties_of::<T>(s1, x) == ties_of::<T>(old(arr)@, x));
            }
            lemma_perm_rng_full(s2, s3, lo as int, hi as int);
            // the two outer regions keep their separation across the pass
            assert forall|i: int, j: int|
                0 <= i < lo && i < j < s3.len() implies !(#[trigger] T::lt_spec(
                s3[j],
                s3[i],
            )) by {
                if lo <= j < hi {
                    lemma_perm_rng_all(
                        s2,
                        s3,
                        lo as int,
                        hi as int,
                        |x: T| !T::lt_spec(x, s3[i]),
                    );
                }
            }
            assert forall|i: int, j: int|
                hi <= j < s3.len() && 0 <= i < j implies !(#[trigger] T::lt_spec(
                s3[j],
                s3[i],
            )) by {
                if lo <= i < hi {
                    lemma_perm_rng_all(
                        s2,
                        s3,
                        lo as int,
                        hi as int,
                        |x: T| !T::lt_spec(s3[j], x),
                    );
                }
            }
            // the maximum fixed by the forward pass stayed at `hi - 1`
            assert(s3[hi - 1] == s2[hi - 1]);
            assert forall|i: int| lo <= i < hi - 1 implies !(#[trigger] T::lt_spec(
                s3[hi - 1],
                s3[i],
            )) by {
                lemma_perm_rng_all(
                    s2,
                    s3,
                    lo as int,
                    hi as int,
                    |x: T| !T::lt_spec(s2[hi - 1], x),
                );
            }
        }
        edited = e1 || e2;
        lo += 1;
        hi -= 1;
        proof {
            // re-establish the two separations for the narrowed range
            assert forall|i: int, j: int|
                0 <= i < lo && i < j < s3.len() implies !(#[trigger] T::lt_spec(
                s3[j],
                s3[i],
            )) by {
                if i == lo - 1 {
                    assert(!T::lt_spec(s3[j], s3[lo - 1]));
                }
            }
            assert forall|i: int, j: int|
                hi <= j < s3.len() && 0 <= i < j implies !(#[trigger] T::lt_spec(
                s3[j],
                s3[i],
            )) by {
                if j == hi {
                    assert(!T::lt_spec(s3[hi as int], s3[i]));
                }
            }
            if !edited {
                assert(sorted_rng::<T>(s3, lo - 1, hi + 1));
            }
        }
    }
    proof {
        T::lt_laws();
        assert forall|i: int, j: int| 0 <= i <= j < arr@.len() implies !(#[trigger] T::lt_spec(
            arr@[j],
            arr@[i],
        )) by {
            if i < lo {
            } else if j >= hi {
            } else if hi - lo <= 1 {
                assert(i == j);
            } else {
                assert(!T::lt_spec(arr@[j], arr@[i]));
            }
        }
        // sorted, same elements, same tie order: that pins the canonical
        // stable arrangement
        lemma_stable_sorted_sorted::<T>(old(arr)@);
        lemma_stable_sorted_multiset::<T>(old(arr)@);
        assert forall|x: T| #![trigger ties_of::<T>(arr@, x)]
            ties_of::<T>(arr@, x) == ties_of::<T>(stable_sorted::<T>(old(arr)@), x) by {
            lemma_stable_sorted_keeps_ties::<T>(old(arr)@, x);
        }
        lemma_sorted_ties_unique::<T>(arr@, stable_sorted::<T>(old(arr)@));
    }
}

} // verus!
