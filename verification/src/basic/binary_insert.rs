//! Insertion sort with a binary search for the insertion point.

use vstd::prelude::*;
use crate::order::SortOrd;
use crate::order::le;
use crate::order::sorted;
use crate::order::sorted_rng;
use crate::basic::insert::rotate_into;
use crate::basic::insert::stable_sorted;
use crate::basic::insert::lemma_advance_stable;
use crate::basic::insert::lemma_stable_sorted_front;
use crate::basic::insert::lemma_stable_sorted_back;

verus! {

/// Binary search over the sorted range `[0, n)` for the insertion point of
/// `ele`: the first index whose element is after `ele`, so ties insert after
/// every equal element.
pub(crate) fn binary_search_upto<T: SortOrd>(arr: &Vec<T>, n: usize, ele: &T) -> (idx: usize)
    requires
        n <= arr@.len(),
        sorted_rng::<T>(arr@, 0, n as int),
    ensures
        idx <= n,
        forall|k: int| 0 <= k < idx ==> !T::lt_spec(*ele, #[trigger] arr@[k]),
        forall|m: int| idx <= m < n ==> T::lt_spec(*ele, #[trigger] arr@[m]),
{
    let mut start: usize = 0;
    let mut end: usize = n;
    while start < end
        invariant
            n <= arr@.len(),
            sorted_rng::<T>(arr@, 0, n as int),
            start <= end <= n,
            forall|k: int| 0 <= k < start ==> !T::lt_spec(*ele, #[trigger] arr@[k]),
            forall|m: int| end <= m < n ==> T::lt_spec(*ele, #[trigger] arr@[m]),
        decreases end - start,
    {
        let mid = start + (end - start) / 2;
        if le(&arr[mid], ele) {
            proof {
                T::lt_laws();
                assert forall|k: int| 0 <= k < mid + 1 implies !T::lt_spec(
                    *ele,
                    #[trigger] arr@[k],
                ) by {
                    assert(!T::lt_spec(arr@[mid as int], arr@[k]));
                }
            }
            start = mid + 1;
        } else {
            proof {
                T::lt_laws();
                assert forall|m: int| mid <= m < n implies T::lt_spec(
                    *ele,
                    #[trigger] arr@[m],
                ) by {
                    assert(!T::lt_spec(arr@[m], arr@[mid as int]));
                }
            }
            end = mid;
        }
    }
    start
}

/// Search the whole sorted vector for the insertion point of `ele`: the first
/// index whose element is after `ele` (equivalently, the count of elements
/// that are not after `ele`).
pub fn binary_search<T: SortOrd>(arr: &Vec<T>, ele: &T) -> (idx: usize)
    requires
        sorted::<T>(arr@),
    ensures
        idx <= arr@.len(),
        forall|k: int| 0 <= k < idx ==> !T::lt_spec(*ele, #[trigger] arr@[k]),
        forall|m: int| idx <= m < arr@.len() ==> T::lt_spec(*ele, #[trigger] arr@[m]),
{
    let n = arr.len();
    binary_search_upto(arr, n, ele)
}

/// Insertion sort with binary search.
///
/// The already-inserted prefix is always sorted, so the insertion point of
/// the next element can be found by binary search; ties insert after the
/// equal elements already placed, as in the linear scan. The result is the
/// canonical stable non-decreasing arrangement of the old elements.
pub fn binary_insert_sort<T: SortOrd>(arr: &mut Vec<T>)
    ensures
        final(arr)@.len() == old(arr)@.len(),
        sorted::<T>(final(arr)@),
        final(arr)@.to_multiset() == old(arr)@.to_multiset(),
        final(arr)@ == stable_sorted::<T>(old(arr)@),
{
    proof {
        T::lt_laws();
        lemma_stable_sorted_front::<T>(arr@);
    }
    let mut i: usize = 1;
    while i < arr.len()
        invariant
            1 <= i,
            arr@.len() == old(arr)@.len(),
            sorted_rng::<T>(arr@, 0, if i as int <= arr@.len() {
                i as int
            } else {
                arr@.len() as int
            }),
            arr@.to_multiset() == old(arr)@.to_multiset(),
            arr@ == stable_sorted::<T>(
                old(arr)@.subrange(
                    0,
                    if i as int <= arr@.len() {
                        i as int
                    } else {
                        arr@.len() as int
                    },
                ),
            ) + old(arr)@.subrange(
                if i as int <= arr@.len() {
                    i as int
                } else {
                    arr@.len() as int
                },
                arr@.len() as int,
            ),
        decreases arr@.len() - i,
    {
        let ghost sp = arr@;
        let ele = arr[i];
        let idx = binary_search_upto(arr, i, &ele);
        rotate_into(arr, i + 1, idx);
        proof {
            lemma_advance_stable::<T>(old(arr)@, sp, arr@, i as int);
        }
        i += 1;
    }
    proof {
        T::lt_laws();
        lemma_stable_sorted_back::<T>(old(arr)@, arr@);
    }
}

} // verus!
