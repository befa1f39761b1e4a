//! Selection sort: each position receives the least element of the
//! remainder with a single swap.

use vstd::prelude::*;
use crate::order::SortOrd;
use crate::order::sorted;
use crate::order::sorted_rng;
use crate::utils::swap;

verus! {

/// Scan `[from, len)` for the least element; report its index only when that
/// element comes before `ele`. Ties go to the earliest position: the chosen
/// element comes strictly before everything ahead of it.
pub(crate) fn min_by<T: SortOrd>(arr: &Vec<T>, from: usize, ele: &T) -> (r: Option<usize>)
    requires
        from <= arr@.len(),
    ensures
        r is Some ==> {
            let idx = r->Some_0;
            &&& from <= idx < arr@.len()
            &&& T::lt_spec(arr@[idx as int], *ele)
            &&& forall|m: int| from <= m < arr@.len() ==> !T::lt_spec(#[trigger] arr@[m], arr@[idx as int])
            &&& forall|m: int| from <= m < idx ==> T::lt_spec(arr@[idx as int], #[trigger] arr@[m])
        },
        r is None ==> forall|m: int|
            from <= m < arr@.len() ==> !T::lt_spec(#[trigger] arr@[m], *ele),
{
    proof {
        T::lt_laws();
    }
    if from >= arr.len() {
        return None;
    }
    let mut idx = from;
    let mut i = from + 1;
    while i < arr.len()
        invariant
            from <= idx < i <= arr@.len(),
            forall|m: int| from <= m < i ==> !T::lt_spec(#[trigger] arr@[m], arr@[idx as int]),
            forall|m: int| from <= m < idx ==> T::lt_spec(arr@[idx as int], #[trigger] arr@[m]),
        decreases arr@.len() - i,
    {
        proof {
            T::lt_laws();
        }
        if T::lt(&arr[i], &arr[idx]) {
            proof {
                assert forall|m: int| from <= m <= i implies !T::lt_spec(
                    #[trigger] arr@[m],
                    arr@[i as int],
                ) by {
                    if m < i {
                        assert(!T::lt_spec(arr@[m], arr@[idx as int]));
                    }
                }
                // the improvement is strict over every position scanned
                assert forall|m: int| from <= m < i implies T::lt_spec(
                    arr@[i as int],
                    #[trigger] arr@[m],
                ) by {
                    assert(!T::lt_spec(arr@[m], arr@[idx as int]));
                    assert(T::lt_spec(arr@[i as int], arr@[idx as int]));
                }
            }
            idx = i;
        }
        i += 1;
    }
    if T::lt(&arr[idx], ele) {
        Some(idx)
    } else {
        proof {
            T::lt_laws();
        }
        None
    }
}

/// Selection sort.
///
/// After the call the vector is non-decreasing under the element order and
/// holds exactly the elements it held before.
pub fn select_sort<T: SortOrd>(arr: &mut Vec<T>)
    ensures
        final(arr)@.len() == old(arr)@.len(),
        sorted::<T>(final(arr)@),
        final(arr)@.to_multiset() == old(arr)@.to_multiset(),
{
    proof {
        T::lt_laws();
    }
    let mut i: usize = 0;
    while i < arr.len()
        invariant
            i <= arr@.len(),
            arr@.len() == old(arr)@.len(),
            arr@.to_multiset() == old(arr)@.to_multiset(),
            sorted_rng::<T>(arr@, 0, i as int),
            forall|a: int, b: int|
                0 <= a < i <= b < arr@.len() ==> !(#[trigger] T::lt_spec(arr@[b], arr@[a])),
        decreases arr@.len() - i,
    {
        proof {
            T::lt_laws();
        }
        let ghost s1 = arr@;
        let ele = arr[i];
        match min_by(arr, i + 1, &ele) {
            Some(idx) => {
                swap(arr, i, idx);
            },
            None => {},
        }
        proof {
            T::lt_laws();
            let s2 = arr@;
            // the new element at `i` is not after anything of the remainder
            assert forall|m: int| i <= m < s2.len() implies !T::lt_spec(
                #[trigger] s2[m],
                s2[i as int],
            ) by {
            }
            assert forall|a: int, b: int|
                0 <= a < i + 1 <= b < s2.len() implies !(#[trigger] T::lt_spec(
                s2[b],
                s2[a],
            )) by {
                if a < i {
                    assert(!T::lt_spec(s1[b], s1[a]));
                }
            }
            assert(sorted_rng::<T>(s2, 0, i + 1));
        }
        i += 1;
    }
}

} // verus!
