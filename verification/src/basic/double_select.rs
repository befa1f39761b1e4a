//! Double-ended selection sort: one scan of the active range finds both the
//! least and the greatest element, which then move to the two boundaries, so
//! the range shrinks from both sides per round.

use vstd::prelude::*;
use crate::order::SortOrd;
use crate::order::sorted;
use crate::facts::lemma_perm_rng_full;
use crate::facts::lemma_perm_rng_all;
use crate::utils::swap;

verus! {

/// Double-ended selection sort.
///
/// After the call the vector is non-decreasing under the element order and
/// holds exactly the elements it held before.
pub fn select_doubled_sort<T: SortOrd>(arr: &mut Vec<T>)
    ensures
        final(arr)@.len() == old(arr)@.len(),
        sorted::<T>(final(arr)@),
        final(arr)@.to_multiset() == old(arr)@.to_multiset(),
{
    proof {
        T::lt_laws();
    }
    let mut lo: usize = 0;
    let mut hi: usize = arr.len();
    while hi - lo > 1
        invariant
            lo <= hi <= arr@.len(),
            arr@.len() == old(arr)@.len(),
            arr@.to_multiset() == old(arr)@.to_multiset(),
            forall|i: int, j: int|
                0 <= i < lo && i < j < arr@.len() ==> !(#[trigger] T::lt_spec(arr@[j], arr@[i])),
            forall|i: int, j: int|
                hi <= j < arr@.len() && 0 <= i < j ==> !(#[trigger] T::lt_spec(arr@[j], arr@[i])),
        decreases hi - lo,
    {
        proof {
            T::lt_laws();
        }
        let ghost s1 = arr@;
        let tail = hi - 1;
        let mut mini = lo;
        let mut maxi = tail;
        let mut min = arr[mini];
        let mut max = arr[maxi];
        let mut i = lo;
        while i < hi
            invariant
                lo <= mini < hi <= arr@.len(),
                lo <= maxi < hi,
                lo < hi,
                lo <= i <= hi,
                arr@ == s1,
                min == s1[mini as int],
                max == s1[maxi as int],
                forall|k: int| lo <= k < i ==> !T::lt_spec(#[trigger] s1[k], min),
                forall|k: int| lo <= k < i ==> !T::lt_spec(max, #[trigger] s1[k]),
                !T::lt_spec(max, s1[hi - 1]),
            decreases hi - i,
        {
            proof {
                T::lt_laws();
            }
            let ele = arr[i];
            if T::lt(&ele, &min) {
                mini = i;
                min = ele;
            }
            if T::lt(&max, &ele) {
                maxi = i;
                max = ele;
            }
            i += 1;
        }
        let ghost m0 = maxi as int;
        if maxi == lo {
            maxi = mini;
        }
        swap(arr, lo, mini);
        let ghost s2 = arr@;
        proof {
            T::lt_laws();
            // the greatest element of the range, up to order-equivalence,
            // now sits at `maxi`: either it was at `lo` and the swap carried
            // it to `mini` (where the redirected `maxi` points), or the swap
            // did not touch it
            assert(!T::lt_spec(max, s2[maxi as int]) && !T::lt_spec(s2[maxi as int], max)) by {
                if m0 == lo {
                    assert(max == s1[lo as int]);
                    assert(s2[maxi as int] == s1[lo as int]);
                } else if maxi == mini {
                    assert(min == max);
                    assert(s2[maxi as int] == s1[lo as int]);
                    assert(!T::lt_spec(s1[lo as int], min));
                    assert(!T::lt_spec(max, s1[lo as int]));
                } else {
                    assert(s2[maxi as int] == max);
                }
            }
        }
        swap(arr, tail, maxi);
        let ghost s3 = arr@;
        proof {
            T::lt_laws();
            lemma_perm_rng_full(s1, s3, lo as int, hi as int);
            assert(s3[tail as int] == s2[maxi as int]);
            // the least element of the range, up to order-equivalence, sits
            // at `lo`; only when least and greatest coincide does the second
            // swap touch `lo`, and then every element of the range is
            // order-equivalent anyway
            assert(!T::lt_spec(s3[lo as int], min) && !T::lt_spec(min, s3[lo as int])) by {
                if maxi == lo {
                    assert(mini == lo && m0 == lo);
                    assert(min == s1[lo as int] && max == s1[lo as int]);
                    assert(s3[lo as int] == s2[tail as int]);
                    assert(s2[tail as int] == s1[tail as int]);
                    assert(!T::lt_spec(s1[tail as int], min));
                    assert(!T::lt_spec(max, s1[tail as int]));
                } else {
                    assert(s3[lo as int] == s2[lo as int]);
                    assert(s2[lo as int] == min);
                }
            }
            // every element of the range still lies between `min` and `max`
            assert forall|k: int|
                lo <= k < hi implies !T::lt_spec(#[trigger] s3[k], min) && !T::lt_spec(
                max,
                #[trigger] s3[k],
            ) by {
                lemma_perm_rng_all(
                    s1,
                    s3,
                    lo as int,
                    hi as int,
                    |x: T| !T::lt_spec(x, min) && !T::lt_spec(max, x),
                );
            }
            // outer separations survive the permutation of the range
            assert forall|i2: int, j2: int|
                0 <= i2 < lo && i2 < j2 < s3.len() implies !(#[trigger] T::lt_spec(
                s3[j2],
                s3[i2],
            )) by {
                if lo <= j2 < hi {
                    lemma_perm_rng_all(
                        s1,
                        s3,
                        lo as int,
                        hi as int,
                        |x: T| !T::lt_spec(x, s3[i2]),
                    );
                }
            }
            assert forall|i2: int, j2: int|
                hi <= j2 < s3.len() && 0 <= i2 < j2 implies !(#[trigger] T::lt_spec(
                s3[j2],
                s3[i2],
            )) by {
                if lo <= i2 < hi {
                    lemma_perm_rng_all(
                        s1,
                        s3,
                        lo as int,
                        hi as int,
                        |x: T| !T::lt_spec(s3[j2], x),
                    );
                }
            }
        }
        lo += 1;
        hi -= 1;
        proof {
            T::lt_laws();
            // the freshly placed boundary elements join the separations
            assert forall|i2: int, j2: int|
                0 <= i2 < lo && i2 < j2 < s3.len() implies !(#[trigger] T::lt_spec(
                s3[j2],
                s3[i2],
            )) by {
                if i2 == lo - 1 && j2 < hi + 1 {
                    assert(!T::lt_spec(s3[j2], min));
                    assert(!T::lt_spec(min, s3[lo - 1]));
                }
            }
            assert forall|i2: int, j2: int|
                hi <= j2 < s3.len() && 0 <= i2 < j2 implies !(#[trigger] T::lt_spec(
                s3[j2],
                s3[i2],
            )) by {
                if j2 == hi && lo - 1 <= i2 {
                    assert(!T::lt_spec(max, s3[i2]));
                    assert(!T::lt_spec(s3[hi as int], max));
                }
            }
        }
    }
    proof {
        T::lt_laws();
        assert forall|i: int, j: int| 0 <= i <= j < arr@.len() implies !(#[trigger] T::lt_spec(
            arr@[j],
            arr@[i],
        )) by {
            if i < lo {
            } else if j >= hi {
            } else {
                assert(i == j);
            }
        }
    }
}

} // verus!
