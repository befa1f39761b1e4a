//! Heap sort: build an implicit binary max-heap in place, then repeatedly
//! swap the root (the maximum) behind the shrinking heap bound and sift the
//! new root down. `O(n log n)` worst case, no extra space, not stable.

use vstd::prelude::*;
use crate::order::SortOrd;
use crate::order::gt;
use crate::order::sorted;
use crate::order::sorted_rng;
use crate::facts::lemma_perm_rng_full;
use crate::facts::lemma_perm_rng_all;
use crate::utils::swap;

verus! {

/// The max-heap property for every edge whose parent is at least `low`:
/// no parent comes before one of its children.
pub open spec fn heap_from<T: SortOrd>(s: Seq<T>, bound: int, low: int) -> bool {
    forall|c: int| #![trigger s[c]]
        1 <= c < bound && (c - 1) / 2 >= low ==> !T::lt_spec(s[(c - 1) / 2], s[c])
}

/// The max-heap property below `bound`.
pub open spec fn is_heap<T: SortOrd>(s: Seq<T>, bound: int) -> bool {
    heap_from::<T>(s, bound, 0)
}

/// Position `q` lies in the subtree rooted at `root` of the implicit binary
/// heap: its parent chain passes through `root`.
pub open spec fn in_subtree(root: int, q: int) -> bool
    decreases q,
{
    if q < root {
        false
    } else if q == root {
        true
    } else if q <= 0 {
        false
    } else {
        in_subtree(root, (q - 1) / 2)
    }
}

/// In a max-heap the root comes after no element: walking up the parent
/// chain only moves to elements that are not before.
proof fn lemma_heap_root_max<T: SortOrd>(s: Seq<T>, bound: int, i: int)
    requires
        is_heap::<T>(s, bound),
        0 <= i < bound <= s.len(),
    ensures
        !T::lt_spec(s[0], s[i]),
    decreases i,
{
    T::lt_laws();
    if i > 0 {
        let pa = (i - 1) / 2;
        lemma_heap_root_max::<T>(s, bound, pa);
        assert(!T::lt_spec(s[pa], s[i]));
    }
}

/// The child of `idx` holding the greater element, together with that
/// element, or `None` when `idx` has no child below `bound`. The right
/// child is chosen exactly when it is strictly greater than the left.
pub fn max_leaf<T: SortOrd>(arr: &Vec<T>, bound: usize, idx: usize) -> (r: Option<(usize, T)>)
    requires
        bound <= arr@.len(),
    ensures
        r is None <==> 2 * idx + 1 >= bound,
        r is Some ==> {
            let (mi, mv) = r->Some_0;
            &&& (mi == 2 * idx + 1 || mi == 2 * idx + 2)
            &&& mi < bound
            &&& mv == arr@[mi as int]
            &&& !T::lt_spec(mv, arr@[2 * idx + 1])
            &&& (2 * idx + 2 < bound ==> !T::lt_spec(mv, arr@[2 * idx + 2]))
            &&& (mi == 2 * idx + 2 ==> T::lt_spec(arr@[2 * idx + 1], mv))
        },
{
    proof {
        T::lt_laws();
    }
    if idx >= bound / 2 {
        return None;
    }
    let li = 2 * idx + 1;
    let left = arr[li];
    if li + 1 < bound {
        let right = arr[li + 1];
        if gt(&right, &left) {
            Some((li + 1, right))
        } else {
            Some((li, left))
        }
    } else {
        Some((li, left))
    }
}

/// Sift the element at `idx` down the heap: while a child holds a greater
/// element, swap with the greater child. Every edge with parent past `idx`
/// must already satisfy the heap property; afterwards every edge with
/// parent at or past `idx` does, and only positions in the subtree of `idx`
/// have moved.
pub(crate) fn filter_down<T: SortOrd>(arr: &mut Vec<T>, bound: usize, idx: usize)
    requires
        bound <= old(arr)@.len(),
        heap_from::<T>(old(arr)@, bound as int, idx + 1),
    ensures
        final(arr)@.len() == old(arr)@.len(),
        final(arr)@.to_multiset() == old(arr)@.to_multiset(),
        forall|q: int|
            0 <= q < old(arr)@.len() && !(idx <= q < bound) ==> final(arr)@[q] == #[trigger] old(
                arr,
            )@[q],
        forall|q: int|
            0 <= q < old(arr)@.len() && !in_subtree(idx as int, q) ==> final(arr)@[q]
                == #[trigger] old(arr)@[q],
        heap_from::<T>(final(arr)@, bound as int, idx as int),
{
    proof {
        T::lt_laws();
    }
    let ghost n = old(arr)@.len();
    let mut cur = idx;
    loop
        invariant_except_break
            idx <= cur,
            in_subtree(idx as int, cur as int),
            bound <= arr@.len(),
            arr@.len() == n,
            arr@.to_multiset() == old(arr)@.to_multiset(),
            forall|q: int|
                0 <= q < n && !(idx <= q < bound) ==> arr@[q] == #[trigger] old(arr)@[q],
            forall|q: int|
                0 <= q < n && !in_subtree(idx as int, q) ==> arr@[q] == #[trigger] old(arr)@[q],
            // every required edge holds, except possibly the two from `cur`
            forall|c: int| #![trigger arr@[c]]
                1 <= c < bound && (c - 1) / 2 >= idx && (c - 1) / 2 != cur ==> !T::lt_spec(
                    arr@[(c - 1) / 2],
                    arr@[c],
                ),
            // bridging: the children of `cur` are not after its parent
            cur > idx ==> forall|c: int| #![trigger arr@[c]]
                c < bound && (c == 2 * cur + 1 || c == 2 * cur + 2) ==> !T::lt_spec(
                    arr@[(cur - 1) as int / 2],
                    arr@[c],
                ),
        ensures
            arr@.len() == n,
            arr@.to_multiset() == old(arr)@.to_multiset(),
            forall|q: int|
                0 <= q < n && !(idx <= q < bound) ==> arr@[q] == #[trigger] old(arr)@[q],
            forall|q: int|
                0 <= q < n && !in_subtree(idx as int, q) ==> arr@[q] == #[trigger] old(arr)@[q],
            heap_from::<T>(arr@, bound as int, idx as int),
        decreases bound - cur,
    {
        proof {
            T::lt_laws();
        }
        match max_leaf(arr, bound, cur) {
            None => {
                break ;
            },
            Some((mi, mv)) => {
                if T::lt(&arr[cur], &mv) {
                    let ghost s1 = arr@;
                    swap(arr, cur, mi);
                    proof {
                        let s2 = arr@;
                        // the chosen child hangs below `cur`, hence below `idx`
                        assert((mi - 1) as int / 2 == cur);
                        assert(in_subtree(idx as int, mi as int));
                        assert forall|c: int| #![trigger s2[c]]
                            1 <= c < bound && (c - 1) / 2 >= idx && (c - 1) / 2 != mi implies !T::lt_spec(
                            s2[(c - 1) / 2],
                            s2[c],
                        ) by {
                            let pa = (c - 1) / 2;
                            if pa == cur {
                                if c == mi {
                                    assert(s2[pa] == mv && s2[c] == s1[cur as int]);
                                } else {
                                    assert(s2[pa] == mv && s2[c] == s1[c]);
                                    assert(c == 2 * cur + 1 || c == 2 * cur + 2);
                                }
                            } else if c == cur {
                                // the parent of `cur` bridges to the lifted child
                                assert(cur > idx);
                                assert(s2[pa] == s1[pa] && s2[c] == mv);
                                assert(!T::lt_spec(s1[(cur - 1) as int / 2], s1[mi as int]));
                            } else {
                                assert(s2[pa] == s1[pa] && s2[c] == s1[c]);
                            }
                        }
                        assert forall|c: int| #![trigger s2[c]]
                            c < bound && (c == 2 * mi + 1 || c == 2 * mi + 2) implies !T::lt_spec(
                            s2[(mi - 1) as int / 2],
                            s2[c],
                        ) by {
                            assert((mi - 1) as int / 2 == cur);
                            assert(s2[cur as int] == mv);
                            assert(s2[c] == s1[c]);
                            assert(!T::lt_spec(s1[mi as int], s1[c]));
                        }
                    }
                    cur = mi;
                } else {
                    proof {
                        assert forall|c: int| #![trigger arr@[c]]
                            1 <= c < bound && (c - 1) / 2 >= idx implies !T::lt_spec(
                            arr@[(c - 1) / 2],
                            arr@[c],
                        ) by {
                            let pa = (c - 1) / 2;
                            if pa == cur {
                                assert(c == 2 * cur + 1 || c == 2 * cur + 2);
                                assert(!T::lt_spec(mv, arr@[c]));
                                assert(!T::lt_spec(arr@[cur as int], mv));
                            }
                        }
                    }
                    break ;
                }
            },
        }
    }
    proof {
        if !(2 * idx + 1 >= bound) {
        }
    }
}

/// Build a max-heap in place: sift down every internal node, from the last
/// one up to the root.
fn make_heap<T: SortOrd>(arr: &mut Vec<T>, bound: usize)
    requires
        bound <= old(arr)@.len(),
    ensures
        final(arr)@.len() == old(arr)@.len(),
        final(arr)@.to_multiset() == old(arr)@.to_multiset(),
        forall|q: int|
            0 <= q < old(arr)@.len() && !(q < bound) ==> final(arr)@[q] == #[trigger] old(arr)@[q],
        is_heap::<T>(final(arr)@, bound as int),
{
    proof {
        T::lt_laws();
    }
    let ghost n = old(arr)@.len();
    let mut idx = bound / 2 + 1;
    while idx > 0
        invariant
            idx <= bound / 2 + 1,
            bound <= arr@.len(),
            arr@.len() == n,
            arr@.to_multiset() == old(arr)@.to_multiset(),
            forall|q: int|
                0 <= q < n && !(q < bound) ==> arr@[q] == #[trigger] old(arr)@[q],
            heap_from::<T>(arr@, bound as int, idx as int),
        decreases idx,
    {
        idx -= 1;
        filter_down(arr, bound, idx);
    }
}

/// Heap sort.
///
/// After the call the vector is non-decreasing under the element order and
/// holds exactly the elements it held before.
pub fn heap_sort<T: SortOrd>(arr: &mut Vec<T>)
    ensures
        final(arr)@.len() == old(arr)@.len(),
        sorted::<T>(final(arr)@),
        final(arr)@.to_multiset() == old(arr)@.to_multiset(),
{
    proof {
        T::lt_laws();
    }
    let ghost n = arr@.len() as int;
    let len = arr.len();
    make_heap(arr, len);
    let mut bound = len;
    while bound > 0
        invariant
            bound <= arr@.len(),
            arr@.len() == n,
            arr@.len() == old(arr)@.len(),
            arr@.to_multiset() == old(arr)@.to_multiset(),
            is_heap::<T>(arr@, bound as int),
            sorted_rng::<T>(arr@, bound as int, n),
            forall|i: int, j: int|
                0 <= i < bound <= j < n ==> !(#[trigger] T::lt_spec(arr@[j], arr@[i])),
        decreases bound,
    {
        let ghost s1 = arr@;
        proof {
            T::lt_laws();
            lemma_heap_root_max::<T>(s1, bound as int, 0);
            assert forall|i: int| 0 <= i < bound implies !T::lt_spec(s1[0], #[trigger] s1[i]) by {
                lemma_heap_root_max::<T>(s1, bound as int, i);
            }
        }
        swap(arr, 0, bound - 1);
        let ghost s2 = arr@;
        proof {
            T::lt_laws();
            // the old root is the greatest of the heap range and now closes it
            assert forall|i: int, j: int|
                0 <= i < bound - 1 && bound - 1 <= j < n implies !(#[trigger] T::lt_spec(
                s2[j],
                s2[i],
            )) by {
                if j == bound - 1 {
                    assert(s2[j] == s1[0]);
                    assert(s2[i] == s1[i] || s2[i] == s1[bound - 1]);
                } else {
                    assert(s2[j] == s1[j]);
                    assert(s2[i] == s1[i] || s2[i] == s1[0] || s2[i] == s1[bound - 1]);
                    assert(!T::lt_spec(s1[j], s1[0]));
                }
            }
            assert(sorted_rng::<T>(s2, bound - 1, n)) by {
                assert forall|i: int, j: int| bound - 1 <= i <= j < n implies !(
                #[trigger] T::lt_spec(s2[j], s2[i])) by {
                    if i == j {
                    } else if i == bound - 1 {
                        assert(!T::lt_spec(s2[j], s2[i]));
                    } else {
                        assert(s2[i] == s1[i] && s2[j] == s1[j]);
                    }
                }
            }
            // every heap edge not touching the root or the removed slot holds
            assert(heap_from::<T>(s2, bound - 1, 1)) by {
                assert forall|c: int| #![trigger s2[c]]
                    1 <= c < bound - 1 && (c - 1) / 2 >= 1 implies !T::lt_spec(
                    s2[(c - 1) / 2],
                    s2[c],
                ) by {
                    let pa = (c - 1) / 2;
                    assert(1 <= pa < c < bound - 1);
                    assert(s2[pa] == s1[pa] && s2[c] == s1[c]);
                }
            }
        }
        bound -= 1;
        filter_down(arr, bound, 0);
        let ghost s3 = arr@;
        proof {
            T::lt_laws();
            lemma_perm_rng_full(s2, s3, 0, bound as int);
            assert(sorted_rng::<T>(s3, bound as int, n)) by {
                assert forall|i: int, j: int| bound <= i <= j < n implies !(#[trigger] T::lt_spec(
                    s3[j],
                    s3[i],
                )) by {
                    assert(s3[i] == s2[i] && s3[j] == s2[j]);
                }
            }
            assert forall|i: int, j: int|
                0 <= i < bound <= j < n implies !(#[trigger] T::lt_spec(s3[j], s3[i])) by {
                assert(s3[j] == s2[j]);
                lemma_perm_rng_all(s2, s3, 0, bound as int, |x: T| !T::lt_spec(s2[j], x));
            }
        }
    }
    proof {
        T::lt_laws();
        assert(sorted_rng::<T>(arr@, 0, n));
    }
}

} // verus!
