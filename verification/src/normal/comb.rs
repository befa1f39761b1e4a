//! Comb sort: bubble sort generalized to stride sub-sequences, with the gap
//! shrunk by a fixed factor each round. The final gap-1 rounds are plain
//! bubble passes, which is what makes the whole thing sort.

use vstd::prelude::*;
use vstd::arithmetic::div_mod::lemma_fundamental_div_mod;
use vstd::arithmetic::div_mod::lemma_div_is_ordered;
use crate::order::SortOrd;
use crate::order::gt;
use crate::order::sorted;
use crate::facts::same_outside;
use crate::facts::lemma_perm_rng_full;
use crate::facts::lemma_perm_rng_witness;
use crate::facts::on_stride;
use crate::facts::stride_of;
use crate::facts::stride_count;
use crate::facts::last_stride;
use crate::facts::lemma_last_stride;
use crate::facts::lemma_stride_next;
use crate::facts::lemma_stride_gap;
use crate::facts::lemma_stride_swap;
use crate::facts::lemma_stride_pos;
use crate::facts::lemma_stride_index;
use crate::facts::lemma_stride_cut;
use crate::facts::lemma_stride_count_mono;
use vstd::arithmetic::div_mod::lemma_fundamental_div_mod_converse;
use crate::utils::swap;

verus! {

/// One strided compare-swap pass over the stride positions
/// `lo, lo + step, ...` below `r`: the greatest element among them ends at
/// the last such position. Nothing off that set of positions moves.
fn bubble_pass_by_step<T: SortOrd>(arr: &mut Vec<T>, lo: usize, r: usize, step: usize)
    requires
        1 <= step < r <= old(arr)@.len(),
        lo < r,
    ensures
        final(arr)@.len() == old(arr)@.len(),
        final(arr)@.to_multiset() == old(arr)@.to_multiset(),
        stride_of(final(arr)@, lo as int, step as int).to_multiset() == stride_of(
            old(arr)@,
            lo as int,
            step as int,
        ).to_multiset(),
        forall|k: int| #![trigger final(arr)@[k]]
            0 <= k < final(arr)@.len() && !(on_stride(lo as int, step as int, k) && lo <= k < r)
                ==> final(arr)@[k] == old(arr)@[k],
        forall|k: int| #[trigger]
            on_stride(lo as int, step as int, k) && lo <= k < r ==> !T::lt_spec(
                final(arr)@[last_stride(lo as int, step as int, r as int)],
                final(arr)@[k],
            ),
{
    proof {
        T::lt_laws();
        lemma_last_stride(lo as int, step as int, r as int);
        lemma_fundamental_div_mod_converse(0, step as int, 0, 0);
    }
    let ghost s0 = arr@;
    let ghost n = arr@.len();
    let ghost li = lo as int;
    let ghost si = step as int;
    let mut cur = lo;
    while cur < r - step
        invariant
            1 <= step < r <= arr@.len(),
            lo <= cur < r,
            arr@.len() == n,
            li == lo as int,
            si == step as int,
            on_stride(li, si, cur as int),
            arr@.to_multiset() == s0.to_multiset(),
            stride_of(arr@, li, si).to_multiset() == stride_of(s0, li, si).to_multiset(),
            forall|k: int| #![trigger arr@[k]]
                0 <= k < n && !(on_stride(li, si, k) && lo <= k < r) ==> arr@[k] == s0[k],
            forall|m: int| #[trigger]
                on_stride(li, si, m) && lo <= m <= cur ==> !T::lt_spec(arr@[cur as int], arr@[m]),
        decreases r - cur,
    {
        proof {
            T::lt_laws();
            lemma_stride_next(li, si, cur as int);
        }
        if gt(&arr[cur], &arr[cur + step]) {
            let ghost s1 = arr@;
            swap(arr, cur, cur + step);
            proof {
                let s2 = arr@;
                lemma_stride_swap(s1, s2, li, si, cur as int, cur + step);
                assert forall|m: int| #[trigger]
                    on_stride(li, si, m) && lo <= m <= cur + step implies !T::lt_spec(
                    s2[cur + step],
                    s2[m],
                ) by {
                    assert(s2[cur + step] == s1[cur as int]);
                    if m == cur + step {
                    } else if m == cur {
                        assert(s2[m] == s1[cur + step]);
                    } else {
                        assert(m <= cur) by {
                            if m > cur {
                                lemma_stride_gap(li, si, cur as int, m);
                            }
                        }
                        assert(s2[m] == s1[m]);
                        assert(!T::lt_spec(s1[cur as int], s1[m]));
                    }
                }
            }
        } else {
            proof {
                assert forall|m: int| #[trigger]
                    on_stride(li, si, m) && lo <= m <= cur + step implies !T::lt_spec(
                    arr@[cur + step],
                    arr@[m],
                ) by {
                    if m == cur + step {
                    } else {
                        assert(m <= cur) by {
                            if m > cur {
                                lemma_stride_gap(li, si, cur as int, m);
                            }
                        }
                        assert(!T::lt_spec(arr@[cur as int], arr@[m]));
                        assert(!T::lt_spec(arr@[cur + step], arr@[cur as int]));
                    }
                }
            }
        }
        cur += step;
    }
    proof {
        // at exit the cursor sits on the last stride position below `r`
        let ls = last_stride(li, si, r as int);
        if ls > cur as int {
            lemma_stride_gap(li, si, cur as int, ls);
        }
        assert(cur as int == ls);
    }
}

/// Strided bubble sort over the stride positions `lo, lo + step, ...`:
/// repeated passes with the active bound walking down by `step`. Every
/// other position is untouched; the stride subsequence ends up holding a
/// non-decreasing permutation of its old elements. With `lo == 0` and
/// `step == 1` this is a full bubble sort (without the early exit), so it
/// sorts the whole vector.
pub(crate) fn bubble_sort_by_step<T: SortOrd>(arr: &mut Vec<T>, lo: usize, step: usize)
    requires
        step >= 1,
        lo <= old(arr)@.len(),
    ensures
        final(arr)@.len() == old(arr)@.len(),
        final(arr)@.to_multiset() == old(arr)@.to_multiset(),
        forall|k: int| #![trigger final(arr)@[k]]
            0 <= k < final(arr)@.len() && !on_stride(lo as int, step as int, k) ==> final(arr)@[k]
                == old(arr)@[k],
        stride_of(final(arr)@, lo as int, step as int).to_multiset() == stride_of(
            old(arr)@,
            lo as int,
            step as int,
        ).to_multiset(),
        forall|a: int, b: int|
            #![trigger on_stride(lo as int, step as int, a), on_stride(lo as int, step as int, b)]
            lo <= a <= b < final(arr)@.len() && on_stride(lo as int, step as int, a) && on_stride(
                lo as int,
                step as int,
                b,
            ) ==> !T::lt_spec(final(arr)@[b], final(arr)@[a]),
        lo == 0 && step == 1 ==> sorted::<T>(final(arr)@),
{
    proof {
        T::lt_laws();
    }
    let ghost n = arr@.len() as int;
    let ghost li = lo as int;
    let ghost si = step as int;
    let mut r = arr.len();
    while r - lo > step
        invariant
            step >= 1,
            lo <= r <= arr@.len(),
            arr@.len() == n,
            li == lo as int,
            si == step as int,
            arr@.to_multiset() == old(arr)@.to_multiset(),
            stride_of(arr@, li, si).to_multiset() == stride_of(old(arr)@, li, si).to_multiset(),
            forall|k: int| #![trigger arr@[k]]
                0 <= k < n && !on_stride(li, si, k) ==> arr@[k] == old(arr)@[k],
            forall|a: int, b: int| #![trigger on_stride(li, si, a), on_stride(li, si, b)]
                r <= a <= b < n && on_stride(li, si, a) && on_stride(li, si, b) ==> !T::lt_spec(
                    arr@[b],
                    arr@[a],
                ),
            forall|a: int, b: int| #![trigger on_stride(li, si, a), on_stride(li, si, b)]
                lo <= a < r <= b < n && on_stride(li, si, a) && on_stride(li, si, b)
                    ==> !T::lt_spec(arr@[b], arr@[a]),
        decreases r,
    {
        let ghost s1 = arr@;
        bubble_pass_by_step(arr, lo, r, step);
        proof {
            T::lt_laws();
            let s2 = arr@;
            let ls = last_stride(li, si, r as int);
            lemma_last_stride(li, si, r as int);
            // the pass permuted the leading slots of the stride view and
            // left the rest alone
            let sv1 = stride_of(s1, li, si);
            let sv2 = stride_of(s2, li, si);
            let tcr = stride_count(r as int, li, si);
            let tcn = stride_count(n, li, si);
            lemma_stride_count_mono(li, si, r as int, n);
            assert(same_outside(sv1, sv2, 0, tcr)) by {
                assert forall|t: int| 0 <= t < tcn && !(0 <= t < tcr) implies sv1[t]
                    == #[trigger] sv2[t] by {
                    lemma_stride_index(n, li, si, t);
                    lemma_stride_cut(n, li, si, r as int, t);
                    assert(s2[li + t * si] == s1[li + t * si]);
                }
            }
            lemma_perm_rng_full(sv1, sv2, 0, tcr);
            // old separation carries over: values below the bound were only
            // permuted among themselves
            assert forall|a: int, b: int| #![trigger on_stride(li, si, a), on_stride(li, si, b)]
                lo <= a < r <= b < n && on_stride(li, si, a) && on_stride(li, si, b) implies !T::lt_spec(
                s2[b],
                s2[a],
            ) by {
                assert(s2[b] == s1[b]);
                lemma_stride_pos(n, li, si, a);
                let ta = (a - li) / si;
                assert(sv2[ta] == s2[a]) by {
                    lemma_stride_index(n, li, si, ta);
                }
                lemma_stride_cut(n, li, si, r as int, ta);
                let w = lemma_perm_rng_witness(sv2, sv1, 0, tcr, ta);
                lemma_stride_index(n, li, si, w);
                lemma_stride_cut(n, li, si, r as int, w);
                assert(sv1[w] == s1[li + w * si]);
                assert(!T::lt_spec(s1[b], s1[li + w * si]));
            }
            // the stride positions between the new and old bound are just
            // the one the pass filled with the stride maximum
            assert forall|k: int| #[trigger]
                on_stride(li, si, k) && r - step <= k < r implies k == ls by {
                assert(k <= ls);
                if k < ls {
                    lemma_stride_gap(li, si, k, ls);
                }
            }
            assert(ls >= r - step) by {
                lemma_stride_next(li, si, ls);
                assert(on_stride(li, si, ls + si));
                if ls + si < r {
                    assert(ls + si <= ls);
                }
            }
            // suffix and separation for the shrunk bound
            assert forall|a: int, b: int| #![trigger on_stride(li, si, a), on_stride(li, si, b)]
                r - step <= a <= b < n && on_stride(li, si, a) && on_stride(li, si, b) implies !T::lt_spec(
                s2[b],
                s2[a],
            ) by {
                if a >= r {
                    assert(!T::lt_spec(s2[b], s2[a]));
                } else {
                    assert(a == ls);
                    if b < r {
                        assert(b == ls);
                    } else {
                        assert(!T::lt_spec(s2[b], s2[a]));
                    }
                }
            }
            assert forall|a: int, b: int| #![trigger on_stride(li, si, a), on_stride(li, si, b)]
                lo <= a < r - step <= b < n && on_stride(li, si, a) && on_stride(
                    li,
                    si,
                    b,
                ) implies !T::lt_spec(s2[b], s2[a]) by {
                if b >= r {
                    assert(!T::lt_spec(s2[b], s2[a]));
                } else {
                    assert(b == ls);
                    assert(!T::lt_spec(s2[ls], s2[a]));
                }
            }
        }
        r -= step;
    }
    proof {
        T::lt_laws();
        // below the final bound at most one stride position is left
        assert forall|a: int, b: int| #![trigger on_stride(li, si, a), on_stride(li, si, b)]
            lo <= a <= b < n && on_stride(li, si, a) && on_stride(li, si, b) implies !T::lt_spec(
            arr@[b],
            arr@[a],
        ) by {
            if a < r && b < r {
                if a < b {
                    lemma_stride_gap(li, si, a, b);
                }
            } else if a < r {
                assert(!T::lt_spec(arr@[b], arr@[a]));
            } else {
                assert(!T::lt_spec(arr@[b], arr@[a]));
            }
        }
        if lo == 0 && step == 1 {
            assert forall|i2: int, j2: int| 0 <= i2 <= j2 < arr@.len() implies !(
            #[trigger] T::lt_spec(arr@[j2], arr@[i2])) by {
                assert(on_stride(0, 1, i2));
                assert(on_stride(0, 1, j2));
            }
        }
    }
}

/// Shrink the comb gap by the factor 0.801711847137793, rounding down.
fn comb_shrink(step: usize) -> (r: usize)
    ensures
        step >= 1 ==> r < step,
        step >= 2 ==> 1 <= r,
{
    proof {
        assert((step as u128) as int * 801711847137793 <= u128::MAX) by (nonlinear_arith)
            requires
                step as int <= 0xffff_ffff_ffff_ffffu64 as int,
        ;
    }
    let wide: u128 = (step as u128) * 801711847137793;
    let q: u128 = wide / 1000000000000000;
    proof {
        let s = step as int;
        let c = 801711847137793 as int;
        let d = 1000000000000000 as int;
        lemma_fundamental_div_mod(s * c, d);
        if step >= 1 {
            assert(s * c < s * d) by (nonlinear_arith)
                requires
                    s >= 1,
                    c == 801711847137793,
                    d == 1000000000000000,
            ;
            assert((s * c) / d < s) by (nonlinear_arith)
                requires
                    s * c == d * ((s * c) / d) + (s * c) % d,
                    0 <= (s * c) % d < d,
                    s * c < s * d,
                    d > 0,
            ;
        }
        if step >= 2 {
            assert(s * c >= d) by (nonlinear_arith)
                requires
                    s >= 2,
                    c == 801711847137793,
                    d == 1000000000000000,
            ;
            lemma_div_is_ordered(d, s * c, d);
        }
    }
    q as usize
}

/// Comb sort.
///
/// Every round permutes the vector; the gap eventually reaches 1 and the
/// final round is a full bubble sort, so the vector ends up non-decreasing
/// with exactly the elements it held before.
pub fn comb_sort<T: SortOrd>(arr: &mut Vec<T>)
    ensures
        final(arr)@.len() == old(arr)@.len(),
        sorted::<T>(final(arr)@),
        final(arr)@.to_multiset() == old(arr)@.to_multiset(),
{
    proof {
        T::lt_laws();
    }
    let mut step = arr.len() / 2;
    while step > 0
        invariant
            step <= arr@.len(),
            arr@.len() == old(arr)@.len(),
            arr@.to_multiset() == old(arr)@.to_multiset(),
            step == 0 ==> sorted::<T>(arr@),
        decreases step,
    {
        let mut i: usize = 0;
        while i < step
            invariant
                step >= 1,
                i <= step,
                step <= arr@.len(),
                arr@.len() == old(arr)@.len(),
                arr@.to_multiset() == old(arr)@.to_multiset(),
                step == 1 && i >= 1 ==> sorted::<T>(arr@),
            decreases step - i,
        {
            bubble_sort_by_step(arr, i, step);
            i += 1;
        }
        step = comb_shrink(step);
    }
}

} // verus!
