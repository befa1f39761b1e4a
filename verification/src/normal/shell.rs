//! Shell sort: insertion sort generalized to interleaved stride
//! sub-sequences, with a halving gap sequence or with Sedgewick increments.
//! The final gap-1 pass is an ordinary insertion sort, which is what makes
//! the whole thing sort.

use vstd::prelude::*;
use vstd::arithmetic::power2::pow2;
use vstd::arithmetic::power2::lemma_pow2_adds;
use vstd::arithmetic::power2::lemma_pow2_strictly_increases;
use vstd::arithmetic::power2::lemma2_to64;
use vstd::arithmetic::power2::lemma2_to64_rest;
use crate::order::SortOrd;
use crate::order::gt;
use crate::order::sorted;
use crate::facts::on_stride;
use crate::facts::stride_of;
use crate::facts::lemma_stride_prev;
use crate::facts::lemma_stride_next;
use crate::facts::lemma_stride_start;
use crate::facts::lemma_stride_gap;
use crate::facts::lemma_stride_swap;
use vstd::arithmetic::div_mod::lemma_fundamental_div_mod_converse;
use crate::utils::swap;

verus! {

/// Sift the element at stride position `i` down its stride chain
/// `lo, lo + step, ...` by adjacent stride swaps, until its stride
/// predecessor is not after it.
fn sift_by_step<T: SortOrd>(arr: &mut Vec<T>, lo: usize, step: usize, i: usize)
    requires
        step >= 1,
        lo + step <= i < old(arr)@.len(),
        on_stride(lo as int, step as int, i as int),
        forall|a: int, b: int|
            #![trigger on_stride(lo as int, step as int, a), on_stride(lo as int, step as int, b)]
            lo <= a <= b < i && on_stride(lo as int, step as int, a) && on_stride(
                lo as int,
                step as int,
                b,
            ) ==> !T::lt_spec(old(arr)@[b], old(arr)@[a]),
    ensures
        final(arr)@.len() == old(arr)@.len(),
        final(arr)@.to_multiset() == old(arr)@.to_multiset(),
        stride_of(final(arr)@, lo as int, step as int).to_multiset() == stride_of(
            old(arr)@,
            lo as int,
            step as int,
        ).to_multiset(),
        forall|k: int| #![trigger final(arr)@[k]]
            0 <= k < final(arr)@.len() && !(on_stride(lo as int, step as int, k) && k <= i)
                ==> final(arr)@[k] == old(arr)@[k],
        forall|a: int, b: int|
            #![trigger on_stride(lo as int, step as int, a), on_stride(lo as int, step as int, b)]
            lo <= a <= b <= i && on_stride(lo as int, step as int, a) && on_stride(
                lo as int,
                step as int,
                b,
            ) ==> !T::lt_spec(final(arr)@[b], final(arr)@[a]),
{
    proof {
        T::lt_laws();
    }
    let ghost n = old(arr)@.len();
    let ghost li = lo as int;
    let ghost si = step as int;
    let mut cur = i;
    while cur >= lo + step
        invariant
            step >= 1,
            lo + step <= i,
            lo <= cur <= i < arr@.len(),
            arr@.len() == n,
            li == lo as int,
            si == step as int,
            on_stride(li, si, cur as int),
            on_stride(li, si, i as int),
            arr@.to_multiset() == old(arr)@.to_multiset(),
            stride_of(arr@, li, si).to_multiset() == stride_of(old(arr)@, li, si).to_multiset(),
            forall|k: int| #![trigger arr@[k]]
                0 <= k < n && !(on_stride(li, si, k) && k <= i) ==> arr@[k] == old(arr)@[k],
            forall|a: int, b: int| #![trigger on_stride(li, si, a), on_stride(li, si, b)]
                lo <= a <= b < cur && on_stride(li, si, a) && on_stride(li, si, b)
                    ==> !T::lt_spec(arr@[b], arr@[a]),
            forall|a: int, b: int| #![trigger on_stride(li, si, a), on_stride(li, si, b)]
                cur < a <= b <= i && on_stride(li, si, a) && on_stride(li, si, b)
                    ==> !T::lt_spec(arr@[b], arr@[a]),
            forall|m: int| #![trigger on_stride(li, si, m)]
                cur < m <= i && on_stride(li, si, m) ==> T::lt_spec(arr@[cur as int], arr@[m]),
            forall|a: int, b: int| #![trigger on_stride(li, si, a), on_stride(li, si, b)]
                lo <= a < cur && cur < b <= i && on_stride(li, si, a) && on_stride(li, si, b)
                    ==> !T::lt_spec(arr@[b], arr@[a]),
        ensures
            lo <= cur <= i < arr@.len(),
            arr@.len() == n,
            on_stride(li, si, cur as int),
            arr@.to_multiset() == old(arr)@.to_multiset(),
            stride_of(arr@, li, si).to_multiset() == stride_of(old(arr)@, li, si).to_multiset(),
            forall|k: int| #![trigger arr@[k]]
                0 <= k < n && !(on_stride(li, si, k) && k <= i) ==> arr@[k] == old(arr)@[k],
            forall|a: int, b: int| #![trigger on_stride(li, si, a), on_stride(li, si, b)]
                lo <= a <= b < cur && on_stride(li, si, a) && on_stride(li, si, b)
                    ==> !T::lt_spec(arr@[b], arr@[a]),
            forall|a: int, b: int| #![trigger on_stride(li, si, a), on_stride(li, si, b)]
                cur < a <= b <= i && on_stride(li, si, a) && on_stride(li, si, b)
                    ==> !T::lt_spec(arr@[b], arr@[a]),
            forall|m: int| #![trigger on_stride(li, si, m)]
                cur < m <= i && on_stride(li, si, m) ==> T::lt_spec(arr@[cur as int], arr@[m]),
            forall|a: int, b: int| #![trigger on_stride(li, si, a), on_stride(li, si, b)]
                lo <= a < cur && cur < b <= i && on_stride(li, si, a) && on_stride(li, si, b)
                    ==> !T::lt_spec(arr@[b], arr@[a]),
            cur < lo + step || !T::lt_spec(arr@[cur as int], arr@[cur - step]),
        decreases cur,
    {
        proof {
            T::lt_laws();
        }
        let j = cur - step;
        proof {
            lemma_stride_prev(li, si, cur as int);
        }
        if gt(&arr[j], &arr[cur]) {
            let ghost s1 = arr@;
            swap(arr, j, cur);
            proof {
                let s2 = arr@;
                lemma_stride_swap(s1, s2, li, si, j as int, cur as int);
                // no stride position lies strictly between the pair
                assert forall|m: int| j < m < cur implies !on_stride(li, si, m) by {
                    if on_stride(li, si, m) {
                        lemma_stride_gap(li, si, j as int, m);
                    }
                }
                assert forall|a: int, b: int|
                    #![trigger on_stride(li, si, a), on_stride(li, si, b)]
                    lo <= a <= b < j && on_stride(li, si, a) && on_stride(li, si, b) implies !T::lt_spec(
                    s2[b],
                    s2[a],
                ) by {
                    assert(s2[a] == s1[a] && s2[b] == s1[b]);
                }
                assert forall|m: int| #![trigger on_stride(li, si, m)]
                    j < m <= i && on_stride(li, si, m) implies T::lt_spec(
                    s2[j as int],
                    s2[m],
                ) by {
                    assert(s2[j as int] == s1[cur as int]);
                    if m == cur {
                        assert(s2[m] == s1[j as int]);
                    } else {
                        assert(m > cur);
                        assert(s2[m] == s1[m]);
                        assert(T::lt_spec(s1[cur as int], s1[m]));
                    }
                }
                assert forall|a: int, b: int|
                    #![trigger on_stride(li, si, a), on_stride(li, si, b)]
                    j < a <= b <= i && on_stride(li, si, a) && on_stride(li, si, b) implies !T::lt_spec(
                    s2[b],
                    s2[a],
                ) by {
                    assert(a >= cur);
                    if a == cur {
                        assert(s2[a] == s1[j as int]);
                        if b > cur {
                            assert(s2[b] == s1[b]);
                            assert(!T::lt_spec(s1[b], s1[j as int]));
                        }
                    } else {
                        assert(s2[a] == s1[a] && s2[b] == s1[b]);
                        assert(!T::lt_spec(s1[b], s1[a]));
                    }
                }
                assert forall|a: int, b: int|
                    #![trigger on_stride(li, si, a), on_stride(li, si, b)]
                    lo <= a < j && j < b <= i && on_stride(li, si, a) && on_stride(
                        li,
                        si,
                        b,
                    ) implies !T::lt_spec(s2[b], s2[a]) by {
                    assert(s2[a] == s1[a]);
                    if b == cur {
                        assert(s2[b] == s1[j as int]);
                        assert(!T::lt_spec(s1[j as int], s1[a]));
                    } else {
                        assert(b > cur);
                        assert(s2[b] == s1[b]);
                        assert(!T::lt_spec(s1[b], s1[a]));
                    }
                }
            }
            cur = j;
        } else {
            break ;
        }
    }
    proof {
        T::lt_laws();
        let c = cur as int;
        if cur < lo + step {
            lemma_stride_start(li, si, c);
        }
        assert forall|a: int, b: int|
            #![trigger on_stride(li, si, a), on_stride(li, si, b)]
            lo <= a <= b <= i && on_stride(li, si, a) && on_stride(li, si, b) implies !T::lt_spec(
            arr@[b],
            arr@[a],
        ) by {
            if b < c {
                assert(!T::lt_spec(arr@[b], arr@[a]));
            } else if a > c {
                assert(!T::lt_spec(arr@[b], arr@[a]));
            } else if a < c && b == c {
                // the sift stopped because the stride predecessor is not
                // after the moved element
                lemma_stride_gap(li, si, a, c);
                assert(!T::lt_spec(arr@[c], arr@[c - si]));
                assert(on_stride(li, si, c - si)) by {
                    lemma_stride_prev(li, si, c);
                }
                if a < c - si {
                    assert(!T::lt_spec(arr@[c - si], arr@[a]));
                }
            } else if a == c && b > c {
                assert(T::lt_spec(arr@[c], arr@[b]));
            } else if a == c && b == c {
            } else {
                assert(!T::lt_spec(arr@[b], arr@[a]));
            }
        }
    }
}

/// One gapped insertion pass: insertion sort over the stride positions
/// `lo, lo + step, ...`. Every other position is untouched; the stride
/// subsequence ends up holding a non-decreasing permutation of its old
/// elements. With `lo == 0` and `step == 1` this is ordinary insertion
/// sort, so it sorts the whole vector.
pub fn insert_sort_by_step<T: SortOrd>(arr: &mut Vec<T>, lo: usize, step: usize)
    requires
        step >= 1,
    ensures
        final(arr)@.len() == old(arr)@.len(),
        final(arr)@.to_multiset() == old(arr)@.to_multiset(),
        forall|k: int| #![trigger final(arr)@[k]]
            0 <= k < final(arr)@.len() && !on_stride(lo as int, step as int, k) ==> final(arr)@[k]
                == old(arr)@[k],
        stride_of(final(arr)@, lo as int, step as int).to_multiset() == stride_of(
            old(arr)@,
            lo as int,
            step as int,
        ).to_multiset(),
        forall|a: int, b: int|
            #![trigger on_stride(lo as int, step as int, a), on_stride(lo as int, step as int, b)]
            lo <= a <= b < final(arr)@.len() && on_stride(lo as int, step as int, a) && on_stride(
                lo as int,
                step as int,
                b,
            ) ==> !T::lt_spec(final(arr)@[b], final(arr)@[a]),
        lo == 0 && step == 1 ==> sorted::<T>(final(arr)@),
{
    proof {
        T::lt_laws();
    }
    let ghost li = lo as int;
    let ghost si = step as int;
    if lo >= arr.len() || step >= arr.len() - lo {
        // the stride holds at most one position: nothing to do
        proof {
            assert forall|a: int, b: int|
                #![trigger on_stride(li, si, a), on_stride(li, si, b)]
                lo <= a <= b < arr@.len() && on_stride(li, si, a) && on_stride(
                    li,
                    si,
                    b,
                ) implies !T::lt_spec(arr@[b], arr@[a]) by {
                if a < b {
                    lemma_stride_gap(li, si, a, b);
                }
            }
            if lo == 0 && step == 1 {
                assert(arr@.len() <= 1);
            }
        }
        return ;
    }
    let ghost n = arr@.len();
    let mut i = lo + step;
    proof {
        lemma_fundamental_div_mod_converse(si, si, 1, 0);
        assert(on_stride(li, si, (lo + step) as int));
        // below the second stride position only the first one lies
        assert forall|a: int, b: int| #![trigger on_stride(li, si, a), on_stride(li, si, b)]
            lo <= a <= b < lo + step && on_stride(li, si, a) && on_stride(
                li,
                si,
                b,
            ) implies !T::lt_spec(arr@[b], arr@[a]) by {
            if a < b {
                lemma_stride_gap(li, si, a, b);
            }
        }
    }
    while i < arr.len()
        invariant_except_break
            step >= 1,
            lo + step <= i,
            li == lo as int,
            si == step as int,
            on_stride(li, si, i as int),
            arr@.len() == n,
            arr@.to_multiset() == old(arr)@.to_multiset(),
            stride_of(arr@, li, si).to_multiset() == stride_of(old(arr)@, li, si).to_multiset(),
            forall|k: int| #![trigger arr@[k]]
                0 <= k < n && !(on_stride(li, si, k) && k < i) ==> arr@[k] == old(arr)@[k],
            forall|a: int, b: int| #![trigger on_stride(li, si, a), on_stride(li, si, b)]
                lo <= a <= b < i && on_stride(li, si, a) && on_stride(li, si, b) ==> !T::lt_spec(
                    arr@[b],
                    arr@[a],
                ),
        ensures
            arr@.len() == n,
            arr@.to_multiset() == old(arr)@.to_multiset(),
            stride_of(arr@, li, si).to_multiset() == stride_of(old(arr)@, li, si).to_multiset(),
            forall|k: int| #![trigger arr@[k]]
                0 <= k < n && !on_stride(li, si, k) ==> arr@[k] == old(arr)@[k],
            forall|a: int, b: int| #![trigger on_stride(li, si, a), on_stride(li, si, b)]
                lo <= a <= b < n && on_stride(li, si, a) && on_stride(li, si, b) ==> !T::lt_spec(
                    arr@[b],
                    arr@[a],
                ),
        decreases arr@.len() - i,
    {
        sift_by_step(arr, lo, step, i);
        if arr.len() - i <= step {
            proof {
                // every stride position below the length is at most `i`
                assert forall|a: int, b: int|
                    #![trigger on_stride(li, si, a), on_stride(li, si, b)]
                    lo <= a <= b < n && on_stride(li, si, a) && on_stride(li, si, b) implies !T::lt_spec(
                    arr@[b],
                    arr@[a],
                ) by {
                    if b > i {
                        lemma_stride_gap(li, si, i as int, b);
                    }
                }
            }
            break ;
        }
        proof {
            lemma_stride_next(li, si, i as int);
            // the freshly sorted stretch is everything strictly below the
            // next stride position
            assert forall|a: int, b: int|
                #![trigger on_stride(li, si, a), on_stride(li, si, b)]
                lo <= a <= b < i + step && on_stride(li, si, a) && on_stride(li, si, b) implies !T::lt_spec(
                arr@[b],
                arr@[a],
            ) by {
                if b > i {
                    lemma_stride_gap(li, si, i as int, b);
                }
            }
        }
        i += step;
    }
    proof {
        T::lt_laws();
        if lo == 0 && step == 1 {
            assert forall|i2: int, j2: int| 0 <= i2 <= j2 < arr@.len() implies !(
            #[trigger] T::lt_spec(arr@[j2], arr@[i2])) by {
                assert(on_stride(0, 1, i2));
                assert(on_stride(0, 1, j2));
            }
        }
    }
}

/// Shell sort with the halving gap sequence.
///
/// Every pass permutes the vector; the last pass has gap 1 and is a plain
/// insertion sort, so the vector ends up non-decreasing with exactly the
/// elements it held before.
pub fn shell_sort<T: SortOrd>(arr: &mut Vec<T>)
    ensures
        final(arr)@.len() == old(arr)@.len(),
        sorted::<T>(final(arr)@),
        final(arr)@.to_multiset() == old(arr)@.to_multiset(),
{
    proof {
        T::lt_laws();
    }
    let mut step = arr.len() / 2;
    while step > 0
        invariant
            arr@.len() == old(arr)@.len(),
            arr@.to_multiset() == old(arr)@.to_multiset(),
            step == 0 ==> sorted::<T>(arr@),
        decreases step,
    {
        let mut i: usize = 0;
        while i < step
            invariant
                step >= 1,
                i <= step,
                arr@.len() == old(arr)@.len(),
                arr@.to_multiset() == old(arr)@.to_multiset(),
                step == 1 && i >= 1 ==> sorted::<T>(arr@),
            decreases step - i,
        {
            insert_sort_by_step(arr, i, step);
            i += 1;
        }
        step = step / 2;
    }
}

/// The Sedgewick increment at index `i`:
/// `9 * (4^u - 2^u) + 1` for even `i` and `4^(u+2) - 3 * 2^(u+2) + 1` for
/// odd `i`, with `u = i / 2`.
pub open spec fn sedgewick_spec(i: nat) -> int {
    let u = i / 2;
    if i % 2 == 0 {
        9 * (pow2(2 * u) - pow2(u)) + 1
    } else {
        pow2(2 * u + 4) - 3 * pow2(u + 2) + 1
    }
}

/// Raise two to the given power, in a 64-bit word.
fn two_pow(e: usize) -> (r: u64)
    requires
        e <= 62,
    ensures
        r == pow2(e as nat),
{
    proof {
        lemma2_to64();
        lemma2_to64_rest();
    }
    let mut r: u64 = 1;
    let mut k: usize = 0;
    while k < e
        invariant
            k <= e <= 62,
            r == pow2(k as nat),
        decreases e - k,
    {
        proof {
            lemma2_to64();
            lemma2_to64_rest();
            if k < 62 {
                lemma_pow2_strictly_increases(k as nat, 62);
            }
            assert(pow2((k + 1) as nat) == 2 * pow2(k as nat)) by {
                lemma_pow2_adds(k as nat, 1);
                lemma2_to64();
            }
            if k + 1 < 62 {
                lemma_pow2_strictly_increases((k + 1) as nat, 62);
            }
        }
        r = r * 2;
        k += 1;
    }
    r
}

/// The Sedgewick increment expression, in a 64-bit word.
fn sedgewick_expr_u64(i: usize) -> (r: u64)
    requires
        i <= 60,
    ensures
        r == sedgewick_spec(i as nat),
        1 <= r,
{
    proof {
        lemma2_to64();
        lemma2_to64_rest();
    }
    let u = i / 2;
    if i % 2 == 0 {
        proof {
            if 2 * u < 62 {
                lemma_pow2_strictly_increases((2 * u) as nat, 62);
            }
            if u < 2 * u {
                lemma_pow2_strictly_increases(u as nat, (2 * u) as nat);
            }
        }
        let a = two_pow(2 * u);
        let b = two_pow(u);
        9 * (a - b) + 1
    } else {
        proof {
            lemma_pow2_strictly_increases((u + 2) as nat, (2 * u + 4) as nat);
            if 2 * u + 4 < 62 {
                lemma_pow2_strictly_increases((2 * u + 4) as nat, 62);
            }
            assert(pow2((2 * u + 4) as nat) == pow2((u + 2) as nat) * pow2((u + 2) as nat)) by {
                lemma_pow2_adds((u + 2) as nat, (u + 2) as nat);
            }
            assert(pow2((u + 2) as nat) >= 4) by {
                if u + 2 > 2 {
                    lemma_pow2_strictly_increases(2, (u + 2) as nat);
                }
            }
            assert(pow2((u + 2) as nat) * pow2((u + 2) as nat) >= 4 * pow2((u + 2) as nat))
                by (nonlinear_arith)
                requires
                    pow2((u + 2) as nat) >= 4,
            ;
        }
        let a = two_pow(2 * u + 4);
        let b = two_pow(u + 2);
        a - 3 * b + 1
    }
}

/// The Sedgewick increment expression:
/// `9 * (4^u - 2^u) + 1` for even `i` and `4^(u+2) - 3 * 2^(u+2) + 1` for
/// odd `i`, with `u = i / 2`. The value must fit the machine word.
pub fn sedgewick_expr(i: usize) -> (r: usize)
    requires
        i <= 60,
        sedgewick_spec(i as nat) <= usize::MAX,
    ensures
        r == sedgewick_spec(i as nat),
        1 <= r,
{
    let r = sedgewick_expr_u64(i);
    r as usize
}

/// Shell sort with the Sedgewick increment sequence.
///
/// The increments end at gap 1, a plain insertion pass, so the vector ends
/// up non-decreasing with exactly the elements it held before.
pub fn sedgewick_sort<T: SortOrd>(arr: &mut Vec<T>)
    ensures
        final(arr)@.len() == old(arr)@.len(),
        sorted::<T>(final(arr)@),
        final(arr)@.to_multiset() == old(arr)@.to_multiset(),
{
    proof {
        T::lt_laws();
    }
    // index of the greatest increment below the length, when there is one
    let mut idx: usize = 0;
    while idx < 60 && sedgewick_expr_u64(idx) < arr.len() as u64
        invariant
            idx <= 60,
        decreases 60 - idx,
    {
        idx += 1;
    }
    let stepi = if idx > 0 {
        idx - 1
    } else {
        0
    };
    let mut k = stepi + 1;
    while k > 0
        invariant
            k <= 61,
            arr@.len() == old(arr)@.len(),
            arr@.to_multiset() == old(arr)@.to_multiset(),
            k == 0 ==> sorted::<T>(arr@),
        decreases k,
    {
        proof {
            T::lt_laws();
        }
        k -= 1;
        let step64 = sedgewick_expr_u64(k);
        proof {
            if k == 0 {
                lemma2_to64();
                assert(sedgewick_spec(0) == 1);
            }
        }
        if step64 < arr.len() as u64 {
            let step = step64 as usize;
            let mut i: usize = 0;
            while i < step
                invariant
                    step >= 1,
                    i <= step,
                    arr@.len() == old(arr)@.len(),
                    arr@.to_multiset() == old(arr)@.to_multiset(),
                    k == 0 ==> step == 1,
                    k == 0 && i >= 1 ==> sorted::<T>(arr@),
                decreases step - i,
            {
                insert_sort_by_step(arr, i, step);
                i += 1;
            }
        } else {
            // a gap at least the length leaves every stride with one
            // position, so the pass would move nothing
            proof {
                if k == 0 {
                    assert(arr@.len() <= 1);
                }
            }
        }
    }
}

} // verus!
