//! Merge sort: top-down splitting at the midpoint, merging with a scratch
//! buffer that only ever holds the shorter half, so the auxiliary space
//! peaks at half the sequence. The merge is stable: ties keep the
//! originally earlier element first.

use vstd::prelude::*;
use vstd::multiset::Multiset;
use vstd::seq_lib::group_to_multiset_ensures;
use vstd::seq_lib::lemma_multiset_commutative;
use crate::order::SortOrd;
use crate::order::le;
use crate::order::ge;
use crate::order::sorted;
use crate::order::sorted_rng;
use crate::facts::same_outside;
use crate::facts::lemma_perm_rng_full;
use crate::facts::lemma_sorted_same;
use crate::facts::ties_of;
use crate::facts::lemma_sorted_ties_unique;
use crate::basic::insert::stable_sorted;
use crate::basic::insert::lemma_stable_sorted_sorted;
use crate::basic::insert::lemma_stable_sorted_multiset;
use crate::basic::insert::lemma_stable_sorted_keeps_ties;
use crate::basic::insert::lemma_filter_member;

verus! {

/// Prepending an element inserts it into the multiset.
proof fn lemma_multiset_prepend<T>(s: Seq<T>, x: T)
    ensures
        (seq![x] + s).to_multiset() == s.to_multiset().insert(x),
{
    broadcast use group_to_multiset_ensures;
    broadcast use vstd::multiset::group_multiset_axioms;

    lemma_multiset_commutative(seq![x], s);
    assert(seq![x] =~= Seq::<T>::empty().push(x));
    assert(seq![x].to_multiset() =~= Multiset::<T>::empty().insert(x));
    assert((seq![x] + s).to_multiset() =~= s.to_multiset().insert(x));
}


/// Emitting the left head during a forward merge keeps the tie bookkeeping:
/// none of its ties can have been consumed from the right yet, so it joins
/// the left part of the written tie subsequence.
proof fn lemma_forward_left_emit<T: SortOrd>(
    s0: Seq<T>,
    s1: Seq<T>,
    s2: Seq<T>,
    lo: int,
    mid: int,
    hi: int,
    i: int,
    j: int,
    k: int,
)
    requires
        0 <= lo <= mid <= hi <= s0.len(),
        s1.len() == s0.len(),
        s2.len() == s0.len(),
        0 <= i < mid - lo,
        mid <= j <= hi,
        k == lo + i + (j - mid),
        sorted_rng::<T>(s0, lo, mid),
        forall|x: T| #![trigger ties_of::<T>(s1.subrange(lo, k), x)]
            ties_of::<T>(s1.subrange(lo, k), x) == ties_of::<T>(s0.subrange(lo, lo + i), x)
                + ties_of::<T>(s0.subrange(mid, j), x),
        forall|q: int| mid <= q < j ==> T::lt_spec(#[trigger] s0[q], s0[lo + i]),
        s2 == s1.update(k, s0[lo + i]),
    ensures
        forall|x: T| #![trigger ties_of::<T>(s2.subrange(lo, k + 1), x)]
            ties_of::<T>(s2.subrange(lo, k + 1), x) == ties_of::<T>(
                s0.subrange(lo, lo + i + 1),
                x,
            ) + ties_of::<T>(s0.subrange(mid, j), x),
        i + 1 < mid - lo ==> forall|q: int|
            mid <= q < j ==> T::lt_spec(#[trigger] s0[q], s0[lo + i + 1]),
{
    broadcast use vstd::seq::Seq::filter_distributes_over_add;
    broadcast use vstd::seq::Seq::lemma_filter_push;
    broadcast use vstd::seq_lib::group_filter_ensures;

    T::lt_laws();
    let e = s0[lo + i];
    assert(s2.subrange(lo, k + 1) =~= s1.subrange(lo, k).push(e));
    assert(s0.subrange(lo, lo + i + 1) =~= s0.subrange(lo, lo + i).push(e));
    assert forall|x: T| #![trigger ties_of::<T>(s2.subrange(lo, k + 1), x)]
        ties_of::<T>(s2.subrange(lo, k + 1), x) == ties_of::<T>(s0.subrange(lo, lo + i + 1), x)
            + ties_of::<T>(s0.subrange(mid, j), x) by {
        let q = |el: T| !T::lt_spec(el, x) && !T::lt_spec(x, el);
        let outp = s1.subrange(lo, k);
        let lc = s0.subrange(lo, lo + i);
        let rc = s0.subrange(mid, j);
        assert(ties_of::<T>(outp, x) == ties_of::<T>(lc, x) + ties_of::<T>(rc, x));
        if q(e) {
            assert(rc.filter(q) =~= Seq::<T>::empty()) by {
                if rc.filter(q).len() > 0 {
                    let r = rc.filter(q)[0];
                    assert(q(r));
                    lemma_filter_member(rc, q, 0);
                    let w = choose|w: int| 0 <= w < rc.len() && rc[w] == r;
                    assert(T::lt_spec(s0[mid + w], e));
                    assert(!T::lt_spec(r, e));
                }
            }
            assert(outp.push(e).filter(q) =~= (lc.filter(q) + rc.filter(q)).push(e));
            assert((lc.filter(q) + rc.filter(q)).push(e) =~= lc.filter(q).push(e) + rc.filter(
                q,
            ));
            assert(ties_of::<T>(s2.subrange(lo, k + 1), x) =~= ties_of::<T>(
                s0.subrange(lo, lo + i + 1),
                x,
            ) + ties_of::<T>(rc, x));
        } else {
            assert(outp.push(e).filter(q) =~= lc.filter(q) + rc.filter(q));
            assert(ties_of::<T>(s2.subrange(lo, k + 1), x) =~= ties_of::<T>(
                s0.subrange(lo, lo + i + 1),
                x,
            ) + ties_of::<T>(rc, x));
        }
    }
    if i + 1 < mid - lo {
        assert forall|q: int| mid <= q < j implies T::lt_spec(#[trigger] s0[q], s0[lo + i
            + 1]) by {
            assert(T::lt_spec(s0[q], s0[lo + i]));
            assert(!T::lt_spec(s0[lo + i + 1], s0[lo + i]));
        }
    }
}

/// Emitting the right head during a forward merge appends it behind both
/// parts of the written tie subsequence.
proof fn lemma_forward_right_emit<T: SortOrd>(
    s0: Seq<T>,
    s1: Seq<T>,
    s2: Seq<T>,
    lo: int,
    mid: int,
    hi: int,
    i: int,
    j: int,
    k: int,
)
    requires
        0 <= lo <= mid <= hi <= s0.len(),
        s1.len() == s0.len(),
        s2.len() == s0.len(),
        0 <= i <= mid - lo,
        mid <= j < hi,
        k == lo + i + (j - mid),
        forall|x: T| #![trigger ties_of::<T>(s1.subrange(lo, k), x)]
            ties_of::<T>(s1.subrange(lo, k), x) == ties_of::<T>(s0.subrange(lo, lo + i), x)
                + ties_of::<T>(s0.subrange(mid, j), x),
        i < mid - lo ==> forall|q: int|
            mid <= q < j ==> T::lt_spec(#[trigger] s0[q], s0[lo + i]),
        i < mid - lo ==> T::lt_spec(s0[j], s0[lo + i]),
        s2 == s1.update(k, s0[j]),
    ensures
        forall|x: T| #![trigger ties_of::<T>(s2.subrange(lo, k + 1), x)]
            ties_of::<T>(s2.subrange(lo, k + 1), x) == ties_of::<T>(s0.subrange(lo, lo + i), x)
                + ties_of::<T>(s0.subrange(mid, j + 1), x),
        i < mid - lo ==> forall|q: int|
            mid <= q < j + 1 ==> T::lt_spec(#[trigger] s0[q], s0[lo + i]),
{
    broadcast use vstd::seq::Seq::filter_distributes_over_add;
    broadcast use vstd::seq::Seq::lemma_filter_push;
    broadcast use vstd::seq_lib::group_filter_ensures;

    T::lt_laws();
    let e = s0[j];
    assert(s2.subrange(lo, k + 1) =~= s1.subrange(lo, k).push(e));
    assert(s0.subrange(mid, j + 1) =~= s0.subrange(mid, j).push(e));
    assert forall|x: T| #![trigger ties_of::<T>(s2.subrange(lo, k + 1), x)]
        ties_of::<T>(s2.subrange(lo, k + 1), x) == ties_of::<T>(s0.subrange(lo, lo + i), x)
            + ties_of::<T>(s0.subrange(mid, j + 1), x) by {
        let q = |el: T| !T::lt_spec(el, x) && !T::lt_spec(x, el);
        let outp = s1.subrange(lo, k);
        let lc = s0.subrange(lo, lo + i);
        let rc = s0.subrange(mid, j);
        assert(ties_of::<T>(outp, x) == ties_of::<T>(lc, x) + ties_of::<T>(rc, x));
        if q(e) {
            assert(outp.push(e).filter(q) =~= (lc.filter(q) + rc.filter(q)).push(e));
            assert((lc.filter(q) + rc.filter(q)).push(e) =~= lc.filter(q) + rc.filter(q).push(
                e,
            ));
            assert(ties_of::<T>(s2.subrange(lo, k + 1), x) =~= ties_of::<T>(lc, x) + ties_of::<
                T,
            >(s0.subrange(mid, j + 1), x));
        } else {
            assert(outp.push(e).filter(q) =~= lc.filter(q) + rc.filter(q));
            assert(ties_of::<T>(s2.subrange(lo, k + 1), x) =~= ties_of::<T>(lc, x) + ties_of::<
                T,
            >(s0.subrange(mid, j + 1), x));
        }
    }
}

/// Emitting the buffered right head during a backward merge: none of its
/// ties can have been consumed from the left yet, so it stays ahead of the
/// consumed left part of the written tie subsequence.
proof fn lemma_backward_right_emit<T: SortOrd>(
    s0: Seq<T>,
    s1: Seq<T>,
    s2: Seq<T>,
    lo: int,
    mid: int,
    hi: int,
    i: int,
    j: int,
    k: int,
)
    requires
        0 <= lo <= mid <= hi <= s0.len(),
        s1.len() == s0.len(),
        s2.len() == s0.len(),
        0 < i <= hi - mid,
        lo <= j <= mid,
        k == i + j,
        sorted_rng::<T>(s0, mid, hi),
        forall|x: T| #![trigger ties_of::<T>(s1.subrange(k, hi), x)]
            ties_of::<T>(s1.subrange(k, hi), x) == ties_of::<T>(s0.subrange(j, mid), x)
                + ties_of::<T>(s0.subrange(mid + i, hi), x),
        forall|q: int| j <= q < mid ==> T::lt_spec(s0[mid + i - 1], #[trigger] s0[q]),
        s2 == s1.update(k - 1, s0[mid + i - 1]),
    ensures
        forall|x: T| #![trigger ties_of::<T>(s2.subrange(k - 1, hi), x)]
            ties_of::<T>(s2.subrange(k - 1, hi), x) == ties_of::<T>(s0.subrange(j, mid), x)
                + ties_of::<T>(s0.subrange(mid + i - 1, hi), x),
        i - 1 > 0 ==> forall|q: int|
            j <= q < mid ==> T::lt_spec(s0[mid + i - 2], #[trigger] s0[q]),
{
    broadcast use vstd::seq::Seq::filter_distributes_over_add;
    broadcast use vstd::seq::Seq::lemma_filter_push;
    broadcast use vstd::seq_lib::group_filter_ensures;

    T::lt_laws();
    let e = s0[mid + i - 1];
    assert(s2.subrange(k - 1, hi) =~= seq![e] + s1.subrange(k, hi));
    assert(s0.subrange(mid + i - 1, hi) =~= seq![e] + s0.subrange(mid + i, hi));
    assert(seq![e] =~= Seq::<T>::empty().push(e));
    assert forall|x: T| #![trigger ties_of::<T>(s2.subrange(k - 1, hi), x)]
        ties_of::<T>(s2.subrange(k - 1, hi), x) == ties_of::<T>(s0.subrange(j, mid), x)
            + ties_of::<T>(s0.subrange(mid + i - 1, hi), x) by {
        let q = |el: T| !T::lt_spec(el, x) && !T::lt_spec(x, el);
        let outp = s1.subrange(k, hi);
        let lc = s0.subrange(j, mid);
        let rc = s0.subrange(mid + i, hi);
        assert(ties_of::<T>(outp, x) == ties_of::<T>(lc, x) + ties_of::<T>(rc, x));
        assert(Seq::<T>::empty().filter(q) =~= Seq::<T>::empty());
        if q(e) {
            assert(lc.filter(q) =~= Seq::<T>::empty()) by {
                if lc.filter(q).len() > 0 {
                    let l = lc.filter(q)[0];
                    assert(q(l));
                    lemma_filter_member(lc, q, 0);
                    let w = choose|w: int| 0 <= w < lc.len() && lc[w] == l;
                    assert(T::lt_spec(e, s0[j + w]));
                    assert(!T::lt_spec(e, l));
                }
            }
            assert(seq![e].filter(q) =~= seq![e]);
            assert((seq![e] + outp).filter(q) =~= seq![e] + (lc.filter(q) + rc.filter(q)));
            assert(seq![e] + (lc.filter(q) + rc.filter(q)) =~= lc.filter(q) + (seq![e]
                + rc.filter(q)));
            assert((seq![e] + rc).filter(q) =~= seq![e] + rc.filter(q));
            assert(ties_of::<T>(s2.subrange(k - 1, hi), x) =~= ties_of::<T>(lc, x) + ties_of::<
                T,
            >(s0.subrange(mid + i - 1, hi), x));
        } else {
            assert(seq![e].filter(q) =~= Seq::<T>::empty());
            assert((seq![e] + outp).filter(q) =~= lc.filter(q) + rc.filter(q));
            assert((seq![e] + rc).filter(q) =~= rc.filter(q));
            assert(ties_of::<T>(s2.subrange(k - 1, hi), x) =~= ties_of::<T>(lc, x) + ties_of::<
                T,
            >(s0.subrange(mid + i - 1, hi), x));
        }
    }
    if i - 1 > 0 {
        assert forall|q: int| j <= q < mid implies T::lt_spec(
            s0[mid + i - 2],
            #[trigger] s0[q],
        ) by {
            assert(!T::lt_spec(s0[mid + i - 1], s0[mid + i - 2]));
            assert(T::lt_spec(s0[mid + i - 1], s0[q]));
        }
    }
}

/// Emitting the left tail element during a backward merge puts it right at
/// the front of the consumed left part of the written tie subsequence.
proof fn lemma_backward_left_emit<T: SortOrd>(
    s0: Seq<T>,
    s1: Seq<T>,
    s2: Seq<T>,
    lo: int,
    mid: int,
    hi: int,
    i: int,
    j: int,
    k: int,
)
    requires
        0 <= lo <= mid <= hi <= s0.len(),
        s1.len() == s0.len(),
        s2.len() == s0.len(),
        0 <= i <= hi - mid,
        lo < j <= mid,
        k == i + j,
        forall|x: T| #![trigger ties_of::<T>(s1.subrange(k, hi), x)]
            ties_of::<T>(s1.subrange(k, hi), x) == ties_of::<T>(s0.subrange(j, mid), x)
                + ties_of::<T>(s0.subrange(mid + i, hi), x),
        i > 0 ==> forall|q: int| j <= q < mid ==> T::lt_spec(s0[mid + i - 1], #[trigger] s0[q]),
        i > 0 ==> T::lt_spec(s0[mid + i - 1], s0[j - 1]),
        s2 == s1.update(k - 1, s0[j - 1]),
    ensures
        forall|x: T| #![trigger ties_of::<T>(s2.subrange(k - 1, hi), x)]
            ties_of::<T>(s2.subrange(k - 1, hi), x) == ties_of::<T>(s0.subrange(j - 1, mid), x)
                + ties_of::<T>(s0.subrange(mid + i, hi), x),
        i > 0 ==> forall|q: int|
            j - 1 <= q < mid ==> T::lt_spec(s0[mid + i - 1], #[trigger] s0[q]),
{
    broadcast use vstd::seq::Seq::filter_distributes_over_add;
    broadcast use vstd::seq::Seq::lemma_filter_push;
    broadcast use vstd::seq_lib::group_filter_ensures;

    T::lt_laws();
    let e = s0[j - 1];
    assert(s2.subrange(k - 1, hi) =~= seq![e] + s1.subrange(k, hi));
    assert(s0.subrange(j - 1, mid) =~= seq![e] + s0.subrange(j, mid));
    assert(seq![e] =~= Seq::<T>::empty().push(e));
    assert forall|x: T| #![trigger ties_of::<T>(s2.subrange(k - 1, hi), x)]
        ties_of::<T>(s2.subrange(k - 1, hi), x) == ties_of::<T>(s0.subrange(j - 1, mid), x)
            + ties_of::<T>(s0.subrange(mid + i, hi), x) by {
        let q = |el: T| !T::lt_spec(el, x) && !T::lt_spec(x, el);
        let outp = s1.subrange(k, hi);
        let lc = s0.subrange(j, mid);
        let rc = s0.subrange(mid + i, hi);
        assert(ties_of::<T>(outp, x) == ties_of::<T>(lc, x) + ties_of::<T>(rc, x));
        assert(Seq::<T>::empty().filter(q) =~= Seq::<T>::empty());
        if q(e) {
            assert(seq![e].filter(q) =~= seq![e]);
        } else {
            assert(seq![e].filter(q) =~= Seq::<T>::empty());
        }
        assert((seq![e] + outp).filter(q) =~= seq![e].filter(q) + (lc.filter(q) + rc.filter(
            q,
        )));
        assert((seq![e] + lc).filter(q) =~= seq![e].filter(q) + lc.filter(q));
        assert(seq![e].filter(q) + (lc.filter(q) + rc.filter(q)) =~= (seq![e].filter(q)
            + lc.filter(q)) + rc.filter(q));
        assert(ties_of::<T>(s2.subrange(k - 1, hi), x) =~= ties_of::<T>(
            s0.subrange(j - 1, mid),
            x,
        ) + ties_of::<T>(rc, x));
    }
}

/// Merge the sorted ranges `[lo, mid)` and `[mid, hi)` in place, buffering
/// whichever half is shorter: the left one for a forward merge, the right
/// one for a backward merge.
pub(crate) fn merge_rng<T: SortOrd>(
    arr: &mut Vec<T>,
    lo: usize,
    mid: usize,
    hi: usize,
    buf: &mut Vec<T>,
)
    requires
        lo <= mid <= hi <= old(arr)@.len(),
        sorted_rng::<T>(old(arr)@, lo as int, mid as int),
        sorted_rng::<T>(old(arr)@, mid as int, hi as int),
    ensures
        final(arr)@.len() == old(arr)@.len(),
        final(arr)@.to_multiset() == old(arr)@.to_multiset(),
        same_outside(old(arr)@, final(arr)@, lo as int, hi as int),
        sorted_rng::<T>(final(arr)@, lo as int, hi as int),
        forall|x: T| #![trigger ties_of::<T>(final(arr)@.subrange(lo as int, hi as int), x)]
            ties_of::<T>(final(arr)@.subrange(lo as int, hi as int), x) == ties_of::<T>(
                old(arr)@.subrange(lo as int, hi as int),
                x,
            ),
{
    proof {
        T::lt_laws();
    }
    let ghost s0 = arr@;
    let ghost n = arr@.len();
    buf.clear();
    if mid - lo <= hi - mid {
        // forward merge: buffer the left half
        let left_len = mid - lo;
        let mut c = lo;
        while c < mid
            invariant
                lo <= c <= mid <= hi <= arr@.len(),
                arr@ == s0,
                buf@ =~= s0.subrange(lo as int, c as int),
            decreases mid - c,
        {
            let e = arr[c];
            buf.push(e);
            c += 1;
        }
        proof {
            broadcast use group_to_multiset_ensures;
            broadcast use vstd::multiset::group_multiset_axioms;

            assert(arr@.subrange(lo as int, lo as int) =~= Seq::<T>::empty());
            assert(buf@.subrange(0, 0) =~= Seq::<T>::empty());
            assert(s0.subrange(mid as int, mid as int) =~= Seq::<T>::empty());
            assert(Seq::<T>::empty().to_multiset() =~= Multiset::<T>::empty());
            assert(Multiset::<T>::empty().add(Multiset::<T>::empty())
                =~= Multiset::<T>::empty());
        }
        let mut i: usize = 0;
        let mut j = mid;
        let mut k = lo;
        while i < left_len && j < hi
            invariant
                lo <= mid <= hi <= arr@.len(),
                arr@.len() == n == s0.len(),
                left_len == mid - lo,
                buf@ == s0.subrange(lo as int, mid as int),
                0 <= i <= left_len,
                mid <= j <= hi,
                k == lo + i + (j - mid),
                sorted_rng::<T>(s0, lo as int, mid as int),
                sorted_rng::<T>(s0, mid as int, hi as int),
                forall|q: int| j <= q < n ==> arr@[q] == #[trigger] s0[q],
                forall|q: int| 0 <= q < lo ==> arr@[q] == #[trigger] s0[q],
                sorted_rng::<T>(arr@, lo as int, k as int),
                forall|q: int|
                    lo <= q < k && i < left_len ==> !T::lt_spec(buf@[i as int], #[trigger] arr@[q]),
                forall|q: int|
                    lo <= q < k && j < hi ==> !T::lt_spec(s0[j as int], #[trigger] arr@[q]),
                arr@.subrange(lo as int, k as int).to_multiset() == buf@.subrange(
                    0,
                    i as int,
                ).to_multiset().add(s0.subrange(mid as int, j as int).to_multiset()),
                forall|x: T| #![trigger ties_of::<T>(arr@.subrange(lo as int, k as int), x)]
                    ties_of::<T>(arr@.subrange(lo as int, k as int), x) == ties_of::<T>(
                        s0.subrange(lo as int, lo + i as int),
                        x,
                    ) + ties_of::<T>(s0.subrange(mid as int, j as int), x),
                i < left_len ==> forall|q: int|
                    mid <= q < j ==> T::lt_spec(#[trigger] s0[q], buf@[i as int]),
            decreases hi + left_len - i - j,
        {
            proof {
                T::lt_laws();
            }
            let ghost s1 = arr@;
            if le(&buf[i], &arr[j]) {
                let e = buf[i];
                arr[k] = e;
                proof {
                    broadcast use group_to_multiset_ensures;
                    broadcast use vstd::multiset::group_multiset_axioms;

                    let s2 = arr@;
                    assert(s2.subrange(lo as int, k + 1) =~= s1.subrange(lo as int, k as int).push(
                        e,
                    ));
                    assert(buf@.subrange(0, i + 1) =~= buf@.subrange(0, i as int).push(e));
                    assert(s2.subrange(lo as int, k + 1).to_multiset() == buf@.subrange(
                        0,
                        i + 1,
                    ).to_multiset().add(s0.subrange(mid as int, j as int).to_multiset()));
                    assert forall|q: int|
                        lo <= q < k + 1 && i + 1 < left_len implies !T::lt_spec(
                        buf@[i + 1],
                        #[trigger] s2[q],
                    ) by {
                        assert(!T::lt_spec(buf@[i + 1], buf@[i as int]));
                    }
                    assert forall|q: int| lo <= q < k + 1 && j < hi implies !T::lt_spec(
                        s0[j as int],
                        #[trigger] s2[q],
                    ) by {
                        if q == k {
                            assert(s2[q] == buf@[i as int]);
                        }
                    }
                    lemma_forward_left_emit::<T>(s0, s1, s2, lo as int, mid as int, hi as int, i as int, j as int, k as int);
                }
                i += 1;
            } else {
                let e = arr[j];
                arr[k] = e;
                proof {
                    broadcast use group_to_multiset_ensures;
                    broadcast use vstd::multiset::group_multiset_axioms;

                    let s2 = arr@;
                    assert(e == s0[j as int]);
                    assert(s2.subrange(lo as int, k + 1) =~= s1.subrange(lo as int, k as int).push(
                        e,
                    ));
                    assert(s0.subrange(mid as int, j + 1) =~= s0.subrange(
                        mid as int,
                        j as int,
                    ).push(e));
                    assert(s2.subrange(lo as int, k + 1).to_multiset() == buf@.subrange(
                        0,
                        i as int,
                    ).to_multiset().add(s0.subrange(mid as int, j + 1).to_multiset()));
                    assert forall|q: int| lo <= q < k + 1 && i < left_len implies !T::lt_spec(
                        buf@[i as int],
                        #[trigger] s2[q],
                    ) by {
                        if q == k {
                            assert(T::lt_spec(e, buf@[i as int]));
                        }
                    }
                    assert forall|q: int| lo <= q < k + 1 && j + 1 < hi implies !T::lt_spec(
                        s0[j + 1],
                        #[trigger] s2[q],
                    ) by {
                        if q == k {
                            assert(!T::lt_spec(s0[j + 1], s0[j as int]));
                        } else {
                            assert(!T::lt_spec(s0[j as int], s2[q]));
                            assert(!T::lt_spec(s0[j + 1], s0[j as int]));
                        }
                    }
                    lemma_forward_right_emit::<T>(s0, s1, s2, lo as int, mid as int, hi as int, i as int, j as int, k as int);
                }
                j += 1;
            }
            k += 1;
        }
        // drain the rest of the buffer; any left-over right part is in place
        while i < left_len
            invariant
                lo <= mid <= hi <= arr@.len(),
                arr@.len() == n == s0.len(),
                left_len == mid - lo,
                buf@ == s0.subrange(lo as int, mid as int),
                0 <= i <= left_len,
                mid <= j <= hi,
                i < left_len ==> j == hi,
                k == lo + i + (j - mid),
                sorted_rng::<T>(s0, lo as int, mid as int),
                sorted_rng::<T>(s0, mid as int, hi as int),
                forall|q: int| j <= q < n ==> arr@[q] == #[trigger] s0[q],
                forall|q: int| 0 <= q < lo ==> arr@[q] == #[trigger] s0[q],
                sorted_rng::<T>(arr@, lo as int, k as int),
                forall|q: int|
                    lo <= q < k && j < hi ==> !T::lt_spec(s0[j as int], #[trigger] arr@[q]),
                forall|q: int|
                    lo <= q < k && i < left_len ==> !T::lt_spec(buf@[i as int], #[trigger] arr@[q]),
                arr@.subrange(lo as int, k as int).to_multiset() == buf@.subrange(
                    0,
                    i as int,
                ).to_multiset().add(s0.subrange(mid as int, j as int).to_multiset()),
                forall|x: T| #![trigger ties_of::<T>(arr@.subrange(lo as int, k as int), x)]
                    ties_of::<T>(arr@.subrange(lo as int, k as int), x) == ties_of::<T>(
                        s0.subrange(lo as int, lo + i as int),
                        x,
                    ) + ties_of::<T>(s0.subrange(mid as int, j as int), x),
                i < left_len ==> forall|q: int|
                    mid <= q < j ==> T::lt_spec(#[trigger] s0[q], buf@[i as int]),
            decreases left_len - i,
        {
            proof {
                T::lt_laws();
            }
            let ghost s1 = arr@;
            let e = buf[i];
            arr[k] = e;
            proof {
                broadcast use group_to_multiset_ensures;
                broadcast use vstd::multiset::group_multiset_axioms;

                let s2 = arr@;
                assert(s2.subrange(lo as int, k + 1) =~= s1.subrange(lo as int, k as int).push(e));
                assert(buf@.subrange(0, i + 1) =~= buf@.subrange(0, i as int).push(e));
                assert forall|q: int| lo <= q < k + 1 && i + 1 < left_len implies !T::lt_spec(
                    buf@[i + 1],
                    #[trigger] s2[q],
                ) by {
                    assert(!T::lt_spec(buf@[i + 1], buf@[i as int]));
                }
                lemma_forward_left_emit::<T>(s0, s1, s2, lo as int, mid as int, hi as int, i as int, j as int, k as int);
            }
            i += 1;
            k += 1;
        }
        proof {
            T::lt_laws();
            let s9 = arr@;
            assert(i == left_len);
            assert(k == j);
            // glue the merged prefix with the untouched right remainder
            assert forall|a: int, b: int| lo <= a <= b < hi implies !(#[trigger] T::lt_spec(
                s9[b],
                s9[a],
            )) by {
                if b < k {
                    assert(!T::lt_spec(s9[b], s9[a]));
                } else if a >= k {
                    assert(s9[a] == s0[a] && s9[b] == s0[b]);
                    assert(!T::lt_spec(s0[b], s0[a]));
                } else {
                    assert(s9[b] == s0[b]);
                    assert(!T::lt_spec(s0[j as int], s9[a]));
                    assert(!T::lt_spec(s0[b], s0[j as int]));
                }
            }
            // the multiset of the whole range is unchanged
            assert(s9.subrange(lo as int, hi as int).to_multiset() == s0.subrange(
                lo as int,
                hi as int,
            ).to_multiset()) by {
                broadcast use vstd::multiset::group_multiset_axioms;

                assert(buf@.subrange(0, left_len as int) =~= s0.subrange(lo as int, mid as int));
                assert(s9.subrange(lo as int, hi as int) =~= s9.subrange(lo as int, k as int)
                    + s9.subrange(k as int, hi as int));
                assert(s9.subrange(k as int, hi as int) =~= s0.subrange(j as int, hi as int));
                lemma_multiset_commutative(
                    s9.subrange(lo as int, k as int),
                    s9.subrange(k as int, hi as int),
                );
                lemma_multiset_commutative(
                    s0.subrange(lo as int, mid as int),
                    s0.subrange(mid as int, hi as int),
                );
                assert(s0.subrange(lo as int, mid as int) + s0.subrange(mid as int, hi as int)
                    =~= s0.subrange(lo as int, hi as int));
                lemma_multiset_commutative(
                    s0.subrange(mid as int, j as int),
                    s0.subrange(j as int, hi as int),
                );
                assert(s0.subrange(mid as int, j as int) + s0.subrange(j as int, hi as int) =~= s0
                    .subrange(mid as int, hi as int));
                assert(s9.subrange(lo as int, hi as int).to_multiset() =~= s0.subrange(
                    lo as int,
                    hi as int,
                ).to_multiset());
            }
            assert(same_outside(s0, s9, lo as int, hi as int));
            lemma_perm_rng_full(s0, s9, lo as int, hi as int);
            // the written part and the untouched right leftover reassemble
            // every tie subsequence of the range
            assert forall|x: T| #![trigger ties_of::<T>(s9.subrange(lo as int, hi as int), x)]
                ties_of::<T>(s9.subrange(lo as int, hi as int), x) == ties_of::<T>(
                    s0.subrange(lo as int, hi as int),
                    x,
                ) by {
                broadcast use vstd::seq::Seq::filter_distributes_over_add;
                broadcast use vstd::seq_lib::group_filter_ensures;

                assert(ties_of::<T>(s9.subrange(lo as int, k as int), x) == ties_of::<T>(
                    s0.subrange(lo as int, lo + i as int),
                    x,
                ) + ties_of::<T>(s0.subrange(mid as int, j as int), x));
                assert(s0.subrange(lo as int, lo + i as int) =~= s0.subrange(
                    lo as int,
                    mid as int,
                ));
                assert(s9.subrange(lo as int, hi as int) =~= s9.subrange(lo as int, k as int)
                    + s9.subrange(k as int, hi as int));
                assert(s9.subrange(k as int, hi as int) =~= s0.subrange(j as int, hi as int));
                assert(s0.subrange(lo as int, hi as int) =~= (s0.subrange(lo as int, mid as int)
                    + s0.subrange(mid as int, j as int)) + s0.subrange(j as int, hi as int));
                let q = |el: T| !T::lt_spec(el, x) && !T::lt_spec(x, el);
                assert(ties_of::<T>(s9.subrange(lo as int, hi as int), x) =~= ties_of::<T>(
                    s0.subrange(lo as int, hi as int),
                    x,
                ));
            }
        }
    } else {
        // backward merge: buffer the right half
        let right_len = hi - mid;
        let mut c = mid;
        while c < hi
            invariant
                lo <= mid <= c <= hi <= arr@.len(),
                arr@ == s0,
                buf@ =~= s0.subrange(mid as int, c as int),
            decreases hi - c,
        {
            let e = arr[c];
            buf.push(e);
            c += 1;
        }
        proof {
            broadcast use group_to_multiset_ensures;
            broadcast use vstd::multiset::group_multiset_axioms;

            assert(arr@.subrange(hi as int, hi as int) =~= Seq::<T>::empty());
            assert(buf@.subrange(right_len as int, right_len as int) =~= Seq::<T>::empty());
            assert(s0.subrange(mid as int, mid as int) =~= Seq::<T>::empty());
            assert(Seq::<T>::empty().to_multiset() =~= Multiset::<T>::empty());
            assert(Multiset::<T>::empty().add(Multiset::<T>::empty())
                =~= Multiset::<T>::empty());
        }
        let mut i = right_len;
        let mut j = mid;
        let mut k = hi;
        while i > 0 && j > lo
            invariant
                lo <= mid <= hi <= arr@.len(),
                arr@.len() == n == s0.len(),
                right_len == hi - mid,
                buf@ == s0.subrange(mid as int, hi as int),
                0 <= i <= right_len,
                lo <= j <= mid,
                k == i + j,
                sorted_rng::<T>(s0, lo as int, mid as int),
                sorted_rng::<T>(s0, mid as int, hi as int),
                forall|q: int| 0 <= q < j ==> arr@[q] == #[trigger] s0[q],
                forall|q: int| hi <= q < n ==> arr@[q] == #[trigger] s0[q],
                sorted_rng::<T>(arr@, k as int, hi as int),
                forall|q: int|
                    k <= q < hi && i > 0 ==> !T::lt_spec(#[trigger] arr@[q], buf@[i - 1]),
                forall|q: int| k <= q < hi && j > lo ==> !T::lt_spec(#[trigger] arr@[q], s0[j - 1]),
                arr@.subrange(k as int, hi as int).to_multiset() == buf@.subrange(
                    i as int,
                    right_len as int,
                ).to_multiset().add(s0.subrange(j as int, mid as int).to_multiset()),
                forall|x: T| #![trigger ties_of::<T>(arr@.subrange(k as int, hi as int), x)]
                    ties_of::<T>(arr@.subrange(k as int, hi as int), x) == ties_of::<T>(
                        s0.subrange(j as int, mid as int),
                        x,
                    ) + ties_of::<T>(s0.subrange(mid + i as int, hi as int), x),
                i > 0 ==> forall|q: int|
                    j <= q < mid ==> T::lt_spec(buf@[i - 1], #[trigger] s0[q]),
            decreases i + j,
        {
            proof {
                T::lt_laws();
            }
            let ghost s1 = arr@;
            if ge(&buf[i - 1], &arr[j - 1]) {
                let e = buf[i - 1];
                k -= 1;
                arr[k] = e;
                proof {
                    broadcast use group_to_multiset_ensures;
                    broadcast use vstd::multiset::group_multiset_axioms;

                    let s2 = arr@;
                    assert(s2.subrange(k as int, hi as int) =~= seq![e] + s1.subrange(
                        k + 1,
                        hi as int,
                    ));
                    lemma_multiset_prepend(s1.subrange(k + 1, hi as int), e);
                    assert(buf@.subrange(i - 1, right_len as int) =~= seq![e] + buf@.subrange(
                        i as int,
                        right_len as int,
                    ));
                    lemma_multiset_prepend(buf@.subrange(i as int, right_len as int), e);
                    assert(s2.subrange(k as int, hi as int).to_multiset() == buf@.subrange(
                        i - 1,
                        right_len as int,
                    ).to_multiset().add(s0.subrange(j as int, mid as int).to_multiset()));
                    // the placed element is not after anything already placed
                    assert(sorted_rng::<T>(s2, k as int, hi as int)) by {
                        assert forall|a: int, b: int| k <= a <= b < hi implies !(
                        #[trigger] T::lt_spec(s2[b], s2[a])) by {
                            if a == k && b > k {
                                assert(!T::lt_spec(s1[b], buf@[i - 1]));
                            } else if a > k {
                                assert(!T::lt_spec(s1[b], s1[a]));
                            }
                        }
                    }
                    assert forall|q: int| k <= q < hi && i - 1 > 0 implies !T::lt_spec(
                        #[trigger] s2[q],
                        buf@[i - 2],
                    ) by {
                        assert(!T::lt_spec(buf@[i - 1], buf@[i - 2]));
                        if q > k {
                            assert(!T::lt_spec(s1[q], buf@[i - 1]));
                        }
                    }
                    assert forall|q: int| k <= q < hi && j > lo implies !T::lt_spec(
                        #[trigger] s2[q],
                        s0[j - 1],
                    ) by {
                        if q == k {
                            assert(!T::lt_spec(e, s0[j - 1]));
                        } else {
                            assert(!T::lt_spec(s1[q], s0[j - 1]));
                        }
                    }
                    lemma_backward_right_emit::<T>(s0, s1, s2, lo as int, mid as int, hi as int, i as int, j as int, k + 1);
                }
                i -= 1;
            } else {
                let e = arr[j - 1];
                k -= 1;
                arr[k] = e;
                proof {
                    broadcast use group_to_multiset_ensures;
                    broadcast use vstd::multiset::group_multiset_axioms;

                    let s2 = arr@;
                    assert(e == s0[j - 1]);
                    assert(T::lt_spec(buf@[i - 1], s0[j - 1]));
                    assert(s2.subrange(k as int, hi as int) =~= seq![e] + s1.subrange(
                        k + 1,
                        hi as int,
                    ));
                    lemma_multiset_prepend(s1.subrange(k + 1, hi as int), e);
                    assert(s0.subrange(j - 1, mid as int) =~= seq![e] + s0.subrange(
                        j as int,
                        mid as int,
                    ));
                    lemma_multiset_prepend(s0.subrange(j as int, mid as int), e);
                    assert(s2.subrange(k as int, hi as int).to_multiset() == buf@.subrange(
                        i as int,
                        right_len as int,
                    ).to_multiset().add(s0.subrange(j - 1, mid as int).to_multiset()));
                    assert(sorted_rng::<T>(s2, k as int, hi as int)) by {
                        assert forall|a: int, b: int| k <= a <= b < hi implies !(
                        #[trigger] T::lt_spec(s2[b], s2[a])) by {
                            if a == k && b > k {
                                assert(!T::lt_spec(s1[b], s0[j - 1]));
                            } else if a > k {
                                assert(!T::lt_spec(s1[b], s1[a]));
                            }
                        }
                    }
                    assert forall|q: int| k <= q < hi && i > 0 implies !T::lt_spec(
                        #[trigger] s2[q],
                        buf@[i - 1],
                    ) by {
                        if q == k {
                        } else {
                            assert(!T::lt_spec(s1[q], buf@[i - 1]));
                        }
                    }
                    assert forall|q: int| k <= q < hi && j - 1 > lo implies !T::lt_spec(
                        #[trigger] s2[q],
                        s0[j - 2],
                    ) by {
                        assert(!T::lt_spec(s0[j - 1], s0[j - 2]));
                        if q > k {
                            assert(!T::lt_spec(s1[q], s0[j - 1]));
                        }
                    }
                    lemma_backward_left_emit::<T>(s0, s1, s2, lo as int, mid as int, hi as int, i as int, j as int, k + 1);
                }
                j -= 1;
            }
        }
        // drain the rest of the buffer; any left-over left part is in place
        while i > 0
            invariant
                lo <= mid <= hi <= arr@.len(),
                arr@.len() == n == s0.len(),
                right_len == hi - mid,
                buf@ == s0.subrange(mid as int, hi as int),
                0 <= i <= right_len,
                lo <= j <= mid,
                i > 0 ==> j == lo,
                k == i + j,
                sorted_rng::<T>(s0, mid as int, hi as int),
                forall|q: int| 0 <= q < j ==> arr@[q] == #[trigger] s0[q],
                forall|q: int| hi <= q < n ==> arr@[q] == #[trigger] s0[q],
                sorted_rng::<T>(arr@, k as int, hi as int),
                forall|q: int|
                    k <= q < hi && i > 0 ==> !T::lt_spec(#[trigger] arr@[q], buf@[i - 1]),
                forall|q: int| k <= q < hi && j > lo ==> !T::lt_spec(#[trigger] arr@[q], s0[j - 1]),
                arr@.subrange(k as int, hi as int).to_multiset() == buf@.subrange(
                    i as int,
                    right_len as int,
                ).to_multiset().add(s0.subrange(j as int, mid as int).to_multiset()),
                forall|x: T| #![trigger ties_of::<T>(arr@.subrange(k as int, hi as int), x)]
                    ties_of::<T>(arr@.subrange(k as int, hi as int), x) == ties_of::<T>(
                        s0.subrange(j as int, mid as int),
                        x,
                    ) + ties_of::<T>(s0.subrange(mid + i as int, hi as int), x),
                i > 0 ==> forall|q: int|
                    j <= q < mid ==> T::lt_spec(buf@[i - 1], #[trigger] s0[q]),
            decreases i,
        {
            proof {
                T::lt_laws();
            }
            let ghost s1 = arr@;
            let e = buf[i - 1];
            k -= 1;
            arr[k] = e;
            proof {
                broadcast use group_to_multiset_ensures;
                broadcast use vstd::multiset::group_multiset_axioms;

                let s2 = arr@;
                assert(s2.subrange(k as int, hi as int) =~= seq![e] + s1.subrange(k + 1, hi as int));
                lemma_multiset_prepend(s1.subrange(k + 1, hi as int), e);
                assert(buf@.subrange(i - 1, right_len as int) =~= seq![e] + buf@.subrange(
                    i as int,
                    right_len as int,
                ));
                lemma_multiset_prepend(buf@.subrange(i as int, right_len as int), e);
                assert(sorted_rng::<T>(s2, k as int, hi as int)) by {
                    assert forall|a: int, b: int| k <= a <= b < hi implies !(#[trigger] T::lt_spec(
                        s2[b],
                        s2[a],
                    )) by {
                        if a == k && b > k {
                            assert(!T::lt_spec(s1[b], buf@[i - 1]));
                        } else if a > k {
                            assert(!T::lt_spec(s1[b], s1[a]));
                        }
                    }
                }
                assert forall|q: int| k <= q < hi && i - 1 > 0 implies !T::lt_spec(
                    #[trigger] s2[q],
                    buf@[i - 2],
                ) by {
                    assert(!T::lt_spec(buf@[i - 1], buf@[i - 2]));
                    if q > k {
                        assert(!T::lt_spec(s1[q], buf@[i - 1]));
                    }
                }
                lemma_backward_right_emit::<T>(s0, s1, s2, lo as int, mid as int, hi as int, i as int, j as int, k + 1);
            }
            i -= 1;
        }
        proof {
            T::lt_laws();
            let s9 = arr@;
            assert(i == 0 && k == j);
            // glue the untouched prefix `[lo, j)` to the merged tail
            assert forall|a: int, b: int| lo <= a <= b < hi implies !(#[trigger] T::lt_spec(
                s9[b],
                s9[a],
            )) by {
                if b < k {
                    assert(s9[a] == s0[a] && s9[b] == s0[b]);
                } else if a < k {
                    assert(s9[a] == s0[a]);
                    assert(j > lo ==> !T::lt_spec(s9[b], s0[j - 1]));
                    assert(!T::lt_spec(s0[j - 1], s0[a]));
                } else {
                    assert(!T::lt_spec(s9[b], s9[a]));
                }
            }
            // the multiset of the whole range is unchanged
            assert(s9.subrange(lo as int, hi as int).to_multiset() == s0.subrange(
                lo as int,
                hi as int,
            ).to_multiset()) by {
                assert(buf@.subrange(0, right_len as int) =~= s0.subrange(mid as int, hi as int));
                assert(s9.subrange(lo as int, hi as int) =~= s9.subrange(lo as int, k as int)
                    + s9.subrange(k as int, hi as int));
                assert(s9.subrange(lo as int, k as int) =~= s0.subrange(lo as int, j as int));
                lemma_multiset_commutative(
                    s9.subrange(lo as int, k as int),
                    s9.subrange(k as int, hi as int),
                );
                lemma_multiset_commutative(
                    s0.subrange(lo as int, j as int),
                    s0.subrange(j as int, hi as int),
                );
                assert(s0.subrange(lo as int, j as int) + s0.subrange(j as int, hi as int) =~= s0
                    .subrange(lo as int, hi as int));
                lemma_multiset_commutative(
                    s0.subrange(j as int, mid as int),
                    s0.subrange(mid as int, hi as int),
                );
                assert(s0.subrange(j as int, mid as int) + s0.subrange(mid as int, hi as int) =~= s0
                    .subrange(j as int, hi as int));
                broadcast use vstd::multiset::group_multiset_axioms;

            }
            assert(same_outside(s0, s9, lo as int, hi as int));
            lemma_perm_rng_full(s0, s9, lo as int, hi as int);
            // the untouched left leftover and the written part reassemble
            // every tie subsequence of the range
            assert forall|x: T| #![trigger ties_of::<T>(s9.subrange(lo as int, hi as int), x)]
                ties_of::<T>(s9.subrange(lo as int, hi as int), x) == ties_of::<T>(
                    s0.subrange(lo as int, hi as int),
                    x,
                ) by {
                broadcast use vstd::seq::Seq::filter_distributes_over_add;
                broadcast use vstd::seq_lib::group_filter_ensures;

                assert(ties_of::<T>(s9.subrange(k as int, hi as int), x) == ties_of::<T>(
                    s0.subrange(j as int, mid as int),
                    x,
                ) + ties_of::<T>(s0.subrange(mid + i as int, hi as int), x));
                assert(s0.subrange(mid + i as int, hi as int) =~= s0.subrange(
                    mid as int,
                    hi as int,
                ));
                assert(s9.subrange(lo as int, hi as int) =~= s9.subrange(lo as int, k as int)
                    + s9.subrange(k as int, hi as int));
                assert(s9.subrange(lo as int, k as int) =~= s0.subrange(lo as int, j as int));
                assert(s0.subrange(lo as int, hi as int) =~= s0.subrange(lo as int, j as int)
                    + (s0.subrange(j as int, mid as int) + s0.subrange(mid as int, hi as int)));
                let q = |el: T| !T::lt_spec(el, x) && !T::lt_spec(x, el);
                assert(ties_of::<T>(s9.subrange(lo as int, hi as int), x) =~= ties_of::<T>(
                    s0.subrange(lo as int, hi as int),
                    x,
                ));
            }
        }
    }
}

/// Merge the sorted front `[0, len)` with the sorted rest `[len, ..)`.
///
/// Afterwards the whole vector is non-decreasing, holds the same elements,
/// and keeps every tie subsequence, ties of the front first; the scratch
/// buffer's final contents are unspecified.
pub fn merge<T: SortOrd>(arr: &mut Vec<T>, len: usize, buf: &mut Vec<T>)
    requires
        len <= old(arr)@.len(),
        sorted_rng::<T>(old(arr)@, 0, len as int),
        sorted_rng::<T>(old(arr)@, len as int, old(arr)@.len() as int),
    ensures
        final(arr)@.len() == old(arr)@.len(),
        sorted::<T>(final(arr)@),
        final(arr)@.to_multiset() == old(arr)@.to_multiset(),
        forall|x: T| #![trigger ties_of::<T>(final(arr)@, x)]
            ties_of::<T>(final(arr)@, x) == ties_of::<T>(old(arr)@, x),
{
    let hi = arr.len();
    merge_rng(arr, 0, len, hi, buf);
    proof {
        assert forall|x: T| #![trigger ties_of::<T>(arr@, x)]
            ties_of::<T>(arr@, x) == ties_of::<T>(old(arr)@, x) by {
            assert(arr@.subrange(0, arr@.len() as int) =~= arr@);
            assert(old(arr)@.subrange(0, old(arr)@.len() as int) =~= old(arr)@);
            assert(ties_of::<T>(arr@.subrange(0, arr@.len() as int), x) == ties_of::<T>(
                old(arr)@.subrange(0, old(arr)@.len() as int),
                x,
            ));
        }
    }
}

/// Sort the range `[lo, hi)`: split at the midpoint, sort both halves,
/// merge.
fn merge_sort_with_buf_inner<T: SortOrd>(arr: &mut Vec<T>, lo: usize, hi: usize, buf: &mut Vec<T>)
    requires
        lo <= hi <= old(arr)@.len(),
    ensures
        final(arr)@.len() == old(arr)@.len(),
        final(arr)@.to_multiset() == old(arr)@.to_multiset(),
        same_outside(old(arr)@, final(arr)@, lo as int, hi as int),
        sorted_rng::<T>(final(arr)@, lo as int, hi as int),
        forall|x: T| #![trigger ties_of::<T>(final(arr)@.subrange(lo as int, hi as int), x)]
            ties_of::<T>(final(arr)@.subrange(lo as int, hi as int), x) == ties_of::<T>(
                old(arr)@.subrange(lo as int, hi as int),
                x,
            ),
    decreases hi - lo,
{
    proof {
        T::lt_laws();
    }
    if hi - lo < 2 {
        return ;
    }
    let ghost s0 = arr@;
    let mid = lo + (hi - lo) / 2;
    merge_sort_with_buf_inner(arr, lo, mid, buf);
    let ghost s1 = arr@;
    merge_sort_with_buf_inner(arr, mid, hi, buf);
    let ghost s2 = arr@;
    proof {
        lemma_sorted_same::<T>(s1, arr@, lo as int, mid as int);
        // each recursion permutes one half and leaves the other alone, so
        // the range's tie subsequences carry over step by step
        assert forall|x: T| #![trigger ties_of::<T>(s2.subrange(lo as int, hi as int), x)]
            ties_of::<T>(s2.subrange(lo as int, hi as int), x) == ties_of::<T>(
                s0.subrange(lo as int, hi as int),
                x,
            ) by {
            broadcast use vstd::seq::Seq::filter_distributes_over_add;
            broadcast use vstd::seq_lib::group_filter_ensures;

            let q = |el: T| !T::lt_spec(el, x) && !T::lt_spec(x, el);
            assert(s0.subrange(lo as int, hi as int) =~= s0.subrange(lo as int, mid as int)
                + s0.subrange(mid as int, hi as int));
            assert(s1.subrange(lo as int, hi as int) =~= s1.subrange(lo as int, mid as int)
                + s1.subrange(mid as int, hi as int));
            assert(s2.subrange(lo as int, hi as int) =~= s2.subrange(lo as int, mid as int)
                + s2.subrange(mid as int, hi as int));
            assert(ties_of::<T>(s1.subrange(lo as int, mid as int), x) == ties_of::<T>(
                s0.subrange(lo as int, mid as int),
                x,
            ));
            assert(ties_of::<T>(s2.subrange(mid as int, hi as int), x) == ties_of::<T>(
                s1.subrange(mid as int, hi as int),
                x,
            ));
            assert(s1.subrange(mid as int, hi as int) =~= s0.subrange(mid as int, hi as int));
            assert(s2.subrange(lo as int, mid as int) =~= s1.subrange(lo as int, mid as int));
            assert(ties_of::<T>(s2.subrange(lo as int, hi as int), x) =~= ties_of::<T>(
                s0.subrange(lo as int, hi as int),
                x,
            ));
        }
    }
    merge_rng(arr, lo, mid, hi, buf);
    proof {
        assert forall|x: T| #![trigger ties_of::<T>(arr@.subrange(lo as int, hi as int), x)]
            ties_of::<T>(arr@.subrange(lo as int, hi as int), x) == ties_of::<T>(
                s0.subrange(lo as int, hi as int),
                x,
            ) by {
            assert(ties_of::<T>(arr@.subrange(lo as int, hi as int), x) == ties_of::<T>(
                s2.subrange(lo as int, hi as int),
                x,
            ));
        }
    }
}

/// Merge sort, reusing a caller-supplied scratch buffer.
///
/// After the call the vector holds the canonical stable non-decreasing
/// arrangement of its old elements: sorted, the same multiset, and ties in
/// their original order; the buffer's final contents are unspecified.
pub fn merge_sort_with_buf<T: SortOrd>(arr: &mut Vec<T>, buf: &mut Vec<T>)
    ensures
        final(arr)@.len() == old(arr)@.len(),
        sorted::<T>(final(arr)@),
        final(arr)@.to_multiset() == old(arr)@.to_multiset(),
        final(arr)@ == stable_sorted::<T>(old(arr)@),
{
    let hi = arr.len();
    merge_sort_with_buf_inner(arr, 0, hi, buf);
    proof {
        T::lt_laws();
        // sorted, same elements, same tie order: that pins the canonical
        // stable arrangement
        lemma_stable_sorted_sorted::<T>(old(arr)@);
        lemma_stable_sorted_multiset::<T>(old(arr)@);
        assert forall|x: T| #![trigger ties_of::<T>(arr@, x)]
            ties_of::<T>(arr@, x) == ties_of::<T>(stable_sorted::<T>(old(arr)@), x) by {
            lemma_stable_sorted_keeps_ties::<T>(old(arr)@, x);
            assert(arr@.subrange(0, arr@.len() as int) =~= arr@);
            assert(old(arr)@.subrange(0, old(arr)@.len() as int) =~= old(arr)@);
            assert(ties_of::<T>(arr@.subrange(0, arr@.len() as int), x) == ties_of::<T>(
                old(arr)@.subrange(0, old(arr)@.len() as int),
                x,
            ));
        }
        lemma_sorted_ties_unique::<T>(arr@, stable_sorted::<T>(old(arr)@));
    }
}

/// Merge sort.
///
/// Allocates a scratch buffer of half the length and sorts in place: the
/// vector ends up holding the canonical stable non-decreasing arrangement
/// of its old elements.
pub fn merge_sort<T: SortOrd>(arr: &mut Vec<T>)
    ensures
        final(arr)@.len() == old(arr)@.len(),
        sorted::<T>(final(arr)@),
        final(arr)@.to_multiset() == old(arr)@.to_multiset(),
        final(arr)@ == stable_sorted::<T>(old(arr)@),
{
    let capacity = arr.len() / 2;
    let mut buf: Vec<T> = Vec::with_capacity(capacity);
    merge_sort_with_buf(arr, &mut buf);
}

} // verus!
