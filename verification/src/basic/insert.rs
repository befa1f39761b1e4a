//! Insertion sort: every element is rotated into place inside the sorted
//! prefix before it.

use vstd::prelude::*;
use vstd::seq_lib::group_to_multiset_ensures;
use crate::order::SortOrd;
use crate::order::le;
use crate::order::sorted;
use crate::order::sorted_rng;
use crate::facts::same_outside;
use crate::facts::ties_of;

verus! {

/// How many elements the new one must go behind: those it is not before.
pub open spec fn keep_count<T: SortOrd>(s: Seq<T>, x: T) -> int {
    s.filter(|e: T| !T::lt_spec(x, e)).len() as int
}

/// The canonical stable insertion: the new element goes right behind every
/// element it is not before, so it ends up after its ties.
pub open spec fn stable_insert<T: SortOrd>(s: Seq<T>, x: T) -> Seq<T> {
    s.insert(keep_count(s, x), x)
}

/// The canonical stable non-decreasing arrangement: every element of the
/// sequence stably inserted in turn. This is the one sorted arrangement
/// that keeps ties in their original order; the stable algorithms produce
/// it exactly.
pub open spec fn stable_sorted<T: SortOrd>(s: Seq<T>) -> Seq<T>
    decreases s.len(),
{
    if s.len() == 0 {
        Seq::<T>::empty()
    } else {
        stable_insert(stable_sorted(s.drop_last()), s.last())
    }
}

/// The canonical arrangement keeps the length.
pub proof fn lemma_stable_sorted_len<T: SortOrd>(s: Seq<T>)
    ensures
        stable_sorted::<T>(s).len() == s.len(),
    decreases s.len(),
{
    broadcast use vstd::seq_lib::group_filter_ensures;

    if s.len() > 0 {
        let s1 = s.drop_last();
        lemma_stable_sorted_len::<T>(s1);
        let t = stable_sorted::<T>(s1);
        t.insert_ensures(keep_count::<T>(t, s.last()), s.last());
    }
}

/// The canonical arrangement holds the same elements.
pub proof fn lemma_stable_sorted_multiset<T: SortOrd>(s: Seq<T>)
    ensures
        stable_sorted::<T>(s).to_multiset() == s.to_multiset(),
    decreases s.len(),
{
    broadcast use group_to_multiset_ensures;
    broadcast use vstd::multiset::group_multiset_axioms;
    broadcast use vstd::seq_lib::group_filter_ensures;

    if s.len() > 0 {
        let s1 = s.drop_last();
        let x = s.last();
        lemma_stable_sorted_multiset::<T>(s1);
        lemma_stable_sorted_len::<T>(s1);
        let t = stable_sorted::<T>(s1);
        let kc = keep_count::<T>(t, x);
        assert(t.insert(kc, x).to_multiset() == t.to_multiset().insert(x));
        assert(s =~= s1.push(x));
        assert(s.to_multiset() == s1.to_multiset().insert(x));
        assert(stable_sorted::<T>(s).to_multiset() =~= s.to_multiset());
    }
}

/// A single element is its own canonical arrangement.
proof fn lemma_stable_sorted_one<T: SortOrd>(s: Seq<T>)
    requires
        s.len() == 1,
    ensures
        stable_sorted::<T>(s) == s,
{
    broadcast use vstd::seq_lib::group_filter_ensures;

    let x = s.last();
    assert(s.drop_last() =~= Seq::<T>::empty());
    assert(stable_sorted::<T>(Seq::<T>::empty()) == Seq::<T>::empty());
    let p = |e: T| !T::lt_spec(x, e);
    assert(Seq::<T>::empty().filter(p).len() <= 0);
    assert(keep_count::<T>(Seq::<T>::empty(), x) == 0);
    assert(Seq::<T>::empty().insert(0, x) =~= s);
}

/// When membership of `p` is decided by the position boundary `idx`, the
/// members number exactly `idx`.
proof fn lemma_boundary_filter_len<T>(s: Seq<T>, idx: int, p: spec_fn(T) -> bool)
    requires
        0 <= idx <= s.len(),
        forall|i: int| 0 <= i < s.len() ==> (p(#[trigger] s[i]) <==> i < idx),
    ensures
        s.filter(p).len() == idx,
    decreases s.len(),
{
    broadcast use vstd::seq::Seq::lemma_filter_push;

    if s.len() == 0 {
        assert(s.filter(p) =~= Seq::<T>::empty());
    } else {
        let s1 = s.drop_last();
        let x = s.last();
        assert(s =~= s1.push(x));
        if p(x) {
            assert(idx == s.len());
            lemma_boundary_filter_len(s1, idx - 1, p);
            assert(s.filter(p) == s1.filter(p).push(x));
        } else {
            assert(idx < s.len());
            lemma_boundary_filter_len(s1, idx, p);
            assert(s.filter(p) == s1.filter(p));
        }
    }
}

/// An insertion point found by comparisons is the canonical one: all
/// earlier prefix elements are "not after", all later ones are "after".
proof fn lemma_insert_point_exact<T: SortOrd>(s: Seq<T>, hi: int, idx: int)
    requires
        1 <= hi <= s.len(),
        0 <= idx <= hi - 1,
        forall|k: int| 0 <= k < idx ==> !T::lt_spec(s[hi - 1], #[trigger] s[k]),
        forall|m: int| idx <= m < hi - 1 ==> T::lt_spec(s[hi - 1], #[trigger] s[m]),
    ensures
        keep_count::<T>(s.subrange(0, hi - 1), s[hi - 1]) == idx,
{
    T::lt_laws();
    let pre = s.subrange(0, hi - 1);
    let x = s[hi - 1];
    let p = |e: T| !T::lt_spec(x, e);
    assert forall|i: int| 0 <= i < pre.len() implies (p(#[trigger] pre[i]) <==> i < idx) by {
        assert(pre[i] == s[i]);
    }
    lemma_boundary_filter_len(pre, idx, p);
}

/// In a sorted sequence the elements the new one must go behind form a
/// prefix of exactly `keep_count` positions.
proof fn lemma_sorted_keep_prefix<T: SortOrd>(t: Seq<T>, x: T)
    requires
        sorted_rng::<T>(t, 0, t.len() as int),
    ensures
        0 <= keep_count::<T>(t, x) <= t.len(),
        forall|k: int|
            0 <= k < t.len() ==> (!T::lt_spec(x, #[trigger] t[k]) <==> k < keep_count::<T>(t, x)),
    decreases t.len(),
{
    broadcast use vstd::seq_lib::group_filter_ensures;
    broadcast use vstd::seq::Seq::lemma_filter_push;

    T::lt_laws();
    let p = |e: T| !T::lt_spec(x, e);
    if t.len() == 0 {
        assert(t.filter(p) =~= Seq::<T>::empty());
    } else {
        let t1 = t.drop_last();
        let l = t.last();
        assert(t =~= t1.push(l));
        assert(sorted_rng::<T>(t1, 0, t1.len() as int));
        lemma_sorted_keep_prefix::<T>(t1, x);
        if p(l) {
            assert(t.filter(p) == t1.filter(p).push(l));
            // everything before the last is not after it, so nothing below
            // can be excluded
            assert forall|k: int| 0 <= k < t1.len() implies p(#[trigger] t1[k]) by {
                assert(!T::lt_spec(t[t.len() - 1], t[k]));
            }
            lemma_boundary_filter_len(t1, t1.len() as int, p);
        } else {
            assert(t.filter(p) == t1.filter(p));
        }
    }
}

/// The canonical arrangement is sorted.
pub proof fn lemma_stable_sorted_sorted<T: SortOrd>(s: Seq<T>)
    ensures
        sorted::<T>(stable_sorted::<T>(s)),
    decreases s.len(),
{
    T::lt_laws();
    if s.len() > 0 {
        let s1 = s.drop_last();
        let x = s.last();
        lemma_stable_sorted_sorted::<T>(s1);
        lemma_stable_sorted_len::<T>(s1);
        let t = stable_sorted::<T>(s1);
        let kc = keep_count::<T>(t, x);
        lemma_sorted_keep_prefix::<T>(t, x);
        let r = t.insert(kc, x);
        t.insert_ensures(kc, x);
        assert forall|i: int, j: int| 0 <= i <= j < r.len() implies !(#[trigger] T::lt_spec(
            r[j],
            r[i],
        )) by {
            if j < kc {
                assert(r[i] == t[i] && r[j] == t[j]);
            } else if i < kc && j == kc {
                assert(r[i] == t[i] && r[j] == x);
                assert(!T::lt_spec(x, t[i]));
            } else if i < kc && j > kc {
                assert(r[i] == t[i] && r[j] == t[j - 1]);
                assert(T::lt_spec(x, t[j - 1]));
                assert(!T::lt_spec(x, t[i]));
            } else if i == kc && j == kc {
            } else if i == kc && j > kc {
                assert(r[i] == x && r[j] == t[j - 1]);
                assert(T::lt_spec(x, t[j - 1]));
            } else {
                assert(r[i] == t[i - 1] && r[j] == t[j - 1]);
            }
        }
    }
}

/// Ties keep their original order in the canonical arrangement: for any
/// element, the subsequence of elements order-equivalent to it (neither
/// before nor after it) is exactly the same as in the input. Together with
/// an exact `stable_sorted` contract this is what stability means.
pub proof fn lemma_stable_sorted_keeps_ties<T: SortOrd>(s: Seq<T>, x: T)
    ensures
        ties_of::<T>(stable_sorted::<T>(s), x) == ties_of::<T>(s, x),
    decreases s.len(),
{
    broadcast use vstd::seq_lib::group_filter_ensures;
    broadcast use vstd::seq::Seq::lemma_filter_push;
    broadcast use vstd::seq::Seq::filter_distributes_over_add;

    T::lt_laws();
    let q = |e: T| !T::lt_spec(e, x) && !T::lt_spec(x, e);
    if s.len() == 0 {
        assert(stable_sorted::<T>(s).filter(q) =~= Seq::<T>::empty());
        assert(s.filter(q) =~= Seq::<T>::empty());
    } else {
        let s1 = s.drop_last();
        let l = s.last();
        assert(s =~= s1.push(l));
        lemma_stable_sorted_keeps_ties::<T>(s1, x);
        lemma_stable_sorted_sorted::<T>(s1);
        lemma_stable_sorted_len::<T>(s1);
        let t = stable_sorted::<T>(s1);
        let kc = keep_count::<T>(t, l);
        lemma_sorted_keep_prefix::<T>(t, l);
        let lowpart = t.subrange(0, kc);
        let highpart = t.subrange(kc, t.len() as int);
        assert(t.insert(kc, l) =~= lowpart + (seq![l] + highpart));
        assert(seq![l] =~= Seq::<T>::empty().push(l));
        assert(Seq::<T>::empty().filter(q) =~= Seq::<T>::empty());
        assert(t =~= lowpart + highpart);
        if q(l) {
            // nothing past the insertion point ties with `l`, so the tied
            // subsequence is the old one with `l` appended
            assert(highpart.filter(q) =~= Seq::<T>::empty()) by {
                if highpart.filter(q).len() > 0 {
                    let e = highpart.filter(q)[0];
                    assert(q(e));
                    assert(highpart.contains(e)) by {
                        lemma_filter_member::<T>(highpart, q, 0);
                    }
                    let w = choose|w: int| 0 <= w < highpart.len() && highpart[w] == e;
                    assert(T::lt_spec(l, t[kc + w]));
                    // a tie of `x` cannot be strictly after another tie of `x`
                    assert(!T::lt_spec(l, e));
                }
            }
            assert(seq![l].filter(q) =~= Seq::<T>::empty().push(l).filter(q));
            assert(seq![l].filter(q) =~= seq![l]);
            assert(t.insert(kc, l).filter(q) =~= lowpart.filter(q) + (seq![l] + Seq::<
                T,
            >::empty()));
            assert(t.filter(q) =~= lowpart.filter(q) + Seq::<T>::empty());
            assert(t.insert(kc, l).filter(q) =~= t.filter(q).push(l));
            assert(s.filter(q) == s1.filter(q).push(l));
        } else {
            assert(seq![l].filter(q) =~= Seq::<T>::empty());
            assert(t.insert(kc, l).filter(q) =~= lowpart.filter(q) + (Seq::<T>::empty()
                + highpart.filter(q)));
            assert(t.filter(q) =~= lowpart.filter(q) + highpart.filter(q));
            assert(t.insert(kc, l).filter(q) =~= t.filter(q));
            assert(s.filter(q) == s1.filter(q));
        }
    }
}

/// An element of a filtered sequence occurs in the sequence it was
/// filtered from.
pub(crate) proof fn lemma_filter_member<T>(s: Seq<T>, p: spec_fn(T) -> bool, i: int)
    requires
        0 <= i < s.filter(p).len(),
    ensures
        s.contains(s.filter(p)[i]),
    decreases s.len(),
{
    broadcast use vstd::seq_lib::group_filter_ensures;
    broadcast use vstd::seq::Seq::lemma_filter_push;
    broadcast use vstd::seq_lib::lemma_seq_contains;

    if s.len() > 0 {
        let s1 = s.drop_last();
        let l = s.last();
        assert(s =~= s1.push(l));
        if p(l) {
            assert(s.filter(p) == s1.filter(p).push(l));
            if i < s.filter(p).len() - 1 {
                lemma_filter_member(s1, p, i);
                let w = choose|w: int| 0 <= w < s1.len() && s1[w] == s1.filter(p)[i];
                assert(s[w] == s.filter(p)[i]);
            } else {
                assert(s[s.len() - 1] == s.filter(p)[i]);
            }
        } else {
            assert(s.filter(p) == s1.filter(p));
            lemma_filter_member(s1, p, i);
            let w = choose|w: int| 0 <= w < s1.len() && s1[w] == s1.filter(p)[i];
            assert(s[w] == s.filter(p)[i]);
        }
    }
}

/// Rotate the range `[idx, hi)` one step to the right, which drops the
/// element at `hi - 1` into position `idx` of the sorted range `[0, hi - 1)`.
///
/// `idx` must be a correct insertion point: everything before it is not after
/// the new element, everything from it up to `hi - 1` is after it.
pub(crate) fn rotate_into<T: SortOrd>(arr: &mut Vec<T>, hi: usize, idx: usize)
    requires
        1 <= hi <= old(arr)@.len(),
        idx <= hi - 1,
        sorted_rng::<T>(old(arr)@, 0, hi - 1),
        forall|k: int| 0 <= k < idx ==> !T::lt_spec(old(arr)@[hi - 1], #[trigger] old(arr)@[k]),
        forall|m: int| idx <= m < hi - 1 ==> T::lt_spec(old(arr)@[hi - 1], #[trigger] old(arr)@[m]),
    ensures
        final(arr)@.len() == old(arr)@.len(),
        sorted_rng::<T>(final(arr)@, 0, hi as int),
        final(arr)@.to_multiset() == old(arr)@.to_multiset(),
        same_outside(old(arr)@, final(arr)@, 0, hi as int),
        final(arr)@.subrange(0, hi as int) == stable_insert::<T>(
            old(arr)@.subrange(0, hi - 1),
            old(arr)@[hi - 1],
        ),
{
    proof {
        T::lt_laws();
    }
    let ghost s0 = arr@;
    let ele = arr[hi - 1];
    // rotate `[idx, hi)` one step right, dropping `ele` into `idx`
    let mut m = hi - 1;
    while m > idx
        invariant
            idx <= m <= hi - 1 < arr@.len(),
            arr@.len() == s0.len(),
            forall|q: int| 0 <= q <= m ==> #[trigger] arr@[q] == s0[q],
            forall|q: int| m < q < hi ==> #[trigger] arr@[q] == s0[q - 1],
            forall|q: int| hi <= q < s0.len() ==> #[trigger] arr@[q] == s0[q],
        decreases m,
    {
        let t = arr[m - 1];
        arr[m] = t;
        m -= 1;
    }
    arr[idx] = ele;
    proof {
        let s2 = arr@;
        assert(s2 =~= s0.remove(hi - 1).insert(idx as int, ele));
        lemma_insert_point_exact::<T>(s0, hi as int, idx as int);
        assert(s2.subrange(0, hi as int) =~= s0.subrange(0, hi - 1).insert(idx as int, ele));
        assert(s2.to_multiset() == s0.to_multiset()) by {
            broadcast use group_to_multiset_ensures;
            broadcast use vstd::multiset::group_multiset_axioms;

            assert(s0[hi - 1] == ele);
            assert(s2.to_multiset() == s0.to_multiset().remove(ele).insert(ele));
            assert(s0.to_multiset().count(ele) > 0) by {
                assert(s0.contains(ele));
            }
            assert(s2.to_multiset() =~= s0.to_multiset());
        }
        assert forall|i: int, j: int| 0 <= i <= j < hi implies !(#[trigger] T::lt_spec(
            s2[j],
            s2[i],
        )) by {
            if j < idx {
                assert(s2[i] == s0[i] && s2[j] == s0[j]);
            } else if i < idx && j == idx {
                assert(s2[i] == s0[i] && s2[j] == ele);
            } else if i < idx && j > idx {
                assert(s2[i] == s0[i] && s2[j] == s0[j - 1]);
                assert(T::lt_spec(ele, s0[j - 1]));
                assert(!T::lt_spec(s0[j - 1], ele));
                assert(!T::lt_spec(ele, s0[i]));
            } else if i == idx && j == idx {
            } else if i == idx && j > idx {
                assert(s2[j] == s0[j - 1]);
                assert(T::lt_spec(ele, s0[j - 1]));
            } else {
                assert(s2[i] == s0[i - 1] && s2[j] == s0[j - 1]);
            }
        }
    }
}

/// Insert the element at `hi - 1` into the sorted range `[0, hi - 1)`:
/// scan from the right for the first position whose element is not after the
/// new one, and rotate the tail of the range one step to the right.
pub(crate) fn insert_at<T: SortOrd>(arr: &mut Vec<T>, hi: usize)
    requires
        1 <= hi <= old(arr)@.len(),
        sorted_rng::<T>(old(arr)@, 0, hi - 1),
    ensures
        final(arr)@.len() == old(arr)@.len(),
        sorted_rng::<T>(final(arr)@, 0, hi as int),
        final(arr)@.to_multiset() == old(arr)@.to_multiset(),
        same_outside(old(arr)@, final(arr)@, 0, hi as int),
        final(arr)@.subrange(0, hi as int) == stable_insert::<T>(
            old(arr)@.subrange(0, hi - 1),
            old(arr)@[hi - 1],
        ),
{
    let ghost s0 = arr@;
    let ele = arr[hi - 1];
    // the insertion point: everything at or past it in the prefix is after `ele`
    let mut idx = hi - 1;
    while idx > 0
        invariant
            1 <= hi <= arr@.len(),
            idx <= hi - 1,
            arr@ == s0,
            ele == s0[hi - 1],
            forall|m: int| idx <= m < hi - 1 ==> T::lt_spec(ele, #[trigger] s0[m]),
        ensures
            1 <= hi <= arr@.len(),
            idx <= hi - 1,
            arr@ == s0,
            forall|m: int| idx <= m < hi - 1 ==> T::lt_spec(ele, #[trigger] s0[m]),
            idx > 0 ==> !T::lt_spec(ele, s0[idx - 1]),
        decreases idx,
    {
        if le(&arr[idx - 1], &ele) {
            break ;
        }
        idx -= 1;
    }
    proof {
        T::lt_laws();
        // everything before the found position is not after `ele`
        assert forall|k: int| 0 <= k < idx implies !T::lt_spec(ele, #[trigger] s0[k]) by {
            assert(!T::lt_spec(s0[idx - 1], s0[k]));
            assert(!T::lt_spec(ele, s0[idx - 1]));
        }
    }
    rotate_into(arr, hi, idx);
}

/// Insert the last element of the vector into the sorted rest.
///
/// The range before the last element must already be non-decreasing; the
/// call rotates the last element right behind every prefix element it is
/// not before — the canonical stable insertion — so the whole vector ends
/// up non-decreasing and holds the same elements.
pub fn insert_point<T: SortOrd>(arr: &mut Vec<T>)
    requires
        old(arr)@.len() >= 1,
        sorted_rng::<T>(old(arr)@, 0, old(arr)@.len() - 1),
    ensures
        final(arr)@.len() == old(arr)@.len(),
        sorted::<T>(final(arr)@),
        final(arr)@.to_multiset() == old(arr)@.to_multiset(),
        final(arr)@ == stable_insert::<T>(
            old(arr)@.subrange(0, old(arr)@.len() - 1),
            old(arr)@[old(arr)@.len() - 1],
        ),
{
    let hi = arr.len();
    insert_at(arr, hi);
    proof {
        assert(arr@.subrange(0, arr@.len() as int) =~= arr@);
    }
}

/// Insertion sort: linear scan for the insertion point.
///
/// After the call the vector holds the canonical stable non-decreasing
/// arrangement of its old elements: sorted, the same multiset, and ties in
/// their original order.
pub fn insert_sort<T: SortOrd>(arr: &mut Vec<T>)
    ensures
        final(arr)@.len() == old(arr)@.len(),
        sorted::<T>(final(arr)@),
        final(arr)@.to_multiset() == old(arr)@.to_multiset(),
        final(arr)@ == stable_sorted::<T>(old(arr)@),
{
    proof {
        T::lt_laws();
        lemma_stable_sorted_front::<T>(arr@);
    }
    let mut i: usize = 1;
    while i < arr.len()
        invariant
            1 <= i,
            arr@.len() == old(arr)@.len(),
            sorted_rng::<T>(arr@, 0, if i as int <= arr@.len() {
                i as int
            } else {
                arr@.len() as int
            }),
            arr@.to_multiset() == old(arr)@.to_multiset(),
            arr@ == stable_sorted::<T>(
                old(arr)@.subrange(
                    0,
                    if i as int <= arr@.len() {
                        i as int
                    } else {
                        arr@.len() as int
                    },
                ),
            ) + old(arr)@.subrange(
                if i as int <= arr@.len() {
                    i as int
                } else {
                    arr@.len() as int
                },
                arr@.len() as int,
            ),
        decreases arr@.len() - i,
    {
        let ghost sp = arr@;
        let ghost n = arr@.len() as int;
        insert_at(arr, i + 1);
        proof {
            lemma_advance_stable::<T>(old(arr)@, sp, arr@, i as int);
        }
        i += 1;
    }
    proof {
        T::lt_laws();
        lemma_stable_sorted_back::<T>(old(arr)@, arr@);
    }
}

/// The shape of the insertion loop's claim when nothing has been inserted
/// yet: the one-element prefix is its own arrangement.
pub(crate) proof fn lemma_stable_sorted_front<T: SortOrd>(s: Seq<T>)
    ensures
        s.len() >= 1 ==> s == stable_sorted::<T>(s.subrange(0, 1)) + s.subrange(1, s.len() as int),
        s.len() == 0 ==> s == stable_sorted::<T>(s.subrange(0, 0)) + s.subrange(0, 0),
{
    if s.len() >= 1 {
        lemma_stable_sorted_one::<T>(s.subrange(0, 1));
        assert(s =~= s.subrange(0, 1) + s.subrange(1, s.len() as int));
    } else {
        assert(s.subrange(0, 0) =~= Seq::<T>::empty());
        assert(s =~= Seq::<T>::empty() + s.subrange(0, 0));
    }
}

/// The shape of the insertion loop's claim when everything has been
/// inserted: the whole sequence is arranged.
pub(crate) proof fn lemma_stable_sorted_back<T: SortOrd>(orig: Seq<T>, fin: Seq<T>)
    requires
        orig.len() == fin.len(),
        fin == stable_sorted::<T>(orig.subrange(0, orig.len() as int)) + orig.subrange(
            orig.len() as int,
            orig.len() as int,
        ),
    ensures
        fin == stable_sorted::<T>(orig),
{
    assert(orig.subrange(0, orig.len() as int) =~= orig);
    assert(orig.subrange(orig.len() as int, orig.len() as int) =~= Seq::<T>::empty());
    assert(stable_sorted::<T>(orig) + Seq::<T>::empty() =~= stable_sorted::<T>(orig));
}

/// One insertion step extends the canonical arrangement of the prefix by
/// one element.
pub(crate) proof fn lemma_advance_stable<T: SortOrd>(orig: Seq<T>, sp: Seq<T>, sn: Seq<T>, i: int)
    requires
        1 <= i < orig.len(),
        sp.len() == orig.len(),
        sn.len() == orig.len(),
        sp == stable_sorted::<T>(orig.subrange(0, i)) + orig.subrange(i, orig.len() as int),
        sn.subrange(0, i + 1) == stable_insert::<T>(sp.subrange(0, i), sp[i]),
        same_outside(sp, sn, 0, i + 1),
    ensures
        sn == stable_sorted::<T>(orig.subrange(0, i + 1)) + orig.subrange(
            i + 1,
            orig.len() as int,
        ),
{
    let pre = orig.subrange(0, i);
    lemma_stable_sorted_len::<T>(pre);
    assert(sp.subrange(0, i) =~= stable_sorted::<T>(pre));
    assert(sp[i] == orig[i]);
    assert(orig.subrange(0, i + 1).drop_last() =~= pre);
    assert(orig.subrange(0, i + 1).last() == orig[i]);
    assert(stable_sorted::<T>(orig.subrange(0, i + 1)) == stable_insert::<T>(
        stable_sorted::<T>(pre),
        orig[i],
    ));
    assert(sn.subrange(i + 1, sn.len() as int) =~= orig.subrange(i + 1, orig.len() as int));
    assert(sn =~= sn.subrange(0, i + 1) + sn.subrange(i + 1, sn.len() as int));
}

} // verus!
