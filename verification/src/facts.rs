//! Shared facts about sequences under the element order: permutation ranges,
//! sortedness ranges, and how they interact.

use vstd::prelude::*;
use vstd::seq_lib::group_to_multiset_ensures;
use vstd::seq_lib::lemma_multiset_commutative;
use vstd::seq_lib::lemma_seq_contains;
use vstd::arithmetic::div_mod::lemma_fundamental_div_mod;
use vstd::arithmetic::div_mod::lemma_fundamental_div_mod_converse;
use crate::order::SortOrd;
use crate::order::sorted_rng;
use crate::order::sorted;

verus! {

/// The two sequences agree everywhere outside the index range `[lo, hi)`.
pub open spec fn same_outside<T>(s1: Seq<T>, s2: Seq<T>, lo: int, hi: int) -> bool {
    s1.len() == s2.len() && forall|k: int|
        0 <= k < s1.len() && !(lo <= k < hi) ==> s1[k] == #[trigger] s2[k]
}

/// The index range `[lo, hi)` of the two sequences holds the same elements,
/// counted with multiplicity.
pub open spec fn perm_rng<T>(s1: Seq<T>, s2: Seq<T>, lo: int, hi: int) -> bool {
    s1.subrange(lo, hi).to_multiset() == s2.subrange(lo, hi).to_multiset()
}

/// A sequence splits, as a multiset, into the parts before, inside and after
/// a given index range.
proof fn lemma_split_three<T>(s: Seq<T>, lo: int, hi: int)
    requires
        0 <= lo <= hi <= s.len(),
    ensures
        s.to_multiset() == s.subrange(0, lo).to_multiset().add(
            s.subrange(lo, hi).to_multiset(),
        ).add(s.subrange(hi, s.len() as int).to_multiset()),
{
    broadcast use lemma_multiset_commutative;

    assert(s =~= (s.subrange(0, lo) + s.subrange(lo, hi)) + s.subrange(hi, s.len() as int));
}

/// Sequences equal outside a range are whole-sequence permutations of each
/// other exactly when the range is a permutation.
pub proof fn lemma_perm_rng_full<T>(s1: Seq<T>, s2: Seq<T>, lo: int, hi: int)
    requires
        0 <= lo <= hi <= s1.len(),
        same_outside(s1, s2, lo, hi),
    ensures
        perm_rng(s1, s2, lo, hi) <==> s1.to_multiset() == s2.to_multiset(),
{
    broadcast use vstd::multiset::group_multiset_axioms;

    lemma_split_three(s1, lo, hi);
    lemma_split_three(s2, lo, hi);
    assert(s1.subrange(0, lo) =~= s2.subrange(0, lo));
    assert(s1.subrange(hi, s1.len() as int) =~= s2.subrange(hi, s2.len() as int));
    let a = s1.subrange(0, lo).to_multiset();
    let c = s1.subrange(hi, s1.len() as int).to_multiset();
    let m1 = s1.subrange(lo, hi).to_multiset();
    let m2 = s2.subrange(lo, hi).to_multiset();
    if m1 == m2 {
        assert(a.add(m1).add(c) =~= a.add(m2).add(c));
    }
    if s1.to_multiset() == s2.to_multiset() {
        assert forall|x: T| m1.count(x) == #[trigger] m2.count(x) by {
            assert(a.add(m1).add(c).count(x) == a.add(m2).add(c).count(x));
        }
        assert(m1 =~= m2);
    }
}

/// Permutations have the same length.
pub proof fn lemma_perm_len<T>(s1: Seq<T>, s2: Seq<T>)
    requires
        s1.to_multiset() == s2.to_multiset(),
    ensures
        s1.len() == s2.len(),
{
    broadcast use group_to_multiset_ensures;

    assert(s1.len() == s1.to_multiset().len());
    assert(s2.len() == s2.to_multiset().len());
}

/// A property that holds on every element of a range still holds after the
/// range is permuted.
pub proof fn lemma_perm_rng_all<T>(s1: Seq<T>, s2: Seq<T>, lo: int, hi: int, p: spec_fn(T) -> bool)
    requires
        0 <= lo <= hi <= s1.len(),
        s1.len() == s2.len(),
        perm_rng(s1, s2, lo, hi),
        forall|k: int| lo <= k < hi ==> p(#[trigger] s1[k]),
    ensures
        forall|k: int| lo <= k < hi ==> p(#[trigger] s2[k]),
{
    broadcast use group_to_multiset_ensures;
    broadcast use lemma_seq_contains;

    let r1 = s1.subrange(lo, hi);
    let r2 = s2.subrange(lo, hi);
    assert forall|k: int| lo <= k < hi implies p(#[trigger] s2[k]) by {
        assert(r2[k - lo] == s2[k]);
        assert(r2.contains(s2[k]));
        assert(r2.to_multiset().count(s2[k]) > 0);
        assert(r1.to_multiset().count(s2[k]) > 0);
        assert(r1.contains(s2[k]));
        let w = choose|w: int| 0 <= w < r1.len() && r1[w] == s2[k];
        assert(s1[w + lo] == s2[k]);
    }
}

/// An element of a permuted range occurs somewhere in the range it was
/// permuted from.
pub proof fn lemma_perm_rng_witness<T>(s1: Seq<T>, s2: Seq<T>, lo: int, hi: int, j: int) -> (q: int)
    requires
        0 <= lo <= hi <= s1.len(),
        hi <= s2.len(),
        perm_rng(s1, s2, lo, hi),
        lo <= j < hi,
    ensures
        lo <= q < hi,
        s2[q] == s1[j],
{
    broadcast use group_to_multiset_ensures;
    broadcast use lemma_seq_contains;

    let r1 = s1.subrange(lo, hi);
    let r2 = s2.subrange(lo, hi);
    assert(r1[j - lo] == s1[j]);
    assert(r1.contains(s1[j]));
    assert(r1.to_multiset().count(s1[j]) > 0);
    assert(r2.to_multiset().count(s1[j]) > 0);
    assert(r2.contains(s1[j]));
    let w = choose|w: int| 0 <= w < r2.len() && r2[w] == s1[j];
    assert(s2[w + lo] == s1[j]);
    w + lo
}

/// Sortedness of a range only depends on the elements of the range.
pub proof fn lemma_sorted_same<T: SortOrd>(s1: Seq<T>, s2: Seq<T>, lo: int, hi: int)
    requires
        sorted_rng::<T>(s1, lo, hi),
        forall|k: int| lo <= k < hi ==> s1[k] == #[trigger] s2[k],
    ensures
        sorted_rng::<T>(s2, lo, hi),
{
}

/// A sorted sequence has no adjacent inversion: for every adjacent pair,
/// the later element does not come before the earlier one.
pub proof fn lemma_sorted_adjacent_pairs<T: SortOrd>(s: Seq<T>)
    requires
        sorted::<T>(s),
    ensures
        forall|i: int| 0 <= i < s.len() - 1 ==> !(#[trigger] T::lt_spec(s[i + 1], s[i])),
{
    assert forall|i: int| 0 <= i < s.len() - 1 implies !(#[trigger] T::lt_spec(s[i + 1], s[i])) by {
        assert(!T::lt_spec(s[i + 1], s[i]));
    }
}

/// A range with no adjacent inversion is sorted: "not after" carries over
/// any chain of neighbours by transitivity.
pub proof fn lemma_adjacent_sorted<T: SortOrd>(s: Seq<T>, lo: int, hi: int)
    requires
        0 <= lo,
        hi <= s.len(),
        forall|k: int| lo <= k < hi - 1 ==> !(#[trigger] T::lt_spec(s[k + 1], s[k])),
    ensures
        sorted_rng::<T>(s, lo, hi),
    decreases hi - lo,
{
    T::lt_laws();
    if hi - lo > 1 {
        lemma_adjacent_sorted::<T>(s, lo, hi - 1);
        assert forall|i: int, j: int| lo <= i <= j < hi implies !(#[trigger] T::lt_spec(
            s[j],
            s[i],
        )) by {
            if j == hi - 1 && i < j {
                let k = hi - 2;
                assert(!T::lt_spec(s[k + 1], s[k]));
                assert(!T::lt_spec(s[hi - 1], s[hi - 2]));
                assert(!T::lt_spec(s[hi - 2], s[i]));
            }
        }
    }
}

/// The index `k` is one of the stride positions `lo, lo + step, ...`.
pub open spec fn on_stride(lo: int, step: int, k: int) -> bool {
    k >= lo && (k - lo) % step == 0
}

/// How many stride positions lie below `n`.
pub open spec fn stride_count(n: int, lo: int, step: int) -> int {
    if lo >= n {
        0
    } else {
        (n - lo - 1) / step + 1
    }
}

/// The elements at the stride positions, in order.
pub open spec fn stride_of<T>(s: Seq<T>, lo: int, step: int) -> Seq<T> {
    Seq::new(stride_count(s.len() as int, lo, step) as nat, |t: int| s[lo + t * step])
}

/// Every slot of the stride view comes from a stride position below `n`,
/// and every such position from exactly one slot.
pub proof fn lemma_stride_pos(n: int, lo: int, step: int, k: int)
    requires
        step >= 1,
        0 <= lo,
        on_stride(lo, step, k),
        k < n,
    ensures
        0 <= (k - lo) / step < stride_count(n, lo, step),
        lo + ((k - lo) / step) * step == k,
{
    lemma_fundamental_div_mod(k - lo, step);
    vstd::arithmetic::div_mod::lemma_div_is_ordered(k - lo, n - lo - 1, step);
    assert(step * ((k - lo) / step) == ((k - lo) / step) * step) by (nonlinear_arith);
}

/// A slot index below the count lands on a stride position below `n`.
pub proof fn lemma_stride_index(n: int, lo: int, step: int, t: int)
    requires
        step >= 1,
        0 <= lo,
        0 <= t < stride_count(n, lo, step),
    ensures
        lo <= lo + t * step < n,
        on_stride(lo, step, lo + t * step),
        (lo + t * step - lo) / step == t,
{
    let q = (n - lo - 1) / step;
    lemma_fundamental_div_mod(n - lo - 1, step);
    assert(t * step <= q * step) by (nonlinear_arith)
        requires
            t <= q,
            step >= 1,
    ;
    assert(q * step <= n - lo - 1) by (nonlinear_arith)
        requires
            n - lo - 1 == step * q + (n - lo - 1) % step,
            (n - lo - 1) % step >= 0,
    ;
    assert(t * step >= 0) by (nonlinear_arith)
        requires
            t >= 0,
            step >= 1,
    ;
    lemma_fundamental_div_mod_converse(t * step, step, t, 0);
}

/// One step back from a stride position is a stride position.
pub proof fn lemma_stride_prev(lo: int, step: int, k: int)
    requires
        step >= 1,
        on_stride(lo, step, k),
        k - step >= lo,
    ensures
        on_stride(lo, step, k - step),
{
    lemma_fundamental_div_mod(k - lo, step);
    let q = (k - lo) / step;
    assert(q >= 1) by (nonlinear_arith)
        requires
            step * q == k - lo,
            k - lo >= step,
            step >= 1,
    ;
    assert(k - step - lo == step * (q - 1) + 0) by (nonlinear_arith)
        requires
            k - lo == step * q,
    ;
    lemma_fundamental_div_mod_converse(k - step - lo, step, q - 1, 0);
}

/// One step on from a stride position is a stride position.
pub proof fn lemma_stride_next(lo: int, step: int, k: int)
    requires
        step >= 1,
        on_stride(lo, step, k),
    ensures
        on_stride(lo, step, k + step),
{
    lemma_fundamental_div_mod(k - lo, step);
    let q = (k - lo) / step;
    assert(k + step - lo == step * (q + 1) + 0) by (nonlinear_arith)
        requires
            k - lo == step * q,
    ;
    lemma_fundamental_div_mod_converse(k + step - lo, step, q + 1, 0);
}

/// A stride offset below the stride is the start itself.
pub proof fn lemma_stride_start(lo: int, step: int, k: int)
    requires
        step >= 1,
        on_stride(lo, step, k),
        k < lo + step,
    ensures
        k == lo,
{
    lemma_fundamental_div_mod_converse(k - lo, step, 0, k - lo);
}

/// Distinct stride positions differ by at least the stride.
pub proof fn lemma_stride_gap(lo: int, step: int, a: int, b: int)
    requires
        step >= 1,
        on_stride(lo, step, a),
        on_stride(lo, step, b),
        a < b,
    ensures
        a + step <= b,
{
    lemma_fundamental_div_mod(a - lo, step);
    lemma_fundamental_div_mod(b - lo, step);
    let qa = (a - lo) / step;
    let qb = (b - lo) / step;
    assert(step * qa < step * qb ==> qa < qb) by (nonlinear_arith)
        requires
            step >= 1,
    ;
    assert(step * qa + step <= step * qb) by (nonlinear_arith)
        requires
            qa + 1 <= qb,
            step >= 1,
    ;
}

/// A longer prefix holds at least as many stride positions.
pub proof fn lemma_stride_count_mono(lo: int, step: int, r: int, n: int)
    requires
        step >= 1,
        0 <= r <= n,
    ensures
        0 <= stride_count(r, lo, step) <= stride_count(n, lo, step),
{
    if lo < r {
        vstd::arithmetic::div_mod::lemma_div_is_ordered(r - 1 - lo, n - 1 - lo, step);
        lemma_fundamental_div_mod(r - 1 - lo, step);
        assert(step * ((r - 1 - lo) / step) >= 0 ==> (r - 1 - lo) / step >= 0) by (nonlinear_arith)
            requires
                step >= 1,
        ;
    } else if lo < n {
        lemma_fundamental_div_mod(n - 1 - lo, step);
        assert(step * ((n - 1 - lo) / step) >= 0 ==> (n - 1 - lo) / step >= 0) by (nonlinear_arith)
            requires
                step >= 1,
        ;
    }
}

/// The greatest stride position below `r`.
pub open spec fn last_stride(lo: int, step: int, r: int) -> int {
    lo + ((r - 1 - lo) / step) * step
}

/// The greatest stride position below `r` is a stride position below `r`,
/// and no stride position below `r` lies past it.
pub proof fn lemma_last_stride(lo: int, step: int, r: int)
    requires
        step >= 1,
        lo < r,
    ensures
        on_stride(lo, step, last_stride(lo, step, r)),
        lo <= last_stride(lo, step, r) < r,
        forall|k: int| #[trigger]
            on_stride(lo, step, k) && k < r ==> k <= last_stride(lo, step, r),
{
    let q = (r - 1 - lo) / step;
    lemma_fundamental_div_mod(r - 1 - lo, step);
    assert(q >= 0) by (nonlinear_arith)
        requires
            step * q == r - 1 - lo - (r - 1 - lo) % step,
            0 <= (r - 1 - lo) % step < step,
            r - 1 - lo >= 0,
            step >= 1,
    ;
    assert(0 <= q * step <= r - 1 - lo) by (nonlinear_arith)
        requires
            step * q == r - 1 - lo - (r - 1 - lo) % step,
            0 <= (r - 1 - lo) % step < step,
            q >= 0,
            step >= 1,
    ;
    lemma_fundamental_div_mod_converse(q * step, step, q, 0);
    assert forall|k: int| #[trigger]
        on_stride(lo, step, k) && k < r implies k <= last_stride(lo, step, r) by {
        let qk = (k - lo) / step;
        lemma_fundamental_div_mod(k - lo, step);
        vstd::arithmetic::div_mod::lemma_div_is_ordered(k - lo, r - 1 - lo, step);
        assert(qk * step <= q * step) by (nonlinear_arith)
            requires
                qk <= q,
                step >= 1,
        ;
    }
}

/// Updating a stride position updates its slot of the stride view.
pub proof fn lemma_stride_update<T>(s: Seq<T>, lo: int, step: int, k: int, v: T)
    requires
        step >= 1,
        0 <= lo,
        on_stride(lo, step, k),
        k < s.len(),
    ensures
        stride_of(s.update(k, v), lo, step) == stride_of(s, lo, step).update((k - lo) / step, v),
{
    let n = s.len() as int;
    lemma_stride_pos(n, lo, step, k);
    let tk = (k - lo) / step;
    assert forall|t: int|
        0 <= t < stride_count(n, lo, step) implies #[trigger] stride_of(
        s.update(k, v),
        lo,
        step,
    )[t] == stride_of(s, lo, step).update(tk, v)[t] by {
        lemma_stride_index(n, lo, step, t);
        if t != tk {
            assert(lo + t * step != k) by {
                if lo + t * step == k {
                    assert((lo + t * step - lo) / step == t);
                }
            }
        }
    }
    assert(stride_of(s.update(k, v), lo, step) =~= stride_of(s, lo, step).update(tk, v));
}

/// A swap of two stride positions keeps the stride view's multiset.
pub proof fn lemma_stride_swap<T>(s1: Seq<T>, s2: Seq<T>, lo: int, step: int, a: int, b: int)
    requires
        step >= 1,
        0 <= lo,
        on_stride(lo, step, a),
        on_stride(lo, step, b),
        a < s1.len(),
        b < s1.len(),
        s2 == s1.update(a, s1[b]).update(b, s1[a]),
    ensures
        stride_of(s2, lo, step).to_multiset() == stride_of(s1, lo, step).to_multiset(),
{
    broadcast use group_to_multiset_ensures;
    broadcast use vstd::multiset::group_multiset_axioms;

    let n = s1.len() as int;
    lemma_stride_pos(n, lo, step, a);
    lemma_stride_pos(n, lo, step, b);
    lemma_stride_update(s1, lo, step, a, s1[b]);
    lemma_stride_update(s1.update(a, s1[b]), lo, step, b, s1[a]);
    let sv1 = stride_of(s1, lo, step);
    let ta = (a - lo) / step;
    let tb = (b - lo) / step;
    assert(stride_of(s2, lo, step) == sv1.update(ta, s1[b]).update(tb, s1[a]));
    assert(sv1[ta] == s1[a] && sv1[tb] == s1[b]) by {
        lemma_stride_index(n, lo, step, ta);
        lemma_stride_index(n, lo, step, tb);
    }
    let sv2 = sv1.update(ta, sv1[tb]).update(tb, sv1[ta]);
    assert forall|x: T| sv2.to_multiset().count(x) == #[trigger] sv1.to_multiset().count(x) by {
    }
    assert(sv2.to_multiset() =~= sv1.to_multiset());
}

/// Stride views over positions that did not change below a cut agree on
/// their leading slots; with equal multisets overall, the leading slots are
/// then permutations of each other.
pub proof fn lemma_stride_cut(n: int, lo: int, step: int, r: int, t: int)
    requires
        step >= 1,
        0 <= lo,
        0 <= t < stride_count(n, lo, step),
    ensures
        lo + t * step < r <==> t < stride_count(r, lo, step),
{
    lemma_stride_index(n, lo, step, t);
    if lo + t * step < r {
        lemma_stride_pos(r, lo, step, lo + t * step);
    }
    if t < stride_count(r, lo, step) {
        lemma_stride_index(r, lo, step, t);
    }
}

/// The subsequence of elements order-equivalent to `x`: neither before nor
/// after it.
pub open spec fn ties_of<T: SortOrd>(s: Seq<T>, x: T) -> Seq<T> {
    s.filter(|e: T| !T::lt_spec(e, x) && !T::lt_spec(x, e))
}

/// Swapping two adjacent, strictly ordered elements changes no tie
/// subsequence: the two cannot tie with the same element, and no third
/// element lies between them.
pub proof fn lemma_adjacent_swap_ties<T: SortOrd>(s1: Seq<T>, s2: Seq<T>, k: int)
    requires
        0 <= k,
        k + 1 < s1.len(),
        T::lt_spec(s1[k + 1], s1[k]) || T::lt_spec(s1[k], s1[k + 1]),
        s2 == s1.update(k, s1[k + 1]).update(k + 1, s1[k]),
    ensures
        forall|x: T| #![trigger ties_of::<T>(s2, x)] ties_of::<T>(s2, x) == ties_of::<T>(s1, x),
{
    broadcast use vstd::seq::Seq::filter_distributes_over_add;
    broadcast use vstd::seq::Seq::lemma_filter_push;
    broadcast use vstd::seq_lib::group_filter_ensures;

    T::lt_laws();
    let a = s1[k];
    let b = s1[k + 1];
    assert forall|x: T| #![trigger ties_of::<T>(s2, x)]
        ties_of::<T>(s2, x) == ties_of::<T>(s1, x) by {
        let q = |e: T| !T::lt_spec(e, x) && !T::lt_spec(x, e);
        let pre = s1.subrange(0, k);
        let post = s1.subrange(k + 2, s1.len() as int);
        assert(s1 =~= pre + seq![a, b] + post);
        assert(s2 =~= pre + seq![b, a] + post);
        assert(seq![a, b] =~= Seq::<T>::empty().push(a).push(b));
        assert(seq![b, a] =~= Seq::<T>::empty().push(b).push(a));
        assert(Seq::<T>::empty().filter(q) =~= Seq::<T>::empty());
        // a strict pair cannot both tie with the same element
        assert(!(q(a) && q(b)));
        assert(seq![a, b].filter(q) =~= seq![b, a].filter(q));
        assert(s1.filter(q) == (pre + seq![a, b]).filter(q) + post.filter(q));
        assert(s2.filter(q) == (pre + seq![b, a]).filter(q) + post.filter(q));
        assert(s1.filter(q) =~= s2.filter(q));
    }
}

/// When the head is a member, it heads the filtered sequence.
proof fn lemma_filter_first<T>(s: Seq<T>, p: spec_fn(T) -> bool)
    requires
        s.len() >= 1,
        p(s[0]),
    ensures
        s.filter(p).len() >= 1,
        s.filter(p)[0] == s[0],
    decreases s.len(),
{
    broadcast use vstd::seq::Seq::lemma_filter_push;
    broadcast use vstd::seq_lib::group_filter_ensures;

    if s.len() == 1 {
        assert(s =~= Seq::<T>::empty().push(s[0]));
        assert(Seq::<T>::empty().filter(p) =~= Seq::<T>::empty());
    } else {
        let s1 = s.drop_last();
        assert(s =~= s1.push(s.last()));
        assert(s1[0] == s[0]);
        lemma_filter_first(s1, p);
    }
}

/// Filtering the tail keeps or drops only the head of the filtered
/// sequence, depending on whether the head is a member.
proof fn lemma_filter_drop_first<T>(s: Seq<T>, p: spec_fn(T) -> bool)
    requires
        s.len() >= 1,
    ensures
        s.drop_first().filter(p) == if p(s[0]) {
            s.filter(p).drop_first()
        } else {
            s.filter(p)
        },
{
    broadcast use vstd::seq::Seq::filter_distributes_over_add;
    broadcast use vstd::seq::Seq::lemma_filter_push;
    broadcast use vstd::seq_lib::group_filter_ensures;

    let rest = s.drop_first();
    assert(s =~= seq![s[0]] + rest);
    assert(seq![s[0]] =~= Seq::<T>::empty().push(s[0]));
    assert(Seq::<T>::empty().filter(p) =~= Seq::<T>::empty());
    assert(s.filter(p) == seq![s[0]].filter(p) + rest.filter(p));
    if p(s[0]) {
        assert(seq![s[0]].filter(p) =~= seq![s[0]]);
        assert((seq![s[0]] + rest.filter(p)).drop_first() =~= rest.filter(p));
    } else {
        assert(seq![s[0]].filter(p) =~= Seq::<T>::empty());
        assert(Seq::<T>::empty() + rest.filter(p) =~= rest.filter(p));
    }
}

/// Two sorted permutations of each other with identical tie subsequences
/// are the same sequence: the stable sorted arrangement of a multiset is
/// unique.
pub proof fn lemma_sorted_ties_unique<T: SortOrd>(s1: Seq<T>, s2: Seq<T>)
    requires
        sorted::<T>(s1),
        sorted::<T>(s2),
        s1.to_multiset() == s2.to_multiset(),
        forall|x: T| #![trigger ties_of::<T>(s1, x)] ties_of::<T>(s1, x) == ties_of::<T>(s2, x),
    ensures
        s1 == s2,
    decreases s1.len(),
{
    broadcast use group_to_multiset_ensures;
    broadcast use lemma_seq_contains;
    broadcast use vstd::multiset::group_multiset_axioms;

    T::lt_laws();
    lemma_perm_len(s1, s2);
    if s1.len() == 0 {
        assert(s1 =~= s2);
    } else {
        // the two heads are order-equivalent minima of the same multiset
        assert(s1.to_multiset().count(s1[0]) > 0);
        assert(s2.contains(s1[0]));
        let i = choose|i: int| 0 <= i < s2.len() && s2[i] == s1[0];
        assert(s2.to_multiset().count(s2[0]) > 0);
        assert(s1.contains(s2[0]));
        let j = choose|j: int| 0 <= j < s1.len() && s1[j] == s2[0];
        assert(!T::lt_spec(s2[i], s2[0]));
        assert(!T::lt_spec(s1[j], s1[0]));
        assert(!T::lt_spec(s1[0], s2[0]) && !T::lt_spec(s2[0], s1[0]));
        // both heads lead the same tie subsequence, so they are equal
        let q = |e: T| !T::lt_spec(e, s1[0]) && !T::lt_spec(s1[0], e);
        lemma_filter_first(s1, q);
        lemma_filter_first(s2, q);
        assert(ties_of::<T>(s1, s1[0]) == ties_of::<T>(s2, s1[0]));
        assert(s1[0] == s2[0]);
        // the tails agree on every tie subsequence as well
        let t1 = s1.drop_first();
        let t2 = s2.drop_first();
        assert(t1 =~= s1.remove(0));
        assert(t2 =~= s2.remove(0));
        assert(t1.to_multiset() == t2.to_multiset());
        assert(sorted::<T>(t1)) by {
            assert forall|a: int, b: int| 0 <= a <= b < t1.len() implies !(#[trigger] T::lt_spec(
                t1[b],
                t1[a],
            )) by {
                assert(t1[a] == s1[a + 1] && t1[b] == s1[b + 1]);
            }
        }
        assert(sorted::<T>(t2)) by {
            assert forall|a: int, b: int| 0 <= a <= b < t2.len() implies !(#[trigger] T::lt_spec(
                t2[b],
                t2[a],
            )) by {
                assert(t2[a] == s2[a + 1] && t2[b] == s2[b + 1]);
            }
        }
        assert forall|x: T| #![trigger ties_of::<T>(t1, x)]
            ties_of::<T>(t1, x) == ties_of::<T>(t2, x) by {
            let qx = |e: T| !T::lt_spec(e, x) && !T::lt_spec(x, e);
            lemma_filter_drop_first(s1, qx);
            lemma_filter_drop_first(s2, qx);
            assert(ties_of::<T>(s1, x) == ties_of::<T>(s2, x));
        }
        lemma_sorted_ties_unique::<T>(t1, t2);
        assert forall|k: int| 0 <= k < s1.len() implies s1[k] == #[trigger] s2[k] by {
            if k >= 1 {
                assert(s1[k] == t1[k - 1] && s2[k] == t2[k - 1]);
            }
        }
        assert(s1 =~= s2);
    }
}

/// Under an antisymmetric order, a sorted permutation of a sorted sequence is
/// that same sequence: the sorted arrangement of a multiset is unique.
///
/// This is why sorting an already-sorted sequence changes nothing, and why all
/// algorithms agree on the same input: any two sorted outputs with equal
/// multisets coincide.
pub proof fn lemma_sorted_perm_unique<T: SortOrd>(s1: Seq<T>, s2: Seq<T>)
    requires
        forall|a: T, b: T|
            !(#[trigger] T::lt_spec(a, b)) && !(#[trigger] T::lt_spec(b, a)) ==> a == b,
        sorted::<T>(s1),
        sorted::<T>(s2),
        s1.to_multiset() == s2.to_multiset(),
    ensures
        s1 == s2,
    decreases s1.len(),
{
    broadcast use group_to_multiset_ensures;
    broadcast use lemma_seq_contains;
    broadcast use vstd::multiset::group_multiset_axioms;

    T::lt_laws();
    lemma_perm_len(s1, s2);
    if s1.len() == 0 {
        assert(s1 =~= s2);
    } else {
        assert(s1.to_multiset().count(s1[0]) > 0);
        assert(s2.contains(s1[0]));
        let i = choose|i: int| 0 <= i < s2.len() && s2[i] == s1[0];
        assert(s2.to_multiset().count(s2[0]) > 0);
        assert(s1.contains(s2[0]));
        let j = choose|j: int| 0 <= j < s1.len() && s1[j] == s2[0];
        // each first element is <= the other, so they are equal
        assert(!T::lt_spec(s2[i], s2[0]));
        assert(!T::lt_spec(s1[j], s1[0]));
        assert(s1[0] == s2[0]);
        let t1 = s1.subrange(1, s1.len() as int);
        let t2 = s2.subrange(1, s2.len() as int);
        assert(t1 =~= s1.remove(0));
        assert(t2 =~= s2.remove(0));
        assert(t1.to_multiset() == t2.to_multiset());
        assert(sorted::<T>(t1)) by {
            assert forall|i2: int, j2: int| 0 <= i2 <= j2 < t1.len() implies !(#[trigger] T::lt_spec(
                t1[j2],
                t1[i2],
            )) by {
                assert(t1[j2] == s1[j2 + 1] && t1[i2] == s1[i2 + 1]);
            }
        }
        assert(sorted::<T>(t2)) by {
            assert forall|i2: int, j2: int| 0 <= i2 <= j2 < t2.len() implies !(#[trigger] T::lt_spec(
                t2[j2],
                t2[i2],
            )) by {
                assert(t2[j2] == s2[j2 + 1] && t2[i2] == s2[i2 + 1]);
            }
        }
        lemma_sorted_perm_unique::<T>(t1, t2);
        assert forall|k: int| 0 <= k < s1.len() implies s1[k] == #[trigger] s2[k] by {
            if k >= 1 {
                assert(s1[k] == t1[k - 1] && s2[k] == t2[k - 1]);
            }
        }
        assert(s1 =~= s2);
    }
}

/// A permutation of a sequence of length at most one is that same sequence:
/// the shortest inputs come back unchanged from every permuting algorithm.
pub proof fn lemma_short_perm_eq<T>(s1: Seq<T>, s2: Seq<T>)
    requires
        s1.to_multiset() == s2.to_multiset(),
        s1.len() <= 1,
    ensures
        s1 == s2,
{
    broadcast use group_to_multiset_ensures;
    broadcast use lemma_seq_contains;

    lemma_perm_len(s1, s2);
    if s1.len() == 1 {
        assert(s1.to_multiset().count(s1[0]) > 0);
        assert(s2.contains(s1[0]));
    }
    assert(s1 =~= s2);
}

} // verus!
