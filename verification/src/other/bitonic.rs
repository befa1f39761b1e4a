//! The bitonic sorting network: a fixed, data-independent compare-exchange
//! sequence over sequences whose length is zero or a power of two. The
//! comparison topology depends only on the indices, never on the data,
//! which is what makes the network suitable for uniform parallel execution;
//! here it runs sequentially.

use vstd::prelude::*;
use vstd::arithmetic::power2::pow2;
use vstd::arithmetic::power2::lemma_pow2_unfold;
use vstd::arithmetic::power2::lemma_pow2_pos;
use vstd::arithmetic::div_mod::lemma_fundamental_div_mod;
use vstd::arithmetic::div_mod::lemma_fundamental_div_mod_converse;
use crate::order::SortOrd;
use crate::order::gt;
use crate::order::ge;
use crate::order::sorted;
use crate::order::sorted_rng;
use crate::facts::same_outside;
use crate::facts::lemma_perm_rng_full;
use crate::facts::lemma_perm_rng_all;
use crate::facts::lemma_perm_rng_witness;
use crate::utils::swap;

verus! {

/// The length is zero or a power of two.
pub open spec fn is_bin_exp(n: nat) -> bool {
    n == 0 || exists|e: nat| n == pow2(e)
}

/// Zero and the powers of two halve into themselves.
proof fn lemma_bin_exp_halves(n: nat)
    requires
        is_bin_exp(n),
        n >= 2,
    ensures
        n % 2 == 0,
        is_bin_exp(n / 2),
{
    let e = choose|e: nat| n == pow2(e);
    if e == 0 {
        assert(pow2(0) == 1) by {
            vstd::arithmetic::power2::lemma2_to64();
        }
    }
    lemma_pow2_unfold(e);
    lemma_pow2_pos((e - 1) as nat);
    assert(n / 2 == pow2((e - 1) as nat));
}

/// Check whether a length is zero or a power of two.
pub fn bin_exp_check(n: usize) -> (r: bool)
    ensures
        r == is_bin_exp(n as nat),
{
    if n == 0 {
        return true;
    }
    let ghost n0 = n as nat;
    let mut m = n;
    let ghost e: nat = 0nat;
    proof {
        assert(pow2(0) == 1) by {
            vstd::arithmetic::power2::lemma2_to64();
        }
    }
    while m > 1
        invariant
            1 <= m,
            n0 == n as nat,
            n0 == m as nat * pow2(e),
        decreases m,
    {
        proof {
            lemma_pow2_pos(e);
        }
        if m % 2 == 1 {
            proof {
                if exists|w: nat| n0 == pow2(w) {
                    let w = choose|w: nat| n0 == pow2(w);
                    lemma_odd_factor_unique(m as nat, e, w);
                    assert(false);
                }
                assert(n0 >= 2) by (nonlinear_arith)
                    requires
                        n0 == m as nat * pow2(e),
                        m >= 2,
                        pow2(e) >= 1,
                ;
                assert(!is_bin_exp(n0));
            }
            return false;
        }
        proof {
            lemma_pow2_unfold((e + 1) as nat);
            assert((m as nat / 2) * pow2(e + 1) == m as nat * pow2(e)) by (nonlinear_arith)
                requires
                    m as nat % 2 == 0,
                    pow2((e + 1) as nat) == 2 * pow2(e),
            ;
        }
        m = m / 2;
        proof {
            e = e + 1;
        }
    }
    proof {
        assert(n0 == pow2(e));
    }
    true
}

/// A power of two has no odd factor above one.
proof fn lemma_odd_factor_unique(m: nat, e: nat, w: nat)
    requires
        m % 2 == 1,
        m >= 2,
    ensures
        m * pow2(e) != pow2(w),
    decreases w,
{
    lemma_pow2_pos(e);
    lemma_pow2_pos(w);
    if m * pow2(e) == pow2(w) {
        if e == 0 {
            assert(pow2(0) == 1) by {
                vstd::arithmetic::power2::lemma2_to64();
            }
            // an odd number of at least two is no power of two
            assert(m * pow2(e) == m) by (nonlinear_arith)
                requires
                    pow2(e) == 1,
            ;
            assert(m == pow2(w));
            if w == 0 {
                assert(pow2(0) == 1) by {
                    vstd::arithmetic::power2::lemma2_to64();
                }
            } else {
                lemma_pow2_unfold(w);
                lemma_pow2_pos((w - 1) as nat);
                assert(m == 2 * pow2((w - 1) as nat));
                assert(m % 2 == 0) by (nonlinear_arith)
                    requires
                        m == 2 * pow2((w - 1) as nat),
                ;
            }
        } else {
            if w == 0 {
                assert(pow2(0) == 1) by {
                    vstd::arithmetic::power2::lemma2_to64();
                }
                assert(m * pow2(e) >= 2 * pow2(e)) by (nonlinear_arith)
                    requires
                        m >= 2,
                        pow2(e) >= 1,
                ;
            } else {
                lemma_pow2_unfold(e);
                lemma_pow2_unfold(w);
                assert(m * pow2(e) == 2 * (m * pow2((e - 1) as nat))) by (nonlinear_arith)
                    requires
                        pow2(e) == 2 * pow2((e - 1) as nat),
                ;
                lemma_odd_factor_unique(m, (e - 1) as nat, (w - 1) as nat);
            }
        }
    }
}

/// A predicate closed downward under the order: whatever is not after a
/// member is a member. Sortedness is equivalent to every such predicate's
/// members forming a prefix, which reduces the network's correctness to
/// reasoning about member/non-member patterns.
pub open spec fn down_closed<T: SortOrd>(p: spec_fn(T) -> bool) -> bool {
    forall|x: T, y: T| #![trigger p(x), p(y)] p(y) && !T::lt_spec(y, x) ==> p(x)
}

/// The members of `p` in the range form a prefix of it.
pub open spec fn fronted<T: SortOrd>(s: Seq<T>, lo: int, hi: int, p: spec_fn(T) -> bool) -> bool {
    forall|i: int, j: int| #![trigger p(s[i]), p(s[j])]
        lo <= i <= j < hi && p(s[j]) ==> p(s[i])
}

/// The members of `p` in the range form a suffix of it.
pub open spec fn backed<T: SortOrd>(s: Seq<T>, lo: int, hi: int, p: spec_fn(T) -> bool) -> bool {
    forall|i: int, j: int| #![trigger p(s[i]), p(s[j])]
        lo <= i <= j < hi && p(s[i]) ==> p(s[j])
}

/// A range whose members form a prefix for every downward-closed predicate
/// is sorted: a violating pair would split on "comes before the earlier
/// element".
pub proof fn lemma_fronted_all_sorted<T: SortOrd>(s: Seq<T>, lo: int, hi: int)
    requires
        0 <= lo,
        hi <= s.len(),
        forall|p: spec_fn(T) -> bool| #[trigger]
            down_closed::<T>(p) ==> fronted::<T>(s, lo, hi, p),
    ensures
        sorted_rng::<T>(s, lo, hi),
{
    T::lt_laws();
    assert forall|i: int, j: int| lo <= i <= j < hi implies !(#[trigger] T::lt_spec(
        s[j],
        s[i],
    )) by {
        let p = |x: T| T::lt_spec(x, s[i]);
        assert(down_closed::<T>(p)) by {
            assert forall|x: T, y: T| #![trigger p(x), p(y)]
                p(y) && !T::lt_spec(y, x) implies p(x) by {
                assert(!T::lt_spec(x, s[i]) ==> !T::lt_spec(y, s[i]));
            }
        }
        assert(fronted::<T>(s, lo, hi, p));
        if T::lt_spec(s[j], s[i]) {
            assert(p(s[j]));
            assert(p(s[i]));
        }
    }
}

/// In a range whose members form a suffix there is a boundary index below
/// which nothing is a member and from which on everything is.
proof fn lemma_backed_boundary<T: SortOrd>(
    s: Seq<T>,
    lo: int,
    hi: int,
    p: spec_fn(T) -> bool,
) -> (k: int)
    requires
        lo <= hi <= s.len(),
        backed::<T>(s, lo, hi, p),
    ensures
        lo <= k <= hi,
        forall|i: int| lo <= i < hi ==> (#[trigger] p(s[i]) <==> i >= k),
    decreases hi - lo,
{
    if lo == hi {
        hi
    } else if p(s[lo]) {
        assert forall|i: int| lo <= i < hi implies #[trigger] p(s[i]) by {
            assert(p(s[lo]));
        }
        lo
    } else {
        assert(backed::<T>(s, lo + 1, hi, p));
        let k = lemma_backed_boundary::<T>(s, lo + 1, hi, p);
        k
    }
}

/// In a range whose members form a prefix there is a boundary index below
/// which everything is a member and from which on nothing is.
proof fn lemma_fronted_boundary<T: SortOrd>(
    s: Seq<T>,
    lo: int,
    hi: int,
    p: spec_fn(T) -> bool,
) -> (k: int)
    requires
        lo <= hi <= s.len(),
        fronted::<T>(s, lo, hi, p),
    ensures
        lo <= k <= hi,
        forall|i: int| lo <= i < hi ==> (#[trigger] p(s[i]) <==> i < k),
    decreases hi - lo,
{
    if lo == hi {
        lo
    } else if !p(s[hi - 1]) {
        assert(fronted::<T>(s, lo, hi - 1, p));
        let k = lemma_fronted_boundary::<T>(s, lo, hi - 1, p);
        k
    } else {
        assert forall|i: int| lo <= i < hi implies #[trigger] p(s[i]) by {
            assert(p(s[hi - 1]));
        }
        hi
    }
}

/// A trigger marker for quantifiers that relate an offset to its shift by
/// half the ring; triggering on the offset itself would self-feed.
pub open spec fn net_idx(k: int) -> bool {
    true
}

/// Offset `i` lies in the cyclic interval of length `l` starting at `a`,
/// on a ring of size `n`.
pub open spec fn cyc_in(i: int, a: int, l: int, n: int) -> bool
    recommends
        n > 0,
{
    0 <= (i - a) % n < l
}

/// The members of `p` in the range sit exactly on one cyclic interval of
/// offsets: the member/non-member pattern of a bitonic arrangement.
pub open spec fn blocky_wit<T: SortOrd>(
    s: Seq<T>,
    lo: int,
    hi: int,
    p: spec_fn(T) -> bool,
    a: int,
    l: int,
) -> bool {
    &&& 0 <= a < hi - lo
    &&& 0 <= l <= hi - lo
    &&& forall|i: int| lo <= i < hi ==> (#[trigger] p(s[i]) <==> cyc_in(i - lo, a, l, hi - lo))
}

pub open spec fn blocky<T: SortOrd>(s: Seq<T>, lo: int, hi: int, p: spec_fn(T) -> bool) -> bool {
    exists|a: int, l: int| blocky_wit::<T>(s, lo, hi, p, a, l)
}

/// Adding half the ring size moves the remainder by half the ring size,
/// wrapping once at most.
proof fn lemma_mod_shift(x: int, m: int)
    requires
        m > 0,
    ensures
        (x + m) % (2 * m) == if x % (2 * m) < m {
            x % (2 * m) + m
        } else {
            x % (2 * m) - m
        },
{
    let n = 2 * m;
    let r = x % n;
    lemma_fundamental_div_mod(x, n);
    vstd::arithmetic::div_mod::lemma_mod_bound(x, n);
    if r < m {
        assert(0 <= r + m < n);
        assert(x + m == (x / n) * n + (r + m)) by (nonlinear_arith)
            requires
                x == n * (x / n) + r,
                n == 2 * m,
        ;
        lemma_fundamental_div_mod_converse(x + m, n, x / n, r + m);
    } else {
        assert(n * (x / n + 1) == n * (x / n) + n) by (nonlinear_arith)
            requires
                n == 2 * m,
        ;
        lemma_fundamental_div_mod_converse(x + m, n, x / n + 1, r - m);
    }
}

/// The remainder by half the ring size is the remainder of the remainder.
proof fn lemma_mod_half(x: int, m: int)
    requires
        m > 0,
    ensures
        (x % (2 * m)) % m == x % m,
{
    let n = 2 * m;
    let r = x % n;
    lemma_fundamental_div_mod(x, n);
    vstd::arithmetic::div_mod::lemma_mod_bound(x, n);
    if r < m {
        assert(m * (2 * (x / n)) == n * (x / n)) by (nonlinear_arith)
            requires
                n == 2 * m,
        ;
        lemma_fundamental_div_mod_converse(x, m, 2 * (x / n), r);
        lemma_fundamental_div_mod_converse(r, m, 0, r);
    } else {
        assert(m * (2 * (x / n) + 1) == n * (x / n) + m) by (nonlinear_arith)
            requires
                n == 2 * m,
        ;
        lemma_fundamental_div_mod_converse(x, m, 2 * (x / n) + 1, r - m);
        lemma_fundamental_div_mod_converse(r, m, 1, r - m);
    }
}

/// How a cyclic interval on the full ring meets an offset and its shift by
/// half the ring: membership of either is decided by the remainder on the
/// half ring, membership of both by that remainder plus the half.
proof fn lemma_cyc_pair(i: int, a: int, l: int, m: int)
    requires
        m > 0,
        0 <= i < m,
        0 <= a < 2 * m,
        0 <= l <= 2 * m,
    ensures
        ({
            let u = (i - a) % m;
            &&& ((cyc_in(i, a, l, 2 * m) || cyc_in(i + m, a, l, 2 * m)) <==> u < l)
            &&& ((cyc_in(i, a, l, 2 * m) && cyc_in(i + m, a, l, 2 * m)) <==> u + m < l)
            &&& 0 <= u < m
        }),
{
    let n = 2 * m;
    let r = (i - a) % n;
    let r2 = (i + m - a) % n;
    let u = (i - a) % m;
    lemma_mod_shift(i - a, m);
    lemma_mod_half(i - a, m);
    vstd::arithmetic::div_mod::lemma_mod_bound(i - a, n);
    vstd::arithmetic::div_mod::lemma_mod_bound(i - a, m);
    if r < m {
        assert(u == r) by {
            lemma_fundamental_div_mod(r, m);
            lemma_fundamental_div_mod_converse(r, m, 0, r);
        }
        assert(r2 == u + m);
    } else {
        assert(u == r - m) by {
            lemma_fundamental_div_mod_converse(r, m, 1, r - m);
        }
        assert(r2 == u);
    }
}

/// The remainder is unchanged by reducing the offset base to its remainder.
proof fn lemma_mod_base(x: int, a: int, m: int)
    requires
        m > 0,
    ensures
        (x - a % m) % m == (x - a) % m,
{
    lemma_fundamental_div_mod(a, m);
    assert(x - a % m == m * (a / m) + (x - a)) by {
        assert(a % m == a - m * (a / m));
    }
    vstd::arithmetic::div_mod::lemma_mod_multiples_vanish(a / m, x - a, m);
}

/// After one compare-exchange stage, the member pattern of a
/// downward-closed predicate on each half is again one cyclic interval:
/// the half holding the smaller elements gets the union of the pattern and
/// its shift by half the ring, the other gets the intersection.
proof fn lemma_stage_halves<T: SortOrd>(
    s0: Seq<T>,
    s1: Seq<T>,
    lo: int,
    m: int,
    p: spec_fn(T) -> bool,
    a: int,
    l: int,
    low_small: bool,
)
    requires
        m >= 1,
        0 <= lo,
        lo + 2 * m <= s0.len(),
        s1.len() == s0.len(),
        down_closed::<T>(p),
        blocky_wit::<T>(s0, lo, lo + 2 * m, p, a, l),
        forall|k: int| #![trigger net_idx(k)]
            net_idx(k) && lo <= k < lo + m ==> ((s1[k] == s0[k] && s1[k + m] == s0[k + m]) || (
            s1[k] == s0[k + m] && s1[k + m] == s0[k])),
        low_small ==> forall|k: int| #![trigger net_idx(k)]
            net_idx(k) && lo <= k < lo + m ==> !T::lt_spec(s1[k + m], s1[k]),
        !low_small ==> forall|k: int| #![trigger net_idx(k)]
            net_idx(k) && lo <= k < lo + m ==> !T::lt_spec(s1[k], s1[k + m]),
    ensures
        low_small ==> blocky_wit::<T>(
            s1,
            lo,
            lo + m,
            p,
            a % m,
            if l < m {
                l
            } else {
                m
            },
        ) && blocky_wit::<T>(
            s1,
            lo + m,
            lo + 2 * m,
            p,
            a % m,
            if l > m {
                l - m
            } else {
                0
            },
        ),
        !low_small ==> blocky_wit::<T>(
            s1,
            lo,
            lo + m,
            p,
            a % m,
            if l > m {
                l - m
            } else {
                0
            },
        ) && blocky_wit::<T>(
            s1,
            lo + m,
            lo + 2 * m,
            p,
            a % m,
            if l < m {
                l
            } else {
                m
            },
        ),
{
    T::lt_laws();
    let am = a % m;
    vstd::arithmetic::div_mod::lemma_mod_bound(a, m);
    // membership after the stage, per pair
    assert forall|k: int| #![trigger p(s1[k])]
        lo <= k < lo + m implies ((p(s1[k]) <==> if low_small {
        p(s0[k]) || p(s0[k + m])
    } else {
        p(s0[k]) && p(s0[k + m])
    }) && (p(s1[k + m]) <==> if low_small {
        p(s0[k]) && p(s0[k + m])
    } else {
        p(s0[k]) || p(s0[k + m])
    })) by {
        assert(net_idx(k));
        if low_small {
            assert(!T::lt_spec(s1[k + m], s1[k]));
            if p(s1[k + m]) {
                assert(p(s1[k]));
            }
        } else {
            assert(!T::lt_spec(s1[k], s1[k + m]));
            if p(s1[k]) {
                assert(p(s1[k + m]));
            }
        }
    }
    assert forall|q: int| #![trigger p(s1[q])]
        lo + m <= q < lo + 2 * m implies (p(s1[q]) <==> if low_small {
        p(s0[q - m]) && p(s0[q])
    } else {
        p(s0[q - m]) || p(s0[q])
    }) by {
        let k = q - m;
        assert(net_idx(k));
        assert(p(s1[k]) <==> if low_small {
            p(s0[k]) || p(s0[k + m])
        } else {
            p(s0[k]) && p(s0[k + m])
        });
        assert(s1[q] == s1[k + m] && s0[q] == s0[k + m]);
    }
    // the union and intersection patterns are cyclic intervals on the half
    assert forall|q: int| #![trigger p(s0[q])] lo <= q < lo + m implies ((p(s0[q]) || p(s0[q + m])) <==> cyc_in(
        q - lo,
        am,
        if l < m {
            l
        } else {
            m
        },
        m,
    )) && ((p(s0[q]) && p(s0[q + m])) <==> cyc_in(
        q - lo,
        am,
        if l > m {
            l - m
        } else {
            0
        },
        m,
    )) by {
        lemma_cyc_pair(q - lo, a, l, m);
        lemma_mod_base(q - lo, a, m);
        assert(p(s0[q]) <==> cyc_in(q - lo, a, l, 2 * m));
        assert(p(s0[q + m]) <==> cyc_in(q + m - lo, a, l, 2 * m));
    }
    // restate both patterns indexed from each half's own start
    assert forall|i: int| #![trigger p(s1[i])] lo <= i < lo + m implies (p(s1[i]) <==> cyc_in(
        i - lo,
        am,
        if low_small {
            if l < m {
                l
            } else {
                m
            }
        } else {
            if l > m {
                l - m
            } else {
                0
            }
        },
        m,
    )) by {
        assert(p(s0[i]) || p(s0[i + m]) <==> cyc_in(i - lo, am, if l < m { l } else { m }, m));
    }
    assert forall|i: int| #![trigger p(s1[i])] lo + m <= i < lo + 2 * m implies (p(s1[i]) <==> cyc_in(
        i - (lo + m),
        am,
        if low_small {
            if l > m {
                l - m
            } else {
                0
            }
        } else {
            if l < m {
                l
            } else {
                m
            }
        },
        m,
    )) by {
        let q = i - m;
        assert(p(s0[q]) || p(s0[q + m]) <==> cyc_in(q - lo, am, if l < m { l } else { m }, m));
        assert(p(s0[q]) && p(s0[q + m]) <==> cyc_in(q - lo, am, if l > m { l - m } else { 0 }, m));
        assert(i - (lo + m) == q - lo);
    }
}

/// The compare-exchange stage and the recursive merge of each half. The
/// comparison pairs depend only on the indices; on an input whose members
/// of any downward-closed predicate form one cyclic interval, the ascending
/// merge moves them to a prefix and the descending merge to a suffix.
fn bitonic_merge_inner<T: SortOrd>(arr: &mut Vec<T>, lo: usize, hi: usize, up: bool)
    requires
        lo <= hi <= old(arr)@.len(),
        is_bin_exp((hi - lo) as nat),
    ensures
        final(arr)@.len() == old(arr)@.len(),
        final(arr)@.to_multiset() == old(arr)@.to_multiset(),
        same_outside(old(arr)@, final(arr)@, lo as int, hi as int),
        up ==> forall|p: spec_fn(T) -> bool| #![trigger down_closed::<T>(p)]
            down_closed::<T>(p) && blocky::<T>(old(arr)@, lo as int, hi as int, p)
                ==> fronted::<T>(final(arr)@, lo as int, hi as int, p),
        !up ==> forall|p: spec_fn(T) -> bool| #![trigger down_closed::<T>(p)]
            down_closed::<T>(p) && blocky::<T>(old(arr)@, lo as int, hi as int, p)
                ==> backed::<T>(final(arr)@, lo as int, hi as int, p),
    decreases hi - lo,
{
    proof {
        T::lt_laws();
    }
    if hi - lo < 2 {
        return ;
    }
    proof {
        lemma_bin_exp_halves((hi - lo) as nat);
    }
    let ghost s0 = arr@;
    let half = (hi - lo) / 2;
    let mid = lo + half;
    let mut i = lo;
    while i < mid
        invariant
            lo <= i <= mid,
            mid == lo + half,
            hi == lo + 2 * half,
            half >= 1,
            hi <= arr@.len(),
            s0 == old(arr)@,
            arr@.len() == s0.len(),
            arr@.to_multiset() == s0.to_multiset(),
            same_outside(s0, arr@, lo as int, hi as int),
            forall|k: int| #![trigger net_idx(k)]
                net_idx(k) && i <= k < mid ==> arr@[k] == s0[k] && arr@[k + half] == s0[k + half],
            forall|k: int| #![trigger net_idx(k)]
                net_idx(k) && lo <= k < i ==> ((arr@[k] == s0[k] && arr@[k + half] == s0[k
                    + half]) || (arr@[k] == s0[k + half] && arr@[k + half] == s0[k])),
            up ==> forall|k: int| #![trigger net_idx(k)]
                net_idx(k) && lo <= k < i ==> !T::lt_spec(arr@[k + half], arr@[k]),
            !up ==> forall|k: int| #![trigger net_idx(k)]
                net_idx(k) && lo <= k < i ==> !T::lt_spec(arr@[k], arr@[k + half]),
        decreases mid - i,
    {
        proof {
            T::lt_laws();
        }
        let ghost sp = arr@;
        if up {
            if gt(&arr[i], &arr[i + half]) {
                swap(arr, i, i + half);
            }
        } else {
            if ge(&arr[i + half], &arr[i]) {
                swap(arr, i, i + half);
            }
        }
        proof {
            assert forall|k: int| #![trigger net_idx(k)]
                net_idx(k) && i + 1 <= k < mid implies arr@[k] == s0[k] && arr@[k + half] == s0[k
                + half] by {
                assert(sp[k] == s0[k] && sp[k + half] == s0[k + half]);
                assert(arr@[k] == sp[k] && arr@[k + half] == sp[k + half]);
            }
            assert forall|k: int| #![trigger net_idx(k)]
                net_idx(k) && lo <= k < i + 1 implies ((arr@[k] == s0[k] && arr@[k + half] == s0[k
                + half]) || (arr@[k] == s0[k + half] && arr@[k + half] == s0[k])) by {
                if k < i {
                    assert(arr@[k] == sp[k] && arr@[k + half] == sp[k + half]);
                } else {
                    assert(net_idx(i as int));
                    assert(sp[i as int] == s0[i as int] && sp[i + half] == s0[i + half]);
                }
            }
            assert forall|k: int| #![trigger net_idx(k)]
                net_idx(k) && lo <= k < i + 1 && up implies !T::lt_spec(
                arr@[k + half],
                arr@[k],
            ) by {
                if k < i {
                    assert(arr@[k] == sp[k] && arr@[k + half] == sp[k + half]);
                }
            }
            assert forall|k: int| #![trigger net_idx(k)]
                net_idx(k) && lo <= k < i + 1 && !up implies !T::lt_spec(
                arr@[k],
                arr@[k + half],
            ) by {
                if k < i {
                    assert(arr@[k] == sp[k] && arr@[k + half] == sp[k + half]);
                }
            }
        }
        i += 1;
    }
    let ghost s1 = arr@;
    bitonic_merge_inner(arr, lo, mid, up);
    let ghost s2 = arr@;
    bitonic_merge_inner(arr, mid, hi, up);
    let ghost s3 = arr@;
    proof {
        T::lt_laws();
        lemma_perm_rng_full(s1, s2, lo as int, mid as int);
        lemma_perm_rng_full(s2, s3, mid as int, hi as int);
        let m = half as int;
        let lo_ = lo as int;
        let mid_ = mid as int;
        let hi_ = hi as int;
        assert forall|p: spec_fn(T) -> bool| #![trigger down_closed::<T>(p)]
            down_closed::<T>(p) && blocky::<T>(s0, lo_, hi_, p) implies (if up {
            fronted::<T>(s3, lo_, hi_, p)
        } else {
            backed::<T>(s3, lo_, hi_, p)
        }) by {
            let (a, l) = choose|a: int, l: int| blocky_wit::<T>(s0, lo_, hi_, p, a, l);
            lemma_stage_halves::<T>(s0, s1, lo_, m, p, a, l, up);
            let am = a % m;
            let lor = if l < m {
                l
            } else {
                m
            };
            let land = if l > m {
                l - m
            } else {
                0
            };
            let llow = if up {
                lor
            } else {
                land
            };
            let lhigh = if up {
                land
            } else {
                lor
            };
            assert(blocky_wit::<T>(s1, lo_, mid_, p, am, llow));
            assert(blocky_wit::<T>(s1, mid_, hi_, p, am, lhigh));
            assert(blocky::<T>(s1, lo_, mid_, p));
            // the first recursive merge leaves the upper half alone
            assert(blocky_wit::<T>(s2, mid_, hi_, p, am, lhigh)) by {
                assert forall|q: int| mid_ <= q < hi_ implies #[trigger] s2[q] == s1[q] by {}
            }
            assert(blocky::<T>(s2, mid_, hi_, p));
            if up {
                assert(fronted::<T>(s2, lo_, mid_, p));
                assert(fronted::<T>(s3, mid_, hi_, p));
                assert(fronted::<T>(s3, lo_, mid_, p)) by {
                    assert forall|q: int| lo_ <= q < mid_ implies #[trigger] s3[q] == s2[q] by {}
                }
                assert forall|i2: int, j2: int|
                    lo_ <= i2 <= j2 < hi_ && #[trigger] p(s3[j2]) implies #[trigger] p(s3[i2]) by {
                    if j2 < mid_ {
                    } else if i2 >= mid_ {
                    } else {
                        // a member beyond the midpoint forces the whole
                        // lower half to be members
                        assert(s3.subrange(mid_, hi_).to_multiset() == s1.subrange(
                            mid_,
                            hi_,
                        ).to_multiset()) by {
                            assert(s2.subrange(mid_, hi_) =~= s1.subrange(mid_, hi_));
                        }
                        let x = s3[j2];
                        let q0 = lemma_perm_rng_witness(s3, s1, mid_, hi_, j2);
                        assert(p(s1[q0]));
                        assert(cyc_in(q0 - mid_, am, lhigh, m));
                        assert(l > m) by {
                            vstd::arithmetic::div_mod::lemma_mod_bound(q0 - mid_ - am, m);
                        }
                        assert(p(s1[i2])) by {
                            vstd::arithmetic::div_mod::lemma_mod_bound(i2 - lo_ - am, m);
                            assert(cyc_in(i2 - lo_, am, llow, m));
                        }
                        assert forall|k: int| lo_ <= k < mid_ implies #[trigger] p(s1[k]) by {
                            vstd::arithmetic::div_mod::lemma_mod_bound(k - lo_ - am, m);
                            assert(cyc_in(k - lo_, am, llow, m));
                        }
                        lemma_perm_rng_all(s1, s2, lo_, mid_, p);
                        assert(p(s2[i2]));
                        assert(s3[i2] == s2[i2]);
                    }
                }
                assert(fronted::<T>(s3, lo_, hi_, p));
            } else {
                assert(backed::<T>(s2, lo_, mid_, p));
                assert(backed::<T>(s3, mid_, hi_, p));
                assert(backed::<T>(s3, lo_, mid_, p)) by {
                    assert forall|q: int| lo_ <= q < mid_ implies #[trigger] s3[q] == s2[q] by {}
                }
                assert forall|i2: int, j2: int|
                    lo_ <= i2 <= j2 < hi_ && #[trigger] p(s3[i2]) implies #[trigger] p(s3[j2]) by {
                    if j2 < mid_ {
                    } else if i2 >= mid_ {
                    } else {
                        // a member before the midpoint forces the whole
                        // upper half to be members
                        assert(s3.subrange(lo_, mid_).to_multiset() == s1.subrange(
                            lo_,
                            mid_,
                        ).to_multiset()) by {
                            assert(s3.subrange(lo_, mid_) =~= s2.subrange(lo_, mid_));
                        }
                        let q0 = lemma_perm_rng_witness(s3, s1, lo_, mid_, i2);
                        assert(p(s1[q0]));
                        assert(cyc_in(q0 - lo_, am, llow, m));
                        assert(l > m) by {
                            vstd::arithmetic::div_mod::lemma_mod_bound(q0 - lo_ - am, m);
                        }
                        assert forall|k: int| mid_ <= k < hi_ implies #[trigger] p(s1[k]) by {
                            vstd::arithmetic::div_mod::lemma_mod_bound(k - mid_ - am, m);
                            assert(cyc_in(k - mid_, am, lhigh, m));
                        }
                        assert forall|k: int| mid_ <= k < hi_ implies #[trigger] p(s2[k]) by {
                            assert(s2[k] == s1[k]);
                        }
                        lemma_perm_rng_all(s2, s3, mid_, hi_, p);
                        assert(p(s3[j2]));
                    }
                }
                assert(backed::<T>(s3, lo_, hi_, p));
            }
        }
    }
}

/// A non-wrapping stretch of members is one cyclic interval.
proof fn lemma_central_block<T: SortOrd>(
    s: Seq<T>,
    lo: int,
    hi: int,
    p: spec_fn(T) -> bool,
    k1: int,
    k2: int,
)
    requires
        0 <= lo <= k1 <= k2 <= hi <= s.len(),
        hi - lo >= 1,
        forall|q: int| lo <= q < hi ==> (#[trigger] p(s[q]) <==> k1 <= q < k2),
    ensures
        blocky::<T>(s, lo, hi, p),
{
    let n = hi - lo;
    let a = if k1 < hi {
        k1 - lo
    } else {
        0
    };
    let start = lo + a;
    assert forall|q: int| lo <= q < hi implies (#[trigger] p(s[q]) <==> cyc_in(
        q - lo,
        a,
        k2 - k1,
        n,
    )) by {
        if q >= start {
            lemma_fundamental_div_mod_converse(q - start, n, 0, q - start);
        } else {
            lemma_fundamental_div_mod_converse(q - start, n, -1, q - start + n);
        }
    }
    assert(blocky_wit::<T>(s, lo, hi, p, a, k2 - k1));
}

/// A stretch of members wrapping over the range's end is one cyclic
/// interval.
proof fn lemma_wrapped_block<T: SortOrd>(
    s: Seq<T>,
    lo: int,
    hi: int,
    p: spec_fn(T) -> bool,
    ka: int,
    kb: int,
)
    requires
        0 <= lo <= ka <= kb <= hi <= s.len(),
        hi - lo >= 1,
        forall|q: int| lo <= q < hi ==> (#[trigger] p(s[q]) <==> (q < ka || kb <= q)),
    ensures
        blocky_wit::<T>(s, lo, hi, p, (kb - lo) % (hi - lo), (hi - kb) + (ka - lo)),
{
    let n = hi - lo;
    let a = (kb - lo) % n;
    let l = (hi - kb) + (ka - lo);
    if kb < hi {
        lemma_fundamental_div_mod_converse(kb - lo, n, 0, kb - lo);
    } else {
        lemma_fundamental_div_mod_converse(kb - lo, n, 1, 0);
    }
    assert forall|q: int| lo <= q < hi implies (#[trigger] p(s[q]) <==> cyc_in(
        q - lo,
        a,
        l,
        n,
    )) by {
        if kb < hi {
            if q >= kb {
                lemma_fundamental_div_mod_converse(q - lo - a, n, 0, q - kb);
            } else {
                lemma_fundamental_div_mod_converse(q - lo - a, n, -1, q - kb + n);
            }
        } else {
            lemma_fundamental_div_mod_converse(q - lo - a, n, 0, q - lo);
        }
    }
}

/// Recursively produce a bitonic arrangement (first half descending, second
/// half ascending) and merge it; for every downward-closed predicate the
/// members end up as a prefix (ascending) or a suffix (descending), which
/// is exactly sortedness in the respective direction.
fn bitonic_sort_inner<T: SortOrd>(arr: &mut Vec<T>, lo: usize, hi: usize, up: bool)
    requires
        lo <= hi <= old(arr)@.len(),
        is_bin_exp((hi - lo) as nat),
    ensures
        final(arr)@.len() == old(arr)@.len(),
        final(arr)@.to_multiset() == old(arr)@.to_multiset(),
        same_outside(old(arr)@, final(arr)@, lo as int, hi as int),
        up ==> forall|p: spec_fn(T) -> bool| #![trigger down_closed::<T>(p)]
            down_closed::<T>(p) ==> fronted::<T>(final(arr)@, lo as int, hi as int, p),
        !up ==> forall|p: spec_fn(T) -> bool| #![trigger down_closed::<T>(p)]
            down_closed::<T>(p) ==> backed::<T>(final(arr)@, lo as int, hi as int, p),
    decreases hi - lo,
{
    proof {
        T::lt_laws();
    }
    if hi - lo < 2 {
        return ;
    }
    proof {
        lemma_bin_exp_halves((hi - lo) as nat);
    }
    let half = (hi - lo) / 2;
    let mid = lo + half;
    bitonic_sort_inner(arr, lo, mid, false);
    let ghost s1 = arr@;
    bitonic_sort_inner(arr, mid, hi, true);
    let ghost s2 = arr@;
    proof {
        let lo_ = lo as int;
        let mid_ = mid as int;
        let hi_ = hi as int;
        // for every downward-closed predicate, the members now form a
        // central stretch: a suffix of the descending half followed by a
        // prefix of the ascending half
        assert forall|p: spec_fn(T) -> bool| #![trigger down_closed::<T>(p)]
            down_closed::<T>(p) implies blocky::<T>(s2, lo_, hi_, p) by {
            assert(backed::<T>(s1, lo_, mid_, p));
            assert(backed::<T>(s2, lo_, mid_, p)) by {
                assert forall|q: int| lo_ <= q < mid_ implies #[trigger] s2[q] == s1[q] by {}
            }
            assert(fronted::<T>(s2, mid_, hi_, p));
            let k1 = lemma_backed_boundary::<T>(s2, lo_, mid_, p);
            let k2 = lemma_fronted_boundary::<T>(s2, mid_, hi_, p);
            assert forall|q: int| lo_ <= q < hi_ implies (#[trigger] p(s2[q]) <==> k1 <= q
                < k2) by {
            }
            lemma_central_block::<T>(s2, lo_, hi_, p, k1, k2);
        }
    }
    bitonic_merge_inner(arr, lo, hi, up);
}

/// The range is non-increasing: no element comes before a later one.
pub open spec fn rev_sorted_rng<T: SortOrd>(s: Seq<T>, lo: int, hi: int) -> bool {
    forall|i: int, j: int| lo <= i <= j < hi ==> !(#[trigger] T::lt_spec(s[i], s[j]))
}

/// The range is bitonic: non-decreasing then non-increasing, or the other
/// way round.
pub open spec fn bitonic_rng<T: SortOrd>(s: Seq<T>, lo: int, hi: int) -> bool {
    exists|v: int|
        lo <= v <= hi && ((sorted_rng::<T>(s, lo, v) && rev_sorted_rng::<T>(s, v, hi)) || (
        rev_sorted_rng::<T>(s, lo, v) && sorted_rng::<T>(s, v, hi)))
}

/// Bitonic merge: the fixed compare-exchange network stage over a sequence
/// whose length is zero or a power of two. On a bitonic input the result is
/// non-decreasing; on any input the elements are only rearranged.
pub fn bitonic_merge<T: SortOrd>(arr: &mut Vec<T>)
    requires
        is_bin_exp(old(arr)@.len() as nat),
    ensures
        final(arr)@.len() == old(arr)@.len(),
        final(arr)@.to_multiset() == old(arr)@.to_multiset(),
        bitonic_rng::<T>(old(arr)@, 0, old(arr)@.len() as int) ==> sorted::<T>(final(arr)@),
{
    proof {
        T::lt_laws();
    }
    let ghost s0 = arr@;
    let ghost n = arr@.len() as int;
    let hi = arr.len();
    bitonic_merge_inner(arr, 0, hi, true);
    proof {
        if bitonic_rng::<T>(s0, 0, n) {
            if n >= 1 {
                let v = choose|v: int|
                    0 <= v <= n && ((sorted_rng::<T>(s0, 0, v) && rev_sorted_rng::<T>(s0, v, n))
                        || (rev_sorted_rng::<T>(s0, 0, v) && sorted_rng::<T>(s0, v, n)));
                assert forall|p: spec_fn(T) -> bool| #![trigger down_closed::<T>(p)]
                    down_closed::<T>(p) implies blocky::<T>(s0, 0, n, p) by {
                    if sorted_rng::<T>(s0, 0, v) && rev_sorted_rng::<T>(s0, v, n) {
                        // members: a prefix of the rise and a suffix of the fall
                        assert(fronted::<T>(s0, 0, v, p)) by {
                            assert forall|i: int, j: int| #![trigger p(s0[i]), p(s0[j])]
                                0 <= i <= j < v && p(s0[j]) implies p(s0[i]) by {
                                assert(!T::lt_spec(s0[j], s0[i]));
                            }
                        }
                        assert(backed::<T>(s0, v, n, p)) by {
                            assert forall|i: int, j: int| #![trigger p(s0[i]), p(s0[j])]
                                v <= i <= j < n && p(s0[i]) implies p(s0[j]) by {
                                assert(!T::lt_spec(s0[i], s0[j]));
                            }
                        }
                        let ka = lemma_fronted_boundary::<T>(s0, 0, v, p);
                        let kb = lemma_backed_boundary::<T>(s0, v, n, p);
                        assert forall|q: int| 0 <= q < n implies (#[trigger] p(s0[q]) <==> (q < ka
                            || kb <= q)) by {
                        }
                        lemma_wrapped_block::<T>(s0, 0, n, p, ka, kb);
                    } else {
                        // members: a suffix of the fall and a prefix of the rise
                        assert(backed::<T>(s0, 0, v, p)) by {
                            assert forall|i: int, j: int| #![trigger p(s0[i]), p(s0[j])]
                                0 <= i <= j < v && p(s0[i]) implies p(s0[j]) by {
                                assert(!T::lt_spec(s0[i], s0[j]));
                            }
                        }
                        assert(fronted::<T>(s0, v, n, p)) by {
                            assert forall|i: int, j: int| #![trigger p(s0[i]), p(s0[j])]
                                v <= i <= j < n && p(s0[j]) implies p(s0[i]) by {
                                assert(!T::lt_spec(s0[j], s0[i]));
                            }
                        }
                        let k1 = lemma_backed_boundary::<T>(s0, 0, v, p);
                        let k2 = lemma_fronted_boundary::<T>(s0, v, n, p);
                        assert forall|q: int| 0 <= q < n implies (#[trigger] p(s0[q]) <==> k1 <= q
                            < k2) by {
                        }
                        lemma_central_block::<T>(s0, 0, n, p, k1, k2);
                    }
                }
            }
            lemma_fronted_all_sorted::<T>(arr@, 0, n);
        }
    }
}

/// Bitonic sort, over a sequence whose length is zero or a power of two.
///
/// After the call the vector is non-decreasing under the element order and
/// holds exactly the elements it held before.
pub fn bitonic_sort<T: SortOrd>(arr: &mut Vec<T>)
    requires
        is_bin_exp(old(arr)@.len() as nat),
    ensures
        final(arr)@.len() == old(arr)@.len(),
        sorted::<T>(final(arr)@),
        final(arr)@.to_multiset() == old(arr)@.to_multiset(),
{
    let ghost n = arr@.len() as int;
    let hi = arr.len();
    bitonic_sort_inner(arr, 0, hi, true);
    proof {
        lemma_fronted_all_sorted::<T>(arr@, 0, n);
    }
}

} // verus!
