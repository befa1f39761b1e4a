//! Binary LSD radix sort: for each bit position from least to most
//! significant, stably partition the vector into the elements with the bit
//! unset (compacted to the front in place) and the elements with it set
//! (staged in a buffer and appended behind).

use vstd::prelude::*;
use vstd::arithmetic::power2::pow2;
use vstd::arithmetic::power2::lemma_pow2_pos;
use vstd::arithmetic::power2::lemma_pow2_adds;
use vstd::arithmetic::power2::lemma_pow2_strictly_increases;
use vstd::arithmetic::div_mod::lemma_mod_breakdown;
use vstd::arithmetic::div_mod::lemma_mod_bound;
use vstd::arithmetic::div_mod::lemma_small_mod;
use vstd::arithmetic::div_mod::lemma_div_denominator;
use vstd::arithmetic::div_mod::lemma_fundamental_div_mod;
use vstd::seq_lib::group_to_multiset_ensures;
use vstd::seq_lib::lemma_multiset_commutative;
use crate::order::SortOrd;
use crate::order::sorted;
use crate::order::sorted_rng;

verus! {

/// Bit `d` of `n`.
pub open spec fn nth_bit(n: usize, d: nat) -> bool {
    (n as nat / pow2(d)) % 2 == 1
}

/// The value of the low `d` bits of `n`.
pub open spec fn low_bits(n: usize, d: nat) -> nat {
    (n as nat) % pow2(d)
}

/// The sequence is non-decreasing when compared by the low `d` bits alone.
pub open spec fn sorted_low(s: Seq<usize>, d: nat) -> bool {
    forall|i: int, j: int|
        0 <= i <= j < s.len() ==> low_bits(#[trigger] s[i], d) <= low_bits(#[trigger] s[j], d)
}

/// The low bits of a value split into the next bit and the bits below it.
proof fn lemma_low_bits_split(n: usize, d: nat)
    ensures
        low_bits(n, d + 1) == low_bits(n, d) + pow2(d) * (if nth_bit(n, d) {
            1nat
        } else {
            0nat
        }),
        low_bits(n, d) < pow2(d),
{
    lemma_pow2_pos(d);
    lemma_pow2_adds(d, 1);
    assert(pow2(1) == 2) by {
        vstd::arithmetic::power2::lemma2_to64();
    }
    lemma_mod_breakdown(n as int, pow2(d) as int, 2);
    lemma_mod_bound(n as int, pow2(d) as int);
    lemma_mod_bound((n as int / pow2(d) as int), 2);
}

/// Every element of a filtered sequence occurs in the sequence.
proof fn lemma_filter_is_elem(s: Seq<usize>, p: spec_fn(usize) -> bool, i: int)
    requires
        0 <= i < s.filter(p).len(),
    ensures
        exists|w: int| 0 <= w < s.len() && s[w] == #[trigger] s.filter(p)[i],
    decreases s.len(),
{
    broadcast use vstd::seq_lib::group_filter_ensures;
    broadcast use vstd::seq::Seq::lemma_filter_push;

    if s.len() > 0 {
        let s1 = s.drop_last();
        let x = s.last();
        assert(s =~= s1.push(x));
        if p(x) {
            assert(s.filter(p) == s1.filter(p).push(x));
            if i < s.filter(p).len() - 1 {
                lemma_filter_is_elem(s1, p, i);
                let w = choose|w: int| 0 <= w < s1.len() && s1[w] == s1.filter(p)[i];
                assert(s[w] == s.filter(p)[i]);
            } else {
                assert(s[s.len() - 1] == s.filter(p)[i]);
            }
        } else {
            assert(s.filter(p) == s1.filter(p));
            lemma_filter_is_elem(s1, p, i);
            let w = choose|w: int| 0 <= w < s1.len() && s1[w] == s1.filter(p)[i];
            assert(s[w] == s.filter(p)[i]);
        }
    }
}

/// A filtered sequence of a low-bit-sorted sequence is low-bit-sorted.
proof fn lemma_filter_sorted_low(s: Seq<usize>, d: nat, p: spec_fn(usize) -> bool)
    requires
        sorted_low(s, d),
    ensures
        sorted_low(s.filter(p), d),
    decreases s.len(),
{
    broadcast use vstd::seq_lib::group_filter_ensures;
    broadcast use vstd::seq::Seq::lemma_filter_push;

    if s.len() > 0 {
        let s1 = s.drop_last();
        let x = s.last();
        assert(s =~= s1.push(x));
        assert(sorted_low(s1, d));
        lemma_filter_sorted_low(s1, d, p);
        if p(x) {
            assert(s.filter(p) == s1.filter(p).push(x));
            let f = s.filter(p);
            assert forall|i: int, j: int|
                0 <= i <= j < f.len() implies low_bits(#[trigger] f[i], d) <= low_bits(
                #[trigger] f[j],
                d,
            ) by {
                if j < f.len() - 1 {
                    assert(f[i] == s1.filter(p)[i] && f[j] == s1.filter(p)[j]);
                } else if i < j {
                    assert(f[i] == s1.filter(p)[i]);
                    lemma_filter_is_elem(s1, p, i);
                    let w = choose|w: int| 0 <= w < s1.len() && s1[w] == s1.filter(p)[i];
                    assert(s[w] == f[i]);
                    assert(low_bits(s[w], d) <= low_bits(s[s.len() - 1], d));
                }
            }
        } else {
            assert(s.filter(p) == s1.filter(p));
        }
    }
}

/// Splitting a sequence into kept and dropped elements keeps its multiset.
proof fn lemma_partition_multiset(s: Seq<usize>, p: spec_fn(usize) -> bool, q: spec_fn(usize) -> bool)
    requires
        forall|e: usize| #[trigger] p(e) <==> !q(e),
    ensures
        (s.filter(q) + s.filter(p)).to_multiset() == s.to_multiset(),
    decreases s.len(),
{
    broadcast use vstd::seq_lib::group_filter_ensures;
    broadcast use vstd::seq::Seq::lemma_filter_push;
    broadcast use group_to_multiset_ensures;
    broadcast use vstd::multiset::group_multiset_axioms;
    broadcast use vstd::multiset::group_multiset_properties;

    if s.len() == 0 {
        assert(s.filter(q) =~= Seq::<usize>::empty());
        assert(s.filter(p) =~= Seq::<usize>::empty());
        assert((s.filter(q) + s.filter(p)) =~= s);
    } else {
        let s1 = s.drop_last();
        let x = s.last();
        assert(s =~= s1.push(x));
        lemma_partition_multiset(s1, p, q);
        lemma_multiset_commutative(s1.filter(q), s1.filter(p));
        assert(p(x) || q(x));
        if q(x) {
            assert(s.filter(q) == s1.filter(q).push(x));
            assert(s.filter(p) == s1.filter(p));
            lemma_multiset_commutative(s.filter(q), s.filter(p));
            assert((s.filter(q) + s.filter(p)).to_multiset() =~= s.to_multiset());
        } else {
            assert(s.filter(p) == s1.filter(p).push(x));
            assert(s.filter(q) == s1.filter(q));
            lemma_multiset_commutative(s.filter(q), s.filter(p));
            assert((s.filter(q) + s.filter(p)) =~= (s.filter(q) + s1.filter(p)).push(x));
            lemma_multiset_commutative(s.filter(q), s1.filter(p));
            assert((s.filter(q) + s.filter(p)).to_multiset() =~= s.to_multiset());
        }
    }
}

/// One radix pass: stable partition by bit `d`, elements with the bit unset
/// first, order kept inside each group.
fn radix_pass(arr: &mut Vec<usize>, d: usize, p2: usize, buf: &mut Vec<usize>)
    requires
        p2 == pow2(d as nat),
    ensures
        final(arr)@.len() == old(arr)@.len(),
        final(arr)@ == old(arr)@.filter(|e: usize| !nth_bit(e, d as nat)) + old(arr)@.filter(
            |e: usize| nth_bit(e, d as nat),
        ),
{
    proof {
        broadcast use vstd::seq_lib::group_filter_ensures;
        broadcast use vstd::seq::Seq::lemma_filter_push;

        lemma_pow2_pos(d as nat);
    }
    let ghost s0 = arr@;
    let n = arr.len();
    let ghost zero = |e: usize| !nth_bit(e, d as nat);
    let ghost one = |e: usize| nth_bit(e, d as nat);
    buf.clear();
    let mut j: usize = 0;
    let mut i: usize = 0;
    while i < arr.len()
        invariant
            p2 == pow2(d as nat),
            p2 >= 1,
            j <= i <= n == arr@.len(),
            s0.len() == n,
            zero == (|e: usize| !nth_bit(e, d as nat)),
            one == (|e: usize| nth_bit(e, d as nat)),
            arr@.subrange(0, j as int) =~= s0.subrange(0, i as int).filter(zero),
            buf@ =~= s0.subrange(0, i as int).filter(one),
            j + buf@.len() == i,
            forall|q: int| i <= q < n ==> arr@[q] == #[trigger] s0[q],
        decreases n - i,
    {
        proof {
            broadcast use vstd::seq_lib::group_filter_ensures;
            broadcast use vstd::seq::Seq::lemma_filter_push;

            assert(s0.subrange(0, i + 1) =~= s0.subrange(0, i as int).push(s0[i as int]));
        }
        let e = arr[i];
        if (e / p2) % 2 == 1 {
            proof {
                assert(one(e) && !zero(e));
            }
            buf.push(e);
        } else {
            proof {
                assert(zero(e) && !one(e));
            }
            arr[j] = e;
            j += 1;
        }
        i += 1;
        proof {
            assert(arr@.subrange(0, j as int) =~= s0.subrange(0, i as int).filter(zero));
        }
    }
    // append the buffered group behind the compacted one
    let ghost zeros = s0.filter(zero);
    let ghost ones = s0.filter(one);
    proof {
        broadcast use vstd::seq_lib::group_filter_ensures;

        assert(s0.subrange(0, n as int) =~= s0);
        assert(arr@.subrange(0, j as int) =~= zeros);
        assert(buf@ =~= ones);
    }
    let mut t: usize = 0;
    let blen = buf.len();
    while t < blen
        invariant
            t <= blen == buf@.len(),
            j + blen == n == arr@.len(),
            s0.len() == n,
            buf@ =~= ones,
            arr@.subrange(0, j as int) =~= zeros,
            arr@.subrange(j as int, j + t) =~= ones.subrange(0, t as int),
        decreases blen - t,
    {
        let e = buf[t];
        arr[j + t] = e;
        t += 1;
        proof {
            assert(arr@.subrange(0, j as int) =~= zeros);
            assert(arr@.subrange(j as int, j + t) =~= ones.subrange(0, t as int));
        }
    }
    proof {
        assert(ones.subrange(0, blen as int) =~= ones);
        assert(arr@ =~= arr@.subrange(0, j as int) + arr@.subrange(j as int, n as int));
        assert(arr@ =~= zeros + ones);
    }
}

/// The index of the highest set bit, or zero for zero.
fn bit_high(n: usize) -> (r: usize)
    ensures
        n == 0 ==> r == 0,
        n > 0 ==> pow2(r as nat) <= n < pow2((r + 1) as nat),
        r <= 63,
{
    proof {
        assert(pow2(0) == 1 && pow2(1) == 2) by {
            vstd::arithmetic::power2::lemma2_to64();
        }
    }
    if n == 0 {
        return 0;
    }
    let mut r: usize = 0;
    let mut m = n;
    while m >= 2
        invariant
            1 <= m,
            n >= 1,
            r <= 63,
            pow2(r as nat) <= n,
            m == n as nat / pow2(r as nat),
        decreases m,
    {
        proof {
            lemma_pow2_pos(r as nat);
            lemma_pow2_adds(r as nat, 1);
            assert(pow2(1) == 2 && pow2(64) > usize::MAX) by {
                vstd::arithmetic::power2::lemma2_to64();
                vstd::arithmetic::power2::lemma2_to64_rest();
            }
            lemma_div_denominator(n as int, pow2(r as nat) as int, 2);
            assert(n as int / (pow2(r as nat) * 2) as int == m as int / 2);
            // two or more still to shift: the next power still fits
            lemma_fundamental_div_mod(n as int, pow2(r as nat) as int);
            lemma_mod_bound(n as int, pow2(r as nat) as int);
            assert(pow2(r as nat) * m == pow2(r as nat) * (n as int / pow2(r as nat) as int));
            assert(pow2(r as nat) * m >= pow2(r as nat) * 2) by (nonlinear_arith)
                requires
                    m >= 2,
                    pow2(r as nat) >= 1,
            ;
            assert(pow2((r + 1) as nat) <= n);
            if r + 1 == 64 {
                assert(false);
            }
        }
        m = m / 2;
        r += 1;
    }
    proof {
        lemma_pow2_pos(r as nat);
        lemma_pow2_adds(r as nat, 1);
        assert(pow2(1) == 2) by {
            vstd::arithmetic::power2::lemma2_to64();
        }
        lemma_fundamental_div_mod(n as int, pow2(r as nat) as int);
        lemma_mod_bound(n as int, pow2(r as nat) as int);
    }
    r
}

/// Binary LSD radix sort, reusing a caller-supplied staging buffer.
///
/// After the call the vector is non-decreasing and holds exactly the
/// elements it held before; the buffer's final contents are unspecified.
pub fn radix_sort_with_buf(arr: &mut Vec<usize>, buf: &mut Vec<usize>)
    ensures
        final(arr)@.len() == old(arr)@.len(),
        sorted::<usize>(final(arr)@),
        final(arr)@.to_multiset() == old(arr)@.to_multiset(),
{
    proof {
        usize::lt_laws();
        assert(pow2(0) == 1) by {
            vstd::arithmetic::power2::lemma2_to64();
        }
    }
    if arr.len() < 2 {
        return ;
    }
    buf.clear();
    // the highest bit position needed by any element
    let mut radix: usize = 0;
    let mut c: usize = 0;
    while c < arr.len()
        invariant
            c <= arr@.len(),
            radix <= 63,
            forall|k: int| 0 <= k < c ==> (#[trigger] arr@[k]) < pow2((radix + 1) as nat),
            radix == 0 || exists|k: int|
                0 <= k < c && pow2(radix as nat) <= #[trigger] arr@[k],
        decreases arr@.len() - c,
    {
        let b = bit_high(arr[c]);
        proof {
            lemma_pow2_pos(b as nat);
            lemma_pow2_pos(radix as nat);
            if b > radix {
                lemma_pow2_strictly_increases((radix + 1) as nat, (b + 1) as nat);
                assert forall|k: int| 0 <= k < c + 1 implies (#[trigger] arr@[k]) < pow2((b + 1) as nat) by {
                    if k < c {
                        lemma_pow2_strictly_increases((radix + 1) as nat, (b + 1) as nat);
                    } else {
                        if arr@[k] == 0 {
                            lemma_pow2_pos((b + 1) as nat);
                        }
                    }
                }
            } else {
                if b < radix {
                    lemma_pow2_strictly_increases((b + 1) as nat, (radix + 1) as nat);
                }
                assert forall|k: int| 0 <= k < c + 1 implies (#[trigger] arr@[k]) < pow2(
                    (radix + 1) as nat,
                ) by {
                    if k == c && arr@[k] == 0 {
                        lemma_pow2_pos((radix + 1) as nat);
                    }
                }
            }
        }
        if b > radix {
            radix = b;
        }
        c += 1;
    }
    let ghost bound = (radix + 1) as nat;
    // one stable pass per bit, least significant first
    let mut d: usize = 0;
    let mut p2: usize = 1;
    while d <= radix
        invariant
            radix <= 63,
            d <= radix + 1,
            d <= radix ==> p2 == pow2(d as nat),
            radix == 0 || exists|k: int|
                0 <= k < arr@.len() && pow2(radix as nat) <= #[trigger] arr@[k],
            forall|k: int| 0 <= k < arr@.len() ==> (#[trigger] arr@[k]) < pow2(bound),
            bound == radix + 1,
            arr@.len() == old(arr)@.len(),
            arr@.to_multiset() == old(arr)@.to_multiset(),
            sorted_low(arr@, d as nat),
        decreases radix + 1 - d,
    {
        let ghost s1 = arr@;
        radix_pass(arr, d, p2, buf);
        proof {
            let s2 = arr@;
            let zero = |e: usize| !nth_bit(e, d as nat);
            let one = |e: usize| nth_bit(e, d as nat);
            lemma_partition_multiset(s1, one, zero);
            lemma_filter_sorted_low(s1, d as nat, zero);
            lemma_filter_sorted_low(s1, d as nat, one);
            let zeros = s1.filter(zero);
            let ones = s1.filter(one);
            broadcast use vstd::seq_lib::group_filter_ensures;

            // the two groups are sorted one more bit deep and separated
            assert forall|i: int, j: int|
                0 <= i <= j < s2.len() implies low_bits(#[trigger] s2[i], (d + 1) as nat) <= low_bits(
                #[trigger] s2[j],
                (d + 1) as nat,
            ) by {
                lemma_low_bits_split(s2[i], d as nat);
                lemma_low_bits_split(s2[j], d as nat);
                if j < zeros.len() {
                    assert(s2[i] == zeros[i] && s2[j] == zeros[j]);
                    assert(zero(zeros[i]) && zero(zeros[j]));
                    assert(low_bits(zeros[i], d as nat) <= low_bits(zeros[j], d as nat));
                } else if i >= zeros.len() {
                    assert(s2[i] == ones[i - zeros.len()] && s2[j] == ones[j - zeros.len()]);
                    assert(one(s2[i]) && one(s2[j]));
                    assert(low_bits(s2[i], d as nat) <= low_bits(s2[j], d as nat));
                } else {
                    assert(s2[i] == zeros[i] && s2[j] == ones[j - zeros.len()]);
                    assert(zero(s2[i]) && one(s2[j]));
                }
            }
            // the pass permutes the elements, so the value bounds survive
            assert(s2.to_multiset() == s1.to_multiset());
            assert forall|k: int| 0 <= k < s2.len() implies (#[trigger] s2[k]) < pow2(bound) by {
                broadcast use group_to_multiset_ensures;
                broadcast use vstd::seq_lib::lemma_seq_contains;

                assert(s2.contains(s2[k]));
                assert(s2.to_multiset().count(s2[k]) > 0);
                assert(s1.to_multiset().count(s2[k]) > 0);
                assert(s1.contains(s2[k]));
                let w = choose|w: int| 0 <= w < s1.len() && s1[w] == s2[k];
                assert(s1[w] < pow2(bound));
            }
            if radix > 0 {
                let w = choose|k: int|
                    0 <= k < s1.len() && pow2(radix as nat) <= #[trigger] s1[k];
                assert(s1.to_multiset().count(s1[w]) > 0) by {
                    broadcast use group_to_multiset_ensures;
                    broadcast use vstd::seq_lib::lemma_seq_contains;

                    assert(s1.contains(s1[w]));
                }
                assert(s2.to_multiset().count(s1[w]) > 0);
                assert(s2.contains(s1[w])) by {
                    broadcast use group_to_multiset_ensures;
                    broadcast use vstd::seq_lib::lemma_seq_contains;

                }
                assert(exists|k: int|
                    0 <= k < s2.len() && pow2(radix as nat) <= #[trigger] s2[k]) by {
                    broadcast use vstd::seq_lib::lemma_seq_contains;

                    let w2 = choose|w2: int| 0 <= w2 < s2.len() && s2[w2] == s1[w];
                    assert(pow2(radix as nat) <= s2[w2]);
                }
            }
        }
        if d < radix {
            proof {
                lemma_pow2_adds(d as nat, 1);
                assert(pow2(1) == 2) by {
                    vstd::arithmetic::power2::lemma2_to64();
                }
                // a value with the highest bit set witnesses that the next
                // power still fits the machine word
                assert(pow2((d + 1) as nat) <= pow2(radix as nat)) by {
                    if d + 1 < radix {
                        lemma_pow2_strictly_increases((d + 1) as nat, radix as nat);
                    }
                }
                let w = choose|k: int|
                    0 <= k < arr@.len() && pow2(radix as nat) <= #[trigger] arr@[k];
                assert(pow2((d + 1) as nat) <= usize::MAX);
            }
            p2 = p2 * 2;
        }
        d += 1;
    }
    proof {
        usize::lt_laws();
        // the low bits considered cover every element entirely
        assert forall|i: int, j: int|
            0 <= i <= j < arr@.len() implies !(#[trigger] usize::lt_spec(arr@[j], arr@[i])) by {
            lemma_small_mod(arr@[i] as nat, pow2(bound));
            lemma_small_mod(arr@[j] as nat, pow2(bound));
            assert(low_bits(arr@[i], bound) <= low_bits(arr@[j], bound));
        }
    }
}

/// Binary LSD radix sort.
///
/// Allocates its staging buffer and sorts in place: the vector ends up
/// non-decreasing and holds exactly the elements it held before.
pub fn radix_sort(arr: &mut Vec<usize>)
    ensures
        final(arr)@.len() == old(arr)@.len(),
        sorted::<usize>(final(arr)@),
        final(arr)@.to_multiset() == old(arr)@.to_multiset(),
{
    let capacity = arr.len() / 2;
    let mut buf: Vec<usize> = Vec::with_capacity(capacity);
    radix_sort_with_buf(arr, &mut buf);
}

} // verus!
