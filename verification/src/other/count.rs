//! Counting sort over integer keys: tally every key's occurrences, then
//! rewrite the vector bucket by bucket. A new-value sort: output values are
//! rebuilt from the keys, which for plain integer keys coincides with a
//! permutation of the input.

use vstd::prelude::*;
use vstd::multiset::Multiset;
use vstd::seq_lib::group_to_multiset_ensures;
use crate::order::SortOrd;
use crate::order::sorted;
use crate::order::sorted_rng;
use crate::utils::minmax;

verus! {

/// Counting sort with a caller-supplied tally buffer.
///
/// Every key must lie in `[base, base + buf.len())`; afterwards the vector
/// is non-decreasing and holds the same keys, and each buffer slot holds
/// the tally of its key.
pub fn count_sort_with_buf(arr: &mut Vec<usize>, base: usize, buf: &mut Vec<usize>)
    requires
        forall|k: int|
            0 <= k < old(arr)@.len() ==> base <= #[trigger] old(arr)@[k] && old(arr)@[k] - base
                < old(buf)@.len(),
        old(buf)@.len() == 0 || base + old(buf)@.len() - 1 <= usize::MAX,
    ensures
        final(arr)@.len() == old(arr)@.len(),
        sorted::<usize>(final(arr)@),
        final(arr)@.to_multiset() == old(arr)@.to_multiset(),
        final(buf)@.len() == old(buf)@.len(),
        forall|j: int|
            0 <= j < final(buf)@.len() ==> #[trigger] final(buf)@[j] == old(
                arr,
            )@.to_multiset().count((j + base) as usize),
{
    proof {
        broadcast use group_to_multiset_ensures;
        broadcast use vstd::multiset::group_multiset_axioms;

        usize::lt_laws();
    }
    let ghost s0 = arr@;
    let ghost n = arr@.len();
    let ghost blen = buf@.len();
    // zero the tallies
    let mut b: usize = 0;
    while b < buf.len()
        invariant
            b <= buf@.len() == blen,
            arr@ == s0,
            forall|q: int| 0 <= q < b ==> #[trigger] buf@[q] == 0,
        decreases buf@.len() - b,
    {
        buf[b] = 0;
        b += 1;
    }
    // tally each key
    let mut c: usize = 0;
    while c < arr.len()
        invariant
            c <= arr@.len() == n,
            arr@ == s0,
            buf@.len() == blen,
            blen == 0 || base + blen - 1 <= usize::MAX,
            forall|k: int|
                0 <= k < n ==> base <= #[trigger] s0[k] && s0[k] - base < blen,
            forall|x: int|
                0 <= x < blen ==> #[trigger] buf@[x] == s0.subrange(0, c as int).to_multiset().count(
                    (x + base) as usize,
                ),
        decreases arr@.len() - c,
    {
        let e = arr[c];
        let idx = e - base;
        let t = buf[idx];
        proof {
            broadcast use group_to_multiset_ensures;
            broadcast use vstd::multiset::group_multiset_axioms;
            broadcast use vstd::multiset::group_multiset_properties;

            let pre = s0.subrange(0, c as int);
            assert(e == s0[c as int]);
            assert(s0.subrange(0, c + 1) =~= pre.push(e));
            assert(pre.push(e).to_multiset() =~= pre.to_multiset().insert(e));
            assert(pre.to_multiset().len() == c);
            assert(pre.to_multiset().count(e) <= c);
            assert(idx + base == e as int);
            assert forall|x: int| 0 <= x < blen implies s0.subrange(0, c + 1).to_multiset().count(
                #[trigger] ((x + base) as usize),
            ) == if (x + base) as usize == e {
                pre.to_multiset().count(e) + 1
            } else {
                pre.to_multiset().count((x + base) as usize)
            } by {
                assert(pre.to_multiset().insert(e).count(e) == pre.to_multiset().count(e) + 1);
            }
        }
        buf[idx] = t + 1;
        c += 1;
    }
    // rebuild the vector bucket by bucket
    let nlen = arr.len();
    let ghost m0 = s0.to_multiset();
    proof {
        broadcast use group_to_multiset_ensures;
        broadcast use vstd::multiset::group_multiset_axioms;

        assert(s0.subrange(0, n as int) =~= s0);
        // every key is at least `base`, so nothing is lost by starting the
        // remainder at the lowest bucket
        assert(m0 =~= m0.filter(|v: usize| v >= base)) by {
            assert forall|v: usize| #[trigger]
                m0.count(v) == m0.filter(|v2: usize| v2 >= base).count(v) by {
                if m0.count(v) > 0 {
                    assert(s0.contains(v));
                }
            }
        }
    }
    proof {
        broadcast use group_to_multiset_ensures;

        assert(s0.to_multiset().len() == s0.len());
    }
    let mut w: usize = 0;
    let mut x: usize = 0;
    while x < buf.len()
        invariant
            x <= blen == buf@.len(),
            arr@.len() == n,
            n == nlen,
            m0 == s0.to_multiset(),
            m0.len() == n,
            w <= n,
            blen == 0 || base + blen - 1 <= usize::MAX,
            forall|y: int| 0 <= y < blen ==> #[trigger] buf@[y] == m0.count((y + base) as usize),
            sorted_rng::<usize>(arr@, 0, w as int),
            forall|q: int| 0 <= q < w ==> #[trigger] arr@[q] < x + base,
            arr@.subrange(0, w as int).to_multiset().add(
                m0.filter(|v: usize| v >= x + base),
            ) =~= m0,
        decreases blen - x,
    {
        let cnt = buf[x];
        let val = x + base;
        proof {
            broadcast use group_to_multiset_ensures;
            broadcast use vstd::multiset::group_multiset_axioms;
            broadcast use vstd::multiset::group_multiset_properties;

            // the bucket's tally equals the remainder's count at this key,
            // so splitting it off leaves the remainder unchanged
            assert(m0.filter(|v: usize| v >= val).update(val, cnt as nat) =~= m0.filter(
                |v: usize| v >= x + base,
            ));
            lemma_fill_fits(arr@.subrange(0, w as int).to_multiset(), m0, val, cnt as nat);
            assert(arr@.subrange(0, w as int).to_multiset().len() == w);
        }
        let mut t: usize = 0;
        while t < cnt
            invariant
                x < blen == buf@.len(),
                arr@.len() == n,
                n == nlen,
                t <= cnt,
                w <= n,
                val == x + base,
                cnt == m0.count(val),
                buf@[x as int] == cnt,
                w + (cnt - t) <= n,
                sorted_rng::<usize>(arr@, 0, w as int),
                forall|q: int| 0 <= q < w ==> #[trigger] arr@[q] <= val,
                arr@.subrange(0, w as int).to_multiset().add(
                    m0.filter(|v: usize| v >= val).update(val, (cnt - t) as nat),
                ) =~= m0,
            decreases cnt - t,
        {
            let ghost s1 = arr@;
            arr[w] = val;
            proof {
                broadcast use group_to_multiset_ensures;
                broadcast use vstd::multiset::group_multiset_axioms;
                broadcast use vstd::multiset::group_multiset_properties;

                let s2 = arr@;
                assert(s2.subrange(0, w + 1) =~= s1.subrange(0, w as int).push(val));
                assert(s2.subrange(0, w + 1).to_multiset().add(
                    m0.filter(|v: usize| v >= val).update(val, (cnt - (t + 1)) as nat),
                ) =~= m0);
            }
            w += 1;
            t += 1;
        }
        proof {
            broadcast use vstd::multiset::group_multiset_axioms;

            assert(m0.filter(|v: usize| v >= val).update(val, 0nat) =~= m0.filter(
                |v: usize| v >= x + 1 + base,
            ));
        }
        x += 1;
    }
    proof {
        broadcast use group_to_multiset_ensures;
        broadcast use vstd::multiset::group_multiset_axioms;

        // past the last bucket the remainder is empty, so the rebuilt
        // prefix is the whole vector
        let rest = m0.filter(|v: usize| v >= x + base);
        assert(rest =~= Multiset::<usize>::empty()) by {
            assert forall|v: usize| #[trigger] rest.count(v) == 0 by {
                if m0.count(v) > 0 {
                    assert(s0.contains(v));
                    assert(v - base < blen);
                }
            }
        }
        assert(arr@.subrange(0, w as int).to_multiset().len() == m0.len());
        assert(w == n);
        assert(arr@.subrange(0, w as int) =~= arr@);
        assert(arr@.to_multiset() =~= m0);
    }
}

/// The entry condition of the inner fill loop: the tally still to be
/// written fits before the end of the vector.
proof fn lemma_fill_fits(pre: Multiset<usize>, m0: Multiset<usize>, val: usize, cnt: nat)
    requires
        pre.add(m0.filter(|v: usize| v >= val).update(val, cnt)) =~= m0,
    ensures
        pre.len() + cnt <= m0.len(),
{
    broadcast use vstd::multiset::group_multiset_axioms;
    broadcast use vstd::multiset::group_multiset_properties;

    let rest = m0.filter(|v: usize| v >= val).update(val, cnt);
    assert(rest.count(val) == cnt);
    assert(pre.len() + rest.len() == m0.len());
}

/// Counting sort: scans for the least and greatest key, allocates the tally
/// buffer, and sorts. The key range must fit the machine word.
pub fn count_sort(arr: &mut Vec<usize>)
    requires
        forall|i: int, j: int|
            0 <= i < old(arr)@.len() && 0 <= j < old(arr)@.len() ==> #[trigger] old(arr)@[i]
                - #[trigger] old(arr)@[j] < usize::MAX,
    ensures
        final(arr)@.len() == old(arr)@.len(),
        sorted::<usize>(final(arr)@),
        final(arr)@.to_multiset() == old(arr)@.to_multiset(),
{
    proof {
        usize::lt_laws();
    }
    if arr.len() < 2 {
        return ;
    }
    let r = minmax(arr);
    match r {
        Some((mn, mx)) => {
            proof {
                let i = choose|i: int| 0 <= i < arr@.len() && arr@[i] == mx;
                let j = choose|j: int| 0 <= j < arr@.len() && arr@[j] == mn;
                assert(arr@[i] - arr@[j] < usize::MAX);
            }
            let size = mx - mn + 1;
            let mut buf: Vec<usize> = vec![0; size];
            count_sort_with_buf(arr, mn, &mut buf);
        },
        None => {},
    }
}

} // verus!
