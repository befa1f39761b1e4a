//! Low-level sequence utilities shared by several algorithms: the in-place
//! swap every comparison sort is built from, and the min/max scan.

use vstd::prelude::*;
use vstd::seq_lib::group_to_multiset_ensures;
use crate::facts::lemma_perm_rng_full;
use crate::facts::same_outside;

verus! {

/// Exchange the elements at two positions, keeping the multiset of elements.
pub fn swap<T: Copy>(arr: &mut Vec<T>, a: usize, b: usize)
    requires
        a < old(arr)@.len(),
        b < old(arr)@.len(),
    ensures
        final(arr)@ == old(arr)@.update(a as int, old(arr)@[b as int]).update(
            b as int,
            old(arr)@[a as int],
        ),
        final(arr)@.to_multiset() == old(arr)@.to_multiset(),
{
    let ta = arr[a];
    let tb = arr[b];
    arr[a] = tb;
    arr[b] = ta;
    proof {
        broadcast use group_to_multiset_ensures;
        broadcast use vstd::multiset::group_multiset_axioms;

        let s0 = old(arr)@;
        let s2 = s0.update(a as int, s0[b as int]).update(b as int, s0[a as int]);
        assert forall|x: T| s2.to_multiset().count(x) == #[trigger] s0.to_multiset().count(x) by {
        }
        assert(s2.to_multiset() =~= s0.to_multiset());
    }
}

/// Scan for the least and greatest element of a vector of keys.
///
/// Returns `None` exactly on the empty vector; otherwise the pair
/// `(least, greatest)`, both of which occur in the vector and bound every
/// element of it.
pub fn minmax(arr: &Vec<usize>) -> (r: Option<(usize, usize)>)
    ensures
        r is None <==> arr@.len() == 0,
        r is Some ==> {
            let (mn, mx) = r->Some_0;
            &&& arr@.contains(mn)
            &&& arr@.contains(mx)
            &&& forall|k: int| 0 <= k < arr@.len() ==> mn <= #[trigger] arr@[k] <= mx
        },
{
    if arr.len() == 0 {
        return None;
    }
    let mut mn = arr[0];
    let mut mx = arr[0];
    let mut i: usize = 1;
    while i < arr.len()
        invariant
            1 <= i <= arr@.len(),
            arr@.contains(mn),
            arr@.contains(mx),
            forall|k: int| 0 <= k < i ==> mn <= #[trigger] arr@[k] <= mx,
        decreases arr@.len() - i,
    {
        let e = arr[i];
        if e < mn {
            mn = e;
        }
        if e > mx {
            mx = e;
        }
        i += 1;
    }
    Some((mn, mx))
}

} // verus!
