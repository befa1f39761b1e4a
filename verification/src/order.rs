//! The ordering surface of the library.
//!
//! Every algorithm compares elements through a single strict "comes before"
//! predicate; the other three comparison directions are derived from it by
//! negation and argument swap, never by comparing values directly.

use vstd::prelude::*;

verus! {

/// An element type with a strict ordering predicate `lt` ("a comes before b").
///
/// The predicate must be a strict weak ordering: asymmetric, and with a
/// transitive induced "not after" relation. Those two laws are what every
/// sortedness proof in the library rests on.
pub trait SortOrd: Sized + Copy {
    /// What `lt` computes, at the specification level.
    spec fn lt_spec(a: Self, b: Self) -> bool;

    /// The laws of a strict weak ordering:
    /// `lt` is asymmetric, and "not after" (`!lt(b, a)`) is transitive.
    proof fn lt_laws()
        ensures
            forall|a: Self, b: Self| #![trigger Self::lt_spec(a, b)]
                !Self::lt_spec(a, b) || !Self::lt_spec(b, a),
            forall|a: Self, b: Self, c: Self|
                #![trigger Self::lt_spec(b, a), Self::lt_spec(c, b)]
                !Self::lt_spec(b, a) && !Self::lt_spec(c, b) ==> !Self::lt_spec(c, a),
    ;

    /// The executable predicate.
    fn lt(a: &Self, b: &Self) -> (r: bool)
        ensures
            r == Self::lt_spec(*a, *b),
    ;
}

/// `a > b`, derived from `lt` by argument swap.
pub fn gt<T: SortOrd>(a: &T, b: &T) -> (r: bool)
    ensures
        r == T::lt_spec(*b, *a),
{
    T::lt(b, a)
}

/// `a <= b`, derived from `lt` by negation and argument swap.
pub fn le<T: SortOrd>(a: &T, b: &T) -> (r: bool)
    ensures
        r == !T::lt_spec(*b, *a),
{
    !T::lt(b, a)
}

/// `a >= b`, derived from `lt` by negation.
pub fn ge<T: SortOrd>(a: &T, b: &T) -> (r: bool)
    ensures
        r == !T::lt_spec(*a, *b),
{
    !T::lt(a, b)
}

/// The sequence is non-decreasing on the index range `[lo, hi)`:
/// no element of the range comes before an earlier one.
pub open spec fn sorted_rng<T: SortOrd>(s: Seq<T>, lo: int, hi: int) -> bool {
    forall|i: int, j: int| lo <= i <= j < hi ==> !(#[trigger] T::lt_spec(s[j], s[i]))
}

/// The whole sequence is non-decreasing.
pub open spec fn sorted<T: SortOrd>(s: Seq<T>) -> bool {
    sorted_rng(s, 0, s.len() as int)
}

/// A keyed record: ordered by `key` alone, so records with equal keys are
/// distinguishable by `tag` while being order-equivalent. This is the
/// shape that makes stability observable.
#[derive(Clone, Copy, Debug, PartialEq, Eq)]
pub struct KeyVal {
    pub key: u64,
    pub tag: u64,
}

impl SortOrd for KeyVal {
    open spec fn lt_spec(a: KeyVal, b: KeyVal) -> bool {
        a.key < b.key
    }

    proof fn lt_laws() {
    }

    fn lt(a: &KeyVal, b: &KeyVal) -> (r: bool) {
        a.key < b.key
    }
}

impl SortOrd for i32 {
    open spec fn lt_spec(a: i32, b: i32) -> bool {
        a < b
    }

    proof fn lt_laws() {
    }

    fn lt(a: &i32, b: &i32) -> (r: bool) {
        *a < *b
    }
}

impl SortOrd for u32 {
    open spec fn lt_spec(a: u32, b: u32) -> bool {
        a < b
    }

    proof fn lt_laws() {
    }

    fn lt(a: &u32, b: &u32) -> (r: bool) {
        *a < *b
    }
}

impl SortOrd for u64 {
    open spec fn lt_spec(a: u64, b: u64) -> bool {
        a < b
    }

    proof fn lt_laws() {
    }

    fn lt(a: &u64, b: &u64) -> (r: bool) {
        *a < *b
    }
}

impl SortOrd for usize {
    open spec fn lt_spec(a: usize, b: usize) -> bool {
        a < b
    }

    proof fn lt_laws() {
    }

    fn lt(a: &usize, b: &usize) -> (r: bool) {
        *a < *b
    }
}

} // verus!
