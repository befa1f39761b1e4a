//! In-memory sorting algorithms over a caller-owned vector, each one verified:
//! the sequence ends up non-decreasing under the element order, and (for the
//! comparison-based algorithms) holds exactly the elements it started with.

pub mod basic;
pub mod facts;
pub mod normal;
pub mod order;
pub mod other;
pub mod utils;

pub use order::SortOrd;
