//! The quadratic family: simple invariant-preserving passes, `O(n^2)` worst
//! case, with very low constants on short inputs.

pub mod binary_insert;
pub mod bubble;
pub mod cocktail;
pub mod double_select;
pub mod select;
pub mod insert;

pub use binary_insert::binary_insert_sort;
pub use bubble::bubble_sort;
pub use cocktail::cocktail_sort;
pub use double_select::select_doubled_sort;
pub use select::select_sort;
pub use binary_insert::binary_search;
pub use insert::insert_point;
pub use insert::insert_sort;
