//! The sub-quadratic comparison family: gap sequences and
//! divide-and-conquer or heap invariants.

pub mod comb;
pub mod heap;
pub mod merge;
pub mod quick;
pub mod shell;

pub use comb::comb_sort;
pub use heap::heap_sort;
pub use heap::max_leaf;
pub use merge::merge;
pub use merge::merge_sort;
pub use merge::merge_sort_with_buf;
pub use quick::quick_sort;
pub use shell::insert_sort_by_step;
pub use shell::sedgewick_expr;
pub use shell::sedgewick_sort;
pub use shell::shell_sort;
