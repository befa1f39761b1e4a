//! The more special sorts: key-indexed sorts whose cost escapes the
//! comparison lower bound, and the bitonic sorting network.

pub mod bitonic;
pub mod count;
pub mod radix;

pub use bitonic::bin_exp_check;
pub use bitonic::bitonic_merge;
pub use bitonic::bitonic_sort;
pub use count::count_sort;
pub use radix::radix_sort;
pub use radix::radix_sort_with_buf;
pub use count::count_sort_with_buf;
