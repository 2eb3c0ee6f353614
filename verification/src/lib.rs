//! In-place sorting of row-aligned, nullable, typed columns by a list of key
//! columns.
//!
//! [`sorter::sort`] is the entry point: it keeps every row and leaves the
//! rows in order. The sort is not stable, so its contract also gives the
//! table that it leaves as a function of the table before,
//! [`quicksort::sorted`], which fixes where rows that tie end up. [`laws`]
//! states what holds of that function.

pub mod laws;
pub mod order;
pub mod ordered;
pub mod packers;
pub mod quicksort;
pub mod rearrange;
pub mod sorter;
pub mod table;

pub use packers::{Packer, Packers};
