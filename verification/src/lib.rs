//! Classic algorithms with machine-checked contracts: sequence comparison,
//! sorting, binary search and a little number theory.

pub mod compare;
pub mod math;
pub mod order;
pub mod search;
pub mod sort;
