//! Comparing two texts: the longest common subsequence and the longest common
//! substring, each computed once into a table that later queries read.

pub mod laws;
pub mod sequence;
pub mod subsequence;
pub mod substring;
pub mod text;

pub use subsequence::LCSubsequence;
pub use substring::LCSubstring;
