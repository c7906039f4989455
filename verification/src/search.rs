//! Looking a value up in a sorted array.

pub mod binary;
