//! Approximate nearest-neighbour index built on random-hyperplane
//! locality-sensitive hashing (sign random projection).
//!
//! The verified core works on sign bits: the sign of a vector's inner product
//! with each hyperplane normal. From those bits it assembles bin identifiers
//! (by concatenation or by descending a perfect binary tree of hyperplanes),
//! gates configurations whose bin space exceeds the machine word, and groups a
//! labelled corpus into one contiguous buffer with a per-bin range table.
pub mod error;
pub mod index;
pub mod lsh;
