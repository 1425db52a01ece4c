//! Permutation patterns: occurrence search with precomputed structural
//! bounds, and statistics over all permutations of a given length.

pub mod perm;
pub mod pattern;
pub mod search;
pub mod stats;

pub use pattern::{PattDetails, Pattern};
pub use perm::Perm;
