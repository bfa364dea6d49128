//! Deletion and transposition variants of a word (the same generators as
//! the earlier engine's).
pub use crate::legacy::variants::{deletion_variants, transposition_variants};
