//! Building blocks of the CGL-tree engine: altered strings, letter
//! fingerprints, a typo-aware byte encoding, edit variants and a columnar
//! Hamming scan.
pub mod altered;
pub mod columnar;
pub mod edits;
pub mod encoding;
pub mod error;
pub mod fingerprint;
pub mod index;
pub mod tree;
pub mod variants;
pub use crate::legacy::scorer::KeyboardLayout;
