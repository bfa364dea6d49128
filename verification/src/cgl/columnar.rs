//! Columnar term storage for a brute-force Hamming scan (the same storage
//! and scan as the earlier engine's).
pub use crate::legacy::columnar::ColumnarTerms;
