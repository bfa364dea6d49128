//! Building blocks of the earlier engine: character fingerprints, edit
//! variants, a columnar Hamming scan, query operators, accent stripping and function inversion.
pub mod fingerprint;
pub mod variants;
pub mod columnar;
pub mod normalize;
pub mod query;
pub mod error;
pub mod scorer;
pub mod tree;
pub mod inverter;
pub mod index;
