//! Typo-tolerant search: a compact trie searched best first with
//! keyboard-aware edit costs, plus the building blocks of the earlier
//! engines (fingerprints, variants, columnar scans, query operators).
pub mod cost;
pub mod legacy;
pub mod text;
pub mod chars;
pub mod cgl;
pub mod order;
pub mod trie;
pub mod shape;
pub mod search;
pub mod highlight;
pub mod index;
pub mod normal_form;
