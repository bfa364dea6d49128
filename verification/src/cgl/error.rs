//! Errors of the CGL-tree engine.
use vstd::prelude::*;

verus! {

/// Why an index operation was refused.
#[derive(Debug, Clone, Copy, PartialEq, Eq)]
pub enum Error {
    /// The search radius exceeds the index's maximum `k`.
    RadiusExceedsMax { r: usize, k: usize },
    /// An index cannot be built from an empty term list.
    EmptyInput,
}

} // verus!
