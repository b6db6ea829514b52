//! Selectors shared by the loss functions.
use vstd::prelude::*;

verus! {

/// Distance function selector for triplet loss.
#[derive(Debug, Clone, Copy, PartialEq, Eq)]
#[non_exhaustive]
pub enum DistanceFn {
    /// Euclidean (L2) distance.
    Euclidean,
    /// Cosine distance: `1 - cosine_similarity`.
    Cosine,
}

} // verus!
