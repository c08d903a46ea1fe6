//! Pruning strategies for branch and bound.

use vstd::prelude::*;

verus! {

/// Prune if bound is worse than best known solution.
pub struct BoundPruning;

/// No pruning (explore everything).
pub struct NoPruning;

} // verus!
