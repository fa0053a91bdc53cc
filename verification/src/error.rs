//! Fatal error classification.
//!
//! Build-time defects (overlapping connection ranges, a missing reciprocal
//! connection) and caller misuse (looking up a branch identity that is not
//! in the tree) are distinguished from the one machine limit (a coordinate
//! that no longer fits the rational representation). None of these is a
//! recoverable runtime condition; they are reported as explicit values
//! rather than aborts.

use vstd::prelude::*;

verus! {

/// Why a tree operation failed.
#[derive(Clone, Copy, Debug, PartialEq, Eq, Structural)]
pub enum TreeError {
    /// Caller misuse: the given branch identity is not in the tree.
    BranchNotFound,
    /// Construction defect: the target branch holds no connection back.
    MissingReciprocal,
    /// Construction defect: two connections on one side cover the same
    /// lateral position.
    OverlappingConnections,
    /// Construction defect: a connection's scaled boundary range has zero
    /// span, so no coordinate can be fitted across it.
    DegenerateBoundary,
    /// Machine limit: an exact coordinate left the representable range.
    NumericOverflow,
}

} // verus!
