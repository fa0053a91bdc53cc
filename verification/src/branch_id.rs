//! Branch identity: an (index, layer) pair, assigned once at construction.

use vstd::prelude::*;

verus! {

/// Identity of a branch: its index within its layer and the layer itself.
/// Unique per branch; the map key of the tree and the unit of identity in
/// positions and connections.
#[derive(Clone, Copy, Debug, PartialEq, Eq, Structural, Hash)]
pub struct BranchId {
    pub id: usize,
    pub layer: usize,
}

impl BranchId {
    /// Build a branch identity from its index and layer.
    pub fn new(id: usize, layer: usize) -> (r: BranchId)
        ensures
            r.id == id,
            r.layer == layer,
    {
        BranchId { id, layer }
    }
}

} // verus!
