//! Where a movable entity is: a branch identity plus a local coordinate in
//! that branch's logical frame. Each entity owns its own value.

use vstd::prelude::*;
use crate::branch_id::BranchId;
use crate::point::Point2;

verus! {

/// An entity's location: branch identity and a point in that branch's
/// logical frame.
#[derive(Clone, Copy, Debug)]
pub struct Position {
    branch_id: BranchId,
    branch_position: Point2,
}

impl Position {
    /// The branch the entity is on.
    pub closed spec fn spec_branch_id(self) -> BranchId {
        self.branch_id
    }

    /// The local coordinate inside that branch's frame.
    pub closed spec fn spec_branch_position(self) -> Point2 {
        self.branch_position
    }

    /// The coordinate carries positive denominators.
    pub open spec fn wf(self) -> bool {
        self.spec_branch_position().wf()
    }

    /// Build a position from a branch identity and a local coordinate.
    pub fn new(branch_id: BranchId, branch_position: Point2) -> (r: Position)
        ensures
            r.spec_branch_id() == branch_id,
            r.spec_branch_position() == branch_position,
    {
        Position { branch_id, branch_position }
    }

    /// The branch the entity is on.
    pub fn get_branch_id(&self) -> (r: BranchId)
        ensures
            r == self.spec_branch_id(),
    {
        self.branch_id
    }

    /// Move the position onto another branch, keeping the coordinate.
    pub fn set_branch_id(&mut self, new_id: BranchId)
        ensures
            final(self).spec_branch_id() == new_id,
            final(self).spec_branch_position() == old(self).spec_branch_position(),
    {
        self.branch_id = new_id;
    }

    /// The local coordinate.
    pub fn get_branch_position(&self) -> (r: Point2)
        ensures
            r == self.spec_branch_position(),
    {
        self.branch_position
    }

    /// Replace the local coordinate, keeping the branch.
    pub fn set_branch_position(&mut self, new_position: Point2)
        ensures
            final(self).spec_branch_position() == new_position,
            final(self).spec_branch_id() == old(self).spec_branch_id(),
    {
        self.branch_position = new_position;
    }
}

} // verus!
