//! Directed edges between branches, each tagged with the side of the owning
//! branch it leaves through and the sub-range of that side it spans.

use vstd::prelude::*;
use crate::branch_id::BranchId;
use crate::interval::Interval;
use crate::rat::Rat;
use crate::rat::q_wf;

verus! {

/// One end of a branch (left at `x = 0`, right at `x = length`) together
/// with the sub-range of the side's declared lateral parametrization that
/// takes part in a connection.
#[derive(Clone, Copy, Debug)]
pub enum Boundary {
    Left(Rat, Rat),
    Right(Rat, Rat),
}

impl Boundary {
    /// The declared lower end of the range.
    pub open spec fn spec_start(self) -> Rat {
        match self {
            Boundary::Left(s, _) => s,
            Boundary::Right(s, _) => s,
        }
    }

    /// The declared upper end of the range.
    pub open spec fn spec_end(self) -> Rat {
        match self {
            Boundary::Left(_, e) => e,
            Boundary::Right(_, e) => e,
        }
    }

    /// Whether this boundary sits on the left end of its branch.
    pub open spec fn spec_is_left(self) -> bool {
        self is Left
    }

    /// Both range ends carry positive denominators.
    pub open spec fn wf(self) -> bool {
        q_wf(self.spec_start()@) && q_wf(self.spec_end()@)
    }

    /// The declared range as an interval.
    pub fn get_interval(&self) -> (r: Interval)
        ensures
            r.start == self.spec_start(),
            r.end == self.spec_end(),
    {
        match *self {
            Boundary::Left(start, end) => Interval::new(start, end),
            Boundary::Right(start, end) => Interval::new(start, end),
        }
    }
}

/// A directed link: leaving the owning branch through `boundary` lands on
/// the branch named `id`. The target branch holds the reciprocal link back.
#[derive(Clone, Copy, Debug)]
pub struct Connection {
    id: BranchId,
    boundary: Boundary,
}

impl Connection {
    /// The target branch.
    pub closed spec fn spec_id(self) -> BranchId {
        self.id
    }

    /// The boundary on the owning branch.
    pub closed spec fn spec_boundary(self) -> Boundary {
        self.boundary
    }

    /// The boundary's range ends are well formed.
    pub open spec fn wf(self) -> bool {
        self.spec_boundary().wf()
    }

    /// The connection to `id` through `boundary`, as a spec-level value.
    pub closed spec fn new_spec(id: BranchId, boundary: Boundary) -> Connection {
        Connection { id, boundary }
    }

    /// What `new_spec` holds.
    pub proof fn lemma_new_spec(id: BranchId, boundary: Boundary)
        ensures
            Connection::new_spec(id, boundary).spec_id() == id,
            Connection::new_spec(id, boundary).spec_boundary() == boundary,
    {
    }

    /// Build a connection to `id` through `boundary`.
    pub fn new(id: BranchId, boundary: Boundary) -> (r: Connection)
        ensures
            r.spec_id() == id,
            r.spec_boundary() == boundary,
            r == Connection::new_spec(id, boundary),
    {
        Connection { id, boundary }
    }

    /// The declared range of the boundary as an interval.
    pub fn get_interval(&self) -> (r: Interval)
        ensures
            r.start == self.spec_boundary().spec_start(),
            r.end == self.spec_boundary().spec_end(),
    {
        self.boundary.get_interval()
    }

    /// The target branch.
    pub fn get_branch_id(&self) -> (r: BranchId)
        ensures
            r == self.spec_id(),
    {
        self.id
    }

    /// The boundary on the owning branch.
    pub fn get_boundary(&self) -> (r: Boundary)
        ensures
            r == self.spec_boundary(),
    {
        self.boundary
    }
}

} // verus!
