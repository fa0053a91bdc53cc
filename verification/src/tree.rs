//! The tree: sole owner of all branches, keyed by identity, with the
//! lookup and reciprocal-connection operations the movement algorithm
//! needs. Built once; read-only thereafter.

use vstd::prelude::*;
use crate::branch_id::BranchId;
use crate::connection::Connection;
use crate::error::TreeError;
use crate::tree_branch::TreeBranch;

verus! {

/// Some branch in the sequence carries this identity.
pub open spec fn has_branch(s: Seq<TreeBranch>, id: BranchId) -> bool {
    exists|i: int| 0 <= i < s.len() && (#[trigger] s[i]).spec_id() == id
}

/// The index of the branch carrying this identity (meaningful when the
/// identity exists and identities are unique).
pub open spec fn branch_index(s: Seq<TreeBranch>, id: BranchId) -> int {
    choose|i: int| 0 <= i < s.len() && (#[trigger] s[i]).spec_id() == id
}

/// The branch carrying this identity.
pub open spec fn spec_branch(s: Seq<TreeBranch>, id: BranchId) -> TreeBranch {
    s[branch_index(s, id)]
}

/// No two branches share an identity.
pub open spec fn ids_unique(s: Seq<TreeBranch>) -> bool {
    forall|i: int, j: int|
        0 <= i < j < s.len() ==> (#[trigger] s[i]).spec_id() != (#[trigger] s[j]).spec_id()
}

/// Every branch is well formed.
pub open spec fn branches_wf(s: Seq<TreeBranch>) -> bool {
    forall|i: int| 0 <= i < s.len() ==> (#[trigger] s[i]).wf()
}

/// Every connection's target identity exists in the tree.
pub open spec fn conns_closed(s: Seq<TreeBranch>) -> bool {
    forall|i: int, k: int|
        0 <= i < s.len() && 0 <= k < s[i].spec_connections().len() ==> has_branch(
            s,
            (#[trigger] s[i].spec_connections()[k]).spec_id(),
        )
}

/// The branch holds some connection whose target is `id`.
pub open spec fn has_conn_to(b: TreeBranch, id: BranchId) -> bool {
    exists|m: int|
        0 <= m < b.spec_connections().len() && (#[trigger] b.spec_connections()[m]).spec_id() == id
}

/// Every connection has a reciprocal connection on its target branch
/// pointing back to its owner.
pub open spec fn reciprocal_ok(s: Seq<TreeBranch>) -> bool {
    forall|i: int, k: int|
        0 <= i < s.len() && 0 <= k < s[i].spec_connections().len() ==> has_conn_to(
            spec_branch(s, (#[trigger] s[i].spec_connections()[k]).spec_id()),
            s[i].spec_id(),
        )
}

/// The first connection of the sequence, from index `i` on, that points
/// back to `id`; a missing one is a construction defect.
pub open spec fn find_back(conns: Seq<Connection>, i: int, id: BranchId) -> Result<
    Connection,
    TreeError,
>
    decreases conns.len() - i,
{
    if i < 0 || i >= conns.len() {
        Result::Err(TreeError::MissingReciprocal)
    } else if conns[i].spec_id() == id {
        Result::Ok(conns[i])
    } else {
        find_back(conns, i + 1, id)
    }
}

/// If some connection from index `i` on points back to `id`, the scan
/// finds one that does.
pub proof fn lemma_find_back_found(conns: Seq<Connection>, i: int, id: BranchId)
    requires
        0 <= i,
        exists|m: int| i <= m < conns.len() && (#[trigger] conns[m]).spec_id() == id,
    ensures
        find_back(conns, i, id) matches Ok(c) && c.spec_id() == id,
    decreases conns.len() - i,
{
    let m = choose|m: int| i <= m < conns.len() && (#[trigger] conns[m]).spec_id() == id;
    if conns[i].spec_id() == id {
        assert(find_back(conns, i, id) == Result::<Connection, TreeError>::Ok(conns[i]));
    } else {
        assert(i + 1 <= m < conns.len() && conns[m].spec_id() == id);
        lemma_find_back_found(conns, i + 1, id);
        assert(find_back(conns, i, id) == find_back(conns, i + 1, id));
    }
}

/// Reciprocity: in a tree whose connections are all reciprocal — as the
/// builder guarantees — the reciprocal lookup for any connection
/// `(A -> B)` succeeds and returns a connection pointing back to `A`.
/// `TreeData::get_matching_connection` returns exactly this connection.
pub proof fn lemma_reciprocity(s: Seq<TreeBranch>, i: int, k: int)
    requires
        reciprocal_ok(s),
        0 <= i < s.len(),
        0 <= k < s[i].spec_connections().len(),
    ensures
        find_back(
            spec_branch(s, s[i].spec_connections()[k].spec_id()).spec_connections(),
            0,
            s[i].spec_id(),
        ) matches Ok(c) && c.spec_id() == s[i].spec_id(),
{
    let t = s[i].spec_connections()[k].spec_id();
    assert(has_conn_to(spec_branch(s, t), s[i].spec_id()));
    let bb = spec_branch(s, t);
    let m = choose|m: int|
        0 <= m < bb.spec_connections().len() && (#[trigger] bb.spec_connections()[m]).spec_id()
            == s[i].spec_id();
    lemma_find_back_found(bb.spec_connections(), 0, s[i].spec_id());
}

/// The scan's only failure is the missing-reciprocal defect.
pub proof fn lemma_find_back_err(conns: Seq<Connection>, i: int, id: BranchId)
    ensures
        find_back(conns, i, id) matches Err(e) ==> e == TreeError::MissingReciprocal,
    decreases conns.len() - i,
{
    if 0 <= i < conns.len() {
        if conns[i].spec_id() != id {
            lemma_find_back_err(conns, i + 1, id);
        }
    }
}

/// A found reciprocal connection is one of the scanned connections.
pub proof fn lemma_find_back_mem(conns: Seq<Connection>, i: int, id: BranchId, c: Connection)
    requires
        find_back(conns, i, id) == Result::<Connection, TreeError>::Ok(c),
    ensures
        exists|m: int| 0 <= m < conns.len() && conns[m] == c,
        c.spec_id() == id,
    decreases conns.len() - i,
{
    if 0 <= i < conns.len() {
        if conns[i].spec_id() == id {
            assert(conns[i] == c);
        } else {
            lemma_find_back_mem(conns, i + 1, id, c);
        }
    }
}

/// The tree: all branches, with the deepest layer recorded.
pub struct TreeData {
    branches: Vec<TreeBranch>,
    max_depth: usize,
}

impl TreeData {
    /// The branches, in construction order.
    pub closed spec fn spec_branches(self) -> Seq<TreeBranch> {
        self.branches@
    }

    /// The deepest layer of the tree.
    pub closed spec fn spec_max_depth(self) -> usize {
        self.max_depth
    }

    /// Identities are unique, every branch is well formed, and every
    /// connection's target exists.
    pub open spec fn wf(self) -> bool {
        &&& ids_unique(self.spec_branches())
        &&& branches_wf(self.spec_branches())
        &&& conns_closed(self.spec_branches())
    }

    /// Assemble a tree from finished branches.
    pub fn new(branches: Vec<TreeBranch>, max_depth: usize) -> (r: TreeData)
        ensures
            r.spec_branches() == branches@,
            r.spec_max_depth() == max_depth,
    {
        TreeData { branches, max_depth }
    }

    /// All branches.
    pub fn get_branches(&self) -> (r: &Vec<TreeBranch>)
        ensures
            r@ == self.spec_branches(),
    {
        &self.branches
    }

    /// The branch carrying `id`; failing to find it is caller misuse.
    pub fn get_branch(&self, id: BranchId) -> (r: Result<&TreeBranch, TreeError>)
        requires
            self.wf(),
        ensures
            r matches Ok(b) ==> has_branch(self.spec_branches(), id) && *b == spec_branch(
                self.spec_branches(),
                id,
            ) && b.spec_id() == id && b.wf(),
            r is Err ==> r == Result::<&TreeBranch, TreeError>::Err(TreeError::BranchNotFound)
                && !has_branch(self.spec_branches(), id),
    {
        let ghost s = self.spec_branches();
        let n = self.branches.len();
        let mut i: usize = 0;
        while i < n
            invariant
                i <= n,
                n == s.len(),
                s == self.spec_branches(),
                self.wf(),
                forall|j: int| 0 <= j < i ==> (#[trigger] s[j]).spec_id() != id,
            decreases n - i,
        {
            if self.branches[i].get_id() == id {
                proof {
                    assert(has_branch(s, id));
                    let k = branch_index(s, id);
                    if k != i {
                        assert(s[k].spec_id() == id && s[i as int].spec_id() == id);
                        assert(false);
                    }
                }
                return Result::Ok(&self.branches[i]);
            }
            i = i + 1;
        }
        proof {
            if has_branch(s, id) {
                let k = choose|k: int| 0 <= k < s.len() && (#[trigger] s[k]).spec_id() == id;
                assert(s[k].spec_id() != id);
            }
        }
        Result::Err(TreeError::BranchNotFound)
    }

    /// The root branch, always the branch with identity `(0, 0)`.
    pub fn get_root(&self) -> (r: Result<&TreeBranch, TreeError>)
        requires
            self.wf(),
        ensures
            r matches Ok(b) ==> *b == spec_branch(self.spec_branches(), BranchId { id: 0, layer: 0 })
                && b.spec_id() == (BranchId { id: 0, layer: 0 }),
            r is Err ==> !has_branch(self.spec_branches(), BranchId { id: 0, layer: 0 }),
    {
        self.get_branch(BranchId::new(0, 0))
    }

    /// The reciprocal of `connection`: the first connection on the target
    /// branch that points back to `branch`. A missing target branch is
    /// caller misuse; a missing reciprocal is a construction defect.
    pub fn get_matching_connection(&self, branch: BranchId, connection: &Connection) -> (r: Result<
        Connection,
        TreeError,
    >)
        requires
            self.wf(),
        ensures
            !has_branch(self.spec_branches(), connection.spec_id()) ==> r == Result::<
                Connection,
                TreeError,
            >::Err(TreeError::BranchNotFound),
            has_branch(self.spec_branches(), connection.spec_id()) ==> r == find_back(
                spec_branch(self.spec_branches(), connection.spec_id()).spec_connections(),
                0,
                branch,
            ),
    {
        let matching_branch = match self.get_branch(connection.get_branch_id()) {
            Ok(b) => b,
            Err(_) => {
                return Result::Err(TreeError::BranchNotFound);
            },
        };
        let ghost conns = matching_branch.spec_connections();
        let cs = matching_branch.get_connections();
        let n = cs.len();
        let mut i: usize = 0;
        while i < n
            invariant
                i <= n,
                n == conns.len(),
                cs@ == conns,
                has_branch(self.spec_branches(), connection.spec_id()),
                conns == spec_branch(
                    self.spec_branches(),
                    connection.spec_id(),
                ).spec_connections(),
                find_back(conns, 0, branch) == find_back(conns, i as int, branch),
            decreases n - i,
        {
            let c = cs[i];
            if c.get_branch_id() == branch {
                proof {
                    assert(conns[i as int].spec_id() == branch);
                    assert(find_back(conns, i as int, branch) == Result::<
                        Connection,
                        TreeError,
                    >::Ok(conns[i as int]));
                }
                return Result::Ok(c);
            }
            i = i + 1;
        }
        Result::Err(TreeError::MissingReciprocal)
    }
}

} // verus!
