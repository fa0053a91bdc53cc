//! Deterministic tree construction: a trunk plus two children per level,
//! recursed to a fixed depth, with exponentially shrinking visual geometry
//! and connections wired in both directions as each branch is created.
//!
//! Branches live in the tree's storage from the moment they are made;
//! wiring mutates two stored branches through their indices, so the
//! stored set is closed and reciprocal at every step.

use vstd::prelude::*;
use vstd::arithmetic::power2::{lemma_pow2_pos, lemma_pow2_unfold, pow2};
use crate::branch_id::BranchId;
use crate::connection::{Boundary, Connection};
use crate::error::TreeError;
use crate::point::Point2;
use crate::rat::Rat;
use crate::tree::{
    branch_index, branches_wf, conns_closed, has_branch, has_conn_to, ids_unique, reciprocal_ok,
    spec_branch, TreeData,
};
use crate::tree_branch::{BranchType, TreeBranch};
use crate::rat::{
    q_add, q_div, q_fits, q_mul, q_neg, q_two, lemma_q_ops_wf, lemma_red_add, lemma_red_div,
    lemma_red_mul, lemma_red_neg, lemma_reduction_fits, lemma_reduction_refl,
    lemma_reduction_trans,
};
use crate::visual::{q_trunk_length, q_trunk_width, q_visual_ok, trunk_dimensions};

verus! {

/// Every issued identity lies below its layer's counter, and within the
/// layer range.
pub open spec fn ids_bounded(s: Seq<TreeBranch>, idx: Seq<usize>, num_layers: usize) -> bool {
    forall|i: int|
        0 <= i < s.len() ==> (#[trigger] s[i]).spec_id().layer < num_layers && s[i].spec_id().id
            < idx[s[i].spec_id().layer as int]
}

/// The per-layer counters never run far ahead of the branch count, which
/// keeps them away from the integer limit.
pub open spec fn idx_headroom(s: Seq<TreeBranch>, idx: Seq<usize>) -> bool {
    forall|l: int| 0 <= l < idx.len() ==> (#[trigger] idx[l]) <= s.len()
}

/// Every value one level's build step computes fits the representation,
/// so building the level is guaranteed to succeed; at the deepest layer
/// this is the whole call.
pub open spec fn q_level_ok(
    vf: (int, int),
    hf: (int, int),
    d: nat,
    px: (int, int),
    py: (int, int),
) -> bool {
    let tw = q_trunk_width(vf, d);
    let tl = q_trunk_length(hf, d);
    &&& q_visual_ok(vf, hf, d, BranchType::Trunk)
    &&& q_visual_ok(vf, hf, d, BranchType::BranchTop)
    &&& q_visual_ok(vf, hf, d, BranchType::BranchBottom)
    &&& q_fits(q_mul(tl, q_two()))
    &&& q_fits(q_div(tw, q_two()))
    &&& q_fits(q_neg(q_div(tw, q_two())))
    &&& q_fits(q_add(px, q_mul(tl, q_two())))
    &&& q_fits(q_add(py, q_div(tw, q_two())))
    &&& q_fits(q_add(py, q_neg(q_div(tw, q_two()))))
}

/// The new sequence extends the old one: every old branch keeps its
/// identity, frames and existing connections, gaining at most new
/// connections at the end.
pub open spec fn preserves_prefix(s: Seq<TreeBranch>, s2: Seq<TreeBranch>) -> bool {
    &&& s2.len() >= s.len()
    &&& forall|i: int|
        0 <= i < s.len() ==> (#[trigger] s2[i]).spec_id() == s[i].spec_id() && s2[i].spec_logical()
            == s[i].spec_logical() && s2[i].spec_visual() == s[i].spec_visual()
            && s2[i].spec_connections().len() >= s[i].spec_connections().len()
    &&& forall|i: int, k: int|
        0 <= i < s.len() && 0 <= k < s[i].spec_connections().len() ==> (
        #[trigger] s2[i].spec_connections()[k]) == s[i].spec_connections()[k]
}

/// The pieces one built level hands to the recursion: where the three
/// new branches sit, where each child's frame was placed, and each
/// child's control curve, whose far end seeds the child's own subtree.
struct LevelPieces {
    trunk_pos: usize,
    top_pos: usize,
    bottom_pos: usize,
    top_seed: Point2,
    bottom_seed: Point2,
    top_control: crate::visual::BezierQuad,
    bottom_control: crate::visual::BezierQuad,
}

/// What one built level leaves behind: the trunk at the old end of the
/// storage, the top child right after it and the bottom child after
/// that, each child holding exactly its back-link, the trunk wired to
/// the parent (when given) over the full left edge and to the children
/// over the two halves of the right edge, and exactly one new connection
/// on the parent.
pub open spec fn spec_built_level(
    s0: Seq<TreeBranch>,
    s2: Seq<TreeBranch>,
    k0: usize,
    depth: usize,
    parent: Option<usize>,
) -> bool {
    let n0 = s0.len() as int;
    let base: int = if parent is Some {
        1int
    } else {
        0int
    };
    let t = s2[n0];
    let top = s2[n0 + 1];
    let bot = s2[n0 + 2];
    &&& s2.len() == s0.len() + 3
    &&& t.spec_id() == (BranchId { id: k0, layer: depth })
    &&& t.spec_logical().left_width@ == (1int, 1int) && t.spec_logical().right_width@ == (
    1int,
    1int,
    ) && t.spec_logical().length@ == (1int, 2int)
    &&& t.spec_connections().len() == base + 2
    &&& (parent matches Some(pi) ==> 0 <= pi < s0.len() && t.spec_connections()[0].spec_id()
        == s0[pi as int].spec_id() && t.spec_connections()[0].spec_boundary().spec_is_left()
        && t.spec_connections()[0].spec_boundary().spec_start()@ == (-1int, 1int)
        && t.spec_connections()[0].spec_boundary().spec_end()@ == (1int, 1int))
    &&& t.spec_connections()[base].spec_id() == (BranchId {
        id: (k0 + 1) as usize,
        layer: depth,
    })
    &&& !t.spec_connections()[base].spec_boundary().spec_is_left()
    &&& t.spec_connections()[base].spec_boundary().spec_start()@ == (0int, 1int)
    &&& t.spec_connections()[base].spec_boundary().spec_end()@ == (1int, 1int)
    &&& t.spec_connections()[base + 1].spec_id() == (BranchId {
        id: (k0 + 2) as usize,
        layer: depth,
    })
    &&& !t.spec_connections()[base + 1].spec_boundary().spec_is_left()
    &&& t.spec_connections()[base + 1].spec_boundary().spec_start()@ == (-1int, 1int)
    &&& t.spec_connections()[base + 1].spec_boundary().spec_end()@ == (0int, 1int)
    &&& top.spec_id() == (BranchId { id: (k0 + 1) as usize, layer: depth })
    &&& top.spec_logical().left_width@ == (1int, 2int) && top.spec_logical().right_width@ == (
    1int,
    1int,
    ) && top.spec_logical().length@ == (1int, 1int)
    &&& top.spec_connections().len() == 1
    &&& top.spec_connections()[0].spec_id() == (BranchId { id: k0, layer: depth })
    &&& top.spec_connections()[0].spec_boundary().spec_is_left()
    &&& top.spec_connections()[0].spec_boundary().spec_start()@ == (-1int, 1int)
    &&& top.spec_connections()[0].spec_boundary().spec_end()@ == (1int, 1int)
    &&& bot.spec_id() == (BranchId { id: (k0 + 2) as usize, layer: depth })
    &&& bot.spec_logical().left_width@ == (1int, 2int) && bot.spec_logical().right_width@ == (
    1int,
    1int,
    ) && bot.spec_logical().length@ == (1int, 1int)
    &&& bot.spec_connections().len() == 1
    &&& bot.spec_connections()[0].spec_id() == (BranchId { id: k0, layer: depth })
    &&& bot.spec_connections()[0].spec_boundary().spec_is_left()
    &&& bot.spec_connections()[0].spec_boundary().spec_start()@ == (-1int, 1int)
    &&& bot.spec_connections()[0].spec_boundary().spec_end()@ == (1int, 1int)
    &&& (parent matches Some(pi) ==> s2[pi as int].spec_connections().len() == s0[
    pi as int].spec_connections().len() + 1 && (forall|k: int|
        0 <= k < s0[pi as int].spec_connections().len() ==> (#[trigger] s2[
        pi as int].spec_connections()[k]) == s0[pi as int].spec_connections()[k])
        && s2[pi as int].spec_connections().last().spec_id() == (BranchId {
        id: k0,
        layer: depth,
    }) && !s2[pi as int].spec_connections().last().spec_boundary().spec_is_left() && s2[
    pi as int].spec_connections().last().spec_boundary().spec_start()@ == (-1int, 1int) && s2[
    pi as int].spec_connections().last().spec_boundary().spec_end()@ == (1int, 1int))
}

/// What one build step leaves behind on success: the trunk at the old
/// end of the storage with its exact wiring — left edge to the parent
/// over the full range when a parent was given, right edge split into
/// the upper half toward the top child and the lower half toward the
/// bottom child — the two children with their back-links through their
/// full left edges, and exactly one new connection on the parent.
pub open spec fn spec_built_step(
    s0: Seq<TreeBranch>,
    s2: Seq<TreeBranch>,
    k0: usize,
    depth: usize,
    nl: usize,
    parent: Option<usize>,
) -> bool {
    let n0 = s0.len() as int;
    let base: int = if parent is Some {
        1int
    } else {
        0int
    };
    let t = s2[n0];
    let top = s2[n0 + 1];
    let bot = s2[n0 + 2];
    &&& s2.len() == s0.len() + 3 * (pow2((nl - depth) as nat) - 1)
    &&& t.spec_id() == (BranchId { id: k0, layer: depth })
    &&& t.spec_logical().left_width@ == (1int, 1int) && t.spec_logical().right_width@ == (
    1int,
    1int,
    ) && t.spec_logical().length@ == (1int, 2int)
    &&& t.spec_connections().len() == base + 2
    &&& (parent matches Some(pi) ==> 0 <= pi < s0.len() && t.spec_connections()[0].spec_id()
        == s0[pi as int].spec_id() && t.spec_connections()[0].spec_boundary().spec_is_left()
        && t.spec_connections()[0].spec_boundary().spec_start()@ == (-1int, 1int)
        && t.spec_connections()[0].spec_boundary().spec_end()@ == (1int, 1int))
    &&& t.spec_connections()[base].spec_id() == (BranchId {
        id: (k0 + 1) as usize,
        layer: depth,
    })
    &&& !t.spec_connections()[base].spec_boundary().spec_is_left()
    &&& t.spec_connections()[base].spec_boundary().spec_start()@ == (0int, 1int)
    &&& t.spec_connections()[base].spec_boundary().spec_end()@ == (1int, 1int)
    &&& t.spec_connections()[base + 1].spec_id() == (BranchId {
        id: (k0 + 2) as usize,
        layer: depth,
    })
    &&& !t.spec_connections()[base + 1].spec_boundary().spec_is_left()
    &&& t.spec_connections()[base + 1].spec_boundary().spec_start()@ == (-1int, 1int)
    &&& t.spec_connections()[base + 1].spec_boundary().spec_end()@ == (0int, 1int)
    &&& top.spec_id() == (BranchId { id: (k0 + 1) as usize, layer: depth })
    &&& top.spec_logical().left_width@ == (1int, 2int) && top.spec_logical().right_width@ == (
    1int,
    1int,
    ) && top.spec_logical().length@ == (1int, 1int)
    &&& top.spec_connections().len() >= 1
    &&& top.spec_connections()[0].spec_id() == (BranchId { id: k0, layer: depth })
    &&& top.spec_connections()[0].spec_boundary().spec_is_left()
    &&& top.spec_connections()[0].spec_boundary().spec_start()@ == (-1int, 1int)
    &&& top.spec_connections()[0].spec_boundary().spec_end()@ == (1int, 1int)
    &&& bot.spec_id() == (BranchId { id: (k0 + 2) as usize, layer: depth })
    &&& bot.spec_logical().left_width@ == (1int, 2int) && bot.spec_logical().right_width@ == (
    1int,
    1int,
    ) && bot.spec_logical().length@ == (1int, 1int)
    &&& bot.spec_connections().len() >= 1
    &&& bot.spec_connections()[0].spec_id() == (BranchId { id: k0, layer: depth })
    &&& bot.spec_connections()[0].spec_boundary().spec_is_left()
    &&& bot.spec_connections()[0].spec_boundary().spec_start()@ == (-1int, 1int)
    &&& bot.spec_connections()[0].spec_boundary().spec_end()@ == (1int, 1int)
    &&& (depth == nl - 1 ==> top.spec_connections().len() == 1 && bot.spec_connections().len()
        == 1)
    &&& (depth != nl - 1 ==> top.spec_connections().len() == 2 && bot.spec_connections().len()
        == 2)
    &&& (parent matches Some(pi) ==> s2[pi as int].spec_connections().len() == s0[
    pi as int].spec_connections().len() + 1 && (forall|k: int|
        0 <= k < s0[pi as int].spec_connections().len() ==> (#[trigger] s2[
        pi as int].spec_connections()[k]) == s0[pi as int].spec_connections()[k])
        && s2[pi as int].spec_connections().last().spec_id() == (BranchId {
        id: k0,
        layer: depth,
    }) && !s2[pi as int].spec_connections().last().spec_boundary().spec_is_left() && s2[
    pi as int].spec_connections().last().spec_boundary().spec_start()@ == (-1int, 1int) && s2[
    pi as int].spec_connections().last().spec_boundary().spec_end()@ == (1int, 1int))
}

/// Appending a branch with a fresh identity and no connections keeps
/// every structural invariant of the stored set.
proof fn lemma_push_branch(s: Seq<TreeBranch>, b: TreeBranch)
    requires
        branches_wf(s),
        ids_unique(s),
        conns_closed(s),
        reciprocal_ok(s),
        b.wf(),
        b.spec_connections().len() == 0,
        forall|i: int| 0 <= i < s.len() ==> (#[trigger] s[i]).spec_id() != b.spec_id(),
    ensures
        branches_wf(s.push(b)),
        ids_unique(s.push(b)),
        conns_closed(s.push(b)),
        reciprocal_ok(s.push(b)),
{
    let s2 = s.push(b);
    assert forall|i: int| 0 <= i < s2.len() implies (#[trigger] s2[i]).wf() by {
        if i < s.len() {
            assert(s2[i] == s[i]);
        }
    }
    assert forall|i: int, k: int|
        0 <= i < s2.len() && 0 <= k < s2[i].spec_connections().len() implies has_branch(
        s2,
        (#[trigger] s2[i].spec_connections()[k]).spec_id(),
    ) by {
        assert(i < s.len());
        assert(s2[i] == s[i]);
        let t = s[i].spec_connections()[k].spec_id();
        assert(has_branch(s, t));
        let w = choose|w: int| 0 <= w < s.len() && (#[trigger] s[w]).spec_id() == t;
        assert(s2[w].spec_id() == t);
    }
    assert forall|i: int, k: int|
        0 <= i < s2.len() && 0 <= k < s2[i].spec_connections().len() implies has_conn_to(
        spec_branch(s2, (#[trigger] s2[i].spec_connections()[k]).spec_id()),
        s2[i].spec_id(),
    ) by {
        assert(i < s.len());
        assert(s2[i] == s[i]);
        let t = s[i].spec_connections()[k].spec_id();
        assert(has_conn_to(spec_branch(s, t), s[i].spec_id()));
        assert(has_branch(s, t));
        let w1 = branch_index(s, t);
        assert(0 <= w1 < s.len() && s[w1].spec_id() == t);
        assert(s2[w1].spec_id() == t);
        let w2 = branch_index(s2, t);
        assert(0 <= w2 < s2.len() && s2[w2].spec_id() == t);
        if w2 != w1 {
            if w2 == s.len() {
                assert(s2[w2] == b);
                assert(s[w1].spec_id() == b.spec_id());
                assert(false);
            } else {
                assert(s2[w2] == s[w2] && s2[w1] == s[w1]);
                assert(false);
            }
        }
        assert(spec_branch(s2, t) == spec_branch(s, t));
    }
}

/// The builder: layer counters, the two fill ratios, and the branches
/// made so far.
pub struct TreeBuilder {
    pub num_layers: usize,
    current_indices: Vec<usize>,
    vertical_fill: Rat,
    horizontal_fill: Rat,
    branches: Vec<TreeBranch>,
}

impl TreeBuilder {
    /// The number of layers the builder was configured for.
    pub closed spec fn spec_num_layers(self) -> usize {
        self.num_layers
    }

    /// The branches made so far, in creation order.
    pub closed spec fn spec_branches(self) -> Seq<TreeBranch> {
        self.branches@
    }

    /// The per-layer identity counters.
    pub closed spec fn spec_indices(self) -> Seq<usize> {
        self.current_indices@
    }

    /// The vertical fill ratio.
    pub closed spec fn spec_vertical_fill(self) -> Rat {
        self.vertical_fill
    }

    /// The horizontal fill ratio.
    pub closed spec fn spec_horizontal_fill(self) -> Rat {
        self.horizontal_fill
    }

    /// The builder's invariant: one counter per layer, well-formed fill
    /// ratios, and a stored set that is well formed, uniquely identified,
    /// closed and reciprocal, with counters bounding every issued
    /// identity.
    pub open spec fn inv(self) -> bool {
        &&& self.spec_indices().len() == self.spec_num_layers()
        &&& self.spec_vertical_fill().wf()
        &&& self.spec_horizontal_fill().wf()
        &&& branches_wf(self.spec_branches())
        &&& ids_unique(self.spec_branches())
        &&& conns_closed(self.spec_branches())
        &&& reciprocal_ok(self.spec_branches())
        &&& ids_bounded(self.spec_branches(), self.spec_indices(), self.spec_num_layers())
        &&& idx_headroom(self.spec_branches(), self.spec_indices())
    }

    /// A fresh builder for the given number of layers, with the fixed
    /// design ratios: vertical fill one half, horizontal fill three
    /// tenths.
    pub fn new(num_layers: usize) -> (r: TreeBuilder)
        requires
            num_layers >= 1,
        ensures
            r.inv(),
            r.spec_num_layers() == num_layers,
            r.spec_branches().len() == 0,
            forall|l: int| 0 <= l < num_layers ==> (#[trigger] r.spec_indices()[l]) == 0,
            r.spec_vertical_fill()@ == (1int, 2int),
            r.spec_horizontal_fill()@ == (3int, 10int),
    {
        let mut idx: Vec<usize> = Vec::new();
        let mut l: usize = 0;
        while l < num_layers
            invariant
                l <= num_layers,
                idx@.len() == l,
                forall|m: int| 0 <= m < l ==> (#[trigger] idx@[m]) == 0,
            decreases num_layers - l,
        {
            idx.push(0);
            l = l + 1;
        }
        TreeBuilder {
            num_layers,
            current_indices: idx,
            vertical_fill: Rat::new(1, 2),
            horizontal_fill: Rat::new(3, 10),
            branches: Vec::new(),
        }
    }

    /// Issue the next identity of the given layer: purely sequential per
    /// layer, never reused.
    pub fn generate_new_index(&mut self, depth: usize) -> (r: BranchId)
        requires
            depth < old(self).spec_indices().len(),
            old(self).spec_indices()[depth as int] < usize::MAX,
        ensures
            r == (BranchId { id: old(self).spec_indices()[depth as int], layer: depth }),
            final(self).spec_indices() == old(self).spec_indices().update(
                depth as int,
                (old(self).spec_indices()[depth as int] + 1) as usize,
            ),
            final(self).spec_branches() == old(self).spec_branches(),
            final(self).spec_num_layers() == old(self).spec_num_layers(),
            final(self).spec_vertical_fill() == old(self).spec_vertical_fill(),
            final(self).spec_horizontal_fill() == old(self).spec_horizontal_fill(),
    {
        let old_index = self.current_indices[depth];
        self.current_indices.set(depth, old_index + 1);
        BranchId { id: old_index, layer: depth }
    }

    /// Wire the stored branches at positions `i` and `j` to each other:
    /// `i` leaves through `bi` onto `j`, and `j` leaves through `bj` back
    /// onto `i`. Both gain exactly one connection; everything else is
    /// untouched, and every invariant survives.
    fn wire(&mut self, i: usize, bi: Boundary, j: usize, bj: Boundary)
        requires
            old(self).inv(),
            i < old(self).spec_branches().len(),
            j < old(self).spec_branches().len(),
            i != j,
            bi.wf(),
            bj.wf(),
        ensures
            final(self).inv(),
            final(self).spec_num_layers() == old(self).spec_num_layers(),
            final(self).spec_indices() == old(self).spec_indices(),
            final(self).spec_vertical_fill() == old(self).spec_vertical_fill(),
            final(self).spec_horizontal_fill() == old(self).spec_horizontal_fill(),
            final(self).spec_branches().len() == old(self).spec_branches().len(),
            preserves_prefix(old(self).spec_branches(), final(self).spec_branches()),
            forall|k: int|
                0 <= k < old(self).spec_branches().len() && k != i && k != j
                    ==> (#[trigger] final(self).spec_branches()[k]) == old(
                    self,
                ).spec_branches()[k],
            final(self).spec_branches()[i as int].spec_connections() == old(
                self,
            ).spec_branches()[i as int].spec_connections().push(
                Connection::new_spec(old(self).spec_branches()[j as int].spec_id(), bi),
            ),
            final(self).spec_branches()[j as int].spec_connections() == old(
                self,
            ).spec_branches()[j as int].spec_connections().push(
                Connection::new_spec(old(self).spec_branches()[i as int].spec_id(), bj),
            ),
    {
        let ghost s0 = self.branches@;
        let id_i = self.branches[i].get_id();
        let id_j = self.branches[j].get_id();
        let ci = Connection::new(id_j, bi);
        let cj = Connection::new(id_i, bj);
        let ei = branch_mut(&mut self.branches, i);
        ei.push_connection(ci);
        let ej = branch_mut(&mut self.branches, j);
        ej.push_connection(cj);
        proof {
            let s2 = self.branches@;
            assert(s2 == s0.update(i as int, s2[i as int]).update(j as int, s2[j as int]));
            assert forall|k: int| 0 <= k < s2.len() implies (#[trigger] s2[k]).wf() by {
                if k != i && k != j {
                    assert(s2[k] == s0[k]);
                }
            }
            assert forall|a: int, b: int| 0 <= a < b < s2.len() implies (
            #[trigger] s2[a]).spec_id() != (#[trigger] s2[b]).spec_id() by {
                assert(s2[a].spec_id() == s0[a].spec_id());
                assert(s2[b].spec_id() == s0[b].spec_id());
            }
            assert forall|a: int, k: int|
                0 <= a < s2.len() && 0 <= k < s2[a].spec_connections().len() implies has_branch(
                s2,
                (#[trigger] s2[a].spec_connections()[k]).spec_id(),
            ) by {
                let t = s2[a].spec_connections()[k].spec_id();
                if (a == i && k == s0[a].spec_connections().len()) || (a == j && k
                    == s0[a].spec_connections().len()) {
                    if a == i {
                        assert(t == s0[j as int].spec_id());
                        assert(s2[j as int].spec_id() == t);
                    } else {
                        assert(t == s0[i as int].spec_id());
                        assert(s2[i as int].spec_id() == t);
                    }
                } else {
                    assert(s2[a].spec_connections()[k] == s0[a].spec_connections()[k]);
                    assert(has_branch(s0, t));
                    let w = choose|w: int| 0 <= w < s0.len() && (#[trigger] s0[w]).spec_id() == t;
                    assert(s2[w].spec_id() == t);
                }
            }
            assert forall|a: int, k: int|
                0 <= a < s2.len() && 0 <= k < s2[a].spec_connections().len() implies has_conn_to(
                spec_branch(s2, (#[trigger] s2[a].spec_connections()[k]).spec_id()),
                s2[a].spec_id(),
            ) by {
                let t = s2[a].spec_connections()[k].spec_id();
                lemma_branch_index_stable(s0, s2, t);
                if (a == i || a == j) && k == s0[a].spec_connections().len() {
                    let back = if a == i {
                        j as int
                    } else {
                        i as int
                    };
                    assert(t == s0[back].spec_id());
                    assert(has_branch(s2, t));
                    let w = branch_index(s2, t);
                    assert(s2[w].spec_id() == t);
                    if w != back {
                        assert(s2[w].spec_id() == s2[back].spec_id());
                        assert(false);
                    }
                    let bb = s2[back];
                    let m = s0[back].spec_connections().len() as int;
                    assert(bb.spec_connections()[m].spec_id() == s2[a].spec_id());
                    assert(has_conn_to(bb, s2[a].spec_id()));
                } else {
                    assert(s2[a].spec_connections()[k] == s0[a].spec_connections()[k]);
                    assert(has_conn_to(spec_branch(s0, t), s0[a].spec_id()));
                    assert(has_branch(s0, t));
                    let w = branch_index(s0, t);
                    let bb0 = spec_branch(s0, t);
                    let bb2 = spec_branch(s2, t);
                    assert(bb2.spec_connections().len() >= bb0.spec_connections().len());
                    let m = choose|m: int|
                        0 <= m < bb0.spec_connections().len() && (
                        #[trigger] bb0.spec_connections()[m]).spec_id() == s0[a].spec_id();
                    assert(bb2.spec_connections()[m] == bb0.spec_connections()[m]);
                    assert(has_conn_to(bb2, s2[a].spec_id()));
                }
            }
        }
    }

    /// Issue the next identity of `depth`'s layer and store the branch
    /// carrying it, which must arrive fresh: no connections yet.
    fn install_branch(&mut self, depth: usize, b: TreeBranch) -> (pos: usize)
        requires
            old(self).inv(),
            depth < old(self).spec_num_layers(),
            old(self).spec_branches().len() < usize::MAX,
            b.wf(),
            b.spec_connections().len() == 0,
            b.spec_id() == (BranchId {
                id: old(self).spec_indices()[depth as int],
                layer: depth,
            }),
        ensures
            final(self).inv(),
            final(self).spec_num_layers() == old(self).spec_num_layers(),
            final(self).spec_vertical_fill() == old(self).spec_vertical_fill(),
            final(self).spec_horizontal_fill() == old(self).spec_horizontal_fill(),
            final(self).spec_indices() == old(self).spec_indices().update(
                depth as int,
                (old(self).spec_indices()[depth as int] + 1) as usize,
            ),
            final(self).spec_branches() == old(self).spec_branches().push(b),
            pos == old(self).spec_branches().len(),
    {
        proof {
            assert forall|i: int|
                0 <= i < self.spec_branches().len() implies (
            #[trigger] self.spec_branches()[i]).spec_id() != b.spec_id() by {
                if self.spec_branches()[i].spec_id().layer == depth {
                    assert(self.spec_branches()[i].spec_id().id < self.spec_indices()[depth as int]);
                }
            }
        }
        let issued = self.generate_new_index(depth);
        let pos = self.branches.len();
        proof {
            lemma_push_branch(self.branches@, b);
        }
        self.branches.push(b);
        proof {
            let s2 = self.spec_branches();
            let idx2 = self.spec_indices();
            assert forall|i: int|
                0 <= i < s2.len() implies (#[trigger] s2[i]).spec_id().layer
                    < self.spec_num_layers() && s2[i].spec_id().id < idx2[s2[i].spec_id().layer
                    as int] by {
                if i < s2.len() - 1 {
                    assert(s2[i] == old(self).spec_branches()[i]);
                } else {
                    assert(s2[i] == b);
                }
            }
            assert forall|l: int| 0 <= l < idx2.len() implies (#[trigger] idx2[l]) <= s2.len() by {
                if l != depth {
                    assert(idx2[l] == old(self).spec_indices()[l]);
                }
            }
        }
        pos
    }

    /// Build the trunk of this level, its two children, and recursively
    /// their subtrees, wiring each new branch to its parent immediately:
    /// a child's left edge onto the trunk's right edge, restricted to the
    /// half the child occupies. `Err` only on a value that cannot be
    /// represented.
    /// Build one level in place: the trunk, wired to its parent when one
    /// is given, and the two children, each wired to the trunk. No
    /// recursion happens here; the pieces the recursion needs are handed
    /// back.
    #[verifier::rlimit(100)]
    #[verifier::spinoff_prover]
    fn build_level(&mut self, depth: usize, left_center_pos: Point2, parent_branch: Option<
        usize,
    >) -> (r: Result<LevelPieces, TreeError>)
        requires
            old(self).inv(),
            depth < old(self).spec_num_layers(),
            left_center_pos.wf(),
            (parent_branch matches Some(pi) ==> pi < old(self).spec_branches().len()),
            old(self).spec_branches().len() + 3 <= usize::MAX,
        ensures
            final(self).inv(),
            final(self).spec_num_layers() == old(self).spec_num_layers(),
            final(self).spec_vertical_fill() == old(self).spec_vertical_fill(),
            final(self).spec_horizontal_fill() == old(self).spec_horizontal_fill(),
            final(self).spec_indices().len() == old(self).spec_indices().len(),
            forall|l: int|
                0 <= l < old(self).spec_indices().len() && l != depth
                    ==> (#[trigger] final(self).spec_indices()[l]) == old(
                    self,
                ).spec_indices()[l],
            preserves_prefix(old(self).spec_branches(), final(self).spec_branches()),
            r is Ok ==> final(self).spec_branches().len() == old(self).spec_branches().len() + 3
                && final(self).spec_indices() == old(self).spec_indices().update(
                depth as int,
                (old(self).spec_indices()[depth as int] + 3) as usize,
            ),
            r matches Ok(pieces) ==> {
                &&& pieces.trunk_pos == old(self).spec_branches().len()
                &&& pieces.top_pos == old(self).spec_branches().len() + 1
                &&& pieces.bottom_pos == old(self).spec_branches().len() + 2
                &&& pieces.top_seed.wf() && pieces.bottom_seed.wf()
                &&& pieces.top_control.wf() && pieces.bottom_control.wf()
            },
            r is Ok ==> spec_built_level(
                old(self).spec_branches(),
                final(self).spec_branches(),
                old(self).spec_indices()[depth as int],
                depth,
                parent_branch,
            ),
            parent_branch is None ==> forall|i: int|
                0 <= i < old(self).spec_branches().len()
                    ==> (#[trigger] final(self).spec_branches()[i]).spec_connections() == old(
                    self,
                ).spec_branches()[i].spec_connections(),
            parent_branch matches Some(pi) ==> forall|i: int|
                0 <= i < old(self).spec_branches().len() && i != pi
                    ==> (#[trigger] final(self).spec_branches()[i]).spec_connections() == old(
                    self,
                ).spec_branches()[i].spec_connections(),
            r matches Err(e) ==> e == TreeError::NumericOverflow,
            q_level_ok(
                old(self).spec_vertical_fill()@,
                old(self).spec_horizontal_fill()@,
                depth as nat,
                left_center_pos.x@,
                left_center_pos.y@,
            ) ==> r is Ok,
    {
        let ghost s0 = self.spec_branches();
        let ghost n0 = s0.len();
        let ghost k0 = self.spec_indices()[depth as int];
        let ghost vfs = self.spec_vertical_fill()@;
        let ghost hfs = self.spec_horizontal_fill()@;
        let ghost pxs = left_center_pos.x@;
        let ghost pys = left_center_pos.y@;
        let ghost level_ok = q_level_ok(vfs, hfs, depth as nat, pxs, pys);
        let ghost twv = q_trunk_width(vfs, depth as nat);
        let ghost tlv = q_trunk_length(hfs, depth as nat);
        proof {
            lemma_prefix_refl(s0);
        }
        // The trunk.
        let trunk_id = BranchId::new(self.current_indices[depth], depth);
        let trunk_branch = match TreeBranch::new(
            trunk_id,
            left_center_pos,
            BranchType::Trunk,
            self.vertical_fill,
            self.horizontal_fill,
        ) {
            Some(b) => b,
            None => {
                return Result::Err(TreeError::NumericOverflow);
            },
        };
        let t_pos = self.install_branch(depth, trunk_branch);
        let ghost s1 = self.spec_branches();
        proof {
            lemma_prefix_push(s0, trunk_branch);
            lemma_prefix_refl(s1);
        }
        if let Some(pi) = parent_branch {
            let trunk_boundary = Boundary::Left(Rat::from_int(-1), Rat::from_int(1));
            let parent_boundary = Boundary::Right(Rat::from_int(-1), Rat::from_int(1));
            self.wire(t_pos, trunk_boundary, pi, parent_boundary);
            proof {
                lemma_prefix_trans(s0, s1, self.spec_branches());
                Connection::lemma_new_spec(s1[pi as int].spec_id(), trunk_boundary);
                Connection::lemma_new_spec(s1[t_pos as int].spec_id(), parent_boundary);
            }
        }
        let ghost s1b = self.spec_branches();
        // The trunk's visual dimensions drive where the children sit.
        let dims = match trunk_dimensions(self.vertical_fill, self.horizontal_fill, depth) {
            Some(d) => d,
            None => {
                proof {
                    lemma_prefix_trans(s0, s1, s1b);
                }
                return Result::Err(TreeError::NumericOverflow);
            },
        };
        let trunk_width = dims.0;
        let trunk_length = dims.1;
        let two = Rat::from_int(2);
        proof {
            lemma_reduction_refl((2int, 1int));
            lemma_red_mul(trunk_length@, tlv, (2int, 1int), (2int, 1int));
            lemma_red_div(trunk_width@, twv, (2int, 1int), (2int, 1int));
            lemma_q_ops_wf(trunk_length@, (2int, 1int));
            lemma_q_ops_wf(trunk_width@, (2int, 1int));
        }
        let tl2 = match trunk_length.mul(two) {
            Some(v) => v,
            None => {
                proof {
                    lemma_prefix_trans(s0, s1, s1b);
                    if level_ok {
                        lemma_reduction_fits(
                            q_mul(trunk_length@, (2int, 1int)),
                            q_mul(tlv, q_two()),
                        );
                    }
                }
                return Result::Err(TreeError::NumericOverflow);
            },
        };
        let twh = match trunk_width.div(two) {
            Some(v) => v,
            None => {
                proof {
                    lemma_prefix_trans(s0, s1, s1b);
                    if level_ok {
                        lemma_reduction_fits(
                            q_div(trunk_width@, (2int, 1int)),
                            q_div(twv, q_two()),
                        );
                    }
                }
                return Result::Err(TreeError::NumericOverflow);
            },
        };
        proof {
            lemma_reduction_trans(tl2@, q_mul(trunk_length@, (2int, 1int)), q_mul(tlv, q_two()));
            lemma_reduction_trans(twh@, q_div(trunk_width@, (2int, 1int)), q_div(twv, q_two()));
            lemma_reduction_refl(pxs);
            lemma_reduction_refl(pys);
            lemma_red_add(pxs, pxs, tl2@, q_mul(tlv, q_two()));
            lemma_red_add(pys, pys, twh@, q_div(twv, q_two()));
            lemma_q_ops_wf(pxs, tl2@);
            lemma_q_ops_wf(pys, twh@);
        }
        // The top child.
        let left_top_pos = match left_center_pos.add(Point2::new(tl2, twh)) {
            Some(p) => p,
            None => {
                proof {
                    lemma_prefix_trans(s0, s1, s1b);
                    if level_ok {
                        lemma_reduction_fits(q_add(pxs, tl2@), q_add(pxs, q_mul(tlv, q_two())));
                        lemma_reduction_fits(q_add(pys, twh@), q_add(pys, q_div(twv, q_two())));
                    }
                }
                return Result::Err(TreeError::NumericOverflow);
            },
        };
        let top_id = BranchId::new(self.current_indices[depth], depth);
        let branch_top = match TreeBranch::new(
            top_id,
            left_top_pos,
            BranchType::BranchTop,
            self.vertical_fill,
            self.horizontal_fill,
        ) {
            Some(b) => b,
            None => {
                proof {
                    lemma_prefix_trans(s0, s1, s1b);
                }
                return Result::Err(TreeError::NumericOverflow);
            },
        };
        let top_control = branch_top.get_visual().patch.control;
        let top_pos_i = self.install_branch(depth, branch_top);
        let ghost s2 = self.spec_branches();
        proof {
            lemma_prefix_push(s1b, branch_top);
            lemma_prefix_trans(s1, s1b, s2);
            lemma_prefix_trans(s0, s1, s2);
        }
        let branch_top_boundary = Boundary::Left(Rat::from_int(-1), Rat::from_int(1));
        let trunk_top_boundary = Boundary::Right(Rat::from_int(0), Rat::from_int(1));
        self.wire(top_pos_i, branch_top_boundary, t_pos, trunk_top_boundary);
        let ghost s2b = self.spec_branches();
        proof {
            lemma_prefix_trans(s1, s2, s2b);
            lemma_prefix_trans(s0, s1, s2b);
            Connection::lemma_new_spec(s2[t_pos as int].spec_id(), branch_top_boundary);
            Connection::lemma_new_spec(s2[top_pos_i as int].spec_id(), trunk_top_boundary);
        }
        // The bottom child.
        proof {
            lemma_red_neg(twh@, q_div(twv, q_two()));
        }
        let neg_twh = match twh.neg() {
            Some(v) => v,
            None => {
                proof {
                    lemma_prefix_trans(s0, s1, s2b);
                    if level_ok {
                        lemma_reduction_fits(q_neg(twh@), q_neg(q_div(twv, q_two())));
                    }
                }
                return Result::Err(TreeError::NumericOverflow);
            },
        };
        proof {
            lemma_reduction_trans(neg_twh@, q_neg(twh@), q_neg(q_div(twv, q_two())));
            lemma_red_add(pys, pys, neg_twh@, q_neg(q_div(twv, q_two())));
            lemma_q_ops_wf(pys, neg_twh@);
        }
        let left_bottom_pos = match left_center_pos.add(Point2::new(tl2, neg_twh)) {
            Some(p) => p,
            None => {
                proof {
                    lemma_prefix_trans(s0, s1, s2b);
                    if level_ok {
                        lemma_reduction_fits(q_add(pxs, tl2@), q_add(pxs, q_mul(tlv, q_two())));
                        lemma_reduction_fits(
                            q_add(pys, neg_twh@),
                            q_add(pys, q_neg(q_div(twv, q_two()))),
                        );
                    }
                }
                return Result::Err(TreeError::NumericOverflow);
            },
        };
        let bot_id = BranchId::new(self.current_indices[depth], depth);
        let branch_bottom = match TreeBranch::new(
            bot_id,
            left_bottom_pos,
            BranchType::BranchBottom,
            self.vertical_fill,
            self.horizontal_fill,
        ) {
            Some(b) => b,
            None => {
                proof {
                    lemma_prefix_trans(s0, s1, s2b);
                }
                return Result::Err(TreeError::NumericOverflow);
            },
        };
        let bot_control = branch_bottom.get_visual().patch.control;
        let bot_pos_i = self.install_branch(depth, branch_bottom);
        let ghost s3 = self.spec_branches();
        proof {
            lemma_prefix_push(s2b, branch_bottom);
            lemma_prefix_trans(s1, s2b, s3);
            lemma_prefix_trans(s0, s1, s3);
        }
        let branch_bottom_boundary = Boundary::Left(Rat::from_int(-1), Rat::from_int(1));
        let trunk_bottom_boundary = Boundary::Right(Rat::from_int(-1), Rat::from_int(0));
        self.wire(bot_pos_i, branch_bottom_boundary, t_pos, trunk_bottom_boundary);
        proof {
            lemma_prefix_trans(s1, s3, self.spec_branches());
            lemma_prefix_trans(s0, s1, self.spec_branches());
            Connection::lemma_new_spec(s3[t_pos as int].spec_id(), branch_bottom_boundary);
            Connection::lemma_new_spec(s3[bot_pos_i as int].spec_id(), trunk_bottom_boundary);
            assert(spec_built_level(s0, self.spec_branches(), k0, depth, parent_branch));
        }
        Result::Ok(
            LevelPieces {
                trunk_pos: t_pos,
                top_pos: top_pos_i,
                bottom_pos: bot_pos_i,
                top_seed: left_top_pos,
                bottom_seed: left_bottom_pos,
                top_control,
                bottom_control: bot_control,
            },
        )
    }

    /// Build the trunk of this level, its two children, and recursively
    /// their subtrees, wiring each new branch to its parent immediately:
    /// a child's left edge onto the trunk's right edge, restricted to the
    /// half the child occupies. `Err` only on a value that cannot be
    /// represented.
    #[verifier::rlimit(100)]
    #[verifier::spinoff_prover]
    pub fn build_single_branch_recursive(
        &mut self,
        depth: usize,
        left_center_pos: Point2,
        parent_branch: Option<usize>,
    ) -> (r: Result<(), TreeError>)
        requires
            old(self).inv(),
            depth < old(self).spec_num_layers(),
            left_center_pos.wf(),
            (parent_branch matches Some(pi) ==> pi < old(self).spec_branches().len()),
            old(self).spec_branches().len() + 3 * (pow2(
                (old(self).spec_num_layers() - depth) as nat,
            ) - 1) <= usize::MAX,
        ensures
            final(self).inv(),
            final(self).spec_num_layers() == old(self).spec_num_layers(),
            final(self).spec_vertical_fill() == old(self).spec_vertical_fill(),
            final(self).spec_horizontal_fill() == old(self).spec_horizontal_fill(),
            final(self).spec_indices().len() == old(self).spec_indices().len(),
            r is Ok ==> forall|l: int|
                0 <= l < depth ==> (#[trigger] final(self).spec_indices()[l]) == old(
                    self,
                ).spec_indices()[l],
            preserves_prefix(old(self).spec_branches(), final(self).spec_branches()),
            r is Ok && parent_branch is None ==> forall|i: int|
                0 <= i < old(self).spec_branches().len()
                    ==> (#[trigger] final(self).spec_branches()[i]).spec_connections() == old(
                    self,
                ).spec_branches()[i].spec_connections(),
            parent_branch matches Some(pi) ==> (r is Ok ==> forall|i: int|
                0 <= i < old(self).spec_branches().len() && i != pi
                    ==> (#[trigger] final(self).spec_branches()[i]).spec_connections() == old(
                    self,
                ).spec_branches()[i].spec_connections()),
            r is Ok ==> final(self).spec_branches().len() == old(self).spec_branches().len() + 3
                * (pow2((old(self).spec_num_layers() - depth) as nat) - 1)
                && final(self).spec_branches()[old(self).spec_branches().len() as int].spec_id()
                == (BranchId { id: old(self).spec_indices()[depth as int], layer: depth }),
            r is Ok ==> spec_built_step(
                old(self).spec_branches(),
                final(self).spec_branches(),
                old(self).spec_indices()[depth as int],
                depth,
                old(self).spec_num_layers(),
                parent_branch,
            ),
            r matches Err(e) ==> e == TreeError::NumericOverflow,
            (depth == old(self).spec_num_layers() - 1 && q_level_ok(
                old(self).spec_vertical_fill()@,
                old(self).spec_horizontal_fill()@,
                depth as nat,
                left_center_pos.x@,
                left_center_pos.y@,
            )) ==> r is Ok,
        decreases self.spec_num_layers() - depth,
    {
        let ghost s0 = self.spec_branches();
        let ghost n0 = s0.len();
        let ghost nl = self.spec_num_layers();
        let ghost k0 = self.spec_indices()[depth as int];
        proof {
            lemma_pow2_pos(((nl - depth) as nat - 1) as nat);
            lemma_pow2_unfold((nl - depth) as nat);
            lemma_prefix_refl(s0);
        }
        let pieces = match self.build_level(depth, left_center_pos, parent_branch) {
            Ok(p) => p,
            Err(e) => {
                return Result::Err(e);
            },
        };
        let ghost sl = self.spec_branches();
        if depth != self.num_layers - 1 {
            proof {
                lemma_pow2_pos(((nl - depth) as nat - 2) as nat);
                lemma_pow2_unfold(((nl - depth) as nat - 1) as nat);
            }
            let e1 = match pieces.top_control.eval(Rat::from_int(1)) {
                Some(p) => p,
                None => {
                    return Result::Err(TreeError::NumericOverflow);
                },
            };
            let e0 = match pieces.top_control.eval(Rat::from_int(0)) {
                Some(p) => p,
                None => {
                    return Result::Err(TreeError::NumericOverflow);
                },
            };
            let off = match e1.sub(e0) {
                Some(p) => p,
                None => {
                    return Result::Err(TreeError::NumericOverflow);
                },
            };
            let left_top_end_pos = match pieces.top_seed.add(off) {
                Some(p) => p,
                None => {
                    return Result::Err(TreeError::NumericOverflow);
                },
            };
            match self.build_single_branch_recursive(
                depth + 1,
                left_top_end_pos,
                Some(pieces.top_pos),
            ) {
                Ok(u) => u,
                Err(e) => {
                    proof {
                        lemma_prefix_trans(s0, sl, self.spec_branches());
                    }
                    return Result::Err(e);
                },
            };
            let ghost sm = self.spec_branches();
            proof {
                lemma_prefix_trans(s0, sl, sm);
            }
            let be1 = match pieces.bottom_control.eval(Rat::from_int(1)) {
                Some(p) => p,
                None => {
                    return Result::Err(TreeError::NumericOverflow);
                },
            };
            let be0 = match pieces.bottom_control.eval(Rat::from_int(0)) {
                Some(p) => p,
                None => {
                    return Result::Err(TreeError::NumericOverflow);
                },
            };
            let boff = match be1.sub(be0) {
                Some(p) => p,
                None => {
                    return Result::Err(TreeError::NumericOverflow);
                },
            };
            let left_bottom_end_pos = match pieces.bottom_seed.add(boff) {
                Some(p) => p,
                None => {
                    return Result::Err(TreeError::NumericOverflow);
                },
            };
            match self.build_single_branch_recursive(
                depth + 1,
                left_bottom_end_pos,
                Some(pieces.bottom_pos),
            ) {
                Ok(u) => u,
                Err(e) => {
                    proof {
                        lemma_prefix_trans(s0, sm, self.spec_branches());
                    }
                    return Result::Err(e);
                },
            };
            proof {
                lemma_prefix_trans(s0, sm, self.spec_branches());
            }
        }
        proof {
            if depth == nl - 1 {
                assert(pow2((nl - depth) as nat) == 2) by {
                    lemma_pow2_unfold(1);
                    vstd::arithmetic::power2::lemma2_to64();
                }
            }
            let fs = self.spec_branches();
            assert(fs[pieces.trunk_pos as int].spec_connections() == sl[
                pieces.trunk_pos as int].spec_connections());
            assert(fs[pieces.top_pos as int].spec_connections()[0] == sl[
                pieces.top_pos as int].spec_connections()[0]);
            assert(fs[pieces.bottom_pos as int].spec_connections()[0] == sl[
                pieces.bottom_pos as int].spec_connections()[0]);
            assert(spec_built_step(s0, fs, k0, depth, nl, parent_branch));
        }
        Result::Ok(())
    }

    /// Build the complete tree: the root trunk at the origin of layer
    /// zero, then every level below it. On success the tree is well
    /// formed, every connection is reciprocal, the branch count is
    /// exactly `3 * (2^num_layers - 1)`, and the root `(0, 0)` exists.
    pub fn build_tree(self) -> (r: Result<TreeData, TreeError>)
        requires
            self.inv(),
            self.spec_num_layers() >= 1,
            self.spec_branches().len() == 0,
            forall|l: int|
                0 <= l < self.spec_indices().len() ==> (#[trigger] self.spec_indices()[l]) == 0,
            3 * (pow2(self.spec_num_layers() as nat) - 1) <= usize::MAX,
        ensures
            r matches Ok(t) ==> {
                &&& t.wf()
                &&& reciprocal_ok(t.spec_branches())
                &&& t.spec_branches().len() == 3 * (pow2(self.spec_num_layers() as nat) - 1)
                &&& has_branch(t.spec_branches(), BranchId { id: 0, layer: 0 })
                &&& t.spec_branches()[0].spec_id() == (BranchId { id: 0, layer: 0 })
                &&& t.spec_max_depth() == self.spec_num_layers() - 1
                &&& forall|i: int|
                    0 <= i < t.spec_branches().len() ==> (
                    #[trigger] t.spec_branches()[i]).spec_id().layer < self.spec_num_layers()
                &&& spec_built_step(
                    Seq::<TreeBranch>::empty(),
                    t.spec_branches(),
                    0,
                    0,
                    self.spec_num_layers(),
                    None,
                )
            },
            r matches Err(e) ==> e == TreeError::NumericOverflow,
            (self.spec_num_layers() == 1 && q_level_ok(
                self.spec_vertical_fill()@,
                self.spec_horizontal_fill()@,
                0,
                (-1int, 1int),
                (0int, 1int),
            )) ==> r is Ok,
    {
        let mut builder = self;
        let ghost nl = builder.spec_num_layers();
        let start = Point2::new(Rat::from_int(-1), Rat::from_int(0));
        proof {
            assert(builder.spec_branches() =~= Seq::<TreeBranch>::empty());
        }
        match builder.build_single_branch_recursive(0, start, None) {
            Ok(u) => u,
            Err(e) => {
                return Result::Err(e);
            },
        };
        proof {
            assert(self.spec_indices()[0] == 0);
            lemma_pow2_pos((nl - 1) as nat);
            lemma_pow2_unfold(nl as nat);
            assert(builder.spec_branches().len() >= 3);
            assert(builder.spec_branches()[0].spec_id() == (BranchId { id: 0, layer: 0 }));
            assert(has_branch(builder.spec_branches(), BranchId { id: 0, layer: 0 }));
        }
        let max_depth = builder.num_layers - 1;
        Result::Ok(TreeData::new(builder.branches, max_depth))
    }

}

/// Every sequence extends itself.
proof fn lemma_prefix_refl(s: Seq<TreeBranch>)
    ensures
        preserves_prefix(s, s),
{
}

/// Extension composes.
proof fn lemma_prefix_trans(a: Seq<TreeBranch>, b: Seq<TreeBranch>, c: Seq<TreeBranch>)
    requires
        preserves_prefix(a, b),
        preserves_prefix(b, c),
    ensures
        preserves_prefix(a, c),
{
    assert forall|i: int| 0 <= i < a.len() implies (#[trigger] c[i]).spec_id() == a[i].spec_id()
        && c[i].spec_logical() == a[i].spec_logical() && c[i].spec_visual() == a[i].spec_visual()
        && c[i].spec_connections().len() >= a[i].spec_connections().len() by {
        assert(b[i].spec_id() == a[i].spec_id());
    }
    assert forall|i: int, k: int|
        0 <= i < a.len() && 0 <= k < a[i].spec_connections().len() implies (
    #[trigger] c[i].spec_connections()[k]) == a[i].spec_connections()[k] by {
        assert(b[i].spec_connections()[k] == a[i].spec_connections()[k]);
    }
}

/// Appending a branch extends the sequence.
proof fn lemma_prefix_push(s: Seq<TreeBranch>, b: TreeBranch)
    ensures
        preserves_prefix(s, s.push(b)),
{
    assert forall|i: int| 0 <= i < s.len() implies (#[trigger] s.push(b)[i]) == s[i] by {}
}

/// A mutable borrow of one stored branch.
fn branch_mut(v: &mut Vec<TreeBranch>, i: usize) -> (element: &mut TreeBranch)
    requires
        i < old(v).len(),
    ensures
        *element == old(v)@[i as int],
        final(v)@ == old(v)@.update(i as int, *final(element)),
{
    &mut v[i]
}

/// Identities determine positions: if the identities of two sequences
/// agree pointwise and are unique, a present identity has the same index
/// in both.
proof fn lemma_branch_index_stable(s0: Seq<TreeBranch>, s2: Seq<TreeBranch>, t: BranchId)
    requires
        s0.len() == s2.len(),
        ids_unique(s0),
        forall|k: int| 0 <= k < s0.len() ==> (#[trigger] s2[k]).spec_id() == s0[k].spec_id(),
        has_branch(s0, t),
    ensures
        has_branch(s2, t),
        branch_index(s2, t) == branch_index(s0, t),
        spec_branch(s2, t) == s2[branch_index(s0, t)],
{
    let w0 = branch_index(s0, t);
    assert(0 <= w0 < s0.len() && s0[w0].spec_id() == t);
    assert(s2[w0].spec_id() == t);
    assert(has_branch(s2, t));
    let w2 = branch_index(s2, t);
    assert(0 <= w2 < s2.len() && s2[w2].spec_id() == t);
    if w2 != w0 {
        assert(s0[w2].spec_id() == t);
        assert(false);
    }
}

} // verus!
