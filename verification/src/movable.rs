//! The cross-branch movement algorithm.
//!
//! Given a position and a displacement requested in the current branch's
//! local frame, compute the new position: move along the tracking line,
//! and if the along-branch coordinate leaves `[0, length]`, either cross
//! into the connected neighbor — fitting the lateral coordinate from this
//! boundary's range into the neighbor's — or, at a dead end, clamp the
//! along-branch coordinate and keep the lateral one unchanged.

use vstd::prelude::*;
use crate::branch_id::BranchId;
use crate::error::TreeError;
use crate::interval::{q_fit_ok, q_fit_val};
use crate::logical::{q_shift_ok, q_shift_x, q_shift_y};
use crate::point::Point2;
use crate::position::Position;
use crate::rat::Rat;
use crate::rat::{q_add, q_eq, q_fits, q_le, q_lt, q_mul, q_reduction_of, q_wf, q_zero};
use crate::rat::{
    lemma_cmp_congruence, lemma_q_ops_wf, lemma_reduction_eq, lemma_reduction_trans,
};
use crate::tree::{
    branch_index, find_back, has_branch, lemma_find_back_mem, spec_branch, TreeData,
};
use crate::tree_branch::{
    lemma_find_conn_congruence, lemma_find_conn_mem, q_boundary_scale, spec_get_connection,
    spec_scale_overflow, BranchSide, TreeBranch,
};

verus! {

/// The outcome of a crossing attempt at one side of a branch, at value
/// level: the result of the boundary scan, then of the reciprocal lookup,
/// then the fitted landing point. A zero-span source range cannot be
/// fitted from and is a construction defect.
pub open spec fn spec_cross(s: Seq<TreeBranch>, b: TreeBranch, left: bool, ny: (int, int)) -> Result<
    (BranchId, (int, int), (int, int)),
    TreeError,
> {
    let l = b.spec_logical();
    let sc = q_boundary_scale(l, left);
    match spec_get_connection(b.spec_connections(), left, ny, sc) {
        Result::Err(e) => Result::Err(e),
        Result::Ok(None) => Result::Ok(
            (
                b.spec_id(),
                if left {
                    q_zero()
                } else {
                    l.length@
                },
                ny,
            ),
        ),
        Result::Ok(Some(conn)) => {
            if !has_branch(s, conn.spec_id()) {
                Result::Err(TreeError::BranchNotFound)
            } else {
                let nb = spec_branch(s, conn.spec_id());
                match find_back(nb.spec_connections(), 0, b.spec_id()) {
                    Result::Err(e) => Result::Err(e),
                    Result::Ok(mc) => {
                        let sca = q_boundary_scale(l, conn.spec_boundary().spec_is_left());
                        let scb = q_boundary_scale(
                            nb.spec_logical(),
                            mc.spec_boundary().spec_is_left(),
                        );
                        let ss = q_mul(conn.spec_boundary().spec_start()@, sca);
                        let se = q_mul(conn.spec_boundary().spec_end()@, sca);
                        let ds = q_mul(mc.spec_boundary().spec_start()@, scb);
                        let de = q_mul(mc.spec_boundary().spec_end()@, scb);
                        if q_eq(ss, se) {
                            Result::Err(TreeError::DegenerateBoundary)
                        } else {
                            Result::Ok(
                                (
                                    conn.spec_id(),
                                    if left {
                                        nb.spec_logical().length@
                                    } else {
                                        q_zero()
                                    },
                                    q_fit_val(ny, ss, se, ds, de),
                                ),
                            )
                        }
                    },
                }
            }
        },
    }
}

/// Every number the crossing needs fits the representation, so the
/// executable crossing reaches the value-level answer.
pub open spec fn spec_cross_fits(s: Seq<TreeBranch>, b: TreeBranch, left: bool, ny: (
    int,
    int,
)) -> bool {
    let l = b.spec_logical();
    let sc = q_boundary_scale(l, left);
    &&& !spec_scale_overflow(b.spec_connections(), left, sc)
    &&& match spec_get_connection(b.spec_connections(), left, ny, sc) {
        Result::Ok(Some(conn)) => {
            if has_branch(s, conn.spec_id()) {
                let nb = spec_branch(s, conn.spec_id());
                match find_back(nb.spec_connections(), 0, b.spec_id()) {
                    Result::Ok(mc) => {
                        let sca = q_boundary_scale(l, conn.spec_boundary().spec_is_left());
                        let scb = q_boundary_scale(
                            nb.spec_logical(),
                            mc.spec_boundary().spec_is_left(),
                        );
                        let ss = q_mul(conn.spec_boundary().spec_start()@, sca);
                        let se = q_mul(conn.spec_boundary().spec_end()@, sca);
                        let ds = q_mul(mc.spec_boundary().spec_start()@, scb);
                        let de = q_mul(mc.spec_boundary().spec_end()@, scb);
                        &&& q_fits(ss)
                        &&& q_fits(se)
                        &&& q_fits(ds)
                        &&& q_fits(de)
                        &&& (!q_eq(ss, se) ==> q_fit_ok(ny, ss, se, ds, de))
                    },
                    _ => true,
                }
            } else {
                true
            }
        },
        _ => true,
    }
}

/// The whole movement step at value level: shift along the tracking line,
/// then handle a departure over either end.
pub open spec fn spec_move(
    s: Seq<TreeBranch>,
    cur: BranchId,
    px: (int, int),
    py: (int, int),
    dx: (int, int),
    dy: (int, int),
) -> Result<(BranchId, (int, int), (int, int)), TreeError> {
    if !has_branch(s, cur) {
        Result::Err(TreeError::BranchNotFound)
    } else {
        let b = spec_branch(s, cur);
        let l = b.spec_logical();
        let nx = q_shift_x(px, dx);
        let ny = q_add(q_shift_y(l, px, py, dx), dy);
        if q_lt(nx, q_zero()) {
            spec_cross(s, b, true, ny)
        } else if q_lt(l.length@, nx) {
            spec_cross(s, b, false, ny)
        } else {
            Result::Ok((cur, nx, ny))
        }
    }
}

/// Every number the movement step needs fits the representation, so the
/// executable step reaches the value-level answer.
pub open spec fn spec_move_fits(
    s: Seq<TreeBranch>,
    cur: BranchId,
    px: (int, int),
    py: (int, int),
    dx: (int, int),
    dy: (int, int),
) -> bool {
    if !has_branch(s, cur) {
        true
    } else {
        let b = spec_branch(s, cur);
        let l = b.spec_logical();
        let nx = q_shift_x(px, dx);
        let ny = q_add(q_shift_y(l, px, py, dx), dy);
        &&& q_shift_ok(l, px, py, dx)
        &&& q_fits(ny)
        &&& if q_lt(nx, q_zero()) {
            spec_cross_fits(s, b, true, ny)
        } else if q_lt(l.length@, nx) {
            spec_cross_fits(s, b, false, ny)
        } else {
            true
        }
    }
}

/// One crossing attempt: look up the connection covering `y` on `side`,
/// resolve its reciprocal, and fit `y` between the two scaled boundary
/// ranges; clamp to this branch when no connection covers `y`.
fn cross_boundary(
    tree: &TreeData,
    current_branch: &TreeBranch,
    side: BranchSide,
    y: Rat,
    Ghost(ny): Ghost<(int, int)>,
) -> (r: Result<Position, TreeError>)
    requires
        tree.wf(),
        current_branch.wf(),
        y.wf(),
        q_wf(ny),
        q_reduction_of(y@, ny),
        has_branch(tree.spec_branches(), current_branch.spec_id()),
        *current_branch == spec_branch(tree.spec_branches(), current_branch.spec_id()),
    ensures
        ({
            let left = side is Left;
            let sm = spec_cross(tree.spec_branches(), *current_branch, left, ny);
            &&& (r matches Ok(np) ==> (sm matches Ok(v) && np.wf() && np.spec_branch_id()
                == v.0 && q_wf(v.1) && q_wf(v.2) && q_eq(np.spec_branch_position().x@, v.1)
                && q_eq(np.spec_branch_position().y@, v.2)))
            &&& (r matches Err(e) ==> e == TreeError::NumericOverflow || sm == Result::<
                (BranchId, (int, int), (int, int)),
                TreeError,
            >::Err(e))
            &&& (r == Result::<Position, TreeError>::Err(TreeError::NumericOverflow)
                ==> !spec_cross_fits(tree.spec_branches(), *current_branch, left, ny) || sm
                == Result::<(BranchId, (int, int), (int, int)), TreeError>::Err(
                TreeError::NumericOverflow,
            ))
            &&& (spec_cross_fits(tree.spec_branches(), *current_branch, left, ny) ==> ((
            sm matches Err(e) ==> r == Result::<Position, TreeError>::Err(e)) && (sm is Ok ==> r
                is Ok)))
        }),
{
    let ghost s = tree.spec_branches();
    let ghost left = side is Left;
    let ghost l = current_branch.spec_logical();
    let ghost sc = q_boundary_scale(l, left);
    let ghost conns = current_branch.spec_connections();
    proof {
        lemma_reduction_eq(y@, ny);
        assert(q_wf(sc)) by {
            lemma_q_ops_wf(l.left_width@, crate::rat::q_two());
            lemma_q_ops_wf(l.right_width@, crate::rat::q_two());
        }
        lemma_find_conn_congruence(conns, 0, left, y@, ny, sc, None);
    }
    let found = match current_branch.get_connection(y, side) {
        Ok(o) => o,
        Err(e) => {
            return Result::Err(e);
        },
    };
    match found {
        None => {
            let xpos = match side {
                BranchSide::Left => Rat::zero(),
                BranchSide::Right => current_branch.get_logical().length,
            };
            Result::Ok(Position::new(current_branch.get_id(), Point2::new(xpos, y)))
        },
        Some(connection) => {
            proof {
                lemma_find_conn_mem(conns, 0, left, ny, sc, None, connection);
            }
            let matching = match tree.get_matching_connection(
                current_branch.get_id(),
                &connection,
            ) {
                Ok(mc) => mc,
                Err(e) => {
                    return Result::Err(e);
                },
            };
            let new_branch_id = connection.get_branch_id();
            let new_branch = match tree.get_branch(new_branch_id) {
                Ok(b) => b,
                Err(e) => {
                    return Result::Err(e);
                },
            };
            let ghost nb = spec_branch(s, connection.spec_id());
            let ghost mcs = find_back(nb.spec_connections(), 0, current_branch.spec_id());
            let ghost sca = q_boundary_scale(l, connection.spec_boundary().spec_is_left());
            let ghost scb = q_boundary_scale(
                nb.spec_logical(),
                matching.spec_boundary().spec_is_left(),
            );
            let ghost ss = q_mul(connection.spec_boundary().spec_start()@, sca);
            let ghost se = q_mul(connection.spec_boundary().spec_end()@, sca);
            let ghost ds = q_mul(matching.spec_boundary().spec_start()@, scb);
            let ghost de = q_mul(matching.spec_boundary().spec_end()@, scb);
            proof {
                lemma_find_back_mem(
                    nb.spec_connections(),
                    0,
                    current_branch.spec_id(),
                    matching,
                );
            }
            let new_branch_boundary_interval = match new_branch.get_logical_boundary_interval(
                matching.get_boundary(),
            ) {
                Ok(iv) => iv,
                Err(e) => {
                    return Result::Err(e);
                },
            };
            let old_branch_boundary_interval = match current_branch.get_logical_boundary_interval(
                connection.get_boundary(),
            ) {
                Ok(iv) => iv,
                Err(e) => {
                    return Result::Err(e);
                },
            };
            proof {
                lemma_reduction_eq(old_branch_boundary_interval.start@, ss);
                lemma_reduction_eq(old_branch_boundary_interval.end@, se);
                lemma_cmp_congruence(
                    old_branch_boundary_interval.start@,
                    ss,
                    old_branch_boundary_interval.end@,
                    se,
                );
            }
            if old_branch_boundary_interval.get_start().value_eq(
                old_branch_boundary_interval.get_end(),
            ) {
                return Result::Err(TreeError::DegenerateBoundary);
            }
            proof {
                crate::interval::lemma_fit_reduction(
                    y@,
                    ny,
                    old_branch_boundary_interval.start@,
                    ss,
                    old_branch_boundary_interval.end@,
                    se,
                    new_branch_boundary_interval.start@,
                    ds,
                    new_branch_boundary_interval.end@,
                    de,
                );
            }
            let fitted = match old_branch_boundary_interval.fit_point_to(
                y,
                new_branch_boundary_interval,
            ) {
                Some(v) => v,
                None => {
                    return Result::Err(TreeError::NumericOverflow);
                },
            };
            proof {
                lemma_reduction_trans(
                    fitted@,
                    q_fit_val(
                        y@,
                        old_branch_boundary_interval.start@,
                        old_branch_boundary_interval.end@,
                        new_branch_boundary_interval.start@,
                        new_branch_boundary_interval.end@,
                    ),
                    q_fit_val(ny, ss, se, ds, de),
                );
                lemma_reduction_eq(fitted@, q_fit_val(ny, ss, se, ds, de));
            }
            let xpos = match side {
                BranchSide::Left => new_branch.get_logical().length,
                BranchSide::Right => Rat::zero(),
            };
            Result::Ok(Position::new(new_branch_id, Point2::new(xpos, fitted)))
        },
    }
}

/// Compute the position reached from `current_position` by the requested
/// displacement, possibly crossing onto a neighboring branch or clamping
/// at a dead end. The outcome agrees with `spec_move`; whenever
/// `spec_move_fits` holds, the value-level outcome is reached exactly.
pub fn compute_new_position(tree: &TreeData, current_position: Position, change_vec: Point2) -> (r:
    Result<Position, TreeError>)
    requires
        tree.wf(),
        current_position.wf(),
        change_vec.wf(),
    ensures
        ({
            let s = tree.spec_branches();
            let cur = current_position.spec_branch_id();
            let p = current_position.spec_branch_position();
            let sm = spec_move(s, cur, p.x@, p.y@, change_vec.x@, change_vec.y@);
            let fits = spec_move_fits(s, cur, p.x@, p.y@, change_vec.x@, change_vec.y@);
            &&& (r matches Ok(np) ==> (sm matches Ok(v) && np.wf() && np.spec_branch_id()
                == v.0 && q_wf(v.1) && q_wf(v.2) && q_eq(np.spec_branch_position().x@, v.1)
                && q_eq(np.spec_branch_position().y@, v.2)))
            &&& (r matches Err(e) ==> e == TreeError::NumericOverflow || sm == Result::<
                (BranchId, (int, int), (int, int)),
                TreeError,
            >::Err(e))
            &&& (r == Result::<Position, TreeError>::Err(TreeError::NumericOverflow) ==> !fits
                || sm == Result::<(BranchId, (int, int), (int, int)), TreeError>::Err(
                TreeError::NumericOverflow,
            ))
            &&& (fits ==> ((sm matches Err(e) ==> r == Result::<Position, TreeError>::Err(e)) && (
            sm is Ok ==> r is Ok)))
        }),
{
    let ghost s = tree.spec_branches();
    let ghost cur = current_position.spec_branch_id();
    let ghost p = current_position.spec_branch_position();
    let current_branch = match tree.get_branch(current_position.get_branch_id()) {
        Ok(b) => b,
        Err(e) => {
            return Result::Err(e);
        },
    };
    let ghost l = current_branch.spec_logical();
    let ghost nxs = q_shift_x(p.x@, change_vec.x@);
    let ghost nys = q_add(q_shift_y(l, p.x@, p.y@, change_vec.x@), change_vec.y@);
    let new_logical_pos = match current_branch.get_new_logical_position(
        current_position.get_branch_position(),
        change_vec,
    ) {
        Some(np) => np,
        None => {
            return Result::Err(TreeError::NumericOverflow);
        },
    };
    proof {
        lemma_reduction_eq(new_logical_pos.x@, nxs);
        lemma_reduction_eq(new_logical_pos.y@, nys);
        lemma_cmp_congruence(new_logical_pos.x@, nxs, q_zero(), q_zero());
        lemma_cmp_congruence(q_zero(), q_zero(), new_logical_pos.x@, nxs);
        lemma_cmp_congruence(l.length@, l.length@, new_logical_pos.x@, nxs);
    }
    let zero = Rat::zero();
    if new_logical_pos.x.lt(zero) {
        cross_boundary(tree, current_branch, BranchSide::Left, new_logical_pos.y, Ghost(nys))
    } else {
        let len = current_branch.get_logical().length;
        if len.lt(new_logical_pos.x) {
            cross_boundary(
                tree,
                current_branch,
                BranchSide::Right,
                new_logical_pos.y,
                Ghost(nys),
            )
        } else {
            Result::Ok(Position::new(current_position.get_branch_id(), new_logical_pos))
        }
    }
}

/// Dead-end clamp: when the along-branch coordinate falls off the left
/// end and no connection covers the lateral position there, the movement
/// outcome keeps the branch, sets the along-branch coordinate to exactly
/// zero, and leaves the shifted lateral coordinate untouched.
pub proof fn lemma_dead_end_clamp(
    s: Seq<TreeBranch>,
    cur: BranchId,
    px: (int, int),
    py: (int, int),
    dx: (int, int),
    dy: (int, int),
)
    requires
        has_branch(s, cur),
        ({
            let b = spec_branch(s, cur);
            let l = b.spec_logical();
            let nx = q_shift_x(px, dx);
            let ny = q_add(q_shift_y(l, px, py, dx), dy);
            q_lt(nx, q_zero()) && spec_get_connection(
                b.spec_connections(),
                true,
                ny,
                q_boundary_scale(l, true),
            ) == Result::<Option<crate::connection::Connection>, TreeError>::Ok(None)
        }),
    ensures
        ({
            let b = spec_branch(s, cur);
            let l = b.spec_logical();
            let ny = q_add(q_shift_y(l, px, py, dx), dy);
            spec_move(s, cur, px, py, dx, dy) == Result::<
                (BranchId, (int, int), (int, int)),
                TreeError,
            >::Ok((cur, q_zero(), ny))
        }),
{
    let w = choose|i: int| 0 <= i < s.len() && (#[trigger] s[i]).spec_id() == cur;
    assert(spec_branch(s, cur).spec_id() == cur);
}

/// Crossing conservation: whenever the movement leaves a branch over
/// either end and a connection covers the lateral position there, a
/// successful outcome lands with its along-branch coordinate inside
/// `[0, length]` of the landing branch — in fact exactly on the
/// receiving end.
pub proof fn lemma_crossing_conservation(
    s: Seq<TreeBranch>,
    cur: BranchId,
    px: (int, int),
    py: (int, int),
    dx: (int, int),
    dy: (int, int),
)
    requires
        has_branch(s, cur),
        crate::tree::branches_wf(s),
        ({
            let b = spec_branch(s, cur);
            let l = b.spec_logical();
            let nx = q_shift_x(px, dx);
            let ny = q_add(q_shift_y(l, px, py, dx), dy);
            let left = q_lt(nx, q_zero());
            let off_end = left || q_lt(l.length@, nx);
            off_end && (spec_get_connection(
                b.spec_connections(),
                left,
                ny,
                q_boundary_scale(l, left),
            ) matches Ok(o) && o is Some)
        }),
    ensures
        spec_move(s, cur, px, py, dx, dy) matches Ok(v) ==> q_le(q_zero(), v.1) && q_le(
            v.1,
            spec_branch(s, v.0).spec_logical().length@,
        ),
{
    let b = spec_branch(s, cur);
    let l = b.spec_logical();
    let nx = q_shift_x(px, dx);
    let ny = q_add(q_shift_y(l, px, py, dx), dy);
    let left = q_lt(nx, q_zero());
    match spec_move(s, cur, px, py, dx, dy) {
        Result::Ok(v) => {
            let f = spec_get_connection(
                b.spec_connections(),
                left,
                ny,
                q_boundary_scale(l, left),
            );
            match f {
                Result::Ok(Some(conn)) => {
                    assert(has_branch(s, conn.spec_id()));
                    let nb = spec_branch(s, conn.spec_id());
                    let wnb = branch_index(s, conn.spec_id());
                    assert(0 <= wnb < s.len() && s[wnb] == nb);
                    assert(nb.wf());
                    let len = nb.spec_logical().length@;
                    assert(q_lt(q_zero(), len));
                    assert(v.0 == conn.spec_id());
                    assert(v.1 == q_zero() || v.1 == len);
                    assert(q_le(q_zero(), q_zero()));
                    assert(q_le(q_zero(), len));
                    assert(q_le(len, len));
                },
                _ => {},
            }
        },
        _ => {},
    }
}

/// Something that owns a position and can be moved across the tree.
pub trait Movable {
    /// The owned position.
    spec fn spec_position(&self) -> Position;

    /// Read the owned position.
    fn get_position(&self) -> (r: Position)
        ensures
            r == self.spec_position(),
    ;

    /// Replace the owned position.
    fn set_position(&mut self, new_pos: Position)
        ensures
            final(self).spec_position() == new_pos,
    ;

    /// Move by `change_vec` across the tree: on success the owned
    /// position becomes the one `compute_new_position` yields; on any
    /// failure it is left untouched.
    fn change_position(&mut self, tree: &TreeData, change_vec: Point2) -> (r: Result<
        (),
        TreeError,
    >)
        requires
            tree.wf(),
            old(self).spec_position().wf(),
            change_vec.wf(),
        ensures
            ({
                let sm = spec_move(
                    tree.spec_branches(),
                    old(self).spec_position().spec_branch_id(),
                    old(self).spec_position().spec_branch_position().x@,
                    old(self).spec_position().spec_branch_position().y@,
                    change_vec.x@,
                    change_vec.y@,
                );
                let fits = spec_move_fits(
                    tree.spec_branches(),
                    old(self).spec_position().spec_branch_id(),
                    old(self).spec_position().spec_branch_position().x@,
                    old(self).spec_position().spec_branch_position().y@,
                    change_vec.x@,
                    change_vec.y@,
                );
                &&& (r matches Ok(u) ==> (sm matches Ok(v) && final(self).spec_position().wf()
                    && final(self).spec_position().spec_branch_id() == v.0 && q_wf(v.1) && q_wf(
                    v.2,
                ) && q_eq(final(self).spec_position().spec_branch_position().x@, v.1) && q_eq(
                    final(self).spec_position().spec_branch_position().y@,
                    v.2,
                )))
                &&& (r is Err ==> final(self).spec_position() == old(self).spec_position())
                &&& (r matches Err(e) ==> e == TreeError::NumericOverflow || sm == Result::<
                    (BranchId, (int, int), (int, int)),
                    TreeError,
                >::Err(e))
                &&& (fits ==> ((sm is Ok ==> r is Ok) && (sm matches Err(e) ==> r == Result::<
                    (),
                    TreeError,
                >::Err(e))))
            }),
    {
        let current_position = self.get_position();
        match compute_new_position(tree, current_position, change_vec) {
            Ok(new_position) => {
                self.set_position(new_position);
                Result::Ok(())
            },
            Err(e) => Result::Err(e),
        }
    }
}

} // verus!
