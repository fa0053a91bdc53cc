//! The player: an entity with a fixed extent that owns a position, and
//! the read-only query that computes the rectangles it occupies — on its
//! own branch, and on a neighboring branch wherever the extent reaches
//! across a boundary.

use vstd::prelude::*;
use crate::branch_id::BranchId;
use crate::error::TreeError;
use crate::interval::q_fit_val;
use crate::line::Line;
use crate::point::Point2;
use crate::position::Position;
use crate::movable::Movable;
use crate::rat::Rat;
use crate::rat::{q_add, q_div, q_eq, q_mul, q_sub, q_wf};
use crate::rat::{
    lemma_cmp_congruence, lemma_q_ops_wf, lemma_red_sub, lemma_reduction_eq,
    lemma_reduction_refl, lemma_reduction_trans,
};
use crate::tree::{has_branch, spec_branch, TreeData};
use crate::tree_branch::{q_boundary_scale, spec_boundary_scan, ConnectionIntersect};
use crate::visual::Color4;

verus! {

/// A rectangle occupied by an entity, in the logical frame of one branch.
pub struct BranchRect {
    pub length: Rat,
    pub height: Rat,
    pub pos: Point2,
    pub color: Color4,
    pub branch_id: BranchId,
}

impl BranchRect {
    /// All carried coordinates have positive denominators.
    pub open spec fn wf(self) -> bool {
        q_wf(self.length@) && q_wf(self.height@) && self.pos.wf()
    }

    /// Build a rectangle from its parts.
    pub fn new(length: Rat, height: Rat, pos: Point2, color: Color4, branch: BranchId) -> (r:
        BranchRect)
        ensures
            r.length == length,
            r.height == height,
            r.pos == pos,
            r.color == color,
            r.branch_id == branch,
    {
        BranchRect { length, height, pos, color, branch_id: branch }
    }
}

/// The player: a position plus a fixed extent.
pub struct Player {
    pos: Position,
    length: Rat,
    height: Rat,
}

impl Player {
    /// The extent along the branch.
    pub closed spec fn spec_length(self) -> Rat {
        self.length
    }

    /// The lateral extent.
    pub closed spec fn spec_height(self) -> Rat {
        self.height
    }

    /// Position and extent are well formed.
    pub open spec fn wf(self) -> bool {
        self.spec_position().wf() && q_wf(self.spec_length()@) && q_wf(self.spec_height()@)
    }

    /// Build a player at the given position with the given extent.
    pub fn new(pos: Position, length: Rat, height: Rat) -> (r: Player)
        ensures
            r.spec_position() == pos,
            r.spec_length() == length,
            r.spec_height() == height,
    {
        Player { pos, length, height }
    }

    /// The rectangles this player occupies: always the centre rectangle
    /// around its own position, plus one rectangle on a neighboring
    /// branch for each boundary its extent crosses to the right or to the
    /// left. A missing branch is caller misuse; numeric failures are
    /// reported as such.
    pub fn get_branch_objects(&self, tree: &TreeData) -> (r: Result<Vec<BranchRect>, TreeError>)
        requires
            tree.wf(),
            self.wf(),
        ensures
            r matches Ok(v) ==> {
                let s = tree.spec_branches();
                let cb = spec_branch(s, self.spec_position().spec_branch_id());
                let p = self.spec_position().spec_branch_position();
                &&& 1 <= v@.len() <= 3
                &&& v@[0].branch_id == self.spec_position().spec_branch_id()
                &&& v@[0].pos == p
                &&& v@[0].length == self.spec_length()
                &&& v@[0].height == self.spec_height()
                &&& forall|i: int| 0 <= i < v@.len() ==> (#[trigger] v@[i]).wf()
                &&& forall|i: int|
                    1 <= i < v@.len() ==> (#[trigger] v@[i]).height == self.spec_height()
                        && has_branch(s, v@[i].branch_id) && exists|m: int|
                        0 <= m < cb.spec_connections().len() && (
                        #[trigger] cb.spec_connections()[m]).spec_id() == v@[i].branch_id
                &&& exists|rline: Line, lline: Line|
                    {
                        let rscan = spec_boundary_scan(
                            cb.spec_connections(),
                            0,
                            rline,
                            cb.spec_logical(),
                        );
                        let lscan = spec_boundary_scan(
                            cb.spec_connections(),
                            0,
                            lline,
                            cb.spec_logical(),
                        );
                        &&& #[trigger] rline.wf() && #[trigger] lline.wf()
                        &&& rline.p0 == p && lline.p0 == p
                        &&& q_eq(
                            rline.p1.x@,
                            q_add(p.x@, q_div(self.spec_length()@, (2int, 1int))),
                        ) && q_eq(rline.p1.y@, p.y@)
                        &&& q_eq(
                            lline.p1.x@,
                            q_sub(p.x@, q_div(self.spec_length()@, (2int, 1int))),
                        ) && q_eq(lline.p1.y@, p.y@)
                        &&& v@.len() == 1 + (if rscan is Some {
                            1int
                        } else {
                            0int
                        }) + (if lscan is Some {
                            1int
                        } else {
                            0int
                        })
                        &&& (rscan matches Some(rp) ==> v@[1].branch_id == rp.0.spec_id() && q_eq(
                            v@[1].length@,
                            rp.1,
                        ))
                        &&& (lscan matches Some(lp) ==> v@[v@.len() - 1].branch_id
                            == lp.0.spec_id() && q_eq(v@[v@.len() - 1].length@, lp.1))
                    }
            },
            r == Result::<Vec<BranchRect>, TreeError>::Err(TreeError::BranchNotFound)
                <==> !has_branch(tree.spec_branches(), self.spec_position().spec_branch_id()),
    {
        let ghost s = tree.spec_branches();
        let current_branch = match tree.get_branch(self.pos.get_branch_id()) {
            Ok(b) => b,
            Err(e) => {
                return Result::Err(e);
            },
        };
        let one = Rat::from_int(1);
        let player_color = Color4 { red: one, green: one, blue: one, alpha: one };
        let current_branch_pos = self.pos.get_branch_position();
        let centre_part = BranchRect {
            branch_id: self.pos.get_branch_id(),
            length: self.length,
            height: self.height,
            pos: current_branch_pos,
            color: player_color,
        };
        let mut output: Vec<BranchRect> = Vec::new();
        output.push(centre_part);
        let two = Rat::from_int(2);
        let half_length = match self.length.div(two) {
            Some(v) => v,
            None => {
                return Result::Err(TreeError::NumericOverflow);
            },
        };
        let right_tip = match current_branch_pos.add(Point2::new(half_length, Rat::zero())) {
            Some(p) => p,
            None => {
                return Result::Err(TreeError::NumericOverflow);
            },
        };
        proof {
            lemma_reduction_eq(half_length@, q_div(self.spec_length()@, (2int, 1int)));
            lemma_q_ops_wf(self.spec_length()@, (2int, 1int));
            lemma_reduction_refl(current_branch_pos.x@);
            lemma_reduction_refl(current_branch_pos.y@);
            crate::rat::lemma_red_add(
                current_branch_pos.x@,
                current_branch_pos.x@,
                half_length@,
                q_div(self.spec_length()@, (2int, 1int)),
            );
            lemma_reduction_trans(
                right_tip.x@,
                q_add(current_branch_pos.x@, half_length@),
                q_add(current_branch_pos.x@, q_div(self.spec_length()@, (2int, 1int))),
            );
            lemma_reduction_eq(
                right_tip.x@,
                q_add(current_branch_pos.x@, q_div(self.spec_length()@, (2int, 1int))),
            );
            lemma_q_ops_wf(
                current_branch_pos.x@,
                q_div(self.spec_length()@, (2int, 1int)),
            );
            assert(q_add(current_branch_pos.y@, (0int, 1int)) == current_branch_pos.y@);
            lemma_reduction_eq(right_tip.y@, current_branch_pos.y@);
        }
        let center_right_line = Line::new(current_branch_pos, right_tip);
        let ghost rline = center_right_line;
        let ghost rscan = spec_boundary_scan(
            current_branch.spec_connections(),
            0,
            rline,
            current_branch.spec_logical(),
        );
        match current_branch.get_boundary_intersect(center_right_line) {
            Ok(Some(intersect)) => {
                proof {
                    assert(exists|m: int|
                        0 <= m < current_branch.spec_connections().len() && (
                        #[trigger] current_branch.spec_connections()[m]) == intersect.connection);
                }
                let right_part = match self.get_side_object(intersect, tree) {
                    Ok(p) => p,
                    Err(e) => {
                        return Result::Err(e);
                    },
                };
                output.push(right_part);
            },
            Ok(None) => {},
            Err(e) => {
                return Result::Err(e);
            },
        }
        let ghost right_count = output@.len() - 1;
        let left_tip = match current_branch_pos.sub(Point2::new(half_length, Rat::zero())) {
            Some(p) => p,
            None => {
                return Result::Err(TreeError::NumericOverflow);
            },
        };
        proof {
            crate::rat::lemma_red_sub(
                current_branch_pos.x@,
                current_branch_pos.x@,
                half_length@,
                q_div(self.spec_length()@, (2int, 1int)),
            );
            lemma_reduction_trans(
                left_tip.x@,
                q_sub(current_branch_pos.x@, half_length@),
                q_sub(current_branch_pos.x@, q_div(self.spec_length()@, (2int, 1int))),
            );
            lemma_reduction_eq(
                left_tip.x@,
                q_sub(current_branch_pos.x@, q_div(self.spec_length()@, (2int, 1int))),
            );
            assert(q_sub(current_branch_pos.y@, (0int, 1int)) == current_branch_pos.y@);
            lemma_reduction_eq(left_tip.y@, current_branch_pos.y@);
        }
        let center_left_line = Line::new(current_branch_pos, left_tip);
        let ghost lline = center_left_line;
        let ghost lscan = spec_boundary_scan(
            current_branch.spec_connections(),
            0,
            lline,
            current_branch.spec_logical(),
        );
        match current_branch.get_boundary_intersect(center_left_line) {
            Ok(Some(intersect)) => {
                proof {
                    assert(exists|m: int|
                        0 <= m < current_branch.spec_connections().len() && (
                        #[trigger] current_branch.spec_connections()[m]) == intersect.connection);
                }
                let left_part = match self.get_side_object(intersect, tree) {
                    Ok(p) => p,
                    Err(e) => {
                        return Result::Err(e);
                    },
                };
                output.push(left_part);
            },
            Ok(None) => {},
            Err(e) => {
                return Result::Err(e);
            },
        }
        proof {
            assert(rline.wf());
            assert(lline.wf());
            assert(output@.len() == 1 + (if rscan is Some {
                1int
            } else {
                0int
            }) + (if lscan is Some {
                1int
            } else {
                0int
            }));
        }
        Result::Ok(output)
    }

    /// The rectangle this player occupies on the far side of a crossed
    /// boundary: as long as the overhang, as tall as the player, placed
    /// on the connected branch with the lateral coordinate fitted between
    /// the two scaled boundary ranges, half the overhang in from the
    /// receiving end.
    fn get_side_object(&self, intersect: ConnectionIntersect, tree: &TreeData) -> (r: Result<
        BranchRect,
        TreeError,
    >)
        requires
            tree.wf(),
            self.wf(),
            intersect.connection.wf(),
            q_wf(intersect.overlap@),
            has_branch(tree.spec_branches(), self.spec_position().spec_branch_id()),
            exists|m: int|
                0 <= m < spec_branch(
                    tree.spec_branches(),
                    self.spec_position().spec_branch_id(),
                ).spec_connections().len() && (#[trigger] spec_branch(
                    tree.spec_branches(),
                    self.spec_position().spec_branch_id(),
                ).spec_connections()[m]) == intersect.connection,
        ensures
            r matches Err(e) ==> e == TreeError::MissingReciprocal || e
                == TreeError::DegenerateBoundary || e == TreeError::NumericOverflow,
            r matches Ok(br) ==> {
                let s = tree.spec_branches();
                let cb = spec_branch(s, self.spec_position().spec_branch_id());
                let nb = spec_branch(s, intersect.connection.spec_id());
                let sca = q_boundary_scale(
                    cb.spec_logical(),
                    intersect.connection.spec_boundary().spec_is_left(),
                );
                let ss = q_mul(intersect.connection.spec_boundary().spec_start()@, sca);
                let se = q_mul(intersect.connection.spec_boundary().spec_end()@, sca);
                &&& br.wf()
                &&& br.branch_id == intersect.connection.spec_id()
                &&& br.length == intersect.overlap
                &&& br.height == self.spec_height()
                &&& has_branch(s, intersect.connection.spec_id())
                &&& has_branch(s, self.spec_position().spec_branch_id())
                &&& (intersect.connection.spec_boundary().spec_is_left() ==> q_eq(
                    br.pos.x@,
                    q_sub(nb.spec_logical().length@, q_div(intersect.overlap@, (2int, 1int))),
                ))
                &&& (!intersect.connection.spec_boundary().spec_is_left() ==> q_eq(
                    br.pos.x@,
                    q_div(intersect.overlap@, (2int, 1int)),
                ))
                &&& (crate::tree::find_back(
                    nb.spec_connections(),
                    0,
                    self.spec_position().spec_branch_id(),
                ) matches Ok(mc) && !q_eq(ss, se) && q_eq(
                    br.pos.y@,
                    q_fit_val(
                        self.spec_position().spec_branch_position().y@,
                        ss,
                        se,
                        q_mul(
                            mc.spec_boundary().spec_start()@,
                            q_boundary_scale(
                                nb.spec_logical(),
                                mc.spec_boundary().spec_is_left(),
                            ),
                        ),
                        q_mul(
                            mc.spec_boundary().spec_end()@,
                            q_boundary_scale(
                                nb.spec_logical(),
                                mc.spec_boundary().spec_is_left(),
                            ),
                        ),
                    ),
                ))
            },
    {
        let ghost s = tree.spec_branches();
        proof {
            let cb = spec_branch(s, self.spec_position().spec_branch_id());
            let bi = crate::tree::branch_index(s, self.spec_position().spec_branch_id());
            assert(0 <= bi < s.len() && s[bi] == cb);
            let m = choose|m: int|
                0 <= m < cb.spec_connections().len() && (#[trigger] cb.spec_connections()[m])
                    == intersect.connection;
            assert(has_branch(s, s[bi].spec_connections()[m].spec_id()));
            assert(has_branch(s, intersect.connection.spec_id()));
        }
        let current_branch = match tree.get_branch(self.pos.get_branch_id()) {
            Ok(b) => b,
            Err(e) => {
                return Result::Err(e);
            },
        };
        let current_branch_pos = self.pos.get_branch_position();
        let side_length = intersect.overlap;
        let current_branch_interval = match current_branch.get_logical_boundary_interval(
            intersect.connection.get_boundary(),
        ) {
            Ok(iv) => iv,
            Err(e) => {
                return Result::Err(e);
            },
        };
        let side_branch = match tree.get_branch(intersect.connection.get_branch_id()) {
            Ok(b) => b,
            Err(e) => {
                return Result::Err(e);
            },
        };
        let side_connection = match tree.get_matching_connection(
            current_branch.get_id(),
            &intersect.connection,
        ) {
            Ok(c) => c,
            Err(e) => {
                proof {
                    crate::tree::lemma_find_back_err(
                        spec_branch(s, intersect.connection.spec_id()).spec_connections(),
                        0,
                        current_branch.spec_id(),
                    );
                }
                return Result::Err(e);
            },
        };
        proof {
            crate::tree::lemma_find_back_mem(
                side_branch.spec_connections(),
                0,
                current_branch.spec_id(),
                side_connection,
            );
        }
        let side_branch_interval = match side_branch.get_logical_boundary_interval(
            side_connection.get_boundary(),
        ) {
            Ok(iv) => iv,
            Err(e) => {
                return Result::Err(e);
            },
        };
        let ghost sca = q_boundary_scale(
            current_branch.spec_logical(),
            intersect.connection.spec_boundary().spec_is_left(),
        );
        let ghost scb = q_boundary_scale(
            side_branch.spec_logical(),
            side_connection.spec_boundary().spec_is_left(),
        );
        let ghost ss = q_mul(intersect.connection.spec_boundary().spec_start()@, sca);
        let ghost se = q_mul(intersect.connection.spec_boundary().spec_end()@, sca);
        let ghost ds = q_mul(side_connection.spec_boundary().spec_start()@, scb);
        let ghost de = q_mul(side_connection.spec_boundary().spec_end()@, scb);
        proof {
            lemma_reduction_eq(current_branch_interval.start@, ss);
            lemma_reduction_eq(current_branch_interval.end@, se);
            lemma_cmp_congruence(
                current_branch_interval.start@,
                ss,
                current_branch_interval.end@,
                se,
            );
        }
        if current_branch_interval.get_start().value_eq(current_branch_interval.get_end()) {
            return Result::Err(TreeError::DegenerateBoundary);
        }
        proof {
            lemma_reduction_refl(current_branch_pos.y@);
            crate::interval::lemma_fit_reduction(
                current_branch_pos.y@,
                current_branch_pos.y@,
                current_branch_interval.start@,
                ss,
                current_branch_interval.end@,
                se,
                side_branch_interval.start@,
                ds,
                side_branch_interval.end@,
                de,
            );
        }
        let new_y_pos = match current_branch_interval.fit_point_to(
            current_branch_pos.y,
            side_branch_interval,
        ) {
            Some(v) => v,
            None => {
                return Result::Err(TreeError::NumericOverflow);
            },
        };
        proof {
            lemma_reduction_trans(
                new_y_pos@,
                q_fit_val(
                    current_branch_pos.y@,
                    current_branch_interval.start@,
                    current_branch_interval.end@,
                    side_branch_interval.start@,
                    side_branch_interval.end@,
                ),
                q_fit_val(current_branch_pos.y@, ss, se, ds, de),
            );
            lemma_reduction_eq(new_y_pos@, q_fit_val(current_branch_pos.y@, ss, se, ds, de));
        }
        let two = Rat::from_int(2);
        let half_overlap = match intersect.overlap.div(two) {
            Some(v) => v,
            None => {
                return Result::Err(TreeError::NumericOverflow);
            },
        };
        proof {
            lemma_reduction_eq(half_overlap@, q_div(intersect.overlap@, (2int, 1int)));
            lemma_q_ops_wf(intersect.overlap@, (2int, 1int));
        }
        let new_x_pos = match intersect.connection.get_boundary() {
            crate::connection::Boundary::Left(_, _) => {
                let len = side_branch.get_logical().length;
                proof {
                    lemma_reduction_refl(len@);
                    lemma_red_sub(
                        len@,
                        len@,
                        half_overlap@,
                        q_div(intersect.overlap@, (2int, 1int)),
                    );
                    lemma_q_ops_wf(len@, half_overlap@);
                    lemma_q_ops_wf(len@, q_div(intersect.overlap@, (2int, 1int)));
                }
                match len.sub(half_overlap) {
                    Some(v) => {
                        proof {
                            lemma_reduction_trans(
                                v@,
                                q_sub(len@, half_overlap@),
                                q_sub(len@, q_div(intersect.overlap@, (2int, 1int))),
                            );
                            lemma_reduction_eq(
                                v@,
                                q_sub(len@, q_div(intersect.overlap@, (2int, 1int))),
                            );
                        }
                        v
                    },
                    None => {
                        return Result::Err(TreeError::NumericOverflow);
                    },
                }
            },
            crate::connection::Boundary::Right(_, _) => half_overlap,
        };
        let one = Rat::from_int(1);
        let player_color = Color4 { red: one, green: one, blue: one, alpha: one };
        let side_position = Point2::new(new_x_pos, new_y_pos);
        Result::Ok(
            BranchRect {
                branch_id: side_branch.get_id(),
                length: side_length,
                height: self.height,
                pos: side_position,
                color: player_color,
            },
        )
    }
}

impl Movable for Player {
    closed spec fn spec_position(&self) -> Position {
        self.pos
    }

    fn get_position(&self) -> (r: Position) {
        self.pos
    }

    fn set_position(&mut self, new_pos: Position) {
        self.pos = new_pos;
    }
}

} // verus!
