//! A branch: its identity, logical frame, visual description and outgoing
//! connections, with the boundary queries the movement algorithm relies on.

use vstd::prelude::*;
use crate::branch_id::BranchId;
use crate::connection::{Boundary, Connection};
use crate::error::TreeError;
use crate::interval::Interval;
use crate::interval::q_contains;
use crate::line::{line_line_intersect, q_isect_det, q_isect_snum, q_isect_tnum, Line};
use crate::logical::LogicalSpec;
use crate::point::Point2;
use crate::rat::Rat;
use crate::rat::{q_abs, q_add, q_div, q_eq, q_fits, q_mul, q_neg, q_one, q_reduction_of, q_sub,
    q_two, q_wf, q_zero};
use crate::rat::{
    lemma_q_ops_wf, lemma_red_mul, lemma_reduction_eq, lemma_reduction_fits,
    lemma_reduction_refl, lemma_reduction_trans,
};
use crate::visual::{q_trunk_length, q_trunk_width, q_visual_ok, VisualSpec};

verus! {

/// Which end of a branch a query speaks of.
#[derive(Clone, Copy, Debug, PartialEq, Eq, Structural)]
pub enum BranchSide {
    Left,
    Right,
}

/// The role a branch plays at its level of the tree.
#[derive(Clone, Copy, Debug, PartialEq, Eq, Structural)]
pub enum BranchType {
    Trunk,
    BranchTop,
    BranchBottom,
}

/// The factor that turns a boundary's declared range into lateral units of
/// the owning branch: half the width of the queried end.
pub open spec fn q_boundary_scale(l: LogicalSpec, left: bool) -> (int, int) {
    if left {
        q_div(l.left_width@, q_two())
    } else {
        q_div(l.right_width@, q_two())
    }
}

/// The scan that `get_connection` performs, as a value-level function:
/// walk the connections from index `i`, keep those on the requested side
/// whose scaled range contains `y`, and fail on a second match. `acc`
/// holds the match found so far.
pub open spec fn spec_find_conn(
    conns: Seq<Connection>,
    i: int,
    left: bool,
    y: (int, int),
    sc: (int, int),
    acc: Option<Connection>,
) -> Result<Option<Connection>, TreeError>
    decreases conns.len() - i,
{
    if i < 0 || i >= conns.len() {
        Result::Ok(acc)
    } else {
        let c = conns[i];
        if c.spec_boundary().spec_is_left() != left {
            spec_find_conn(conns, i + 1, left, y, sc, acc)
        } else {
            let lo = q_mul(c.spec_boundary().spec_start()@, sc);
            let hi = q_mul(c.spec_boundary().spec_end()@, sc);
            if q_contains(lo, hi, y) {
                if acc is Some {
                    Result::Err(TreeError::OverlappingConnections)
                } else {
                    spec_find_conn(conns, i + 1, left, y, sc, Some(c))
                }
            } else {
                spec_find_conn(conns, i + 1, left, y, sc, acc)
            }
        }
    }
}

/// The connection covering lateral position `y` on the given side, at most
/// one of which may exist.
pub open spec fn spec_get_connection(
    conns: Seq<Connection>,
    left: bool,
    y: (int, int),
    sc: (int, int),
) -> Result<Option<Connection>, TreeError> {
    spec_find_conn(conns, 0, left, y, sc, None)
}

/// Some connection on the requested side has a scaled range end that
/// cannot be represented; only then may the executable scan report a
/// numeric overflow instead of the value-level answer.
pub open spec fn spec_scale_overflow(conns: Seq<Connection>, left: bool, sc: (int, int)) -> bool {
    exists|j: int|
        0 <= j < conns.len() && (#[trigger] conns[j]).spec_boundary().spec_is_left() == left && (
        !q_fits(q_mul(conns[j].spec_boundary().spec_start()@, sc)) || !q_fits(
            q_mul(conns[j].spec_boundary().spec_end()@, sc),
        ))
}

/// The scan only reads the value of `y`: representations of the same
/// rational value give the same answer.
pub proof fn lemma_find_conn_congruence(
    conns: Seq<Connection>,
    i: int,
    left: bool,
    y: (int, int),
    y2: (int, int),
    sc: (int, int),
    acc: Option<Connection>,
)
    requires
        q_wf(y),
        q_wf(y2),
        q_wf(sc),
        q_eq(y, y2),
        forall|j: int| 0 <= j < conns.len() ==> (#[trigger] conns[j]).wf(),
    ensures
        spec_find_conn(conns, i, left, y, sc, acc) == spec_find_conn(conns, i, left, y2, sc, acc),
    decreases conns.len() - i,
{
    if 0 <= i < conns.len() {
        let c = conns[i];
        if c.spec_boundary().spec_is_left() == left {
            let lo = q_mul(c.spec_boundary().spec_start()@, sc);
            let hi = q_mul(c.spec_boundary().spec_end()@, sc);
            lemma_q_ops_wf(c.spec_boundary().spec_start()@, sc);
            lemma_q_ops_wf(c.spec_boundary().spec_end()@, sc);
            crate::rat::lemma_cmp_congruence(lo, lo, y, y2);
            crate::rat::lemma_cmp_congruence(y, y2, hi, hi);
            lemma_find_conn_congruence(conns, i + 1, left, y, y2, sc, acc);
            lemma_find_conn_congruence(conns, i + 1, left, y, y2, sc, Some(c));
        } else {
            lemma_find_conn_congruence(conns, i + 1, left, y, y2, sc, acc);
        }
    }
}

/// A connection delivered by the scan is one of the scanned connections
/// (or was already the accumulator).
pub proof fn lemma_find_conn_mem(
    conns: Seq<Connection>,
    i: int,
    left: bool,
    y: (int, int),
    sc: (int, int),
    acc: Option<Connection>,
    c: Connection,
)
    requires
        spec_find_conn(conns, i, left, y, sc, acc) == Result::<
            Option<Connection>,
            TreeError,
        >::Ok(Some(c)),
    ensures
        (exists|m: int| 0 <= m < conns.len() && conns[m] == c) || acc == Some(c),
    decreases conns.len() - i,
{
    if 0 <= i < conns.len() {
        let cc = conns[i];
        if cc.spec_boundary().spec_is_left() != left {
            lemma_find_conn_mem(conns, i + 1, left, y, sc, acc, c);
        } else {
            let lo = q_mul(cc.spec_boundary().spec_start()@, sc);
            let hi = q_mul(cc.spec_boundary().spec_end()@, sc);
            if q_contains(lo, hi, y) {
                if acc is Some {
                } else {
                    lemma_find_conn_mem(conns, i + 1, left, y, sc, Some(cc), c);
                }
            } else {
                lemma_find_conn_mem(conns, i + 1, left, y, sc, acc, c);
            }
        }
    }
}

/// The boundary's fixed along-branch coordinate in the owning branch's
/// frame: zero for a left boundary, the length for a right one.
pub open spec fn q_bl_x(l: LogicalSpec, c: Connection) -> (int, int) {
    if c.spec_boundary().spec_is_left() {
        q_zero()
    } else {
        l.length@
    }
}

/// The lower end of the boundary's scaled lateral range.
pub open spec fn q_bl_y0(l: LogicalSpec, c: Connection) -> (int, int) {
    q_mul(
        c.spec_boundary().spec_start()@,
        q_boundary_scale(l, c.spec_boundary().spec_is_left()),
    )
}

/// The upper end of the boundary's scaled lateral range.
pub open spec fn q_bl_y1(l: LogicalSpec, c: Connection) -> (int, int) {
    q_mul(
        c.spec_boundary().spec_end()@,
        q_boundary_scale(l, c.spec_boundary().spec_is_left()),
    )
}

/// The determinant of the segment against the boundary's vertical
/// segment.
pub open spec fn q_sb_det(line: Line, l: LogicalSpec, c: Connection) -> (int, int) {
    q_sub(
        q_mul(q_sub(line.p1.x@, line.p0.x@), q_sub(q_bl_y1(l, c), q_bl_y0(l, c))),
        q_mul(q_sub(line.p1.y@, line.p0.y@), q_sub(q_bl_x(l, c), q_bl_x(l, c))),
    )
}

/// The numerator of the intersection parameter along the segment.
pub open spec fn q_sb_tnum(line: Line, l: LogicalSpec, c: Connection) -> (int, int) {
    q_sub(
        q_mul(q_sub(q_bl_x(l, c), line.p0.x@), q_sub(q_bl_y1(l, c), q_bl_y0(l, c))),
        q_mul(q_sub(q_bl_y0(l, c), line.p0.y@), q_sub(q_bl_x(l, c), q_bl_x(l, c))),
    )
}

/// The numerator of the intersection parameter along the boundary.
pub open spec fn q_sb_snum(line: Line, l: LogicalSpec, c: Connection) -> (int, int) {
    q_sub(
        q_mul(q_sub(q_bl_x(l, c), line.p0.x@), q_sub(line.p1.y@, line.p0.y@)),
        q_mul(q_sub(q_bl_y0(l, c), line.p0.y@), q_sub(line.p1.x@, line.p0.x@)),
    )
}

/// Where the segment crosses this connection's boundary, if it does:
/// `None` when the supporting lines are parallel or either intersection
/// parameter leaves `[0, 1]`; otherwise the overhang past the boundary,
/// the absolute `x` distance from the intersection point to the
/// segment's end.
pub open spec fn spec_single_intersect(line: Line, l: LogicalSpec, c: Connection) -> Option<
    (int, int),
> {
    let det = q_sb_det(line, l, c);
    let t = q_div(q_sb_tnum(line, l, c), det);
    let sp = q_div(q_sb_snum(line, l, c), det);
    if q_eq(det, q_zero()) {
        None
    } else if q_contains(q_zero(), q_one(), t) && q_contains(q_zero(), q_one(), sp) {
        Some(
            q_abs(
                q_sub(
                    crate::logical::q_lerp(line.p0.x@, line.p1.x@, q_one()),
                    crate::logical::q_lerp(line.p0.x@, line.p1.x@, t),
                ),
            ),
        )
    } else {
        None
    }
}

/// Every value of the boundary-crossing chain fits the representation,
/// so the executable query is guaranteed to deliver an answer.
pub open spec fn spec_single_fits(line: Line, l: LogicalSpec, c: Connection) -> bool {
    let xb = q_bl_x(l, c);
    let y0 = q_bl_y0(l, c);
    let y1 = q_bl_y1(l, c);
    let det = q_sb_det(line, l, c);
    let t = q_div(q_sb_tnum(line, l, c), det);
    let sp = q_div(q_sb_snum(line, l, c), det);
    &&& q_fits(y0) && q_fits(y1)
    &&& q_fits(q_sub(line.p1.x@, line.p0.x@)) && q_fits(q_sub(line.p1.y@, line.p0.y@))
    &&& q_fits(q_sub(xb, xb)) && q_fits(q_sub(y1, y0))
    &&& q_fits(q_sub(xb, line.p0.x@)) && q_fits(q_sub(y0, line.p0.y@))
    &&& q_fits(q_mul(q_sub(line.p1.x@, line.p0.x@), q_sub(y1, y0)))
    &&& q_fits(q_mul(q_sub(line.p1.y@, line.p0.y@), q_sub(xb, xb)))
    &&& q_fits(q_mul(q_sub(xb, line.p0.x@), q_sub(y1, y0)))
    &&& q_fits(q_mul(q_sub(y0, line.p0.y@), q_sub(xb, xb)))
    &&& q_fits(q_mul(q_sub(xb, line.p0.x@), q_sub(line.p1.y@, line.p0.y@)))
    &&& q_fits(q_mul(q_sub(y0, line.p0.y@), q_sub(line.p1.x@, line.p0.x@)))
    &&& q_fits(det) && q_fits(q_sb_tnum(line, l, c)) && q_fits(q_sb_snum(line, l, c))
    &&& (!q_eq(det, q_zero()) ==> q_fits(t) && q_fits(sp))
    &&& (!q_eq(det, q_zero()) && q_contains(q_zero(), q_one(), t) && q_contains(
        q_zero(),
        q_one(),
        sp,
    ) ==> {
        &&& crate::logical::q_lerp_ok(line.p0.x@, line.p1.x@, q_one())
        &&& crate::logical::q_lerp_ok(line.p0.y@, line.p1.y@, q_one())
        &&& crate::logical::q_lerp_ok(line.p0.x@, line.p1.x@, t)
        &&& crate::logical::q_lerp_ok(line.p0.y@, line.p1.y@, t)
        &&& q_fits(
            q_sub(
                crate::logical::q_lerp(line.p0.x@, line.p1.x@, q_one()),
                crate::logical::q_lerp(line.p0.x@, line.p1.x@, t),
            ),
        )
        &&& q_fits(
            q_abs(
                q_sub(
                    crate::logical::q_lerp(line.p0.x@, line.p1.x@, q_one()),
                    crate::logical::q_lerp(line.p0.x@, line.p1.x@, t),
                ),
            ),
        )
    })
}

/// The first connection whose boundary the segment crosses, scanning from
/// index `i`, with the overhang value.
pub open spec fn spec_boundary_scan(
    conns: Seq<Connection>,
    i: int,
    line: Line,
    l: LogicalSpec,
) -> Option<(Connection, (int, int))>
    decreases conns.len() - i,
{
    if i < 0 || i >= conns.len() {
        None
    } else {
        match spec_single_intersect(line, l, conns[i]) {
            Some(ov) => Some((conns[i], ov)),
            None => spec_boundary_scan(conns, i + 1, line, l),
        }
    }
}

/// Every connection's crossing chain fits, so the executable scan is
/// guaranteed to deliver an answer.
pub open spec fn spec_scan_fits(conns: Seq<Connection>, line: Line, l: LogicalSpec) -> bool {
    forall|j: int| 0 <= j < conns.len() ==> spec_single_fits(line, l, #[trigger] conns[j])
}

/// The executable intersection quantities computed against a stored
/// boundary segment are reductions of the value-level quantities, and a
/// fitting value-level chain makes the executable chain fit.
proof fn lemma_single_bridge(line: Line, bl: Line, l: LogicalSpec, c: Connection)
    requires
        line.wf(),
        bl.wf(),
        l.wf(),
        c.wf(),
        bl.p0.x@ == q_bl_x(l, c),
        bl.p1.x@ == q_bl_x(l, c),
        q_reduction_of(bl.p0.y@, q_bl_y0(l, c)),
        q_reduction_of(bl.p1.y@, q_bl_y1(l, c)),
    ensures
        q_reduction_of(q_isect_det(line, bl), q_sb_det(line, l, c)),
        q_reduction_of(q_isect_tnum(line, bl), q_sb_tnum(line, l, c)),
        q_reduction_of(q_isect_snum(line, bl), q_sb_snum(line, l, c)),
        q_wf(q_isect_det(line, bl)),
        q_wf(q_isect_tnum(line, bl)),
        q_wf(q_isect_snum(line, bl)),
        q_wf(q_sb_det(line, l, c)),
        q_wf(q_sb_tnum(line, l, c)),
        q_wf(q_sb_snum(line, l, c)),
        spec_single_fits(line, l, c) ==> crate::line::q_isect_ok(line, bl),
{
    let xb = q_bl_x(l, c);
    let y0 = q_bl_y0(l, c);
    let y1 = q_bl_y1(l, c);
    let d1x = q_sub(line.p1.x@, line.p0.x@);
    let d1y = q_sub(line.p1.y@, line.p0.y@);
    let d2x = q_sub(xb, xb);
    let wx = q_sub(xb, line.p0.x@);
    lemma_q_ops_wf(line.p1.x@, line.p0.x@);
    lemma_q_ops_wf(line.p1.y@, line.p0.y@);
    lemma_q_ops_wf(xb, xb);
    lemma_q_ops_wf(xb, line.p0.x@);
    lemma_q_ops_wf(bl.p1.y@, bl.p0.y@);
    lemma_q_ops_wf(bl.p0.y@, line.p0.y@);
    lemma_reduction_eq(bl.p0.y@, y0);
    lemma_reduction_eq(bl.p1.y@, y1);
    lemma_q_ops_wf(y1, y0);
    lemma_q_ops_wf(y0, line.p0.y@);
    lemma_reduction_refl(d1x);
    lemma_reduction_refl(d1y);
    lemma_reduction_refl(d2x);
    lemma_reduction_refl(wx);
    crate::rat::lemma_red_sub(bl.p1.y@, y1, bl.p0.y@, y0);
    lemma_reduction_refl(line.p0.y@);
    crate::rat::lemma_red_sub(bl.p0.y@, y0, line.p0.y@, line.p0.y@);
    let d2ya = q_sub(bl.p1.y@, bl.p0.y@);
    let d2yv = q_sub(y1, y0);
    let wya = q_sub(bl.p0.y@, line.p0.y@);
    let wyv = q_sub(y0, line.p0.y@);
    lemma_red_mul(d1x, d1x, d2ya, d2yv);
    lemma_red_mul(d1y, d1y, d2x, d2x);
    lemma_red_mul(wx, wx, d2ya, d2yv);
    lemma_red_mul(wya, wyv, d2x, d2x);
    lemma_red_mul(wx, wx, d1y, d1y);
    lemma_red_mul(wya, wyv, d1x, d1x);
    crate::rat::lemma_red_sub(
        q_mul(d1x, d2ya),
        q_mul(d1x, d2yv),
        q_mul(d1y, d2x),
        q_mul(d1y, d2x),
    );
    crate::rat::lemma_red_sub(
        q_mul(wx, d2ya),
        q_mul(wx, d2yv),
        q_mul(wya, d2x),
        q_mul(wyv, d2x),
    );
    crate::rat::lemma_red_sub(
        q_mul(wx, d1y),
        q_mul(wx, d1y),
        q_mul(wya, d1x),
        q_mul(wyv, d1x),
    );
    lemma_q_ops_wf(d1x, d2ya);
    lemma_q_ops_wf(d1y, d2x);
    lemma_q_ops_wf(wx, d2ya);
    lemma_q_ops_wf(wya, d2x);
    lemma_q_ops_wf(wx, d1y);
    lemma_q_ops_wf(wya, d1x);
    lemma_q_ops_wf(q_mul(d1x, d2ya), q_mul(d1y, d2x));
    lemma_q_ops_wf(q_mul(wx, d2ya), q_mul(wya, d2x));
    lemma_q_ops_wf(q_mul(wx, d1y), q_mul(wya, d1x));
    lemma_q_ops_wf(d1x, d2yv);
    lemma_q_ops_wf(wx, d2yv);
    lemma_q_ops_wf(wyv, d2x);
    lemma_q_ops_wf(wyv, d1x);
    lemma_q_ops_wf(q_mul(d1x, d2yv), q_mul(d1y, d2x));
    lemma_q_ops_wf(q_mul(wx, d2yv), q_mul(wyv, d2x));
    lemma_q_ops_wf(q_mul(wx, d1y), q_mul(wyv, d1x));
    assert(q_isect_det(line, bl) == q_sub(q_mul(d1x, d2ya), q_mul(d1y, d2x)));
    assert(q_isect_tnum(line, bl) == q_sub(q_mul(wx, d2ya), q_mul(wya, d2x)));
    assert(q_isect_snum(line, bl) == q_sub(q_mul(wx, d1y), q_mul(wya, d1x)));
    if spec_single_fits(line, l, c) {
        lemma_reduction_fits(d2ya, d2yv);
        lemma_reduction_fits(wya, wyv);
        lemma_reduction_fits(q_mul(d1x, d2ya), q_mul(d1x, d2yv));
        lemma_reduction_fits(q_mul(wx, d2ya), q_mul(wx, d2yv));
        lemma_reduction_fits(q_mul(wya, d2x), q_mul(wyv, d2x));
        lemma_reduction_fits(q_mul(wya, d1x), q_mul(wyv, d1x));
        lemma_reduction_fits(q_isect_det(line, bl), q_sb_det(line, l, c));
        lemma_reduction_fits(q_isect_tnum(line, bl), q_sb_tnum(line, l, c));
        lemma_reduction_fits(q_isect_snum(line, bl), q_sb_snum(line, l, c));
        if !q_eq(q_isect_det(line, bl), q_zero()) {
            lemma_reduction_eq(q_isect_det(line, bl), q_sb_det(line, l, c));
            crate::rat::lemma_red_div(
                q_isect_tnum(line, bl),
                q_sb_tnum(line, l, c),
                q_isect_det(line, bl),
                q_sb_det(line, l, c),
            );
            crate::rat::lemma_red_div(
                q_isect_snum(line, bl),
                q_sb_snum(line, l, c),
                q_isect_det(line, bl),
                q_sb_det(line, l, c),
            );
            lemma_q_ops_wf(q_isect_tnum(line, bl), q_isect_det(line, bl));
            lemma_q_ops_wf(q_isect_snum(line, bl), q_isect_det(line, bl));
            lemma_reduction_fits(
                q_div(q_isect_tnum(line, bl), q_isect_det(line, bl)),
                q_div(q_sb_tnum(line, l, c), q_sb_det(line, l, c)),
            );
            lemma_reduction_fits(
                q_div(q_isect_snum(line, bl), q_isect_det(line, bl)),
                q_div(q_sb_snum(line, l, c), q_sb_det(line, l, c)),
            );
        }
    }
}

/// A branch: identity, visual description, logical frame, and the
/// connections leaving it. Owned exclusively by the tree; immutable once
/// construction has finished.
#[derive(Debug)]
pub struct TreeBranch {
    id: BranchId,
    visual: VisualSpec,
    logical: LogicalSpec,
    connections: Vec<Connection>,
}

impl TreeBranch {
    /// The branch's identity.
    pub closed spec fn spec_id(self) -> BranchId {
        self.id
    }

    /// The branch's visual description.
    pub closed spec fn spec_visual(self) -> VisualSpec {
        self.visual
    }

    /// The branch's logical frame.
    pub closed spec fn spec_logical(self) -> LogicalSpec {
        self.logical
    }

    /// The connections leaving this branch, in insertion order.
    pub closed spec fn spec_connections(self) -> Seq<Connection> {
        self.connections@
    }

    /// The frame is well formed and every connection's range is.
    pub open spec fn wf(self) -> bool {
        &&& self.spec_logical().wf()
        &&& self.spec_visual().wf()
        &&& forall|i: int|
            0 <= i < self.spec_connections().len() ==> (#[trigger] self.spec_connections()[i]).wf()
    }

    /// Build a branch of the given role at the given place. The trunk's
    /// frame is a unit-wide rectangle of length one half; a child's frame
    /// is a trapezoid opening from width one half to width one over length
    /// one. `None` only when the visual description cannot be represented
    /// at this depth.
    pub fn new(
        id: BranchId,
        pos: Point2,
        branch_type: BranchType,
        vertical_fill: Rat,
        horizontal_fill: Rat,
    ) -> (r: Option<TreeBranch>)
        requires
            id.layer < usize::MAX,
            pos.wf(),
            vertical_fill.wf(),
            horizontal_fill.wf(),
        ensures
            q_visual_ok(vertical_fill@, horizontal_fill@, id.layer as nat, branch_type) ==> r
                is Some,
            r matches Some(b) ==> {
                &&& b.wf()
                &&& b.spec_id() == id
                &&& b.spec_connections().len() == 0
                &&& match branch_type {
                    BranchType::Trunk => b.spec_logical().left_width@ == (1int, 1int)
                        && b.spec_logical().right_width@ == (1int, 1int)
                        && b.spec_logical().length@ == (1int, 2int),
                    _ => b.spec_logical().left_width@ == (1int, 2int)
                        && b.spec_logical().right_width@ == (1int, 1int)
                        && b.spec_logical().length@ == (1int, 1int),
                }
                &&& b.spec_visual().patch.pos == pos
                &&& q_reduction_of(
                    b.spec_visual().patch.width@,
                    match branch_type {
                        BranchType::Trunk => q_mul(
                            q_trunk_width(vertical_fill@, id.layer as nat),
                            q_two(),
                        ),
                        _ => q_trunk_width(vertical_fill@, id.layer as nat),
                    },
                )
                &&& b.spec_visual().patch.vert_dir.x@ == q_zero()
                    && b.spec_visual().patch.vert_dir.y@ == q_one()
                &&& b.spec_visual().patch.control.p0.x@ == q_zero()
                    && b.spec_visual().patch.control.p0.y@ == q_zero()
                &&& q_reduction_of(
                    b.spec_visual().patch.control.p1.x@,
                    q_trunk_length(horizontal_fill@, id.layer as nat),
                )
                &&& q_reduction_of(
                    b.spec_visual().patch.control.p2.x@,
                    q_mul(q_trunk_length(horizontal_fill@, id.layer as nat), q_two()),
                )
                &&& match branch_type {
                    BranchType::Trunk => b.spec_visual().patch.control.p1.y@ == q_zero()
                        && b.spec_visual().patch.control.p2.y@ == q_zero(),
                    BranchType::BranchTop => q_reduction_of(
                        b.spec_visual().patch.control.p1.y@,
                        q_div(q_trunk_width(vertical_fill@, id.layer as nat), (4int, 1int)),
                    ) && q_reduction_of(
                        b.spec_visual().patch.control.p2.y@,
                        q_div(q_trunk_width(vertical_fill@, id.layer as nat), q_two()),
                    ),
                    BranchType::BranchBottom => q_reduction_of(
                        b.spec_visual().patch.control.p1.y@,
                        q_neg(
                            q_div(q_trunk_width(vertical_fill@, id.layer as nat), (4int, 1int)),
                        ),
                    ) && q_reduction_of(
                        b.spec_visual().patch.control.p2.y@,
                        q_neg(q_div(q_trunk_width(vertical_fill@, id.layer as nat), q_two())),
                    ),
                }
                &&& b.spec_visual().color.red@ == (1int, 10int) && b.spec_visual().color.green@
                    == (1int, 10int) && b.spec_visual().color.blue@ == q_one()
                    && b.spec_visual().color.alpha@ == q_one()
            },
    {
        let logical_spec = match branch_type {
            BranchType::Trunk => LogicalSpec::new_logical_rect(Rat::from_int(1), Rat::new(1, 2)),
            _ => LogicalSpec::new_logical_trapezoid(
                Rat::new(1, 2),
                Rat::from_int(1),
                Rat::from_int(1),
            ),
        };
        let visual_spec = match VisualSpec::new(
            id.layer,
            pos,
            branch_type,
            vertical_fill,
            horizontal_fill,
        ) {
            Some(v) => v,
            None => {
                return None;
            },
        };
        Some(
            TreeBranch {
                id,
                logical: logical_spec,
                visual: visual_spec,
                connections: Vec::new(),
            },
        )
    }

    /// Wire this branch to `second` in both directions at once: this
    /// branch leaves through `f_bound` onto `second`, and `second` leaves
    /// through `s_bound` back onto this branch. Everything else about both
    /// branches is unchanged.
    pub fn add_connection(&mut self, f_bound: Boundary, second: &mut TreeBranch, s_bound: Boundary)
        ensures
            final(self).spec_id() == old(self).spec_id(),
            final(self).spec_logical() == old(self).spec_logical(),
            final(self).spec_visual() == old(self).spec_visual(),
            final(second).spec_id() == old(second).spec_id(),
            final(second).spec_logical() == old(second).spec_logical(),
            final(second).spec_visual() == old(second).spec_visual(),
            final(self).spec_connections().len() == old(self).spec_connections().len() + 1,
            final(second).spec_connections().len() == old(second).spec_connections().len() + 1,
            forall|i: int|
                0 <= i < old(self).spec_connections().len() ==> final(self).spec_connections()[i]
                    == old(self).spec_connections()[i],
            forall|i: int|
                0 <= i < old(second).spec_connections().len() ==> final(second).spec_connections()[i]
                    == old(second).spec_connections()[i],
            final(self).spec_connections().last().spec_id() == old(second).spec_id(),
            final(self).spec_connections().last().spec_boundary() == f_bound,
            final(second).spec_connections().last().spec_id() == old(self).spec_id(),
            final(second).spec_connections().last().spec_boundary() == s_bound,
    {
        let f_connect = Connection::new(second.id, f_bound);
        let s_connect = Connection::new(self.id, s_bound);
        self.connections.push(f_connect);
        second.connections.push(s_connect);
    }

    /// Append a single outgoing connection; the builder uses this to wire
    /// branches that already live inside the tree's storage, one side at
    /// a time.
    pub(crate) fn push_connection(&mut self, c: Connection)
        ensures
            final(self).spec_id() == old(self).spec_id(),
            final(self).spec_logical() == old(self).spec_logical(),
            final(self).spec_visual() == old(self).spec_visual(),
            final(self).spec_connections() == old(self).spec_connections().push(c),
    {
        self.connections.push(c);
    }

    /// The visual description.
    pub fn get_visual(&self) -> (r: VisualSpec)
        ensures
            r == self.spec_visual(),
    {
        self.visual.clone()
    }

    /// The logical frame.
    pub fn get_logical(&self) -> (r: LogicalSpec)
        ensures
            r == self.spec_logical(),
    {
        self.logical.clone()
    }

    /// The branch's identity.
    pub fn get_id(&self) -> (r: BranchId)
        ensures
            r == self.spec_id(),
    {
        self.id
    }

    /// All connections, in insertion order.
    pub fn get_connections(&self) -> (r: &Vec<Connection>)
        ensures
            r@ == self.spec_connections(),
    {
        &self.connections
    }

    /// The connections on the left side, in order.
    pub fn get_left_connections(&self) -> (r: Vec<Connection>)
        ensures
            r@ == self.spec_connections().filter(
                |c: Connection| c.spec_boundary().spec_is_left(),
            ),
    {
        let mut out: Vec<Connection> = Vec::new();
        let mut i: usize = 0;
        let n = self.connections.len();
        while i < n
            invariant
                i <= n,
                n == self.spec_connections().len(),
                out@ == self.spec_connections().take(i as int).filter(
                    |c: Connection| c.spec_boundary().spec_is_left(),
                ),
            decreases n - i,
        {
            proof {
                assert(self.spec_connections().take(i + 1).drop_last() =~= self.spec_connections()
                    .take(i as int));
                reveal_with_fuel(Seq::filter, 2);
            }
            let c = self.connections[i];
            match c.get_boundary() {
                Boundary::Left(_, _) => {
                    out.push(c);
                },
                _ => {},
            }
            i = i + 1;
        }
        proof {
            assert(self.spec_connections().take(n as int) =~= self.spec_connections());
        }
        out
    }

    /// The connections on the right side, in order.
    pub fn get_right_connections(&self) -> (r: Vec<Connection>)
        ensures
            r@ == self.spec_connections().filter(
                |c: Connection| !c.spec_boundary().spec_is_left(),
            ),
    {
        let mut out: Vec<Connection> = Vec::new();
        let mut i: usize = 0;
        let n = self.connections.len();
        while i < n
            invariant
                i <= n,
                n == self.spec_connections().len(),
                out@ == self.spec_connections().take(i as int).filter(
                    |c: Connection| !c.spec_boundary().spec_is_left(),
                ),
            decreases n - i,
        {
            proof {
                assert(self.spec_connections().take(i + 1).drop_last() =~= self.spec_connections()
                    .take(i as int));
                reveal_with_fuel(Seq::filter, 2);
            }
            let c = self.connections[i];
            match c.get_boundary() {
                Boundary::Right(_, _) => {
                    out.push(c);
                },
                _ => {},
            }
            i = i + 1;
        }
        proof {
            assert(self.spec_connections().take(n as int) =~= self.spec_connections());
        }
        out
    }

    /// The boundary's declared range scaled by half the relevant end
    /// width: the range actually compared against an entity's lateral
    /// coordinate. `Err` only when a scaled end cannot be represented.
    pub fn get_logical_boundary_interval(&self, boundary: Boundary) -> (r: Result<
        Interval,
        TreeError,
    >)
        requires
            self.wf(),
            boundary.wf(),
        ensures
            r matches Ok(iv) ==> iv.wf() && q_reduction_of(
                iv.start@,
                q_mul(
                    boundary.spec_start()@,
                    q_boundary_scale(self.spec_logical(), boundary.spec_is_left()),
                ),
            ) && q_reduction_of(
                iv.end@,
                q_mul(
                    boundary.spec_end()@,
                    q_boundary_scale(self.spec_logical(), boundary.spec_is_left()),
                ),
            ),
            r matches Err(e) ==> e == TreeError::NumericOverflow && !(q_fits(
                q_mul(
                    boundary.spec_start()@,
                    q_boundary_scale(self.spec_logical(), boundary.spec_is_left()),
                ),
            ) && q_fits(
                q_mul(
                    boundary.spec_end()@,
                    q_boundary_scale(self.spec_logical(), boundary.spec_is_left()),
                ),
            )),
    {
        let ghost sc = q_boundary_scale(self.spec_logical(), boundary.spec_is_left());
        let two = Rat::from_int(2);
        let width = match boundary {
            Boundary::Left(_, _) => self.logical.left_width,
            Boundary::Right(_, _) => self.logical.right_width,
        };
        let scaling = match width.div(two) {
            Some(v) => v,
            None => {
                proof {
                    // The scale factor itself overflowed, so its
                    // denominator is past the representable range, and so
                    // is the denominator of each scaled end.
                    width.lemma_fits();
                    assert(q_div(width@, (2int, 1int)) == (width@.0 * 1, width@.1 * 2));
                    assert(!q_fits(q_mul(boundary.spec_start()@, sc))) by (nonlinear_arith)
                        requires
                            sc == (width@.0 * 1, width@.1 * 2),
                            !q_fits(sc),
                            i64::MIN <= width@.0 <= i64::MAX,
                            width@.1 >= 1,
                            boundary.spec_start()@.1 >= 1,
                            q_mul(boundary.spec_start()@, sc).1 == boundary.spec_start()@.1
                                * sc.1,
                    ;
                }
                return Result::Err(TreeError::NumericOverflow);
            },
        };
        proof {
            lemma_reduction_refl(boundary.spec_start()@);
            lemma_reduction_refl(boundary.spec_end()@);
            lemma_red_mul(boundary.spec_start()@, boundary.spec_start()@, scaling@, sc);
            lemma_red_mul(boundary.spec_end()@, boundary.spec_end()@, scaling@, sc);
            lemma_q_ops_wf(boundary.spec_start()@, scaling@);
            lemma_q_ops_wf(boundary.spec_end()@, scaling@);
            lemma_q_ops_wf(boundary.spec_start()@, sc);
            lemma_q_ops_wf(boundary.spec_end()@, sc);
        }
        let iv = boundary.get_interval();
        match iv.scale(scaling) {
            Some(siv) => {
                proof {
                    lemma_reduction_trans(
                        siv.start@,
                        q_mul(boundary.spec_start()@, scaling@),
                        q_mul(boundary.spec_start()@, sc),
                    );
                    lemma_reduction_trans(
                        siv.end@,
                        q_mul(boundary.spec_end()@, scaling@),
                        q_mul(boundary.spec_end()@, sc),
                    );
                }
                Result::Ok(siv)
            },
            None => {
                proof {
                    if q_fits(q_mul(boundary.spec_start()@, sc)) && q_fits(
                        q_mul(boundary.spec_end()@, sc),
                    ) {
                        lemma_reduction_fits(
                            q_mul(boundary.spec_start()@, scaling@),
                            q_mul(boundary.spec_start()@, sc),
                        );
                        lemma_reduction_fits(
                            q_mul(boundary.spec_end()@, scaling@),
                            q_mul(boundary.spec_end()@, sc),
                        );
                    }
                }
                Result::Err(TreeError::NumericOverflow)
            },
        }
    }

    /// The unique connection on `side` whose scaled range contains `pos`.
    /// `Ok(None)` when no range contains it; overlapping matches are a
    /// construction defect. A numeric overflow is possible only when a
    /// scaled range end cannot be represented.
    pub fn get_connection(&self, pos: Rat, side: BranchSide) -> (r: Result<
        Option<Connection>,
        TreeError,
    >)
        requires
            self.wf(),
            pos.wf(),
        ensures
            ({
                let left = side is Left;
                let sc = q_boundary_scale(self.spec_logical(), left);
                let spec_r = spec_get_connection(self.spec_connections(), left, pos@, sc);
                &&& (r matches Ok(o) ==> spec_r == Result::<Option<Connection>, TreeError>::Ok(o))
                &&& (r == Result::<Option<Connection>, TreeError>::Err(
                    TreeError::OverlappingConnections,
                ) ==> spec_r == r)
                &&& (r matches Err(e) ==> e == TreeError::OverlappingConnections || (e
                    == TreeError::NumericOverflow && spec_scale_overflow(
                    self.spec_connections(),
                    left,
                    sc,
                )))
                &&& (!spec_scale_overflow(self.spec_connections(), left, sc) ==> r == spec_r)
            }),
    {
        let ghost left = side is Left;
        let ghost sc = q_boundary_scale(self.spec_logical(), left);
        let ghost conns = self.spec_connections();
        let two = Rat::from_int(2);
        let width = match side {
            BranchSide::Left => self.logical.left_width,
            BranchSide::Right => self.logical.right_width,
        };
        let mut found: Option<Connection> = None;
        let mut i: usize = 0;
        let n = self.connections.len();
        while i < n
            invariant
                i <= n,
                n == conns.len(),
                self.wf(),
                pos.wf(),
                width.wf(),
                width@ == if left {
                    self.spec_logical().left_width@
                } else {
                    self.spec_logical().right_width@
                },
                two@ == (2int, 1int),
                q_wf(sc),
                conns == self.spec_connections(),
                sc == q_boundary_scale(self.spec_logical(), left),
                left == (side is Left),
                spec_find_conn(conns, 0, left, pos@, sc, None) == spec_find_conn(
                    conns,
                    i as int,
                    left,
                    pos@,
                    sc,
                    found,
                ),
            decreases n - i,
        {
            let c = self.connections[i];
            let c_left = match c.get_boundary() {
                Boundary::Left(_, _) => true,
                Boundary::Right(_, _) => false,
            };
            let matches_side = match side {
                BranchSide::Left => c_left,
                BranchSide::Right => !c_left,
            };
            if matches_side {
                let ghost lo = q_mul(c.spec_boundary().spec_start()@, sc);
                let ghost hi = q_mul(c.spec_boundary().spec_end()@, sc);
                let scaling = match width.div(two) {
                    Some(v) => v,
                    None => {
                        proof {
                            width.lemma_fits();
                            assert(q_div(width@, (2int, 1int)) == (width@.0 * 1, width@.1 * 2));
                            assert(!q_fits(lo)) by (nonlinear_arith)
                                requires
                                    sc == (width@.0 * 1, width@.1 * 2),
                                    !q_fits(sc),
                                    i64::MIN <= width@.0 <= i64::MAX,
                                    width@.1 >= 1,
                                    c.spec_boundary().spec_start()@.1 >= 1,
                                    lo.1 == c.spec_boundary().spec_start()@.1 * sc.1,
                            ;
                            assert(spec_scale_overflow(conns, left, sc));
                        }
                        return Result::Err(TreeError::NumericOverflow);
                    },
                };
                proof {
                    lemma_reduction_eq(scaling@, sc);
                    lemma_reduction_refl(c.spec_boundary().spec_start()@);
                    lemma_reduction_refl(c.spec_boundary().spec_end()@);
                    lemma_red_mul(
                        c.spec_boundary().spec_start()@,
                        c.spec_boundary().spec_start()@,
                        scaling@,
                        sc,
                    );
                    lemma_red_mul(
                        c.spec_boundary().spec_end()@,
                        c.spec_boundary().spec_end()@,
                        scaling@,
                        sc,
                    );
                    lemma_q_ops_wf(c.spec_boundary().spec_start()@, scaling@);
                    lemma_q_ops_wf(c.spec_boundary().spec_end()@, scaling@);
                    lemma_q_ops_wf(c.spec_boundary().spec_start()@, sc);
                    lemma_q_ops_wf(c.spec_boundary().spec_end()@, sc);
                }
                let iv = c.get_interval();
                let siv = match iv.scale(scaling) {
                    Some(v) => v,
                    None => {
                        proof {
                            if q_fits(lo) && q_fits(hi) {
                                lemma_reduction_fits(
                                    q_mul(c.spec_boundary().spec_start()@, scaling@),
                                    lo,
                                );
                                lemma_reduction_fits(
                                    q_mul(c.spec_boundary().spec_end()@, scaling@),
                                    hi,
                                );
                            }
                            assert(spec_scale_overflow(conns, left, sc));
                        }
                        return Result::Err(TreeError::NumericOverflow);
                    },
                };
                proof {
                    lemma_reduction_trans(
                        siv.start@,
                        q_mul(c.spec_boundary().spec_start()@, scaling@),
                        lo,
                    );
                    lemma_reduction_trans(
                        siv.end@,
                        q_mul(c.spec_boundary().spec_end()@, scaling@),
                        hi,
                    );
                    lemma_reduction_eq(siv.start@, lo);
                    lemma_reduction_eq(siv.end@, hi);
                    crate::rat::lemma_cmp_congruence(siv.start@, lo, pos@, pos@);
                    crate::rat::lemma_cmp_congruence(pos@, pos@, siv.end@, hi);
                }
                if siv.contains(pos) {
                    if found.is_some() {
                        return Result::Err(TreeError::OverlappingConnections);
                    }
                    found = Some(c);
                } else {
                }
            }
            i = i + 1;
        }
        Result::Ok(found)
    }

    /// The point reached from `pos` by the requested displacement: the
    /// horizontal component moves along the tracking line, the vertical
    /// component is added to the lateral coordinate unchanged. `None`
    /// only when the width at `pos` is zero or a value cannot be
    /// represented.
    pub fn get_new_logical_position(&self, pos: Point2, change_vec: Point2) -> (r: Option<Point2>)
        requires
            self.wf(),
            pos.wf(),
            change_vec.wf(),
        ensures
            r matches Some(p) ==> p.wf() && q_reduction_of(
                p.x@,
                crate::logical::q_shift_x(pos.x@, change_vec.x@),
            ) && q_reduction_of(
                p.y@,
                q_add(
                    crate::logical::q_shift_y(self.spec_logical(), pos.x@, pos.y@, change_vec.x@),
                    change_vec.y@,
                ),
            ),
            crate::logical::q_shift_ok(self.spec_logical(), pos.x@, pos.y@, change_vec.x@)
                && q_fits(
                q_add(
                    crate::logical::q_shift_y(self.spec_logical(), pos.x@, pos.y@, change_vec.x@),
                    change_vec.y@,
                ),
            ) ==> r is Some,
    {
        let shifted = match self.logical.shift_along_tracking_line(pos, change_vec.x) {
            Some(p) => p,
            None => {
                return None;
            },
        };
        let ghost sy = crate::logical::q_shift_y(
            self.spec_logical(),
            pos.x@,
            pos.y@,
            change_vec.x@,
        );
        proof {
            lemma_reduction_refl(change_vec.y@);
            crate::rat::lemma_red_add(shifted.y@, sy, change_vec.y@, change_vec.y@);
            lemma_reduction_eq(shifted.y@, sy);
            lemma_q_ops_wf(shifted.y@, change_vec.y@);
            lemma_q_ops_wf(sy, change_vec.y@);
        }
        let new_y = match shifted.y.add(change_vec.y) {
            Some(v) => v,
            None => {
                proof {
                    if q_fits(q_add(sy, change_vec.y@)) {
                        lemma_reduction_fits(
                            q_add(shifted.y@, change_vec.y@),
                            q_add(sy, change_vec.y@),
                        );
                    }
                }
                return None;
            },
        };
        proof {
            lemma_reduction_trans(
                new_y@,
                q_add(shifted.y@, change_vec.y@),
                q_add(sy, change_vec.y@),
            );
        }
        Some(Point2 { x: shifted.x, y: new_y })
    }

    /// The boundary as a vertical segment in this branch's frame: at
    /// `x = 0` for a left boundary, `x = length` for a right one,
    /// spanning the scaled lateral range. `Err` only when a scaled end
    /// cannot be represented.
    pub fn get_logical_boundary_line(&self, boundary: Boundary) -> (r: Result<Line, TreeError>)
        requires
            self.wf(),
            boundary.wf(),
        ensures
            r matches Ok(line) ==> {
                &&& line.wf()
                &&& line.p0.x@ == (if boundary.spec_is_left() {
                    (0int, 1int)
                } else {
                    self.spec_logical().length@
                })
                &&& line.p1.x@ == line.p0.x@
                &&& q_reduction_of(
                    line.p0.y@,
                    q_mul(
                        boundary.spec_start()@,
                        q_boundary_scale(self.spec_logical(), boundary.spec_is_left()),
                    ),
                )
                &&& q_reduction_of(
                    line.p1.y@,
                    q_mul(
                        boundary.spec_end()@,
                        q_boundary_scale(self.spec_logical(), boundary.spec_is_left()),
                    ),
                )
            },
            r matches Err(e) ==> e == TreeError::NumericOverflow && !(q_fits(
                q_mul(
                    boundary.spec_start()@,
                    q_boundary_scale(self.spec_logical(), boundary.spec_is_left()),
                ),
            ) && q_fits(
                q_mul(
                    boundary.spec_end()@,
                    q_boundary_scale(self.spec_logical(), boundary.spec_is_left()),
                ),
            )),
    {
        let boundary_interval = match self.get_logical_boundary_interval(boundary) {
            Ok(iv) => iv,
            Err(e) => {
                return Result::Err(e);
            },
        };
        let x_pos = match boundary {
            Boundary::Left(_, _) => Rat::zero(),
            Boundary::Right(_, _) => self.logical.length,
        };
        Result::Ok(
            Line::new(
                Point2::new(x_pos, boundary_interval.get_start()),
                Point2::new(x_pos, boundary_interval.get_end()),
            ),
        )
    }

    /// Whether the given segment crosses this connection's boundary
    /// within both segments' extents; if so, how much of the segment
    /// hangs past the boundary (measured along `x`). The outcome is the
    /// value `spec_single_intersect` describes; `Err` only when a value
    /// cannot be represented, and success is owed under
    /// `spec_single_fits`.
    fn get_single_boundary_intersect(&self, line: Line, connection: &Connection) -> (r: Result<
        Option<ConnectionIntersect>,
        TreeError,
    >)
        requires
            self.wf(),
            line.wf(),
            connection.wf(),
        ensures
            r matches Ok(o) ==> {
                &&& (o is None <==> spec_single_intersect(
                    line,
                    self.spec_logical(),
                    *connection,
                ) is None)
                &&& (o matches Some(ci) ==> ci.connection == *connection && q_wf(ci.overlap@) && (
                spec_single_intersect(line, self.spec_logical(), *connection) matches Some(ov)
                    && q_eq(ci.overlap@, ov)))
            },
            r matches Err(e) ==> e == TreeError::NumericOverflow,
            spec_single_fits(line, self.spec_logical(), *connection) ==> r is Ok,
    {
        let ghost lg = self.spec_logical();
        let ghost cg = *connection;
        let ghost detv = q_sb_det(line, lg, cg);
        let ghost tnv = q_sb_tnum(line, lg, cg);
        let ghost snv = q_sb_snum(line, lg, cg);
        let ghost tv = q_div(tnv, detv);
        let ghost spv = q_div(snv, detv);
        let boundary_line = match self.get_logical_boundary_line(connection.get_boundary()) {
            Ok(l) => l,
            Err(e) => {
                return Result::Err(e);
            },
        };
        proof {
            lemma_single_bridge(line, boundary_line, lg, cg);
        }
        let soln = match line_line_intersect(&line, &boundary_line) {
            Some(o) => o,
            None => {
                return Result::Err(TreeError::NumericOverflow);
            },
        };
        let zero_one = Interval::new(Rat::zero(), Rat::from_int(1));
        match soln {
            None => {
                proof {
                    lemma_reduction_eq(q_isect_det(line, boundary_line), detv);
                }
                Result::Ok(None)
            },
            Some(ts) => {
                let first = ts.0;
                let second = ts.1;
                proof {
                    lemma_reduction_eq(q_isect_det(line, boundary_line), detv);
                    crate::rat::lemma_red_div(
                        q_isect_tnum(line, boundary_line),
                        tnv,
                        q_isect_det(line, boundary_line),
                        detv,
                    );
                    crate::rat::lemma_red_div(
                        q_isect_snum(line, boundary_line),
                        snv,
                        q_isect_det(line, boundary_line),
                        detv,
                    );
                    lemma_q_ops_wf(
                        q_isect_tnum(line, boundary_line),
                        q_isect_det(line, boundary_line),
                    );
                    lemma_q_ops_wf(
                        q_isect_snum(line, boundary_line),
                        q_isect_det(line, boundary_line),
                    );
                    lemma_q_ops_wf(tnv, detv);
                    lemma_q_ops_wf(snv, detv);
                    lemma_reduction_eq(
                        q_div(q_isect_tnum(line, boundary_line), q_isect_det(line, boundary_line)),
                        tv,
                    );
                    lemma_reduction_eq(
                        q_div(q_isect_snum(line, boundary_line), q_isect_det(line, boundary_line)),
                        spv,
                    );
                    crate::rat::lemma_q_eq_trans(
                        first@,
                        q_div(q_isect_tnum(line, boundary_line), q_isect_det(line, boundary_line)),
                        tv,
                    );
                    crate::rat::lemma_q_eq_trans(
                        second@,
                        q_div(q_isect_snum(line, boundary_line), q_isect_det(line, boundary_line)),
                        spv,
                    );
                    lemma_reduction_trans(
                        first@,
                        q_div(q_isect_tnum(line, boundary_line), q_isect_det(line, boundary_line)),
                        tv,
                    );
                    lemma_reduction_trans(
                        second@,
                        q_div(q_isect_snum(line, boundary_line), q_isect_det(line, boundary_line)),
                        spv,
                    );
                    crate::rat::lemma_cmp_congruence((0int, 1int), (0int, 1int), first@, tv);
                    crate::rat::lemma_cmp_congruence(first@, tv, (1int, 1int), (1int, 1int));
                    crate::rat::lemma_cmp_congruence((0int, 1int), (0int, 1int), second@, spv);
                    crate::rat::lemma_cmp_congruence(second@, spv, (1int, 1int), (1int, 1int));
                }
                if zero_one.contains(first) && zero_one.contains(second) {
                    let ghost end_xv = crate::logical::q_lerp(line.p0.x@, line.p1.x@, q_one());
                    let ghost hit_xv = crate::logical::q_lerp(line.p0.x@, line.p1.x@, tv);
                    proof {
                        lemma_reduction_refl(line.p0.x@);
                        lemma_reduction_refl(line.p1.x@);
                        lemma_reduction_refl(line.p0.y@);
                        lemma_reduction_refl(line.p1.y@);
                        crate::logical::lemma_lerp_reduction(
                            line.p0.x@,
                            line.p0.x@,
                            line.p1.x@,
                            line.p1.x@,
                            first@,
                            tv,
                        );
                        crate::logical::lemma_lerp_reduction(
                            line.p0.y@,
                            line.p0.y@,
                            line.p1.y@,
                            line.p1.y@,
                            first@,
                            tv,
                        );
                    }
                    let end_point = match line.get_point(Rat::from_int(1)) {
                        Some(p) => p,
                        None => {
                            return Result::Err(TreeError::NumericOverflow);
                        },
                    };
                    let hit_point = match line.get_point(first) {
                        Some(p) => p,
                        None => {
                            return Result::Err(TreeError::NumericOverflow);
                        },
                    };
                    proof {
                        lemma_reduction_trans(
                            hit_point.x@,
                            crate::logical::q_lerp(line.p0.x@, line.p1.x@, first@),
                            hit_xv,
                        );
                        lemma_reduction_eq(end_point.x@, end_xv);
                        lemma_reduction_eq(hit_point.x@, hit_xv);
                        crate::rat::lemma_red_sub(end_point.x@, end_xv, hit_point.x@, hit_xv);
                        lemma_q_ops_wf(end_point.x@, hit_point.x@);
                        lemma_q_ops_wf(end_xv, hit_xv);
                    }
                    let dx = match end_point.x.sub(hit_point.x) {
                        Some(v) => v,
                        None => {
                            proof {
                                if q_fits(q_sub(end_xv, hit_xv)) {
                                    lemma_reduction_fits(
                                        q_sub(end_point.x@, hit_point.x@),
                                        q_sub(end_xv, hit_xv),
                                    );
                                }
                            }
                            return Result::Err(TreeError::NumericOverflow);
                        },
                    };
                    proof {
                        lemma_reduction_trans(
                            dx@,
                            q_sub(end_point.x@, hit_point.x@),
                            q_sub(end_xv, hit_xv),
                        );
                        crate::rat::lemma_red_abs(dx@, q_sub(end_xv, hit_xv));
                        lemma_reduction_eq(dx@, q_sub(end_xv, hit_xv));
                    }
                    let overlap = match dx.abs() {
                        Some(v) => v,
                        None => {
                            proof {
                                if q_fits(q_abs(q_sub(end_xv, hit_xv))) {
                                    lemma_reduction_fits(
                                        q_abs(dx@),
                                        q_abs(q_sub(end_xv, hit_xv)),
                                    );
                                }
                            }
                            return Result::Err(TreeError::NumericOverflow);
                        },
                    };
                    proof {
                        lemma_reduction_trans(overlap@, q_abs(dx@), q_abs(q_sub(end_xv, hit_xv)));
                        lemma_reduction_eq(overlap@, q_abs(q_sub(end_xv, hit_xv)));
                    }
                    Result::Ok(Some(ConnectionIntersect { connection: *connection, overlap }))
                } else {
                    Result::Ok(None)
                }
            },
        }
    }

    /// The first connection whose boundary the given segment crosses,
    /// with the overhang past it, exactly as `spec_boundary_scan`
    /// describes. `Err` only when a value cannot be represented, and
    /// success is owed under `spec_scan_fits`.
    pub fn get_boundary_intersect(&self, line: Line) -> (r: Result<
        Option<ConnectionIntersect>,
        TreeError,
    >)
        requires
            self.wf(),
            line.wf(),
        ensures
            r matches Ok(o) ==> {
                &&& (o is None <==> spec_boundary_scan(
                    self.spec_connections(),
                    0,
                    line,
                    self.spec_logical(),
                ) is None)
                &&& (o matches Some(ci) ==> q_wf(ci.overlap@) && (spec_boundary_scan(
                    self.spec_connections(),
                    0,
                    line,
                    self.spec_logical(),
                ) matches Some(p) && ci.connection == p.0 && q_eq(ci.overlap@, p.1))
                    && exists|m: int|
                    0 <= m < self.spec_connections().len() && (
                    #[trigger] self.spec_connections()[m]) == ci.connection)
            },
            r matches Err(e) ==> e == TreeError::NumericOverflow,
            spec_scan_fits(self.spec_connections(), line, self.spec_logical()) ==> r is Ok,
    {
        let ghost conns = self.spec_connections();
        let ghost lg = self.spec_logical();
        let n = self.connections.len();
        let mut i: usize = 0;
        while i < n
            invariant
                i <= n,
                n == conns.len(),
                conns == self.spec_connections(),
                lg == self.spec_logical(),
                self.wf(),
                line.wf(),
                spec_boundary_scan(conns, 0, line, lg) == spec_boundary_scan(
                    conns,
                    i as int,
                    line,
                    lg,
                ),
            decreases n - i,
        {
            let c = self.connections[i];
            match self.get_single_boundary_intersect(line, &c) {
                Ok(Some(ci)) => {
                    proof {
                        assert(self.spec_connections()[i as int] == ci.connection);
                        assert(spec_boundary_scan(conns, i as int, line, lg) matches Some(p)
                            && p.0 == conns[i as int]);
                    }
                    return Result::Ok(Some(ci));
                },
                Ok(None) => {
                    proof {
                        assert(spec_boundary_scan(conns, i as int, line, lg)
                            == spec_boundary_scan(conns, i + 1, line, lg));
                    }
                },
                Err(e) => {
                    proof {
                        if spec_scan_fits(conns, line, lg) {
                            assert(spec_single_fits(line, lg, conns[i as int]));
                        }
                    }
                    return Result::Err(e);
                },
            }
            i = i + 1;
        }
        Result::Ok(None)
    }
}

/// A connection whose boundary an entity's extent crosses, with how far
/// past the boundary the extent reaches.
pub struct ConnectionIntersect {
    pub connection: Connection,
    pub overlap: Rat,
}

} // verus!
