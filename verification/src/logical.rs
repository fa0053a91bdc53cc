//! A branch's logical shape: its own coordinate frame.
//!
//! The frame is a rectangle or trapezoid: `x` runs from `0` to `length`,
//! and the lateral extent varies linearly from `left_width` at `x = 0` to
//! `right_width` at `x = length`. Moving along `x` keeps an entity at a
//! constant *relative* lateral position: the lateral coordinate is first
//! regularized by the local width, then rescaled by the width at the
//! target, so a walker on a tapering branch follows the taper.

use vstd::prelude::*;
use crate::point::Point2;
use crate::rat::Rat;
use crate::rat::{q_add, q_div, q_eq, q_fits, q_lt, q_mul, q_neg, q_reduction_of, q_sub, q_wf,
    q_zero};
use crate::rat::{
    lemma_add_neg_cancel, lemma_div_add_distr, lemma_div_congruence, lemma_mul_congruence,
    lemma_q_add_comm, lemma_q_div_mul_cancel, lemma_q_eq_trans, lemma_q_eq_zero_iff,
    lemma_q_mul_div_cancel, lemma_q_ops_wf, lemma_red_add, lemma_red_div, lemma_red_mul,
    lemma_red_sub, lemma_reduction_eq, lemma_reduction_fits, lemma_reduction_refl,
    lemma_reduction_trans, lemma_add_congruence,
};

verus! {

/// Linear interpolation `a + (b - a) * t`.
pub open spec fn q_lerp(a: (int, int), b: (int, int), t: (int, int)) -> (int, int) {
    q_add(a, q_mul(q_sub(b, a), t))
}

/// Every intermediate pair of the interpolation fits into `i64` fields.
pub open spec fn q_lerp_ok(a: (int, int), b: (int, int), t: (int, int)) -> bool {
    &&& q_fits(q_sub(b, a))
    &&& q_fits(q_mul(q_sub(b, a), t))
    &&& q_fits(q_lerp(a, b, t))
}

/// A branch's intrinsic coordinate frame: `length` along the primary axis,
/// lateral extents `left_width` at `x = 0` and `right_width` at
/// `x = length`. All three are positive.
#[derive(Clone, Copy, Debug)]
pub struct LogicalSpec {
    pub left_width: Rat,
    pub right_width: Rat,
    pub length: Rat,
}

/// The along-branch coordinate regularized by the length: `x / length`.
pub open spec fn q_reg_h(l: LogicalSpec, px: (int, int)) -> (int, int) {
    q_div(px, l.length@)
}

/// The lateral width of the frame at regularized position `t`.
pub open spec fn q_w_at(l: LogicalSpec, t: (int, int)) -> (int, int) {
    q_lerp(l.left_width@, l.right_width@, t)
}

/// The width at the starting point.
pub open spec fn q_w_start(l: LogicalSpec, px: (int, int)) -> (int, int) {
    q_w_at(l, q_reg_h(l, px))
}

/// The regularized position after the shift: `dx / length + x / length`.
pub open spec fn q_sh_reg(l: LogicalSpec, px: (int, int), dx: (int, int)) -> (int, int) {
    q_add(q_div(dx, l.length@), q_reg_h(l, px))
}

/// The width at the shifted point.
pub open spec fn q_w_end(l: LogicalSpec, px: (int, int), dx: (int, int)) -> (int, int) {
    q_w_at(l, q_sh_reg(l, px, dx))
}

/// The along-branch coordinate after the shift.
pub open spec fn q_shift_x(px: (int, int), dx: (int, int)) -> (int, int) {
    q_add(px, dx)
}

/// The lateral coordinate after the shift: the lateral position
/// regularized by the starting width, rescaled by the target width.
pub open spec fn q_shift_y(l: LogicalSpec, px: (int, int), py: (int, int), dx: (int, int)) -> (
    int,
    int,
) {
    q_mul(q_div(py, q_w_start(l, px)), q_w_end(l, px, dx))
}

/// Every intermediate pair of the shift fits into `i64` fields and the
/// starting width is not zero, so the executable shift is guaranteed to
/// succeed.
pub open spec fn q_shift_ok(l: LogicalSpec, px: (int, int), py: (int, int), dx: (int, int)) -> bool {
    &&& q_fits(q_reg_h(l, px))
    &&& q_lerp_ok(l.left_width@, l.right_width@, q_reg_h(l, px))
    &&& q_w_start(l, px).0 != 0
    &&& q_fits(q_div(py, q_w_start(l, px)))
    &&& q_fits(q_div(dx, l.length@))
    &&& q_fits(q_sh_reg(l, px, dx))
    &&& q_lerp_ok(l.left_width@, l.right_width@, q_sh_reg(l, px, dx))
    &&& q_fits(q_shift_y(l, px, py, dx))
    &&& q_fits(q_shift_x(px, dx))
}

/// Linear interpolation between two exactly held values.
pub fn lerp(a: Rat, b: Rat, t: Rat) -> (r: Option<Rat>)
    requires
        a.wf(),
        b.wf(),
        t.wf(),
    ensures
        r is None ==> !q_lerp_ok(a@, b@, t@),
        r matches Some(c) ==> c.wf() && q_reduction_of(c@, q_lerp(a@, b@, t@)),
{
    let d = match b.sub(a) {
        Some(v) => v,
        None => {
            return None;
        },
    };
    proof {
        lemma_q_ops_wf(b@, a@);
        lemma_reduction_refl(t@);
        lemma_red_mul(d@, q_sub(b@, a@), t@, t@);
        lemma_q_ops_wf(d@, t@);
        lemma_q_ops_wf(q_sub(b@, a@), t@);
    }
    let m = match d.mul(t) {
        Some(v) => v,
        None => {
            proof {
                if q_fits(q_mul(q_sub(b@, a@), t@)) {
                    lemma_reduction_fits(q_mul(d@, t@), q_mul(q_sub(b@, a@), t@));
                }
            }
            return None;
        },
    };
    proof {
        lemma_reduction_trans(m@, q_mul(d@, t@), q_mul(q_sub(b@, a@), t@));
        lemma_reduction_refl(a@);
        lemma_red_add(a@, a@, m@, q_mul(q_sub(b@, a@), t@));
        lemma_q_ops_wf(a@, m@);
        lemma_q_ops_wf(a@, q_mul(q_sub(b@, a@), t@));
    }
    let res = match a.add(m) {
        Some(v) => v,
        None => {
            proof {
                if q_fits(q_lerp(a@, b@, t@)) {
                    lemma_reduction_fits(q_add(a@, m@), q_lerp(a@, b@, t@));
                }
            }
            return None;
        },
    };
    proof {
        lemma_reduction_trans(res@, q_add(a@, m@), q_lerp(a@, b@, t@));
    }
    Some(res)
}

/// If the interpolation operands are replaced by reductions of themselves,
/// the interpolation chain still fits and its result is a reduction of
/// the original.
pub proof fn lemma_lerp_reduction(
    a2: (int, int),
    a: (int, int),
    b2: (int, int),
    b: (int, int),
    t2: (int, int),
    t: (int, int),
)
    requires
        q_wf(a2),
        q_wf(b2),
        q_wf(t2),
        q_reduction_of(a2, a),
        q_reduction_of(b2, b),
        q_reduction_of(t2, t),
    ensures
        q_reduction_of(q_lerp(a2, b2, t2), q_lerp(a, b, t)),
        q_lerp_ok(a, b, t) ==> q_lerp_ok(a2, b2, t2),
{
    lemma_red_sub(b2, b, a2, a);
    lemma_red_mul(q_sub(b2, a2), q_sub(b, a), t2, t);
    lemma_red_add(a2, a, q_mul(q_sub(b2, a2), t2), q_mul(q_sub(b, a), t));
    lemma_q_ops_wf(b2, a2);
    lemma_q_ops_wf(q_sub(b2, a2), t2);
    lemma_q_ops_wf(a2, q_mul(q_sub(b2, a2), t2));
    if q_lerp_ok(a, b, t) {
        lemma_reduction_fits(q_sub(b2, a2), q_sub(b, a));
        lemma_reduction_fits(q_mul(q_sub(b2, a2), t2), q_mul(q_sub(b, a), t));
        lemma_reduction_fits(
            q_add(a2, q_mul(q_sub(b2, a2), t2)),
            q_add(a, q_mul(q_sub(b, a), t)),
        );
    }
}

/// The pairs that appear in a shift are well formed whenever the frame and
/// the inputs are.
pub proof fn lemma_shift_specs_wf(l: LogicalSpec, px: (int, int), py: (int, int), dx: (int, int))
    requires
        l.wf(),
        q_wf(px),
        q_wf(py),
        q_wf(dx),
    ensures
        q_wf(q_reg_h(l, px)),
        q_wf(q_w_start(l, px)),
        q_wf(q_div(dx, l.length@)),
        q_wf(q_sh_reg(l, px, dx)),
        q_wf(q_w_end(l, px, dx)),
        q_wf(q_shift_x(px, dx)),
        q_w_start(l, px).0 != 0 ==> q_wf(q_shift_y(l, px, py, dx)),
{
    lemma_q_ops_wf(px, l.length@);
    lemma_q_ops_wf(dx, l.length@);
    lemma_q_ops_wf(l.right_width@, l.left_width@);
    lemma_q_ops_wf(q_sub(l.right_width@, l.left_width@), q_reg_h(l, px));
    lemma_q_ops_wf(
        l.left_width@,
        q_mul(q_sub(l.right_width@, l.left_width@), q_reg_h(l, px)),
    );
    lemma_q_ops_wf(q_div(dx, l.length@), q_reg_h(l, px));
    lemma_q_ops_wf(q_sub(l.right_width@, l.left_width@), q_sh_reg(l, px, dx));
    lemma_q_ops_wf(
        l.left_width@,
        q_mul(q_sub(l.right_width@, l.left_width@), q_sh_reg(l, px, dx)),
    );
    lemma_q_ops_wf(px, dx);
    if q_w_start(l, px).0 != 0 {
        lemma_q_ops_wf(py, q_w_start(l, px));
        lemma_q_ops_wf(q_div(py, q_w_start(l, px)), q_w_end(l, px, dx));
    }
}

/// Interpolation respects value equality of its parameter.
pub proof fn lemma_lerp_congruence(a: (int, int), b: (int, int), t: (int, int), t2: (int, int))
    requires
        q_wf(a),
        q_wf(b),
        q_wf(t),
        q_wf(t2),
        q_eq(t, t2),
    ensures
        q_eq(q_lerp(a, b, t), q_lerp(a, b, t2)),
{
    lemma_q_ops_wf(b, a);
    let d = q_sub(b, a);
    lemma_q_ops_wf(d, t);
    lemma_q_ops_wf(d, t2);
    lemma_mul_congruence(d, d, t, t2);
    lemma_add_congruence(a, a, q_mul(d, t), q_mul(d, t2));
}

impl LogicalSpec {
    /// Length and both widths are positive.
    pub open spec fn wf(self) -> bool {
        &&& q_wf(self.left_width@)
        &&& q_wf(self.right_width@)
        &&& q_wf(self.length@)
        &&& q_lt(q_zero(), self.left_width@)
        &&& q_lt(q_zero(), self.right_width@)
        &&& q_lt(q_zero(), self.length@)
    }

    /// A rectangular frame: equal width at both ends.
    pub fn new_logical_rect(width: Rat, length: Rat) -> (r: LogicalSpec)
        requires
            width.wf(),
            length.wf(),
            q_lt(q_zero(), width@),
            q_lt(q_zero(), length@),
        ensures
            r.left_width == width,
            r.right_width == width,
            r.length == length,
            r.wf(),
    {
        LogicalSpec { left_width: width, right_width: width, length }
    }

    /// A trapezoidal frame: the width varies linearly between the ends.
    pub fn new_logical_trapezoid(left_width: Rat, right_width: Rat, left_length: Rat) -> (r:
        LogicalSpec)
        requires
            left_width.wf(),
            right_width.wf(),
            left_length.wf(),
            q_lt(q_zero(), left_width@),
            q_lt(q_zero(), right_width@),
            q_lt(q_zero(), left_length@),
        ensures
            r.left_width == left_width,
            r.right_width == right_width,
            r.length == left_length,
            r.wf(),
    {
        LogicalSpec { left_width, right_width, length: left_length }
    }

    /// Move a point by `shift` along the branch, keeping its relative
    /// lateral position: the lateral coordinate is divided by the width at
    /// the start and multiplied by the width at the target. `None` when
    /// the width at the start is zero (possible only outside `[0, length]`
    /// on a degenerate extension of the taper) or an intermediate value
    /// cannot be represented; `q_shift_ok` guarantees success.
    pub fn shift_along_tracking_line(&self, point: Point2, shift: Rat) -> (r: Option<Point2>)
        requires
            self.wf(),
            point.wf(),
            shift.wf(),
        ensures
            r matches Some(p) ==> p.wf() && q_reduction_of(p.x@, q_shift_x(point.x@, shift@))
                && q_reduction_of(p.y@, q_shift_y(*self, point.x@, point.y@, shift@)),
            q_shift_ok(*self, point.x@, point.y@, shift@) ==> r is Some,
    {
        let ghost regs = q_reg_h(*self, point.x@);
        let ghost w1s = q_w_start(*self, point.x@);
        let ghost shs = q_sh_reg(*self, point.x@, shift@);
        let ghost w2s = q_w_end(*self, point.x@, shift@);
        proof {
            lemma_shift_specs_wf(*self, point.x@, point.y@, shift@);
        }
        let reg_h = match point.x.div(self.length) {
            Some(v) => v,
            None => {
                return None;
            },
        };
        proof {
            lemma_q_ops_wf(point.x@, self.length@);
            lemma_reduction_refl(self.left_width@);
            lemma_reduction_refl(self.right_width@);
            lemma_lerp_reduction(
                self.left_width@,
                self.left_width@,
                self.right_width@,
                self.right_width@,
                reg_h@,
                regs,
            );
        }
        let w1 = match lerp(self.left_width, self.right_width, reg_h) {
            Some(v) => v,
            None => {
                return None;
            },
        };
        proof {
            lemma_reduction_trans(
                w1@,
                q_lerp(self.left_width@, self.right_width@, reg_h@),
                w1s,
            );
            lemma_reduction_eq(w1@, w1s);
        }
        if w1.is_zero() {
            return None;
        }
        proof {
            lemma_reduction_refl(point.y@);
            lemma_red_div(point.y@, point.y@, w1@, w1s);
            lemma_q_ops_wf(point.y@, w1@);
            lemma_q_ops_wf(point.y@, w1s);
        }
        let reg_v = match point.y.div(w1) {
            Some(v) => v,
            None => {
                proof {
                    if q_fits(q_div(point.y@, w1s)) {
                        lemma_reduction_fits(q_div(point.y@, w1@), q_div(point.y@, w1s));
                    }
                }
                return None;
            },
        };
        proof {
            lemma_reduction_trans(reg_v@, q_div(point.y@, w1@), q_div(point.y@, w1s));
        }
        let dx_reg = match shift.div(self.length) {
            Some(v) => v,
            None => {
                return None;
            },
        };
        proof {
            lemma_q_ops_wf(shift@, self.length@);
            lemma_red_add(dx_reg@, q_div(shift@, self.length@), reg_h@, regs);
            lemma_q_ops_wf(dx_reg@, reg_h@);
            lemma_q_ops_wf(q_div(shift@, self.length@), regs);
        }
        let sh_reg = match dx_reg.add(reg_h) {
            Some(v) => v,
            None => {
                proof {
                    if q_fits(shs) {
                        lemma_reduction_fits(q_add(dx_reg@, reg_h@), shs);
                    }
                }
                return None;
            },
        };
        proof {
            lemma_reduction_trans(sh_reg@, q_add(dx_reg@, reg_h@), shs);
            lemma_lerp_reduction(
                self.left_width@,
                self.left_width@,
                self.right_width@,
                self.right_width@,
                sh_reg@,
                shs,
            );
        }
        let w2 = match lerp(self.left_width, self.right_width, sh_reg) {
            Some(v) => v,
            None => {
                return None;
            },
        };
        proof {
            lemma_reduction_trans(
                w2@,
                q_lerp(self.left_width@, self.right_width@, sh_reg@),
                w2s,
            );
            lemma_red_mul(reg_v@, q_div(point.y@, w1s), w2@, w2s);
            lemma_q_ops_wf(reg_v@, w2@);
            lemma_q_ops_wf(q_div(point.y@, w1s), w2s);
        }
        let new_y = match reg_v.mul(w2) {
            Some(v) => v,
            None => {
                proof {
                    if q_fits(q_shift_y(*self, point.x@, point.y@, shift@)) {
                        lemma_reduction_fits(
                            q_mul(reg_v@, w2@),
                            q_shift_y(*self, point.x@, point.y@, shift@),
                        );
                    }
                }
                return None;
            },
        };
        proof {
            lemma_reduction_trans(
                new_y@,
                q_mul(reg_v@, w2@),
                q_shift_y(*self, point.x@, point.y@, shift@),
            );
        }
        let new_x = match point.x.add(shift) {
            Some(v) => v,
            None => {
                return None;
            },
        };
        Some(Point2 { x: new_x, y: new_y })
    }
}

/// Inside the frame the width never vanishes: for any along-branch
/// coordinate between zero and the length, the interpolated width is
/// strictly positive, so the tracking division is defined and a shift
/// starting inside the frame can fail only for want of representation.
pub proof fn lemma_width_positive_in_range(l: LogicalSpec, px: (int, int))
    requires
        l.wf(),
        q_wf(px),
        crate::rat::q_le(q_zero(), px),
        crate::rat::q_le(px, l.length@),
    ensures
        q_w_start(l, px).0 > 0,
        q_lt(q_zero(), q_w_start(l, px)),
{
    let lw = l.left_width@;
    let rw = l.right_width@;
    let len = l.length@;
    let t = q_reg_h(l, px);
    lemma_q_ops_wf(px, len);
    assert(t == (px.0 * len.1, px.1 * len.0));
    assert(t.0 >= 0) by (nonlinear_arith)
        requires
            px.0 >= 0,
            len.1 > 0,
            t.0 == px.0 * len.1,
    ;
    assert(t.0 <= t.1) by (nonlinear_arith)
        requires
            px.0 * len.1 <= len.0 * px.1,
            t.0 == px.0 * len.1,
            t.1 == px.1 * len.0,
    ;
    let w = q_w_at(l, t);
    assert(w.0 == lw.0 * ((rw.1 * lw.1) * t.1) + ((rw.0 * lw.1 - lw.0 * rw.1) * t.0) * lw.1)
        by (nonlinear_arith)
        requires
            w == q_lerp(lw, rw, t),
            q_lerp(lw, rw, t) == q_add(lw, q_mul(q_sub(rw, lw), t)),
            q_sub(rw, lw) == ((rw.0 * lw.1 - lw.0 * rw.1, rw.1 * lw.1)),
            q_mul(q_sub(rw, lw), t) == (((rw.0 * lw.1 - lw.0 * rw.1) * t.0, (rw.1 * lw.1)
                * t.1)),
    ;
    assert(w.0 > 0) by (nonlinear_arith)
        requires
            w.0 == lw.0 * ((rw.1 * lw.1) * t.1) + ((rw.0 * lw.1 - lw.0 * rw.1) * t.0) * lw.1,
            lw.0 > 0,
            lw.1 > 0,
            rw.0 > 0,
            rw.1 > 0,
            t.1 > 0,
            0 <= t.0 <= t.1,
    ;
}

/// Lateral tracking is reversible: shifting a point by `dx` along the
/// tracking line and then by `-dx` restores the original point exactly,
/// for any frame whose width is nonzero at the start and at the target.
pub proof fn lemma_shift_reversible(l: LogicalSpec, px: (int, int), py: (int, int), dx: (
    int,
    int,
))
    requires
        l.wf(),
        q_wf(px),
        q_wf(py),
        q_wf(dx),
        q_w_start(l, px).0 != 0,
        q_w_end(l, px, dx).0 != 0,
    ensures
        q_eq(q_shift_x(q_shift_x(px, dx), q_neg(dx)), px),
        q_eq(q_shift_y(l, q_shift_x(px, dx), q_shift_y(l, px, py, dx), q_neg(dx)), py),
{
    let len = l.length@;
    let lw = l.left_width@;
    let rw = l.right_width@;
    let ndx = q_neg(dx);
    let nx = q_shift_x(px, dx);
    let ny = q_shift_y(l, px, py, dx);
    let w1 = q_w_start(l, px);
    let w2 = q_w_end(l, px, dx);
    let w1b = q_w_start(l, nx);
    let w2b = q_w_end(l, nx, ndx);
    lemma_add_neg_cancel(px, dx);
    lemma_shift_specs_wf(l, px, py, dx);
    lemma_shift_specs_wf(l, nx, ny, ndx);
    lemma_q_ops_wf(px, dx);
    lemma_q_ops_wf(nx, ndx);
    // The regularized position after the forward shift equals the
    // regularized coordinate of the landing point.
    lemma_div_add_distr(px, dx, len);
    lemma_q_add_comm(q_div(px, len), q_div(dx, len));
    lemma_q_ops_wf(q_div(px, len), q_div(dx, len));
    lemma_q_ops_wf(q_div(dx, len), q_div(px, len));
    lemma_q_eq_trans(q_reg_h(l, nx), q_add(q_div(px, len), q_div(dx, len)), q_sh_reg(l, px, dx));
    // Hence the width seen at the start of the reverse shift is the width
    // at the end of the forward shift.
    lemma_lerp_congruence(lw, rw, q_reg_h(l, nx), q_sh_reg(l, px, dx));
    assert(q_eq(w1b, w2));
    lemma_q_eq_zero_iff(w1b, w2);
    // The regularized position after the reverse shift equals the
    // regularized coordinate of the original point.
    lemma_div_add_distr(nx, ndx, len);
    lemma_q_add_comm(q_div(nx, len), q_div(ndx, len));
    lemma_q_ops_wf(q_div(nx, len), q_div(ndx, len));
    lemma_q_ops_wf(q_div(ndx, len), q_div(nx, len));
    lemma_q_ops_wf(q_add(px, dx), ndx);
    lemma_q_ops_wf(q_add(nx, ndx), len);
    lemma_div_congruence(q_add(nx, ndx), px, len, len);
    lemma_q_eq_trans(
        q_sh_reg(l, nx, ndx),
        q_add(q_div(nx, len), q_div(ndx, len)),
        q_div(q_add(nx, ndx), len),
    );
    lemma_q_eq_trans(q_sh_reg(l, nx, ndx), q_div(q_add(nx, ndx), len), q_reg_h(l, px));
    // Hence the width seen at the end of the reverse shift is the width at
    // the original point.
    lemma_lerp_congruence(lw, rw, q_sh_reg(l, nx, ndx), q_reg_h(l, px));
    assert(q_eq(w2b, w1));
    lemma_q_eq_zero_iff(w2b, w1);
    // The reverse shift divides by the forward target width and multiplies
    // by the original width, cancelling the forward shift step by step.
    lemma_q_ops_wf(py, w1);
    lemma_q_ops_wf(q_div(py, w1), w2);
    lemma_q_ops_wf(ny, w1b);
    lemma_q_ops_wf(ny, w2);
    lemma_div_congruence(ny, ny, w1b, w2);
    lemma_q_div_mul_cancel(q_div(py, w1), w2);
    lemma_q_eq_trans(q_div(ny, w1b), q_div(ny, w2), q_div(py, w1));
    lemma_mul_congruence(q_div(ny, w1b), q_div(py, w1), w2b, w1);
    lemma_q_mul_div_cancel(py, w1);
    lemma_q_ops_wf(q_div(ny, w1b), w2b);
    lemma_q_ops_wf(q_div(py, w1), w1);
    lemma_q_eq_trans(
        q_mul(q_div(ny, w1b), w2b),
        q_mul(q_div(py, w1), w1),
        py,
    );
}

} // verus!
