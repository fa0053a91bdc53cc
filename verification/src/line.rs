//! Line segments and their intersection, used by the entity-extent query
//! to find where an entity's span crosses a branch boundary.

use vstd::prelude::*;
use crate::logical::{lerp, q_lerp, q_lerp_ok};
use crate::point::Point2;
use crate::rat::Rat;
use crate::rat::{q_div, q_eq, q_fits, q_mul, q_reduction_of, q_sub, q_zero};
use crate::rat::{
    lemma_q_ops_wf, lemma_red_div, lemma_red_mul, lemma_red_sub, lemma_reduction_eq,
    lemma_reduction_fits, lemma_reduction_trans,
};

verus! {

/// A directed segment from `p0` to `p1`, parametrized over `[0, 1]`.
#[derive(Clone, Copy, Debug)]
pub struct Line {
    pub p0: Point2,
    pub p1: Point2,
}

/// The determinant of the two segments' direction vectors; zero exactly
/// when the segments are parallel.
pub open spec fn q_isect_det(a: Line, b: Line) -> (int, int) {
    q_sub(
        q_mul(q_sub(a.p1.x@, a.p0.x@), q_sub(b.p1.y@, b.p0.y@)),
        q_mul(q_sub(a.p1.y@, a.p0.y@), q_sub(b.p1.x@, b.p0.x@)),
    )
}

/// The numerator of the intersection parameter along `a`.
pub open spec fn q_isect_tnum(a: Line, b: Line) -> (int, int) {
    q_sub(
        q_mul(q_sub(b.p0.x@, a.p0.x@), q_sub(b.p1.y@, b.p0.y@)),
        q_mul(q_sub(b.p0.y@, a.p0.y@), q_sub(b.p1.x@, b.p0.x@)),
    )
}

/// The numerator of the intersection parameter along `b`.
pub open spec fn q_isect_snum(a: Line, b: Line) -> (int, int) {
    q_sub(
        q_mul(q_sub(b.p0.x@, a.p0.x@), q_sub(a.p1.y@, a.p0.y@)),
        q_mul(q_sub(b.p0.y@, a.p0.y@), q_sub(a.p1.x@, a.p0.x@)),
    )
}

/// Every value of the intersection chain fits the representation, so the
/// executable intersection is guaranteed to deliver an answer.
pub open spec fn q_isect_ok(a: Line, b: Line) -> bool {
    let d1x = q_sub(a.p1.x@, a.p0.x@);
    let d1y = q_sub(a.p1.y@, a.p0.y@);
    let d2x = q_sub(b.p1.x@, b.p0.x@);
    let d2y = q_sub(b.p1.y@, b.p0.y@);
    let wx = q_sub(b.p0.x@, a.p0.x@);
    let wy = q_sub(b.p0.y@, a.p0.y@);
    &&& q_fits(d1x) && q_fits(d1y) && q_fits(d2x) && q_fits(d2y) && q_fits(wx) && q_fits(wy)
    &&& q_fits(q_mul(d1x, d2y)) && q_fits(q_mul(d1y, d2x))
    &&& q_fits(q_mul(wx, d2y)) && q_fits(q_mul(wy, d2x))
    &&& q_fits(q_mul(wx, d1y)) && q_fits(q_mul(wy, d1x))
    &&& q_fits(q_isect_det(a, b)) && q_fits(q_isect_tnum(a, b)) && q_fits(q_isect_snum(a, b))
    &&& (!q_eq(q_isect_det(a, b), q_zero()) ==> q_fits(
        q_div(q_isect_tnum(a, b), q_isect_det(a, b)),
    ) && q_fits(q_div(q_isect_snum(a, b), q_isect_det(a, b))))
}

impl Line {
    /// Both endpoints carry positive denominators.
    pub open spec fn wf(self) -> bool {
        self.p0.wf() && self.p1.wf()
    }

    /// Build a segment from its endpoints.
    pub fn new(p0: Point2, p1: Point2) -> (r: Line)
        ensures
            r.p0 == p0,
            r.p1 == p1,
    {
        Line { p0, p1 }
    }

    /// The point at parameter `t`: `p0 + (p1 - p0) * t` in each
    /// coordinate. `None` only when a value cannot be represented.
    pub fn get_point(&self, t: Rat) -> (r: Option<Point2>)
        requires
            self.wf(),
            t.wf(),
        ensures
            q_lerp_ok(self.p0.x@, self.p1.x@, t@) && q_lerp_ok(self.p0.y@, self.p1.y@, t@) ==> r
                is Some,
            r matches Some(p) ==> p.wf() && q_reduction_of(
                p.x@,
                q_lerp(self.p0.x@, self.p1.x@, t@),
            ) && q_reduction_of(p.y@, q_lerp(self.p0.y@, self.p1.y@, t@)),
    {
        let x = match lerp(self.p0.x, self.p1.x, t) {
            Some(v) => v,
            None => {
                return None;
            },
        };
        let y = match lerp(self.p0.y, self.p1.y, t) {
            Some(v) => v,
            None => {
                return None;
            },
        };
        Some(Point2 { x, y })
    }
}

/// The intersection parameters of the two segments' supporting lines.
/// The outer option is the numeric outcome: `None` only when a value
/// cannot be represented. The inner option is the geometric answer:
/// `None` when the segments are parallel, otherwise `Some((t, s))` with
/// `a` at parameter `t` meeting `b` at parameter `s`.
pub fn line_line_intersect(a: &Line, b: &Line) -> (r: Option<Option<(Rat, Rat)>>)
    requires
        a.wf(),
        b.wf(),
    ensures
        q_isect_ok(*a, *b) ==> r is Some,
        r matches Some(o) ==> {
            &&& (o matches Some(ts) ==> ts.0.wf() && ts.1.wf() && !q_eq(q_isect_det(*a, *b), q_zero())
                && q_reduction_of(ts.0@, q_div(q_isect_tnum(*a, *b), q_isect_det(*a, *b)))
                && q_reduction_of(ts.1@, q_div(q_isect_snum(*a, *b), q_isect_det(*a, *b)))
                && q_eq(ts.0@, q_div(q_isect_tnum(*a, *b), q_isect_det(*a, *b))) && q_eq(
                ts.1@,
                q_div(q_isect_snum(*a, *b), q_isect_det(*a, *b)),
            ))
            &&& (o is None ==> q_eq(q_isect_det(*a, *b), q_zero()))
        },
{
    let ghost dv = q_isect_det(*a, *b);
    let ghost tv = q_isect_tnum(*a, *b);
    let ghost sv = q_isect_snum(*a, *b);
    let d1x = match a.p1.x.sub(a.p0.x) {
        Some(v) => v,
        None => {
            return None;
        },
    };
    let d1y = match a.p1.y.sub(a.p0.y) {
        Some(v) => v,
        None => {
            return None;
        },
    };
    let d2x = match b.p1.x.sub(b.p0.x) {
        Some(v) => v,
        None => {
            return None;
        },
    };
    let d2y = match b.p1.y.sub(b.p0.y) {
        Some(v) => v,
        None => {
            return None;
        },
    };
    let wx = match b.p0.x.sub(a.p0.x) {
        Some(v) => v,
        None => {
            return None;
        },
    };
    let wy = match b.p0.y.sub(a.p0.y) {
        Some(v) => v,
        None => {
            return None;
        },
    };
    proof {
        lemma_q_ops_wf(a.p1.x@, a.p0.x@);
        lemma_q_ops_wf(a.p1.y@, a.p0.y@);
        lemma_q_ops_wf(b.p1.x@, b.p0.x@);
        lemma_q_ops_wf(b.p1.y@, b.p0.y@);
        lemma_q_ops_wf(b.p0.x@, a.p0.x@);
        lemma_q_ops_wf(b.p0.y@, a.p0.y@);
        lemma_red_mul(d1x@, q_sub(a.p1.x@, a.p0.x@), d2y@, q_sub(b.p1.y@, b.p0.y@));
        lemma_red_mul(d1y@, q_sub(a.p1.y@, a.p0.y@), d2x@, q_sub(b.p1.x@, b.p0.x@));
        lemma_red_mul(wx@, q_sub(b.p0.x@, a.p0.x@), d2y@, q_sub(b.p1.y@, b.p0.y@));
        lemma_red_mul(wy@, q_sub(b.p0.y@, a.p0.y@), d2x@, q_sub(b.p1.x@, b.p0.x@));
        lemma_red_mul(wx@, q_sub(b.p0.x@, a.p0.x@), d1y@, q_sub(a.p1.y@, a.p0.y@));
        lemma_red_mul(wy@, q_sub(b.p0.y@, a.p0.y@), d1x@, q_sub(a.p1.x@, a.p0.x@));
        lemma_q_ops_wf(d1x@, d2y@);
        lemma_q_ops_wf(d1y@, d2x@);
        lemma_q_ops_wf(wx@, d2y@);
        lemma_q_ops_wf(wy@, d2x@);
        lemma_q_ops_wf(wx@, d1y@);
        lemma_q_ops_wf(wy@, d1x@);
    }
    let m1 = match d1x.mul(d2y) {
        Some(v) => v,
        None => {
            proof {
                if q_isect_ok(*a, *b) {
                    lemma_reduction_fits(q_mul(d1x@, d2y@), q_mul(q_sub(a.p1.x@, a.p0.x@), q_sub(b.p1.y@, b.p0.y@)));
                }
            }
            return None;
        },
    };
    let m2 = match d1y.mul(d2x) {
        Some(v) => v,
        None => {
            proof {
                if q_isect_ok(*a, *b) {
                    lemma_reduction_fits(q_mul(d1y@, d2x@), q_mul(q_sub(a.p1.y@, a.p0.y@), q_sub(b.p1.x@, b.p0.x@)));
                }
            }
            return None;
        },
    };
    let tn1 = match wx.mul(d2y) {
        Some(v) => v,
        None => {
            proof {
                if q_isect_ok(*a, *b) {
                    lemma_reduction_fits(q_mul(wx@, d2y@), q_mul(q_sub(b.p0.x@, a.p0.x@), q_sub(b.p1.y@, b.p0.y@)));
                }
            }
            return None;
        },
    };
    let tn2 = match wy.mul(d2x) {
        Some(v) => v,
        None => {
            proof {
                if q_isect_ok(*a, *b) {
                    lemma_reduction_fits(q_mul(wy@, d2x@), q_mul(q_sub(b.p0.y@, a.p0.y@), q_sub(b.p1.x@, b.p0.x@)));
                }
            }
            return None;
        },
    };
    let sn1 = match wx.mul(d1y) {
        Some(v) => v,
        None => {
            proof {
                if q_isect_ok(*a, *b) {
                    lemma_reduction_fits(q_mul(wx@, d1y@), q_mul(q_sub(b.p0.x@, a.p0.x@), q_sub(a.p1.y@, a.p0.y@)));
                }
            }
            return None;
        },
    };
    let sn2 = match wy.mul(d1x) {
        Some(v) => v,
        None => {
            proof {
                if q_isect_ok(*a, *b) {
                    lemma_reduction_fits(q_mul(wy@, d1x@), q_mul(q_sub(b.p0.y@, a.p0.y@), q_sub(a.p1.x@, a.p0.x@)));
                }
            }
            return None;
        },
    };
    proof {
        lemma_q_ops_wf(m1@, m2@);
        lemma_q_ops_wf(tn1@, tn2@);
        lemma_q_ops_wf(sn1@, sn2@);
        lemma_reduction_trans(
            m1@,
            q_mul(d1x@, d2y@),
            q_mul(q_sub(a.p1.x@, a.p0.x@), q_sub(b.p1.y@, b.p0.y@)),
        );
        lemma_reduction_trans(
            m2@,
            q_mul(d1y@, d2x@),
            q_mul(q_sub(a.p1.y@, a.p0.y@), q_sub(b.p1.x@, b.p0.x@)),
        );
        lemma_reduction_trans(
            tn1@,
            q_mul(wx@, d2y@),
            q_mul(q_sub(b.p0.x@, a.p0.x@), q_sub(b.p1.y@, b.p0.y@)),
        );
        lemma_reduction_trans(
            tn2@,
            q_mul(wy@, d2x@),
            q_mul(q_sub(b.p0.y@, a.p0.y@), q_sub(b.p1.x@, b.p0.x@)),
        );
        lemma_reduction_trans(
            sn1@,
            q_mul(wx@, d1y@),
            q_mul(q_sub(b.p0.x@, a.p0.x@), q_sub(a.p1.y@, a.p0.y@)),
        );
        lemma_reduction_trans(
            sn2@,
            q_mul(wy@, d1x@),
            q_mul(q_sub(b.p0.y@, a.p0.y@), q_sub(a.p1.x@, a.p0.x@)),
        );
        lemma_red_sub(
            m1@,
            q_mul(q_sub(a.p1.x@, a.p0.x@), q_sub(b.p1.y@, b.p0.y@)),
            m2@,
            q_mul(q_sub(a.p1.y@, a.p0.y@), q_sub(b.p1.x@, b.p0.x@)),
        );
        lemma_red_sub(
            tn1@,
            q_mul(q_sub(b.p0.x@, a.p0.x@), q_sub(b.p1.y@, b.p0.y@)),
            tn2@,
            q_mul(q_sub(b.p0.y@, a.p0.y@), q_sub(b.p1.x@, b.p0.x@)),
        );
        lemma_red_sub(
            sn1@,
            q_mul(q_sub(b.p0.x@, a.p0.x@), q_sub(a.p1.y@, a.p0.y@)),
            sn2@,
            q_mul(q_sub(b.p0.y@, a.p0.y@), q_sub(a.p1.x@, a.p0.x@)),
        );
    }
    let det = match m1.sub(m2) {
        Some(v) => v,
        None => {
            proof {
                if q_isect_ok(*a, *b) {
                    lemma_reduction_fits(q_sub(m1@, m2@), dv);
                }
            }
            return None;
        },
    };
    let tn = match tn1.sub(tn2) {
        Some(v) => v,
        None => {
            proof {
                if q_isect_ok(*a, *b) {
                    lemma_reduction_fits(q_sub(tn1@, tn2@), tv);
                }
            }
            return None;
        },
    };
    let sn = match sn1.sub(sn2) {
        Some(v) => v,
        None => {
            proof {
                if q_isect_ok(*a, *b) {
                    lemma_reduction_fits(q_sub(sn1@, sn2@), sv);
                }
            }
            return None;
        },
    };
    proof {
        lemma_reduction_trans(det@, q_sub(m1@, m2@), dv);
        lemma_reduction_trans(tn@, q_sub(tn1@, tn2@), tv);
        lemma_reduction_trans(sn@, q_sub(sn1@, sn2@), sv);
        lemma_reduction_eq(det@, dv);
        lemma_reduction_eq(tn@, tv);
        lemma_reduction_eq(sn@, sv);
    }
    if det.is_zero() {
        return Some(None);
    }
    proof {
        lemma_red_div(tn@, tv, det@, dv);
        lemma_red_div(sn@, sv, det@, dv);
        lemma_q_ops_wf(tn@, det@);
        lemma_q_ops_wf(sn@, det@);
        lemma_q_ops_wf(tv, dv);
        lemma_q_ops_wf(sv, dv);
    }
    let t = match tn.div(det) {
        Some(v) => v,
        None => {
            proof {
                if q_isect_ok(*a, *b) {
                    lemma_reduction_fits(q_div(tn@, det@), q_div(tv, dv));
                }
            }
            return None;
        },
    };
    let s = match sn.div(det) {
        Some(v) => v,
        None => {
            proof {
                if q_isect_ok(*a, *b) {
                    lemma_reduction_fits(q_div(sn@, det@), q_div(sv, dv));
                }
            }
            return None;
        },
    };
    proof {
        lemma_reduction_trans(t@, q_div(tn@, det@), q_div(tv, dv));
        lemma_reduction_trans(s@, q_div(sn@, det@), q_div(sv, dv));
        lemma_reduction_eq(t@, q_div(tv, dv));
        lemma_reduction_eq(s@, q_div(sv, dv));
    }
    Some(Some((t, s)))
}

} // verus!
