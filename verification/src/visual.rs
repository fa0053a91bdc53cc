//! A branch's visual shape: the procedurally generated curved-patch
//! description consumed by a renderer. Derived once from the branch's role,
//! its generation depth and the two fill ratios; the geometry shrinks
//! exponentially with depth.

use vstd::prelude::*;
use crate::logical::{lerp, q_lerp};
use crate::point::Point2;
use crate::rat::Rat;
use crate::rat::{
    q_div, q_fits, q_mul, q_neg, q_one, q_pow, q_pow_ok, q_reduction_of, q_sub, q_two, q_wf,
    q_zero,
};
use crate::rat::{
    lemma_q_ops_wf, lemma_q_pow_ok_reduction, lemma_q_pow_pos, lemma_red_div, lemma_red_mul,
    lemma_red_neg, lemma_red_pow, lemma_red_sub, lemma_reduction_eq, lemma_reduction_fits,
    lemma_reduction_refl, lemma_reduction_trans,
};
use crate::tree_branch::BranchType;

verus! {

/// The width of the trunk generated at depth `d` with vertical fill `vf`:
/// `(1 - (1 - 2 vf)^(d + 1)) / 2^(d + 1)`.
pub open spec fn q_trunk_width(vf: (int, int), d: nat) -> (int, int) {
    q_div(q_sub(q_one(), q_pow(q_sub(q_one(), q_mul(q_two(), vf)), d + 1)), q_pow(q_two(), d + 1))
}

/// The length of the trunk generated at depth `d` with horizontal fill
/// `hf`: `hf * (1 - hf)^d / 2`.
pub open spec fn q_trunk_length(hf: (int, int), d: nat) -> (int, int) {
    q_div(q_mul(hf, q_pow(q_sub(q_one(), hf), d)), q_two())
}

/// Every value of the trunk-dimension chain fits the representation, so
/// the executable computation is guaranteed to succeed.
pub open spec fn q_dims_ok(vf: (int, int), hf: (int, int), d: nat) -> bool {
    let base = q_sub(q_one(), q_mul(q_two(), vf));
    let hb = q_sub(q_one(), hf);
    &&& q_fits(q_mul(q_two(), vf))
    &&& q_fits(base)
    &&& q_pow_ok(base, d + 1)
    &&& q_fits(q_sub(q_one(), q_pow(base, d + 1)))
    &&& q_pow_ok(q_two(), d + 1)
    &&& q_fits(q_trunk_width(vf, d))
    &&& q_fits(hb)
    &&& q_pow_ok(hb, d)
    &&& q_fits(q_mul(hf, q_pow(hb, d)))
    &&& q_fits(q_trunk_length(hf, d))
}

/// Every value of the visual-description chain fits the representation,
/// so the executable generation is guaranteed to succeed.
pub open spec fn q_visual_ok(vf: (int, int), hf: (int, int), d: nat, branch_type: BranchType) -> bool {
    &&& q_dims_ok(vf, hf, d)
    &&& q_fits(q_mul(q_trunk_length(hf, d), q_two()))
    &&& match branch_type {
        BranchType::Trunk => q_fits(q_mul(q_trunk_width(vf, d), q_two())),
        BranchType::BranchTop => q_fits(q_div(q_trunk_width(vf, d), (4int, 1int))) && q_fits(
            q_div(q_trunk_width(vf, d), q_two()),
        ),
        BranchType::BranchBottom => {
            &&& q_fits(q_div(q_trunk_width(vf, d), (4int, 1int)))
            &&& q_fits(q_div(q_trunk_width(vf, d), q_two()))
            &&& q_fits(q_neg(q_div(q_trunk_width(vf, d), (4int, 1int))))
            &&& q_fits(q_neg(q_div(q_trunk_width(vf, d), q_two())))
        },
    }
}

/// The trunk's visual width and length at generation depth `depth`:
/// width `(1 - (1 - 2 vf)^(d + 1)) / 2^(d + 1)`, length
/// `hf (1 - hf)^d / 2`. `None` only when a value cannot be represented;
/// `q_dims_ok` guarantees success.
pub(crate) fn trunk_dimensions(vf: Rat, hf: Rat, depth: usize) -> (r: Option<(Rat, Rat)>)
    requires
        vf.wf(),
        hf.wf(),
        depth < usize::MAX,
    ensures
        q_dims_ok(vf@, hf@, depth as nat) ==> r is Some,
        r matches Some(p) ==> p.0.wf() && p.1.wf() && q_reduction_of(
            p.0@,
            q_trunk_width(vf@, depth as nat),
        ) && q_reduction_of(p.1@, q_trunk_length(hf@, depth as nat)),
{
    let one = Rat::from_int(1);
    let two = Rat::from_int(2);
    let ghost vfs = vf@;
    let ghost hfs = hf@;
    let ghost basev = q_sub(q_one(), q_mul(q_two(), vfs));
    let ghost hbv = q_sub(q_one(), hfs);
    let tvf = match two.mul(vf) {
        Some(v) => v,
        None => {
            return None;
        },
    };
    proof {
        lemma_reduction_refl(q_one());
        lemma_red_sub(q_one(), q_one(), tvf@, q_mul(q_two(), vfs));
        lemma_q_ops_wf(q_one(), tvf@);
    }
    let base = match one.sub(tvf) {
        Some(v) => v,
        None => {
            proof {
                if q_dims_ok(vfs, hfs, depth as nat) {
                    lemma_reduction_fits(q_sub(q_one(), tvf@), basev);
                }
            }
            return None;
        },
    };
    proof {
        lemma_reduction_trans(base@, q_sub(q_one(), tvf@), basev);
        lemma_red_pow(base@, basev, (depth + 1) as nat);
    }
    let bp = match base.pow(depth + 1) {
        Some(v) => v,
        None => {
            proof {
                if q_dims_ok(vfs, hfs, depth as nat) {
                    lemma_q_pow_ok_reduction(base@, basev, (depth + 1) as nat);
                }
            }
            return None;
        },
    };
    proof {
        lemma_reduction_trans(
            bp@,
            q_pow(base@, (depth + 1) as nat),
            q_pow(basev, (depth + 1) as nat),
        );
        lemma_red_sub(q_one(), q_one(), bp@, q_pow(basev, (depth + 1) as nat));
        lemma_q_ops_wf(q_one(), bp@);
    }
    let wnum = match one.sub(bp) {
        Some(v) => v,
        None => {
            proof {
                if q_dims_ok(vfs, hfs, depth as nat) {
                    lemma_reduction_fits(
                        q_sub(q_one(), bp@),
                        q_sub(q_one(), q_pow(basev, (depth + 1) as nat)),
                    );
                }
            }
            return None;
        },
    };
    let pw2 = match two.pow(depth + 1) {
        Some(v) => v,
        None => {
            return None;
        },
    };
    proof {
        lemma_reduction_trans(
            wnum@,
            q_sub(q_one(), bp@),
            q_sub(q_one(), q_pow(basev, (depth + 1) as nat)),
        );
        lemma_q_pow_pos(q_two(), (depth + 1) as nat);
        lemma_reduction_eq(pw2@, q_pow(q_two(), (depth + 1) as nat));
        lemma_red_div(
            wnum@,
            q_sub(q_one(), q_pow(basev, (depth + 1) as nat)),
            pw2@,
            q_pow(q_two(), (depth + 1) as nat),
        );
        lemma_q_ops_wf(wnum@, pw2@);
    }
    let trunk_width = match wnum.div(pw2) {
        Some(v) => v,
        None => {
            proof {
                if q_dims_ok(vfs, hfs, depth as nat) {
                    lemma_reduction_fits(q_div(wnum@, pw2@), q_trunk_width(vfs, depth as nat));
                }
            }
            return None;
        },
    };
    proof {
        lemma_reduction_trans(trunk_width@, q_div(wnum@, pw2@), q_trunk_width(vfs, depth as nat));
    }
    let hmf = match one.sub(hf) {
        Some(v) => v,
        None => {
            return None;
        },
    };
    proof {
        lemma_red_pow(hmf@, hbv, depth as nat);
    }
    let hp = match hmf.pow(depth) {
        Some(v) => v,
        None => {
            proof {
                if q_dims_ok(vfs, hfs, depth as nat) {
                    lemma_q_pow_ok_reduction(hmf@, hbv, depth as nat);
                }
            }
            return None;
        },
    };
    proof {
        lemma_reduction_trans(hp@, q_pow(hmf@, depth as nat), q_pow(hbv, depth as nat));
        lemma_reduction_refl(hfs);
        lemma_red_mul(hfs, hfs, hp@, q_pow(hbv, depth as nat));
        lemma_q_ops_wf(hfs, hp@);
    }
    let lnum = match hf.mul(hp) {
        Some(v) => v,
        None => {
            proof {
                if q_dims_ok(vfs, hfs, depth as nat) {
                    lemma_reduction_fits(q_mul(hfs, hp@), q_mul(hfs, q_pow(hbv, depth as nat)));
                }
            }
            return None;
        },
    };
    proof {
        lemma_reduction_trans(lnum@, q_mul(hfs, hp@), q_mul(hfs, q_pow(hbv, depth as nat)));
        lemma_reduction_refl(q_two());
        lemma_red_div(lnum@, q_mul(hfs, q_pow(hbv, depth as nat)), q_two(), q_two());
        lemma_q_ops_wf(lnum@, (2int, 1int));
    }
    let trunk_length = match lnum.div(two) {
        Some(v) => v,
        None => {
            proof {
                if q_dims_ok(vfs, hfs, depth as nat) {
                    lemma_reduction_fits(
                        q_div(lnum@, q_two()),
                        q_trunk_length(hfs, depth as nat),
                    );
                }
            }
            return None;
        },
    };
    proof {
        lemma_reduction_trans(
            trunk_length@,
            q_div(lnum@, q_two()),
            q_trunk_length(hfs, depth as nat),
        );
    }
    Some((trunk_width, trunk_length))
}

/// Control points of a quadratic curve.
#[derive(Clone, Copy, Debug)]
pub struct BezierQuad {
    pub p0: Point2,
    pub p1: Point2,
    pub p2: Point2,
}

/// The value of the quadratic curve at parameter `t`, one coordinate at a
/// time, written as nested interpolations.
pub open spec fn q_bezier(a: (int, int), b: (int, int), c: (int, int), t: (int, int)) -> (
    int,
    int,
) {
    q_lerp(q_lerp(a, b, t), q_lerp(b, c, t), t)
}

impl BezierQuad {
    /// All control coordinates carry positive denominators.
    pub open spec fn wf(self) -> bool {
        self.p0.wf() && self.p1.wf() && self.p2.wf()
    }

    /// Build a curve from its control points.
    pub fn new(p0: Point2, p1: Point2, p2: Point2) -> (r: BezierQuad)
        ensures
            r.p0 == p0,
            r.p1 == p1,
            r.p2 == p2,
    {
        BezierQuad { p0, p1, p2 }
    }

    /// The point of the curve at parameter `t`; `None` only when an
    /// intermediate value cannot be represented.
    pub fn eval(&self, t: Rat) -> (r: Option<Point2>)
        requires
            self.wf(),
            t.wf(),
        ensures
            r matches Some(p) ==> p.wf() && q_reduction_of(
                p.x@,
                q_bezier(self.p0.x@, self.p1.x@, self.p2.x@, t@),
            ) && q_reduction_of(p.y@, q_bezier(self.p0.y@, self.p1.y@, self.p2.y@, t@)),
    {
        let mx01 = match lerp(self.p0.x, self.p1.x, t) {
            Some(v) => v,
            None => {
                return None;
            },
        };
        let mx12 = match lerp(self.p1.x, self.p2.x, t) {
            Some(v) => v,
            None => {
                return None;
            },
        };
        let bx = match lerp(mx01, mx12, t) {
            Some(v) => v,
            None => {
                return None;
            },
        };
        proof {
            lemma_reduction_refl(t@);
            crate::logical::lemma_lerp_reduction(
                mx01@,
                q_lerp(self.p0.x@, self.p1.x@, t@),
                mx12@,
                q_lerp(self.p1.x@, self.p2.x@, t@),
                t@,
                t@,
            );
            lemma_reduction_trans(
                bx@,
                q_lerp(mx01@, mx12@, t@),
                q_bezier(self.p0.x@, self.p1.x@, self.p2.x@, t@),
            );
        }
        let my01 = match lerp(self.p0.y, self.p1.y, t) {
            Some(v) => v,
            None => {
                return None;
            },
        };
        let my12 = match lerp(self.p1.y, self.p2.y, t) {
            Some(v) => v,
            None => {
                return None;
            },
        };
        let by = match lerp(my01, my12, t) {
            Some(v) => v,
            None => {
                return None;
            },
        };
        proof {
            crate::logical::lemma_lerp_reduction(
                my01@,
                q_lerp(self.p0.y@, self.p1.y@, t@),
                my12@,
                q_lerp(self.p1.y@, self.p2.y@, t@),
                t@,
                t@,
            );
            lemma_reduction_trans(
                by@,
                q_lerp(my01@, my12@, t@),
                q_bezier(self.p0.y@, self.p1.y@, self.p2.y@, t@),
            );
        }
        Some(Point2 { x: bx, y: by })
    }
}

/// An opaque color, four channels in `[0, 1]`.
#[derive(Clone, Copy, Debug)]
pub struct Color4 {
    pub red: Rat,
    pub green: Rat,
    pub blue: Rat,
    pub alpha: Rat,
}

/// A curved patch: control curve, lateral direction, width and placement.
#[derive(Clone, Copy, Debug)]
pub struct BezierPatch {
    pub control: BezierQuad,
    pub vert_dir: Point2,
    pub width: Rat,
    pub pos: Point2,
}

/// A branch's generated visual description: a curved patch and a color.
#[derive(Clone, Copy, Debug)]
pub struct VisualSpec {
    pub patch: BezierPatch,
    pub color: Color4,
}

impl VisualSpec {
    /// Every stored coordinate carries a positive denominator.
    pub open spec fn wf(self) -> bool {
        &&& self.patch.control.wf()
        &&& self.patch.vert_dir.wf()
        &&& q_wf(self.patch.width@)
        &&& self.patch.pos.wf()
        &&& q_wf(self.color.red@) && q_wf(self.color.green@) && q_wf(self.color.blue@) && q_wf(
            self.color.alpha@,
        )
    }

    /// Generate the visual description for a branch of role `branch_type`
    /// at generation depth `depth`, placed at `pos`. The trunk patch runs
    /// straight; the two child patches curve up respectively down by half
    /// the trunk width. `None` only when a coordinate cannot be
    /// represented at this depth.
    pub fn new(
        depth: usize,
        pos: Point2,
        branch_type: BranchType,
        vertical_fill: Rat,
        horizontal_fill: Rat,
    ) -> (r: Option<VisualSpec>)
        requires
            depth < usize::MAX,
            pos.wf(),
            vertical_fill.wf(),
            horizontal_fill.wf(),
        ensures
            q_visual_ok(vertical_fill@, horizontal_fill@, depth as nat, branch_type) ==> r
                is Some,
            r matches Some(v) ==> {
                &&& v.wf()
                &&& v.patch.pos == pos
                &&& q_reduction_of(
                    v.patch.width@,
                    match branch_type {
                        BranchType::Trunk => q_mul(
                            q_trunk_width(vertical_fill@, depth as nat),
                            q_two(),
                        ),
                        _ => q_trunk_width(vertical_fill@, depth as nat),
                    },
                )
                &&& v.patch.vert_dir.x@ == q_zero() && v.patch.vert_dir.y@ == q_one()
                &&& v.patch.control.p0.x@ == q_zero() && v.patch.control.p0.y@ == q_zero()
                &&& q_reduction_of(
                    v.patch.control.p1.x@,
                    q_trunk_length(horizontal_fill@, depth as nat),
                )
                &&& q_reduction_of(
                    v.patch.control.p2.x@,
                    q_mul(q_trunk_length(horizontal_fill@, depth as nat), q_two()),
                )
                &&& match branch_type {
                    BranchType::Trunk => v.patch.control.p1.y@ == q_zero()
                        && v.patch.control.p2.y@ == q_zero(),
                    BranchType::BranchTop => q_reduction_of(
                        v.patch.control.p1.y@,
                        q_div(q_trunk_width(vertical_fill@, depth as nat), (4int, 1int)),
                    ) && q_reduction_of(
                        v.patch.control.p2.y@,
                        q_div(q_trunk_width(vertical_fill@, depth as nat), q_two()),
                    ),
                    BranchType::BranchBottom => q_reduction_of(
                        v.patch.control.p1.y@,
                        q_neg(q_div(q_trunk_width(vertical_fill@, depth as nat), (4int, 1int))),
                    ) && q_reduction_of(
                        v.patch.control.p2.y@,
                        q_neg(q_div(q_trunk_width(vertical_fill@, depth as nat), q_two())),
                    ),
                }
                &&& v.color.red@ == (1int, 10int) && v.color.green@ == (1int, 10int)
                    && v.color.blue@ == q_one() && v.color.alpha@ == q_one()
            },
    {
        let one = Rat::from_int(1);
        let two = Rat::from_int(2);
        let four = Rat::from_int(4);
        let ghost vf = vertical_fill@;
        let ghost hf = horizontal_fill@;
        let dims = match trunk_dimensions(vertical_fill, horizontal_fill, depth) {
            Some(d) => d,
            None => {
                return None;
            },
        };
        let trunk_width = dims.0;
        let trunk_length = dims.1;
        proof {
            lemma_reduction_refl(q_two());
            lemma_reduction_refl((4int, 1int));
            lemma_red_mul(trunk_length@, q_trunk_length(hf, depth as nat), q_two(), q_two());
            lemma_red_mul(trunk_width@, q_trunk_width(vf, depth as nat), q_two(), q_two());
            lemma_red_div(trunk_width@, q_trunk_width(vf, depth as nat), q_two(), q_two());
            lemma_red_div(
                trunk_width@,
                q_trunk_width(vf, depth as nat),
                (4int, 1int),
                (4int, 1int),
            );
            lemma_q_ops_wf(trunk_length@, (2int, 1int));
            lemma_q_ops_wf(trunk_width@, (2int, 1int));
            lemma_q_ops_wf(trunk_width@, (4int, 1int));
        }
        let vert_dir = Point2::new(Rat::from_int(0), Rat::from_int(1));
        let zero = Rat::from_int(0);
        let width = match branch_type {
            BranchType::Trunk => {
                match trunk_width.mul(two) {
                    Some(v) => v,
                    None => {
                        proof {
                            if q_visual_ok(vf, hf, depth as nat, branch_type) {
                                lemma_reduction_fits(
                                    q_mul(trunk_width@, (2int, 1int)),
                                    q_mul(q_trunk_width(vf, depth as nat), q_two()),
                                );
                            }
                        }
                        return None;
                    },
                }
            },
            _ => trunk_width,
        };
        let tl2 = match trunk_length.mul(two) {
            Some(v) => v,
            None => {
                proof {
                    if q_visual_ok(vf, hf, depth as nat, branch_type) {
                        lemma_reduction_fits(
                            q_mul(trunk_length@, (2int, 1int)),
                            q_mul(q_trunk_length(hf, depth as nat), q_two()),
                        );
                    }
                }
                return None;
            },
        };
        proof {
            lemma_reduction_trans(
                tl2@,
                q_mul(trunk_length@, q_two()),
                q_mul(q_trunk_length(hf, depth as nat), q_two()),
            );
        }
        let control = match branch_type {
            BranchType::Trunk => BezierQuad::new(
                Point2::new(zero, zero),
                Point2::new(trunk_length, zero),
                Point2::new(tl2, zero),
            ),
            BranchType::BranchTop => {
                let quarter = match trunk_width.div(four) {
                    Some(v) => v,
                    None => {
                        proof {
                            if q_visual_ok(vf, hf, depth as nat, branch_type) {
                                lemma_reduction_fits(
                                    q_div(trunk_width@, (4int, 1int)),
                                    q_div(q_trunk_width(vf, depth as nat), (4int, 1int)),
                                );
                            }
                        }
                        return None;
                    },
                };
                let half = match trunk_width.div(two) {
                    Some(v) => v,
                    None => {
                        proof {
                            if q_visual_ok(vf, hf, depth as nat, branch_type) {
                                lemma_reduction_fits(
                                    q_div(trunk_width@, (2int, 1int)),
                                    q_div(q_trunk_width(vf, depth as nat), q_two()),
                                );
                            }
                        }
                        return None;
                    },
                };
                proof {
                    lemma_reduction_trans(
                        quarter@,
                        q_div(trunk_width@, (4int, 1int)),
                        q_div(q_trunk_width(vf, depth as nat), (4int, 1int)),
                    );
                    lemma_reduction_trans(
                        half@,
                        q_div(trunk_width@, q_two()),
                        q_div(q_trunk_width(vf, depth as nat), q_two()),
                    );
                }
                BezierQuad::new(
                    Point2::new(zero, zero),
                    Point2::new(trunk_length, quarter),
                    Point2::new(tl2, half),
                )
            },
            BranchType::BranchBottom => {
                let quarter = match trunk_width.div(four) {
                    Some(v) => v,
                    None => {
                        proof {
                            if q_visual_ok(vf, hf, depth as nat, branch_type) {
                                lemma_reduction_fits(
                                    q_div(trunk_width@, (4int, 1int)),
                                    q_div(q_trunk_width(vf, depth as nat), (4int, 1int)),
                                );
                            }
                        }
                        return None;
                    },
                };
                let half = match trunk_width.div(two) {
                    Some(v) => v,
                    None => {
                        proof {
                            if q_visual_ok(vf, hf, depth as nat, branch_type) {
                                lemma_reduction_fits(
                                    q_div(trunk_width@, (2int, 1int)),
                                    q_div(q_trunk_width(vf, depth as nat), q_two()),
                                );
                            }
                        }
                        return None;
                    },
                };
                proof {
                    lemma_reduction_trans(
                        quarter@,
                        q_div(trunk_width@, (4int, 1int)),
                        q_div(q_trunk_width(vf, depth as nat), (4int, 1int)),
                    );
                    lemma_reduction_trans(
                        half@,
                        q_div(trunk_width@, q_two()),
                        q_div(q_trunk_width(vf, depth as nat), q_two()),
                    );
                }
                let nquarter = match quarter.neg() {
                    Some(v) => v,
                    None => {
                        proof {
                            if q_visual_ok(vf, hf, depth as nat, branch_type) {
                                lemma_red_neg(
                                    quarter@,
                                    q_div(q_trunk_width(vf, depth as nat), (4int, 1int)),
                                );
                                lemma_reduction_fits(
                                    q_neg(quarter@),
                                    q_neg(q_div(q_trunk_width(vf, depth as nat), (4int, 1int))),
                                );
                            }
                        }
                        return None;
                    },
                };
                let nhalf = match half.neg() {
                    Some(v) => v,
                    None => {
                        proof {
                            if q_visual_ok(vf, hf, depth as nat, branch_type) {
                                lemma_red_neg(
                                    half@,
                                    q_div(q_trunk_width(vf, depth as nat), q_two()),
                                );
                                lemma_reduction_fits(
                                    q_neg(half@),
                                    q_neg(q_div(q_trunk_width(vf, depth as nat), q_two())),
                                );
                            }
                        }
                        return None;
                    },
                };
                proof {
                    lemma_red_neg(quarter@, q_div(q_trunk_width(vf, depth as nat), (4int, 1int)));
                    lemma_reduction_trans(
                        nquarter@,
                        q_neg(quarter@),
                        q_neg(q_div(q_trunk_width(vf, depth as nat), (4int, 1int))),
                    );
                    lemma_red_neg(half@, q_div(q_trunk_width(vf, depth as nat), q_two()));
                    lemma_reduction_trans(
                        nhalf@,
                        q_neg(half@),
                        q_neg(q_div(q_trunk_width(vf, depth as nat), q_two())),
                    );
                }
                BezierQuad::new(
                    Point2::new(zero, zero),
                    Point2::new(trunk_length, nquarter),
                    Point2::new(tl2, nhalf),
                )
            },
        };
        proof {
            if branch_type is Trunk {
                lemma_reduction_trans(
                    width@,
                    q_mul(trunk_width@, q_two()),
                    q_mul(q_trunk_width(vf, depth as nat), q_two()),
                );
            }
        }
        let patch = BezierPatch { control, vert_dir, width, pos };
        Some(
            VisualSpec {
                patch,
                color: Color4 {
                    red: Rat::new(1, 10),
                    green: Rat::new(1, 10),
                    blue: one,
                    alpha: one,
                },
            },
        )
    }
}

} // verus!
