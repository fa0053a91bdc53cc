//! Closed intervals of the rational line, and the affine "fit" that carries
//! a coordinate from one interval into another while preserving its relative
//! position. The fit is what translates a lateral coordinate between the
//! differently scaled boundary ranges of two connected branches.

use vstd::prelude::*;
use crate::rat::Rat;
use crate::rat::{q_add, q_div, q_eq, q_fits, q_le, q_lt, q_mul, q_reduction_of, q_sub, q_wf};
use crate::rat::{
    lemma_add_congruence, lemma_add_le_mono, lemma_add_sub_cancel, lemma_div_pos_le_mono,
    lemma_div_neg_le_anti, lemma_mul_nonneg_le_mono, lemma_mul_nonpos_le_anti, lemma_one_mul,
    lemma_q_eq_trans, lemma_q_ops_wf, lemma_red_add,
    lemma_red_div, lemma_red_mul, lemma_red_sub, lemma_reduction_eq, lemma_reduction_fits,
    lemma_reduction_refl, lemma_reduction_trans, lemma_sub_le_mono,
};

verus! {

/// `s <= x <= e` as rational values.
pub open spec fn q_contains(s: (int, int), e: (int, int), x: (int, int)) -> bool {
    q_le(s, x) && q_le(x, e)
}

/// The value of the affine fit of `x` from `[s, e]` into `[os, oe]`:
/// `os + (x - s) / (e - s) * (oe - os)`.
pub open spec fn q_fit_val(
    x: (int, int),
    s: (int, int),
    e: (int, int),
    os: (int, int),
    oe: (int, int),
) -> (int, int) {
    q_add(os, q_mul(q_div(q_sub(x, s), q_sub(e, s)), q_sub(oe, os)))
}

/// Every intermediate pair of the fit computation fits into `i64` fields,
/// so the executable fit is guaranteed to succeed.
pub open spec fn q_fit_ok(
    x: (int, int),
    s: (int, int),
    e: (int, int),
    os: (int, int),
    oe: (int, int),
) -> bool {
    &&& q_fits(q_sub(x, s))
    &&& q_fits(q_sub(e, s))
    &&& q_fits(q_div(q_sub(x, s), q_sub(e, s)))
    &&& q_fits(q_sub(oe, os))
    &&& q_fits(q_mul(q_div(q_sub(x, s), q_sub(e, s)), q_sub(oe, os)))
    &&& q_fits(q_fit_val(x, s, e, os, oe))
}

/// A closed range `[start, end]` of the rational line.
#[derive(Clone, Copy, Debug)]
pub struct Interval {
    pub start: Rat,
    pub end: Rat,
}

impl Interval {
    /// Both endpoints carry positive denominators.
    pub open spec fn wf(self) -> bool {
        q_wf(self.start@) && q_wf(self.end@)
    }

    /// Build an interval from its endpoints.
    pub fn new(start: Rat, end: Rat) -> (r: Interval)
        ensures
            r.start == start,
            r.end == end,
    {
        Interval { start, end }
    }

    /// The lower endpoint.
    pub fn get_start(&self) -> (r: Rat)
        ensures
            r == self.start,
    {
        self.start
    }

    /// The upper endpoint.
    pub fn get_end(&self) -> (r: Rat)
        ensures
            r == self.end,
    {
        self.end
    }

    /// Whether `start <= x <= end` as rational values.
    pub fn contains(&self, x: Rat) -> (r: bool)
        requires
            self.wf(),
            x.wf(),
        ensures
            r == q_contains(self.start@, self.end@, x@),
    {
        self.start.le(x) && x.le(self.end)
    }

    /// Both endpoints multiplied by `s`; `None` only when a product cannot
    /// be represented.
    pub fn scale(&self, s: Rat) -> (r: Option<Interval>)
        requires
            self.wf(),
            s.wf(),
        ensures
            r matches Some(iv) ==> iv.wf() && q_reduction_of(iv.start@, q_mul(self.start@, s@))
                && q_reduction_of(iv.end@, q_mul(self.end@, s@)),
            q_fits(q_mul(self.start@, s@)) && q_fits(q_mul(self.end@, s@)) ==> r is Some,
    {
        let ns = match self.start.mul(s) {
            Some(v) => v,
            None => {
                return None;
            },
        };
        let ne = match self.end.mul(s) {
            Some(v) => v,
            None => {
                return None;
            },
        };
        Some(Interval { start: ns, end: ne })
    }

    /// Affine rescale of `point` from this interval's parametrization into
    /// `other`'s, preserving relative position. `None` only when an
    /// intermediate value cannot be represented; `q_fit_ok` guarantees
    /// success.
    pub fn fit_point_to(&self, point: Rat, other: Interval) -> (r: Option<Rat>)
        requires
            self.wf(),
            other.wf(),
            point.wf(),
            !q_eq(self.start@, self.end@),
        ensures
            r matches Some(c) ==> c.wf() && q_reduction_of(
                c@,
                q_fit_val(point@, self.start@, self.end@, other.start@, other.end@),
            ),
            q_fit_ok(point@, self.start@, self.end@, other.start@, other.end@) ==> r is Some,
    {
        let ghost xs = q_sub(point@, self.start@);
        let ghost ds = q_sub(self.end@, self.start@);
        let ghost qs = q_div(xs, ds);
        let ghost ws = q_sub(other.end@, other.start@);
        let ghost ms = q_mul(qs, ws);
        proof {
            lemma_q_ops_wf(point@, self.start@);
            lemma_q_ops_wf(self.end@, self.start@);
        }
        let t1 = match point.sub(self.start) {
            Some(v) => v,
            None => {
                return None;
            },
        };
        let t2 = match self.end.sub(self.start) {
            Some(v) => v,
            None => {
                return None;
            },
        };
        proof {
            lemma_reduction_eq(t2@, ds);
            lemma_red_div(t1@, xs, t2@, ds);
            lemma_q_ops_wf(t1@, t2@);
            lemma_q_ops_wf(xs, ds);
        }
        let t3 = match t1.div(t2) {
            Some(v) => v,
            None => {
                proof {
                    if q_fits(qs) {
                        lemma_reduction_fits(q_div(t1@, t2@), qs);
                    }
                }
                return None;
            },
        };
        proof {
            lemma_reduction_trans(t3@, q_div(t1@, t2@), qs);
            lemma_q_ops_wf(other.end@, other.start@);
        }
        let t4 = match other.end.sub(other.start) {
            Some(v) => v,
            None => {
                return None;
            },
        };
        proof {
            lemma_red_mul(t3@, qs, t4@, ws);
            lemma_q_ops_wf(t3@, t4@);
            lemma_q_ops_wf(qs, ws);
        }
        let t5 = match t3.mul(t4) {
            Some(v) => v,
            None => {
                proof {
                    if q_fits(ms) {
                        lemma_reduction_fits(q_mul(t3@, t4@), ms);
                    }
                }
                return None;
            },
        };
        proof {
            lemma_reduction_trans(t5@, q_mul(t3@, t4@), ms);
            lemma_reduction_refl(other.start@);
            lemma_red_add(other.start@, other.start@, t5@, ms);
            lemma_q_ops_wf(other.start@, t5@);
            lemma_q_ops_wf(other.start@, ms);
        }
        let res = match other.start.add(t5) {
            Some(v) => v,
            None => {
                proof {
                    if q_fits(q_add(other.start@, ms)) {
                        lemma_reduction_fits(q_add(other.start@, t5@), q_add(other.start@, ms));
                    }
                }
                return None;
            },
        };
        proof {
            lemma_reduction_trans(res@, q_add(other.start@, t5@), q_add(other.start@, ms));
        }
        Some(res)
    }
}

/// If every operand of a fit is replaced by a reduction of itself, the
/// fit chain still fits and its result is a reduction of the original.
pub proof fn lemma_fit_reduction(
    x2: (int, int),
    x: (int, int),
    s2: (int, int),
    s: (int, int),
    e2: (int, int),
    e: (int, int),
    os2: (int, int),
    os: (int, int),
    oe2: (int, int),
    oe: (int, int),
)
    requires
        q_wf(x2),
        q_wf(s2),
        q_wf(e2),
        q_wf(os2),
        q_wf(oe2),
        !q_eq(s2, e2),
        q_reduction_of(x2, x),
        q_reduction_of(s2, s),
        q_reduction_of(e2, e),
        q_reduction_of(os2, os),
        q_reduction_of(oe2, oe),
    ensures
        q_reduction_of(q_fit_val(x2, s2, e2, os2, oe2), q_fit_val(x, s, e, os, oe)),
        q_fit_ok(x, s, e, os, oe) ==> q_fit_ok(x2, s2, e2, os2, oe2),
{
    lemma_red_sub(x2, x, s2, s);
    lemma_red_sub(e2, e, s2, s);
    lemma_red_div(q_sub(x2, s2), q_sub(x, s), q_sub(e2, s2), q_sub(e, s));
    lemma_red_sub(oe2, oe, os2, os);
    lemma_red_mul(
        q_div(q_sub(x2, s2), q_sub(e2, s2)),
        q_div(q_sub(x, s), q_sub(e, s)),
        q_sub(oe2, os2),
        q_sub(oe, os),
    );
    lemma_red_add(
        os2,
        os,
        q_mul(q_div(q_sub(x2, s2), q_sub(e2, s2)), q_sub(oe2, os2)),
        q_mul(q_div(q_sub(x, s), q_sub(e, s)), q_sub(oe, os)),
    );
    lemma_q_ops_wf(x2, s2);
    lemma_q_ops_wf(e2, s2);
    lemma_q_ops_wf(oe2, os2);
    lemma_q_ops_wf(q_sub(x2, s2), q_sub(e2, s2));
    lemma_q_ops_wf(q_div(q_sub(x2, s2), q_sub(e2, s2)), q_sub(oe2, os2));
    lemma_q_ops_wf(
        os2,
        q_mul(q_div(q_sub(x2, s2), q_sub(e2, s2)), q_sub(oe2, os2)),
    );
    if q_fit_ok(x, s, e, os, oe) {
        lemma_reduction_fits(q_sub(x2, s2), q_sub(x, s));
        lemma_reduction_fits(q_sub(e2, s2), q_sub(e, s));
        lemma_reduction_fits(
            q_div(q_sub(x2, s2), q_sub(e2, s2)),
            q_div(q_sub(x, s), q_sub(e, s)),
        );
        lemma_reduction_fits(q_sub(oe2, os2), q_sub(oe, os));
        lemma_reduction_fits(
            q_mul(q_div(q_sub(x2, s2), q_sub(e2, s2)), q_sub(oe2, os2)),
            q_mul(q_div(q_sub(x, s), q_sub(e, s)), q_sub(oe, os)),
        );
        lemma_reduction_fits(q_fit_val(x2, s2, e2, os2, oe2), q_fit_val(x, s, e, os, oe));
    }
}

/// Fitting an interval's own lower endpoint lands on the target's lower
/// endpoint.
pub proof fn lemma_fit_preserves_start(s: (int, int), e: (int, int), os: (int, int), oe: (
    int,
    int,
))
    requires
        q_wf(s),
        q_wf(e),
        q_wf(os),
        q_wf(oe),
        !q_eq(s, e),
    ensures
        q_eq(q_fit_val(s, s, e, os, oe), os),
{
    let xs = q_sub(s, s);
    let ds = q_sub(e, s);
    let qs = q_div(xs, ds);
    let ws = q_sub(oe, os);
    let ms = q_mul(qs, ws);
    assert(xs.0 == 0);
    assert(ds.0 != 0);
    assert(qs.0 == 0);
    assert(ms.0 == 0);
    lemma_q_ops_wf(s, s);
    lemma_q_ops_wf(e, s);
    lemma_q_ops_wf(oe, os);
    lemma_q_ops_wf(xs, ds);
    lemma_q_ops_wf(qs, ws);
    lemma_q_ops_wf(os, ms);
    assert(q_eq(q_add(os, ms), os)) by (nonlinear_arith)
        requires
            ms.0 == 0,
            os.1 > 0,
            ms.1 > 0,
            q_add(os, ms) == ((os.0 * ms.1 + ms.0 * os.1, os.1 * ms.1)),
    ;
}

/// Fitting an interval's own upper endpoint lands on the target's upper
/// endpoint.
pub proof fn lemma_fit_preserves_end(s: (int, int), e: (int, int), os: (int, int), oe: (int, int))
    requires
        q_wf(s),
        q_wf(e),
        q_wf(os),
        q_wf(oe),
        !q_eq(s, e),
    ensures
        q_eq(q_fit_val(e, s, e, os, oe), oe),
{
    let ds = q_sub(e, s);
    let qs = q_div(ds, ds);
    let ws = q_sub(oe, os);
    let ms = q_mul(qs, ws);
    assert(ds.0 != 0);
    lemma_q_ops_wf(e, s);
    lemma_q_ops_wf(ds, ds);
    lemma_q_ops_wf(oe, os);
    assert(qs.0 == qs.1) by (nonlinear_arith)
        requires
            qs == q_div(ds, ds),
            q_div(ds, ds) == if ds.0 >= 0 {
                (ds.0 * ds.1, ds.1 * ds.0)
            } else {
                (-(ds.0 * ds.1), -(ds.1 * ds.0))
            },
    ;
    lemma_one_mul(qs, ws);
    lemma_q_ops_wf(qs, ws);
    lemma_q_ops_wf(os, ms);
    lemma_q_ops_wf(os, ws);
    assert(q_eq(os, os));
    lemma_add_congruence(os, os, ms, ws);
    lemma_add_sub_cancel(os, oe);
    lemma_q_eq_trans(q_add(os, ms), q_add(os, ws), oe);
}

/// The fit is monotonic: a larger input coordinate lands no lower in the
/// target interval, whenever the source interval increases and the target
/// does not decrease.
pub proof fn lemma_fit_monotonic(
    x1: (int, int),
    x2: (int, int),
    s: (int, int),
    e: (int, int),
    os: (int, int),
    oe: (int, int),
)
    requires
        q_wf(x1),
        q_wf(x2),
        q_wf(s),
        q_wf(e),
        q_wf(os),
        q_wf(oe),
        q_lt(s, e),
        q_le(os, oe),
        q_le(x1, x2),
    ensures
        q_le(q_fit_val(x1, s, e, os, oe), q_fit_val(x2, s, e, os, oe)),
{
    let d = q_sub(e, s);
    let w = q_sub(oe, os);
    assert(d.0 > 0);
    assert(w.0 >= 0);
    lemma_q_ops_wf(x1, s);
    lemma_q_ops_wf(x2, s);
    lemma_q_ops_wf(e, s);
    lemma_q_ops_wf(oe, os);
    lemma_sub_le_mono(x1, x2, s);
    lemma_div_pos_le_mono(q_sub(x1, s), q_sub(x2, s), d);
    lemma_q_ops_wf(q_sub(x1, s), d);
    lemma_q_ops_wf(q_sub(x2, s), d);
    lemma_mul_nonneg_le_mono(q_div(q_sub(x1, s), d), q_div(q_sub(x2, s), d), w);
    lemma_q_ops_wf(q_div(q_sub(x1, s), d), w);
    lemma_q_ops_wf(q_div(q_sub(x2, s), d), w);
    lemma_add_le_mono(os, q_mul(q_div(q_sub(x1, s), d), w), q_mul(q_div(q_sub(x2, s), d), w));
}

/// The fit is also monotonic when both intervals run downward: a larger
/// input coordinate still lands no lower in the target, because the two
/// reversals cancel.
pub proof fn lemma_fit_monotonic_reversed(
    x1: (int, int),
    x2: (int, int),
    s: (int, int),
    e: (int, int),
    os: (int, int),
    oe: (int, int),
)
    requires
        q_wf(x1),
        q_wf(x2),
        q_wf(s),
        q_wf(e),
        q_wf(os),
        q_wf(oe),
        q_lt(e, s),
        q_le(oe, os),
        q_le(x1, x2),
    ensures
        q_le(q_fit_val(x1, s, e, os, oe), q_fit_val(x2, s, e, os, oe)),
{
    let d = q_sub(e, s);
    let w = q_sub(oe, os);
    assert(d.0 < 0);
    assert(w.0 <= 0);
    lemma_q_ops_wf(x1, s);
    lemma_q_ops_wf(x2, s);
    lemma_q_ops_wf(e, s);
    lemma_q_ops_wf(oe, os);
    lemma_sub_le_mono(x1, x2, s);
    lemma_div_neg_le_anti(q_sub(x1, s), q_sub(x2, s), d);
    lemma_q_ops_wf(q_sub(x1, s), d);
    lemma_q_ops_wf(q_sub(x2, s), d);
    lemma_mul_nonpos_le_anti(q_div(q_sub(x2, s), d), q_div(q_sub(x1, s), d), w);
    lemma_q_ops_wf(q_div(q_sub(x1, s), d), w);
    lemma_q_ops_wf(q_div(q_sub(x2, s), d), w);
    lemma_add_le_mono(os, q_mul(q_div(q_sub(x1, s), d), w), q_mul(q_div(q_sub(x2, s), d), w));
}

} // verus!
