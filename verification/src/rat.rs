//! Exact rational numbers.
//!
//! Every coordinate in the branch world is a `Rat`: a fraction `num / den`
//! with `den > 0`, both held in `i64` fields. Arithmetic computes the
//! textbook numerator and denominator in 128-bit intermediates, divides out
//! the greatest common divisor, and returns `None` only when even the
//! reduced result does not fit back into the 64-bit fields.
//!
//! Specifications talk about a `Rat` through its view, a pair `(int, int)`
//! of numerator and denominator. The spec-level operators (`q_add`, `q_mul`,
//! ...) are the unreduced textbook operations; an executable result is
//! related to them by `q_reduction_of`, which says the stored pair is the
//! spec pair with a common factor divided out, hence the same value.

use vstd::prelude::*;
use vstd::arithmetic::div_mod::lemma_fundamental_div_mod;

verus! {

/// A pair is well formed when its denominator is positive.
pub open spec fn q_wf(q: (int, int)) -> bool {
    q.1 > 0
}

/// Unreduced sum of two fractions.
pub open spec fn q_add(a: (int, int), b: (int, int)) -> (int, int) {
    (a.0 * b.1 + b.0 * a.1, a.1 * b.1)
}

/// Unreduced difference of two fractions.
pub open spec fn q_sub(a: (int, int), b: (int, int)) -> (int, int) {
    (a.0 * b.1 - b.0 * a.1, a.1 * b.1)
}

/// Unreduced product of two fractions.
pub open spec fn q_mul(a: (int, int), b: (int, int)) -> (int, int) {
    (a.0 * b.0, a.1 * b.1)
}

/// Negation of a fraction.
pub open spec fn q_neg(a: (int, int)) -> (int, int) {
    (-a.0, a.1)
}

/// Unreduced quotient of two fractions, with the sign moved into the
/// numerator so that a well-formed divisor yields a well-formed result.
pub open spec fn q_div(a: (int, int), b: (int, int)) -> (int, int) {
    if b.0 >= 0 {
        (a.0 * b.1, a.1 * b.0)
    } else {
        (-(a.0 * b.1), -(a.1 * b.0))
    }
}

/// The two fractions denote the same rational value
/// (cross multiplication; meaningful when both are well formed).
pub open spec fn q_eq(a: (int, int), b: (int, int)) -> bool {
    a.0 * b.1 == b.0 * a.1
}

/// `a <= b` as rational values (meaningful when both are well formed).
pub open spec fn q_le(a: (int, int), b: (int, int)) -> bool {
    a.0 * b.1 <= b.0 * a.1
}

/// `a < b` as rational values (meaningful when both are well formed).
pub open spec fn q_lt(a: (int, int), b: (int, int)) -> bool {
    a.0 * b.1 < b.0 * a.1
}

/// The pair fits into the `i64` fields of a `Rat`.
pub open spec fn q_fits(q: (int, int)) -> bool {
    i64::MIN <= q.0 <= i64::MAX && 0 < q.1 <= i64::MAX
}

/// The pair denoting zero.
pub open spec fn q_zero() -> (int, int) {
    (0int, 1int)
}

/// The pair denoting one.
pub open spec fn q_one() -> (int, int) {
    (1int, 1int)
}

/// The absolute value of a fraction.
pub open spec fn q_abs(a: (int, int)) -> (int, int) {
    if a.0 >= 0 {
        a
    } else {
        q_neg(a)
    }
}

/// The pair denoting two.
pub open spec fn q_two() -> (int, int) {
    (2int, 1int)
}

/// The `n`-th power of a fraction, by repeated unreduced multiplication.
pub open spec fn q_pow(b: (int, int), n: nat) -> (int, int)
    decreases n,
{
    if n == 0 {
        q_one()
    } else {
        q_mul(q_pow(b, (n - 1) as nat), b)
    }
}

/// Every power up to the `n`-th fits into `i64` fields, so the
/// executable power is guaranteed to succeed.
pub open spec fn q_pow_ok(b: (int, int), n: nat) -> bool
    decreases n,
{
    if n == 0 {
        true
    } else {
        q_pow_ok(b, (n - 1) as nat) && q_fits(q_pow(b, n))
    }
}

/// Both components scaled by the same factor.
pub open spec fn q_scale(x: (int, int), g: int) -> (int, int) {
    (x.0 * g, x.1 * g)
}

/// `x` is `y` with a common factor `g >= 1` divided out of both components.
/// This keeps the value and the sign of the denominator.
pub open spec fn q_reduction_of(x: (int, int), y: (int, int)) -> bool {
    exists|g: int| g >= 1 && #[trigger] q_scale(x, g) == y
}

/// `g * k`, named so it can serve as a quantifier trigger.
pub open spec fn times(g: int, k: int) -> int {
    g * k
}

/// `g` divides `x`.
pub open spec fn divides(g: int, x: int) -> bool {
    exists|k: int| x == #[trigger] times(g, k)
}

/// The product of two values in `i64` range stays well inside `i128` range.
pub proof fn lemma_i64_prod_bound(a: int, b: int)
    by (nonlinear_arith)
    requires
        -0x8000_0000_0000_0000 <= a <= 0x7FFF_FFFF_FFFF_FFFF,
        -0x8000_0000_0000_0000 <= b <= 0x7FFF_FFFF_FFFF_FFFF,
    ensures
        -0x4000_0000_0000_0000_0000_0000_0000_0000 <= a * b
            <= 0x4000_0000_0000_0000_0000_0000_0000_0000,
{
}

/// The product of a value in `i64` range and a positive value in `i64`
/// range is small enough that two such products can be added or
/// subtracted inside `i128` range.
pub proof fn lemma_i64_prod_den_bound(a: int, b: int)
    by (nonlinear_arith)
    requires
        -0x8000_0000_0000_0000 <= a <= 0x7FFF_FFFF_FFFF_FFFF,
        1 <= b <= 0x7FFF_FFFF_FFFF_FFFF,
    ensures
        -0x3FFF_FFFF_FFFF_FFFF_8000_0000_0000_0000 <= a * b
            <= 0x3FFF_FFFF_FFFF_FFFF_8000_0000_0000_0000,
{
}

/// The product of two positive values is positive.
pub proof fn lemma_pos_prod(a: int, b: int)
    by (nonlinear_arith)
    requires
        a > 0,
        b > 0,
    ensures
        a * b > 0,
{
}

/// Dividing a nonnegative multiple of `g` by `g` is exact.
proof fn lemma_div_exact(m: int, g: int)
    requires
        g >= 1,
        0 <= m,
        divides(g, m),
    ensures
        m % g == 0,
        g * (m / g) == m,
{
    lemma_fundamental_div_mod(m, g);
    let k = choose|k: int| m == times(g, k);
    assert(m == g * k);
    assert(m % g == g * (k - m / g)) by (nonlinear_arith)
        requires
            m == g * k,
            m == g * (m / g) + m % g,
    ;
    if k - m / g >= 1 {
        assert(g * (k - m / g) >= g) by (nonlinear_arith)
            requires
                g >= 1,
                k - m / g >= 1,
        ;
        assert(false);
    }
    if k - m / g <= -1 {
        assert(g * (k - m / g) <= -g) by (nonlinear_arith)
            requires
                g >= 1,
                k - m / g <= -1,
        ;
        assert(false);
    }
    assert(k == m / g);
}

/// Greatest-common-divisor computation used to reduce fractions.
/// The contract only demands what reduction needs: the result is at
/// least one and divides both arguments.
fn gcd_i128(a0: i128, b0: i128) -> (g: i128)
    requires
        0 <= a0,
        0 < b0,
    ensures
        1 <= g,
        divides(g as int, a0 as int),
        divides(g as int, b0 as int),
{
    let mut a: i128 = a0;
    let mut b: i128 = b0;
    while b != 0
        invariant
            0 <= a,
            0 <= b,
            a > 0 || b > 0,
            forall|d: int|
                1 <= d && #[trigger] divides(d, a as int) && divides(d, b as int) ==> divides(
                    d,
                    a0 as int,
                ) && divides(d, b0 as int),
        decreases b,
    {
        let r: i128 = a % b;
        proof {
            lemma_fundamental_div_mod(a as int, b as int);
            assert forall|d: int|
                1 <= d && #[trigger] divides(d, b as int) && divides(d, r as int) implies divides(
                d,
                a as int,
            ) by {
                let k1 = choose|k: int| b as int == times(d, k);
                let k2 = choose|k: int| r as int == times(d, k);
                assert(a as int == d * (k1 * ((a as int) / (b as int))) + d * k2)
                    by (nonlinear_arith)
                    requires
                        b as int == d * k1,
                        r as int == d * k2,
                        a as int == (b as int) * ((a as int) / (b as int)) + r as int,
                ;
                assert(a as int == times(d, k1 * ((a as int) / (b as int)) + k2))
                    by (nonlinear_arith)
                    requires
                        a as int == d * (k1 * ((a as int) / (b as int))) + d * k2,
                ;
            }
        }
        a = b;
        b = r;
    }
    proof {
        assert(a as int == times(a as int, 1));
        assert(0int == times(a as int, 0));
        assert(divides(a as int, a as int));
        assert(divides(a as int, 0));
    }
    a
}

/// Products of four factors can be regrouped pairwise.
proof fn lemma_four_reassoc(p: int, q: int, r: int, s: int)
    by (nonlinear_arith)
    ensures
        (p * q) * (r * s) == (p * r) * (q * s),
{
}

/// Every pair is a reduction of itself.
pub proof fn lemma_reduction_refl(x: (int, int))
    ensures
        q_reduction_of(x, x),
{
    assert(q_scale(x, 1) == x);
}

/// Reductions compose.
pub proof fn lemma_reduction_trans(x: (int, int), y: (int, int), z: (int, int))
    requires
        q_reduction_of(x, y),
        q_reduction_of(y, z),
    ensures
        q_reduction_of(x, z),
{
    let g1 = choose|g: int| g >= 1 && #[trigger] q_scale(x, g) == y;
    let g2 = choose|g: int| g >= 1 && #[trigger] q_scale(y, g) == z;
    assert(g1 * g2 >= 1 && q_scale(x, g1 * g2) == z) by (nonlinear_arith)
        requires
            g1 >= 1,
            g2 >= 1,
            q_scale(x, g1) == y,
            q_scale(y, g2) == z,
            q_scale(x, g1 * g2) == (x.0 * (g1 * g2), x.1 * (g1 * g2)),
    ;
}

/// A reduction keeps the rational value and the denominator sign.
pub proof fn lemma_reduction_eq(x: (int, int), y: (int, int))
    requires
        q_reduction_of(x, y),
        q_wf(x),
    ensures
        q_eq(x, y),
        q_eq(y, x),
        q_wf(y),
        x.0 == 0 <==> y.0 == 0,
{
    let g = choose|g: int| g >= 1 && #[trigger] q_scale(x, g) == y;
    assert(x.0 * y.1 == y.0 * x.1 && y.0 * x.1 == x.0 * y.1 && y.1 > 0 && (x.0 == 0 <==> y.0
        == 0)) by (nonlinear_arith)
        requires
            g >= 1,
            x.1 > 0,
            y.0 == x.0 * g,
            y.1 == x.1 * g,
    ;
}

/// If the unreduced pair fits into `i64` fields, so does its reduction.
pub proof fn lemma_reduction_fits(x: (int, int), y: (int, int))
    requires
        q_reduction_of(x, y),
        q_wf(x),
        q_fits(y),
    ensures
        q_fits(x),
{
    let g = choose|g: int| g >= 1 && #[trigger] q_scale(x, g) == y;
    assert(i64::MIN <= x.0 <= i64::MAX && 0 < x.1 <= i64::MAX) by (nonlinear_arith)
        requires
            g >= 1,
            x.1 > 0,
            y.0 == x.0 * g,
            y.1 == x.1 * g,
            i64::MIN <= y.0 <= i64::MAX,
            0 < y.1 <= i64::MAX,
    ;
}

/// Reducing both operands of a sum reduces the sum.
pub proof fn lemma_red_add(a2: (int, int), a: (int, int), b2: (int, int), b: (int, int))
    requires
        q_reduction_of(a2, a),
        q_reduction_of(b2, b),
    ensures
        q_reduction_of(q_add(a2, b2), q_add(a, b)),
{
    let ga = choose|g: int| g >= 1 && #[trigger] q_scale(a2, g) == a;
    let gb = choose|g: int| g >= 1 && #[trigger] q_scale(b2, g) == b;
    let g = ga * gb;
    assert(g >= 1) by (nonlinear_arith)
        requires
            ga >= 1,
            gb >= 1,
            g == ga * gb,
    ;
    vstd::arithmetic::mul::lemma_mul_is_distributive_add_other_way(g, a2.0 * b2.1, b2.0 * a2.1);
    vstd::arithmetic::mul::lemma_mul_is_commutative(ga, gb);
    lemma_four_reassoc(a2.0, b2.1, ga, gb);
    lemma_four_reassoc(b2.0, a2.1, gb, ga);
    lemma_four_reassoc(a2.1, b2.1, ga, gb);
    assert(q_scale(q_add(a2, b2), g) == q_add(a, b));
}

/// Reducing both operands of a difference reduces the difference.
pub proof fn lemma_red_sub(a2: (int, int), a: (int, int), b2: (int, int), b: (int, int))
    requires
        q_reduction_of(a2, a),
        q_reduction_of(b2, b),
    ensures
        q_reduction_of(q_sub(a2, b2), q_sub(a, b)),
{
    let ga = choose|g: int| g >= 1 && #[trigger] q_scale(a2, g) == a;
    let gb = choose|g: int| g >= 1 && #[trigger] q_scale(b2, g) == b;
    let g = ga * gb;
    assert(g >= 1) by (nonlinear_arith)
        requires
            ga >= 1,
            gb >= 1,
            g == ga * gb,
    ;
    vstd::arithmetic::mul::lemma_mul_is_distributive_sub_other_way(g, a2.0 * b2.1, b2.0 * a2.1);
    vstd::arithmetic::mul::lemma_mul_is_commutative(ga, gb);
    lemma_four_reassoc(a2.0, b2.1, ga, gb);
    lemma_four_reassoc(b2.0, a2.1, gb, ga);
    lemma_four_reassoc(a2.1, b2.1, ga, gb);
    assert(q_scale(q_sub(a2, b2), g) == q_sub(a, b));
}

/// Reducing both operands of a product reduces the product.
pub proof fn lemma_red_mul(a2: (int, int), a: (int, int), b2: (int, int), b: (int, int))
    requires
        q_reduction_of(a2, a),
        q_reduction_of(b2, b),
    ensures
        q_reduction_of(q_mul(a2, b2), q_mul(a, b)),
{
    let ga = choose|g: int| g >= 1 && #[trigger] q_scale(a2, g) == a;
    let gb = choose|g: int| g >= 1 && #[trigger] q_scale(b2, g) == b;
    let g = ga * gb;
    assert(g >= 1) by (nonlinear_arith)
        requires
            ga >= 1,
            gb >= 1,
            g == ga * gb,
    ;
    lemma_four_reassoc(a2.0, b2.0, ga, gb);
    lemma_four_reassoc(a2.1, b2.1, ga, gb);
    assert(q_scale(q_mul(a2, b2), g) == q_mul(a, b));
}

/// Reducing the operand of a negation reduces the negation.
pub proof fn lemma_red_neg(a2: (int, int), a: (int, int))
    requires
        q_reduction_of(a2, a),
    ensures
        q_reduction_of(q_neg(a2), q_neg(a)),
{
    let ga = choose|g: int| g >= 1 && #[trigger] q_scale(a2, g) == a;
    assert(q_scale(q_neg(a2), ga) == q_neg(a)) by (nonlinear_arith)
        requires
            ga >= 1,
            q_scale(a2, ga) == a,
            q_neg(a2) == ((-a2.0, a2.1)),
            q_neg(a) == ((-a.0, a.1)),
            q_scale(q_neg(a2), ga) == (((-a2.0) * ga, a2.1 * ga)),
    ;
}

/// Reducing both operands of a quotient reduces the quotient.
pub proof fn lemma_red_div(a2: (int, int), a: (int, int), b2: (int, int), b: (int, int))
    requires
        q_reduction_of(a2, a),
        q_reduction_of(b2, b),
    ensures
        q_reduction_of(q_div(a2, b2), q_div(a, b)),
{
    let ga = choose|g: int| g >= 1 && #[trigger] q_scale(a2, g) == a;
    let gb = choose|g: int| g >= 1 && #[trigger] q_scale(b2, g) == b;
    assert((b2.0 >= 0 <==> b.0 >= 0)) by (nonlinear_arith)
        requires
            gb >= 1,
            b.0 == b2.0 * gb,
    ;
    let g = ga * gb;
    assert(g >= 1) by (nonlinear_arith)
        requires
            ga >= 1,
            gb >= 1,
            g == ga * gb,
    ;
    lemma_four_reassoc(a2.0, b2.1, ga, gb);
    lemma_four_reassoc(a2.1, b2.0, ga, gb);
    if b2.0 >= 0 {
        assert(q_scale(q_div(a2, b2), g) == q_div(a, b));
    } else {
        vstd::arithmetic::mul::lemma_mul_unary_negation(a2.0 * b2.1, g);
        vstd::arithmetic::mul::lemma_mul_unary_negation(a2.1 * b2.0, g);
        assert(q_scale(q_div(a2, b2), g) == q_div(a, b));
    }
}

/// A power chain that fits up to `n` fits at every earlier step.
pub proof fn lemma_q_pow_ok_prefix(b: (int, int), m: nat, n: nat)
    requires
        m <= n,
        q_pow_ok(b, n),
    ensures
        q_pow_ok(b, m),
        m > 0 ==> q_fits(q_pow(b, m)),
    decreases n,
{
    if m < n {
        lemma_q_pow_ok_prefix(b, m, (n - 1) as nat);
    }
}

/// Powers of a well-formed fraction are well formed.
pub proof fn lemma_q_pow_wf(b: (int, int), n: nat)
    requires
        q_wf(b),
    ensures
        q_wf(q_pow(b, n)),
    decreases n,
{
    if n > 0 {
        lemma_q_pow_wf(b, (n - 1) as nat);
        lemma_pos_prod(q_pow(b, (n - 1) as nat).1, b.1);
    }
}

/// A fitting power chain still fits when the base is replaced by a
/// reduction of itself.
pub proof fn lemma_q_pow_ok_reduction(b2: (int, int), b: (int, int), n: nat)
    requires
        q_wf(b2),
        q_reduction_of(b2, b),
        q_pow_ok(b, n),
    ensures
        q_pow_ok(b2, n),
    decreases n,
{
    if n > 0 {
        lemma_q_pow_ok_reduction(b2, b, (n - 1) as nat);
        lemma_red_pow(b2, b, n);
        lemma_q_pow_wf(b2, n);
        lemma_reduction_fits(q_pow(b2, n), q_pow(b, n));
    }
}

/// Reducing the operand of an absolute value reduces the absolute value.
pub proof fn lemma_red_abs(a2: (int, int), a: (int, int))
    requires
        q_reduction_of(a2, a),
    ensures
        q_reduction_of(q_abs(a2), q_abs(a)),
{
    let g = choose|g: int| g >= 1 && #[trigger] q_scale(a2, g) == a;
    assert((a2.0 >= 0 <==> a.0 >= 0)) by (nonlinear_arith)
        requires
            g >= 1,
            a.0 == a2.0 * g,
    ;
    if a2.0 >= 0 {
        assert(q_scale(q_abs(a2), g) == q_abs(a));
    } else {
        assert(q_scale(q_abs(a2), g) == q_abs(a)) by (nonlinear_arith)
            requires
                g >= 1,
                a.0 == a2.0 * g,
                a.1 == a2.1 * g,
                q_abs(a2) == ((-a2.0, a2.1)),
                q_abs(a) == ((-a.0, a.1)),
                q_scale(q_abs(a2), g) == (((-a2.0) * g, a2.1 * g)),
        ;
    }
}

/// Reducing the base of a power reduces every power.
pub proof fn lemma_red_pow(b2: (int, int), b: (int, int), n: nat)
    requires
        q_reduction_of(b2, b),
    ensures
        q_reduction_of(q_pow(b2, n), q_pow(b, n)),
    decreases n,
{
    if n == 0 {
        lemma_reduction_refl(q_one());
    } else {
        lemma_red_pow(b2, b, (n - 1) as nat);
        lemma_red_mul(q_pow(b2, (n - 1) as nat), q_pow(b, (n - 1) as nat), b2, b);
    }
}

/// Powers of a positive fraction stay positive.
pub proof fn lemma_q_pow_pos(b: (int, int), n: nat)
    requires
        b.0 > 0,
        b.1 > 0,
    ensures
        q_pow(b, n).0 > 0,
        q_pow(b, n).1 > 0,
    decreases n,
{
    if n > 0 {
        lemma_q_pow_pos(b, (n - 1) as nat);
        lemma_pos_prod(q_pow(b, (n - 1) as nat).0, b.0);
        lemma_pos_prod(q_pow(b, (n - 1) as nat).1, b.1);
    }
}

/// Comparisons depend only on the rational values compared, not on the
/// particular representations.
pub proof fn lemma_cmp_congruence(x: (int, int), x2: (int, int), y: (int, int), y2: (int, int))
    by (nonlinear_arith)
    requires
        q_wf(x),
        q_wf(x2),
        q_wf(y),
        q_wf(y2),
        q_eq(x, x2),
        q_eq(y, y2),
    ensures
        q_le(x, y) == q_le(x2, y2),
        q_lt(x, y) == q_lt(x2, y2),
        q_eq(x, y) == q_eq(x2, y2),
{
}

/// Value equality is symmetric and transitive on well-formed pairs.
pub proof fn lemma_q_eq_trans(x: (int, int), y: (int, int), z: (int, int))
    by (nonlinear_arith)
    requires
        q_wf(x),
        q_wf(y),
        q_wf(z),
        q_eq(x, y),
        q_eq(y, z),
    ensures
        q_eq(x, z),
{
}

/// The textbook operations keep denominators positive.
pub proof fn lemma_q_ops_wf(a: (int, int), b: (int, int))
    by (nonlinear_arith)
    requires
        q_wf(a),
        q_wf(b),
    ensures
        q_wf(q_add(a, b)),
        q_wf(q_sub(a, b)),
        q_wf(q_mul(a, b)),
        q_wf(q_neg(a)),
        b.0 != 0 ==> q_wf(q_div(a, b)),
{
}

/// Dividing by `b` and multiplying by `b` again gives back the value.
pub proof fn lemma_q_mul_div_cancel(a: (int, int), b: (int, int))
    by (nonlinear_arith)
    requires
        q_wf(a),
        q_wf(b),
        b.0 != 0,
    ensures
        q_eq(q_mul(q_div(a, b), b), a),
{
}

/// Multiplying by `b` and dividing by `b` again gives back the value.
pub proof fn lemma_q_div_mul_cancel(a: (int, int), b: (int, int))
    by (nonlinear_arith)
    requires
        q_wf(a),
        q_wf(b),
        b.0 != 0,
    ensures
        q_eq(q_div(q_mul(a, b), b), a),
{
}

/// Addition respects value equality of its operands.
pub proof fn lemma_add_congruence(a: (int, int), a2: (int, int), b: (int, int), b2: (int, int))
    requires
        q_wf(a),
        q_wf(a2),
        q_wf(b),
        q_wf(b2),
        q_eq(a, a2),
        q_eq(b, b2),
    ensures
        q_eq(q_add(a, b), q_add(a2, b2)),
{
    vstd::arithmetic::mul::lemma_mul_is_distributive_add_other_way(
        a2.1 * b2.1,
        a.0 * b.1,
        b.0 * a.1,
    );
    vstd::arithmetic::mul::lemma_mul_is_distributive_add_other_way(
        a.1 * b.1,
        a2.0 * b2.1,
        b2.0 * a2.1,
    );
    lemma_four_reassoc(a.0, b.1, a2.1, b2.1);
    lemma_four_reassoc(a2.0, a.1, b.1, b2.1);
    lemma_four_reassoc(b.0, a.1, b2.1, a2.1);
    lemma_four_reassoc(b2.0, b.1, a.1, a2.1);
    assert((a.0 * a2.1) * (b.1 * b2.1) == (a2.0 * a.1) * (b.1 * b2.1));
    assert((b.0 * b2.1) * (a.1 * a2.1) == (b2.0 * b.1) * (a.1 * a2.1));
    assert((a2.0 * a.1) * (b.1 * b2.1) == (a2.0 * b2.1) * (a.1 * b.1)) by (nonlinear_arith);
    assert((b2.0 * b.1) * (a.1 * a2.1) == (b2.0 * a2.1) * (a.1 * b.1)) by (nonlinear_arith);
    assert((a.0 * b.1) * (a2.1 * b2.1) == (a.0 * a2.1) * (b.1 * b2.1)) by (nonlinear_arith);
    assert((b.0 * a.1) * (a2.1 * b2.1) == (b.0 * b2.1) * (a.1 * a2.1)) by (nonlinear_arith);
}

/// Subtraction respects value equality of its operands.
pub proof fn lemma_sub_congruence(a: (int, int), a2: (int, int), b: (int, int), b2: (int, int))
    requires
        q_wf(a),
        q_wf(a2),
        q_wf(b),
        q_wf(b2),
        q_eq(a, a2),
        q_eq(b, b2),
    ensures
        q_eq(q_sub(a, b), q_sub(a2, b2)),
{
    assert(q_eq(q_neg(b), q_neg(b2))) by (nonlinear_arith)
        requires
            q_eq(b, b2),
    ;
    lemma_add_congruence(a, a2, q_neg(b), q_neg(b2));
    assert(q_add(a, q_neg(b)) == q_sub(a, b)) by (nonlinear_arith);
    assert(q_add(a2, q_neg(b2)) == q_sub(a2, b2)) by (nonlinear_arith);
}

/// Multiplication respects value equality of its operands.
pub proof fn lemma_mul_congruence(a: (int, int), a2: (int, int), b: (int, int), b2: (int, int))
    requires
        q_wf(a),
        q_wf(a2),
        q_wf(b),
        q_wf(b2),
        q_eq(a, a2),
        q_eq(b, b2),
    ensures
        q_eq(q_mul(a, b), q_mul(a2, b2)),
{
    lemma_four_reassoc(a.0, b.0, a2.1, b2.1);
    lemma_four_reassoc(a2.0, a.1, b.0, b2.1);
    lemma_four_reassoc(a2.0, b.0, a.1, b2.1);
    lemma_four_reassoc(a2.0, b2.0, a.1, b.1);
    assert((a.0 * b.0) * (a2.1 * b2.1) == (a.0 * a2.1) * (b.0 * b2.1));
    assert((a.0 * a2.1) * (b.0 * b2.1) == (a2.0 * a.1) * (b.0 * b2.1));
    assert((a2.0 * a.1) * (b.0 * b2.1) == (a2.0 * b.0) * (a.1 * b2.1)) by (nonlinear_arith);
    assert((a2.0 * b.0) * (a.1 * b2.1) == (a2.0 * (b.0 * b2.1)) * a.1) by (nonlinear_arith);
    assert((a2.0 * (b.0 * b2.1)) * a.1 == (a2.0 * (b2.0 * b.1)) * a.1) by (nonlinear_arith)
        requires
            b.0 * b2.1 == b2.0 * b.1,
    ;
    assert((a2.0 * (b2.0 * b.1)) * a.1 == (a2.0 * b2.0) * (a.1 * b.1)) by (nonlinear_arith);
}

/// Division respects value equality of its operands.
pub proof fn lemma_div_congruence(a: (int, int), a2: (int, int), b: (int, int), b2: (int, int))
    requires
        q_wf(a),
        q_wf(a2),
        q_wf(b),
        q_wf(b2),
        q_eq(a, a2),
        q_eq(b, b2),
        b.0 != 0,
        b2.0 != 0,
    ensures
        q_eq(q_div(a, b), q_div(a2, b2)),
{
    let r = q_div(a, b);
    let r2 = q_div(a2, b2);
    assert(q_wf(r) && q_wf(r2)) by {
        lemma_q_ops_wf(a, b);
        lemma_q_ops_wf(a2, b2);
    }
    lemma_q_mul_div_cancel(a, b);
    lemma_q_mul_div_cancel(a2, b2);
    // r * b == a and r2 * b2 == a2 as values, so r * b == r2 * b2 as
    // values; cancelling the equal nonzero factors b and b2 gives r == r2.
    assert(q_eq(q_mul(r, b), q_mul(r2, b2))) by {
        lemma_q_ops_wf(r, b);
        lemma_q_ops_wf(r2, b2);
        assert(q_eq(a2, q_mul(r2, b2))) by (nonlinear_arith)
            requires
                q_eq(q_mul(r2, b2), a2),
        ;
        lemma_q_eq_trans(q_mul(r, b), a, a2);
        lemma_q_eq_trans(q_mul(r, b), a2, q_mul(r2, b2));
    }
    assert(q_eq(r, r2)) by (nonlinear_arith)
        requires
            q_eq(q_mul(r, b), q_mul(r2, b2)),
            q_eq(b, b2),
            q_mul(r, b) == ((r.0 * b.0, r.1 * b.1)),
            q_mul(r2, b2) == ((r2.0 * b2.0, r2.1 * b2.1)),
            b.0 != 0,
            b2.0 != 0,
            r.1 > 0,
            r2.1 > 0,
            b.1 > 0,
            b2.1 > 0,
    ;
}

/// Adding a difference back restores the value: `os + (oe - os) == oe`.
pub proof fn lemma_add_sub_cancel(os: (int, int), oe: (int, int))
    by (nonlinear_arith)
    requires
        q_wf(os),
        q_wf(oe),
    ensures
        q_eq(q_add(os, q_sub(oe, os)), oe),
{
}

/// Adding a value and then its negation restores the original value.
pub proof fn lemma_add_neg_cancel(a: (int, int), b: (int, int))
    by (nonlinear_arith)
    requires
        q_wf(a),
        q_wf(b),
    ensures
        q_eq(q_add(q_add(a, b), q_neg(b)), a),
{
}

/// Equal values are zero together.
pub proof fn lemma_q_eq_zero_iff(x: (int, int), y: (int, int))
    by (nonlinear_arith)
    requires
        q_wf(x),
        q_wf(y),
        q_eq(x, y),
    ensures
        x.0 == 0 <==> y.0 == 0,
{
}

/// Addition of values is commutative.
pub proof fn lemma_q_add_comm(a: (int, int), b: (int, int))
    by (nonlinear_arith)
    requires
        q_wf(a),
        q_wf(b),
    ensures
        q_eq(q_add(a, b), q_add(b, a)),
{
}

/// The monomial regroupings behind the division distribution law.
proof fn lemma_div_distr_mono(x: int, a1: int, b1: int, c0: int, c1: int)
    ensures
        ((x * b1) * c1) * ((a1 * c0) * (b1 * c0)) == ((x * c1) * (b1 * c0)) * ((a1 * b1) * c0),
        ((x * a1) * c1) * ((a1 * c0) * (b1 * c0)) == ((x * c1) * (a1 * c0)) * ((a1 * b1) * c0),
{
    vstd::arithmetic::mul::lemma_mul_is_associative(c1, b1, c0);
    lemma_four_reassoc(x * b1, c1, a1 * c0, b1 * c0);
    lemma_four_reassoc(x, b1, a1, c0);
    lemma_four_reassoc(x * c1, b1 * c0, a1 * b1, c0);
    lemma_four_reassoc(x, c1, a1, b1);
    lemma_four_reassoc(x * a1, c1 * b1, b1 * c0, c0);
    assert(((x * b1) * c1) * ((a1 * c0) * (b1 * c0)) == ((x * a1) * (b1 * c0)) * (c1 * (b1
        * c0)));
    assert(((x * c1) * (b1 * c0)) * ((a1 * b1) * c0) == ((x * a1) * (b1 * c0)) * ((c1 * b1)
        * c0));
    lemma_four_reassoc(x * a1, c1, a1 * c0, b1 * c0);
    lemma_four_reassoc(x * c1, a1 * c0, a1 * b1, c0);
    lemma_four_reassoc(x * a1, c1 * b1, a1 * c0, c0);
    assert(((x * a1) * c1) * ((a1 * c0) * (b1 * c0)) == ((x * a1) * (a1 * c0)) * (c1 * (b1
        * c0)));
    assert(((x * c1) * (a1 * c0)) * ((a1 * b1) * c0) == ((x * a1) * (a1 * c0)) * ((c1 * b1)
        * c0));
}

/// Division by a positive value distributes over addition.
#[verifier::rlimit(50)]
pub proof fn lemma_div_add_distr(a: (int, int), b: (int, int), c: (int, int))
    requires
        q_wf(a),
        q_wf(b),
        q_wf(c),
        c.0 > 0,
    ensures
        q_eq(q_div(q_add(a, b), c), q_add(q_div(a, c), q_div(b, c))),
{
    let lnum = (a.0 * b.1 + b.0 * a.1) * c.1;
    let lden = (a.1 * b.1) * c.0;
    let rnum = (a.0 * c.1) * (b.1 * c.0) + (b.0 * c.1) * (a.1 * c.0);
    let rden = (a.1 * c.0) * (b.1 * c.0);
    assert(q_div(q_add(a, b), c) == (lnum, lden));
    assert(q_add(q_div(a, c), q_div(b, c)) == (rnum, rden));
    vstd::arithmetic::mul::lemma_mul_is_distributive_add_other_way(c.1, a.0 * b.1, b.0 * a.1);
    vstd::arithmetic::mul::lemma_mul_is_distributive_add_other_way(
        rden,
        (a.0 * b.1) * c.1,
        (b.0 * a.1) * c.1,
    );
    vstd::arithmetic::mul::lemma_mul_is_distributive_add_other_way(
        lden,
        (a.0 * c.1) * (b.1 * c.0),
        (b.0 * c.1) * (a.1 * c.0),
    );
    lemma_div_distr_mono(a.0, a.1, b.1, c.0, c.1);
    lemma_div_distr_mono(b.0, a.1, b.1, c.0, c.1);
    assert(lnum * rden == rnum * lden);
}

/// Subtracting the same value keeps the order.
pub proof fn lemma_sub_le_mono(x1: (int, int), x2: (int, int), s: (int, int))
    by (nonlinear_arith)
    requires
        q_wf(x1),
        q_wf(x2),
        q_wf(s),
        q_le(x1, x2),
    ensures
        q_le(q_sub(x1, s), q_sub(x2, s)),
{
}

/// Dividing by the same positive value keeps the order.
pub proof fn lemma_div_pos_le_mono(a1: (int, int), a2: (int, int), d: (int, int))
    by (nonlinear_arith)
    requires
        q_wf(a1),
        q_wf(a2),
        d.0 > 0,
        d.1 > 0,
        q_le(a1, a2),
    ensures
        q_le(q_div(a1, d), q_div(a2, d)),
{
}

/// Multiplying by the same nonnegative value keeps the order.
pub proof fn lemma_mul_nonneg_le_mono(t1: (int, int), t2: (int, int), w: (int, int))
    by (nonlinear_arith)
    requires
        q_wf(t1),
        q_wf(t2),
        q_wf(w),
        w.0 >= 0,
        q_le(t1, t2),
    ensures
        q_le(q_mul(t1, w), q_mul(t2, w)),
{
}

/// Adding the same value keeps the order.
pub proof fn lemma_add_le_mono(c: (int, int), u1: (int, int), u2: (int, int))
    requires
        q_wf(c),
        q_wf(u1),
        q_wf(u2),
        q_le(u1, u2),
    ensures
        q_le(q_add(c, u1), q_add(c, u2)),
{
    vstd::arithmetic::mul::lemma_mul_is_distributive_add_other_way(
        c.1 * u2.1,
        c.0 * u1.1,
        u1.0 * c.1,
    );
    vstd::arithmetic::mul::lemma_mul_is_distributive_add_other_way(
        c.1 * u1.1,
        c.0 * u2.1,
        u2.0 * c.1,
    );
    lemma_four_reassoc(c.0, u1.1, c.1, u2.1);
    lemma_four_reassoc(c.0, u2.1, c.1, u1.1);
    vstd::arithmetic::mul::lemma_mul_is_commutative(u1.1, u2.1);
    assert((c.0 * u1.1) * (c.1 * u2.1) == (c.0 * u2.1) * (c.1 * u1.1));
    assert((u1.0 * c.1) * (c.1 * u2.1) == (u1.0 * u2.1) * (c.1 * c.1)) by (nonlinear_arith);
    assert((u2.0 * c.1) * (c.1 * u1.1) == (u2.0 * u1.1) * (c.1 * c.1)) by (nonlinear_arith);
    assert((u1.0 * u2.1) * (c.1 * c.1) <= (u2.0 * u1.1) * (c.1 * c.1)) by (nonlinear_arith)
        requires
            u1.0 * u2.1 <= u2.0 * u1.1,
            c.1 > 0,
    ;
}

/// Dividing by the same negative value reverses the order.
pub proof fn lemma_div_neg_le_anti(a1: (int, int), a2: (int, int), d: (int, int))
    by (nonlinear_arith)
    requires
        q_wf(a1),
        q_wf(a2),
        d.0 < 0,
        d.1 > 0,
        q_le(a1, a2),
    ensures
        q_le(q_div(a2, d), q_div(a1, d)),
{
}

/// Multiplying by the same nonpositive value reverses the order.
pub proof fn lemma_mul_nonpos_le_anti(t1: (int, int), t2: (int, int), w: (int, int))
    by (nonlinear_arith)
    requires
        q_wf(t1),
        q_wf(t2),
        q_wf(w),
        w.0 <= 0,
        q_le(t1, t2),
    ensures
        q_le(q_mul(t2, w), q_mul(t1, w)),
{
}

/// Multiplying by a fraction whose numerator equals its denominator
/// keeps the value.
pub proof fn lemma_one_mul(c: (int, int), t: (int, int))
    by (nonlinear_arith)
    requires
        c.1 > 0,
        c.0 == c.1,
        q_wf(t),
    ensures
        q_eq(q_mul(c, t), t),
{
}

/// An exact rational number `num / den` with `den > 0`.
#[derive(Clone, Copy, Debug)]
pub struct Rat {
    num: i64,
    den: i64,
}

impl View for Rat {
    type V = (int, int);

    closed spec fn view(&self) -> (int, int) {
        (self.num as int, self.den as int)
    }
}

impl Rat {
    /// The stored denominator is positive.
    pub open spec fn wf(self) -> bool {
        q_wf(self@)
    }

    /// A stored rational always fits its own fields.
    pub proof fn lemma_fits(self)
        requires
            self.wf(),
        ensures
            q_fits(self@),
    {
    }

    /// Build a rational from a numerator and a positive denominator.
    pub fn new(num: i64, den: i64) -> (r: Rat)
        requires
            den > 0,
        ensures
            r@ == (num as int, den as int),
            r.wf(),
    {
        Rat { num, den }
    }

    /// The whole number `n`.
    pub fn from_int(n: i64) -> (r: Rat)
        ensures
            r@ == (n as int, 1int),
            r.wf(),
    {
        Rat { num: n, den: 1 }
    }

    /// Zero.
    pub fn zero() -> (r: Rat)
        ensures
            r@ == (0int, 1int),
            r.wf(),
    {
        Rat { num: 0, den: 1 }
    }

    /// The stored numerator.
    pub fn num(self) -> (r: i64)
        ensures
            r as int == self@.0,
    {
        self.num
    }

    /// The stored denominator.
    pub fn den(self) -> (r: i64)
        ensures
            r as int == self@.1,
    {
        self.den
    }

    /// Reduce a 128-bit numerator/denominator pair by its greatest common
    /// divisor and narrow it into a `Rat`; `None` when even the reduced
    /// pair is out of `i64` range, in which case the given pair itself
    /// cannot fit either.
    fn from_i128(n: i128, d: i128) -> (r: Option<Rat>)
        requires
            n > i128::MIN,
            d >= 1,
        ensures
            r is None ==> !q_fits((n as int, d as int)),
            r matches Some(c) ==> c.wf() && q_reduction_of(c@, (n as int, d as int)),
    {
        let m: i128 = if n < 0 {
            -n
        } else {
            n
        };
        let g: i128 = gcd_i128(m, d);
        proof {
            lemma_div_exact(m as int, g as int);
            lemma_div_exact(d as int, g as int);
        }
        let m2: i128 = m / g;
        let d2: i128 = d / g;
        let n2: i128 = if n < 0 {
            -m2
        } else {
            m2
        };
        proof {
            assert((g as int) * (d2 as int) >= d2 as int && (g as int) * (m2 as int) >= m2 as int
                && d2 as int >= 1) by (nonlinear_arith)
                requires
                    g as int >= 1,
                    m2 as int >= 0,
                    d as int >= 1,
                    (g as int) * (d2 as int) == d as int,
                    (g as int) * (m2 as int) == m as int,
            ;
        }
        if n2 >= -0x7FFF_FFFF_FFFF_FFFF - 1 && n2 <= 0x7FFF_FFFF_FFFF_FFFF && d2
            <= 0x7FFF_FFFF_FFFF_FFFF {
            let c = Rat { num: n2 as i64, den: d2 as i64 };
            proof {
                assert(q_scale(c@, g as int) == (n as int, d as int)) by (nonlinear_arith)
                    requires
                        g as int >= 1,
                        (g as int) * (m2 as int) == m as int,
                        (g as int) * (d2 as int) == d as int,
                        c@.0 == n2 as int,
                        c@.1 == d2 as int,
                        n2 as int == if n < 0 {
                            -(m2 as int)
                        } else {
                            m2 as int
                        },
                        m as int == if n < 0 {
                            -(n as int)
                        } else {
                            n as int
                        },
                ;
                assert(q_reduction_of(c@, (n as int, d as int)));
            }
            Some(c)
        } else {
            proof {
                if d2 > 0x7FFF_FFFF_FFFF_FFFF {
                    assert(d as int > 0x7FFF_FFFF_FFFF_FFFF) by (nonlinear_arith)
                        requires
                            g as int >= 1,
                            d2 as int > 0x7FFF_FFFF_FFFF_FFFF,
                            (g as int) * (d2 as int) == d as int,
                    ;
                } else {
                    assert(m as int > 0x7FFF_FFFF_FFFF_FFFF) by (nonlinear_arith)
                        requires
                            g as int >= 1,
                            m2 as int > 0x7FFF_FFFF_FFFF_FFFF,
                            (g as int) * (m2 as int) == m as int,
                    ;
                }
            }
            None
        }
    }

    /// Exact sum; `None` only when the sum cannot be represented.
    pub fn add(self, other: Rat) -> (r: Option<Rat>)
        requires
            self.wf(),
            other.wf(),
        ensures
            r is None ==> !q_fits(q_add(self@, other@)),
            r matches Some(c) ==> c.wf() && q_reduction_of(c@, q_add(self@, other@)),
    {
        proof {
            lemma_i64_prod_den_bound(self@.0, other@.1);
            lemma_i64_prod_den_bound(other@.0, self@.1);
            lemma_i64_prod_bound(self@.1, other@.1);
            lemma_pos_prod(self@.1, other@.1);
        }
        let n: i128 = (self.num as i128) * (other.den as i128) + (other.num as i128) * (self.den
            as i128);
        let d: i128 = (self.den as i128) * (other.den as i128);
        Rat::from_i128(n, d)
    }

    /// Exact difference; `None` only when it cannot be represented.
    pub fn sub(self, other: Rat) -> (r: Option<Rat>)
        requires
            self.wf(),
            other.wf(),
        ensures
            r is None ==> !q_fits(q_sub(self@, other@)),
            r matches Some(c) ==> c.wf() && q_reduction_of(c@, q_sub(self@, other@)),
    {
        proof {
            lemma_i64_prod_den_bound(self@.0, other@.1);
            lemma_i64_prod_den_bound(other@.0, self@.1);
            lemma_i64_prod_bound(self@.1, other@.1);
            lemma_pos_prod(self@.1, other@.1);
        }
        let n: i128 = (self.num as i128) * (other.den as i128) - (other.num as i128) * (self.den
            as i128);
        let d: i128 = (self.den as i128) * (other.den as i128);
        Rat::from_i128(n, d)
    }

    /// Exact product; `None` only when it cannot be represented.
    pub fn mul(self, other: Rat) -> (r: Option<Rat>)
        requires
            self.wf(),
            other.wf(),
        ensures
            r is None ==> !q_fits(q_mul(self@, other@)),
            r matches Some(c) ==> c.wf() && q_reduction_of(c@, q_mul(self@, other@)),
    {
        proof {
            lemma_i64_prod_bound(self@.0, other@.0);
            lemma_i64_prod_bound(self@.1, other@.1);
            lemma_pos_prod(self@.1, other@.1);
        }
        let n: i128 = (self.num as i128) * (other.num as i128);
        let d: i128 = (self.den as i128) * (other.den as i128);
        Rat::from_i128(n, d)
    }

    /// Exact negation; `None` only when it cannot be represented.
    pub fn neg(self) -> (r: Option<Rat>)
        requires
            self.wf(),
        ensures
            r is None ==> !q_fits(q_neg(self@)),
            r matches Some(c) ==> c.wf() && q_reduction_of(c@, q_neg(self@)),
    {
        Rat::from_i128(-(self.num as i128), self.den as i128)
    }

    /// Exact quotient by a nonzero divisor; `None` only when it cannot be
    /// represented.
    pub fn div(self, other: Rat) -> (r: Option<Rat>)
        requires
            self.wf(),
            other.wf(),
            other@.0 != 0,
        ensures
            r is None ==> !q_fits(q_div(self@, other@)),
            r matches Some(c) ==> c.wf() && q_reduction_of(c@, q_div(self@, other@)),
    {
        proof {
            lemma_i64_prod_bound(self@.0, other@.1);
            lemma_i64_prod_bound(self@.1, other@.0);
        }
        let n: i128 = (self.num as i128) * (other.den as i128);
        let d: i128 = (self.den as i128) * (other.num as i128);
        if other.num >= 0 {
            proof {
                lemma_pos_prod(self@.1, other@.0);
            }
            Rat::from_i128(n, d)
        } else {
            proof {
                lemma_pos_prod(self@.1, -other@.0);
                assert((self@.1) * (-other@.0) == -((self@.1) * other@.0)) by (nonlinear_arith);
            }
            Rat::from_i128(-n, -d)
        }
    }

    /// `self <= other` as rational values.
    pub fn le(self, other: Rat) -> (r: bool)
        requires
            self.wf(),
            other.wf(),
        ensures
            r == q_le(self@, other@),
    {
        proof {
            lemma_i64_prod_bound(self@.0, other@.1);
            lemma_i64_prod_bound(other@.0, self@.1);
        }
        (self.num as i128) * (other.den as i128) <= (other.num as i128) * (self.den as i128)
    }

    /// `self < other` as rational values.
    pub fn lt(self, other: Rat) -> (r: bool)
        requires
            self.wf(),
            other.wf(),
        ensures
            r == q_lt(self@, other@),
    {
        proof {
            lemma_i64_prod_bound(self@.0, other@.1);
            lemma_i64_prod_bound(other@.0, self@.1);
        }
        (self.num as i128) * (other.den as i128) < (other.num as i128) * (self.den as i128)
    }

    /// `self == other` as rational values.
    pub fn value_eq(self, other: Rat) -> (r: bool)
        requires
            self.wf(),
            other.wf(),
        ensures
            r == q_eq(self@, other@),
    {
        proof {
            lemma_i64_prod_bound(self@.0, other@.1);
            lemma_i64_prod_bound(other@.0, self@.1);
        }
        (self.num as i128) * (other.den as i128) == (other.num as i128) * (self.den as i128)
    }

    /// The value is exactly zero.
    pub fn is_zero(self) -> (r: bool)
        requires
            self.wf(),
        ensures
            r == (self@.0 == 0),
    {
        self.num == 0
    }

    /// The absolute value; `None` only when it cannot be represented.
    pub fn abs(self) -> (r: Option<Rat>)
        requires
            self.wf(),
        ensures
            r is None ==> !q_fits(q_abs(self@)),
            r matches Some(c) ==> c.wf() && q_reduction_of(c@, q_abs(self@)),
    {
        if self.num >= 0 {
            proof {
                lemma_reduction_refl(self@);
            }
            Some(self)
        } else {
            self.neg()
        }
    }

    /// The `n`-th power; `None` only when an intermediate power cannot be
    /// represented, and success is owed whenever every power of the chain
    /// fits.
    pub fn pow(self, n: usize) -> (r: Option<Rat>)
        requires
            self.wf(),
        ensures
            q_pow_ok(self@, n as nat) ==> r is Some,
            r matches Some(c) ==> c.wf() && q_reduction_of(c@, q_pow(self@, n as nat)),
    {
        let mut acc: Rat = Rat::from_int(1);
        let mut i: usize = 0;
        proof {
            lemma_reduction_refl(acc@);
        }
        while i < n
            invariant
                i <= n,
                acc.wf(),
                self.wf(),
                q_reduction_of(acc@, q_pow(self@, i as nat)),
            decreases n - i,
        {
            let ghost prev = acc@;
            let next = match acc.mul(self) {
                Some(v) => v,
                None => {
                    proof {
                        if q_pow_ok(self@, n as nat) {
                            lemma_q_pow_ok_prefix(self@, (i + 1) as nat, n as nat);
                            lemma_reduction_refl(self@);
                            lemma_red_mul(prev, q_pow(self@, i as nat), self@, self@);
                            lemma_q_ops_wf(prev, self@);
                            lemma_reduction_fits(
                                q_mul(prev, self@),
                                q_pow(self@, (i + 1) as nat),
                            );
                        }
                    }
                    return None;
                },
            };
            proof {
                lemma_reduction_refl(self@);
                lemma_red_mul(prev, q_pow(self@, i as nat), self@, self@);
                lemma_reduction_trans(
                    next@,
                    q_mul(prev, self@),
                    q_mul(q_pow(self@, i as nat), self@),
                );
            }
            acc = next;
            i = i + 1;
        }
        Some(acc)
    }
}

} // verus!
