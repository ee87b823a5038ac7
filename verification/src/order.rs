//! Rounding keeps the order: what is larger before it is rounded is not
//! smaller afterwards.
use crate::arith::{lemma_root_exists, lemma_signed, rooted, signed};
use crate::rounding::{error, lemma_rounded, lemma_rounding_exists, lemma_rounds_to_zero, rounded};
use crate::scalar::{lemma_weight_increases, weight, Scalar, INFINITE};
use crate::symmetry::lemma_size;
use crate::vectors::Vector3;
use vstd::arithmetic::power2::{lemma_pow2_pos, pow2};
use vstd::prelude::*;

verus! {

/// A larger ratio rounds to no smaller magnitude.
pub proof fn lemma_rounded_grows(n1: int, d1: int, n2: int, d2: int)
    requires
        0 <= n1,
        0 < d1,
        0 < d2,
        n1 * d2 <= n2 * d1,
    ensures
        rounded(n1, d1) <= rounded(n2, d2),
{
    assert(0 <= n2) by (nonlinear_arith)
        requires
            0 <= n1,
            0 < d1,
            0 < d2,
            n1 * d2 <= n2 * d1,
    ;
    lemma_rounding_exists(n1, d1);
    lemma_rounding_exists(n2, d2);
    let m1 = rounded(n1, d1);
    let m2 = rounded(n2, d2);
    if m2 < m1 {
        lemma_weight_increases(m2, m1);
        let (w1, w2) = (weight(m1), weight(m2));
        assert(error(m1, n1, d1) <= error(m2, n1, d1));
        assert(error(m2, n2, d2) <= error(m1, n2, d2));
        assert(w2 * d1 < w1 * d1 && w2 * d2 < w1 * d2) by (nonlinear_arith)
            requires
                w2 < w1,
                d1 > 0,
                d2 > 0,
        ;
        // the first ratio lies at or above the point half way, the second at or below
        assert(2 * n1 >= w1 * d1 + w2 * d1);
        assert(2 * n2 <= w1 * d2 + w2 * d2);
        assert(2 * n1 == w1 * d1 + w2 * d1 && 2 * n2 == w1 * d2 + w2 * d2) by (nonlinear_arith)
            requires
                2 * n1 >= w1 * d1 + w2 * d1,
                2 * n2 <= w1 * d2 + w2 * d2,
                n1 * d2 <= n2 * d1,
                d1 > 0,
                d2 > 0,
        ;
        // both are ties, so both magnitudes are even, and one lies between them
        assert(error(m2, n1, d1) == error(m1, n1, d1));
        assert(error(m1, n2, d2) == error(m2, n2, d2));
        assert(m1 % 2 == 0 && m2 % 2 == 0);
        let c = m2 + 1;
        lemma_weight_increases(m2, c);
        lemma_weight_increases(c, m1);
        let wc = weight(c);
        assert(w2 * d1 < wc * d1 && wc * d1 < w1 * d1) by (nonlinear_arith)
            requires
                w2 < wc < w1,
                d1 > 0,
        ;
        assert(error(m1, n1, d1) <= error(c, n1, d1));
    }
}

/// What a number of a given sign and magnitude is worth.
pub proof fn lemma_signed_value(negative: bool, m: int)
    requires
        0 <= m <= INFINITE,
    ensures
        signed(negative, m).value() == if negative { -weight(m) } else { weight(m) },
        0 <= weight(m) <= weight(INFINITE as int),
{
    lemma_signed(negative, m);
    if 0 < m {
        lemma_weight_increases(0, m);
    }
    if m < INFINITE {
        lemma_weight_increases(m, INFINITE as int);
    }
}

/// No number is worth more than infinity or less than its opposite.
pub proof fn lemma_value_bounds(x: Scalar)
    requires
        !x.nan(),
    ensures
        -weight(INFINITE as int) <= x.value() <= weight(INFINITE as int),
        x.infinite() <==> (x.value() == weight(INFINITE as int) || x.value() == -weight(INFINITE as int)),
        x.value() > 0 ==> !x.negative(),
        x.value() < 0 ==> x.negative(),
{
    let m = x.magnitude();
    if 0 < m {
        lemma_weight_increases(0, m);
    }
    if m < INFINITE {
        lemma_weight_increases(m, INFINITE as int);
    }
}

/// A sum does not shrink when a term grows.
pub proof fn lemma_add_grows(x: Scalar, y1: Scalar, y2: Scalar)
    requires
        !x.spec_add(y1).nan(),
        !x.spec_add(y2).nan(),
        y1.value() <= y2.value(),
    ensures
        x.spec_add(y1).value() <= x.spec_add(y2).value(),
{
    lemma_value_bounds(x);
    lemma_value_bounds(y1);
    lemma_value_bounds(y2);
    let r1 = x.spec_add(y1);
    let r2 = x.spec_add(y2);
    if x.infinite() {
    } else if y1.infinite() || y2.infinite() {
        if !y1.infinite() {
            lemma_sum_value(x, y1);
        }
        if !y2.infinite() {
            lemma_sum_value(x, y2);
        }
    } else {
        lemma_sum_value(x, y1);
        lemma_sum_value(x, y2);
        let s1 = x.value() + y1.value();
        let s2 = x.value() + y2.value();
        if 0 < s1 {
            lemma_rounded_grows(s1, 1, s2, 1);
            lemma_rounding_exists(s1, 1);
            lemma_rounding_exists(s2, 1);
            if rounded(s1, 1) < rounded(s2, 1) {
                lemma_weight_increases(rounded(s1, 1), rounded(s2, 1));
            }
        } else if s2 < 0 {
            lemma_rounded_grows(-s2, 1, -s1, 1);
            lemma_rounding_exists(-s1, 1);
            lemma_rounding_exists(-s2, 1);
            if rounded(-s2, 1) < rounded(-s1, 1) {
                lemma_weight_increases(rounded(-s2, 1), rounded(-s1, 1));
            }
        }
    }
}

/// The sum of two finite numbers has the sign of the exact sum, and is
/// worth what that rounds to.
pub proof fn lemma_sum_value(x: Scalar, y: Scalar)
    requires
        x.finite(),
        y.finite(),
    ensures
        ({
            let sum = x.value() + y.value();
            let r = x.spec_add(y);
            &&& !r.nan()
            &&& sum == 0 ==> r.value() == 0
            &&& sum > 0 ==> r.value() == weight(rounded(sum, 1)) && !r.negative()
            &&& sum < 0 ==> r.value() == -weight(rounded(-sum, 1)) && r.negative()
            &&& -weight(INFINITE as int) <= r.value() <= weight(INFINITE as int)
        }),
{
    let sum = x.value() + y.value();
    lemma_signed_value(true, 0);
    lemma_signed_value(false, 0);
    if sum > 0 {
        lemma_rounding_exists(sum, 1);
        lemma_signed_value(false, rounded(sum, 1));
    } else if sum < 0 {
        lemma_rounding_exists(-sum, 1);
        lemma_signed_value(true, rounded(-sum, 1));
    }
}

/// A quotient does not shrink when the number divided grows, the divisor
/// having its sign bit clear.
pub proof fn lemma_div_grows(x1: Scalar, x2: Scalar, a: Scalar)
    requires
        !a.negative(),
        !x1.spec_div(a).nan(),
        !x2.spec_div(a).nan(),
        x1.value() <= x2.value(),
    ensures
        x1.spec_div(a).value() <= x2.spec_div(a).value(),
{
    lemma_value_bounds(x1);
    lemma_value_bounds(x2);
    lemma_size(x1);
    lemma_size(x2);
    lemma_size(a);
    lemma_signed_value(true, INFINITE as int);
    lemma_signed_value(false, INFINITE as int);
    lemma_signed_value(true, 0);
    lemma_signed_value(false, 0);
    if a.is_zero() || a.infinite() {
    } else {
        let d = a.size();
        let p = pow2(149) as int;
        lemma_pow2_pos(149);
        lemma_quotient_value(x1, a);
        lemma_quotient_value(x2, a);
        if !x1.infinite() && !x2.infinite() {
            let (n1, n2) = (x1.size() * p, x2.size() * p);
            assert(n1 >= 0 && n2 >= 0 && (x1.size() <= x2.size() ==> n1 * d <= n2 * d) && (x2.size() <= x1.size()
                ==> n2 * d <= n1 * d)) by (nonlinear_arith)
                requires
                    n1 == x1.size() * p,
                    n2 == x2.size() * p,
                    x1.size() >= 0,
                    x2.size() >= 0,
                    p > 0,
                    d > 0,
            ;
            lemma_rounding_exists(n1, d);
            lemma_rounding_exists(n2, d);
            let (m1, m2) = (rounded(n1, d), rounded(n2, d));
            if !x1.negative() && !x2.negative() {
                lemma_rounded_grows(n1, d, n2, d);
                if m1 < m2 {
                    lemma_weight_increases(m1, m2);
                }
            } else if x1.negative() && x2.negative() {
                lemma_rounded_grows(n2, d, n1, d);
                if m2 < m1 {
                    lemma_weight_increases(m2, m1);
                }
            } else if !x1.negative() && x2.negative() {
                // both are zero
                assert(x1.size() == 0 && x2.size() == 0);
                assert(n1 == 0 && n2 == 0) by (nonlinear_arith)
                    requires
                        n1 == x1.size() * p,
                        n2 == x2.size() * p,
                        x1.size() == 0,
                        x2.size() == 0,
                ;
                lemma_rounds_to_zero(0, d);
                lemma_rounded(0, d, 0);
            }
        }
    }
}

/// What a quotient by a finite number that is not zero is worth.
pub proof fn lemma_quotient_value(x: Scalar, a: Scalar)
    requires
        !x.nan(),
        a.finite(),
        !a.is_zero(),
    ensures
        ({
            let r = x.spec_div(a);
            let m = if x.infinite() { INFINITE as int } else { rounded(x.size() * pow2(149), a.size()) };
            &&& !r.nan()
            &&& 0 <= m <= INFINITE
            &&& 0 <= weight(m) <= weight(INFINITE as int)
            &&& r.value() == if x.negative() != a.negative() { -weight(m) } else { weight(m) }
        }),
{
    lemma_size(x);
    lemma_size(a);
    lemma_pow2_pos(149);
    let n = x.size() * pow2(149);
    assert(n >= 0) by (nonlinear_arith)
        requires
            n == x.size() * pow2(149),
            x.size() >= 0,
            pow2(149) > 0,
    ;
    lemma_rounding_exists(n, a.size());
    let m = if x.infinite() { INFINITE as int } else { rounded(n, a.size()) };
    lemma_signed_value(true, m);
    lemma_signed_value(false, m);
}

/// A square root is not below zero.
pub proof fn lemma_sqrt_is_not_negative(x: Scalar)
    requires
        !x.spec_sqrt().nan(),
    ensures
        x.spec_sqrt().value() >= 0,
{
    lemma_size(x);
    lemma_pow2_pos(149);
    if !(x.is_zero() || x.infinite()) {
        let n = x.size() * pow2(149);
        assert(n >= 0) by (nonlinear_arith)
            requires
                n == x.size() * pow2(149),
                x.size() >= 0,
                pow2(149) > 0,
        ;
        lemma_root_exists(n);
        lemma_signed_value(false, rooted(n));
    }
}

/// A product of a number with itself has its sign bit clear.
pub proof fn lemma_square_sign(x: Scalar)
    requires
        !x.spec_mul(x).nan(),
    ensures
        !x.spec_mul(x).negative(),
{
    lemma_signed(false, INFINITE as int);
    if !x.infinite() {
        lemma_size(x);
        let n = x.size() * x.size();
        lemma_pow2_pos(149);
        assert(n >= 0) by (nonlinear_arith)
            requires
                n == x.size() * x.size(),
        ;
        lemma_rounding_exists(n, pow2(149) as int);
        lemma_signed(false, rounded(n, pow2(149) as int));
    }
}

/// A sum of two numbers with their sign bits clear has its sign bit clear.
pub proof fn lemma_sum_sign(x: Scalar, y: Scalar)
    requires
        !x.negative(),
        !y.negative(),
        !x.spec_add(y).nan(),
    ensures
        !x.spec_add(y).negative(),
{
    if !x.infinite() && !y.infinite() {
        lemma_size(x);
        lemma_size(y);
        lemma_sum_value(x, y);
        lemma_signed(false, 0);
    }
}

/// A squared length has its sign bit clear.
pub proof fn lemma_magnitude_squared_sign(v: Vector3)
    requires
        !v.spec_magnitude_squared().nan(),
    ensures
        !v.spec_magnitude_squared().negative(),
{
    let (px, py, pz) = (v.x.spec_mul(v.x), v.y.spec_mul(v.y), v.z.spec_mul(v.z));
    assert(!px.spec_add(py).nan());
    assert(!px.nan() && !py.nan() && !pz.nan());
    lemma_square_sign(v.x);
    lemma_square_sign(v.y);
    lemma_square_sign(v.z);
    lemma_sum_sign(px, py);
    lemma_sum_sign(px.spec_add(py), pz);
}

/// A length is not below zero.
pub proof fn lemma_magnitude_is_not_negative(v: Vector3)
    requires
        !v.spec_magnitude().nan(),
    ensures
        v.spec_magnitude().value() >= 0,
{
    lemma_sqrt_is_not_negative(v.spec_magnitude_squared());
}

/// A product of a number whose sign bit is clear with a number below zero
/// has its sign bit set.
pub proof fn lemma_product_sign(a: Scalar, c: Scalar)
    requires
        !a.negative(),
        c.spec_lt(Scalar::spec_zero()),
        !a.spec_mul(c).nan(),
    ensures
        a.spec_mul(c).negative(),
{
    lemma_value_bounds(c);
    lemma_signed(true, INFINITE as int);
    if !(a.infinite() || c.infinite()) {
        lemma_size(a);
        lemma_size(c);
        let n = a.size() * c.size();
        lemma_pow2_pos(149);
        assert(n >= 0) by (nonlinear_arith)
            requires
                n == a.size() * c.size(),
                a.size() >= 0,
                c.size() >= 0,
        ;
        lemma_rounding_exists(n, pow2(149) as int);
        lemma_signed(true, rounded(n, pow2(149) as int));
    }
}

} // verus!
