//! Rounding is the same on both sides of zero: what becomes of sums and
//! products when terms and factors change their signs.
use crate::arith::lemma_signed;
use crate::rounding::{lemma_rounded, lemma_rounding_exists, lemma_rounds_to_zero, rounded};
use crate::scalar::{lemma_weight_increases, Scalar, INFINITE};
use crate::vectors::Vector3;
use vstd::arithmetic::power2::{lemma_pow2_pos, pow2};
use vstd::prelude::*;

verus! {

/// `y` is the opposite of `x` as a number: of the same magnitude and, unless
/// both are zero, of the other sign. What is no number has only what is no
/// number as its opposite.
pub open spec fn opposite(x: Scalar, y: Scalar) -> bool {
    if x.nan() {
        y.nan()
    } else {
        y.magnitude() == x.magnitude() && (y.negative() != x.negative() || x.is_zero())
    }
}

/// Changing the sign bit gives the opposite.
pub proof fn lemma_neg_is_opposite(x: Scalar)
    ensures
        opposite(x, x.spec_neg()),
{
}

/// What a number is worth without its sign is not negative, and zero only
/// for a zero.
pub proof fn lemma_size(x: Scalar)
    ensures
        0 <= x.size(),
        x.size() == 0 <==> x.is_zero(),
{
    if 0 < x.magnitude() {
        lemma_weight_increases(0, x.magnitude());
    }
}

/// A product changes into its opposite when a factor does.
pub proof fn lemma_mul_opposite(a: Scalar, b: Scalar, c: Scalar)
    requires
        opposite(b, c),
        !a.spec_mul(b).nan(),
    ensures
        opposite(a.spec_mul(b), a.spec_mul(c)),
{
    lemma_signed(true, INFINITE as int);
    lemma_signed(false, INFINITE as int);
    if !(a.infinite() || b.infinite()) {
        let n = a.size() * b.size();
        let d = pow2(149) as int;
        lemma_size(a);
        lemma_size(b);
        lemma_pow2_pos(149);
        assert(n >= 0) by (nonlinear_arith)
            requires
                n == a.size() * b.size(),
                a.size() >= 0,
                b.size() >= 0,
        ;
        lemma_rounding_exists(n, d);
        let m = rounded(n, d);
        lemma_signed(true, m);
        lemma_signed(false, m);
        if b.is_zero() {
            assert(n == 0) by (nonlinear_arith)
                requires
                    n == a.size() * b.size(),
                    b.size() == 0,
            ;
            lemma_rounds_to_zero(n, d);
            lemma_rounded(n, d, 0);
        }
    }
}

/// A sum changes into its opposite when both terms do.
pub proof fn lemma_add_opposite(a: Scalar, b: Scalar, c: Scalar, d: Scalar)
    requires
        opposite(a, c),
        opposite(b, d),
        !a.spec_add(b).nan(),
    ensures
        opposite(a.spec_add(b), c.spec_add(d)),
{
    if !a.infinite() && !b.infinite() {
        let sum = a.value() + b.value();
        assert(c.value() + d.value() == -sum);
        lemma_signed(true, 0);
        lemma_signed(false, 0);
        if sum != 0 {
            let size = if sum < 0 { -sum } else { sum };
            lemma_rounding_exists(size, 1);
            let m = rounded(size, 1);
            lemma_signed(true, m);
            lemma_signed(false, m);
        }
    }
}

/// The dot product with the opposite vector is the opposite dot product.
pub proof fn lemma_dot_opposite(d: Vector3, n: Vector3)
    requires
        !Vector3::spec_dot(d, n).nan(),
    ensures
        opposite(Vector3::spec_dot(d, n), Vector3::spec_dot(d, n.spec_neg())),
{
    let o = n.spec_neg();
    lemma_neg_is_opposite(n.x);
    lemma_neg_is_opposite(n.y);
    lemma_neg_is_opposite(n.z);
    let (px, py, pz) = (d.x.spec_mul(n.x), d.y.spec_mul(n.y), d.z.spec_mul(n.z));
    let (qx, qy, qz) = (d.x.spec_mul(o.x), d.y.spec_mul(o.y), d.z.spec_mul(o.z));
    assert(!px.spec_add(py).nan());
    assert(!px.nan() && !py.nan() && !pz.nan());
    lemma_mul_opposite(d.x, n.x, o.x);
    lemma_mul_opposite(d.y, n.y, o.y);
    lemma_mul_opposite(d.z, n.z, o.z);
    lemma_add_opposite(px, py, qx, qy);
    lemma_add_opposite(px.spec_add(py), pz, qx.spec_add(qy), qz);
}

/// `x` and `y` are the same number: worth the same, or both none. The two
/// zeros are the same number.
pub open spec fn same_number(x: Scalar, y: Scalar) -> bool {
    if x.nan() {
        y.nan()
    } else {
        !y.nan() && x.value() == y.value()
    }
}

/// Zero times a finite number is zero.
pub proof fn lemma_zero_times(z: Scalar, y: Scalar)
    requires
        z.is_zero(),
        y.finite(),
    ensures
        z.spec_mul(y).is_zero(),
{
    let n = z.size() * y.size();
    let d = pow2(149) as int;
    lemma_pow2_pos(149);
    assert(n == 0) by (nonlinear_arith)
        requires
            n == z.size() * y.size(),
            z.size() == 0,
    ;
    lemma_rounds_to_zero(n, d);
    lemma_rounded(n, d, 0);
    lemma_signed(true, 0);
    lemma_signed(false, 0);
}

/// A number plus zero is the same number.
pub proof fn lemma_plus_zero(x: Scalar, z: Scalar)
    requires
        z.is_zero(),
    ensures
        same_number(x.spec_add(z), x),
{
    if !x.nan() && !x.infinite() {
        lemma_size(x);
        lemma_signed(true, 0);
        lemma_signed(false, 0);
        if !x.is_zero() {
            let m = x.magnitude();
            crate::rounding::lemma_rounds_exact(m, 1);
            lemma_rounded(x.size(), 1, m);
            lemma_signed(true, m);
            lemma_signed(false, m);
        }
    }
}

/// The order of the terms does not matter to a sum.
pub proof fn lemma_add_commutes(a: Scalar, b: Scalar)
    ensures
        a.spec_add(b) == b.spec_add(a),
{
}

/// The order of the factors does not matter to a product.
pub proof fn lemma_mul_commutes(a: Scalar, b: Scalar)
    ensures
        a.spec_mul(b) == b.spec_mul(a),
{
    assert(a.size() * b.size() == b.size() * a.size()) by (nonlinear_arith);
}

/// A vector may be scaled from either side.
pub proof fn lemma_scaling_commutes(n: Scalar, v: Vector3)
    ensures
        Vector3::spec_times(n, v) == v.spec_scaled(n),
{
    lemma_mul_commutes(n, v.x);
    lemma_mul_commutes(n, v.y);
    lemma_mul_commutes(n, v.z);
}

} // verus!
