//! Sums, differences, products, quotients and square roots of
//! single-precision numbers, each rounded to the nearest number that the
//! format holds.
use crate::rounding::{
    error, is_rounded, lemma_rounded, lemma_rounded_ratio, lemma_weight_pattern, round_scaled, rounded,
};
use crate::scalar::{weight, Scalar, HIDDEN, INFINITE, SIGN};
use vstd::arithmetic::power2::{lemma2_to64, lemma_pow2_adds, lemma_pow2_pos, pow2};
use vstd::prelude::*;

verus! {

/// The pattern that stands for every result that is no number.
pub const QUIET: u32 = 0x7fc0_0000;

/// The number with this sign and magnitude.
pub open spec fn signed(negative: bool, m: int) -> Scalar {
    if negative {
        Scalar { bits: (m + SIGN) as u32 }
    } else {
        Scalar { bits: m as u32 }
    }
}

impl Scalar {
    /// The pattern denotes a zero, of either sign.
    pub open spec fn is_zero(self) -> bool {
        self.magnitude() == 0
    }

    /// The pattern denotes an infinity, of either sign.
    pub open spec fn infinite(self) -> bool {
        self.magnitude() == INFINITE
    }

    /// What a number is worth without its sign.
    pub open spec fn size(self) -> int {
        weight(self.magnitude())
    }

    /// The product, rounded. It is no number where a factor is none or where
    /// zero meets infinity; else its sign is negative where the signs of the
    /// factors differ.
    pub open spec fn spec_mul(self, other: Scalar) -> Scalar {
        if self.nan() || other.nan() || (self.infinite() && other.is_zero()) || (self.is_zero()
            && other.infinite()) {
            Scalar { bits: QUIET }
        } else if self.infinite() || other.infinite() {
            signed(self.negative() != other.negative(), INFINITE as int)
        } else {
            signed(self.negative() != other.negative(), rounded(self.size() * other.size(), pow2(149) as int))
        }
    }

    /// The quotient, rounded. It is no number where an operand is none, where
    /// zero is divided by zero or infinity by infinity; a number divided by
    /// zero is infinite; the sign is negative where the signs of the operands
    /// differ.
    pub open spec fn spec_div(self, other: Scalar) -> Scalar {
        if self.nan() || other.nan() || (self.infinite() && other.infinite()) || (self.is_zero()
            && other.is_zero()) {
            Scalar { bits: QUIET }
        } else if self.infinite() || other.is_zero() {
            signed(self.negative() != other.negative(), INFINITE as int)
        } else if other.infinite() {
            signed(self.negative() != other.negative(), 0)
        } else {
            signed(self.negative() != other.negative(), rounded(self.size() * pow2(149), other.size()))
        }
    }
}

/// A rounded magnitude is a magnitude.
pub proof fn lemma_signed(negative: bool, m: int)
    requires
        0 <= m <= INFINITE,
    ensures
        signed(negative, m).magnitude() == m,
        signed(negative, m).negative() == negative,
        !signed(negative, m).nan(),
{
}

impl Scalar {
    /// The pattern without its sign bit, and the sign bit.
    pub(crate) fn sign_and_magnitude(self) -> (parts: (bool, u32))
        ensures
            parts.0 == self.negative(),
            parts.1 == self.magnitude(),
    {
        if self.bits >= SIGN {
            (true, self.bits - SIGN)
        } else {
            (false, self.bits)
        }
    }

    /// The number with this sign and magnitude.
    pub(crate) fn with_sign(negative: bool, m: u32) -> (r: Scalar)
        requires
            m <= INFINITE,
        ensures
            r == signed(negative, m as int),
    {
        if negative {
            Scalar { bits: m + SIGN }
        } else {
            Scalar { bits: m }
        }
    }
}

/// A finite magnitude as a significand and a power of two. The significand
/// has 24 digits unless the power is the lowest.
pub(crate) fn split(m: u32) -> (parts: (u64, u32))
    requires
        m < INFINITE,
    ensures
        weight(m as int) == parts.0 * pow2(parts.1 as nat),
        m == parts.1 * HIDDEN + parts.0,
        parts.0 < 0x100_0000,
        parts.1 <= 253,
        parts.1 >= 1 ==> parts.0 >= 0x80_0000,
        m > 0 ==> parts.0 > 0,
{
    if m < 2 * HIDDEN {
        proof {
            lemma_weight_pattern(0, m as int);
        }
        (m as u64, 0)
    } else {
        let q: u32 = HIDDEN + m % HIDDEN;
        let j: u32 = m / HIDDEN - 1;
        proof {
            assert(m == j * HIDDEN + q);
            lemma_weight_pattern(j as int, q as int);
        }
        (q as u64, j)
    }
}

/// The product of the powers is the power of the sum.
proof fn lemma_pow2_quad(a: nat, b: nat, c: nat, d: nat)
    requires
        a + b == c + d,
    ensures
        pow2(a) * pow2(b) == pow2(c) * pow2(d),
        pow2(a) > 0,
        pow2(b) > 0,
        pow2(c) > 0,
        pow2(d) > 0,
{
    lemma_pow2_adds(a, b);
    lemma_pow2_adds(c, d);
    lemma_pow2_pos(a);
    lemma_pow2_pos(b);
    lemma_pow2_pos(c);
    lemma_pow2_pos(d);
}

impl Scalar {
    /// The product of two numbers, rounded to the nearest number that the
    /// format holds.
    pub fn mul(self, other: Scalar) -> (r: Scalar)
        ensures
            r == self.spec_mul(other),
    {
        let (na, ma) = self.sign_and_magnitude();
        let (nb, mb) = other.sign_and_magnitude();
        if ma > INFINITE || mb > INFINITE || (ma == INFINITE && mb == 0) || (ma == 0 && mb == INFINITE) {
            return Scalar { bits: QUIET };
        }
        let negative = na != nb;
        if ma == INFINITE || mb == INFINITE {
            return Scalar::with_sign(negative, INFINITE);
        }
        let (sa, ka) = split(ma);
        let (sb, kb) = split(mb);
        proof {
            assert(sa * sb < 0x1_0000_0000_0000) by (nonlinear_arith)
                requires
                    sa < 0x100_0000,
                    sb < 0x100_0000,
            ;
        }
        let n: u128 = (sa as u128) * (sb as u128);
        let e: i32 = (ka as i32) + (kb as i32) - 149;
        let m = round_scaled(n, 1, e);
        proof {
            let up: nat = if e >= 0 { e as nat } else { 0 };
            let down: nat = if e >= 0 { 0 } else { (-e) as nat };
            let (wa, wb) = (self.size(), other.size());
            lemma_pow2_adds(ka as nat, kb as nat);
            lemma_pow2_quad(up, 149, (ka + kb) as nat, down);
            let (pu, pd, pk, pa, pb, unit) = (
                pow2(up) as int,
                pow2(down) as int,
                pow2((ka + kb) as nat) as int,
                pow2(ka as nat) as int,
                pow2(kb as nat) as int,
                pow2(149) as int,
            );
            assert(n * pu == n * pow2(up));
            assert((n * pu) * unit == (wa * wb) * (1 * pd)) by (nonlinear_arith)
                requires
                    n == sa * sb,
                    wa == sa * pa,
                    wb == sb * pb,
                    pa * pb == pk,
                    pu * unit == pk * pd,
            ;
            assert(1 * pd > 0 && unit > 0);
            if e >= 0 {
                assert(pd == 1) by {
                    lemma2_to64();
                }
                lemma_rounded_ratio(n * pu, 1, wa * wb, unit, m as int);
            } else {
                assert(pu == 1) by {
                    lemma2_to64();
                }
                assert(n * pu == n) by (nonlinear_arith)
                    requires
                        pu == 1,
                ;
                lemma_rounded_ratio(n as int, 1 * pd, wa * wb, unit, m as int);
            }
            lemma_rounded(wa * wb, unit, m as int);
        }
        Scalar::with_sign(negative, m)
    }

    /// The quotient of two numbers, rounded to the nearest number that the
    /// format holds.
    pub fn div(self, other: Scalar) -> (r: Scalar)
        ensures
            r == self.spec_div(other),
    {
        let (na, ma) = self.sign_and_magnitude();
        let (nb, mb) = other.sign_and_magnitude();
        if ma > INFINITE || mb > INFINITE || (ma == INFINITE && mb == INFINITE) || (ma == 0 && mb == 0) {
            return Scalar { bits: QUIET };
        }
        let negative = na != nb;
        if ma == INFINITE || mb == 0 {
            return Scalar::with_sign(negative, INFINITE);
        }
        if mb == INFINITE {
            return Scalar::with_sign(negative, 0);
        }
        let (sa, ka) = split(ma);
        let (sb, kb) = split(mb);
        let e: i32 = (ka as i32) - (kb as i32) + 149;
        let m = round_scaled(sa as u128, sb as u128, e);
        proof {
            let up: nat = if e >= 0 { e as nat } else { 0 };
            let down: nat = if e >= 0 { 0 } else { (-e) as nat };
            let (wa, wb) = (self.size(), other.size());
            lemma_pow2_quad(up, kb as nat, (ka + 149) as nat, down);
            lemma_pow2_adds(ka as nat, 149);
            let (pu, pd, pk, pa, pb, unit) = (
                pow2(up) as int,
                pow2(down) as int,
                pow2((ka + 149) as nat) as int,
                pow2(ka as nat) as int,
                pow2(kb as nat) as int,
                pow2(149) as int,
            );
            assert(wb > 0) by (nonlinear_arith)
                requires
                    wb == sb * pb,
                    sb > 0,
                    pb > 0,
            ;
            assert(sb * pd > 0) by (nonlinear_arith)
                requires
                    sb > 0,
                    pd > 0,
            ;
            assert((sa * pu) * wb == (wa * unit) * (sb * pd)) by (nonlinear_arith)
                requires
                    wa == sa * pa,
                    wb == sb * pb,
                    pa * unit == pk,
                    pu * pb == pk * pd,
            ;
            if e >= 0 {
                assert(pd == 1) by {
                    lemma2_to64();
                }
                assert(sb * pd == sb) by (nonlinear_arith)
                    requires
                        pd == 1,
                ;
                lemma_rounded_ratio(sa * pu, sb as int, wa * unit, wb, m as int);
            } else {
                assert(pu == 1) by {
                    lemma2_to64();
                }
                assert(sa * pu == sa) by (nonlinear_arith)
                    requires
                        pu == 1,
                ;
                lemma_rounded_ratio(sa as int, sb * pd, wa * unit, wb, m as int);
            }
            lemma_rounded(wa * unit, wb, m as int);
        }
        Scalar::with_sign(negative, m)
    }
}

impl Scalar {
    /// The sum, rounded. It is no number where a term is none or where the
    /// two infinities meet. A sum that is exactly zero has the sign bit set
    /// only where both terms have it.
    pub open spec fn spec_add(self, other: Scalar) -> Scalar {
        if self.nan() || other.nan() || (self.infinite() && other.infinite() && self.negative()
            != other.negative()) {
            Scalar { bits: QUIET }
        } else if self.infinite() {
            self
        } else if other.infinite() {
            other
        } else {
            let sum = self.value() + other.value();
            if sum == 0 {
                signed(self.negative() && other.negative(), 0)
            } else if sum < 0 {
                signed(true, rounded(-sum, 1))
            } else {
                signed(false, rounded(sum, 1))
            }
        }
    }

    /// The difference, rounded: the sum with the opposite of `other`.
    pub open spec fn spec_sub(self, other: Scalar) -> Scalar {
        self.spec_add(other.spec_neg())
    }
}

/// What lies close to a number of full precision rounds to it: closer than
/// an eighth of the step of its binade.
proof fn lemma_rounds_near(j: int, q: int, n: int)
    requires
        j >= 1,
        HIDDEN <= q < 2 * HIDDEN,
        j * HIDDEN + q < INFINITE,
        8 * (n - q * pow2(j as nat)) < pow2(j as nat),
        8 * (q * pow2(j as nat) - n) < pow2(j as nat),
    ensures
        is_rounded(n, 1, j * HIDDEN + q),
{
    let h: int = HIDDEN as int;
    let m = j * h + q;
    let p = pow2(j as nat) as int;
    let half = pow2((j - 1) as nat) as int;
    let w = q * p;
    vstd::arithmetic::power2::lemma_pow2_unfold(j as nat);
    lemma_pow2_pos((j - 1) as nat);
    lemma_weight_pattern(j, q);
    assert(weight(m - 1) <= w - half) by {
        if q > h {
            lemma_weight_pattern(j, q - 1);
            assert((q - 1) * p == w - p) by (nonlinear_arith)
                requires
                    w == q * p,
            ;
        } else {
            lemma_weight_pattern(j - 1, 2 * h - 1);
            assert(m - 1 == (j - 1) * h + (2 * h - 1));
            assert((2 * h - 1) * half == w - half) by (nonlinear_arith)
                requires
                    w == q * p,
                    q == h,
                    p == 2 * half,
            ;
        }
    }
    assert((q + 1) * p == w + p) by (nonlinear_arith)
        requires
            w == q * p,
    ;
    assert forall|c: int| 0 <= c <= INFINITE implies error(m, n, 1) <= #[trigger] error(c, n, 1) && (c != m
        ==> error(c, n, 1) != error(m, n, 1)) by {
        if c < m - 1 {
            crate::scalar::lemma_weight_increases(c, m - 1);
        } else if c > m + 1 {
            crate::scalar::lemma_weight_increases(m + 1, c);
        }
    }
}

impl Scalar {
    /// The sum of two numbers, rounded to the nearest number that the format
    /// holds.
    pub fn add(self, other: Scalar) -> (r: Scalar)
        ensures
            r == self.spec_add(other),
    {
        let (na, ma) = self.sign_and_magnitude();
        let (nb, mb) = other.sign_and_magnitude();
        if ma > INFINITE || mb > INFINITE || (ma == INFINITE && mb == INFINITE && na != nb) {
            return Scalar { bits: QUIET };
        }
        if ma == INFINITE {
            return self;
        }
        if mb == INFINITE {
            return other;
        }
        // the term of the larger magnitude first
        let swap: bool = ma < mb;
        let (n1, m1, n2, m2) = if swap {
            (nb, mb, na, ma)
        } else {
            (na, ma, nb, mb)
        };
        let (s1, k1) = split(m1);
        let (s2, k2) = split(m2);
        let ghost w1 = weight(m1 as int);
        let ghost w2 = weight(m2 as int);
        let ghost v1 = if n1 { -w1 } else { w1 };
        let ghost v2 = if n2 { -w2 } else { w2 };
        let ghost sum = self.value() + other.value();
        proof {
            assert(sum == v1 + v2);
            if m2 < m1 {
                crate::scalar::lemma_weight_increases(m2 as int, m1 as int);
            }
            if 0 < m2 {
                crate::scalar::lemma_weight_increases(0, m2 as int);
            }
            assert(0 <= w2 <= w1);
            assert(k2 <= k1);
            lemma_pow2_pos(k1 as nat);
            lemma_pow2_pos(k2 as nat);
        }
        let d: u32 = k1 - k2;
        if d > 64 {
            proof {
                // the small term is lost in the rounding
                let step1 = pow2(k1 as nat) as int;
                let step2 = pow2(k2 as nat) as int;
                lemma_pow2_adds(d as nat, k2 as nat);
                vstd::arithmetic::power2::lemma_pow2_strictly_increases(64, d as nat);
                lemma2_to64();
                let pd = pow2(d as nat) as int;
                assert(8 * w2 < step1) by (nonlinear_arith)
                    requires
                        w2 == s2 * step2,
                        s2 < 0x100_0000,
                        step1 == pd * step2,
                        pd > 0x1_0000_0000_0000_0000,
                        step2 > 0,
                ;
                assert(w1 >= step1) by (nonlinear_arith)
                    requires
                        w1 == s1 * step1,
                        s1 >= 0x80_0000,
                        step1 > 0,
                ;
                let size = if sum < 0 { -sum } else { sum };
                assert(size == if n1 == n2 { w1 + w2 } else { w1 - w2 });
                lemma_rounds_near(k1 as int, s1 as int, size);
                lemma_rounded(size, 1, m1 as int);
            }
            return Scalar::with_sign(n1, m1);
        }
        let f: u128 = crate::rounding::power_of_two(d);
        proof {
            lemma2_to64();
            lemma_pow2_adds(d as nat, k2 as nat);
            if d < 64 {
                vstd::arithmetic::power2::lemma_pow2_strictly_increases(d as nat, 64);
            }
            assert(s1 * f <= 0xff_ffff * 0x1_0000_0000_0000_0000) by (nonlinear_arith)
                requires
                    s1 <= 0xff_ffff,
                    f <= 0x1_0000_0000_0000_0000,
            ;
        }
        let a: u128 = (s1 as u128) * f;
        let ghost step2 = pow2(k2 as nat) as int;
        proof {
            assert(w1 == a * step2) by (nonlinear_arith)
                requires
                    w1 == s1 * pow2(k1 as nat),
                    pow2(k1 as nat) == f * step2,
                    a == s1 * f,
            ;
            assert(a >= s2) by (nonlinear_arith)
                requires
                    a * step2 >= s2 * step2,
                    step2 > 0,
            ;
        }
        let n: u128 = if n1 == n2 {
            a + (s2 as u128)
        } else {
            a - (s2 as u128)
        };
        proof {
            assert(n * step2 == if n1 == n2 { w1 + w2 } else { w1 - w2 }) by (nonlinear_arith)
                requires
                    w1 == a * step2,
                    w2 == s2 * step2,
                    n == if n1 == n2 { a + s2 } else { a - s2 },
            ;
            assert(n > 0 ==> n * step2 > 0) by (nonlinear_arith)
                requires
                    step2 > 0,
            ;
            assert(n == 0 ==> n * step2 == 0) by (nonlinear_arith);
        }
        if n == 0 {
            return Scalar::with_sign(na && nb, 0);
        }
        let m = round_scaled(n, 1, k2 as i32);
        proof {
            lemma_rounded(n * step2, 1, m as int);
        }
        Scalar::with_sign(n1, m)
    }

    /// The difference of two numbers, rounded to the nearest number that the
    /// format holds.
    pub fn sub(self, other: Scalar) -> (r: Scalar)
        ensures
            r == self.spec_sub(other),
    {
        self.add(other.neg())
    }
}

/// The square of the sum of what two magnitudes are worth: four times the
/// square of the point half way between them.
pub open spec fn midway(m: int, c: int) -> int {
    (weight(m) + weight(c)) * (weight(m) + weight(c))
}

/// `m` is the square root of `n` rounded: of all magnitudes the nearest to
/// the root, and of two equally near the even one. A magnitude is nearer
/// than a larger one where the root lies below the point half way between
/// them, and nearer than a smaller one where it lies above.
pub open spec fn is_root(n: int, m: int) -> bool {
    &&& 0 <= m <= INFINITE
    &&& forall|c: int| m < c <= INFINITE ==> 4 * n <= #[trigger] midway(m, c)
    &&& forall|c: int| 0 <= c < m ==> #[trigger] midway(m, c) <= 4 * n
    &&& forall|c: int| 0 <= c <= INFINITE && c != m && #[trigger] midway(m, c) == 4 * n ==> m % 2 == 0
}

/// The square root of `n`, rounded.
pub open spec fn rooted(n: int) -> int {
    choose|m: int| is_root(n, m)
}

/// A larger sum of two numbers that are not negative has a larger square.
proof fn lemma_square_grows(a: int, b: int)
    requires
        0 <= a < b,
    ensures
        a * a < b * b,
{
    assert(a * a < b * b) by (nonlinear_arith)
        requires
            0 <= a < b,
    ;
}

/// A square root rounds to one magnitude only.
pub proof fn lemma_root_is_unique(n: int, m1: int, m2: int)
    requires
        is_root(n, m1),
        is_root(n, m2),
    ensures
        m1 == m2,
{
    if m1 != m2 {
        let lo = if m1 < m2 { m1 } else { m2 };
        let hi = if m1 < m2 { m2 } else { m1 };
        assert(midway(lo, hi) == midway(hi, lo)) by (nonlinear_arith)
            requires
                midway(lo, hi) == (weight(lo) + weight(hi)) * (weight(lo) + weight(hi)),
                midway(hi, lo) == (weight(hi) + weight(lo)) * (weight(hi) + weight(lo)),
        ;
        assert(4 * n <= midway(lo, hi));
        assert(midway(hi, lo) <= 4 * n);
        assert(lo % 2 == 0 && hi % 2 == 0);
        let c = lo + 1;
        crate::scalar::lemma_weight_increases(lo, c);
        crate::scalar::lemma_weight_increases(c, hi);
        if 0 < lo {
            crate::scalar::lemma_weight_increases(0, lo);
        }
        lemma_square_grows(weight(lo) + weight(c), weight(lo) + weight(hi));
        assert(4 * n <= midway(lo, c));
    }
}

/// The largest magnitude up to `top` whose square is no more than `n`.
proof fn lemma_root_floor(n: int, top: int) -> (m: int)
    requires
        0 <= n,
        0 <= top <= INFINITE,
    ensures
        0 <= m <= top,
        weight(m) * weight(m) <= n,
        m < top ==> n < weight(m + 1) * weight(m + 1),
    decreases top,
{
    if top == 0 {
        assert(weight(0) * weight(0) == 0) by (nonlinear_arith)
            requires
                weight(0) == 0,
        ;
        0
    } else if weight(top) * weight(top) <= n {
        top
    } else {
        lemma_root_floor(n, top - 1)
    }
}

/// Every number that is not negative has a rounded square root.
pub proof fn lemma_root_exists(n: int)
    requires
        0 <= n,
    ensures
        is_root(n, rooted(n)),
        0 <= rooted(n) <= INFINITE,
{
    let lo = lemma_root_floor(n, INFINITE as int);
    let wl = weight(lo);
    if 0 < lo {
        crate::scalar::lemma_weight_increases(0, lo);
    }
    let m = if lo == INFINITE {
        lo
    } else if midway(lo, lo + 1) > 4 * n {
        lo
    } else if midway(lo, lo + 1) < 4 * n {
        lo + 1
    } else if lo % 2 == 0 {
        lo
    } else {
        lo + 1
    };
    let wm = weight(m);
    if lo < INFINITE {
        crate::scalar::lemma_weight_increases(lo, lo + 1);
        assert(midway(lo, lo + 1) == midway(lo + 1, lo)) by (nonlinear_arith)
            requires
                midway(lo, lo + 1) == (weight(lo) + weight(lo + 1)) * (weight(lo) + weight(lo + 1)),
                midway(lo + 1, lo) == (weight(lo + 1) + weight(lo)) * (weight(lo + 1) + weight(lo)),
        ;
    }
    assert forall|c: int| 0 <= c <= INFINITE && c != m implies (c > m ==> 4 * n <= #[trigger] midway(m, c)) && (c < m
        ==> midway(m, c) <= 4 * n) && (midway(m, c) == 4 * n ==> m % 2 == 0) by {
        let wc = weight(c);
        if 0 < c {
            crate::scalar::lemma_weight_increases(0, c);
        }
        if c > m {
            if m == lo {
                // at least as far as the next magnitude
                if c > lo + 1 {
                    crate::scalar::lemma_weight_increases(lo + 1, c);
                    lemma_square_grows(wl + weight(lo + 1), wl + wc);
                }
            } else {
                crate::scalar::lemma_weight_increases(m, c);
                lemma_square_grows(2 * wm, wm + wc);
                assert((2 * wm) * (2 * wm) == 4 * (wm * wm)) by (nonlinear_arith);
            }
        } else {
            if m == lo {
                crate::scalar::lemma_weight_increases(c, lo);
                lemma_square_grows(wl + wc, 2 * wl);
                assert((2 * wl) * (2 * wl) == 4 * (wl * wl)) by (nonlinear_arith);
            } else {
                if c < lo {
                    crate::scalar::lemma_weight_increases(c, lo);
                    lemma_square_grows(wm + wc, wm + wl);
                }
            }
        }
    }
    assert(is_root(n, m));
}

impl Scalar {
    /// The square root, rounded. It is no number for what is none and for a
    /// number below zero; the root of a zero is that zero.
    pub open spec fn spec_sqrt(self) -> Scalar {
        if self.nan() || (self.negative() && !self.is_zero()) {
            Scalar { bits: QUIET }
        } else if self.is_zero() || self.infinite() {
            self
        } else {
            signed(false, rooted(self.size() * pow2(149)))
        }
    }
}

/// The whole part of the square root of a number of 47 or 48 digits.
fn whole_root(x: u64) -> (q: u64)
    requires
        0x4000_0000_0000 <= x < 0x1_0000_0000_0000,
    ensures
        0x80_0000 <= q < 0x100_0000,
        q * q <= x < (q + 1) * (q + 1),
{
    let mut lo: u64 = 0x80_0000;
    let mut hi: u64 = 0x100_0000;
    while hi - lo > 1
        invariant
            0x80_0000 <= lo < hi <= 0x100_0000,
            lo * lo <= x < hi * hi,
        decreases hi - lo,
    {
        let mid: u64 = lo + (hi - lo) / 2;
        proof {
            assert(mid * mid < 0x1_0000_0000_0000) by (nonlinear_arith)
                requires
                    mid < 0x100_0000,
            ;
        }
        if mid * mid <= x {
            lo = mid;
        } else {
            hi = mid;
        }
    }
    lo
}

impl Scalar {
    /// The square root of a number, rounded to the nearest number that the
    /// format holds.
    pub fn sqrt(self) -> (r: Scalar)
        ensures
            r == self.spec_sqrt(),
    {
        let (negative, m) = self.sign_and_magnitude();
        if m > INFINITE || (negative && m != 0) {
            return Scalar { bits: QUIET };
        }
        if m == 0 || m == INFINITE {
            return self;
        }
        let (s, k) = split(m);
        let l: u32 = crate::rounding::bit_length(s as u128);
        proof {
            lemma2_to64();
            if l > 24 {
                if l > 25 {
                    vstd::arithmetic::power2::lemma_pow2_strictly_increases(24, (l - 1) as nat);
                }
            }
            assert(1 <= l <= 24);
        }
        let e: u32 = k + 149;
        let x: u32 = if (e - (47 - l)) % 2 == 0 {
            47 - l
        } else {
            48 - l
        };
        let j: u32 = (e - x) / 2;
        let f: u128 = crate::rounding::power_of_two(x);
        proof {
            // s * f has 47 or 48 digits
            lemma_pow2_adds(l as nat, x as nat);
            lemma_pow2_adds((l - 1) as nat, x as nat);
            vstd::arithmetic::power2::lemma2_to64_rest();
            if l + x == 47 {
                assert(pow2(47) == 0x8000_0000_0000 && pow2(46) == 0x4000_0000_0000);
            } else {
                assert(pow2(48) == 0x1_0000_0000_0000 && pow2(47) == 0x8000_0000_0000);
            }
            assert(0x4000_0000_0000 <= s * f < 0x1_0000_0000_0000) by (nonlinear_arith)
                requires
                    pow2((l - 1) as nat) <= s < pow2(l as nat),
                    pow2(l as nat) * f == pow2((l + x) as nat),
                    pow2((l - 1) as nat) * f == pow2((l + x - 1) as nat),
                    pow2((l + x) as nat) <= 0x1_0000_0000_0000,
                    pow2((l + x - 1) as nat) >= 0x4000_0000_0000,
                    f > 0,
            ;
        }
        let big: u64 = ((s as u128) * f) as u64;
        let q: u64 = whole_root(big);
        proof {
            assert(q * q <= big);
        }
        let rest: u64 = big - q * q;
        let up: bool = rest > q;
        let below: u32 = j * HIDDEN + (q as u32);
        let root: u32 = if up {
            below + 1
        } else {
            below
        };
        proof {
            let p = pow2(j as nat) as int;
            let n = self.size() * pow2(149);
            lemma_pow2_pos(j as nat);
            lemma_pow2_adds(k as nat, 149);
            lemma_pow2_adds(j as nat, j as nat);
            lemma_pow2_adds(x as nat, (2 * j) as nat);
            assert(n == big * (p * p)) by (nonlinear_arith)
                requires
                    n == (s * pow2(k as nat)) * pow2(149),
                    pow2(k as nat) * pow2(149) == pow2(e as nat),
                    pow2(e as nat) == f * pow2((2 * j) as nat),
                    pow2((2 * j) as nat) == p * p,
                    big == s * f,
            ;
            lemma_weight_pattern(j as int, q as int);
            let lo = weight(below as int);
            let hi = weight(below + 1);
            let w = weight(root as int);
            assert(lo >= 0 && lo < hi) by (nonlinear_arith)
                requires
                    lo == q * p,
                    hi == (q + 1) * p,
                    p > 0,
                    q >= 0,
            ;
            // four times the number lies strictly between the squares of twice
            // the root taken and of the points half way to its neighbours
            let edge = (2 * q + 1) * p;
            assert(lo + hi == edge) by (nonlinear_arith)
                requires
                    lo == q * p,
                    hi == (q + 1) * p,
                    edge == (2 * q + 1) * p,
            ;
            if up {
                assert(edge * edge < 4 * n && 4 * n < (2 * hi) * (2 * hi)) by (nonlinear_arith)
                    requires
                        edge == (2 * q + 1) * p,
                        hi == (q + 1) * p,
                        n == big * (p * p),
                        big >= q * q + q + 1,
                        big < (q + 1) * (q + 1),
                        p > 0,
                ;
            } else {
                assert((2 * lo) * (2 * lo) <= 4 * n && 4 * n < edge * edge) by (nonlinear_arith)
                    requires
                        edge == (2 * q + 1) * p,
                        lo == q * p,
                        n == big * (p * p),
                        big <= q * q + q,
                        big >= q * q,
                        p > 0,
                ;
            }
            assert forall|c: int| 0 <= c <= INFINITE && c != root implies (c > root ==> 4 * n < #[trigger] midway(
                root as int,
                c,
            )) && (c < root ==> midway(root as int, c) < 4 * n) by {
                let wc = weight(c);
                if 0 < c {
                    crate::scalar::lemma_weight_increases(0, c);
                }
                if c > root {
                    if c > below + 1 {
                        crate::scalar::lemma_weight_increases(below + 1, c);
                    }
                    // the sum is at least lo + hi, or more than hi + hi
                    if up {
                        lemma_square_grows(2 * hi, w + wc);
                    } else {
                        if w + wc > edge {
                            lemma_square_grows(edge, w + wc);
                        }
                    }
                } else {
                    if c < below {
                        crate::scalar::lemma_weight_increases(c, below as int);
                    }
                    if up {
                        if w + wc < edge {
                            lemma_square_grows(w + wc, edge);
                        }
                    } else {
                        lemma_square_grows(w + wc, 2 * lo);
                    }
                }
            }
            assert(is_root(n, root as int));
            lemma_root_is_unique(n, root as int, rooted(n));
        }
        Scalar::with_sign(false, root)
    }
}

} // verus!
