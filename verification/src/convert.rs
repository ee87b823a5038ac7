//! Whole numbers as single-precision numbers, rounded to the nearest.
use crate::arith::{signed, split};
use crate::rounding::{lemma_quotient_rounds, lemma_rounded, pattern, power_of_two, round_scaled, rounded, rounds_up};
use crate::scalar::{lemma_weight_increases, weight, Scalar, INFINITE};
use vstd::arithmetic::power2::{lemma2_to64, lemma_pow2_adds, lemma_pow2_pos, lemma_pow2_strictly_increases, pow2};
use vstd::prelude::*;

verus! {

/// The pattern of 255.
pub const BYTE_MAX: u32 = 0x437f_0000;

/// The whole number `x` as a single-precision number: `x` itself where the
/// format holds it, else the nearest number that it holds, the even one of
/// two equally near. Zero comes with the sign bit clear.
pub open spec fn whole(x: int) -> Scalar {
    if x < 0 {
        signed(true, rounded(-x * pow2(149), 1))
    } else {
        signed(false, rounded(x * pow2(149), 1))
    }
}

/// The ratio of two whole numbers above zero as a single-precision number:
/// the nearest that the format holds, the even one of two equally near.
pub open spec fn ratio(n: int, d: int) -> Scalar {
    signed(false, rounded(n * pow2(149), d))
}

/// The pattern of a ratio, found by long division: where `num`, which is
/// `n` times two to the power `shift`, divided by `d` leaves the quotient
/// `q`, of 24 digits, and the remainder `r`, the ratio of `n` to `d` has the
/// significand `q`, or the next one, in the binade whose steps are two to
/// the power 149 less `shift`.
pub proof fn lemma_ratio(n: int, d: int, shift: int, num: int, q: int, r: int)
    requires
        0 < n,
        0 < d,
        0 <= shift <= 149,
        num == n * pow2(shift as nat),
        num == d * q + r,
        0 <= r < d,
        0x80_0000 <= q < 0x100_0000,
    ensures
        ratio(n, d) == (Scalar { bits: pattern(149 - shift, q, rounds_up(q, r, d)) as u32 }),
{
    let j = 149 - shift;
    lemma_quotient_rounds(num, d, j, q, r);
    lemma_pow2_adds(shift as nat, j as nat);
    assert(num * pow2(j as nat) == n * pow2(149)) by (nonlinear_arith)
        requires
            num == n * pow2(shift as nat),
            pow2(shift as nat) * pow2(j as nat) == pow2(149),
    ;
    lemma_rounded(n * pow2(149), d, pattern(j, q, rounds_up(q, r, d)));
}

/// The pattern of a whole number that the format holds: the pattern that is
/// worth it.
pub proof fn lemma_whole(x: int, m: int)
    requires
        0 <= x,
        0 <= m <= INFINITE,
        weight(m) == x * pow2(149),
    ensures
        whole(x) == (Scalar { bits: m as u32 }),
{
    crate::rounding::lemma_rounds_exact(m, 1);
    lemma_rounded(x * pow2(149), 1, m);
}

/// The pattern of 255 stands for 255.
pub proof fn lemma_byte_max()
    ensures
        whole(255) == (Scalar { bits: BYTE_MAX }),
{
    lemma2_to64();
    lemma_pow2_adds(16, 133);
    crate::rounding::lemma_weight_pattern(133, 0xff_0000);
    assert(BYTE_MAX == 133 * 0x80_0000 + 0xff_0000);
    assert(weight(BYTE_MAX as int) == 255 * pow2(149)) by (nonlinear_arith)
        requires
            weight(BYTE_MAX as int) == 0xff_0000 * pow2(133),
            pow2(16) * pow2(133) == pow2(149),
            pow2(16) == 0x1_0000,
    ;
    lemma_whole(255, BYTE_MAX as int);
}

impl Scalar {
    /// The whole number `x` as a single-precision number.
    pub fn from_i32(x: i32) -> (r: Scalar)
        ensures
            r == whole(x as int),
    {
        let wide: i64 = x as i64;
        let a: u64 = if x < 0 {
            (-wide) as u64
        } else {
            wide as u64
        };
        let m = round_scaled(a as u128, 1, 149);
        proof {
            lemma_rounded(a * pow2(149), 1, m as int);
            assert(-(x as int) * pow2(149) == (-(x as int)) * pow2(149));
        }
        Scalar::with_sign(x < 0, m)
    }
}

impl Scalar {
    /// The number cut down to a byte: its whole part, towards zero, where
    /// that lies between 0 and 255; 0 for what lies below and for what is no
    /// number, 255 for what lies above.
    pub open spec fn spec_to_u8(self) -> u8 {
        if self.nan() || self.value() <= 0 {
            0
        } else if self.value() >= 255 * pow2(149) {
            255
        } else {
            (self.value() / (pow2(149) as int)) as u8
        }
    }

    /// The whole number `x` as a single-precision number.
    pub fn from_u32(x: u32) -> (r: Scalar)
        ensures
            r == whole(x as int),
    {
        let m = round_scaled(x as u128, 1, 149);
        proof {
            lemma_rounded(x * pow2(149), 1, m as int);
        }
        Scalar::with_sign(false, m)
    }

    /// The number cut down to a byte.
    pub fn to_u8(self) -> (r: u8)
        ensures
            r == self.spec_to_u8(),
    {
        let (negative, m) = self.sign_and_magnitude();
        proof {
            if 0 < m {
                lemma_weight_increases(0, m as int);
            }
            // the pattern of 255 is worth 255
            lemma2_to64();
            lemma_pow2_adds(16, 133);
            crate::rounding::lemma_weight_pattern(133, 0xff_0000);
            assert(BYTE_MAX == 133 * 0x80_0000 + 0xff_0000);
            assert(weight(BYTE_MAX as int) == 255 * pow2(149)) by (nonlinear_arith)
                requires
                    weight(BYTE_MAX as int) == 0xff_0000 * pow2(133),
                    pow2(16) * pow2(133) == pow2(149),
                    pow2(16) == 0x1_0000,
            ;
            if m < BYTE_MAX {
                lemma_weight_increases(m as int, BYTE_MAX as int);
            } else if m > BYTE_MAX {
                lemma_weight_increases(BYTE_MAX as int, m as int);
            }
        }
        if m > INFINITE || negative || m == 0 {
            return 0;
        }
        if m >= BYTE_MAX {
            return 255;
        }
        let (sig, k) = split(m);
        let shift: u32 = 149 - k;
        if shift >= 24 {
            proof {
                // the number is below one
                lemma_pow2_adds(shift as nat, k as nat);
                lemma_pow2_pos(k as nat);
                if shift > 24 {
                    lemma_pow2_strictly_increases(24, shift as nat);
                }
                let (p, ps) = (pow2(k as nat) as int, pow2(shift as nat) as int);
                assert(sig * p < ps * p) by (nonlinear_arith)
                    requires
                        sig < 0x100_0000,
                        ps >= 0x100_0000,
                        p > 0,
                ;
                vstd::arithmetic::div_mod::lemma_basic_div(sig * p, ps * p);
            }
            return 0;
        }
        let f: u128 = power_of_two(shift);
        let q: u64 = sig / (f as u64);
        proof {
            lemma_pow2_adds(shift as nat, k as nat);
            lemma_pow2_pos(k as nat);
            lemma_pow2_strictly_increases(shift as nat, 24);
            let (p, ps) = (pow2(k as nat) as int, pow2(shift as nat) as int);
            vstd::arithmetic::div_mod::lemma_div_multiples_vanish_quotient(p, sig as int, ps);
            assert(p * sig == sig * p && p * ps == ps * p) by (nonlinear_arith);
            assert(self.value() / (pow2(149) as int) == q);
            // below 255, so the whole part is at most 254
            assert(q < 255) by {
                vstd::arithmetic::div_mod::lemma_fundamental_div_mod(sig as int, ps);
                assert(sig * p < 255 * (ps * p));
                assert(sig < 255 * ps) by (nonlinear_arith)
                    requires
                        sig * p < 255 * (ps * p),
                        p > 0,
                ;
                assert(ps * (sig as int / ps) <= sig);
                assert(sig as int / ps < 255) by (nonlinear_arith)
                    requires
                        ps * (sig as int / ps) <= sig,
                        sig < 255 * ps,
                        ps > 0,
                ;
            }
        }
        q as u8
    }
}

} // verus!
