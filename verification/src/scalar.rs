//! Single-precision numbers by bit pattern, with their exact order.
use vstd::arithmetic::power2::{
    lemma2_to64, lemma_pow2_adds, lemma_pow2_pos, lemma_pow2_strictly_increases, lemma_pow2_unfold,
    pow2,
};
use vstd::prelude::*;

verus! {

/// The sign bit of a pattern.
pub const SIGN: u32 = 0x8000_0000;

/// The pattern of positive infinity; every larger magnitude is not a number.
pub const INFINITE: u32 = 0x7f80_0000;

/// Two to the power 23: the weight of the hidden bit, and the size of one binade.
pub const HIDDEN: u32 = 0x0080_0000;

/// What a pattern without its sign is worth, counted in units of two to the
/// power -149 (the smallest positive number of the format).
///
/// Below `HIDDEN` the pattern is subnormal and worth itself. From there on the
/// low 23 bits extend the hidden bit and the bits above them double the result
/// once for each binade after the first. The pattern of infinity is given the
/// weight of the power of two that follows the largest finite number.
pub open spec fn weight(m: int) -> int {
    if m < HIDDEN {
        m
    } else {
        (HIDDEN + m % (HIDDEN as int)) * pow2((m / (HIDDEN as int) - 1) as nat)
    }
}

/// A single-precision binary number, held by its 32-bit pattern: one sign bit,
/// eight exponent bits, 23 fraction bits.
#[derive(Clone, Copy, Debug, PartialEq, Eq, Structural)]
pub struct Scalar {
    pub bits: u32,
}

impl Scalar {
    /// The sign bit is set. It may be set on a zero and on a pattern that is
    /// not a number.
    pub open spec fn negative(self) -> bool {
        self.bits >= SIGN
    }

    /// The pattern without its sign bit.
    pub open spec fn magnitude(self) -> int {
        if self.bits >= SIGN {
            self.bits - SIGN
        } else {
            self.bits as int
        }
    }

    /// The pattern denotes no number.
    pub open spec fn nan(self) -> bool {
        self.magnitude() > INFINITE
    }

    /// The pattern denotes a number that is not infinite.
    pub open spec fn finite(self) -> bool {
        self.magnitude() < INFINITE
    }

    /// The number denoted, in units of two to the power -149. Both zeros are
    /// worth 0. Meaningful where the pattern is a number.
    pub open spec fn value(self) -> int {
        if self.negative() {
            -weight(self.magnitude())
        } else {
            weight(self.magnitude())
        }
    }

    /// The signed magnitude: an integer that orders patterns as `value` does.
    pub open spec fn rank(self) -> int {
        if self.negative() {
            -self.magnitude()
        } else {
            self.magnitude()
        }
    }

    /// Both are numbers and the first is the smaller.
    pub open spec fn spec_lt(self, other: Scalar) -> bool {
        !self.nan() && !other.nan() && self.value() < other.value()
    }

    /// Both are numbers and the first is not the larger.
    pub open spec fn spec_le(self, other: Scalar) -> bool {
        !self.nan() && !other.nan() && self.value() <= other.value()
    }

    /// Zero, with the sign bit clear.
    pub open spec fn spec_zero() -> Scalar {
        Scalar { bits: 0 }
    }

    /// One.
    pub open spec fn spec_one() -> Scalar {
        Scalar { bits: 0x3f80_0000 }
    }

    /// Positive infinity.
    pub open spec fn spec_infinity() -> Scalar {
        Scalar { bits: INFINITE }
    }

    /// Two.
    pub open spec fn spec_two() -> Scalar {
        Scalar { bits: 0x4000_0000 }
    }

    /// A half.
    pub open spec fn spec_half() -> Scalar {
        Scalar { bits: 0x3f00_0000 }
    }

    /// One below zero.
    pub open spec fn spec_minus_one() -> Scalar {
        Scalar { bits: 0xbf80_0000 }
    }

    /// Both are numbers and the first is the larger.
    pub open spec fn spec_gt(self, other: Scalar) -> bool {
        other.spec_lt(self)
    }

    /// The same number with the other sign; what is no number stays none.
    pub open spec fn spec_neg(self) -> Scalar {
        if self.bits >= SIGN {
            Scalar { bits: (self.bits - SIGN) as u32 }
        } else {
            Scalar { bits: (self.bits + SIGN) as u32 }
        }
    }

    /// The same number without its sign.
    pub open spec fn spec_abs(self) -> Scalar {
        if self.bits >= SIGN {
            Scalar { bits: (self.bits - SIGN) as u32 }
        } else {
            self
        }
    }

    /// The smaller of two numbers. Where one is no number the other is the
    /// result; where they are worth the same, the first.
    pub open spec fn spec_min(self, other: Scalar) -> Scalar {
        if self.nan() {
            other
        } else if other.spec_lt(self) {
            other
        } else {
            self
        }
    }

    /// The larger of two numbers. Where one is no number the other is the
    /// result; where they are worth the same, the first.
    pub open spec fn spec_max(self, other: Scalar) -> Scalar {
        if self.nan() {
            other
        } else if self.spec_lt(other) {
            other
        } else {
            self
        }
    }
}

/// A larger magnitude is worth more: the order of the patterns is the order
/// of the numbers.
pub proof fn lemma_weight_increases(m1: int, m2: int)
    requires
        0 <= m1 < m2,
    ensures
        0 <= weight(m1) < weight(m2),
{
    let h: int = HIDDEN as int;
    if m2 < h {
    } else if m1 < h {
        let p: int = pow2((m2 / h - 1) as nat) as int;
        lemma_pow2_pos((m2 / h - 1) as nat);
        assert((h + m2 % h) * p >= h) by (nonlinear_arith)
            requires
                p >= 1,
                h > 0,
                m2 % h >= 0,
        ;
    } else {
        let e1: int = m1 / h;
        let e2: int = m2 / h;
        let f1: int = m1 % h;
        let f2: int = m2 % h;
        let low: int = pow2((e1 - 1) as nat) as int;
        let high: int = pow2((e2 - 1) as nat) as int;
        lemma_pow2_pos((e1 - 1) as nat);
        lemma_pow2_pos((e2 - 1) as nat);
        assert((h + f1) * low >= 0) by (nonlinear_arith)
            requires
                low >= 1,
                h > 0,
                f1 >= 0,
        ;
        if e1 == e2 {
            assert((h + f1) * low < (h + f2) * low) by (nonlinear_arith)
                requires
                    low >= 1,
                    f1 < f2,
            ;
        } else {
            assert(e1 < e2);
            lemma_pow2_unfold(e1 as nat);
            if e1 < e2 - 1 {
                lemma_pow2_strictly_increases(e1 as nat, (e2 - 1) as nat);
            }
            let q: int = pow2(e1 as nat) as int;
            assert(q == 2 * low);
            assert(q <= high);
            assert((h + f1) * low < (h + f2) * high) by (nonlinear_arith)
                requires
                    low >= 1,
                    2 * low <= high,
                    0 <= f1 < h,
                    0 <= f2,
            ;
        }
    }
}

/// Ranks and values order any two patterns alike.
pub proof fn lemma_rank_orders(a: Scalar, b: Scalar)
    ensures
        a.rank() < b.rank() <==> a.value() < b.value(),
        a.rank() == b.rank() <==> a.value() == b.value(),
{
    let ma: int = a.magnitude();
    let mb: int = b.magnitude();
    if ma < mb {
        lemma_weight_increases(ma, mb);
    } else if mb < ma {
        lemma_weight_increases(mb, ma);
    }
    if 0 < ma {
        lemma_weight_increases(0, ma);
    }
    if 0 < mb {
        lemma_weight_increases(0, mb);
    }
}

impl Scalar {
    /// The number with this pattern.
    pub fn from_bits(bits: u32) -> (r: Scalar)
        ensures
            r.bits == bits,
    {
        Scalar { bits }
    }

    /// The pattern of this number.
    pub fn to_bits(self) -> (r: u32)
        ensures
            r == self.bits,
    {
        self.bits
    }

    /// Whether the pattern denotes no number.
    pub fn is_nan(self) -> (r: bool)
        ensures
            r == self.nan(),
    {
        if self.bits >= SIGN {
            self.bits - SIGN > INFINITE
        } else {
            self.bits > INFINITE
        }
    }

    fn signed_magnitude(self) -> (r: i64)
        ensures
            r == self.rank(),
    {
        if self.bits >= SIGN {
            let m: u32 = self.bits - SIGN;
            let wide: i64 = m as i64;
            -wide
        } else {
            self.bits as i64
        }
    }

    /// `self < other` as numbers: false as soon as one of them is none.
    pub fn lt(self, other: Scalar) -> (r: bool)
        ensures
            r == self.spec_lt(other),
    {
        proof {
            lemma_rank_orders(self, other);
        }
        !self.is_nan() && !other.is_nan() && self.signed_magnitude() < other.signed_magnitude()
    }

    /// `self > other` as numbers: false as soon as one of them is none.
    pub fn gt(self, other: Scalar) -> (r: bool)
        ensures
            r == self.spec_gt(other),
    {
        other.lt(self)
    }

    /// The number with the other sign: only the sign bit changes.
    pub fn neg(self) -> (r: Scalar)
        ensures
            r == self.spec_neg(),
            r.magnitude() == self.magnitude(),
            r.negative() != self.negative(),
            r.nan() == self.nan(),
            r.value() == -self.value(),
    {
        if self.bits >= SIGN {
            Scalar { bits: self.bits - SIGN }
        } else {
            Scalar { bits: self.bits + SIGN }
        }
    }

    /// The number without its sign: the sign bit is cleared.
    pub fn abs(self) -> (r: Scalar)
        ensures
            r == self.spec_abs(),
            r.magnitude() == self.magnitude(),
            !r.negative(),
            r.nan() == self.nan(),
            r.value() == if self.value() < 0 { -self.value() } else { self.value() },
    {
        proof {
            if 0 < self.magnitude() {
                lemma_weight_increases(0, self.magnitude());
            }
        }
        if self.bits >= SIGN {
            Scalar { bits: self.bits - SIGN }
        } else {
            self
        }
    }

    /// The smaller of the two, a number wherever one of them is.
    pub fn min(self, other: Scalar) -> (r: Scalar)
        ensures
            r == self.spec_min(other),
            r == self || r == other,
            r.nan() <==> self.nan() && other.nan(),
            !self.nan() ==> !self.spec_lt(r),
            !other.nan() ==> !other.spec_lt(r),
    {
        if self.is_nan() {
            other
        } else if other.lt(self) {
            other
        } else {
            self
        }
    }

    /// The larger of the two, a number wherever one of them is.
    pub fn max(self, other: Scalar) -> (r: Scalar)
        ensures
            r == self.spec_max(other),
            r == self || r == other,
            r.nan() <==> self.nan() && other.nan(),
            !self.nan() ==> !r.spec_lt(self),
            !other.nan() ==> !r.spec_lt(other),
    {
        if self.is_nan() {
            other
        } else if self.lt(other) {
            other
        } else {
            self
        }
    }

    /// Zero, with the sign bit clear.
    pub fn zero() -> (r: Scalar)
        ensures
            r == Scalar::spec_zero(),
            r.value() == 0,
    {
        Scalar { bits: 0 }
    }

    /// One.
    pub fn one() -> (r: Scalar)
        ensures
            r == Scalar::spec_one(),
            r.value() == pow2(149),
    {
        proof {
            lemma2_to64();
            lemma_pow2_adds(23, 126);
            assert(0x3f80_0000int / 0x0080_0000int == 127);
            assert(0x3f80_0000int % 0x0080_0000int == 0);
        }
        Scalar { bits: 0x3f80_0000 }
    }

    /// Two.
    pub fn two() -> (r: Scalar)
        ensures
            r == Scalar::spec_two(),
            r.value() == 2 * pow2(149),
    {
        proof {
            lemma2_to64();
            lemma_pow2_adds(23, 127);
            lemma_pow2_unfold(150);
            assert(0x4000_0000int / 0x0080_0000int == 128);
            assert(0x4000_0000int % 0x0080_0000int == 0);
        }
        Scalar { bits: 0x4000_0000 }
    }

    /// A half.
    pub fn half() -> (r: Scalar)
        ensures
            r == Scalar::spec_half(),
            2 * r.value() == pow2(149),
    {
        proof {
            lemma2_to64();
            lemma_pow2_adds(23, 125);
            lemma_pow2_unfold(149);
            assert(0x3f00_0000int / 0x0080_0000int == 126);
            assert(0x3f00_0000int % 0x0080_0000int == 0);
        }
        Scalar { bits: 0x3f00_0000 }
    }

    /// One below zero.
    pub fn minus_one() -> (r: Scalar)
        ensures
            r == Scalar::spec_minus_one(),
            r.value() == -pow2(149),
    {
        proof {
            lemma2_to64();
            lemma_pow2_adds(23, 126);
            assert(0x3f80_0000int / 0x0080_0000int == 127);
            assert(0x3f80_0000int % 0x0080_0000int == 0);
        }
        Scalar { bits: 0xbf80_0000 }
    }

    /// Positive infinity: larger than every finite number.
    pub fn infinity() -> (r: Scalar)
        ensures
            r == Scalar::spec_infinity(),
            !r.nan(),
            forall|x: Scalar| x.finite() ==> #[trigger] x.spec_lt(r),
    {
        let r = Scalar { bits: INFINITE };
        proof {
            assert forall|x: Scalar| x.finite() implies #[trigger] x.spec_lt(r) by {
                lemma_rank_orders(x, r);
            }
        }
        r
    }
}

} // verus!
