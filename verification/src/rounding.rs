//! Rounding a ratio to the nearest magnitude that the format holds.
use crate::scalar::{lemma_weight_increases, weight, HIDDEN, INFINITE};
use vstd::arithmetic::power2::{lemma2_to64, lemma_pow2_adds, lemma_pow2_pos, lemma_pow2_unfold, pow2};
use vstd::prelude::*;

verus! {

/// How far the magnitude `m` lies from the ratio of `n` to `d`, times `d`.
pub open spec fn error(m: int, n: int, d: int) -> int {
    let e = weight(m) * d - n;
    if e < 0 {
        -e
    } else {
        e
    }
}

/// `m` is the ratio of `n` to `d` rounded: of all magnitudes up to that of
/// infinity, which counts as the power of two that follows the largest
/// finite number, `m` is the nearest, and of two equally near the even one.
pub open spec fn is_rounded(n: int, d: int, m: int) -> bool {
    &&& 0 <= m <= INFINITE
    &&& forall|c: int| 0 <= c <= INFINITE ==> error(m, n, d) <= #[trigger] error(c, n, d)
    &&& forall|c: int| 0 <= c <= INFINITE && c != m && #[trigger] error(c, n, d) == error(m, n, d) ==> m % 2 == 0
}

/// The ratio of `n` to `d`, rounded.
pub open spec fn rounded(n: int, d: int) -> int {
    choose|m: int| is_rounded(n, d, m)
}

/// A ratio rounds to one magnitude only.
pub proof fn lemma_rounded_is_unique(n: int, d: int, m1: int, m2: int)
    requires
        d > 0,
        is_rounded(n, d, m1),
        is_rounded(n, d, m2),
    ensures
        m1 == m2,
{
    assert(error(m1, n, d) <= error(m2, n, d));
    assert(error(m2, n, d) <= error(m1, n, d));
    if m1 != m2 {
        let lo = if m1 < m2 { m1 } else { m2 };
        let hi = if m1 < m2 { m2 } else { m1 };
        let c = lo + 1;
        assert(lo % 2 == 0 && hi % 2 == 0);
        lemma_weight_increases(lo, c);
        lemma_weight_increases(c, hi);
        let (wl, wc, wh) = (weight(lo), weight(c), weight(hi));
        assert(wl * d < wc * d && wc * d < wh * d) by (nonlinear_arith)
            requires
                wl < wc < wh,
                d > 0,
        ;
        assert(error(lo, n, d) <= error(c, n, d));
    }
}

/// The largest magnitude up to `top` that is worth no more than the ratio.
proof fn lemma_floor(n: int, d: int, top: int) -> (m: int)
    requires
        0 <= n,
        0 < d,
        0 <= top <= INFINITE,
    ensures
        0 <= m <= top,
        weight(m) * d <= n,
        m < top ==> n < weight(m + 1) * d,
    decreases top,
{
    if top == 0 {
        assert(weight(0) * d == 0) by (nonlinear_arith)
            requires
                weight(0) == 0,
        ;
        0
    } else if weight(top) * d <= n {
        top
    } else {
        lemma_floor(n, d, top - 1)
    }
}

/// Every ratio that is not negative rounds to some magnitude.
pub proof fn lemma_rounding_exists(n: int, d: int)
    requires
        0 <= n,
        0 < d,
    ensures
        is_rounded(n, d, rounded(n, d)),
        0 <= rounded(n, d) <= INFINITE,
{
    let lo = lemma_floor(n, d, INFINITE as int);
    let wl = weight(lo);
    let m = if lo == INFINITE {
        lo
    } else if error(lo, n, d) < error(lo + 1, n, d) {
        lo
    } else if error(lo, n, d) > error(lo + 1, n, d) {
        lo + 1
    } else if lo % 2 == 0 {
        lo
    } else {
        lo + 1
    };
    assert forall|c: int| 0 <= c <= INFINITE implies error(m, n, d) <= #[trigger] error(c, n, d) && (c != m && error(
        c,
        n,
        d,
    ) == error(m, n, d) ==> m % 2 == 0) by {
        let wc = weight(c);
        if c < lo {
            lemma_weight_increases(c, lo);
            assert(wc * d < wl * d) by (nonlinear_arith)
                requires
                    wc < wl,
                    d > 0,
            ;
        } else if c > lo + 1 {
            lemma_weight_increases(lo + 1, c);
            let wh = weight(lo + 1);
            assert(wh * d < wc * d) by (nonlinear_arith)
                requires
                    wh < wc,
                    d > 0,
            ;
        }
    }
    assert(is_rounded(n, d, m));
}

/// What is rounded to `m` is the value of `rounded`.
pub proof fn lemma_rounded(n: int, d: int, m: int)
    requires
        d > 0,
        is_rounded(n, d, m),
    ensures
        rounded(n, d) == m,
{
    lemma_rounded_is_unique(n, d, m, rounded(n, d));
}

/// Equal ratios round alike.
pub proof fn lemma_rounded_ratio(n1: int, d1: int, n2: int, d2: int, m: int)
    requires
        d1 > 0,
        d2 > 0,
        n1 * d2 == n2 * d1,
        is_rounded(n1, d1, m),
    ensures
        is_rounded(n2, d2, m),
{
    assert forall|c: int| error(c, n1, d1) * d2 == #[trigger] error(c, n2, d2) * d1 by {
        let w = weight(c);
        assert((w * d1 - n1) * d2 == (w * d2 - n2) * d1) by (nonlinear_arith)
            requires
                n1 * d2 == n2 * d1,
        ;
        assert((-(w * d1 - n1)) * d2 == (-(w * d2 - n2)) * d1) by (nonlinear_arith)
            requires
                n1 * d2 == n2 * d1,
        ;
        assert((w * d1 - n1 < 0) == (w * d2 - n2 < 0)) by (nonlinear_arith)
            requires
                (w * d1 - n1) * d2 == (w * d2 - n2) * d1,
                d1 > 0,
                d2 > 0,
        ;
    }
    let em = error(m, n2, d2);
    assert(error(m, n1, d1) * d2 == em * d1);
    assert forall|c: int| 0 <= c <= INFINITE implies em <= #[trigger] error(c, n2, d2) by {
        let (a1, a2, b1, b2) = (error(m, n1, d1), em, error(c, n1, d1), error(c, n2, d2));
        assert(b1 * d2 == b2 * d1);
        assert(a2 <= b2) by (nonlinear_arith)
            requires
                a1 <= b1,
                a1 * d2 == a2 * d1,
                b1 * d2 == b2 * d1,
                d1 > 0,
                d2 > 0,
        ;
    }
    assert forall|c: int| 0 <= c <= INFINITE && c != m && #[trigger] error(c, n2, d2) == em implies m % 2 == 0 by {
        let (a1, b1, b2) = (error(m, n1, d1), error(c, n1, d1), error(c, n2, d2));
        assert(b1 * d2 == b2 * d1);
        assert(a1 == b1) by (nonlinear_arith)
            requires
                a1 * d2 == em * d1,
                b1 * d2 == b2 * d1,
                b2 == em,
                d1 > 0,
                d2 > 0,
        ;
    }
}

/// What a magnitude is worth that is written as a significand `q` in the
/// binade whose steps are two to the power `j`, and what the next one is.
pub proof fn lemma_weight_pattern(j: int, q: int)
    requires
        0 <= j,
        0 <= q < 2 * HIDDEN,
        j >= 1 ==> HIDDEN <= q,
    ensures
        weight(j * HIDDEN + q) == q * pow2(j as nat),
        weight(j * HIDDEN + q + 1) == (q + 1) * pow2(j as nat),
{
    let h: int = HIDDEN as int;
    let m = j * h + q;
    let p = pow2(j as nat) as int;
    lemma2_to64();
    if q < h {
        assert(j == 0 && p == 1);
        assert(q * p == q && (q + 1) * p == q + 1) by (nonlinear_arith)
            requires
                p == 1,
        ;
        if q + 1 == h {
            assert(h / h == 1 && h % h == 0);
        }
    } else {
        assert(m / h == j + 1 && m % h == q - h) by {
            vstd::arithmetic::div_mod::lemma_fundamental_div_mod_converse(m, h, j + 1, q - h);
        }
        if q + 1 < 2 * h {
            assert((m + 1) / h == j + 1 && (m + 1) % h == q + 1 - h) by {
                vstd::arithmetic::div_mod::lemma_fundamental_div_mod_converse(m + 1, h, j + 1, q + 1 - h);
            }
        } else {
            assert((m + 1) / h == j + 2 && (m + 1) % h == 0) by {
                vstd::arithmetic::div_mod::lemma_fundamental_div_mod_converse(m + 1, h, j + 2, 0);
            }
            lemma_pow2_unfold((j + 1) as nat);
            assert(h * (2 * p) == (q + 1) * p) by (nonlinear_arith)
                requires
                    q + 1 == 2 * h,
            ;
        }
    }
}

/// A larger exponent gives no smaller power of two.
proof fn lemma_pow2_grows(a: nat, b: nat)
    requires
        a <= b,
    ensures
        pow2(a) <= pow2(b),
{
    if a < b {
        vstd::arithmetic::power2::lemma_pow2_strictly_increases(a, b);
    }
}

/// Two to the powers 80 and 92, written out.
proof fn lemma_pow2_80_92()
    ensures
        pow2(80) == 0x1_0000_0000_0000_0000_0000,
        pow2(92) == 0x1000_0000_0000_0000_0000_0000,
{
    lemma2_to64();
    lemma_pow2_adds(64, 16);
    lemma_pow2_adds(64, 28);
    assert(0x1_0000_0000_0000_0000int * 0x1_0000int == 0x1_0000_0000_0000_0000_0000int) by (nonlinear_arith);
    assert(0x1_0000_0000_0000_0000int * 0x1000_0000int == 0x1000_0000_0000_0000_0000_0000int) by (nonlinear_arith);
}

/// Two to the power 127, written out.
proof fn lemma_pow2_127()
    ensures
        pow2(127) == 0x8000_0000_0000_0000_0000_0000_0000_0000,
{
    lemma2_to64();
    vstd::arithmetic::power2::lemma2_to64_rest();
    lemma_pow2_adds(63, 64);
    assert(0x8000_0000_0000_0000int * 0x1_0000_0000_0000_0000int == 0x8000_0000_0000_0000_0000_0000_0000_0000int)
        by (nonlinear_arith);
}

/// Two to the power `e`.
pub(crate) fn power_of_two(e: u32) -> (r: u128)
    requires
        e <= 126,
    ensures
        r == pow2(e as nat),
        r >= 1,
{
    let mut r: u128 = 1;
    let mut i: u32 = 0;
    proof {
        lemma2_to64();
    }
    while i < e
        invariant
            i <= e <= 126,
            r == pow2(i as nat),
            r >= 1,
        decreases e - i,
    {
        proof {
            lemma_pow2_unfold((i + 1) as nat);
            vstd::arithmetic::power2::lemma_pow2_strictly_increases((i + 1) as nat, 127);
            lemma_pow2_127();
        }
        r = r * 2;
        i = i + 1;
    }
    r
}

/// The number of binary digits of `x`.
pub(crate) fn bit_length(x: u128) -> (l: u32)
    ensures
        l <= 128,
        x == 0 ==> l == 0,
        x > 0 ==> l >= 1 && pow2((l - 1) as nat) <= x < pow2(l as nat),
{
    let mut y: u128 = x;
    let mut l: u32 = 0;
    proof {
        lemma2_to64();
        assert(y * 1 == y) by (nonlinear_arith);
    }
    while y > 0
        invariant
            y * pow2(l as nat) <= x < (y + 1) * pow2(l as nat),
            l > 0 ==> pow2((l - 1) as nat) <= x,
            l <= 128,
            y > 0 ==> l < 128,
            x == 0 ==> l == 0,
        decreases y,
    {
        let ghost p = pow2(l as nat) as int;
        let ghost half = y as int / 2;
        proof {
            lemma_pow2_unfold((l + 1) as nat);
            lemma_pow2_pos(l as nat);
            assert(half * (2 * p) <= y * p && (y + 1) * p <= (half + 1) * (2 * p)) by (nonlinear_arith)
                requires
                    2 * half <= y <= 2 * half + 1,
                    p > 0,
            ;
            assert(p <= y * p) by (nonlinear_arith)
                requires
                    y >= 1,
                    p > 0,
            ;
            if half > 0 && l >= 127 {
                // two more digits would not fit
                lemma_pow2_127();
                assert(y * p >= 2 * p) by (nonlinear_arith)
                    requires
                        y >= 2,
                        p > 0,
                ;
            }
        }
        y = y / 2;
        l = l + 1;
    }
    proof {
        assert((0 + 1) * pow2(l as nat) == pow2(l as nat)) by (nonlinear_arith);
    }
    l
}

/// Whether a quotient `q` with remainder `r` of a division by `den` is
/// rounded up: where the remainder is more than half the divisor, or half
/// of it and the quotient odd.
pub open spec fn rounds_up(q: int, r: int, den: int) -> bool {
    2 * r > den || (2 * r == den && q % 2 == 1)
}

/// The magnitude with the significand `q`, or the next one, in the binade
/// whose steps are two to the power `j`.
pub open spec fn pattern(j: int, q: int, up: bool) -> int {
    j * HIDDEN + q + if up {
        1int
    } else {
        0int
    }
}

/// Long division rounds. Where `num` divided by `den` leaves the quotient
/// `q`, of 24 digits or in the lowest binade, and the remainder `r`, the
/// ratio of `num` times two to the power `j` to `den` rounds to the magnitude
/// with the significand `q`, or to the next one.
pub proof fn lemma_quotient_rounds(num: int, den: int, j: int, q: int, r: int)
    requires
        0 < den,
        num == den * q + r,
        0 <= r < den,
        0 <= j < 254,
        0 <= q < 2 * HIDDEN,
        j >= 1 ==> HIDDEN <= q,
    ensures
        is_rounded(num * pow2(j as nat), den, pattern(j, q, rounds_up(q, r, den))),
{
    let p = pow2(j as nat) as int;
    let n = num * p;
    let d = den;
    let up = rounds_up(q, r, den);
    let below = j * HIDDEN + q;
    let m = pattern(j, q, up);
    lemma_pow2_pos(j as nat);
    lemma_weight_pattern(j, q);
    let lo = weight(below);
    let hi = weight(below + 1);
    assert(n - lo * d == r * p && hi * d - n == (d - r) * p) by (nonlinear_arith)
        requires
            lo == q * p,
            hi == (q + 1) * p,
            n == num * p,
            num == d * q + r,
    ;
    assert(r * p >= 0 && (d - r) * p > 0) by (nonlinear_arith)
        requires
            0 <= r < d,
            p > 0,
    ;
    if up {
        assert((d - r) * p <= r * p) by (nonlinear_arith)
            requires
                d - r <= r,
                p > 0,
        ;
    } else {
        assert(r * p <= (d - r) * p) by (nonlinear_arith)
            requires
                r <= d - r,
                p > 0,
        ;
    }
    assert(below % 2 == q % 2) by {
        assert(below == 2 * (j * (HIDDEN / 2)) + q);
    }
    let em = error(m, n, d);
    assert forall|c: int| 0 <= c <= INFINITE implies em <= #[trigger] error(c, n, d) && (c != m && error(c, n, d) == em
        ==> m % 2 == 0) by {
        let wc = weight(c);
        if c < below {
            lemma_weight_increases(c, below);
            assert(wc * d < lo * d) by (nonlinear_arith)
                requires
                    wc < lo,
                    d > 0,
            ;
        } else if c > below + 1 {
            lemma_weight_increases(below + 1, c);
            assert(hi * d < wc * d) by (nonlinear_arith)
                requires
                    hi < wc,
                    d > 0,
            ;
        }
        if c != m && error(c, n, d) == em {
            assert(r * p == (d - r) * p);
            assert(r == d - r) by (nonlinear_arith)
                requires
                    r * p == (d - r) * p,
                    p > 0,
            ;
        }
    }
}

/// The quotient of `num` by `den`, counted in steps of two to the power `j`,
/// rounded to the nearest magnitude. The quotient is below two to the power
/// 24, and has 24 digits unless `j` is zero.
pub(crate) fn round_quotient(num: u128, den: u128, j: u32) -> (m: u32)
    requires
        0 < den < 0x2000_0000_0000_0000_0000_0000_0000_0000,
        num < 0x100_0000 * den,
        j >= 1 ==> num >= 0x80_0000 * den,
    ensures
        is_rounded(num * pow2(j as nat), den as int, m as int),
{
    let q: u128 = num / den;
    let r: u128 = num % den;
    let ghost p = pow2(j as nat) as int;
    let ghost n = num * p;
    let ghost d = den as int;
    proof {
        lemma_pow2_pos(j as nat);
        vstd::arithmetic::div_mod::lemma_fundamental_div_mod(num as int, den as int);
        assert(num == den * q + r);
        assert(q < 0x100_0000) by (nonlinear_arith)
            requires
                num == den * q + r,
                num < 0x100_0000 * den,
                r >= 0,
                den > 0,
        ;
        if j >= 1 {
            assert(q >= 0x80_0000) by (nonlinear_arith)
                requires
                    num == den * q + r,
                    num >= 0x80_0000 * den,
                    r < den,
                    den > 0,
            ;
        }
    }
    if j >= 254 {
        proof {
            let top: int = INFINITE as int;
            lemma_weight_pattern(254, HIDDEN as int);
            assert(top == 254 * HIDDEN + HIDDEN);
            if j > 254 {
                vstd::arithmetic::power2::lemma_pow2_strictly_increases(254, j as nat);
            }
            let w = weight(top);
            assert(w * d <= n) by (nonlinear_arith)
                requires
                    w == HIDDEN * pow2(254),
                    pow2(254) <= p,
                    n == num * p,
                    num >= 0x80_0000 * d,
                    HIDDEN == 0x80_0000,
                    d > 0,
            ;
            assert forall|c: int| 0 <= c <= INFINITE implies error(top, n, d) <= #[trigger] error(c, n, d) by {
                if c < top {
                    lemma_weight_increases(c, top);
                    let wc = weight(c);
                    assert(wc * d <= w * d) by (nonlinear_arith)
                        requires
                            wc <= w,
                            d > 0,
                    ;
                }
            }
        }
        return INFINITE;
    }
    let below: u32 = j * HIDDEN + (q as u32);
    let up: bool = 2 * r > den || (2 * r == den && q % 2 == 1);
    proof {
        lemma_quotient_rounds(num as int, den as int, j as int, q as int, r as int);
    }
    if up {
        below + 1
    } else {
        below
    }
}

/// What a magnitude is worth rounds to that magnitude.
pub proof fn lemma_rounds_exact(m: int, d: int)
    requires
        0 <= m <= INFINITE,
        0 < d,
    ensures
        is_rounded(weight(m) * d, d, m),
{
    let n = weight(m) * d;
    assert forall|c: int| 0 <= c <= INFINITE && c != m implies error(c, n, d) > 0 by {
        let (wc, wm) = (weight(c), weight(m));
        if c < m {
            lemma_weight_increases(c, m);
            assert(wc * d < wm * d) by (nonlinear_arith)
                requires
                    wc < wm,
                    d > 0,
            ;
        } else {
            lemma_weight_increases(m, c);
            assert(wm * d < wc * d) by (nonlinear_arith)
                requires
                    wm < wc,
                    d > 0,
            ;
        }
    }
}

/// A ratio below a half rounds to zero.
pub proof fn lemma_rounds_to_zero(n: int, d: int)
    requires
        0 <= n,
        2 * n < d,
    ensures
        is_rounded(n, d, 0),
{
    assert(weight(0) * d == 0) by (nonlinear_arith)
        requires
            weight(0) == 0,
    ;
    assert forall|c: int| 0 <= c <= INFINITE implies error(0, n, d) <= #[trigger] error(c, n, d) by {
        if c > 0 {
            lemma_weight_increases(0, c);
            let w = weight(c);
            assert(w * d >= d) by (nonlinear_arith)
                requires
                    w >= 1,
                    d > 0,
            ;
        }
    }
}

/// Powers of two multiply by adding their exponents, three at a time.
proof fn lemma_pow2_sum3(a: nat, b: nat, c: nat)
    ensures
        pow2(a) * pow2(b) * pow2(c) == pow2(a + b + c),
        pow2(a + b + c) > 0,
{
    lemma_pow2_adds(a, b);
    lemma_pow2_adds(a + b, c);
    lemma_pow2_pos(a + b + c);
}

/// The ratio of `num` to `den`, times two to the power `e`, rounded to the
/// nearest magnitude.
pub(crate) fn round_scaled(num: u128, den: u128, e: i32) -> (m: u32)
    requires
        0 < den < 0x1_0000_0000,
        num < 0x1000_0000_0000_0000_0000_0000,
        -1000 <= e <= 1000,
    ensures
        e >= 0 ==> is_rounded(num * pow2(e as nat), den as int, m as int),
        e < 0 ==> is_rounded(num as int, den * pow2((-e) as nat), m as int),
{
    let ghost up: nat = if e >= 0 { e as nat } else { 0 };
    let ghost down: nat = if e >= 0 { 0 } else { (-e) as nat };
    let ghost n = num * pow2(up);
    let ghost d = den * pow2(down);
    proof {
        lemma2_to64();
        lemma_pow2_pos(up);
        lemma_pow2_pos(down);
        assert(d > 0 && n >= 0) by (nonlinear_arith)
            requires
                d == den * pow2(down),
                n == num * pow2(up),
                den > 0,
                num >= 0,
                pow2(down) > 0,
                pow2(up) > 0,
        ;
        assert(num * pow2(0) == num && den * pow2(0) == den) by (nonlinear_arith)
            requires
                pow2(0) == 1,
        ;
    }
    if num == 0 {
        proof {
            assert(n == 0) by (nonlinear_arith)
                requires
                    n == num * pow2(up),
                    num == 0,
            ;
            lemma_rounds_to_zero(n, d);
        }
        return 0;
    }
    let ln: u32 = bit_length(num);
    let ld: u32 = bit_length(den);
    proof {
        // the lengths are within the bounds of the arguments
        lemma_pow2_80_92();
        if ln > 92 {
            lemma_pow2_grows(92, (ln - 1) as nat);
        }
        if ld > 32 {
            lemma_pow2_grows(32, (ld - 1) as nat);
        }
        assert(1 <= ln <= 92 && 1 <= ld <= 32);
    }
    let g0: i32 = 23 - (ln as i32) + (ld as i32);
    let mut a: u128;
    let b: u128;
    let ghost ea: nat;
    let ghost eb: nat;
    if g0 >= 0 {
        let f: u128 = power_of_two(g0 as u32);
        proof {
            // num * f has 23 + ld digits
            lemma_pow2_adds(ln as nat, g0 as nat);
            lemma_pow2_adds((ln - 1) as nat, g0 as nat);
            vstd::arithmetic::power2::lemma_pow2_strictly_increases((23 + ld) as nat, 64);
            assert(num * f < pow2((23 + ld) as nat) && num * f >= pow2((22 + ld) as nat)) by (nonlinear_arith)
                requires
                    pow2((ln - 1) as nat) <= num < pow2(ln as nat),
                    pow2(ln as nat) * f == pow2((23 + ld) as nat),
                    pow2((ln - 1) as nat) * f == pow2((22 + ld) as nat),
                    f > 0,
            ;
        }
        a = num * f;
        b = den;
        proof {
            ea = g0 as nat;
            eb = 0;
        }
    } else {
        let f: u128 = power_of_two((-g0) as u32);
        proof {
            lemma_pow2_adds(ld as nat, (-g0) as nat);
            lemma_pow2_adds((ld - 1) as nat, (-g0) as nat);
            lemma_pow2_grows((ln - 23) as nat, 80);
            lemma_pow2_80_92();
            assert(den * f < pow2((ln - 23) as nat) && den * f >= pow2((ln - 24) as nat)) by (nonlinear_arith)
                requires
                    pow2((ld - 1) as nat) <= den < pow2(ld as nat),
                    pow2(ld as nat) * f == pow2((ln - 23) as nat),
                    pow2((ld - 1) as nat) * f == pow2((ln - 24) as nat),
                    f > 0,
            ;
        }
        a = num;
        b = den * f;
        proof {
            ea = 0;
            eb = (-g0) as nat;
        }
    }
    // Now a / b lies between two to the powers 22 and 24.
    let ghost top: int;
    let ghost low: int;
    proof {
        // a < 2^(top), a >= 2^(top - 1), b < 2^(low), b >= 2^(low - 1), top - low == 23
        if g0 >= 0 {
            top = 23 + ld;
            low = ld as int;
        } else {
            top = ln as int;
            low = ln - 23;
        }
        lemma_pow2_adds(23, low as nat);
        lemma_pow2_adds(22, (low - 1) as nat);
        lemma_pow2_adds(24, (low - 1) as nat);
        lemma_pow2_unfold(low as nat);
        lemma_pow2_unfold(top as nat);
        lemma_pow2_pos((low - 1) as nat);
        assert(a < 0x100_0000 * b && 2 * a >= 0x80_0000 * b) by (nonlinear_arith)
            requires
                pow2((top - 1) as nat) <= a < pow2(top as nat),
                pow2((low - 1) as nat) <= b < pow2(low as nat),
                pow2(top as nat) == 0x80_0000 * pow2(low as nat),
                pow2(low as nat) == 2 * pow2((low - 1) as nat),
                pow2(top as nat) == 2 * pow2((top - 1) as nat),
        ;
    }
    let mut g: i32 = g0;
    if a < 0x80_0000 * b {
        a = a * 2;
        g = g0 + 1;
        proof {
            ea = ea + 1;
            lemma_pow2_unfold(ea);
        }
    }
    proof {
        assert(a == num * pow2(ea) && b == den * pow2(eb) && ea - eb == g) by (nonlinear_arith)
            requires
                g0 >= 0 ==> (if g == g0 { a == num * pow2(g0 as nat) } else { a == (num * pow2(g0 as nat)) * 2 }),
                g0 < 0 ==> (if g == g0 { a == num } else { a == num * 2 }),
                g0 >= 0 ==> b == den && eb == 0 && ea == g,
                g0 < 0 ==> b == den * pow2((-g0) as nat) && eb == -g0 && ea == g - g0,
                g == g0 || g == g0 + 1,
                g != g0 ==> pow2(ea) == 2 * pow2((ea - 1) as nat),
                pow2(0) == 1,
        ;
    }
    let jn: i32 = e - g;
    if jn >= 1 {
        let m = round_quotient(a, b, jn as u32);
        proof {
            // a * 2^jn / b == n / d
            let j = jn as nat;
            lemma_pow2_sum3(ea, j, down);
            lemma_pow2_sum3(up, eb, 0);
            assert(ea + j + down == up + eb + 0);
            assert((a * pow2(j)) * d == n * (b as int)) by (nonlinear_arith)
                requires
                    a == num * pow2(ea),
                    b == den * pow2(eb),
                    n == num * pow2(up),
                    d == den * pow2(down),
                    pow2(ea) * pow2(j) * pow2(down) == pow2(up) * pow2(eb) * pow2(0),
                    pow2(0) == 1,
            ;
            lemma_rounded_ratio(a * pow2(j), b as int, n, d, m as int);
        }
        return m;
    }
    let t: i32 = -jn;
    proof {
        // a / (b * 2^t) == n / d
        lemma_pow2_sum3(ea, 0, down);
        lemma_pow2_sum3(up, eb, t as nat);
        assert(ea + 0 + down == up + eb + t);
        lemma_pow2_pos(t as nat);
        assert(a * d == n * (b * pow2(t as nat))) by (nonlinear_arith)
            requires
                a == num * pow2(ea),
                b == den * pow2(eb),
                n == num * pow2(up),
                d == den * pow2(down),
                pow2(ea) * pow2(0) * pow2(down) == pow2(up) * pow2(eb) * pow2(t as nat),
                pow2(0) == 1,
        ;
    }
    if t > 26 {
        proof {
            vstd::arithmetic::power2::lemma_pow2_strictly_increases(26, t as nat);
            let x = b * pow2(t as nat);
            assert(4 * a < x) by (nonlinear_arith)
                requires
                    a < 0x100_0000 * b,
                    x == b * pow2(t as nat),
                    pow2(t as nat) > 0x400_0000,
                    b > 0,
            ;
            assert(2 * n < d) by (nonlinear_arith)
                requires
                    a * d == n * x,
                    4 * a < x,
                    a >= 0,
                    d > 0,
                    n >= 0,
            ;
            lemma_rounds_to_zero(n, d);
        }
        return 0;
    }
    let f: u128 = power_of_two(t as u32);
    proof {
        assert(b < 0x1_0000_0000_0000_0000_0000 && b * f < 0x2000_0000_0000_0000_0000_0000_0000_0000) by {
            lemma_pow2_80_92();
            assert(low <= 80);
            lemma_pow2_grows(low as nat, 80);
            assert(f <= 0x400_0000) by {
                lemma_pow2_grows(t as nat, 26);
            }
            assert(b * f < 0x2000_0000_0000_0000_0000_0000_0000_0000) by (nonlinear_arith)
                requires
                    b < 0x1_0000_0000_0000_0000_0000,
                    f <= 0x400_0000,
            ;
        }
        assert(a < 0x100_0000 * (b * f)) by (nonlinear_arith)
            requires
                a < 0x100_0000 * b,
                f >= 1,
                b > 0,
        ;
    }
    let m = round_quotient(a, b * f, 0);
    proof {
        assert(a * pow2(0) == a) by (nonlinear_arith)
            requires
                pow2(0) == 1,
        ;
        lemma_rounded_ratio(a * pow2(0), (b * f) as int, n, d, m as int);
    }
    m
}

} // verus!
