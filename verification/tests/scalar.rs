use raytrace::scalar::Scalar;

fn s(x: f32) -> Scalar {
    Scalar::from_bits(x.to_bits())
}

fn f(x: Scalar) -> f32 {
    f32::from_bits(x.to_bits())
}

fn samples() -> Vec<f32> {
    let mut v = vec![
        0.0,
        -0.0,
        1.0,
        -1.0,
        0.5,
        0.7,
        0.001,
        1e-8,
        -1e-8,
        0.999,
        1.5,
        2.0,
        255.0,
        1000.0,
        -1000.0,
        f32::MIN_POSITIVE,
        -f32::MIN_POSITIVE,
        f32::from_bits(1),
        f32::from_bits(0x8000_0001),
        f32::from_bits(0x007f_ffff),
        f32::MAX,
        f32::MIN,
        f32::INFINITY,
        f32::NEG_INFINITY,
        f32::NAN,
        f32::from_bits(0xffc0_0001),
        f32::from_bits(0x7f80_0001),
    ];
    let mut state: u32 = 0x1234_5678;
    for _ in 0..200 {
        state = state.wrapping_mul(1_664_525).wrapping_add(1_013_904_223);
        v.push(f32::from_bits(state));
    }
    v
}

#[test]
fn bits_round_trip() {
    assert_eq!(Scalar::from_bits(0x3f00_0000).to_bits(), 0x3f00_0000);
    assert_eq!(f(s(0.7)), 0.7);
    assert_eq!(s(0.5).bits, 0x3f00_0000);
}

#[test]
fn constants_are_the_numbers_they_name() {
    assert_eq!(f(Scalar::zero()), 0.0);
    assert_eq!(Scalar::zero().to_bits(), 0);
    assert_eq!(f(Scalar::one()), 1.0);
    assert_eq!(f(Scalar::infinity()), f32::INFINITY);
}

#[test]
fn is_nan_agrees_with_the_hardware() {
    for x in samples() {
        assert_eq!(s(x).is_nan(), x.is_nan(), "{:#x}", x.to_bits());
    }
}

#[test]
fn lt_follows_the_numbers() {
    assert!(s(0.5).lt(s(1.0)));
    assert!(!s(1.0).lt(s(0.5)));
    assert!(s(-1.0).lt(s(0.5)));
    assert!(s(-1.0).lt(s(-0.5)));
    assert!(!s(1.0).lt(s(1.0)));
}

#[test]
fn the_two_zeros_are_equal() {
    assert!(!s(0.0).lt(s(-0.0)));
    assert!(!s(-0.0).lt(s(0.0)));
    assert!(!s(0.0).gt(s(-0.0)));
    assert!(!s(-0.0).gt(s(0.0)));
}

#[test]
fn nothing_compares_with_what_is_no_number() {
    assert!(!s(f32::NAN).lt(s(1.0)));
    assert!(!s(1.0).lt(s(f32::NAN)));
    assert!(!s(f32::NAN).gt(s(1.0)));
    assert!(!s(1.0).gt(s(f32::NAN)));
    assert!(!s(f32::NAN).lt(s(f32::NAN)));
}

#[test]
fn lt_and_gt_agree_with_the_hardware() {
    let v = samples();
    for &a in &v {
        for &b in &v {
            assert_eq!(s(a).lt(s(b)), a < b, "{:#x} < {:#x}", a.to_bits(), b.to_bits());
            assert_eq!(s(a).gt(s(b)), a > b, "{:#x} > {:#x}", a.to_bits(), b.to_bits());
        }
    }
}

#[test]
fn infinity_is_above_every_finite_number() {
    for x in samples() {
        if x.is_finite() {
            assert!(s(x).lt(Scalar::infinity()));
            assert!(s(f32::NEG_INFINITY).lt(s(x)));
        }
    }
    assert!(!Scalar::infinity().lt(Scalar::infinity()));
}

#[test]
fn neg_changes_the_sign_bit_only() {
    assert_eq!(s(1.0).neg(), s(-1.0));
    assert_eq!(s(-0.7).neg(), s(0.7));
    assert_eq!(s(0.0).neg().to_bits(), 0x8000_0000);
    assert_eq!(s(-0.0).neg().to_bits(), 0);
    for x in samples() {
        assert_eq!(s(x).neg().to_bits(), (-x).to_bits());
        assert_eq!(s(x).neg().neg(), s(x));
    }
}

#[test]
fn abs_clears_the_sign_bit() {
    assert_eq!(s(-1.5).abs(), s(1.5));
    assert_eq!(s(1.5).abs(), s(1.5));
    assert_eq!(s(-0.0).abs().to_bits(), 0);
    for x in samples() {
        assert_eq!(s(x).abs().to_bits(), x.abs().to_bits());
    }
}

#[test]
fn min_takes_the_smaller_number() {
    assert_eq!(s(0.25).min(s(1.0)), s(0.25));
    assert_eq!(s(1.25).min(s(1.0)), s(1.0));
    assert_eq!(s(-3.0).min(s(1.0)), s(-3.0));
    assert_eq!(s(1.0).min(s(1.0)), s(1.0));
}

#[test]
fn min_and_max_prefer_a_number() {
    assert_eq!(s(f32::NAN).min(s(1.0)), s(1.0));
    assert_eq!(s(1.0).min(s(f32::NAN)), s(1.0));
    assert_eq!(s(f32::NAN).max(s(0.0)), s(0.0));
    assert_eq!(s(0.5).max(s(f32::NAN)), s(0.5));
    assert!(s(f32::NAN).min(s(f32::NAN)).is_nan());
    assert!(s(f32::NAN).max(s(f32::NAN)).is_nan());
}

#[test]
fn max_takes_the_larger_number() {
    assert_eq!(s(0.25).max(s(0.0)), s(0.25));
    assert_eq!(s(-0.25).max(s(0.0)), s(0.0));
    assert_eq!(s(f32::INFINITY).max(s(0.0)), s(f32::INFINITY));
}

#[test]
fn min_and_max_agree_with_the_hardware_in_value() {
    let v = samples();
    for &a in &v {
        for &b in &v {
            let lo = f(s(a).min(s(b)));
            let hi = f(s(a).max(s(b)));
            let want_lo = a.min(b);
            let want_hi = a.max(b);
            assert!(lo == want_lo || (lo.is_nan() && want_lo.is_nan()));
            assert!(hi == want_hi || (hi.is_nan() && want_hi.is_nan()));
        }
    }
}
