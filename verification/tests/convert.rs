use raytrace::scalar::Scalar;

fn s(x: f32) -> Scalar {
    Scalar::from_bits(x.to_bits())
}

#[test]
fn small_whole_numbers_are_exact() {
    assert_eq!(Scalar::from_i32(0).to_bits(), 0);
    assert_eq!(Scalar::from_i32(1), s(1.0));
    assert_eq!(Scalar::from_i32(-1), s(-1.0));
    assert_eq!(Scalar::from_i32(2), s(2.0));
    assert_eq!(Scalar::from_i32(3), s(3.0));
    assert_eq!(Scalar::from_i32(13), s(13.0));
    assert_eq!(Scalar::from_i32(-4), s(-4.0));
    assert_eq!(Scalar::from_i32(1000), s(1000.0));
    assert_eq!(Scalar::from_i32(16_777_215), s(16_777_215.0));
    assert_eq!(Scalar::from_i32(16_777_216), s(16_777_216.0));
    assert_eq!(Scalar::from_i32(-16_777_216), s(-16_777_216.0));
}

#[test]
fn large_whole_numbers_round_to_the_nearest() {
    // above two to the power 24 only every second whole number is held
    assert_eq!(Scalar::from_i32(16_777_218), s(16_777_218.0));
    assert_eq!(Scalar::from_i32(33_554_433), s(33_554_432.0));
    assert_eq!(Scalar::from_i32(33_554_435), s(33_554_436.0));
    assert_eq!(Scalar::from_i32(i32::MAX), s(2_147_483_648.0));
    assert_eq!(Scalar::from_i32(i32::MIN), s(-2_147_483_648.0));
    assert_eq!(Scalar::from_i32(i32::MIN + 1), s(-2_147_483_648.0));
}

#[test]
fn a_tie_goes_to_the_even_pattern() {
    // 16777217 lies half way between 16777216 (even pattern) and 16777218
    assert_eq!(Scalar::from_i32(16_777_217), s(16_777_216.0));
    // 16777219 lies half way between 16777218 and 16777220 (even pattern)
    assert_eq!(Scalar::from_i32(16_777_219), s(16_777_220.0));
    assert_eq!(Scalar::from_i32(-16_777_217), s(-16_777_216.0));
    assert_eq!(Scalar::from_i32(-16_777_219), s(-16_777_220.0));
}

#[test]
fn from_i32_agrees_with_the_hardware() {
    for x in -70_000..70_000 {
        assert_eq!(Scalar::from_i32(x).to_bits(), (x as f32).to_bits(), "{}", x);
    }
    for shift in 0..31 {
        let base: i32 = 1 << shift;
        for d in -300..300 {
            let x = base.wrapping_add(d);
            assert_eq!(Scalar::from_i32(x).to_bits(), (x as f32).to_bits(), "{}", x);
            let y = x.wrapping_neg();
            assert_eq!(Scalar::from_i32(y).to_bits(), (y as f32).to_bits(), "{}", y);
        }
    }
    let mut state: u32 = 0x9e37_79b9;
    for _ in 0..200_000 {
        state = state.wrapping_mul(1_664_525).wrapping_add(1_013_904_223);
        let x = state as i32;
        assert_eq!(Scalar::from_i32(x).to_bits(), (x as f32).to_bits(), "{}", x);
    }
}

#[test]
fn from_u32_agrees_with_the_hardware() {
    for x in [0u32, 1, 2, 100, 255, 16_777_216, 16_777_217, 16_777_219, u32::MAX, u32::MAX - 127, u32::MAX - 128, 0x8000_0000] {
        assert_eq!(Scalar::from_u32(x).to_bits(), (x as f32).to_bits(), "{}", x);
    }
    let mut state: u32 = 0x7157_a8e5;
    for _ in 0..100_000 {
        state = state.wrapping_mul(1_664_525).wrapping_add(1_013_904_223);
        let x = state >> (state % 32);
        assert_eq!(Scalar::from_u32(x).to_bits(), (x as f32).to_bits(), "{}", x);
    }
}

#[test]
fn to_u8_cuts_towards_zero() {
    assert_eq!(s(0.0).to_u8(), 0);
    assert_eq!(s(0.999).to_u8(), 0);
    assert_eq!(s(1.0).to_u8(), 1);
    assert_eq!(s(1.999).to_u8(), 1);
    assert_eq!(s(127.5).to_u8(), 127);
    assert_eq!(s(254.999).to_u8(), 254);
    assert_eq!(s(255.0).to_u8(), 255);
    assert_eq!(s(255.9).to_u8(), 255);
}

#[test]
fn to_u8_stays_within_a_byte() {
    assert_eq!(s(256.0).to_u8(), 255);
    assert_eq!(s(1e9).to_u8(), 255);
    assert_eq!(s(f32::INFINITY).to_u8(), 255);
    assert_eq!(s(-0.0).to_u8(), 0);
    assert_eq!(s(-0.5).to_u8(), 0);
    assert_eq!(s(-3.0).to_u8(), 0);
    assert_eq!(s(f32::NEG_INFINITY).to_u8(), 0);
    assert_eq!(s(f32::NAN).to_u8(), 0);
    assert_eq!(s(f32::from_bits(1)).to_u8(), 0);
}

#[test]
fn to_u8_agrees_with_the_hardware() {
    for i in 0..=2600 {
        let x = i as f32 / 10.0 - 2.0;
        assert_eq!(s(x).to_u8(), x as u8, "{}", x);
    }
    let mut state: u32 = 0x0fed_cba9;
    for _ in 0..200_000 {
        state = state.wrapping_mul(1_664_525).wrapping_add(1_013_904_223);
        let x = f32::from_bits(state);
        assert_eq!(s(x).to_u8(), x as u8, "{:#x}", state);
        let y = f32::from_bits(0x3f80_0000 + state % 0x0400_0000);
        assert_eq!(s(y).to_u8(), y as u8, "{}", y);
    }
}
