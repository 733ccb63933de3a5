use ds4::double::f64_to_f32;
use ds4::half::{e4m3fn_dequant, e4m3fn_value, f16_to_f32, f32_to_f16, round_inplace};

fn widen(h: u16) -> f32 {
    f32::from_bits(f16_to_f32(h))
}

fn narrow(x: f32) -> u16 {
    f32_to_f16(x.to_bits())
}

#[test]
fn round_trip_zero() {
    assert_eq!(widen(narrow(0.0)), 0.0);
}

#[test]
fn round_trip_one() {
    assert!((widen(narrow(1.0)) - 1.0).abs() < 1e-6);
}

#[test]
fn matches_half_crate() {
    for &x in &[0.5f32, 1.5, -2.25, 100.0, -0.125] {
        let ours = widen(narrow(x));
        let theirs = half::f16::from_f32(x).to_f32();
        assert!((ours - theirs).abs() < 1e-3, "x={x} ours={ours} theirs={theirs}");
    }
}

#[test]
fn e4m3_zero() {
    assert_eq!(f32::from_bits(e4m3fn_value(0)), 0.0);
}

#[test]
fn every_half_widens_as_in_the_half_crate() {
    for h in 0..=u16::MAX {
        let theirs = half::f16::from_bits(h);
        if theirs.is_nan() {
            assert!(widen(h).is_nan());
        } else {
            assert_eq!(widen(h).to_bits(), theirs.to_f32().to_bits());
            assert_eq!(f32_to_f16(f16_to_f32(h)), h);
        }
    }
}

#[test]
fn narrowing_rounds_to_nearest_even() {
    let mut bits: u32 = 1;
    for _ in 0..200_000 {
        bits = bits.wrapping_mul(1_664_525).wrapping_add(1_013_904_223);
        let x = f32::from_bits(bits);
        if !x.is_nan() {
            assert_eq!(narrow(x), half::f16::from_f32(x).to_bits());
        }
    }
    // Halfway between 1 and the next number, and between that and the next.
    assert_eq!(f32_to_f16(0x3f80_1000), 0x3c00);
    assert_eq!(f32_to_f16(0x3f80_3000), 0x3c02);
    assert_eq!(narrow(65519.0), 0x7bff);
    assert_eq!(narrow(65520.0), 0x7c00);
    assert_eq!(narrow(f32::INFINITY), 0x7c00);
    assert_eq!(narrow(f32::NEG_INFINITY), 0xfc00);
    assert_eq!(f32_to_f16(0x7fc0_0000), 0x7e00);
    assert_eq!(f32_to_f16(0xff80_0001), 0xfe00);
    assert_eq!(narrow(-0.0), 0x8000);
    // Half of the smallest number is a tie with zero.
    assert_eq!(f32_to_f16(0x3300_0000), 0);
    assert_eq!(f32_to_f16(0x3300_0001), 1);
}

#[test]
fn rounding_is_idempotent() {
    let mut x = [1.0f32.to_bits(), 0.1f32.to_bits(), (-3.3f32).to_bits(), 1e9f32.to_bits()];
    round_inplace(&mut x);
    let once = x;
    round_inplace(&mut x);
    assert_eq!(x, once);
    assert_eq!(x[0], 1.0f32.to_bits());
    assert_eq!(x[1], half::f16::from_f32(0.1).to_f32().to_bits());
    assert_eq!(x[3], f32::INFINITY.to_bits());
}

#[test]
fn e4m3_values() {
    let scale = [
        0.0, 0.015_625, 0.031_25, 0.0625, 0.125, 0.25, 0.5, 1.0, 2.0, 4.0, 8.0, 16.0, 32.0, 64.0,
        128.0, 256.0f32,
    ];
    for i in 0..128i32 {
        let (exp, mant) = ((i >> 3) & 0x0f, i & 7);
        let want = if exp == 0 {
            mant as f32 * 0.001_953_125
        } else {
            (1.0 + mant as f32 * 0.125) * scale[exp as usize]
        };
        assert_eq!(e4m3fn_value(i), want.to_bits());
    }
    assert_eq!(e4m3fn_value(126), 448.0f32.to_bits());
    // Only the low seven bits count.
    assert_eq!(e4m3fn_value(128 + 9), e4m3fn_value(9));
    assert_eq!(e4m3fn_value(-1), e4m3fn_value(127));
}

#[test]
fn e4m3_dequant_takes_the_floor() {
    let d = |x: f32| f32::from_bits(e4m3fn_dequant(x.to_bits()));
    assert_eq!(d(1.0), 1.0);
    assert_eq!(d(1.2), 1.125);
    assert_eq!(d(-1.2), -1.125);
    assert_eq!(d(1000.0), 448.0);
    assert_eq!(d(f32::NEG_INFINITY), -448.0);
    assert_eq!(d(f32::NAN), 448.0);
    assert_eq!(d(-0.0).to_bits(), 0);
    assert_eq!(d(-0.0001).to_bits(), (-0.0f32).to_bits());
    for x in [0.3f32, 7.7, -100.0, 0.0019] {
        assert_eq!(d(d(x)), d(x));
    }
}

#[test]
fn doubles_narrow_as_casts_do() {
    let mut bits: u64 = 3;
    for _ in 0..200_000 {
        bits = bits.wrapping_mul(6_364_136_223_846_793_005).wrapping_add(1_442_695_040_888_963_407);
        let x = f64::from_bits(bits);
        if !x.is_nan() {
            assert_eq!(f64_to_f32(bits), (x as f32).to_bits());
        }
        // Numbers in the range of single precision.
        let y = f64::from_bits(bits % (300 << 52) + (860 << 52));
        assert_eq!(f64_to_f32(y.to_bits()), (y as f32).to_bits());
    }
    for x in [0.0, -0.0, 1.0, 0.1, 1e-5, 10000.0, f64::INFINITY, f64::MAX, f64::MIN_POSITIVE] {
        assert_eq!(f64_to_f32(x.to_bits()), (x as f32).to_bits());
    }
    // Halfway between 1 and the next number, and between that and the next.
    assert_eq!(f64_to_f32(0x3ff0_0000_1000_0000), 0x3f80_0000);
    assert_eq!(f64_to_f32(0x3ff0_0000_3000_0000), 0x3f80_0002);
    assert_eq!(f64_to_f32(f64::NAN.to_bits()), 0x7fc0_0000);
    // Half of the smallest number is a tie with zero.
    assert_eq!(f64_to_f32(873 << 52), 0);
    assert_eq!(f64_to_f32((873 << 52) + 1), 1);
}
