use vecq::half::{f16_bits_to_f32, f32_to_f16_bits};

fn encode(x: f32) -> u16 {
    f32_to_f16_bits(x.to_bits())
}

fn decode(h: u16) -> f32 {
    f32::from_bits(f16_bits_to_f32(h))
}

#[test]
fn f16_round_trip_accuracy() {
    for &x in &[0.001f32, 0.03, 0.5, 1.0, 3.7, 100.0] {
        let back = decode(encode(x));
        assert!((back - x).abs() / x < 0.001, "{x} -> {back}");
    }
}

#[test]
fn known_patterns() {
    assert_eq!(encode(0.0), 0x0000);
    assert_eq!(encode(-0.0), 0x8000);
    assert_eq!(encode(1.0), 0x3C00);
    assert_eq!(encode(-2.0), 0xC000);
    assert_eq!(encode(65504.0), 0x7BFF);
    assert_eq!(encode(f32::INFINITY), 0x7C00);
    assert_eq!(encode(f32::NEG_INFINITY), 0xFC00);
    assert_eq!(encode(f32::from_bits(0x7F80_0001)), 0x7E00);
    assert_eq!(encode(f32::from_bits(0xFFC0_0000)), 0xFE00);
}

#[test]
fn rounding_is_to_nearest_even() {
    // Halfway between 1 and the next half-precision number.
    assert_eq!(encode(1.0 + 1.0 / 2048.0), 0x3C00);
    assert_eq!(encode(1.0 + 3.0 / 2048.0), 0x3C02);
    assert_eq!(encode(1.0 + 1.0 / 2048.0 + 1.0 / 1048576.0), 0x3C01);
    // The largest number that does not overflow, and the least that does.
    assert_eq!(encode(65519.996), 0x7BFF);
    assert_eq!(encode(65520.0), 0x7C00);
    assert_eq!(encode(1e30), 0x7C00);
}

#[test]
fn small_magnitudes_become_subnormal_or_zero() {
    let step = 2f32.powi(-24);
    assert_eq!(encode(step), 0x0001);
    assert_eq!(encode(step * 3.0), 0x0003);
    assert_eq!(encode(step * 1023.0), 0x03FF);
    assert_eq!(encode(step * 1024.0), 0x0400);
    assert_eq!(encode(step / 2.0), 0x0000);
    assert_eq!(encode(step * 0.75), 0x0001);
    assert_eq!(encode(step * 1.5), 0x0002);
    assert_eq!(encode(-step / 4.0), 0x8000);
    assert_eq!(encode(f32::from_bits(1)), 0x0000);
}

#[test]
fn subnormals_decode_to_their_value() {
    let step = 2f32.powi(-24);
    assert_eq!(decode(0x0001), step);
    assert_eq!(decode(0x0003), step * 3.0);
    assert_eq!(decode(0x0200), 2f32.powi(-15));
    assert_eq!(decode(0x03FF), step * 1023.0);
    assert_eq!(decode(0x8001), -step);
    assert_eq!(f16_bits_to_f32(0x8000), 0x8000_0000);
}

#[test]
fn every_number_survives_a_round_trip() {
    for h in 0..=u16::MAX {
        if h % 0x8000 <= 0x7C00 {
            assert_eq!(f32_to_f16_bits(f16_bits_to_f32(h)), h);
        }
    }
}

#[test]
fn encoding_again_changes_nothing() {
    let mut x = 0x1234_5678u32;
    for _ in 0..20_000 {
        x ^= x << 13;
        x ^= x >> 17;
        x ^= x << 5;
        let h = f32_to_f16_bits(x);
        assert_eq!(f32_to_f16_bits(f16_bits_to_f32(h)), h);
    }
}
