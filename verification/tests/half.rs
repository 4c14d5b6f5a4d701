use luarus::bytecode::half::{half_from_single, round_single, single_from_half};

fn round(v: f32) -> f32 {
    f32::from_bits(round_single(v.to_bits()))
}

#[test]
fn round_trips_exact_values() {
    for v in [0.0f32, 1.0, -1.0, 0.5, 1000.0, -2048.0] {
        assert_eq!(round(v), v, "{v} should be exact in f16");
    }
}

#[test]
fn loses_precision_like_real_half() {
    // 2049 is not representable in binary16; it rounds to 2048.
    assert_eq!(round(2049.0), 2048.0);
    // 65520 and above overflow to infinity.
    assert!(round(70000.0).is_infinite());
}

#[test]
fn preserves_sign_of_zero() {
    assert!(round(-0.0f32).is_sign_negative());
}

#[test]
fn every_half_value_widens_exactly_and_rounds_back() {
    for h in 0u16..=u16::MAX {
        let exp = (h >> 10) & 0x1f;
        let mantissa = h & 0x3ff;
        if exp == 0x1f && mantissa != 0 {
            continue;
        }
        assert_eq!(half_from_single(single_from_half(h)), h, "{h:#06x}");
    }
}

#[test]
fn subnormal_halves_widen_to_their_value() {
    // The smallest subnormal half is 2^-24.
    assert_eq!(f32::from_bits(single_from_half(0x0001)), 2f32.powi(-24));
    assert_eq!(f32::from_bits(single_from_half(0x03ff)), 1023.0 * 2f32.powi(-24));
    assert_eq!(f32::from_bits(single_from_half(0x8200)), -(2f32.powi(-15)));
}

#[test]
fn rounding_breaks_ties_to_even() {
    // 2049 lies halfway between 2048 and 2050; 2048 has the even mantissa.
    assert_eq!(round(2049.0), 2048.0);
    // 2051 lies halfway between 2050 and 2052; 2052 is even.
    assert_eq!(round(2051.0), 2052.0);
}
