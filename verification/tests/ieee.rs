use hifisampler_core::ieee::{peak, Binary32, Binary64};

fn b32(x: f32) -> Binary32 {
    Binary32 { bits: x.to_bits() }
}

fn b64(x: f64) -> Binary64 {
    Binary64 { bits: x.to_bits() }
}

const SAMPLES_32: [f32; 14] = [
    0.0,
    -0.0,
    1.0,
    -1.0,
    0.5,
    0.499_999_97,
    f32::MIN_POSITIVE,
    1.0e-45,
    -1.0e-45,
    f32::MAX,
    f32::MIN,
    f32::INFINITY,
    f32::NEG_INFINITY,
    f32::NAN,
];

const SAMPLES_64: [f64; 14] = [
    0.0,
    -0.0,
    1.0,
    -1.0,
    0.1,
    -52.0,
    f64::MIN_POSITIVE,
    5.0e-324,
    -5.0e-324,
    f64::MAX,
    f64::MIN,
    f64::INFINITY,
    f64::NEG_INFINITY,
    f64::NAN,
];

#[test]
fn order_keys_compare_as_32_bit_floats() {
    for a in SAMPLES_32 {
        assert_eq!(b32(a).order_key().is_none(), a.is_nan());
        assert_eq!(b32(a).is_nan(), a.is_nan());
        for b in SAMPLES_32 {
            assert_eq!(b32(a).exceeds(b32(b)), a > b);
            if let (Some(ka), Some(kb)) = (b32(a).order_key(), b32(b).order_key()) {
                assert_eq!(ka < kb, a < b);
                assert_eq!(ka == kb, a == b);
            }
        }
    }
}

#[test]
fn order_keys_compare_as_64_bit_floats() {
    for a in SAMPLES_64 {
        assert_eq!(b64(a).order_key().is_none(), a.is_nan());
        assert_eq!(b64(a).is_nan(), a.is_nan());
        for b in SAMPLES_64 {
            assert_eq!(b64(a).exceeds(b64(b)), a > b);
            assert_eq!(b64(a).reaches(b64(b)), !a.is_nan() && !(a < b));
            if let (Some(ka), Some(kb)) = (b64(a).order_key(), b64(b).order_key()) {
                assert_eq!(ka < kb, a < b);
                assert_eq!(ka == kb, a == b);
            }
        }
    }
    assert_eq!(b64(1.0).order_key(), Some(0x3ff0_0000_0000_0000));
    assert_eq!(b64(-0.0).order_key(), Some(0));
}

#[test]
fn magnitude_drops_the_sign() {
    assert_eq!(b32(-1.5).magnitude(), 1.5f32.to_bits());
    assert_eq!(b32(1.5).magnitude(), 1.5f32.to_bits());
    assert_eq!(b64(-1.5).magnitude(), 1.5f64.to_bits());
}

#[test]
fn clamp_is_that_of_floats() {
    for value in SAMPLES_64 {
        for (low, high) in [(0.0, 1.0), (-1.0, -1.0), (-52.0, f64::INFINITY)] {
            let clamped = f64::from_bits(b64(value).clamp(b64(low), b64(high)).bits);
            let expected = value.clamp(low, high);
            assert!(clamped == expected || (clamped.is_nan() && expected.is_nan()));
        }
    }
    assert_eq!(b64(2.5).clamp(b64(0.0), b64(1.0)), b64(1.0));
    assert_eq!(b64(0.25).clamp(b64(0.0), b64(1.0)), b64(0.25));
}

#[test]
fn peak_is_the_largest_absolute_value() {
    assert_eq!(peak(&[]), b32(0.0));
    assert_eq!(peak(&[b32(0.25), b32(-0.75), b32(0.5)]), b32(0.75));
    assert_eq!(peak(&[b32(f32::NAN), b32(-0.125)]), b32(0.125));
    assert_eq!(peak(&[b32(f32::NAN)]), b32(0.0));
    assert_eq!(peak(&[b32(f32::NEG_INFINITY), b32(1.0)]), b32(f32::INFINITY));
}

#[test]
fn silence_does_not_change_the_peak() {
    let note = [b32(0.25), b32(-0.75)];
    let padded = [b32(0.25), b32(-0.75), b32(0.0), b32(0.0)];
    assert_eq!(peak(&note), peak(&padded));
}
