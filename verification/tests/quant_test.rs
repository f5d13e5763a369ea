use xim::Quantizer;

#[test]
fn test_i8_crunch() {
    let val = 1.5f32;
    // Q8.8 quantization of 1.5, rounded and saturated as the host does it.
    let q16 = (val * 256.0).round().clamp(i16::MIN as f32, i16::MAX as f32) as i16;
    let q8 = Quantizer::crunch_i16_to_i8(q16);
    let val8 = q8 as f32 / 64.0;
    assert!((val8 - val).abs() < 0.02);
}

#[test]
fn test_crunch_rounds_half_away_from_zero() {
    assert_eq!(Quantizer::crunch_i16_to_i8(384), 96);
    assert_eq!(Quantizer::crunch_i16_to_i8(1), 0);
    assert_eq!(Quantizer::crunch_i16_to_i8(2), 1);
    assert_eq!(Quantizer::crunch_i16_to_i8(3), 1);
    assert_eq!(Quantizer::crunch_i16_to_i8(-2), -1);
    assert_eq!(Quantizer::crunch_i16_to_i8(-1), 0);
    assert_eq!(Quantizer::crunch_i16_to_i8(-6), -2);
}

#[test]
fn test_crunch_saturates() {
    assert_eq!(Quantizer::crunch_i16_to_i8(i16::MAX), 127);
    assert_eq!(Quantizer::crunch_i16_to_i8(i16::MIN), -128);
    assert_eq!(Quantizer::crunch_i16_to_i8(509), 127);
    assert_eq!(Quantizer::crunch_i16_to_i8(-514), -128);
}

#[test]
fn test_crunch_error_within_half_step() {
    for v in -514i16..=509 {
        let q = Quantizer::crunch_i16_to_i8(v) as i32;
        let err = q * 4 - v as i32;
        assert!(err >= -2 && err <= 2, "v = {}, q = {}", v, q);
    }
}
