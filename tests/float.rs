use suroi::decimal::{split_double, DecimalSerializer, FloatParts};

fn encode(codec: &DecimalSerializer, value: f64) -> u128 {
    match split_double(value.to_bits()) {
        FloatParts::Finite { negative, significand, exponent } => {
            codec.encode_finite(negative, significand as u64, exponent as i32)
        }
        other => panic!("not finite: {:?}", other),
    }
}

fn value_of(parts: FloatParts) -> f64 {
    match parts {
        FloatParts::Finite { negative, significand, exponent } => {
            let half = (exponent / 2) as i32;
            let rest = (exponent - exponent / 2) as i32;
            let m = significand as f64 * 2f64.powi(half) * 2f64.powi(rest);
            if negative {
                -m
            } else {
                m
            }
        }
        other => panic!("not finite: {:?}", other),
    }
}

#[test]
fn double_layout_matches_native_bits() {
    let codec = DecimalSerializer::new(64, 11);
    for v in [1.5f64, -0.5, 0.1, 3.14159, 1e300, -2.5e-300] {
        assert_eq!(encode(&codec, v), v.to_bits() as u128, "{v}");
        assert_eq!(value_of(codec.decode_parts(v.to_bits() as u128)), v);
    }
}

#[test]
fn single_layout_matches_native_bits_on_single_values() {
    let codec = DecimalSerializer::new(32, 8);
    for v in [1.5f32, -0.5, 0.1, 3.14159] {
        assert_eq!(encode(&codec, v as f64), v.to_bits() as u128, "{v}");
        assert_eq!(value_of(codec.decode_parts(v.to_bits() as u128)), v as f64);
    }
}

#[test]
fn zero_loses_its_sign() {
    let codec = DecimalSerializer::new(32, 8);
    assert_eq!(encode(&codec, 0.0), 0);
    assert_eq!(encode(&codec, -0.0), 0);
}

#[test]
fn specials_are_recognised() {
    assert_eq!(split_double(f64::INFINITY.to_bits()), FloatParts::Infinite { negative: false });
    assert_eq!(split_double(f64::NEG_INFINITY.to_bits()), FloatParts::Infinite { negative: true });
    assert_eq!(split_double(f64::NAN.to_bits()), FloatParts::NotANumber { negative: false });
    let codec = DecimalSerializer::new(32, 8);
    assert_eq!(codec.decode_parts(0x7F80_0000), FloatParts::Infinite { negative: false });
    assert_eq!(codec.decode_parts(0xFF80_0000), FloatParts::Infinite { negative: true });
    assert_eq!(codec.decode_parts(0x7FC0_0000), FloatParts::NotANumber { negative: false });
}

#[test]
fn split_double_fields() {
    assert_eq!(
        split_double(1.0f64.to_bits()),
        FloatParts::Finite { negative: false, significand: 1u128 << 52, exponent: -52 }
    );
    assert_eq!(
        split_double(f64::from_bits(1).to_bits()),
        FloatParts::Finite { negative: false, significand: 1, exponent: -1074 }
    );
    assert_eq!(
        split_double((-3.0f64).to_bits()),
        FloatParts::Finite { negative: true, significand: 3u128 << 51, exponent: -51 }
    );
}

#[test]
fn narrow_exponent_cannot_hold_five() {
    let codec = DecimalSerializer::new(8, 6);
    let pattern = encode(&codec, 5.0);
    assert_eq!(pattern, 0b0100_0010);
    let back = value_of(codec.decode_parts(pattern));
    assert_eq!(back, 4.0);
    assert!(back < 5.0);
}

#[test]
fn narrow_exponent_holds_its_smallest_subnormal() {
    let codec = DecimalSerializer::new(8, 6);
    let tiny = 4.656612873077393e-10;
    assert_eq!(tiny, 2f64.powi(-31));
    let pattern = encode(&codec, tiny);
    assert_eq!(pattern, 1);
    assert_eq!(value_of(codec.decode_parts(pattern)), tiny);
    assert_eq!(encode(&codec, tiny / 4.0), 0);
}

#[test]
fn two_thirds_rounding_of_the_last_digit() {
    let codec = DecimalSerializer::new(8, 3);
    assert_eq!(encode(&codec, 1.0 + 11.0 / 256.0), 0x31);
    assert_eq!(encode(&codec, 1.0 + 10.0 / 256.0), 0x30);
    assert_eq!(encode(&codec, 1.0 + 1.0 / 16.0), 0x31);
    assert_eq!(encode(&codec, -1.0), 0xB0);
}

#[test]
fn overflow_gives_infinity() {
    let codec = DecimalSerializer::new(8, 3);
    // the largest magnitude that is kept is 2^(bias + 1) = 16
    assert_eq!(encode(&codec, 16.0), 0x70);
    assert_eq!(encode(&codec, 16.5), 0x70);
    assert_eq!(encode(&codec, -100.0), 0xF0);
    assert_eq!(codec.decode_parts(0x70), FloatParts::Infinite { negative: false });
    let unsigned = DecimalSerializer::new_unsigned(8, 3);
    assert_eq!(encode(&unsigned, -3.0), encode(&unsigned, 3.0));
}

#[test]
fn unsigned_gains_a_mantissa_bit() {
    let codec = DecimalSerializer::new_unsigned(8, 3);
    // 1.5 = 1.1b: with five mantissa bits the pattern is 011 10000
    assert_eq!(encode(&codec, 1.5), 0b0111_0000);
    assert_eq!(value_of(codec.decode_parts(0b0111_0000)), 1.5);
}
