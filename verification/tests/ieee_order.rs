use llama_rust::ieee::{greater, key, not_a_number, zero};

fn samples() -> Vec<f32> {
    vec![
        0.0,
        -0.0,
        1.0,
        -1.0,
        0.5,
        -0.5,
        1.0e-40,
        -1.0e-40,
        3.25,
        -3.25,
        1.0e10,
        -1.0e10,
        f32::MAX,
        f32::MIN,
        f32::MIN_POSITIVE,
        f32::INFINITY,
        f32::NEG_INFINITY,
    ]
}

#[test]
fn order_of_patterns_is_order_of_numbers() {
    let values = samples();
    for a in values.iter() {
        for b in values.iter() {
            assert_eq!(greater(a.to_bits(), b.to_bits()), a > b, "{} > {}", a, b);
        }
    }
}

#[test]
fn zeros_have_the_same_key() {
    assert_eq!(key(0.0f32.to_bits()), 0);
    assert_eq!(key((-0.0f32).to_bits()), 0);
    assert!(zero(0.0f32.to_bits()));
    assert!(zero((-0.0f32).to_bits()));
    assert!(!zero(f32::MIN_POSITIVE.to_bits()));
}

#[test]
fn keys_of_some_patterns() {
    assert_eq!(key(1.0f32.to_bits()), 0x3f80_0000);
    assert_eq!(key((-1.0f32).to_bits()), -0x3f80_0000);
    assert_eq!(key(f32::INFINITY.to_bits()), 0x7f80_0000);
    assert_eq!(key(0xffff_ffff), -0x7fff_ffff);
}

#[test]
fn patterns_beyond_infinity_are_not_numbers() {
    assert!(not_a_number(f32::NAN.to_bits()));
    assert!(not_a_number(0x7f80_0001));
    assert!(not_a_number(0xff80_0001));
    assert!(!not_a_number(f32::INFINITY.to_bits()));
    assert!(!not_a_number(f32::NEG_INFINITY.to_bits()));
    assert!(!not_a_number(1.5f32.to_bits()));
}
