use witchbooru::score::{above_half, total_order_key, HALF, INFINITY, SIGN};

fn samples() -> Vec<f32> {
    vec![
        f32::NEG_INFINITY,
        f32::MIN,
        -1.5,
        -1.0,
        -0.5,
        -f32::MIN_POSITIVE,
        -f32::from_bits(1),
        -0.0,
        0.0,
        f32::from_bits(1),
        f32::MIN_POSITIVE,
        0.25,
        0.49999997,
        0.5,
        0.50000006,
        0.6,
        0.9,
        1.0,
        2.0,
        f32::MAX,
        f32::INFINITY,
        f32::NAN,
        -f32::NAN,
        f32::from_bits(0x7FFF_FFFF),
        f32::from_bits(0xFFFF_FFFF),
    ]
}

#[test]
fn key_of_a_positive_pattern_is_the_pattern() {
    assert_eq!(total_order_key(0), 0);
    assert_eq!(total_order_key(1.0f32.to_bits()), 0x3F80_0000);
    assert_eq!(total_order_key(0x7FFF_FFFF), i32::MAX);
}

#[test]
fn key_of_a_negative_pattern_counts_down_from_minus_one() {
    assert_eq!(total_order_key(SIGN), -1);
    assert_eq!(total_order_key(SIGN + 1), -2);
    assert_eq!(total_order_key((-1.0f32).to_bits()), -1 - 0x3F80_0000);
    assert_eq!(total_order_key(0xFFFF_FFFF), i32::MIN);
}

#[test]
fn keys_order_as_the_total_order_of_the_standard_library() {
    let values = samples();
    for a in &values {
        for b in &values {
            let by_key = total_order_key(a.to_bits()).cmp(&total_order_key(b.to_bits()));
            assert_eq!(by_key, a.total_cmp(b), "{:?} against {:?}", a, b);
        }
    }
}

#[test]
fn keys_order_finite_numbers_by_their_value() {
    let values: Vec<f32> = samples().into_iter().filter(|v| v.is_finite()).collect();
    for a in &values {
        for b in &values {
            if a < b {
                assert!(total_order_key(a.to_bits()) < total_order_key(b.to_bits()));
            }
        }
    }
}

#[test]
fn negative_zero_stands_just_below_positive_zero() {
    assert_eq!(total_order_key((-0.0f32).to_bits()) + 1, total_order_key(0.0f32.to_bits()));
}

#[test]
fn above_half_is_the_comparison_of_numbers() {
    for value in samples() {
        assert_eq!(above_half(value.to_bits()), value > 0.5, "{:?}", value);
    }
}

#[test]
fn one_half_itself_is_not_above_half() {
    assert_eq!(HALF, 0.5f32.to_bits());
    assert!(!above_half(HALF));
    assert!(above_half(HALF + 1));
}

#[test]
fn infinity_is_above_half_and_what_lies_beyond_is_not() {
    assert_eq!(INFINITY, f32::INFINITY.to_bits());
    assert!(above_half(INFINITY));
    assert!(!above_half(INFINITY + 1));
    assert!(!above_half(f32::NEG_INFINITY.to_bits()));
}
