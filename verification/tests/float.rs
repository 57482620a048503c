use dozer_pipeline::expression::float::{
    float_at_place, float_order_key, float_place, int_to_float_bits,
};

#[test]
fn integers_convert_as_the_cast_does() {
    let mut values: Vec<i64> = vec![
        0,
        1,
        -1,
        2,
        3,
        255,
        -256,
        1 << 52,
        (1 << 52) + 1,
        (1 << 53) - 1,
        1 << 53,
        (1 << 53) + 1,
        (1 << 53) + 2,
        (1 << 53) + 3,
        (1 << 54) + 2,
        (1 << 54) + 6,
        i64::MAX,
        i64::MAX - 1,
        i64::MAX - 511,
        i64::MAX - 512,
        i64::MAX - 513,
        i64::MIN,
        i64::MIN + 1,
        -(1 << 53) - 1,
        -(1 << 53) - 3,
        123_456_789_012_345_678,
        -987_654_321_098_765_432,
    ];
    let mut x: i64 = 1;
    for _ in 0..200 {
        x = x.wrapping_mul(6364136223846793005).wrapping_add(1442695040888963407);
        values.push(x);
        values.push(x >> 7);
        values.push(x >> 23);
    }
    for v in values {
        assert_eq!(int_to_float_bits(v), (v as f64).to_bits(), "{}", v);
    }
}

#[test]
fn keys_order_floats_as_their_numbers() {
    let floats = [
        f64::NEG_INFINITY,
        f64::MIN,
        -1.5,
        -1.0,
        -f64::MIN_POSITIVE,
        -0.0,
        0.0,
        f64::MIN_POSITIVE,
        0.25,
        1.0,
        1.0000000000000002,
        f64::MAX,
        f64::INFINITY,
    ];
    for a in floats {
        for b in floats {
            let ka = float_order_key(a.to_bits());
            let kb = float_order_key(b.to_bits());
            assert_eq!(ka < kb, a < b, "{} {}", a, b);
            assert_eq!(ka == kb, a == b, "{} {}", a, b);
        }
        assert!(float_order_key(a.to_bits()) < float_order_key(f64::NAN.to_bits()));
    }
    assert_eq!(float_order_key(f64::NAN.to_bits()), float_order_key((-f64::NAN).to_bits()));
}

#[test]
fn places_order_floats_as_their_numbers() {
    let numbers = [
        f64::NEG_INFINITY, -1e300, -2.0, -1.0, -5e-324, 0.0, 5e-324, 0.5, 1.0, 1e300,
        f64::INFINITY,
    ];
    for pair in numbers.windows(2) {
        assert!(float_place(pair[0].to_bits()) < float_place(pair[1].to_bits()));
    }
    for x in numbers {
        assert_eq!(f64::from_bits(float_at_place(float_place(x.to_bits()))), x);
    }
    assert_eq!(float_place((-0.0f64).to_bits()), float_place(0.0f64.to_bits()));
    assert_eq!(float_at_place(float_place((-0.0f64).to_bits())), 0.0f64.to_bits());
    assert_eq!(float_place(f64::NAN.to_bits()), i64::MAX);
    assert!(f64::from_bits(float_at_place(i64::MAX)).is_nan());
    assert!(float_place(f64::INFINITY.to_bits()) < i64::MAX);
}
