use ledger::money::{decode, encode};

#[test]
fn decode_rounds_to_the_nearest_cent() {
    assert_eq!(decode(1.5f64.to_bits()), Some(150));
    assert_eq!(decode(12.34f64.to_bits()), Some(1234));
    assert_eq!(decode(10.0f64.to_bits()), Some(1000));
    assert_eq!(decode(0.0f64.to_bits()), Some(0));
    assert_eq!(decode((-0.0f64).to_bits()), Some(0));
    assert_eq!(decode(0.01f64.to_bits()), Some(1));
    assert_eq!(decode(0.004f64.to_bits()), Some(0));
    assert_eq!(decode(0.006f64.to_bits()), Some(1));
    assert_eq!(decode(123456789.12f64.to_bits()), Some(12345678912));
}

#[test]
fn decode_rounds_a_half_away_from_zero() {
    assert_eq!(decode(0.125f64.to_bits()), Some(13));
    assert_eq!(decode((-0.125f64).to_bits()), Some(-13));
    assert_eq!(decode(0.375f64.to_bits()), Some(38));
    assert_eq!(decode(2.625f64.to_bits()), Some(263));
}

#[test]
fn decode_reads_negative_amounts() {
    assert_eq!(decode((-0.05f64).to_bits()), Some(-5));
    assert_eq!(decode((-123.45f64).to_bits()), Some(-12345));
    assert_eq!(decode((-1.0f64).to_bits()), Some(-100));
}

#[test]
fn decode_reads_the_number_itself_not_its_shortest_print() {
    // The nearest binary number to 1.005 lies just below it.
    assert_eq!(decode(1.005f64.to_bits()), Some(100));
    // So does the nearest to 0.145.
    assert_eq!(decode(0.145f64.to_bits()), Some(14));
    // One step of the binary format above 0.125 is above the half cent.
    assert_eq!(decode(0.125f64.to_bits() + 1), Some(13));
    assert_eq!(decode(0.125f64.to_bits() - 1), Some(12));
}

#[test]
fn decode_reads_subnormal_and_tiny_numbers_as_zero() {
    assert_eq!(decode(f64::MIN_POSITIVE.to_bits()), Some(0));
    assert_eq!(decode(1u64), Some(0));
    assert_eq!(decode(1e-300f64.to_bits()), Some(0));
}

#[test]
fn decode_refuses_what_is_no_amount() {
    assert_eq!(decode(f64::NAN.to_bits()), None);
    assert_eq!(decode(f64::INFINITY.to_bits()), None);
    assert_eq!(decode(f64::NEG_INFINITY.to_bits()), None);
    assert_eq!(decode(1e300f64.to_bits()), None);
    assert_eq!(decode((-1e300f64).to_bits()), None);
    assert_eq!(decode(f64::MAX.to_bits()), None);
}

#[test]
fn decode_at_the_edge_of_the_cents() {
    // 2^56 units are 2^56 * 100 cents, which fit; 2^57 units do not.
    assert_eq!(decode(72057594037927936.0f64.to_bits()), Some(7205759403792793600));
    assert_eq!(decode((-72057594037927936.0f64).to_bits()), Some(-7205759403792793600));
    assert_eq!(decode(144115188075855872.0f64.to_bits()), None);
    assert_eq!(decode((-144115188075855872.0f64).to_bits()), None);
    assert_eq!(decode(4503599627370496.0f64.to_bits()), Some(450359962737049600));
}

#[test]
fn encode_puts_the_point_two_digits_from_the_right() {
    assert_eq!(encode(12345), "123.45");
    assert_eq!(encode(100), "1.00");
    assert_eq!(encode(1500), "15.00");
    assert_eq!(encode(101), "1.01");
    assert_eq!(encode(999999), "9999.99");
}

#[test]
fn encode_pads_amounts_below_one_unit() {
    assert_eq!(encode(0), "0.00");
    assert_eq!(encode(5), "0.05");
    assert_eq!(encode(50), "0.50");
    assert_eq!(encode(99), "0.99");
}

#[test]
fn encode_does_not_count_the_sign_as_a_digit() {
    assert_eq!(encode(-5), "-0.05");
    assert_eq!(encode(-50), "-0.50");
    assert_eq!(encode(-100), "-1.00");
    assert_eq!(encode(-12345), "-123.45");
}

#[test]
fn encode_at_the_limits() {
    assert_eq!(encode(i64::MAX), "92233720368547758.07");
    assert_eq!(encode(i64::MIN), "-92233720368547758.08");
}

#[test]
fn decode_recovers_what_encode_wrote() {
    let amounts: [i64; 16] = [
        0, 1, -1, 5, -5, 99, 100, 101, 1234, -1234, 12345, 999999, -999999, 123456789012,
        4503599627370495, -4503599627370495,
    ];
    for v in amounts {
        let text = encode(v);
        let number: f64 = text.parse().unwrap();
        assert_eq!(decode(number.to_bits()), Some(v), "{}", text);
    }
}

#[test]
fn decode_recovers_every_small_amount() {
    let mut v: i64 = -20000;
    while v <= 20000 {
        let number: f64 = encode(v).parse().unwrap();
        assert_eq!(decode(number.to_bits()), Some(v));
        v += 1;
    }
}
