use ledger::epoch::to_day_offset;

#[test]
fn serial_two_is_the_reference_day() {
    assert_eq!(to_day_offset(2.0f64.to_bits()), Some(-25567));
}

#[test]
fn serials_of_known_days() {
    // 2024-01-05 is serial 45296 and day 19727.
    assert_eq!(to_day_offset(45296.0f64.to_bits()), Some(19727));
    // 2024-02-01 is serial 45323 and day 19754.
    assert_eq!(to_day_offset(45323.0f64.to_bits()), Some(19754));
    assert_eq!(to_day_offset(25569.0f64.to_bits()), Some(0));
    assert_eq!(to_day_offset(25570.0f64.to_bits()), Some(1));
    assert_eq!(to_day_offset(25568.0f64.to_bits()), Some(-1));
}

#[test]
fn time_of_day_is_rounded_down() {
    assert_eq!(to_day_offset(45296.25f64.to_bits()), Some(19727));
    assert_eq!(to_day_offset(45296.4375f64.to_bits()), Some(19727));
    assert_eq!(to_day_offset(45296.5f64.to_bits()), Some(19728));
    assert_eq!(to_day_offset(45296.75f64.to_bits()), Some(19728));
    assert_eq!(to_day_offset(25568.5f64.to_bits()), Some(0));
    assert_eq!(to_day_offset(25568.25f64.to_bits()), Some(-1));
}

#[test]
fn zero_and_negative_serials() {
    assert_eq!(to_day_offset(0.0f64.to_bits()), Some(-25569));
    assert_eq!(to_day_offset((-0.0f64).to_bits()), Some(-25569));
    assert_eq!(to_day_offset(0.25f64.to_bits()), Some(-25569));
    assert_eq!(to_day_offset(0.5f64.to_bits()), Some(-25568));
    assert_eq!(to_day_offset((-1.0f64).to_bits()), Some(-25570));
    assert_eq!(to_day_offset((-0.5f64).to_bits()), Some(-25569));
    assert_eq!(to_day_offset((-0.75f64).to_bits()), Some(-25570));
    assert_eq!(to_day_offset(1e-300f64.to_bits()), Some(-25569));
    assert_eq!(to_day_offset((-1e-300f64).to_bits()), Some(-25569));
    assert_eq!(to_day_offset(1u64), Some(-25569));
}

#[test]
fn equal_serials_give_equal_days() {
    let a = to_day_offset(43831.0f64.to_bits());
    let b = to_day_offset(43831.0f64.to_bits());
    assert_eq!(a, b);
    assert_eq!(a, Some(18262));
}

#[test]
fn the_formula_on_many_serials() {
    let mut s = 0.0f64;
    while s < 60000.0 {
        let expected = (s - 1.0 - 70.0 * 365.25).floor() as i32;
        assert_eq!(to_day_offset(s.to_bits()), Some(expected), "{}", s);
        s += 0.125;
    }
}

#[test]
fn serials_that_are_no_day() {
    assert_eq!(to_day_offset(f64::NAN.to_bits()), None);
    assert_eq!(to_day_offset(f64::INFINITY.to_bits()), None);
    assert_eq!(to_day_offset(f64::NEG_INFINITY.to_bits()), None);
    assert_eq!(to_day_offset(1e300f64.to_bits()), None);
    assert_eq!(to_day_offset((-1e300f64).to_bits()), None);
    assert_eq!(to_day_offset(4294967296.0f64.to_bits()), None);
}

#[test]
fn serials_at_the_edge_of_the_days() {
    assert_eq!(to_day_offset(2147509216.0f64.to_bits()), Some(i32::MAX));
    assert_eq!(to_day_offset(2147509217.0f64.to_bits()), None);
    assert_eq!(to_day_offset((-2147458079.0f64).to_bits()), Some(i32::MIN));
    assert_eq!(to_day_offset((-2147458080.0f64).to_bits()), None);
}
