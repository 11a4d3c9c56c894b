use wfrs::float::Float64;
use wfrs::float::Whole;
use wfrs::json::JsonNumber;

fn f(x: f64) -> Float64 {
    Float64::from_bits(x.to_bits())
}

fn unsigned_samples() -> Vec<u64> {
    let mut samples = vec![0, 1, 2, 3, 7, 10, 255, 1 << 31, (1 << 52) - 1, 1 << 52, (1 << 52) + 1];
    for shift in 52..64u32 {
        let base = 1u64 << shift;
        for delta in [0u64, 1, 2, 3, 511, 512, 513, 1023, 1024, 1025, 1535, 1536, 1537, 2047, 2048, 2049, 3072, 3073] {
            samples.push(base.wrapping_add(delta));
            samples.push(base.wrapping_sub(delta));
            samples.push(base | (delta << (shift.saturating_sub(53).min(10))));
        }
    }
    samples.push(u64::MAX);
    samples.push(u64::MAX - 1);
    samples.push(u64::MAX - 1023);
    samples.push(u64::MAX - 1024);
    samples.push(u64::MAX - 2047);
    samples.push(u64::MAX - 2048);
    samples.push(9007199254740993);
    samples.push(9007199254740995);
    samples
}

#[test]
fn unsigned_integers_project_to_the_nearest_double() {
    for n in unsigned_samples() {
        assert_eq!(Float64::from_u64(n).to_bits(), (n as f64).to_bits(), "n = {}", n);
    }
}

#[test]
fn nearest_double_rounds_ties_to_even() {
    // 2^53 + 1 lies between two doubles; the even significand wins.
    assert_eq!(Float64::from_u64(9007199254740993).to_bits(), 9007199254740992.0f64.to_bits());
    // 2^53 + 3 lies between 2^53 + 2 and 2^53 + 4; the even one is 2^53 + 4.
    assert_eq!(Float64::from_u64(9007199254740995).to_bits(), 9007199254740996.0f64.to_bits());
    assert_eq!(Float64::from_u64(1).to_bits(), 0x3ff0_0000_0000_0000);
    assert_eq!(Float64::from_u64(u64::MAX).to_bits(), 0x43f0_0000_0000_0000);
}

#[test]
fn signed_integers_project_to_the_nearest_double() {
    let mut samples: Vec<i64> = vec![0, 1, -1, -2, 3, i64::MAX, i64::MIN, i64::MIN + 1, -9007199254740993, 9007199254740993];
    for n in unsigned_samples() {
        samples.push(n as i64);
        samples.push((n as i64).wrapping_neg());
    }
    for n in samples {
        assert_eq!(Float64::from_i64(n).to_bits(), (n as f64).to_bits(), "n = {}", n);
    }
}

fn doubles() -> Vec<f64> {
    vec![
        0.0,
        -0.0,
        1.0,
        -1.0,
        1.5,
        -1.5,
        2.0,
        0.1,
        -0.1,
        f64::MIN_POSITIVE,
        -f64::MIN_POSITIVE,
        5e-324,
        -5e-324,
        f64::MAX,
        f64::MIN,
        f64::INFINITY,
        f64::NEG_INFINITY,
        f64::NAN,
        -f64::NAN,
        1e300,
        -1e300,
        9007199254740992.0,
        9007199254740994.0,
        3.0,
        -2.0,
    ]
}

#[test]
fn doubles_are_ordered_numerically() {
    for a in doubles() {
        for b in doubles() {
            assert_eq!(f(a).less_than(&f(b)), a < b, "{} < {}", a, b);
            assert_eq!(f(a).at_most(&f(b)), a <= b, "{} <= {}", a, b);
            assert_eq!(f(a).same_as(&f(b)), a == b, "{} == {}", a, b);
        }
        assert_eq!(f(a).is_nan(), a.is_nan());
    }
}

#[test]
fn whole_numbers_are_told_from_fractions() {
    assert_eq!(f(3.0).whole(), Whole::Unsigned(3));
    assert_eq!(f(-2.0).whole(), Whole::Signed(-2));
    assert_eq!(f(1.5).whole(), Whole::Neither);
    assert_eq!(f(0.0).whole(), Whole::Unsigned(0));
    assert_eq!(f(-0.0).whole(), Whole::Unsigned(0));
    assert_eq!(f(0.5).whole(), Whole::Neither);
    assert_eq!(f(-0.5).whole(), Whole::Neither);
    assert_eq!(f(5e-324).whole(), Whole::Neither);
    assert_eq!(f(f64::INFINITY).whole(), Whole::Neither);
    assert_eq!(f(f64::NEG_INFINITY).whole(), Whole::Neither);
    assert_eq!(f(f64::NAN).whole(), Whole::Neither);
    assert_eq!(f(1e300).whole(), Whole::Neither);
    assert_eq!(f(-1e300).whole(), Whole::Neither);
    assert_eq!(f(4503599627370496.0).whole(), Whole::Unsigned(1 << 52));
    assert_eq!(f(4503599627370497.0).whole(), Whole::Unsigned((1 << 52) + 1));
    assert_eq!(f(2251799813685248.5).whole(), Whole::Neither);
    assert_eq!(f(9223372036854775808.0).whole(), Whole::Unsigned(1 << 63));
    assert_eq!(f(-9223372036854775808.0).whole(), Whole::Signed(i64::MIN));
    assert_eq!(f(-9223372036854777856.0).whole(), Whole::Neither);
    assert_eq!(f(18446744073709549568.0).whole(), Whole::Unsigned(18446744073709549568));
    assert_eq!(f(18446744073709551616.0).whole(), Whole::Neither);
    assert_eq!(f(-1.0).whole(), Whole::Signed(-1));
    assert_eq!(f(1.0).whole(), Whole::Unsigned(1));
}

#[test]
fn whole_numbers_come_back_from_their_projection() {
    for n in [0u64, 1, 2, 3, 1000, 1 << 40, (1 << 53) - 1, 1 << 53, 1 << 63] {
        assert_eq!(Float64::from_u64(n).whole(), Whole::Unsigned(n));
    }
    for n in [-1i64, -2, -1000, -(1 << 40), -(1 << 53), i64::MIN] {
        assert_eq!(Float64::from_i64(n).whole(), Whole::Signed(n));
    }
}

#[test]
fn numbers_from_doubles_keep_whole_numbers_as_integers() {
    assert!(matches!(JsonNumber::from_f64(f(3.0)), JsonNumber::PosInt(3)));
    assert!(matches!(JsonNumber::from_f64(f(-2.0)), JsonNumber::NegInt(-2)));
    assert!(matches!(JsonNumber::from_f64(f(-0.0)), JsonNumber::PosInt(0)));
    match JsonNumber::from_f64(f(1.5)) {
        JsonNumber::Float(x) => assert_eq!(x.to_bits(), 1.5f64.to_bits()),
        other => panic!("{:?}", other),
    }
    match JsonNumber::from_f64(f(1e300)) {
        JsonNumber::Float(x) => assert_eq!(x.to_bits(), 1e300f64.to_bits()),
        other => panic!("{:?}", other),
    }
}

#[test]
fn numbers_compare_by_their_projection() {
    let three = JsonNumber::PosInt(3);
    let also_three = JsonNumber::NegInt(3);
    let three_point = JsonNumber::Float(f(3.0));
    let minus_two = JsonNumber::NegInt(-2);
    let nan = JsonNumber::Float(f(f64::NAN));
    assert!(three.same_as(&also_three));
    assert!(three.same_as(&three_point));
    assert!(three_point.same_as(&three));
    assert!(!three.same_as(&minus_two));
    assert!(minus_two.less_than(&three));
    assert!(!three.less_than(&minus_two));
    assert!(!three.less_than(&three_point));
    assert!(three.at_most(&three_point));
    assert!(minus_two.at_most(&three));
    assert!(!three.at_most(&minus_two));
    assert!(!nan.same_as(&nan));
    assert!(!nan.less_than(&three));
    assert!(!three.at_most(&nan));
    // Beyond 2^53 neighbouring integers share a double.
    assert!(JsonNumber::PosInt(9007199254740993).same_as(&JsonNumber::PosInt(9007199254740992)));
    assert!(JsonNumber::PosInt(9007199254740992).less_than(&JsonNumber::PosInt(9007199254740995)));
    assert_eq!(three.as_f64().to_bits(), 3.0f64.to_bits());
    assert_eq!(minus_two.as_f64().to_bits(), (-2.0f64).to_bits());
}
