use fluido::number::{LimitedFloat, NumberParseError};

fn lf(x: f64) -> LimitedFloat {
    LimitedFloat::parse(&format!("{}", x)).unwrap()
}

#[test]
fn concentration_test_precision() {
    let num_a = 0.00005;
    let num_b = 0.00009;

    let conc_a = lf(num_a);
    let conc_b = lf(num_b);

    assert_eq!(conc_a, conc_b)
}

#[test]
fn test_addition() {
    let num_a: LimitedFloat = lf(0.01f64);
    let num_b: LimitedFloat = lf(0.01f64);

    let num_c: LimitedFloat = lf(0.9f64);
    let num_d: LimitedFloat = lf(0.1f64);

    let expected: LimitedFloat = lf(0.02f64);
    let expected_2: LimitedFloat = lf(1.0f64);
    let sum = num_a + num_b;
    let sum2 = num_c + num_d;
    assert_eq!(sum, expected);
    assert_eq!(sum2, expected_2);
}

#[test]
fn test_sub() {
    let num_a: LimitedFloat = lf(0.01f64);
    let num_b: LimitedFloat = lf(0.01f64);

    let expected: LimitedFloat = lf(0f64);
    let diff = num_a - num_b;
    assert_eq!(diff, expected)
}

#[test]
fn test_div() {
    let num_a: LimitedFloat = lf(1.0f64);
    let num_b: LimitedFloat = lf(2.0f64);

    let expected: LimitedFloat = lf(0.5f64);
    let diff = num_a / num_b;
    assert_eq!(diff, expected)
}

#[test]
fn test_mul() {
    let num_a: LimitedFloat = lf(0.5f64);
    let num_b: LimitedFloat = lf(2.0f64);

    let expected: LimitedFloat = lf(1.0f64);
    let diff = num_a * num_b;
    assert_eq!(diff, expected)
}

#[test]
fn test_display() {
    let num_a: LimitedFloat = lf(0.01f64);
    let expected = "0.01";
    let num_a_str = num_a.to_string();
    assert_eq!(num_a_str, expected);
    let num_b: LimitedFloat = lf(0f64);
    let expected = "0.0";
    let num_b_str = num_b.to_string();
    assert_eq!(num_b_str, expected);
}

#[test]
fn test_lf_valid() {
    let num_a = 0.5;
    let lf = lf(num_a);

    assert!(lf.valid())
}

#[test]
fn test_lf_not_valid() {
    let lf = LimitedFloat { wrapped: -100 };
    let lf2 = LimitedFloat { wrapped: 100000000 };

    assert!(!lf.valid());
    assert!(!lf2.valid())
}

#[test]
fn test_lf_precision() {
    let num_a = 0.00005;
    let num_b = 0.00009;

    let conc_a = lf(num_a);
    let conc_b = lf(num_b);

    assert_eq!(conc_a, conc_b)
}

#[test]
fn test_lf_addition() {
    let num_a: LimitedFloat = lf(0.01f64);
    let num_b: LimitedFloat = lf(0.01f64);

    let num_c: LimitedFloat = lf(0.9f64);
    let num_d: LimitedFloat = lf(0.1f64);

    let expected: LimitedFloat = lf(0.02f64);
    let expected_2: LimitedFloat = lf(1.0f64);
    let sum = num_a + num_b;
    let sum2 = num_c + num_d;
    assert_eq!(sum, expected);
    assert_eq!(sum2, expected_2);
}

#[test]
fn test_lf_sub() {
    let num_a: LimitedFloat = lf(0.01f64);
    let num_b: LimitedFloat = lf(0.01f64);

    let expected: LimitedFloat = lf(0f64);
    let diff = num_a - num_b;
    assert_eq!(diff, expected)
}

#[test]
fn test_lf_div() {
    let num_a: LimitedFloat = lf(1.0f64);
    let num_b: LimitedFloat = lf(2.0f64);

    let expected: LimitedFloat = lf(0.5f64);
    let diff = num_a / num_b;
    assert_eq!(diff, expected)
}

#[test]
fn test_lf_mul() {
    let num_a: LimitedFloat = lf(0.5f64);
    let num_b: LimitedFloat = lf(2.0f64);

    let expected: LimitedFloat = lf(1.0f64);
    let diff = num_a * num_b;
    assert_eq!(diff, expected)
}

#[test]
fn test_lf_display() {
    let num_a: LimitedFloat = lf(0.01f64);
    let expected = "0.01";
    let num_a_str = num_a.to_string();
    assert_eq!(num_a_str, expected);
    let num_b: LimitedFloat = lf(0f64);
    let expected = "0.0";
    let num_b_str = num_b.to_string();
    assert_eq!(num_b_str, expected);
}

#[test]
fn parse_rounds_to_nearest_step() {
    assert_eq!(LimitedFloat::parse("0.12345").unwrap().wrapped, 1235);
    assert_eq!(LimitedFloat::parse("0.12344").unwrap().wrapped, 1234);
    assert_eq!(LimitedFloat::parse("-0.00005").unwrap().wrapped, -1);
    assert_eq!(LimitedFloat::parse("3").unwrap().wrapped, 30000);
    assert_eq!(LimitedFloat::parse(".5").unwrap().wrapped, 5000);
    assert_eq!(LimitedFloat::parse("2.").unwrap().wrapped, 20000);
    assert_eq!(LimitedFloat::parse("+1.5").unwrap().wrapped, 15000);
}

#[test]
fn parse_rejects_malformed_and_huge() {
    assert_eq!(LimitedFloat::parse(""), Err(NumberParseError::Malformed));
    assert_eq!(LimitedFloat::parse("."), Err(NumberParseError::Malformed));
    assert_eq!(LimitedFloat::parse("abc"), Err(NumberParseError::Malformed));
    assert_eq!(LimitedFloat::parse("1.2.3"), Err(NumberParseError::Malformed));
    assert_eq!(LimitedFloat::parse("1e3"), Err(NumberParseError::Malformed));
    assert_eq!(
        LimitedFloat::parse("99999999999999999999"),
        Err(NumberParseError::OutOfRange)
    );
}

#[test]
fn text_round_trip_of_numbers() {
    for w in [0i64, 1, 9, 10, 1000, 1500, 1667, 10000, 12345, -1, -20000, 123456789] {
        let q = LimitedFloat::new(w);
        assert_eq!(LimitedFloat::parse(&q.to_string()), Ok(q));
    }
    assert_eq!(LimitedFloat::new(1667).to_string(), "0.1667");
    assert_eq!(LimitedFloat::new(20000).to_string(), "2.0");
    assert_eq!(LimitedFloat::new(-1500).to_string(), "-0.15");
}

#[test]
fn arithmetic_is_congruent_and_quantized() {
    let a = LimitedFloat::new(1234);
    let b = LimitedFloat::new(1234);
    let c = LimitedFloat::new(3000);
    assert_eq!(a + c, b + c);
    assert_eq!(a - c, b - c);
    assert_eq!(a * c, b * c);
    assert_eq!(a / c, b / c);
    // 0.1234 * 0.3 = 0.03702 -> 0.0370
    assert_eq!((a * c).wrapped, 370);
    // 1 / 3 = 0.33333 -> 0.3333
    assert_eq!((LimitedFloat::new(10000) / LimitedFloat::new(30000)).wrapped, 3333);
    // 2 / 3 = 0.66667 -> 0.6667
    assert_eq!((LimitedFloat::new(20000) / LimitedFloat::new(30000)).wrapped, 6667);
}

#[test]
fn arithmetic_saturates() {
    let big = LimitedFloat::new(i64::MAX);
    assert_eq!((big + LimitedFloat::new(1)).wrapped, i64::MAX);
    assert_eq!((LimitedFloat::new(i64::MIN) - LimitedFloat::new(1)).wrapped, i64::MIN);
    assert_eq!((LimitedFloat::new(5) / LimitedFloat::new(0)).wrapped, i64::MAX);
    assert_eq!((LimitedFloat::new(-5) / LimitedFloat::new(0)).wrapped, i64::MIN);
    assert_eq!((LimitedFloat::new(0) / LimitedFloat::new(0)).wrapped, 0);
}

#[test]
fn valid_concentration_bounds() {
    assert!(LimitedFloat::new(0).valid());
    assert!(LimitedFloat::new(10000).valid());
    assert!(!LimitedFloat::new(10001).valid());
}

#[test]
fn parse_fractions() {
    assert_eq!(LimitedFloat::parse("1/2").unwrap().wrapped, 5000);
    assert_eq!(LimitedFloat::parse("1/3").unwrap().wrapped, 3333);
    assert_eq!(LimitedFloat::parse("2/3").unwrap().wrapped, 6667);
    assert_eq!(LimitedFloat::parse("-1/8").unwrap().wrapped, -1250);
    assert_eq!(LimitedFloat::parse("0/5").unwrap().wrapped, 0);
    assert_eq!(LimitedFloat::parse("1/20000").unwrap().wrapped, 1);
    assert_eq!(LimitedFloat::parse("1/0"), Err(NumberParseError::Malformed));
    assert_eq!(LimitedFloat::parse("1/"), Err(NumberParseError::Malformed));
    assert_eq!(LimitedFloat::parse("/2"), Err(NumberParseError::Malformed));
    assert_eq!(LimitedFloat::parse("1/2/3"), Err(NumberParseError::Malformed));
    assert_eq!(
        LimitedFloat::parse("1000000000000000000/1"),
        Err(NumberParseError::OutOfRange)
    );
    assert_eq!(
        LimitedFloat::parse("999999999999999999/1"),
        Err(NumberParseError::OutOfRange)
    );
    assert_eq!(LimitedFloat::parse("99999999999999/1").unwrap().wrapped, 999999999999990000);
}
