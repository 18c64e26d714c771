use fixed_point::{FixedPoint, Number, ParseError};

#[test]
fn test_fixed_point() {
    let decimal: FixedPoint<i32, 0> = "0".parse().unwrap();
    assert_eq!("0.0", decimal.format());
    let decimal: FixedPoint<i32, 1> = "0.0".parse().unwrap();
    assert_eq!("0.0", decimal.format());
    let decimal: FixedPoint<i32, 1> = "0.1".parse().unwrap();
    assert_eq!("0.1", decimal.format());
    let decimal: FixedPoint<i32, 2> = "0.01".parse().unwrap();
    assert_eq!("0.01", decimal.format());
    let decimal: FixedPoint<i32, 2> = "0.11".parse().unwrap();
    assert_eq!("0.11", decimal.format());
    let decimal: FixedPoint<i32, 2> = "0.1".parse().unwrap();
    assert_eq!("0.1", decimal.format());
    let decimal: FixedPoint<i32, 2> = "1".parse().unwrap();
    assert_eq!("1.0", decimal.format());
    let decimal: FixedPoint<i32, 2> = "1.001".parse().unwrap();
    assert_eq!("1.0", decimal.format());
    let decimal: FixedPoint<i32, 3> = "0.001".parse().unwrap();
    assert_eq!("0.001", decimal.format());
    let decimal: FixedPoint<i32, 3> = "0.0001".parse().unwrap();
    assert_eq!("0.0", decimal.format());
    let decimal: FixedPoint<i32, 3> = "-0.1".parse().unwrap();
    assert_eq!("-0.1", decimal.format());
    let decimal: FixedPoint<i32, 3> = "-1.1".parse().unwrap();
    assert_eq!("-1.1", decimal.format());
}

#[test]
fn test_fixed_point_macro() {
    let decimal = FixedPoint::<u16, 2>::from_literal("0.0u16").unwrap();
    assert_eq!("0.0", decimal.format());
    let decimal = FixedPoint::<u16, 2>::from_literal("0.1u16").unwrap();
    assert_eq!("0.1", decimal.format());
    let decimal = FixedPoint::<u16, 2>::from_literal_inferred("0.11u16").unwrap();
    assert_eq!(
        "0.11 2",
        format!("{} {}", decimal.format(), decimal.decimal_length())
    );
    let decimal = FixedPoint::<u16, 2>::from_literal("1.0u16").unwrap();
    assert_eq!("1.0", decimal.format());
    let decimal = FixedPoint::<u16, 2>::from_literal_inferred("1_1.0_1u16").unwrap();
    assert_eq!("11.01", decimal.format());
    let decimal = FixedPoint::<u16, 2>::from_literal_inferred("1.10u16").unwrap();
    assert_eq!("1.1", decimal.format());
    let decimal = FixedPoint::<i16, 2>::from_literal("-0.1i16").unwrap();
    assert_eq!("-0.1", decimal.format());
    let decimal = FixedPoint::<i16, 2>::from_literal("-1.1i16").unwrap();
    assert_eq!("-1.1", decimal.format());
}

#[test]
fn test_malformed() {
    assert_eq!(Err(ParseError), "".parse::<FixedPoint<u16, 4>>());
    assert_eq!(Err(ParseError), "1.".parse::<FixedPoint<u16, 4>>());
    assert_eq!(Err(ParseError), ".1".parse::<FixedPoint<u16, 4>>());
    assert_eq!(Err(ParseError), "-1.0".parse::<FixedPoint<u16, 4>>());
    assert_eq!(Err(ParseError), "10.0".parse::<FixedPoint<u16, 4>>());
}

#[test]
fn test_i8() {
    let decimal = FixedPoint::<i8, 1>::from_literal_inferred("0.0i8").unwrap();
    assert_eq!("0.0", decimal.format());
    let decimal = FixedPoint::<u8, 1>::from_literal_inferred("0.0u8").unwrap();
    assert_eq!("0.0", decimal.format());
}

#[test]
fn round_trip_reparse() {
    let v: FixedPoint<i32, 3> = "-12.340".parse().unwrap();
    let shown = v.format();
    assert_eq!("-12.34", shown);
    let again: FixedPoint<i32, 3> = shown.parse().unwrap();
    assert_eq!(v.0, again.0);
    assert_eq!(shown, again.format());

    let v: FixedPoint<u16, 4> = "6.5535".parse().unwrap();
    assert_eq!(65535u16, v.0);
    let again: FixedPoint<u16, 4> = v.format().parse().unwrap();
    assert_eq!(v.0, again.0);
}

#[test]
fn truncation_not_rounding() {
    let v: FixedPoint<i32, 2> = "1.001".parse().unwrap();
    assert_eq!(100, v.0);
    assert_eq!("1.0", v.format());
    let v: FixedPoint<i32, 2> = "1.999999".parse().unwrap();
    assert_eq!(199, v.0);
    assert_eq!("1.99", v.format());
}

#[test]
fn trailing_zero_elision() {
    let v: FixedPoint<i32, 2> = "0.10".parse().unwrap();
    assert_eq!("0.1", v.format());
}

#[test]
fn negative_zero_sign_preserved() {
    let v: FixedPoint<i32, 1> = "-0.1".parse().unwrap();
    assert_eq!("-0.1", v.format());
    let v: FixedPoint<i32, 4> = "-0.1".parse().unwrap();
    assert_eq!(-1000, v.0);
    assert_eq!("-0.1", v.format());
}

#[test]
fn overflow_rejected() {
    assert_eq!(Err(ParseError), "6.5536".parse::<FixedPoint<u16, 4>>());
    assert_eq!(Err(ParseError), "128".parse::<FixedPoint<i8, 0>>());
    assert_eq!(Ok(FixedPoint::<i8, 0>(-128)), "-128".parse::<FixedPoint<i8, 0>>());
}

#[test]
fn division_on_stored_integer() {
    let v: FixedPoint<i32, 1> = "1.0".parse().unwrap();
    assert_eq!(10, v.0);
    let q = v.div_scalar(3);
    assert_eq!(3, q.0);
    assert_eq!("0.3", q.format());
    let n: FixedPoint<i32, 2> = FixedPoint(-110);
    assert_eq!(-36, n.div_scalar(3).0);
}

#[test]
fn literal_inference_scenario() {
    let v = FixedPoint::<u16, 2>::from_literal_inferred("0.11").unwrap();
    assert_eq!(11, v.0);
    assert_eq!(2, v.decimal_length());
    assert!(FixedPoint::<u16, 3>::from_literal_inferred("0.11").is_none());
}

#[test]
fn parse_truncate_format_scenario() {
    let v: FixedPoint<i32, 2> = FixedPoint::parse_str("1.001").unwrap();
    assert_eq!(100, v.0);
    assert_eq!("1.0", v.format());
}

#[test]
fn decomposition_and_scale() {
    let v: FixedPoint<i32, 2> = FixedPoint(-110);
    assert_eq!(-1, v.integer());
    assert_eq!(-10, v.decimal());
    assert_eq!(v.0, v.integer() * 100 + v.decimal());
    assert_eq!(100, v.exp());
    assert_eq!(2, v.decimal_length());
}

#[test]
fn construction_rescales() {
    let v: FixedPoint<i32, 3> = FixedPoint::new(25, 2);
    assert_eq!(250, v.0);
    assert_eq!("0.25", v.format());
    let w: FixedPoint<u16, 3> = FixedPoint::new(250, 3);
    assert_eq!(250, w.0);
}

#[test]
fn number_constants() {
    assert_eq!(10i32, <i32 as Number>::ten());
    assert_eq!(0u8, <u8 as Number>::zero());
    assert_eq!(1i64, <i64 as Number>::one());
}

#[test]
fn malformed_token_rejected() {
    assert!(FixedPoint::<u16, 2>::from_literal("1.0f32").is_none());
    assert!(FixedPoint::<u16, 2>::from_literal("").is_none());
    assert!(FixedPoint::<u16, 2>::from_literal("1.u16").is_none());
    assert!(FixedPoint::<i16, 2>::from_literal("1.0.1").is_none());
}
