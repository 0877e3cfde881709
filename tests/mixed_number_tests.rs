use mncalc::error::CalcError;
use mncalc::fraction::Fraction;
use mncalc::mixed_number::parse_mixed_number;

#[test]
fn parse_full_mixed_number() {
    let mixed_number_exp = "2_1/2";

    let actual = parse_mixed_number(mixed_number_exp);

    let expected = Fraction::new(5, 2);
    assert_eq!(actual, expected);
}

#[test]
fn parse_full_negative_mixed_number() {
    let mixed_number_exp = "-2_1/2";

    let actual = parse_mixed_number(mixed_number_exp);

    let expected = Fraction::new(-5, 2);
    assert_eq!(actual, expected);
}

#[test]
fn parse_fraction_only_mixed_number() {
    let mixed_number_exp = "1/2";

    let actual = parse_mixed_number(mixed_number_exp);

    let expected = Fraction::new(1, 2);
    assert_eq!(actual, expected);
}

#[test]
fn parse_whole_only_mixed_number() {
    let mixed_number_exp = "2";

    let actual = parse_mixed_number(mixed_number_exp);

    let expected = Fraction::new(2, 1);
    assert_eq!(actual, expected);
}

#[test]
fn parse_as_fraction_with_invalid_expresion() {
    let mixed_number_exp = "2__1/2";

    let actual = parse_mixed_number(mixed_number_exp);

    assert_eq!(actual, Err(CalcError::UnparseableLiteral("2__1/2".to_string())));
    assert_eq!(
        actual.unwrap_err().message(),
        "Unparseable mixed number! <2__1/2>"
    );
}

#[test]
fn parse_literal_with_negative_elements() {
    assert_eq!(
        parse_mixed_number("-1/-2"),
        Ok(Fraction { numerator: 1, denominator: 2 })
    );
}

#[test]
fn parse_literal_with_plus_signs() {
    assert_eq!(parse_mixed_number("+3"), Ok(Fraction { numerator: 3, denominator: 1 }));
    assert_eq!(parse_mixed_number("+1/+2"), Ok(Fraction { numerator: 1, denominator: 2 }));
    assert_eq!(parse_mixed_number("+1_1/2"), Ok(Fraction { numerator: 3, denominator: 2 }));
    assert_eq!(parse_mixed_number("1/-2"), Ok(Fraction { numerator: -1, denominator: 2 }));
}

#[test]
fn parse_literal_rejects_malformed_text() {
    for text in ["", "-", "1/", "/2", "1_/2", "1_2", "1_-1/2", "1_1/-2", "1 /2", " 1", "1.5", "a"] {
        assert_eq!(
            parse_mixed_number(text),
            Err(CalcError::UnparseableLiteral(text.to_string())),
            "literal {:?}",
            text
        );
    }
}

#[test]
fn parse_literal_with_zero_denominator() {
    assert_eq!(parse_mixed_number("3_2/0"), Err(CalcError::DivisionByZero));
    assert_eq!(parse_mixed_number("1/0"), Err(CalcError::DivisionByZero));
}

#[test]
fn parse_literal_out_of_range() {
    assert_eq!(parse_mixed_number("2147483647"), Ok(Fraction { numerator: 2147483647, denominator: 1 }));
    assert_eq!(parse_mixed_number("2147483648"), Err(CalcError::Overflow));
    assert_eq!(parse_mixed_number("-2147483648"), Err(CalcError::Overflow));
    assert_eq!(parse_mixed_number("-2147483648/2"), Ok(Fraction { numerator: -1073741824, denominator: 1 }));
    assert_eq!(parse_mixed_number("99999999999999999999/3"), Err(CalcError::Overflow));
    assert_eq!(parse_mixed_number("0000000000000000000001/2"), Ok(Fraction { numerator: 1, denominator: 2 }));
    assert_eq!(parse_mixed_number("1_0/1"), Ok(Fraction { numerator: 1, denominator: 1 }));
}

#[test]
fn parse_mixed_number_with_negative_zero_whole() {
    // the sign of a zero whole part is lost, as `-0` is not negative
    assert_eq!(parse_mixed_number("-0_1/2"), Ok(Fraction { numerator: 1, denominator: 2 }));
}

#[test]
fn is_fraction_on_other_forms() {
    assert!(Fraction::is_fraction("-1/-2"));
    assert!(Fraction::is_fraction("+1/2"));
    assert!(!Fraction::is_fraction("2_1/2"));
    assert!(!Fraction::is_fraction("1/2/3"));
    assert!(!Fraction::is_fraction(""));
}
