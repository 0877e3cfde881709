use mncalc::error::CalcError;
use mncalc::fraction::Fraction;

#[test]
fn is_fraction_with_valid_expression() {
    let fraction_exp = "1/2";

    assert!(Fraction::is_fraction(fraction_exp));
}

#[test]
fn is_fraction_with_invalid_expression() {
    let fraction_exp = "2";

    assert!(!Fraction::is_fraction(fraction_exp));
}

#[test]
fn parse_fraction_with_valid_expresion() {
    let fraction_exp = "1/2";

    let fraction = Fraction::parse_fraction(fraction_exp).unwrap();

    assert_eq!(fraction.numerator, 1);
    assert_eq!(fraction.denominator, 2);
}

#[test]
fn parse_fraction_with_valid_negative_expresion() {
    let fraction_exp = "-1/2";

    let fraction = Fraction::parse_fraction(fraction_exp).unwrap();

    assert_eq!(fraction.numerator, -1);
    assert_eq!(fraction.denominator, 2);
}

#[test]
fn parse_fraction_with_negative_elements() {
    let fraction_exp = "-1/-2";

    let fraction = Fraction::parse_fraction(fraction_exp).unwrap();

    assert_eq!(fraction.numerator, 1);
    assert_eq!(fraction.denominator, 2);
}

#[test]
fn parse_fraction_with_invalid_expresion() {
    let fraction_exp = "2";

    let result = Fraction::parse_fraction(fraction_exp);

    assert_eq!(result, Err(CalcError::UnparseableLiteral("2".to_string())));
}

#[test]
fn add_fractions() {
    let x = Fraction::new(1, 2).unwrap();
    let y = Fraction::new(1, 3).unwrap();

    let actual = x.add(&y).unwrap();

    let expected = Fraction::new(5, 6).unwrap();
    assert_eq!(actual, expected);
}

#[test]
fn substract_fractions() {
    let x = Fraction::new(1, 2).unwrap();
    let y = Fraction::new(1, 3).unwrap();

    let actual = x.substract(&y).unwrap();

    let expected = Fraction::new(1, 6).unwrap();
    assert_eq!(actual, expected);
}

#[test]
fn multiply_fractions() {
    let x = Fraction::new(1, 2).unwrap();
    let y = Fraction::new(1, 3).unwrap();

    let actual = x.multiply(&y).unwrap();

    let expected = Fraction::new(1, 6).unwrap();
    assert_eq!(actual, expected);
}

#[test]
fn divide_fractions() {
    let x = Fraction::new(1, 2).unwrap();
    let y = Fraction::new(1, 3).unwrap();

    let actual = x.divide(&y).unwrap();

    let expected = Fraction::new(3, 2).unwrap();
    assert_eq!(actual, expected);
}

#[test]
fn divide_fractions_by_zero() {
    let x = Fraction::new(1, 2).unwrap();
    let y = Fraction::new(0, 3).unwrap();

    assert_eq!(x.divide(&y), Err(CalcError::DivisionByZero));
}

#[test]
fn new_simplifies_fraction() {
    let actual = Fraction::new(3, 12).unwrap();

    let expected = Fraction::new(1, 4).unwrap();
    assert_eq!(actual, expected);
    assert_eq!(actual, Fraction { numerator: 1, denominator: 4 });
}

#[test]
fn new_with_zero_denominator() {
    assert_eq!(Fraction::new(3, 0), Err(CalcError::DivisionByZero));
}

#[test]
fn display_proper_fraction() {
    let fraction = Fraction::new(1, 2).unwrap();

    let actual = fraction.to_display_string();

    assert_eq!(actual.as_str(), "1/2");
}

#[test]
fn display_improper_fraction_as_mixed_number() {
    let fraction = Fraction::new(5, 2).unwrap();

    let actual = fraction.to_display_string();

    assert_eq!(actual.as_str(), "2_1/2");
}

#[test]
fn display_exact_fraction_as_integer() {
    let fraction = Fraction::new(4, 2).unwrap();

    let actual = fraction.to_display_string();

    assert_eq!(actual.as_str(), "2");
}

#[test]
fn display_zero_fraction() {
    let fraction = Fraction::new(0, 2).unwrap();

    let actual = fraction.to_display_string();

    assert_eq!(actual.as_str(), "0");
}

#[test]
fn display_negative_proper_fraction() {
    let fraction = Fraction::new(-5, 3).unwrap();

    let actual = fraction.to_display_string();

    assert_eq!(actual.as_str(), "-1_2/3");
}
