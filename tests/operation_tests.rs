use mncalc::error::CalcError;
use mncalc::fraction::Fraction;
use mncalc::mixed_number::parse_mixed_number;
use mncalc::operation::Operation;

#[test]
fn parse_operation_with_valid_expression() {
    let valid_expression = "2_1/2 * 3_3/4";

    let operation = Operation::parse_operation(valid_expression).unwrap();

    assert_eq!(operation.left_operand, Fraction::new(5, 2).unwrap());
    assert_eq!(operation.operator.as_str(), "*");
    assert_eq!(operation.right_operand, Fraction::new(15, 4).unwrap());
}

#[test]
fn operation_tests_parse_operation_with_invalid_expression() {
    let valid_expression = "2_1/2 * 2 3_3/4";

    let result = Operation::parse_operation(valid_expression);

    assert!(matches!(result, Err(CalcError::UnparseableOperation)));
}

#[test]
fn parse_operation_with_valid_expressions() {
    let operation_expressions = ["2_1/2 * 3_3/4", "  2_1/2 * 3_3/4  "];

    for operation_expression in &operation_expressions {
        println!("Testing expression {}", operation_expression);
        let operation = Operation::parse_operation(operation_expression).unwrap();

        assert_eq!(operation.left_operand, Fraction { numerator: 5, denominator: 2 });
        assert_eq!(operation.operator.as_str(), "*");
        assert_eq!(operation.right_operand, Fraction { numerator: 15, denominator: 4 });
    }
}

#[test]
fn tests_parse_operation_with_invalid_expression() {
    let operation_expression = "2_1/2 * 2 3_3/4";

    let result = Operation::parse_operation(operation_expression);

    assert!(matches!(result, Err(CalcError::UnparseableOperation)));
    assert_eq!(CalcError::UnparseableOperation.message(), "Unparseable operation!");
}

fn test_compute_operations(context: &str, operation_test_cases: &[(&str, &str)]) {
    for (operation_expression, result_expression) in operation_test_cases {
        println!("{} expression {}", context, operation_expression);
        let operation = Operation::parse_operation(operation_expression).unwrap();

        let actual_result = operation.compute();

        let expected_result = parse_mixed_number(result_expression);
        assert_eq!(actual_result, expected_result);
    }
}

#[test]
fn compute_addition() {
    let addition_test_cases = [("2_3/8 + 3_1/5", "5_23/40")];

    test_compute_operations("Addition", &addition_test_cases);
}

#[test]
fn compute_substraction() {
    let addition_test_cases = [("2_3/8 - 3_1/5", "-33/40")];

    test_compute_operations("Substraction", &addition_test_cases);
}

#[test]
fn compute_multiplication() {
    let addition_test_cases = [("2_3/8 * 3_1/5", "7_3/5")];

    test_compute_operations("Multiplication", &addition_test_cases);
}

#[test]
fn compute_division() {
    let addition_test_cases = [("2_3/8 / 3_1/5", "95/128")];

    test_compute_operations("Division", &addition_test_cases);
}

#[test]
fn compute_division_by_negative_operand() {
    let operation = Operation::parse_operation("1/2 / -1/3").unwrap();

    assert_eq!(operation.compute(), Ok(Fraction { numerator: -3, denominator: 2 }));
}

#[test]
fn compute_division_by_zero_operand() {
    let operation = Operation::parse_operation("1/2 / 0").unwrap();

    assert_eq!(operation.compute(), Err(CalcError::DivisionByZero));
}

#[test]
fn parse_operation_with_other_blanks() {
    let operation = Operation::parse_operation("\t1/2\t-  \u{a0}3\n").unwrap();

    assert_eq!(operation.left_operand, Fraction { numerator: 1, denominator: 2 });
    assert_eq!(operation.operator.as_str(), "-");
    assert_eq!(operation.right_operand, Fraction { numerator: 3, denominator: 1 });
}

#[test]
fn parse_operation_rejects_other_shapes() {
    for text in ["", "1/2", "1/2 +", "1/2+3", "1/2 +3", "1/2 % 3", "1 / 2 - 3_3/4", "1/2 ++ 3"] {
        assert!(
            matches!(Operation::parse_operation(text), Err(CalcError::UnparseableOperation)),
            "expression {:?}",
            text
        );
    }
}

#[test]
fn parse_operation_reports_the_left_literal_first() {
    let result = Operation::parse_operation("x + y");

    assert_eq!(result.err(), Some(CalcError::UnparseableLiteral("x".to_string())));
}

#[test]
fn compute_overflow() {
    let operation = Operation::parse_operation("2147483647 + 1").unwrap();

    assert_eq!(operation.compute(), Err(CalcError::Overflow));
    assert_eq!(CalcError::Overflow.message(), "Number out of range!");
}

#[test]
fn compute_exact_beyond_the_native_width_of_intermediates() {
    let operation = Operation::parse_operation("3/65536 + 5/65536").unwrap();

    assert_eq!(operation.compute(), Ok(Fraction { numerator: 1, denominator: 8192 }));
}
