use mncalc::{evaluate_expression, repl_step, run, Config, Launch, ReplStep};

fn single(expression: &str) -> Result<String, String> {
    match run(Config { expression: Some(expression.to_string()) }) {
        Launch::Single(line) => line,
        Launch::Repl => panic!("expected a single evaluation"),
    }
}

#[test]
fn run_with_short_eval_arg() {
    assert_eq!(single("1/2 * 3_3/4"), Ok("= 1_7/8".to_string()));
}

#[test]
fn run_with_long_eval_arg() {
    assert_eq!(single("2_3/8 + 9/8"), Ok("= 3_1/2".to_string()));
}

#[test]
fn run_with_unparseable_expression_prints_error() {
    assert_eq!(single("1 / 2 - 3_3/4"), Err("Error: Unparseable operation!".to_string()));
}

#[test]
fn run_with_fraction_with_zero_denominator_prints_error() {
    assert_eq!(
        single("1/0 / 3_3/4"),
        Err("Error: Fraction with zero denominator!".to_string())
    );
}

#[test]
fn run_with_no_args_start_repl_mode() {
    assert!(matches!(run(Config { expression: None }), Launch::Repl));

    let mut shown = Vec::new();
    for line in ["1/2 * 3_3/4\n", "2_3/8 + 9/8\n", "q"] {
        match repl_step(line) {
            ReplStep::Quit => break,
            ReplStep::Show(result) => shown.push(result),
        }
    }

    assert_eq!(shown, vec![Ok("= 1_7/8".to_string()), Ok("= 3_1/2".to_string())]);
}

#[test]
fn run_repl_mode_with_errors() {
    let mut shown = Vec::new();
    for line in ["5/2\n", "1/2 * 3_3/4\n", "2_1/2 + 3_2/0\n", "2_3/8 + 9/8\n", "q\n", "1 + 1\n"] {
        match repl_step(line) {
            ReplStep::Quit => break,
            ReplStep::Show(result) => shown.push(result),
        }
    }

    assert_eq!(
        shown,
        vec![
            Err("Error: Unparseable operation!".to_string()),
            Ok("= 1_7/8".to_string()),
            Err("Error: Fraction with zero denominator!".to_string()),
            Ok("= 3_1/2".to_string()),
        ]
    );
}

#[test]
fn repl_quits_only_on_q() {
    assert!(matches!(repl_step("q"), ReplStep::Quit));
    assert!(matches!(repl_step("q\n"), ReplStep::Quit));
    assert!(matches!(repl_step("q\r\n"), ReplStep::Quit));
    assert_eq!(
        match repl_step(" q") {
            ReplStep::Show(line) => line,
            ReplStep::Quit => panic!("a line other than q must be evaluated"),
        },
        Err("Error: Unparseable operation!".to_string())
    );
    assert!(matches!(repl_step("  q \n"), ReplStep::Show(_)));
    assert!(matches!(repl_step("q \n"), ReplStep::Show(_)));
    assert!(matches!(repl_step("qq"), ReplStep::Show(_)));
    assert!(matches!(repl_step("Q"), ReplStep::Show(_)));
}

#[test]
fn evaluate_expression_scenarios() {
    assert_eq!(evaluate_expression("2_3/8 + 9/8"), Ok("= 3_1/2".to_string()));
    assert_eq!(evaluate_expression("2_3/8 - 3_1/5"), Ok("= -33/40".to_string()));
    assert_eq!(evaluate_expression("-5/3 * 1"), Ok("= -1_2/3".to_string()));
    assert_eq!(evaluate_expression("1/2 - 1/2"), Ok("= 0".to_string()));
    assert_eq!(evaluate_expression("4/2 * 1"), Ok("= 2".to_string()));
    assert_eq!(evaluate_expression("1/2 / 0"), Err("Error: Fraction with zero denominator!".to_string()));
    assert_eq!(
        evaluate_expression("2__1/2 + 1"),
        Err("Error: Unparseable mixed number! <2__1/2>".to_string())
    );
    assert_eq!(evaluate_expression("2147483647 * 2"), Err("Error: Number out of range!".to_string()));
}
