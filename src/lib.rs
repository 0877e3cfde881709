//! Exact calculator over mixed numbers such as `2_3/8`: a normalized
//! fraction type, the textual grammar of literals and two-operand
//! expressions, and the evaluation of one expression line.

pub mod error;
pub mod fraction;
pub mod math;
pub mod mixed_number;
pub mod operation;
pub mod text;

use vstd::prelude::*;
use vstd::string::*;
use crate::error::{message_spec, Fault};
use crate::fraction::{display_spec, Fraction};
use crate::operation::{apply, operation_spec, Operation};
use crate::text::chars_of;

verus! {

/// The value of an expression line.
pub open spec fn evaluation(s: Seq<char>) -> Result<Fraction, Fault> {
    match operation_spec(s) {
        Err(e) => Err(e),
        Ok((x, op, y)) => apply(x, op[0], y),
    }
}

/// The line shown for an expression: `= <result>`, or `Error: <message>`.
pub open spec fn evaluation_text(s: Seq<char>) -> Result<Seq<char>, Seq<char>> {
    match evaluation(s) {
        Ok(f) => Ok("= "@ + display_spec(f.num(), f.den())),
        Err(e) => Err("Error: "@ + message_spec(e)),
    }
}

/// A pair of lines seen through their views.
pub open spec fn text_view(r: Result<String, String>) -> Result<Seq<char>, Seq<char>> {
    match r {
        Ok(t) => Ok(t@),
        Err(t) => Err(t@),
    }
}

/// Evaluates one expression: `Ok` holds the result line, `Err` the error
/// line, which the caller reports as a failed evaluation.
pub fn evaluate_expression(expression: &str) -> (r: Result<String, String>)
    ensures
        text_view(r) == evaluation_text(expression@),
{
    let result = match Operation::parse_operation(expression) {
        Ok(operation) => operation.compute(),
        Err(e) => Err(e),
    };
    match result {
        Ok(fraction) => {
            let mut line = String::from_str("= ");
            line.append(fraction.to_display_string().as_str());
            Ok(line)
        },
        Err(e) => {
            let mut line = String::from_str("Error: ");
            line.append(e.message().as_str());
            Err(line)
        },
    }
}

/// The command-line options: an expression to evaluate once, or none for the
/// interactive mode.
pub struct Config {
    pub expression: Option<String>,
}

/// How a session starts.
pub enum Launch {
    /// One evaluation, already done: its line, and whether it failed.
    Single(Result<String, String>),
    /// The interactive mode: one line evaluated at a time until `q`.
    Repl,
}

/// Runs the single evaluation that the options ask for, or selects the
/// interactive mode.
pub fn run(config: Config) -> (r: Launch)
    ensures
        match config.expression {
            Some(e) => r matches Launch::Single(t) && text_view(t) == evaluation_text(e@),
            None => r is Repl,
        },
{
    match config.expression {
        Some(expression) => Launch::Single(evaluate_expression(expression.as_str())),
        None => Launch::Repl,
    }
}

/// What the interactive mode does with one line.
pub enum ReplStep {
    Quit,
    Show(Result<String, String>),
}

/// The line is exactly `q`, with at most its line terminator after it.
pub open spec fn is_quit(s: Seq<char>) -> bool {
    ||| s == seq!['q']
    ||| s == seq!['q', '\n']
    ||| s == seq!['q', '\r', '\n']
}

/// Ends the session on `q`, and evaluates any other line.
pub fn repl_step(line: &str) -> (r: ReplStep)
    ensures
        is_quit(line@) ==> r is Quit,
        !is_quit(line@) ==> (r matches ReplStep::Show(t) && text_view(t) == evaluation_text(
            line@,
        )),
{
    let v = chars_of(line);
    let n = v.len();
    if n >= 1 && v[0] == 'q' && (n == 1 || (n == 2 && v[1] == '\n') || (n == 3 && v[1] == '\r'
        && v[2] == '\n')) {
        proof {
            if n == 1 {
                assert(v@ =~= seq!['q']);
            } else if n == 2 {
                assert(v@ =~= seq!['q', '\n']);
            } else {
                assert(v@ =~= seq!['q', '\r', '\n']);
            }
        }
        return ReplStep::Quit;
    }
    ReplStep::Show(evaluate_expression(line))
}

} // verus!
