//! The errors of parsing and computing, and the messages shown for them.

use vstd::prelude::*;
use vstd::string::*;

verus! {

/// Everything that can go wrong while reading or computing an expression.
#[derive(Debug, PartialEq, Eq)]
pub enum CalcError {
    /// A fraction with a zero denominator, or a division by zero.
    DivisionByZero,
    /// A number, or an exact result, outside the range of `i32` (excluding `i32::MIN`).
    Overflow,
    /// A literal that is neither a mixed number, a fraction nor a whole number.
    UnparseableLiteral(String),
    /// An expression that is not `<operand> <operator> <operand>`.
    UnparseableOperation,
}

/// What a `CalcError` says, with the offending text as a sequence of characters.
pub enum Fault {
    DivisionByZero,
    Overflow,
    UnparseableLiteral(Seq<char>),
    UnparseableOperation,
}

impl View for CalcError {
    type V = Fault;

    open spec fn view(&self) -> Fault {
        match self {
            CalcError::DivisionByZero => Fault::DivisionByZero,
            CalcError::Overflow => Fault::Overflow,
            CalcError::UnparseableLiteral(t) => Fault::UnparseableLiteral(t@),
            CalcError::UnparseableOperation => Fault::UnparseableOperation,
        }
    }
}

/// A result whose error is seen through its view.
pub open spec fn outcome<T>(r: Result<T, CalcError>) -> Result<T, Fault> {
    match r {
        Ok(v) => Ok(v),
        Err(e) => Err(e@),
    }
}

/// The message reported for each fault.
pub open spec fn message_spec(f: Fault) -> Seq<char> {
    match f {
        Fault::DivisionByZero => "Fraction with zero denominator!"@,
        Fault::Overflow => "Number out of range!"@,
        Fault::UnparseableLiteral(t) => "Unparseable mixed number! <"@ + t + ">"@,
        Fault::UnparseableOperation => "Unparseable operation!"@,
    }
}

impl CalcError {
    /// The human-readable message of this error.
    pub fn message(&self) -> (r: String)
        ensures
            r@ == message_spec(self@),
    {
        match self {
            CalcError::DivisionByZero => String::from_str("Fraction with zero denominator!"),
            CalcError::Overflow => String::from_str("Number out of range!"),
            CalcError::UnparseableLiteral(t) => {
                let mut s = String::from_str("Unparseable mixed number! <");
                s.append(t.as_str());
                s.append(">");
                s
            },
            CalcError::UnparseableOperation => String::from_str("Unparseable operation!"),
        }
    }
}

} // verus!
