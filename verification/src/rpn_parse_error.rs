//! The errors postfix evaluation can fail with.
use vstd::prelude::*;

verus! {

#[derive(Clone, Copy, PartialEq, Eq, Structural, Debug)]
pub enum RpnParseError {
    /// An operator found fewer operands on the value stack than it needs.
    EmptyValueStack,
    /// A parenthesis token appeared in a postfix sequence.
    UnexpectedParenthesis,
    /// A division's right operand evaluated to exactly zero.
    DivisionByZero,
    /// `^` is recognized but its evaluation is not implemented.
    UnsupportedOperation,
    /// The sequence left no value on the stack.
    EmptyResult,
    /// The sequence left more than one value on the stack.
    LeftoverValues,
}

impl RpnParseError {
    /// A human-readable cause.
    pub fn message(&self) -> (r: &'static str)
        ensures
            *self == RpnParseError::EmptyValueStack ==> r@ == "Empty value stack"@,
            *self == RpnParseError::UnexpectedParenthesis ==> r@ == "Unexpected parenthesis"@,
            *self == RpnParseError::DivisionByZero ==> r@ == "Division by zero"@,
            *self == RpnParseError::UnsupportedOperation ==> r@ == "Unsupported operation"@,
            *self == RpnParseError::EmptyResult ==> r@ == "Empty result"@,
            *self == RpnParseError::LeftoverValues ==> r@ == "Leftover values"@,
    {
        match self {
            RpnParseError::EmptyValueStack => "Empty value stack",
            RpnParseError::UnexpectedParenthesis => "Unexpected parenthesis",
            RpnParseError::DivisionByZero => "Division by zero",
            RpnParseError::UnsupportedOperation => "Unsupported operation",
            RpnParseError::EmptyResult => "Empty result",
            RpnParseError::LeftoverValues => "Leftover values",
        }
    }
}

} // verus!
