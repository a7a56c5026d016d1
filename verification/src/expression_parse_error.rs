//! The error an expression can fail to parse with.
use vstd::prelude::*;

verus! {

/// Parsing failed: the expression's parentheses are unbalanced.
#[derive(Clone, Copy, PartialEq, Eq, Structural, Debug)]
pub struct ExpressionParseError {}

} // verus!
