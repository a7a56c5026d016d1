//! Parenthesis tokens.
use vstd::prelude::*;

use crate::parsable_expression::NonConstant;

verus! {

#[derive(Clone, Copy, PartialEq, Eq, Structural, Debug)]
pub enum ParenthesisVariant {
    Left,
    Right,
}

#[derive(Clone, Copy, PartialEq, Eq, Structural, Debug)]
pub struct Parenthesis {
    pub variant: ParenthesisVariant,
}

/// Whether a pending-stack item is a left parenthesis.
pub open spec fn spec_is_left_parenthesis(non_constant: NonConstant) -> bool {
    match non_constant {
        NonConstant::Operator(_) => false,
        NonConstant::Parenthesis(parenthesis) => parenthesis.variant == ParenthesisVariant::Left,
    }
}

impl Parenthesis {
    pub fn is_left_parenthesis(non_constant: &NonConstant) -> (r: bool)
        ensures
            r == spec_is_left_parenthesis(*non_constant),
    {
        match non_constant {
            NonConstant::Operator(_) => false,
            NonConstant::Parenthesis(parenthesis) => match parenthesis.variant {
                ParenthesisVariant::Right => false,
                ParenthesisVariant::Left => true,
            },
        }
    }
}

} // verus!
