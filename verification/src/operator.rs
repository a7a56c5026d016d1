//! Operators and their precedence table.
use vstd::prelude::*;

use crate::parsable_expression::NonConstant;

verus! {

/// The operator symbols the calculator knows, with the unary readings of
/// `+` and `-` as kinds of their own.
#[derive(Clone, Copy, PartialEq, Eq, Structural, Debug)]
pub enum OperatorKind {
    Add,
    Subtract,
    Multiply,
    Divide,
    Power,
    UnaryPlus,
    UnaryNegate,
}

/// Binding strength: `+`/`-` bind weakest, `*`/`/` tighter, `^` and the
/// unary operators tightest.
pub open spec fn kind_precedence(k: OperatorKind) -> u8 {
    match k {
        OperatorKind::Add => 2,
        OperatorKind::Subtract => 2,
        OperatorKind::Multiply => 3,
        OperatorKind::Divide => 3,
        OperatorKind::Power => 5,
        OperatorKind::UnaryPlus => 5,
        OperatorKind::UnaryNegate => 5,
    }
}

/// The four binary arithmetic operators associate to the left; `^` and the
/// unary operators to the right.
pub open spec fn kind_left_associative(k: OperatorKind) -> bool {
    match k {
        OperatorKind::Add => true,
        OperatorKind::Subtract => true,
        OperatorKind::Multiply => true,
        OperatorKind::Divide => true,
        OperatorKind::Power => false,
        OperatorKind::UnaryPlus => false,
        OperatorKind::UnaryNegate => false,
    }
}

/// The unary reading of a symbol: `+` and `-` turn into their unary forms,
/// every other symbol is unchanged.
pub open spec fn unary_kind(k: OperatorKind) -> OperatorKind {
    match k {
        OperatorKind::Add => OperatorKind::UnaryPlus,
        OperatorKind::Subtract => OperatorKind::UnaryNegate,
        _ => k,
    }
}

/// An operator token: its symbol together with the precedence and
/// associativity the converter consults.
#[derive(Clone, Copy, PartialEq, Eq, Structural, Debug)]
pub struct Operator {
    pub symbol: OperatorKind,
    pub precedence: u8,
    pub is_left_associative: bool,
}

/// What `make_unary` does: `+`/`-` become their unary forms with the
/// tightest precedence, right-associative; other operators are unchanged.
pub open spec fn spec_make_unary(o: Operator) -> Operator {
    match o.symbol {
        OperatorKind::Add => Operator {
            symbol: OperatorKind::UnaryPlus,
            precedence: 5,
            is_left_associative: false,
        },
        OperatorKind::Subtract => Operator {
            symbol: OperatorKind::UnaryNegate,
            precedence: 5,
            is_left_associative: false,
        },
        _ => o,
    }
}

/// Precedence of the pending stack's top: an operator's own precedence, a
/// parenthesis or an empty stack counting as zero.
pub open spec fn top_stack_precedence(stack: Seq<NonConstant>) -> u8 {
    if stack.len() == 0 {
        0
    } else {
        match stack.last() {
            NonConstant::Operator(o) => o.precedence,
            NonConstant::Parenthesis(_) => 0,
        }
    }
}

impl Operator {
    /// The fields agree with the precedence table.
    pub open spec fn wf(&self) -> bool {
        self.precedence == kind_precedence(self.symbol) && self.is_left_associative
            == kind_left_associative(self.symbol)
    }

    /// The operator for a symbol, with its table precedence and associativity.
    pub fn from_symbol(symbol: OperatorKind) -> (r: Operator)
        ensures
            r.symbol == symbol,
            r.wf(),
    {
        match symbol {
            OperatorKind::Add => Operator { symbol, precedence: 2, is_left_associative: true },
            OperatorKind::Subtract => Operator { symbol, precedence: 2, is_left_associative: true },
            OperatorKind::Multiply => Operator { symbol, precedence: 3, is_left_associative: true },
            OperatorKind::Divide => Operator { symbol, precedence: 3, is_left_associative: true },
            OperatorKind::Power => Operator { symbol, precedence: 5, is_left_associative: false },
            OperatorKind::UnaryPlus => Operator {
                symbol,
                precedence: 5,
                is_left_associative: false,
            },
            OperatorKind::UnaryNegate => Operator {
                symbol,
                precedence: 5,
                is_left_associative: false,
            },
        }
    }

    /// Rewrites a `+` or `-` read in a unary position into its unary form.
    pub fn make_unary(&mut self)
        ensures
            *final(self) == spec_make_unary(*old(self)),
    {
        match self.symbol {
            OperatorKind::Add => {
                self.symbol = OperatorKind::UnaryPlus;
                self.precedence = 5;
                self.is_left_associative = false;
            },
            OperatorKind::Subtract => {
                self.symbol = OperatorKind::UnaryNegate;
                self.precedence = 5;
                self.is_left_associative = false;
            },
            _ => {},
        }
    }

    /// Precedence of the pending stack's top item, zero for an empty stack
    /// or a parenthesis.
    pub fn get_top_stack_precedence(non_constant_stack: &mut Vec<NonConstant>) -> (r: u8)
        ensures
            *final(non_constant_stack) == *old(non_constant_stack),
            r == top_stack_precedence(old(non_constant_stack)@),
    {
        match non_constant_stack.last() {
            Some(top_stack) => match top_stack {
                NonConstant::Operator(operator) => operator.precedence,
                NonConstant::Parenthesis(_) => 0,
            },
            None => 0,
        }
    }
}

} // verus!
