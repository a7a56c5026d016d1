//! The token kinds that flow through the pipeline, and their abstract views.
use vstd::prelude::*;

use crate::constant::Constant;
use crate::operator::{Operator, OperatorKind};
use crate::parenthesis::{Parenthesis, ParenthesisVariant};

verus! {

/// A token of the infix expression.
pub enum InfixItem {
    Constant(Constant),
    Operator(Operator),
    Parenthesis(Parenthesis),
}

/// An item of the converter's pending stack: an operator or a parenthesis.
#[derive(Clone, Copy)]
pub enum NonConstant {
    Operator(Operator),
    Parenthesis(Parenthesis),
}

/// A token of the postfix sequence.  A well-formed sequence holds only
/// constants and operators; a parenthesis here marks a malformed one.
pub enum RpnItem {
    Constant(Constant),
    Operator(Operator),
    Parenthesis(Parenthesis),
}

/// Abstract view of an infix token: the number's text or the operator's
/// symbol, the carried precedence fields forgotten.
pub enum ITok {
    Num(Seq<char>),
    Op(OperatorKind),
    LParen,
    RParen,
}

/// Abstract view of a postfix token.
pub enum RTok {
    Num(Seq<char>),
    Op(OperatorKind),
    Par,
}

pub open spec fn infix_tok(t: InfixItem) -> ITok {
    match t {
        InfixItem::Constant(c) => ITok::Num(c.value@),
        InfixItem::Operator(o) => ITok::Op(o.symbol),
        InfixItem::Parenthesis(p) => if p.variant == ParenthesisVariant::Left {
            ITok::LParen
        } else {
            ITok::RParen
        },
    }
}

pub open spec fn infix_toks(s: Seq<InfixItem>) -> Seq<ITok> {
    s.map_values(|t: InfixItem| infix_tok(t))
}

pub open spec fn rpn_tok(t: RpnItem) -> RTok {
    match t {
        RpnItem::Constant(c) => RTok::Num(c.value@),
        RpnItem::Operator(o) => RTok::Op(o.symbol),
        RpnItem::Parenthesis(_) => RTok::Par,
    }
}

pub open spec fn rpn_toks(s: Seq<RpnItem>) -> Seq<RTok> {
    s.map_values(|t: RpnItem| rpn_tok(t))
}

pub open spec fn infix_wf(t: InfixItem) -> bool {
    match t {
        InfixItem::Constant(c) => c.wf(),
        InfixItem::Operator(o) => o.wf(),
        InfixItem::Parenthesis(_) => true,
    }
}

pub open spec fn infix_seq_wf(s: Seq<InfixItem>) -> bool {
    forall|i: int| 0 <= i < s.len() ==> infix_wf(#[trigger] s[i])
}

pub open spec fn rpn_wf(t: RpnItem) -> bool {
    match t {
        RpnItem::Constant(c) => c.wf(),
        RpnItem::Operator(o) => o.wf(),
        RpnItem::Parenthesis(_) => true,
    }
}

pub open spec fn rpn_seq_wf(s: Seq<RpnItem>) -> bool {
    forall|i: int| 0 <= i < s.len() ==> rpn_wf(#[trigger] s[i])
}

} // verus!
