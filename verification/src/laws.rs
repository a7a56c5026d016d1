//! Properties of the conversion and evaluation, proved once and for all:
//! parenthesis balance decides parseability, and the precedence,
//! associativity and unary rules shape the postfix order.
use vstd::prelude::*;

use crate::decimal::dec_rat;
use crate::expression_parse_error::ExpressionParseError;
use crate::expression_parser::{
    classify, classify_at, close_paren, convert_spec, drain_pending, parse_spec, pop_ge,
    ptok_precedence, shunt_from, tokenize_spec, PTok,
};
use crate::operator::{kind_precedence, OperatorKind};
use crate::parsable_expression::{ITok, RTok};
use crate::rational::{rat_add, rat_mul, Rat};
use crate::rpn_parse_error::RpnParseError;
use crate::rpn_parser::{eval_from, eval_spec, eval_step};

verus! {

/// The parentheses among the tokens from position `i` on close a prefix
/// depth of `depth` exactly.
pub open spec fn balance_from(toks: Seq<ITok>, i: int, depth: int) -> bool
    decreases toks.len() - i,
{
    if i < 0 || i >= toks.len() {
        depth == 0
    } else {
        match toks[i] {
            ITok::LParen => balance_from(toks, i + 1, depth + 1),
            ITok::RParen => depth > 0 && balance_from(toks, i + 1, depth - 1),
            _ => balance_from(toks, i + 1, depth),
        }
    }
}

/// The parentheses among the tokens are balanced.
pub open spec fn parens_balanced(toks: Seq<ITok>) -> bool {
    balance_from(toks, 0, 0)
}

spec fn lparen_count(pend: Seq<PTok>) -> int
    decreases pend.len(),
{
    if pend.len() == 0 {
        0
    } else {
        (if pend.last() is LParen {
            1int
        } else {
            0int
        }) + lparen_count(pend.drop_last())
    }
}

proof fn lemma_lparen_count_nonneg(pend: Seq<PTok>)
    ensures
        lparen_count(pend) >= 0,
    decreases pend.len(),
{
    if pend.len() > 0 {
        lemma_lparen_count_nonneg(pend.drop_last());
    }
}

proof fn lemma_pop_ge_count(pend: Seq<PTok>, out: Seq<RTok>, k: OperatorKind)
    requires
        kind_precedence(k) >= 1,
    ensures
        lparen_count(pop_ge(pend, out, k).0) == lparen_count(pend),
    decreases pend.len(),
{
    if pend.len() > 0 {
        let top = ptok_precedence(pend.last());
        if (crate::operator::kind_left_associative(k) && kind_precedence(k) <= top)
            || kind_precedence(k) < top {
            match pend.last() {
                PTok::Op(_) => {
                    lemma_pop_ge_count(pend.drop_last(), out.push(RTok::Op(pend.last()->Op_0)), k);
                },
                PTok::LParen => {},
            }
        }
    }
}

proof fn lemma_close_paren_count(pend: Seq<PTok>, out: Seq<RTok>)
    ensures
        lparen_count(pend) == 0 ==> close_paren(pend, out) is Err,
        lparen_count(pend) > 0 ==> close_paren(pend, out) is Ok && lparen_count(
            close_paren(pend, out)->Ok_0.0,
        ) == lparen_count(pend) - 1,
    decreases pend.len(),
{
    if pend.len() > 0 {
        lemma_lparen_count_nonneg(pend.drop_last());
        match pend.last() {
            PTok::LParen => {},
            PTok::Op(k2) => {
                lemma_close_paren_count(pend.drop_last(), out.push(RTok::Op(k2)));
            },
        }
    }
}

proof fn lemma_drain_count(pend: Seq<PTok>, out: Seq<RTok>)
    ensures
        drain_pending(pend, out) is Ok <==> lparen_count(pend) == 0,
    decreases pend.len(),
{
    if pend.len() > 0 {
        lemma_lparen_count_nonneg(pend.drop_last());
        match pend.last() {
            PTok::LParen => {},
            PTok::Op(k2) => {
                lemma_drain_count(pend.drop_last(), out.push(RTok::Op(k2)));
            },
        }
    }
}

proof fn lemma_shunt_balance(toks: Seq<ITok>, i: int, pend: Seq<PTok>, out: Seq<RTok>)
    requires
        0 <= i <= toks.len(),
    ensures
        shunt_from(toks, i, pend, out) is Ok <==> balance_from(toks, i, lparen_count(pend)),
    decreases toks.len() - i,
{
    if i >= toks.len() {
        lemma_drain_count(pend, out);
    } else {
        match toks[i] {
            ITok::Num(t) => {
                lemma_shunt_balance(toks, i + 1, pend, out.push(RTok::Num(t)));
            },
            ITok::LParen => {
                assert(pend.push(PTok::LParen).drop_last() =~= pend);
                assert(lparen_count(pend.push(PTok::LParen)) == lparen_count(pend) + 1);
                lemma_shunt_balance(toks, i + 1, pend.push(PTok::LParen), out);
            },
            ITok::RParen => {
                lemma_lparen_count_nonneg(pend);
                lemma_close_paren_count(pend, out);
                if lparen_count(pend) > 0 {
                    let po = close_paren(pend, out)->Ok_0;
                    lemma_shunt_balance(toks, i + 1, po.0, po.1);
                }
            },
            ITok::Op(k) => {
                assert(kind_precedence(k) >= 1);
                lemma_pop_ge_count(pend, out, k);
                let po = pop_ge(pend, out, k);
                assert(po.0.push(PTok::Op(k)).drop_last() =~= po.0);
                assert(lparen_count(po.0.push(PTok::Op(k))) == lparen_count(po.0));
                lemma_shunt_balance(toks, i + 1, po.0.push(PTok::Op(k)), po.1);
            },
        }
    }
}

proof fn lemma_classify_balance(toks: Seq<ITok>, i: int, depth: int)
    requires
        0 <= i,
    ensures
        balance_from(classify(toks), i, depth) == balance_from(toks, i, depth),
    decreases toks.len() - i,
{
    if i < toks.len() {
        assert(classify(toks)[i] == classify_at(toks, i));
        match toks[i] {
            ITok::LParen => {
                lemma_classify_balance(toks, i + 1, depth + 1);
            },
            ITok::RParen => {
                lemma_classify_balance(toks, i + 1, depth - 1);
            },
            _ => {
                lemma_classify_balance(toks, i + 1, depth);
            },
        }
    }
}

/// Unbalanced parentheses never pass silently: the conversion of a token
/// sequence succeeds exactly when its parentheses are balanced, so an extra
/// `(` or `)` always yields the parse error.
pub proof fn lemma_convert_balanced(toks: Seq<ITok>)
    ensures
        convert_spec(toks) is Ok <==> parens_balanced(toks),
{
    lemma_shunt_balance(classify(toks), 0, Seq::empty(), Seq::empty());
    lemma_classify_balance(toks, 0, 0);
}

/// The same at the expression level: a text parses exactly when its token
/// sequence is balanced.
pub proof fn lemma_parse_balanced(s: Seq<char>)
    ensures
        parse_spec(s) is Ok <==> parens_balanced(tokenize_spec(s)),
{
    lemma_convert_balanced(tokenize_spec(s));
}

/// No parenthesis token is left in a postfix sequence.
pub open spec fn no_paren(out: Seq<RTok>) -> bool {
    forall|i: int| 0 <= i < out.len() ==> !((#[trigger] out[i]) is Par)
}

proof fn lemma_push_op_no_paren(out: Seq<RTok>, k: OperatorKind)
    requires
        no_paren(out),
    ensures
        no_paren(out.push(RTok::Op(k))),
{
    assert forall|i: int| 0 <= i < out.push(RTok::Op(k)).len() implies !((#[trigger] out.push(
        RTok::Op(k),
    )[i]) is Par) by {
        if i < out.len() {
            assert(!(out[i] is Par));
        }
    }
}

proof fn lemma_pop_ge_no_paren(pend: Seq<PTok>, out: Seq<RTok>, k: OperatorKind)
    requires
        no_paren(out),
    ensures
        no_paren(pop_ge(pend, out, k).1),
    decreases pend.len(),
{
    if pend.len() > 0 {
        let top = ptok_precedence(pend.last());
        if (crate::operator::kind_left_associative(k) && kind_precedence(k) <= top)
            || kind_precedence(k) < top {
            match pend.last() {
                PTok::Op(k2) => {
                    lemma_push_op_no_paren(out, k2);
                    lemma_pop_ge_no_paren(pend.drop_last(), out.push(RTok::Op(k2)), k);
                },
                PTok::LParen => {},
            }
        }
    }
}

proof fn lemma_close_paren_no_paren(pend: Seq<PTok>, out: Seq<RTok>)
    requires
        no_paren(out),
    ensures
        close_paren(pend, out) is Ok ==> no_paren(close_paren(pend, out)->Ok_0.1),
    decreases pend.len(),
{
    if pend.len() > 0 {
        match pend.last() {
            PTok::LParen => {},
            PTok::Op(k2) => {
                lemma_push_op_no_paren(out, k2);
                lemma_close_paren_no_paren(pend.drop_last(), out.push(RTok::Op(k2)));
            },
        }
    }
}

proof fn lemma_drain_no_paren(pend: Seq<PTok>, out: Seq<RTok>)
    requires
        no_paren(out),
    ensures
        drain_pending(pend, out) is Ok ==> no_paren(drain_pending(pend, out)->Ok_0),
    decreases pend.len(),
{
    if pend.len() > 0 {
        match pend.last() {
            PTok::LParen => {},
            PTok::Op(k2) => {
                lemma_push_op_no_paren(out, k2);
                lemma_drain_no_paren(pend.drop_last(), out.push(RTok::Op(k2)));
            },
        }
    }
}

proof fn lemma_shunt_no_paren(toks: Seq<ITok>, i: int, pend: Seq<PTok>, out: Seq<RTok>)
    requires
        0 <= i <= toks.len(),
        no_paren(out),
    ensures
        shunt_from(toks, i, pend, out) is Ok ==> no_paren(shunt_from(toks, i, pend, out)->Ok_0),
    decreases toks.len() - i,
{
    if i >= toks.len() {
        lemma_drain_no_paren(pend, out);
    } else {
        match toks[i] {
            ITok::Num(t) => {
                assert forall|j: int| 0 <= j < out.push(RTok::Num(t)).len() implies !((
                #[trigger] out.push(RTok::Num(t))[j]) is Par) by {
                    if j < out.len() {
                        assert(!(out[j] is Par));
                    }
                }
                lemma_shunt_no_paren(toks, i + 1, pend, out.push(RTok::Num(t)));
            },
            ITok::LParen => {
                lemma_shunt_no_paren(toks, i + 1, pend.push(PTok::LParen), out);
            },
            ITok::RParen => {
                lemma_close_paren_no_paren(pend, out);
                if close_paren(pend, out) is Ok {
                    let po = close_paren(pend, out)->Ok_0;
                    lemma_shunt_no_paren(toks, i + 1, po.0, po.1);
                }
            },
            ITok::Op(k) => {
                lemma_pop_ge_no_paren(pend, out, k);
                let po = pop_ge(pend, out, k);
                lemma_shunt_no_paren(toks, i + 1, po.0.push(PTok::Op(k)), po.1);
            },
        }
    }
}

/// A postfix sequence the converter yields holds only number and operator
/// tokens: no parenthesis may legally remain.
pub proof fn lemma_convert_only_numbers_and_operators(toks: Seq<ITok>)
    ensures
        convert_spec(toks) is Ok ==> no_paren(convert_spec(toks)->Ok_0),
{
    lemma_shunt_no_paren(classify(toks), 0, Seq::empty(), Seq::empty());
}

/// `*` binds tighter than `+`: for any numbers, `a + b * c` converts with
/// the multiplication first, and its postfix order evaluates to
/// `a + (b * c)`, not `(a + b) * c`.
pub proof fn lemma_multiplication_binds_tighter(a: Seq<char>, b: Seq<char>, c: Seq<char>)
    ensures
        ({
            let toks = seq![
                ITok::Num(a),
                ITok::Op(OperatorKind::Add),
                ITok::Num(b),
                ITok::Op(OperatorKind::Multiply),
                ITok::Num(c),
            ];
            let out = seq![
                RTok::Num(a),
                RTok::Num(b),
                RTok::Num(c),
                RTok::Op(OperatorKind::Multiply),
                RTok::Op(OperatorKind::Add),
            ];
            convert_spec(toks) == Ok::<Seq<RTok>, ExpressionParseError>(out) && eval_spec(out)
                == Ok::<Rat, RpnParseError>(rat_add(dec_rat(a), rat_mul(dec_rat(b), dec_rat(c))))
        }),
{
    let toks = seq![
        ITok::Num(a),
        ITok::Op(OperatorKind::Add),
        ITok::Num(b),
        ITok::Op(OperatorKind::Multiply),
        ITok::Num(c),
    ];
    let out = seq![
        RTok::Num(a),
        RTok::Num(b),
        RTok::Num(c),
        RTok::Op(OperatorKind::Multiply),
        RTok::Op(OperatorKind::Add),
    ];
    let ct = classify(toks);
    assert(ct =~= toks);
    let e = Seq::<PTok>::empty();
    let o0 = Seq::<RTok>::empty();
    let o1 = o0.push(RTok::Num(a));
    let p1 = e.push(PTok::Op(OperatorKind::Add));
    let o2 = o1.push(RTok::Num(b));
    let p2 = p1.push(PTok::Op(OperatorKind::Multiply));
    let o3 = o2.push(RTok::Num(c));
    assert(shunt_from(ct, 0, e, o0) == shunt_from(ct, 1, e, o1));
    assert(pop_ge(e, o1, OperatorKind::Add) == (e, o1));
    assert(shunt_from(ct, 1, e, o1) == shunt_from(ct, 2, p1, o1));
    assert(shunt_from(ct, 2, p1, o1) == shunt_from(ct, 3, p1, o2));
    assert(pop_ge(p1, o2, OperatorKind::Multiply) == (p1, o2));
    assert(shunt_from(ct, 3, p1, o2) == shunt_from(ct, 4, p2, o2));
    assert(shunt_from(ct, 4, p2, o2) == shunt_from(ct, 5, p2, o3));
    let o4 = o3.push(RTok::Op(OperatorKind::Multiply));
    let o5 = o4.push(RTok::Op(OperatorKind::Add));
    assert(p2.drop_last() =~= p1);
    assert(p1.drop_last() =~= e);
    assert(drain_pending(p2, o3) == drain_pending(p1, o4));
    assert(drain_pending(p1, o4) == drain_pending(e, o5));
    assert(drain_pending(e, o5) == Ok::<Seq<RTok>, ExpressionParseError>(o5));
    assert(shunt_from(ct, 5, p2, o3) == drain_pending(p2, o3));
    assert(o5 =~= out);
    assert(convert_spec(toks) == Ok::<Seq<RTok>, ExpressionParseError>(out));

    let s0 = Seq::<Rat>::empty();
    let s1 = s0.push(dec_rat(a));
    let s2 = s1.push(dec_rat(b));
    let s3 = s2.push(dec_rat(c));
    let s4 = s3.drop_last().drop_last().push(rat_mul(dec_rat(b), dec_rat(c)));
    let s5 = s4.drop_last().drop_last().push(
        rat_add(dec_rat(a), rat_mul(dec_rat(b), dec_rat(c))),
    );
    assert(eval_from(out, 0, s0) == eval_from(out, 1, s1));
    assert(eval_from(out, 1, s1) == eval_from(out, 2, s2));
    assert(eval_from(out, 2, s2) == eval_from(out, 3, s3));
    assert(s3[1] == dec_rat(b) && s3.last() == dec_rat(c));
    assert(eval_step(out[3], s3) == Ok::<Seq<Rat>, RpnParseError>(s4));
    assert(eval_from(out, 3, s3) == eval_from(out, 4, s4));
    assert(s4 =~= s1.push(rat_mul(dec_rat(b), dec_rat(c))));
    assert(s4[0] == dec_rat(a) && s4.last() == rat_mul(dec_rat(b), dec_rat(c)));
    assert(eval_step(out[4], s4) == Ok::<Seq<Rat>, RpnParseError>(s5));
    assert(eval_from(out, 4, s4) == eval_from(out, 5, s5));
    assert(eval_from(out, 5, s5) == Ok::<Seq<Rat>, RpnParseError>(s5));
    assert(s5.len() == 1);
    assert(s5[0] == rat_add(dec_rat(a), rat_mul(dec_rat(b), dec_rat(c))));
}

/// `^` is right-associative in the converter: `a ^ b ^ c` converts as
/// `a b c ^ ^`, not `a b ^ c ^`, even though evaluating `^` is
/// unimplemented and the postfix order then raises the unsupported error.
pub proof fn lemma_power_right_associative(a: Seq<char>, b: Seq<char>, c: Seq<char>)
    ensures
        ({
            let toks = seq![
                ITok::Num(a),
                ITok::Op(OperatorKind::Power),
                ITok::Num(b),
                ITok::Op(OperatorKind::Power),
                ITok::Num(c),
            ];
            let out = seq![
                RTok::Num(a),
                RTok::Num(b),
                RTok::Num(c),
                RTok::Op(OperatorKind::Power),
                RTok::Op(OperatorKind::Power),
            ];
            convert_spec(toks) == Ok::<Seq<RTok>, ExpressionParseError>(out) && eval_spec(out)
                == Err::<Rat, RpnParseError>(RpnParseError::UnsupportedOperation)
        }),
{
    let toks = seq![
        ITok::Num(a),
        ITok::Op(OperatorKind::Power),
        ITok::Num(b),
        ITok::Op(OperatorKind::Power),
        ITok::Num(c),
    ];
    let out = seq![
        RTok::Num(a),
        RTok::Num(b),
        RTok::Num(c),
        RTok::Op(OperatorKind::Power),
        RTok::Op(OperatorKind::Power),
    ];
    let ct = classify(toks);
    assert(ct =~= toks);
    let e = Seq::<PTok>::empty();
    let o0 = Seq::<RTok>::empty();
    let o1 = o0.push(RTok::Num(a));
    let p1 = e.push(PTok::Op(OperatorKind::Power));
    let o2 = o1.push(RTok::Num(b));
    let p2 = p1.push(PTok::Op(OperatorKind::Power));
    let o3 = o2.push(RTok::Num(c));
    assert(shunt_from(ct, 0, e, o0) == shunt_from(ct, 1, e, o1));
    assert(pop_ge(e, o1, OperatorKind::Power) == (e, o1));
    assert(shunt_from(ct, 1, e, o1) == shunt_from(ct, 2, p1, o1));
    assert(shunt_from(ct, 2, p1, o1) == shunt_from(ct, 3, p1, o2));
    assert(pop_ge(p1, o2, OperatorKind::Power) == (p1, o2));
    assert(shunt_from(ct, 3, p1, o2) == shunt_from(ct, 4, p2, o2));
    assert(shunt_from(ct, 4, p2, o2) == shunt_from(ct, 5, p2, o3));
    let o4 = o3.push(RTok::Op(OperatorKind::Power));
    let o5 = o4.push(RTok::Op(OperatorKind::Power));
    assert(p2.drop_last() =~= p1);
    assert(p1.drop_last() =~= e);
    assert(drain_pending(p2, o3) == drain_pending(p1, o4));
    assert(drain_pending(p1, o4) == drain_pending(e, o5));
    assert(shunt_from(ct, 5, p2, o3) == drain_pending(p2, o3));
    assert(o5 =~= out);
    assert(convert_spec(toks) == Ok::<Seq<RTok>, ExpressionParseError>(out));

    let s0 = Seq::<Rat>::empty();
    let s1 = s0.push(dec_rat(a));
    let s2 = s1.push(dec_rat(b));
    let s3 = s2.push(dec_rat(c));
    assert(eval_from(out, 0, s0) == eval_from(out, 1, s1));
    assert(eval_from(out, 1, s1) == eval_from(out, 2, s2));
    assert(eval_from(out, 2, s2) == eval_from(out, 3, s3));
    assert(eval_step(out[3], s3) == Err::<Seq<Rat>, RpnParseError>(
        RpnParseError::UnsupportedOperation,
    ));
    assert(eval_from(out, 3, s3) == Err::<Seq<Rat>, RpnParseError>(
        RpnParseError::UnsupportedOperation,
    ));
}

/// A leading `-` is read as the unary negation, which binds with the
/// tightest precedence: `- a ^ b` converts as `a b ^ n`, the negation
/// applied around the whole exponentiation.
pub proof fn lemma_unary_minus_before_power(a: Seq<char>, b: Seq<char>)
    ensures
        ({
            let toks = seq![
                ITok::Op(OperatorKind::Subtract),
                ITok::Num(a),
                ITok::Op(OperatorKind::Power),
                ITok::Num(b),
            ];
            let out = seq![
                RTok::Num(a),
                RTok::Num(b),
                RTok::Op(OperatorKind::Power),
                RTok::Op(OperatorKind::UnaryNegate),
            ];
            convert_spec(toks) == Ok::<Seq<RTok>, ExpressionParseError>(out)
        }),
{
    let toks = seq![
        ITok::Op(OperatorKind::Subtract),
        ITok::Num(a),
        ITok::Op(OperatorKind::Power),
        ITok::Num(b),
    ];
    let out = seq![
        RTok::Num(a),
        RTok::Num(b),
        RTok::Op(OperatorKind::Power),
        RTok::Op(OperatorKind::UnaryNegate),
    ];
    let ct = classify(toks);
    assert(ct =~= seq![
        ITok::Op(OperatorKind::UnaryNegate),
        ITok::Num(a),
        ITok::Op(OperatorKind::Power),
        ITok::Num(b),
    ]);
    let e = Seq::<PTok>::empty();
    let o0 = Seq::<RTok>::empty();
    let p1 = e.push(PTok::Op(OperatorKind::UnaryNegate));
    let o1 = o0.push(RTok::Num(a));
    let p2 = p1.push(PTok::Op(OperatorKind::Power));
    let o2 = o1.push(RTok::Num(b));
    assert(pop_ge(e, o0, OperatorKind::UnaryNegate) == (e, o0));
    assert(shunt_from(ct, 0, e, o0) == shunt_from(ct, 1, p1, o0));
    assert(shunt_from(ct, 1, p1, o0) == shunt_from(ct, 2, p1, o1));
    assert(pop_ge(p1, o1, OperatorKind::Power) == (p1, o1));
    assert(shunt_from(ct, 2, p1, o1) == shunt_from(ct, 3, p2, o1));
    assert(shunt_from(ct, 3, p2, o1) == shunt_from(ct, 4, p2, o2));
    let o3 = o2.push(RTok::Op(OperatorKind::Power));
    let o4 = o3.push(RTok::Op(OperatorKind::UnaryNegate));
    assert(p2.drop_last() =~= p1);
    assert(p1.drop_last() =~= e);
    assert(drain_pending(p2, o2) == drain_pending(p1, o3));
    assert(drain_pending(p1, o3) == drain_pending(e, o4));
    assert(shunt_from(ct, 4, p2, o2) == drain_pending(p2, o2));
    assert(o4 =~= out);
}

/// Division by an operand that is exactly zero always raises the
/// division-by-zero error, never a value.
pub proof fn lemma_division_by_zero(x: Seq<char>, z: Seq<char>)
    requires
        crate::decimal::dec_mantissa(z) == 0,
    ensures
        eval_spec(seq![RTok::Num(x), RTok::Num(z), RTok::Op(OperatorKind::Divide)]) == Err::<
            Rat,
            RpnParseError,
        >(RpnParseError::DivisionByZero),
{
    let out = seq![RTok::Num(x), RTok::Num(z), RTok::Op(OperatorKind::Divide)];
    let s0 = Seq::<Rat>::empty();
    let s1 = s0.push(dec_rat(x));
    let s2 = s1.push(dec_rat(z));
    assert(eval_from(out, 0, s0) == eval_from(out, 1, s1));
    assert(eval_from(out, 1, s1) == eval_from(out, 2, s2));
    assert(s2.last() == dec_rat(z));
    assert(crate::rational::rat_is_zero(s2.last()));
    assert(eval_step(out[2], s2) == Err::<Seq<Rat>, RpnParseError>(
        RpnParseError::DivisionByZero,
    ));
    assert(eval_from(out, 2, s2) == Err::<Seq<Rat>, RpnParseError>(
        RpnParseError::DivisionByZero,
    ));
}

} // verus!
