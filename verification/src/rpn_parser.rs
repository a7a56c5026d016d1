//! Evaluation of a postfix sequence over a stack of exact decimal values.
use vstd::prelude::*;

use crate::decimal::{dec_abs, dec_add, dec_div, dec_is_zero, dec_mul, dec_neg, dec_rat, dec_sub,
    lemma_dec_rat_wf, Decimal};
use crate::operator::{Operator, OperatorKind};
use crate::parsable_expression::{rpn_seq_wf, rpn_tok, rpn_toks, RTok, RpnItem};
use crate::rational::{
    lemma_mul_nonzero, lemma_rat_abs_cong, lemma_rat_add_cong,
    lemma_rat_div_cong, lemma_rat_eq_refl, lemma_rat_eq_sym, lemma_rat_eq_trans,
    lemma_rat_mul_cong, lemma_rat_neg_cong, lemma_rat_representable_cong, lemma_rat_sub_cong,
    lemma_rat_zero_cong, rat_abs, rat_add, rat_div, rat_eq, rat_is_zero, rat_mul, rat_neg,
    rat_representable, rat_sub, rat_wf, Rat,
};
use crate::rpn_parse_error::RpnParseError;

verus! {

/// One step of the exact mathematical evaluation of a postfix token over a
/// stack of rationals.
pub open spec fn eval_step(t: RTok, stack: Seq<Rat>) -> Result<Seq<Rat>, RpnParseError> {
    match t {
        RTok::Num(s) => Ok(stack.push(dec_rat(s))),
        RTok::Par => Err(RpnParseError::UnexpectedParenthesis),
        RTok::Op(k) => match k {
            OperatorKind::Add => if stack.len() < 2 {
                Err(RpnParseError::EmptyValueStack)
            } else {
                Ok(stack.drop_last().drop_last().push(
                    rat_add(stack[stack.len() - 2], stack.last()),
                ))
            },
            OperatorKind::Subtract => if stack.len() < 2 {
                Err(RpnParseError::EmptyValueStack)
            } else {
                Ok(stack.drop_last().drop_last().push(
                    rat_sub(stack[stack.len() - 2], stack.last()),
                ))
            },
            OperatorKind::Multiply => if stack.len() < 2 {
                Err(RpnParseError::EmptyValueStack)
            } else {
                Ok(stack.drop_last().drop_last().push(
                    rat_mul(stack[stack.len() - 2], stack.last()),
                ))
            },
            OperatorKind::Divide => if stack.len() < 2 {
                Err(RpnParseError::EmptyValueStack)
            } else if rat_is_zero(stack.last()) {
                Err(RpnParseError::DivisionByZero)
            } else {
                Ok(stack.drop_last().drop_last().push(
                    rat_div(stack[stack.len() - 2], stack.last()),
                ))
            },
            OperatorKind::Power => if stack.len() < 1 {
                Err(RpnParseError::EmptyValueStack)
            } else {
                Err(RpnParseError::UnsupportedOperation)
            },
            OperatorKind::UnaryPlus => if stack.len() < 1 {
                Err(RpnParseError::EmptyValueStack)
            } else {
                Ok(stack.drop_last().push(rat_abs(stack.last())))
            },
            OperatorKind::UnaryNegate => if stack.len() < 1 {
                Err(RpnParseError::EmptyValueStack)
            } else {
                Ok(stack.drop_last().push(rat_neg(stack.last())))
            },
        },
    }
}

/// The stack after evaluating the tokens from position `i` on, or the first
/// error raised.
pub open spec fn eval_from(items: Seq<RTok>, i: int, stack: Seq<Rat>) -> Result<
    Seq<Rat>,
    RpnParseError,
>
    decreases items.len() - i,
{
    if i < 0 || i >= items.len() {
        Ok(stack)
    } else {
        match eval_step(items[i], stack) {
            Err(e) => Err(e),
            Ok(s2) => eval_from(items, i + 1, s2),
        }
    }
}

/// Exact mathematical evaluation of a postfix sequence: the one value the
/// sequence leaves, or the error evaluation raises.
pub open spec fn eval_spec(items: Seq<RTok>) -> Result<Rat, RpnParseError> {
    match eval_from(items, 0, Seq::empty()) {
        Err(e) => Err(e),
        Ok(s) => if s.len() == 0 {
            Err(RpnParseError::EmptyResult)
        } else if s.len() > 1 {
            Err(RpnParseError::LeftoverValues)
        } else {
            Ok(s[0])
        },
    }
}

/// Every division the exact evaluation performs, from position `i` on, has
/// a quotient of modest decimal size, so that the decimal division is exact.
pub open spec fn divs_representable_from(items: Seq<RTok>, i: int, stack: Seq<Rat>) -> bool
    decreases items.len() - i,
{
    if i < 0 || i >= items.len() {
        true
    } else {
        let fits = if items[i] == RTok::Op(OperatorKind::Divide) && stack.len() >= 2
            && !rat_is_zero(stack.last()) {
            rat_representable(rat_div(stack[stack.len() - 2], stack.last()))
        } else {
            true
        };
        fits && match eval_step(items[i], stack) {
            Err(_) => true,
            Ok(s2) => divs_representable_from(items, i + 1, s2),
        }
    }
}

/// Every division the exact evaluation of `items` performs has a quotient
/// of modest decimal size.  All the concrete scenarios of the system fall
/// under this premise; a division like one by three does not.
pub open spec fn divs_representable(items: Seq<RTok>) -> bool {
    divs_representable_from(items, 0, Seq::empty())
}

/// The rationals a stack of decimals stands for.
pub open spec fn stack_rats(s: Seq<Decimal>) -> Seq<Rat> {
    s.map_values(|d: Decimal| dec_rat(d@))
}

pub open spec fn decs_wf(s: Seq<Decimal>) -> bool {
    forall|i: int| 0 <= i < s.len() ==> (#[trigger] s[i]).wf()
}

pub open spec fn rat_stack_wf(s: Seq<Rat>) -> bool {
    forall|i: int| 0 <= i < s.len() ==> rat_wf(#[trigger] s[i])
}

/// Pointwise equality of the denoted rational numbers.
pub open spec fn stacks_eq(a: Seq<Rat>, b: Seq<Rat>) -> bool {
    a.len() == b.len() && forall|i: int| 0 <= i < a.len() ==> rat_eq(#[trigger] a[i], b[i])
}

/// An evaluation step treats stacks of equal rational values alike: it
/// raises the same error, or yields stacks of equal rational values.
pub proof fn lemma_eval_step_cong(t: RTok, a: Seq<Rat>, b: Seq<Rat>)
    requires
        rat_stack_wf(a),
        rat_stack_wf(b),
        stacks_eq(a, b),
    ensures
        eval_step(t, a) is Err ==> eval_step(t, a) == eval_step(t, b),
        eval_step(t, a) is Ok ==> eval_step(t, b) is Ok && rat_stack_wf(eval_step(t, a)->Ok_0)
            && rat_stack_wf(eval_step(t, b)->Ok_0) && stacks_eq(
            eval_step(t, a)->Ok_0,
            eval_step(t, b)->Ok_0,
        ),
{
    match t {
        RTok::Num(s) => {
            lemma_dec_rat_wf(s);
            let a2 = a.push(dec_rat(s));
            let b2 = b.push(dec_rat(s));
            assert forall|i: int| 0 <= i < a2.len() implies rat_eq(#[trigger] a2[i], b2[i]) by {
                if i < a.len() {
                    assert(rat_eq(a[i], b[i]));
                } else {
                    lemma_rat_eq_refl(dec_rat(s));
                }
            }
        },
        RTok::Par => {},
        RTok::Op(k) => {
            if a.len() >= 2 {
                let ax = a[a.len() - 2];
                let ay = a.last();
                let bx = b[b.len() - 2];
                let by = b.last();
                assert(rat_eq(ax, bx));
                assert(rat_eq(ay, by));
                lemma_rat_zero_cong(ay, by);
                match k {
                    OperatorKind::Add => {
                        lemma_rat_add_cong(ax, ay, bx, by);
                        lemma_mul_nonzero(ax.den, ay.den);
                        lemma_mul_nonzero(bx.den, by.den);
                        lemma_step_two_stacks(a, b, rat_add(ax, ay), rat_add(bx, by));
                    },
                    OperatorKind::Subtract => {
                        lemma_rat_sub_cong(ax, ay, bx, by);
                        lemma_mul_nonzero(ax.den, ay.den);
                        lemma_mul_nonzero(bx.den, by.den);
                        lemma_step_two_stacks(a, b, rat_sub(ax, ay), rat_sub(bx, by));
                    },
                    OperatorKind::Multiply => {
                        lemma_rat_mul_cong(ax, ay, bx, by);
                        lemma_mul_nonzero(ax.den, ay.den);
                        lemma_mul_nonzero(bx.den, by.den);
                        lemma_step_two_stacks(a, b, rat_mul(ax, ay), rat_mul(bx, by));
                    },
                    OperatorKind::Divide => {
                        if !rat_is_zero(ay) {
                            lemma_rat_div_cong(ax, ay, bx, by);
                            lemma_mul_nonzero(ax.den, ay.num);
                            lemma_mul_nonzero(bx.den, by.num);
                            lemma_step_two_stacks(a, b, rat_div(ax, ay), rat_div(bx, by));
                        }
                    },
                    _ => {},
                }
            }
            if a.len() >= 1 {
                let ay = a.last();
                let by = b.last();
                assert(rat_eq(ay, by));
                match k {
                    OperatorKind::UnaryPlus => {
                        lemma_rat_abs_cong(ay, by);
                        lemma_step_one_stacks(a, b, rat_abs(ay), rat_abs(by));
                    },
                    OperatorKind::UnaryNegate => {
                        lemma_rat_neg_cong(ay, by);
                        lemma_step_one_stacks(a, b, rat_neg(ay), rat_neg(by));
                    },
                    _ => {},
                }
            }
        },
    }
}

/// Stacks that agree pointwise still agree after replacing the two top
/// values by one result each, the results themselves agreeing.
proof fn lemma_step_two_stacks(a: Seq<Rat>, b: Seq<Rat>, ra: Rat, rb: Rat)
    requires
        a.len() >= 2,
        stacks_eq(a, b),
        rat_eq(ra, rb),
        rat_wf(ra),
        rat_wf(rb),
        rat_stack_wf(a),
        rat_stack_wf(b),
    ensures
        stacks_eq(a.drop_last().drop_last().push(ra), b.drop_last().drop_last().push(rb)),
        rat_stack_wf(a.drop_last().drop_last().push(ra)),
        rat_stack_wf(b.drop_last().drop_last().push(rb)),
{
    let a2 = a.drop_last().drop_last().push(ra);
    let b2 = b.drop_last().drop_last().push(rb);
    assert forall|i: int| 0 <= i < a2.len() implies rat_eq(#[trigger] a2[i], b2[i]) by {
        if i < a.len() - 2 {
            assert(rat_eq(a[i], b[i]));
        }
    }
    assert forall|i: int| 0 <= i < a2.len() implies rat_wf(#[trigger] a2[i]) by {
        if i < a.len() - 2 {
            assert(rat_wf(a[i]));
        }
    }
    assert forall|i: int| 0 <= i < b2.len() implies rat_wf(#[trigger] b2[i]) by {
        if i < b.len() - 2 {
            assert(rat_wf(b[i]));
        }
    }
}

/// As above, with only the top value replaced.
proof fn lemma_step_one_stacks(a: Seq<Rat>, b: Seq<Rat>, ra: Rat, rb: Rat)
    requires
        a.len() >= 1,
        stacks_eq(a, b),
        rat_eq(ra, rb),
        rat_wf(ra),
        rat_wf(rb),
        rat_stack_wf(a),
        rat_stack_wf(b),
    ensures
        stacks_eq(a.drop_last().push(ra), b.drop_last().push(rb)),
        rat_stack_wf(a.drop_last().push(ra)),
        rat_stack_wf(b.drop_last().push(rb)),
{
    let a2 = a.drop_last().push(ra);
    let b2 = b.drop_last().push(rb);
    assert forall|i: int| 0 <= i < a2.len() implies rat_eq(#[trigger] a2[i], b2[i]) by {
        if i < a.len() - 1 {
            assert(rat_eq(a[i], b[i]));
        }
    }
    assert forall|i: int| 0 <= i < a2.len() implies rat_wf(#[trigger] a2[i]) by {
        if i < a.len() - 1 {
            assert(rat_wf(a[i]));
        }
    }
    assert forall|i: int| 0 <= i < b2.len() implies rat_wf(#[trigger] b2[i]) by {
        if i < b.len() - 1 {
            assert(rat_wf(b[i]));
        }
    }
}

/// Checks that a postfix sequence is well formed, so that a caller outside
/// the library can establish the evaluator's precondition.
pub fn rpn_items_wf(items: &Vec<RpnItem>) -> (r: bool)
    ensures
        r == rpn_seq_wf(items@),
{
    let n = items.len();
    let mut i: usize = 0;
    while i < n
        invariant
            i <= n,
            n == items@.len(),
            forall|j: int| 0 <= j < i ==> crate::parsable_expression::rpn_wf(#[trigger] items@[j]),
        decreases n - i,
    {
        let ok = match &items[i] {
            RpnItem::Constant(c) => c.value.is_wf(),
            RpnItem::Operator(o) => {
                let table = Operator::from_symbol(o.symbol);
                o.precedence == table.precedence && o.is_left_associative
                    == table.is_left_associative
            },
            RpnItem::Parenthesis(_) => true,
        };
        if !ok {
            proof {
                assert(!crate::parsable_expression::rpn_wf(items@[i as int]));
            }
            return false;
        }
        i = i + 1;
    }
    true
}

/// The postfix evaluator: a value stack of exact decimals.
pub struct RpnParser {
    value_stack: Vec<Decimal>,
}

impl RpnParser {
    /// The values currently stacked.
    pub closed spec fn spec_value_stack(&self) -> Seq<Decimal> {
        self.value_stack@
    }

    pub fn new() -> (r: RpnParser)
        ensures
            r.spec_value_stack().len() == 0,
    {
        RpnParser { value_stack: Vec::new() }
    }

    /// Pops the top value, or reports the underflow.
    fn pop_top_value(&mut self) -> (r: Result<Decimal, RpnParseError>)
        ensures
            old(self).value_stack@.len() == 0 ==> r == Err::<Decimal, RpnParseError>(
                RpnParseError::EmptyValueStack,
            ) && final(self).value_stack@ == old(self).value_stack@,
            old(self).value_stack@.len() > 0 ==> r is Ok && r->Ok_0 == old(
                self,
            ).value_stack@.last() && final(self).value_stack@ == old(self).value_stack@.drop_last(),
    {
        match self.value_stack.pop() {
            Some(top_value) => Ok(top_value),
            None => Err(RpnParseError::EmptyValueStack),
        }
    }

    /// Applies one operator to the value stack: exactly the step the
    /// mathematical evaluation takes, the decimal results denoting the same
    /// rationals; a division result is pinned whenever the exact quotient
    /// is of modest decimal size.
    #[verifier::rlimit(60)]
    fn parse_operator(&mut self, operator: Operator) -> (r: Result<(), RpnParseError>)
        requires
            decs_wf(old(self).value_stack@),
        ensures
            decs_wf(final(self).value_stack@),
            match eval_step(RTok::Op(operator.symbol), stack_rats(old(self).value_stack@)) {
                Err(e) => r == Err::<(), RpnParseError>(e),
                Ok(s2) => r is Ok && ({
                    let new = stack_rats(final(self).value_stack@);
                    &&& new.len() == s2.len()
                    &&& forall|i: int| 0 <= i < new.len() - 1 ==> new[i] == s2[i]
                    &&& (operator.symbol != OperatorKind::Divide ==> rat_eq(
                        new.last(),
                        s2.last(),
                    ))
                    &&& (operator.symbol == OperatorKind::Divide && rat_representable(s2.last())
                        ==> rat_eq(new.last(), s2.last()))
                }),
            },
    {
        let ghost stack0 = self.value_stack@;
        let ghost rats0 = stack_rats(stack0);
        match operator.symbol {
            OperatorKind::Add => {
                let top_value = match self.pop_top_value() {
                    Ok(v) => v,
                    Err(e) => {
                        return Err(e);
                    },
                };
                let other = match self.pop_top_value() {
                    Ok(v) => v,
                    Err(e) => {
                        proof {
                            lemma_decs_wf_drop(stack0);
                        }
                        return Err(e);
                    },
                };
                proof {
                    lemma_two_popped(stack0);
                }
                let result = dec_add(&other, &top_value);
                self.value_stack.push(result);
                proof {
                    lemma_two_pushed(stack0, self.value_stack@, result);
                }
                Ok(())
            },
            OperatorKind::Subtract => {
                let top_value = match self.pop_top_value() {
                    Ok(v) => v,
                    Err(e) => {
                        return Err(e);
                    },
                };
                let other = match self.pop_top_value() {
                    Ok(v) => v,
                    Err(e) => {
                        proof {
                            lemma_decs_wf_drop(stack0);
                        }
                        return Err(e);
                    },
                };
                proof {
                    lemma_two_popped(stack0);
                }
                let result = dec_sub(&other, &top_value);
                self.value_stack.push(result);
                proof {
                    lemma_two_pushed(stack0, self.value_stack@, result);
                }
                Ok(())
            },
            OperatorKind::Multiply => {
                let top_value = match self.pop_top_value() {
                    Ok(v) => v,
                    Err(e) => {
                        return Err(e);
                    },
                };
                let other = match self.pop_top_value() {
                    Ok(v) => v,
                    Err(e) => {
                        proof {
                            lemma_decs_wf_drop(stack0);
                        }
                        return Err(e);
                    },
                };
                proof {
                    lemma_two_popped(stack0);
                }
                let result = dec_mul(&other, &top_value);
                self.value_stack.push(result);
                proof {
                    lemma_two_pushed(stack0, self.value_stack@, result);
                }
                Ok(())
            },
            OperatorKind::Divide => {
                let top_value = match self.pop_top_value() {
                    Ok(v) => v,
                    Err(e) => {
                        return Err(e);
                    },
                };
                let itr = match self.pop_top_value() {
                    Ok(v) => v,
                    Err(e) => {
                        proof {
                            lemma_decs_wf_drop(stack0);
                        }
                        return Err(e);
                    },
                };
                proof {
                    lemma_two_popped(stack0);
                }
                if dec_is_zero(&top_value) {
                    proof {
                        lemma_decs_wf_drop(stack0);
                        lemma_decs_wf_drop(stack0.drop_last());
                    }
                    return Err(RpnParseError::DivisionByZero);
                }
                let result = dec_div(&itr, &top_value);
                self.value_stack.push(result);
                proof {
                    lemma_two_pushed(stack0, self.value_stack@, result);
                }
                Ok(())
            },
            OperatorKind::Power => {
                let top_value = match self.pop_top_value() {
                    Ok(v) => v,
                    Err(e) => {
                        return Err(e);
                    },
                };
                proof {
                    lemma_decs_wf_drop(stack0);
                }
                Err(RpnParseError::UnsupportedOperation)
            },
            OperatorKind::UnaryPlus => {
                let top_value = match self.pop_top_value() {
                    Ok(v) => v,
                    Err(e) => {
                        return Err(e);
                    },
                };
                proof {
                    assert(stack0.last().wf());
                }
                let result = dec_abs(&top_value);
                self.value_stack.push(result);
                proof {
                    lemma_one_pushed(stack0, self.value_stack@, result);
                }
                Ok(())
            },
            OperatorKind::UnaryNegate => {
                let top_value = match self.pop_top_value() {
                    Ok(v) => v,
                    Err(e) => {
                        return Err(e);
                    },
                };
                proof {
                    assert(stack0.last().wf());
                }
                let result = dec_neg(&top_value);
                self.value_stack.push(result);
                proof {
                    lemma_one_pushed(stack0, self.value_stack@, result);
                }
                Ok(())
            },
        }
    }

    /// Evaluates a postfix sequence, consuming it, and returns the one
    /// decimal value it denotes or the first error evaluation raises.
    /// Whenever every division involved has an exact quotient of modest
    /// decimal size, the outcome is exactly the mathematical one: the same
    /// error, or a decimal denoting the exact rational value.
    pub fn parse_rpn(&mut self, rpn_stack: &mut Vec<RpnItem>) -> (r: Result<
        Decimal,
        RpnParseError,
    >)
        requires
            old(self).spec_value_stack().len() == 0,
            rpn_seq_wf(old(rpn_stack)@),
        ensures
            final(rpn_stack)@.len() == 0,
            r is Ok ==> r->Ok_0.wf(),
            divs_representable(rpn_toks(old(rpn_stack)@)) ==> match eval_spec(
                rpn_toks(old(rpn_stack)@),
            ) {
                Ok(q) => r is Ok && rat_eq(dec_rat(r->Ok_0@), q),
                Err(e) => r == Err::<Decimal, RpnParseError>(e),
            },
    {
        let ghost items = rpn_toks(rpn_stack@);
        let ghost pp = divs_representable(items);
        let ghost mut srats = Seq::<Rat>::empty();
        proof {
            assert(stack_rats(self.value_stack@) =~= Seq::<Rat>::empty());
        }
        let n = rpn_stack.len();
        let mut idx: usize = 0;
        while idx < n
            invariant
                idx <= n,
                n == rpn_stack@.len(),
                rpn_stack@ == old(rpn_stack)@,
                rpn_seq_wf(rpn_stack@),
                items == rpn_toks(rpn_stack@),
                pp == divs_representable(items),
                decs_wf(self.value_stack@),
                pp ==> eval_from(items, idx as int, srats) == eval_from(
                    items,
                    0,
                    Seq::empty(),
                ),
                pp ==> rat_stack_wf(srats) && stacks_eq(stack_rats(self.value_stack@), srats),
                pp ==> divs_representable_from(items, idx as int, srats),
            decreases n - idx,
        {
            let ghost stack_before = self.value_stack@;
            proof {
                assert(items[idx as int] == rpn_tok(rpn_stack@[idx as int]));
                assert(crate::parsable_expression::rpn_wf(rpn_stack@[idx as int]));
            }
            match &rpn_stack[idx] {
                RpnItem::Constant(constant) => {
                    proof {
                        assert(items[idx as int] == RTok::Num(constant.value@));
                    }
                    let value = constant.value.clone();
                    self.value_stack.push(value);
                    proof {
                        assert(self.value_stack@ == stack_before.push(value));
                        assert forall|i: int| 0 <= i < self.value_stack@.len() implies (
                        #[trigger] self.value_stack@[i]).wf() by {
                            if i < stack_before.len() {
                                assert(stack_before[i].wf());
                            }
                        }
                        if pp {
                            lemma_dec_rat_wf(constant.value@);
                            let s2 = srats.push(dec_rat(constant.value@));
                            assert(eval_step(items[idx as int], srats) == Ok::<
                                Seq<Rat>,
                                RpnParseError,
                            >(s2));
                            assert(stack_rats(self.value_stack@) =~= stack_rats(
                                stack_before,
                            ).push(dec_rat(value@)));
                            assert forall|i: int| 0 <= i < s2.len() implies rat_eq(
                                #[trigger] stack_rats(self.value_stack@)[i],
                                s2[i],
                            ) by {
                                if i < srats.len() {
                                    assert(rat_eq(stack_rats(stack_before)[i], srats[i]));
                                } else {
                                    lemma_rat_eq_refl(dec_rat(constant.value@));
                                }
                            }
                            srats = s2;
                        }
                    }
                },
                RpnItem::Operator(operator) => {
                    let op = *operator;
                    proof {
                        assert(items[idx as int] == RTok::Op(op.symbol));
                    }
                    match self.parse_operator(op) {
                        Err(e) => {
                            proof {
                                if pp {
                                    lemma_stack_rats_wf(stack_before);
                                    lemma_eval_step_cong(
                                        items[idx as int],
                                        stack_rats(stack_before),
                                        srats,
                                    );
                                    assert(eval_from(items, idx as int, srats) == Err::<
                                        Seq<Rat>,
                                        RpnParseError,
                                    >(e));
                                }
                            }
                            *rpn_stack = Vec::new();
                            return Err(e);
                        },
                        Ok(_) => {
                            proof {
                                if pp {
                                    let a = stack_rats(stack_before);
                                    lemma_stack_rats_wf(stack_before);
                                    lemma_stack_rats_wf(self.value_stack@);
                                    lemma_eval_step_cong(items[idx as int], a, srats);
                                    let sa = eval_step(items[idx as int], a)->Ok_0;
                                    let sb = eval_step(items[idx as int], srats)->Ok_0;
                                    let new = stack_rats(self.value_stack@);
                                    if op.symbol == OperatorKind::Divide {
                                        assert(rat_representable(sb.last()));
                                        lemma_rat_eq_sym(sa.last(), sb.last());
                                        lemma_rat_representable_cong(sb.last(), sa.last());
                                        assert(rat_eq(new.last(), sa.last()));
                                    }
                                    assert forall|i: int| 0 <= i < new.len() implies rat_eq(
                                        #[trigger] new[i],
                                        sb[i],
                                    ) by {
                                        if i < new.len() - 1 {
                                            assert(new[i] == sa[i]);
                                            assert(rat_eq(sa[i], sb[i]));
                                        } else {
                                            assert(rat_eq(new.last(), sa.last()));
                                            lemma_rat_eq_trans(
                                                new.last(),
                                                sa.last(),
                                                sb.last(),
                                            );
                                        }
                                    }
                                    srats = sb;
                                }
                            }
                        },
                    }
                },
                RpnItem::Parenthesis(_) => {
                    proof {
                        if pp {
                            assert(eval_step(items[idx as int], srats) == Err::<
                                Seq<Rat>,
                                RpnParseError,
                            >(RpnParseError::UnexpectedParenthesis));
                            assert(eval_from(items, idx as int, srats) == Err::<
                                Seq<Rat>,
                                RpnParseError,
                            >(RpnParseError::UnexpectedParenthesis));
                        }
                    }
                    *rpn_stack = Vec::new();
                    return Err(RpnParseError::UnexpectedParenthesis);
                },
            }
            idx = idx + 1;
        }
        proof {
            if pp {
                assert(eval_from(items, n as int, srats) == Ok::<Seq<Rat>, RpnParseError>(
                    srats,
                ));
            }
        }
        *rpn_stack = Vec::new();
        let ghost stack_end = self.value_stack@;
        if self.value_stack.len() == 0 {
            return Err(RpnParseError::EmptyResult);
        }
        if self.value_stack.len() > 1 {
            return Err(RpnParseError::LeftoverValues);
        }
        match self.value_stack.pop() {
            Some(result) => {
                proof {
                    assert(result == stack_end[0]);
                    assert(stack_end[0].wf());
                    if pp {
                        assert(stack_rats(stack_end)[0] == dec_rat(result@));
                        assert(rat_eq(stack_rats(stack_end)[0], srats[0]));
                    }
                }
                Ok(result)
            },
            None => {
                proof {
                    assert(false);
                }
                Err(RpnParseError::EmptyResult)
            },
        }
    }
}

/// A stack of well-formed decimals stays well formed when the top is
/// dropped.
proof fn lemma_decs_wf_drop(s: Seq<Decimal>)
    requires
        decs_wf(s),
        s.len() > 0,
    ensures
        decs_wf(s.drop_last()),
{
    assert forall|i: int| 0 <= i < s.drop_last().len() implies (#[trigger] s.drop_last()[
        i
    ]).wf() by {
        assert(s[i].wf());
    }
}

/// The two popped operands are the well-formed top values.
proof fn lemma_two_popped(s: Seq<Decimal>)
    requires
        decs_wf(s),
        s.len() >= 2,
    ensures
        s.last().wf(),
        s.drop_last().last().wf(),
        s.drop_last().last() == s[s.len() - 2],
        decs_wf(s.drop_last().drop_last()),
{
    assert(s[s.len() - 1].wf());
    assert(s[s.len() - 2].wf());
    lemma_decs_wf_drop(s);
    lemma_decs_wf_drop(s.drop_last());
}

/// Relates the stack after two pops and a push of `result` to the stack
/// the spec builds.
proof fn lemma_two_pushed(s0: Seq<Decimal>, s1: Seq<Decimal>, result: Decimal)
    requires
        s0.len() >= 2,
        decs_wf(s0),
        result.wf(),
        s1 == s0.drop_last().drop_last().push(result),
    ensures
        decs_wf(s1),
        stack_rats(s1).len() == s0.len() - 1,
        stack_rats(s1).last() == dec_rat(result@),
        forall|i: int| 0 <= i < s0.len() - 2 ==> stack_rats(s1)[i] == stack_rats(s0)[i],
{
    assert forall|i: int| 0 <= i < s1.len() implies (#[trigger] s1[i]).wf() by {
        if i < s0.len() - 2 {
            assert(s0[i].wf());
        }
    }
    assert forall|i: int| 0 <= i < s0.len() - 2 implies stack_rats(s1)[i] == stack_rats(s0)[
        i
    ] by {
        assert(s1[i] == s0[i]);
    }
}

/// Relates the stack after one pop and a push of `result` to the stack the
/// spec builds.
proof fn lemma_one_pushed(s0: Seq<Decimal>, s1: Seq<Decimal>, result: Decimal)
    requires
        s0.len() >= 1,
        decs_wf(s0),
        result.wf(),
        s1 == s0.drop_last().push(result),
    ensures
        decs_wf(s1),
        stack_rats(s1).len() == s0.len(),
        stack_rats(s1).last() == dec_rat(result@),
        forall|i: int| 0 <= i < s0.len() - 1 ==> stack_rats(s1)[i] == stack_rats(s0)[i],
{
    assert forall|i: int| 0 <= i < s1.len() implies (#[trigger] s1[i]).wf() by {
        if i < s0.len() - 1 {
            assert(s0[i].wf());
        }
    }
    assert forall|i: int| 0 <= i < s0.len() - 1 implies stack_rats(s1)[i] == stack_rats(s0)[
        i
    ] by {
        assert(s1[i] == s0[i]);
    }
}

/// The rationals decimals denote always have nonzero denominators.
proof fn lemma_stack_rats_wf(s: Seq<Decimal>)
    ensures
        rat_stack_wf(stack_rats(s)),
{
    assert forall|i: int| 0 <= i < stack_rats(s).len() implies rat_wf(
        #[trigger] stack_rats(s)[i],
    ) by {
        lemma_dec_rat_wf(s[i]@);
    }
}

} // verus!
