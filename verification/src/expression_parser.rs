//! Tokenization of an expression and its conversion to postfix order by the
//! shunting-yard algorithm.
use vstd::prelude::*;

use crate::constant::Constant;
use crate::decimal::{is_decimal_lit, is_digit_char, Decimal};
use crate::expression_parse_error::ExpressionParseError;
use crate::operator::{
    kind_left_associative, kind_precedence, top_stack_precedence, unary_kind, Operator,
    OperatorKind,
};
use crate::parenthesis::{spec_is_left_parenthesis, Parenthesis, ParenthesisVariant};
use crate::parsable_expression::{
    infix_seq_wf, infix_tok, infix_toks, infix_wf, InfixItem, ITok, NonConstant, RTok, RpnItem,
    rpn_seq_wf, rpn_toks,
};

verus! {

// ------------------------------------------------------------------
// The token grammar: single-character operator and parenthesis tokens, and
// maximal digit runs containing at most one dot.  Every other character is
// skipped, and a dot with no digit around it is dropped.
// ------------------------------------------------------------------
/// The token a single operator or parenthesis character stands for.
pub open spec fn char_tok(c: char) -> Option<ITok> {
    if c == '+' {
        Some(ITok::Op(OperatorKind::Add))
    } else if c == '-' {
        Some(ITok::Op(OperatorKind::Subtract))
    } else if c == '*' {
        Some(ITok::Op(OperatorKind::Multiply))
    } else if c == '/' {
        Some(ITok::Op(OperatorKind::Divide))
    } else if c == '^' {
        Some(ITok::Op(OperatorKind::Power))
    } else if c == '(' {
        Some(ITok::LParen)
    } else if c == ')' {
        Some(ITok::RParen)
    } else {
        None
    }
}

/// End of the run of digits starting at `i`.
pub open spec fn digit_run_end(s: Seq<char>, i: int) -> int
    decreases s.len() - i,
{
    if 0 <= i < s.len() && is_digit_char(s[i]) {
        digit_run_end(s, i + 1)
    } else {
        i
    }
}

pub proof fn lemma_digit_run_end(s: Seq<char>, i: int)
    requires
        0 <= i <= s.len(),
    ensures
        i <= digit_run_end(s, i) <= s.len(),
        forall|j: int| i <= j < digit_run_end(s, i) ==> is_digit_char(s[j]),
        digit_run_end(s, i) < s.len() ==> !is_digit_char(s[digit_run_end(s, i)]),
    decreases s.len() - i,
{
    if 0 <= i < s.len() && is_digit_char(s[i]) {
        lemma_digit_run_end(s, i + 1);
    }
}

/// End of a number token starting at `i`: a digit run, then at most one dot
/// and a second digit run.
pub open spec fn num_end(s: Seq<char>, i: int) -> int {
    let a = digit_run_end(s, i);
    if a < s.len() && s[a] == '.' {
        digit_run_end(s, a + 1)
    } else {
        a
    }
}

pub open spec fn has_digit(t: Seq<char>) -> bool {
    exists|k: int| 0 <= k < t.len() && is_digit_char(#[trigger] t[k])
}

/// The tokens of the expression text from position `i` on.
pub open spec fn tokenize_from(s: Seq<char>, i: int) -> Seq<ITok>
    decreases s.len() - i,
{
    if i < 0 || i >= s.len() {
        Seq::empty()
    } else if char_tok(s[i]) is Some {
        seq![char_tok(s[i])->Some_0] + tokenize_from(s, i + 1)
    } else if is_digit_char(s[i]) || s[i] == '.' {
        let j = if i < num_end(s, i) <= s.len() {
            num_end(s, i)
        } else {
            i + 1
        };
        if has_digit(s.subrange(i, j)) {
            seq![ITok::Num(s.subrange(i, j))] + tokenize_from(s, j)
        } else {
            tokenize_from(s, j)
        }
    } else {
        tokenize_from(s, i + 1)
    }
}

/// The token sequence of an expression text.
pub open spec fn tokenize_spec(s: Seq<char>) -> Seq<ITok> {
    tokenize_from(s, 0)
}

// ------------------------------------------------------------------
// The shunting-yard conversion, as a function on abstract tokens.
// ------------------------------------------------------------------
/// An item of the abstract pending stack.
pub enum PTok {
    Op(OperatorKind),
    LParen,
}

pub open spec fn ptok_precedence(p: PTok) -> u8 {
    match p {
        PTok::Op(k) => kind_precedence(k),
        PTok::LParen => 0,
    }
}

pub open spec fn nc_tok(nc: NonConstant) -> PTok {
    match nc {
        NonConstant::Operator(o) => PTok::Op(o.symbol),
        NonConstant::Parenthesis(_) => PTok::LParen,
    }
}

pub open spec fn nc_toks(s: Seq<NonConstant>) -> Seq<PTok> {
    s.map_values(|nc: NonConstant| nc_tok(nc))
}

pub open spec fn nc_wf(nc: NonConstant) -> bool {
    match nc {
        NonConstant::Operator(o) => o.wf(),
        NonConstant::Parenthesis(p) => p.variant == ParenthesisVariant::Left,
    }
}

pub open spec fn nc_seq_wf(s: Seq<NonConstant>) -> bool {
    forall|i: int| 0 <= i < s.len() ==> nc_wf(#[trigger] s[i])
}

/// An operator token is read as unary at the start of the expression and
/// right after an operator or a left parenthesis.
pub open spec fn is_unary_position(toks: Seq<ITok>, i: int) -> bool {
    i == 0 || toks[i - 1] is Op || toks[i - 1] is LParen
}

pub open spec fn classify_at(toks: Seq<ITok>, i: int) -> ITok {
    match toks[i] {
        ITok::Op(k) => if is_unary_position(toks, i) {
            ITok::Op(unary_kind(k))
        } else {
            ITok::Op(k)
        },
        t => t,
    }
}

/// The token sequence with each operator resolved to its unary or binary
/// reading.
pub open spec fn classify(toks: Seq<ITok>) -> Seq<ITok> {
    Seq::new(toks.len(), |i: int| classify_at(toks, i))
}

/// Pops every pending operator that binds at least as tightly as `k`
/// demands; a left parenthesis (precedence zero) always stops the popping.
pub open spec fn pop_ge(pend: Seq<PTok>, out: Seq<RTok>, k: OperatorKind) -> (Seq<PTok>, Seq<
    RTok,
>)
    decreases pend.len(),
{
    if pend.len() == 0 {
        (pend, out)
    } else {
        let top = ptok_precedence(pend.last());
        if (kind_left_associative(k) && kind_precedence(k) <= top) || kind_precedence(k) < top {
            match pend.last() {
                PTok::Op(k2) => pop_ge(pend.drop_last(), out.push(RTok::Op(k2)), k),
                PTok::LParen => (pend, out),
            }
        } else {
            (pend, out)
        }
    }
}

/// Pops pending operators to the output until a left parenthesis is found
/// and discarded; an exhausted stack means an unmatched `)`.
pub open spec fn close_paren(pend: Seq<PTok>, out: Seq<RTok>) -> Result<
    (Seq<PTok>, Seq<RTok>),
    ExpressionParseError,
>
    decreases pend.len(),
{
    if pend.len() == 0 {
        Err(ExpressionParseError {  })
    } else {
        match pend.last() {
            PTok::LParen => Ok((pend.drop_last(), out)),
            PTok::Op(k) => close_paren(pend.drop_last(), out.push(RTok::Op(k))),
        }
    }
}

/// Pops everything still pending to the output; a left parenthesis here
/// means an unmatched `(`.
pub open spec fn drain_pending(pend: Seq<PTok>, out: Seq<RTok>) -> Result<
    Seq<RTok>,
    ExpressionParseError,
>
    decreases pend.len(),
{
    if pend.len() == 0 {
        Ok(out)
    } else {
        match pend.last() {
            PTok::LParen => Err(ExpressionParseError {  }),
            PTok::Op(k) => drain_pending(pend.drop_last(), out.push(RTok::Op(k))),
        }
    }
}

/// One left-to-right pass of the shunting-yard algorithm over the classified
/// tokens from position `i` on, given the pending stack and output so far.
pub open spec fn shunt_from(toks: Seq<ITok>, i: int, pend: Seq<PTok>, out: Seq<RTok>) -> Result<
    Seq<RTok>,
    ExpressionParseError,
>
    decreases toks.len() - i,
{
    if i < 0 || i >= toks.len() {
        drain_pending(pend, out)
    } else {
        match toks[i] {
            ITok::Num(t) => shunt_from(toks, i + 1, pend, out.push(RTok::Num(t))),
            ITok::LParen => shunt_from(toks, i + 1, pend.push(PTok::LParen), out),
            ITok::RParen => match close_paren(pend, out) {
                Err(e) => Err(e),
                Ok(po) => shunt_from(toks, i + 1, po.0, po.1),
            },
            ITok::Op(k) => {
                let po = pop_ge(pend, out, k);
                shunt_from(toks, i + 1, po.0.push(PTok::Op(k)), po.1)
            },
        }
    }
}

/// The postfix order of a token sequence, or the parse error for unbalanced
/// parentheses.
pub open spec fn convert_spec(toks: Seq<ITok>) -> Result<Seq<RTok>, ExpressionParseError> {
    shunt_from(classify(toks), 0, Seq::empty(), Seq::empty())
}

/// What parsing an expression text yields.
pub open spec fn parse_spec(s: Seq<char>) -> Result<Seq<RTok>, ExpressionParseError> {
    convert_spec(tokenize_spec(s))
}

// ------------------------------------------------------------------
// The parser itself.
// ------------------------------------------------------------------
pub struct ExpressionParser {
    tokens: Vec<InfixItem>,
}

/// End of the digit run starting at `from`.
fn scan_digits(s: &str, from: usize) -> (r: usize)
    requires
        from <= s@.len(),
    ensures
        from <= r <= s@.len(),
        r == digit_run_end(s@, from as int),
{
    let len = s.unicode_len();
    let mut j = from;
    while j < len
        invariant
            from <= j <= len,
            len == s@.len(),
            digit_run_end(s@, from as int) == digit_run_end(s@, j as int),
        ensures
            from <= j <= len,
            digit_run_end(s@, from as int) == digit_run_end(s@, j as int),
            j == len || !is_digit_char(s@[j as int]),
        decreases len - j,
    {
        let c = s.get_char(j);
        if !(48 <= (c as u32) && (c as u32) <= 57) {
            proof {
                assert(!is_digit_char(s@[j as int]));
            }
            break;
        }
        proof {
            assert(is_digit_char(s@[j as int]));
        }
        j = j + 1;
    }
    j
}

impl ExpressionParser {
    /// The tokens scanned so far.
    pub closed spec fn spec_tokens(&self) -> Seq<InfixItem> {
        self.tokens@
    }

    pub fn new() -> (r: ExpressionParser)
        ensures
            r.spec_tokens().len() == 0,
    {
        ExpressionParser { tokens: Vec::new() }
    }

    /// Appends the token for an operator or parenthesis character; any other
    /// character is ignored.
    fn parse_token(&mut self, c: char)
        requires
            infix_seq_wf(old(self).tokens@),
        ensures
            infix_seq_wf(final(self).tokens@),
            match char_tok(c) {
                Some(t) => infix_toks(final(self).tokens@) == infix_toks(old(self).tokens@).push(
                    t,
                ),
                None => final(self).tokens@ == old(self).tokens@,
            },
    {
        let item: Option<InfixItem> = if c == '+' {
            Some(InfixItem::Operator(Operator::from_symbol(OperatorKind::Add)))
        } else if c == '-' {
            Some(InfixItem::Operator(Operator::from_symbol(OperatorKind::Subtract)))
        } else if c == '*' {
            Some(InfixItem::Operator(Operator::from_symbol(OperatorKind::Multiply)))
        } else if c == '/' {
            Some(InfixItem::Operator(Operator::from_symbol(OperatorKind::Divide)))
        } else if c == '^' {
            Some(InfixItem::Operator(Operator::from_symbol(OperatorKind::Power)))
        } else if c == '(' {
            Some(InfixItem::Parenthesis(Parenthesis { variant: ParenthesisVariant::Left }))
        } else if c == ')' {
            Some(InfixItem::Parenthesis(Parenthesis { variant: ParenthesisVariant::Right }))
        } else {
            None
        };
        match item {
            Some(it) => {
                let ghost before = self.tokens@;
                self.tokens.push(it);
                proof {
                    assert(infix_toks(self.tokens@) =~= infix_toks(before).push(infix_tok(it)));
                }
            },
            None => {},
        }
    }

    /// Appends a number token.
    fn parse_number(&mut self, number: Decimal)
        requires
            infix_seq_wf(old(self).tokens@),
            number.wf(),
        ensures
            infix_seq_wf(final(self).tokens@),
            infix_toks(final(self).tokens@) == infix_toks(old(self).tokens@).push(
                ITok::Num(number@),
            ),
    {
        let ghost before = self.tokens@;
        let constant = Constant { value: number };
        self.tokens.push(InfixItem::Constant(constant));
        proof {
            assert(infix_toks(self.tokens@) =~= infix_toks(before).push(
                ITok::Num(number@),
            ));
        }
    }

    /// Splits the expression text into tokens, appended to `self.tokens`.
    fn tokenize(&mut self, expression: &str)
        requires
            old(self).tokens@.len() == 0,
        ensures
            infix_seq_wf(final(self).tokens@),
            infix_toks(final(self).tokens@) == tokenize_spec(expression@),
    {
        let len = expression.unicode_len();
        let mut i: usize = 0;
        while i < len
            invariant
                i <= len,
                len == expression@.len(),
                infix_seq_wf(self.tokens@),
                tokenize_spec(expression@) == infix_toks(self.tokens@) + tokenize_from(
                    expression@,
                    i as int,
                ),
            decreases len - i,
        {
            let ghost s = expression@;
            let ghost toks_before = infix_toks(self.tokens@);
            let c = expression.get_char(i);
            if c == '+' || c == '-' || c == '*' || c == '/' || c == '^' || c == '(' || c == ')' {
                self.parse_token(c);
                proof {
                    assert(tokenize_from(s, i as int) =~= seq![char_tok(c)->Some_0]
                        + tokenize_from(s, i + 1));
                    assert(toks_before.push(char_tok(c)->Some_0) + tokenize_from(s, i + 1)
                        =~= toks_before + tokenize_from(s, i as int));
                }
                i = i + 1;
            } else if (48 <= (c as u32) && (c as u32) <= 57) || (c as u32) == 46 {
                proof {
                    assert(c == s[i as int]);
                    assert(char_tok(c) is None);
                    assert(is_digit_char(c) || c == '.');
                }
                let d1 = scan_digits(expression, i);
                let mut j = d1;
                let mut with_digit = d1 > i;
                proof {
                    lemma_digit_run_end(s, i as int);
                }
                if j < len && expression.get_char(j) == '.' {
                    j = scan_digits(expression, j + 1);
                    proof {
                        lemma_digit_run_end(s, d1 + 1);
                    }
                    if j > d1 + 1 {
                        with_digit = true;
                    }
                } else {
                    proof {
                        assert(num_end(s, i as int) == d1);
                    }
                }
                proof {
                    assert(j == num_end(s, i as int));
                    assert(j > i);
                }
                let ghost tok = s.subrange(i as int, j as int);
                proof {
                    if with_digit {
                        if d1 > i {
                            assert(is_digit_char(tok[0]));
                        } else {
                            assert(is_digit_char(s[d1 + 1]));
                            assert(is_digit_char(tok[d1 + 1 - i]));
                        }
                        assert(has_digit(tok));
                        lemma_number_token_wf(s, i as int, j as int, d1 as int);
                    } else {
                        assert forall|k: int| 0 <= k < tok.len() implies !is_digit_char(
                            tok[k],
                        ) by {
                            assert(tok[k] == s[i + k]);
                        }
                        assert(!has_digit(tok));
                    }
                }
                if with_digit {
                    let text = expression.substring_char(i, j).to_owned();
                    let number = Decimal::from_literal(text);
                    self.parse_number(number);
                    proof {
                        assert(tokenize_from(s, i as int) =~= seq![ITok::Num(tok)]
                            + tokenize_from(s, j as int));
                        assert(toks_before.push(ITok::Num(tok)) + tokenize_from(s, j as int)
                            =~= toks_before + tokenize_from(s, i as int));
                    }
                } else {
                    proof {
                        assert(tokenize_from(s, i as int) =~= tokenize_from(s, j as int));
                    }
                }
                i = j;
            } else {
                proof {
                    assert(c == s[i as int]);
                    assert(char_tok(c) is None);
                    assert(!(is_digit_char(c) || c == '.'));
                    assert(tokenize_from(s, i as int) =~= tokenize_from(s, i + 1));
                }
                i = i + 1;
            }
        }
        proof {
            assert(tokenize_from(expression@, len as int) =~= Seq::<ITok>::empty());
            assert(infix_toks(self.tokens@) + Seq::<ITok>::empty() =~= infix_toks(
                self.tokens@,
            ));
        }
    }

    /// Parses an expression: splits it into tokens, resolves unary
    /// operators, and converts to postfix order by the shunting-yard
    /// algorithm.  The postfix sequence is exactly the one `parse_spec`
    /// describes, and an unbalanced expression is rejected.
    pub fn parse_to_rpn(&mut self, expression: &str) -> (r: Result<
        Vec<RpnItem>,
        ExpressionParseError,
    >)
        ensures
            infix_toks(final(self).spec_tokens()) == tokenize_spec(expression@),
            infix_seq_wf(final(self).spec_tokens()),
            r is Ok <==> parse_spec(expression@) is Ok,
            r is Ok ==> rpn_toks(r->Ok_0@) == parse_spec(expression@)->Ok_0,
            r is Ok ==> rpn_seq_wf(r->Ok_0@),
    {
        self.tokens = Vec::new();
        self.tokenize(expression);
        let ghost itoks = infix_toks(self.tokens@);
        let ghost ctoks = classify(itoks);

        let mut rpn_stack: Vec<RpnItem> = Vec::new();
        let mut non_constant_stack: Vec<NonConstant> = Vec::new();
        proof {
            assert(nc_toks(non_constant_stack@) =~= Seq::<PTok>::empty());
            assert(rpn_toks(rpn_stack@) =~= Seq::<RTok>::empty());
        }

        let n = self.tokens.len();
        let mut idx: usize = 0;
        while idx < n
            invariant
                idx <= n,
                n == self.tokens@.len(),
                infix_seq_wf(self.tokens@),
                itoks == infix_toks(self.tokens@),
                itoks == tokenize_spec(expression@),
                ctoks == classify(itoks),
                nc_seq_wf(non_constant_stack@),
                rpn_seq_wf(rpn_stack@),
                shunt_from(ctoks, idx as int, nc_toks(non_constant_stack@), rpn_toks(rpn_stack@))
                    == shunt_from(ctoks, 0, Seq::empty(), Seq::empty()),
            decreases n - idx,
        {
            let ghost pend0 = nc_toks(non_constant_stack@);
            let ghost out0 = rpn_toks(rpn_stack@);
            proof {
                assert(itoks[idx as int] == infix_tok(self.tokens@[idx as int]));
                assert(ctoks[idx as int] == classify_at(itoks, idx as int));
            }
            match &self.tokens[idx] {
                InfixItem::Constant(c) => {
                    proof {
                        assert(ctoks[idx as int] == ITok::Num(c.value@));
                        assert(infix_wf(self.tokens@[idx as int]));
                    }
                    let value = c.value.clone();
                    rpn_stack.push(RpnItem::Constant(Constant { value }));
                    proof {
                        assert(rpn_toks(rpn_stack@) =~= out0.push(RTok::Num(c.value@)));
                    }
                },
                InfixItem::Operator(o) => {
                    proof {
                        assert(infix_wf(self.tokens@[idx as int]));
                    }
                    let mut op = *o;
                    if idx > 0 {
                        proof {
                            assert(itoks[idx - 1] == infix_tok(self.tokens@[idx - 1]));
                        }
                        match &self.tokens[idx - 1] {
                            InfixItem::Operator(_) => op.make_unary(),
                            InfixItem::Parenthesis(parenthesis) => match parenthesis.variant {
                                ParenthesisVariant::Left => op.make_unary(),
                                _ => {},
                            },
                            _ => {},
                        }
                    } else {
                        op.make_unary();
                    }
                    let ghost k = op.symbol;
                    proof {
                        assert(op.wf());
                        assert(ctoks[idx as int] == ITok::Op(k));
                    }
                    if !non_constant_stack.is_empty() {
                        let mut top_precedence = Operator::get_top_stack_precedence(
                            &mut non_constant_stack,
                        );
                        while (op.is_left_associative && op.precedence <= top_precedence) || (
                        op.precedence < top_precedence)
                            invariant_except_break
                                top_precedence == top_stack_precedence(non_constant_stack@),
                            invariant
                                op.wf(),
                                op.symbol == k,
                                nc_seq_wf(non_constant_stack@),
                                rpn_seq_wf(rpn_stack@),
                                pop_ge(pend0, out0, k) == pop_ge(
                                    nc_toks(non_constant_stack@),
                                    rpn_toks(rpn_stack@),
                                    k,
                                ),
                            ensures
                                op.wf(),
                                op.symbol == k,
                                nc_seq_wf(non_constant_stack@),
                                rpn_seq_wf(rpn_stack@),
                                pop_ge(pend0, out0, k) == (
                                    nc_toks(non_constant_stack@),
                                    rpn_toks(rpn_stack@),
                                ),
                            decreases non_constant_stack@.len(),
                        {
                            let ghost pend_in = nc_toks(non_constant_stack@);
                            let ghost out_in = rpn_toks(rpn_stack@);
                            proof {
                                assert(kind_precedence(k) >= 2);
                                assert(non_constant_stack@.len() > 0);
                                assert(pend_in.last() == nc_tok(non_constant_stack@.last()));
                                assert(nc_wf(non_constant_stack@.last()));
                            }
                            match non_constant_stack.pop() {
                                Some(top_item) => match top_item {
                                    NonConstant::Operator(operator) => {
                                        rpn_stack.push(RpnItem::Operator(operator));
                                        proof {
                                            assert(nc_toks(non_constant_stack@)
                                                =~= pend_in.drop_last());
                                            assert(rpn_toks(rpn_stack@) =~= out_in.push(
                                                RTok::Op(operator.symbol),
                                            ));
                                        }
                                    },
                                    NonConstant::Parenthesis(_) => {
                                        proof {
                                            assert(false);
                                        }
                                    },
                                },
                                None => {
                                    proof {
                                        assert(false);
                                    }
                                },
                            }
                            if non_constant_stack.is_empty() {
                                break;
                            }
                            top_precedence = Operator::get_top_stack_precedence(
                                &mut non_constant_stack,
                            );
                        }
                    }
                    let ghost po = pop_ge(pend0, out0, k);
                    non_constant_stack.push(NonConstant::Operator(op));
                    proof {
                        assert(nc_toks(non_constant_stack@) =~= po.0.push(PTok::Op(k)));
                        assert(rpn_toks(rpn_stack@) == po.1);
                    }
                },
                InfixItem::Parenthesis(p) => {
                    match p.variant {
                        ParenthesisVariant::Left => {
                            proof {
                                assert(ctoks[idx as int] == ITok::LParen);
                            }
                            non_constant_stack.push(NonConstant::Parenthesis(*p));
                            proof {
                                assert(nc_toks(non_constant_stack@) =~= pend0.push(PTok::LParen));
                            }
                        },
                        ParenthesisVariant::Right => {
                            proof {
                                assert(ctoks[idx as int] == ITok::RParen);
                            }
                            loop
                                invariant
                                    idx < n,
                                    n == self.tokens@.len(),
                                    infix_seq_wf(self.tokens@),
                                    itoks == infix_toks(self.tokens@),
                                    itoks == tokenize_spec(expression@),
                                    ctoks == classify(itoks),
                                    ctoks[idx as int] == ITok::RParen,
                                    nc_seq_wf(non_constant_stack@),
                                    rpn_seq_wf(rpn_stack@),
                                    close_paren(pend0, out0) == close_paren(
                                        nc_toks(non_constant_stack@),
                                        rpn_toks(rpn_stack@),
                                    ),
                                    shunt_from(ctoks, idx as int, pend0, out0) == shunt_from(
                                        ctoks,
                                        0,
                                        Seq::empty(),
                                        Seq::empty(),
                                    ),
                                ensures
                                    nc_seq_wf(non_constant_stack@),
                                    rpn_seq_wf(rpn_stack@),
                                    non_constant_stack@.len() > 0,
                                    nc_toks(non_constant_stack@).last() == PTok::LParen,
                                    close_paren(pend0, out0) == close_paren(
                                        nc_toks(non_constant_stack@),
                                        rpn_toks(rpn_stack@),
                                    ),
                                decreases non_constant_stack@.len(),
                            {
                                let ghost pend_in = nc_toks(non_constant_stack@);
                                let ghost out_in = rpn_toks(rpn_stack@);
                                if non_constant_stack.is_empty() {
                                    proof {
                                        assert(close_paren(pend_in, out_in)
                                            == Err::<(Seq<PTok>, Seq<RTok>), ExpressionParseError>(
                                            ExpressionParseError {  },
                                        ));
                                        assert(shunt_from(ctoks, idx as int, pend0, out0)
                                            == Err::<Seq<RTok>, ExpressionParseError>(
                                            ExpressionParseError {  },
                                        ));
                                    }
                                    return Err(ExpressionParseError {  });
                                }
                                proof {
                                    assert(pend_in.last() == nc_tok(non_constant_stack@.last()));
                                    assert(nc_wf(non_constant_stack@.last()));
                                }
                                let mut top_is_left = false;
                                match non_constant_stack.last() {
                                    Some(nc) => {
                                        top_is_left = Parenthesis::is_left_parenthesis(nc);
                                    },
                                    None => {
                                        proof {
                                            assert(false);
                                        }
                                    },
                                }
                                if top_is_left {
                                    proof {
                                        assert(spec_is_left_parenthesis(
                                            non_constant_stack@.last(),
                                        ));
                                        assert(pend_in.last() == PTok::LParen);
                                    }
                                    break;
                                }
                                match non_constant_stack.pop() {
                                    Some(top_item) => match top_item {
                                        NonConstant::Operator(operator) => {
                                            rpn_stack.push(RpnItem::Operator(operator));
                                            proof {
                                                assert(nc_toks(non_constant_stack@)
                                                    =~= pend_in.drop_last());
                                                assert(rpn_toks(rpn_stack@) =~= out_in.push(
                                                    RTok::Op(operator.symbol),
                                                ));
                                            }
                                        },
                                        NonConstant::Parenthesis(_) => {
                                            proof {
                                                assert(false);
                                            }
                                        },
                                    },
                                    None => {
                                        proof {
                                            assert(false);
                                        }
                                    },
                                }
                            }
                            let ghost pend_cl = nc_toks(non_constant_stack@);
                            let ghost out_cl = rpn_toks(rpn_stack@);
                            non_constant_stack.pop();
                            proof {
                                assert(close_paren(pend_cl, out_cl) == Ok::<
                                    (Seq<PTok>, Seq<RTok>),
                                    ExpressionParseError,
                                >((pend_cl.drop_last(), out_cl)));
                                assert(nc_toks(non_constant_stack@) =~= pend_cl.drop_last());
                            }
                        },
                    }
                },
            }
            idx = idx + 1;
        }
        proof {
            assert(shunt_from(ctoks, n as int, nc_toks(non_constant_stack@), rpn_toks(rpn_stack@))
                == drain_pending(nc_toks(non_constant_stack@), rpn_toks(rpn_stack@)));
        }
        loop
            invariant
                n == self.tokens@.len(),
                infix_seq_wf(self.tokens@),
                itoks == infix_toks(self.tokens@),
                itoks == tokenize_spec(expression@),
                ctoks == classify(itoks),
                nc_seq_wf(non_constant_stack@),
                rpn_seq_wf(rpn_stack@),
                drain_pending(nc_toks(non_constant_stack@), rpn_toks(rpn_stack@)) == shunt_from(
                    ctoks,
                    0,
                    Seq::empty(),
                    Seq::empty(),
                ),
            ensures
                infix_seq_wf(self.tokens@),
                itoks == infix_toks(self.tokens@),
                itoks == tokenize_spec(expression@),
                rpn_seq_wf(rpn_stack@),
                non_constant_stack@.len() == 0,
                drain_pending(nc_toks(non_constant_stack@), rpn_toks(rpn_stack@)) == shunt_from(
                    ctoks,
                    0,
                    Seq::empty(),
                    Seq::empty(),
                ),
            decreases non_constant_stack@.len(),
        {
            let ghost pend_in = nc_toks(non_constant_stack@);
            let ghost out_in = rpn_toks(rpn_stack@);
            proof {
                if non_constant_stack@.len() > 0 {
                    assert(pend_in.last() == nc_tok(non_constant_stack@.last()));
                    assert(nc_wf(non_constant_stack@.last()));
                }
            }
            match non_constant_stack.pop() {
                None => {
                    break;
                },
                Some(top_item) => match top_item {
                    NonConstant::Operator(operator) => {
                        rpn_stack.push(RpnItem::Operator(operator));
                        proof {
                            assert(nc_toks(non_constant_stack@) =~= pend_in.drop_last());
                            assert(rpn_toks(rpn_stack@) =~= out_in.push(
                                RTok::Op(operator.symbol),
                            ));
                        }
                    },
                    NonConstant::Parenthesis(_) => {
                        proof {
                            assert(drain_pending(pend_in, out_in) == Err::<
                                Seq<RTok>,
                                ExpressionParseError,
                            >(ExpressionParseError {  }));
                        }
                        return Err(ExpressionParseError {  });
                    },
                },
            }
        }
        proof {
            assert(drain_pending(nc_toks(non_constant_stack@), rpn_toks(rpn_stack@)) == Ok::<
                Seq<RTok>,
                ExpressionParseError,
            >(rpn_toks(rpn_stack@)));
        }
        Ok(rpn_stack)
    }
}

/// A scanned number token, a digit run around at most one dot, is a
/// well-formed unsigned decimal literal.
proof fn lemma_number_token_wf(s: Seq<char>, i: int, j: int, d1: int)
    requires
        0 <= i <= d1 <= j <= s.len(),
        d1 == digit_run_end(s, i),
        j == num_end(s, i),
        j > i,
        has_digit(s.subrange(i, j)),
    ensures
        is_decimal_lit(s.subrange(i, j)),
{
    let tok = s.subrange(i, j);
    lemma_digit_run_end(s, i);
    crate::decimal::lemma_dot_pos(tok);
    assert(!is_digit_char('-'));
    assert(tok[0] != '-');
    assert(crate::decimal::lit_body(tok) == tok);
    if d1 < s.len() && s[d1] == '.' && j == digit_run_end(s, d1 + 1) && d1 < j {
        // the token has a dot at position d1 - i
        lemma_digit_run_end(s, d1 + 1);
        let p = d1 - i;
        assert(tok[p] == '.');
        assert forall|q: int| 0 <= q < tok.len() && q != p implies is_digit_char(tok[q]) by {
            if q < p {
                assert(tok[q] == s[i + q]);
            } else {
                assert(tok[q] == s[i + q]);
            }
        }
        if crate::decimal::dot_pos(tok) < tok.len() && crate::decimal::dot_pos(tok) != p {
            assert(tok[crate::decimal::dot_pos(tok)] == '.');
            assert(is_digit_char(tok[crate::decimal::dot_pos(tok)]));
            assert(false);
        }
        if crate::decimal::dot_pos(tok) == tok.len() {
            assert(tok[p] != '.');
            assert(false);
        }
        assert(crate::decimal::dot_pos(tok) == p);
        assert(tok.len() >= 2);
    } else {
        // the token is the plain digit run
        assert(j == d1);
        assert forall|q: int| 0 <= q < tok.len() implies is_digit_char(tok[q]) by {
            assert(tok[q] == s[i + q]);
        }
        if crate::decimal::dot_pos(tok) < tok.len() {
            assert(tok[crate::decimal::dot_pos(tok)] == '.');
            assert(false);
        }
    }
}

} // verus!
