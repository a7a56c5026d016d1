use calculate::decimal::Decimal;
use calculate::expression_parser::ExpressionParser;
use calculate::operator::{Operator, OperatorKind};
use calculate::parenthesis::{Parenthesis, ParenthesisVariant};
use calculate::parsable_expression::{NonConstant, RpnItem};
use calculate::rpn_parse_error::RpnParseError;
use calculate::rpn_parser::{rpn_items_wf, RpnParser};

fn evaluate(expression: &str) -> Result<Decimal, RpnParseError> {
    let mut parser = ExpressionParser::new();
    let mut rpn_stack = parser.parse_to_rpn(expression).expect("expression should parse");
    let mut rpn_parser = RpnParser::new();
    rpn_parser.parse_rpn(&mut rpn_stack)
}

fn evaluate_to(expression: &str, expected: &str) {
    let result = evaluate(expression).expect("evaluation should succeed");
    let expected = Decimal::from_text(expected).expect("expected literal should be well formed");
    assert!(result.eq_value(&expected));
}

fn postfix_symbols(expression: &str) -> Vec<String> {
    let mut parser = ExpressionParser::new();
    let rpn_stack = parser.parse_to_rpn(expression).expect("expression should parse");
    let mut symbols = Vec::new();
    for item in &rpn_stack {
        symbols.push(match item {
            RpnItem::Constant(c) => c.value.as_text().to_string(),
            RpnItem::Operator(o) => match o.symbol {
                OperatorKind::Add => "+".to_string(),
                OperatorKind::Subtract => "-".to_string(),
                OperatorKind::Multiply => "*".to_string(),
                OperatorKind::Divide => "/".to_string(),
                OperatorKind::Power => "^".to_string(),
                OperatorKind::UnaryPlus => "p".to_string(),
                OperatorKind::UnaryNegate => "n".to_string(),
            },
            RpnItem::Parenthesis(_) => "paren".to_string(),
        });
    }
    symbols
}

#[test]
fn exact_decimal_scenarios() {
    evaluate_to("4+2", "6");
    evaluate_to("4.4+2.3", "6.7");
    evaluate_to("26/2", "13");
    evaluate_to("5/2", "2.5");
    evaluate_to("4*(3+5)/2", "16");
    evaluate_to("4.6*(1.8+3.2*9)/18", "7.82");
    evaluate_to("-5", "-5");
    evaluate_to("+(5-8)", "3");
}

#[test]
fn multiplication_binds_tighter_than_addition() {
    evaluate_to("4+2*3", "10");
    assert_eq!(postfix_symbols("4+2*3"), vec!["4", "2", "3", "*", "+"]);
}

#[test]
fn division_by_zero_is_an_error() {
    assert_eq!(evaluate("5/0").unwrap_err(), RpnParseError::DivisionByZero);
    assert_eq!(evaluate("1/(3-3)").unwrap_err(), RpnParseError::DivisionByZero);
}

#[test]
fn power_is_unsupported_but_parses() {
    assert_eq!(evaluate("2^3").unwrap_err(), RpnParseError::UnsupportedOperation);
}

#[test]
fn power_converts_right_associatively() {
    assert_eq!(postfix_symbols("2^3^2"), vec!["2", "3", "2", "^", "^"]);
}

#[test]
fn unary_minus_converts_above_power() {
    assert_eq!(postfix_symbols("-2^2"), vec!["2", "2", "^", "n"]);
    assert_eq!(evaluate("-2^2").unwrap_err(), RpnParseError::UnsupportedOperation);
}

#[test]
fn unbalanced_parentheses_are_parse_errors() {
    let mut parser = ExpressionParser::new();
    assert!(parser.parse_to_rpn("(4+2").is_err());
    let mut parser = ExpressionParser::new();
    assert!(parser.parse_to_rpn("4+2)").is_err());
    let mut parser = ExpressionParser::new();
    assert!(parser.parse_to_rpn("((4+2)").is_err());
    let mut parser = ExpressionParser::new();
    assert!(parser.parse_to_rpn("(4+2)").is_ok());
}

#[test]
fn underflow_and_leftovers_are_errors() {
    assert_eq!(evaluate("4+").unwrap_err(), RpnParseError::EmptyValueStack);
    assert_eq!(evaluate("").unwrap_err(), RpnParseError::EmptyResult);
    assert_eq!(evaluate("hello").unwrap_err(), RpnParseError::EmptyResult);
    assert_eq!(evaluate("4 5").unwrap_err(), RpnParseError::LeftoverValues);
}

#[test]
fn stray_parenthesis_in_postfix_is_rejected() {
    let mut rpn_stack = vec![RpnItem::Parenthesis(Parenthesis {
        variant: ParenthesisVariant::Left,
    })];
    assert!(rpn_items_wf(&rpn_stack));
    let mut rpn_parser = RpnParser::new();
    assert_eq!(
        rpn_parser.parse_rpn(&mut rpn_stack).unwrap_err(),
        RpnParseError::UnexpectedParenthesis
    );
    assert_eq!(rpn_stack.len(), 0);
}

#[test]
fn tokenizer_skips_junk_and_lone_dots() {
    evaluate_to("4 +  2", "6");
    evaluate_to("4x+2y", "6");
    evaluate_to(". 4+2 .", "6");
    evaluate_to(".5+5.", "5.5");
}

#[test]
fn literal_validation() {
    assert!(Decimal::from_text("5").is_some());
    assert!(Decimal::from_text("-2.5").is_some());
    assert!(Decimal::from_text(".5").is_some());
    assert!(Decimal::from_text("5.").is_some());
    assert!(Decimal::from_text("").is_none());
    assert!(Decimal::from_text(".").is_none());
    assert!(Decimal::from_text("-").is_none());
    assert!(Decimal::from_text("2.3.4").is_none());
    assert!(Decimal::from_text("--1").is_none());
    assert!(Decimal::from_text("abc").is_none());
    let five = Decimal::from_text("5").unwrap();
    assert_eq!(five.as_text(), "5");
    assert!(five.is_wf());
}

#[test]
fn value_equality_ignores_scale() {
    let a = Decimal::from_text("2510").unwrap();
    let b = Decimal::from_text("2510.0").unwrap();
    let c = Decimal::from_text("2510.5").unwrap();
    assert!(a.eq_value(&b));
    assert!(!a.eq_value(&c));
    let d = Decimal::from_text("-0.5").unwrap();
    let e = Decimal::from_text("-.5").unwrap();
    assert!(d.eq_value(&e));
}

#[test]
fn operator_table_and_unary_rewrite() {
    let mut plus = Operator::from_symbol(OperatorKind::Add);
    assert_eq!(plus.precedence, 2);
    assert!(plus.is_left_associative);
    plus.make_unary();
    assert_eq!(plus.symbol, OperatorKind::UnaryPlus);
    assert_eq!(plus.precedence, 5);
    assert!(!plus.is_left_associative);

    let mut minus = Operator::from_symbol(OperatorKind::Subtract);
    minus.make_unary();
    assert_eq!(minus.symbol, OperatorKind::UnaryNegate);

    let mut star = Operator::from_symbol(OperatorKind::Multiply);
    star.make_unary();
    assert_eq!(star.symbol, OperatorKind::Multiply);
}

#[test]
fn pending_stack_helpers() {
    let mut stack: Vec<NonConstant> = Vec::new();
    assert_eq!(Operator::get_top_stack_precedence(&mut stack), 0);
    stack.push(NonConstant::Operator(Operator::from_symbol(OperatorKind::Multiply)));
    assert_eq!(Operator::get_top_stack_precedence(&mut stack), 3);
    stack.push(NonConstant::Parenthesis(Parenthesis { variant: ParenthesisVariant::Left }));
    assert_eq!(Operator::get_top_stack_precedence(&mut stack), 0);

    assert!(Parenthesis::is_left_parenthesis(&stack[1]));
    assert!(!Parenthesis::is_left_parenthesis(&stack[0]));
}

#[test]
fn error_messages() {
    assert_eq!(RpnParseError::EmptyValueStack.message(), "Empty value stack");
    assert_eq!(RpnParseError::UnexpectedParenthesis.message(), "Unexpected parenthesis");
    assert_eq!(RpnParseError::DivisionByZero.message(), "Division by zero");
    assert_eq!(RpnParseError::UnsupportedOperation.message(), "Unsupported operation");
    assert_eq!(RpnParseError::EmptyResult.message(), "Empty result");
    assert_eq!(RpnParseError::LeftoverValues.message(), "Leftover values");
}

#[test]
fn long_division_rounds_when_inexact() {
    let result = evaluate("1/3").expect("inexact division still yields a value");
    let third = Decimal::from_text("0.3").unwrap();
    assert!(!result.eq_value(&third));
    assert!(result.as_text().starts_with("0.3333333333"));
}
