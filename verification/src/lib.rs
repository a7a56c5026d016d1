pub mod constant;
pub mod decimal;
pub mod expression_parse_error;
pub mod expression_parser;
pub mod laws;
pub mod operator;
pub mod parenthesis;
pub mod parsable_expression;
pub mod rational;
pub mod rpn_parse_error;
pub mod rpn_parser;
