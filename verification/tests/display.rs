use pratt_calc::ast::{BinaryOperator, Expression, Program, Statement, UnaryOperator};
use pratt_calc::decimal::push_decimal;
use pratt_calc::token::Token;

fn lit(value: i64) -> Expression {
    Expression::Integer(value)
}

fn unary(op: UnaryOperator, expr: Expression) -> Expression {
    Expression::UnaryOp { op, expr: Box::new(expr) }
}

fn binary(left: Expression, op: BinaryOperator, right: Expression) -> Expression {
    Expression::BinaryOp { left: Box::new(left), op, right: Box::new(right) }
}

fn decimal(value: i64) -> String {
    let mut out = String::new();
    push_decimal(&mut out, value);
    out
}

fn name(token: Token) -> String {
    let mut out = String::new();
    token.push_name(&mut out);
    out
}

#[test]
fn integers_in_decimal_notation() {
    assert_eq!(decimal(0), "0");
    assert_eq!(decimal(7), "7");
    assert_eq!(decimal(10), "10");
    assert_eq!(decimal(-1), "-1");
    assert_eq!(decimal(1234567890), "1234567890");
    assert_eq!(decimal(i64::MAX), "9223372036854775807");
    assert_eq!(decimal(i64::MIN), "-9223372036854775808");
    let mut out = String::from("x = ");
    push_decimal(&mut out, -305);
    assert_eq!(out, "x = -305");
}

#[test]
fn operators_written_out() {
    assert_eq!(UnaryOperator::Plus.to_string(), "+");
    assert_eq!(UnaryOperator::Minus.to_string(), "-");
    assert_eq!(BinaryOperator::Plus.to_string(), "+");
    assert_eq!(BinaryOperator::Minus.to_string(), "-");
    assert_eq!(BinaryOperator::Multiply.to_string(), "*");
    assert_eq!(BinaryOperator::Divide.to_string(), "/");
    assert_eq!(BinaryOperator::Power.to_string(), "^");
    assert_eq!(UnaryOperator::Minus.symbol(), "-");
    assert_eq!(BinaryOperator::Power.symbol(), "^");
}

#[test]
fn expressions_written_out() {
    assert_eq!(lit(5).to_string(), "5");
    assert_eq!(lit(-5).to_string(), "-5");
    assert_eq!(unary(UnaryOperator::Minus, lit(2)).to_string(), "(-2)");
    assert_eq!(unary(UnaryOperator::Plus, lit(2)).to_string(), "(+2)");
    assert_eq!(binary(lit(1), BinaryOperator::Plus, lit(2)).to_string(), "(1 + 2)");
    assert_eq!(
        binary(
            lit(1),
            BinaryOperator::Plus,
            binary(unary(UnaryOperator::Minus, lit(2)), BinaryOperator::Multiply, lit(3))
        )
        .to_string(),
        "(1 + ((-2) * 3))"
    );
    assert_eq!(
        binary(
            binary(lit(8), BinaryOperator::Divide, lit(4)),
            BinaryOperator::Power,
            binary(lit(3), BinaryOperator::Minus, lit(1))
        )
        .to_string(),
        "((8 / 4) ^ (3 - 1))"
    );
    let mut out = String::from("> ");
    binary(lit(1), BinaryOperator::Minus, lit(2)).push_text(&mut out);
    assert_eq!(out, "> (1 - 2)");
}

#[test]
fn statements_and_programs_written_out() {
    let first = Statement::ExpressionStatement(binary(lit(1), BinaryOperator::Plus, lit(2)));
    let second = Statement::ExpressionStatement(lit(3));
    let third = Statement::ExpressionStatement(unary(UnaryOperator::Minus, lit(4)));
    assert_eq!(first.to_string(), "(1 + 2)");
    assert_eq!(Program { statements: vec![] }.to_string(), "");
    assert_eq!(Program { statements: vec![first.clone()] }.to_string(), "(1 + 2)");
    assert_eq!(
        Program { statements: vec![first.clone(), second.clone()] }.to_string(),
        "(1 + 2)\n3"
    );
    assert_eq!(Program { statements: vec![first, second, third] }.to_string(), "(1 + 2)\n3\n(-4)");
}

#[test]
fn tokens_by_name() {
    assert_eq!(name(Token::Integer(5)), "Integer(5)");
    assert_eq!(name(Token::Integer(-5)), "Integer(-5)");
    assert_eq!(name(Token::Integer(0)), "Integer(0)");
    assert_eq!(name(Token::Plus), "Plus");
    assert_eq!(name(Token::Minus), "Minus");
    assert_eq!(name(Token::Asterisk), "Asterisk");
    assert_eq!(name(Token::Slash), "Slash");
    assert_eq!(name(Token::Caret), "Caret");
    assert_eq!(name(Token::LParen), "LParen");
    assert_eq!(name(Token::RParen), "RParen");
    assert_eq!(name(Token::EOF), "EOF");
    assert_eq!(name(Token::Illegal), "Illegal");
    for token in [Token::Integer(12), Token::Caret, Token::EOF] {
        assert_eq!(name(token), format!("{:?}", token));
    }
}

#[test]
fn a_copy_is_equal_to_what_was_copied() {
    let e = binary(
        unary(UnaryOperator::Minus, lit(2)),
        BinaryOperator::Power,
        binary(lit(3), BinaryOperator::Divide, lit(4)),
    );
    assert_eq!(e.clone(), e);
    let statement = Statement::ExpressionStatement(e.clone());
    assert_eq!(statement.clone(), statement);
    let program = Program { statements: vec![statement, Statement::ExpressionStatement(lit(1))] };
    assert_eq!(program.clone(), program);
    assert_ne!(program.clone(), Program { statements: vec![] });
}
