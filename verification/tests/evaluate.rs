use pratt_calc::ast::{BinaryOperator, Expression, Statement, UnaryOperator};
use pratt_calc::evaluate::{evaluate, EvalError};
use pratt_calc::parser::{parse, Parser};

fn lit(value: i64) -> Expression {
    Expression::Integer(value)
}

fn unary(op: UnaryOperator, expr: Expression) -> Expression {
    Expression::UnaryOp { op, expr: Box::new(expr) }
}

fn binary(left: Expression, op: BinaryOperator, right: Expression) -> Expression {
    Expression::BinaryOp { left: Box::new(left), op, right: Box::new(right) }
}

fn eval_source(source: &str) -> Result<i64, EvalError> {
    let mut parser = Parser::new(source);
    let mut program = parser.parse_program();
    assert_eq!(parser.errors.len(), 0);
    assert_eq!(program.statements.len(), 1);
    match program.statements.remove(0) {
        Statement::ExpressionStatement(expr) => evaluate(&expr),
    }
}

#[test]
fn subtraction_associates_to_the_left() {
    assert_eq!(parse("10 - 5 - 2").0.to_string(), "((10 - 5) - 2)");
    assert_eq!(eval_source("10 - 5 - 2"), Ok(3));
}

#[test]
fn power_associates_to_the_right() {
    assert_eq!(parse("2 ^ 3 ^ 2").0.to_string(), "(2 ^ (3 ^ 2))");
    assert_eq!(eval_source("2 ^ 3 ^ 2"), Ok(512));
}

#[test]
fn a_prefix_operator_binds_more_strongly_than_an_infix_operator() {
    assert_eq!(parse("1 + -2 * 3").0.to_string(), "(1 + ((-2) * 3))");
    assert_eq!(eval_source("1 + -2 * 3"), Ok(-5));
}

#[test]
fn parentheses_override_precedence() {
    assert_eq!(eval_source("(1 + 2) * 3"), Ok(9));
    assert_eq!(eval_source("1 + 2 * 3"), Ok(7));
}

#[test]
fn division_by_zero_is_an_error() {
    assert_eq!(eval_source("5 / 0"), Err(EvalError::DivisionByZero));
    assert_eq!(eval_source("0 / 0"), Err(EvalError::DivisionByZero));
    assert_eq!(eval_source("1 + 5 / (2 - 2)"), Err(EvalError::DivisionByZero));
}

#[test]
fn a_negative_exponent_is_an_error() {
    assert_eq!(eval_source("2 ^ -1"), Err(EvalError::NegativeExponent));
    assert_eq!(eval_source("0 ^ -5"), Err(EvalError::NegativeExponent));
}

#[test]
fn an_integer_is_its_value() {
    assert_eq!(evaluate(&lit(42)), Ok(42));
    assert_eq!(evaluate(&lit(-42)), Ok(-42));
    assert_eq!(evaluate(&lit(i64::MIN)), Ok(i64::MIN));
}

#[test]
fn unary_operators() {
    assert_eq!(evaluate(&unary(UnaryOperator::Plus, lit(7))), Ok(7));
    assert_eq!(evaluate(&unary(UnaryOperator::Minus, lit(7))), Ok(-7));
    assert_eq!(evaluate(&unary(UnaryOperator::Minus, lit(-7))), Ok(7));
    assert_eq!(evaluate(&unary(UnaryOperator::Plus, lit(i64::MIN))), Ok(i64::MIN));
    assert_eq!(evaluate(&unary(UnaryOperator::Minus, lit(i64::MAX))), Ok(-i64::MAX));
    assert_eq!(evaluate(&unary(UnaryOperator::Minus, lit(i64::MIN))), Err(EvalError::Overflow));
}

#[test]
fn addition_subtraction_and_multiplication() {
    assert_eq!(evaluate(&binary(lit(2), BinaryOperator::Plus, lit(3))), Ok(5));
    assert_eq!(evaluate(&binary(lit(2), BinaryOperator::Minus, lit(3))), Ok(-1));
    assert_eq!(evaluate(&binary(lit(-4), BinaryOperator::Multiply, lit(3))), Ok(-12));
    assert_eq!(evaluate(&binary(lit(i64::MAX), BinaryOperator::Plus, lit(0))), Ok(i64::MAX));
    assert_eq!(evaluate(&binary(lit(i64::MIN), BinaryOperator::Minus, lit(0))), Ok(i64::MIN));
    assert_eq!(evaluate(&binary(lit(i64::MIN), BinaryOperator::Multiply, lit(1))), Ok(i64::MIN));
}

#[test]
fn a_result_out_of_range_is_an_overflow() {
    assert_eq!(
        evaluate(&binary(lit(i64::MAX), BinaryOperator::Plus, lit(1))),
        Err(EvalError::Overflow)
    );
    assert_eq!(
        evaluate(&binary(lit(i64::MIN), BinaryOperator::Minus, lit(1))),
        Err(EvalError::Overflow)
    );
    assert_eq!(
        evaluate(&binary(lit(i64::MAX), BinaryOperator::Multiply, lit(2))),
        Err(EvalError::Overflow)
    );
    assert_eq!(
        evaluate(&binary(lit(i64::MIN), BinaryOperator::Multiply, lit(-1))),
        Err(EvalError::Overflow)
    );
    assert_eq!(
        evaluate(&binary(lit(i64::MIN), BinaryOperator::Divide, lit(-1))),
        Err(EvalError::Overflow)
    );
    assert_eq!(eval_source("9223372036854775807 + 1"), Err(EvalError::Overflow));
    assert_eq!(eval_source("2 ^ 63"), Err(EvalError::Overflow));
    assert_eq!(eval_source("10 ^ 19"), Err(EvalError::Overflow));
    assert_eq!(eval_source("3 ^ 9223372036854775807"), Err(EvalError::Overflow));
}

#[test]
fn division_rounds_toward_zero() {
    assert_eq!(evaluate(&binary(lit(7), BinaryOperator::Divide, lit(2))), Ok(3));
    assert_eq!(evaluate(&binary(lit(-7), BinaryOperator::Divide, lit(2))), Ok(-3));
    assert_eq!(evaluate(&binary(lit(7), BinaryOperator::Divide, lit(-2))), Ok(-3));
    assert_eq!(evaluate(&binary(lit(-7), BinaryOperator::Divide, lit(-2))), Ok(3));
    assert_eq!(evaluate(&binary(lit(0), BinaryOperator::Divide, lit(-2))), Ok(0));
    assert_eq!(evaluate(&binary(lit(1), BinaryOperator::Divide, lit(2))), Ok(0));
    assert_eq!(evaluate(&binary(lit(-1), BinaryOperator::Divide, lit(2))), Ok(0));
    assert_eq!(
        evaluate(&binary(lit(i64::MIN), BinaryOperator::Divide, lit(1))),
        Ok(i64::MIN)
    );
    assert_eq!(
        evaluate(&binary(lit(i64::MIN), BinaryOperator::Divide, lit(2))),
        Ok(-4611686018427387904)
    );
    assert_eq!(
        evaluate(&binary(lit(i64::MAX), BinaryOperator::Divide, lit(-1))),
        Ok(-i64::MAX)
    );
}

#[test]
fn powers() {
    assert_eq!(evaluate(&binary(lit(2), BinaryOperator::Power, lit(10))), Ok(1024));
    assert_eq!(evaluate(&binary(lit(2), BinaryOperator::Power, lit(0))), Ok(1));
    assert_eq!(evaluate(&binary(lit(0), BinaryOperator::Power, lit(0))), Ok(1));
    assert_eq!(evaluate(&binary(lit(0), BinaryOperator::Power, lit(5))), Ok(0));
    assert_eq!(evaluate(&binary(lit(7), BinaryOperator::Power, lit(1))), Ok(7));
    assert_eq!(evaluate(&binary(lit(-3), BinaryOperator::Power, lit(3))), Ok(-27));
    assert_eq!(evaluate(&binary(lit(-3), BinaryOperator::Power, lit(2))), Ok(9));
    assert_eq!(evaluate(&binary(lit(3), BinaryOperator::Power, lit(39))), Ok(4052555153018976267));
    assert_eq!(evaluate(&binary(lit(3), BinaryOperator::Power, lit(40))), Err(EvalError::Overflow));
    assert_eq!(
        evaluate(&binary(lit(2), BinaryOperator::Power, lit(62))),
        Ok(4611686018427387904)
    );
    assert_eq!(evaluate(&binary(lit(-2), BinaryOperator::Power, lit(63))), Ok(i64::MIN));
    assert_eq!(
        evaluate(&binary(lit(-2), BinaryOperator::Power, lit(64))),
        Err(EvalError::Overflow)
    );
    assert_eq!(
        evaluate(&binary(lit(i64::MIN), BinaryOperator::Power, lit(1))),
        Ok(i64::MIN)
    );
    assert_eq!(
        evaluate(&binary(lit(i64::MIN), BinaryOperator::Power, lit(2))),
        Err(EvalError::Overflow)
    );
}

#[test]
fn powers_with_an_exponent_beyond_32_bits() {
    assert_eq!(evaluate(&binary(lit(1), BinaryOperator::Power, lit(i64::MAX))), Ok(1));
    assert_eq!(evaluate(&binary(lit(0), BinaryOperator::Power, lit(4294967296))), Ok(0));
    assert_eq!(evaluate(&binary(lit(-1), BinaryOperator::Power, lit(i64::MAX))), Ok(-1));
    assert_eq!(evaluate(&binary(lit(-1), BinaryOperator::Power, lit(4294967296))), Ok(1));
    assert_eq!(
        evaluate(&binary(lit(2), BinaryOperator::Power, lit(4294967296))),
        Err(EvalError::Overflow)
    );
}

#[test]
fn the_first_failure_from_the_left_is_the_result() {
    let by_zero = binary(lit(1), BinaryOperator::Divide, lit(0));
    let negative = binary(lit(2), BinaryOperator::Power, lit(-1));
    let too_large = binary(lit(i64::MAX), BinaryOperator::Plus, lit(1));
    assert_eq!(
        evaluate(&binary(by_zero.clone(), BinaryOperator::Plus, negative.clone())),
        Err(EvalError::DivisionByZero)
    );
    assert_eq!(
        evaluate(&binary(negative.clone(), BinaryOperator::Plus, by_zero.clone())),
        Err(EvalError::NegativeExponent)
    );
    assert_eq!(
        evaluate(&binary(too_large.clone(), BinaryOperator::Divide, lit(0))),
        Err(EvalError::Overflow)
    );
    assert_eq!(
        evaluate(&binary(lit(1), BinaryOperator::Divide, unary(UnaryOperator::Minus, by_zero))),
        Err(EvalError::DivisionByZero)
    );
    assert_eq!(
        evaluate(&unary(UnaryOperator::Minus, negative)),
        Err(EvalError::NegativeExponent)
    );
}

#[test]
fn errors_in_words() {
    assert_eq!(EvalError::DivisionByZero.to_string(), "Division by zero!");
    assert_eq!(
        EvalError::NegativeExponent.to_string(),
        "Negative exponents not supported for integers"
    );
    assert_eq!(EvalError::Overflow.to_string(), "Integer overflow");
}
