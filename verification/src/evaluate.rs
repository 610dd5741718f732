use crate::ast::{BinaryOperator, Expression, UnaryOperator};
use vstd::arithmetic::power::pow;
use vstd::prelude::*;

verus! {

/// Why an expression has no value.
#[derive(Debug, PartialEq, Eq, Clone, Copy, Structural)]
pub enum EvalError {
    /// The right operand of `/` was zero.
    DivisionByZero,
    /// The right operand of `^` was negative.
    NegativeExponent,
    /// A result did not fit in a 64-bit signed integer.
    Overflow,
}

/// The quotient of `a` by `b`, rounded toward zero.
pub open spec fn truncated_quotient(a: int, b: int) -> int
    recommends
        b != 0,
{
    if a >= 0 && b > 0 {
        a / b
    } else if a >= 0 {
        -(a / (-b))
    } else if b > 0 {
        -((-a) / b)
    } else {
        (-a) / (-b)
    }
}

/// `v` as a result: itself where it fits in a 64-bit signed integer, an overflow where it does not.
pub open spec fn checked(v: int) -> Result<i64, EvalError> {
    if i64::MIN <= v <= i64::MAX {
        Ok(v as i64)
    } else {
        Err(EvalError::Overflow)
    }
}

/// What a prefix operator makes of the value of its operand.
pub open spec fn apply_unary(op: UnaryOperator, v: i64) -> Result<i64, EvalError> {
    match op {
        UnaryOperator::Plus => Ok(v),
        UnaryOperator::Minus => checked(-v),
    }
}

/// What an infix operator makes of the values of its operands.
pub open spec fn apply_binary(op: BinaryOperator, l: i64, r: i64) -> Result<i64, EvalError> {
    match op {
        BinaryOperator::Plus => checked(l + r),
        BinaryOperator::Minus => checked(l - r),
        BinaryOperator::Multiply => checked(l * r),
        BinaryOperator::Divide => if r == 0 {
            Err(EvalError::DivisionByZero)
        } else {
            checked(truncated_quotient(l as int, r as int))
        },
        BinaryOperator::Power => if r < 0 {
            Err(EvalError::NegativeExponent)
        } else {
            checked(pow(l as int, r as nat))
        },
    }
}

/// The value of an expression: operands are taken from left to right, and the first
/// failure met on the way is the result.
pub open spec fn value(e: Expression) -> Result<i64, EvalError>
    decreases e,
{
    match e {
        Expression::Integer(v) => Ok(v),
        Expression::UnaryOp { op, expr } => match value(*expr) {
            Ok(v) => apply_unary(op, v),
            Err(err) => Err(err),
        },
        Expression::BinaryOp { left, op, right } => match value(*left) {
            Ok(l) => match value(*right) {
                Ok(r) => apply_binary(op, l, r),
                Err(err) => Err(err),
            },
            Err(err) => Err(err),
        },
    }
}

impl EvalError {
    /// The wording of the error.
    pub open spec fn text(self) -> Seq<char> {
        match self {
            EvalError::DivisionByZero => "Division by zero!"@,
            EvalError::NegativeExponent => "Negative exponents not supported for integers"@,
            EvalError::Overflow => "Integer overflow"@,
        }
    }

    /// The error in words.
    pub fn to_string(&self) -> (s: String)
        ensures
            s@ == self.text(),
    {
        match self {
            EvalError::DivisionByZero => String::from_str("Division by zero!"),
            EvalError::NegativeExponent => String::from_str(
                "Negative exponents not supported for integers",
            ),
            EvalError::Overflow => String::from_str("Integer overflow"),
        }
    }
}

/// The magnitude of an integer.
spec fn magnitude(v: int) -> int {
    if v < 0 {
        -v
    } else {
        v
    }
}

/// Of a base of magnitude two or more, each power is at least twice the power before
/// it in magnitude, and no power is zero.
proof fn lemma_pow_doubles(b: int, e: nat)
    requires
        magnitude(b) >= 2,
    ensures
        magnitude(pow(b, e)) >= 1,
        magnitude(pow(b, e + 1)) >= 2 * magnitude(pow(b, e)),
    decreases e,
{
    reveal(pow);
    let p = pow(b, e);
    if e > 0 {
        lemma_pow_doubles(b, (e - 1) as nat);
    }
    assert(magnitude(b * p) >= 2 * magnitude(p)) by (nonlinear_arith)
        requires
            magnitude(b) >= 2,
    ;
}

/// Of a base of magnitude two or more, a later power is at least twice an earlier one
/// in magnitude.
proof fn lemma_pow_grows(b: int, i: nat, j: nat)
    requires
        magnitude(b) >= 2,
        i < j,
    ensures
        magnitude(pow(b, j)) >= 2 * magnitude(pow(b, i)),
    decreases j,
{
    lemma_pow_doubles(b, (j - 1) as nat);
    if i < j - 1 {
        lemma_pow_grows(b, i, (j - 1) as nat);
    }
}

/// `base` raised to `exp`, or an overflow where the power does not fit.
fn checked_power(base: i64, exp: i64) -> (r: Result<i64, EvalError>)
    requires
        exp >= 0,
    ensures
        r == checked(pow(base as int, exp as nat)),
{
    if exp == 0 {
        proof {
            reveal(pow);
        }
        return Ok(1);
    }
    if base == 0 || base == 1 {
        proof {
            lemma_pow_of_small_base(base as int, exp as nat);
        }
        return Ok(base);
    }
    if base == -1 {
        proof {
            lemma_pow_of_small_base(base as int, exp as nat);
        }
        return Ok(if exp % 2 == 0 { 1 } else { -1 });
    }
    let mut acc: i64 = 1;
    let mut i: i64 = 0;
    proof {
        reveal(pow);
    }
    while i < exp
        invariant
            0 <= i <= exp,
            base >= 2 || base <= -2,
            acc == pow(base as int, i as nat),
        decreases exp - i,
    {
        proof {
            reveal(pow);
            assert(base * acc == acc * base) by (nonlinear_arith);
        }
        match acc.checked_mul(base) {
            Some(next) => {
                acc = next;
                i = i + 1;
            },
            None => {
                proof {
                    // The power that failed to fit is no larger than the one asked for.
                    if i + 1 < exp {
                        lemma_pow_grows(base as int, (i + 1) as nat, exp as nat);
                    }
                }
                return Err(EvalError::Overflow);
            },
        }
    }
    Ok(acc)
}

/// The powers of zero, one and minus one.
proof fn lemma_pow_of_small_base(b: int, e: nat)
    requires
        -1 <= b <= 1,
        e > 0,
    ensures
        b == 0 ==> pow(b, e) == 0,
        b == 1 ==> pow(b, e) == 1,
        b == -1 ==> pow(b, e) == if e % 2 == 0 { 1int } else { -1int },
    decreases e,
{
    reveal(pow);
    if e > 1 {
        lemma_pow_of_small_base(b, (e - 1) as nat);
    } else {
        assert(pow(b, 0) == 1);
    }
}

/// Reduces an expression to its value.
///
/// Arithmetic is checked: a result outside the 64-bit signed range is an
/// [`EvalError::Overflow`], never a wrapped number. Division rounds toward zero. The
/// recursion is as deep as the expression is nested.
pub fn evaluate(expr: &Expression) -> (r: Result<i64, EvalError>)
    ensures
        r == value(*expr),
    decreases *expr,
{
    match expr {
        Expression::Integer(val) => Ok(*val),
        Expression::UnaryOp { op, expr: operand } => {
            let val: i64 = match evaluate(operand) {
                Ok(v) => v,
                Err(err) => { return Err(err); },
            };
            match op {
                UnaryOperator::Plus => Ok(val),
                UnaryOperator::Minus => match 0i64.checked_sub(val) {
                    Some(v) => Ok(v),
                    None => Err(EvalError::Overflow),
                },
            }
        },
        Expression::BinaryOp { left, op, right } => {
            let left_val: i64 = match evaluate(left) {
                Ok(v) => v,
                Err(err) => { return Err(err); },
            };
            let right_val: i64 = match evaluate(right) {
                Ok(v) => v,
                Err(err) => { return Err(err); },
            };
            match op {
                BinaryOperator::Plus => match left_val.checked_add(right_val) {
                    Some(v) => Ok(v),
                    None => Err(EvalError::Overflow),
                },
                BinaryOperator::Minus => match left_val.checked_sub(right_val) {
                    Some(v) => Ok(v),
                    None => Err(EvalError::Overflow),
                },
                BinaryOperator::Multiply => match left_val.checked_mul(right_val) {
                    Some(v) => Ok(v),
                    None => Err(EvalError::Overflow),
                },
                BinaryOperator::Divide => {
                    if right_val == 0 {
                        Err(EvalError::DivisionByZero)
                    } else {
                        match left_val.checked_div(right_val) {
                            Some(v) => Ok(v),
                            None => Err(EvalError::Overflow),
                        }
                    }
                },
                BinaryOperator::Power => {
                    if right_val < 0 {
                        Err(EvalError::NegativeExponent)
                    } else {
                        checked_power(left_val, right_val)
                    }
                },
            }
        },
    }
}

} // verus!
