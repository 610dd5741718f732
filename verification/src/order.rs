//! The parser keeps the tokens in their order: an expression read from left to right
//! is the tokens that it was parsed from, without their parentheses.

use crate::ast::Expression;
use crate::grammar::{
    infix_operator, left_binding_power, parse_expr, parse_infix, parse_prefix, prefix_operator,
    right_binding_power, token_at, tokens_left, PREFIX_BINDING_POWER,
};
use crate::token::Token;
use vstd::prelude::*;

verus! {

/// Whether the token is a parenthesis.
pub open spec fn is_parenthesis(token: Token) -> bool {
    token == Token::LParen || token == Token::RParen
}

/// The tokens of `ts` that are no parentheses, in their order.
pub open spec fn without_parentheses(ts: Seq<Token>) -> Seq<Token>
    decreases ts.len(),
{
    if ts.len() == 0 {
        Seq::empty()
    } else if is_parenthesis(ts[0]) {
        without_parentheses(ts.skip(1))
    } else {
        seq![ts[0]] + without_parentheses(ts.skip(1))
    }
}

impl Expression {
    /// The integers and the operators of the expression, read from left to right.
    pub open spec fn in_order(self) -> Seq<Token>
        decreases self,
    {
        match self {
            Expression::Integer(value) => seq![Token::Integer(value)],
            Expression::UnaryOp { op, expr } => seq![op.token()] + expr.in_order(),
            Expression::BinaryOp { left, op, right } => left.in_order() + seq![op.token()]
                + right.in_order(),
        }
    }
}

/// Taking the parentheses out of two runs of tokens, one after the other, is taking
/// them out of the whole.
pub proof fn lemma_without_parentheses_adds(first: Seq<Token>, second: Seq<Token>)
    ensures
        without_parentheses(first + second) == without_parentheses(first) + without_parentheses(
            second,
        ),
    decreases first.len(),
{
    if first.len() == 0 {
        assert(first + second =~= second);
    } else {
        lemma_without_parentheses_adds(first.skip(1), second);
        assert((first + second).skip(1) =~= first.skip(1) + second);
    }
}

/// The tokens from `from` up to `to` are those up to `middle` and those from `middle`
/// on.
proof fn lemma_split(ts: Seq<Token>, from: int, middle: int, to: int)
    requires
        0 <= from <= middle <= to <= ts.len(),
    ensures
        without_parentheses(ts.subrange(from, to)) == without_parentheses(
            ts.subrange(from, middle),
        ) + without_parentheses(ts.subrange(middle, to)),
{
    assert(ts.subrange(from, to) =~= ts.subrange(from, middle) + ts.subrange(middle, to));
    lemma_without_parentheses_adds(ts.subrange(from, middle), ts.subrange(middle, to));
}

/// One token without its parentheses is itself, or nothing where it is a parenthesis.
proof fn lemma_one(ts: Seq<Token>, pos: int)
    requires
        0 <= pos < ts.len(),
    ensures
        without_parentheses(ts.subrange(pos, pos + 1)) == if is_parenthesis(ts[pos]) {
            Seq::<Token>::empty()
        } else {
            seq![ts[pos]]
        },
{
    let one = ts.subrange(pos, pos + 1);
    assert(one.skip(1) =~= Seq::<Token>::empty());
    assert(one[0] == ts[pos]);
    assert(without_parentheses(one.skip(1)) =~= Seq::<Token>::empty());
}

/// An expression that was parsed took its tokens from within the sequence, and read
/// from left to right it is those tokens without their parentheses.
pub proof fn lemma_parse_keeps_order(ts: Seq<Token>, pos: int, min_bp: int)
    requires
        0 <= pos,
    ensures
        parse_expr(ts, pos, min_bp).0 matches Ok(e) ==> {
            let n = parse_expr(ts, pos, min_bp).1;
            pos + n <= ts.len() && e.in_order() == without_parentheses(ts.subrange(pos, pos + n))
        },
    decreases tokens_left(ts, pos), 2int,
{
    lemma_operand_keeps_order(ts, pos);
    let (first, n) = parse_prefix(ts, pos);
    if let Ok(left) = first {
        lemma_joined_keeps_order(ts, pos + n, left, min_bp);
        let m = parse_infix(ts, pos + n, left, min_bp).1;
        if parse_infix(ts, pos + n, left, min_bp).0 is Ok {
            lemma_split(ts, pos, pos + n, pos + n + m);
        }
    }
}

/// As [`lemma_parse_keeps_order`], of an operand.
pub proof fn lemma_operand_keeps_order(ts: Seq<Token>, pos: int)
    requires
        0 <= pos,
    ensures
        parse_prefix(ts, pos).0 matches Ok(e) ==> {
            let n = parse_prefix(ts, pos).1;
            pos + n <= ts.len() && e.in_order() == without_parentheses(ts.subrange(pos, pos + n))
        },
    decreases tokens_left(ts, pos), 1int,
{
    let token = token_at(ts, pos);
    if parse_prefix(ts, pos).0 is Ok {
        assert(pos < ts.len());
        lemma_one(ts, pos);
        if token == Token::LParen {
            lemma_parse_keeps_order(ts, pos + 1, 0);
            let n = parse_expr(ts, pos + 1, 0).1;
            assert(token_at(ts, pos + 1 + n) == Token::RParen);
            lemma_one(ts, pos + 1 + n);
            lemma_split(ts, pos, pos + 1, pos + n + 2);
            lemma_split(ts, pos + 1, pos + 1 + n, pos + n + 2);
        } else if prefix_operator(token).is_some() {
            lemma_parse_keeps_order(ts, pos + 1, PREFIX_BINDING_POWER as int);
            let n = parse_expr(ts, pos + 1, PREFIX_BINDING_POWER as int).1;
            lemma_split(ts, pos, pos + 1, pos + 1 + n);
        }
    }
}

/// As [`lemma_parse_keeps_order`], of an operand with the operators that follow it.
pub proof fn lemma_joined_keeps_order(ts: Seq<Token>, pos: int, left: Expression, min_bp: int)
    requires
        0 <= pos <= ts.len(),
    ensures
        parse_infix(ts, pos, left, min_bp).0 matches Ok(e) ==> {
            let m = parse_infix(ts, pos, left, min_bp).1;
            pos + m <= ts.len() && e.in_order() == left.in_order() + without_parentheses(
                ts.subrange(pos, pos + m),
            )
        },
    decreases tokens_left(ts, pos), 0int,
{
    let none = Seq::<Token>::empty();
    assert(ts.subrange(pos, pos) =~= none);
    assert(left.in_order() + none =~= left.in_order());
    if let Some(op) = infix_operator(token_at(ts, pos)) {
        if min_bp < left_binding_power(op) {
            lemma_parse_keeps_order(ts, pos + 1, right_binding_power(op));
            let (operand, n) = parse_expr(ts, pos + 1, right_binding_power(op));
            if let Ok(right) = operand {
                let joined = Expression::BinaryOp {
                    left: Box::new(left),
                    op,
                    right: Box::new(right),
                };
                lemma_joined_keeps_order(ts, pos + 1 + n, joined, min_bp);
                let m = parse_infix(ts, pos + 1 + n, joined, min_bp).1;
                if parse_infix(ts, pos + 1 + n, joined, min_bp).0 is Ok {
                    lemma_one(ts, pos);
                    lemma_split(ts, pos, pos + 1, pos + 1 + n);
                    lemma_split(ts, pos, pos + 1 + n, pos + 1 + n + m);
                    let e = parse_infix(ts, pos + 1 + n, joined, min_bp).0->Ok_0;
                    assert(e.in_order() =~= left.in_order() + without_parentheses(
                        ts.subrange(pos, pos + 1 + n + m),
                    ));
                }
            }
        }
    }
}

} // verus!
