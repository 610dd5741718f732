//! The grammar: what a sequence of tokens is parsed as.
//!
//! Expressions are parsed by operator precedence. Every infix operator has a left
//! and a right binding power; an operand is joined to the operator after it for as
//! long as the operator binds more strongly on its left than what the caller asked
//! for.
//!
//! | operator        | left | right |
//! |-----------------|------|-------|
//! | `+` `-` (infix) | 50   | 50    |
//! | `*` `/`         | 60   | 60    |
//! | `^`             | 71   | 70    |
//! | `+` `-` (prefix)|      | 80    |

use crate::ast::{BinaryOperator, Expression, Statement, UnaryOperator};
use crate::scan::tokens;
use crate::token::Token;
use vstd::prelude::*;
use vstd::string::*;

verus! {

/// The binding power with which a prefix operator takes its operand. It is above that
/// of every infix operator, so `-2 * 3` is `(-2) * 3`.
pub const PREFIX_BINDING_POWER: u8 = 80;

/// Why a run of tokens is no expression.
#[derive(Debug, PartialEq, Eq, Clone, Copy, Structural)]
pub enum ParseError {
    /// The token stood where an expression must begin, and no expression begins with it.
    UnexpectedPrefix(Token),
    /// The token was taken for an infix operator and is none.
    NotInfix(Token),
    /// One token was called for and another was found.
    Expected { expected: Token, found: Token },
}

impl ParseError {
    /// The wording of the error.
    pub open spec fn text(self) -> Seq<char> {
        match self {
            ParseError::UnexpectedPrefix(token) => "Unexpected token in NUD: "@ + token.name(),
            ParseError::NotInfix(token) => "Unexpected token in LED, not an infix operator: "@
                + token.name(),
            ParseError::Expected { expected, found } => "Expected "@ + expected.name()
                + ", but got "@ + found.name(),
        }
    }

    /// The error in words.
    pub fn to_string(&self) -> (s: String)
        ensures
            s@ == self.text(),
    {
        match self {
            ParseError::UnexpectedPrefix(token) => {
                let mut s = String::from_str("Unexpected token in NUD: ");
                token.push_name(&mut s);
                s
            },
            ParseError::NotInfix(token) => {
                let mut s = String::from_str("Unexpected token in LED, not an infix operator: ");
                token.push_name(&mut s);
                s
            },
            ParseError::Expected { expected, found } => {
                let mut s = String::from_str("Expected ");
                expected.push_name(&mut s);
                s.append(", but got ");
                found.push_name(&mut s);
                s
            },
        }
    }
}

/// The result of parsing from some position in a sequence of tokens: the expression or
/// the error, and the number of tokens that were taken.
pub type Parsed = (Result<Expression, ParseError>, nat);

/// The token at position `i`. Beyond the last token the end of input stands, as often
/// as one looks.
pub open spec fn token_at(ts: Seq<Token>, i: int) -> Token {
    if 0 <= i < ts.len() {
        ts[i]
    } else {
        Token::EOF
    }
}

/// How many tokens stand at position `pos` and after it.
pub open spec fn tokens_left(ts: Seq<Token>, pos: int) -> nat {
    if pos < ts.len() {
        (ts.len() - pos) as nat
    } else {
        0
    }
}

/// The prefix operator that a token is, if it is one.
pub open spec fn prefix_operator(token: Token) -> Option<UnaryOperator> {
    match token {
        Token::Plus => Some(UnaryOperator::Plus),
        Token::Minus => Some(UnaryOperator::Minus),
        _ => None,
    }
}

/// The infix operator that a token is, if it is one.
pub open spec fn infix_operator(token: Token) -> Option<BinaryOperator> {
    match token {
        Token::Plus => Some(BinaryOperator::Plus),
        Token::Minus => Some(BinaryOperator::Minus),
        Token::Asterisk => Some(BinaryOperator::Multiply),
        Token::Slash => Some(BinaryOperator::Divide),
        Token::Caret => Some(BinaryOperator::Power),
        _ => None,
    }
}

impl UnaryOperator {
    /// The token that the operator is read from.
    pub open spec fn token(self) -> Token {
        match self {
            UnaryOperator::Plus => Token::Plus,
            UnaryOperator::Minus => Token::Minus,
        }
    }
}

impl BinaryOperator {
    /// The token that the operator is read from.
    pub open spec fn token(self) -> Token {
        match self {
            BinaryOperator::Plus => Token::Plus,
            BinaryOperator::Minus => Token::Minus,
            BinaryOperator::Multiply => Token::Asterisk,
            BinaryOperator::Divide => Token::Slash,
            BinaryOperator::Power => Token::Caret,
        }
    }
}

/// The power with which an infix operator binds the expression on its left.
pub open spec fn left_binding_power(op: BinaryOperator) -> int {
    match op {
        BinaryOperator::Plus | BinaryOperator::Minus => 50,
        BinaryOperator::Multiply | BinaryOperator::Divide => 60,
        BinaryOperator::Power => 71,
    }
}

/// The power with which an infix operator binds the expression on its right. Where it
/// is below the left one, as for `^`, the operator associates to the right.
pub open spec fn right_binding_power(op: BinaryOperator) -> int {
    match op {
        BinaryOperator::Plus | BinaryOperator::Minus => 50,
        BinaryOperator::Multiply | BinaryOperator::Divide => 60,
        BinaryOperator::Power => 70,
    }
}

/// The left and right binding power of a token: those of the infix operator that it
/// is, and zero for a token that is none.
pub open spec fn binding_power(token: Token) -> (int, int) {
    match infix_operator(token) {
        Some(op) => (left_binding_power(op), right_binding_power(op)),
        None => (0, 0),
    }
}

/// The expression that begins at `pos` and whose infix operators all bind more
/// strongly than `min_bp`: an operand, and then as many operators with their right
/// operands as bind strongly enough.
pub open spec fn parse_expr(ts: Seq<Token>, pos: int, min_bp: int) -> Parsed
    decreases tokens_left(ts, pos), 2int,
{
    let (first, n) = parse_prefix(ts, pos);
    match first {
        Ok(left) => {
            let (whole, m) = parse_infix(ts, pos + n, left, min_bp);
            (whole, n + m)
        },
        Err(err) => (Err(err), n),
    }
}

/// The operand that begins at `pos`: an integer; a prefix operator with the expression
/// that it binds; or an expression between parentheses. Where the closing parenthesis
/// is missing, the token found in its place is not taken.
pub open spec fn parse_prefix(ts: Seq<Token>, pos: int) -> Parsed
    decreases tokens_left(ts, pos), 1int,
{
    let token = token_at(ts, pos);
    if let Token::Integer(value) = token {
        (Ok(Expression::Integer(value)), 1)
    } else if token == Token::LParen {
        let (inner, n) = parse_expr(ts, pos + 1, 0);
        match inner {
            Ok(e) => {
                let found = token_at(ts, pos + 1 + n);
                if found == Token::RParen {
                    (Ok(e), n + 2)
                } else {
                    (Err(ParseError::Expected { expected: Token::RParen, found }), n + 1)
                }
            },
            Err(err) => (Err(err), n + 1),
        }
    } else if let Some(op) = prefix_operator(token) {
        let (operand, n) = parse_expr(ts, pos + 1, PREFIX_BINDING_POWER as int);
        match operand {
            Ok(e) => (Ok(Expression::UnaryOp { op, expr: Box::new(e) }), n + 1),
            Err(err) => (Err(err), n + 1),
        }
    } else {
        (Err(ParseError::UnexpectedPrefix(token)), 1)
    }
}

/// What becomes of the expression `left` when it is followed by the tokens from `pos`
/// on: for as long as an infix operator follows that binds more strongly than
/// `min_bp`, the operator and its right operand are taken, and the whole is the left
/// operand of what follows.
pub open spec fn parse_infix(ts: Seq<Token>, pos: int, left: Expression, min_bp: int) -> Parsed
    decreases tokens_left(ts, pos), 0int,
{
    match infix_operator(token_at(ts, pos)) {
        Some(op) => if min_bp < left_binding_power(op) {
            let (operand, n) = parse_expr(ts, pos + 1, right_binding_power(op));
            match operand {
                Ok(right) => {
                    let joined = Expression::BinaryOp {
                        left: Box::new(left),
                        op,
                        right: Box::new(right),
                    };
                    let (whole, m) = parse_infix(ts, pos + 1 + n, joined, min_bp);
                    (whole, 1 + n + m)
                },
                Err(err) => (Err(err), 1 + n),
            }
        } else {
            (Ok(left), 0)
        },
        None => (Ok(left), 0),
    }
}

/// The statements and the errors that the tokens from `pos` on give, each in the order
/// of the source, and the number of tokens taken: up to the first end of input.
///
/// Each statement is an expression. Where none can be parsed, its error is recorded,
/// one more token is passed over, and parsing goes on from there.
pub open spec fn parse_statements(ts: Seq<Token>, pos: int) -> (
    Seq<Statement>,
    Seq<ParseError>,
    nat,
)
    decreases tokens_left(ts, pos),
{
    if token_at(ts, pos) == Token::EOF {
        (Seq::empty(), Seq::empty(), 0)
    } else {
        let (parsed, n) = parse_expr(ts, pos, 0);
        match parsed {
            Ok(e) => {
                let (statements, errors, m) = parse_statements(ts, pos + n);
                (seq![Statement::ExpressionStatement(e)] + statements, errors, n + m)
            },
            Err(err) => {
                let (statements, errors, m) = parse_statements(ts, pos + n + 1);
                (statements, seq![err] + errors, n + 1 + m)
            },
        }
    }
}

/// An operand takes at least one token, and so does an expression.
pub proof fn lemma_expression_takes_tokens(ts: Seq<Token>, pos: int, min_bp: int)
    ensures
        parse_prefix(ts, pos).1 >= 1,
        parse_expr(ts, pos, min_bp).1 >= 1,
{
}

/// Where a statement fails, and the one that begins one token further on is parsed
/// and ends at the end of input, the outcome is that one statement and that one error.
pub proof fn lemma_recovers_after_error(ts: Seq<Token>, pos: int)
    requires
        token_at(ts, pos) != Token::EOF,
        parse_expr(ts, pos, 0).0 is Err,
        ({
            let next = pos + parse_expr(ts, pos, 0).1 + 1;
            &&& token_at(ts, next) != Token::EOF
            &&& parse_expr(ts, next, 0).0 is Ok
            &&& token_at(ts, next + parse_expr(ts, next, 0).1) == Token::EOF
        }),
    ensures
        ({
            let (failed, n) = parse_expr(ts, pos, 0);
            let (parsed, m) = parse_expr(ts, pos + n + 1, 0);
            parse_statements(ts, pos) == (
                seq![Statement::ExpressionStatement(parsed->Ok_0)],
                seq![failed->Err_0],
                n + 1 + m,
            )
        }),
{
    let (failed, n) = parse_expr(ts, pos, 0);
    let next = pos + n + 1;
    let (parsed, m) = parse_expr(ts, next, 0);
    assert(parse_statements(ts, next + m) == (
        Seq::<Statement>::empty(),
        Seq::<ParseError>::empty(),
        0nat,
    ));
    assert(parse_statements(ts, next).0 =~= seq![Statement::ExpressionStatement(parsed->Ok_0)]);
}

/// Whether `a` from position `i` on holds the tokens that `b` holds from position `j`
/// on.
pub open spec fn same_tokens(a: Seq<Token>, i: int, b: Seq<Token>, j: int) -> bool {
    forall|k: int| k >= i ==> #[trigger] token_at(a, k) == token_at(b, k + (j - i))
}

/// An expression is read off the tokens from its position on: other tokens before
/// them, or the same tokens at another position, make no difference.
pub proof fn lemma_parse_expr_same(a: Seq<Token>, i: int, b: Seq<Token>, j: int, min_bp: int)
    requires
        same_tokens(a, i, b, j),
    ensures
        parse_expr(a, i, min_bp) == parse_expr(b, j, min_bp),
    decreases tokens_left(a, i), 2int,
{
    lemma_parse_prefix_same(a, i, b, j);
    let (first, n) = parse_prefix(a, i);
    if let Ok(left) = first {
        assert(same_tokens(a, i + n, b, j + n)) by {
            assert forall|k: int| k >= i + n implies #[trigger] token_at(a, k) == token_at(
                b,
                k + (j - i),
            ) by {}
        }
        lemma_parse_infix_same(a, i + n, b, j + n, left, min_bp);
    }
}

/// As [`lemma_parse_expr_same`], of an operand.
pub proof fn lemma_parse_prefix_same(a: Seq<Token>, i: int, b: Seq<Token>, j: int)
    requires
        same_tokens(a, i, b, j),
    ensures
        parse_prefix(a, i) == parse_prefix(b, j),
    decreases tokens_left(a, i), 1int,
{
    let token = token_at(a, i);
    if token == Token::LParen || prefix_operator(token).is_some() {
        assert(same_tokens(a, i + 1, b, j + 1)) by {
            assert forall|k: int| k >= i + 1 implies #[trigger] token_at(a, k) == token_at(
                b,
                k + (j - i),
            ) by {}
        }
        lemma_parse_expr_same(a, i + 1, b, j + 1, 0);
        lemma_parse_expr_same(a, i + 1, b, j + 1, PREFIX_BINDING_POWER as int);
        let n = parse_expr(a, i + 1, 0).1;
    }
}

/// As [`lemma_parse_expr_same`], of what follows an operand.
pub proof fn lemma_parse_infix_same(
    a: Seq<Token>,
    i: int,
    b: Seq<Token>,
    j: int,
    left: Expression,
    min_bp: int,
)
    requires
        same_tokens(a, i, b, j),
    ensures
        parse_infix(a, i, left, min_bp) == parse_infix(b, j, left, min_bp),
    decreases tokens_left(a, i), 0int,
{
    let token = token_at(a, i);
    if let Some(op) = infix_operator(token) {
        if min_bp < left_binding_power(op) {
            assert(same_tokens(a, i + 1, b, j + 1)) by {
                assert forall|k: int| k >= i + 1 implies #[trigger] token_at(a, k) == token_at(
                    b,
                    k + (j - i),
                ) by {}
            }
            lemma_parse_expr_same(a, i + 1, b, j + 1, right_binding_power(op));
            let (operand, n) = parse_expr(a, i + 1, right_binding_power(op));
            if let Ok(right) = operand {
                let joined = Expression::BinaryOp {
                    left: Box::new(left),
                    op,
                    right: Box::new(right),
                };
                assert(same_tokens(a, i + 1 + n, b, j + 1 + n)) by {
                    assert forall|k: int| k >= i + 1 + n implies #[trigger] token_at(a, k)
                        == token_at(b, k + (j - i)) by {}
                }
                lemma_parse_infix_same(a, i + 1 + n, b, j + 1 + n, joined, min_bp);
            }
        }
    }
}

/// The statements and the errors that a source text gives.
pub open spec fn parse_source(s: Seq<char>) -> (Seq<Statement>, Seq<ParseError>) {
    let (statements, errors, _) = parse_statements(tokens(s), 0);
    (statements, errors)
}

} // verus!
