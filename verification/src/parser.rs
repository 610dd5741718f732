//! The parser: from tokens to expression trees, by operator precedence.

use crate::ast::{BinaryOperator, Expression, Program, Statement, UnaryOperator};
use crate::grammar::{
    binding_power, infix_operator, lemma_expression_takes_tokens, lemma_parse_expr_same,
    lemma_parse_prefix_same, parse_expr, parse_prefix, parse_infix, parse_source,
    parse_statements, prefix_operator, right_binding_power, same_tokens, token_at, tokens_left,
    ParseError, PREFIX_BINDING_POWER,
};
use crate::lexer::Lexer;
use crate::scan::{
    all_fit, fit_ahead, lemma_end_of_input_stays, lemma_first_fit, lemma_rest_fits,
    lemma_scan_advances, lemma_skip_tokens_adds, next_fits, scan, skip_tokens, tokens,
};
use crate::token::Token;
use vstd::prelude::*;

verus! {

/// `ts` without the ends of input at its end, which say no more than that the
/// sequence ends.
pub open spec fn trim(ts: Seq<Token>) -> Seq<Token>
    decreases ts.len(),
{
    if ts.len() > 0 && ts.last() == Token::EOF {
        trim(ts.drop_last())
    } else {
        ts
    }
}

/// What is left of `ts` when its first `n` tokens have been taken: nothing, where
/// there are no more than `n`.
pub open spec fn after(ts: Seq<Token>, n: nat) -> Seq<Token> {
    if n <= ts.len() {
        ts.skip(n as int)
    } else {
        Seq::empty()
    }
}

/// The texts of a list of strings.
pub open spec fn texts(strings: Seq<String>) -> Seq<Seq<char>> {
    Seq::new(strings.len(), |i: int| strings[i]@)
}

/// The wordings of a list of errors.
pub open spec fn wordings(errors: Seq<ParseError>) -> Seq<Seq<char>> {
    Seq::new(errors.len(), |i: int| errors[i].text())
}

/// Trimming changes no token: what it takes away is what stands beyond the end anyway.
pub proof fn lemma_trim(ts: Seq<Token>)
    ensures
        trim(ts).len() <= ts.len(),
        forall|i: int| #[trigger] token_at(trim(ts), i) == token_at(ts, i),
        trim(ts).len() > 0 ==> trim(ts).last() != Token::EOF,
    decreases ts.len(),
{
    if ts.len() > 0 && ts.last() == Token::EOF {
        lemma_trim(ts.drop_last());
        assert forall|i: int| #[trigger] token_at(trim(ts), i) == token_at(ts, i) by {
            assert(token_at(trim(ts.drop_last()), i) == token_at(ts.drop_last(), i));
        }
    }
}

/// No end of input stands among the tokens of a text.
pub proof fn lemma_tokens_hold_no_end(s: Seq<char>)
    ensures
        forall|i: int| 0 <= i < tokens(s).len() ==> #[trigger] tokens(s)[i] != Token::EOF,
    decreases s.len(),
{
    if scan(s).0 != Token::EOF {
        lemma_scan_advances(s);
        let rest = s.skip(scan(s).1 as int);
        lemma_tokens_hold_no_end(rest);
        assert forall|i: int| 0 <= i < tokens(s).len() implies #[trigger] tokens(s)[i]
            != Token::EOF by {
            if i > 0 {
                assert(tokens(s)[i] == tokens(rest)[i - 1]);
            }
        }
    }
}

/// Taking tokens away in two steps is taking them away in one.
pub proof fn lemma_after_after(ts: Seq<Token>, m: nat, n: nat)
    ensures
        after(after(ts, m), n) == after(ts, m + n),
        forall|i: int| i >= 0 ==> #[trigger] token_at(after(ts, m), i) == token_at(ts, m + i),
{
    assert(after(after(ts, m), n) =~= after(ts, m + n));
}

/// What the stream of a parser becomes when the parser moves on by one token: the
/// token that was ahead is the current one, and the next token of the text is ahead.
pub proof fn lemma_stream_moves_on(current: Token, ahead: Token, s: Seq<char>)
    ensures
        trim(seq![ahead, scan(s).0] + tokens(s.skip(scan(s).1 as int))) == after(
            trim(seq![current, ahead] + tokens(s)),
            1,
        ),
{
    let next = scan(s).0;
    let rest = s.skip(scan(s).1 as int);
    let before = seq![current, ahead] + tokens(s);
    let moved = seq![ahead, next] + tokens(rest);
    lemma_tokens_hold_no_end(s);
    lemma_tokens_hold_no_end(rest);
    if next != Token::EOF {
        assert(tokens(s) =~= seq![next] + tokens(rest));
        assert(before.last() != Token::EOF) by {
            if tokens(rest).len() > 0 {
                assert(before.last() == tokens(rest).last());
            } else {
                assert(before.last() == next);
            }
        }
        assert(moved.last() != Token::EOF) by {
            if tokens(rest).len() > 0 {
                assert(moved.last() == tokens(rest).last());
            } else {
                assert(moved.last() == next);
            }
        }
        assert(moved =~= after(before, 1));
    } else {
        lemma_end_of_input_stays(s);
        assert(tokens(s) =~= Seq::<Token>::empty());
        assert(tokens(rest) =~= Seq::<Token>::empty());
        assert(before =~= seq![current, ahead]);
        assert(moved =~= seq![ahead, Token::EOF]);
        assert(moved.drop_last() =~= seq![ahead]);
        assert(seq![ahead].drop_last() =~= Seq::<Token>::empty());
        assert(trim(Seq::<Token>::empty()) =~= Seq::<Token>::empty());
        assert(trim(moved) == trim(seq![ahead]));
        if ahead != Token::EOF {
            assert(trim(before) == before);
            assert(trim(seq![ahead]) == seq![ahead]);
            assert(after(before, 1) =~= seq![ahead]);
        } else {
            assert(before.drop_last() =~= seq![current]);
            assert(seq![current].drop_last() =~= Seq::<Token>::empty());
            assert(trim(before) == trim(seq![current]));
            assert(trim(seq![ahead]) =~= Seq::<Token>::empty());
            assert(after(trim(seq![current]), 1) =~= Seq::<Token>::empty());
        }
    }
}

/// Whether what a parsing function hands back is what the tokens give: the same
/// expression, or the wording of the same error.
pub open spec fn agrees(
    result: Result<Expression, String>,
    parsed: Result<Expression, ParseError>,
) -> bool {
    match parsed {
        Ok(e) => result == Ok::<Expression, String>(e),
        Err(err) => result is Err && result->Err_0@ == err.text(),
    }
}

/// Whether a nested expression follows the token where an operand begins with it.
pub open spec fn opens_nested(token: Token) -> bool {
    token == Token::LParen || prefix_operator(token).is_some()
}

/// A parser over a source text. It holds the token at which it stands, the token
/// after that one, the lexer from which the tokens after those will come, and the
/// errors met so far.
pub struct Parser {
    pub lexer: Lexer,
    pub current_token: Token,
    pub peek_token: Token,
    pub errors: Vec<String>,
}

impl Parser {
    /// Whether the parser can read on to the end of its text: every integer literal
    /// that its lexer has still to read fits in a 64-bit signed integer.
    pub open spec fn well_formed(&self) -> bool {
        all_fit(self.lexer@)
    }

    /// The tokens that the parser has before it: the current one, the one ahead, and
    /// those that the lexer has still to read.
    pub open spec fn stream(&self) -> Seq<Token> {
        trim(seq![self.current_token, self.peek_token] + tokens(self.lexer@))
    }

    /// Whether this parser stands where `before` stands when it has moved on by `n`
    /// tokens.
    pub open spec fn follows(&self, before: Parser, n: nat) -> bool {
        &&& self.stream() == after(before.stream(), n)
        &&& self.current_token == token_at(before.stream(), n as int)
        &&& self.peek_token == token_at(before.stream(), n as int + 1)
        &&& self.lexer@ == skip_tokens(before.lexer@, n)
        &&& self.lexer.source() == before.lexer.source()
    }

    /// The stream begins with the current token and the one ahead.
    pub proof fn lemma_stream_begins(&self)
        ensures
            token_at(self.stream(), 0) == self.current_token,
            token_at(self.stream(), 1) == self.peek_token,
            self.current_token != Token::EOF ==> self.stream().len() >= 1,
    {
        let whole = seq![self.current_token, self.peek_token] + tokens(self.lexer@);
        lemma_trim(whole);
        assert(token_at(trim(whole), 0) == token_at(whole, 0));
        assert(token_at(trim(whole), 1) == token_at(whole, 1));
    }

    /// A parser at the start of `source`, with no errors. The first two tokens are
    /// read: where they are integer literals, they must fit in a 64-bit signed integer.
    pub fn new(source: &str) -> (parser: Self)
        requires
            fit_ahead(source@, 2),
        ensures
            all_fit(source@) ==> parser.well_formed(),
            parser.stream() == tokens(source@),
            parser.current_token == token_at(tokens(source@), 0),
            parser.peek_token == token_at(tokens(source@), 1),
            parser.lexer@ == skip_tokens(source@, 2),
            parser.lexer.source() == source@,
            parser.errors@ == Seq::<String>::empty(),
    {
        let mut lexer = Lexer::new(source);
        proof {
            reveal_with_fuel(fit_ahead, 3);
            reveal_with_fuel(skip_tokens, 3);
            if all_fit(source@) {
                lemma_rest_fits(source@, 2);
            }
        }
        let current_token = lexer.next_token();
        let peek_token = lexer.next_token();
        proof {
            // Two tokens that are no end of input stand in for a parser before the text.
            let first = source@.skip(scan(source@).1 as int);
            lemma_tokens_hold_no_end(source@);
            lemma_tokens_hold_no_end(first);
            let before = seq![Token::Plus, Token::Plus] + tokens(source@);
            let between = seq![Token::Plus, current_token] + tokens(first);
            lemma_stream_moves_on(Token::Plus, Token::Plus, source@);
            lemma_stream_moves_on(Token::Plus, current_token, first);
            assert(trim(before) == before);
            assert(trim(between) == after(before, 1));
            assert(after(after(before, 1), 1) =~= tokens(source@));
        }
        Self { lexer, current_token, peek_token, errors: Vec::new() }
    }

    /// Moves on by one token: the token ahead becomes the current one, and the lexer
    /// gives the next.
    ///
    /// Where the token that the lexer gives is an integer literal, it must fit in a
    /// 64-bit signed integer.
    pub fn next_token(&mut self)
        requires
            next_fits(old(self).lexer@),
        ensures
            final(self).current_token == old(self).peek_token,
            final(self).peek_token == scan(old(self).lexer@).0,
            final(self).errors == old(self).errors,
            final(self).follows(*old(self), 1),
            old(self).well_formed() ==> final(self).well_formed(),
    {
        proof {
            if self.well_formed() {
                lemma_rest_fits(self.lexer@, 1);
            }
            reveal_with_fuel(skip_tokens, 2);
            lemma_stream_moves_on(self.current_token, self.peek_token, self.lexer@);
        }
        self.current_token = self.peek_token;
        self.peek_token = self.lexer.next_token();
        proof {
            old(self).lemma_stream_begins();
            self.lemma_stream_begins();
            lemma_after_after(old(self).stream(), 1, 0);
        }
    }

    /// The left and right binding power of `token` as an infix operator; both are
    /// zero where it is none.
    fn get_binding_power(&self, token: &Token) -> (powers: (u8, u8))
        ensures
            (powers.0 as int, powers.1 as int) == binding_power(*token),
    {
        match token {
            Token::Plus | Token::Minus => (50, 50),
            Token::Asterisk | Token::Slash => (60, 60),
            Token::Caret => (71, 70),
            _ => (0, 0),
        }
    }

    /// The binding power of `token` as a prefix operator, where it is one.
    fn get_prefix_binding_power(&self, token: &Token) -> (power: Option<u8>)
        ensures
            power == if prefix_operator(*token).is_some() {
                Some(PREFIX_BINDING_POWER)
            } else {
                None
            },
    {
        match token {
            Token::Plus | Token::Minus => Some(PREFIX_BINDING_POWER),
            _ => None,
        }
    }

    /// Moves on past the current token where it is `expected`; fails, with nothing
    /// changed, where it is not.
    fn expect_token(&mut self, expected: Token) -> (result: Result<(), String>)
        requires
            old(self).well_formed(),
        ensures
            final(self).well_formed(),
            final(self).errors == old(self).errors,
            old(self).current_token == expected ==> result is Ok && final(self).follows(
                *old(self),
                1,
            ),
            old(self).current_token != expected ==> *final(self) == *old(self) && result is Err
                && result->Err_0@ == (ParseError::Expected {
                expected,
                found: old(self).current_token,
            }).text(),
    {
        if self.current_token == expected {
            self.next_token();
            Ok(())
        } else {
            Err((ParseError::Expected { expected, found: self.current_token }).to_string())
        }
    }

    /// Two moves, one after the other, are one move by the sum.
    proof fn lemma_follows_on(&self, middle: Parser, m: nat, before: Parser, n: nat)
        requires
            self.follows(middle, m),
            middle.follows(before, n),
        ensures
            self.follows(before, n + m),
    {
        lemma_after_after(before.stream(), n, m);
        lemma_skip_tokens_adds(before.lexer@, n, m);
    }

    /// Parses the operand that begins with `token`, which has been passed already and
    /// is followed by the tokens before the parser.
    fn nud(&mut self, token: Token) -> (result: Result<Expression, String>)
        requires
            old(self).well_formed(),
        ensures
            final(self).well_formed(),
            final(self).errors == old(self).errors,
            ({
                let (parsed, n) = parse_prefix(seq![token] + old(self).stream(), 0);
                n >= 1 && final(self).follows(*old(self), (n - 1) as nat) && agrees(
                    result,
                    parsed,
                )
            }),
        decreases
                2 * old(self).stream().len() + if opens_nested(token) {
                    2int
                } else {
                    0int
                },
    {
        let ghost stream = self.stream();
        let ghost whole = seq![token] + stream;
        proof {
            assert(same_tokens(whole, 1, stream, 0));
            lemma_parse_expr_same(whole, 1, stream, 0, 0);
            lemma_parse_expr_same(whole, 1, stream, 0, PREFIX_BINDING_POWER as int);
            lemma_after_after(stream, 0, 0);
            assert(after(stream, 0) =~= stream);
            self.lemma_stream_begins();
        }
        match token {
            Token::Integer(value) => Ok(Expression::Integer(value)),
            Token::Plus => {
                let r_bp = self.get_prefix_binding_power(&Token::Plus).unwrap();
                match self.parse_expression(r_bp) {
                    Ok(expr) => Ok(
                        Expression::UnaryOp { op: UnaryOperator::Plus, expr: Box::new(expr) },
                    ),
                    Err(message) => Err(message),
                }
            },
            Token::Minus => {
                let r_bp = self.get_prefix_binding_power(&Token::Minus).unwrap();
                match self.parse_expression(r_bp) {
                    Ok(expr) => Ok(
                        Expression::UnaryOp { op: UnaryOperator::Minus, expr: Box::new(expr) },
                    ),
                    Err(message) => Err(message),
                }
            },
            Token::LParen => {
                let expr = match self.parse_expression(0) {
                    Ok(expr) => expr,
                    Err(message) => {
                        return Err(message);
                    },
                };
                let ghost inside = *self;
                proof {
                    let n = parse_expr(stream, 0, 0).1;
                    self.lemma_stream_begins();
                    lemma_after_after(stream, n, 0);
                    assert(token_at(whole, 1 + n as int) == token_at(stream, n as int));
                }
                match self.expect_token(Token::RParen) {
                    Ok(()) => {
                        proof {
                            let n = parse_expr(stream, 0, 0).1;
                            self.lemma_follows_on(inside, 1, *old(self), n);
                        }
                        Ok(expr)
                    },
                    Err(message) => Err(message),
                }
            },
            _ => Err(ParseError::UnexpectedPrefix(token).to_string()),
        }
    }

    /// Parses the right operand of the infix operator `token`, which has been passed
    /// already, and joins it to `left`.
    fn led(&mut self, left: Expression, token: Token) -> (result: Result<Expression, String>)
        requires
            old(self).well_formed(),
        ensures
            final(self).well_formed(),
            final(self).errors == old(self).errors,
            match infix_operator(token) {
                Some(op) => {
                    let (operand, n) = parse_expr(old(self).stream(), 0, right_binding_power(op));
                    &&& final(self).follows(*old(self), n)
                    &&& match operand {
                        Ok(right) => result == Ok::<Expression, String>(
                            Expression::BinaryOp {
                                left: Box::new(left),
                                op,
                                right: Box::new(right),
                            },
                        ),
                        Err(err) => result is Err && result->Err_0@ == err.text(),
                    }
                },
                None => *final(self) == *old(self) && result is Err && result->Err_0@
                    == ParseError::NotInfix(token).text(),
            },
        decreases 2 * old(self).stream().len() + 2,
    {
        let (_, r_bp) = self.get_binding_power(&token);
        let op = match token {
            Token::Plus => BinaryOperator::Plus,
            Token::Minus => BinaryOperator::Minus,
            Token::Asterisk => BinaryOperator::Multiply,
            Token::Slash => BinaryOperator::Divide,
            Token::Caret => BinaryOperator::Power,
            _ => {
                return Err(ParseError::NotInfix(token).to_string());
            },
        };
        let right = match self.parse_expression(r_bp) {
            Ok(right) => right,
            Err(message) => {
                return Err(message);
            },
        };
        Ok(Expression::BinaryOp { left: Box::new(left), op, right: Box::new(right) })
    }

    /// Parses the expression at which the parser stands, as far as its infix operators
    /// bind more strongly than `precedence`.
    ///
    /// Nothing is added to the errors: a failure is handed back in words. The
    /// recursion is as deep as the expression is nested.
    pub fn parse_expression(&mut self, precedence: u8) -> (result: Result<Expression, String>)
        requires
            old(self).well_formed(),
        ensures
            final(self).well_formed(),
            final(self).errors == old(self).errors,
            ({
                let (parsed, n) = parse_expr(old(self).stream(), 0, precedence as int);
                final(self).follows(*old(self), n) && agrees(result, parsed)
            }),
        decreases 2 * old(self).stream().len() + 1,
    {
        let ghost stream = self.stream();
        let token_for_nud = self.current_token;
        proof {
            self.lemma_stream_begins();
        }
        self.next_token();
        let ghost passed = *self;
        proof {
            let whole = seq![token_for_nud] + self.stream();
            assert(same_tokens(whole, 0, stream, 0)) by {
                assert forall|k: int| k >= 0 implies #[trigger] token_at(whole, k) == token_at(
                    stream,
                    k + (0 - 0),
                ) by {
                    lemma_after_after(stream, 1, 0);
                    if k >= 1 {
                        assert(token_at(whole, k) == token_at(self.stream(), k - 1));
                    }
                }
            }
            lemma_parse_prefix_same(whole, 0, stream, 0);
        }
        let mut left = match self.nud(token_for_nud) {
            Ok(expr) => expr,
            Err(message) => {
                proof {
                    let n = parse_prefix(stream, 0).1;
                    self.lemma_follows_on(passed, (n - 1) as nat, *old(self), 1);
                }
                return Err(message);
            },
        };
        let ghost mut taken: nat = parse_prefix(stream, 0).1;
        proof {
            self.lemma_follows_on(passed, (taken - 1) as nat, *old(self), 1);
        }
        while self.current_token != Token::EOF && precedence < self.get_binding_power(
            &self.current_token,
        ).0
            invariant
                stream == old(self).stream(),
                self.well_formed(),
                self.errors == old(self).errors,
                self.follows(*old(self), taken),
                ({
                    let (whole, m) = parse_infix(stream, taken as int, left, precedence as int);
                    parse_expr(stream, 0, precedence as int) == (whole, taken + m)
                }),
            decreases tokens_left(stream, taken as int),
        {
            let ghost here = *self;
            let op_token = self.current_token;
            proof {
                self.lemma_stream_begins();
                lemma_after_after(stream, taken, 0);
            }
            self.next_token();
            let ghost passed = *self;
            proof {
                self.lemma_follows_on(here, 1, *old(self), taken);
                let op = infix_operator(op_token).unwrap();
                lemma_after_after(stream, taken + 1, 0);
                assert(same_tokens(self.stream(), 0, stream, taken as int + 1)) by {
                    assert forall|k: int| k >= 0 implies #[trigger] token_at(self.stream(), k)
                        == token_at(stream, k + (taken + 1 - 0)) by {}
                }
                lemma_parse_expr_same(
                    self.stream(),
                    0,
                    stream,
                    taken as int + 1,
                    right_binding_power(op),
                );
            }
            left = match self.led(left, op_token) {
                Ok(expr) => expr,
                Err(message) => {
                    proof {
                        let op = infix_operator(op_token).unwrap();
                        let n = parse_expr(stream, taken as int + 1, right_binding_power(op)).1;
                        self.lemma_follows_on(passed, n, *old(self), taken + 1);
                    }
                    return Err(message);
                },
            };
            proof {
                let op = infix_operator(op_token).unwrap();
                let n = parse_expr(stream, taken as int + 1, right_binding_power(op)).1;
                self.lemma_follows_on(passed, n, *old(self), taken + 1);
                taken = taken + 1 + n;
            }
        }
        proof {
            self.lemma_stream_begins();
            lemma_after_after(stream, taken, 0);
        }
        Ok(left)
    }

    /// Parses the statement at which the parser stands: an expression. Where there is
    /// none, the error is added to the errors and there is no statement.
    fn parse_expression_statement(&mut self) -> (statement: Option<Statement>)
        requires
            old(self).well_formed(),
        ensures
            final(self).well_formed(),
            ({
                let (parsed, n) = parse_expr(old(self).stream(), 0, 0);
                &&& final(self).follows(*old(self), n)
                &&& match parsed {
                    Ok(e) => statement == Some(Statement::ExpressionStatement(e))
                        && final(self).errors == old(self).errors,
                    Err(err) => statement.is_none() && texts(final(self).errors@) == texts(
                        old(self).errors@,
                    ).push(err.text()),
                }
            }),
    {
        let expr = match self.parse_expression(0) {
            Ok(expr) => expr,
            Err(message) => {
                self.errors.push(message);
                assert(texts(self.errors@) =~= texts(old(self).errors@).push(message@));
                return None;
            },
        };
        Some(Statement::ExpressionStatement(expr))
    }

    /// Parses the statement at which the parser stands. Where there is none, the
    /// error is added to the errors and there is no statement.
    pub fn parse_statement(&mut self) -> (statement: Option<Statement>)
        requires
            old(self).well_formed(),
        ensures
            final(self).well_formed(),
            ({
                let (parsed, n) = parse_expr(old(self).stream(), 0, 0);
                &&& final(self).follows(*old(self), n)
                &&& match parsed {
                    Ok(e) => statement == Some(Statement::ExpressionStatement(e))
                        && final(self).errors == old(self).errors,
                    Err(err) => statement.is_none() && texts(final(self).errors@) == texts(
                        old(self).errors@,
                    ).push(err.text()),
                }
            }),
    {
        self.parse_expression_statement()
    }

    /// Parses statements up to the end of input.
    ///
    /// A statement that cannot be parsed adds its error to the errors; one more token
    /// is passed over, and parsing goes on. The statements that could be parsed are
    /// handed back in the order of the source, whether or not there were errors.
    pub fn parse_program(&mut self) -> (program: Program)
        requires
            old(self).well_formed(),
        ensures
            final(self).well_formed(),
            final(self).current_token == Token::EOF,
            ({
                let (statements, errors, n) = parse_statements(old(self).stream(), 0);
                &&& program.statements@ == statements
                &&& texts(final(self).errors@) == texts(old(self).errors@) + wordings(errors)
                &&& final(self).follows(*old(self), n)
            }),
    {
        let mut program = Program { statements: Vec::new() };
        let ghost stream = self.stream();
        let ghost mut taken: nat = 0;
        let ghost mut failed: Seq<ParseError> = Seq::empty();
        proof {
            lemma_after_after(stream, 0, 0);
            assert(after(stream, 0) =~= stream);
            self.lemma_stream_begins();
            assert(texts(self.errors@) =~= texts(old(self).errors@) + wordings(failed));
        }
        while self.current_token != Token::EOF
            invariant
                stream == old(self).stream(),
                self.well_formed(),
                self.follows(*old(self), taken),
                texts(self.errors@) == texts(old(self).errors@) + wordings(failed),
                ({
                    let (statements, errors, n) = parse_statements(stream, taken as int);
                    parse_statements(stream, 0) == (
                        program.statements@ + statements,
                        failed + errors,
                        taken + n,
                    )
                }),
            decreases tokens_left(stream, taken as int),
        {
            let ghost here = *self;
            proof {
                self.lemma_stream_begins();
                lemma_after_after(stream, taken, 0);
                assert(same_tokens(self.stream(), 0, stream, taken as int)) by {
                    assert forall|k: int| k >= 0 implies #[trigger] token_at(self.stream(), k)
                        == token_at(stream, k + (taken - 0)) by {}
                }
                lemma_parse_expr_same(self.stream(), 0, stream, taken as int, 0);
                lemma_expression_takes_tokens(stream, taken as int, 0);
            }
            let ghost (parsed, n) = parse_expr(stream, taken as int, 0);
            let ghost (statements, errors, m) = parse_statements(stream, taken as int);
            let ghost parsed_so_far = program.statements@;
            match self.parse_statement() {
                Some(statement) => {
                    program.statements.push(statement);
                    proof {
                        self.lemma_follows_on(here, n, *old(self), taken);
                        let next = parse_statements(stream, taken as int + n);
                        assert(program.statements@ + next.0 =~= parsed_so_far + (seq![statement]
                            + next.0));
                        taken = taken + n;
                    }
                },
                None => {
                    let ghost failing = *self;
                    self.next_token();
                    proof {
                        self.lemma_follows_on(failing, 1, here, n);
                        self.lemma_follows_on(here, n + 1, *old(self), taken);
                        let next = parse_statements(stream, taken as int + n + 1);
                        let err = parsed->Err_0;
                        assert(failed.push(err) + next.1 =~= failed + (seq![err] + next.1));
                        assert(texts(self.errors@) =~= texts(old(self).errors@) + wordings(
                            failed.push(err),
                        ));
                        failed = failed.push(err);
                        taken = taken + n + 1;
                    }
                },
            }
        }
        proof {
            self.lemma_stream_begins();
            lemma_after_after(stream, taken, 0);
            assert(program.statements@ + Seq::<Statement>::empty() =~= program.statements@);
            assert(failed + Seq::<ParseError>::empty() =~= failed);
        }
        program
    }
}

/// Parses a source text: its statements, and the errors in words. Where there are no
/// errors, the statements are all that the text holds. Every integer literal of
/// `source` must fit in a 64-bit signed integer.
pub fn parse(source: &str) -> (parsed: (Program, Vec<String>))
    requires
        all_fit(source@),
    ensures
        parsed.0.statements@ == parse_source(source@).0,
        texts(parsed.1@) == wordings(parse_source(source@).1),
{
    proof {
        lemma_first_fit(source@, 2);
    }
    let mut parser = Parser::new(source);
    let program = parser.parse_program();
    assert(texts(parser.errors@) =~= wordings(parse_source(source@).1));
    (program, parser.errors)
}

} // verus!
