//! Written out and parsed again, an expression is what it was.

use crate::ast::{lines, BinaryOperator, Expression, Statement, UnaryOperator};
use crate::decimal::{
    decimal_digits, is_digit, lemma_decimal_digits_are_digits, lemma_decimal_value_of_digits,
};
use crate::evaluate::value;
use crate::grammar::{
    infix_operator, left_binding_power, lemma_expression_takes_tokens, parse_expr, parse_infix,
    parse_prefix, parse_source, parse_statements, prefix_operator, right_binding_power,
    token_at, tokens_left, ParseError, PREFIX_BINDING_POWER,
};
use crate::scan::{
    after_spaces, all_fit, is_space, lemma_digits_len_is, lemma_nothing_fits,
    lemma_scan_advances, lemma_spaces_len, literal, scan, symbol, tokens,
};
use crate::token::Token;
use vstd::prelude::*;

verus! {

/// A character that is neither whitespace nor a digit is a token of its own.
pub proof fn lemma_scan_symbol(c: char, rest: Seq<char>)
    requires
        !is_space(c),
        !is_digit(c),
    ensures
        scan(seq![c] + rest) == (symbol(c), 1nat),
        tokens(seq![c] + rest) == seq![symbol(c)] + tokens(rest),
        all_fit(seq![c] + rest) == all_fit(rest),
{
    let s = seq![c] + rest;
    assert(s[0] == c);
    assert(after_spaces(s) =~= s);
    assert(s.skip(1) =~= rest);
    assert(literal(s) =~= Seq::<char>::empty());
}

/// Whitespace before a text changes none of its tokens.
pub proof fn lemma_scan_space(c: char, rest: Seq<char>)
    requires
        is_space(c),
    ensures
        scan(seq![c] + rest) == (scan(rest).0, scan(rest).1 + 1),
        tokens(seq![c] + rest) == tokens(rest),
        all_fit(seq![c] + rest) == all_fit(rest),
{
    let s = seq![c] + rest;
    assert(s[0] == c);
    assert(s.skip(1) =~= rest);
    lemma_spaces_len(rest);
    assert(after_spaces(s) =~= after_spaces(rest));
    lemma_scan_advances(rest);
    assert(s.skip(scan(s).1 as int) =~= rest.skip(scan(rest).1 as int));
}

/// The digits of a number, with no digit after them, are the token of that number.
pub proof fn lemma_scan_number(n: nat, rest: Seq<char>)
    requires
        n <= i64::MAX,
        rest.len() == 0 || !is_digit(rest[0]),
    ensures
        scan(decimal_digits(n) + rest) == (Token::Integer(n as i64), decimal_digits(n).len()),
        tokens(decimal_digits(n) + rest) == seq![Token::Integer(n as i64)] + tokens(rest),
        all_fit(decimal_digits(n) + rest) == all_fit(rest),
{
    let digits = decimal_digits(n);
    let s = digits + rest;
    lemma_decimal_digits_are_digits(n);
    lemma_decimal_value_of_digits(n);
    assert(s[0] == digits[0]);
    assert(is_digit(digits[0]));
    assert(after_spaces(s) =~= s);
    assert forall|i: int| 0 <= i < digits.len() implies is_digit(#[trigger] s[i]) by {
        assert(s[i] == digits[i]);
    }
    if rest.len() > 0 {
        assert(s[digits.len() as int] == rest[0]);
    }
    lemma_digits_len_is(s, digits.len() as int);
    assert(literal(s) =~= digits);
    assert(s.skip(digits.len() as int) =~= rest);
}

impl UnaryOperator {
    /// The character that the operator is written as.
    pub open spec fn sign(self) -> char {
        match self {
            UnaryOperator::Plus => '+',
            UnaryOperator::Minus => '-',
        }
    }

    /// The operator is written as its sign, and its sign is read as its token.
    pub proof fn lemma_sign(self)
        ensures
            self.text() == seq![self.sign()],
            symbol(self.sign()) == self.token(),
            !is_space(self.sign()),
            !is_digit(self.sign()),
    {
        reveal_strlit("+");
        reveal_strlit("-");
        assert(self.text() =~= seq![self.sign()]);
    }
}

impl BinaryOperator {
    /// The character that the operator is written as.
    pub open spec fn sign(self) -> char {
        match self {
            BinaryOperator::Plus => '+',
            BinaryOperator::Minus => '-',
            BinaryOperator::Multiply => '*',
            BinaryOperator::Divide => '/',
            BinaryOperator::Power => '^',
        }
    }

    /// The operator is written as its sign, and its sign is read as its token.
    pub proof fn lemma_sign(self)
        ensures
            self.text() == seq![self.sign()],
            symbol(self.sign()) == self.token(),
            !is_space(self.sign()),
            !is_digit(self.sign()),
    {
        reveal_strlit("+");
        reveal_strlit("-");
        reveal_strlit("*");
        reveal_strlit("/");
        reveal_strlit("^");
        assert(self.text() =~= seq![self.sign()]);
    }
}

impl Expression {
    /// Whether no integer of the expression is negative. The parser makes no other
    /// expressions: a minus sign in the source is an operator.
    pub open spec fn unsigned(self) -> bool
        decreases self,
    {
        match self {
            Expression::Integer(value) => value >= 0,
            Expression::UnaryOp { op, expr } => expr.unsigned(),
            Expression::BinaryOp { left, op, right } => left.unsigned() && right.unsigned(),
        }
    }

    /// The tokens of the expression written out.
    pub open spec fn written_tokens(self) -> Seq<Token>
        decreases self,
    {
        match self {
            Expression::Integer(value) => seq![Token::Integer(value)],
            Expression::UnaryOp { op, expr } => seq![Token::LParen, op.token()]
                + expr.written_tokens() + seq![Token::RParen],
            Expression::BinaryOp { left, op, right } => seq![Token::LParen]
                + left.written_tokens() + seq![op.token()] + right.written_tokens()
                + seq![Token::RParen],
        }
    }
}

/// How an operator with its operand is written, character by character.
proof fn lemma_text_of_unary(op: UnaryOperator, operand: Expression)
    ensures
        (Expression::UnaryOp { op, expr: Box::new(operand) }).text()
            == seq!['('] + (seq![op.sign()] + (operand.text() + seq![')'])),
{
    reveal_strlit("(");
    reveal_strlit(")");
    op.lemma_sign();
    assert("("@ =~= seq!['(']);
    assert(")"@ =~= seq![')']);
    let e = Expression::UnaryOp { op, expr: Box::new(operand) };
    assert(e.text() == "("@ + op.text() + operand.text() + ")"@);
    assert(e.text() =~= seq!['('] + (seq![op.sign()] + (operand.text() + seq![')'])));
}

/// How an operator with its two operands is written, character by character.
proof fn lemma_text_of_binary(left: Expression, op: BinaryOperator, right: Expression)
    ensures
        (Expression::BinaryOp { left: Box::new(left), op, right: Box::new(right) }).text()
            == seq!['('] + (left.text() + (seq![' '] + (seq![op.sign()] + (seq![' ']
            + (right.text() + seq![')']))))),
{
    reveal_strlit("(");
    reveal_strlit(")");
    reveal_strlit(" ");
    op.lemma_sign();
    assert("("@ =~= seq!['(']);
    assert(")"@ =~= seq![')']);
    assert(" "@ =~= seq![' ']);
    let e = Expression::BinaryOp { left: Box::new(left), op, right: Box::new(right) };
    assert(e.text() == "("@ + left.text() + " "@ + op.text() + " "@ + right.text() + ")"@);
    assert(e.text() =~= seq!['('] + (left.text() + (seq![' '] + (seq![op.sign()] + (seq![' ']
        + (right.text() + seq![')']))))));
}

/// A line feed is one character.
proof fn lemma_line_feed()
    ensures
        "\n"@ == seq!['\n'],
{
    reveal_strlit("\n");
    assert("\n"@ =~= seq!['\n']);
}

/// Whether `text`, where `rest` follows it, is read as the tokens `read` and then as
/// what `rest` is read as, with no integer literal that fails to fit.
#[verifier::opaque]
pub open spec fn reads_as(text: Seq<char>, read: Seq<Token>, rest: Seq<char>) -> bool {
    &&& tokens(text + rest) == read + tokens(rest)
    &&& all_fit(text + rest) == all_fit(rest)
}

/// What two texts are read as, one after the other, is what their whole is read as.
proof fn lemma_reads_on(
    first: Seq<char>,
    first_read: Seq<Token>,
    second: Seq<char>,
    second_read: Seq<Token>,
    rest: Seq<char>,
)
    requires
        reads_as(first, first_read, second + rest),
        reads_as(second, second_read, rest),
    ensures
        reads_as(first + second, first_read + second_read, rest),
{
    reveal(reads_as);
    assert((first + second) + rest =~= first + (second + rest));
    assert((first_read + second_read) + tokens(rest) =~= first_read + (second_read + tokens(rest)));
}

/// A sign is read as its token.
proof fn lemma_reads_symbol(c: char, rest: Seq<char>)
    requires
        !is_space(c),
        !is_digit(c),
    ensures
        reads_as(seq![c], seq![symbol(c)], rest),
{
    reveal(reads_as);
    lemma_scan_symbol(c, rest);
}

/// A space is read as nothing.
proof fn lemma_reads_space(c: char, rest: Seq<char>)
    requires
        is_space(c),
    ensures
        reads_as(seq![c], Seq::<Token>::empty(), rest),
{
    reveal(reads_as);
    lemma_scan_space(c, rest);
    assert(Seq::<Token>::empty() + tokens(rest) =~= tokens(rest));
}

/// What an operator with its operand is read as, given what the operand is read as.
proof fn lemma_reads_unary(
    sign: char,
    token: Token,
    operand: Seq<char>,
    operand_read: Seq<Token>,
    rest: Seq<char>,
)
    requires
        !is_space(sign),
        !is_digit(sign),
        symbol(sign) == token,
        reads_as(operand, operand_read, seq![')'] + rest),
    ensures
        reads_as(
            seq!['('] + (seq![sign] + (operand + seq![')'])),
            seq![Token::LParen] + (seq![token] + (operand_read + seq![Token::RParen])),
            rest,
        ),
{
    let t3 = seq![')'];
    let t2 = operand + t3;
    let t1 = seq![sign] + t2;
    let r3 = seq![Token::RParen];
    let r2 = operand_read + r3;
    let r1 = seq![token] + r2;
    lemma_reads_symbol(')', rest);
    lemma_reads_on(operand, operand_read, t3, r3, rest);
    lemma_reads_symbol(sign, t2 + rest);
    lemma_reads_on(seq![sign], seq![token], t2, r2, rest);
    lemma_reads_symbol('(', t1 + rest);
    lemma_reads_on(seq!['('], seq![Token::LParen], t1, r1, rest);
}

/// What the end of an operator with two operands is read as, from the operator on,
/// given what the right operand is read as.
proof fn lemma_reads_right(
    sign: char,
    token: Token,
    right: Seq<char>,
    right_read: Seq<Token>,
    rest: Seq<char>,
)
    requires
        !is_space(sign),
        !is_digit(sign),
        symbol(sign) == token,
        reads_as(right, right_read, seq![')'] + rest),
    ensures
        reads_as(
            seq![' '] + (seq![sign] + (seq![' '] + (right + seq![')']))),
            seq![token] + (right_read + seq![Token::RParen]),
            rest,
        ),
{
    let none = Seq::<Token>::empty();
    let t6 = seq![')'];
    let t5 = right + t6;
    let t4 = seq![' '] + t5;
    let t3 = seq![sign] + t4;
    let r6 = seq![Token::RParen];
    let r5 = right_read + r6;
    let r3 = seq![token] + r5;
    lemma_reads_symbol(')', rest);
    lemma_reads_on(right, right_read, t6, r6, rest);
    lemma_reads_space(' ', t5 + rest);
    lemma_reads_on(seq![' '], none, t5, r5, rest);
    assert(none + r5 =~= r5);
    lemma_reads_symbol(sign, t4 + rest);
    lemma_reads_on(seq![sign], seq![token], t4, r5, rest);
    lemma_reads_space(' ', t3 + rest);
    lemma_reads_on(seq![' '], none, t3, r3, rest);
    assert(none + r3 =~= r3);
}

/// What an operand with what follows it between parentheses is read as.
proof fn lemma_reads_left(
    left: Seq<char>,
    left_read: Seq<Token>,
    following: Seq<char>,
    following_read: Seq<Token>,
    rest: Seq<char>,
)
    requires
        reads_as(left, left_read, following + rest),
        reads_as(following, following_read, rest),
    ensures
        reads_as(
            seq!['('] + (left + following),
            seq![Token::LParen] + (left_read + following_read),
            rest,
        ),
{
    lemma_reads_on(left, left_read, following, following_read, rest);
    lemma_reads_symbol('(', (left + following) + rest);
    lemma_reads_on(
        seq!['('],
        seq![Token::LParen],
        left + following,
        left_read + following_read,
        rest,
    );
}

/// The expression written out, where no digit follows it, is read as its written
/// tokens; and its integer literals fit.
pub proof fn lemma_reads_text(e: Expression, rest: Seq<char>)
    requires
        e.unsigned(),
        rest.len() == 0 || !is_digit(rest[0]),
    ensures
        reads_as(e.text(), e.written_tokens(), rest),
    decreases e,
{
    match e {
        Expression::Integer(value) => {
            reveal(reads_as);
            lemma_scan_number(value as nat, rest);
        },
        Expression::UnaryOp { op, expr } => {
            op.lemma_sign();
            lemma_text_of_unary(op, *expr);
            lemma_reads_text(*expr, seq![')'] + rest);
            lemma_reads_unary(op.sign(), op.token(), expr.text(), expr.written_tokens(), rest);
            assert(e.written_tokens() =~= seq![Token::LParen] + (seq![op.token()]
                + (expr.written_tokens() + seq![Token::RParen])));
        },
        Expression::BinaryOp { left, op, right } => {
            op.lemma_sign();
            lemma_text_of_binary(*left, op, *right);
            let closing = seq![')'];
            let following = seq![' '] + (seq![op.sign()] + (seq![' '] + (right.text() + closing)));
            let following_read = seq![op.token()] + (right.written_tokens()
                + seq![Token::RParen]);
            lemma_reads_text(*right, seq![')'] + rest);
            lemma_reads_right(op.sign(), op.token(), right.text(), right.written_tokens(), rest);
            lemma_reads_text(*left, following + rest);
            lemma_reads_left(
                left.text(),
                left.written_tokens(),
                following,
                following_read,
                rest,
            );
            assert(e.written_tokens() =~= seq![Token::LParen] + (left.written_tokens()
                + following_read));
        },
    }
}

/// Whether `ts` holds the tokens `part` from position `pos` on.
pub open spec fn holds_at(ts: Seq<Token>, pos: int, part: Seq<Token>) -> bool {
    forall|i: int| 0 <= i < part.len() ==> token_at(ts, pos + i) == #[trigger] part[i]
}

/// Where tokens are held, their beginning is held, and their end after it.
proof fn lemma_holds_parts(ts: Seq<Token>, pos: int, first: Seq<Token>, second: Seq<Token>)
    requires
        holds_at(ts, pos, first + second),
    ensures
        holds_at(ts, pos, first),
        holds_at(ts, pos + first.len(), second),
{
    let whole = first + second;
    assert forall|i: int| 0 <= i < first.len() implies token_at(ts, pos + i)
        == #[trigger] first[i] by {
        assert(whole[i] == first[i]);
    }
    assert forall|i: int| 0 <= i < second.len() implies token_at(ts, pos + first.len() + i)
        == #[trigger] second[i] by {
        assert(whole[first.len() + i] == second[i]);
    }
}

/// An operand after which no infix operator stands is the whole expression, whatever
/// the binding power asked for.
proof fn lemma_operand_alone(ts: Seq<Token>, pos: int, e: Expression, n: nat, min_bp: int)
    requires
        parse_prefix(ts, pos) == (Ok::<Expression, ParseError>(e), n),
        infix_operator(token_at(ts, pos + n)).is_none(),
    ensures
        parse_expr(ts, pos, min_bp) == (Ok::<Expression, ParseError>(e), n),
{
}

/// The written tokens of an expression begin with an integer or with an opening
/// parenthesis.
proof fn lemma_written_tokens_begin(e: Expression)
    ensures
        e.written_tokens().len() >= 1,
        e.written_tokens()[0] is Integer || e.written_tokens()[0] == Token::LParen,
        infix_operator(e.written_tokens()[0]).is_none(),
        e.written_tokens()[0] != Token::EOF,
{
    match e {
        Expression::Integer(value) => {},
        Expression::UnaryOp { op, expr } => {
            assert(e.written_tokens()[0] == seq![Token::LParen, op.token()][0]);
        },
        Expression::BinaryOp { left, op, right } => {
            assert(e.written_tokens()[0] == seq![Token::LParen][0]);
        },
    }
}

/// Where the written tokens of an expression stand, the operand that is parsed is
/// that expression, and it takes just those tokens.
pub proof fn lemma_parse_written(e: Expression, ts: Seq<Token>, pos: int)
    requires
        holds_at(ts, pos, e.written_tokens()),
    ensures
        parse_prefix(ts, pos) == (Ok::<Expression, ParseError>(e), e.written_tokens().len()),
    decreases e,
{
    match e {
        Expression::Integer(value) => {
            assert(token_at(ts, pos + 0) == e.written_tokens()[0]);
        },
        Expression::UnaryOp { op, expr } => {
            let opening = seq![Token::LParen, op.token()];
            let operand = expr.written_tokens();
            let closing = seq![Token::RParen];
            let n = operand.len();
            lemma_holds_parts(ts, pos, opening + operand, closing);
            lemma_holds_parts(ts, pos, opening, operand);
            assert(token_at(ts, pos + 0) == opening[0]);
            assert(token_at(ts, pos + 1) == opening[1]);
            assert(token_at(ts, pos + 2 + n + 0) == closing[0]);
            lemma_parse_written(*expr, ts, pos + 2);
            lemma_operand_alone(ts, pos + 2, *expr, n, PREFIX_BINDING_POWER as int);
            assert(prefix_operator(op.token()) == Some(op));
            assert(parse_prefix(ts, pos + 1) == (Ok::<Expression, ParseError>(e), n + 1));
            lemma_operand_alone(ts, pos + 1, e, n + 1, 0);
            assert(e.written_tokens().len() == n + 3);
        },
        Expression::BinaryOp { left, op, right } => {
            let opening = seq![Token::LParen];
            let first = left.written_tokens();
            let sign = seq![op.token()];
            let second = right.written_tokens();
            let closing = seq![Token::RParen];
            let m = first.len();
            let n = second.len();
            lemma_holds_parts(ts, pos, opening + first + sign + second, closing);
            lemma_holds_parts(ts, pos, opening + first + sign, second);
            lemma_holds_parts(ts, pos, opening + first, sign);
            lemma_holds_parts(ts, pos, opening, first);
            assert(token_at(ts, pos + 0) == opening[0]);
            assert(token_at(ts, pos + 1 + m + 0) == sign[0]);
            assert(token_at(ts, pos + 1 + m + 1 + n + 0) == closing[0]);
            lemma_parse_written(*left, ts, pos + 1);
            lemma_parse_written(*right, ts, pos + 1 + m + 1);
            lemma_operand_alone(ts, pos + 1 + m + 1, *right, n, right_binding_power(op));
            assert(infix_operator(op.token()) == Some(op));
            assert(parse_infix(ts, pos + 1 + m + 1 + n, e, 0) == (
                Ok::<Expression, ParseError>(e),
                0nat,
            ));
            assert(parse_infix(ts, pos + 1 + m, *left, 0) == (
                Ok::<Expression, ParseError>(e),
                1 + n,
            ));
            assert(parse_expr(ts, pos + 1, 0) == (Ok::<Expression, ParseError>(e), m + 1 + n));
            assert(e.written_tokens().len() == m + n + 3);
        },
    }
}

/// Whether no integer of the statements is negative.
pub open spec fn unsigned_statements(statements: Seq<Statement>) -> bool {
    forall|i: int|
        0 <= i < statements.len() ==> (#[trigger] statements[i])->ExpressionStatement_0.unsigned()
}

/// The tokens of statements written out, one after the other.
pub open spec fn written_statements(statements: Seq<Statement>) -> Seq<Token>
    decreases statements.len(),
{
    if statements.len() == 0 {
        Seq::empty()
    } else {
        statements[0]->ExpressionStatement_0.written_tokens() + written_statements(
            statements.skip(1),
        )
    }
}

/// Where the written tokens of statements stand, and the end of input after them,
/// those statements are parsed, with no error.
pub proof fn lemma_parse_written_statements(statements: Seq<Statement>, ts: Seq<Token>, pos: int)
    requires
        holds_at(ts, pos, written_statements(statements)),
        token_at(ts, pos + written_statements(statements).len()) == Token::EOF,
    ensures
        parse_statements(ts, pos) == (
            statements,
            Seq::<ParseError>::empty(),
            written_statements(statements).len(),
        ),
    decreases statements.len(),
{
    if statements.len() == 0 {
        assert(statements =~= Seq::<Statement>::empty());
    } else {
        let e = statements[0]->ExpressionStatement_0;
        let others = statements.skip(1);
        let n = e.written_tokens().len();
        lemma_holds_parts(ts, pos, e.written_tokens(), written_statements(others));
        lemma_written_tokens_begin(e);
        assert(token_at(ts, pos + 0) == e.written_tokens()[0]);
        lemma_parse_written(e, ts, pos);
        if others.len() > 0 {
            let next = others[0]->ExpressionStatement_0;
            lemma_written_tokens_begin(next);
            assert(written_statements(others)[0] == next.written_tokens()[0]);
            assert(token_at(ts, pos + n + 0) == written_statements(others)[0]);
        } else {
            assert(written_statements(others).len() == 0);
        }
        lemma_operand_alone(ts, pos, e, n, 0);
        lemma_parse_written_statements(others, ts, pos + n);
        assert(statements[0] == Statement::ExpressionStatement(e));
        assert(seq![statements[0]] + others =~= statements);
    }
}

/// Statements written out one to a line begin with the first statement; the others
/// follow after a line feed.
proof fn lemma_lines_begin(statements: Seq<Statement>)
    requires
        statements.len() >= 2,
    ensures
        lines(statements) == statements[0].text() + "\n"@ + lines(statements.skip(1)),
    decreases statements.len(),
{
    let front = statements.drop_last();
    let others = statements.skip(1);
    if statements.len() == 2 {
        assert(lines(front) == statements[0].text());
        assert(lines(others) == statements[1].text());
    } else {
        lemma_lines_begin(front);
        assert(others.drop_last() =~= front.skip(1));
        assert(lines(statements) =~= statements[0].text() + "\n"@ + lines(others));
    }
}

/// Statements written out one to a line are read as their written tokens, and their
/// integer literals fit.
pub proof fn lemma_reads_lines(statements: Seq<Statement>)
    requires
        unsigned_statements(statements),
    ensures
        tokens(lines(statements)) == written_statements(statements),
        all_fit(lines(statements)),
    decreases statements.len(),
{
    let none = Seq::<char>::empty();
    lemma_nothing_fits(none);
    if statements.len() == 0 {
    } else {
        let e = statements[0]->ExpressionStatement_0;
        let others = statements.skip(1);
        assert(statements[0].text() == e.text());
        if statements.len() == 1 {
            lemma_reads_text(e, none);
            reveal(reads_as);
            assert(e.text() + none =~= e.text());
            assert(written_statements(others) =~= Seq::<Token>::empty());
            assert(e.written_tokens() + tokens(none) =~= written_statements(statements));
        } else {
            lemma_line_feed();
            lemma_lines_begin(statements);
            assert(unsigned_statements(others)) by {
                assert forall|i: int| 0 <= i < others.len() implies (#[trigger] others[i])
                    ->ExpressionStatement_0.unsigned() by {
                    assert(others[i] == statements[i + 1]);
                }
            }
            lemma_reads_lines(others);
            let below = seq!['\n'] + lines(others);
            lemma_scan_space('\n', lines(others));
            lemma_reads_text(e, below);
            reveal(reads_as);
            assert(lines(statements) =~= e.text() + below);
        }
    }
}

/// Writing statements out and parsing what was written gives the statements back, with
/// no error.
pub proof fn lemma_parse_lines(statements: Seq<Statement>)
    requires
        unsigned_statements(statements),
    ensures
        all_fit(lines(statements)),
        parse_source(lines(statements)) == (statements, Seq::<ParseError>::empty()),
{
    lemma_reads_lines(statements);
    let ts = written_statements(statements);
    assert(holds_at(ts, 0, ts));
    lemma_parse_written_statements(statements, ts, 0);
}

/// Whether no integer among the tokens is negative.
pub open spec fn unsigned_tokens(ts: Seq<Token>) -> bool {
    forall|i: int| 0 <= i < ts.len() ==> unsigned_token(#[trigger] ts[i])
}

/// Whether the token is no negative integer.
pub open spec fn unsigned_token(token: Token) -> bool {
    match token {
        Token::Integer(value) => value >= 0,
        _ => true,
    }
}

/// No integer among the tokens of a text is negative, where the integer literals of
/// the text fit.
pub proof fn lemma_tokens_unsigned(s: Seq<char>)
    requires
        all_fit(s),
    ensures
        unsigned_tokens(tokens(s)),
    decreases s.len(),
{
    if scan(s).0 != Token::EOF {
        lemma_scan_advances(s);
        let rest = s.skip(scan(s).1 as int);
        lemma_tokens_unsigned(rest);
        assert forall|i: int| 0 <= i < tokens(s).len() implies unsigned_token(
            #[trigger] tokens(s)[i],
        ) by {
            if i > 0 {
                assert(tokens(s)[i] == tokens(rest)[i - 1]);
            }
        }
    }
}

/// Of tokens without a negative integer, the expression that is parsed has no
/// negative integer.
pub proof fn lemma_parsed_unsigned(ts: Seq<Token>, pos: int, min_bp: int)
    requires
        unsigned_tokens(ts),
    ensures
        parse_expr(ts, pos, min_bp).0 matches Ok(e) ==> e.unsigned(),
    decreases tokens_left(ts, pos), 2int,
{
    lemma_operand_unsigned(ts, pos);
    let (first, n) = parse_prefix(ts, pos);
    if let Ok(left) = first {
        lemma_joined_unsigned(ts, pos + n, left, min_bp);
    }
}

/// As [`lemma_parsed_unsigned`], of an operand.
pub proof fn lemma_operand_unsigned(ts: Seq<Token>, pos: int)
    requires
        unsigned_tokens(ts),
    ensures
        parse_prefix(ts, pos).0 matches Ok(e) ==> e.unsigned(),
    decreases tokens_left(ts, pos), 1int,
{
    let token = token_at(ts, pos);
    if token == Token::LParen || prefix_operator(token).is_some() {
        lemma_parsed_unsigned(ts, pos + 1, 0);
        lemma_parsed_unsigned(ts, pos + 1, PREFIX_BINDING_POWER as int);
    }
}

/// As [`lemma_parsed_unsigned`], of an operand with the operators that follow it.
pub proof fn lemma_joined_unsigned(ts: Seq<Token>, pos: int, left: Expression, min_bp: int)
    requires
        unsigned_tokens(ts),
        left.unsigned(),
    ensures
        parse_infix(ts, pos, left, min_bp).0 matches Ok(e) ==> e.unsigned(),
    decreases tokens_left(ts, pos), 0int,
{
    if let Some(op) = infix_operator(token_at(ts, pos)) {
        if min_bp < left_binding_power(op) {
            lemma_parsed_unsigned(ts, pos + 1, right_binding_power(op));
            let (operand, n) = parse_expr(ts, pos + 1, right_binding_power(op));
            if let Ok(right) = operand {
                let joined = Expression::BinaryOp {
                    left: Box::new(left),
                    op,
                    right: Box::new(right),
                };
                lemma_joined_unsigned(ts, pos + 1 + n, joined, min_bp);
            }
        }
    }
}

/// As [`lemma_parsed_unsigned`], of statements.
pub proof fn lemma_statements_unsigned(ts: Seq<Token>, pos: int)
    requires
        unsigned_tokens(ts),
    ensures
        unsigned_statements(parse_statements(ts, pos).0),
    decreases tokens_left(ts, pos),
{
    if token_at(ts, pos) != Token::EOF {
        let (parsed, n) = parse_expr(ts, pos, 0);
        lemma_expression_takes_tokens(ts, pos, 0);
        lemma_parsed_unsigned(ts, pos, 0);
        match parsed {
            Ok(e) => {
                lemma_statements_unsigned(ts, pos + n);
                let others = parse_statements(ts, pos + n).0;
                let all = parse_statements(ts, pos).0;
                assert forall|i: int| 0 <= i < all.len() implies (#[trigger] all[i])
                    ->ExpressionStatement_0.unsigned() by {
                    if i > 0 {
                        assert(all[i] == others[i - 1]);
                    }
                }
            },
            Err(err) => {
                lemma_statements_unsigned(ts, pos + n + 1);
            },
        }
    }
}

/// The statements that were parsed from a text, written out and parsed again, are
/// the same statements, and no error comes with them. Statement by statement they
/// have the value that they had.
pub proof fn lemma_round_trip(s: Seq<char>)
    requires
        all_fit(s),
    ensures
        all_fit(lines(parse_source(s).0)),
        parse_source(lines(parse_source(s).0)) == (parse_source(s).0, Seq::<ParseError>::empty()),
        forall|i: int|
            #![trigger parse_source(lines(parse_source(s).0)).0[i]]
            0 <= i < parse_source(s).0.len() ==> value(
                parse_source(lines(parse_source(s).0)).0[i]->ExpressionStatement_0,
            ) == value(parse_source(s).0[i]->ExpressionStatement_0),
{
    lemma_tokens_unsigned(s);
    lemma_statements_unsigned(tokens(s), 0);
    lemma_parse_lines(parse_source(s).0);
}

} // verus!
