//! Scanning: what a text is read as, token by token.

use crate::decimal::{all_digits, decimal_value, is_digit};
use crate::token::Token;
use vstd::prelude::*;

verus! {

/// Whether `c` is ASCII whitespace: a space, a tab, a line feed, a form feed or a
/// carriage return.
pub open spec fn is_space(c: char) -> bool {
    c == ' ' || c == '\t' || c == '\n' || c == '\x0C' || c == '\r'
}

/// How many characters at the front of `s` are whitespace.
pub open spec fn spaces_len(s: Seq<char>) -> nat
    decreases s.len(),
{
    if s.len() > 0 && is_space(s[0]) {
        1 + spaces_len(s.skip(1))
    } else {
        0
    }
}

/// How many characters at the front of `s` are digits.
pub open spec fn digits_len(s: Seq<char>) -> nat
    decreases s.len(),
{
    if s.len() > 0 && is_digit(s[0]) {
        1 + digits_len(s.skip(1))
    } else {
        0
    }
}

/// `s` without the whitespace at its front.
pub open spec fn after_spaces(s: Seq<char>) -> Seq<char> {
    s.skip(spaces_len(s) as int)
}

/// The longest run of digits at the front of `s`.
pub open spec fn literal(s: Seq<char>) -> Seq<char> {
    s.take(digits_len(s) as int)
}

/// The token that a character other than a digit or whitespace makes.
pub open spec fn symbol(c: char) -> Token {
    if c == '+' {
        Token::Plus
    } else if c == '-' {
        Token::Minus
    } else if c == '*' {
        Token::Asterisk
    } else if c == '/' {
        Token::Slash
    } else if c == '^' {
        Token::Caret
    } else if c == '(' {
        Token::LParen
    } else if c == ')' {
        Token::RParen
    } else {
        Token::Illegal
    }
}

/// The first token of `s`, and the number of characters of `s` up to the end of that
/// token. Whitespace before the token counts; where only whitespace is left, the token
/// is the end of input and all of `s` is counted.
pub open spec fn scan(s: Seq<char>) -> (Token, nat) {
    let rest = after_spaces(s);
    if rest.len() == 0 {
        (Token::EOF, s.len())
    } else if is_digit(rest[0]) {
        (Token::Integer(decimal_value(literal(rest)) as i64), spaces_len(s) + digits_len(rest))
    } else {
        (symbol(rest[0]), spaces_len(s) + 1)
    }
}

/// Whether the integer literal at the front of `s`, if there is one, fits in a 64-bit
/// signed integer.
pub open spec fn next_fits(s: Seq<char>) -> bool {
    decimal_value(literal(after_spaces(s))) <= i64::MAX
}

/// Whether every integer literal of `s` fits in a 64-bit signed integer.
pub open spec fn all_fit(s: Seq<char>) -> bool
    decreases s.len(),
{
    &&& next_fits(s)
    &&& scan(s).0 != Token::EOF ==> {
        proof {
            lemma_scan_advances(s);
        }
        all_fit(s.skip(scan(s).1 as int))
    }
}

/// Whether the integer literals among the first `n` tokens of `s` fit in a 64-bit
/// signed integer.
pub open spec fn fit_ahead(s: Seq<char>, n: nat) -> bool
    decreases n,
{
    n == 0 || (next_fits(s) && fit_ahead(s.skip(scan(s).1 as int), (n - 1) as nat))
}

/// The tokens of `s` in order, without the end of input that follows the last of them.
pub open spec fn tokens(s: Seq<char>) -> Seq<Token>
    decreases s.len(),
{
    if scan(s).0 == Token::EOF {
        Seq::empty()
    } else {
        proof {
            lemma_scan_advances(s);
        }
        seq![scan(s).0] + tokens(s.skip(scan(s).1 as int))
    }
}

/// What is left of the characters `s` when their first `n` tokens have been read.
pub open spec fn skip_tokens(s: Seq<char>, n: nat) -> Seq<char>
    decreases n,
{
    if n == 0 {
        s
    } else {
        skip_tokens(s.skip(scan(s).1 as int), (n - 1) as nat)
    }
}

/// The whitespace at the front of a string is whitespace, is no longer than the
/// string, and ends where the string ends or a character that is no whitespace stands.
pub proof fn lemma_spaces_len(s: Seq<char>)
    ensures
        spaces_len(s) <= s.len(),
        forall|i: int| 0 <= i < spaces_len(s) ==> is_space(#[trigger] s[i]),
        spaces_len(s) < s.len() ==> !is_space(s[spaces_len(s) as int]),
    decreases s.len(),
{
    if s.len() > 0 && is_space(s[0]) {
        lemma_spaces_len(s.skip(1));
        assert forall|i: int| 0 <= i < spaces_len(s) implies is_space(#[trigger] s[i]) by {
            if i > 0 {
                assert(s[i] == s.skip(1)[i - 1]);
            }
        }
    }
}

/// The digits at the front of a string are digits, are no longer than the string, and
/// end where the string ends or a character that is no digit stands.
pub proof fn lemma_digits_len(s: Seq<char>)
    ensures
        digits_len(s) <= s.len(),
        all_digits(literal(s)),
        digits_len(s) < s.len() ==> !is_digit(s[digits_len(s) as int]),
    decreases s.len(),
{
    if s.len() > 0 && is_digit(s[0]) {
        lemma_digits_len(s.skip(1));
        assert forall|i: int| 0 <= i < literal(s).len() implies is_digit(
            #[trigger] literal(s)[i],
        ) by {
            if i > 0 {
                assert(literal(s)[i] == literal(s.skip(1))[i - 1]);
            }
        }
    }
}

/// A run of `n` characters that all are whitespace, ending where the string ends or a
/// character that is no whitespace stands, is the whitespace at the front.
pub proof fn lemma_spaces_len_is(s: Seq<char>, n: int)
    requires
        0 <= n <= s.len(),
        forall|i: int| 0 <= i < n ==> is_space(#[trigger] s[i]),
        n < s.len() ==> !is_space(s[n]),
    ensures
        spaces_len(s) == n,
    decreases n,
{
    if n > 0 {
        assert forall|i: int| 0 <= i < n - 1 implies is_space(#[trigger] s.skip(1)[i]) by {}
        lemma_spaces_len_is(s.skip(1), n - 1);
    }
}

/// A run of `n` characters that all are digits, ending where the string ends or a
/// character that is no digit stands, is the digits at the front.
pub proof fn lemma_digits_len_is(s: Seq<char>, n: int)
    requires
        0 <= n <= s.len(),
        forall|i: int| 0 <= i < n ==> is_digit(#[trigger] s[i]),
        n < s.len() ==> !is_digit(s[n]),
    ensures
        digits_len(s) == n,
    decreases n,
{
    if n > 0 {
        assert forall|i: int| 0 <= i < n - 1 implies is_digit(#[trigger] s.skip(1)[i]) by {}
        lemma_digits_len_is(s.skip(1), n - 1);
    }
}

/// A token ends within the string, and a token other than the end of input takes up
/// at least one character.
pub proof fn lemma_scan_advances(s: Seq<char>)
    ensures
        scan(s).1 <= s.len(),
        scan(s).0 != Token::EOF ==> scan(s).1 >= 1,
{
    lemma_spaces_len(s);
    lemma_digits_len(after_spaces(s));
}

/// Once the end of input has been reached it is reached again, however often one asks:
/// no characters are left after it, and the first token of no characters is the end of
/// input.
pub proof fn lemma_end_of_input_stays(s: Seq<char>)
    requires
        scan(s).0 == Token::EOF,
    ensures
        s.skip(scan(s).1 as int) == Seq::<char>::empty(),
        scan(Seq::<char>::empty()) == (Token::EOF, 0nat),
{
}

/// Where nothing is left to read, nothing is left that could fail to fit.
pub proof fn lemma_nothing_fits(s: Seq<char>)
    requires
        s.len() == 0,
    ensures
        all_fit(s),
        tokens(s) == Seq::<Token>::empty(),
{
}

/// Reading tokens in two steps is reading them in one.
pub proof fn lemma_skip_tokens_adds(s: Seq<char>, m: nat, n: nat)
    ensures
        skip_tokens(skip_tokens(s, m), n) == skip_tokens(s, m + n),
    decreases m,
{
    if m > 0 {
        lemma_skip_tokens_adds(s.skip(scan(s).1 as int), (m - 1) as nat, n);
    }
}

/// Where all integer literals of a text fit, so do those that are left when some
/// tokens have been read.
pub proof fn lemma_rest_fits(s: Seq<char>, n: nat)
    requires
        all_fit(s),
    ensures
        all_fit(skip_tokens(s, n)),
    decreases n,
{
    if n > 0 {
        let rest = s.skip(scan(s).1 as int);
        lemma_rest_fits(rest, (n - 1) as nat);
    }
}

/// Where all integer literals of a text fit, so do those among its first tokens.
pub proof fn lemma_first_fit(s: Seq<char>, n: nat)
    requires
        all_fit(s),
    ensures
        fit_ahead(s, n),
    decreases n,
{
    if n > 0 {
        lemma_rest_fits(s, 1);
        reveal_with_fuel(skip_tokens, 2);
        lemma_first_fit(s.skip(scan(s).1 as int), (n - 1) as nat);
    }
}

/// Once the end of input has been reached, every further token is the end of input.
pub proof fn lemma_end_of_input_again(s: Seq<char>, n: nat)
    requires
        scan(s).0 == Token::EOF,
    ensures
        scan(skip_tokens(s, n)).0 == Token::EOF,
    decreases n,
{
    if n > 0 {
        lemma_end_of_input_again(s.skip(scan(s).1 as int), (n - 1) as nat);
    }
}

} // verus!
