//! The lexer: from characters to tokens, one token at a time.

use crate::decimal::{all_digits, decimal_value, is_digit, lemma_decimal_value_grows};
use crate::scan::{
    after_spaces, all_fit, digits_len, is_space, lemma_digits_len, lemma_digits_len_is,
    lemma_spaces_len_is, literal, next_fits, scan, spaces_len, symbol,
};
use crate::token::Token;
use vstd::prelude::*;

verus! {

/// Whether `rest` is what is left of `s` after a run of `n` characters that `predicate`
/// accepted, where the run ends at the end of `s` or before a character that
/// `predicate` refused.
pub open spec fn accepted_run<F: Fn(char) -> bool>(
    s: Seq<char>,
    n: int,
    rest: Seq<char>,
    predicate: F,
) -> bool {
    &&& 0 <= n <= s.len()
    &&& rest == s.skip(n)
    &&& forall|i: int| 0 <= i < n ==> predicate.ensures((#[trigger] s[i],), true)
    &&& n < s.len() ==> predicate.ensures((s[n],), false)
}

/// A cursor over the characters of a source text, from which tokens are taken one by
/// one. The cursor only ever moves forward.
pub struct Lexer {
    source: Vec<char>,
    position: usize,
}

impl View for Lexer {
    type V = Seq<char>;

    /// The characters that have not been read yet.
    open spec fn view(&self) -> Seq<char> {
        self.source().skip(self.position() as int)
    }
}

/// Whether `c` is ASCII whitespace.
fn is_whitespace(c: char) -> (b: bool)
    ensures
        b == is_space(c),
{
    c == ' ' || c == '\t' || c == '\n' || c == '\x0C' || c == '\r'
}

/// Whether `c` is an ASCII digit.
fn is_ascii_digit(c: char) -> (b: bool)
    ensures
        b == is_digit(c),
{
    '0' <= c && c <= '9'
}

/// The number that the digits of `chars` from `from` up to `to` stand for.
fn digits_value(chars: &Vec<char>, from: usize, to: usize) -> (value: i64)
    requires
        from <= to <= chars.len(),
        all_digits(chars@.subrange(from as int, to as int)),
        decimal_value(chars@.subrange(from as int, to as int)) <= i64::MAX,
    ensures
        value == decimal_value(chars@.subrange(from as int, to as int)),
{
    let ghost digits = chars@.subrange(from as int, to as int);
    let mut value: i64 = 0;
    let mut i: usize = from;
    while i < to
        invariant
            from <= i <= to <= chars.len(),
            digits == chars@.subrange(from as int, to as int),
            all_digits(digits),
            decimal_value(digits) <= i64::MAX,
            value == decimal_value(chars@.subrange(from as int, i as int)),
        decreases to - i,
    {
        let c = chars[i];
        proof {
            let longer = chars@.subrange(from as int, i + 1);
            assert(longer.drop_last() =~= chars@.subrange(from as int, i as int));
            assert(digits.take(i + 1 - from) =~= longer);
            lemma_decimal_value_grows(digits, i + 1 - from);
        }
        let digit: i64 = (c as u32 - '0' as u32) as i64;
        value = value * 10 + digit;
        i = i + 1;
    }
    value
}

impl Lexer {
    #[verifier::type_invariant]
    spec fn within_source(self) -> bool {
        self.position <= self.source.len()
    }

    /// The characters of the whole source text.
    pub closed spec fn source(&self) -> Seq<char> {
        self.source@
    }

    /// How many characters of the source text have been read.
    pub closed spec fn position(&self) -> nat {
        self.position as nat
    }

    /// A lexer at the start of `source`.
    pub fn new(source: &str) -> (lexer: Self)
        ensures
            lexer.source() == source@,
            lexer.position() == 0,
            lexer@ == source@,
    {
        let mut chars: Vec<char> = Vec::new();
        for c in it: source.chars()
            invariant
                it.seq() == source@,
                chars@ == it.seq().take(it.index() as int),
        {
            chars.push(c);
        }
        Lexer { source: chars, position: 0 }
    }

    /// The next character, which stays unread.
    pub fn peek(&mut self) -> (next: Option<char>)
        ensures
            *final(self) == *old(self),
            next == if old(self)@.len() > 0 {
                Some(old(self)@[0])
            } else {
                None
            },
    {
        proof {
            use_type_invariant(&*self);
        }
        if self.position < self.source.len() {
            Some(self.source[self.position])
        } else {
            None
        }
    }

    /// Reads the next character. At the end of the input there is none, and nothing
    /// changes.
    pub fn consume_char(&mut self) -> (next: Option<char>)
        ensures
            final(self).source() == old(self).source(),
            final(self).position() <= final(self).source().len(),
            next == if old(self)@.len() > 0 {
                Some(old(self)@[0])
            } else {
                None
            },
            final(self).position() == if old(self)@.len() > 0 {
                old(self).position() + 1
            } else {
                old(self).position()
            },
    {
        proof {
            use_type_invariant(&*self);
        }
        if self.position < self.source.len() {
            let c = self.source[self.position];
            self.position = self.position + 1;
            Some(c)
        } else {
            None
        }
    }

    /// Reads past the whitespace at the cursor.
    pub fn skip_whitespace(&mut self)
        ensures
            final(self).source() == old(self).source(),
            final(self).position() == old(self).position() + spaces_len(old(self)@),
            final(self).position() <= final(self).source().len(),
            final(self)@ == after_spaces(old(self)@),
    {
        let accepts = |c: char| -> (b: bool)
            ensures
                b == is_space(c),
            { is_whitespace(c) };
        self.read_while(accepts);
        proof {
            lemma_spaces_len_is(old(self)@, self.position() - old(self).position());
        }
    }

    /// Reads on for as long as `predicate` accepts the next character.
    ///
    /// What has been read is a run of characters that `predicate` accepted, and the run
    /// ends at the end of the input or before a character that `predicate` refused.
    pub fn read_while<F>(&mut self, predicate: F) where F: Fn(char) -> bool
        requires
            forall|c: char| predicate.requires((c,)),
        ensures
            final(self).source() == old(self).source(),
            old(self).position() <= final(self).position() <= final(self).source().len(),
            accepted_run(
                old(self)@,
                final(self).position() - old(self).position(),
                final(self)@,
                predicate,
            ),
    {
        proof {
            use_type_invariant(&*self);
        }
        let ghost start = self@;
        let ghost mut n: int = 0;
        loop
            invariant
                self.source() == old(self).source(),
                self.position() == old(self).position() + n,
                self.position() <= self.source().len(),
                start == old(self)@,
                0 <= n <= start.len(),
                self@ == start.skip(n),
                forall|i: int| 0 <= i < n ==> predicate.ensures((#[trigger] start[i],), true),
                forall|c: char| predicate.requires((c,)),
            ensures
                n < start.len() ==> predicate.ensures((start[n],), false),
            decreases start.len() - n,
        {
            match self.peek() {
                Some(c) => {
                    if predicate(c) {
                        self.consume_char();
                        proof {
                            n = n + 1;
                        }
                    } else {
                        break ;
                    }
                },
                None => {
                    break ;
                },
            }
        }
    }

    /// Reads the integer literal at the cursor and returns the number it stands for.
    ///
    /// The cursor must stand at a digit, and the literal must fit in a 64-bit signed
    /// integer.
    pub fn read_integer(&mut self) -> (value: i64)
        requires
            digits_len(old(self)@) >= 1,
            decimal_value(literal(old(self)@)) <= i64::MAX,
        ensures
            value == decimal_value(literal(old(self)@)),
            final(self).source() == old(self).source(),
            final(self).position() == old(self).position() + digits_len(old(self)@),
            final(self).position() <= final(self).source().len(),
            final(self)@ == old(self)@.skip(digits_len(old(self)@) as int),
    {
        proof {
            use_type_invariant(&*self);
        }
        let start = self.position;
        let accepts = |c: char| -> (b: bool)
            ensures
                b == is_digit(c),
            { is_ascii_digit(c) };
        self.read_while(accepts);
        proof {
            use_type_invariant(&*self);
            lemma_digits_len_is(old(self)@, self.position() - old(self).position());
            assert(self.source@.subrange(start as int, self.position as int) =~= literal(
                old(self)@,
            ));
        }
        digits_value(&self.source, start, self.position)
    }

    /// Whether the integer literal that the next token would be made of, if the next
    /// token is one, fits in a 64-bit signed integer.
    pub fn literal_fits(&self) -> (fits: bool)
        ensures
            fits == next_fits(self@),
    {
        proof {
            use_type_invariant(self);
        }
        let mut i: usize = self.position;
        while i < self.source.len() && is_whitespace(self.source[i])
            invariant
                self.position <= i <= self.source.len(),
                forall|k: int| 0 <= k < i - self.position ==> is_space(#[trigger] self@[k]),
            decreases self.source.len() - i,
        {
            i = i + 1;
        }
        proof {
            lemma_spaces_len_is(self@, i - self.position);
        }
        let start = i;
        let ghost rest = after_spaces(self@);
        let mut value: i64 = 0;
        while i < self.source.len() && is_ascii_digit(self.source[i])
            invariant
                start <= i <= self.source.len(),
                rest == after_spaces(self@),
                rest == self.source@.skip(start as int),
                forall|k: int| 0 <= k < i - start ==> is_digit(#[trigger] rest[k]),
                0 <= value == decimal_value(self.source@.subrange(start as int, i as int)),
            decreases self.source.len() - i,
        {
            let c = self.source[i];
            let digit: i64 = (c as u32 - '0' as u32) as i64;
            proof {
                let longer = self.source@.subrange(start as int, i + 1);
                assert(longer.drop_last() =~= self.source@.subrange(start as int, i as int));
            }
            if value > (i64::MAX - digit) / 10 {
                proof {
                    // The digits read so far already stand for too much, and the whole
                    // literal stands for no less.
                    let longer = self.source@.subrange(start as int, i + 1);
                    lemma_digits_len(rest);
                    let n = digits_len(rest) as int;
                    assert(literal(rest).take(i + 1 - start) =~= longer);
                    lemma_decimal_value_grows(literal(rest), i + 1 - start);
                }
                return false;
            }
            value = value * 10 + digit;
            i = i + 1;
        }
        proof {
            lemma_digits_len_is(rest, i - start);
            assert(literal(rest) =~= self.source@.subrange(start as int, i as int));
        }
        true
    }

    /// Reads the next token.
    ///
    /// Whitespace is passed over. A digit begins an integer literal, which runs on for
    /// as long as digits follow; it must fit in a 64-bit signed integer. Each of
    /// `+ - * / ^ ( )` is a token of its own, and any other character is an
    /// [`Token::Illegal`] of that one character. At the end of the input the token is
    /// [`Token::EOF`], as often as it is asked for.
    pub fn next_token(&mut self) -> (token: Token)
        requires
            next_fits(old(self)@),
        ensures
            token == scan(old(self)@).0,
            final(self).source() == old(self).source(),
            final(self).position() == old(self).position() + scan(old(self)@).1,
            final(self).position() <= final(self).source().len(),
            final(self)@ == old(self)@.skip(scan(old(self)@).1 as int),
            token == Token::EOF ==> final(self)@.len() == 0,
            old(self)@.len() == 0 ==> token == Token::EOF,
    {
        proof {
            use_type_invariant(&*self);
        }
        self.skip_whitespace();
        match self.peek() {
            None => Token::EOF,
            Some(ch) => {
                if is_ascii_digit(ch) {
                    Token::Integer(self.read_integer())
                } else {
                    self.consume_char();
                    symbol_of(ch)
                }
            },
        }
    }
}

/// The token that a character other than a digit or whitespace makes.
fn symbol_of(c: char) -> (token: Token)
    ensures
        token == symbol(c),
{
    if c == '+' {
        Token::Plus
    } else if c == '-' {
        Token::Minus
    } else if c == '*' {
        Token::Asterisk
    } else if c == '/' {
        Token::Slash
    } else if c == '^' {
        Token::Caret
    } else if c == '(' {
        Token::LParen
    } else if c == ')' {
        Token::RParen
    } else {
        Token::Illegal
    }
}

/// Whether every integer literal of `source` fits in a 64-bit signed integer, which is
/// what reading all of its tokens asks for.
pub fn literals_fit(source: &str) -> (fit: bool)
    ensures
        fit == all_fit(source@),
{
    let mut lexer = Lexer::new(source);
    loop
        invariant
            all_fit(source@) == all_fit(lexer@),
            lexer.position() <= lexer.source().len(),
        decreases lexer@.len(),
    {
        if !lexer.literal_fits() {
            return false;
        }
        let token = lexer.next_token();
        if token == Token::EOF {
            return true;
        }
    }
}

} // verus!
