use crate::decimal::{decimal_text, push_decimal};
use vstd::prelude::*;
use vstd::string::*;

verus! {

/// A lexical token of the expression language.
#[derive(Debug, Clone, Copy, PartialEq, Eq, Structural)]
pub enum Token {
    Integer(i64),
    Plus,
    Minus,
    Asterisk,
    Slash,
    /// The power operator `^`.
    Caret,
    LParen,
    RParen,
    /// The end of the input.
    EOF,
    /// A character that begins no token.
    Illegal,
}

impl Token {
    /// The name under which a token appears in a diagnostic.
    pub open spec fn name(self) -> Seq<char> {
        match self {
            Token::Integer(value) => "Integer("@ + decimal_text(value as int) + ")"@,
            Token::Plus => "Plus"@,
            Token::Minus => "Minus"@,
            Token::Asterisk => "Asterisk"@,
            Token::Slash => "Slash"@,
            Token::Caret => "Caret"@,
            Token::LParen => "LParen"@,
            Token::RParen => "RParen"@,
            Token::EOF => "EOF"@,
            Token::Illegal => "Illegal"@,
        }
    }

    /// Appends the token's name to `out`.
    pub fn push_name(&self, out: &mut String)
        ensures
            final(out)@ == old(out)@ + self.name(),
    {
        match self {
            Token::Integer(value) => {
                out.append("Integer(");
                push_decimal(out, *value);
                out.append(")");
            },
            Token::Plus => out.append("Plus"),
            Token::Minus => out.append("Minus"),
            Token::Asterisk => out.append("Asterisk"),
            Token::Slash => out.append("Slash"),
            Token::Caret => out.append("Caret"),
            Token::LParen => out.append("LParen"),
            Token::RParen => out.append("RParen"),
            Token::EOF => out.append("EOF"),
            Token::Illegal => out.append("Illegal"),
        }
    }
}

} // verus!
