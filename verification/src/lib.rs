//! A small interpreter for integer arithmetic expressions.
//!
//! Text is split into tokens by the [`lexer`], turned into a tree by the
//! operator-precedence [`parser`], and reduced to an integer by
//! [`evaluate`]. What a text is read as is said in [`scan`], what tokens are parsed as
//! in [`grammar`]; every function carries a contract that Verus proves. Beyond the
//! contracts, [`round_trip`] proves that an expression written out is parsed as
//! itself, and [`order`] that the parser keeps the tokens in their order.
//!
//! Two choices are worth knowing before use:
//!
//! - An integer literal must fit in a 64-bit signed integer. The functions that read
//!   tokens ask for that in their `requires`; [`lexer::literals_fit`] tells whether a
//!   text meets it.
//! - Arithmetic is checked. A result that does not fit in a 64-bit signed integer is
//!   [`evaluate::EvalError::Overflow`], never a wrapped or clipped number.

pub mod ast;
pub mod decimal;
pub mod evaluate;
pub mod grammar;
pub mod lexer;
pub mod order;
pub mod parser;
pub mod round_trip;
pub mod scan;
pub mod token;
