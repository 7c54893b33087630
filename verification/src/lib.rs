//! Core of an arithmetic expression calculator.
//!
//! The library turns raw text into a sequence of tokens ([`token::Token`]) and
//! converts that sequence, by a verified shunting-yard pass, into a postfix
//! application schedule: the exact order in which operands are produced and
//! operators applied. Numeric literals are carried as their characters, since
//! the final floating-point fold is left to the embedding application; the
//! schedule is proved well formed, so that fold can never underflow and always
//! leaves exactly one value.

pub mod eval;
pub mod token;
pub mod tokenizer;
