//! Lexical front end for the Lox scripting language: source text in,
//! an ordered sequence of classified tokens and lexical errors out.

pub mod place;
pub mod scan;
pub mod lex;
