//! Front end of a small lambda-calculus language: text to tokens, tokens to
//! expressions, and expressions to types.
//!
//! - [`lexer::lex_str`] cuts a text into tokens and loses no character.
//! - [`parser::parse_tokens`] reads the expressions that the tokens spell.
//! - [`types::type_expr_default`] infers the type of an expression by
//!   unification, in an environment that holds `add`.
//!
//! Each stage is all or nothing, and each states what it returns over the
//! mathematical values of its arguments: `lexer::tokenize`,
//! `parser::parse_program` and `types::infer`.

pub mod ast;
pub mod lexer;
pub mod parser;
pub mod types;
