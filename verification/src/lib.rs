//! A parser for arithmetic expressions typed into numeric input fields.
//!
//! The library turns a string into a syntax tree, or into the error that
//! explains why it is not a valid expression. Operator precedence and
//! associativity follow the usual conventions (exponentiation binds tighter
//! than multiplication and division, which bind tighter than addition and
//! subtraction; all binary operators are left-associative except `**`),
//! and `%` is a postfix "percent" operator meaning "divide by 100".
//!
//! Number literals stay as spans of the input in the tree: what value a
//! literal and an operator stand for is up to the caller.
//!
//! - `token`: the tokens and the binding powers of the operators.
//! - `lexer`: the lexical grammar and `tokenize`, proved to read exactly
//!   what the input spells.
//! - `ast`: the syntax tree, how it is written out, and the precedence
//!   grammar that it obeys.
//! - `parser`: the Pratt parser, `parse_tokens` and `parse_expression`.
//! - `grammar`: what the parser is proved to compute, in terms of the
//!   precedence grammar; which inputs fail and with what error, in terms of
//!   a counter automaton over the tokens; when a lexical error surfaces.
//! - `locality`: lexing is local; skipped characters between tokens only
//!   move number spans; how pieces of text lex when put together.
//! - `composition`: parsing ignores spans; whitespace insensitivity;
//!   parenthesized operands compose; precedence of two operators on text.
//! - `meaning`: when two trees, each read in its own text, stand for the
//!   same value; whitespace, parenthesized operands and two operators in
//!   those terms.
//! - `parens`: strings whose every `)` closes an earlier `(`, and why such
//!   a string that parses takes in all its tokens.
//! - `error`: `ParseError`.

pub mod ast;
pub mod composition;
pub mod error;
pub mod grammar;
pub mod lexer;
pub mod meaning;
pub mod parens;
pub mod locality;
pub mod parser;
pub mod token;

pub use ast::{BinaryOp, Expr};
pub use error::ParseError;
pub use lexer::tokenize;
pub use parser::{parse_expression, parse_tokens};
pub use token::Token;
