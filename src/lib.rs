//! Infix arithmetic expressions: tokens, postfix order, expression trees, and a
//! textual trace that rewrites the expression one evaluated step at a time.
pub mod error;
pub mod text;
pub mod lexer;
pub mod parser;
pub mod ast;
pub mod trace;
pub mod expression;
