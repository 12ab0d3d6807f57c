//! Lexical analysis for a small arithmetic expression language.
pub mod lexer;
pub mod traversal;
