//! Lexer and recursive-descent parser for integer arithmetic expressions.
pub mod ast;
pub mod lexer;
pub mod parser;
