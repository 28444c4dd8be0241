//! Front end of a small language: a scanner that turns source text into a
//! classified token sequence, and a recursive-descent expression parser that
//! builds a syntax tree with precedence-correct binary operators, right-
//! associative assignment and parenthesized grouping.

pub mod ast;
pub mod parser;
pub mod lexer;
pub mod token;
