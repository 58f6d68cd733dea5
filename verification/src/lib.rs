//! Front end of the Lingo toy programming language: a character-level lexer,
//! a Pratt (precedence-climbing) expression parser, and the AST node model the
//! two produce.  Every component carries a full functional specification: the
//! lexer is specified by a recursive scanning function over the character
//! sequence, and the parser by a recursive specification parser over the token
//! stream the lexer yields.  The `laws` module proves the properties that tie
//! the pieces together: terminal end of file, symbol-table lexing,
//! left-associativity of same-precedence operators, and the
//! parse/format/re-parse round trip.

pub mod ast;
pub mod laws;
pub mod lexer;
pub mod parser;
pub mod token;
