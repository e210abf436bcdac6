//! Front end of the Ivo language: source positions, operators, tokens,
//! the lexer, the syntax tree and the parser, and the command line.

pub mod span;
pub mod operator;
pub mod interner;
pub mod text;
pub mod token;
pub mod lexer;
pub mod lex_shift;
pub mod ast;
pub mod parser;
pub mod parser_laws;
pub mod cli;
pub mod report;
