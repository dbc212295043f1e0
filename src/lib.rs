//! Front end of a small shell-like command language: a lexer that turns
//! script text into tokens, and a parser that builds a syntax tree, splicing
//! in the texts that directives name.
pub mod lexer;
pub mod parser;
pub mod token;

pub use parser::{parse, Construct, Node, Operator, ParseError, Parser, SpliceFailure};
