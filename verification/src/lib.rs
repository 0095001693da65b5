//! A small imperative language over unsigned 64-bit variables: a
//! lexer, a recursive-descent parser and a tree-walking interpreter,
//! each verified against a mathematical description of what it
//! computes.
pub mod ast;
pub mod error;
pub mod interpreter;
pub mod lexer;
pub mod parser;
pub mod render;
pub mod round_trip;
pub mod token;

pub use error::{LexError, SyntaxError};
pub use interpreter::{Interpreter, Outcome, Stop};
pub use lexer::Lexer;
pub use parser::Parser;
pub use render::render_text;
pub use token::Token;
