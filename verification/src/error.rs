//! The failures of lexing and parsing.
use vstd::prelude::*;
use crate::token::Token;

verus! {

/// Why a program text is not a sequence of tokens. Each variant
/// carries the character that stands at the point of failure, `None`
/// where the text ends there.
#[derive(Debug, Clone, Copy, PartialEq, Eq)]
#[allow(inconsistent_fields)]
pub enum LexError {
    /// No token begins with this character.
    UnexpectedChar { found: char },
    /// A `/` is not followed by a second `/`.
    MissingSlash { found: Option<char> },
    /// A `:` or `!` is not followed by `=`.
    MissingEqual { found: Option<char> },
    /// A reserved word is broken off or misspelled.
    IncompleteKeyword { found: Option<char> },
    /// An `x` is not followed by a digit.
    MissingIndex { found: Option<char> },
    /// The digits after an `x` denote a number above `u64::MAX`.
    IndexOverflow,
}

/// Why a token sequence is not a program. Each variant carries the
/// token that stands at the point of failure.
#[derive(Debug, Clone, Copy, PartialEq, Eq)]
pub enum SyntaxError {
    /// `found` stands where the grammar requires `expected`.
    UnexpectedToken { found: Token, expected: Token },
    /// `found` stands where the grammar requires a variable.
    ExpectedVariable { found: Token },
    /// No statement begins with `found`.
    InvalidStatement { found: Token },
    /// `found` stands where the grammar requires the constant 0 or 1.
    InvalidConstant { found: Token },
    /// `found` follows a complete program.
    TrailingInput { found: Token },
}

} // verus!
