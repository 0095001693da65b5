//! The tokens of a program text.
use vstd::prelude::*;

verus! {

/// One lexical unit of a program text.
#[derive(Debug, Clone, Copy, PartialEq, Eq, Structural)]
pub enum Token {
    /// `;`
    Semicolon,
    /// `!=`
    NotEq,
    /// `IF`
    If,
    /// `WHILE`
    While,
    /// `DO`
    Do,
    /// `END`
    End,
    /// `THEN`
    Then,
    /// `0`
    Zero,
    /// `1`
    One,
    /// `+`
    Plus,
    /// `-`
    Minus,
    /// `x` and the decimal index of a variable.
    Var(u64),
    /// `:=`
    Assign,
    /// The end of the text.
    Eof,
    /// `[`
    LeftBracket,
    /// `]`
    RightBracket,
    /// `=`
    Equal,
    /// `?`
    Question,
}

} // verus!
