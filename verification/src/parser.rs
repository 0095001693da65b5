//! Recursive-descent parsing of a token sequence into a program.
use vstd::prelude::*;
use crate::ast::{
    grammatical, grammatical_program, program_view, statement_view, Assignment, If, Program,
    Statement, Stmt, While,
};
use crate::error::SyntaxError;
use crate::token::Token;

verus! {

/// The token at position `i`; past the end of the sequence every
/// position holds the end-of-input token.
pub open spec fn peek(ts: Seq<Token>, i: int) -> Token {
    if 0 <= i < ts.len() {
        ts[i]
    } else {
        Token::Eof
    }
}

/// Requires the token `t` at position `i` and steps over it.
pub open spec fn expect_at(ts: Seq<Token>, i: int, t: Token) -> Result<int, SyntaxError> {
    if peek(ts, i) == t {
        Ok(i + 1)
    } else {
        Err(SyntaxError::UnexpectedToken { found: peek(ts, i), expected: t })
    }
}

/// Requires a variable at position `i` and steps over it.
pub open spec fn expect_var_at(ts: Seq<Token>, i: int) -> Result<(u64, int), SyntaxError> {
    match peek(ts, i) {
        Token::Var(v) => Ok((v, i + 1)),
        t => Err(SyntaxError::ExpectedVariable { found: t }),
    }
}

/// The constant 0 or 1 at position `i`.
pub open spec fn constant_at(ts: Seq<Token>, i: int) -> Result<i8, SyntaxError> {
    match peek(ts, i) {
        Token::Zero => Ok(0i8),
        Token::One => Ok(1i8),
        t => Err(SyntaxError::InvalidConstant { found: t }),
    }
}

/// The optional `+ c` or `- c` that ends an arithmetic assignment,
/// as the signed constant it denotes; without an operator the
/// constant is 0 and no token is consumed.
pub open spec fn offset_at(ts: Seq<Token>, i: int) -> Result<(i8, int), SyntaxError> {
    match peek(ts, i) {
        Token::Plus => match constant_at(ts, i + 1) {
            Ok(c) => Ok((c, i + 2)),
            Err(e) => Err(e),
        },
        Token::Minus => match constant_at(ts, i + 1) {
            Ok(c) => Ok(((-c) as i8, i + 2)),
            Err(e) => Err(e),
        },
        _ => Ok((0i8, i)),
    }
}

/// `[ var = var ]` from position `i`, as the assignment of that test
/// to `lhs`.
pub open spec fn equality_at(ts: Seq<Token>, i: int, lhs: u64) -> Result<(Stmt, int), SyntaxError> {
    match expect_at(ts, i, Token::LeftBracket) {
        Err(e) => Err(e),
        Ok(i1) => match expect_var_at(ts, i1) {
            Err(e) => Err(e),
            Ok((rhs_var, i2)) => match expect_at(ts, i2, Token::Equal) {
                Err(e) => Err(e),
                Ok(i3) => match expect_var_at(ts, i3) {
                    Err(e) => Err(e),
                    Ok((rhs_var2, i4)) => match expect_at(ts, i4, Token::RightBracket) {
                        Err(e) => Err(e),
                        Ok(i5) => Ok(
                            (
                                Stmt::Assignment {
                                    uses_equality: true,
                                    lhs,
                                    rhs_var,
                                    rhs_var2,
                                    rhs_const: 0,
                                },
                                i5,
                            ),
                        ),
                    },
                },
            },
        },
    }
}

/// `var`, with an optional `+ c` or `- c`, from position `i`, as the
/// assignment of that sum to `lhs`.
pub open spec fn arithmetic_at(ts: Seq<Token>, i: int, lhs: u64) -> Result<(Stmt, int), SyntaxError> {
    match expect_var_at(ts, i) {
        Err(e) => Err(e),
        Ok((rhs_var, i1)) => match offset_at(ts, i1) {
            Err(e) => Err(e),
            Ok((rhs_const, i2)) => Ok(
                (
                    Stmt::Assignment { uses_equality: false, lhs, rhs_var, rhs_var2: 0, rhs_const },
                    i2,
                ),
            ),
        },
    }
}

/// An assignment from position `i`: `var := [ var = var ]` or
/// `var := var`, the latter with an optional `+ c` or `- c`.
pub open spec fn assignment_at(ts: Seq<Token>, i: int) -> Result<(Stmt, int), SyntaxError> {
    match expect_var_at(ts, i) {
        Err(e) => Err(e),
        Ok((lhs, i1)) => match expect_at(ts, i1, Token::Assign) {
            Err(e) => Err(e),
            Ok(i2) => if peek(ts, i2) == Token::LeftBracket {
                equality_at(ts, i2, lhs)
            } else {
                arithmetic_at(ts, i2, lhs)
            },
        },
    }
}

/// `? var ;` from position `i`.
pub open spec fn print_at(ts: Seq<Token>, i: int) -> Result<(Stmt, int), SyntaxError> {
    match expect_at(ts, i, Token::Question) {
        Err(e) => Err(e),
        Ok(i1) => match expect_var_at(ts, i1) {
            Err(e) => Err(e),
            Ok((var, i2)) => match expect_at(ts, i2, Token::Semicolon) {
                Err(e) => Err(e),
                Ok(i3) => Ok((Stmt::Print { var }, i3)),
            },
        },
    }
}

/// `WHILE var != 0 DO` from position `i`: the condition variable and
/// the position of the body.
pub open spec fn while_head_at(ts: Seq<Token>, i: int) -> Result<(u64, int), SyntaxError> {
    match expect_at(ts, i, Token::While) {
        Err(e) => Err(e),
        Ok(i1) => match expect_var_at(ts, i1) {
            Err(e) => Err(e),
            Ok((condition, i2)) => match expect_at(ts, i2, Token::NotEq) {
                Err(e) => Err(e),
                Ok(i3) => match expect_at(ts, i3, Token::Zero) {
                    Err(e) => Err(e),
                    Ok(i4) => match expect_at(ts, i4, Token::Do) {
                        Err(e) => Err(e),
                        Ok(i5) => Ok((condition, i5)),
                    },
                },
            },
        },
    }
}

/// `IF var = c THEN` from position `i`: the condition variable, the
/// constant and the position of the body.
pub open spec fn if_head_at(ts: Seq<Token>, i: int) -> Result<(u64, i8, int), SyntaxError> {
    match expect_at(ts, i, Token::If) {
        Err(e) => Err(e),
        Ok(i1) => match expect_var_at(ts, i1) {
            Err(e) => Err(e),
            Ok((condition_var, i2)) => match expect_at(ts, i2, Token::Equal) {
                Err(e) => Err(e),
                Ok(i3) => match constant_at(ts, i3) {
                    Err(e) => Err(e),
                    Ok(condition_const) => match expect_at(ts, i3 + 1, Token::Then) {
                        Err(e) => Err(e),
                        Ok(i5) => Ok((condition_var, condition_const, i5)),
                    },
                },
            },
        },
    }
}

/// The statement that begins at position `i`, and the position after
/// it.
pub open spec fn statement_at(ts: Seq<Token>, i: int) -> Result<(Stmt, int), SyntaxError>
    decreases ts.len() - i, 0nat,
{
    match peek(ts, i) {
        Token::While => match while_head_at(ts, i) {
            Err(e) => Err(e),
            Ok((condition, i1)) => match program_at(ts, i1) {
                Err(e) => Err(e),
                Ok((body, i2)) => match expect_at(ts, i2, Token::End) {
                    Err(e) => Err(e),
                    Ok(i3) => Ok((Stmt::While { condition, body }, i3)),
                },
            },
        },
        Token::If => match if_head_at(ts, i) {
            Err(e) => Err(e),
            Ok((condition_var, condition_const, i1)) => match program_at(ts, i1) {
                Err(e) => Err(e),
                Ok((body, i2)) => match expect_at(ts, i2, Token::End) {
                    Err(e) => Err(e),
                    Ok(i3) => Ok((Stmt::If { condition_var, condition_const, body }, i3)),
                },
            },
        },
        Token::Var(_) => assignment_at(ts, i),
        Token::Question => print_at(ts, i),
        t => Err(SyntaxError::InvalidStatement { found: t }),
    }
}

/// The statement list that begins at position `i`, and the position
/// after it: one statement, then what [`more_at`] reads. (A statement
/// that parses ends after its first token and within the sequence,
/// so the test of `i1` always holds: see [`lemma_statement_at`].)
pub open spec fn program_at(ts: Seq<Token>, i: int) -> Result<(Seq<Stmt>, int), SyntaxError>
    decreases ts.len() - i, 2nat,
{
    match statement_at(ts, i) {
        Err(e) => Err(e),
        Ok((s, i1)) => if i < i1 <= ts.len() {
            more_at(ts, i1, seq![s])
        } else {
            arbitrary()
        },
    }
}

/// The rest of a statement list whose statements so far are `done`:
/// as long as a `;` follows, and after it neither `END` nor the end
/// of input, one more statement. A `;` before `END` or the end of
/// input is consumed and ends the list. (The test of `i1` always
/// holds: see [`lemma_statement_at`].)
pub open spec fn more_at(ts: Seq<Token>, i: int, done: Seq<Stmt>) -> Result<
    (Seq<Stmt>, int),
    SyntaxError,
>
    decreases ts.len() - i, 1nat,
{
    if peek(ts, i) != Token::Semicolon {
        Ok((done, i))
    } else if peek(ts, i + 1) == Token::Eof || peek(ts, i + 1) == Token::End {
        Ok((done, i + 1))
    } else {
        match statement_at(ts, i + 1) {
            Err(e) => Err(e),
            Ok((s, i1)) => if i + 1 < i1 <= ts.len() {
                more_at(ts, i1, done.push(s))
            } else {
                arbitrary()
            },
        }
    }
}

/// The program that the whole token sequence denotes: a statement
/// list from the first token on, followed by the end of input.
pub open spec fn parse_tokens(ts: Seq<Token>) -> Result<Seq<Stmt>, SyntaxError> {
    match program_at(ts, 0) {
        Err(e) => Err(e),
        Ok((p, i)) => if peek(ts, i) == Token::Eof {
            Ok(p)
        } else {
            Err(SyntaxError::TrailingInput { found: peek(ts, i) })
        },
    }
}

/// A statement that parses is grammatical and ends after it begins,
/// within the sequence; so the test of the end position in
/// [`program_at`] and [`more_at`] always holds.
pub proof fn lemma_statement_at(ts: Seq<Token>, i: int)
    requires
        statement_at(ts, i) is Ok,
    ensures
        i < statement_at(ts, i)->Ok_0.1 <= ts.len(),
        grammatical(statement_at(ts, i)->Ok_0.0),
    decreases ts.len() - i, 0nat,
{
    match peek(ts, i) {
        Token::While => {
            let i1 = while_head_at(ts, i)->Ok_0.1;
            lemma_program_at(ts, i1);
        },
        Token::If => {
            let i1 = if_head_at(ts, i)->Ok_0.2;
            lemma_program_at(ts, i1);
        },
        _ => {},
    }
}

/// A statement list that parses is grammatical and ends after it
/// begins, within the sequence.
pub proof fn lemma_program_at(ts: Seq<Token>, i: int)
    requires
        program_at(ts, i) is Ok,
    ensures
        i < program_at(ts, i)->Ok_0.1 <= ts.len(),
        grammatical_program(program_at(ts, i)->Ok_0.0),
    decreases ts.len() - i, 2nat,
{
    lemma_statement_at(ts, i);
    let (s, i1) = statement_at(ts, i)->Ok_0;
    lemma_more_at(ts, i1, seq![s]);
}

/// The rest of a statement list, where it parses, adds grammatical
/// statements only and ends within the sequence.
pub proof fn lemma_more_at(ts: Seq<Token>, i: int, done: Seq<Stmt>)
    requires
        more_at(ts, i, done) is Ok,
        0 <= i <= ts.len(),
        grammatical_program(done),
    ensures
        i <= more_at(ts, i, done)->Ok_0.1 <= ts.len(),
        grammatical_program(more_at(ts, i, done)->Ok_0.0),
    decreases ts.len() - i, 1nat,
{
    if peek(ts, i) != Token::Semicolon {
    } else if peek(ts, i + 1) == Token::Eof || peek(ts, i + 1) == Token::End {
    } else {
        lemma_statement_at(ts, i + 1);
        let (s, i1) = statement_at(ts, i + 1)->Ok_0;
        lemma_more_at(ts, i1, done.push(s));
    }
}

/// Every program that parsing yields is grammatical.
pub proof fn lemma_parse_tokens_grammatical(ts: Seq<Token>)
    requires
        parse_tokens(ts) is Ok,
    ensures
        grammatical_program(parse_tokens(ts)->Ok_0),
{
    lemma_program_at(ts, 0);
}

/// A parser over a token sequence, with one token of lookahead.
pub struct Parser {
    tokens: Vec<Token>,
    position: usize,
    current_token: Token,
}

impl Parser {
    /// The token sequence that this parser reads.
    pub closed spec fn tokens(&self) -> Seq<Token> {
        self.tokens@
    }

    /// The lookahead is the token at the current position.
    spec fn ready(&self) -> bool {
        &&& self.position <= self.tokens.len()
        &&& self.current_token == peek(self.tokens@, self.position as int)
    }

    /// `self` has moved on from `before` to position `i` of the same
    /// token sequence.
    spec fn moved(&self, before: &Self, i: int) -> bool {
        &&& self.tokens@ == before.tokens@
        &&& self.position == i
        &&& self.ready()
    }

    /// A parser that will read `tokens` from the first one on.
    pub fn new(tokens: Vec<Token>) -> (parser: Self)
        ensures
            parser.tokens() == tokens@,
    {
        Parser { tokens, position: 0, current_token: Token::Eof }
    }

    /// Parses the whole token sequence: a statement list followed by
    /// the end of input. The program that comes out is grammatical.
    pub fn parse(self) -> (result: Result<Program, SyntaxError>)
        ensures
            match result {
                Ok(program) => parse_tokens(self.tokens()) == Ok::<Seq<Stmt>, SyntaxError>(
                    program_view(program@),
                ),
                Err(e) => parse_tokens(self.tokens()) == Err::<Seq<Stmt>, SyntaxError>(e),
            },
            result matches Ok(program) ==> grammatical_program(program_view(program@)),
    {
        proof {
            if parse_tokens(self.tokens()) is Ok {
                lemma_parse_tokens_grammatical(self.tokens());
            }
        }
        let mut parser = self;
        parser.position = 0;
        parser.current_token = if parser.tokens.len() > 0 {
            parser.tokens[0]
        } else {
            Token::Eof
        };
        match parser.program() {
            Err(e) => Err(e),
            Ok(program) => {
                if parser.current_token == Token::Eof {
                    Ok(program)
                } else {
                    Err(SyntaxError::TrailingInput { found: parser.current_token })
                }
            },
        }
    }

    /// Steps to the next token; at the end of the sequence the
    /// lookahead stays the end-of-input token.
    fn next(&mut self)
        requires
            old(self).ready(),
        ensures
            old(self).position < old(self).tokens.len() ==> final(self).moved(
                old(self),
                old(self).position + 1,
            ),
            old(self).position >= old(self).tokens.len() ==> final(self).moved(
                old(self),
                old(self).position as int,
            ),
    {
        if self.position < self.tokens.len() {
            self.position = self.position + 1;
        }
        self.current_token = if self.position < self.tokens.len() {
            self.tokens[self.position]
        } else {
            Token::Eof
        };
    }

    /// Requires `to_expect` under the lookahead and steps over it.
    fn expect(&mut self, to_expect: Token) -> (result: Result<(), SyntaxError>)
        requires
            old(self).ready(),
            to_expect != Token::Eof,
        ensures
            match expect_at(old(self).tokens@, old(self).position as int, to_expect) {
                Ok(i) => result is Ok && final(self).moved(old(self), i),
                Err(e) => result == Err::<(), SyntaxError>(e),
            },
    {
        if self.current_token == to_expect {
            self.next();
            Ok(())
        } else {
            Err(SyntaxError::UnexpectedToken { found: self.current_token, expected: to_expect })
        }
    }

    /// Requires a variable under the lookahead and steps over it.
    fn expect_var(&mut self) -> (result: Result<u64, SyntaxError>)
        requires
            old(self).ready(),
        ensures
            match expect_var_at(old(self).tokens@, old(self).position as int) {
                Ok((v, i)) => result == Ok::<u64, SyntaxError>(v) && final(self).moved(old(self), i),
                Err(e) => result == Err::<u64, SyntaxError>(e),
            },
    {
        match self.current_token {
            Token::Var(var) => {
                self.next();
                Ok(var)
            },
            _ => Err(SyntaxError::ExpectedVariable { found: self.current_token }),
        }
    }

    /// The constant 0 or 1 under the lookahead, which stays in place.
    fn constant(&self) -> (result: Result<i8, SyntaxError>)
        requires
            self.ready(),
        ensures
            result == constant_at(self.tokens@, self.position as int),
    {
        match self.current_token {
            Token::Zero => Ok(0),
            Token::One => Ok(1),
            _ => Err(SyntaxError::InvalidConstant { found: self.current_token }),
        }
    }

    /// Parses a statement list: statements with `;` between them,
    /// and after the last one an optional `;`.
    fn program(&mut self) -> (result: Result<Program, SyntaxError>)
        requires
            old(self).ready(),
        ensures
            match program_at(old(self).tokens@, old(self).position as int) {
                Ok((p, i)) => result is Ok && program_view(result->Ok_0@) == p && final(self).moved(
                    old(self),
                    i,
                ),
                Err(e) => result == Err::<Program, SyntaxError>(e),
            },
        decreases old(self).tokens.len() - old(self).position, 2nat,
    {
        let ghost ts = self.tokens@;
        let ghost start = self.position as int;
        let first = match self.statement() {
            Ok(s) => s,
            Err(e) => {
                return Err(e);
            },
        };
        proof {
            lemma_statement_at(ts, start);
        }
        let mut statements: Vec<Statement> = Vec::new();
        statements.push(first);
        assert(program_view(statements@) == seq![first@]);
        loop
            invariant
                self.moved(old(self), self.position as int),
                ts == self.tokens@,
                start == old(self).position,
                start < self.position,
                program_at(ts, start) == more_at(ts, self.position as int, program_view(statements@)),
            decreases self.tokens.len() - self.position,
        {
            if self.current_token != Token::Semicolon {
                return Ok(statements);
            }
            self.next();
            if self.current_token == Token::Eof || self.current_token == Token::End {
                return Ok(statements);
            }
            let ghost at = self.position as int;
            let next = match self.statement() {
                Ok(s) => s,
                Err(e) => {
                    return Err(e);
                },
            };
            proof {
                lemma_statement_at(ts, at);
                assert(program_view(statements@.push(next)) == program_view(statements@).push(
                    next@,
                ));
            }
            statements.push(next);
        }
    }

    /// Parses one statement; its first token decides which kind.
    fn statement(&mut self) -> (result: Result<Statement, SyntaxError>)
        requires
            old(self).ready(),
        ensures
            match statement_at(old(self).tokens@, old(self).position as int) {
                Ok((s, i)) => result is Ok && result->Ok_0@ == s && final(self).moved(old(self), i),
                Err(e) => result == Err::<Statement, SyntaxError>(e),
            },
        decreases old(self).tokens.len() - old(self).position, 1nat,
    {
        match self.current_token {
            Token::While => match self.while_() {
                Ok(w) => Ok(Statement::While(w)),
                Err(e) => Err(e),
            },
            Token::If => match self.if_() {
                Ok(f) => Ok(Statement::If(f)),
                Err(e) => Err(e),
            },
            Token::Var(_) => match self.assignment() {
                Ok(a) => Ok(Statement::Assignment(a)),
                Err(e) => Err(e),
            },
            Token::Question => {
                self.next();
                let var = match self.expect_var() {
                    Ok(v) => v,
                    Err(e) => {
                        return Err(e);
                    },
                };
                match self.expect(Token::Semicolon) {
                    Ok(()) => Ok(Statement::Print(var)),
                    Err(e) => Err(e),
                }
            },
            _ => Err(SyntaxError::InvalidStatement { found: self.current_token }),
        }
    }

    /// Parses `WHILE var != 0 DO program END`.
    fn while_(&mut self) -> (result: Result<While, SyntaxError>)
        requires
            old(self).ready(),
            old(self).current_token == Token::While,
        ensures
            match statement_at(old(self).tokens@, old(self).position as int) {
                Ok((s, i)) => result is Ok && statement_view(Statement::While(result->Ok_0)) == s
                    && final(self).moved(old(self), i),
                Err(e) => result == Err::<While, SyntaxError>(e),
            },
        decreases old(self).tokens.len() - old(self).position, 0nat,
    {
        self.next();
        let condition = match self.expect_var() {
            Ok(v) => v,
            Err(e) => {
                return Err(e);
            },
        };
        match self.expect(Token::NotEq) {
            Ok(()) => {},
            Err(e) => {
                return Err(e);
            },
        }
        match self.expect(Token::Zero) {
            Ok(()) => {},
            Err(e) => {
                return Err(e);
            },
        }
        match self.expect(Token::Do) {
            Ok(()) => {},
            Err(e) => {
                return Err(e);
            },
        }
        let program = match self.program() {
            Ok(p) => p,
            Err(e) => {
                return Err(e);
            },
        };
        match self.expect(Token::End) {
            Ok(()) => Ok(While { condition, program }),
            Err(e) => Err(e),
        }
    }

    /// Parses `IF var = constant THEN program END`.
    fn if_(&mut self) -> (result: Result<If, SyntaxError>)
        requires
            old(self).ready(),
            old(self).current_token == Token::If,
        ensures
            match statement_at(old(self).tokens@, old(self).position as int) {
                Ok((s, i)) => result is Ok && statement_view(Statement::If(result->Ok_0)) == s
                    && final(self).moved(old(self), i),
                Err(e) => result == Err::<If, SyntaxError>(e),
            },
        decreases old(self).tokens.len() - old(self).position, 0nat,
    {
        self.next();
        let condition_var = match self.expect_var() {
            Ok(v) => v,
            Err(e) => {
                return Err(e);
            },
        };
        match self.expect(Token::Equal) {
            Ok(()) => {},
            Err(e) => {
                return Err(e);
            },
        }
        let condition_const = match self.constant() {
            Ok(c) => c,
            Err(e) => {
                return Err(e);
            },
        };
        self.next();
        match self.expect(Token::Then) {
            Ok(()) => {},
            Err(e) => {
                return Err(e);
            },
        }
        let program = match self.program() {
            Ok(p) => p,
            Err(e) => {
                return Err(e);
            },
        };
        match self.expect(Token::End) {
            Ok(()) => Ok(If { condition_var, condition_const, program }),
            Err(e) => Err(e),
        }
    }

    /// Parses `var := [ var = var ]` or `var := var`, the latter
    /// with an optional `+ constant` or `- constant`.
    fn assignment(&mut self) -> (result: Result<Assignment, SyntaxError>)
        requires
            old(self).ready(),
        ensures
            match assignment_at(old(self).tokens@, old(self).position as int) {
                Ok((s, i)) => result is Ok && statement_view(Statement::Assignment(result->Ok_0))
                    == s && final(self).moved(old(self), i),
                Err(e) => result == Err::<Assignment, SyntaxError>(e),
            },
    {
        let lhs = match self.expect_var() {
            Ok(v) => v,
            Err(e) => {
                return Err(e);
            },
        };
        match self.expect(Token::Assign) {
            Ok(()) => {},
            Err(e) => {
                return Err(e);
            },
        }
        match self.current_token {
            Token::LeftBracket => {
                let uses_equality = true;
                let rhs_const: i8 = 0;
                self.next();
                let rhs_var = match self.expect_var() {
                    Ok(v) => v,
                    Err(e) => {
                        return Err(e);
                    },
                };
                match self.expect(Token::Equal) {
                    Ok(()) => {},
                    Err(e) => {
                        return Err(e);
                    },
                }
                let rhs_var2 = match self.expect_var() {
                    Ok(v) => v,
                    Err(e) => {
                        return Err(e);
                    },
                };
                match self.expect(Token::RightBracket) {
                    Ok(()) => {},
                    Err(e) => {
                        return Err(e);
                    },
                }
                Ok(Assignment { uses_equality, lhs, rhs_const, rhs_var, rhs_var2 })
            },
            _ => {
                let rhs_var = match self.expect_var() {
                    Ok(v) => v,
                    Err(e) => {
                        return Err(e);
                    },
                };
                let uses_equality = false;
                let rhs_var2: u64 = 0;
                let rhs_const: i8 = match self.current_token {
                    Token::Plus => {
                        self.next();
                        let val = match self.constant() {
                            Ok(c) => c,
                            Err(e) => {
                                return Err(e);
                            },
                        };
                        self.next();
                        val
                    },
                    Token::Minus => {
                        self.next();
                        let val = match self.constant() {
                            Ok(c) => -c,
                            Err(e) => {
                                return Err(e);
                            },
                        };
                        self.next();
                        val
                    },
                    _ => 0,
                };
                Ok(Assignment { uses_equality, lhs, rhs_var, rhs_var2, rhs_const })
            },
        }
    }
}

} // verus!
