//! Lexing and parsing the text of a program gives the program back.
use vstd::prelude::*;
use crate::ast::{grammatical, grammatical_program, Stmt};
use crate::error::{LexError, SyntaxError};
use crate::interpreter::{load, run_program, run_statement, start, Machine};
use crate::lexer::{
    blank_len, decimal, digit_count, digit_value, is_blank, is_digit, lemma_blank_len,
    lemma_scan_len, next_token, scan, spelled, spelling, tokenize, variable,
};
use crate::parser::{
    arithmetic_at, assignment_at, equality_at, if_head_at, more_at, offset_at, parse_tokens, peek,
    print_at, program_at, statement_at, while_head_at,
};
use crate::render::{
    constant_token, decimal_digits, digit_char, lemma_program_tokens, offset_tokens,
    program_tokens, render, statement_tokens, tail_tokens, token_text, tokens_text,
};
use crate::token::Token;

verus! {

/// The program that a text denotes, if it lexes and parses.
pub open spec fn read(text: Seq<char>) -> Option<Seq<Stmt>> {
    match tokenize(text) {
        Ok(tokens) => match parse_tokens(tokens) {
            Ok(p) => Some(p),
            Err(_) => None,
        },
        Err(_) => None,
    }
}

/// Whether a statement can be written: the constant of an
/// arithmetic assignment is -1, 0 or 1, and every body can be
/// written.
pub open spec fn writable(s: Stmt) -> bool
    decreases s,
{
    match s {
        Stmt::While { condition, body } => writable_program(body),
        Stmt::If { condition_var, condition_const, body } => writable_program(body),
        Stmt::Assignment { uses_equality, lhs, rhs_var, rhs_var2, rhs_const } => uses_equality
            || -1 <= rhs_const <= 1,
        Stmt::Print { var } => true,
    }
}

/// Whether a statement list can be written: it is not empty and
/// each of its statements can be written.
pub open spec fn writable_program(p: Seq<Stmt>) -> bool
    decreases p,
{
    &&& p.len() > 0
    &&& forall|i: int| 0 <= i < p.len() ==> writable(#[trigger] p[i])
}

/// The statement as the parser builds it: the constant of a
/// conditional is 0 or 1, and the field that a form of assignment
/// does not use is 0.
pub open spec fn canonical(s: Stmt) -> Stmt
    decreases s,
{
    match s {
        Stmt::While { condition, body } => Stmt::While {
            condition,
            body: canonical_program(body),
        },
        Stmt::If { condition_var, condition_const, body } => Stmt::If {
            condition_var,
            condition_const: if condition_const == 0 {
                0i8
            } else {
                1i8
            },
            body: canonical_program(body),
        },
        Stmt::Assignment { uses_equality, lhs, rhs_var, rhs_var2, rhs_const } => {
            if uses_equality {
                Stmt::Assignment { uses_equality, lhs, rhs_var, rhs_var2, rhs_const: 0 }
            } else {
                Stmt::Assignment { uses_equality, lhs, rhs_var, rhs_var2: 0, rhs_const }
            }
        },
        Stmt::Print { var } => s,
    }
}

/// The statement list with each statement as the parser builds it.
pub open spec fn canonical_program(p: Seq<Stmt>) -> Seq<Stmt>
    decreases p,
{
    Seq::new(
        p.len(),
        |i: int|
            if 0 <= i < p.len() {
                canonical(p[i])
            } else {
                arbitrary()
            },
    )
}

/// Round trip. The text of a program that can be written lexes and
/// parses, to the canonical form of the program, which runs as the
/// program does on every store and with every fuel: it prints the
/// same and ends alike. A grammatical program is read back
/// unchanged.
pub proof fn lemma_round_trip(p: Seq<Stmt>)
    requires
        writable_program(p),
    ensures
        tokenize(render(p)) == Ok::<Seq<Token>, LexError>(program_tokens(p) + seq![Token::Eof]),
        read(render(p)) == Some(canonical_program(p)),
        grammatical_program(p) ==> read(render(p)) == Some(p),
        forall|vars: Seq<u64>, fuel: nat| #[trigger]
            run_program(read(render(p))->Some_0, start(vars, fuel)) == run_program(
                p,
                start(vars, fuel),
            ),
{
    let c = canonical_program(p);
    lemma_canonical_program(p);
    lemma_program_tokens_hold_no_eof(p);
    lemma_tokenize_tokens_text(program_tokens(p));
    lemma_parse_program_tokens(c);
    assert forall|vars: Seq<u64>, fuel: nat| #[trigger]
        run_program(c, start(vars, fuel)) == run_program(p, start(vars, fuel)) by {
        lemma_canonical_program_runs(p, start(vars, fuel));
    }
}

/// A statement that can be written is grammatical in its canonical
/// form, which is written with the same tokens; a grammatical
/// statement is its own canonical form.
pub proof fn lemma_canonical(s: Stmt)
    ensures
        statement_tokens(canonical(s)) == statement_tokens(s),
        writable(s) ==> grammatical(canonical(s)),
        grammatical(s) ==> writable(s) && canonical(s) == s,
    decreases s,
{
    match s {
        Stmt::While { condition, body } => {
            lemma_canonical_program(body);
        },
        Stmt::If { condition_var, condition_const, body } => {
            lemma_canonical_program(body);
        },
        _ => {},
    }
}

/// A statement list that can be written is grammatical in its
/// canonical form, which is written with the same tokens; a
/// grammatical list is its own canonical form.
pub proof fn lemma_canonical_program(p: Seq<Stmt>)
    ensures
        program_tokens(canonical_program(p)) == program_tokens(p),
        writable_program(p) ==> grammatical_program(canonical_program(p)),
        grammatical_program(p) ==> writable_program(p) && canonical_program(p) == p,
    decreases p,
{
    let c = canonical_program(p);
    assert forall|i: int| 0 <= i < p.len() implies statement_tokens(#[trigger] c[i])
        == statement_tokens(p[i]) && (writable(p[i]) ==> grammatical(c[i])) && (grammatical(p[i])
        ==> writable(p[i]) && c[i] == p[i]) by {
        lemma_canonical(p[i]);
    }
    if p.len() > 1 {
        lemma_canonical_program(p.drop_first());
        assert(c.drop_first() == canonical_program(p.drop_first()));
    }
    if grammatical_program(p) {
        assert(c =~= p);
    }
}

/// A statement and its canonical form run alike on every machine.
pub proof fn lemma_canonical_runs(s: Stmt, m: Machine)
    ensures
        run_statement(canonical(s), m) == run_statement(s, m),
    decreases s, m.fuel,
{
    if m.stop is None {
        match s {
            Stmt::While { condition, body } => {
                if load(m.vars, condition) != 0 && m.fuel != 0 {
                    let inside = Machine { fuel: (m.fuel - 1) as nat, ..m };
                    lemma_canonical_program_runs(body, inside);
                    let after = run_program(body, inside);
                    if after.fuel < m.fuel {
                        lemma_canonical_runs(s, after);
                    }
                }
            },
            Stmt::If { condition_var, condition_const, body } => {
                lemma_canonical_program_runs(body, m);
            },
            _ => {},
        }
    }
}

/// A statement list and its canonical form run alike on every
/// machine.
pub proof fn lemma_canonical_program_runs(p: Seq<Stmt>, m: Machine)
    ensures
        run_program(canonical_program(p), m) == run_program(p, m),
    decreases p, m.fuel,
{
    let c = canonical_program(p);
    if p.len() > 0 {
        lemma_canonical_runs(p[0], m);
        assert(c.drop_first() == canonical_program(p.drop_first()));
        lemma_canonical_program_runs(p.drop_first(), run_statement(p[0], m));
    }
}

/// Parsing the tokens that write a grammatical program, followed by
/// the end of input, gives the program back.
pub proof fn lemma_parse_program_tokens(p: Seq<Stmt>)
    requires
        grammatical_program(p),
    ensures
        parse_tokens(program_tokens(p) + seq![Token::Eof]) == Ok::<Seq<Stmt>, SyntaxError>(p),
{
    let ts = program_tokens(p) + seq![Token::Eof];
    lemma_occurs_split(ts, 0, program_tokens(p), seq![Token::Eof]);
    assert(occurs_at(ts, 0, ts)) by {
        assert(ts.len() == program_tokens(p).len() + 1);
    }
    assert(ts[program_tokens(p).len() as int] == Token::Eof);
    lemma_program_parses(ts, 0, p);
}

/// Lexing the text of a token sequence that holds no end-of-input
/// token gives the sequence back, with the end of input after it.
pub proof fn lemma_tokenize_tokens_text(ts: Seq<Token>)
    requires
        forall|i: int| 0 <= i < ts.len() ==> #[trigger] ts[i] != Token::Eof,
    ensures
        tokenize(tokens_text(ts)) == Ok::<Seq<Token>, LexError>(ts + seq![Token::Eof]),
    decreases ts.len(),
{
    if ts.len() == 0 {
        assert(ts + seq![Token::Eof] == seq![Token::Eof]);
    } else {
        let t = ts[0];
        let text = token_text(t);
        let rest = tokens_text(ts.drop_first());
        let s = text + seq![' '] + rest;
        lemma_scan_token_text(t, rest);
        assert(s[0] == text[0]);
        assert(blank_len(s) == Ok::<nat, LexError>(0));
        assert(s.skip(0) == s);
        assert(next_token(s) == Ok::<(Token, nat), LexError>((t, text.len())));
        assert(s.skip(text.len() as int) == seq![' '] + rest);
        lemma_tokenize_space(rest);
        assert forall|i: int| 0 <= i < ts.drop_first().len() implies #[trigger] ts.drop_first()[i]
            != Token::Eof by {
            assert(ts.drop_first()[i] == ts[i + 1]);
        }
        lemma_tokenize_tokens_text(ts.drop_first());
        assert(seq![t] + (ts.drop_first() + seq![Token::Eof]) == ts + seq![Token::Eof]);
    }
}

/// Whether `t` can follow a statement: `;`, `END` or the end of
/// input.
pub open spec fn ends_statement(t: Token) -> bool {
    t == Token::Semicolon || t == Token::End || t == Token::Eof
}

/// Whether the tokens `x` stand in `ts` from position `i` on.
pub open spec fn occurs_at(ts: Seq<Token>, i: int, x: Seq<Token>) -> bool {
    &&& 0 <= i
    &&& i + x.len() <= ts.len()
    &&& forall|k: int| 0 <= k < x.len() ==> ts[i + k] == #[trigger] x[k]
}

/// A concatenation stands at a position exactly if its first part
/// stands there and its second part right after it.
pub proof fn lemma_occurs_split(ts: Seq<Token>, i: int, a: Seq<Token>, b: Seq<Token>)
    ensures
        occurs_at(ts, i, a + b) <==> occurs_at(ts, i, a) && occurs_at(ts, i + a.len(), b),
{
    if occurs_at(ts, i, a + b) {
        assert forall|k: int| 0 <= k < a.len() implies ts[i + k] == #[trigger] a[k] by {
            assert((a + b)[k] == a[k]);
        }
        assert forall|k: int| 0 <= k < b.len() implies ts[i + a.len() + k] == #[trigger] b[k] by {
            assert((a + b)[a.len() + k] == b[k]);
        }
    }
    if occurs_at(ts, i, a) && occurs_at(ts, i + a.len(), b) {
        assert forall|k: int| 0 <= k < (a + b).len() implies ts[i + k] == #[trigger] (a + b)[k] by {
            if k < a.len() {
                assert((a + b)[k] == a[k]);
            } else {
                assert((a + b)[k] == b[k - a.len()]);
            }
        }
    }
}

/// A statement is written with one token at least, and the first
/// one is neither `END` nor the end of input nor `;`.
pub proof fn lemma_statement_tokens_first(s: Stmt)
    ensures
        statement_tokens(s).len() > 0,
        statement_tokens(s)[0] != Token::End,
        statement_tokens(s)[0] != Token::Eof,
        statement_tokens(s)[0] != Token::Semicolon,
{
}

/// Where the tail of a statement list stands, followed by a token
/// that can follow a statement, it begins with such a token or is
/// empty.
proof fn lemma_tail_follows(ts: Seq<Token>, i: int, p: Seq<Stmt>)
    requires
        occurs_at(ts, i, tail_tokens(p)),
        ends_statement(peek(ts, i + tail_tokens(p).len())),
    ensures
        ends_statement(peek(ts, i)),
{
    if p.len() > 0 {
        assert(tail_tokens(p)[0] == Token::Semicolon);
        assert(ts[i + 0] == tail_tokens(p)[0]);
    }
}

/// How the tokens of a block statement lie in `ts`: the five tokens
/// of `head`, then the tokens of `body`, then `END`.
proof fn lemma_block_layout(ts: Seq<Token>, i: int, head: Seq<Token>, body: Seq<Stmt>)
    requires
        head.len() == 5,
        occurs_at(ts, i, head + program_tokens(body) + seq![Token::End]),
    ensures
        forall|k: int| 0 <= k < 5 ==> peek(ts, i + k) == #[trigger] head[k],
        occurs_at(ts, i + 5, program_tokens(body)),
        peek(ts, i + 5 + program_tokens(body).len()) == Token::End,
        (head + program_tokens(body) + seq![Token::End]).len() == program_tokens(body).len() + 6,
{
    let inner = program_tokens(body);
    let end = seq![Token::End];
    lemma_occurs_split(ts, i, head + inner, end);
    lemma_occurs_split(ts, i, head, inner);
    assert(end[0] == Token::End);
    assert(ts[i + (head + inner).len() + 0] == end[0]);
}

/// Where the tokens of a grammatical assignment stand, followed by
/// `;`, `END` or the end of input, the assignment is parsed, up to
/// the end of those tokens.
proof fn lemma_assignment_parses(ts: Seq<Token>, i: int, s: Stmt)
    requires
        s is Assignment,
        grammatical(s),
        occurs_at(ts, i, statement_tokens(s)),
        ends_statement(peek(ts, i + statement_tokens(s).len())),
    ensures
        assignment_at(ts, i) == Ok::<(Stmt, int), SyntaxError>(
            (s, i + statement_tokens(s).len()),
        ),
{
    let x = statement_tokens(s);
    match s {
        Stmt::Assignment { uses_equality, lhs, rhs_var, rhs_var2, rhs_const } => {
            if uses_equality {
                assert(x[0] == Token::Var(lhs) && x[1] == Token::Assign && x[2]
                    == Token::LeftBracket && x[3] == Token::Var(rhs_var) && x[4] == Token::Equal
                    && x[5] == Token::Var(rhs_var2) && x[6] == Token::RightBracket);
                assert(peek(ts, i) == Token::Var(lhs));
                assert(peek(ts, i + 1) == Token::Assign);
                assert(peek(ts, i + 2) == Token::LeftBracket);
                assert(peek(ts, i + 3) == Token::Var(rhs_var));
                assert(peek(ts, i + 4) == Token::Equal);
                assert(peek(ts, i + 5) == Token::Var(rhs_var2));
                assert(peek(ts, i + 6) == Token::RightBracket);
                assert(equality_at(ts, i + 2, lhs) == Ok::<(Stmt, int), SyntaxError>((s, i + 7)));
            } else {
                let head = seq![Token::Var(lhs), Token::Assign, Token::Var(rhs_var)];
                let tail = offset_tokens(rhs_const);
                lemma_occurs_split(ts, i, head, tail);
                assert(head[0] == Token::Var(lhs) && head[1] == Token::Assign && head[2]
                    == Token::Var(rhs_var));
                assert(peek(ts, i) == Token::Var(lhs));
                assert(peek(ts, i + 1) == Token::Assign);
                assert(peek(ts, i + 2) == Token::Var(rhs_var));
                if rhs_const == 0 {
                    assert(offset_at(ts, i + 3) == Ok::<(i8, int), SyntaxError>((0i8, i + 3)));
                } else {
                    assert(tail[0] == ts[i + 3 + 0] && tail[1] == ts[i + 3 + 1]);
                    assert(offset_at(ts, i + 3) == Ok::<(i8, int), SyntaxError>(
                        (rhs_const, i + 5),
                    ));
                }
                assert(arithmetic_at(ts, i + 2, lhs) == Ok::<(Stmt, int), SyntaxError>(
                    (s, i + 3 + tail.len()),
                ));
            }
        },
        _ => {},
    }
}

/// Where the tokens of a print statement stand, the statement is
/// parsed, up to the end of those tokens.
proof fn lemma_print_parses(ts: Seq<Token>, i: int, s: Stmt)
    requires
        s is Print,
        occurs_at(ts, i, statement_tokens(s)),
    ensures
        print_at(ts, i) == Ok::<(Stmt, int), SyntaxError>((s, i + statement_tokens(s).len())),
{
    let x = statement_tokens(s);
    assert(x[0] == Token::Question && x[1] == Token::Var(s->var) && x[2] == Token::Semicolon);
    assert(peek(ts, i) == Token::Question);
    assert(peek(ts, i + 1) == Token::Var(s->var));
    assert(peek(ts, i + 2) == Token::Semicolon);
}

/// Where the tokens of a grammatical statement stand, followed by
/// `;`, `END` or the end of input, the statement is parsed, up to
/// the end of those tokens.
pub proof fn lemma_statement_parses(ts: Seq<Token>, i: int, s: Stmt)
    requires
        grammatical(s),
        occurs_at(ts, i, statement_tokens(s)),
        ends_statement(peek(ts, i + statement_tokens(s).len())),
    ensures
        statement_at(ts, i) == Ok::<(Stmt, int), SyntaxError>((s, i + statement_tokens(s).len())),
    decreases s, 0nat,
{
    match s {
        Stmt::While { condition, body } => {
            let head = seq![
                Token::While,
                Token::Var(condition),
                Token::NotEq,
                Token::Zero,
                Token::Do,
            ];
            lemma_block_layout(ts, i, head, body);
            assert(head[0] == Token::While && head[1] == Token::Var(condition) && head[2]
                == Token::NotEq && head[3] == Token::Zero && head[4] == Token::Do);
            assert(while_head_at(ts, i) == Ok::<(u64, int), SyntaxError>((condition, i + 5)));
            lemma_program_parses(ts, i + 5, body);
        },
        Stmt::If { condition_var, condition_const, body } => {
            let head = seq![
                Token::If,
                Token::Var(condition_var),
                Token::Equal,
                constant_token(condition_const),
                Token::Then,
            ];
            lemma_block_layout(ts, i, head, body);
            assert(head[0] == Token::If && head[1] == Token::Var(condition_var) && head[2]
                == Token::Equal && head[3] == constant_token(condition_const) && head[4]
                == Token::Then);
            assert(if_head_at(ts, i) == Ok::<(u64, i8, int), SyntaxError>(
                (condition_var, condition_const, i + 5),
            ));
            lemma_program_parses(ts, i + 5, body);
        },
        Stmt::Assignment { uses_equality, lhs, rhs_var, rhs_var2, rhs_const } => {
            lemma_assignment_parses(ts, i, s);
            lemma_statement_tokens_first(s);
            assert(statement_tokens(s)[0] == Token::Var(lhs));
        },
        Stmt::Print { var } => {
            lemma_print_parses(ts, i, s);
            assert(statement_tokens(s)[0] == Token::Question);
        },
    }
}

/// Where the tokens of a grammatical statement list stand, followed
/// by `END` or the end of input, the list is parsed, up to the end
/// of those tokens.
pub proof fn lemma_program_parses(ts: Seq<Token>, i: int, p: Seq<Stmt>)
    requires
        grammatical_program(p),
        occurs_at(ts, i, program_tokens(p)),
        ends_statement(peek(ts, i + program_tokens(p).len())),
        peek(ts, i + program_tokens(p).len()) != Token::Semicolon,
    ensures
        program_at(ts, i) == Ok::<(Seq<Stmt>, int), SyntaxError>(
            (p, i + program_tokens(p).len()),
        ),
    decreases p, 1nat,
{
    lemma_program_tokens(p);
    lemma_occurs_split(ts, i, statement_tokens(p[0]), tail_tokens(p.drop_first()));
    lemma_tail_follows(ts, i + statement_tokens(p[0]).len(), p.drop_first());
    lemma_statement_parses(ts, i, p[0]);
    lemma_statement_tokens_first(p[0]);
    assert forall|k: int| 0 <= k < p.drop_first().len() implies grammatical(
        #[trigger] p.drop_first()[k],
    ) by {
        assert(p.drop_first()[k] == p[k + 1]);
    }
    lemma_more_parses(ts, i + statement_tokens(p[0]).len(), seq![p[0]], p.drop_first());
    assert(seq![p[0]] + p.drop_first() == p);
}

/// Where the tokens that continue a statement list stand, followed
/// by `END` or the end of input, the statements that they write are
/// parsed and added to those read so far.
pub proof fn lemma_more_parses(ts: Seq<Token>, i: int, done: Seq<Stmt>, p: Seq<Stmt>)
    requires
        forall|k: int| 0 <= k < p.len() ==> grammatical(#[trigger] p[k]),
        occurs_at(ts, i, tail_tokens(p)),
        ends_statement(peek(ts, i + tail_tokens(p).len())),
        peek(ts, i + tail_tokens(p).len()) != Token::Semicolon,
    ensures
        more_at(ts, i, done) == Ok::<(Seq<Stmt>, int), SyntaxError>(
            (done + p, i + tail_tokens(p).len()),
        ),
    decreases p, 0nat,
{
    if p.len() == 0 {
        assert(done + p == done);
    } else {
        let first = statement_tokens(p[0]);
        lemma_program_tokens(p);
        lemma_statement_tokens_first(p[0]);
        lemma_occurs_split(ts, i, seq![Token::Semicolon], program_tokens(p));
        lemma_occurs_split(ts, i + 1, first, tail_tokens(p.drop_first()));
        assert(seq![Token::Semicolon][0] == Token::Semicolon);
        assert(ts[i] == Token::Semicolon);
        assert(ts[i + 1] == first[0]);
        lemma_tail_follows(ts, i + 1 + first.len(), p.drop_first());
        lemma_statement_parses(ts, i + 1, p[0]);
        assert forall|k: int| 0 <= k < p.drop_first().len() implies grammatical(
            #[trigger] p.drop_first()[k],
        ) by {
            assert(p.drop_first()[k] == p[k + 1]);
        }
        lemma_more_parses(ts, i + 1 + first.len(), done.push(p[0]), p.drop_first());
        assert(done.push(p[0]) + p.drop_first() == done + p);
    }
}

/// No statement is written with an end-of-input token.
pub proof fn lemma_statement_tokens_hold_no_eof(s: Stmt)
    ensures
        forall|i: int|
            0 <= i < statement_tokens(s).len() ==> #[trigger] statement_tokens(s)[i]
                != Token::Eof,
    decreases s,
{
    match s {
        Stmt::While { condition, body } => {
            lemma_program_tokens_hold_no_eof(body);
        },
        Stmt::If { condition_var, condition_const, body } => {
            lemma_program_tokens_hold_no_eof(body);
        },
        _ => {},
    }
}

/// No statement list is written with an end-of-input token.
pub proof fn lemma_program_tokens_hold_no_eof(p: Seq<Stmt>)
    ensures
        forall|i: int|
            0 <= i < program_tokens(p).len() ==> #[trigger] program_tokens(p)[i] != Token::Eof,
    decreases p,
{
    if p.len() > 0 {
        lemma_statement_tokens_hold_no_eof(p[0]);
        if p.len() > 1 {
            lemma_program_tokens_hold_no_eof(p.drop_first());
        }
    }
}

/// The digits of a number are digits, one at least, they denote the
/// number, and the first is `0` for 0 only.
pub proof fn lemma_decimal_digits(n: nat)
    ensures
        decimal_digits(n).len() > 0,
        forall|i: int| 0 <= i < decimal_digits(n).len() ==> is_digit(#[trigger] decimal_digits(n)[i]),
        decimal(decimal_digits(n)) == n,
        n > 0 ==> decimal_digits(n)[0] != '0',
    decreases n,
{
    if n < 10 {
        let ds = decimal_digits(n);
        assert(ds.drop_last() == Seq::<char>::empty());
        assert(decimal(ds.drop_last()) == 0);
        assert(digit_value(digit_char(n)) == n);
    } else {
        let front = decimal_digits(n / 10);
        let ds = front.push(digit_char(n % 10));
        lemma_decimal_digits(n / 10);
        assert(ds.drop_last() == front);
        assert(ds.last() == digit_char(n % 10));
        assert(digit_value(digit_char(n % 10)) == n % 10);
        assert(ds[0] == front[0]);
        assert forall|i: int| 0 <= i < ds.len() implies is_digit(#[trigger] ds[i]) by {
            if i < front.len() {
                assert(ds[i] == front[i]);
            }
        }
    }
}

/// Digits followed by no further digit are counted in full.
pub proof fn lemma_digit_count_of(digits: Seq<char>, rest: Seq<char>)
    requires
        forall|i: int| 0 <= i < digits.len() ==> is_digit(#[trigger] digits[i]),
        rest.len() == 0 || !is_digit(rest[0]),
    ensures
        digit_count(digits + rest) == digits.len(),
    decreases digits.len(),
{
    if digits.len() == 0 {
        assert(digits + rest == rest);
    } else {
        assert((digits + rest)[0] == digits[0]);
        assert((digits + rest).skip(1) == digits.skip(1) + rest);
        assert forall|i: int| 0 <= i < digits.skip(1).len() implies is_digit(
            #[trigger] digits.skip(1)[i],
        ) by {
            assert(digits.skip(1)[i] == digits[i + 1]);
        }
        lemma_digit_count_of(digits.skip(1), rest);
    }
}

/// A text that begins with a word is spelled with it.
pub proof fn lemma_spelled_of(word: Seq<char>, rest: Seq<char>)
    ensures
        spelled(word + rest, word) is Ok,
    decreases word.len(),
{
    if word.len() > 0 {
        assert((word + rest)[0] == word[0]);
        assert((word + rest).skip(1) == word.skip(1) + rest);
        lemma_spelled_of(word.skip(1), rest);
    }
}

/// The text of a variable, followed by no digit, is scanned as that
/// variable.
proof fn lemma_scan_variable(index: u64, rest: Seq<char>)
    requires
        rest.len() == 0 || !is_digit(rest[0]),
    ensures
        variable(token_text(Token::Var(index)) + rest) == Ok::<(Token, nat), LexError>(
            (Token::Var(index), token_text(Token::Var(index)).len()),
        ),
{
    let digits = decimal_digits(index as nat);
    let text = token_text(Token::Var(index));
    let s = text + rest;
    lemma_decimal_digits(index as nat);
    assert(text.len() == 1 + digits.len());
    assert(s[1] == digits[0]);
    if index == 0 {
        assert(digits.len() == 1);
    } else {
        assert(s.skip(1) == digits + rest);
        lemma_digit_count_of(digits, rest);
        assert(s.subrange(1, 1 + digits.len() as int) == digits);
    }
}

/// The text of a token other than the end of input, followed by a
/// space, is scanned as that token.
pub proof fn lemma_scan_token_text(t: Token, rest: Seq<char>)
    requires
        t != Token::Eof,
    ensures
        token_text(t).len() > 0,
        !is_blank(token_text(t)[0]),
        token_text(t)[0] != '/',
        scan(token_text(t) + seq![' '] + rest) == Ok::<(Token, nat), LexError>(
            (t, token_text(t).len()),
        ),
{
    let text = token_text(t);
    let after = seq![' '] + rest;
    let s = text + seq![' '] + rest;
    assert(s == text + after);
    assert(after[0] == ' ');
    match t {
        Token::Var(index) => {
            lemma_decimal_digits(index as nat);
            lemma_scan_variable(index, after);
            assert(s[0] == 'x');
        },
        Token::While | Token::Do | Token::Then | Token::End | Token::If => {
            lemma_spelled_of(spelling(t), after);
            assert(s[0] == text[0]);
        },
        Token::NotEq | Token::Assign => {
            assert(s[0] == text[0]);
            assert(s[1] == text[1]);
        },
        _ => {
            assert(s[0] == text[0]);
        },
    }
}

/// A space in front of a text does not change its tokens.
pub proof fn lemma_tokenize_space(rest: Seq<char>)
    ensures
        tokenize(seq![' '] + rest) == tokenize(rest),
{
    let s = seq![' '] + rest;
    assert(s.skip(1) == rest);
    assert(s[0] == ' ');
    if blank_len(rest) is Ok {
        let n = blank_len(rest)->Ok_0;
        lemma_blank_len(rest);
        assert(blank_len(s) == Ok::<nat, LexError>(1 + n));
        if n < rest.len() {
            assert(s.skip(1 + n as int) == rest.skip(n as int));
            if scan(rest.skip(n as int)) is Ok {
                let m = scan(rest.skip(n as int))->Ok_0.1;
                lemma_scan_len(rest.skip(n as int));
                assert(s.skip((1 + n + m) as int) == rest.skip((n + m) as int));
            }
        }
    }
}

} // verus!
