//! Rendering of a program as tokens and as text.
use vstd::prelude::*;
use vstd::string::StringExecFns;
use crate::ast::{program_view, Program, Statement, Stmt};
use crate::lexer::spelling;
use crate::token::Token;

verus! {

/// The token that writes the constant of a conditional: `0` for 0,
/// `1` for anything else.
pub open spec fn constant_token(constant: i8) -> Token {
    if constant == 0 {
        Token::Zero
    } else {
        Token::One
    }
}

/// The tokens that write the constant of an arithmetic assignment:
/// none for 0, `- 1` for -1, `+ 1` for anything else.
pub open spec fn offset_tokens(constant: i8) -> Seq<Token> {
    if constant == 0 {
        Seq::empty()
    } else if constant == -1 {
        seq![Token::Minus, Token::One]
    } else {
        seq![Token::Plus, Token::One]
    }
}

/// The tokens that write a statement.
pub open spec fn statement_tokens(s: Stmt) -> Seq<Token>
    decreases s,
{
    match s {
        Stmt::While { condition, body } => seq![
            Token::While,
            Token::Var(condition),
            Token::NotEq,
            Token::Zero,
            Token::Do,
        ] + program_tokens(body) + seq![Token::End],
        Stmt::If { condition_var, condition_const, body } => seq![
            Token::If,
            Token::Var(condition_var),
            Token::Equal,
            constant_token(condition_const),
            Token::Then,
        ] + program_tokens(body) + seq![Token::End],
        Stmt::Assignment { uses_equality, lhs, rhs_var, rhs_var2, rhs_const } => {
            if uses_equality {
                seq![
                    Token::Var(lhs),
                    Token::Assign,
                    Token::LeftBracket,
                    Token::Var(rhs_var),
                    Token::Equal,
                    Token::Var(rhs_var2),
                    Token::RightBracket,
                ]
            } else {
                seq![Token::Var(lhs), Token::Assign, Token::Var(rhs_var)] + offset_tokens(
                    rhs_const,
                )
            }
        },
        Stmt::Print { var } => seq![Token::Question, Token::Var(var), Token::Semicolon],
    }
}

/// The tokens that write a statement list: those of its statements,
/// with a `;` between each two.
pub open spec fn program_tokens(p: Seq<Stmt>) -> Seq<Token>
    decreases p,
{
    if p.len() == 0 {
        Seq::empty()
    } else if p.len() == 1 {
        statement_tokens(p[0])
    } else {
        statement_tokens(p[0]) + seq![Token::Semicolon] + program_tokens(p.drop_first())
    }
}

/// The ASCII digit for a number below ten.
pub open spec fn digit_char(d: nat) -> char {
    if d == 0 {
        '0'
    } else if d == 1 {
        '1'
    } else if d == 2 {
        '2'
    } else if d == 3 {
        '3'
    } else if d == 4 {
        '4'
    } else if d == 5 {
        '5'
    } else if d == 6 {
        '6'
    } else if d == 7 {
        '7'
    } else if d == 8 {
        '8'
    } else {
        '9'
    }
}

/// The digits of `n` in base ten, without leading zeros; `0` for 0.
pub open spec fn decimal_digits(n: nat) -> Seq<char>
    decreases n,
{
    if n < 10 {
        seq![digit_char(n)]
    } else {
        decimal_digits(n / 10).push(digit_char(n % 10))
    }
}

/// The text of a token; the end-of-input token has none.
pub open spec fn token_text(t: Token) -> Seq<char> {
    match t {
        Token::Semicolon => seq![';'],
        Token::NotEq => seq!['!', '='],
        Token::Zero => seq!['0'],
        Token::One => seq!['1'],
        Token::Plus => seq!['+'],
        Token::Minus => seq!['-'],
        Token::Var(index) => seq!['x'] + decimal_digits(index as nat),
        Token::Assign => seq![':', '='],
        Token::Eof => Seq::empty(),
        Token::LeftBracket => seq!['['],
        Token::RightBracket => seq![']'],
        Token::Equal => seq!['='],
        Token::Question => seq!['?'],
        _ => spelling(t),
    }
}

/// The text of a token sequence: the text of each token, with one
/// space after it.
pub open spec fn tokens_text(ts: Seq<Token>) -> Seq<char>
    decreases ts.len(),
{
    if ts.len() == 0 {
        Seq::empty()
    } else {
        token_text(ts[0]) + seq![' '] + tokens_text(ts.drop_first())
    }
}

/// The text of a program: the text of the tokens that write it.
pub open spec fn render(p: Seq<Stmt>) -> Seq<char> {
    tokens_text(program_tokens(p))
}

/// The tokens that continue a statement list after its first
/// statement: for each further statement a `;` and its tokens.
pub open spec fn tail_tokens(p: Seq<Stmt>) -> Seq<Token> {
    if p.len() == 0 {
        Seq::empty()
    } else {
        seq![Token::Semicolon] + program_tokens(p)
    }
}

/// A statement list is written as its first statement and the tail
/// of the others.
pub proof fn lemma_program_tokens(p: Seq<Stmt>)
    requires
        p.len() > 0,
    ensures
        program_tokens(p) == statement_tokens(p[0]) + tail_tokens(p.drop_first()),
{
    if p.len() == 1 {
        assert(p.drop_first().len() == 0);
        assert(statement_tokens(p[0]) + Seq::<Token>::empty() == statement_tokens(p[0]));
    } else {
        assert(statement_tokens(p[0]) + seq![Token::Semicolon] + program_tokens(p.drop_first())
            == statement_tokens(p[0]) + (seq![Token::Semicolon] + program_tokens(
            p.drop_first(),
        )));
    }
}

/// The text of two token sequences in a row is the text of the
/// first and then that of the second.
pub proof fn lemma_tokens_text_concat(a: Seq<Token>, b: Seq<Token>)
    ensures
        tokens_text(a + b) == tokens_text(a) + tokens_text(b),
    decreases a.len(),
{
    if a.len() == 0 {
        assert(a + b == b);
        assert(tokens_text(a) + tokens_text(b) == tokens_text(b));
    } else {
        assert((a + b)[0] == a[0]);
        assert((a + b).drop_first() == a.drop_first() + b);
        lemma_tokens_text_concat(a.drop_first(), b);
        assert(token_text(a[0]) + seq![' '] + (tokens_text(a.drop_first()) + tokens_text(b))
            == token_text(a[0]) + seq![' '] + tokens_text(a.drop_first()) + tokens_text(b));
    }
}

/// The text of a single token is the token's text and a space.
pub proof fn lemma_tokens_text_one(t: Token)
    ensures
        tokens_text(seq![t]) == token_text(t) + seq![' '],
{
    let one = seq![t];
    assert(one.len() == 1 && one[0] == t);
    assert(one.drop_first() == Seq::<Token>::empty());
    assert(tokens_text(one.drop_first()) == Seq::<char>::empty());
    assert(token_text(t) + seq![' '] + Seq::<char>::empty() == token_text(t) + seq![' ']);
}

/// The text of a program: its tokens, each followed by one space.
/// Lexing and parsing the text of a program that can be written
/// gives its canonical form: see [`crate::round_trip::lemma_round_trip`].
pub fn render_text(tree: &Program) -> (text: String)
    ensures
        text@ == render(program_view(tree@)),
{
    let mut tokens: Vec<Token> = Vec::new();
    push_program(&mut tokens, tree);
    assert(Seq::<Token>::empty() + program_tokens(program_view(tree@)) == program_tokens(
        program_view(tree@),
    ));
    write_tokens(&tokens)
}

/// Appends the tokens of a statement list.
fn push_program(out: &mut Vec<Token>, program: &Program)
    ensures
        final(out)@ == old(out)@ + program_tokens(program_view(program@)),
    decreases program,
{
    let ghost p = program_view(program@);
    let ghost before = out@;
    if program.len() == 0 {
        assert(before + program_tokens(p) == before);
        return ;
    }
    push_statement(out, &program[0]);
    proof {
        lemma_program_tokens(p);
        assert(p.drop_first() == p.skip(1));
        assert(before + (statement_tokens(p[0]) + tail_tokens(p.skip(1))) == before
            + statement_tokens(p[0]) + tail_tokens(p.skip(1)));
    }
    let mut i: usize = 1;
    while i < program.len()
        invariant
            1 <= i <= program.len(),
            p == program_view(program@),
            before + program_tokens(p) == out@ + tail_tokens(p.skip(i as int)),
        decreases program.len() - i,
    {
        let ghost rest = p.skip(i as int);
        let ghost written = out@;
        out.push(Token::Semicolon);
        push_statement(out, &program[i]);
        proof {
            lemma_program_tokens(rest);
            assert(rest[0] == p[i as int]);
            assert(rest.drop_first() == p.skip(i + 1));
            let first = statement_tokens(p[i as int]);
            let tail = tail_tokens(p.skip(i + 1));
            assert(written + (seq![Token::Semicolon] + (first + tail)) == written.push(
                Token::Semicolon,
            ) + first + tail);
        }
        i = i + 1;
    }
    proof {
        assert(p.skip(i as int).len() == 0);
        assert(out@ + tail_tokens(p.skip(i as int)) == out@);
    }
}

/// Appends the tokens of a statement.
fn push_statement(out: &mut Vec<Token>, statement: &Statement)
    ensures
        final(out)@ == old(out)@ + statement_tokens(statement@),
    decreases statement,
{
    let ghost before = out@;
    match statement {
        Statement::While(node) => {
            out.push(Token::While);
            out.push(Token::Var(node.condition));
            out.push(Token::NotEq);
            out.push(Token::Zero);
            out.push(Token::Do);
            push_program(out, &node.program);
            out.push(Token::End);
            assert(out@ =~= before + statement_tokens(statement@));
        },
        Statement::If(node) => {
            out.push(Token::If);
            out.push(Token::Var(node.condition_var));
            out.push(Token::Equal);
            out.push(
                if node.condition_const == 0 {
                    Token::Zero
                } else {
                    Token::One
                },
            );
            out.push(Token::Then);
            push_program(out, &node.program);
            out.push(Token::End);
            assert(out@ =~= before + statement_tokens(statement@));
        },
        Statement::Assignment(node) => {
            out.push(Token::Var(node.lhs));
            out.push(Token::Assign);
            if node.uses_equality {
                out.push(Token::LeftBracket);
                out.push(Token::Var(node.rhs_var));
                out.push(Token::Equal);
                out.push(Token::Var(node.rhs_var2));
                out.push(Token::RightBracket);
            } else {
                out.push(Token::Var(node.rhs_var));
                if node.rhs_const == -1 {
                    out.push(Token::Minus);
                    out.push(Token::One);
                } else if node.rhs_const != 0 {
                    out.push(Token::Plus);
                    out.push(Token::One);
                }
            }
            assert(out@ =~= before + statement_tokens(statement@));
        },
        Statement::Print(var) => {
            out.push(Token::Question);
            out.push(Token::Var(*var));
            out.push(Token::Semicolon);
            assert(out@ =~= before + statement_tokens(statement@));
        },
    }
}

/// The text of a token sequence: each token followed by one space.
fn write_tokens(tokens: &Vec<Token>) -> (text: String)
    ensures
        text@ == tokens_text(tokens@),
{
    let mut text = String::new();
    let mut i: usize = 0;
    assert(tokens@.take(0) == Seq::<Token>::empty());
    while i < tokens.len()
        invariant
            i <= tokens.len(),
            text@ == tokens_text(tokens@.take(i as int)),
        decreases tokens.len() - i,
    {
        write_token(&mut text, tokens[i]);
        proof {
            lemma_tokens_text_concat(tokens@.take(i as int), seq![tokens@[i as int]]);
            assert(tokens@.take(i as int) + seq![tokens@[i as int]] == tokens@.take(i + 1));
        }
        i = i + 1;
    }
    assert(tokens@.take(i as int) == tokens@);
    text
}

/// Appends the text of a token and a space.
fn write_token(out: &mut String, t: Token)
    ensures
        final(out)@ == old(out)@ + tokens_text(seq![t]),
{
    match t {
        Token::Var(index) => {
            out.append("x");
            write_number(out, index);
        },
        _ => {
            out.append(fixed_text(t));
        },
    }
    out.append(" ");
    proof {
        reveal_strlit("x");
        reveal_strlit(" ");
        lemma_tokens_text_one(t);
        assert("x"@ =~= seq!['x']);
        assert(" "@ =~= seq![' ']);
        assert(final(out)@ =~= old(out)@ + (token_text(t) + seq![' ']));
    }
}

/// The text of a token without an index.
fn fixed_text(t: Token) -> (text: &'static str)
    requires
        !(t is Var),
    ensures
        text@ == token_text(t),
{
    proof {
        reveal_strlit(";");
        reveal_strlit("!=");
        reveal_strlit("IF");
        reveal_strlit("WHILE");
        reveal_strlit("DO");
        reveal_strlit("END");
        reveal_strlit("THEN");
        reveal_strlit("0");
        reveal_strlit("1");
        reveal_strlit("+");
        reveal_strlit("-");
        reveal_strlit(":=");
        reveal_strlit("");
        reveal_strlit("[");
        reveal_strlit("]");
        reveal_strlit("=");
        reveal_strlit("?");
    }
    let text = match t {
        Token::Semicolon => ";",
        Token::NotEq => "!=",
        Token::If => "IF",
        Token::While => "WHILE",
        Token::Do => "DO",
        Token::End => "END",
        Token::Then => "THEN",
        Token::Zero => "0",
        Token::One => "1",
        Token::Plus => "+",
        Token::Minus => "-",
        Token::Assign => ":=",
        Token::LeftBracket => "[",
        Token::RightBracket => "]",
        Token::Equal => "=",
        Token::Question => "?",
        _ => "",
    };
    assert(text@ =~= token_text(t));
    text
}

/// Appends the decimal digits of `n`.
fn write_number(out: &mut String, n: u64)
    ensures
        final(out)@ == old(out)@ + decimal_digits(n as nat),
    decreases n,
{
    if n >= 10 {
        write_number(out, n / 10);
    }
    out.append(digit_text(n % 10));
    proof {
        if n >= 10 {
            assert(old(out)@ + decimal_digits((n / 10) as nat) + seq![digit_char((n % 10) as nat)]
                == old(out)@ + decimal_digits((n / 10) as nat).push(digit_char((n % 10) as nat)));
        }
    }
}

/// The decimal digit for a number below ten.
fn digit_text(d: u64) -> (text: &'static str)
    requires
        d < 10,
    ensures
        text@ == seq![digit_char(d as nat)],
{
    proof {
        reveal_strlit("0");
        reveal_strlit("1");
        reveal_strlit("2");
        reveal_strlit("3");
        reveal_strlit("4");
        reveal_strlit("5");
        reveal_strlit("6");
        reveal_strlit("7");
        reveal_strlit("8");
        reveal_strlit("9");
    }
    let text = match d {
        0 => "0",
        1 => "1",
        2 => "2",
        3 => "3",
        4 => "4",
        5 => "5",
        6 => "6",
        7 => "7",
        8 => "8",
        _ => "9",
    };
    assert(text@ =~= seq![digit_char(d as nat)]);
    text
}

} // verus!
