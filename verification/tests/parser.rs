use while_lang::ast::{Assignment, If, Program, Statement, While};
use while_lang::{Parser, SyntaxError, Token};

fn parse(tokens: Vec<Token>) -> Result<Program, SyntaxError> {
    Parser::new(tokens).parse()
}

fn copy(lhs: u64, rhs_var: u64, rhs_const: i8) -> Statement {
    Statement::Assignment(Assignment {
        uses_equality: false,
        lhs,
        rhs_var,
        rhs_var2: 0,
        rhs_const,
    })
}

#[test]
fn bare_copy_has_constant_zero() {
    let tokens = vec![Token::Var(1), Token::Assign, Token::Var(2), Token::Eof];
    assert_eq!(parse(tokens), Ok(vec![copy(1, 2, 0)]));
}

#[test]
fn plus_and_minus_give_the_signed_constant() {
    let with = |operator: Token, constant: Token| {
        parse(vec![
            Token::Var(3),
            Token::Assign,
            Token::Var(4),
            operator,
            constant,
            Token::Eof,
        ])
    };
    assert_eq!(with(Token::Plus, Token::One), Ok(vec![copy(3, 4, 1)]));
    assert_eq!(with(Token::Plus, Token::Zero), Ok(vec![copy(3, 4, 0)]));
    assert_eq!(with(Token::Minus, Token::One), Ok(vec![copy(3, 4, -1)]));
    assert_eq!(with(Token::Minus, Token::Zero), Ok(vec![copy(3, 4, 0)]));
}

#[test]
fn equality_assignment_names_both_variables() {
    let tokens = vec![
        Token::Var(0),
        Token::Assign,
        Token::LeftBracket,
        Token::Var(1),
        Token::Equal,
        Token::Var(2),
        Token::RightBracket,
        Token::Eof,
    ];
    assert_eq!(
        parse(tokens),
        Ok(vec![Statement::Assignment(Assignment {
            uses_equality: true,
            lhs: 0,
            rhs_var: 1,
            rhs_var2: 2,
            rhs_const: 0,
        })])
    );
}

#[test]
fn loop_holds_its_body() {
    let tokens = vec![
        Token::While,
        Token::Var(1),
        Token::NotEq,
        Token::Zero,
        Token::Do,
        Token::Var(1),
        Token::Assign,
        Token::Var(1),
        Token::Minus,
        Token::One,
        Token::Semicolon,
        Token::Question,
        Token::Var(1),
        Token::Semicolon,
        Token::End,
        Token::Eof,
    ];
    assert_eq!(
        parse(tokens),
        Ok(vec![Statement::While(While {
            condition: 1,
            program: vec![copy(1, 1, -1), Statement::Print(1)],
        })])
    );
}

#[test]
fn conditional_holds_its_constant_and_body() {
    let with = |constant: Token| {
        parse(vec![
            Token::If,
            Token::Var(5),
            Token::Equal,
            constant,
            Token::Then,
            Token::Var(0),
            Token::Assign,
            Token::Var(5),
            Token::End,
        ])
    };
    let expected = |condition_const: i8| {
        Ok(vec![Statement::If(If {
            condition_var: 5,
            condition_const,
            program: vec![copy(0, 5, 0)],
        })])
    };
    assert_eq!(with(Token::Zero), expected(0));
    assert_eq!(with(Token::One), expected(1));
    assert_eq!(
        with(Token::Var(1)),
        Err(SyntaxError::InvalidConstant { found: Token::Var(1) })
    );
}

#[test]
fn print_ends_with_its_own_semicolon() {
    let print = vec![Token::Question, Token::Var(2), Token::Semicolon];
    assert_eq!(parse(print.clone()), Ok(vec![Statement::Print(2)]));
    let mut two = print.clone();
    two.push(Token::Semicolon);
    two.extend(print.clone());
    assert_eq!(parse(two), Ok(vec![Statement::Print(2), Statement::Print(2)]));
    let mut unseparated = print.clone();
    unseparated.extend(print);
    assert_eq!(
        parse(unseparated),
        Err(SyntaxError::TrailingInput { found: Token::Question })
    );
    assert_eq!(
        parse(vec![Token::Question, Token::Var(2), Token::Eof]),
        Err(SyntaxError::UnexpectedToken { found: Token::Eof, expected: Token::Semicolon })
    );
}

#[test]
fn semicolon_may_end_a_statement_list() {
    let tokens = vec![
        Token::Var(1),
        Token::Assign,
        Token::Var(2),
        Token::Semicolon,
        Token::Eof,
    ];
    assert_eq!(parse(tokens), Ok(vec![copy(1, 2, 0)]));
    let tokens = vec![
        Token::While,
        Token::Var(1),
        Token::NotEq,
        Token::Zero,
        Token::Do,
        Token::Var(1),
        Token::Assign,
        Token::Var(2),
        Token::Semicolon,
        Token::End,
        Token::Semicolon,
    ];
    assert_eq!(
        parse(tokens),
        Ok(vec![Statement::While(While { condition: 1, program: vec![copy(1, 2, 0)] })])
    );
}

#[test]
fn two_semicolons_in_a_row_are_an_error() {
    let tokens = vec![
        Token::Var(1),
        Token::Assign,
        Token::Var(2),
        Token::Semicolon,
        Token::Semicolon,
        Token::Var(1),
        Token::Assign,
        Token::Var(2),
    ];
    assert_eq!(
        parse(tokens),
        Err(SyntaxError::InvalidStatement { found: Token::Semicolon })
    );
}

#[test]
fn sequence_past_its_end_reads_as_end_of_input() {
    assert_eq!(
        parse(vec![Token::Var(1), Token::Assign, Token::Var(2)]),
        Ok(vec![copy(1, 2, 0)])
    );
    assert_eq!(
        parse(vec![Token::Var(1), Token::Assign]),
        Err(SyntaxError::ExpectedVariable { found: Token::Eof })
    );
}

#[test]
fn empty_program_is_an_error() {
    assert_eq!(parse(vec![]), Err(SyntaxError::InvalidStatement { found: Token::Eof }));
    assert_eq!(
        parse(vec![Token::Eof]),
        Err(SyntaxError::InvalidStatement { found: Token::Eof })
    );
    assert_eq!(
        parse(vec![
            Token::While,
            Token::Var(1),
            Token::NotEq,
            Token::Zero,
            Token::Do,
            Token::End,
        ]),
        Err(SyntaxError::InvalidStatement { found: Token::End })
    );
}

#[test]
fn tokens_after_the_program_are_an_error() {
    let tokens = vec![
        Token::Var(1),
        Token::Assign,
        Token::Var(2),
        Token::Var(3),
        Token::Eof,
    ];
    assert_eq!(parse(tokens), Err(SyntaxError::TrailingInput { found: Token::Var(3) }));
    let tokens = vec![Token::Var(1), Token::Assign, Token::Var(2), Token::End];
    assert_eq!(parse(tokens), Err(SyntaxError::TrailingInput { found: Token::End }));
}

#[test]
fn tokens_after_the_end_of_input_are_not_read() {
    let tokens = vec![
        Token::Var(1),
        Token::Assign,
        Token::Var(2),
        Token::Eof,
        Token::Plus,
        Token::Plus,
    ];
    assert_eq!(parse(tokens), Ok(vec![copy(1, 2, 0)]));
}

#[test]
fn wrong_token_names_the_expected_one() {
    assert_eq!(
        parse(vec![Token::Var(1), Token::Equal, Token::Var(2)]),
        Err(SyntaxError::UnexpectedToken { found: Token::Equal, expected: Token::Assign })
    );
    assert_eq!(
        parse(vec![Token::While, Token::Var(1), Token::NotEq, Token::One]),
        Err(SyntaxError::UnexpectedToken { found: Token::One, expected: Token::Zero })
    );
    assert_eq!(
        parse(vec![Token::While, Token::Var(1), Token::Equal]),
        Err(SyntaxError::UnexpectedToken { found: Token::Equal, expected: Token::NotEq })
    );
    assert_eq!(
        parse(vec![
            Token::If,
            Token::Var(1),
            Token::Equal,
            Token::Zero,
            Token::Do,
        ]),
        Err(SyntaxError::UnexpectedToken { found: Token::Do, expected: Token::Then })
    );
    assert_eq!(
        parse(vec![
            Token::While,
            Token::Var(1),
            Token::NotEq,
            Token::Zero,
            Token::Do,
            Token::Var(1),
            Token::Assign,
            Token::Var(1),
        ]),
        Err(SyntaxError::UnexpectedToken { found: Token::Eof, expected: Token::End })
    );
    assert_eq!(
        parse(vec![
            Token::Var(0),
            Token::Assign,
            Token::LeftBracket,
            Token::Var(1),
            Token::Equal,
            Token::Var(2),
            Token::Semicolon,
        ]),
        Err(SyntaxError::UnexpectedToken {
            found: Token::Semicolon,
            expected: Token::RightBracket,
        })
    );
}

#[test]
fn missing_variable_is_an_error() {
    assert_eq!(
        parse(vec![Token::While, Token::Zero]),
        Err(SyntaxError::ExpectedVariable { found: Token::Zero })
    );
    assert_eq!(
        parse(vec![Token::Var(1), Token::Assign, Token::One]),
        Err(SyntaxError::ExpectedVariable { found: Token::One })
    );
    assert_eq!(
        parse(vec![Token::Question, Token::Semicolon]),
        Err(SyntaxError::ExpectedVariable { found: Token::Semicolon })
    );
}

#[test]
fn operator_without_constant_is_an_error() {
    assert_eq!(
        parse(vec![
            Token::Var(1),
            Token::Assign,
            Token::Var(2),
            Token::Minus,
            Token::Var(3),
        ]),
        Err(SyntaxError::InvalidConstant { found: Token::Var(3) })
    );
    assert_eq!(
        parse(vec![
            Token::Var(1),
            Token::Assign,
            Token::Var(2),
            Token::Plus,
            Token::Plus,
        ]),
        Err(SyntaxError::InvalidConstant { found: Token::Plus })
    );
}

#[test]
fn statement_cannot_begin_with_any_other_token() {
    assert_eq!(
        parse(vec![Token::Do, Token::Var(1)]),
        Err(SyntaxError::InvalidStatement { found: Token::Do })
    );
    assert_eq!(
        parse(vec![Token::One]),
        Err(SyntaxError::InvalidStatement { found: Token::One })
    );
}
