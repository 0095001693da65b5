use while_lang::{LexError, Lexer, Token};

fn lex(source: &str) -> Result<Vec<Token>, LexError> {
    Lexer::new(source).lex()
}

#[test]
fn empty_text_is_the_end_of_input() {
    assert_eq!(lex(""), Ok(vec![Token::Eof]));
}

#[test]
fn every_token_is_lexed() {
    assert_eq!(
        lex("; != IF WHILE DO END THEN 0 1 + - x17 := [ ] = ?"),
        Ok(vec![
            Token::Semicolon,
            Token::NotEq,
            Token::If,
            Token::While,
            Token::Do,
            Token::End,
            Token::Then,
            Token::Zero,
            Token::One,
            Token::Plus,
            Token::Minus,
            Token::Var(17),
            Token::Assign,
            Token::LeftBracket,
            Token::RightBracket,
            Token::Equal,
            Token::Question,
            Token::Eof,
        ])
    );
}

#[test]
fn tokens_need_no_space_between_them() {
    assert_eq!(
        lex("WHILEx1!=0DOx0:=x0+1END"),
        Ok(vec![
            Token::While,
            Token::Var(1),
            Token::NotEq,
            Token::Zero,
            Token::Do,
            Token::Var(0),
            Token::Assign,
            Token::Var(0),
            Token::Plus,
            Token::One,
            Token::End,
            Token::Eof,
        ])
    );
}

#[test]
fn trailing_whitespace_gives_one_end_of_input() {
    assert_eq!(lex("x1 \n\t\r "), Ok(vec![Token::Var(1), Token::Eof]));
    assert_eq!(lex("x1 // last"), Ok(vec![Token::Var(1), Token::Eof]));
    assert_eq!(lex("   "), Ok(vec![Token::Eof]));
}

#[test]
fn comment_runs_to_the_end_of_its_line() {
    assert_eq!(
        lex("x1 // x2 := \u{e9} ?\nx3"),
        Ok(vec![Token::Var(1), Token::Var(3), Token::Eof])
    );
    assert_eq!(lex("//"), Ok(vec![Token::Eof]));
    assert_eq!(lex("///\n//\n1"), Ok(vec![Token::One, Token::Eof]));
}

#[test]
fn lone_slash_is_an_error() {
    assert_eq!(lex("x1 / x2"), Err(LexError::MissingSlash { found: Some(' ') }));
    assert_eq!(lex("/"), Err(LexError::MissingSlash { found: None }));
    assert_eq!(lex("/x/"), Err(LexError::MissingSlash { found: Some('x') }));
}

#[test]
fn variable_zero_takes_two_characters() {
    assert_eq!(lex("x0"), Ok(vec![Token::Var(0), Token::Eof]));
    assert_eq!(lex("x01"), Ok(vec![Token::Var(0), Token::One, Token::Eof]));
    assert_eq!(lex("x00"), Ok(vec![Token::Var(0), Token::Zero, Token::Eof]));
    assert_eq!(lex("x07"), Err(LexError::UnexpectedChar { found: '7' }));
}

#[test]
fn variable_index_takes_all_its_digits() {
    assert_eq!(lex("x10"), Ok(vec![Token::Var(10), Token::Eof]));
    assert_eq!(lex("x905x2"), Ok(vec![Token::Var(905), Token::Var(2), Token::Eof]));
    assert_eq!(
        lex("x18446744073709551615"),
        Ok(vec![Token::Var(u64::MAX), Token::Eof])
    );
}

#[test]
fn variable_index_above_the_maximum_is_an_error() {
    assert_eq!(lex("x18446744073709551616"), Err(LexError::IndexOverflow));
    assert_eq!(lex("x99999999999999999999999 := x1"), Err(LexError::IndexOverflow));
}

#[test]
fn variable_without_index_is_an_error() {
    assert_eq!(lex("x"), Err(LexError::MissingIndex { found: None }));
    assert_eq!(lex("x := x1"), Err(LexError::MissingIndex { found: Some(' ') }));
    assert_eq!(lex("xx1"), Err(LexError::MissingIndex { found: Some('x') }));
}

#[test]
fn operator_without_equal_sign_is_an_error() {
    assert_eq!(lex("x1 : x2"), Err(LexError::MissingEqual { found: Some(' ') }));
    assert_eq!(lex("x1 !"), Err(LexError::MissingEqual { found: None }));
    assert_eq!(lex("!!="), Err(LexError::MissingEqual { found: Some('!') }));
}

#[test]
fn misspelled_keyword_is_an_error() {
    assert_eq!(lex("WHILST"), Err(LexError::IncompleteKeyword { found: Some('S') }));
    assert_eq!(lex("while"), Err(LexError::UnexpectedChar { found: 'w' }));
    assert_eq!(lex("EN"), Err(LexError::IncompleteKeyword { found: None }));
    assert_eq!(lex("If"), Err(LexError::IncompleteKeyword { found: Some('f') }));
    assert_eq!(lex("THAN"), Err(LexError::IncompleteKeyword { found: Some('A') }));
    assert_eq!(lex("D0"), Err(LexError::IncompleteKeyword { found: Some('0') }));
}

#[test]
fn unknown_character_is_an_error() {
    assert_eq!(lex("x1 := 2"), Err(LexError::UnexpectedChar { found: '2' }));
    assert_eq!(lex("x1 := x2 * 1"), Err(LexError::UnexpectedChar { found: '*' }));
    assert_eq!(lex("\u{e9}"), Err(LexError::UnexpectedChar { found: '\u{e9}' }));
}

#[test]
fn lexing_stops_at_the_first_error() {
    assert_eq!(lex("x1 := # / :"), Err(LexError::UnexpectedChar { found: '#' }));
}

#[test]
fn next_reads_one_character_at_a_time() {
    let mut lexer = Lexer::new(";x1");
    lexer.next();
    assert_eq!(lexer.lex(), Ok(vec![Token::Var(1), Token::Eof]));
    let mut lexer = Lexer::new("1");
    lexer.next();
    lexer.next();
    lexer.next();
    assert_eq!(lexer.lex(), Ok(vec![Token::Eof]));
}
