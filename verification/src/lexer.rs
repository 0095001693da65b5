//! Lexing of a program text into tokens.
use vstd::prelude::*;
use crate::error::LexError;
use crate::token::Token;

verus! {

/// Whether `c` is one of the characters that may stand between
/// tokens: space, newline, tab, carriage return.
pub open spec fn is_blank(c: char) -> bool {
    c == ' ' || c == '\n' || c == '\t' || c == '\r'
}

/// Whether `c` is one of the ASCII digits.
pub open spec fn is_digit(c: char) -> bool {
    '0' <= c <= '9'
}

/// The number that the ASCII digit `c` stands for.
pub open spec fn digit_value(c: char) -> nat {
    (c as nat - '0' as nat) as nat
}

/// The character at position `i` of `s`, `None` past its end.
pub open spec fn char_at(s: Seq<char>, i: int) -> Option<char> {
    if 0 <= i < s.len() {
        Some(s[i])
    } else {
        None
    }
}

/// The length of the first line of `s`, its newline included; the
/// length of `s` where it holds no newline.
pub open spec fn line_len(s: Seq<char>) -> nat
    decreases s.len(),
{
    if s.len() == 0 {
        0
    } else if s[0] == '\n' {
        1
    } else {
        1 + line_len(s.skip(1))
    }
}

/// The length of the whitespace and line comments at the front of
/// `s`. A comment is `//` and the rest of its line; a `/` without a
/// second one is an error.
pub open spec fn blank_len(s: Seq<char>) -> Result<nat, LexError>
    decreases s.len(),
{
    if s.len() > 0 && is_blank(s[0]) {
        match blank_len(s.skip(1)) {
            Ok(n) => Ok(1 + n),
            Err(e) => Err(e),
        }
    } else if s.len() > 0 && s[0] == '/' {
        if char_at(s, 1) == Some('/') {
            let n = 2 + line_len(s.skip(2));
            proof {
                lemma_line_len(s.skip(2));
            }
            match blank_len(s.skip(n as int)) {
                Ok(m) => Ok(n + m),
                Err(e) => Err(e),
            }
        } else {
            Err(LexError::MissingSlash { found: char_at(s, 1) })
        }
    } else {
        Ok(0)
    }
}

/// The number of ASCII digits at the front of `s`.
pub open spec fn digit_count(s: Seq<char>) -> nat
    decreases s.len(),
{
    if s.len() > 0 && is_digit(s[0]) {
        1 + digit_count(s.skip(1))
    } else {
        0
    }
}

/// The number that a sequence of ASCII digits denotes in base ten.
pub open spec fn decimal(digits: Seq<char>) -> nat
    decreases digits.len(),
{
    if digits.len() == 0 {
        0
    } else {
        decimal(digits.drop_last()) * 10 + digit_value(digits.last())
    }
}

/// Whether `s` begins with `word`; if not, the error holds the first
/// character of `s` that differs.
pub open spec fn spelled(s: Seq<char>, word: Seq<char>) -> Result<(), LexError>
    decreases word.len(),
{
    if word.len() == 0 {
        Ok(())
    } else if s.len() > 0 && s[0] == word[0] {
        spelled(s.skip(1), word.skip(1))
    } else {
        Err(LexError::IncompleteKeyword { found: char_at(s, 0) })
    }
}

/// The reserved word `word` at the front of `s`, as `token` and the
/// length of the word.
pub open spec fn keyword(s: Seq<char>, word: Seq<char>, token: Token) -> Result<
    (Token, nat),
    LexError,
> {
    match spelled(s, word) {
        Ok(()) => Ok((token, word.len())),
        Err(e) => Err(e),
    }
}

/// A two-character token at the front of `s`, whose second
/// character is `=`, as `token` and the length 2.
pub open spec fn with_equal(s: Seq<char>, token: Token) -> Result<(Token, nat), LexError> {
    if char_at(s, 1) == Some('=') {
        Ok((token, 2nat))
    } else {
        Err(LexError::MissingEqual { found: char_at(s, 1) })
    }
}

/// A variable at the front of `s`, which begins with `x`: `x0` is
/// variable 0 whatever follows; else all the digits that follow
/// denote the index, of which there must be one at least, and
/// which must not exceed `u64::MAX`.
pub open spec fn variable(s: Seq<char>) -> Result<(Token, nat), LexError> {
    if char_at(s, 1) == Some('0') {
        Ok((Token::Var(0), 2nat))
    } else {
        let n = digit_count(s.skip(1));
        let index = decimal(s.subrange(1, 1 + n as int));
        if n == 0 {
            Err(LexError::MissingIndex { found: char_at(s, 1) })
        } else if index > u64::MAX {
            Err(LexError::IndexOverflow)
        } else {
            Ok((Token::Var(index as u64), 1 + n))
        }
    }
}

/// The spelling of a reserved word; empty for every other token.
pub open spec fn spelling(token: Token) -> Seq<char> {
    match token {
        Token::While => seq!['W', 'H', 'I', 'L', 'E'],
        Token::Do => seq!['D', 'O'],
        Token::Then => seq!['T', 'H', 'E', 'N'],
        Token::End => seq!['E', 'N', 'D'],
        Token::If => seq!['I', 'F'],
        _ => Seq::empty(),
    }
}

/// The token at the front of `s`, which is not empty and begins with
/// neither whitespace nor `/`, and the token's length. The first
/// character decides which token is read.
pub open spec fn scan(s: Seq<char>) -> Result<(Token, nat), LexError> {
    let c = s[0];
    if c == ';' {
        Ok((Token::Semicolon, 1nat))
    } else if c == '0' {
        Ok((Token::Zero, 1nat))
    } else if c == '1' {
        Ok((Token::One, 1nat))
    } else if c == '+' {
        Ok((Token::Plus, 1nat))
    } else if c == '-' {
        Ok((Token::Minus, 1nat))
    } else if c == '[' {
        Ok((Token::LeftBracket, 1nat))
    } else if c == ']' {
        Ok((Token::RightBracket, 1nat))
    } else if c == '=' {
        Ok((Token::Equal, 1nat))
    } else if c == '?' {
        Ok((Token::Question, 1nat))
    } else if c == ':' {
        with_equal(s, Token::Assign)
    } else if c == '!' {
        with_equal(s, Token::NotEq)
    } else if c == 'W' {
        keyword(s, spelling(Token::While), Token::While)
    } else if c == 'D' {
        keyword(s, spelling(Token::Do), Token::Do)
    } else if c == 'T' {
        keyword(s, spelling(Token::Then), Token::Then)
    } else if c == 'E' {
        keyword(s, spelling(Token::End), Token::End)
    } else if c == 'I' {
        keyword(s, spelling(Token::If), Token::If)
    } else if c == 'x' {
        variable(s)
    } else {
        Err(LexError::UnexpectedChar { found: c })
    }
}

/// The first token of `s` after any whitespace and comments, and the
/// length of all that was read; at the end of `s` the token is the
/// end-of-input token.
pub open spec fn next_token(s: Seq<char>) -> Result<(Token, nat), LexError> {
    match blank_len(s) {
        Err(e) => Err(e),
        Ok(n) => if n >= s.len() {
            Ok((Token::Eof, n))
        } else {
            match scan(s.skip(n as int)) {
                Ok((token, m)) => Ok((token, n + m)),
                Err(e) => Err(e),
            }
        },
    }
}

/// The tokens of the text `s`, in order, followed by one
/// end-of-input token.
pub open spec fn tokenize(s: Seq<char>) -> Result<Seq<Token>, LexError>
    decreases s.len(),
{
    match next_token(s) {
        Err(e) => Err(e),
        Ok((token, n)) => if token == Token::Eof {
            Ok(seq![Token::Eof])
        } else {
            proof {
                lemma_next_token_len(s);
            }
            match tokenize(s.skip(n as int)) {
                Ok(tokens) => Ok(seq![token] + tokens),
                Err(e) => Err(e),
            }
        },
    }
}

/// A line is no longer than the text it begins.
pub proof fn lemma_line_len(s: Seq<char>)
    ensures
        line_len(s) <= s.len(),
    decreases s.len(),
{
    if s.len() > 0 && s[0] != '\n' {
        lemma_line_len(s.skip(1));
    }
}

/// The whitespace and comments at the front of a text are no longer
/// than the text, and no whitespace or `/` follows them.
pub proof fn lemma_blank_len(s: Seq<char>)
    requires
        blank_len(s) is Ok,
    ensures
        blank_len(s)->Ok_0 <= s.len(),
        blank_len(s)->Ok_0 < s.len() ==> !is_blank(s[blank_len(s)->Ok_0 as int]) && s[blank_len(
            s,
        )->Ok_0 as int] != '/',
    decreases s.len(),
{
    if s.len() > 0 && is_blank(s[0]) {
        lemma_blank_len(s.skip(1));
    } else if s.len() > 0 && s[0] == '/' {
        lemma_line_len(s.skip(2));
        let n = 2 + line_len(s.skip(2));
        lemma_blank_len(s.skip(n as int));
    }
}

/// The digits at the front of a text are no more than its
/// characters, each of them is a digit, and no digit follows them.
pub proof fn lemma_digit_count(s: Seq<char>)
    ensures
        digit_count(s) <= s.len(),
        forall|i: int| 0 <= i < digit_count(s) ==> is_digit(#[trigger] s[i]),
        digit_count(s) < s.len() ==> !is_digit(s[digit_count(s) as int]),
    decreases s.len(),
{
    if s.len() > 0 && is_digit(s[0]) {
        lemma_digit_count(s.skip(1));
        assert forall|i: int| 0 <= i < digit_count(s) implies is_digit(#[trigger] s[i]) by {
            if i > 0 {
                assert(s[i] == s.skip(1)[i - 1]);
            }
        }
    }
}

/// A text that begins with a word is at least as long as the word.
pub proof fn lemma_spelled(s: Seq<char>, word: Seq<char>)
    requires
        spelled(s, word) is Ok,
    ensures
        word.len() <= s.len(),
        s.take(word.len() as int) == word,
    decreases word.len(),
{
    if word.len() > 0 {
        lemma_spelled(s.skip(1), word.skip(1));
        assert(s.take(word.len() as int) =~= word) by {
            assert forall|i: int| 0 <= i < word.len() implies s[i] == word[i] by {
                if i > 0 {
                    assert(s.skip(1).take(word.len() - 1)[i - 1] == word.skip(1)[i - 1]);
                }
            }
        }
    }
}

/// A token that is scanned has one character at least and lies
/// within the text, and is not the end-of-input token.
pub proof fn lemma_scan_len(s: Seq<char>)
    requires
        s.len() > 0,
        scan(s) is Ok,
    ensures
        1 <= scan(s)->Ok_0.1 <= s.len(),
        scan(s)->Ok_0.0 != Token::Eof,
{
    let c = s[0];
    if c == 'W' {
        lemma_spelled(s, spelling(Token::While));
    } else if c == 'D' {
        lemma_spelled(s, spelling(Token::Do));
    } else if c == 'T' {
        lemma_spelled(s, spelling(Token::Then));
    } else if c == 'E' {
        lemma_spelled(s, spelling(Token::End));
    } else if c == 'I' {
        lemma_spelled(s, spelling(Token::If));
    } else if c == 'x' {
        lemma_digit_count(s.skip(1));
    }
}

/// What is read for a token lies within the text, and is not empty
/// unless the token is the end-of-input token, which is read at the
/// end of the text only.
pub proof fn lemma_next_token_len(s: Seq<char>)
    requires
        next_token(s) is Ok,
    ensures
        next_token(s)->Ok_0.1 <= s.len(),
        next_token(s)->Ok_0.0 != Token::Eof ==> 1 <= next_token(s)->Ok_0.1,
        next_token(s)->Ok_0.0 == Token::Eof ==> next_token(s)->Ok_0.1 == s.len(),
{
    lemma_blank_len(s);
    let n = blank_len(s)->Ok_0;
    if n < s.len() {
        lemma_scan_len(s.skip(n as int));
    }
}


/// The tokens of a text end with the end-of-input token and hold
/// no other one.
pub proof fn lemma_tokenize_one_eof(s: Seq<char>)
    requires
        tokenize(s) is Ok,
    ensures
        tokenize(s)->Ok_0.len() > 0,
        tokenize(s)->Ok_0.last() == Token::Eof,
        forall|i: int|
            0 <= i < tokenize(s)->Ok_0.len() - 1 ==> #[trigger] tokenize(s)->Ok_0[i] != Token::Eof,
    decreases s.len(),
{
    let (token, n) = next_token(s)->Ok_0;
    if token != Token::Eof {
        lemma_next_token_len(s);
        let rest = tokenize(s.skip(n as int))->Ok_0;
        lemma_tokenize_one_eof(s.skip(n as int));
        let all = seq![token] + rest;
        assert(all.last() == rest.last());
        assert forall|i: int| 0 <= i < all.len() - 1 implies #[trigger] all[i] != Token::Eof by {
            if i > 0 {
                assert(all[i] == rest[i - 1]);
            }
        }
    }
}

/// The value of a digit sequence is at least that of each of its
/// prefixes.
pub proof fn lemma_decimal_prefix(digits: Seq<char>, k: int)
    requires
        0 <= k <= digits.len(),
    ensures
        decimal(digits.take(k)) <= decimal(digits),
    decreases digits.len(),
{
    if k < digits.len() {
        lemma_decimal_prefix(digits.drop_last(), k);
        assert(digits.drop_last().take(k) == digits.take(k));
    } else {
        assert(digits.take(k) == digits);
    }
}

/// A lexer over a program text, with one character of lookahead.
pub struct Lexer {
    input: Vec<char>,
    position: usize,
    current_char: Option<char>,
}

impl Lexer {
    /// The text that has not been read yet.
    pub closed spec fn rest(&self) -> Seq<char> {
        if self.position <= self.input.len() {
            self.input@.skip(self.position as int)
        } else {
            Seq::empty()
        }
    }

    /// The character under the lookahead, if any.
    pub closed spec fn current(&self) -> Option<char> {
        self.current_char
    }

    /// The text that has not been lexed yet: the character under the
    /// lookahead and what has not been read.
    pub open spec fn pending(&self) -> Seq<char> {
        match self.current() {
            Some(c) => seq![c] + self.rest(),
            None => self.rest(),
        }
    }

    /// The lookahead is empty at the end of the text only.
    pub open spec fn loaded(&self) -> bool {
        self.current() is None ==> self.rest().len() == 0
    }

    /// A lexer that has read nothing of `input` yet.
    pub fn new(input: &str) -> (lexer: Self)
        ensures
            lexer.rest() == input@,
            lexer.current() is None,
    {
        let mut chars: Vec<char> = Vec::new();
        for c in it: input.chars()
            invariant
                chars@ == it.seq().take(it.index() as int),
                it.seq() == input@,
        {
            chars.push(c);
        }
        Lexer { input: chars, position: 0, current_char: None }
    }

    /// Reads one character into the lookahead; at the end of the
    /// text the lookahead becomes empty.
    pub fn next(&mut self)
        ensures
            old(self).rest().len() > 0 ==> final(self).current() == Some(old(self).rest()[0])
                && final(self).rest() == old(self).rest().skip(1),
            old(self).rest().len() == 0 ==> final(self).current() is None && final(self).rest()
                == old(self).rest(),
            final(self).loaded(),
            final(self).pending() == old(self).rest(),
    {
        if self.position < self.input.len() {
            self.current_char = Some(self.input[self.position]);
            self.position = self.position + 1;
        } else {
            self.current_char = None;
        }
    }

    /// Lexes the text that has not been read yet: its tokens in
    /// order, then one end-of-input token.
    pub fn lex(self) -> (result: Result<Vec<Token>, LexError>)
        ensures
            match result {
                Ok(tokens) => tokenize(self.rest()) == Ok::<Seq<Token>, LexError>(tokens@),
                Err(e) => tokenize(self.rest()) == Err::<Seq<Token>, LexError>(e),
            },
            result matches Ok(tokens) ==> tokens@.len() > 0 && tokens@.last() == Token::Eof,
    {
        proof {
            if tokenize(self.rest()) is Ok {
                lemma_tokenize_one_eof(self.rest());
            }
        }
        let mut lexer = self;
        let mut tokens: Vec<Token> = Vec::new();
        lexer.next();
        loop
            invariant
                lexer.loaded(),
                tokenize(self.rest()) == match tokenize(lexer.pending()) {
                    Ok(more) => Ok::<Seq<Token>, LexError>(tokens@ + more),
                    Err(e) => Err(e),
                },
            decreases lexer.pending().len(),
        {
            let ghost before = lexer.pending();
            let token = match lexer.lex_token() {
                Ok(token) => token,
                Err(e) => {
                    return Err(e);
                },
            };
            proof {
                lemma_next_token_len(before);
                if token != Token::Eof {
                    let more = tokenize(lexer.pending());
                    if more is Ok {
                        assert(tokens@.push(token) + more->Ok_0 == tokens@ + (seq![token]
                            + more->Ok_0));
                    }
                } else {
                    assert(tokens@.push(token) == tokens@ + seq![Token::Eof]);
                }
            }
            tokens.push(token);
            if token == Token::Eof {
                return Ok(tokens);
            }
        }
    }

    /// Reads the next token, after any whitespace and comments; at
    /// the end of the text, the end-of-input token.
    fn lex_token(&mut self) -> (result: Result<Token, LexError>)
        requires
            old(self).loaded(),
        ensures
            match next_token(old(self).pending()) {
                Ok((token, n)) => result == Ok::<Token, LexError>(token) && final(self).loaded()
                    && final(self).pending() == old(self).pending().skip(n as int),
                Err(e) => result == Err::<Token, LexError>(e),
            },
    {
        let ghost text = self.pending();
        let ghost skipped: nat = 0;
        assert(text.skip(0) == text);
        loop
            invariant
                self.loaded(),
                text == old(self).pending(),
                skipped <= text.len(),
                self.pending() == text.skip(skipped as int),
                blank_len(text) == match blank_len(self.pending()) {
                    Ok(n) => Ok::<nat, LexError>(skipped + n),
                    Err(e) => Err(e),
                },
            ensures
                self.loaded(),
                skipped <= text.len(),
                self.pending() == text.skip(skipped as int),
                blank_len(text) == Ok::<nat, LexError>(skipped),
            decreases self.pending().len(),
        {
            let c = match self.current_char {
                Some(c) => c,
                None => {
                    break ;
                },
            };
            let ghost here = self.pending();
            if c == ' ' || c == '\n' || c == '\t' || c == '\r' {
                self.next();
                proof {
                    assert(self.pending() == here.skip(1));
                    assert(here.skip(1) == text.skip((skipped + 1) as int));
                    skipped = skipped + 1;
                }
            } else if c == '/' {
                match self.skip_line_comment() {
                    Ok(()) => {},
                    Err(e) => {
                        return Err(e);
                    },
                }
                proof {
                    lemma_line_len(here.skip(2));
                    let n = 2 + line_len(here.skip(2));
                    assert(here.skip(n as int) == text.skip((skipped + n) as int));
                    skipped = skipped + n;
                }
            } else {
                break ;
            }
        }
        let ghost here = self.pending();
        let token = match self.current_char {
            None => Token::Eof,
            Some(';') => Token::Semicolon,
            Some('0') => Token::Zero,
            Some('1') => Token::One,
            Some('+') => Token::Plus,
            Some('-') => Token::Minus,
            Some('[') => Token::LeftBracket,
            Some(']') => Token::RightBracket,
            Some('=') => Token::Equal,
            Some('?') => Token::Question,
            Some(':') => match self.make_with_eq(Token::Assign) {
                Ok(token) => token,
                Err(e) => {
                    return Err(e);
                },
            },
            Some('!') => match self.make_with_eq(Token::NotEq) {
                Ok(token) => token,
                Err(e) => {
                    return Err(e);
                },
            },
            Some('W') => {
                proof {
                    reveal_strlit("WHILE");
                    assert("WHILE"@ == spelling(Token::While));
                    if spelled(here, spelling(Token::While)) is Ok {
                        lemma_spelled(here, spelling(Token::While));
                        assert(here.skip(5) == text.skip((skipped + 5) as int));
                    }
                }
                return self.make_keyword("WHILE", Token::While);
            },
            Some('D') => {
                proof {
                    reveal_strlit("DO");
                    assert("DO"@ == spelling(Token::Do));
                    if spelled(here, spelling(Token::Do)) is Ok {
                        lemma_spelled(here, spelling(Token::Do));
                        assert(here.skip(2) == text.skip((skipped + 2) as int));
                    }
                }
                return self.make_keyword("DO", Token::Do);
            },
            Some('T') => {
                proof {
                    reveal_strlit("THEN");
                    assert("THEN"@ == spelling(Token::Then));
                    if spelled(here, spelling(Token::Then)) is Ok {
                        lemma_spelled(here, spelling(Token::Then));
                        assert(here.skip(4) == text.skip((skipped + 4) as int));
                    }
                }
                return self.make_keyword("THEN", Token::Then);
            },
            Some('E') => {
                proof {
                    reveal_strlit("END");
                    assert("END"@ == spelling(Token::End));
                    if spelled(here, spelling(Token::End)) is Ok {
                        lemma_spelled(here, spelling(Token::End));
                        assert(here.skip(3) == text.skip((skipped + 3) as int));
                    }
                }
                return self.make_keyword("END", Token::End);
            },
            Some('I') => {
                proof {
                    reveal_strlit("IF");
                    assert("IF"@ == spelling(Token::If));
                    if spelled(here, spelling(Token::If)) is Ok {
                        lemma_spelled(here, spelling(Token::If));
                        assert(here.skip(2) == text.skip((skipped + 2) as int));
                    }
                }
                return self.make_keyword("IF", Token::If);
            },
            Some('x') => {
                proof {
                    lemma_digit_count(here.skip(1));
                    let n = digit_count(here.skip(1));
                    assert(here.skip((1 + n) as int) == text.skip((skipped + 1 + n) as int));
                    if char_at(here, 1) == Some('0') {
                        assert(here.skip(2) == text.skip((skipped + 2) as int));
                    }
                }
                return self.make_var();
            },
            Some(c) => {
                return Err(LexError::UnexpectedChar { found: c });
            },
        };
        let ghost after = self.pending();
        self.next();
        proof {
            if after.len() > 0 {
                assert(self.pending() == after.skip(1));
                if after == here {
                    assert(here.skip(1) == text.skip((skipped + 1) as int));
                } else {
                    assert(after == here.skip(1));
                    assert(here.skip(1).skip(1) == text.skip((skipped + 2) as int));
                }
            }
        }
        Ok(token)
    }

    /// Skips a line comment, from its first `/` to the end of its
    /// line.
    fn skip_line_comment(&mut self) -> (result: Result<(), LexError>)
        requires
            old(self).loaded(),
            old(self).current() == Some('/'),
        ensures
            char_at(old(self).pending(), 1) == Some('/') ==> result is Ok && final(self).loaded()
                && final(self).pending() == old(self).pending().skip(
                2 + line_len(old(self).pending().skip(2)) as int,
            ),
            char_at(old(self).pending(), 1) != Some('/') ==> result == Err::<(), LexError>(
                LexError::MissingSlash { found: char_at(old(self).pending(), 1) },
            ),
    {
        let ghost text = self.pending();
        self.next();
        assert(self.pending() == text.skip(1));
        match self.current_char {
            Some('/') => self.next(),
            _ => {
                return Err(LexError::MissingSlash { found: self.current_char });
            },
        }
        let ghost line = self.pending();
        let ghost seen: nat = 0;
        assert(line == text.skip(2));
        assert(line.skip(0) == line);
        loop
            invariant
                self.loaded(),
                seen <= line.len(),
                self.pending() == line.skip(seen as int),
                line_len(line) == seen + line_len(self.pending()),
            ensures
                self.loaded(),
                seen <= line.len(),
                self.pending() == line.skip(seen as int),
                line_len(line) == seen + line_len(self.pending()),
                self.current() is None || self.current() == Some('\n'),
            decreases self.pending().len(),
        {
            match self.current_char {
                None => {
                    break ;
                },
                Some(c) => {
                    if c == '\n' {
                        break ;
                    }
                },
            }
            let ghost here = self.pending();
            self.next();
            proof {
                assert(self.pending() == here.skip(1));
                assert(here.skip(1) == line.skip((seen + 1) as int));
                seen = seen + 1;
            }
        }
        let ghost here = self.pending();
        self.next();
        proof {
            if here.len() > 0 {
                assert(self.pending() == here.skip(1));
                assert(here.skip(1) == line.skip((seen + 1) as int));
            }
            assert(line.skip(line_len(line) as int) == text.skip(2 + line_len(line) as int));
        }
        Ok(())
    }

    /// Steps over the first character of a two-character token and
    /// requires `=` as the second, which stays under the lookahead.
    fn make_with_eq(&mut self, token: Token) -> (result: Result<Token, LexError>)
        requires
            old(self).loaded(),
            old(self).current() is Some,
        ensures
            match with_equal(old(self).pending(), token) {
                Ok((t, n)) => result == Ok::<Token, LexError>(t) && final(self).loaded()
                    && final(self).pending() == old(self).pending().skip(1) && final(self).pending().len() > 0,
                Err(e) => result == Err::<Token, LexError>(e),
            },
    {
        let ghost text = self.pending();
        self.next();
        assert(self.pending() == text.skip(1));
        match self.current_char {
            Some('=') => Ok(token),
            _ => Err(LexError::MissingEqual { found: self.current_char }),
        }
    }

    /// Reads a variable, from its `x` on.
    fn make_var(&mut self) -> (result: Result<Token, LexError>)
        requires
            old(self).loaded(),
            old(self).current() is Some,
        ensures
            match variable(old(self).pending()) {
                Ok((token, n)) => result == Ok::<Token, LexError>(token) && final(self).loaded()
                    && final(self).pending() == old(self).pending().skip(n as int),
                Err(e) => result == Err::<Token, LexError>(e),
            },
    {
        let ghost text = self.pending();
        self.next();
        let ghost digits = self.pending();
        assert(digits == text.skip(1));
        match self.current_char {
            Some('0') => {
                self.next();
                assert(self.pending() == digits.skip(1));
                assert(digits.skip(1) == text.skip(2));
                return Ok(Token::Var(0));
            },
            _ => {},
        }
        let mut index: u64 = 0;
        let mut any = false;
        let ghost seen: nat = 0;
        proof {
            lemma_digit_count(digits);
            assert(digits.skip(0) == digits);
            assert(digits.take(0) == Seq::<char>::empty());
        }
        loop
            invariant
                self.loaded(),
                seen <= digits.len(),
                self.pending() == digits.skip(seen as int),
                digit_count(digits) == seen + digit_count(self.pending()),
                index == decimal(digits.take(seen as int)),
                any == (seen > 0),
                text == old(self).pending(),
                text.len() > 0,
                digits == text.skip(1),
                char_at(text, 1) != Some('0'),
            ensures
                self.loaded(),
                seen <= digits.len(),
                self.pending() == digits.skip(seen as int),
                digit_count(digits) == seen,
                index == decimal(digits.take(seen as int)),
                any == (seen > 0),
                seen == 0 ==> self.current() == char_at(digits, 0),
            decreases self.pending().len(),
        {
            let c = match self.current_char {
                Some(c) => c,
                None => {
                    break ;
                },
            };
            if !('0' <= c && c <= '9') {
                break ;
            }
            let digit: u64 = (c as u64) - ('0' as u64);
            proof {
                lemma_digit_count(digits);
                let all = digits.take(digit_count(digits) as int);
                let longer = digits.take((seen + 1) as int);
                assert(longer.drop_last() == digits.take(seen as int));
                assert(longer.last() == c);
                assert(all.take((seen + 1) as int) == longer);
                lemma_decimal_prefix(all, seen as int + 1);
                assert(decimal(longer) == index * 10 + digit);
                assert(text.len() == digits.len() + 1);
                assert(digits.take(digit_count(digits) as int) == text.subrange(
                    1,
                    1 + digit_count(digits) as int,
                ));
            }
            if index > (u64::MAX - digit) / 10 {
                return Err(LexError::IndexOverflow);
            }
            index = index * 10 + digit;
            any = true;
            let ghost here = self.pending();
            self.next();
            proof {
                assert(self.pending() == here.skip(1));
                assert(here.skip(1) == digits.skip((seen + 1) as int));
                seen = seen + 1;
            }
        }
        if !any {
            return Err(LexError::MissingIndex { found: self.current_char });
        }
        proof {
            assert(digits.take(seen as int) == text.subrange(1, 1 + seen as int));
            assert(digits.skip(seen as int) == text.skip((1 + seen) as int));
        }
        Ok(Token::Var(index))
    }

    /// Reads the reserved word `text`, character by character.
    fn make_keyword(&mut self, text: &str, token: Token) -> (result: Result<Token, LexError>)
        requires
            old(self).loaded(),
        ensures
            match keyword(old(self).pending(), text@, token) {
                Ok((t, n)) => result == Ok::<Token, LexError>(t) && final(self).loaded() && final(self).pending() == old(self).pending().skip(n as int),
                Err(e) => result == Err::<Token, LexError>(e),
            },
    {
        let ghost source = self.pending();
        assert(source.skip(0) == source);
        assert(text@.skip(0) == text@);
        for c in it: text.chars()
            invariant
                self.loaded(),
                it.seq() == text@,
                source == old(self).pending(),
                it.index() <= source.len(),
                self.pending() == source.skip(it.index() as int),
                spelled(source, text@) == spelled(self.pending(), text@.skip(it.index() as int)),
        {
            let ghost here = self.pending();
            let ghost word = text@.skip(it.index() as int);
            assert(word[0] == c);
            assert(word.skip(1) == text@.skip(it.index() + 1));
            match self.current_char {
                Some(found) => {
                    if found != c {
                        return Err(LexError::IncompleteKeyword { found: self.current_char });
                    }
                },
                None => {
                    return Err(LexError::IncompleteKeyword { found: self.current_char });
                },
            }
            self.next();
            proof {
                assert(self.pending() == here.skip(1));
                assert(here.skip(1) == source.skip(it.index() + 1));
            }
        }
        Ok(token)
    }
}

} // verus!
