use lexer::{Bracket, BracketState, LexError, Lexer, Token, TokenType};

#[test]
fn unclosed_paren_is_reported_after_its_token() {
    let mut lexer = Lexer::new(b"(");
    assert_eq!(
        lexer.next(),
        Ok(Some(Token::new(TokenType::Paren(BracketState::Open), b"(")))
    );
    assert_eq!(lexer.next(), Err(LexError::UnclosedBracket(Bracket::Paren)));
}

#[test]
fn closer_of_another_family_is_a_mismatch() {
    let mut lexer = Lexer::new(b"(}");
    assert_eq!(
        lexer.next(),
        Ok(Some(Token::new(TokenType::Paren(BracketState::Open), b"(")))
    );
    assert_eq!(
        lexer.next(),
        Err(LexError::MismatchedBracket(
            Some(Bracket::Paren),
            Bracket::Curly
        ))
    );
}

#[test]
fn each_family_is_closed_by_its_own_closer_only() {
    let openers = [(b'(', Bracket::Paren), (b'{', Bracket::Curly), (b'[', Bracket::Square)];
    let closers = [(b')', Bracket::Paren), (b'}', Bracket::Curly), (b']', Bracket::Square)];
    for (open_byte, open_family) in openers {
        for (close_byte, close_family) in closers {
            let source = [open_byte, close_byte];
            let result = Lexer::new(&source).tokenize();
            if open_family == close_family {
                assert_eq!(result.map(|tokens| tokens.len()), Ok(2));
            } else {
                assert_eq!(
                    result,
                    Err(LexError::MismatchedBracket(Some(open_family), close_family))
                );
            }
        }
    }
}

#[test]
fn closer_with_nothing_open_is_a_mismatch() {
    assert_eq!(
        Lexer::new(b")").tokenize(),
        Err(LexError::MismatchedBracket(None, Bracket::Paren))
    );
    assert_eq!(
        Lexer::new(b"()]").tokenize(),
        Err(LexError::MismatchedBracket(None, Bracket::Square))
    );
    assert_eq!(
        Lexer::new(b"let mut five = 5; }").tokenize(),
        Err(LexError::MismatchedBracket(None, Bracket::Curly))
    );
}

#[test]
fn the_innermost_open_bracket_is_reported() {
    assert_eq!(
        Lexer::new(b"({").tokenize(),
        Err(LexError::UnclosedBracket(Bracket::Curly))
    );
    assert_eq!(
        Lexer::new(b"[()").tokenize(),
        Err(LexError::UnclosedBracket(Bracket::Square))
    );
    assert_eq!(
        Lexer::new(b"{ ( [ ] \n").tokenize(),
        Err(LexError::UnclosedBracket(Bracket::Paren))
    );
}

#[test]
fn a_mismatch_inside_is_found_before_the_end() {
    assert_eq!(
        Lexer::new(b"([)]").tokenize(),
        Err(LexError::MismatchedBracket(
            Some(Bracket::Square),
            Bracket::Paren
        ))
    );
}

#[test]
fn unknown_bytes_are_reported_with_their_value() {
    assert_eq!(Lexer::new(b"  @").tokenize(), Err(LexError::UnknownToken(64)));
    assert_eq!(Lexer::new(b"\r").tokenize(), Err(LexError::UnknownToken(13)));
    assert_eq!(Lexer::new(b"a_b").tokenize(), Err(LexError::UnknownToken(b'_')));
    assert_eq!(Lexer::new(&[0xc3, 0xa9]).tokenize(), Err(LexError::UnknownToken(0xc3)));
    assert_eq!(Lexer::new(b"\"").tokenize(), Err(LexError::UnknownToken(b'"')));
}

#[test]
fn the_first_failure_wins() {
    assert_eq!(Lexer::new(b"( ? ").tokenize(), Err(LexError::UnknownToken(b'?')));
    assert_eq!(
        Lexer::new(b") ?").tokenize(),
        Err(LexError::MismatchedBracket(None, Bracket::Paren))
    );
}

#[test]
fn a_probe_after_a_minus_does_not_fail_early() {
    let mut lexer = Lexer::new(b"(-");
    assert_eq!(
        lexer.next(),
        Ok(Some(Token::new(TokenType::Paren(BracketState::Open), b"(")))
    );
    assert_eq!(lexer.next(), Ok(Some(Token::new(TokenType::Minus, b"-"))));
    assert_eq!(lexer.next(), Err(LexError::UnclosedBracket(Bracket::Paren)));

    let mut lexer = Lexer::new(b"-)");
    assert_eq!(lexer.next(), Ok(Some(Token::new(TokenType::Minus, b"-"))));
    assert_eq!(
        lexer.next(),
        Err(LexError::MismatchedBracket(None, Bracket::Paren))
    );

    let mut lexer = Lexer::new(b"-@");
    assert_eq!(lexer.next(), Ok(Some(Token::new(TokenType::Minus, b"-"))));
    assert_eq!(lexer.next(), Err(LexError::UnknownToken(b'@')));

    let mut lexer = Lexer::new(b"-(");
    assert_eq!(lexer.next(), Ok(Some(Token::new(TokenType::Minus, b"-"))));
    assert_eq!(
        lexer.next(),
        Ok(Some(Token::new(TokenType::Paren(BracketState::Open), b"(")))
    );
    assert_eq!(lexer.next(), Err(LexError::UnclosedBracket(Bracket::Paren)));
}

#[test]
fn messages_name_the_bracket() {
    assert_eq!(LexError::UnknownToken(b'@').message(), "Unknown token");
    assert_eq!(
        LexError::MismatchedBracket(None, Bracket::Paren).message(),
        "Unexpected close bracket: )"
    );
    assert_eq!(
        LexError::MismatchedBracket(Some(Bracket::Paren), Bracket::Curly).message(),
        "Unexpected close bracket: }"
    );
    assert_eq!(
        LexError::MismatchedBracket(Some(Bracket::Curly), Bracket::Square).message(),
        "Unexpected close bracket: ]"
    );
    assert_eq!(
        LexError::UnclosedBracket(Bracket::Paren).message(),
        "Unexpected open bracket: ("
    );
    assert_eq!(
        LexError::UnclosedBracket(Bracket::Curly).message(),
        "Unexpected open bracket: {"
    );
    assert_eq!(
        LexError::UnclosedBracket(Bracket::Square).message(),
        "Unexpected open bracket: ["
    );
}
