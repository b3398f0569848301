use lexer::bytes::{scan_run, ByteClass};
use lexer::token::{classify_word, read_bracket, read_punctuation};
use lexer::{Bracket, BracketState, Token, TokenType};

#[test]
fn byte_classes_hold_what_they_should() {
    for b in 0..=255u8 {
        let blank = b == b' ' || b == b'\n' || b == b'\t';
        assert_eq!(ByteClass::Blank.contains(b), blank);
        assert_eq!(ByteClass::Letter.contains(b), b.is_ascii_alphabetic());
        assert_eq!(ByteClass::Digit.contains(b), b.is_ascii_digit());
        assert_eq!(ByteClass::Word.contains(b), b.is_ascii_alphanumeric());
    }
}

#[test]
fn runs_end_at_the_first_foreign_byte() {
    let source = b"  \t\nab12 34";
    assert_eq!(scan_run(source, 0, ByteClass::Blank), 4);
    assert_eq!(scan_run(source, 4, ByteClass::Blank), 4);
    assert_eq!(scan_run(source, 4, ByteClass::Word), 8);
    assert_eq!(scan_run(source, 4, ByteClass::Letter), 6);
    assert_eq!(scan_run(source, 6, ByteClass::Digit), 8);
    assert_eq!(scan_run(source, 9, ByteClass::Digit), 11);
    assert_eq!(scan_run(source, 11, ByteClass::Digit), 11);
    assert_eq!(scan_run(source, 40, ByteClass::Digit), 40);
    assert_eq!(scan_run(b"", 0, ByteClass::Blank), 0);
}

#[test]
fn six_bytes_are_brackets() {
    assert_eq!(read_bracket(b'('), Some((Bracket::Paren, BracketState::Open)));
    assert_eq!(read_bracket(b')'), Some((Bracket::Paren, BracketState::Close)));
    assert_eq!(read_bracket(b'{'), Some((Bracket::Curly, BracketState::Open)));
    assert_eq!(read_bracket(b'}'), Some((Bracket::Curly, BracketState::Close)));
    assert_eq!(read_bracket(b'['), Some((Bracket::Square, BracketState::Open)));
    assert_eq!(read_bracket(b']'), Some((Bracket::Square, BracketState::Close)));
    let brackets = (0..=255u8).filter(|b| read_bracket(*b).is_some()).count();
    assert_eq!(brackets, 6);
}

#[test]
fn eleven_bytes_are_punctuation() {
    assert_eq!(read_punctuation(b','), Some(TokenType::Comma));
    assert_eq!(read_punctuation(b'.'), Some(TokenType::Dot));
    assert_eq!(read_punctuation(b'-'), Some(TokenType::Minus));
    assert_eq!(read_punctuation(b'+'), Some(TokenType::Plus));
    assert_eq!(read_punctuation(b';'), Some(TokenType::Semicolon));
    assert_eq!(read_punctuation(b'/'), Some(TokenType::Slash));
    assert_eq!(read_punctuation(b'*'), Some(TokenType::Star));
    assert_eq!(read_punctuation(b':'), Some(TokenType::Colon));
    assert_eq!(read_punctuation(b'='), Some(TokenType::Assign));
    assert_eq!(read_punctuation(b'<'), Some(TokenType::Smaller));
    assert_eq!(read_punctuation(b'>'), Some(TokenType::Bigger));
    assert_eq!(read_punctuation(b'('), None);
    assert_eq!(read_punctuation(0), None);
    let marks = (0..=255u8).filter(|b| read_punctuation(*b).is_some()).count();
    assert_eq!(marks, 11);
}

#[test]
fn three_words_are_keywords() {
    assert_eq!(classify_word(b"let"), TokenType::Let);
    assert_eq!(classify_word(b"mut"), TokenType::Mut);
    assert_eq!(classify_word(b"fn"), TokenType::Fn);
    assert_eq!(classify_word(b"letter"), TokenType::Ident);
    assert_eq!(classify_word(b"le"), TokenType::Ident);
    assert_eq!(classify_word(b"nf"), TokenType::Ident);
    assert_eq!(classify_word(b"tum"), TokenType::Ident);
    assert_eq!(classify_word(b"LET"), TokenType::Ident);
    assert_eq!(classify_word(b""), TokenType::Ident);
}

#[test]
fn bracket_kinds_are_built_from_family_and_state() {
    assert_eq!(
        TokenType::of_bracket(Bracket::Paren, BracketState::Open),
        TokenType::Paren(BracketState::Open)
    );
    assert_eq!(
        TokenType::of_bracket(Bracket::Curly, BracketState::Close),
        TokenType::Curly(BracketState::Close)
    );
    assert_eq!(
        TokenType::of_bracket(Bracket::Square, BracketState::Open),
        TokenType::Square(BracketState::Open)
    );
}

#[test]
fn a_token_keeps_its_kind_and_text() {
    let token = Token::new(TokenType::Ident, b"five");
    assert_eq!(token.token_type, TokenType::Ident);
    assert_eq!(token.literal, b"five");
    let copy = token;
    assert_eq!(copy, token);
}
