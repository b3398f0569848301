//! Token kinds and the token value itself.

use vstd::prelude::*;

verus! {

/// Whether a bracket token opens or closes its pair.
#[derive(Debug, PartialEq, Eq, Clone, Copy, Structural)]
pub enum BracketState {
    Open,
    Close,
}

/// A bracket family, regardless of whether the bracket opens or closes.
#[derive(Debug, PartialEq, Eq, Clone, Copy, Structural)]
pub enum Bracket {
    Paren,
    Curly,
    Square,
}

/// The closed set of token kinds.
#[derive(Debug, PartialEq, Eq, Clone, Copy, Structural)]
pub enum TokenType {
    Paren(BracketState),
    Curly(BracketState),
    Square(BracketState),
    Let,
    Fn,
    Colon,
    Arrow,
    Assign,
    Comma,
    Dot,
    Minus,
    Plus,
    Semicolon,
    Slash,
    Star,
    Ident,
    Integer,
    Bigger,
    Smaller,
    Mut,
    Eof,
}

impl TokenType {
    /// The kind of the bracket token of the given family and state.
    pub open spec fn bracket(family: Bracket, state: BracketState) -> TokenType {
        match family {
            Bracket::Paren => TokenType::Paren(state),
            Bracket::Curly => TokenType::Curly(state),
            Bracket::Square => TokenType::Square(state),
        }
    }

    /// Builds the kind of a bracket token from its family and state.
    pub fn of_bracket(family: Bracket, state: BracketState) -> (kind: TokenType)
        ensures
            kind == TokenType::bracket(family, state),
    {
        match family {
            Bracket::Paren => TokenType::Paren(state),
            Bracket::Curly => TokenType::Curly(state),
            Bracket::Square => TokenType::Square(state),
        }
    }
}

/// The bracket that the byte `b` stands for, with its family and state, if
/// it is one of `(`, `)`, `{`, `}`, `[` and `]`.
pub open spec fn bracket_of(b: u8) -> Option<(Bracket, BracketState)> {
    if b == '(' as u8 {
        Some((Bracket::Paren, BracketState::Open))
    } else if b == ')' as u8 {
        Some((Bracket::Paren, BracketState::Close))
    } else if b == '{' as u8 {
        Some((Bracket::Curly, BracketState::Open))
    } else if b == '}' as u8 {
        Some((Bracket::Curly, BracketState::Close))
    } else if b == '[' as u8 {
        Some((Bracket::Square, BracketState::Open))
    } else if b == ']' as u8 {
        Some((Bracket::Square, BracketState::Close))
    } else {
        None
    }
}

/// Reads `b` as a bracket.
pub fn read_bracket(b: u8) -> (bracket: Option<(Bracket, BracketState)>)
    ensures
        bracket == bracket_of(b),
{
    if b == '(' as u8 {
        Some((Bracket::Paren, BracketState::Open))
    } else if b == ')' as u8 {
        Some((Bracket::Paren, BracketState::Close))
    } else if b == '{' as u8 {
        Some((Bracket::Curly, BracketState::Open))
    } else if b == '}' as u8 {
        Some((Bracket::Curly, BracketState::Close))
    } else if b == '[' as u8 {
        Some((Bracket::Square, BracketState::Open))
    } else if b == ']' as u8 {
        Some((Bracket::Square, BracketState::Close))
    } else {
        None
    }
}

/// The kind of the punctuation token that the byte `b` forms on its own, if
/// it is one of `,` `.` `-` `+` `;` `/` `*` `:` `=` `<` and `>`.
pub open spec fn punctuation_of(b: u8) -> Option<TokenType> {
    if b == ',' as u8 {
        Some(TokenType::Comma)
    } else if b == '.' as u8 {
        Some(TokenType::Dot)
    } else if b == '-' as u8 {
        Some(TokenType::Minus)
    } else if b == '+' as u8 {
        Some(TokenType::Plus)
    } else if b == ';' as u8 {
        Some(TokenType::Semicolon)
    } else if b == '/' as u8 {
        Some(TokenType::Slash)
    } else if b == '*' as u8 {
        Some(TokenType::Star)
    } else if b == ':' as u8 {
        Some(TokenType::Colon)
    } else if b == '=' as u8 {
        Some(TokenType::Assign)
    } else if b == '<' as u8 {
        Some(TokenType::Smaller)
    } else if b == '>' as u8 {
        Some(TokenType::Bigger)
    } else {
        None
    }
}

/// Reads `b` as a punctuation token of one byte.
pub fn read_punctuation(b: u8) -> (kind: Option<TokenType>)
    ensures
        kind == punctuation_of(b),
{
    if b == ',' as u8 {
        Some(TokenType::Comma)
    } else if b == '.' as u8 {
        Some(TokenType::Dot)
    } else if b == '-' as u8 {
        Some(TokenType::Minus)
    } else if b == '+' as u8 {
        Some(TokenType::Plus)
    } else if b == ';' as u8 {
        Some(TokenType::Semicolon)
    } else if b == '/' as u8 {
        Some(TokenType::Slash)
    } else if b == '*' as u8 {
        Some(TokenType::Star)
    } else if b == ':' as u8 {
        Some(TokenType::Colon)
    } else if b == '=' as u8 {
        Some(TokenType::Assign)
    } else if b == '<' as u8 {
        Some(TokenType::Smaller)
    } else if b == '>' as u8 {
        Some(TokenType::Bigger)
    } else {
        None
    }
}

/// The kind of a word: the keyword that it spells, or `Ident` when it
/// spells none. Only the whole word counts, so `letter` is no `let`.
pub open spec fn word_kind(word: Seq<u8>) -> TokenType {
    if word == seq!['l' as u8, 'e' as u8, 't' as u8] {
        TokenType::Let
    } else if word == seq!['m' as u8, 'u' as u8, 't' as u8] {
        TokenType::Mut
    } else if word == seq!['f' as u8, 'n' as u8] {
        TokenType::Fn
    } else {
        TokenType::Ident
    }
}

/// Tells a keyword from an identifier.
pub fn classify_word(word: &[u8]) -> (kind: TokenType)
    ensures
        kind == word_kind(word@),
{
    let n = word.len();
    if n == 3 && word[0] == 'l' as u8 && word[1] == 'e' as u8 && word[2] == 't' as u8 {
        assert(word@ =~= seq!['l' as u8, 'e' as u8, 't' as u8]);
        TokenType::Let
    } else if n == 3 && word[0] == 'm' as u8 && word[1] == 'u' as u8 && word[2] == 't' as u8 {
        assert(word@ =~= seq!['m' as u8, 'u' as u8, 't' as u8]);
        TokenType::Mut
    } else if n == 2 && word[0] == 'f' as u8 && word[1] == 'n' as u8 {
        assert(word@ =~= seq!['f' as u8, 'n' as u8]);
        TokenType::Fn
    } else {
        TokenType::Ident
    }
}

/// A classified, contiguous span of source bytes. The text is borrowed from
/// the source buffer.
#[derive(Debug, PartialEq, Clone, Copy)]
pub struct Token<'a> {
    pub token_type: TokenType,
    pub literal: &'a [u8],
}

/// The mathematical value of a [`Token`]: its kind and the bytes it spans.
pub struct TokenView {
    pub token_type: TokenType,
    pub literal: Seq<u8>,
}

impl<'a> View for Token<'a> {
    type V = TokenView;

    open spec fn view(&self) -> TokenView {
        TokenView { token_type: self.token_type, literal: self.literal@ }
    }
}

impl<'a> Token<'a> {
    /// Pairs a kind with the bytes it was read from.
    pub fn new(token_type: TokenType, literal: &'a [u8]) -> (token: Token<'a>)
        ensures
            token.token_type == token_type,
            token.literal == literal,
            token@ == (TokenView { token_type, literal: literal@ }),
    {
        Token { token_type, literal }
    }
}

/// The mathematical values of `tokens`, in order.
pub open spec fn token_views<'a>(tokens: Seq<Token<'a>>) -> Seq<TokenView> {
    Seq::new(tokens.len(), |i: int| tokens[i]@)
}

} // verus!
