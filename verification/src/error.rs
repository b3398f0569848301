//! The ways in which lexing fails.

use crate::token::Bracket;
use vstd::prelude::*;

verus! {

/// A failure of the lexer. Each one ends the lexing of its source.
#[derive(Debug, PartialEq, Eq, Clone, Copy)]
pub enum LexError {
    /// A byte that begins no token.
    UnknownToken(u8),
    /// A closing bracket that does not close the innermost open bracket.
    /// First the family that a closer was expected of, `None` when no
    /// bracket was open; then the family of the closer that was found.
    MismatchedBracket(Option<Bracket>, Bracket),
    /// The source ended inside a bracket: the family of the innermost
    /// bracket that is still open.
    UnclosedBracket(Bracket),
}

impl LexError {
    /// The text of the diagnostic for this failure.
    pub open spec fn message_text(self) -> Seq<char> {
        match self {
            LexError::UnknownToken(_) => "Unknown token"@,
            LexError::MismatchedBracket(_, Bracket::Paren) => "Unexpected close bracket: )"@,
            LexError::MismatchedBracket(_, Bracket::Curly) => "Unexpected close bracket: }"@,
            LexError::MismatchedBracket(_, Bracket::Square) => "Unexpected close bracket: ]"@,
            LexError::UnclosedBracket(Bracket::Paren) => "Unexpected open bracket: ("@,
            LexError::UnclosedBracket(Bracket::Curly) => "Unexpected open bracket: {"@,
            LexError::UnclosedBracket(Bracket::Square) => "Unexpected open bracket: ["@,
        }
    }

    /// A diagnostic for this failure, naming the bracket at fault.
    pub fn message(&self) -> (text: &'static str)
        ensures
            text@ == self.message_text(),
    {
        match self {
            LexError::UnknownToken(_) => "Unknown token",
            LexError::MismatchedBracket(_, Bracket::Paren) => "Unexpected close bracket: )",
            LexError::MismatchedBracket(_, Bracket::Curly) => "Unexpected close bracket: }",
            LexError::MismatchedBracket(_, Bracket::Square) => "Unexpected close bracket: ]",
            LexError::UnclosedBracket(Bracket::Paren) => "Unexpected open bracket: (",
            LexError::UnclosedBracket(Bracket::Curly) => "Unexpected open bracket: {",
            LexError::UnclosedBracket(Bracket::Square) => "Unexpected open bracket: [",
        }
    }
}

} // verus!
