//! The lexer: a cursor over a borrowed byte buffer that hands out tokens.

use crate::bytes::{scan_run, ByteClass};
use crate::error::LexError;
use crate::grammar::{
    lemma_advance_preserves_wf, lemma_start_wf, lemma_step_bounds, Cursor, Step,
};
use crate::token::{
    classify_word, read_bracket, read_punctuation, token_views, Bracket, BracketState, Token,
    TokenType, TokenView,
};
use vstd::prelude::*;

verus! {

/// A pull-based producer of tokens over a byte buffer. It keeps the index of
/// the next byte to read and the brackets that are open there, and copies
/// nothing: the text of each token is a slice of the buffer.
pub struct Lexer<'a> {
    source: &'a [u8],
    position: usize,
    braces_stack: Vec<Bracket>,
}

impl<'a> View for Lexer<'a> {
    type V = Cursor;

    closed spec fn view(&self) -> Cursor {
        Cursor { source: self.source@, position: self.position as int, stack: self.braces_stack@ }
    }
}

impl<'a> Lexer<'a> {
    /// A lexer at the beginning of `source`, with no bracket open. Nothing
    /// is read yet.
    pub fn new(source: &'a [u8]) -> (lexer: Lexer<'a>)
        ensures
            lexer@ == Cursor::start(source@),
            lexer@.wf(),
    {
        proof {
            lemma_start_wf(source@);
        }
        Lexer { source, position: 0, braces_stack: Vec::new() }
    }

    /// Produces the next token: `Ok(Some(..))` with the token, `Ok(None)`
    /// when the source is exhausted with every bracket closed, or the
    /// failure that the bytes at hand amount to. The lexer moves as
    /// [`Cursor::advance`] says.
    pub fn next(&mut self) -> (res: Result<Option<Token<'a>>, LexError>)
        ensures
            final(self)@ == old(self)@.advance(),
            old(self)@.wf() ==> final(self)@.wf(),
            match old(self)@.step() {
                Step::End => res == Ok::<Option<Token<'a>>, LexError>(None),
                Step::Emit { .. } => res matches Ok(Some(token)) && Some(token@) == old(
                    self,
                )@.token(),
                Step::Fail { error } => res == Err::<Option<Token<'a>>, LexError>(error),
            },
    {
        proof {
            lemma_step_bounds(self@);
            if self@.wf() {
                lemma_advance_preserves_wf(self@);
            }
        }
        let source = self.source;
        let start = scan_run(source, self.position, ByteClass::Blank);
        self.position = start;
        if start >= source.len() {
            let depth = self.braces_stack.len();
            if depth == 0 {
                return Ok(None);
            }
            return Err(LexError::UnclosedBracket(self.braces_stack[depth - 1]));
        }
        let b = source[start];
        let mut end = start + 1;
        let token_type = match read_bracket(b) {
            Some((family, BracketState::Open)) => {
                self.braces_stack.push(family);
                TokenType::of_bracket(family, BracketState::Open)
            },
            Some((family, BracketState::Close)) => {
                let depth = self.braces_stack.len();
                if depth == 0 {
                    return Err(LexError::MismatchedBracket(None, family));
                }
                let innermost = self.braces_stack[depth - 1];
                if innermost != family {
                    return Err(LexError::MismatchedBracket(Some(innermost), family));
                }
                self.braces_stack.pop();
                TokenType::of_bracket(family, BracketState::Close)
            },
            None => {
                if b == '-' as u8 && start + 1 < source.len() && source[start + 1] == '>' as u8 {
                    end = start + 2;
                    TokenType::Arrow
                } else if let Some(kind) = read_punctuation(b) {
                    kind
                } else if b == 0 {
                    TokenType::Eof
                } else if ByteClass::Letter.contains(b) {
                    end = scan_run(source, start, ByteClass::Word);
                    classify_word(&source[start..end])
                } else if ByteClass::Digit.contains(b) {
                    end = scan_run(source, start, ByteClass::Digit);
                    TokenType::Integer
                } else {
                    return Err(LexError::UnknownToken(b));
                }
            },
        };
        self.position = end;
        Ok(Some(Token::new(token_type, &source[start..end])))
    }

    /// Produces all the tokens that are left, in source order, or the first
    /// failure. The lexer stops where the last step left it.
    pub fn tokenize(&mut self) -> (res: Result<Vec<Token<'a>>, LexError>)
        ensures
            final(self)@ == old(self)@.run().rest,
            old(self)@.wf() ==> final(self)@.wf(),
            match old(self)@.run().error {
                None => res matches Ok(tokens) && token_views(tokens@) == old(self)@.run().tokens,
                Some(error) => res == Err::<Vec<Token<'a>>, LexError>(error),
            },
    {
        let ghost begin = self@;
        let mut tokens: Vec<Token<'a>> = Vec::new();
        assert(token_views(tokens@) + begin.run().tokens =~= begin.run().tokens);
        loop
            invariant
                begin == old(self)@,
                begin.wf() ==> self@.wf(),
                begin.run().tokens == token_views(tokens@) + self@.run().tokens,
                begin.run().rest == self@.run().rest,
                begin.run().error == self@.run().error,
            decreases self@.source.len() - self@.position,
        {
            let ghost before = self@;
            let ghost seen = tokens@;
            proof {
                lemma_step_bounds(before);
            }
            match self.next() {
                Ok(Some(token)) => {
                    tokens.push(token);
                    proof {
                        let tail = before.advance().run().tokens;
                        assert(token_views(tokens@) =~= token_views(seen) + seq![token@]);
                        assert((token_views(seen) + seq![token@]) + tail =~= token_views(seen) + (
                        seq![token@] + tail));
                    }
                },
                Ok(None) => {
                    assert(token_views(tokens@) + Seq::<TokenView>::empty() =~= token_views(
                        tokens@,
                    ));
                    return Ok(tokens);
                },
                Err(error) => {
                    return Err(error);
                },
            }
        }
    }
}

} // verus!
