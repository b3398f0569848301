//! What the lexer does, told as mathematics: a cursor over a sequence of
//! bytes, the token or failure that one step yields, and the run of steps to
//! the end of the source.

use crate::brackets::{lemma_unclosed_next, lemma_unclosed_plain, unclosed};
use crate::bytes::{is_blank, is_digit, is_letter, lemma_run_end_maximal, run_end, ByteClass};
use crate::error::LexError;
use crate::token::{bracket_of, punctuation_of, word_kind, Bracket, BracketState, TokenType, TokenView};
use vstd::prelude::*;

verus! {

/// The state of a lexer: the source, the index of the next byte to read, and
/// the brackets that are open at that index, innermost last.
pub struct Cursor {
    pub source: Seq<u8>,
    pub position: int,
    pub stack: Seq<Bracket>,
}

/// What one step of the lexer yields.
pub enum Step {
    /// The source is exhausted and no bracket is open.
    End,
    /// A token of kind `token_type`, spanning the bytes from `start` up to
    /// but not including `end`.
    Emit { token_type: TokenType, start: int, end: int },
    /// A failure.
    Fail { error: LexError },
}

/// The open brackets after a token of kind `token_type`: an opening bracket
/// joins them, a closing bracket takes the innermost away.
pub open spec fn stack_after(stack: Seq<Bracket>, token_type: TokenType) -> Seq<Bracket> {
    match token_type {
        TokenType::Paren(BracketState::Open) => stack.push(Bracket::Paren),
        TokenType::Curly(BracketState::Open) => stack.push(Bracket::Curly),
        TokenType::Square(BracketState::Open) => stack.push(Bracket::Square),
        TokenType::Paren(BracketState::Close) => stack.drop_last(),
        TokenType::Curly(BracketState::Close) => stack.drop_last(),
        TokenType::Square(BracketState::Close) => stack.drop_last(),
        _ => stack,
    }
}

/// Whether `b` can begin a token or stand between tokens.
pub open spec fn is_recognized(b: u8) -> bool {
    is_blank(b) || bracket_of(b) is Some || punctuation_of(b) is Some || b == 0 || is_letter(b)
        || is_digit(b)
}

impl Cursor {
    /// The cursor at the beginning of `source`, with no bracket open.
    pub open spec fn start(source: Seq<u8>) -> Cursor {
        Cursor { source, position: 0, stack: Seq::empty() }
    }

    /// The index of the first byte at or after the position that is not
    /// blank, where the next token begins if there is one.
    pub open spec fn token_start(self) -> int {
        run_end(self.source, self.position, ByteClass::Blank)
    }

    /// The outcome of one step from this cursor.
    ///
    /// Blank bytes are passed over. At the end of the source the step ends
    /// the sequence, unless a bracket is still open. Otherwise the byte at
    /// hand decides: a bracket is checked against the open brackets; `-`
    /// directly followed by `>` is an arrow; a punctuation byte or NUL is a
    /// token of its own; a letter begins a word, which runs on as far as
    /// letters and digits go and is then told apart as keyword or
    /// identifier; a digit begins a number, which runs on as far as digits
    /// go. No other byte begins a token.
    pub open spec fn step(self) -> Step {
        let start = self.token_start();
        if !(0 <= start < self.source.len()) {
            if self.stack.len() == 0 {
                Step::End
            } else {
                Step::Fail { error: LexError::UnclosedBracket(self.stack.last()) }
            }
        } else {
            let b = self.source[start];
            match bracket_of(b) {
                Some((family, BracketState::Open)) => Step::Emit {
                    token_type: TokenType::bracket(family, BracketState::Open),
                    start,
                    end: start + 1,
                },
                Some((family, BracketState::Close)) => if self.stack.len() == 0 {
                    Step::Fail { error: LexError::MismatchedBracket(None, family) }
                } else if self.stack.last() != family {
                    Step::Fail {
                        error: LexError::MismatchedBracket(Some(self.stack.last()), family),
                    }
                } else {
                    Step::Emit {
                        token_type: TokenType::bracket(family, BracketState::Close),
                        start,
                        end: start + 1,
                    }
                },
                None => if b == '-' as u8 && start + 1 < self.source.len() && self.source[start
                    + 1] == '>' as u8 {
                    Step::Emit { token_type: TokenType::Arrow, start, end: start + 2 }
                } else if punctuation_of(b) is Some {
                    Step::Emit { token_type: punctuation_of(b).unwrap(), start, end: start + 1 }
                } else if b == 0 {
                    Step::Emit { token_type: TokenType::Eof, start, end: start + 1 }
                } else if is_letter(b) {
                    let end = run_end(self.source, start, ByteClass::Word);
                    Step::Emit {
                        token_type: word_kind(self.source.subrange(start, end)),
                        start,
                        end,
                    }
                } else if is_digit(b) {
                    Step::Emit {
                        token_type: TokenType::Integer,
                        start,
                        end: run_end(self.source, start, ByteClass::Digit),
                    }
                } else {
                    Step::Fail { error: LexError::UnknownToken(b) }
                },
            }
        }
    }

    /// The cursor after one step. A token moves the position to its end
    /// and, if it is a bracket, changes the open brackets. Where the step
    /// ends the sequence or fails, the cursor rests where a token would have
    /// begun and the brackets are as they were.
    pub open spec fn advance(self) -> Cursor {
        match self.step() {
            Step::Emit { token_type, start, end } => Cursor {
                source: self.source,
                position: end,
                stack: stack_after(self.stack, token_type),
            },
            _ => Cursor { source: self.source, position: self.token_start(), stack: self.stack },
        }
    }

    /// The token that a step emits, if it emits one.
    pub open spec fn token(self) -> Option<TokenView> {
        match self.step() {
            Step::Emit { token_type, start, end } => Some(
                TokenView { token_type, literal: self.source.subrange(start, end) },
            ),
            _ => None,
        }
    }

    /// Whether the cursor lies inside its source and its open brackets are
    /// what the bytes before it leave open.
    pub open spec fn wf(self) -> bool {
        &&& 0 <= self.position <= self.source.len()
        &&& unclosed(self.source.take(self.position)) == Some(self.stack)
    }

    /// The steps from this cursor to the end of the sequence or to the first
    /// failure.
    pub open spec fn run(self) -> Run
        decreases self.source.len() - self.position,
    {
        match self.step() {
            Step::End => Run { tokens: Seq::empty(), rest: self.advance(), error: None },
            Step::Fail { error } => Run {
                tokens: Seq::empty(),
                rest: self.advance(),
                error: Some(error),
            },
            Step::Emit { token_type, start, end } => {
                proof {
                    lemma_step_bounds(self);
                }
                let tail = self.advance().run();
                Run {
                    tokens: seq![self.token().unwrap()] + tail.tokens,
                    rest: tail.rest,
                    error: tail.error,
                }
            },
        }
    }
}

/// What a run of steps yields: the tokens in source order, the cursor at
/// which the run stopped, and the failure that stopped it, if one did.
pub struct Run {
    pub tokens: Seq<TokenView>,
    pub rest: Cursor,
    pub error: Option<LexError>,
}

/// The tokens of `source`, or the failure that lexing it meets.
pub open spec fn lex(source: Seq<u8>) -> Result<Seq<TokenView>, LexError> {
    let run = Cursor::start(source).run();
    match run.error {
        None => Ok(run.tokens),
        Some(error) => Err(error),
    }
}

/// The kinds of `tokens`, in order.
pub open spec fn kinds(tokens: Seq<TokenView>) -> Seq<TokenType> {
    Seq::new(tokens.len(), |i: int| tokens[i].token_type)
}

/// The place where a token would begin lies at or after the cursor, with
/// blank bytes only between the two, and holds no blank byte. A token that
/// is emitted begins there, holds at least one byte and no blank one, and
/// ends inside the source.
pub proof fn lemma_step_bounds(c: Cursor)
    ensures
        c.position <= c.token_start(),
        forall|i: int| c.position <= i < c.token_start() ==> is_blank(#[trigger] c.source[i]),
        0 <= c.token_start() < c.source.len() ==> !is_blank(c.source[c.token_start()]),
        0 <= c.position <= c.source.len() ==> c.token_start() <= c.source.len(),
        c.step() matches Step::Emit { token_type, start, end } ==> {
            &&& start == c.token_start()
            &&& 0 <= start < end <= c.source.len()
            &&& forall|i: int| start <= i < end ==> !is_blank(#[trigger] c.source[i])
        },
{
    lemma_run_end_maximal(c.source, c.position, ByteClass::Blank);
    let start = c.token_start();
    if 0 <= start < c.source.len() {
        lemma_run_end_maximal(c.source, start, ByteClass::Word);
        lemma_run_end_maximal(c.source, start, ByteClass::Digit);
        if let Step::Emit { token_type, start, end } = c.step() {
            assert forall|i: int| start <= i < end implies !is_blank(#[trigger] c.source[i]) by {
                if is_letter(c.source[start]) {
                    assert(ByteClass::Word.has(c.source[i]));
                } else if is_digit(c.source[start]) {
                    assert(ByteClass::Digit.has(c.source[i]));
                }
            }
        }
    }
}

/// The cursor at the beginning of a source is well formed.
pub proof fn lemma_start_wf(source: Seq<u8>)
    ensures
        Cursor::start(source).wf(),
{
    assert(source.take(0) =~= Seq::<u8>::empty());
}

/// A step keeps a cursor well formed: the brackets that it holds afterwards
/// are those that the bytes before its new position leave open.
pub proof fn lemma_advance_preserves_wf(c: Cursor)
    requires
        c.wf(),
    ensures
        c.advance().wf(),
{
    lemma_step_bounds(c);
    let start = c.token_start();
    assert forall|k: int| c.position <= k < start implies bracket_of(#[trigger] c.source[k]) is None by {
        assert(is_blank(c.source[k]));
    }
    lemma_unclosed_plain(c.source, c.position, start);
    match c.step() {
        Step::Emit { token_type, start, end } => {
            if bracket_of(c.source[start]) is Some {
                lemma_unclosed_next(c.source, start);
                if c.stack.len() > 0 {
                    assert(c.stack.drop_last().push(c.stack.last()) =~= c.stack);
                }
            } else {
                if is_letter(c.source[start]) {
                    lemma_run_end_maximal(c.source, start, ByteClass::Word);
                } else if is_digit(c.source[start]) {
                    lemma_run_end_maximal(c.source, start, ByteClass::Digit);
                }
                assert forall|k: int| start <= k < end implies bracket_of(
                    #[trigger] c.source[k],
                ) is None by {
                    if is_letter(c.source[start]) {
                        assert(ByteClass::Word.has(c.source[k]));
                    } else if is_digit(c.source[start]) {
                        assert(ByteClass::Digit.has(c.source[k]));
                    }
                }
                lemma_unclosed_plain(c.source, start, end);
            }
        },
        _ => {},
    }
}

} // verus!
