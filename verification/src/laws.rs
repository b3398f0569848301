//! Laws of the lexer: what holds of every source.

use crate::brackets::{
    balanced, lemma_after_bytes_none, lemma_after_bytes_plain, lemma_balanced_iff_none_open,
    lemma_balanced_leaves_none_open, lemma_unclosed_extend, lemma_unclosed_next, unclosed,
};
use crate::bytes::{is_blank, is_digit, is_letter, lemma_run_end_maximal, ByteClass};
use crate::error::LexError;
use crate::grammar::{
    is_recognized, kinds, lemma_advance_preserves_wf, lemma_start_wf, lemma_step_bounds, lex,
    Cursor, Step,
};
use crate::token::{bracket_of, punctuation_of, word_kind, Bracket, TokenType, TokenView};
use vstd::prelude::*;

verus! {

/// The test that a byte is not blank.
pub open spec fn not_blank() -> spec_fn(u8) -> bool {
    |b: u8| !is_blank(b)
}

/// The bytes of `s` that are not blank, in order.
pub open spec fn non_blank(s: Seq<u8>) -> Seq<u8> {
    s.filter(not_blank())
}

/// The texts of `tokens`, one after the other.
pub open spec fn joined(tokens: Seq<TokenView>) -> Seq<u8>
    decreases tokens.len(),
{
    if tokens.len() == 0 {
        Seq::empty()
    } else {
        tokens[0].literal + joined(tokens.skip(1))
    }
}

/// Nothing is left of blank bytes when the blanks are taken out.
proof fn lemma_non_blank_of_blanks(s: Seq<u8>)
    requires
        forall|i: int| 0 <= i < s.len() ==> is_blank(#[trigger] s[i]),
    ensures
        non_blank(s) == Seq::<u8>::empty(),
{
    s.lemma_all_neg_filter_empty(not_blank());
}

/// Bytes without a blank among them stay as they are when the blanks are
/// taken out.
proof fn lemma_non_blank_of_text(s: Seq<u8>)
    requires
        forall|i: int| 0 <= i < s.len() ==> !is_blank(#[trigger] s[i]),
    ensures
        non_blank(s) == s,
    decreases s.len(),
{
    reveal(Seq::filter);
    if s.len() > 0 {
        let front = s.drop_last();
        assert forall|i: int| 0 <= i < front.len() implies !is_blank(#[trigger] front[i]) by {
            assert(front[i] == s[i]);
        }
        lemma_non_blank_of_text(front);
        assert(!is_blank(s[s.len() - 1]));
        assert(front.push(s.last()) =~= s);
    }
}

/// Taking the blanks out of a stretch that begins with blanks, goes on with
/// bytes that are not blank and then with anything leaves the middle part
/// as it is, followed by what is left of the last part.
proof fn lemma_non_blank_of_stretch(s: Seq<u8>, from: int, start: int, end: int, stop: int)
    requires
        0 <= from <= start <= end <= stop <= s.len(),
        forall|i: int| from <= i < start ==> is_blank(#[trigger] s[i]),
        forall|i: int| start <= i < end ==> !is_blank(#[trigger] s[i]),
    ensures
        non_blank(s.subrange(from, stop)) == s.subrange(start, end) + non_blank(
            s.subrange(end, stop),
        ),
{
    let blanks = s.subrange(from, start);
    let text = s.subrange(start, end);
    let tail = s.subrange(end, stop);
    assert forall|i: int| 0 <= i < blanks.len() implies is_blank(#[trigger] blanks[i]) by {
        assert(blanks[i] == s[from + i]);
    }
    assert forall|i: int| 0 <= i < text.len() implies !is_blank(#[trigger] text[i]) by {
        assert(text[i] == s[start + i]);
    }
    lemma_non_blank_of_blanks(blanks);
    lemma_non_blank_of_text(text);
    assert(s.subrange(from, stop) =~= (blanks + text) + tail);
    Seq::filter_distributes_over_add(blanks + text, tail, not_blank());
    Seq::filter_distributes_over_add(blanks, text, not_blank());
    assert(Seq::<u8>::empty() + text =~= text);
}

/// The text of the first token of a sequence comes first when the texts are
/// joined.
proof fn lemma_joined_first(first: TokenView, others: Seq<TokenView>)
    ensures
        joined(seq![first] + others) == first.literal + joined(others),
{
    let all = seq![first] + others;
    assert(all.skip(1) =~= others);
    assert(all[0] == first);
}

/// The tokens of a run cover the source between the cursor and the place
/// where the run stops: their texts, joined, are the bytes between the two
/// without the blanks.
pub proof fn lemma_run_covers_source(c: Cursor)
    requires
        0 <= c.position <= c.source.len(),
    ensures
        c.position <= c.run().rest.position <= c.source.len(),
        joined(c.run().tokens) == non_blank(
            c.source.subrange(c.position, c.run().rest.position),
        ),
    decreases c.source.len() - c.position,
{
    lemma_step_bounds(c);
    let first = c.token_start();
    if c.step() is Emit {
        let next = c.advance();
        let end = next.position;
        lemma_run_covers_source(next);
        let stop = next.run().rest.position;
        lemma_joined_first(c.token().unwrap(), next.run().tokens);
        lemma_non_blank_of_stretch(c.source, c.position, first, end, stop);
    } else {
        let blanks = c.source.subrange(c.position, first);
        assert forall|i: int| 0 <= i < blanks.len() implies is_blank(#[trigger] blanks[i]) by {
            assert(blanks[i] == c.source[c.position + i]);
        }
        lemma_non_blank_of_blanks(blanks);
    }
}

/// What a failure tells of the source, from index `from` on. An unknown byte
/// stands in the source; a mismatched bracket means that the nesting of the
/// source goes wrong; an unclosed bracket is the innermost of the brackets
/// that the whole source leaves open.
pub open spec fn failure_reflects_source(source: Seq<u8>, from: int, error: LexError) -> bool {
    match error {
        LexError::UnknownToken(b) => exists|i: int|
            from <= i < source.len() && #[trigger] source[i] == b && !is_recognized(b),
        LexError::MismatchedBracket(_, _) => unclosed(source) is None,
        LexError::UnclosedBracket(family) => unclosed(source) matches Some(open) && open.len() > 0
            && open.last() == family,
    }
}

/// No bracket is open at a well-formed cursor exactly when the brackets in
/// the bytes before it are balanced.
pub proof fn lemma_none_open_iff_read_is_balanced(c: Cursor)
    requires
        c.wf(),
    ensures
        c.stack.len() == 0 <==> balanced(c.source.take(c.position)),
{
    lemma_balanced_iff_none_open(c.source.take(c.position));
    if c.stack.len() == 0 {
        assert(c.stack =~= Seq::<Bracket>::empty());
    }
}

/// How a run from a well-formed cursor can end, told of the source alone.
/// It ends without failure only at the end of a source that leaves no
/// bracket open, and a failure reflects the source as
/// [`failure_reflects_source`] says. Where it stops the cursor is well
/// formed.
pub proof fn lemma_run_outcome(c: Cursor)
    requires
        c.wf(),
    ensures
        c.run().rest.wf(),
        match c.run().error {
            None => {
                &&& c.run().rest.position == c.source.len()
                &&& c.run().rest.stack.len() == 0
                &&& unclosed(c.source) == Some(Seq::<Bracket>::empty())
            },
            Some(error) => failure_reflects_source(c.source, c.position, error),
        },
    decreases c.source.len() - c.position,
{
    lemma_step_bounds(c);
    lemma_advance_preserves_wf(c);
    let first = c.token_start();
    let len = c.source.len() as int;
    assert(c.source.take(len) =~= c.source);
    match c.step() {
        Step::Emit { token_type, start, end } => {
            let next = c.advance();
            lemma_run_outcome(next);
            if let Some(LexError::UnknownToken(b)) = c.run().error {
                let i = choose|i: int|
                    next.position <= i < c.source.len() && #[trigger] c.source[i] == b
                        && !is_recognized(b);
                assert(c.position <= i < c.source.len() && c.source[i] == b);
            }
        },
        Step::End => {
            assert(c.stack =~= Seq::<Bracket>::empty());
        },
        Step::Fail { error } => {
            match error {
                LexError::UnknownToken(b) => {
                    assert(c.position <= first < c.source.len() && c.source[first] == b);
                },
                LexError::MismatchedBracket(_, _) => {
                    lemma_unclosed_next(c.source, first);
                    lemma_unclosed_extend(c.source, first + 1, len);
                    lemma_after_bytes_none(c.source.subrange(first + 1, len));
                },
                LexError::UnclosedBracket(_) => {},
            }
        },
    }
}

/// A source whose brackets are balanced and whose bytes are all known to the
/// lexer is lexed without failure, to its end, and no bracket is open when
/// the lexer stops.
pub proof fn lemma_balanced_source_is_accepted(source: Seq<u8>)
    requires
        balanced(source),
        forall|i: int| 0 <= i < source.len() ==> is_recognized(#[trigger] source[i]),
    ensures
        lex(source) is Ok,
        Cursor::start(source).run().rest.position == source.len(),
        Cursor::start(source).run().rest.stack.len() == 0,
{
    let c = Cursor::start(source);
    lemma_start_wf(source);
    lemma_run_outcome(c);
    lemma_balanced_leaves_none_open(source);
}

/// Whatever else a source holds, balanced brackets never make the lexer
/// fail on a bracket: the only failure left is an unknown byte.
pub proof fn lemma_balanced_source_fails_on_unknown_bytes_only(source: Seq<u8>)
    requires
        balanced(source),
    ensures
        lex(source) matches Err(error) ==> error is UnknownToken,
{
    let c = Cursor::start(source);
    lemma_start_wf(source);
    lemma_run_outcome(c);
    lemma_balanced_leaves_none_open(source);
}

/// In a source whose bytes are all known to the lexer the brackets alone
/// decide how lexing ends. If the nesting goes wrong, lexing fails on the
/// mismatched bracket; if brackets are left open at the end, it fails on the
/// innermost of them; and if none is left open, it succeeds.
pub proof fn lemma_brackets_decide(source: Seq<u8>)
    requires
        forall|i: int| 0 <= i < source.len() ==> is_recognized(#[trigger] source[i]),
    ensures
        match unclosed(source) {
            None => lex(source) matches Err(error) && error is MismatchedBracket,
            Some(open) => if open.len() == 0 {
                lex(source) is Ok
            } else {
                lex(source) == Err::<Seq<TokenView>, LexError>(
                    LexError::UnclosedBracket(open.last()),
                )
            },
        },
{
    let c = Cursor::start(source);
    lemma_start_wf(source);
    lemma_run_outcome(c);
}

/// A source whose bytes are all known to the lexer is lexed without failure
/// exactly when its brackets are balanced.
pub proof fn lemma_accepted_iff_balanced(source: Seq<u8>)
    requires
        forall|i: int| 0 <= i < source.len() ==> is_recognized(#[trigger] source[i]),
    ensures
        lex(source) is Ok <==> balanced(source),
{
    lemma_brackets_decide(source);
    lemma_balanced_iff_none_open(source);
    if let Some(open) = unclosed(source) {
        if open.len() == 0 {
            assert(open =~= Seq::<Bracket>::empty());
        }
    }
}

/// Once the sequence has ended it stays ended: another step from where the
/// ending step left the cursor ends the sequence again and moves nothing.
pub proof fn lemma_end_is_final(c: Cursor)
    requires
        c.step() is End,
    ensures
        c.advance().step() is End,
        c.advance().advance() == c.advance(),
{
}

/// Words and numbers are as long as they can be. A token that begins with a
/// letter holds letters and digits only, is followed by neither, and is a
/// keyword only if all of it spells one. A token that begins with a digit
/// is an integer, holds digits only and is followed by none.
pub proof fn lemma_words_and_numbers_are_maximal(c: Cursor)
    ensures
        c.step() matches Step::Emit { token_type, start, end } ==> {
            &&& is_letter(c.source[start]) ==> {
                &&& token_type == word_kind(c.source.subrange(start, end))
                &&& forall|i: int| start <= i < end ==> ByteClass::Word.has(#[trigger] c.source[i])
                &&& end < c.source.len() ==> !ByteClass::Word.has(c.source[end])
            }
            &&& is_digit(c.source[start]) ==> {
                &&& token_type == TokenType::Integer
                &&& forall|i: int| start <= i < end ==> is_digit(#[trigger] c.source[i])
                &&& end < c.source.len() ==> !is_digit(c.source[end])
            }
        },
{
    lemma_step_bounds(c);
    let start = c.token_start();
    if 0 <= start < c.source.len() {
        lemma_run_end_maximal(c.source, start, ByteClass::Word);
        lemma_run_end_maximal(c.source, start, ByteClass::Digit);
        if let Step::Emit { token_type, start, end } = c.step() {
            if is_digit(c.source[start]) {
                assert forall|i: int| start <= i < end implies is_digit(#[trigger] c.source[i]) by {
                    assert(ByteClass::Digit.has(c.source[i]));
                }
            }
        }
    }
}

/// A source made of punctuation bytes and blanks only is lexed without
/// failure, and the texts of its tokens, joined, are the source without its
/// blanks.
pub proof fn lemma_punctuation_round_trip(source: Seq<u8>)
    requires
        forall|i: int|
            0 <= i < source.len() ==> is_blank(#[trigger] source[i]) || punctuation_of(source[i])
                is Some,
    ensures
        lex(source) matches Ok(tokens) && joined(tokens) == non_blank(source),
{
    let c = Cursor::start(source);
    lemma_start_wf(source);
    assert forall|i: int| 0 <= i < source.len() implies bracket_of(#[trigger] source[i]) is None by {
        assert(is_blank(source[i]) || punctuation_of(source[i]) is Some);
    }
    lemma_after_bytes_plain(Some(Seq::empty()), source);
    lemma_run_outcome(c);
    if let Some(LexError::UnknownToken(b)) = c.run().error {
        let i = choose|i: int|
            0 <= i < source.len() && #[trigger] source[i] == b && !is_recognized(b);
        assert(is_blank(source[i]) || punctuation_of(source[i]) is Some);
    }
    lemma_run_covers_source(c);
    assert(source.subrange(0, source.len() as int) =~= source);
}

/// Lexing looks at the bytes of a buffer and at nothing else: two buffers
/// that hold the same bytes yield the same kinds of tokens in the same
/// order, or the same failure.
pub proof fn lemma_lexing_depends_on_content(a: &[u8], b: &[u8])
    requires
        a@.len() == b@.len(),
        forall|i: int| 0 <= i < a@.len() ==> a@[i] == b@[i],
    ensures
        lex(a@) == lex(b@),
        kinds(Cursor::start(a@).run().tokens) == kinds(Cursor::start(b@).run().tokens),
        Cursor::start(a@).run().error == Cursor::start(b@).run().error,
{
    assert(a@ =~= b@);
}

} // verus!
