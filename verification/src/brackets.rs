//! Bracket nesting, told of bytes alone: which brackets a sequence of bytes
//! leaves open, and when a sequence is balanced.

use crate::token::{bracket_of, Bracket, BracketState};
use vstd::prelude::*;

verus! {

/// What the byte `b` does to the open brackets, innermost last. An opener is
/// pushed, a closer takes the innermost bracket off if that is of its own
/// family, and any other byte leaves the brackets alone. `None` stands for
/// nesting that has gone wrong: a closer met a bracket of another family or
/// none at all, and nothing that follows can mend it.
pub open spec fn after_byte(open: Option<Seq<Bracket>>, b: u8) -> Option<Seq<Bracket>> {
    match open {
        None => None,
        Some(stack) => match bracket_of(b) {
            None => Some(stack),
            Some((family, BracketState::Open)) => Some(stack.push(family)),
            Some((family, BracketState::Close)) => if stack.len() > 0 && stack.last() == family {
                Some(stack.drop_last())
            } else {
                None
            },
        },
    }
}

/// What `bytes`, read from left to right, do to the open brackets.
pub open spec fn after_bytes(open: Option<Seq<Bracket>>, bytes: Seq<u8>) -> Option<Seq<Bracket>>
    decreases bytes.len(),
{
    if bytes.len() == 0 {
        open
    } else {
        after_byte(after_bytes(open, bytes.drop_last()), bytes.last())
    }
}

/// The brackets that `bytes` leave open, innermost last, or `None` if a
/// closer in them meets the wrong bracket or none.
pub open spec fn unclosed(bytes: Seq<u8>) -> Option<Seq<Bracket>> {
    after_bytes(Some(Seq::empty()), bytes)
}

/// Whether `b` is the closing bracket of `family`.
pub open spec fn is_closer(b: u8, family: Bracket) -> bool {
    bracket_of(b) == Some((family, BracketState::Close))
}

/// Whether every opening bracket in `s` has a matching, correctly nested
/// closer of its own family, and every closer closes an opener. A sequence is
/// balanced if it is empty, if it is a byte that is no bracket followed by a
/// balanced sequence, or if it is an opener, a balanced sequence, the closer
/// of the opener's family and a balanced sequence again.
pub open spec fn balanced(s: Seq<u8>) -> bool
    decreases s.len(),
{
    if s.len() == 0 {
        true
    } else {
        match bracket_of(s[0]) {
            None => balanced(s.skip(1)),
            Some((_, BracketState::Close)) => false,
            Some((family, BracketState::Open)) => exists|k: int|
                0 < k < s.len() && #[trigger] is_closer(s[k], family) && balanced(s.subrange(1, k))
                    && balanced(s.skip(k + 1)),
        }
    }
}

/// Once the nesting has gone wrong it stays wrong.
pub proof fn lemma_after_bytes_none(bytes: Seq<u8>)
    ensures
        after_bytes(None, bytes) is None,
    decreases bytes.len(),
{
    if bytes.len() > 0 {
        lemma_after_bytes_none(bytes.drop_last());
    }
}

/// Reading `a` and then `b` is reading `a + b`.
pub proof fn lemma_after_bytes_concat(open: Option<Seq<Bracket>>, a: Seq<u8>, b: Seq<u8>)
    ensures
        after_bytes(open, a + b) == after_bytes(after_bytes(open, a), b),
    decreases b.len(),
{
    if b.len() == 0 {
        assert(a + b =~= a);
    } else {
        lemma_after_bytes_concat(open, a, b.drop_last());
        assert((a + b).drop_last() =~= a + b.drop_last());
        assert((a + b).last() == b.last());
    }
}

/// Reading one byte is applying it.
pub proof fn lemma_after_bytes_one(open: Option<Seq<Bracket>>, b: u8)
    ensures
        after_bytes(open, seq![b]) == after_byte(open, b),
{
    let one = seq![b];
    assert(one.drop_last() =~= Seq::<u8>::empty());
    assert(after_bytes(open, one.drop_last()) == open);
    assert(one.last() == b);
}

/// Bytes that are no brackets leave the open brackets as they are.
pub proof fn lemma_after_bytes_plain(open: Option<Seq<Bracket>>, bytes: Seq<u8>)
    requires
        forall|i: int| 0 <= i < bytes.len() ==> bracket_of(#[trigger] bytes[i]) is None,
    ensures
        after_bytes(open, bytes) == open,
    decreases bytes.len(),
{
    if bytes.len() > 0 {
        let front = bytes.drop_last();
        assert forall|i: int| 0 <= i < front.len() implies bracket_of(#[trigger] front[i]) is None by {
            assert(front[i] == bytes[i]);
        }
        lemma_after_bytes_plain(open, front);
        assert(bracket_of(bytes[bytes.len() - 1]) is None);
    }
}

/// What the first `j` bytes of `source` leave open is what the bytes from `i`
/// up to `j` make of what the first `i` bytes leave open.
pub proof fn lemma_unclosed_extend(source: Seq<u8>, i: int, j: int)
    requires
        0 <= i <= j <= source.len(),
    ensures
        unclosed(source.take(j)) == after_bytes(unclosed(source.take(i)), source.subrange(i, j)),
{
    assert(source.take(j) =~= source.take(i) + source.subrange(i, j));
    lemma_after_bytes_concat(Some(Seq::empty()), source.take(i), source.subrange(i, j));
}

/// Bytes that are no brackets change nothing in what a source leaves open.
pub proof fn lemma_unclosed_plain(source: Seq<u8>, i: int, j: int)
    requires
        0 <= i <= j <= source.len(),
        forall|k: int| i <= k < j ==> bracket_of(#[trigger] source[k]) is None,
    ensures
        unclosed(source.take(j)) == unclosed(source.take(i)),
{
    lemma_unclosed_extend(source, i, j);
    let stretch = source.subrange(i, j);
    assert forall|k: int| 0 <= k < stretch.len() implies bracket_of(#[trigger] stretch[k]) is None by {
        assert(stretch[k] == source[i + k]);
    }
    lemma_after_bytes_plain(unclosed(source.take(i)), stretch);
}

/// One more byte of the source is applied to what the bytes before it leave
/// open.
pub proof fn lemma_unclosed_next(source: Seq<u8>, i: int)
    requires
        0 <= i < source.len(),
    ensures
        unclosed(source.take(i + 1)) == after_byte(unclosed(source.take(i)), source[i]),
{
    lemma_unclosed_extend(source, i, i + 1);
    assert(source.subrange(i, i + 1) =~= seq![source[i]]);
    lemma_after_bytes_one(unclosed(source.take(i)), source[i]);
}

/// A balanced sequence leaves the open brackets as it found them.
pub proof fn lemma_balanced_restores(stack: Seq<Bracket>, s: Seq<u8>)
    requires
        balanced(s),
    ensures
        after_bytes(Some(stack), s) == Some(stack),
    decreases s.len(),
{
    if s.len() > 0 {
        let first = seq![s[0]];
        lemma_after_bytes_one(Some(stack), s[0]);
        match bracket_of(s[0]) {
            None => {
                assert(s =~= first + s.skip(1));
                lemma_after_bytes_concat(Some(stack), first, s.skip(1));
                lemma_balanced_restores(stack, s.skip(1));
            },
            Some((_, BracketState::Close)) => {},
            Some((family, BracketState::Open)) => {
                let k = choose|k: int|
                    0 < k < s.len() && #[trigger] is_closer(s[k], family) && balanced(
                        s.subrange(1, k),
                    ) && balanced(s.skip(k + 1));
                let inner = s.subrange(1, k);
                let closer = seq![s[k]];
                let rest = s.skip(k + 1);
                let opened = stack.push(family);
                assert(s =~= ((first + inner) + closer) + rest);
                lemma_after_bytes_concat(Some(stack), (first + inner) + closer, rest);
                lemma_after_bytes_concat(Some(stack), first + inner, closer);
                lemma_after_bytes_concat(Some(stack), first, inner);
                lemma_balanced_restores(opened, inner);
                lemma_after_bytes_one(Some(opened), s[k]);
                assert(opened.drop_last() =~= stack);
                lemma_balanced_restores(stack, rest);
            },
        }
    }
}

/// A balanced sequence leaves no bracket open.
pub proof fn lemma_balanced_leaves_none_open(s: Seq<u8>)
    requires
        balanced(s),
    ensures
        unclosed(s) == Some(Seq::<Bracket>::empty()),
{
    lemma_balanced_restores(Seq::empty(), s);
}

/// What a source leaves open is what its bytes after the first make of what
/// the first byte alone leaves open.
pub proof fn lemma_unclosed_first(s: Seq<u8>)
    requires
        s.len() > 0,
    ensures
        unclosed(s) == after_bytes(after_byte(Some(Seq::empty()), s[0]), s.skip(1)),
{
    assert(s =~= seq![s[0]] + s.skip(1));
    lemma_after_bytes_concat(Some(Seq::empty()), seq![s[0]], s.skip(1));
    lemma_after_bytes_one(Some(Seq::empty()), s[0]);
}

/// In a sequence that begins with an opener and leaves no bracket open, the
/// opener has its closer: an index `k` that holds the closer of its family,
/// with nothing left open by the bytes between the two nor by the bytes
/// that follow.
///
/// The search stands at index `at`, where the bytes after the opener have
/// left `inner` open and the opener itself is still open beneath them.
proof fn lemma_closer_of_first(
    s: Seq<u8>,
    family: Bracket,
    at: int,
    inner: Seq<Bracket>,
) -> (k: int)
    requires
        1 <= at <= s.len(),
        bracket_of(s[0]) == Some((family, BracketState::Open)),
        unclosed(s) == Some(Seq::<Bracket>::empty()),
        unclosed(s.subrange(1, at)) == Some(inner),
        unclosed(s.take(at)) == Some(seq![family] + inner),
    ensures
        at <= k < s.len(),
        is_closer(s[k], family),
        unclosed(s.subrange(1, k)) == Some(Seq::<Bracket>::empty()),
        unclosed(s.skip(k + 1)) == Some(Seq::<Bracket>::empty()),
    decreases s.len() - at,
{
    let len = s.len() as int;
    let outer = seq![family] + inner;
    if at == len {
        // The whole of `s` would leave the opener open.
        assert(s.take(len) =~= s);
        assert(outer.len() > 0);
        at
    } else {
        let b = s[at];
        lemma_unclosed_next(s, at);
        lemma_unclosed_extend(s, at + 1, len);
        assert(s.take(len) =~= s);
        if unclosed(s.take(at + 1)) is None {
            lemma_after_bytes_none(s.subrange(at + 1, len));
        }
        let body = s.subrange(1, len);
        assert(body.take(at - 1) =~= s.subrange(1, at));
        assert(body.take(at) =~= s.subrange(1, at + 1));
        assert(body[at - 1] == b);
        lemma_unclosed_next(body, at - 1);
        match bracket_of(b) {
            None => lemma_closer_of_first(s, family, at + 1, inner),
            Some((opened, BracketState::Open)) => {
                assert(outer.push(opened) =~= seq![family] + inner.push(opened));
                lemma_closer_of_first(s, family, at + 1, inner.push(opened))
            },
            Some((closed, BracketState::Close)) => {
                if inner.len() == 0 {
                    assert(outer.last() == family);
                    assert(outer.drop_last() =~= Seq::<Bracket>::empty());
                    assert(inner =~= Seq::<Bracket>::empty());
                    assert(s.subrange(at + 1, len) =~= s.skip(at + 1));
                    at
                } else {
                    assert(outer.last() == inner.last());
                    assert(outer.drop_last() =~= seq![family] + inner.drop_last());
                    lemma_closer_of_first(s, family, at + 1, inner.drop_last())
                }
            },
        }
    }
}

/// A sequence that leaves no bracket open, and whose nesting never goes
/// wrong, is balanced.
pub proof fn lemma_none_open_is_balanced(s: Seq<u8>)
    requires
        unclosed(s) == Some(Seq::<Bracket>::empty()),
    ensures
        balanced(s),
    decreases s.len(),
{
    if s.len() > 0 {
        lemma_unclosed_first(s);
        match bracket_of(s[0]) {
            None => {
                lemma_none_open_is_balanced(s.skip(1));
            },
            Some((_, BracketState::Close)) => {
                lemma_after_bytes_none(s.skip(1));
            },
            Some((family, BracketState::Open)) => {
                assert(s.subrange(1, 1) =~= Seq::<u8>::empty());
                assert(s.take(1) =~= seq![s[0]]);
                lemma_after_bytes_one(Some(Seq::empty()), s[0]);
                assert(Seq::<Bracket>::empty().push(family) =~= seq![family] + Seq::<
                    Bracket,
                >::empty());
                let k = lemma_closer_of_first(s, family, 1, Seq::empty());
                lemma_none_open_is_balanced(s.subrange(1, k));
                lemma_none_open_is_balanced(s.skip(k + 1));
                assert(is_closer(s[k], family));
            },
        }
    }
}

/// The two ways of telling that brackets nest correctly agree: a sequence is
/// balanced exactly when reading it from left to right never goes wrong and
/// leaves no bracket open.
pub proof fn lemma_balanced_iff_none_open(s: Seq<u8>)
    ensures
        balanced(s) <==> unclosed(s) == Some(Seq::<Bracket>::empty()),
{
    if balanced(s) {
        lemma_balanced_leaves_none_open(s);
    }
    if unclosed(s) == Some(Seq::<Bracket>::empty()) {
        lemma_none_open_is_balanced(s);
    }
}

} // verus!
