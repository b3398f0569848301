//! Byte classes, and runs of bytes of one class.

use vstd::prelude::*;

verus! {

/// Space, newline or tab: the bytes that separate tokens and belong to none.
pub open spec fn is_blank(b: u8) -> bool {
    b == ' ' as u8 || b == '\n' as u8 || b == '\t' as u8
}

/// An ASCII letter.
pub open spec fn is_letter(b: u8) -> bool {
    ('a' as u8 <= b && b <= 'z' as u8) || ('A' as u8 <= b && b <= 'Z' as u8)
}

/// An ASCII digit.
pub open spec fn is_digit(b: u8) -> bool {
    '0' as u8 <= b && b <= '9' as u8
}

/// A set of bytes that a run can be made of.
#[derive(Debug, PartialEq, Eq, Clone, Copy, Structural)]
pub enum ByteClass {
    /// Space, newline and tab.
    Blank,
    /// ASCII letters.
    Letter,
    /// ASCII digits.
    Digit,
    /// ASCII letters and digits.
    Word,
}

impl ByteClass {
    /// Whether `b` belongs to the class.
    pub open spec fn has(self, b: u8) -> bool {
        match self {
            ByteClass::Blank => is_blank(b),
            ByteClass::Letter => is_letter(b),
            ByteClass::Digit => is_digit(b),
            ByteClass::Word => is_letter(b) || is_digit(b),
        }
    }

    /// Tests whether `b` belongs to the class.
    pub fn contains(self, b: u8) -> (found: bool)
        ensures
            found == self.has(b),
    {
        match self {
            ByteClass::Blank => b == ' ' as u8 || b == '\n' as u8 || b == '\t' as u8,
            ByteClass::Letter => ('a' as u8 <= b && b <= 'z' as u8) || ('A' as u8 <= b && b <= 'Z' as u8),
            ByteClass::Digit => '0' as u8 <= b && b <= '9' as u8,
            ByteClass::Word => ('a' as u8 <= b && b <= 'z' as u8) || ('A' as u8 <= b && b <= 'Z' as u8)
                || ('0' as u8 <= b && b <= '9' as u8),
        }
    }
}

/// Where the run of `class` bytes that begins at `from` ends: the first index
/// at or after `from` that holds a byte outside the class, or the length of
/// `source` when there is none. Outside the source it is `from` itself.
pub open spec fn run_end(source: Seq<u8>, from: int, class: ByteClass) -> int
    decreases source.len() - from,
{
    if 0 <= from < source.len() && class.has(source[from]) {
        run_end(source, from + 1, class)
    } else {
        from
    }
}

/// A run is maximal: it stays inside the source, every byte of it belongs to
/// the class, and the byte after it, if there is one, does not.
pub proof fn lemma_run_end_maximal(source: Seq<u8>, from: int, class: ByteClass)
    ensures
        from <= run_end(source, from, class),
        0 <= from <= source.len() ==> run_end(source, from, class) <= source.len(),
        from < run_end(source, from, class) ==> 0 <= from && run_end(source, from, class)
            <= source.len(),
        forall|i: int| from <= i < run_end(source, from, class) ==> class.has(#[trigger] source[i]),
        !(0 <= run_end(source, from, class) < source.len() && class.has(
            source[run_end(source, from, class)],
        )),
    decreases source.len() - from,
{
    if 0 <= from < source.len() && class.has(source[from]) {
        lemma_run_end_maximal(source, from + 1, class);
    }
}

/// The end of a run is the only index with the properties of
/// [`lemma_run_end_maximal`].
pub proof fn lemma_run_end_unique(source: Seq<u8>, from: int, end: int, class: ByteClass)
    requires
        0 <= from <= end <= source.len(),
        forall|i: int| from <= i < end ==> class.has(#[trigger] source[i]),
        end < source.len() ==> !class.has(source[end]),
    ensures
        run_end(source, from, class) == end,
    decreases end - from,
{
    if from < end {
        assert(class.has(source[from]));
        lemma_run_end_unique(source, from + 1, end, class);
    }
}

/// Walks over the run of `class` bytes that begins at `from` and returns the
/// index at which it ends.
pub fn scan_run(source: &[u8], from: usize, class: ByteClass) -> (end: usize)
    ensures
        end == run_end(source@, from as int, class),
{
    let mut end: usize = from;
    while end < source.len() && class.contains(source[end])
        invariant
            from <= end,
            run_end(source@, end as int, class) == run_end(source@, from as int, class),
        decreases source.len() - end,
    {
        end += 1;
    }
    end
}

} // verus!
