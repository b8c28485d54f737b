//! Word lists: one word per line of a text.
use vstd::prelude::*;
use crate::feedback::WORD_LEN;
use crate::solve::{all_valid, words_view};

verus! {

/// The text of the line that runs from `start` to the newline at `end` (or
/// to the end of the text), without a carriage return just before a newline.
pub open spec fn line_text(t: Seq<char>, start: int, end: int) -> Seq<char> {
    if end < t.len() && start < end && t[end - 1] == '\r' {
        t.subrange(start, end - 1)
    } else {
        t.subrange(start, end)
    }
}

/// The lines of `t` whose first begins at `start`, scanning from `j`.
pub open spec fn lines_from(t: Seq<char>, start: int, j: int) -> Seq<Seq<char>>
    decreases t.len() - j,
{
    if j >= t.len() {
        if start < t.len() {
            seq![line_text(t, start, t.len() as int)]
        } else {
            Seq::empty()
        }
    } else if t[j] == '\n' {
        seq![line_text(t, start, j)] + lines_from(t, j + 1, j + 1)
    } else {
        lines_from(t, start, j + 1)
    }
}

/// The lines of `t`: split at each newline, a final newline ending the last
/// line rather than starting an empty one.
pub open spec fn lines(t: Seq<char>) -> Seq<Seq<char>> {
    lines_from(t, 0, 0)
}

/// Relies on `str::lines`, documented to split at `\n` and at `\r\n`, to
/// leave the line endings out, and to treat a final line ending as optional.
#[verifier::external_body]
fn split_lines(text: &str) -> (r: Vec<&str>)
    ensures
        words_view(r@) == lines(text@),
{
    text.lines().collect()
}

/// The allowed guesses listed in `text`, one per line.
pub fn guesses(text: &str) -> (r: Vec<&str>)
    ensures
        words_view(r@) == lines(text@),
{
    split_lines(text)
}

/// The possible answers listed in `text`, one per line.
pub fn answers(text: &str) -> (r: Vec<&str>)
    ensures
        words_view(r@) == lines(text@),
{
    split_lines(text)
}

/// Whether every word of `ws` has `WORD_LEN` letters.
pub fn valid_words(ws: &[&str]) -> (r: bool)
    ensures
        r == all_valid(ws@),
{
    let mut i: usize = 0;
    while i < ws.len()
        invariant
            i <= ws@.len(),
            forall|j: int| 0 <= j < i ==> (#[trigger] ws@[j])@.len() == WORD_LEN,
        decreases ws@.len() - i,
    {
        if ws[i].unicode_len() != WORD_LEN {
            return false;
        }
        i += 1;
    }
    true
}

} // verus!
