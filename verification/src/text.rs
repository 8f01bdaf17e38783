//! Line accounting for text fragments.

use vstd::prelude::*;
use vstd::std_specs::iter::IteratorSpec;
use vstd::utf8::encode_utf8;

verus! {

/// Number of line feeds in `s`.
pub open spec fn newline_count(s: Seq<char>) -> nat
    decreases s.len(),
{
    if s.len() == 0 {
        0
    } else {
        newline_count(s.drop_last()) + if s.last() == '\n' { 1nat } else { 0nat }
    }
}

/// Number of lines of `s`: every line feed ends a line, and the last line
/// need not be ended by one.
pub open spec fn line_count(s: Seq<char>) -> nat {
    newline_count(s) + if s.len() > 0 && s.last() != '\n' { 1nat } else { 0nat }
}

/// A text has no more line feeds than characters.
pub proof fn lemma_newline_count_bound(s: Seq<char>)
    ensures
        newline_count(s) <= s.len(),
        s.len() > 0 && s.last() != '\n' ==> newline_count(s) < s.len(),
    decreases s.len(),
{
    if s.len() > 0 {
        lemma_newline_count_bound(s.drop_last());
    }
}

/// Line feeds of a concatenation are those of its parts.
pub proof fn lemma_newline_count_concat(a: Seq<char>, b: Seq<char>)
    ensures
        newline_count(a + b) == newline_count(a) + newline_count(b),
    decreases b.len(),
{
    if b.len() == 0 {
        assert(a + b == a);
    } else {
        assert((a + b).drop_last() == a + b.drop_last());
        lemma_newline_count_concat(a, b.drop_last());
    }
}

/// The UTF-8 form of a text has at least one byte for each character.
pub proof fn lemma_utf8_len(chars: Seq<char>)
    ensures
        chars.len() <= encode_utf8(chars).len(),
    decreases chars.len(),
{
    if chars.len() > 0 {
        lemma_utf8_len(chars.drop_first());
    }
}

/// Establishes that the character count of `text` fits in `usize`.
pub(crate) fn char_len_fits(text: &str)
    ensures
        text@.len() <= usize::MAX,
{
    let bytes = text.as_bytes();
    let len = bytes.len();
    proof {
        lemma_utf8_len(text@);
        assert(bytes@.len() == len);
    }
}

/// Counts the lines of `text`, as `str::lines` yields them: a line ends at a
/// line feed, and what follows the last line feed is a line if it is not
/// empty.
pub fn count_lines_in_text(text: &str) -> (n: usize)
    ensures
        n == line_count(text@),
{
    char_len_fits(text);
    let mut ended: usize = 0;
    let mut pending: bool = false;
    let mut it = text.chars();
    let ghost mut seen: Seq<char> = Seq::empty();
    loop
        invariant
            it.obeys_prophetic_iter_laws(),
            it.decrease() is Some,
            seen + it.remaining() == text@,
            text@.len() <= usize::MAX,
            ended == newline_count(seen),
            pending == (seen.len() > 0 && seen.last() != '\n'),
        decreases it.decrease()->0,
    {
        let ghost rest = it.remaining();
        match it.next() {
            Some(c) => {
                proof {
                    lemma_newline_count_bound(seen);
                    assert(seen.push(c).drop_last() == seen);
                    assert(seen.push(c) + it.remaining() == seen + rest);
                    seen = seen.push(c);
                }
                if c == '\n' {
                    ended = ended + 1;
                    pending = false;
                } else {
                    pending = true;
                }
            },
            None => {
                proof {
                    assert(seen + it.remaining() == seen);
                    lemma_newline_count_bound(seen);
                }
                return if pending { ended + 1 } else { ended };
            },
        }
    }
}

} // verus!
