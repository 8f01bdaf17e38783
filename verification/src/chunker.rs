//! Chunks: bounded fragments of a file's text with their embedding vectors.

use crate::text::{
    char_len_fits, lemma_newline_count_bound, lemma_newline_count_concat, newline_count,
};
use crate::vecs::reversed;
use vstd::prelude::*;
use vstd::std_specs::iter::IteratorSpec;

verus! {

/// Token budget of a chunk.
pub const MAX_TOKENS: usize = 100;

/// A fragment of a file: the line it starts at, its text, and its embedding.
///
/// A component of an embedding is an IEEE 754 single-precision number, held
/// by its bit pattern.
pub struct Chunk {
    pub line: usize,
    pub text: String,
    pub embeddings: Vec<u32>,
}

/// What a [`Chunk`] holds, as mathematical values.
pub struct ChunkView {
    pub line: usize,
    pub text: Seq<char>,
    pub embeddings: Seq<u32>,
}

impl View for Chunk {
    type V = ChunkView;

    open spec fn view(&self) -> ChunkView {
        ChunkView { line: self.line, text: self.text@, embeddings: self.embeddings@ }
    }
}

/// The views of a sequence of chunks.
pub open spec fn chunk_views(chunks: Seq<Chunk>) -> Seq<ChunkView> {
    chunks.map_values(|c: Chunk| c@)
}

impl Clone for Chunk {
    fn clone(&self) -> (out: Self)
        ensures
            out@ == self@,
    {
        Chunk { line: self.line, text: self.text.clone(), embeddings: self.embeddings.clone() }
    }
}

/// A piece of a file's text with the line at which it starts.
pub struct Segment {
    pub line: usize,
    pub text: String,
}

/// What a [`Segment`] holds, as mathematical values.
pub struct SegmentView {
    pub line: usize,
    pub text: Seq<char>,
}

impl View for Segment {
    type V = SegmentView;

    open spec fn view(&self) -> SegmentView {
        SegmentView { line: self.line, text: self.text@ }
    }
}

/// The views of a sequence of segments.
pub open spec fn segment_views(segments: Seq<Segment>) -> Seq<SegmentView> {
    segments.map_values(|s: Segment| s@)
}

/// The texts of a sequence of strings.
pub open spec fn texts(strings: Seq<String>) -> Seq<Seq<char>> {
    strings.map_values(|s: String| s@)
}

/// The contents of a sequence of vectors.
pub open spec fn contents(vectors: Seq<Vec<u32>>) -> Seq<Seq<u32>> {
    vectors.map_values(|v: Vec<u32>| v@)
}

/// A piece of a text: the position of its first character in the text, and
/// its characters.
pub type Piece = (usize, Seq<char>);

/// The pieces that a list of positions and strings stands for.
pub open spec fn piece_views(pieces: Seq<(usize, String)>) -> Seq<Piece> {
    pieces.map_values(|p: (usize, String)| (p.0, p.1@))
}

/// The position behind the last character of a piece.
pub open spec fn end_of(piece: Piece) -> int {
    piece.0 + piece.1.len()
}

/// Whether `piece` lies in `text` where it says: it is not empty, and the
/// text holds its characters from its position on.
pub open spec fn placed(text: Seq<char>, piece: Piece) -> bool {
    &&& piece.1.len() > 0
    &&& end_of(piece) <= text.len()
    &&& text.subrange(piece.0 as int, end_of(piece)) == piece.1
}

/// Whether `pieces` are pieces of `text` in the order of the text, none
/// reaching into the next.
pub open spec fn in_document_order(text: Seq<char>, pieces: Seq<Piece>) -> bool {
    &&& forall|i: int| 0 <= i < pieces.len() ==> placed(text, #[trigger] pieces[i])
    &&& forall|i: int, j: int|
        0 <= i < j < pieces.len() ==> end_of(#[trigger] pieces[i]) <= (#[trigger] pieces[j]).0
}

/// White space, as the Unicode standard has it: the characters with the
/// property `White_Space`.
pub open spec fn white_space(c: char) -> bool {
    let n = c as u32;
    ||| 0x09 <= n <= 0x0d
    ||| n == 0x20
    ||| n == 0x85
    ||| n == 0xa0
    ||| n == 0x1680
    ||| 0x2000 <= n <= 0x200a
    ||| n == 0x2028
    ||| n == 0x2029
    ||| n == 0x202f
    ||| n == 0x205f
    ||| n == 0x3000
}

/// Whether the character at `position` belongs to one of the first `count`
/// pieces.
pub open spec fn covered_by_first(pieces: Seq<Piece>, count: int, position: int) -> bool {
    exists|k: int| 0 <= k < count && (#[trigger] pieces[k]).0 <= position < end_of(pieces[k])
}

/// Whether the character at `position` belongs to one of the pieces.
pub open spec fn covered(pieces: Seq<Piece>, position: int) -> bool {
    covered_by_first(pieces, pieces.len() as int, position)
}

/// Whether `pieces` are cut from `text`: they are pieces of the text in its
/// order, none reaching into the next, and what they leave out of the text
/// is white space.
pub open spec fn cut_from(text: Seq<char>, pieces: Seq<Piece>) -> bool {
    &&& in_document_order(text, pieces)
    &&& forall|p: int|
        0 <= p < text.len() ==> white_space(#[trigger] text[p]) || covered(pieces, p)
}

/// The line of `text` in which the character at `position` stands, counted
/// from 1: one more than the line feeds before it.
pub open spec fn line_at(text: Seq<char>, position: int) -> nat {
    1 + newline_count(text.take(position))
}

/// The segments that `pieces` make: each with the line of `text` in which
/// it starts.
pub open spec fn located(text: Seq<char>, pieces: Seq<Piece>) -> Seq<SegmentView> {
    Seq::new(
        pieces.len(),
        |i: int|
            SegmentView { line: line_at(text, pieces[i].0 as int) as usize, text: pieces[i].1 },
    )
}

/// The length from which a run of white space is not given to the
/// tokenizer. The tokenizer's pattern matcher keeps an entry for each
/// white-space character of a run on a stack of a million entries, and the
/// tokenizer does not return where that stack is full. The limit keeps
/// clear of it.
pub const BLANK_RUN_LIMIT: usize = 900_000;

/// The number of white-space characters with which `s` ends.
pub open spec fn trailing_blanks(s: Seq<char>) -> nat
    decreases s.len(),
{
    if s.len() == 0 || !white_space(s.last()) {
        0
    } else {
        trailing_blanks(s.drop_last()) + 1
    }
}

/// Whether `text` holds a run of `limit` or more white-space characters, one
/// behind the other.
pub open spec fn has_blank_run(text: Seq<char>, limit: nat) -> bool {
    exists|i: int| 0 <= i <= text.len() && trailing_blanks(#[trigger] text.take(i)) >= limit
}

/// The pieces into which `text_splitter` cuts `text` under a budget of
/// `max_tokens` tokens of the `cl100k_base` tokenizer, each with the
/// position that the splitter reports for it, or `None` where that tokenizer
/// cannot be built.
pub uninterp spec fn token_chunks(text: Seq<char>, max_tokens: usize) -> Option<Seq<Piece>>;

/// The error of `anyhow`, in which the tokenizer's construction fails. It
/// is carried, never looked into.
#[verifier::external_type_specification]
#[verifier::external_body]
pub struct ExAnyhowError(anyhow::Error);

/// Builds the tokenizer with `tiktoken_rs::cl100k_base`, configures
/// `text_splitter::TextSplitter` with it through `ChunkConfig::new` and
/// `ChunkConfig::with_sizer`, and collects what
/// `TextSplitter::chunk_char_indices` yields: of each chunk its character
/// offset and its text.
///
/// Trusted: the outcome is a function of the text and the budget, named by
/// [`token_chunks`]; the error is that of the tokenizer's construction,
/// which reads nothing but data compiled into the crate. Nothing is claimed
/// of where the pieces lie: [`locate_segments`] finds that out.
///
/// Two kinds of input are kept from the call, because it does not return on
/// them. With a budget of zero the splitter subtracts from zero. With a run
/// of white space of about a million characters the tokenizer's pattern
/// matcher runs out of stack, and the tokenizer gives up.
#[verifier::external_body]
fn split_by_tokens(text: &str, max_tokens: usize) -> (out: Result<
    Vec<(usize, String)>,
    anyhow::Error,
>)
    requires
        max_tokens >= 1,
        !has_blank_run(text@, BLANK_RUN_LIMIT as nat),
    ensures
        out matches Ok(pieces) ==> token_chunks(text@, max_tokens) == Some(piece_views(pieces@)),
        out is Err ==> token_chunks(text@, max_tokens) is None,
{
    let tokenizer = tiktoken_rs::cl100k_base()?;
    let config = text_splitter::ChunkConfig::new(max_tokens).with_sizer(tokenizer);
    let splitter = text_splitter::TextSplitter::new(config);
    Ok(splitter.chunk_char_indices(text).map(|c| (c.char_offset, c.chunk.to_string())).collect())
}

/// Why a text could not be split.
#[derive(Clone, Copy, Debug, PartialEq, Eq, Structural)]
pub enum ChunkError {
    /// The budget is zero: no segment can be made.
    Budget,
    /// The text holds a run of white space that is too long to be split.
    Blank,
    /// The tokenizer could not be built.
    Tokenizer,
    /// What the splitter gave is not cut from the text.
    Misplaced,
}

/// The chunks made of `segments` and `vectors`, paired by position as far as
/// both reach.
pub open spec fn assembled(segments: Seq<SegmentView>, vectors: Seq<Seq<u32>>) -> Seq<ChunkView> {
    Seq::new(
        if segments.len() <= vectors.len() { segments.len() } else { vectors.len() },
        |i: int|
            ChunkView { line: segments[i].line, text: segments[i].text, embeddings: vectors[i] },
    )
}

/// A text without line feeds has every position in line 1.
pub proof fn lemma_line_without_newlines(text: Seq<char>, position: int)
    requires
        0 <= position <= text.len(),
        newline_count(text) == 0,
    ensures
        line_at(text, position) == 1,
{
    assert(text == text.take(position) + text.skip(position));
    lemma_newline_count_concat(text.take(position), text.skip(position));
}

/// Lines do not decrease along the text: a later position stands in the same
/// line or in a later one.
pub proof fn lemma_line_monotone(text: Seq<char>, first: int, second: int)
    requires
        0 <= first <= second <= text.len(),
    ensures
        line_at(text, first) <= line_at(text, second),
{
    let between = text.subrange(first, second);
    assert(text.take(second) == text.take(first) + between);
    lemma_newline_count_concat(text.take(first), between);
}

/// A piece that lies in a text starts in one of its lines: the line is at
/// most the length of the text.
pub proof fn lemma_line_of_placed(text: Seq<char>, piece: Piece)
    requires
        placed(text, piece),
    ensures
        line_at(text, piece.0 as int) <= text.len(),
{
    lemma_newline_count_bound(text.take(piece.0 as int));
}

/// Tells whether `c` is white space.
pub fn is_white_space(c: char) -> (out: bool)
    ensures
        out == white_space(c),
{
    let n = c as u32;
    (0x09 <= n && n <= 0x0d) || n == 0x20 || n == 0x85 || n == 0xa0 || n == 0x1680 || (0x2000 <= n
        && n <= 0x200a) || n == 0x2028 || n == 0x2029 || n == 0x202f || n == 0x205f || n == 0x3000
}

/// A character that belongs to one of some pieces belongs to one of more.
proof fn lemma_covered_by_more(pieces: Seq<Piece>, count: int, more: int, position: int)
    requires
        covered_by_first(pieces, count, position),
        count <= more,
    ensures
        covered_by_first(pieces, more, position),
{
    let k = choose|k: int|
        0 <= k < count && (#[trigger] pieces[k]).0 <= position < end_of(pieces[k]);
    assert(0 <= k < more && pieces[k].0 <= position < end_of(pieces[k]));
}

/// A character that is not white space, and that stands behind the first
/// `done` pieces and ahead of where the next one begins, shows that the
/// pieces are not cut from the text: it belongs to none of them.
proof fn lemma_left_out(text: Seq<char>, pieces: Seq<Piece>, done: int, position: int)
    requires
        0 <= done <= pieces.len(),
        0 <= position < text.len(),
        !white_space(text[position]),
        forall|k: int| 0 <= k < done ==> end_of(#[trigger] pieces[k]) <= position,
        done < pieces.len() ==> position < pieces[done].0,
    ensures
        !cut_from(text, pieces),
{
    if cut_from(text, pieces) {
        assert forall|k: int| 0 <= k < pieces.len() implies !((#[trigger] pieces[k]).0
            <= position < end_of(pieces[k])) by {
            if k > done {
                assert(placed(text, pieces[done]));
                assert(end_of(pieces[done]) <= pieces[k].0);
            }
        }
        assert(white_space(text[position]) || covered(pieces, position));
    }
}

/// Checks that `pieces` are cut from `text`, and gives each the line of the
/// text in which it starts.
///
/// Returns `None` where a piece is empty, does not lie in the text at its
/// position, or begins before the piece ahead of it has ended, and where
/// the pieces leave out a character that is not white space.
pub fn locate_segments(text: &str, pieces: Vec<(usize, String)>) -> (out: Option<Vec<Segment>>)
    ensures
        match out {
            Some(segments) => cut_from(text@, piece_views(pieces@)) && segment_views(segments@)
                == located(text@, piece_views(pieces@)),
            None => !cut_from(text@, piece_views(pieces@)),
        },
{
    let ghost all = piece_views(pieces@);
    let count = pieces.len();
    let mut rest = reversed(pieces);
    let mut out: Vec<Segment> = Vec::new();
    let mut it = text.chars();
    let ghost mut seen: Seq<char> = Seq::empty();
    let mut pos: usize = 0;
    let mut feeds: usize = 0;
    char_len_fits(text);
    proof {
        assert forall|j: int| 0 <= j < rest@.len() implies {
            &&& (#[trigger] rest@[j]).0 == all[count - 1 - j].0
            &&& rest@[j].1@ == all[count - 1 - j].1
        } by {
            assert(rest@[j] == pieces@[count - 1 - j]);
        }
    }
    while rest.len() > 0
        invariant
            it.obeys_prophetic_iter_laws(),
            it.decrease() is Some,
            seen + it.remaining() == text@,
            text@.len() <= usize::MAX,
            pos == seen.len(),
            feeds == newline_count(seen),
            all == piece_views(pieces@),
            count == all.len(),
            out.len() + rest.len() == count,
            forall|j: int|
                0 <= j < rest@.len() ==> {
                    &&& (#[trigger] rest@[j]).0 == all[count - 1 - j].0
                    &&& rest@[j].1@ == all[count - 1 - j].1
                },
            out.len() == 0 ==> pos == 0,
            out.len() > 0 ==> pos == end_of(all[out.len() - 1]),
            forall|k: int| 0 <= k < out.len() ==> placed(text@, #[trigger] all[k]),
            forall|a: int, b: int|
                0 <= a < b < out.len() ==> end_of(#[trigger] all[a]) <= (#[trigger] all[b]).0,
            forall|k: int| 0 <= k < out.len() ==> end_of(#[trigger] all[k]) <= pos,
            forall|p: int|
                0 <= p < pos ==> white_space(#[trigger] text@[p]) || covered_by_first(
                    all,
                    out.len() as int,
                    p,
                ),
            forall|k: int|
                0 <= k < out.len() ==> (#[trigger] out@[k])@ == located(text@, all)[k],
        decreases rest.len(),
    {
        let ghost i = out.len() as int;
        let ghost behind = rest@;
        let (start, piece) = rest.pop().unwrap();
        proof {
            assert(behind[rest.len() as int] == (start, piece));
            assert(all[i].0 == start && all[i].1 == piece@);
        }
        if start < pos {
            proof {
                assert(i > 0);
                assert(end_of(all[i - 1]) > all[i].0);
            }
            return None;
        }
        while pos < start
            invariant
                it.obeys_prophetic_iter_laws(),
                it.decrease() is Some,
                seen + it.remaining() == text@,
                text@.len() <= usize::MAX,
                pos == seen.len(),
                pos <= start,
                feeds == newline_count(seen),
                all == piece_views(pieces@),
                all[i].0 == start,
                0 <= i < all.len(),
                forall|k: int| 0 <= k < i ==> end_of(#[trigger] all[k]) <= pos,
                forall|p: int|
                    0 <= p < pos ==> white_space(#[trigger] text@[p]) || covered_by_first(
                        all,
                        i,
                        p,
                    ),
            decreases start - pos,
        {
            let ghost ahead = it.remaining();
            match it.next() {
                Some(c) => {
                    proof {
                        lemma_newline_count_bound(seen);
                        assert(seen.push(c).drop_last() == seen);
                        assert(seen.push(c) + it.remaining() == seen + ahead);
                        assert(text@[pos as int] == c);
                    }
                    if !is_white_space(c) {
                        proof {
                            lemma_left_out(text@, all, i, pos as int);
                        }
                        return None;
                    }
                    proof {
                        seen = seen.push(c);
                    }
                    if c == '\n' {
                        feeds = feeds + 1;
                    }
                    pos = pos + 1;
                },
                None => {
                    proof {
                        assert(seen + it.remaining() == seen);
                        assert(!placed(text@, all[i]));
                    }
                    return None;
                },
            }
        }
        let before = feeds;
        let ghost front = seen;
        let mut pit = piece.as_str().chars();
        let ghost mut matched: Seq<char> = Seq::empty();
        proof {
            assert(front + matched == front);
            assert(front == text@.take(start as int));
        }
        loop
            invariant
                it.obeys_prophetic_iter_laws(),
                it.decrease() is Some,
                pit.obeys_prophetic_iter_laws(),
                pit.decrease() is Some,
                seen + it.remaining() == text@,
                text@.len() <= usize::MAX,
                pos == seen.len(),
                feeds == newline_count(seen),
                matched + pit.remaining() == piece@,
                seen == front + matched,
                front.len() == start,
                front == text@.take(start as int),
                before == newline_count(front),
                all == piece_views(pieces@),
                all[i].0 == start,
                all[i].1 == piece@,
                0 <= i < all.len(),
            ensures
                matched == piece@,
            decreases pit.decrease()->0,
        {
            let ghost ahead = it.remaining();
            let ghost rest_of_piece = pit.remaining();
            match pit.next() {
                Some(c) => {
                    proof {
                        assert(matched.push(c) + pit.remaining() == matched + rest_of_piece);
                        assert(piece@[matched.len() as int] == c);
                    }
                    match it.next() {
                        Some(t) => {
                            proof {
                                lemma_newline_count_bound(seen);
                                assert(seen.push(t).drop_last() == seen);
                                assert(seen.push(t) + it.remaining() == seen + ahead);
                                assert(text@[start + matched.len()] == t);
                            }
                            if t != c {
                                proof {
                                    if end_of(all[i]) <= text@.len() {
                                        let slice = text@.subrange(start as int, end_of(all[i]));
                                        assert(slice[matched.len() as int] == t);
                                    }
                                    assert(!placed(text@, all[i]));
                                }
                                return None;
                            }
                            proof {
                                assert(front + matched.push(c) == (front + matched).push(t));
                                seen = seen.push(t);
                                matched = matched.push(c);
                            }
                            if t == '\n' {
                                feeds = feeds + 1;
                            }
                            pos = pos + 1;
                        },
                        None => {
                            proof {
                                assert(seen + it.remaining() == seen);
                                assert(end_of(all[i]) > text@.len());
                                assert(!placed(text@, all[i]));
                            }
                            return None;
                        },
                    }
                },
                None => {
                    proof {
                        assert(matched + pit.remaining() == matched);
                    }
                    break;
                },
            }
        }
        if pos == start {
            proof {
                assert(!placed(text@, all[i]));
            }
            return None;
        }
        proof {
            assert(end_of(all[i]) == pos);
            assert(text@.subrange(start as int, pos as int) =~= matched);
            assert(placed(text@, all[i]));
            lemma_line_of_placed(text@, all[i]);
        }
        let ghost listed = out@;
        out.push(Segment { line: before + 1, text: piece });
        proof {
            assert(out@[i]@ == located(text@, all)[i]);
            assert forall|k: int| 0 <= k < out@.len() implies (#[trigger] out@[k])@ == located(
                text@,
                all,
            )[k] by {
                if k < i {
                    assert(out@[k] == listed[k]);
                }
            }
            assert forall|a: int, b: int| 0 <= a < b < out@.len() implies end_of(
                #[trigger] all[a],
            ) <= (#[trigger] all[b]).0 by {
                if b == i {
                    assert(end_of(all[a]) <= start);
                }
            }
            assert forall|p: int| 0 <= p < pos implies white_space(#[trigger] text@[p])
                || covered_by_first(all, i + 1, p) by {
                if p < start {
                    if !white_space(text@[p]) {
                        lemma_covered_by_more(all, i, i + 1, p);
                    }
                } else {
                    assert(all[i].0 <= p < end_of(all[i]));
                }
            }
        }
    }
    loop
        invariant
            it.obeys_prophetic_iter_laws(),
            it.decrease() is Some,
            seen + it.remaining() == text@,
            all == piece_views(pieces@),
            count == all.len(),
            out.len() == count,
            forall|k: int| 0 <= k < count ==> placed(text@, #[trigger] all[k]),
            forall|a: int, b: int|
                0 <= a < b < count ==> end_of(#[trigger] all[a]) <= (#[trigger] all[b]).0,
            forall|k: int| 0 <= k < count ==> end_of(#[trigger] all[k]) <= seen.len(),
            forall|p: int|
                0 <= p < seen.len() ==> white_space(#[trigger] text@[p]) || covered(all, p),
            forall|k: int| 0 <= k < count ==> (#[trigger] out@[k])@ == located(text@, all)[k],
        ensures
            seen == text@,
        decreases it.decrease()->0,
    {
        let ghost ahead = it.remaining();
        match it.next() {
            Some(c) => {
                proof {
                    assert(seen.push(c) + it.remaining() == seen + ahead);
                    assert(text@[seen.len() as int] == c);
                }
                if !is_white_space(c) {
                    proof {
                        lemma_left_out(text@, all, count as int, seen.len() as int);
                    }
                    return None;
                }
                proof {
                    seen = seen.push(c);
                }
            },
            None => {
                proof {
                    assert(seen + it.remaining() == seen);
                }
                break;
            },
        }
    }
    proof {
        assert(segment_views(out@) =~= located(text@, all));
    }
    Some(out)
}

/// Tells whether `text` holds a run of white space that is too long to be
/// split: [`BLANK_RUN_LIMIT`] white-space characters, or more, one behind
/// the other.
pub fn has_long_blank_run(text: &str) -> (out: bool)
    ensures
        out == has_blank_run(text@, BLANK_RUN_LIMIT as nat),
{
    let ghost limit = BLANK_RUN_LIMIT as nat;
    let mut run: usize = 0;
    let mut it = text.chars();
    let ghost mut seen: Seq<char> = Seq::empty();
    proof {
        assert(seen.take(0) =~= seen);
    }
    loop
        invariant
            it.obeys_prophetic_iter_laws(),
            it.decrease() is Some,
            seen + it.remaining() == text@,
            limit == BLANK_RUN_LIMIT,
            run == trailing_blanks(seen),
            forall|i: int| 0 <= i <= seen.len() ==> trailing_blanks(#[trigger] seen.take(i)) < limit,
        decreases it.decrease()->0,
    {
        let ghost ahead = it.remaining();
        match it.next() {
            Some(c) => {
                let ghost more = seen.push(c);
                proof {
                    assert(more + it.remaining() == seen + ahead);
                    assert(more.drop_last() == seen);
                    assert(seen.take(seen.len() as int) == seen);
                    assert(more.take(more.len() as int) == more);
                    assert forall|i: int| 0 <= i <= seen.len() implies #[trigger] more.take(i)
                        == seen.take(i) by {
                        assert(more.take(i) =~= seen.take(i));
                    }
                }
                if is_white_space(c) {
                    run = run + 1;
                    if run >= BLANK_RUN_LIMIT {
                        proof {
                            assert(text@.take(more.len() as int) =~= more);
                        }
                        return true;
                    }
                } else {
                    run = 0;
                }
                proof {
                    assert forall|i: int| 0 <= i <= more.len() implies trailing_blanks(
                        #[trigger] more.take(i),
                    ) < limit by {
                        if i <= seen.len() {
                            assert(more.take(i) == seen.take(i));
                        }
                    }
                    seen = more;
                }
            },
            None => {
                proof {
                    assert(seen + it.remaining() == seen);
                }
                return false;
            },
        }
    }
}

/// What splitting `text` under a budget of `max_tokens` tokens gives: the
/// segments, or the reason why there are none.
///
/// A budget of zero and a run of white space of [`BLANK_RUN_LIMIT`]
/// characters or more are refused. What the splitter makes of the other
/// texts must be cut from the text; the segments are then its pieces, each
/// with the line of the text in which it starts.
pub open spec fn split_of(text: Seq<char>, max_tokens: usize) -> Result<Seq<SegmentView>, ChunkError> {
    if max_tokens == 0 {
        Err(ChunkError::Budget)
    } else if has_blank_run(text, BLANK_RUN_LIMIT as nat) {
        Err(ChunkError::Blank)
    } else {
        match token_chunks(text, max_tokens) {
            None => Err(ChunkError::Tokenizer),
            Some(pieces) => if cut_from(text, pieces) {
                Ok(located(text, pieces))
            } else {
                Err(ChunkError::Misplaced)
            },
        }
    }
}

/// Segments have nothing in common and leave nothing out: where a text is
/// split, the splitter's pieces are cut from it, and an empty text has no
/// segment.
pub proof fn lemma_split_cuts(text: Seq<char>, max_tokens: usize)
    requires
        split_of(text, max_tokens) is Ok,
    ensures
        token_chunks(text, max_tokens) matches Some(pieces) && cut_from(text, pieces) && split_of(
            text,
            max_tokens,
        ) == Ok::<Seq<SegmentView>, ChunkError>(located(text, pieces)),
        text.len() == 0 ==> split_of(text, max_tokens)->Ok_0.len() == 0,
{
    let pieces = token_chunks(text, max_tokens)->0;
    if text.len() == 0 && pieces.len() > 0 {
        assert(placed(text, pieces[0]));
    }
}

/// Splits `text` into segments on semantic boundaries, under a budget of
/// `max_tokens` tokens, and gives each the line of the text in which it
/// starts.
///
/// The segments are non-empty pieces of the text, in its order and without
/// overlap, and between them they leave out nothing but white space; an
/// empty text has none. How the budget bears on a segment is the splitter's
/// affair: it keeps to the budget where it can divide the text further.
/// What the splitter gives is checked against the text: pieces that are not
/// cut from it in this way are refused. So are a budget of zero and a text
/// with a run of white space that is too long, before the splitter is
/// asked.
pub fn split(text: &str, max_tokens: usize) -> (out: Result<Vec<Segment>, ChunkError>)
    ensures
        match out {
            Ok(segments) => split_of(text@, max_tokens) == Ok::<Seq<SegmentView>, ChunkError>(
                segment_views(segments@),
            ),
            Err(e) => split_of(text@, max_tokens) == Err::<Seq<SegmentView>, ChunkError>(e),
        },
{
    if max_tokens == 0 {
        return Err(ChunkError::Budget);
    }
    if has_long_blank_run(text) {
        return Err(ChunkError::Blank);
    }
    match split_by_tokens(text, max_tokens) {
        Ok(pieces) => match locate_segments(text, pieces) {
            Some(segments) => Ok(segments),
            None => Err(ChunkError::Misplaced),
        },
        Err(_) => Err(ChunkError::Tokenizer),
    }
}

/// Pairs each segment with its vector, by position. Where the two lists
/// differ in length, the shorter one decides how many chunks there are.
pub fn assemble_chunks(segments: &Vec<Segment>, vectors: &Vec<Vec<u32>>) -> (out: Vec<Chunk>)
    ensures
        chunk_views(out@) == assembled(segment_views(segments@), contents(vectors@)),
{
    let ghost segs = segment_views(segments@);
    let ghost vecs = contents(vectors@);
    let count = if segments.len() <= vectors.len() { segments.len() } else { vectors.len() };
    let mut out: Vec<Chunk> = Vec::new();
    let mut i: usize = 0;
    while i < count
        invariant
            i <= count,
            count <= segments.len(),
            count <= vectors.len(),
            segs == segment_views(segments@),
            vecs == contents(vectors@),
            out.len() == i,
            forall|j: int| 0 <= j < i ==> (#[trigger] out@[j])@ == assembled(segs, vecs)[j],
        decreases count - i,
    {
        let segment = &segments[i];
        let ghost earlier = out@;
        assert(segs[i as int] == segment@);
        assert(vecs[i as int] == vectors@[i as int]@);
        out.push(
            Chunk { line: segment.line, text: segment.text.clone(), embeddings: vectors[i].clone() },
        );
        assert forall|j: int| 0 <= j < i + 1 implies (#[trigger] out@[j])@ == assembled(
            segs,
            vecs,
        )[j] by {
            if j < i {
                assert(out@[j] == earlier[j]);
            }
        }
        i = i + 1;
    }
    assert(chunk_views(out@) =~= assembled(segs, vecs));
    out
}

} // verus!
