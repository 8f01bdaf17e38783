//! The work on one file, from its text to its chunks: what is decided after
//! each step of outside work, and what is asked for next.
//!
//! The caller does the outside work (it reads the file, looks the cache
//! entry up, asks the embedding backend, writes the entry) and reports each
//! outcome as an [`Event`]; [`step`] decides how the [`Job`] goes on.

use crate::cache::{decode_entry, encode_entry, entry_bytes, entry_chunks};
use crate::chunker::{
    assemble_chunks, assembled, chunk_views, contents, segment_views, split, split_of, Chunk,
    ChunkError, ChunkView, Segment, SegmentView, MAX_TOKENS,
};
use crate::fingerprint::{
    cache_file_name, cache_name_of, fingerprint_of, lemma_entry_name_injective,
};
use vstd::prelude::*;

verus! {

/// Why the work on a file was given up.
#[derive(Clone, Copy, Debug, PartialEq, Eq, Structural)]
pub enum Failure {
    /// The cache entry is there, but could not be read.
    Entry,
    /// There is no budget of tokens for a segment.
    Budget,
    /// The text holds a run of white space that is too long to be split.
    Blank,
    /// The tokenizer could not be built.
    Tokenizer,
    /// What the splitter gave is not cut from the text.
    Misplaced,
    /// The embedding backend failed on the file's segments.
    Backend,
    /// An event was reported that the job was not waiting for.
    Unexpected,
}

/// Where the work on a file stands.
pub enum Job {
    /// Waiting for the file's text.
    Reading,
    /// Waiting for the bytes of cache entry `name`.
    Looking { text: String, name: String },
    /// Waiting for the damaged cache entry `name` to be removed.
    Clearing { text: String, name: String },
    /// Waiting for the vectors of `segments`.
    Embedding { name: String, segments: Vec<Segment> },
    /// Waiting for `bytes` to be written as cache entry `name`.
    Storing { name: String, bytes: Vec<u8>, chunks: Vec<Chunk> },
    /// The file's chunks are known.
    Done { chunks: Vec<Chunk> },
    /// The work was given up.
    Failed { reason: Failure },
}

/// What a [`Job`] holds, as mathematical values.
pub enum JobView {
    Reading,
    Looking { text: Seq<char>, name: Seq<char> },
    Clearing { text: Seq<char>, name: Seq<char> },
    Embedding { name: Seq<char>, segments: Seq<SegmentView> },
    Storing { name: Seq<char>, bytes: Seq<u8>, chunks: Seq<ChunkView> },
    Done { chunks: Seq<ChunkView> },
    Failed { reason: Failure },
}

impl View for Job {
    type V = JobView;

    open spec fn view(&self) -> JobView {
        match *self {
            Job::Reading => JobView::Reading,
            Job::Looking { text, name } => JobView::Looking { text: text@, name: name@ },
            Job::Clearing { text, name } => JobView::Clearing { text: text@, name: name@ },
            Job::Embedding { name, segments } => JobView::Embedding {
                name: name@,
                segments: segment_views(segments@),
            },
            Job::Storing { name, bytes, chunks } => JobView::Storing {
                name: name@,
                bytes: bytes@,
                chunks: chunk_views(chunks@),
            },
            Job::Done { chunks } => JobView::Done { chunks: chunk_views(chunks@) },
            Job::Failed { reason } => JobView::Failed { reason },
        }
    }
}

/// The outcome of a step of outside work.
pub enum Event {
    /// The file was read: its text, or `None` where it could not be read as
    /// text.
    Source(Option<String>),
    /// The cache entry was looked up: its bytes, or `None` where there is
    /// none.
    Entry(Option<Vec<u8>>),
    /// The cache entry is there, but reading it failed.
    Unreadable,
    /// The removal of the damaged entry was tried.
    Removed,
    /// The backend was asked for the vectors of the segments: one vector for
    /// each segment, in their order, or `None` where it failed.
    Vectors(Option<Vec<Vec<u32>>>),
    /// The writing of the entry was tried.
    Stored,
}

/// What an [`Event`] holds, as mathematical values.
pub enum EventView {
    Source(Option<Seq<char>>),
    Entry(Option<Seq<u8>>),
    Unreadable,
    Removed,
    Vectors(Option<Seq<Seq<u32>>>),
    Stored,
}

impl View for Event {
    type V = EventView;

    open spec fn view(&self) -> EventView {
        match *self {
            Event::Source(Some(text)) => EventView::Source(Some(text@)),
            Event::Source(None) => EventView::Source(None),
            Event::Entry(Some(bytes)) => EventView::Entry(Some(bytes@)),
            Event::Entry(None) => EventView::Entry(None),
            Event::Unreadable => EventView::Unreadable,
            Event::Removed => EventView::Removed,
            Event::Vectors(Some(vectors)) => EventView::Vectors(Some(contents(vectors@))),
            Event::Vectors(None) => EventView::Vectors(None),
            Event::Stored => EventView::Stored,
        }
    }
}

/// The outside work that a job waits for.
#[derive(Clone, Copy, Debug, PartialEq, Eq, Structural)]
pub enum Action {
    /// Read the file.
    ReadSource,
    /// Read the cache entry of the job's name.
    ReadEntry,
    /// Remove the cache entry of the job's name.
    RemoveEntry,
    /// Ask the backend for the vectors of the job's segments, in one batch.
    Embed,
    /// Write the job's bytes as the cache entry of the job's name.
    WriteEntry,
    /// Nothing: the job has ended.
    Nothing,
}

/// The outside work that `job` waits for.
pub open spec fn awaited(job: JobView) -> Action {
    match job {
        JobView::Reading => Action::ReadSource,
        JobView::Looking { .. } => Action::ReadEntry,
        JobView::Clearing { .. } => Action::RemoveEntry,
        JobView::Embedding { .. } => Action::Embed,
        JobView::Storing { .. } => Action::WriteEntry,
        JobView::Done { .. } => Action::Nothing,
        JobView::Failed { .. } => Action::Nothing,
    }
}

/// Why a file is given up when its text cannot be split.
pub open spec fn failure_of(error: ChunkError) -> Failure {
    match error {
        ChunkError::Budget => Failure::Budget,
        ChunkError::Blank => Failure::Blank,
        ChunkError::Tokenizer => Failure::Tokenizer,
        ChunkError::Misplaced => Failure::Misplaced,
    }
}

/// How a job goes on when its text has no usable cache entry: the text is
/// split, and the vectors of the segments are waited for. A text that cannot
/// be split has its file given up.
pub open spec fn after_miss(text: Seq<char>, name: Seq<char>) -> JobView {
    match split_of(text, MAX_TOKENS) {
        Ok(segments) => JobView::Embedding { name, segments },
        Err(error) => JobView::Failed { reason: failure_of(error) },
    }
}

/// How a job goes on when the vectors have come: the chunks are assembled,
/// and their entry waits to be written, where there is one that reads back
/// as these chunks.
pub open spec fn after_vectors(
    name: Seq<char>,
    segments: Seq<SegmentView>,
    vectors: Seq<Seq<u32>>,
) -> JobView {
    let chunks = assembled(segments, vectors);
    match entry_bytes(chunks) {
        Some(bytes) => JobView::Storing { name, bytes, chunks },
        None => JobView::Done { chunks },
    }
}

/// The job that follows `job` on `event`.
///
/// - A file that cannot be read has no chunks.
/// - A cache entry that reads as a chunk list ends the job with these chunks.
/// - A cache entry that does not is removed, and the job goes on as if there
///   had been none.
/// - A cache entry that is there and cannot be read has the file given up.
/// - Without an entry the text is split, its segments are embedded in one
///   batch, and the chunks are written as the entry.
/// - A file whose text cannot be split, or whose vectors the backend does
///   not give, is given up; so is one for which an event comes that is not
///   waited for.
/// - Whether the removal or the writing succeeded does not matter to the
///   chunks.
/// - A job that has ended stays as it is.
pub open spec fn next(job: JobView, event: EventView) -> JobView {
    match job {
        JobView::Reading => match event {
            EventView::Source(Some(text)) => JobView::Looking { text, name: cache_name_of(text) },
            EventView::Source(None) => JobView::Done { chunks: Seq::empty() },
            _ => JobView::Failed { reason: Failure::Unexpected },
        },
        JobView::Looking { text, name } => match event {
            EventView::Entry(Some(bytes)) => match entry_chunks(bytes) {
                Some(chunks) => JobView::Done { chunks },
                None => JobView::Clearing { text, name },
            },
            EventView::Entry(None) => after_miss(text, name),
            EventView::Unreadable => JobView::Failed { reason: Failure::Entry },
            _ => JobView::Failed { reason: Failure::Unexpected },
        },
        JobView::Clearing { text, name } => match event {
            EventView::Removed => after_miss(text, name),
            _ => JobView::Failed { reason: Failure::Unexpected },
        },
        JobView::Embedding { name, segments } => match event {
            EventView::Vectors(Some(vectors)) => after_vectors(name, segments, vectors),
            EventView::Vectors(None) => JobView::Failed { reason: Failure::Backend },
            _ => JobView::Failed { reason: Failure::Unexpected },
        },
        JobView::Storing { name, bytes, chunks } => match event {
            EventView::Stored => JobView::Done { chunks },
            _ => JobView::Failed { reason: Failure::Unexpected },
        },
        JobView::Done { chunks } => JobView::Done { chunks },
        JobView::Failed { reason } => JobView::Failed { reason },
    }
}

impl Job {
    /// A job at its start: it waits for the file's text.
    pub fn new() -> (out: Job)
        ensures
            out@ == JobView::Reading,
    {
        Job::Reading
    }

    /// The outside work that the job waits for.
    pub fn action(&self) -> (out: Action)
        ensures
            out == awaited(self@),
    {
        match self {
            Job::Reading => Action::ReadSource,
            Job::Looking { .. } => Action::ReadEntry,
            Job::Clearing { .. } => Action::RemoveEntry,
            Job::Embedding { .. } => Action::Embed,
            Job::Storing { .. } => Action::WriteEntry,
            Job::Done { .. } => Action::Nothing,
            Job::Failed { .. } => Action::Nothing,
        }
    }
}

fn miss(text: String, name: String) -> (out: Job)
    ensures
        out@ == after_miss(text@, name@),
{
    match split(text.as_str(), MAX_TOKENS) {
        Ok(segments) => Job::Embedding { name, segments },
        Err(ChunkError::Budget) => Job::Failed { reason: Failure::Budget },
        Err(ChunkError::Blank) => Job::Failed { reason: Failure::Blank },
        Err(ChunkError::Tokenizer) => Job::Failed { reason: Failure::Tokenizer },
        Err(ChunkError::Misplaced) => Job::Failed { reason: Failure::Misplaced },
    }
}

/// Decides how `job` goes on when `event` is reported.
pub fn step(job: Job, event: Event) -> (out: Job)
    ensures
        out@ == next(job@, event@),
{
    match job {
        Job::Reading => match event {
            Event::Source(Some(text)) => {
                let name = cache_file_name(text.as_str());
                Job::Looking { text, name }
            },
            Event::Source(None) => {
                let chunks: Vec<Chunk> = Vec::new();
                assert(chunk_views(chunks@) =~= Seq::empty());
                Job::Done { chunks }
            },
            _ => Job::Failed { reason: Failure::Unexpected },
        },
        Job::Looking { text, name } => match event {
            Event::Entry(Some(bytes)) => match decode_entry(bytes.as_slice()) {
                Some(chunks) => Job::Done { chunks },
                None => Job::Clearing { text, name },
            },
            Event::Entry(None) => miss(text, name),
            Event::Unreadable => Job::Failed { reason: Failure::Entry },
            _ => Job::Failed { reason: Failure::Unexpected },
        },
        Job::Clearing { text, name } => match event {
            Event::Removed => miss(text, name),
            _ => Job::Failed { reason: Failure::Unexpected },
        },
        Job::Embedding { name, segments } => match event {
            Event::Vectors(Some(vectors)) => {
                let chunks = assemble_chunks(&segments, &vectors);
                match encode_entry(&chunks) {
                    Some(bytes) => Job::Storing { name, bytes, chunks },
                    None => Job::Done { chunks },
                }
            },
            Event::Vectors(None) => Job::Failed { reason: Failure::Backend },
            _ => Job::Failed { reason: Failure::Unexpected },
        },
        Job::Storing { name, bytes, chunks } => match event {
            Event::Stored => Job::Done { chunks },
            _ => Job::Failed { reason: Failure::Unexpected },
        },
        Job::Done { chunks } => Job::Done { chunks },
        Job::Failed { reason } => Job::Failed { reason },
    }
}

/// A changed file does not get the chunks of the old one. Where two texts
/// differ in their fingerprints, their jobs ask for entries of different
/// names, and the job on the second text, finding no entry of its own, goes
/// on to split and embed that text and to write under its own name.
pub proof fn lemma_changed_text_other_entry(first: Seq<char>, second: Seq<char>)
    requires
        fingerprint_of(first) != fingerprint_of(second),
    ensures
        cache_name_of(first) != cache_name_of(second),
        next(JobView::Reading, EventView::Source(Some(second))) == (JobView::Looking {
            text: second,
            name: cache_name_of(second),
        }),
        next(
            JobView::Looking { text: second, name: cache_name_of(second) },
            EventView::Entry(None),
        ) == after_miss(second, cache_name_of(second)),
        after_miss(second, cache_name_of(second)) is Embedding ==> after_miss(
            second,
            cache_name_of(second),
        )->Embedding_name == cache_name_of(second) && Ok::<Seq<SegmentView>, ChunkError>(
            after_miss(second, cache_name_of(second))->Embedding_segments,
        ) == split_of(second, MAX_TOKENS),
{
    if cache_name_of(first) == cache_name_of(second) {
        lemma_entry_name_injective(fingerprint_of(first), fingerprint_of(second));
    }
}

/// An entry that reads as a chunk list is used as it is: the job ends with
/// these chunks, and asks neither for vectors nor for the entry to be
/// written again.
pub proof fn lemma_valid_entry_ends_job(text: Seq<char>, name: Seq<char>, bytes: Seq<u8>)
    requires
        entry_chunks(bytes) is Some,
    ensures
        next(JobView::Looking { text, name }, EventView::Entry(Some(bytes))) == (JobView::Done {
            chunks: entry_chunks(bytes)->0,
        }),
        awaited(next(JobView::Looking { text, name }, EventView::Entry(Some(bytes))))
            == Action::Nothing,
{
}

/// What a job on its way from the vectors waits to write reads back as the
/// chunks that the job ends with.
pub proof fn lemma_stored_entry_reads_back(
    name: Seq<char>,
    segments: Seq<SegmentView>,
    vectors: Seq<Seq<u32>>,
)
    ensures
        ({
            let storing = next(
                JobView::Embedding { name, segments },
                EventView::Vectors(Some(vectors)),
            );
            storing is Storing ==> {
                &&& storing->Storing_name == name
                &&& storing->Storing_chunks == assembled(segments, vectors)
                &&& entry_chunks(storing->Storing_bytes) == Some(storing->Storing_chunks)
                &&& next(storing, EventView::Stored) == (JobView::Done {
                    chunks: storing->Storing_chunks,
                })
            }
        }),
{
}

/// An unchanged file is not embedded again. Where the job on a text has
/// written an entry, a later job on the same text asks for the entry of the
/// same name, and finding what was written it ends at once, with the same
/// chunks and without asking for vectors.
pub proof fn lemma_unchanged_file_hits_cache(text: Seq<char>, vectors: Seq<Seq<u32>>)
    ensures
        ({
            let looking = next(JobView::Reading, EventView::Source(Some(text)));
            let embedding = next(looking, EventView::Entry(None));
            let storing = next(embedding, EventView::Vectors(Some(vectors)));
            let again = next(looking, EventView::Entry(Some(storing->Storing_bytes)));
            embedding is Embedding && storing is Storing ==> {
                &&& looking is Looking
                &&& looking->Looking_name == storing->Storing_name
                &&& next(storing, EventView::Stored) == (JobView::Done {
                    chunks: storing->Storing_chunks,
                })
                &&& again == (JobView::Done { chunks: storing->Storing_chunks })
                &&& awaited(again) == Action::Nothing
            }
        }),
{
}

/// A damaged entry is replaced. Bytes that are no entry have the entry
/// removed and the text embedded as if there had been none; what is then
/// written, under the same name, reads back as the chunks that the job ends
/// with.
pub proof fn lemma_damaged_entry_is_replaced(
    text: Seq<char>,
    name: Seq<char>,
    damaged: Seq<u8>,
    vectors: Seq<Seq<u32>>,
)
    requires
        entry_chunks(damaged) is None,
    ensures
        ({
            let clearing = next(JobView::Looking { text, name }, EventView::Entry(Some(damaged)));
            let embedding = next(clearing, EventView::Removed);
            let storing = next(embedding, EventView::Vectors(Some(vectors)));
            &&& clearing == (JobView::Clearing { text, name })
            &&& awaited(clearing) == Action::RemoveEntry
            &&& embedding == next(JobView::Looking { text, name }, EventView::Entry(None))
            &&& embedding is Embedding && storing is Storing ==> {
                &&& storing->Storing_name == name
                &&& entry_chunks(storing->Storing_bytes) == Some(storing->Storing_chunks)
                &&& next(storing, EventView::Stored) == (JobView::Done {
                    chunks: storing->Storing_chunks,
                })
            }
        }),
{
}

} // verus!
