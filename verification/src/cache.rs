//! The embedding cache's entries: chunk lists as bytes, and back.

use crate::chunker::{chunk_views, Chunk, ChunkView};
use crate::vecs::reversed;
use vstd::prelude::*;

verus! {

/// A chunk as an entry holds it: the start line, the text, the vector.
pub type Record = (u64, Seq<char>, Seq<u32>);

/// The bytes that `bincode` writes for a list of records, or `None` where
/// it refuses to write them.
pub uninterp spec fn bincode_written(records: Seq<Record>) -> Option<Seq<u8>>;

/// The records that `bincode` reads from `bytes`, or `None` where the bytes
/// do not hold a list of records.
pub uninterp spec fn bincode_read(bytes: Seq<u8>) -> Option<Seq<Record>>;

/// The error of `bincode`, in which writing and reading fail. It is
/// carried, never looked into.
#[verifier::external_type_specification]
#[verifier::external_body]
pub struct ExBincodeErrorKind(bincode::ErrorKind);

/// The record that stands for a chunk.
pub open spec fn record_of(chunk: ChunkView) -> Record {
    (chunk.line as u64, chunk.text, chunk.embeddings)
}

/// The records that stand for a list of chunks.
pub open spec fn records_of(chunks: Seq<ChunkView>) -> Seq<Record> {
    chunks.map_values(|c: ChunkView| record_of(c))
}

/// Calls `bincode::serialize` on the chunks, each handed over as the tuple
/// of its line, its text and its vector.
///
/// Trusted: the outcome, the bytes or the refusal, is a function of the
/// records, named by [`bincode_written`]. Nothing is claimed of what the
/// bytes hold: [`encode_entry`] reads them back.
#[verifier::external_body]
fn write_records(chunks: &Vec<Chunk>) -> (out: Result<Vec<u8>, Box<bincode::ErrorKind>>)
    ensures
        out matches Ok(bytes) ==> bincode_written(records_of(chunk_views(chunks@))) == Some(bytes@),
        out is Err ==> bincode_written(records_of(chunk_views(chunks@))) is None,
{
    let records: Vec<(u64, &str, &[u32])> = chunks.iter().map(
        |c| (c.line as u64, c.text.as_str(), c.embeddings.as_slice()),
    ).collect();
    bincode::serialize(&records)
}

/// Calls `bincode::deserialize` for a list of tuples of a line, a text and a
/// vector.
///
/// Trusted: the outcome, the records or the refusal, is a function of the
/// bytes, named by [`bincode_read`].
#[verifier::external_body]
fn read_records(bytes: &[u8]) -> (out: Result<Vec<(u64, String, Vec<u32>)>, Box<bincode::ErrorKind>>)
    ensures
        out matches Ok(records) ==> bincode_read(bytes@) == Some(records.deep_view()),
        out is Err ==> bincode_read(bytes@) is None,
{
    bincode::deserialize(bytes)
}

/// The chunk for which a record stands, where its line fits in `usize`.
pub open spec fn chunk_of(record: Record) -> ChunkView {
    ChunkView { line: record.0 as usize, text: record.1, embeddings: record.2 }
}

/// The chunks for which a list of records stands, or `None` where the line
/// of one of them does not fit in `usize`.
pub open spec fn chunks_of(records: Seq<Record>) -> Option<Seq<ChunkView>> {
    if forall|i: int| 0 <= i < records.len() ==> (#[trigger] records[i]).0 <= usize::MAX {
        Some(records.map_values(|r: Record| chunk_of(r)))
    } else {
        None
    }
}

/// The chunks that a cache entry holds, or `None` where the bytes are no
/// entry: a damaged file, or one of another format.
pub open spec fn entry_chunks(bytes: Seq<u8>) -> Option<Seq<ChunkView>> {
    match bincode_read(bytes) {
        Some(records) => chunks_of(records),
        None => None,
    }
}

/// The bytes of the cache entry for `chunks`: what is written for their
/// records, where that reads back as the same chunks. `None` where nothing
/// is written, or where what is written does not read back.
pub open spec fn entry_bytes(chunks: Seq<ChunkView>) -> Option<Seq<u8>> {
    match bincode_written(records_of(chunks)) {
        Some(bytes) => if entry_chunks(bytes) == Some(chunks) {
            Some(bytes)
        } else {
            None
        },
        None => None,
    }
}

/// An entry reads back as the chunks it was written for: the same lines,
/// texts and vectors, in the same order.
pub proof fn lemma_entry_round_trip(chunks: Seq<ChunkView>)
    ensures
        entry_bytes(chunks) matches Some(bytes) ==> entry_chunks(bytes) == Some(chunks),
{
}

fn same_vector(first: &Vec<u32>, second: &Vec<u32>) -> (out: bool)
    ensures
        out == (first@ == second@),
{
    if first.len() != second.len() {
        return false;
    }
    let mut i: usize = 0;
    while i < first.len()
        invariant
            i <= first.len(),
            first.len() == second.len(),
            forall|j: int| 0 <= j < i ==> first@[j] == second@[j],
        decreases first.len() - i,
    {
        if first[i] != second[i] {
            return false;
        }
        i = i + 1;
    }
    assert(first@ =~= second@);
    true
}

fn same_chunks(first: &Vec<Chunk>, second: &Vec<Chunk>) -> (out: bool)
    ensures
        out == (chunk_views(first@) == chunk_views(second@)),
{
    if first.len() != second.len() {
        assert(chunk_views(first@).len() != chunk_views(second@).len());
        return false;
    }
    let mut i: usize = 0;
    while i < first.len()
        invariant
            i <= first.len(),
            first.len() == second.len(),
            forall|j: int| 0 <= j < i ==> first@[j]@ == second@[j]@,
        decreases first.len() - i,
    {
        let a = &first[i];
        let b = &second[i];
        let same = a.line == b.line && a.text == b.text && same_vector(&a.embeddings, &b.embeddings);
        if !same {
            proof {
                assert(chunk_views(first@)[i as int] == a@);
                assert(chunk_views(second@)[i as int] == b@);
            }
            return false;
        }
        i = i + 1;
    }
    assert(chunk_views(first@) =~= chunk_views(second@));
    true
}

/// Writes the cache entry for `chunks`.
///
/// What was written is read back before it is handed out: bytes that do not
/// read back as the same chunks are withheld.
pub fn encode_entry(chunks: &Vec<Chunk>) -> (out: Option<Vec<u8>>)
    ensures
        match out {
            Some(bytes) => entry_bytes(chunk_views(chunks@)) == Some(bytes@),
            None => entry_bytes(chunk_views(chunks@)) is None,
        },
{
    match write_records(chunks) {
        Ok(bytes) => match decode_entry(bytes.as_slice()) {
            Some(read) => if same_chunks(chunks, &read) {
                Some(bytes)
            } else {
                None
            },
            None => None,
        },
        Err(_) => None,
    }
}

/// Reads a cache entry.
///
/// Returns the chunks that the entry holds, as they were written; `None`
/// where the bytes are no entry.
pub fn decode_entry(bytes: &[u8]) -> (out: Option<Vec<Chunk>>)
    ensures
        match out {
            Some(chunks) => entry_chunks(bytes@) == Some(chunk_views(chunks@)),
            None => entry_chunks(bytes@) is None,
        },
{
    match read_records(bytes) {
        Ok(records) => {
            let ghost all = records.deep_view();
            let mut rest = records;
            let mut backwards: Vec<Chunk> = Vec::new();
            while rest.len() > 0
                invariant
                    bincode_read(bytes@) == Some(all),
                    rest.len() <= all.len(),
                    rest.deep_view() == all.take(rest.len() as int),
                    backwards.len() + rest.len() == all.len(),
                    forall|i: int| rest.len() <= i < all.len() ==> (#[trigger] all[i]).0 <= usize::MAX,
                    forall|j: int|
                        0 <= j < backwards.len() ==> (#[trigger] backwards@[j])@ == chunk_of(
                            all[all.len() - 1 - j],
                        ),
                decreases rest.len(),
            {
                let ghost before = rest;
                let record = rest.pop().unwrap();
                proof {
                    let m = rest.len() as int;
                    assert(before.deep_view()[m] == record.deep_view());
                    assert(all[m] == record.deep_view());
                    assert(rest.deep_view() =~= all.take(m));
                    assert(record.2.deep_view() =~= record.2@);
                    assert(all[m] == (record.0, record.1@, record.2@));
                }
                if record.0 > usize::MAX as u64 {
                    return None;
                }
                let ghost earlier = backwards@;
                let chunk = Chunk { line: record.0 as usize, text: record.1, embeddings: record.2 };
                assert(chunk@ == chunk_of(all[rest.len() as int]));
                backwards.push(chunk);
                assert forall|j: int| 0 <= j < backwards@.len() implies (#[trigger] backwards@[j])@
                    == chunk_of(all[all.len() - 1 - j]) by {
                    if j < earlier.len() {
                        assert(backwards@[j] == earlier[j]);
                    }
                }
            }
            let out = reversed(backwards);
            proof {
                assert forall|i: int| 0 <= i < out@.len() implies (#[trigger] out@[i])@
                    == chunk_of(all[i]) by {
                    assert(out@[i] == backwards@[all.len() - 1 - i]);
                }
                assert(chunk_views(out@) =~= all.map_values(|r: Record| chunk_of(r)));
            }
            Some(out)
        },
        Err(_) => None,
    }
}

} // verus!
