//! A search over many files: which files have chunks to offer, which chunks
//! stand for ranking, and the ranked results.

use crate::chunker::{chunk_views, contents, texts, Chunk, ChunkView};
use crate::pipeline::{Job, JobView};
use crate::rank::{
    printable_views, rank, ranked, scored_views, PrintableChunk, ScoredChunk, ScoredView,
};
use crate::vecs::reversed;
use vstd::prelude::*;

verus! {

/// A file and its chunks.
pub struct FileChunks {
    pub path: String,
    pub chunks: Vec<Chunk>,
}

/// What a [`FileChunks`] holds, as mathematical values.
pub struct FileChunksView {
    pub path: Seq<char>,
    pub chunks: Seq<ChunkView>,
}

impl View for FileChunks {
    type V = FileChunksView;

    open spec fn view(&self) -> FileChunksView {
        FileChunksView { path: self.path@, chunks: chunk_views(self.chunks@) }
    }
}

/// The views of a sequence of files.
pub open spec fn file_views(files: Seq<FileChunks>) -> Seq<FileChunksView> {
    files.map_values(|f: FileChunks| f@)
}

/// A file and the job that worked on it.
pub struct FileJob {
    pub path: String,
    pub job: Job,
}

/// What a [`FileJob`] holds, as mathematical values.
pub struct FileJobView {
    pub path: Seq<char>,
    pub job: JobView,
}

impl View for FileJob {
    type V = FileJobView;

    open spec fn view(&self) -> FileJobView {
        FileJobView { path: self.path@, job: self.job@ }
    }
}

/// The views of a sequence of jobs.
pub open spec fn job_views(jobs: Seq<FileJob>) -> Seq<FileJobView> {
    jobs.map_values(|j: FileJob| j@)
}

/// The files whose job is done, with their chunks, in the order of the jobs.
pub open spec fn completed(jobs: Seq<FileJobView>) -> Seq<FileChunksView>
    decreases jobs.len(),
{
    if jobs.len() == 0 {
        Seq::empty()
    } else {
        match jobs[0].job {
            JobView::Done { chunks } => seq![FileChunksView { path: jobs[0].path, chunks }]
                + completed(jobs.drop_first()),
            _ => completed(jobs.drop_first()),
        }
    }
}

/// The paths of the files whose job is not done, in the order of the jobs.
pub open spec fn abandoned(jobs: Seq<FileJobView>) -> Seq<Seq<char>>
    decreases jobs.len(),
{
    if jobs.len() == 0 {
        Seq::empty()
    } else {
        match jobs[0].job {
            JobView::Done { .. } => abandoned(jobs.drop_first()),
            _ => seq![jobs[0].path] + abandoned(jobs.drop_first()),
        }
    }
}

/// What is left of a run's jobs: the files that have chunks to offer, and
/// the paths of those that were given up.
pub struct Gathered {
    pub files: Vec<FileChunks>,
    pub failed: Vec<String>,
}

/// Every job is counted once: it is done or it is abandoned.
pub proof fn lemma_gather_counts(jobs: Seq<FileJobView>)
    ensures
        completed(jobs).len() + abandoned(jobs).len() == jobs.len(),
    decreases jobs.len(),
{
    if jobs.len() > 0 {
        lemma_gather_counts(jobs.drop_first());
    }
}

/// Parts the jobs of a run: the files whose job is done keep their chunks,
/// the others are listed by path. Both lists are in the order of the jobs. A
/// file that failed takes nothing from the others.
pub fn gather(jobs: Vec<FileJob>) -> (out: Gathered)
    ensures
        file_views(out.files@) == completed(job_views(jobs@)),
        texts(out.failed@) == abandoned(job_views(jobs@)),
{
    let ghost all = job_views(jobs@);
    let mut rest = jobs;
    let mut files: Vec<FileChunks> = Vec::new();
    let mut failed: Vec<String> = Vec::new();
    proof {
        assert(all.skip(all.len() as int) =~= Seq::empty());
        assert(file_views(files@).reverse() =~= Seq::empty());
        assert(texts(failed@).reverse() =~= Seq::empty());
    }
    while rest.len() > 0
        invariant
            rest.len() <= all.len(),
            job_views(rest@) == all.take(rest.len() as int),
            file_views(files@).reverse() == completed(all.skip(rest.len() as int)),
            texts(failed@).reverse() == abandoned(all.skip(rest.len() as int)),
        decreases rest.len(),
    {
        let ghost before = rest@;
        let ghost done = file_views(files@);
        let ghost lost = texts(failed@);
        let entry = rest.pop().unwrap();
        proof {
            let m = rest.len() as int;
            assert(job_views(before)[m] == entry@);
            assert(all[m] == entry@);
            assert(job_views(rest@) =~= all.take(m));
            assert(all.skip(m).drop_first() =~= all.skip(m + 1));
            assert(all.skip(m)[0] == entry@);
        }
        match entry.job {
            Job::Done { chunks } => {
                files.push(FileChunks { path: entry.path, chunks });
                proof {
                    let added = file_views(files@);
                    assert(added =~= done.push(added.last()));
                    assert(added.reverse() =~= seq![added.last()] + done.reverse());
                }
            },
            _ => {
                failed.push(entry.path);
                proof {
                    let added = texts(failed@);
                    assert(added =~= lost.push(added.last()));
                    assert(added.reverse() =~= seq![added.last()] + lost.reverse());
                }
            },
        }
    }
    proof {
        assert(all.skip(0) =~= all);
    }
    let ghost files_back = files@;
    let ghost failed_back = failed@;
    let files = reversed(files);
    let failed = reversed(failed);
    proof {
        assert(file_views(files@) =~= file_views(files_back).reverse());
        assert(texts(failed@) =~= texts(failed_back).reverse());
    }
    Gathered { files, failed }
}

/// The candidates that a file offers: each chunk with the similarity at its
/// position, as far as both lists reach.
pub open spec fn scored(file: FileChunksView, similarities: Seq<u32>) -> Seq<ScoredView> {
    Seq::new(
        if file.chunks.len() <= similarities.len() {
            file.chunks.len()
        } else {
            similarities.len()
        },
        |i: int|
            ScoredView {
                file: file.path,
                line: file.chunks[i].line,
                chunk: file.chunks[i].text,
                dimension: file.chunks[i].embeddings.len() as usize,
                similarity: similarities[i],
            },
    )
}

/// The candidates that the first `count` files offer, file after file.
pub open spec fn candidates_of_first(
    files: Seq<FileChunksView>,
    similarities: Seq<Seq<u32>>,
    count: int,
) -> Seq<ScoredView>
    decreases count,
{
    if count <= 0 {
        Seq::empty()
    } else {
        candidates_of_first(files, similarities, count - 1) + scored(
            files[count - 1],
            similarities[count - 1],
        )
    }
}

/// The candidates of a search, in the order in which they are seen: file
/// after file, and within a file chunk after chunk. A file takes part as far
/// as there is a list of similarities for it.
pub open spec fn candidates_of(files: Seq<FileChunksView>, similarities: Seq<Seq<u32>>) -> Seq<
    ScoredView,
> {
    candidates_of_first(
        files,
        similarities,
        if files.len() <= similarities.len() {
            files.len() as int
        } else {
            similarities.len() as int
        },
    )
}

/// Lists the candidates of a search: for each file, each chunk with the
/// similarity that `similarities` holds for it, in the order of the files
/// and of their chunks.
pub fn candidates(files: &Vec<FileChunks>, similarities: &Vec<Vec<u32>>) -> (out: Vec<ScoredChunk>)
    ensures
        scored_views(out@) == candidates_of(
            file_views(files@),
            contents(similarities@),
        ),
{
    let ghost fs = file_views(files@);
    let ghost ss = contents(similarities@);
    let count = if files.len() <= similarities.len() { files.len() } else { similarities.len() };
    let mut out: Vec<ScoredChunk> = Vec::new();
    let mut f: usize = 0;
    proof {
        assert(scored_views(out@) =~= candidates_of_first(fs, ss, 0));
    }
    while f < count
        invariant
            f <= count,
            count <= files.len(),
            count <= similarities.len(),
            fs == file_views(files@),
            ss == contents(similarities@),
            scored_views(out@) == candidates_of_first(fs, ss, f as int),
        decreases count - f,
    {
        let file = &files[f];
        let sims = &similarities[f];
        let ghost before = scored_views(out@);
        let ghost offer = scored(fs[f as int], ss[f as int]);
        proof {
            assert(fs[f as int] == file@);
            assert(ss[f as int] == sims@);
        }
        let reach = if file.chunks.len() <= sims.len() { file.chunks.len() } else { sims.len() };
        let mut i: usize = 0;
        proof {
            assert(scored_views(out@) =~= before + offer.take(0));
        }
        while i < reach
            invariant
                i <= reach,
                reach <= file.chunks.len(),
                reach <= sims.len(),
                reach == offer.len(),
                offer == scored(file@, sims@),
                scored_views(out@) == before + offer.take(i as int),
            decreases reach - i,
        {
            let chunk = &file.chunks[i];
            let ghost listed = scored_views(out@);
            proof {
                assert(file@.chunks[i as int] == chunk@);
            }
            out.push(
                ScoredChunk {
                    file: file.path.clone(),
                    line: chunk.line,
                    chunk: chunk.text.clone(),
                    dimension: chunk.embeddings.len(),
                    similarity: sims[i],
                },
            );
            proof {
                assert(scored_views(out@) =~= listed.push(offer[i as int]));
                assert(offer.take(i + 1) =~= offer.take(i as int).push(offer[i as int]));
                assert(scored_views(out@) =~= before + offer.take(i + 1));
            }
            i = i + 1;
        }
        proof {
            assert(offer.take(reach as int) =~= offer);
        }
        f = f + 1;
    }
    out
}

/// The positions, among the first `count` candidates, of those whose vector
/// has another dimension than `dim`.
pub open spec fn mismatches_in_first(candidates: Seq<ScoredView>, dim: nat, count: int) -> Seq<int>
    decreases count,
{
    if count <= 0 {
        Seq::empty()
    } else if candidates[count - 1].dimension != dim {
        mismatches_in_first(candidates, dim, count - 1).push(count - 1)
    } else {
        mismatches_in_first(candidates, dim, count - 1)
    }
}

/// The positions of the candidates that cannot be compared with a query of
/// dimension `dim`, in ascending order.
pub open spec fn mismatches(candidates: Seq<ScoredView>, dim: nat) -> Seq<int> {
    mismatches_in_first(candidates, dim, candidates.len() as int)
}

/// Lists the candidates that a search skips because their vector has another
/// dimension than the query: their positions, in ascending order.
pub fn dimension_mismatches(query_dim: usize, candidates: &Vec<ScoredChunk>) -> (out: Vec<usize>)
    ensures
        out@.map_values(|i: usize| i as int) == mismatches(
            scored_views(candidates@),
            query_dim as nat,
        ),
{
    let ghost views = scored_views(candidates@);
    let mut out: Vec<usize> = Vec::new();
    let mut i: usize = 0;
    proof {
        assert(out@.map_values(|i: usize| i as int) =~= Seq::empty());
    }
    while i < candidates.len()
        invariant
            i <= candidates.len(),
            views == scored_views(candidates@),
            out@.map_values(|i: usize| i as int) == mismatches_in_first(
                views,
                query_dim as nat,
                i as int,
            ),
        decreases candidates.len() - i,
    {
        let ghost listed = out@.map_values(|i: usize| i as int);
        assert(views[i as int] == candidates@[i as int]@);
        if candidates[i].dimension != query_dim {
            out.push(i);
            assert(out@.map_values(|i: usize| i as int) =~= listed.push(i as int));
        }
        i = i + 1;
    }
    out
}

/// Searches the files: ranks their chunks by the similarities given for
/// them.
///
/// `similarities` holds, for each file, the similarity of each of its chunks
/// to the query, as the bits of an IEEE 754 single-precision number. The
/// result lists the chunks whose vector has the query's dimension and whose
/// similarity is strictly above `floor`, by descending similarity over all
/// files; chunks of equal similarity keep the order of the files and, within
/// a file, of its chunks. A file of which no chunk passes is absent from the
/// result.
pub fn search(
    query_dim: usize,
    files: &Vec<FileChunks>,
    similarities: &Vec<Vec<u32>>,
    floor: u32,
) -> (out: Vec<PrintableChunk>)
    ensures
        printable_views(out@) == ranked(
            candidates_of(file_views(files@), contents(similarities@)),
            query_dim as nat,
            floor,
        ),
{
    let listed = candidates(files, similarities);
    rank(query_dim, &listed, floor)
}

} // verus!
