use csep::chunker::Chunk;
use csep::pipeline::{step, Event, Failure, Job};
use csep::rank::PrintableChunk;
use csep::search::{candidates, gather, search, FileChunks, FileJob};

fn bits(vector: &[f32]) -> Vec<u32> {
    vector.iter().map(|x| x.to_bits()).collect()
}

fn cosine(a: &[f32], b: &[f32]) -> f32 {
    let dot: f32 = a.iter().zip(b).map(|(x, y)| x * y).sum();
    let ma = a.iter().map(|x| x * x).sum::<f32>().sqrt();
    let mb = b.iter().map(|x| x * x).sum::<f32>().sqrt();
    dot / (ma * mb)
}

fn file(path: &str, vectors: &[&[f32]]) -> FileChunks {
    FileChunks {
        path: path.to_string(),
        chunks: vectors
            .iter()
            .enumerate()
            .map(|(i, v)| Chunk { line: i + 1, text: format!("{} #{}", path, i), embeddings: bits(v) })
            .collect(),
    }
}

fn similarities(query: &[f32], files: &[FileChunks]) -> Vec<Vec<u32>> {
    files
        .iter()
        .map(|f| {
            f.chunks
                .iter()
                .map(|c| {
                    let v: Vec<f32> = c.embeddings.iter().map(|b| f32::from_bits(*b)).collect();
                    cosine(query, &v).to_bits()
                })
                .collect()
        })
        .collect()
}

fn places(results: &[PrintableChunk]) -> Vec<(String, usize)> {
    results.iter().map(|r| (r.file.clone(), r.line)).collect()
}

#[test]
fn candidates_come_file_after_file_and_chunk_after_chunk() {
    let files = vec![
        file("a.txt", &[&[1.0, 0.0], &[0.0, 1.0]]),
        file("b.txt", &[]),
        file("c.txt", &[&[1.0, 1.0, 1.0]]),
    ];
    let sims = vec![vec![10, 20], vec![], vec![30]];
    let listed = candidates(&files, &sims);
    assert_eq!(listed.len(), 3);
    assert_eq!((listed[0].file.as_str(), listed[0].line, listed[0].similarity), ("a.txt", 1, 10));
    assert_eq!((listed[1].file.as_str(), listed[1].line, listed[1].similarity), ("a.txt", 2, 20));
    assert_eq!((listed[2].file.as_str(), listed[2].line, listed[2].similarity), ("c.txt", 1, 30));
    assert_eq!(listed[0].chunk, "a.txt #0");
    assert_eq!(listed[0].dimension, 2);
    assert_eq!(listed[2].dimension, 3);
}

#[test]
fn candidates_reach_as_far_as_the_similarities() {
    let files = vec![file("a.txt", &[&[1.0], &[2.0], &[3.0]]), file("b.txt", &[&[4.0]])];
    assert_eq!(candidates(&files, &vec![vec![1, 2]]).len(), 2);
    assert_eq!(candidates(&files, &vec![vec![1, 2, 3, 4], vec![5, 6]]).len(), 4);
    assert!(candidates(&files, &Vec::new()).is_empty());
    assert!(candidates(&Vec::new(), &vec![vec![1]]).is_empty());
}

#[test]
fn closer_file_ranks_above_the_other() {
    // a.txt = "the quick brown fox", b.txt = "machine learning models",
    // query = "fast animal", with vectors from a stub backend.
    let query = [0.9f32, 0.3, 0.1];
    let files =
        vec![file("b.txt", &[&[0.1, 0.2, 0.9]]), file("a.txt", &[&[0.8, 0.5, 0.1]])];
    let sims = similarities(&query, &files);
    let results = search(3, &files, &sims, 0.0f32.to_bits());
    assert_eq!(places(&results), vec![("a.txt".to_string(), 1), ("b.txt".to_string(), 1)]);
    assert!(f32::from_bits(results[0].similarity) > f32::from_bits(results[1].similarity));
}

#[test]
fn file_equal_to_the_query_is_first_with_similarity_one() {
    let query = [0.3f32, -0.4, 0.5, 0.7];
    let files = vec![
        file("other.txt", &[&[0.7, 0.1, -0.2, 0.1], &[-0.3, 0.4, -0.5, -0.7]]),
        file("same.txt", &[&[0.3, -0.4, 0.5, 0.7]]),
    ];
    let sims = similarities(&query, &files);
    let results = search(4, &files, &sims, (-2.0f32).to_bits());
    assert_eq!(results[0].file, "same.txt");
    assert!((f32::from_bits(results[0].similarity) - 1.0).abs() < 1e-6);
    assert_eq!(results.last().unwrap().file, "other.txt");
    assert!((f32::from_bits(results.last().unwrap().similarity) + 1.0).abs() < 1e-6);
}

#[test]
fn vector_without_length_never_shows() {
    let query = [1.0f32, 0.0];
    let files = vec![file("zero.txt", &[&[0.0, 0.0]]), file("one.txt", &[&[1.0, 0.0]])];
    let sims = similarities(&query, &files);
    assert!(f32::from_bits(sims[0][0]).is_nan());
    let results = search(2, &files, &sims, f32::NEG_INFINITY.to_bits());
    assert_eq!(places(&results), vec![("one.txt".to_string(), 1)]);
}

#[test]
fn file_without_a_passing_chunk_is_absent() {
    let query = [1.0f32, 0.0];
    let files = vec![
        file("far.txt", &[&[0.0, 1.0], &[-1.0, 0.0]]),
        file("near.txt", &[&[1.0, 0.1], &[0.0, 1.0]]),
    ];
    let sims = similarities(&query, &files);
    let results = search(2, &files, &sims, 0.2f32.to_bits());
    assert_eq!(places(&results), vec![("near.txt".to_string(), 1)]);
}

#[test]
fn search_twice_gives_the_same_results() {
    let query = [0.5f32, 0.5, 0.1];
    let files = vec![
        file("a.txt", &[&[0.5, 0.5, 0.1], &[0.1, 0.9, 0.3]]),
        file("b.txt", &[&[0.5, 0.5, 0.1], &[1.0, 1.0, 0.2]]),
    ];
    let sims = similarities(&query, &files);
    let first = search(3, &files, &sims, 0.0f32.to_bits());
    let second = search(3, &files, &sims, 0.0f32.to_bits());
    assert_eq!(places(&first), places(&second));
    let firsts: Vec<u32> = first.iter().map(|r| r.similarity).collect();
    let seconds: Vec<u32> = second.iter().map(|r| r.similarity).collect();
    assert_eq!(firsts, seconds);
    for pair in first.windows(2) {
        assert!(f32::from_bits(pair[0].similarity) >= f32::from_bits(pair[1].similarity));
    }
}

#[test]
fn chunk_of_another_dimension_than_the_query_is_skipped() {
    let query = [1.0f32, 0.0, 0.0];
    let files = vec![file("old.txt", &[&[1.0, 0.0]]), file("new.txt", &[&[0.9, 0.1, 0.0]])];
    let sims = vec![vec![1.0f32.to_bits()], vec![0.9f32.to_bits()]];
    let results = search(query.len(), &files, &sims, 0.0f32.to_bits());
    assert_eq!(places(&results), vec![("new.txt".to_string(), 1)]);
}

#[test]
fn gather_keeps_the_files_that_are_done() {
    let done = |text: &str| Job::Done {
        chunks: vec![Chunk { line: 1, text: text.to_string(), embeddings: vec![1] }],
    };
    let jobs = vec![
        FileJob { path: "a.txt".to_string(), job: done("a") },
        FileJob { path: "b.txt".to_string(), job: Job::Failed { reason: Failure::Backend } },
        FileJob { path: "c.txt".to_string(), job: step(Job::new(), Event::Source(None)) },
        FileJob { path: "d.txt".to_string(), job: Job::Reading },
        FileJob { path: "e.txt".to_string(), job: done("e") },
    ];
    let gathered = gather(jobs);
    let paths: Vec<&str> = gathered.files.iter().map(|f| f.path.as_str()).collect();
    assert_eq!(paths, vec!["a.txt", "c.txt", "e.txt"]);
    assert_eq!(gathered.files[0].chunks[0].text, "a");
    assert!(gathered.files[1].chunks.is_empty());
    assert_eq!(gathered.files[2].chunks[0].text, "e");
    assert_eq!(gathered.failed, vec!["b.txt".to_string(), "d.txt".to_string()]);
}

#[test]
fn gather_of_nothing_is_nothing() {
    let gathered = gather(Vec::new());
    assert!(gathered.files.is_empty());
    assert!(gathered.failed.is_empty());
}

#[test]
fn mismatches_list_the_skipped_candidates() {
    let files = vec![
        file("old.txt", &[&[1.0, 0.0], &[0.5, 0.5, 0.5]]),
        file("new.txt", &[&[0.9, 0.1, 0.0], &[1.0]]),
    ];
    let sims = vec![vec![1, 2], vec![3, 4]];
    let listed = candidates(&files, &sims);
    assert_eq!(csep::search::dimension_mismatches(3, &listed), vec![0, 3]);
    assert_eq!(csep::search::dimension_mismatches(2, &listed), vec![1, 2, 3]);
    assert_eq!(csep::search::dimension_mismatches(7, &listed), vec![0, 1, 2, 3]);
    assert!(csep::search::dimension_mismatches(3, &Vec::new()).is_empty());
}
