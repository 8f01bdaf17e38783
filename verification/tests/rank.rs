use csep::rank::{above_floor, rank, similarity_key, PrintableChunk, ScoredChunk};

fn scored(file: &str, line: usize, similarity: f32) -> ScoredChunk {
    ScoredChunk {
        file: file.to_string(),
        line,
        chunk: format!("{}:{}", file, line),
        dimension: 3,
        similarity: similarity.to_bits(),
    }
}

fn places(results: &[PrintableChunk]) -> Vec<(String, usize)> {
    results.iter().map(|r| (r.file.clone(), r.line)).collect()
}

fn place(file: &str, line: usize) -> (String, usize) {
    (file.to_string(), line)
}

#[test]
fn keys_of_known_scores() {
    assert_eq!(similarity_key(0.0f32.to_bits()), Some(0));
    assert_eq!(similarity_key((-0.0f32).to_bits()), Some(0));
    assert_eq!(similarity_key(1.0f32.to_bits()), Some(0x3f80_0000));
    assert_eq!(similarity_key((-1.0f32).to_bits()), Some(-0x3f80_0000));
    assert_eq!(similarity_key(f32::INFINITY.to_bits()), Some(0x7f80_0000));
    assert_eq!(similarity_key(f32::NEG_INFINITY.to_bits()), Some(-0x7f80_0000));
    assert_eq!(similarity_key(f32::NAN.to_bits()), None);
    assert_eq!(similarity_key(0x7f80_0001), None);
    assert_eq!(similarity_key(0xffff_ffff), None);
    assert_eq!(similarity_key(0xff80_0001), None);
}

#[test]
fn keys_order_scores_as_numbers() {
    let samples = [
        f32::NEG_INFINITY,
        f32::MIN,
        -2.5,
        -1.0,
        -0.2,
        -f32::MIN_POSITIVE,
        -1.0e-45,
        -0.0,
        0.0,
        1.0e-45,
        f32::MIN_POSITIVE,
        0.2,
        0.999_999_9,
        1.0,
        1.000_000_1,
        2.5,
        f32::MAX,
        f32::INFINITY,
    ];
    for a in samples {
        for b in samples {
            let ka = similarity_key(a.to_bits()).unwrap();
            let kb = similarity_key(b.to_bits()).unwrap();
            assert_eq!(ka > kb, a > b, "{} > {}", a, b);
            assert_eq!(ka == kb, a == b, "{} == {}", a, b);
            assert_eq!(above_floor(a.to_bits(), b.to_bits()), a > b, "{} above {}", a, b);
        }
    }
}

#[test]
fn nothing_is_above_or_below_a_score_that_is_no_number() {
    let nan = f32::NAN.to_bits();
    assert!(!above_floor(nan, 0.0f32.to_bits()));
    assert!(!above_floor(nan, f32::NEG_INFINITY.to_bits()));
    assert!(!above_floor(1.0f32.to_bits(), nan));
    assert!(!above_floor(nan, nan));
}

#[test]
fn floor_is_strict() {
    let floor = 0.2f32.to_bits();
    let list = vec![scored("a", 1, 0.2), scored("a", 2, 0.200_000_02), scored("a", 3, 0.199_999_99)];
    let results = rank(3, &list, floor);
    assert_eq!(places(&results), vec![place("a", 2)]);
    for result in &results {
        assert!(f32::from_bits(result.similarity) > 0.2);
    }
}

#[test]
fn results_descend_in_similarity_over_all_files() {
    let list = vec![
        scored("a", 1, 0.3),
        scored("a", 2, 0.9),
        scored("b", 1, 0.5),
        scored("b", 2, 0.1),
        scored("c", 1, 0.7),
    ];
    let results = rank(3, &list, 0.2f32.to_bits());
    assert_eq!(
        places(&results),
        vec![place("a", 2), place("c", 1), place("b", 1), place("a", 1)]
    );
    for pair in results.windows(2) {
        assert!(f32::from_bits(pair[0].similarity) >= f32::from_bits(pair[1].similarity));
    }
}

#[test]
fn equal_similarities_keep_the_order_of_arrival() {
    let list = vec![
        scored("a", 1, 0.5),
        scored("b", 1, 0.8),
        scored("c", 1, 0.5),
        scored("d", 1, 0.8),
        scored("e", 1, 0.5),
    ];
    let results = rank(3, &list, 0.0f32.to_bits());
    assert_eq!(
        places(&results),
        vec![place("b", 1), place("d", 1), place("a", 1), place("c", 1), place("e", 1)]
    );
    let again = rank(3, &list, 0.0f32.to_bits());
    assert_eq!(places(&results), places(&again));
}

#[test]
fn the_two_zeros_are_one_similarity() {
    let list = vec![scored("a", 1, -0.0), scored("b", 1, 0.0), scored("c", 1, -0.0)];
    let results = rank(3, &list, (-1.0f32).to_bits());
    assert_eq!(places(&results), vec![place("a", 1), place("b", 1), place("c", 1)]);
    assert!(rank(3, &list, 0.0f32.to_bits()).is_empty());
    assert!(rank(3, &list, (-0.0f32).to_bits()).is_empty());
}

#[test]
fn similarity_that_is_no_number_is_left_out() {
    let list = vec![scored("a", 1, f32::NAN), scored("b", 1, 0.4), scored("c", 1, 0.0 / 0.0)];
    let results = rank(3, &list, f32::NEG_INFINITY.to_bits());
    assert_eq!(places(&results), vec![place("b", 1)]);
}

#[test]
fn floor_that_is_no_number_lets_nothing_pass() {
    let list = vec![scored("a", 1, 0.9), scored("b", 1, 0.4)];
    assert!(rank(3, &list, f32::NAN.to_bits()).is_empty());
}

#[test]
fn vector_of_another_dimension_is_left_out() {
    let mut odd = scored("b", 1, 0.99);
    odd.dimension = 4;
    let list = vec![scored("a", 1, 0.5), odd, scored("c", 1, 0.6)];
    let results = rank(3, &list, 0.0f32.to_bits());
    assert_eq!(places(&results), vec![place("c", 1), place("a", 1)]);
    assert!(rank(5, &list, 0.0f32.to_bits()).is_empty());
    assert_eq!(places(&rank(4, &list, 0.0f32.to_bits())), vec![place("b", 1)]);
}

#[test]
fn negative_similarities_rank_below_positive_ones() {
    let list = vec![scored("a", 1, -0.9), scored("b", 1, 0.1), scored("c", 1, -0.1)];
    let results = rank(3, &list, (-1.0f32).to_bits());
    assert_eq!(places(&results), vec![place("b", 1), place("c", 1), place("a", 1)]);
    let results = rank(3, &list, (-0.5f32).to_bits());
    assert_eq!(places(&results), vec![place("b", 1), place("c", 1)]);
}

#[test]
fn a_result_shows_its_candidate() {
    let list = vec![ScoredChunk {
        file: "src/lib.rs".to_string(),
        line: 42,
        chunk: "fn main() {}".to_string(),
        dimension: 2,
        similarity: 0.75f32.to_bits(),
    }];
    let results = rank(2, &list, 0.2f32.to_bits());
    assert_eq!(results.len(), 1);
    assert_eq!(results[0].file, "src/lib.rs");
    assert_eq!(results[0].line, 42);
    assert_eq!(results[0].chunk, "fn main() {}");
    assert_eq!(results[0].similarity, 0.75f32.to_bits());
}

#[test]
fn ranking_of_nothing_is_nothing() {
    assert!(rank(3, &Vec::new(), 0.0f32.to_bits()).is_empty());
}

#[test]
fn ranking_of_many_candidates_is_sorted_and_stable() {
    let mut list = Vec::new();
    for i in 0..300usize {
        let similarity = ((i * 37) % 11) as f32 / 10.0;
        list.push(scored("f", i, similarity));
    }
    let floor = 0.25f32;
    let results = rank(3, &list, floor.to_bits());
    let kept = list.iter().filter(|c| f32::from_bits(c.similarity) > floor).count();
    assert_eq!(results.len(), kept);
    for pair in results.windows(2) {
        let (a, b) = (f32::from_bits(pair[0].similarity), f32::from_bits(pair[1].similarity));
        assert!(a > b || (a == b && pair[0].line < pair[1].line));
    }
}
