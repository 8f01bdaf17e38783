use csep::chunker::{
    assemble_chunks, has_long_blank_run, is_white_space, locate_segments, split, Chunk,
    ChunkError, Segment, BLANK_RUN_LIMIT, MAX_TOKENS,
};

fn texts_of(segments: &[Segment]) -> Vec<String> {
    segments.iter().map(|s| s.text.clone()).collect()
}

fn long_text() -> String {
    let mut text = String::new();
    for paragraph in 0..12 {
        for sentence in 0..6 {
            text.push_str(&format!(
                "Paragraph {} holds sentence {} about searching text by meaning.\n",
                paragraph, sentence
            ));
        }
        text.push('\n');
    }
    text
}

#[test]
fn budget_of_a_chunk() {
    assert_eq!(MAX_TOKENS, 100);
}

#[test]
fn empty_text_has_no_segments() {
    let segments = split("", MAX_TOKENS).unwrap();
    assert!(segments.is_empty());
}

#[test]
fn short_text_is_one_segment_at_line_one() {
    let segments = split("the quick brown fox", MAX_TOKENS).unwrap();
    assert_eq!(segments.len(), 1);
    assert_eq!(segments[0].text, "the quick brown fox");
    assert_eq!(segments[0].line, 1);
}

#[test]
fn text_under_the_budget_stays_whole_across_lines() {
    let text = "first line\nsecond line\nthird line";
    let segments = split(text, MAX_TOKENS).unwrap();
    assert_eq!(segments.len(), 1);
    assert_eq!(segments[0].text, text);
    assert_eq!(segments[0].line, 1);
}

#[test]
fn split_cuts_by_the_token_budget() {
    let segments = split("one two three four five six seven eight", 2).unwrap();
    assert!(segments.len() >= 4);
    assert_ne!(segments[0].text, "one two three four five six seven eight");
    for segment in &segments {
        assert!(!segment.text.is_empty());
    }
}

#[test]
fn segments_are_pieces_of_the_text_in_its_order() {
    let text = long_text();
    let segments = split(&text, MAX_TOKENS).unwrap();
    assert!(segments.len() > 1);
    let mut from = 0;
    for segment in &segments {
        assert!(!segment.text.is_empty());
        let at = text[from..].find(&segment.text).expect("a piece of the text");
        from = from + at + segment.text.len();
    }
    assert!(from <= text.len());
}

#[test]
fn start_lines_are_the_lines_of_the_text() {
    let text = long_text();
    let segments = split(&text, MAX_TOKENS).unwrap();
    let mut from = 0;
    let mut last = 0;
    for segment in &segments {
        let at = from + text[from..].find(&segment.text).expect("a piece of the text");
        let line = 1 + text[..at].matches('\n').count();
        assert_eq!(segment.line, line);
        assert!(segment.line >= last);
        last = segment.line;
        from = at + segment.text.len();
    }
    assert!(last > 1);
}

#[test]
fn blank_lines_between_segments_are_counted() {
    let segments = split("some text here. more text\n\nnew paragraph", 1).unwrap();
    let found: Vec<(usize, &str)> = segments.iter().map(|s| (s.line, s.text.as_str())).collect();
    assert_eq!(
        found,
        vec![
            (1, "some"),
            (1, "text"),
            (1, "here"),
            (1, "."),
            (1, "more"),
            (1, "text"),
            (3, "new"),
            (3, "paragraph"),
        ]
    );
}

#[test]
fn text_of_white_space_has_no_segments() {
    assert!(split("   \n\n \t  \n", MAX_TOKENS).unwrap().is_empty());
}

#[test]
fn text_without_line_feeds_starts_every_segment_at_line_one() {
    let mut text = String::new();
    for i in 0..400 {
        text.push_str(&format!("word{} ", i));
    }
    let segments = split(&text, MAX_TOKENS).unwrap();
    assert!(segments.len() > 1);
    for segment in &segments {
        assert_eq!(segment.line, 1);
    }
}

/// Splits each of a few texts under `budget`, and holds the segments
/// against the text: each is found in it behind the one before, starts in
/// the line that is told of it, and leaves only white space out.
fn check_pieces(budget: usize) {
    let texts = [
        "日本語のテキスト。これは文です。\n\n🙂🙂🙂 emoji — and ‘quotes’\r\nCRLF line\rCR only",
        "  leading and trailing white space \n\n\t\n  ",
        "a\n\n\n\nb\n\n\n\nc",
        "fn main() {\n    println!(\"héllo wörld\");\n}\n\n// ünïcödé cömment\n",
        "\u{feff}byte order mark then text\u{2028}line separator\u{2029}paragraph separator",
        "e\u{301}e\u{301}e\u{301} combining marks 👨‍👩‍👧‍👦 family",
    ];
    for text in texts {
        let segments = split(text, budget).expect("pieces of the text");
        let chars: Vec<char> = text.chars().collect();
        let mut from = 0;
        for segment in &segments {
            let piece: Vec<char> = segment.text.chars().collect();
            let at = (from..=chars.len() - piece.len())
                .find(|&at| chars[at..at + piece.len()] == piece[..])
                .expect("a piece of the text");
            let line = 1 + chars[..at].iter().filter(|c| **c == '\n').count();
            assert_eq!(segment.line, line, "{:?} under {}", text, budget);
            for skipped in &chars[from..at] {
                assert!(skipped.is_whitespace(), "{:?} under {}", text, budget);
            }
            from = at + piece.len();
        }
        for skipped in &chars[from..] {
            assert!(skipped.is_whitespace(), "{:?} under {}", text, budget);
        }
    }
}

#[test]
fn split_finds_every_piece_in_the_text_under_the_smallest_budget() {
    check_pieces(1);
}

#[test]
fn budget_of_zero_is_refused() {
    assert!(matches!(split("some text", 0), Err(ChunkError::Budget)));
    assert!(matches!(split(" x", 0), Err(ChunkError::Budget)));
    assert!(matches!(split("", 0), Err(ChunkError::Budget)));
    assert!(split("", 1).unwrap().is_empty());
}

#[test]
fn limit_of_a_run_of_white_space() {
    assert_eq!(BLANK_RUN_LIMIT, 900_000);
}

#[test]
fn long_run_of_white_space_is_found() {
    assert!(!has_long_blank_run(""));
    assert!(!has_long_blank_run("a b\n\n c"));
    assert!(has_long_blank_run(&" ".repeat(BLANK_RUN_LIMIT)));
    assert!(!has_long_blank_run(&" ".repeat(BLANK_RUN_LIMIT - 1)));
    assert!(has_long_blank_run(&format!("a{}b", "\t".repeat(BLANK_RUN_LIMIT))));
    assert!(has_long_blank_run(&format!("a{}", " \n\u{a0}".repeat(BLANK_RUN_LIMIT / 3))));
    assert!(!has_long_blank_run(&format!("a{}b", " ".repeat(BLANK_RUN_LIMIT - 1))));
    assert!(has_long_blank_run(&format!("{}b", " ".repeat(BLANK_RUN_LIMIT + 5))));
}

#[test]
fn white_space_is_counted_by_runs() {
    assert!(!has_long_blank_run(&"a ".repeat(BLANK_RUN_LIMIT)));
    let halves = format!("{}x{}", " ".repeat(BLANK_RUN_LIMIT / 2), " ".repeat(BLANK_RUN_LIMIT / 2));
    assert!(!has_long_blank_run(&halves));
}

#[test]
fn text_with_a_long_run_of_white_space_is_refused() {
    let text = format!("a{}b", " ".repeat(BLANK_RUN_LIMIT));
    assert!(matches!(split(&text, MAX_TOKENS), Err(ChunkError::Blank)));
    let text = format!("a{}b", "\t".repeat(1_000_000));
    assert!(matches!(split(&text, MAX_TOKENS), Err(ChunkError::Blank)));
    let text = format!("{}b", " ".repeat(2_000_000));
    assert!(matches!(split(&text, 1), Err(ChunkError::Blank)));
}

#[test]
fn text_with_a_run_below_the_limit_is_split() {
    let text = format!("a{}b", " ".repeat(BLANK_RUN_LIMIT - 1));
    let segments = split(&text, MAX_TOKENS).expect("pieces of the text");
    assert_eq!(texts_of(&segments), vec!["a", "b"]);
    assert_eq!(segments[1].line, 1);
}

#[test]
fn split_finds_every_piece_in_the_text_under_a_small_budget() {
    check_pieces(3);
}

#[test]
fn split_finds_every_piece_in_the_text_under_the_usual_budget() {
    check_pieces(MAX_TOKENS);
}

#[test]
fn split_is_the_same_on_the_same_text() {
    let text = long_text();
    let first = split(&text, MAX_TOKENS).unwrap();
    let second = split(&text, MAX_TOKENS).unwrap();
    assert_eq!(texts_of(&first), texts_of(&second));
    let first_lines: Vec<usize> = first.iter().map(|s| s.line).collect();
    let second_lines: Vec<usize> = second.iter().map(|s| s.line).collect();
    assert_eq!(first_lines, second_lines);
}

fn piece(position: usize, text: &str) -> (usize, String) {
    (position, text.to_string())
}

#[test]
fn pieces_get_the_lines_in_which_they_start() {
    let text = "a\nb\n\nc d\r\ne";
    let segments =
        locate_segments(text, vec![piece(0, "a"), piece(2, "b"), piece(5, "c d"), piece(10, "e")])
            .expect("pieces of the text");
    let lines: Vec<usize> = segments.iter().map(|s| s.line).collect();
    assert_eq!(lines, vec![1, 2, 4, 5]);
    assert_eq!(texts_of(&segments), vec!["a", "b", "c d", "e"]);
}

#[test]
fn a_piece_may_hold_line_feeds() {
    let text = "one\ntwo\nthree\nfour";
    let segments = locate_segments(text, vec![piece(0, "one\ntwo"), piece(8, "three\nfour")])
        .expect("pieces of the text");
    let lines: Vec<usize> = segments.iter().map(|s| s.line).collect();
    assert_eq!(lines, vec![1, 3]);
}

#[test]
fn positions_count_characters_not_bytes() {
    let text = "héllo wörld\n→ née";
    let segments = locate_segments(
        text,
        vec![piece(0, "héllo"), piece(6, "wörld"), piece(12, "→"), piece(14, "née")],
    )
    .expect("pieces of the text");
    let lines: Vec<usize> = segments.iter().map(|s| s.line).collect();
    assert_eq!(lines, vec![1, 1, 2, 2]);
}

#[test]
fn pieces_may_touch() {
    let segments = locate_segments("abcd", vec![piece(0, "ab"), piece(2, "cd")]).unwrap();
    assert_eq!(texts_of(&segments), vec!["ab", "cd"]);
    let segments = locate_segments("abcd", vec![piece(0, "abcd")]).unwrap();
    assert_eq!(segments[0].line, 1);
}

#[test]
fn text_of_white_space_needs_no_pieces() {
    assert!(locate_segments("", Vec::new()).unwrap().is_empty());
    assert!(locate_segments(" \n\t\r\n\u{a0}\u{2003}\u{3000}", Vec::new()).unwrap().is_empty());
}

#[test]
fn text_that_is_left_out_is_refused() {
    assert!(locate_segments("text", Vec::new()).is_none());
    assert!(locate_segments("hello world", vec![piece(0, "hello")]).is_none());
    assert!(locate_segments("hello world", vec![piece(6, "world")]).is_none());
    assert!(locate_segments("hello, world", vec![piece(0, "hello"), piece(7, "world")]).is_none());
    assert!(locate_segments("hello world", vec![piece(0, "hello"), piece(6, "worl")]).is_none());
    assert!(locate_segments("hello world", vec![piece(0, "hello"), piece(6, "world")]).is_some());
    assert!(locate_segments(" hello  world \n", vec![piece(1, "hello"), piece(8, "world")]).is_some());
}

#[test]
fn white_space_is_what_the_standard_says() {
    for code in 0..=0x10ffffu32 {
        if let Some(c) = char::from_u32(code) {
            assert_eq!(is_white_space(c), c.is_whitespace(), "U+{:04X}", code);
        }
    }
}

#[test]
fn piece_that_is_not_in_the_text_is_refused() {
    assert!(locate_segments("hello world", vec![piece(0, "help")]).is_none());
    assert!(locate_segments("hello world", vec![piece(1, "hello")]).is_none());
    assert!(locate_segments("hello world", vec![piece(6, "world!")]).is_none());
    assert!(locate_segments("hello world", vec![piece(11, "x")]).is_none());
    assert!(locate_segments("hello world", vec![piece(40, "x")]).is_none());
    assert!(locate_segments("", vec![piece(0, "x")]).is_none());
}

#[test]
fn empty_piece_is_refused() {
    assert!(locate_segments("hello", vec![piece(2, "")]).is_none());
    assert!(locate_segments("hello", vec![piece(0, "he"), piece(5, "")]).is_none());
}

#[test]
fn pieces_out_of_order_are_refused() {
    assert!(locate_segments("hello world", vec![piece(6, "world"), piece(0, "hello")]).is_none());
    assert!(locate_segments("hello world", vec![piece(0, "hello"), piece(4, "o w")]).is_none());
    assert!(locate_segments("aaaa", vec![piece(0, "aa"), piece(1, "aa")]).is_none());
    assert!(locate_segments("aaaa", vec![piece(0, "aa"), piece(0, "aa")]).is_none());
}

#[test]
fn chunks_pair_segments_and_vectors_by_position() {
    let segments = vec![
        Segment { line: 1, text: "alpha".to_string() },
        Segment { line: 3, text: "beta".to_string() },
    ];
    let vectors = vec![vec![1, 2, 3], vec![4, 5, 6]];
    let chunks = assemble_chunks(&segments, &vectors);
    assert_eq!(chunks.len(), 2);
    assert_eq!(chunks[0].line, 1);
    assert_eq!(chunks[0].text, "alpha");
    assert_eq!(chunks[0].embeddings, vec![1, 2, 3]);
    assert_eq!(chunks[1].line, 3);
    assert_eq!(chunks[1].text, "beta");
    assert_eq!(chunks[1].embeddings, vec![4, 5, 6]);
}

#[test]
fn the_shorter_list_decides_how_many_chunks_there_are() {
    let segments = vec![
        Segment { line: 1, text: "alpha".to_string() },
        Segment { line: 3, text: "beta".to_string() },
        Segment { line: 4, text: "gamma".to_string() },
    ];
    let chunks = assemble_chunks(&segments, &vec![vec![7], vec![8]]);
    assert_eq!(chunks.len(), 2);
    assert_eq!(chunks[1].text, "beta");
    let first = vec![Segment { line: 1, text: "alpha".to_string() }];
    let chunks = assemble_chunks(&first, &vec![vec![7], vec![8]]);
    assert_eq!(chunks.len(), 1);
    assert_eq!(chunks[0].embeddings, vec![7]);
    assert!(assemble_chunks(&Vec::new(), &vec![vec![7]]).is_empty());
    assert!(assemble_chunks(&segments, &Vec::new()).is_empty());
}

#[test]
fn a_chunk_is_cloned_whole() {
    let chunk = Chunk { line: 9, text: "text".to_string(), embeddings: vec![1, 2] };
    let copy = chunk.clone();
    assert_eq!(copy.line, 9);
    assert_eq!(copy.text, "text");
    assert_eq!(copy.embeddings, vec![1, 2]);
}
