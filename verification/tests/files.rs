use csep::files::{is_binary_file, text_files};

#[test]
fn test_is_binary() {
    assert_eq!(is_binary_file("file.png"), true);
    assert_eq!(is_binary_file("file.txt"), false);
    assert_eq!(is_binary_file("file.rs"), false);
    assert_eq!(is_binary_file("file"), true);
}

#[test]
fn last_extension_decides() {
    assert_eq!(is_binary_file("archive.tar.gz"), true);
    assert_eq!(is_binary_file("notes.gz.txt"), false);
    assert_eq!(is_binary_file("photo.backup.jpeg"), true);
}

#[test]
fn extensions_are_matched_exactly() {
    assert_eq!(is_binary_file("file.PNG"), false);
    assert_eq!(is_binary_file("file.pn"), false);
    assert_eq!(is_binary_file("file.pngx"), false);
    assert_eq!(is_binary_file("file.woff"), true);
    assert_eq!(is_binary_file("file.woff2"), true);
    assert_eq!(is_binary_file("file.7z"), true);
    assert_eq!(is_binary_file("file.wasm"), true);
}

#[test]
fn dots_at_the_edges() {
    assert_eq!(is_binary_file(""), true);
    assert_eq!(is_binary_file("file."), false);
    assert_eq!(is_binary_file(".gitignore"), false);
    assert_eq!(is_binary_file(".png"), true);
    assert_eq!(is_binary_file("."), false);
}

#[test]
fn a_dot_in_a_directory_counts() {
    assert_eq!(is_binary_file("my.dir/README"), false);
    assert_eq!(is_binary_file("my.dir/logo.svg"), true);
    assert_eq!(is_binary_file("dir/README"), true);
}

#[test]
fn every_banned_extension_is_binary() {
    let banned = [
        "png", "jpg", "jpeg", "gif", "bmp", "ico", "tiff", "webp", "svg", "mp3", "mp4", "webm",
        "ogg", "flac", "wav", "avi", "mov", "wmv", "mpg", "flv", "swf", "zip", "gz", "tar", "rar",
        "7z", "bz2", "xz", "pdf", "doc", "docx", "xls", "xlsx", "ppt", "pptx", "eot", "ttf", "woff",
        "woff2", "otf", "wasm",
    ];
    for ext in banned {
        assert!(is_binary_file(&format!("data/file.{}", ext)), "{}", ext);
    }
    for ext in ["txt", "rs", "md", "toml", "c", "json", "html"] {
        assert!(!is_binary_file(&format!("data/file.{}", ext)), "{}", ext);
    }
}

#[test]
fn test_get_all_files_in_directory() {
    // What a walk of the directory `data` finds, before the binary files
    // are left out.
    let found = vec![
        "data/rust.txt".to_string(),
        "data/subdir/more.txt".to_string(),
        "data/typescript.txt".to_string(),
    ];
    let files = text_files(&found);
    assert_eq!(files.contains(&"data/subdir/more.txt".to_string()), true);
    assert_eq!(files.contains(&"data/typescript.txt".to_string()), true);
    assert_eq!(files.contains(&"data/rust.txt".to_string()), true);
    assert_eq!(files.len(), 3);
}

#[test]
fn text_files_keeps_the_searched_paths_in_order() {
    let found = vec![
        "data/subdir/more.txt".to_string(),
        "data/logo.png".to_string(),
        "data/typescript.txt".to_string(),
        "data/Makefile".to_string(),
        "data/rust.txt".to_string(),
        "data/archive.tar.gz".to_string(),
    ];
    let files = text_files(&found);
    assert_eq!(
        files,
        vec![
            "data/subdir/more.txt".to_string(),
            "data/typescript.txt".to_string(),
            "data/rust.txt".to_string(),
        ]
    );
}

#[test]
fn text_files_of_nothing_is_nothing() {
    assert_eq!(text_files(&Vec::new()), Vec::<String>::new());
}
