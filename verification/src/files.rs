//! Which files of a directory tree are searched: those whose name does not
//! mark them as binary.

use crate::chunker::texts;
use vstd::prelude::*;
use vstd::std_specs::iter::IteratorSpec;

verus! {

/// What follows the last `.` of `path`; the whole path where it has none.
pub open spec fn extension(path: Seq<char>) -> Seq<char>
    decreases path.len(),
{
    if path.len() == 0 || path.last() == '.' {
        Seq::empty()
    } else {
        extension(path.drop_last()).push(path.last())
    }
}

/// The extensions of files that are not searched: images, audio, video,
/// archives, documents, fonts and compiled code.
pub open spec fn banned_extensions() -> Seq<Seq<char>> {
    seq![
        "png"@,
        "jpg"@,
        "jpeg"@,
        "gif"@,
        "bmp"@,
        "ico"@,
        "tiff"@,
        "webp"@,
        "svg"@,
        "mp3"@,
        "mp4"@,
        "webm"@,
        "ogg"@,
        "flac"@,
        "wav"@,
        "avi"@,
        "mov"@,
        "wmv"@,
        "mpg"@,
        "flv"@,
        "swf"@,
        "zip"@,
        "gz"@,
        "tar"@,
        "rar"@,
        "7z"@,
        "bz2"@,
        "xz"@,
        "pdf"@,
        "doc"@,
        "docx"@,
        "xls"@,
        "xlsx"@,
        "ppt"@,
        "pptx"@,
        "eot"@,
        "ttf"@,
        "woff"@,
        "woff2"@,
        "otf"@,
        "wasm"@,
    ]
}

/// Whether a file of this path counts as binary: its path has no `.`, or
/// what follows the last `.` is a banned extension.
pub open spec fn binary_path(path: Seq<char>) -> bool {
    !path.contains('.') || banned_extensions().contains(extension(path))
}

/// The extension of a path with a `.` is what follows its last `.`: it is
/// the rest of the path behind a `.`, and holds no `.` itself.
pub proof fn lemma_extension_follows_last_dot(path: Seq<char>)
    requires
        path.contains('.'),
    ensures
        !extension(path).contains('.'),
        exists|i: int|
            0 <= i < path.len() && #[trigger] path[i] == '.' && extension(path) == path.subrange(
                i + 1,
                path.len() as int,
            ),
    decreases path.len(),
{
    let n = path.len() as int;
    assert(n > 0);
    if path.last() == '.' {
        assert(path[n - 1] == '.');
        assert(extension(path) =~= path.subrange(n, n));
    } else {
        let front = path.drop_last();
        let k = choose|k: int| 0 <= k < path.len() && path[k] == '.';
        assert(front[k] == '.');
        lemma_extension_follows_last_dot(front);
        let i = choose|i: int|
            0 <= i < front.len() && #[trigger] front[i] == '.' && extension(front)
                == front.subrange(i + 1, front.len() as int);
        assert(path[i] == '.');
        assert(extension(path) =~= path.subrange(i + 1, n));
        let ext = extension(path);
        if ext.contains('.') {
            let j = choose|j: int| 0 <= j < ext.len() && ext[j] == '.';
            if j < ext.len() - 1 {
                assert(extension(front)[j] == '.');
            }
        }
    }
}

/// A path without a `.` is its own extension.
pub proof fn lemma_extension_without_dot(path: Seq<char>)
    requires
        !path.contains('.'),
    ensures
        extension(path) == path,
    decreases path.len(),
{
    if path.len() > 0 {
        let front = path.drop_last();
        assert(path[path.len() - 1] != '.');
        assert forall|k: int| 0 <= k < front.len() implies front[k] != '.' by {
            assert(path[k] == front[k]);
        }
        lemma_extension_without_dot(front);
        assert(extension(path) =~= path);
    } else {
        assert(extension(path) =~= path);
    }
}

fn same_text(chars: &Vec<char>, word: &str) -> (out: bool)
    ensures
        out == (chars@ == word@),
{
    let mut it = word.chars();
    let mut i: usize = 0;
    let ghost mut seen: Seq<char> = Seq::empty();
    loop
        invariant
            it.obeys_prophetic_iter_laws(),
            it.decrease() is Some,
            seen + it.remaining() == word@,
            i == seen.len(),
            i <= chars.len(),
            seen == chars@.take(i as int),
        decreases it.decrease()->0,
    {
        let ghost rest = it.remaining();
        match it.next() {
            Some(c) => {
                proof {
                    assert(seen.push(c) + it.remaining() == seen + rest);
                    assert(word@[i as int] == c);
                }
                if i >= chars.len() || chars[i] != c {
                    return false;
                }
                proof {
                    assert(seen.push(c) == chars@.take(i + 1));
                    seen = seen.push(c);
                }
                i = i + 1;
            },
            None => {
                proof {
                    assert(seen + it.remaining() == seen);
                    if i == chars.len() {
                        assert(chars@.take(i as int) == chars@);
                    }
                }
                return i == chars.len();
            },
        }
    }
}

fn is_banned(ext: &Vec<char>) -> (out: bool)
    ensures
        out == banned_extensions().contains(ext@),
{
    let banned: [&str; 41] = [
        "png",
        "jpg",
        "jpeg",
        "gif",
        "bmp",
        "ico",
        "tiff",
        "webp",
        "svg",
        "mp3",
        "mp4",
        "webm",
        "ogg",
        "flac",
        "wav",
        "avi",
        "mov",
        "wmv",
        "mpg",
        "flv",
        "swf",
        "zip",
        "gz",
        "tar",
        "rar",
        "7z",
        "bz2",
        "xz",
        "pdf",
        "doc",
        "docx",
        "xls",
        "xlsx",
        "ppt",
        "pptx",
        "eot",
        "ttf",
        "woff",
        "woff2",
        "otf",
        "wasm",
    ];
    assert(banned@.len() == banned_extensions().len());
    assert(forall|k: int| 0 <= k < 41 ==> (#[trigger] banned@[k])@ == banned_extensions()[k]);
    let mut k: usize = 0;
    while k < 41
        invariant
            k <= 41,
            banned@.len() == 41,
            banned_extensions().len() == 41,
            forall|j: int| 0 <= j < 41 ==> (#[trigger] banned@[j])@ == banned_extensions()[j],
            forall|j: int| 0 <= j < k ==> #[trigger] banned_extensions()[j] != ext@,
        decreases 41 - k,
    {
        if same_text(ext, banned[k]) {
            assert(banned_extensions()[k as int] == ext@);
            return true;
        }
        k = k + 1;
    }
    false
}

/// Tells by its path whether a file counts as binary, and so is not searched.
///
/// A path without a `.` counts as binary. Otherwise what follows the last
/// `.` decides: the file is binary where that is a banned extension.
pub fn is_binary_file(file: &str) -> (out: bool)
    ensures
        out == binary_path(file@),
{
    let mut ext: Vec<char> = Vec::new();
    let mut dotted = false;
    let mut it = file.chars();
    let ghost mut seen: Seq<char> = Seq::empty();
    loop
        invariant
            it.obeys_prophetic_iter_laws(),
            it.decrease() is Some,
            seen + it.remaining() == file@,
            dotted == seen.contains('.'),
            ext@ == extension(seen),
        decreases it.decrease()->0,
    {
        let ghost rest = it.remaining();
        match it.next() {
            Some(c) => {
                proof {
                    assert(seen.push(c).drop_last() == seen);
                    assert(seen.push(c) + it.remaining() == seen + rest);
                    assert(seen.push(c).last() == c);
                    if seen.contains('.') {
                        let k = choose|k: int| 0 <= k < seen.len() && seen[k] == '.';
                        assert(seen.push(c)[k] == '.');
                    }
                    if seen.push(c).contains('.') && c != '.' {
                        let k = choose|k: int| 0 <= k < seen.push(c).len() && seen.push(c)[k] == '.';
                        assert(seen[k] == '.');
                    }
                }
                if c == '.' {
                    ext.clear();
                    dotted = true;
                    assert(seen.push(c)[seen.len() as int] == '.');
                } else {
                    ext.push(c);
                }
                proof {
                    seen = seen.push(c);
                }
            },
            None => {
                proof {
                    assert(seen + it.remaining() == seen);
                }
                if !dotted {
                    return true;
                }
                return is_banned(&ext);
            },
        }
    }
}

/// The paths among `paths` that are searched: those that do not count as
/// binary, in their order.
pub open spec fn searched(paths: Seq<Seq<char>>) -> Seq<Seq<char>> {
    paths.filter(|path: Seq<char>| !binary_path(path))
}

/// Keeps the paths of the files that are searched: those that do not count
/// as binary, in the order in which they were found.
pub fn text_files(paths: &Vec<String>) -> (out: Vec<String>)
    ensures
        texts(out@) == searched(texts(paths@)),
{
    let ghost all = texts(paths@);
    let mut out: Vec<String> = Vec::new();
    let mut i: usize = 0;
    proof {
        reveal(Seq::filter);
        assert(all.take(0) =~= Seq::empty());
        assert(texts(out@) =~= Seq::empty());
    }
    while i < paths.len()
        invariant
            i <= paths.len(),
            all == texts(paths@),
            texts(out@) == searched(all.take(i as int)),
        decreases paths.len() - i,
    {
        let path = &paths[i];
        let ghost kept = texts(out@);
        proof {
            reveal(Seq::filter);
            assert(all[i as int] == path@);
            assert(all.take(i + 1).drop_last() == all.take(i as int));
            assert(all.take(i + 1).last() == path@);
        }
        if !is_binary_file(path.as_str()) {
            out.push(path.clone());
            assert(texts(out@) =~= kept.push(path@));
        }
        i = i + 1;
    }
    assert(all.take(i as int) == all);
    out
}

} // verus!
