//! Content fingerprints: the digest of a file's text, and the name of the
//! cache entry that belongs to it.

use vstd::prelude::*;
use vstd::string::StringExecFns;
use vstd::utf8::encode_utf8;

verus! {

/// Length in bytes of a fingerprint.
pub const FINGERPRINT_LEN: usize = 32;

/// The SHA-256 digest of `data`, as the `sha2` crate computes it.
pub uninterp spec fn sha256(data: Seq<u8>) -> Seq<u8>;

/// Calls `sha2::Sha256::digest` (the one-shot form of `digest::Digest`) on
/// `data` and copies the output array into a vector.
///
/// Trusted: the result is the digest named by [`sha256`], a function of the
/// input bytes alone, and it is 32 bytes long (the output size of `Sha256`).
#[verifier::external_body]
fn sha256_digest(data: &[u8]) -> (out: Vec<u8>)
    ensures
        out@ == sha256(data@),
        out@.len() == 32,
{
    <sha2::Sha256 as sha2::Digest>::digest(data).to_vec()
}

/// The fingerprint of a text: the SHA-256 digest of its UTF-8 bytes.
pub open spec fn fingerprint_of(text: Seq<char>) -> Seq<u8> {
    sha256(encode_utf8(text))
}

/// Computes the fingerprint of `text`.
///
/// The fingerprint depends on the text alone: equal texts have equal
/// fingerprints, whatever file they come from.
pub fn fingerprint(text: &str) -> (out: Vec<u8>)
    ensures
        out@ == fingerprint_of(text@),
        out@.len() == FINGERPRINT_LEN,
{
    sha256_digest(text.as_bytes())
}

/// The digits of base sixteen, in lower case.
pub open spec fn hex_digits() -> Seq<char> {
    seq!['0', '1', '2', '3', '4', '5', '6', '7', '8', '9', 'a', 'b', 'c', 'd', 'e', 'f']
}

/// The lower-case hexadecimal form of `bytes`: two digits for each byte, the
/// high half first.
pub open spec fn hex(bytes: Seq<u8>) -> Seq<char> {
    Seq::new(
        2 * bytes.len(),
        |i: int|
            if i % 2 == 0 {
                hex_digits()[bytes[i / 2] as int / 16]
            } else {
                hex_digits()[bytes[i / 2] as int % 16]
            },
    )
}

/// The suffix of a cache entry's file name.
pub open spec fn cache_suffix() -> Seq<char> {
    seq!['.', 'c', 'a', 'c', 'h', 'e']
}

/// The file name of the cache entry for a fingerprint.
pub open spec fn entry_name(fingerprint: Seq<u8>) -> Seq<char> {
    hex(fingerprint) + cache_suffix()
}

/// The file name of the cache entry for a text.
pub open spec fn cache_name_of(text: Seq<char>) -> Seq<char> {
    entry_name(fingerprint_of(text))
}

fn digit(value: u8) -> (out: &'static str)
    requires
        value < 16,
    ensures
        out@ == seq![hex_digits()[value as int]],
{
    proof {
        reveal_strlit("0");
        reveal_strlit("1");
        reveal_strlit("2");
        reveal_strlit("3");
        reveal_strlit("4");
        reveal_strlit("5");
        reveal_strlit("6");
        reveal_strlit("7");
        reveal_strlit("8");
        reveal_strlit("9");
        reveal_strlit("a");
        reveal_strlit("b");
        reveal_strlit("c");
        reveal_strlit("d");
        reveal_strlit("e");
        reveal_strlit("f");
    }
    let out = match value {
        0 => "0",
        1 => "1",
        2 => "2",
        3 => "3",
        4 => "4",
        5 => "5",
        6 => "6",
        7 => "7",
        8 => "8",
        9 => "9",
        10 => "a",
        11 => "b",
        12 => "c",
        13 => "d",
        14 => "e",
        _ => "f",
    };
    assert(out@ =~= seq![hex_digits()[value as int]]);
    out
}

/// Writes `bytes` in lower-case hexadecimal.
pub fn to_hex(bytes: &[u8]) -> (out: String)
    ensures
        out@ == hex(bytes@),
{
    let mut out = String::new();
    let mut i: usize = 0;
    while i < bytes.len()
        invariant
            i <= bytes.len(),
            out@ == hex(bytes@.take(i as int)),
        decreases bytes.len() - i,
    {
        let byte = bytes[i];
        out.append(digit(byte / 16));
        out.append(digit(byte % 16));
        i = i + 1;
        assert(out@ =~= hex(bytes@.take(i as int)));
    }
    assert(bytes@.take(i as int) == bytes@);
    out
}

/// Names the cache entry for a fingerprint: its hexadecimal form, followed
/// by `.cache`.
pub fn cache_entry_name(fingerprint: &[u8]) -> (out: String)
    ensures
        out@ == entry_name(fingerprint@),
{
    let mut out = to_hex(fingerprint);
    proof {
        reveal_strlit(".cache");
    }
    out.append(".cache");
    assert(out@ =~= entry_name(fingerprint@));
    out
}

/// Names the cache entry for a text. Files of equal content share one entry.
pub fn cache_file_name(text: &str) -> (out: String)
    ensures
        out@ == cache_name_of(text@),
{
    let fingerprint = fingerprint(text);
    cache_entry_name(fingerprint.as_slice())
}

/// Equal texts have equal fingerprints and share one cache entry.
pub proof fn lemma_fingerprint_deterministic(first: Seq<char>, second: Seq<char>)
    requires
        first == second,
    ensures
        fingerprint_of(first) == fingerprint_of(second),
        cache_name_of(first) == cache_name_of(second),
{
}

/// Byte sequences with the same hexadecimal form are the same.
pub proof fn lemma_hex_injective(first: Seq<u8>, second: Seq<u8>)
    requires
        hex(first) == hex(second),
    ensures
        first == second,
{
    assert(hex(first).len() == 2 * first.len());
    assert(hex(second).len() == 2 * second.len());
    assert forall|k: int| 0 <= k < first.len() implies first[k] == second[k] by {
        let a = first[k] as int;
        let b = second[k] as int;
        assert((2 * k) / 2 == k && (2 * k + 1) / 2 == k);
        assert((2 * k) % 2 == 0 && (2 * k + 1) % 2 == 1);
        assert(hex(first)[2 * k] == hex_digits()[a / 16]);
        assert(hex(second)[2 * k] == hex_digits()[b / 16]);
        assert(hex(first)[2 * k + 1] == hex_digits()[a % 16]);
        assert(hex(second)[2 * k + 1] == hex_digits()[b % 16]);
        lemma_digits_distinct(a / 16, b / 16);
        lemma_digits_distinct(a % 16, b % 16);
    }
    assert(first =~= second);
}

proof fn lemma_digits_distinct(a: int, b: int)
    requires
        0 <= a < 16,
        0 <= b < 16,
        hex_digits()[a] == hex_digits()[b],
    ensures
        a == b,
{
}

/// Different fingerprints never share a cache entry: the name of an entry
/// determines the fingerprint.
pub proof fn lemma_entry_name_injective(first: Seq<u8>, second: Seq<u8>)
    requires
        entry_name(first) == entry_name(second),
    ensures
        first == second,
{
    let a = hex(first);
    let b = hex(second);
    let suffix = cache_suffix();
    assert((a + suffix).len() == (b + suffix).len());
    assert(a.len() == b.len());
    assert forall|k: int| 0 <= k < a.len() implies a[k] == b[k] by {
        assert((a + suffix)[k] == a[k]);
        assert((b + suffix)[k] == b[k]);
    }
    assert(a =~= b);
    lemma_hex_injective(first, second);
}

} // verus!
