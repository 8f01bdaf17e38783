//! Semantic search over the text files of a directory tree: the chunk, embed,
//! cache and rank pipeline, with its rules stated as contracts.
//!
//! A file's text is split into segments, each segment is embedded as a
//! vector, and the chunks that result are kept in a cache entry named by the
//! fingerprint of the text. A query is embedded the same way, and the chunks
//! of all files are ranked by their similarity to it.
//!
//! The library decides and computes; it reads no file and asks no backend.
//! The caller does that work and reports its outcomes: [`pipeline`] holds the
//! decisions on one file, [`search`] those on a run over many.
//!
//! Numbers with a fraction (the components of a vector, a similarity, the
//! floor) are IEEE 754 single-precision values held by their bit patterns.
//! The library orders and compares them ([`rank`]); the arithmetic on them,
//! the similarity of two vectors, is the caller's.
//!
//! Four calls leave the verified code, each behind a function whose contract
//! says that the outcome depends on the arguments alone, and of the digest
//! how long it is: the SHA-256 digest ([`fingerprint`]), the splitting of a
//! text by tokens ([`chunker`]), and the writing and reading of a cache
//! entry ([`cache`]). What the splitter and the writer hand back is checked
//! before it is used, and the splitter is not asked where it would not
//! return: with no budget, or with a run of white space too long for its
//! tokenizer.

pub mod args;
pub mod cache;
pub mod chunker;
pub mod clients;
pub mod files;
pub mod fingerprint;
pub mod pipeline;
pub mod rank;
pub mod search;
pub mod text;
mod vecs;
