//! Core of a source-repository code-search engine.
//!
//! The crate ingests directory trees of source files, maintains a compact
//! snapshot of file metadata, computes incremental deltas, and prepares the
//! work an inverted-index backend has to perform.  Everything that decides or
//! computes lives here, with contracts; the thin adapters that touch the
//! filesystem, the index backend, and the terminal live outside the library.

pub mod change;
pub mod document;
pub mod codec;
pub mod index_manager;
pub mod storage;
pub mod text;
pub mod utils;
pub mod tokenizer;
pub mod writer;
