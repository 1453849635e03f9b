//! An in-memory filesystem index with fuzzy ranked search.
//!
//! The crate holds the engine of a file-search tool: an entry store built by
//! full-volume enumeration, a change-journal based incremental syncer, a
//! versioned binary cache codec, and a multi-token fuzzy search with ranked,
//! bounded results. All I/O (directory walks, journal ioctls, cache files)
//! lives outside this crate; the functions here work on plain values.

pub mod codec;
pub mod entry;
pub mod indexer;
pub mod searcher;
pub mod sync;
pub mod text;
pub mod usn;
