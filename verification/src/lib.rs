//! A lazy, recursive directory-tree walker that yields the file paths
//! satisfying a caller-chosen conjunction of predicates.
//!
//! The walker itself ([`walker::FileFilter`]) is a pull-based state machine:
//! it holds a one-shot start path and a stack of open directory listings,
//! and each call to `next` does only the work needed to find one more
//! result. All filesystem access goes through the [`fs::FileSystem`]
//! trait, so the traversal logic is verified once for every filesystem;
//! [`memfs::MemFs`] is a verified in-memory filesystem used by the tests.

pub mod path;
pub mod filter;
pub mod fs;
pub mod memfs;
pub mod walker;
