//! Incremental, content-addressed file-versioning engine.
//!
//! Given file contents and metadata handed in by a thin I/O shell, the
//! library decides which files changed, computes a line-ending-insensitive
//! content hash, derives diff and snapshot actions, and maintains a durable
//! per-file version history.

pub mod alias;
pub mod canon;
pub mod diff;
pub mod hex;
pub mod history;
pub mod json;
pub mod pipeline;
pub mod sha;
pub mod storage;
