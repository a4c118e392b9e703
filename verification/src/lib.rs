//! A persistent key–value store built on an append-only log.
//!
//! Every write is appended as a self-delimiting record to the active segment
//! of a segment directory; an in-memory index maps each live key to the byte
//! range of its latest record. Reopening a directory rebuilds the index by
//! replaying the segments in ascending order, and compaction rewrites the
//! live records into a fresh segment once enough stale bytes have piled up.
//!
//! The store works on a directory held as plain bytes, so every operation is
//! a function of values and is verified against a mathematical model of the
//! log. What has to happen to the segment files is noted in a journal of
//! actions; performing them, and moving requests and responses over a
//! socket, is left to the caller.
//!
//! - [`quoting`], [`command`], [`segment`]: the record encoding and the log.
//! - [`names`]: the names of the segment files.
//! - [`index`], [`replay`]: the index and how it is rebuilt from the log.
//! - [`kv`], [`compaction`], [`journal`]: the engine.
//! - [`history`]: what the engine promises over time.
//! - [`protocol`], [`engine`], [`server`]: requests, responses and the
//!   dispatcher.

pub mod command;
pub mod compaction;
pub mod engine;
pub mod error;
pub mod history;
pub mod index;
pub mod journal;
pub mod kv;
pub mod names;
pub mod protocol;
pub mod quoting;
pub mod replay;
pub mod segment;
pub mod server;

pub use crate::engine::KvsEngine;
pub use crate::error::KvsError;
pub use crate::index::CommandMetadata;
pub use crate::kv::KvStore;
pub use crate::server::KvsServer;
