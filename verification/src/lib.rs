//! A persistent, log-structured key/value store for string keys and values.
//!
//! The store appends `Set` and `Remove` records to numbered segment files,
//! keeps an in-memory index from each live key to the byte range of its
//! latest record, and compacts the log once the count of stale bytes crosses
//! a threshold.  This crate verifies the storage engine itself: the record
//! codec, the segment directory model, the index, and the engine operations
//! `open`, `get`, `set`, `remove` and `compact`, together with their
//! crash-recovery and space-accounting invariants.  File and network I/O are
//! performed by unverified callers, which hand the engine segment contents
//! as plain byte vectors and persist the bytes the engine produces.

pub mod client;
pub mod codec;
pub mod commands;
pub mod engine;
pub mod errors;
pub mod kv;
pub mod log_pointer;
pub mod reader;
pub mod response;
pub mod server;
pub mod sled_engine;
pub mod writer;

pub use commands::{Command, GetArgs, Opt, RmArgs, RunOutcome, SetArgs};
pub use commands::run;
pub use engine::KvsEngine;
pub use errors::KvsError;
pub use kv::{KvStore, LogFile, COMPACTION_THRESHOLD};
pub use response::CommandResponse;
pub use server::{Engine, parse_engine, serve_command};
pub use client::interpret_response;
pub use sled_engine::SledKvsEngine;
pub use log_pointer::LogPointer;
pub use reader::BufReaderWithPos;
pub use writer::BufWriterWithPos;
