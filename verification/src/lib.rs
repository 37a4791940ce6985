//! A small key-value store built on a durable append-only log.
//!
//! The crate verifies the core of the system: the binary frame codec for
//! key-value operations, the log store with its uncommitted queue and offset
//! index, the replay that rebuilds a cache from the log, and the text
//! write-ahead-log line format. Process plumbing (files, sockets, the async
//! runtime) lives outside the library and hands it plain values.

pub mod encoding;
pub mod error;
pub mod kv;
pub mod log;
pub mod logger;
pub mod records;
pub mod service;
pub mod wal;
