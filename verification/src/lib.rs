//! Storage core of a time-series database: the typed point model with its
//! stable on-disk type tags, write-ahead-log record framing and recovery,
//! the storage abstraction that partition backends implement, and an
//! in-memory backend.

pub mod memdb;
pub mod predicate;
pub mod storage;
pub mod wal;
