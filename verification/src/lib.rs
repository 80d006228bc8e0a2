//! The decisions of an event analytics store: who may write and read, what an
//! accepted event looks like, how the log is kept and compacted, how users are
//! erased, and how a funnel is counted.
pub mod auth;
pub mod compactor;
pub mod config;
pub mod erase;
pub mod event;
pub mod funnel;
pub mod ingest;
pub mod json;
pub mod listing;
pub mod mcp;
pub mod query;
pub mod seal;
pub mod text;
pub mod time;
pub mod wal;
