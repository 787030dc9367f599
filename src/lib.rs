//! A fact-verification log: a checksummed tagged write-ahead log with
//! tail-truncation recovery, a tag-meaning fast path, canonical tag keys,
//! an ordered verification grade, and the decisions of the ingestion
//! pipeline and the streaming session.
pub mod models;
pub mod status;
pub mod text;
pub mod wal;
pub mod wal_laws;
pub mod meaning;
pub mod tags;
pub mod verdict;
pub mod pipeline;
pub mod index;
pub mod session;
pub mod history;
pub mod line_server;
