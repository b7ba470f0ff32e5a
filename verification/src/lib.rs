//! Verified core of a native file-search indexer: the in-memory file index,
//! the Everything-compatible query language, the IPC protocol decisions, the
//! bounded content store and the result formatting helpers.
//!
//! Platform I/O (volume scans, change journals, sockets, the MCP transport)
//! lives in the application crate under `app/`.

pub mod aggregate;
pub mod benchmark;
pub mod clock;
pub mod content;
pub mod content_terms;
pub mod dates;
pub mod everything;
pub mod fanotify;
pub mod filter;
pub mod fmt;
pub mod folder_laws;
pub mod folder_totals;
pub mod index;
pub mod index_laws;
pub mod matcher;
pub mod mft;
pub mod native;
pub mod numparse;
pub mod platform;
pub mod protocol;
pub mod qparse;
pub mod query;
pub mod re;
pub mod results;
pub mod resume;
pub mod scan;
pub mod search;
pub mod sector_reader;
pub mod seqs;
pub mod sort;
pub mod tokenize;
pub mod tools;
pub mod term_laws;
pub mod text;
pub mod types;
pub mod usn;
pub mod walk;
pub mod walk_macos;
pub mod watch;
pub mod wildcard;
pub mod wildcard_laws;
