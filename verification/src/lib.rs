//! Parallel, resumable pull synchronisation: the rules behind the transfers.
//!
//! The crate holds what a sync decides and computes: how a source is named, how
//! settings are resolved, how an S3 listing becomes a set of entries, which
//! blocks of a large file are fetched again, and how a delta plan rebuilds a
//! file. Reading, writing and talking to a remote are left to the caller, who
//! performs the actions that the state machines here ask for.
pub mod block_delta;
pub mod config;
pub mod delta;
pub mod hashing;
pub mod listing;
pub mod numerals;
pub mod remote;
pub mod s3;
pub mod state;
pub mod text;
