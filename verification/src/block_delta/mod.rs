//! Block-level delta transfers.
//!
//! A large file is cut into blocks of a fixed size. The digest of each block is
//! remembered once the file has been transferred; on the next run only the
//! blocks whose local digest is no longer the remembered one are fetched again.
pub mod blocks;
pub mod effect;
pub mod machine;
pub mod outcome;
