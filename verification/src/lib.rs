//! A minimal local version-control engine.
//!
//! The library keeps, for each tracked file, an ordered list of version
//! records and an append-only byte arena (the blob); a shared commit log
//! records every commit in insertion order. A new version is stored only
//! when a file's content differs byte-for-byte from its most recent
//! recorded version. Reconstruction picks, per file, the version recorded
//! under a requested commit id, falling back to the latest version when
//! that id is absent from the file's history.

pub mod errors;
pub mod laws;
pub mod log;
pub mod path_code;
pub mod repo;
pub mod store;
