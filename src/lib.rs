//! A content-addressed, incremental backup engine for append-only media.
//!
//! A run lists the source tree, decides per file from its index row whether
//! its bytes must be hashed again, builds the Merkle tree of directories
//! bottom-up, plans every blob the catalog lacks, lays the blobs out on tape,
//! and gathers the catalog rows committed once the tape is durable.

pub mod codec;
pub mod commit;
pub mod config;
pub mod diff;
pub mod models;
pub mod pipeline;
pub mod plan_laws;
pub mod scanner;
pub mod tape;
