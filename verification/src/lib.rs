//! A content-addressed, deduplicating file store.
//!
//! Byte streams are cut into variable-sized chunks, each chunk is stored once
//! per namespace inside large append-only segments, and a per-file manifest
//! records how to reassemble the original bytes.

pub mod assoc;
pub mod hashes;
pub mod datamodel;
pub mod chunker;
pub mod store;
pub mod laws;
pub mod codec;
pub mod metastore;
pub mod workload;
