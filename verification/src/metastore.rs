//! Blob-level metadata records: a compact fixed-shape header describing what
//! a stored blob is and how it was hashed and compressed.

use vstd::prelude::*;

verus! {

/// Version tag of the metadata record layout.
#[derive(Clone, Copy, PartialEq, Eq, Structural, Hash, Debug)]
pub enum MetadataVersion {
    V0,
}

/// What a stored blob is: a bare chunk, a file stored as its single chunk,
/// or a multi-chunk file whose blob is a chunk index.
#[derive(Clone, Copy, PartialEq, Eq, Structural, Hash, Debug)]
pub enum ChunkType {
    Chunk,
    SingleChunkFile,
    MultiChunkFile,
}

/// The hash algorithm of a blob-level record.
#[derive(Clone, Copy, PartialEq, Eq, Structural, Hash, Debug)]
pub enum HashAlgorithm {
    Blake3,
}

/// How a blob's bytes are compressed on disk.
#[derive(Clone, Copy, PartialEq, Eq, Structural, Hash, Debug)]
pub enum Compression {
    Uncompressed,
    Zstd,
}

/// A blob-level metadata record: layout version, blob kind, hash algorithm,
/// compression, and the blob's 32-byte content hash.
#[derive(Clone, Copy, Debug)]
pub struct Metadata {
    pub version: MetadataVersion,
    pub chunk_type: ChunkType,
    pub hash_algorithm: HashAlgorithm,
    pub compression: Compression,
    pub hash: [u8; 32],
}

impl Default for Metadata {
    /// A fresh record: the first layout version, a bare uncompressed BLAKE3
    /// chunk, and an all-zero hash.
    fn default() -> (r: Self)
        ensures
            r.version == MetadataVersion::V0,
            r.chunk_type == ChunkType::Chunk,
            r.hash_algorithm == HashAlgorithm::Blake3,
            r.compression == Compression::Uncompressed,
            forall|i: int| 0 <= i < 32 ==> r.hash@[i] == 0u8,
    {
        Metadata {
            version: MetadataVersion::V0,
            chunk_type: ChunkType::Chunk,
            hash_algorithm: HashAlgorithm::Blake3,
            compression: Compression::Uncompressed,
            hash: [0u8; 32],
        }
    }
}

} // verus!
