//! The data model: fixed-layout content-hash identifiers for chunks and
//! files, chunk metadata, file manifests, and the record types reserved for a
//! future garbage-collection pass.

use vstd::prelude::*;
use crate::hashes::{spec_blake3, spec_sha1, blake3_digest, sha1_digest};

verus! {

/// The hash algorithms a content hash can carry. Equality of identifiers is
/// structural, so identifiers made with different algorithms never compare
/// equal, even over the same content.
#[derive(Clone, Copy, PartialEq, Eq, Structural, Hash, Debug)]
pub enum HashAlgorithm {
    Sha1,
    Blake3,
}

/// The mathematical picture of a content hash: an algorithm tag and the 28
/// bytes of hash material.
pub struct ContentHashV {
    pub algo: HashAlgorithm,
    pub bytes: Seq<u8>,
}

/// The hash material a given algorithm puts in an identifier over `bytes`:
/// SHA-1 truncated to 20 bytes and padded with 8 zero bytes, or BLAKE3
/// truncated to 28 bytes.
pub open spec fn spec_hash_material(algo: HashAlgorithm, bytes: Seq<u8>) -> Seq<u8> {
    match algo {
        HashAlgorithm::Sha1 => spec_sha1(bytes).take(20) + Seq::new(8, |i: int| 0u8),
        HashAlgorithm::Blake3 => spec_blake3(bytes).take(28),
    }
}

pub open spec fn spec_content_hash(algo: HashAlgorithm, bytes: Seq<u8>) -> ContentHashV {
    ContentHashV { algo, bytes: spec_hash_material(algo, bytes) }
}

/// A fixed-layout content-hash identifier: an algorithm tag and 28 bytes of
/// hash material. On disk it occupies 32 bytes; the three reserved padding
/// bytes exist only in the encoding (see the codec) and must be zero there.
#[derive(Clone, Copy, PartialEq, Eq, Hash, Debug)]
pub struct ContentHash {
    pub hash_algorithm: HashAlgorithm,
    pub hash_bytes: [u8; 28],
}

impl View for ContentHash {
    type V = ContentHashV;

    open spec fn view(&self) -> ContentHashV {
        ContentHashV { algo: self.hash_algorithm, bytes: self.hash_bytes@ }
    }
}

impl ContentHash {
    /// Hash `contents` with the default algorithm (BLAKE3).
    pub fn new(contents: &[u8]) -> (r: ContentHash)
        ensures
            r@ == spec_content_hash(HashAlgorithm::Blake3, contents@),
    {
        Self::with_algorithm(HashAlgorithm::Blake3, contents)
    }

    /// Hash `contents` with the given algorithm.
    pub fn with_algorithm(algo: HashAlgorithm, contents: &[u8]) -> (r: ContentHash)
        ensures
            r@ == spec_content_hash(algo, contents@),
    {
        let hash_bytes: [u8; 28] = match algo {
            HashAlgorithm::Sha1 => {
                let digest = sha1_digest(contents);
                let mut out = [0u8; 28];
                let mut i: usize = 0;
                while i < 20
                    invariant
                        i <= 20,
                        digest@.len() == 20,
                        out@.len() == 28,
                        forall|j: int| 0 <= j < i ==> out@[j] == digest@[j],
                        forall|j: int| i <= j < 28 ==> out@[j] == 0u8,
                    decreases 20 - i,
                {
                    out[i] = digest[i];
                    i += 1;
                }
                proof {
                    assert(out@ =~= spec_hash_material(HashAlgorithm::Sha1, contents@));
                }
                out
            },
            HashAlgorithm::Blake3 => {
                let digest = blake3_digest(contents);
                let mut out = [0u8; 28];
                let mut i: usize = 0;
                while i < 28
                    invariant
                        i <= 28,
                        digest@.len() == 32,
                        out@.len() == 28,
                        forall|j: int| 0 <= j < i ==> out@[j] == digest@[j],
                    decreases 28 - i,
                {
                    out[i] = digest[i];
                    i += 1;
                }
                proof {
                    assert(out@ =~= spec_hash_material(HashAlgorithm::Blake3, contents@));
                }
                out
            },
        };
        ContentHash { hash_algorithm: algo, hash_bytes }
    }

    /// Build the identifier `new` would compute, from an already-computed
    /// 32-byte BLAKE3 digest.
    pub fn from_blake3_digest(digest: &[u8; 32]) -> (r: ContentHash)
        ensures
            r@ == (ContentHashV { algo: HashAlgorithm::Blake3, bytes: digest@.take(28) }),
    {
        let mut out = [0u8; 28];
        let mut i: usize = 0;
        while i < 28
            invariant
                i <= 28,
                digest@.len() == 32,
                out@.len() == 28,
                forall|j: int| 0 <= j < i ==> out@[j] == digest@[j],
            decreases 28 - i,
        {
            out[i] = digest[i];
            i += 1;
        }
        proof {
            assert(out@ =~= digest@.take(28));
        }
        ContentHash { hash_algorithm: HashAlgorithm::Blake3, hash_bytes: out }
    }

    /// Structural equality over the algorithm tag and all 28 hash bytes.
    pub fn same_as(&self, other: &ContentHash) -> (r: bool)
        ensures
            r == (self@ == other@),
    {
        let algo_eq = match (self.hash_algorithm, other.hash_algorithm) {
            (HashAlgorithm::Sha1, HashAlgorithm::Sha1) => true,
            (HashAlgorithm::Blake3, HashAlgorithm::Blake3) => true,
            _ => false,
        };
        if !algo_eq {
            return false;
        }
        let mut i: usize = 0;
        while i < 28
            invariant
                i <= 28,
                forall|j: int| 0 <= j < i ==> self.hash_bytes@[j] == other.hash_bytes@[j],
            decreases 28 - i,
        {
            if self.hash_bytes[i] != other.hash_bytes[i] {
                return false;
            }
            i += 1;
        }
        proof {
            assert(self.hash_bytes@ =~= other.hash_bytes@);
        }
        true
    }
}

/// The identifier of a chunk: the content hash of its bytes.
#[derive(Clone, Copy, PartialEq, Eq, Hash, Debug)]
pub struct ChunkId(pub ContentHash);

/// The identifier a chunk with the given bytes gets.
pub open spec fn spec_chunk_id(bytes: Seq<u8>) -> ContentHashV {
    spec_content_hash(HashAlgorithm::Blake3, bytes)
}

impl View for ChunkId {
    type V = ContentHashV;

    open spec fn view(&self) -> ContentHashV {
        self.0@
    }
}

impl ChunkId {
    pub fn from_contents(contents: &[u8]) -> (r: ChunkId)
        ensures
            r@ == spec_chunk_id(contents@),
    {
        ChunkId(ContentHash::new(contents))
    }
}

/// The identifier of a file: the content hash of its whole contents.
#[derive(Clone, Copy, PartialEq, Eq, Hash, Debug)]
pub struct FileId(pub ContentHash);

/// The identifier a file with the given bytes gets.
pub open spec fn spec_file_id(bytes: Seq<u8>) -> ContentHashV {
    spec_content_hash(HashAlgorithm::Blake3, bytes)
}

impl View for FileId {
    type V = ContentHashV;

    open spec fn view(&self) -> ContentHashV {
        self.0@
    }
}

impl FileId {
    pub fn from_contents(contents: &[u8]) -> (r: FileId)
        ensures
            r@ == spec_file_id(contents@),
    {
        FileId(ContentHash::new(contents))
    }
}

/// How a chunk's bytes are stored inside its segment. Writes are currently
/// uncompressed; the variant for compressed data is reserved.
#[derive(Clone, Copy, PartialEq, Eq, Structural, Hash, Debug)]
pub enum Compression {
    Uncompressed,
    Zstd,
}

/// A segment identifier: an opaque 16-byte UUID.
#[derive(Clone, Copy, PartialEq, Eq, Hash, Debug)]
pub struct SegmentId {
    pub uuid: [u8; 16],
}

impl View for SegmentId {
    type V = Seq<u8>;

    open spec fn view(&self) -> Seq<u8> {
        self.uuid@
    }
}

impl SegmentId {
    /// Structural equality over all 16 bytes.
    pub fn same_as(&self, other: &SegmentId) -> (r: bool)
        ensures
            r == (self@ == other@),
    {
        let mut i: usize = 0;
        while i < 16
            invariant
                i <= 16,
                forall|j: int| 0 <= j < i ==> self.uuid@[j] == other.uuid@[j],
            decreases 16 - i,
        {
            if self.uuid[i] != other.uuid[i] {
                return false;
            }
            i += 1;
        }
        proof {
            assert(self.uuid@ =~= other.uuid@);
        }
        true
    }
}

/// The mathematical picture of chunk metadata.
pub struct ChunkV {
    pub size: u32,
    pub compression: Compression,
    pub compressed_size: u32,
    pub segment_id: Seq<u8>,
    pub offset_in_segment: u32,
}

/// Chunk metadata: where inside which segment the chunk's bytes lie.
#[derive(Clone, Copy, Debug)]
pub struct Chunk {
    pub size: u32,
    pub compression: Compression,
    pub compressed_size: u32,
    pub segment_id: SegmentId,
    pub offset_in_segment: u32,
}

impl View for Chunk {
    type V = ChunkV;

    open spec fn view(&self) -> ChunkV {
        ChunkV {
            size: self.size,
            compression: self.compression,
            compressed_size: self.compressed_size,
            segment_id: self.segment_id@,
            offset_in_segment: self.offset_in_segment,
        }
    }
}

/// One chunk reference inside a `Chunked` manifest.
pub struct FileChunkV {
    pub chunk_size: u32,
    pub chunk_id: ContentHashV,
}

#[derive(Clone, Copy, Debug)]
pub struct FileChunk {
    pub chunk_size: u32,
    pub chunk_id: ChunkId,
}

impl View for FileChunk {
    type V = FileChunkV;

    open spec fn view(&self) -> FileChunkV {
        FileChunkV { chunk_size: self.chunk_size, chunk_id: self.chunk_id@ }
    }
}

/// The mathematical picture of a manifest body.
pub enum FileContentsV {
    Inline(Seq<u8>),
    Chunked(Seq<FileChunkV>),
}

/// A manifest body: either the file's bytes themselves (tiny files) or the
/// ordered list of chunks composing the file.
#[derive(Clone, Debug)]
pub enum FileContents {
    Inline(Vec<u8>),
    Chunked(Vec<FileChunk>),
}

impl View for FileContents {
    type V = FileContentsV;

    open spec fn view(&self) -> FileContentsV {
        match self {
            FileContents::Inline(bytes) => FileContentsV::Inline(bytes@),
            FileContents::Chunked(chunks) => FileContentsV::Chunked(
                chunks@.map_values(|c: FileChunk| c@),
            ),
        }
    }
}

/// The mathematical picture of a file manifest.
pub struct FileV {
    pub size: u64,
    pub contents: FileContentsV,
}

/// A file manifest: the file's total size and how to reassemble its bytes.
#[derive(Clone, Debug)]
pub struct File {
    pub size: u64,
    pub contents: FileContents,
}

impl View for File {
    type V = FileV;

    open spec fn view(&self) -> FileV {
        FileV { size: self.size, contents: self.contents@ }
    }
}

/// The sum of the chunk sizes recorded in a manifest's chunk list.
pub open spec fn spec_chunk_sizes_sum(refs: Seq<FileChunkV>) -> int
    decreases refs.len(),
{
    if refs.len() == 0 {
        0
    } else {
        spec_chunk_sizes_sum(refs.drop_last()) + refs.last().chunk_size
    }
}

/// The structural invariant of a manifest: inline bytes match the recorded
/// size; a chunk list is non-empty and its sizes add up to the recorded size.
pub open spec fn spec_manifest_wf(f: FileV) -> bool {
    match f.contents {
        FileContentsV::Inline(bytes) => bytes.len() == f.size,
        FileContentsV::Chunked(refs) => refs.len() >= 1 && spec_chunk_sizes_sum(refs)
            == f.size,
    }
}

/// The subjects a future garbage collector will keep reference counts for.
#[derive(Clone, Copy, PartialEq, Eq, Hash, Debug)]
pub enum ReferenceCountType {
    Chunk(ChunkId),
    File(FileId),
    Segment(SegmentId),
}

/// A coarse expiration timestamp, reserved for a future garbage collector.
#[derive(Clone, Copy, PartialEq, Eq, Hash, Debug)]
pub struct Timestamp(pub u32);

/// A chunk held alive until an expiration time; reserved for future use.
#[derive(Clone, Copy, Debug)]
pub struct ChunkRef {
    pub chunk_id: ChunkId,
    pub expires: Timestamp,
}

/// A named file held alive until an expiration time; reserved for future use.
#[derive(Clone, Debug)]
pub struct FileReference {
    pub path: String,
    pub file_id: FileId,
    pub expires: Timestamp,
}

} // verus!
