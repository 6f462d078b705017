//! The content-addressed store: chunk index, segment packer, file manifests
//! and the named-file index, all per 64-bit namespace.
//!
//! State is kept as append-mostly logs of rows; the abstract picture of each
//! index is `find_last` over the log (see `assoc`). The store's
//! well-formedness `wf` pins the content-addressed integrity: every committed
//! chunk row points inside an existing segment, and the bytes there hash to
//! the row's chunk id.

use vstd::prelude::*;
use vstd::slice::{slice_subrange, slice_to_vec};
use crate::assoc::{find_last, lemma_find_last_take, lemma_find_last_push, lemma_find_last_index};
use crate::datamodel::{
    ChunkId, FileId, Chunk, ChunkV, File, FileV, FileContents, FileContentsV, FileChunk,
    FileChunkV, SegmentId, Compression, ContentHashV, spec_chunk_id, spec_file_id,
    spec_manifest_wf, spec_chunk_sizes_sum,
};
use crate::chunker::{ChunkingStrategy, MIN_CHUNK, AVG_CHUNK, MAX_CHUNK, chunk_bytes, spec_split,
    views_of};
use crate::hashes::{hasher_fed, hasher_new, hasher_update, hasher_finalize};

verus! {

/// A 64-bit tenant identifier. Every key of every index is prefixed by one;
/// deduplication happens per namespace.
#[derive(Clone, Copy, PartialEq, Eq, Structural, Hash, Debug)]
pub struct Namespace(pub u64);

impl View for Namespace {
    type V = u64;

    open spec fn view(&self) -> u64 {
        self.0
    }
}

/// An append-only in-memory byte buffer packing many chunks.
#[derive(Debug)]
pub struct Segment(pub Vec<u8>);

impl View for Segment {
    type V = Seq<u8>;

    open spec fn view(&self) -> Seq<u8> {
        self.0@
    }
}

/// Per-session configuration: the inline threshold, the segment size cap and
/// the chunking strategy.
#[derive(Clone, Copy, Debug)]
pub struct Config {
    pub inline_size: u64,
    pub segment_size: u64,
    pub chunking_strategy: ChunkingStrategy,
}

impl Config {
    pub open spec fn wf(self) -> bool {
        self.chunking_strategy.wf()
    }
}

impl Default for Config {
    /// 256-byte inline threshold, 1 GiB segments, FastCDC with the default
    /// 1 MiB / 2 MiB / 4 MiB parameters.
    fn default() -> (r: Self)
        ensures
            r.inline_size == 256,
            r.segment_size == 0x4000_0000,
            r.chunking_strategy == ChunkingStrategy::Cdc(MIN_CHUNK, AVG_CHUNK, MAX_CHUNK),
            r.wf(),
    {
        Config {
            inline_size: 256,
            segment_size: 0x4000_0000,
            chunking_strategy: ChunkingStrategy::Cdc(MIN_CHUNK, AVG_CHUNK, MAX_CHUNK),
        }
    }
}

/// Why a store operation failed.
#[derive(Clone, Copy, PartialEq, Eq, Structural, Debug)]
pub enum StoreError {
    /// The requested chunk, file or name is not recorded.
    NotFound,
    /// A recorded manifest references a chunk that is not recorded: an
    /// integrity violation.
    Integrity,
    /// An upload produced no chunks, so no manifest can be written.
    EmptyUpload,
    /// No segment could be opened to place a chunk in: a fresh segment id
    /// collided with an existing segment that is already too full.
    Storage,
}

/// The process-wide store: per-namespace chunk rows, manifests and name
/// bindings, plus the shared segments and the currently open segment.
pub struct FileStore {
    chunks: Vec<((Namespace, ChunkId), Chunk)>,
    files: Vec<((Namespace, FileId), File)>,
    named_files: Vec<((Namespace, String), FileId)>,
    segments: Vec<(SegmentId, Segment)>,
    open_segment: Option<usize>,
}

impl FileStore {
    /// The chunk index as a log of key/value rows.
    pub closed spec fn chunks_log(self) -> Seq<((u64, ContentHashV), ChunkV)> {
        self.chunks@.map_values(
            |e: ((Namespace, ChunkId), Chunk)| ((e.0.0@, e.0.1@), e.1@),
        )
    }

    /// The manifest index as a log of key/value rows.
    pub closed spec fn files_log(self) -> Seq<((u64, ContentHashV), FileV)> {
        self.files@.map_values(|e: ((Namespace, FileId), File)| ((e.0.0@, e.0.1@), e.1@))
    }

    /// The name index as a log of key/value rows.
    pub closed spec fn named_log(self) -> Seq<((u64, Seq<char>), ContentHashV)> {
        self.named_files@.map_values(
            |e: ((Namespace, String), FileId)| ((e.0.0@, e.0.1@), e.1@),
        )
    }

    /// The segments as a log of id/bytes rows.
    pub closed spec fn segs_log(self) -> Seq<(Seq<u8>, Seq<u8>)> {
        self.segments@.map_values(|e: (SegmentId, Segment)| (e.0@, e.1@))
    }

    /// The chunk metadata recorded for `(ns, id)`.
    pub closed spec fn chunk_at(self, ns: u64, id: ContentHashV) -> Option<ChunkV> {
        find_last(self.chunks_log(), (ns, id))
    }

    /// The manifest recorded for `(ns, fid)`.
    pub closed spec fn file_at(self, ns: u64, fid: ContentHashV) -> Option<FileV> {
        find_last(self.files_log(), (ns, fid))
    }

    /// The file id bound to `(ns, name)`.
    pub closed spec fn named_at(self, ns: u64, name: Seq<char>) -> Option<ContentHashV> {
        find_last(self.named_log(), (ns, name))
    }

    /// The bytes of the segment with the given id.
    pub closed spec fn seg_bytes(self, sid: Seq<u8>) -> Option<Seq<u8>> {
        find_last(self.segs_log(), sid)
    }

    /// The bytes of the segment with the given id, empty if no such segment
    /// exists yet.
    pub open spec fn seg_bytes_or_empty(self, sid: Seq<u8>) -> Seq<u8> {
        match self.seg_bytes(sid) {
            Some(bytes) => bytes,
            None => Seq::empty(),
        }
    }

    /// The id of the currently open segment, the one the next fresh chunk is
    /// appended to, if any.
    pub closed spec fn open_seg(self) -> Option<Seq<u8>> {
        match self.open_segment {
            Some(j) => if j < self.segments@.len() {
                Some(self.segs_log()[j as int].0)
            } else {
                None
            },
            None => None,
        }
    }

    /// How many chunk rows the store holds, over all namespaces.
    pub closed spec fn chunk_count(self) -> nat {
        self.chunks_log().len()
    }

    /// The bytes of the chunk recorded for `(ns, id)`: the slice of its
    /// segment that its metadata points at.
    pub open spec fn chunk_content(self, ns: u64, id: ContentHashV) -> Option<Seq<u8>> {
        match self.chunk_at(ns, id) {
            Some(m) => match self.seg_bytes(m.segment_id) {
                Some(bytes) => if m.offset_in_segment + m.size <= bytes.len() {
                    Some(
                        bytes.subrange(
                            m.offset_in_segment as int,
                            m.offset_in_segment + m.size,
                        ),
                    )
                } else {
                    None
                },
                None => None,
            },
            None => None,
        }
    }

    /// Whether every chunk referenced by a manifest's chunk list is recorded
    /// and readable in the namespace.
    pub open spec fn refs_resolve(self, ns: u64, refs: Seq<FileChunkV>) -> bool {
        forall|k: int|
            0 <= k < refs.len() ==> self.chunk_content(ns, (#[trigger] refs[k]).chunk_id) is Some
    }

    /// The concatenation of the chunk contents a manifest's chunk list points
    /// at, in order.
    pub open spec fn cat_refs(self, ns: u64, refs: Seq<FileChunkV>) -> Seq<u8>
        decreases refs.len(),
    {
        if refs.len() == 0 {
            Seq::empty()
        } else {
            self.cat_refs(ns, refs.drop_last()) + match self.chunk_content(
                ns,
                refs.last().chunk_id,
            ) {
                Some(bytes) => bytes,
                None => Seq::empty(),
            }
        }
    }

    /// The bytes of the file recorded for `(ns, fid)`, when they are fully
    /// readable: inline bytes directly, or the concatenation of the chunks of
    /// a chunked manifest, provided every one of them resolves.
    pub open spec fn file_content(self, ns: u64, fid: ContentHashV) -> Option<Seq<u8>> {
        match self.file_at(ns, fid) {
            Some(f) => match f.contents {
                FileContentsV::Inline(bytes) => Some(bytes),
                FileContentsV::Chunked(refs) => if self.refs_resolve(ns, refs) {
                    Some(self.cat_refs(ns, refs))
                } else {
                    None
                },
            },
            None => None,
        }
    }

    /// One chunk row's integrity: stored uncompressed, pointing inside an
    /// existing segment, and keyed by the content hash of the bytes it points
    /// at.
    pub closed spec fn chunk_row_ok(self, row: ((u64, ContentHashV), ChunkV)) -> bool {
        &&& row.1.compression == Compression::Uncompressed
        &&& row.1.compressed_size == row.1.size
        &&& match self.seg_bytes(row.1.segment_id) {
            Some(bytes) => {
                &&& row.1.offset_in_segment + row.1.size <= bytes.len()
                &&& row.0.1 == spec_chunk_id(
                    bytes.subrange(
                        row.1.offset_in_segment as int,
                        row.1.offset_in_segment + row.1.size,
                    ),
                )
            },
            None => false,
        }
    }

    /// Well-formedness of the whole store: every chunk row has integrity,
    /// every manifest row has integrity, segment ids are distinct, no segment
    /// outgrows what a 32-bit offset can address, and the open-segment
    /// pointer is in range.
    pub closed spec fn wf(self) -> bool {
        &&& forall|i: int|
            0 <= i < self.chunks_log().len() ==> self.chunk_row_ok(
                #[trigger] self.chunks_log()[i],
            )
        &&& forall|i: int, j: int|
            0 <= i < j < self.segs_log().len() ==> (#[trigger] self.segs_log()[i]).0 != (
            #[trigger] self.segs_log()[j]).0
        &&& forall|i: int|
            0 <= i < self.segs_log().len() ==> (#[trigger] self.segs_log()[i]).1.len()
                <= u32::MAX
        &&& match self.open_segment {
            Some(j) => j < self.segments@.len(),
            None => true,
        }
    }

    /// An empty store.
    pub fn new() -> (r: FileStore)
        ensures
            r.wf(),
            r.chunk_count() == 0,
            forall|ns: u64, id: ContentHashV| #[trigger] r.chunk_at(ns, id) is None,
            forall|ns: u64, fid: ContentHashV| #[trigger] r.file_at(ns, fid) is None,
            forall|ns: u64, name: Seq<char>| #[trigger] r.named_at(ns, name) is None,
    {
        let r = FileStore {
            chunks: Vec::new(),
            files: Vec::new(),
            named_files: Vec::new(),
            segments: Vec::new(),
            open_segment: Option::None,
        };
        proof {
            assert(r.chunks_log() =~= Seq::<((u64, ContentHashV), ChunkV)>::empty());
            assert(r.files_log() =~= Seq::<((u64, ContentHashV), FileV)>::empty());
            assert(r.named_log() =~= Seq::<((u64, Seq<char>), ContentHashV)>::empty());
            assert(r.segs_log() =~= Seq::<(Seq<u8>, Seq<u8>)>::empty());
        }
        r
    }

    /// A session on this store for one namespace, under the default
    /// configuration.
    pub fn with_namespace(namespace: Namespace) -> (r: NamespacedFileStore)
        ensures
            r.namespace == namespace,
            r.config.wf(),
            r.config.inline_size == 256,
            r.config.segment_size == 0x4000_0000,
            r.config.chunking_strategy == ChunkingStrategy::Cdc(MIN_CHUNK, AVG_CHUNK, MAX_CHUNK),
    {
        NamespacedFileStore { config: Default::default(), namespace }
    }

    /// The number of chunk rows recorded, over all namespaces.
    pub fn chunk_row_count(&self) -> (r: usize)
        ensures
            r == self.chunk_count(),
    {
        self.chunks.len()
    }

    /// The manifest recorded for a file id in a namespace, if any.
    pub fn get_manifest(&self, ns: Namespace, file_id: &FileId) -> (r: Option<&File>)
        ensures
            match r {
                Some(f) => self.file_at(ns@, file_id@) == Some(f@),
                None => self.file_at(ns@, file_id@) is None,
            },
    {
        self.find_file(ns, file_id)
    }

    /// The metadata recorded for a chunk id in a namespace, if any.
    pub fn get_chunk_metadata(&self, ns: Namespace, chunk_id: &ChunkId) -> (r: Option<Chunk>)
        ensures
            match r {
                Some(c) => self.chunk_at(ns@, chunk_id@) == Some(c@),
                None => self.chunk_at(ns@, chunk_id@) is None,
            },
    {
        self.find_chunk(ns, chunk_id)
    }

    /// Find the metadata recorded for a chunk key, scanning the log from the
    /// newest row backwards.
    fn find_chunk(&self, ns: Namespace, id: &ChunkId) -> (r: Option<Chunk>)
        ensures
            match r {
                Some(c) => self.chunk_at(ns@, id@) == Some(c@),
                None => self.chunk_at(ns@, id@) is None,
            },
    {
        let ghost log = self.chunks_log();
        let ghost key = (ns@, id@);
        let mut i: usize = self.chunks.len();
        proof {
            assert(log.take(log.len() as int) =~= log);
        }
        while i > 0
            invariant
                i <= self.chunks.len(),
                log == self.chunks_log(),
                key == (ns@, id@),
                find_last(log, key) == find_last(log.take(i as int), key),
            decreases i,
        {
            i = i - 1;
            let row = &self.chunks[i];
            proof {
                lemma_find_last_take(log, i as int, key);
            }
            if row.0.0.0 == ns.0 && row.0.1.0.same_as(&id.0) {
                proof {
                    assert(log[i as int] == ((row.0.0@, row.0.1@), row.1@));
                }
                return Some(row.1);
            }
            proof {
                assert(log[i as int].0 != key);
            }
        }
        proof {
            assert(log.take(0) =~= Seq::<((u64, ContentHashV), ChunkV)>::empty());
        }
        Option::None
    }

    /// Find the manifest recorded for a file key.
    fn find_file(&self, ns: Namespace, id: &FileId) -> (r: Option<&File>)
        ensures
            match r {
                Some(f) => self.file_at(ns@, id@) == Some(f@),
                None => self.file_at(ns@, id@) is None,
            },
    {
        let ghost log = self.files_log();
        let ghost key = (ns@, id@);
        let mut i: usize = self.files.len();
        proof {
            assert(log.take(log.len() as int) =~= log);
        }
        while i > 0
            invariant
                i <= self.files.len(),
                log == self.files_log(),
                key == (ns@, id@),
                find_last(log, key) == find_last(log.take(i as int), key),
            decreases i,
        {
            i = i - 1;
            let row = &self.files[i];
            proof {
                lemma_find_last_take(log, i as int, key);
            }
            if row.0.0.0 == ns.0 && row.0.1.0.same_as(&id.0) {
                proof {
                    assert(log[i as int] == ((row.0.0@, row.0.1@), row.1@));
                }
                return Some(&row.1);
            }
            proof {
                assert(log[i as int].0 != key);
            }
        }
        proof {
            assert(log.take(0) =~= Seq::<((u64, ContentHashV), FileV)>::empty());
        }
        Option::None
    }

    /// Find the file id bound to a name.
    fn find_named(&self, ns: Namespace, name: &String) -> (r: Option<FileId>)
        ensures
            match r {
                Some(f) => self.named_at(ns@, name@) == Some(f@),
                None => self.named_at(ns@, name@) is None,
            },
    {
        let ghost log = self.named_log();
        let ghost key = (ns@, name@);
        let mut i: usize = self.named_files.len();
        proof {
            assert(log.take(log.len() as int) =~= log);
        }
        while i > 0
            invariant
                i <= self.named_files.len(),
                log == self.named_log(),
                key == (ns@, name@),
                find_last(log, key) == find_last(log.take(i as int), key),
            decreases i,
        {
            i = i - 1;
            let row = &self.named_files[i];
            proof {
                lemma_find_last_take(log, i as int, key);
            }
            if row.0.0.0 == ns.0 && row.0.1 == *name {
                proof {
                    assert(log[i as int] == ((row.0.0@, row.0.1@), row.1@));
                }
                return Some(row.1);
            }
            proof {
                assert(log[i as int].0 != key);
            }
        }
        proof {
            assert(log.take(0) =~= Seq::<((u64, Seq<char>), ContentHashV)>::empty());
        }
        Option::None
    }

    /// Find the position of the segment with the given id. Under `wf`
    /// segment ids are distinct, so the position determines `seg_bytes`.
    fn find_segment_index(&self, sid: &SegmentId) -> (r: Option<usize>)
        ensures
            match r {
                Some(j) => j < self.segments@.len() && self.segs_log()[j as int].0 == sid@
                    && (forall|i: int|
                    j < i < self.segs_log().len() ==> (#[trigger] self.segs_log()[i]).0 != sid@),
                None => self.seg_bytes(sid@) is None,
            },
    {
        let ghost log = self.segs_log();
        let mut i: usize = self.segments.len();
        proof {
            assert(log.take(log.len() as int) =~= log);
        }
        while i > 0
            invariant
                i <= self.segments.len(),
                log == self.segs_log(),
                forall|k: int| i <= k < log.len() ==> (#[trigger] log[k]).0 != sid@,
                find_last(log, sid@) == find_last(log.take(i as int), sid@),
            decreases i,
        {
            i = i - 1;
            let row = &self.segments[i];
            proof {
                lemma_find_last_take(log, i as int, sid@);
                assert(log[i as int] == (row.0@, row.1@));
            }
            if row.0.same_as(sid) {
                return Some(i);
            }
        }
        proof {
            assert(log.take(0) =~= Seq::<(Seq<u8>, Seq<u8>)>::empty());
        }
        Option::None
    }

    /// Under `wf`, a found segment position gives the segment's bytes.
    proof fn lemma_seg_index_bytes(self, j: int)
        requires
            self.wf(),
            0 <= j < self.segs_log().len(),
        ensures
            self.seg_bytes(self.segs_log()[j].0) == Some(self.segs_log()[j].1),
        decreases self.segs_log().len(),
    {
        let log = self.segs_log();
        lemma_find_last_index(log, log[j].0);
        match find_last(log, log[j].0) {
            Some(v) => {
                let i = choose|i: int|
                    0 <= i < log.len() && log[i].0 == log[j].0 && log[i].1 == v;
                assert(i == j);
            },
            None => {
                assert(log[j].0 == log[j].0);
            },
        }
    }

    /// Every committed chunk's metadata points at readable bytes: the offset
    /// plus the size never exceeds the segment's current length, and the
    /// bytes there hash to the chunk's id.
    pub proof fn lemma_chunk_meta_valid(self, ns: u64, id: ContentHashV)
        requires
            self.wf(),
            self.chunk_at(ns, id) is Some,
        ensures
            ({
                let m = self.chunk_at(ns, id)->Some_0;
                &&& self.seg_bytes(m.segment_id) is Some
                &&& m.offset_in_segment + m.size <= self.seg_bytes(m.segment_id)->Some_0.len()
                &&& m.compression == Compression::Uncompressed
                &&& m.compressed_size == m.size
                &&& self.chunk_content(ns, id) == Some(
                    self.seg_bytes(m.segment_id)->Some_0.subrange(
                        m.offset_in_segment as int,
                        m.offset_in_segment + m.size,
                    ),
                )
                &&& id == spec_chunk_id(self.chunk_content(ns, id)->Some_0)
            }),
    {
        let log = self.chunks_log();
        lemma_find_last_index(log, (ns, id));
        let m = self.chunk_at(ns, id)->Some_0;
        let i = choose|i: int|
            0 <= i < log.len() && log[i].0 == (ns, id) && log[i].1 == m;
        assert(self.chunk_row_ok(log[i]));
    }
}

/// A lightweight per-namespace session: a namespace and a configuration. It
/// owns no state; every operation takes the store it works on.
#[derive(Clone, Copy, Debug)]
pub struct NamespacedFileStore {
    pub config: Config,
    pub namespace: Namespace,
}

impl NamespacedFileStore {
    /// The same session under a different configuration.
    pub fn with_config(self, config: Config) -> (r: NamespacedFileStore)
        ensures
            r.config == config,
            r.namespace == self.namespace,
    {
        NamespacedFileStore { config, namespace: self.namespace }
    }

    /// Read back the bytes of a chunk.
    pub fn read_chunk(&self, fs: &FileStore, chunk_id: ChunkId) -> (r: Result<
        Vec<u8>,
        StoreError,
    >)
        requires
            fs.wf(),
        ensures
            match r {
                Ok(bytes) => fs.chunk_content(self.namespace@, chunk_id@) == Some(bytes@),
                Err(e) => e == StoreError::NotFound && fs.chunk_at(self.namespace@, chunk_id@)
                    is None,
            },
    {
        let meta = match fs.find_chunk(self.namespace, &chunk_id) {
            Option::None => {
                return Err(StoreError::NotFound);
            },
            Option::Some(meta) => meta,
        };
        proof {
            fs.lemma_chunk_meta_valid(self.namespace@, chunk_id@);
        }
        let j = match fs.find_segment_index(&meta.segment_id) {
            Option::None => {
                proof {
                    assert(false);
                }
                return Err(StoreError::NotFound);
            },
            Option::Some(j) => j,
        };
        proof {
            fs.lemma_seg_index_bytes(j as int);
        }
        let seg: &Segment = &fs.segments[j].1;
        let offset = meta.offset_in_segment as usize;
        let size = meta.size as usize;
        let bytes = slice_to_vec(slice_subrange(seg.0.as_slice(), offset, offset + size));
        Ok(bytes)
    }

    /// Read back the bytes of a file: inline bytes directly, or every chunk
    /// of a chunked manifest, concatenated in order.
    pub fn read_file(&self, fs: &FileStore, file_id: FileId) -> (r: Result<Vec<u8>, StoreError>)
        requires
            fs.wf(),
        ensures
            match r {
                Ok(bytes) => fs.file_content(self.namespace@, file_id@) == Some(bytes@),
                Err(StoreError::NotFound) => fs.file_at(self.namespace@, file_id@) is None,
                Err(StoreError::Integrity) => fs.file_at(self.namespace@, file_id@) is Some
                    && fs.file_content(self.namespace@, file_id@) is None,
                Err(StoreError::EmptyUpload) => false,
                Err(StoreError::Storage) => false,
            },
    {
        let ghost ns = self.namespace@;
        let file = match fs.find_file(self.namespace, &file_id) {
            Option::None => {
                return Err(StoreError::NotFound);
            },
            Option::Some(f) => f,
        };
        match &file.contents {
            FileContents::Inline(bytes) => Ok(clone_bytes(bytes)),
            FileContents::Chunked(chunk_list) => {
                let ghost refs = file@.contents->Chunked_0;
                let mut out: Vec<u8> = Vec::new();
                let mut k: usize = 0;
                while k < chunk_list.len()
                    invariant
                        fs.wf(),
                        ns == self.namespace@,
                        k <= chunk_list@.len(),
                        refs == chunk_list@.map_values(|c: FileChunk| c@),
                        fs.file_at(ns, file_id@) == Some(file@),
                        file@.contents == FileContentsV::Chunked(refs),
                        forall|j: int|
                            0 <= j < k ==> fs.chunk_content(
                                ns,
                                (#[trigger] refs[j]).chunk_id,
                            ) is Some,
                        out@ == fs.cat_refs(ns, refs.take(k as int)),
                    decreases chunk_list@.len() - k,
                {
                    let chunk_ref = &chunk_list[k];
                    proof {
                        assert(refs[k as int] == chunk_ref@);
                    }
                    let chunk = match self.read_chunk(fs, chunk_ref.chunk_id) {
                        Result::Err(_) => {
                            proof {
                                assert(!fs.refs_resolve(ns, refs));
                            }
                            return Err(StoreError::Integrity);
                        },
                        Result::Ok(chunk) => chunk,
                    };
                    let mut chunk = chunk;
                    proof {
                        assert(refs.take(k + 1).drop_last() =~= refs.take(k as int));
                        assert(refs.take(k + 1).last() == refs[k as int]);
                    }
                    out.append(&mut chunk);
                    k = k + 1;
                }
                proof {
                    assert(refs.take(refs.len() as int) =~= refs);
                    assert(fs.refs_resolve(ns, refs));
                }
                Ok(out)
            },
        }
    }

    /// Bind `name` to `file_id` in this namespace, last writer wins.
    pub fn associate_filename(&self, fs: &mut FileStore, file_id: FileId, name: &str)
        requires
            old(fs).wf(),
        ensures
            final(fs).wf(),
            final(fs).named_at(self.namespace@, name@) == Some(file_id@),
            forall|ns2: u64, n2: Seq<char>|
                (ns2, n2) != (self.namespace@, name@) ==> #[trigger] final(fs).named_at(ns2, n2)
                    == old(fs).named_at(ns2, n2),
            final(fs).chunks_log() == old(fs).chunks_log(),
            final(fs).files_log() == old(fs).files_log(),
            final(fs).segs_log() == old(fs).segs_log(),
            final(fs).chunk_count() == old(fs).chunk_count(),
            forall|ns2: u64, id2: ContentHashV| #[trigger]
                final(fs).chunk_at(ns2, id2) == old(fs).chunk_at(ns2, id2),
            forall|ns2: u64, fid2: ContentHashV| #[trigger]
                final(fs).file_at(ns2, fid2) == old(fs).file_at(ns2, fid2),
            forall|ns2: u64, fid2: ContentHashV| #[trigger]
                final(fs).file_content(ns2, fid2) == old(fs).file_content(ns2, fid2),
    {
        let ghost pre = *old(fs);
        let owned: String = name.to_owned();
        let row = ((self.namespace, owned), file_id);
        fs.named_files.push(row);
        proof {
            broadcast use lemma_find_last_push;

            assert(fs.named_log() =~= pre.named_log().push(
                ((self.namespace@, name@), file_id@),
            ));
            assert(fs.chunks_log() =~= pre.chunks_log());
            assert(fs.files_log() =~= pre.files_log());
            assert(fs.segs_log() =~= pre.segs_log());
            assert forall|ns2: u64, fid2: ContentHashV| #[trigger]
                fs.file_content(ns2, fid2) == pre.file_content(ns2, fid2) by {
                lemma_same_logs_same_content(pre, *fs, ns2, fid2);
            }
        }
    }

    /// Resolve a name to the file id it is bound to.
    pub fn resolve_name(&self, fs: &FileStore, name: &str) -> (r: Result<FileId, StoreError>)
        requires
            fs.wf(),
        ensures
            match r {
                Ok(fid) => fs.named_at(self.namespace@, name@) == Some(fid@),
                Err(e) => e == StoreError::NotFound && fs.named_at(self.namespace@, name@)
                    is None,
            },
    {
        let owned: String = name.to_owned();
        match fs.find_named(self.namespace, &owned) {
            Option::Some(fid) => Ok(fid),
            Option::None => Err(StoreError::NotFound),
        }
    }

    /// Read back the bytes of the file a name is bound to.
    pub fn read_named_file(&self, fs: &FileStore, name: &str) -> (r: Result<Vec<u8>, StoreError>)
        requires
            fs.wf(),
        ensures
            match r {
                Ok(bytes) => {
                    &&& fs.named_at(self.namespace@, name@) is Some
                    &&& fs.file_content(
                        self.namespace@,
                        fs.named_at(self.namespace@, name@)->Some_0,
                    ) == Some(bytes@)
                },
                Err(StoreError::NotFound) => fs.named_at(self.namespace@, name@) is None || fs
                    .file_at(self.namespace@, fs.named_at(self.namespace@, name@)->Some_0)
                    is None,
                Err(StoreError::Integrity) => fs.named_at(self.namespace@, name@) is Some && fs
                    .file_content(self.namespace@, fs.named_at(self.namespace@, name@)->Some_0)
                    is None,
                Err(StoreError::EmptyUpload) => false,
                Err(StoreError::Storage) => false,
            },
    {
        let file_id = match self.resolve_name(fs, name) {
            Result::Err(_) => {
                return Err(StoreError::NotFound);
            },
            Result::Ok(fid) => fid,
        };
        self.read_file(fs, file_id)
    }
}

/// Copy a byte vector.
fn clone_bytes(bytes: &Vec<u8>) -> (r: Vec<u8>)
    ensures
        r@ == bytes@,
{
    slice_to_vec(bytes.as_slice())
}

/// Stores with equal chunk, file and segment logs agree on every file's
/// content.
pub proof fn lemma_same_logs_same_content(a: FileStore, b: FileStore, ns: u64, fid: ContentHashV)
    requires
        a.chunks_log() == b.chunks_log(),
        a.files_log() == b.files_log(),
        a.segs_log() == b.segs_log(),
    ensures
        a.file_content(ns, fid) == b.file_content(ns, fid),
{
    match a.file_at(ns, fid) {
        Some(f) => match f.contents {
            FileContentsV::Inline(_) => {},
            FileContentsV::Chunked(refs) => {
                lemma_same_logs_same_cat(a, b, ns, refs);
                assert(a.refs_resolve(ns, refs) <==> b.refs_resolve(ns, refs));
            },
        },
        None => {},
    }
}

/// Stores with equal chunk and segment logs concatenate a chunk list to the
/// same bytes.
proof fn lemma_same_logs_same_cat(a: FileStore, b: FileStore, ns: u64, refs: Seq<FileChunkV>)
    requires
        a.chunks_log() == b.chunks_log(),
        a.segs_log() == b.segs_log(),
    ensures
        a.cat_refs(ns, refs) == b.cat_refs(ns, refs),
        forall|k: int|
            0 <= k < refs.len() ==> a.chunk_content(ns, (#[trigger] refs[k]).chunk_id) == b
                .chunk_content(ns, refs[k].chunk_id),
    decreases refs.len(),
{
    if refs.len() > 0 {
        lemma_same_logs_same_cat(a, b, ns, refs.drop_last());
        assert forall|k: int|
            0 <= k < refs.len() implies a.chunk_content(ns, (#[trigger] refs[k]).chunk_id) == b
            .chunk_content(ns, refs[k].chunk_id) by {
            if k < refs.len() - 1 {
                assert(refs.drop_last()[k] == refs[k]);
            }
        }
    }
}

/// Relies on `uuid::Uuid::new_v4`: a random version-4 UUID as 16 bytes;
/// nothing is promised of its value.
#[verifier::external_body]
fn new_uuid16() -> (r: [u8; 16]) {
    uuid::Uuid::new_v4().into_bytes()
}

/// Every chunk recorded in `pre` is recorded unchanged in `post`, with the
/// same readable bytes.
pub open spec fn chunks_preserved(pre: FileStore, post: FileStore) -> bool {
    forall|ns: u64, id: ContentHashV|
        (#[trigger] pre.chunk_at(ns, id)) is Some ==> post.chunk_at(ns, id) == pre.chunk_at(
            ns,
            id,
        ) && post.chunk_content(ns, id) == pre.chunk_content(ns, id)
}

/// Every manifest is unchanged, and every file that was fully readable in
/// `pre` reads to the same bytes in `post`.
pub open spec fn files_preserved(pre: FileStore, post: FileStore) -> bool {
    &&& forall|ns: u64, fid: ContentHashV| #[trigger]
        post.file_at(ns, fid) == pre.file_at(ns, fid)
    &&& forall|ns: u64, fid: ContentHashV|
        (#[trigger] pre.file_content(ns, fid)) is Some ==> post.file_content(ns, fid) == pre
            .file_content(ns, fid)
}

/// Every name binding is unchanged.
pub open spec fn named_preserved(pre: FileStore, post: FileStore) -> bool {
    forall|ns: u64, name: Seq<char>| #[trigger]
        post.named_at(ns, name) == pre.named_at(ns, name)
}

/// A prefix of a longer byte string has the same slices.
proof fn lemma_subrange_of_prefix(a: Seq<u8>, b: Seq<u8>, i: int, j: int)
    requires
        0 <= i <= j <= a.len(),
    ensures
        (a + b).subrange(i, j) == a.subrange(i, j),
{
    assert((a + b).subrange(i, j) =~= a.subrange(i, j));
}

/// Two stores whose chunk contents agree on a chunk list concatenate it to
/// the same bytes.
proof fn lemma_cat_refs_same(pre: FileStore, post: FileStore, ns: u64, refs: Seq<FileChunkV>)
    requires
        forall|k: int|
            0 <= k < refs.len() ==> post.chunk_content(ns, (#[trigger] refs[k]).chunk_id) == pre
                .chunk_content(ns, refs[k].chunk_id),
    ensures
        post.cat_refs(ns, refs) == pre.cat_refs(ns, refs),
    decreases refs.len(),
{
    if refs.len() > 0 {
        assert forall|k: int| 0 <= k < refs.drop_last().len() implies post.chunk_content(
            ns,
            (#[trigger] refs.drop_last()[k]).chunk_id,
        ) == pre.chunk_content(ns, refs.drop_last()[k].chunk_id) by {
            assert(refs.drop_last()[k] == refs[k]);
        }
        lemma_cat_refs_same(pre, post, ns, refs.drop_last());
        assert(refs[refs.len() - 1] == refs.last());
    }
}

/// Chunk preservation plus unchanged manifests give file preservation.
proof fn lemma_files_preserved_from_chunks(pre: FileStore, post: FileStore)
    requires
        chunks_preserved(pre, post),
        forall|ns: u64, fid: ContentHashV| #[trigger]
            post.file_at(ns, fid) == pre.file_at(ns, fid),
    ensures
        files_preserved(pre, post),
{
    assert forall|ns: u64, fid: ContentHashV|
        (#[trigger] pre.file_content(ns, fid)) is Some implies post.file_content(ns, fid) == pre
        .file_content(ns, fid) by {
        match pre.file_at(ns, fid) {
            Some(f) => match f.contents {
                FileContentsV::Inline(_) => {},
                FileContentsV::Chunked(refs) => {
                    assert(pre.refs_resolve(ns, refs));
                    assert forall|k: int| 0 <= k < refs.len() implies post.chunk_content(
                        ns,
                        (#[trigger] refs[k]).chunk_id,
                    ) == pre.chunk_content(ns, refs[k].chunk_id) by {
                        assert(pre.chunk_content(ns, refs[k].chunk_id) is Some);
                        assert(pre.chunk_at(ns, refs[k].chunk_id) is Some);
                    }
                    lemma_cat_refs_same(pre, post, ns, refs);
                    assert(post.refs_resolve(ns, refs));
                },
            },
            None => {},
        }
    }
}

impl FileStore {
    /// Make some segment current that can still take `need` more bytes, and
    /// return its position: the already-open segment when it has room, else a
    /// freshly allocated empty one. A fresh segment id that collides with an
    /// existing segment's id is never reused (a sealed segment is never
    /// reopened): the allocation fails instead.
    fn ensure_open_segment(&mut self, need: usize) -> (r: Result<usize, StoreError>)
        requires
            old(self).wf(),
            need <= u32::MAX,
        ensures
            final(self).wf(),
            final(self).chunks_log() == old(self).chunks_log(),
            final(self).files_log() == old(self).files_log(),
            final(self).named_log() == old(self).named_log(),
            forall|ns2: u64, id2: ContentHashV| #[trigger]
                final(self).chunk_content(ns2, id2) == old(self).chunk_content(ns2, id2),
            match r {
                Ok(j) => {
                    &&& j < final(self).segments@.len()
                    &&& final(self).open_segment == Some(j)
                    &&& ({
                        let sid = final(self).segs_log()[j as int].0;
                        &&& final(self).open_seg() == Some(sid)
                        &&& final(self).segs_log()[j as int].1 == old(self).seg_bytes_or_empty(
                            sid,
                        )
                        &&& final(self).seg_bytes(sid) == Some(
                            old(self).seg_bytes_or_empty(sid),
                        )
                        &&& old(self).seg_bytes_or_empty(sid).len() + need <= u32::MAX
                        &&& (old(self).open_seg() == Some(sid) || old(self).seg_bytes(sid)
                            is None)
                        &&& forall|sid2: Seq<u8>|
                            sid2 != sid ==> #[trigger] final(self).seg_bytes(sid2) == old(
                                self,
                            ).seg_bytes(sid2)
                    })
                },
                Err(e) => {
                    &&& e == StoreError::Storage
                    &&& final(self).segs_log() == old(self).segs_log()
                },
            },
    {
        let ghost pre = *old(self);
        match self.open_segment {
            Option::Some(j) => {
                let len = self.segments[j].1.0.len();
                proof {
                    assert(self.segs_log()[j as int] == (
                        self.segments@[j as int].0@,
                        self.segments@[j as int].1@,
                    ));
                    self.lemma_seg_index_bytes(j as int);
                }
                if need <= (u32::MAX as usize) - len {
                    proof {
                        lemma_chunk_content_same_logs(pre, *self);
                    }
                    return Ok(j);
                }
                self.open_segment = Option::None;
            },
            Option::None => {},
        }
        let sid = SegmentId { uuid: new_uuid16() };
        match self.find_segment_index(&sid) {
            Option::Some(_) => {
                // the freshly drawn id names an existing segment; appending
                // there could reopen a sealed segment, so refuse instead
                proof {
                    lemma_chunk_content_same_logs(pre, *self);
                }
                Err(StoreError::Storage)
            },
            Option::None => {
                let ghost fresh = sid@;
                self.segments.push((sid, Segment(Vec::new())));
                let j = self.segments.len() - 1;
                self.open_segment = Option::Some(j);
                proof {
                    broadcast use lemma_find_last_push;

                    assert(self.segs_log() =~= pre.segs_log().push((fresh, Seq::empty())));
                    assert(self.chunks_log() =~= pre.chunks_log());
                    assert(self.files_log() =~= pre.files_log());
                    assert(self.named_log() =~= pre.named_log());
                    assert(self.segs_log()[j as int] == (fresh, Seq::<u8>::empty()));
                    assert(self.seg_bytes(fresh) == Some(Seq::<u8>::empty()));
                    assert forall|sid2: Seq<u8>| sid2 != fresh implies #[trigger] self.seg_bytes(
                        sid2,
                    ) == pre.seg_bytes(sid2) by {}
                    // fresh id differs from every existing id, so uniqueness
                    // and every chunk row's integrity carry over
                    assert forall|a: int, b: int|
                        0 <= a < b < self.segs_log().len() implies (
                    #[trigger] self.segs_log()[a]).0 != (#[trigger] self.segs_log()[b]).0 by {
                        if b < pre.segs_log().len() {
                            assert(pre.segs_log()[a].0 != pre.segs_log()[b].0);
                        } else {
                            crate::assoc::lemma_find_last_index(pre.segs_log(), fresh);
                            assert(pre.segs_log()[a].0 != fresh);
                        }
                    }
                    assert forall|i: int|
                        0 <= i < self.chunks_log().len() implies self.chunk_row_ok(
                        #[trigger] self.chunks_log()[i],
                    ) by {
                        assert(pre.chunk_row_ok(pre.chunks_log()[i]));
                        let row = pre.chunks_log()[i];
                        assert(pre.seg_bytes(row.1.segment_id) is Some);
                        assert(self.seg_bytes(row.1.segment_id) == pre.seg_bytes(
                            row.1.segment_id,
                        ));
                    }
                    assert forall|ns2: u64, id2: ContentHashV| #[trigger]
                        self.chunk_content(ns2, id2) == pre.chunk_content(ns2, id2) by {
                        match pre.chunk_at(ns2, id2) {
                            Some(m) => {
                                pre.lemma_chunk_meta_valid(ns2, id2);
                            },
                            None => {},
                        }
                    }
                }
                Ok(j)
            },
        }
    }
}

/// Stores with identical logs have identical chunk contents.
proof fn lemma_chunk_content_same_logs(a: FileStore, b: FileStore)
    requires
        a.chunks_log() == b.chunks_log(),
        a.segs_log() == b.segs_log(),
    ensures
        forall|ns2: u64, id2: ContentHashV| #[trigger]
            b.chunk_content(ns2, id2) == a.chunk_content(ns2, id2),
{
}


impl FileStore {
    /// Record `contents` as a chunk of namespace `ns`: compute its content
    /// hash, and if no chunk row with that key exists, append the bytes to
    /// the open segment (sealing it once it reaches `segment_size`) and
    /// insert the metadata row. A repeated upload of the same bytes leaves
    /// the store untouched.
    #[verifier::rlimit(100)]
    fn upsert_chunk(&mut self, ns: Namespace, contents: &[u8], segment_size: u64) -> (r: Result<
        ChunkId,
        StoreError,
    >)
        requires
            old(self).wf(),
            contents@.len() <= u32::MAX,
        ensures
            upload_chunk_post(*old(self), *final(self), ns@, contents@, r),
            r is Ok && old(self).chunk_at(ns@, spec_chunk_id(contents@)) is None
                ==> chunk_append_effect(
                *old(self),
                *final(self),
                ns@,
                contents@,
                spec_chunk_id(contents@),
            ),
            r is Ok && old(self).chunk_at(ns@, spec_chunk_id(contents@)) is None ==> ({
                // sealing: the appended segment stays current exactly when it
                // is still below the configured segment size
                let m = final(self).chunk_at(ns@, spec_chunk_id(contents@))->Some_0;
                final(self).open_seg() == if old(self).seg_bytes_or_empty(m.segment_id).len()
                    + contents@.len() >= segment_size {
                    None::<Seq<u8>>
                } else {
                    Some(m.segment_id)
                }
            }),
    {
        proof {
            reveal(upload_chunk_post);
            reveal(chunk_append_effect);
        }
        let ghost pre = *old(self);
        let chunk_id = ChunkId::from_contents(contents);
        match self.find_chunk(ns, &chunk_id) {
            Option::Some(existing) => {
                proof {
                    self.lemma_chunk_meta_valid(ns@, chunk_id@);
                }
                if existing.size as usize == contents.len() {
                    return Ok(chunk_id);
                }
                // same content hash, different length: a collision; refuse
                // rather than hand back an id naming other bytes
                return Err(StoreError::Integrity);
            },
            Option::None => {},
        }
        let j = match self.ensure_open_segment(contents.len()) {
            Result::Err(_) => {
                proof {
                    assert forall|ns2: u64, id2: ContentHashV|
                        (#[trigger] pre.chunk_at(ns2, id2)) is Some implies self.chunk_at(
                        ns2,
                        id2,
                    ) == pre.chunk_at(ns2, id2) && self.chunk_content(ns2, id2) == pre
                        .chunk_content(ns2, id2) by {}
                    lemma_files_preserved_from_chunks(pre, *self);
                }
                return Err(StoreError::Storage);
            },
            Result::Ok(j) => j,
        };
        let ghost mid = *self;
        let sid = self.segments[j].0;
        let offset_usize = self.segments[j].1.0.len();
        proof {
            assert(mid.segs_log()[j as int] == (
                mid.segments@[j as int].0@,
                mid.segments@[j as int].1@,
            ));
            mid.lemma_seg_index_bytes(j as int);
        }
        let ghost old_bytes = mid.segs_log()[j as int].1;
        let ghost new_bytes = old_bytes + contents@;
        let mut row = self.segments.remove(j);
        row.1.0.extend_from_slice(contents);
        let ghost row_snap = row;
        self.segments.insert(j, row);
        proof {
            assert(row_snap.0 == mid.segments@[j as int].0);
            assert(row_snap.1@ == old_bytes + contents@);
            mid.segments@.remove_ensures(j as int);
            mid.segments@.remove(j as int).insert_ensures(j as int, row_snap);
            assert(self.segments@ =~= mid.segments@.update(j as int, row_snap));
            assert(self.segs_log() =~= mid.segs_log().update(j as int, (sid@, new_bytes)));
        }
        if (self.segments[j].1.0.len() as u64) >= segment_size {
            self.open_segment = Option::None;
        }
        let ghost upd = *self;
        proof {
            assert forall|i: int| j < i < mid.segs_log().len() implies (
            #[trigger] mid.segs_log()[i]).0 != sid@ by {
                assert(mid.segs_log()[j as int].0 != mid.segs_log()[i].0);
            }
            assert(upd.segs_log() == mid.segs_log().update(j as int, (sid@, new_bytes)));
            crate::assoc::lemma_find_last_update(
                mid.segs_log(),
                j as int,
                (sid@, new_bytes),
                sid@,
            );
            assert(upd.seg_bytes(sid@) == Some(new_bytes));
            assert forall|k: Seq<u8>| k != sid@ implies #[trigger] upd.seg_bytes(k) == mid
                .seg_bytes(k) by {
                crate::assoc::lemma_find_last_update(
                    mid.segs_log(),
                    j as int,
                    (sid@, new_bytes),
                    k,
                );
            }
        }
        let meta = Chunk {
            size: contents.len() as u32,
            compression: Compression::Uncompressed,
            compressed_size: contents.len() as u32,
            segment_id: sid,
            offset_in_segment: offset_usize as u32,
        };
        self.chunks.push(((ns, chunk_id), meta));
        proof {
            broadcast use lemma_find_last_push;

            let post = *self;
            let new_row = ((ns@, chunk_id@), meta@);
            assert(post.chunks_log() =~= mid.chunks_log().push(new_row));
            assert(post.segs_log() == upd.segs_log());
            assert(post.files_log() == pre.files_log());
            assert(post.named_log() == pre.named_log());
            assert(mid.chunks_log() == pre.chunks_log());
            assert(offset_usize == old_bytes.len());

            assert(new_bytes.subrange(old_bytes.len() as int, new_bytes.len() as int)
                =~= contents@);
            assert(post.chunk_at(ns@, chunk_id@) == Some(meta@));
            assert(post.seg_bytes(sid@) == Some(new_bytes));
            assert(old_bytes.len() + contents@.len() <= u32::MAX);
            assert(post.chunk_content(ns@, chunk_id@) == Some(contents@));

            assert forall|i: int|
                0 <= i < post.chunks_log().len() implies post.chunk_row_ok(
                #[trigger] post.chunks_log()[i],
            ) by {
                if i < mid.chunks_log().len() {
                    let row2 = mid.chunks_log()[i];
                    assert(post.chunks_log()[i] == row2);
                    assert(mid.chunk_row_ok(row2));
                    let m = row2.1;
                    if m.segment_id == sid@ {
                        assert(mid.seg_bytes(sid@) == Some(old_bytes));
                        assert(post.seg_bytes(sid@) == Some(new_bytes));
                        lemma_subrange_of_prefix(
                            old_bytes,
                            contents@,
                            m.offset_in_segment as int,
                            m.offset_in_segment + m.size,
                        );
                    } else {
                        assert(upd.seg_bytes(m.segment_id) == mid.seg_bytes(m.segment_id));
                        assert(post.seg_bytes(m.segment_id) == mid.seg_bytes(m.segment_id));
                    }
                } else {
                    assert(post.chunks_log()[i] == new_row);
                }
            }
            assert forall|a: int, b: int|
                0 <= a < b < post.segs_log().len() implies (#[trigger] post.segs_log()[a]).0
                != (#[trigger] post.segs_log()[b]).0 by {
                assert(mid.segs_log()[a].0 != mid.segs_log()[b].0);
            }
            assert forall|i: int|
                0 <= i < post.segs_log().len() implies (#[trigger] post.segs_log()[i]).1.len()
                <= u32::MAX by {
                assert(mid.segs_log()[i].1.len() <= u32::MAX);
            }
            assert(post.wf());

            assert forall|ns2: u64, id2: ContentHashV|
                (ns2, id2) != (ns@, chunk_id@) implies #[trigger] post.chunk_at(ns2, id2)
                == pre.chunk_at(ns2, id2) by {}
            assert forall|ns2: u64, id2: ContentHashV|
                (#[trigger] pre.chunk_at(ns2, id2)) is Some implies post.chunk_at(ns2, id2)
                == pre.chunk_at(ns2, id2) && post.chunk_content(ns2, id2) == pre.chunk_content(
                ns2,
                id2,
            ) by {
                assert((ns2, id2) != (ns@, chunk_id@));
                pre.lemma_chunk_meta_valid(ns2, id2);
                let m = pre.chunk_at(ns2, id2)->Some_0;
                assert(mid.chunk_content(ns2, id2) == pre.chunk_content(ns2, id2));
                assert(mid.seg_bytes(m.segment_id) is Some);
                if m.segment_id == sid@ {
                    assert(mid.seg_bytes(sid@) == Some(old_bytes));
                    assert(m.offset_in_segment + m.size <= old_bytes.len());
                    lemma_subrange_of_prefix(
                        old_bytes,
                        contents@,
                        m.offset_in_segment as int,
                        m.offset_in_segment + m.size,
                    );
                } else {
                    assert(upd.seg_bytes(m.segment_id) == mid.seg_bytes(m.segment_id));
                    assert(post.seg_bytes(m.segment_id) == mid.seg_bytes(m.segment_id));
                }
            }
            lemma_files_preserved_from_chunks(pre, post);

            // the append facts of the fresh path
            assert(meta@.segment_id == sid@);
            assert(old_bytes == pre.seg_bytes_or_empty(sid@));
            assert forall|sid2: Seq<u8>| sid2 != sid@ implies #[trigger] post.seg_bytes(sid2)
                == pre.seg_bytes(sid2) by {
                assert(upd.seg_bytes(sid2) == mid.seg_bytes(sid2));
                assert(mid.seg_bytes(sid2) == pre.seg_bytes(sid2));
            }
            // sealing: the open pointer tracks the configured size
            assert(post.open_segment == upd.open_segment);
            if old_bytes.len() + contents@.len() >= segment_size {
                assert(post.open_seg() is None);
            } else {
                assert(upd.segments@[j as int].0@ == sid@);
                assert(post.open_seg() == Some(sid@));
            }
        }
        Ok(chunk_id)
    }
}


/// How a fresh chunk lands in the segments: its bytes are appended at the
/// end of the previously open segment or of a brand new one, whose prior
/// bytes are untouched; no other segment changes. `id` is the chunk's id.
#[verifier::opaque]
pub open spec fn chunk_append_effect(
    pre: FileStore,
    post: FileStore,
    ns: u64,
    contents: Seq<u8>,
    id: ContentHashV,
) -> bool {
    let m = post.chunk_at(ns, id)->Some_0;
    &&& m.offset_in_segment == pre.seg_bytes_or_empty(m.segment_id).len()
    &&& post.seg_bytes(m.segment_id) == Some(pre.seg_bytes_or_empty(m.segment_id) + contents)
    &&& (pre.open_seg() == Some(m.segment_id) || pre.seg_bytes(m.segment_id) is None)
    &&& forall|sid2: Seq<u8>|
        sid2 != m.segment_id ==> #[trigger] post.seg_bytes(sid2) == pre.seg_bytes(sid2)
}

/// What a chunk upload guarantees: the store stays well-formed, nothing
/// recorded is lost or changed, and on success the returned id is the content
/// hash of the input; if that key was absent, its bytes are now readable
/// under it, and exactly one row was added; if it was present, the store is
/// untouched (the deduplication hit).
#[verifier::opaque]
pub open spec fn upload_chunk_post(
    pre: FileStore,
    post: FileStore,
    ns: u64,
    contents: Seq<u8>,
    r: Result<ChunkId, StoreError>,
) -> bool {
    &&& post.wf()
    &&& post.files_log() == pre.files_log()
    &&& post.named_log() == pre.named_log()
    &&& chunks_preserved(pre, post)
    &&& files_preserved(pre, post)
    &&& post.chunk_count() >= pre.chunk_count()
    &&& match r {
        Ok(id) => {
            &&& id@ == spec_chunk_id(contents)
            &&& post.chunk_content(ns, id@) is Some
            &&& (pre.chunk_at(ns, id@) is Some ==> post == pre && pre.chunk_at(
                ns,
                id@,
            )->Some_0.size == contents.len())
            &&& (pre.chunk_at(ns, id@) is None ==> {
                let m = post.chunk_at(ns, id@)->Some_0;
                &&& post.chunk_at(ns, id@) is Some
                &&& post.chunk_content(ns, id@) == Some(contents)
                &&& post.chunk_count() == pre.chunk_count() + 1
                &&& m.size == contents.len()
            })
            &&& forall|ns2: u64, id2: ContentHashV|
                (ns2, id2) != (ns, id@) ==> #[trigger] post.chunk_at(ns2, id2) == pre.chunk_at(
                    ns2,
                    id2,
                )
        },
        Err(e) => {
            &&& post.chunks_log() == pre.chunks_log()
            &&& post.segs_log() == pre.segs_log()
            &&& match e {
                // no open segment could take the chunk: only a chunk the
                // store does not hold yet needs one
                StoreError::Storage => pre.chunk_at(ns, spec_chunk_id(contents)) is None,
                // the recorded chunk under this content hash has a different
                // length: a detected hash collision, never silently deduplicated
                StoreError::Integrity => post == pre && match pre.chunk_at(
                    ns,
                    spec_chunk_id(contents),
                ) {
                    Some(m) => m.size != contents.len(),
                    None => false,
                },
                _ => false,
            }
        },
    }
}

/// No chunk of `parts` is confused with different stored bytes: a part whose
/// id is already recorded in the namespace is recorded with exactly its own
/// bytes, and no two distinct parts share an id. This is the collision
/// freedom of the content hash, restricted to the bytes at hand; it cannot
/// be proved of any concrete hash function, only assumed of a cryptographic
/// one.
pub open spec fn chunks_collision_free(pre: FileStore, ns: u64, parts: Seq<Seq<u8>>) -> bool {
    &&& forall|k: int|
        0 <= k < parts.len() && (#[trigger] pre.chunk_at(ns, spec_chunk_id(parts[k])))
            is Some ==> pre.chunk_content(ns, spec_chunk_id(parts[k])) == Some(parts[k])
    &&& forall|k1: int, k2: int|
        0 <= k1 < parts.len() && 0 <= k2 < parts.len() && #[trigger] spec_chunk_id(parts[k1])
            == #[trigger] spec_chunk_id(parts[k2]) ==> parts[k1] == parts[k2]
}

/// No part of `parts` is recorded under its id with a different length, and
/// no two parts share an id with different lengths. Implied by
/// `chunks_collision_free`; a violation is a detected hash collision, and the
/// only reason a chunked upload of already-sized content can fail.
pub open spec fn parts_sizes_consistent(pre: FileStore, ns: u64, parts: Seq<Seq<u8>>) -> bool {
    &&& forall|k: int|
        0 <= k < parts.len() ==> ((#[trigger] pre.chunk_at(ns, spec_chunk_id(parts[k])))
            matches Some(m) ==> m.size == parts[k].len())
    &&& forall|k1: int, k2: int|
        0 <= k1 < parts.len() && 0 <= k2 < parts.len() && #[trigger] spec_chunk_id(parts[k1])
            == #[trigger] spec_chunk_id(parts[k2]) ==> parts[k1].len() == parts[k2].len()
}

/// The chunk list a split is recorded under: each part's length and id.
pub open spec fn refs_of_parts(parts: Seq<Seq<u8>>) -> Seq<FileChunkV> {
    parts.map_values(
        |p: Seq<u8>| FileChunkV { chunk_size: p.len() as u32, chunk_id: spec_chunk_id(p) },
    )
}

/// What a file upload guarantees. On success the returned id is the content
/// hash of the whole input and a manifest for it is recorded: inline bytes
/// when the input is at most the inline threshold (then no chunk row is
/// touched), else the chunk list of the configured split, each part recorded
/// and readable. Reading the file back yields the input, provided the hash
/// confused none of its parts with other bytes (`chunks_collision_free`).
/// Re-uploading content whose parts are all recorded adds no chunk row.
#[verifier::opaque]
pub open spec fn upload_file_post(
    pre: FileStore,
    post: FileStore,
    ns: u64,
    cfg: Config,
    contents: Seq<u8>,
    r: Result<FileId, StoreError>,
) -> bool {
    &&& post.wf()
    &&& chunks_preserved(pre, post)
    &&& named_preserved(pre, post)
    &&& post.chunk_count() >= pre.chunk_count()
    &&& forall|ns2: u64, fid2: ContentHashV|
        (ns2, fid2) != (ns, spec_file_id(contents)) ==> #[trigger] post.file_at(ns2, fid2)
            == pre.file_at(ns2, fid2)
    &&& forall|ns2: u64, fid2: ContentHashV|
        (ns2, fid2) != (ns, spec_file_id(contents)) && (#[trigger] pre.file_content(ns2, fid2))
            is Some ==> post.file_content(ns2, fid2) == pre.file_content(ns2, fid2)
    &&& (r is Ok ==> forall|ns2: u64, id2: ContentHashV|
        #[trigger] post.chunk_at(ns2, id2) == pre.chunk_at(ns2, id2) || (ns2 == ns && exists|k:
            int|
            0 <= k < spec_split(cfg.chunking_strategy, contents).len() && id2 == spec_chunk_id(
                #[trigger] spec_split(cfg.chunking_strategy, contents)[k],
            )))
    &&& match r {
        Ok(fid) => {
            &&& fid@ == spec_file_id(contents)
            &&& post.file_at(ns, fid@) is Some
            &&& spec_manifest_wf(post.file_at(ns, fid@)->Some_0)
            &&& post.file_at(ns, fid@)->Some_0.size == contents.len()
            &&& if contents.len() <= cfg.inline_size {
                &&& post.file_at(ns, fid@)->Some_0.contents == FileContentsV::Inline(contents)
                &&& post.chunks_log() == pre.chunks_log()
                &&& post.segs_log() == pre.segs_log()
                &&& post.chunk_count() == pre.chunk_count()
                &&& post.file_content(ns, fid@) == Some(contents)
            } else {
                let parts = spec_split(cfg.chunking_strategy, contents);
                &&& post.file_at(ns, fid@)->Some_0.contents == FileContentsV::Chunked(
                    refs_of_parts(parts),
                )
                &&& forall|k: int|
                    0 <= k < parts.len() ==> (#[trigger] post.chunk_content(ns, spec_chunk_id(parts[k]))) is Some
                &&& (chunks_collision_free(pre, ns, parts) ==> post.file_content(ns, fid@)
                    == Some(contents))
                &&& ((forall|k: int|
                    0 <= k < parts.len() ==> (#[trigger] pre.chunk_at(
                        ns,
                        spec_chunk_id(parts[k]),
                    )) is Some) ==> post.chunk_count() == pre.chunk_count()
                    && post.chunks_log() == pre.chunks_log() && post.segs_log()
                    == pre.segs_log())
                &&& ((exists|k: int|
                    0 <= k < parts.len() && (#[trigger] pre.chunk_at(
                        ns,
                        spec_chunk_id(parts[k]),
                    )) is None) ==> post.chunk_count() > pre.chunk_count())
            }
        },
        Err(e) => {
            // success is owed whenever neither an outside call nor the hash
            // decides: an inline upload never fails, and a chunked one fails
            // only when some chunk is absent (a fresh segment id must be
            // drawn) or a recorded length disagrees (a detected collision)
            &&& contents.len() > cfg.inline_size
            &&& post.files_log() == pre.files_log()
            &&& files_preserved(pre, post)
            &&& match e {
                StoreError::Storage => exists|k: int|
                    0 <= k < spec_split(cfg.chunking_strategy, contents).len() && (
                    #[trigger] pre.chunk_at(
                        ns,
                        spec_chunk_id(spec_split(cfg.chunking_strategy, contents)[k]),
                    )) is None,
                StoreError::Integrity => !parts_sizes_consistent(
                    pre,
                    ns,
                    spec_split(cfg.chunking_strategy, contents),
                ),
                _ => false,
            }
        },
    }
}

/// Chunk preservation composes.
proof fn lemma_chunks_preserved_trans(a: FileStore, b: FileStore, c: FileStore)
    requires
        chunks_preserved(a, b),
        chunks_preserved(b, c),
    ensures
        chunks_preserved(a, c),
{
    assert forall|ns: u64, id: ContentHashV|
        (#[trigger] a.chunk_at(ns, id)) is Some implies c.chunk_at(ns, id) == a.chunk_at(ns, id)
        && c.chunk_content(ns, id) == a.chunk_content(ns, id) by {
        assert(b.chunk_at(ns, id) is Some);
    }
}

impl NamespacedFileStore {
    /// Record `contents` as a chunk of this namespace, deduplicating by
    /// content hash: an already-recorded chunk leaves the store untouched and
    /// returns the same id.
    pub fn upload_chunk(&self, fs: &mut FileStore, contents: &[u8]) -> (r: Result<
        ChunkId,
        StoreError,
    >)
        requires
            old(fs).wf(),
            contents@.len() <= u32::MAX,
        ensures
            upload_chunk_post(*old(fs), *final(fs), self.namespace@, contents@, r),
            r is Ok && old(fs).chunk_at(self.namespace@, spec_chunk_id(contents@)) is None
                ==> chunk_append_effect(
                *old(fs),
                *final(fs),
                self.namespace@,
                contents@,
                spec_chunk_id(contents@),
            ),
            r is Ok && old(fs).chunk_at(self.namespace@, spec_chunk_id(contents@)) is None
                ==> ({
                // sealing: the appended segment stays current exactly when it
                // is still below the configured segment size
                let m = final(fs).chunk_at(self.namespace@, spec_chunk_id(contents@))->Some_0;
                final(fs).open_seg() == if old(fs).seg_bytes_or_empty(m.segment_id).len()
                    + contents@.len() >= self.config.segment_size {
                    None::<Seq<u8>>
                } else {
                    Some(m.segment_id)
                }
            }),
    {
        fs.upsert_chunk(self.namespace, contents, self.config.segment_size)
    }
}


/// The recorded sizes of a split's chunk list add up to the split's total.
proof fn lemma_sum_refs_flatten(parts: Seq<Seq<u8>>)
    requires
        forall|i: int| 0 <= i < parts.len() ==> (#[trigger] parts[i]).len() <= u32::MAX,
    ensures
        spec_chunk_sizes_sum(refs_of_parts(parts)) == parts.flatten().len(),
    decreases parts.len(),
{
    let refs = refs_of_parts(parts);
    if parts.len() == 0 {
        assert(parts.flatten() =~= Seq::<u8>::empty());
        assert(refs.len() == 0);
    } else {
        let front = parts.drop_last();
        assert forall|i: int| 0 <= i < front.len() implies (#[trigger] front[i]).len()
            <= u32::MAX by {
            assert(front[i] == parts[i]);
        }
        lemma_sum_refs_flatten(front);
        assert(refs_of_parts(front) =~= refs.drop_last());
        parts.lemma_flatten_and_flatten_alt_are_equivalent();
        front.lemma_flatten_and_flatten_alt_are_equivalent();
        assert(parts.flatten_alt() == front.flatten_alt() + parts.last());
        assert(refs.last() == FileChunkV {
            chunk_size: parts.last().len() as u32,
            chunk_id: spec_chunk_id(parts.last()),
        });
        assert(parts.last().len() <= u32::MAX);
    }
}

/// When every part of a split is recorded with exactly its own bytes, the
/// split's chunk list concatenates back to the split's flattening.
proof fn lemma_cat_refs_of_parts(post: FileStore, ns: u64, parts: Seq<Seq<u8>>)
    requires
        forall|j: int|
            0 <= j < parts.len() ==> #[trigger] post.chunk_content(ns, spec_chunk_id(parts[j])) == Some(parts[j]),
    ensures
        post.cat_refs(ns, refs_of_parts(parts)) == parts.flatten(),
    decreases parts.len(),
{
    let refs = refs_of_parts(parts);
    if parts.len() == 0 {
        assert(parts.flatten() =~= Seq::<u8>::empty());
    } else {
        let front = parts.drop_last();
        assert forall|j: int| 0 <= j < front.len() implies #[trigger] post.chunk_content(ns, spec_chunk_id(front[j])) == Some(front[j]) by {
            assert(front[j] == parts[j]);
        }
        lemma_cat_refs_of_parts(post, ns, front);
        assert(refs_of_parts(front) =~= refs.drop_last());
        parts.lemma_flatten_and_flatten_alt_are_equivalent();
        front.lemma_flatten_and_flatten_alt_are_equivalent();
        assert(parts.flatten_alt() == front.flatten_alt() + parts.last());
        assert(refs.last().chunk_id == spec_chunk_id(parts.last()));
        assert(post.chunk_content(ns, refs.last().chunk_id) == Some(parts.last()));
    }
}

/// Appending a manifest row leaves every other file's lookup and content as
/// it was, and leaves all chunk lookups and contents as they were.
proof fn lemma_file_push_frame(pre: FileStore, post: FileStore, key: (u64, ContentHashV), f: FileV)
    requires
        post.files_log() == pre.files_log().push((key, f)),
        post.chunks_log() == pre.chunks_log(),
        post.segs_log() == pre.segs_log(),
        post.named_log() == pre.named_log(),
    ensures
        post.file_at(key.0, key.1) == Some(f),
        forall|ns2: u64, fid2: ContentHashV|
            (ns2, fid2) != key ==> #[trigger] post.file_at(ns2, fid2) == pre.file_at(ns2, fid2),
        forall|ns2: u64, fid2: ContentHashV|
            (ns2, fid2) != key ==> #[trigger] post.file_content(ns2, fid2) == pre.file_content(
                ns2,
                fid2,
            ),
        forall|ns2: u64, id2: ContentHashV| #[trigger]
            post.chunk_at(ns2, id2) == pre.chunk_at(ns2, id2),
        forall|ns2: u64, id2: ContentHashV| #[trigger]
            post.chunk_content(ns2, id2) == pre.chunk_content(ns2, id2),
        forall|ns2: u64, name2: Seq<char>| #[trigger]
            post.named_at(ns2, name2) == pre.named_at(ns2, name2),
{
    broadcast use lemma_find_last_push;

    assert forall|ns2: u64, fid2: ContentHashV| (ns2, fid2) != key implies #[trigger] post
        .file_content(ns2, fid2) == pre.file_content(ns2, fid2) by {
        assert(post.file_at(ns2, fid2) == pre.file_at(ns2, fid2));
        match pre.file_at(ns2, fid2) {
            Some(fv) => match fv.contents {
                FileContentsV::Inline(_) => {},
                FileContentsV::Chunked(refs) => {
                    lemma_cat_refs_same(pre, post, ns2, refs);
                    assert(pre.refs_resolve(ns2, refs) <==> post.refs_resolve(ns2, refs));
                },
            },
            None => {},
        }
    }
}


/// The running state of a chunked upload after the first `k` parts have
/// been recorded: nothing recorded before is lost or changed, the chunk list
/// built so far mirrors the parts, each processed part is readable under its
/// id (and reads back as itself, absent hash collisions), every new chunk row
/// is one of the processed parts, and the row count grew exactly when some
/// part was new.
#[verifier::opaque]
pub open spec fn upload_parts_inv(
    pre: FileStore,
    cur: FileStore,
    ns: u64,
    pv: Seq<Seq<u8>>,
    k: int,
    refs: Seq<FileChunk>,
) -> bool {
    &&& chunks_preserved(pre, cur)
    &&& cur.files_log() == pre.files_log()
    &&& cur.named_log() == pre.named_log()
    &&& cur.chunk_count() >= pre.chunk_count()
    &&& refs.len() == k
    &&& forall|j: int|
        0 <= j < k ==> (#[trigger] refs[j])@ == (FileChunkV {
            chunk_size: pv[j].len() as u32,
            chunk_id: spec_chunk_id(pv[j]),
        })
    &&& forall|j: int|
        0 <= j < k ==> (#[trigger] cur.chunk_content(ns, spec_chunk_id(pv[j]))) is Some
    &&& forall|j: int|
        0 <= j < k ==> ((#[trigger] cur.chunk_at(ns, spec_chunk_id(pv[j]))) matches Some(m)
                && m.size == pv[j].len())
    &&& (chunks_collision_free(pre, ns, pv) ==> forall|j: int|
        0 <= j < k ==> #[trigger] cur.chunk_content(ns, spec_chunk_id(pv[j])) == Some(pv[j]))
    &&& forall|ns2: u64, id2: ContentHashV|
        (#[trigger] cur.chunk_at(ns2, id2)) is Some ==> pre.chunk_at(ns2, id2) is Some || (ns2
            == ns && exists|j: int| 0 <= j < k && id2 == spec_chunk_id(#[trigger] pv[j]))
    &&& ((forall|j: int|
        0 <= j < k ==> (#[trigger] pre.chunk_at(ns, spec_chunk_id(pv[j]))) is Some)
        ==> cur.chunk_count() == pre.chunk_count())
    &&& ((forall|j: int|
        0 <= j < k ==> (#[trigger] pre.chunk_at(ns, spec_chunk_id(pv[j]))) is Some) ==> cur
        == pre)
    &&& ((exists|j: int|
        0 <= j < k && (#[trigger] pre.chunk_at(ns, spec_chunk_id(pv[j]))) is None)
        ==> cur.chunk_count() > pre.chunk_count())
}

/// Before any part is recorded, the invariant holds of the untouched store.
proof fn lemma_upload_parts_init(pre: FileStore, ns: u64, pv: Seq<Seq<u8>>)
    ensures
        upload_parts_inv(pre, pre, ns, pv, 0, Seq::<FileChunk>::empty()),
{
    reveal(upload_parts_inv);
    assert forall|ns2: u64, id2: ContentHashV|
        (#[trigger] pre.chunk_at(ns2, id2)) is Some implies pre.chunk_at(ns2, id2) == pre
        .chunk_at(ns2, id2) && pre.chunk_content(ns2, id2) == pre.chunk_content(ns2, id2) by {}
}

/// A failed chunk upload leaves the invariant's preservation half standing,
/// and pins why it failed: the part being recorded was absent before the
/// whole upload began (no segment could be opened for it), or its recorded
/// length disagrees with it (a detected collision).
#[verifier::rlimit(100)]
proof fn lemma_upload_parts_abort(
    pre: FileStore,
    before: FileStore,
    post: FileStore,
    ns: u64,
    pv: Seq<Seq<u8>>,
    k: int,
    refs: Seq<FileChunk>,
    err: StoreError,
)
    requires
        upload_parts_inv(pre, before, ns, pv, k, refs),
        0 <= k < pv.len(),
        upload_chunk_post(before, post, ns, pv[k], Err(err)),
    ensures
        chunks_preserved(pre, post),
        post.files_log() == pre.files_log(),
        post.named_log() == pre.named_log(),
        post.chunk_count() >= pre.chunk_count(),
        match err {
            StoreError::Storage => exists|kk: int|
                0 <= kk < pv.len() && (#[trigger] pre.chunk_at(ns, spec_chunk_id(pv[kk])))
                    is None,
            StoreError::Integrity => !parts_sizes_consistent(pre, ns, pv),
            _ => false,
        },
{
    reveal(upload_parts_inv);
    reveal(upload_chunk_post);
    lemma_chunks_preserved_trans(pre, before, post);
    let cid = spec_chunk_id(pv[k]);
    match err {
        StoreError::Storage => {
            assert(before.chunk_at(ns, cid) is None);
            assert(pre.chunk_at(ns, cid) is None);
        },
        StoreError::Integrity => {
            let m = before.chunk_at(ns, cid)->Some_0;
            assert(m.size != pv[k].len());
            if pre.chunk_at(ns, cid) is Some {
                assert(pre.chunk_at(ns, cid) == before.chunk_at(ns, cid));
                assert(!parts_sizes_consistent(pre, ns, pv));
            } else {
                let jj = choose|jj: int| 0 <= jj < k && cid == spec_chunk_id(#[trigger] pv[jj]);
                assert(before.chunk_at(ns, spec_chunk_id(pv[jj])) matches Some(mj)
                    && mj.size == pv[jj].len());
                assert(pv[jj].len() != pv[k].len());
                assert(!parts_sizes_consistent(pre, ns, pv));
            }
        },
        _ => {},
    }
}

/// Unpack the invariant at the end of the loop.
#[verifier::rlimit(100)]
pub proof fn lemma_upload_parts_unpack(
    pre: FileStore,
    cur: FileStore,
    ns: u64,
    pv: Seq<Seq<u8>>,
    k: int,
    refs: Seq<FileChunk>,
)
    requires
        upload_parts_inv(pre, cur, ns, pv, k, refs),
    ensures
        chunks_preserved(pre, cur),
        cur.files_log() == pre.files_log(),
        cur.named_log() == pre.named_log(),
        cur.chunk_count() >= pre.chunk_count(),
        refs.len() == k,
        forall|j: int|
            0 <= j < k ==> (#[trigger] refs[j])@ == (FileChunkV {
                chunk_size: pv[j].len() as u32,
                chunk_id: spec_chunk_id(pv[j]),
            }),
        forall|j: int|
            0 <= j < k ==> (#[trigger] cur.chunk_content(ns, spec_chunk_id(pv[j]))) is Some,
        chunks_collision_free(pre, ns, pv) ==> forall|j: int|
            0 <= j < k ==> #[trigger] cur.chunk_content(ns, spec_chunk_id(pv[j])) == Some(pv[j]),
        (forall|j: int|
            0 <= j < k ==> (#[trigger] pre.chunk_at(ns, spec_chunk_id(pv[j]))) is Some)
            ==> cur.chunk_count() == pre.chunk_count(),
        (exists|j: int|
            0 <= j < k && (#[trigger] pre.chunk_at(ns, spec_chunk_id(pv[j]))) is None)
            ==> cur.chunk_count() > pre.chunk_count(),
        (forall|j: int|
            0 <= j < k ==> (#[trigger] pre.chunk_at(ns, spec_chunk_id(pv[j]))) is Some) ==> cur
            == pre,
        forall|j: int|
            0 <= j < k ==> ((#[trigger] cur.chunk_at(ns, spec_chunk_id(pv[j]))) matches Some(m)
                    && m.size == pv[j].len()),
        forall|ns2: u64, id2: ContentHashV|
            #[trigger] cur.chunk_at(ns2, id2) == pre.chunk_at(ns2, id2) || (ns2 == ns
                && exists|j: int| 0 <= j < k && id2 == spec_chunk_id(#[trigger] pv[j])),
{
    reveal(upload_parts_inv);
    assert forall|ns2: u64, id2: ContentHashV| #[trigger]
        cur.chunk_at(ns2, id2) == pre.chunk_at(ns2, id2) || (ns2 == ns && exists|j: int|
            0 <= j < k && id2 == spec_chunk_id(#[trigger] pv[j])) by {
        match cur.chunk_at(ns2, id2) {
            Some(_) => {
                if pre.chunk_at(ns2, id2) is Some {
                    assert(cur.chunk_at(ns2, id2) == pre.chunk_at(ns2, id2));
                }
            },
            None => {
                if pre.chunk_at(ns2, id2) is Some {
                    assert(cur.chunk_at(ns2, id2) == pre.chunk_at(ns2, id2));
                }
            },
        }
    }
}

/// Recording part `k` carries the invariant from `k` to `k + 1`.
#[verifier::rlimit(100)]
proof fn lemma_upload_parts_step(
    pre: FileStore,
    before: FileStore,
    post: FileStore,
    ns: u64,
    pv: Seq<Seq<u8>>,
    k: int,
    r: Result<ChunkId, StoreError>,
    refs: Seq<FileChunk>,
    new_ref: FileChunk,
)
    requires
        upload_parts_inv(pre, before, ns, pv, k, refs),
        0 <= k < pv.len(),
        pv[k].len() <= u32::MAX,
        r is Ok,
        r->Ok_0 == new_ref.chunk_id,
        new_ref.chunk_size == pv[k].len() as u32,
        upload_chunk_post(before, post, ns, pv[k], r),
    ensures
        upload_parts_inv(pre, post, ns, pv, k + 1, refs.push(new_ref)),
{
    reveal(upload_parts_inv);
    reveal(upload_chunk_post);
    lemma_chunks_preserved_trans(pre, before, post);
    lemma_step_provenance(pre, before, post, ns, pv, k, r);
    lemma_step_content(before, post, ns, pv, k, r);
    lemma_step_sizes(before, post, ns, pv, k, r);
    if chunks_collision_free(pre, ns, pv) {
        lemma_step_ccf(pre, before, post, ns, pv, k, r);
    }
    lemma_step_counts(pre, before, post, ns, pv, k, r);
    if forall|j: int|
        0 <= j < k + 1 ==> (#[trigger] pre.chunk_at(ns, spec_chunk_id(pv[j]))) is Some {
        assert(before == pre);
        assert(before.chunk_at(ns, spec_chunk_id(pv[k])) is Some);
        assert(post == before);
    }
    let refs2 = refs.push(new_ref);
    assert forall|j: int| 0 <= j < k + 1 implies (#[trigger] refs2[j])@ == (FileChunkV {
        chunk_size: pv[j].len() as u32,
        chunk_id: spec_chunk_id(pv[j]),
    }) by {
        if j < k {
            assert(refs2[j] == refs[j]);
        } else {
            assert(refs2[j] == new_ref);
        }
    }
}

/// After part `k` is recorded: every recorded key was recorded before the
/// upload began or is one of the first `k + 1` parts.
proof fn lemma_step_provenance(
    pre: FileStore,
    before: FileStore,
    post: FileStore,
    ns: u64,
    parts_v: Seq<Seq<u8>>,
    k: int,
    r: Result<ChunkId, StoreError>,
)
    requires
        0 <= k < parts_v.len(),
        r is Ok,
        upload_chunk_post(before, post, ns, parts_v[k], r),
        forall|ns2: u64, id2: ContentHashV|
            (#[trigger] before.chunk_at(ns2, id2)) is Some ==> pre.chunk_at(ns2, id2) is Some
                || (ns2 == ns && exists|j: int|
                0 <= j < k && id2 == spec_chunk_id(#[trigger] parts_v[j])),
    ensures
        forall|ns2: u64, id2: ContentHashV|
            (#[trigger] post.chunk_at(ns2, id2)) is Some ==> pre.chunk_at(ns2, id2) is Some
                || (ns2 == ns && exists|j: int|
                0 <= j < k + 1 && id2 == spec_chunk_id(#[trigger] parts_v[j])),
{
    reveal(upload_chunk_post);
    let cid = spec_chunk_id(parts_v[k]);
    assert forall|ns2: u64, id2: ContentHashV|
        (#[trigger] post.chunk_at(ns2, id2)) is Some implies pre.chunk_at(ns2, id2) is Some || (
    ns2 == ns && exists|j: int| 0 <= j < k + 1 && id2 == spec_chunk_id(
        #[trigger] parts_v[j],
    )) by {
        if (ns2, id2) == (ns, cid) {
            assert(id2 == spec_chunk_id(parts_v[k]));
        } else {
            assert(post.chunk_at(ns2, id2) == before.chunk_at(ns2, id2));
        }
    }
}

/// After part `k` is recorded: each of the first `k + 1` parts is readable
/// under its id.
proof fn lemma_step_content(
    before: FileStore,
    post: FileStore,
    ns: u64,
    parts_v: Seq<Seq<u8>>,
    k: int,
    r: Result<ChunkId, StoreError>,
)
    requires
        0 <= k < parts_v.len(),
        r is Ok,
        upload_chunk_post(before, post, ns, parts_v[k], r),
        forall|j: int|
            0 <= j < k ==> (#[trigger] before.chunk_content(ns, spec_chunk_id(parts_v[j]))) is Some,
    ensures
        forall|j: int|
            0 <= j < k + 1 ==> (#[trigger] post.chunk_content(ns, spec_chunk_id(parts_v[j]))) is Some,
{
    reveal(upload_chunk_post);
    assert forall|j: int|
        0 <= j < k + 1 implies (#[trigger] post.chunk_content(ns, spec_chunk_id(parts_v[j]))) is Some by {
        if j < k {
            assert(before.chunk_content(ns, spec_chunk_id(parts_v[j])) is Some);
            assert(before.chunk_at(ns, spec_chunk_id(parts_v[j])) is Some);
        }
    }
}

/// After part `k` is recorded: each recorded part keeps the size it was
/// recorded with, namely its own length.
proof fn lemma_step_sizes(
    before: FileStore,
    post: FileStore,
    ns: u64,
    parts_v: Seq<Seq<u8>>,
    k: int,
    r: Result<ChunkId, StoreError>,
)
    requires
        0 <= k < parts_v.len(),
        r is Ok,
        upload_chunk_post(before, post, ns, parts_v[k], r),
        forall|j: int|
            0 <= j < k ==> ((#[trigger] before.chunk_at(ns, spec_chunk_id(parts_v[j]))) matches Some(m)
                    && m.size == parts_v[j].len()),
    ensures
        forall|j: int|
            0 <= j < k + 1 ==> ((#[trigger] post.chunk_at(ns, spec_chunk_id(parts_v[j]))) matches Some(m)
                    && m.size == parts_v[j].len()),
{
    reveal(upload_chunk_post);
    let cid = spec_chunk_id(parts_v[k]);
    assert forall|j: int|
        0 <= j < k + 1 implies ((#[trigger] post.chunk_at(ns, spec_chunk_id(parts_v[j])))
            matches Some(m) && m.size == parts_v[j].len()) by {
        if j < k {
            assert(before.chunk_at(ns, spec_chunk_id(parts_v[j])) is Some);
            assert(post.chunk_at(ns, spec_chunk_id(parts_v[j])) == before.chunk_at(
                ns,
                spec_chunk_id(parts_v[j]),
            ));
        } else {
            if before.chunk_at(ns, cid) is Some {
                assert(post == before);
            } else {
                assert(post.chunk_at(ns, cid)->Some_0.size == parts_v[k].len());
            }
        }
    }
}

/// After part `k` is recorded, under collision freedom: each of the first
/// `k + 1` parts reads back as exactly itself.
proof fn lemma_step_ccf(
    pre: FileStore,
    before: FileStore,
    post: FileStore,
    ns: u64,
    parts_v: Seq<Seq<u8>>,
    k: int,
    r: Result<ChunkId, StoreError>,
)
    requires
        0 <= k < parts_v.len(),
        r is Ok,
        upload_chunk_post(before, post, ns, parts_v[k], r),
        chunks_collision_free(pre, ns, parts_v),
        chunks_preserved(pre, before),
        forall|j: int|
            0 <= j < k ==> #[trigger] before.chunk_content(ns, spec_chunk_id(parts_v[j])) == Some(parts_v[j]),
        forall|ns2: u64, id2: ContentHashV|
            (#[trigger] before.chunk_at(ns2, id2)) is Some ==> pre.chunk_at(ns2, id2) is Some
                || (ns2 == ns && exists|j: int|
                0 <= j < k && id2 == spec_chunk_id(#[trigger] parts_v[j])),
    ensures
        forall|j: int|
            0 <= j < k + 1 ==> #[trigger] post.chunk_content(ns, spec_chunk_id(parts_v[j])) == Some(parts_v[j]),
{
    reveal(upload_chunk_post);
    let cid = spec_chunk_id(parts_v[k]);
    assert forall|j: int|
        0 <= j < k + 1 implies #[trigger] post.chunk_content(ns, spec_chunk_id(parts_v[j])) == Some(parts_v[j]) by {
        if j < k {
            assert(before.chunk_content(ns, spec_chunk_id(parts_v[j])) == Some(parts_v[j]));
            assert(before.chunk_at(ns, spec_chunk_id(parts_v[j])) is Some);
        } else {
            if before.chunk_at(ns, cid) is None {
                assert(post.chunk_content(ns, cid) == Some(parts_v[k]));
            } else {
                assert(post == before);
                if pre.chunk_at(ns, cid) is Some {
                    assert(pre.chunk_content(ns, cid) == Some(parts_v[k]));
                } else {
                    let jj = choose|jj: int|
                        0 <= jj < k && cid == spec_chunk_id(#[trigger] parts_v[jj]);
                    assert(parts_v[jj] == parts_v[k]);
                    assert(before.chunk_content(ns, spec_chunk_id(parts_v[jj])) == Some(
                        parts_v[jj],
                    ));
                }
            }
        }
    }
}

/// After part `k` is recorded: the row count grew exactly when some of the
/// first `k + 1` parts was new.
proof fn lemma_step_counts(
    pre: FileStore,
    before: FileStore,
    post: FileStore,
    ns: u64,
    parts_v: Seq<Seq<u8>>,
    k: int,
    r: Result<ChunkId, StoreError>,
)
    requires
        0 <= k < parts_v.len(),
        r is Ok,
        upload_chunk_post(before, post, ns, parts_v[k], r),
        chunks_preserved(pre, before),
        before.chunk_count() >= pre.chunk_count(),
        forall|ns2: u64, id2: ContentHashV|
            (#[trigger] before.chunk_at(ns2, id2)) is Some ==> pre.chunk_at(ns2, id2) is Some
                || (ns2 == ns && exists|j: int|
                0 <= j < k && id2 == spec_chunk_id(#[trigger] parts_v[j])),
        (forall|j: int|
            0 <= j < k ==> (#[trigger] pre.chunk_at(ns, spec_chunk_id(parts_v[j]))) is Some)
            ==> before.chunk_count() == pre.chunk_count(),
        (exists|j: int|
            0 <= j < k && (#[trigger] pre.chunk_at(ns, spec_chunk_id(parts_v[j]))) is None)
            ==> before.chunk_count() > pre.chunk_count(),
    ensures
        post.chunk_count() >= pre.chunk_count(),
        (forall|j: int|
            0 <= j < k + 1 ==> (#[trigger] pre.chunk_at(ns, spec_chunk_id(parts_v[j])))
                is Some) ==> post.chunk_count() == pre.chunk_count(),
        (exists|j: int|
            0 <= j < k + 1 && (#[trigger] pre.chunk_at(ns, spec_chunk_id(parts_v[j])))
                is None) ==> post.chunk_count() > pre.chunk_count(),
{
    reveal(upload_chunk_post);
    let cid = spec_chunk_id(parts_v[k]);
    if forall|j: int|
        0 <= j < k + 1 ==> (#[trigger] pre.chunk_at(ns, spec_chunk_id(parts_v[j]))) is Some {
        assert(before.chunk_count() == pre.chunk_count());
        assert(pre.chunk_at(ns, spec_chunk_id(parts_v[k])) is Some);
        assert(before.chunk_at(ns, cid) == pre.chunk_at(ns, cid));
        assert(post == before);
    }
    if exists|j: int|
        0 <= j < k + 1 && (#[trigger] pre.chunk_at(ns, spec_chunk_id(parts_v[j]))) is None {
        let j0 = choose|j: int|
            0 <= j < k + 1 && (#[trigger] pre.chunk_at(ns, spec_chunk_id(parts_v[j]))) is None;
        if j0 < k {
            assert(before.chunk_count() > pre.chunk_count());
        } else {
            if before.chunk_at(ns, cid) is None {
                assert(post.chunk_count() == before.chunk_count() + 1);
            } else {
                assert(pre.chunk_at(ns, cid) is None);
                let jj = choose|jj: int|
                    0 <= jj < k && cid == spec_chunk_id(#[trigger] parts_v[jj]);
                assert(pre.chunk_at(ns, spec_chunk_id(parts_v[jj])) is None);
                assert(before.chunk_count() > pre.chunk_count());
            }
        }
    }
}

impl NamespacedFileStore {
    /// Record every part of a split as a chunk of this namespace, in order,
    /// and return the chunk list for the manifest.
    #[verifier::rlimit(100)]
    fn upload_parts(&self, fs: &mut FileStore, parts: &Vec<Vec<u8>>) -> (r: Result<
        Vec<FileChunk>,
        StoreError,
    >)
        requires
            old(fs).wf(),
            forall|i: int| 0 <= i < parts@.len() ==> 1 <= (#[trigger] parts@[i])@.len() <= u32::MAX,
        ensures
            final(fs).wf(),
            chunks_preserved(*old(fs), *final(fs)),
            final(fs).files_log() == old(fs).files_log(),
            final(fs).named_log() == old(fs).named_log(),
            final(fs).chunk_count() >= old(fs).chunk_count(),
            r is Ok ==> forall|ns2: u64, id2: ContentHashV|
                #[trigger] final(fs).chunk_at(ns2, id2) == old(fs).chunk_at(ns2, id2) || (ns2
                    == self.namespace@ && exists|j: int|
                    0 <= j < views_of(parts@).len() && id2 == spec_chunk_id(
                        #[trigger] views_of(parts@)[j],
                    )),
            match r {
                Ok(refs) => upload_parts_inv(
                    *old(fs),
                    *final(fs),
                    self.namespace@,
                    views_of(parts@),
                    views_of(parts@).len() as int,
                    refs@,
                ),
                Err(e) => match e {
                    StoreError::Storage => exists|kk: int|
                        0 <= kk < views_of(parts@).len() && (#[trigger] old(fs).chunk_at(
                            self.namespace@,
                            spec_chunk_id(views_of(parts@)[kk]),
                        )) is None,
                    StoreError::Integrity => !parts_sizes_consistent(
                        *old(fs),
                        self.namespace@,
                        views_of(parts@),
                    ),
                    _ => false,
                },
            },
    {
        proof {
            reveal(upload_chunk_post);
        }
        let ghost pre = *old(fs);
        let ghost ns = self.namespace@;
        let ghost pv = views_of(parts@);
        let mut refs: Vec<FileChunk> = Vec::new();
        let mut k: usize = 0;
        proof {
            lemma_upload_parts_init(pre, ns, pv);
            assert(refs@ =~= Seq::<FileChunk>::empty());
        }
        while k < parts.len()
            invariant
                pre == *old(fs),
                fs.wf(),
                ns == self.namespace@,
                pv == views_of(parts@),
                k <= parts@.len(),
                forall|i: int|
                    0 <= i < parts@.len() ==> 1 <= (#[trigger] parts@[i])@.len() <= u32::MAX,
                refs@.len() == k,
                upload_parts_inv(pre, *fs, ns, pv, k as int, refs@),
            decreases parts@.len() - k,
        {
            let ghost before = *fs;
            let ghost refs0 = refs@;
            let part = &parts[k];
            proof {
                reveal(upload_chunk_post);
                assert(part@ == pv[k as int]);
            }
            let chunk_id = match self.upload_chunk(fs, part.as_slice()) {
                Result::Err(e) => {
                    proof {
                        lemma_upload_parts_abort(pre, before, *fs, ns, pv, k as int, refs0, e);
                    }
                    return Err(e);
                },
                Result::Ok(id) => id,
            };
            let new_ref = FileChunk { chunk_size: part.len() as u32, chunk_id };
            proof {
                lemma_upload_parts_step(
                    pre,
                    before,
                    *fs,
                    ns,
                    pv,
                    k as int,
                    Ok(chunk_id),
                    refs0,
                    new_ref,
                );
            }
            refs.push(new_ref);
            k = k + 1;
        }
        proof {
            lemma_upload_parts_unpack(pre, *fs, ns, pv, k as int, refs@);
        }
        Ok(refs)
    }

    /// Upload a whole file: hash it to its id, store it inline when it is at
    /// most the inline threshold, else cut it with the configured strategy
    /// and record each chunk (deduplicated) and the manifest listing them.
    #[verifier::rlimit(100)]
    pub fn upload_file(&self, fs: &mut FileStore, contents: &[u8]) -> (r: Result<
        FileId,
        StoreError,
    >)
        requires
            old(fs).wf(),
            self.config.wf(),
            self.config.chunking_strategy.fits(contents@.len() as int),
        ensures
            upload_file_post(
                *old(fs),
                *final(fs),
                self.namespace@,
                self.config,
                contents@,
                r,
            ),
    {
        proof {
            reveal(upload_file_post);
        }
        let ghost pre = *old(fs);
        let ghost ns = self.namespace@;
        let ghost cfg = self.config;
        let file_id = FileId::from_contents(contents);
        let file_size = contents.len() as u64;
        let manifest: FileContents;
        let ghost parts_v: Seq<Seq<u8>> = spec_split(cfg.chunking_strategy, contents@);
        if file_size <= self.config.inline_size {
            manifest = FileContents::Inline(slice_to_vec(contents));
        } else {
            let parts = chunk_bytes(&self.config.chunking_strategy, contents);
            proof {
                assert(views_of(parts@) == parts_v);
            }
            let refs = match self.upload_parts(fs, &parts) {
                Result::Err(e) => {
                    proof {
                        lemma_files_preserved_from_chunks(pre, *fs);
                    }
                    return Err(e);
                },
                Result::Ok(refs) => refs,
            };
            proof {
                lemma_upload_parts_unpack(
                    pre,
                    *fs,
                    ns,
                    parts_v,
                    parts_v.len() as int,
                    refs@,
                );
            }
            manifest = FileContents::Chunked(refs);
        }
        let ghost recorded = *fs;
        let file = File { size: file_size, contents: manifest };
        let ghost file_v = file@;
        fs.files.push(((self.namespace, file_id), file));
        proof {
            broadcast use lemma_find_last_push;

            let post = *fs;
            assert(post.files_log() =~= recorded.files_log().push(((ns, file_id@), file_v)));
            assert(post.chunks_log() == recorded.chunks_log());
            assert(post.segs_log() == recorded.segs_log());
            assert(post.named_log() == recorded.named_log());
            lemma_file_push_frame(recorded, post, (ns, file_id@), file_v);
            lemma_chunks_preserved_trans(pre, recorded, post);
            lemma_files_preserved_from_chunks(pre, recorded);
            assert forall|ns2: u64, fid2: ContentHashV|
                (ns2, fid2) != (ns, spec_file_id(contents@)) && (#[trigger] pre.file_content(
                    ns2,
                    fid2,
                )) is Some implies post.file_content(ns2, fid2) == pre.file_content(
                ns2,
                fid2,
            ) by {
                assert(recorded.file_content(ns2, fid2) == pre.file_content(ns2, fid2));
            }
            if contents@.len() <= cfg.inline_size {
                assert(file_v.contents == FileContentsV::Inline(contents@));
                assert(post.file_content(ns, file_id@) == Some(contents@));
                assert(post.chunks_log() == pre.chunks_log());
                assert(post.segs_log() == pre.segs_log());
            } else {
                let refs_v = refs_of_parts(parts_v);
                assert(file_v.contents->Chunked_0 =~= refs_v);
                assert forall|i: int| 0 <= i < parts_v.len() implies (
                #[trigger] parts_v[i]).len() <= u32::MAX by {}
                lemma_sum_refs_flatten(parts_v);
                assert(parts_v.flatten() == contents@);
                assert(spec_manifest_wf(file_v));
                assert forall|j: int|
                    0 <= j < refs_v.len() implies post.chunk_content(
                    ns,
                    (#[trigger] refs_v[j]).chunk_id,
                ) is Some by {
                    assert(refs_v[j].chunk_id == spec_chunk_id(parts_v[j]));
                    assert(recorded.chunk_content(ns, spec_chunk_id(parts_v[j])) is Some);
                }
                if chunks_collision_free(pre, ns, parts_v) {
                    assert forall|j: int|
                        0 <= j < parts_v.len() implies #[trigger] post.chunk_content(ns, spec_chunk_id(parts_v[j])) == Some(parts_v[j]) by {
                        assert(recorded.chunk_content(ns, spec_chunk_id(parts_v[j]))
                            == Some(parts_v[j]));
                    }
                    lemma_cat_refs_of_parts(post, ns, parts_v);
                    assert(post.refs_resolve(ns, refs_v));
                    assert(post.file_content(ns, file_id@) == Some(contents@));
                }
            }
        }
        Ok(file_id)
    }
}


/// Every part of a sequence is recorded in the namespace with exactly its
/// own bytes.
pub open spec fn parts_recorded(fs: FileStore, ns: u64, parts: Seq<Seq<u8>>) -> bool {
    forall|j: int|
        0 <= j < parts.len() ==> #[trigger] fs.chunk_content(ns, spec_chunk_id(parts[j])) == Some(parts[j])
}

/// An in-progress streaming upload: the chunk references recorded so far,
/// the running total size, and an incremental hasher computing the file id
/// over all bytes pushed, in order.
pub struct StreamingUpload {
    hasher: blake3::Hasher,
    refs: Vec<FileChunk>,
    total: u64,
    parts: Ghost<Seq<Seq<u8>>>,
}

impl StreamingUpload {
    /// The chunks pushed so far, in order.
    pub closed spec fn parts(self) -> Seq<Seq<u8>> {
        self.parts@
    }

    /// Internal coherence: the hasher has absorbed exactly the pushed bytes,
    /// the total is their length, and the chunk list mirrors the parts.
    pub closed spec fn wf(self) -> bool {
        &&& hasher_fed(self.hasher) == self.parts@.flatten()
        &&& self.total == self.parts@.flatten().len()
        &&& self.refs@.len() == self.parts@.len()
        &&& forall|j: int|
            0 <= j < self.parts@.len() ==> (#[trigger] self.refs@[j])@ == (FileChunkV {
                chunk_size: self.parts@[j].len() as u32,
                chunk_id: spec_chunk_id(self.parts@[j]),
            })
        &&& forall|j: int|
            0 <= j < self.parts@.len() ==> 1 <= (#[trigger] self.parts@[j]).len() <= u32::MAX
    }

    /// A streaming upload that has seen nothing yet.
    pub fn new() -> (r: StreamingUpload)
        ensures
            r.wf(),
            r.parts() == Seq::<Seq<u8>>::empty(),
    {
        let hasher = hasher_new();
        proof {
            assert(Seq::<Seq<u8>>::empty().flatten() =~= Seq::<u8>::empty());
        }
        StreamingUpload { hasher, refs: Vec::new(), total: 0, parts: Ghost(Seq::empty()) }
    }
}

impl NamespacedFileStore {
    /// Push one chunk of a streaming upload: record it in the store
    /// (deduplicated) and fold it into the upload's hash and chunk list.
    #[verifier::rlimit(100)]
    pub fn store_file_push(
        &self,
        fs: &mut FileStore,
        up: &mut StreamingUpload,
        chunk: &[u8],
    ) -> (r: Result<(), StoreError>)
        requires
            old(fs).wf(),
            old(up).wf(),
            1 <= chunk@.len() <= u32::MAX,
            old(up).parts().flatten().len() + chunk@.len() <= u64::MAX,
        ensures
            final(fs).wf(),
            final(up).wf(),
            chunks_preserved(*old(fs), *final(fs)),
            files_preserved(*old(fs), *final(fs)),
            final(fs).files_log() == old(fs).files_log(),
            final(fs).named_log() == old(fs).named_log(),
            forall|ns2: u64, id2: ContentHashV|
                (ns2, id2) != (self.namespace@, spec_chunk_id(chunk@))
                    ==> #[trigger] final(fs).chunk_at(ns2, id2) == old(fs).chunk_at(ns2, id2),
            match r {
                Ok(_) => {
                    &&& final(up).parts() == old(up).parts().push(chunk@)
                    &&& final(fs).chunk_content(self.namespace@, spec_chunk_id(chunk@)) is Some
                    &&& (old(fs).chunk_at(self.namespace@, spec_chunk_id(chunk@)) is None
                        ==> final(fs).chunk_content(self.namespace@, spec_chunk_id(chunk@))
                            == Some(chunk@))
                    &&& ((parts_recorded(*old(fs), self.namespace@, old(up).parts()) && (old(
                        fs,
                    ).chunk_at(self.namespace@, spec_chunk_id(chunk@)) is Some ==> old(
                        fs,
                    ).chunk_content(self.namespace@, spec_chunk_id(chunk@)) == Some(chunk@)))
                        ==> parts_recorded(*final(fs), self.namespace@, final(up).parts()))
                },
                Err(e) => {
                    &&& *final(up) == *old(up)
                    &&& final(fs).chunks_log() == old(fs).chunks_log()
                    &&& final(fs).segs_log() == old(fs).segs_log()
                    &&& match e {
                        StoreError::Storage => old(fs).chunk_at(
                            self.namespace@,
                            spec_chunk_id(chunk@),
                        ) is None,
                        StoreError::Integrity => match old(fs).chunk_at(
                            self.namespace@,
                            spec_chunk_id(chunk@),
                        ) {
                            Some(m) => m.size != chunk@.len(),
                            None => false,
                        },
                        _ => false,
                    }
                },
            },
    {
        proof {
            reveal(upload_chunk_post);
        }
        let ghost pre = *old(fs);
        let ghost ns = self.namespace@;
        let ghost parts0 = up.parts@;
        let chunk_id = match self.upload_chunk(fs, chunk) {
            Result::Err(e) => {
                proof {
                    lemma_files_preserved_from_chunks(pre, *fs);
                }
                return Err(e);
            },
            Result::Ok(id) => id,
        };
        hasher_update(&mut up.hasher, chunk);
        up.refs.push(FileChunk { chunk_size: chunk.len() as u32, chunk_id });
        up.total = up.total + chunk.len() as u64;
        proof {
            up.parts@ = parts0.push(chunk@);
            broadcast use Seq::lemma_flatten_push;

            assert(up.parts@.flatten() == parts0.flatten() + chunk@);
            assert forall|j: int|
                0 <= j < up.parts@.len() implies (#[trigger] up.refs@[j])@ == (FileChunkV {
                chunk_size: up.parts@[j].len() as u32,
                chunk_id: spec_chunk_id(up.parts@[j]),
            }) by {
                if j < parts0.len() {
                    assert(up.refs@[j] == old(up).refs@[j]);
                    assert(up.parts@[j] == parts0[j]);
                }
            }
            if parts_recorded(pre, ns, parts0) && (pre.chunk_at(ns, spec_chunk_id(chunk@))
                is Some ==> pre.chunk_content(ns, spec_chunk_id(chunk@)) == Some(chunk@)) {
                assert forall|j: int|
                    0 <= j < up.parts@.len() implies fs.chunk_content(
                    ns,
                    spec_chunk_id(#[trigger] up.parts@[j]),
                ) == Some(up.parts@[j]) by {
                    if j < parts0.len() {
                        assert(pre.chunk_content(ns, spec_chunk_id(parts0[j])) == Some(
                            parts0[j],
                        ));
                        assert(pre.chunk_at(ns, spec_chunk_id(parts0[j])) is Some);
                        assert(up.parts@[j] == parts0[j]);
                    } else {
                        if pre.chunk_at(ns, spec_chunk_id(chunk@)) is Some {
                            assert(fs.chunk_content(ns, spec_chunk_id(chunk@)) == pre
                                .chunk_content(ns, spec_chunk_id(chunk@)));
                        }
                    }
                }
            }
        }
        Ok(())
    }

    /// Finish a streaming upload: the file id is the BLAKE3 hash of all
    /// bytes pushed, and the manifest is the chunk list, always `Chunked`,
    /// even for a single chunk. An upload of no chunks is refused: a chunked
    /// manifest must list at least one chunk.
    #[verifier::rlimit(100)]
    pub fn store_file_finish(&self, fs: &mut FileStore, up: StreamingUpload) -> (r: Result<
        FileId,
        StoreError,
    >)
        requires
            old(fs).wf(),
            up.wf(),
        ensures
            final(fs).wf(),
            chunks_preserved(*old(fs), *final(fs)),
            final(fs).named_log() == old(fs).named_log(),
            final(fs).segs_log() == old(fs).segs_log(),
            forall|ns2: u64, id2: ContentHashV| #[trigger]
                final(fs).chunk_at(ns2, id2) == old(fs).chunk_at(ns2, id2),
            match r {
                Ok(fid) => {
                    &&& fid@ == spec_file_id(up.parts().flatten())
                    &&& up.parts().len() >= 1
                    &&& final(fs).file_at(self.namespace@, fid@) is Some
                    &&& final(fs).file_at(self.namespace@, fid@)->Some_0.contents
                        == FileContentsV::Chunked(refs_of_parts(up.parts()))
                    &&& final(fs).file_at(self.namespace@, fid@)->Some_0.size == up
                        .parts().flatten().len()
                    &&& spec_manifest_wf(final(fs).file_at(self.namespace@, fid@)->Some_0)
                    &&& forall|ns2: u64, fid2: ContentHashV|
                        (ns2, fid2) != (self.namespace@, fid@) ==> #[trigger] final(fs).file_at(
                            ns2,
                            fid2,
                        ) == old(fs).file_at(ns2, fid2)
                    &&& forall|ns2: u64, fid2: ContentHashV|
                        (ns2, fid2) != (self.namespace@, fid@)
                            ==> #[trigger] final(fs).file_content(ns2, fid2)
                            == old(fs).file_content(ns2, fid2)
                    &&& (parts_recorded(*old(fs), self.namespace@, up.parts())
                        ==> final(fs).file_content(self.namespace@, fid@)
                        == Some(up.parts().flatten()))
                },
                Err(e) => {
                    &&& *final(fs) == *old(fs)
                    &&& match e {
                        StoreError::EmptyUpload => up.parts().len() == 0,
                        // some pushed chunk is no longer recorded with its
                        // own length: a detected collision
                        StoreError::Integrity => exists|j: int|
                            0 <= j < up.parts().len() && match old(fs).chunk_at(
                                self.namespace@,
                                spec_chunk_id(#[trigger] up.parts()[j]),
                            ) {
                                Some(m) => m.size != up.parts()[j].len(),
                                None => true,
                            },
                        _ => false,
                    }
                },
            },
    {
        let ghost pre = *old(fs);
        let ghost ns = self.namespace@;
        let ghost parts = up.parts@;
        if up.refs.is_empty() {
            return Err(StoreError::EmptyUpload);
        }
        // commit-time integrity check: every listed chunk must still be
        // recorded with exactly its listed size
        let mut k: usize = 0;
        while k < up.refs.len()
            invariant
                *fs == *old(fs),
                fs.wf(),
                ns == self.namespace@,
                parts == up.parts@,
                up.wf(),
                k <= up.refs@.len(),
                forall|j: int|
                    0 <= j < k ==> ((#[trigger] fs.chunk_at(ns, spec_chunk_id(parts[j]))) matches Some(m)
                            && m.size == parts[j].len()),
            decreases up.refs@.len() - k,
        {
            let chunk_ref = &up.refs[k];
            proof {
                assert(chunk_ref@ == (FileChunkV {
                    chunk_size: parts[k as int].len() as u32,
                    chunk_id: spec_chunk_id(parts[k as int]),
                }));
            }
            match fs.get_chunk_metadata(self.namespace, &chunk_ref.chunk_id) {
                Option::Some(m) => {
                    if m.size != chunk_ref.chunk_size {
                        return Err(StoreError::Integrity);
                    }
                },
                Option::None => {
                    return Err(StoreError::Integrity);
                },
            }
            k += 1;
        }
        let digest = hasher_finalize(&up.hasher);
        let file_id = FileId(crate::datamodel::ContentHash::from_blake3_digest(&digest));
        let file = File { size: up.total, contents: FileContents::Chunked(up.refs) };
        let ghost file_v = file@;
        fs.files.push(((self.namespace, file_id), file));
        proof {
            let post = *fs;
            assert(post.files_log() =~= pre.files_log().push(((ns, file_id@), file_v)));
            lemma_file_push_frame(pre, post, (ns, file_id@), file_v);
            assert(file_id@ == spec_file_id(parts.flatten()));
            let refs_v = refs_of_parts(parts);
            assert(file_v.contents->Chunked_0 =~= refs_v);
            lemma_sum_refs_flatten(parts);
            assert(spec_manifest_wf(file_v));

            assert forall|ns2: u64, id2: ContentHashV|
                (#[trigger] pre.chunk_at(ns2, id2)) is Some implies post.chunk_at(ns2, id2)
                == pre.chunk_at(ns2, id2) && post.chunk_content(ns2, id2) == pre.chunk_content(
                ns2,
                id2,
            ) by {}
            if parts_recorded(pre, ns, parts) {
                assert forall|j: int|
                    0 <= j < parts.len() implies #[trigger] post.chunk_content(ns, spec_chunk_id(parts[j])) == Some(parts[j]) by {
                    assert(pre.chunk_content(ns, spec_chunk_id(parts[j])) == Some(parts[j]));
                }
                lemma_cat_refs_of_parts(post, ns, parts);
                assert forall|j: int|
                    0 <= j < refs_v.len() implies post.chunk_content(
                    ns,
                    (#[trigger] refs_v[j]).chunk_id,
                ) is Some by {
                    assert(refs_v[j].chunk_id == spec_chunk_id(parts[j]));
                }
                assert(post.refs_resolve(ns, refs_v));
            }
        }
        Ok(file_id)
    }
}

} // verus!
