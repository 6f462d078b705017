//! The laws of the store, stated and proved over the contracts of the upload
//! and read operations.
//!
//! Each law relates the abstract pictures of the store before and after a
//! sequence of calls, through the post predicates that the executable
//! operations ensure. The laws about reading content back hold under
//! `chunks_collision_free`: that the content hash confused none of the bytes
//! at hand with other bytes. That assumption is what content addressing rests
//! on; it cannot be proved of any concrete hash function.

use vstd::prelude::*;
use crate::datamodel::{FileId, FileContentsV, spec_file_id};
use crate::chunker::spec_split;
use crate::store::{
    FileStore, Config, upload_file_post, chunks_collision_free, lemma_same_logs_same_content,
};

verus! {

/// Round trip: after a successful upload of `b`, the returned file id reads
/// back to exactly `b` (so `read_file` returns `Ok(b)`), provided no chunk of
/// `b` is confused with other stored bytes by the content hash.
pub proof fn lemma_upload_read_round_trip(
    pre: FileStore,
    post: FileStore,
    ns: u64,
    cfg: Config,
    b: Seq<u8>,
    fid: FileId,
)
    requires
        upload_file_post(pre, post, ns, cfg, b, Ok(fid)),
        b.len() > cfg.inline_size ==> chunks_collision_free(
            pre,
            ns,
            spec_split(cfg.chunking_strategy, b),
        ),
    ensures
        post.file_content(ns, fid@) == Some(b),
{
    reveal(upload_file_post);
}

/// Named round trip: upload `b`, bind a name to the returned id, and the
/// name resolves to a file that reads back to exactly `b` (so
/// `read_named_file` returns `Ok(b)`), under the same collision-freedom
/// proviso.
pub proof fn lemma_named_round_trip(
    pre: FileStore,
    uploaded: FileStore,
    bound: FileStore,
    ns: u64,
    cfg: Config,
    b: Seq<u8>,
    fid: FileId,
    name: Seq<char>,
)
    requires
        upload_file_post(pre, uploaded, ns, cfg, b, Ok(fid)),
        b.len() > cfg.inline_size ==> chunks_collision_free(
            pre,
            ns,
            spec_split(cfg.chunking_strategy, b),
        ),
        bound.named_at(ns, name) == Some(fid@),
        bound.chunks_log() == uploaded.chunks_log(),
        bound.files_log() == uploaded.files_log(),
        bound.segs_log() == uploaded.segs_log(),
    ensures
        bound.named_at(ns, name) is Some,
        bound.file_content(ns, bound.named_at(ns, name)->Some_0) == Some(b),
{
    reveal(upload_file_post);
    lemma_upload_read_round_trip(pre, uploaded, ns, cfg, b, fid);
    lemma_same_logs_same_content(uploaded, bound, ns, fid@);
}

/// Content-addressed determinism: uploading the same bytes twice, in any
/// namespaces, under any configurations, from any store states, returns the
/// same file id.
pub proof fn lemma_upload_deterministic(
    pre1: FileStore,
    post1: FileStore,
    pre2: FileStore,
    post2: FileStore,
    ns1: u64,
    ns2: u64,
    cfg1: Config,
    cfg2: Config,
    b: Seq<u8>,
    fid1: FileId,
    fid2: FileId,
)
    requires
        upload_file_post(pre1, post1, ns1, cfg1, b, Ok(fid1)),
        upload_file_post(pre2, post2, ns2, cfg2, b, Ok(fid2)),
    ensures
        fid1@ == fid2@,
{
    reveal(upload_file_post);
    assert(fid1@ == spec_file_id(b));
    assert(fid2@ == spec_file_id(b));
}

/// Deduplication: uploading the same chunked content twice into one
/// namespace inserts chunk rows only the first time. The second upload adds
/// no row at all, and whenever the first upload brought any chunk the store
/// did not hold, the second upload inserts strictly fewer rows than the
/// first.
pub proof fn lemma_second_upload_inserts_nothing(
    pre: FileStore,
    mid: FileStore,
    post: FileStore,
    ns: u64,
    cfg: Config,
    b: Seq<u8>,
    fid1: FileId,
    fid2: FileId,
)
    requires
        b.len() > cfg.inline_size,
        upload_file_post(pre, mid, ns, cfg, b, Ok(fid1)),
        upload_file_post(mid, post, ns, cfg, b, Ok(fid2)),
    ensures
        post.chunk_count() == mid.chunk_count(),
        (exists|k: int|
            0 <= k < spec_split(cfg.chunking_strategy, b).len() && (#[trigger] pre.chunk_at(
                ns,
                crate::datamodel::spec_chunk_id(spec_split(cfg.chunking_strategy, b)[k]),
            )) is None) ==> mid.chunk_count() > pre.chunk_count(),
{
    reveal(upload_file_post);
    let parts = spec_split(cfg.chunking_strategy, b);
    assert forall|k: int|
        0 <= k < parts.len() implies (#[trigger] mid.chunk_at(
        ns,
        crate::datamodel::spec_chunk_id(parts[k]),
    )) is Some by {
        assert(mid.chunk_content(ns, crate::datamodel::spec_chunk_id(parts[k])) is Some);
    }
}

/// Inline threshold: uploading at most `inline_size` bytes records an
/// `Inline` manifest holding exactly those bytes, inserts no chunk row, and
/// reads back unconditionally.
pub proof fn lemma_inline_upload(
    pre: FileStore,
    post: FileStore,
    ns: u64,
    cfg: Config,
    b: Seq<u8>,
    fid: FileId,
)
    requires
        b.len() <= cfg.inline_size,
        upload_file_post(pre, post, ns, cfg, b, Ok(fid)),
    ensures
        post.file_at(ns, fid@) is Some,
        post.file_at(ns, fid@)->Some_0.contents == FileContentsV::Inline(b),
        post.chunk_count() == pre.chunk_count(),
        post.chunks_log() == pre.chunks_log(),
        post.file_content(ns, fid@) == Some(b),
{
    reveal(upload_file_post);
}

/// Boundary: uploading the empty byte string yields the id of the empty
/// hash, an `Inline` manifest of no bytes, no chunk rows, and reading the id
/// back yields the empty byte string.
pub proof fn lemma_empty_upload(
    pre: FileStore,
    post: FileStore,
    ns: u64,
    cfg: Config,
    fid: FileId,
)
    requires
        upload_file_post(pre, post, ns, cfg, Seq::<u8>::empty(), Ok(fid)),
    ensures
        fid@ == spec_file_id(Seq::<u8>::empty()),
        post.file_at(ns, fid@)->Some_0.contents == FileContentsV::Inline(Seq::<u8>::empty()),
        post.chunk_count() == pre.chunk_count(),
        post.file_content(ns, fid@) == Some(Seq::<u8>::empty()),
{
    reveal(upload_file_post);
    lemma_inline_upload(pre, post, ns, cfg, Seq::<u8>::empty(), fid);
}

} // verus!
