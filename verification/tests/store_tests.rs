use kycok::chunker::ChunkingStrategy;
use kycok::store::{Config, FileStore, Namespace, StoreError, StreamingUpload};

fn fixed_config(inline_size: u64, chunk: u32, segment_size: u64) -> Config {
    Config {
        inline_size,
        segment_size,
        chunking_strategy: ChunkingStrategy::Fixed(chunk),
    }
}

#[test]
fn mem_impl_test_filestore() {
    let mut global_fs = FileStore::new();

    let fs = FileStore::with_namespace(Namespace(0));
    let file_id = fs.upload_file(&mut global_fs, b"inlined file").unwrap();
    assert_eq!(fs.read_file(&global_fs, file_id).unwrap(), b"inlined file");

    let fs = FileStore::with_namespace(Namespace(1)).with_config(fixed_config(4, 16, 32));
    let contents = b"chunked, and deduped file contents...";

    let file_id = fs.upload_file(&mut global_fs, contents).unwrap();
    assert_eq!(fs.read_file(&global_fs, file_id).unwrap(), contents);

    let file_id = fs.upload_file(&mut global_fs, contents).unwrap();
    assert_eq!(fs.read_file(&global_fs, file_id).unwrap(), contents);
}

#[test]
fn fjall_impl_test_filestore() {
    let mut global_fs = FileStore::new();

    let fs = FileStore::with_namespace(Namespace(0));
    let file_id = fs.upload_file(&mut global_fs, b"inlined file").unwrap();
    assert_eq!(fs.read_file(&global_fs, file_id).unwrap(), b"inlined file");

    let fs = FileStore::with_namespace(Namespace(1)).with_config(fixed_config(4, 16, 32));
    let contents = b"chunked, and deduped file contents...";

    let file_id = fs.upload_file(&mut global_fs, contents).unwrap();
    assert_eq!(fs.read_file(&global_fs, file_id).unwrap(), contents);

    let file_id = fs.upload_file(&mut global_fs, contents).unwrap();
    assert_eq!(fs.read_file(&global_fs, file_id).unwrap(), contents);
}

#[test]
fn second_upload_same_id_and_no_new_rows() {
    let mut store = FileStore::new();
    let fs = FileStore::with_namespace(Namespace(1)).with_config(fixed_config(4, 16, 32));
    let contents = b"chunked, and deduped file contents...";
    assert_eq!(contents.len(), 37);

    let first = fs.upload_file(&mut store, contents).unwrap();
    let rows_after_first = store.chunk_row_count();
    assert_eq!(rows_after_first, 3);

    let second = fs.upload_file(&mut store, contents).unwrap();
    assert_eq!(first, second);
    assert_eq!(store.chunk_row_count(), rows_after_first);
}

#[test]
fn chunk_upload_dedups() {
    let mut store = FileStore::new();
    let fs = FileStore::with_namespace(Namespace(7));
    let id1 = fs.upload_chunk(&mut store, b"abc").unwrap();
    let id2 = fs.upload_chunk(&mut store, b"abc").unwrap();
    assert_eq!(id1, id2);
    assert_eq!(store.chunk_row_count(), 1);
    assert_eq!(fs.read_chunk(&store, id1).unwrap(), b"abc");
}

#[test]
fn named_round_trip() {
    let mut store = FileStore::new();
    let fs = FileStore::with_namespace(Namespace(0));
    let file_id = fs.upload_file(&mut store, b"hello").unwrap();
    fs.associate_filename(&mut store, file_id, "/a/b");
    assert_eq!(fs.read_named_file(&store, "/a/b").unwrap(), b"hello");
}

#[test]
fn named_binding_is_last_writer_wins() {
    let mut store = FileStore::new();
    let fs = FileStore::with_namespace(Namespace(0));
    let id1 = fs.upload_file(&mut store, b"one").unwrap();
    let id2 = fs.upload_file(&mut store, b"two").unwrap();
    fs.associate_filename(&mut store, id1, "name");
    fs.associate_filename(&mut store, id2, "name");
    assert_eq!(fs.read_named_file(&store, "name").unwrap(), b"two");
    assert_eq!(fs.resolve_name(&store, "name").unwrap(), id2);
}

fn pseudo_random_bytes(len: usize, mut state: u64) -> Vec<u8> {
    let mut out = Vec::with_capacity(len);
    while out.len() < len {
        state ^= state << 13;
        state ^= state >> 7;
        state ^= state << 17;
        for byte in state.to_le_bytes() {
            if out.len() < len {
                out.push(byte);
            }
        }
    }
    out
}

#[test]
fn cdc_round_trip_ten_mebibytes() {
    let mut store = FileStore::new();
    let fs = FileStore::with_namespace(Namespace(0));
    let data = pseudo_random_bytes(10 * 1024 * 1024, 0x1234_5678_9abc_def0);

    let file_id = fs.upload_file(&mut store, &data).unwrap();
    assert_eq!(fs.read_file(&store, file_id).unwrap(), data);
    // with a 4 MiB maximum chunk size, 10 MiB must split into several chunks
    assert!(store.chunk_row_count() >= 2);
}

#[test]
fn same_content_across_namespaces() {
    let mut store = FileStore::new();
    let fs0 = FileStore::with_namespace(Namespace(0)).with_config(fixed_config(4, 16, 1024));
    let fs1 = FileStore::with_namespace(Namespace(1)).with_config(fixed_config(4, 16, 1024));
    let contents = b"the same bytes in two tenants";

    let id0 = fs0.upload_file(&mut store, contents).unwrap();
    let id1 = fs1.upload_file(&mut store, contents).unwrap();
    assert_eq!(id0, id1);
    assert_eq!(fs0.read_file(&store, id0).unwrap(), contents);
    assert_eq!(fs1.read_file(&store, id1).unwrap(), contents);
    // the chunk rows are keyed per namespace, so both tenants inserted rows
    assert_eq!(store.chunk_row_count(), 4);
}

#[test]
fn empty_upload_round_trips() {
    let mut store = FileStore::new();
    let fs = FileStore::with_namespace(Namespace(0));
    let id1 = fs.upload_file(&mut store, b"").unwrap();
    let id2 = fs.upload_file(&mut store, b"").unwrap();
    assert_eq!(id1, id2);
    assert_eq!(fs.read_file(&store, id1).unwrap(), b"");
    assert_eq!(store.chunk_row_count(), 0);
}

#[test]
fn inline_threshold_inserts_no_chunk_rows() {
    let mut store = FileStore::new();
    let fs = FileStore::with_namespace(Namespace(0)).with_config(fixed_config(8, 4, 1024));
    let id = fs.upload_file(&mut store, b"12345678").unwrap();
    assert_eq!(store.chunk_row_count(), 0);
    assert_eq!(fs.read_file(&store, id).unwrap(), b"12345678");

    let id = fs.upload_file(&mut store, b"123456789").unwrap();
    assert_eq!(store.chunk_row_count(), 3);
    assert_eq!(fs.read_file(&store, id).unwrap(), b"123456789");
}

#[test]
fn shared_prefix_dedups_partially() {
    let mut store = FileStore::new();
    let fs = FileStore::with_namespace(Namespace(0)).with_config(fixed_config(1, 8, 1024));
    let first = b"prefix00prefix01suffix-a";
    let second = b"prefix00prefix01suffix-b";

    fs.upload_file(&mut store, first).unwrap();
    let inserted_by_first = store.chunk_row_count();
    assert_eq!(inserted_by_first, 3);

    fs.upload_file(&mut store, second).unwrap();
    let inserted_by_second = store.chunk_row_count() - inserted_by_first;
    assert_eq!(inserted_by_second, 1);
    assert!(inserted_by_second < inserted_by_first);
}

#[test]
fn segment_rotation_keeps_chunks_readable() {
    let mut store = FileStore::new();
    let fs = FileStore::with_namespace(Namespace(0)).with_config(fixed_config(0, 8, 8));
    let mut ids = Vec::new();
    let payloads: Vec<Vec<u8>> = (0u8..10).map(|i| vec![i; 6]).collect();
    for p in &payloads {
        ids.push(fs.upload_chunk(&mut store, p).unwrap());
    }
    for (id, p) in ids.iter().zip(payloads.iter()) {
        assert_eq!(&fs.read_chunk(&store, *id).unwrap(), p);
    }
}

#[test]
fn missing_lookups_report_not_found() {
    let store = FileStore::new();
    let fs = FileStore::with_namespace(Namespace(0));
    let absent_file = kycok::datamodel::FileId::from_contents(b"never stored");
    let absent_chunk = kycok::datamodel::ChunkId::from_contents(b"never stored");
    assert_eq!(fs.read_file(&store, absent_file).unwrap_err(), StoreError::NotFound);
    assert_eq!(fs.read_chunk(&store, absent_chunk).unwrap_err(), StoreError::NotFound);
    assert_eq!(fs.read_named_file(&store, "unbound").unwrap_err(), StoreError::NotFound);
    assert_eq!(fs.resolve_name(&store, "unbound").unwrap_err(), StoreError::NotFound);
}

#[test]
fn binding_unknown_id_fails_only_on_read() {
    let mut store = FileStore::new();
    let fs = FileStore::with_namespace(Namespace(0));
    let ghost_id = kycok::datamodel::FileId::from_contents(b"never uploaded");
    fs.associate_filename(&mut store, ghost_id, "dangling");
    assert_eq!(fs.resolve_name(&store, "dangling").unwrap(), ghost_id);
    assert_eq!(fs.read_named_file(&store, "dangling").unwrap_err(), StoreError::NotFound);
}

#[test]
fn streaming_upload_matches_whole_upload() {
    let mut store = FileStore::new();
    let fs = FileStore::with_namespace(Namespace(3));

    let mut up = StreamingUpload::new();
    fs.store_file_push(&mut store, &mut up, b"first chunk, ").unwrap();
    fs.store_file_push(&mut store, &mut up, b"second chunk").unwrap();
    let fid = fs.store_file_finish(&mut store, up).unwrap();

    assert_eq!(fs.read_file(&store, fid).unwrap(), b"first chunk, second chunk");
    let whole = kycok::datamodel::FileId::from_contents(b"first chunk, second chunk");
    assert_eq!(fid, whole);
}

#[test]
fn streaming_upload_single_chunk_is_chunked() {
    let mut store = FileStore::new();
    let fs = FileStore::with_namespace(Namespace(3));
    let mut up = StreamingUpload::new();
    fs.store_file_push(&mut store, &mut up, b"only").unwrap();
    let fid = fs.store_file_finish(&mut store, up).unwrap();
    // the manifest is a one-element chunk list, so a chunk row exists
    assert_eq!(store.chunk_row_count(), 1);
    assert_eq!(fs.read_file(&store, fid).unwrap(), b"only");
}

#[test]
fn streaming_upload_of_nothing_is_refused() {
    let mut store = FileStore::new();
    let fs = FileStore::with_namespace(Namespace(3));
    let up = StreamingUpload::new();
    assert_eq!(fs.store_file_finish(&mut store, up).unwrap_err(), StoreError::EmptyUpload);
}

#[test]
fn inline_manifest_is_recorded_inline() {
    let mut store = FileStore::new();
    let fs = FileStore::with_namespace(Namespace(0));
    let id = fs.upload_file(&mut store, b"inlined file").unwrap();
    let manifest = store.get_manifest(Namespace(0), &id).unwrap();
    assert_eq!(manifest.size, 12);
    assert!(matches!(manifest.contents, kycok::datamodel::FileContents::Inline(_)));
}

#[test]
fn chunked_manifest_lists_every_chunk() {
    let mut store = FileStore::new();
    let fs = FileStore::with_namespace(Namespace(0)).with_config(fixed_config(4, 8, 1024));
    let id = fs.upload_file(&mut store, b"0123456789abcdef-tail").unwrap();
    let manifest = store.get_manifest(Namespace(0), &id).unwrap();
    assert_eq!(manifest.size, 21);
    let kycok::datamodel::FileContents::Chunked(refs) = &manifest.contents else {
        panic!("expected a chunked manifest");
    };
    assert_eq!(refs.len(), 3);
    assert_eq!(refs[0].chunk_size, 8);
    assert_eq!(refs[1].chunk_size, 8);
    assert_eq!(refs[2].chunk_size, 5);
    let total: u64 = refs.iter().map(|r| r.chunk_size as u64).sum();
    assert_eq!(total, manifest.size);
    for r in refs {
        let meta = store.get_chunk_metadata(Namespace(0), &r.chunk_id).unwrap();
        assert_eq!(meta.size, r.chunk_size);
        assert_eq!(meta.compressed_size, meta.size);
    }
}

#[test]
fn whole_strategy_stores_one_chunk() {
    let mut store = FileStore::new();
    let fs = FileStore::with_namespace(Namespace(0)).with_config(Config {
        inline_size: 2,
        segment_size: 1024,
        chunking_strategy: ChunkingStrategy::Whole,
    });
    let id = fs.upload_file(&mut store, b"entire contents").unwrap();
    assert_eq!(store.chunk_row_count(), 1);
    assert_eq!(fs.read_file(&store, id).unwrap(), b"entire contents");
}

#[test]
fn names_are_per_namespace() {
    let mut store = FileStore::new();
    let fs0 = FileStore::with_namespace(Namespace(0));
    let fs1 = FileStore::with_namespace(Namespace(1));
    let id = fs0.upload_file(&mut store, b"scoped").unwrap();
    fs0.associate_filename(&mut store, id, "shared-name");
    assert_eq!(fs0.read_named_file(&store, "shared-name").unwrap(), b"scoped");
    assert_eq!(
        fs1.read_named_file(&store, "shared-name").unwrap_err(),
        StoreError::NotFound
    );
}
