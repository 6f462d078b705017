use kycok::chunker::{chunk_bytes, ChunkingStrategy};
use kycok::datamodel::{ChunkId, ContentHash, FileId, HashAlgorithm};
use kycok::metastore;
use kycok::workload::{FileRegistry, InternalId, WorkloadBuilder};

#[test]
fn blake3_identifier_of_known_input() {
    // BLAKE3("") begins af 13 49 b9 f5 f9 a1 a6 ...
    let hash = ContentHash::new(b"");
    assert_eq!(hash.hash_algorithm, HashAlgorithm::Blake3);
    assert_eq!(hash.hash_bytes[0], 0xaf);
    assert_eq!(hash.hash_bytes[1], 0x13);
    assert_eq!(hash.hash_bytes[2], 0x49);
    assert_eq!(hash.hash_bytes[3], 0xb9);
    assert_eq!(hash.hash_bytes[4], 0xf5);
}

#[test]
fn sha1_identifier_is_truncated_and_padded() {
    // SHA-1("abc") = a9 99 3e 36 47 06 81 6a ba 3e 25 71 78 50 c2 6c 9c d0 d8 9d
    let hash = ContentHash::with_algorithm(HashAlgorithm::Sha1, b"abc");
    assert_eq!(hash.hash_algorithm, HashAlgorithm::Sha1);
    assert_eq!(hash.hash_bytes[0], 0xa9);
    assert_eq!(hash.hash_bytes[1], 0x99);
    assert_eq!(hash.hash_bytes[2], 0x3e);
    assert_eq!(hash.hash_bytes[19], 0x9d);
    for i in 20..28 {
        assert_eq!(hash.hash_bytes[i], 0);
    }
}

#[test]
fn identifiers_of_different_algorithms_differ() {
    let blake = ContentHash::new(b"abc");
    let sha = ContentHash::with_algorithm(HashAlgorithm::Sha1, b"abc");
    assert!(!blake.same_as(&sha));
    assert_ne!(blake, sha);
    assert!(blake.same_as(&ContentHash::new(b"abc")));
}

#[test]
fn chunk_and_file_ids_are_content_hashes() {
    let c = ChunkId::from_contents(b"payload");
    let f = FileId::from_contents(b"payload");
    assert_eq!(c.0, f.0);
    assert_ne!(ChunkId::from_contents(b"a"), ChunkId::from_contents(b"b"));
}

#[test]
fn fixed_split_exact_blocks() {
    let parts = chunk_bytes(&ChunkingStrategy::Fixed(4), b"abcdefghij");
    let expected: Vec<&[u8]> = vec![b"abcd", b"efgh", b"ij"];
    assert_eq!(parts, expected);
}

#[test]
fn fixed_split_of_empty_input_is_empty() {
    let parts = chunk_bytes(&ChunkingStrategy::Fixed(4), b"");
    assert!(parts.is_empty());
}

#[test]
fn whole_split_emits_one_chunk() {
    let parts = chunk_bytes(&ChunkingStrategy::Whole, b"everything");
    assert_eq!(parts, vec![b"everything".to_vec()]);
}

#[test]
fn cdc_split_reassembles_exactly() {
    let mut data = Vec::new();
    let mut state: u64 = 42;
    while data.len() < 20_000 {
        state = state.wrapping_mul(6364136223846793005).wrapping_add(1442695040888963407);
        data.extend_from_slice(&state.to_le_bytes());
    }
    let parts = chunk_bytes(&ChunkingStrategy::Cdc(64, 256, 1024), &data);
    assert!(parts.len() >= 2);
    let mut glued = Vec::new();
    for p in &parts {
        assert!(!p.is_empty());
        assert!(p.len() <= 1024);
        glued.extend_from_slice(p);
    }
    assert_eq!(glued, data);
}

#[test]
fn cdc_split_is_deterministic() {
    let data: Vec<u8> = (0..10_000u32).map(|i| (i * 31 % 251) as u8).collect();
    let a = chunk_bytes(&ChunkingStrategy::Cdc(64, 256, 1024), &data);
    let b = chunk_bytes(&ChunkingStrategy::Cdc(64, 256, 1024), &data);
    assert_eq!(a, b);
}

#[test]
fn metadata_default_is_fresh_record() {
    let m = metastore::Metadata::default();
    assert_eq!(m.version, metastore::MetadataVersion::V0);
    assert_eq!(m.chunk_type, metastore::ChunkType::Chunk);
    assert_eq!(m.hash_algorithm, metastore::HashAlgorithm::Blake3);
    assert_eq!(m.compression, metastore::Compression::Uncompressed);
    assert_eq!(m.hash, [0u8; 32]);
}

#[test]
fn workload_builder_setters() {
    let b = WorkloadBuilder {
        name: String::from("test"),
        concurrency: 1,
        seed: 0,
        p50_size: 100,
        p99_size: 1000,
        write_weight: 33,
        read_weight: 33,
        delete_weight: 33,
    };
    let b = b.concurrency(8).size_distribution(16 * 1024, 1024 * 1024).action_weights(98, 2, 0);
    assert_eq!(b.concurrency, 8);
    assert_eq!(b.p50_size, 16 * 1024);
    assert_eq!(b.p99_size, 1024 * 1024);
    assert_eq!(b.write_weight, 98);
    assert_eq!(b.read_weight, 2);
    assert_eq!(b.delete_weight, 0);
    assert_eq!(b.name, "test");
}

#[test]
fn file_registry_hands_out_each_entry_once() {
    let mut reg = FileRegistry::new();
    assert_eq!(reg.len(), 0);
    reg.push_file(InternalId(1), String::from("a"));
    reg.push_file(InternalId(2), String::from("b"));
    reg.push_file(InternalId(3), String::from("c"));
    assert_eq!(reg.len(), 3);
    let (id, name) = reg.take_at(1);
    assert_eq!(id, InternalId(2));
    assert_eq!(name, "b");
    assert_eq!(reg.len(), 2);
    let (id, name) = reg.take_at(0);
    assert_eq!(id, InternalId(1));
    assert_eq!(name, "a");
    let (id, name) = reg.take_at(0);
    assert_eq!(id, InternalId(3));
    assert_eq!(name, "c");
    assert_eq!(reg.len(), 0);
}

#[test]
fn cdc_split_of_empty_input_is_empty() {
    let parts = chunk_bytes(&ChunkingStrategy::Cdc(64, 256, 1024), b"");
    assert!(parts.is_empty());
}
