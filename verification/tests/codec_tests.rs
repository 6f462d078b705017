use kycok::codec::{
    decode_hash, decode_varint, encode_chunk, encode_hash, encode_id_key, encode_name_key,
    encode_varint,
};
use kycok::datamodel::{Chunk, Compression, ContentHash, HashAlgorithm, SegmentId};

#[test]
fn varint_known_encodings() {
    let cases: Vec<(u64, Vec<u8>)> = vec![
        (0, vec![0]),
        (1, vec![1]),
        (127, vec![127]),
        (128, vec![0x80, 0x01]),
        (300, vec![0xac, 0x02]),
        (u64::MAX, vec![0xff, 0xff, 0xff, 0xff, 0xff, 0xff, 0xff, 0xff, 0xff, 0x01]),
    ];
    for (value, expected) in cases {
        let mut out = Vec::new();
        encode_varint(&mut out, value);
        assert_eq!(out, expected, "encoding of {value}");
    }
}

#[test]
fn varint_matches_postcard() {
    for value in [0u64, 5, 127, 128, 300, 16384, 123_456_789, u64::MAX] {
        let mut ours = Vec::new();
        encode_varint(&mut ours, value);
        let reference = postcard::to_stdvec(&value).unwrap();
        assert_eq!(ours, reference, "encoding of {value}");
    }
}

#[test]
fn varint_round_trips() {
    for value in [0u64, 1, 127, 128, 255, 300, 1 << 20, u64::MAX - 1, u64::MAX] {
        let mut out = vec![0xee];
        encode_varint(&mut out, value);
        out.push(0xee);
        let (decoded, end) = decode_varint(&out, 1).unwrap();
        assert_eq!(decoded, value);
        assert_eq!(end, out.len() - 1);
    }
}

#[test]
fn varint_decode_rejects_truncation() {
    assert!(decode_varint(&[0x80], 0).is_none());
    assert!(decode_varint(&[], 0).is_none());
    // an eleventh significant byte pushes the value past 64 bits
    let too_big = vec![0xff, 0xff, 0xff, 0xff, 0xff, 0xff, 0xff, 0xff, 0xff, 0xff, 0x01];
    assert!(decode_varint(&too_big, 0).is_none());
}

#[test]
fn hash_encoding_is_fixed_layout() {
    let hash = ContentHash::new(b"some content");
    let mut out = Vec::new();
    encode_hash(&mut out, &hash);
    assert_eq!(out.len(), 32);
    assert_eq!(out[0], 1); // BLAKE3 tag
    assert_eq!(&out[1..4], &[0, 0, 0]); // reserved padding
    assert_eq!(&out[4..32], &hash.hash_bytes);

    let sha = ContentHash::with_algorithm(HashAlgorithm::Sha1, b"some content");
    let mut out = Vec::new();
    encode_hash(&mut out, &sha);
    assert_eq!(out[0], 0); // SHA-1 tag
}

#[test]
fn hash_decode_round_trips() {
    let hash = ContentHash::new(b"round trip me");
    let mut out = Vec::new();
    encode_hash(&mut out, &hash);
    let (decoded, end) = decode_hash(&out, 0).unwrap();
    assert_eq!(end, 32);
    assert_eq!(decoded, hash);
}

#[test]
fn hash_decode_rejects_bad_padding_and_tag() {
    let hash = ContentHash::new(b"tamper with me");
    let mut out = Vec::new();
    encode_hash(&mut out, &hash);

    let mut bad_padding = out.clone();
    bad_padding[2] = 1;
    assert!(decode_hash(&bad_padding, 0).is_none());

    let mut bad_tag = out.clone();
    bad_tag[0] = 7;
    assert!(decode_hash(&bad_tag, 0).is_none());

    assert!(decode_hash(&out[..31], 0).is_none());
}

#[test]
fn name_key_matches_postcard() {
    let mut ours = Vec::new();
    encode_name_key(&mut ours, 42, "a/path".as_bytes());
    let reference = postcard::to_stdvec(&(42u64, "a/path")).unwrap();
    assert_eq!(ours, reference);
}

#[test]
fn id_key_prefixes_namespace() {
    let hash = ContentHash::new(b"keyed");
    let mut key = Vec::new();
    encode_id_key(&mut key, 300, &hash);
    assert_eq!(key.len(), 2 + 32);
    assert_eq!(&key[0..2], &[0xac, 0x02]);
    assert_eq!(key[2], 1);
}

#[test]
fn chunk_record_encoding() {
    let chunk = Chunk {
        size: 300,
        compression: Compression::Uncompressed,
        compressed_size: 300,
        segment_id: SegmentId { uuid: [9; 16] },
        offset_in_segment: 5,
    };
    let mut out = Vec::new();
    encode_chunk(&mut out, &chunk);
    let mut expected = vec![0xac, 0x02, 0x00, 0xac, 0x02];
    expected.extend_from_slice(&[9; 16]);
    expected.push(5);
    assert_eq!(out, expected);
}

#[test]
fn id_key_round_trips() {
    let hash = ContentHash::new(b"keyed content");
    let mut key = Vec::new();
    encode_id_key(&mut key, 123_456, &hash);
    let (ns, decoded, end) = kycok::codec::decode_id_key(&key, 0).unwrap();
    assert_eq!(ns, 123_456);
    assert_eq!(decoded, hash);
    assert_eq!(end, key.len());
}
