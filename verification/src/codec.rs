//! The compact deterministic binary encoding of keys and records: a
//! little-endian base-128 varint scheme with fixed-layout identifiers,
//! matching what the persistence layer writes. Every decoder is proved the
//! exact inverse of its encoder, and a decoder rejects an identifier whose
//! reserved padding bytes are not zero.

use vstd::prelude::*;
use crate::datamodel::{
    Chunk, ChunkV, Compression, ContentHash, ContentHashV, File, FileChunkV, FileContents,
    FileContentsV, FileV, HashAlgorithm,
};

verus! {

/// The little-endian base-128 varint encoding of a number: seven bits per
/// byte, least significant first, the high bit marking continuation.
pub open spec fn spec_varint(v: nat) -> Seq<u8>
    decreases v,
{
    if v < 128 {
        seq![v as u8]
    } else {
        seq![(v % 128 + 128) as u8] + spec_varint(v / 128)
    }
}

/// The value and end position of the varint starting at `pos`, if any.
pub open spec fn spec_decode_varint(bytes: Seq<u8>, pos: int) -> Option<(nat, int)>
    decreases bytes.len() - pos,
    when 0 <= pos <= bytes.len()
{
    if pos >= bytes.len() {
        None
    } else if bytes[pos] < 128 {
        Some((bytes[pos] as nat, pos + 1))
    } else {
        match spec_decode_varint(bytes, pos + 1) {
            Some((v, end)) => Some(((bytes[pos] - 128) as nat + 128 * v, end)),
            None => None,
        }
    }
}

/// Decoding inverts encoding: a varint written at `pos` reads back as the
/// same value, ending exactly where the encoding ends.
pub proof fn lemma_varint_round_trip(bytes: Seq<u8>, pos: int, v: nat)
    requires
        0 <= pos,
        pos + spec_varint(v).len() <= bytes.len(),
        bytes.subrange(pos, pos + spec_varint(v).len() as int) == spec_varint(v),
    ensures
        spec_decode_varint(bytes, pos) == Some((v, pos + spec_varint(v).len() as int)),
    decreases v,
{
    let enc = spec_varint(v);
    if v < 128 {
        assert(bytes[pos] == enc[0]);
    } else {
        assert(bytes[pos] == enc[0]);
        assert(bytes[pos] == (v % 128 + 128) as u8);
        let rest = spec_varint(v / 128);
        assert(enc == seq![(v % 128 + 128) as u8] + rest);
        assert(bytes.subrange(pos + 1, pos + 1 + rest.len() as int) =~= rest) by {
            assert forall|i: int| 0 <= i < rest.len() implies bytes[pos + 1 + i] == rest[i] by {
                assert(enc[1 + i] == rest[i]);
                assert(bytes[pos + 1 + i] == bytes.subrange(
                    pos,
                    pos + enc.len() as int,
                )[1 + i]);
            }
        }
        lemma_varint_round_trip(bytes, pos + 1, v / 128);
        assert((v % 128 + 128) as u8 - 128 == v % 128);
        assert(v % 128 + 128 * (v / 128) == v);
    }
}

/// Append the varint encoding of `v`.
pub fn encode_varint(out: &mut Vec<u8>, v: u64)
    ensures
        final(out)@ == old(out)@ + spec_varint(v as nat),
{
    let ghost orig = out@;
    let ghost whole = v as nat;
    let mut v = v;
    let ghost emitted: Seq<u8> = Seq::empty();
    proof {
        assert(orig + emitted =~= orig);
    }
    while v >= 128
        invariant
            orig + emitted == out@,
            emitted + spec_varint(v as nat) == spec_varint(whole),
        decreases v,
    {
        let byte = ((v % 128) + 128) as u8;
        out.push(byte);
        proof {
            assert(spec_varint(v as nat) == seq![byte] + spec_varint((v as nat) / 128));
            assert(orig + emitted.push(byte) =~= out@);
            assert((emitted.push(byte)) + spec_varint((v as nat) / 128) =~= emitted + (
            seq![byte] + spec_varint((v as nat) / 128)));
            assert((v / 128) as nat == (v as nat) / 128);
        }
        let ghost emitted2 = emitted.push(byte);
        proof {
            emitted = emitted2;
        }
        v = v / 128;
    }
    out.push(v as u8);
    proof {
        assert(spec_varint(v as nat) == seq![v as u8]);
        assert(out@ =~= orig + (emitted + spec_varint(v as nat)));
    }
}

/// Read the varint starting at `pos`. Fails on truncated input and on a
/// value that does not fit in 64 bits.
pub fn decode_varint(bytes: &[u8], pos: usize) -> (r: Option<(u64, usize)>)
    requires
        pos <= bytes@.len(),
    ensures
        match r {
            Some(decoded) => {
                &&& spec_decode_varint(bytes@, pos as int) == Some(
                    (decoded.0 as nat, decoded.1 as int),
                )
                &&& pos < decoded.1 <= bytes@.len()
            },
            None => spec_decode_varint(bytes@, pos as int) matches Some(decoded) ==> decoded.0
                > u64::MAX,
        },
    decreases bytes@.len() - pos,
{
    if pos >= bytes.len() {
        return Option::None;
    }
    let byte = bytes[pos];
    if byte < 128 {
        return Option::Some((byte as u64, pos + 1));
    }
    match decode_varint(bytes, pos + 1) {
        Option::None => Option::None,
        Option::Some((v, end)) => {
            let low = (byte - 128) as u64;
            if v <= (u64::MAX - low) / 128 {
                proof {
                    assert(low + 128 * (v as nat) <= u64::MAX) by (nonlinear_arith)
                        requires
                            v as nat <= ((u64::MAX - low) as nat) / 128,
                            low < 128,
                    {
                    }
                }
                Option::Some((low + 128 * v, end))
            } else {
                proof {
                    assert(low + 128 * (v as nat) > u64::MAX) by (nonlinear_arith)
                        requires
                            v as nat > ((u64::MAX - low) as nat) / 128,
                            low < 128,
                    {
                    }
                }
                Option::None
            }
        },
    }
}

/// The tag byte of a hash algorithm in the fixed 32-byte identifier layout.
pub open spec fn spec_algo_tag(algo: HashAlgorithm) -> u8 {
    match algo {
        HashAlgorithm::Sha1 => 0,
        HashAlgorithm::Blake3 => 1,
    }
}

/// The fixed 32-byte layout of a content hash: one algorithm tag byte, three
/// reserved zero padding bytes, 28 bytes of hash material.
pub open spec fn spec_encode_hash(h: ContentHashV) -> Seq<u8> {
    seq![spec_algo_tag(h.algo), 0u8, 0u8, 0u8] + h.bytes
}

/// Append the 32-byte encoding of an identifier.
pub fn encode_hash(out: &mut Vec<u8>, h: &ContentHash)
    ensures
        final(out)@ == old(out)@ + spec_encode_hash(h@),
        spec_encode_hash(h@).len() == 32,
{
    let ghost orig = out@;
    match h.hash_algorithm {
        HashAlgorithm::Sha1 => out.push(0),
        HashAlgorithm::Blake3 => out.push(1),
    }
    out.push(0);
    out.push(0);
    out.push(0);
    let mut i: usize = 0;
    while i < 28
        invariant
            i <= 28,
            out@ == orig + seq![spec_algo_tag(h.hash_algorithm), 0u8, 0u8, 0u8]
                + h.hash_bytes@.take(i as int),
        decreases 28 - i,
    {
        out.push(h.hash_bytes[i]);
        proof {
            assert(h.hash_bytes@.take(i + 1) =~= h.hash_bytes@.take(i as int).push(
                h.hash_bytes@[i as int],
            ));
            assert(out@ =~= orig + seq![spec_algo_tag(h.hash_algorithm), 0u8, 0u8, 0u8]
                + h.hash_bytes@.take(i + 1));
        }
        i += 1;
    }
    proof {
        assert(h.hash_bytes@.take(28) =~= h.hash_bytes@);
        assert(out@ =~= orig + spec_encode_hash(h@));
    }
}

/// Read the 32-byte identifier starting at `pos`. Fails on truncated input,
/// on an unknown algorithm tag, and on non-zero padding: an identifier whose
/// reserved bytes are not zero is rejected, never repaired.
pub fn decode_hash(bytes: &[u8], pos: usize) -> (r: Option<(ContentHash, usize)>)
    requires
        pos <= bytes@.len(),
    ensures
        match r {
            Some(decoded) => {
                &&& decoded.1 == pos + 32
                &&& decoded.1 <= bytes@.len()
                &&& bytes@.subrange(pos as int, pos + 32) == spec_encode_hash(decoded.0@)
            },
            None => forall|h: ContentHashV|
                h.bytes.len() == 28 && pos + 32 <= bytes@.len() ==> bytes@.subrange(
                    pos as int,
                    pos + 32,
                ) != spec_encode_hash(h),
        },
{
    if bytes.len() - pos < 32 || pos >= bytes.len() {
        proof {
            assert forall|h: ContentHashV|
                h.bytes.len() == 28 && pos + 32 <= bytes@.len() implies bytes@.subrange(
                pos as int,
                pos + 32,
            ) != spec_encode_hash(h) by {}
        }
        return Option::None;
    }
    let algo = match bytes[pos] {
        0 => HashAlgorithm::Sha1,
        1 => HashAlgorithm::Blake3,
        _ => {
            proof {
                assert forall|h: ContentHashV|
                    h.bytes.len() == 28 && pos + 32 <= bytes@.len() implies bytes@.subrange(
                    pos as int,
                    pos + 32,
                ) != spec_encode_hash(h) by {
                    assert(spec_encode_hash(h)[0] == spec_algo_tag(h.algo));
                    assert(bytes@.subrange(pos as int, pos + 32)[0] == bytes@[pos as int]);
                }
            }
            return Option::None;
        },
    };
    if bytes[pos + 1] != 0 || bytes[pos + 2] != 0 || bytes[pos + 3] != 0 {
        proof {
            assert forall|h: ContentHashV|
                h.bytes.len() == 28 && pos + 32 <= bytes@.len() implies bytes@.subrange(
                pos as int,
                pos + 32,
            ) != spec_encode_hash(h) by {
                let enc = spec_encode_hash(h);
                assert(enc[1] == 0 && enc[2] == 0 && enc[3] == 0);
                assert(bytes@.subrange(pos as int, pos + 32)[1] == bytes@[pos + 1]);
                assert(bytes@.subrange(pos as int, pos + 32)[2] == bytes@[pos + 2]);
                assert(bytes@.subrange(pos as int, pos + 32)[3] == bytes@[pos + 3]);
            }
        }
        return Option::None;
    }
    let mut material = [0u8; 28];
    let mut i: usize = 0;
    let blen = bytes.len();
    while i < 28
        invariant
            i <= 28,
            pos + 32 <= blen,
            blen == bytes@.len(),
            material@.len() == 28,
            forall|j: int| 0 <= j < i ==> material@[j] == bytes@[pos + 4 + j],
        decreases 28 - i,
    {
        material[i] = bytes[pos + 4 + i];
        i += 1;
    }
    let hash = ContentHash { hash_algorithm: algo, hash_bytes: material };
    proof {
        assert(bytes@.subrange(pos as int, pos + 32) =~= spec_encode_hash(hash@));
    }
    Option::Some((hash, pos + 32))
}

/// The key of a chunk or file row: the namespace as a varint, then the
/// 32-byte identifier.
pub open spec fn spec_encode_id_key(ns: u64, h: ContentHashV) -> Seq<u8> {
    spec_varint(ns as nat) + spec_encode_hash(h)
}

/// Append the key of a chunk or file row.
pub fn encode_id_key(out: &mut Vec<u8>, ns: u64, h: &ContentHash)
    ensures
        final(out)@ == old(out)@ + spec_encode_id_key(ns, h@),
{
    let ghost orig = out@;
    encode_varint(out, ns);
    encode_hash(out, h);
    proof {
        assert(out@ =~= orig + spec_encode_id_key(ns, h@));
    }
}

/// The key of a name binding: the namespace as a varint, then the name as a
/// length-prefixed byte string.
pub open spec fn spec_encode_name_key(ns: u64, name: Seq<u8>) -> Seq<u8> {
    spec_varint(ns as nat) + spec_varint(name.len() as nat) + name
}

/// Append the key of a name binding; the name is passed as its UTF-8 bytes.
pub fn encode_name_key(out: &mut Vec<u8>, ns: u64, name: &[u8])
    ensures
        final(out)@ == old(out)@ + spec_encode_name_key(ns, name@),
{
    let ghost orig = out@;
    encode_varint(out, ns);
    encode_varint(out, name.len() as u64);
    let mut i: usize = 0;
    let ghost head = orig + spec_varint(ns as nat) + spec_varint(name@.len() as nat);
    while i < name.len()
        invariant
            i <= name@.len(),
            out@ == head + name@.take(i as int),
        decreases name@.len() - i,
    {
        out.push(name[i]);
        proof {
            assert(name@.take(i + 1) =~= name@.take(i as int).push(name@[i as int]));
            assert(out@ =~= head + name@.take(i + 1));
        }
        i += 1;
    }
    proof {
        assert(name@.take(name@.len() as int) =~= name@);
        assert(out@ =~= orig + spec_encode_name_key(ns, name@));
    }
}

/// The tag byte of a compression mode.
pub open spec fn spec_compression_tag(c: Compression) -> u8 {
    match c {
        Compression::Uncompressed => 0,
        Compression::Zstd => 1,
    }
}

/// The encoding of a chunk metadata record: size, compression tag and
/// compressed size as varints, the 16 segment id bytes raw, then the offset
/// as a varint.
pub open spec fn spec_encode_chunk(c: ChunkV) -> Seq<u8> {
    spec_varint(c.size as nat) + seq![spec_compression_tag(c.compression)] + spec_varint(
        c.compressed_size as nat,
    ) + c.segment_id + spec_varint(c.offset_in_segment as nat)
}

/// Append the encoding of a chunk metadata record.
pub fn encode_chunk(out: &mut Vec<u8>, c: &Chunk)
    ensures
        final(out)@ == old(out)@ + spec_encode_chunk(c@),
{
    let ghost orig = out@;
    encode_varint(out, c.size as u64);
    match c.compression {
        Compression::Uncompressed => out.push(0),
        Compression::Zstd => out.push(1),
    }
    encode_varint(out, c.compressed_size as u64);
    let ghost head = orig + spec_varint(c.size as nat) + seq![
        spec_compression_tag(c.compression),
    ] + spec_varint(c.compressed_size as nat);
    proof {
        assert(out@ =~= head);
    }
    let mut i: usize = 0;
    while i < 16
        invariant
            i <= 16,
            out@ == head + c.segment_id.uuid@.take(i as int),
        decreases 16 - i,
    {
        out.push(c.segment_id.uuid[i]);
        proof {
            assert(c.segment_id.uuid@.take(i + 1) =~= c.segment_id.uuid@.take(i as int).push(
                c.segment_id.uuid@[i as int],
            ));
            assert(out@ =~= head + c.segment_id.uuid@.take(i + 1));
        }
        i += 1;
    }
    proof {
        assert(c.segment_id.uuid@.take(16) =~= c.segment_id.uuid@);
    }
    encode_varint(out, c.offset_in_segment as u64);
    proof {
        assert(out@ =~= orig + spec_encode_chunk(c@));
    }
}


/// Read a chunk or file key starting at `pos`: the namespace, then the
/// 32-byte identifier, rejecting malformed identifiers. Fails exactly when
/// no namespace varint that fits in 64 bits, followed by a well-formed
/// 32-byte identifier, starts at `pos`.
pub fn decode_id_key(bytes: &[u8], pos: usize) -> (r: Option<(u64, ContentHash, usize)>)
    requires
        pos <= bytes@.len(),
    ensures
        match r {
            Some(decoded) => {
                &&& spec_decode_varint(bytes@, pos as int) matches Some(v) && v.0 == decoded.0
                    as nat && decoded.2 == v.1 + 32
                &&& decoded.2 <= bytes@.len()
                &&& bytes@.subrange(decoded.2 - 32, decoded.2 as int) == spec_encode_hash(
                    decoded.1@,
                )
            },
            None => match spec_decode_varint(bytes@, pos as int) {
                Some(v) => v.0 > u64::MAX || forall|h: ContentHashV|
                    h.bytes.len() == 28 && v.1 + 32 <= bytes@.len() ==> bytes@.subrange(
                        v.1,
                        v.1 + 32,
                    ) != spec_encode_hash(h),
                None => true,
            },
        },
{
    let (ns, mid) = match decode_varint(bytes, pos) {
        Option::None => {
            return Option::None;
        },
        Option::Some(decoded) => decoded,
    };
    match decode_hash(bytes, mid) {
        Option::None => Option::None,
        Option::Some((hash, end)) => Option::Some((ns, hash, end)),
    }
}


/// The encoding of a manifest's chunk list: for each chunk, its size as a
/// varint and its 32-byte identifier.
pub open spec fn spec_encode_refs(refs: Seq<FileChunkV>) -> Seq<u8>
    decreases refs.len(),
{
    if refs.len() == 0 {
        Seq::empty()
    } else {
        spec_encode_refs(refs.drop_last()) + spec_varint(refs.last().chunk_size as nat)
            + spec_encode_hash(refs.last().chunk_id)
    }
}

/// The encoding of a file manifest: the size as a varint, then the contents
/// as a tagged variant, inline bytes length-prefixed, a chunk list
/// count-prefixed.
pub open spec fn spec_encode_file(f: FileV) -> Seq<u8> {
    spec_varint(f.size as nat) + match f.contents {
        FileContentsV::Inline(bytes) => seq![0u8] + spec_varint(bytes.len() as nat) + bytes,
        FileContentsV::Chunked(refs) => seq![1u8] + spec_varint(refs.len() as nat)
            + spec_encode_refs(refs),
    }
}

/// Append the encoding of a file manifest.
pub fn encode_file(out: &mut Vec<u8>, f: &File)
    ensures
        final(out)@ == old(out)@ + spec_encode_file(f@),
{
    let ghost orig = out@;
    encode_varint(out, f.size);
    match &f.contents {
        FileContents::Inline(bytes) => {
            out.push(0);
            encode_varint(out, bytes.len() as u64);
            out.extend_from_slice(bytes.as_slice());
            proof {
                assert(out@ =~= orig + spec_encode_file(f@));
            }
        },
        FileContents::Chunked(refs) => {
            out.push(1);
            encode_varint(out, refs.len() as u64);
            let ghost refs_v = f@.contents->Chunked_0;
            let ghost head = orig + spec_varint(f.size as nat) + seq![1u8] + spec_varint(
                refs_v.len() as nat,
            );
            proof {
                assert(refs_v == refs@.map_values(|c: crate::datamodel::FileChunk| c@));
                assert(out@ =~= head + spec_encode_refs(refs_v.take(0)));
            }
            let mut k: usize = 0;
            while k < refs.len()
                invariant
                    k <= refs@.len(),
                    refs_v == refs@.map_values(|c: crate::datamodel::FileChunk| c@),
                    out@ == head + spec_encode_refs(refs_v.take(k as int)),
                decreases refs@.len() - k,
            {
                let chunk_ref = &refs[k];
                encode_varint(out, chunk_ref.chunk_size as u64);
                encode_hash(out, &chunk_ref.chunk_id.0);
                proof {
                    assert(refs_v.take(k + 1).drop_last() =~= refs_v.take(k as int));
                    assert(refs_v.take(k + 1).last() == refs_v[k as int]);
                    assert(refs_v[k as int] == chunk_ref@);
                    assert(out@ =~= head + spec_encode_refs(refs_v.take(k + 1)));
                }
                k += 1;
            }
            proof {
                assert(refs_v.take(refs_v.len() as int) =~= refs_v);
                assert(out@ =~= orig + spec_encode_file(f@));
            }
        },
    }
}

} // verus!
