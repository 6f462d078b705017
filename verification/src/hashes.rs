//! Cryptographic hashing, trusted at the boundary.
//!
//! The digests themselves are opaque: `spec_blake3` and `spec_sha1` name the
//! functions that the outside crates compute, and everything the library
//! proves about content identity is relative to those names.

use vstd::prelude::*;
use sha1::Digest;

verus! {

/// The BLAKE3 digest (32 bytes) of a byte string, as computed by the
/// `blake3` crate.
pub uninterp spec fn spec_blake3(bytes: Seq<u8>) -> Seq<u8>;

/// The SHA-1 digest (20 bytes) of a byte string, as computed by the `sha1`
/// crate.
pub uninterp spec fn spec_sha1(bytes: Seq<u8>) -> Seq<u8>;

/// Relies on `blake3::hash`: the 32-byte BLAKE3 digest of the input, a
/// function of the input bytes alone.
#[verifier::external_body]
pub fn blake3_digest(contents: &[u8]) -> (r: [u8; 32])
    ensures
        r@ == spec_blake3(contents@) && r@.len() == 32,
{
    *blake3::hash(contents).as_bytes()
}

/// Relies on `sha1::Sha1::digest`: the 20-byte SHA-1 digest of the input, a
/// function of the input bytes alone.
#[verifier::external_body]
pub fn sha1_digest(contents: &[u8]) -> (r: [u8; 20])
    ensures
        r@ == spec_sha1(contents@) && r@.len() == 20,
{
    let digest = sha1::Sha1::digest(contents);
    let mut out = [0u8; 20];
    out.copy_from_slice(&digest);
    out
}

#[verifier::external_type_specification]
#[verifier::external_body]
pub struct ExBlake3Hasher(blake3::Hasher);

/// The stream of bytes a `blake3::Hasher` has absorbed so far.
pub uninterp spec fn hasher_fed(h: blake3::Hasher) -> Seq<u8>;

/// Relies on `blake3::Hasher::new`: a hasher that has absorbed nothing.
#[verifier::external_body]
pub fn hasher_new() -> (r: blake3::Hasher)
    ensures
        hasher_fed(r) == Seq::<u8>::empty(),
{
    blake3::Hasher::new()
}

/// Relies on `blake3::Hasher::update`: absorbing input appends it to the
/// hashed stream.
#[verifier::external_body]
pub fn hasher_update(h: &mut blake3::Hasher, data: &[u8])
    ensures
        hasher_fed(*final(h)) == hasher_fed(*old(h)) + data@,
{
    h.update(data);
}

/// Relies on `blake3::Hasher::finalize`: the digest of the absorbed stream,
/// equal to `blake3::hash` of the bytes absorbed, in order.
#[verifier::external_body]
pub fn hasher_finalize(h: &blake3::Hasher) -> (r: [u8; 32])
    ensures
        r@ == spec_blake3(hasher_fed(*h)) && r@.len() == 32,
{
    *h.finalize().as_bytes()
}

} // verus!
