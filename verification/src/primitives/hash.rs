//! Hash functions.

use crate::primitives::bytes::append_bytes;
use sha2::Digest;
use vstd::prelude::*;
use vstd::string::*;

verus! {

/// A 256-bit hash value.
pub type Hash256 = [u8; 32];

/// The SHA-256 digest of a byte sequence.
pub uninterp spec fn sha256_bytes(data: Seq<u8>) -> Seq<u8>;

/// `sha2::Sha256::digest`: the digest depends on the bytes of the argument
/// alone. That it is 32 bytes long shows in the result type.
#[verifier::external_body]
fn sha256(data: &[u8]) -> (out: Hash256)
    ensures
        out@ == sha256_bytes(data@),
{
    sha2::Sha256::digest(data).into()
}

/// The digest of a digest.
pub open spec fn sha256d_bytes(data: Seq<u8>) -> Seq<u8> {
    sha256_bytes(sha256_bytes(data))
}

/// Computes the Bitcoin-style double SHA-256 hash of the provided data.
///
/// This function is defined as `SHA256(SHA256(data))` and is used for
/// transaction identifiers, block hashes, and Merkle tree nodes.
pub fn sha256d(data: &[u8]) -> (out: Hash256)
    ensures
        out@ == sha256d_bytes(data@),
{
    let first: Hash256 = sha256(data);
    sha256(&first)
}

/// A digest that is separated from those under other tags.
pub open spec fn tagged_hash_bytes(tag: Seq<u8>, msg: Seq<u8>) -> Seq<u8> {
    sha256_bytes(sha256_bytes(tag) + sha256_bytes(tag) + msg)
}

/// Computes a tagged hash used for domain-separated hashing in signatures.
///
/// The construction follows `SHA256( SHA256(tag) || SHA256(tag) || msg )`
/// where `tag` is an arbitrary, application-specific string.
pub fn tagged_hash(tag: &str, msg: &[u8]) -> (out: Hash256)
    ensures
        out@ == tagged_hash_bytes(tag.spec_bytes(), msg@),
{
    let tag_hash: Hash256 = sha256(tag.as_bytes());
    let mut data: Vec<u8> = Vec::new();
    append_bytes(&mut data, &tag_hash);
    append_bytes(&mut data, &tag_hash);
    append_bytes(&mut data, msg);
    assert(data@ =~= tag_hash@ + tag_hash@ + msg@);
    sha256(&data)
}

/// The RIPEMD-160 digest of a byte sequence.
pub uninterp spec fn ripemd160_bytes(data: Seq<u8>) -> Seq<u8>;

/// `ripemd::Ripemd160::digest`: the digest depends on the bytes of the
/// argument alone. That it is 20 bytes long shows in the result type.
#[verifier::external_body]
fn ripemd160(data: &[u8]) -> (out: [u8; 20])
    ensures
        out@ == ripemd160_bytes(data@),
{
    ripemd::Ripemd160::digest(data).into()
}

/// `RIPEMD160(SHA256(data))`.
pub open spec fn hash160_bytes(data: Seq<u8>) -> Seq<u8> {
    ripemd160_bytes(sha256_bytes(data))
}

/// The short hash by which a public key is named in a script.
pub fn hash160(data: &[u8]) -> (out: [u8; 20])
    ensures
        out@ == hash160_bytes(data@),
{
    let first: Hash256 = sha256(data);
    ripemd160(&first)
}

} // verus!
