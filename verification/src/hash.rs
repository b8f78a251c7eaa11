//! Double SHA-256, the hash that identifies headers and guards stored records.

use crate::uint256::U256;
use vstd::prelude::*;

verus! {

/// The double SHA-256 digest of a byte string.
pub uninterp spec fn sha256d(data: Seq<u8>) -> Seq<u8>;

/// Calls `bitcoin_hashes::sha256d::Hash::hash` and hands out the digest's
/// bytes. The digest is a function of the input alone, and it is 32 bytes
/// long; nothing else is claimed of it.
#[verifier::external_body]
fn sha256d_bytes(data: &[u8]) -> (out: Vec<u8>)
    ensures
        out@ == sha256d(data@),
        out@.len() == 32,
{
    bitcoin_hashes::sha256d::Hash::hash(data).to_byte_array().to_vec()
}

/// The digest of `data`, read as a number with the least significant byte
/// first.
pub open spec fn spec_hash256(data: Seq<u8>) -> U256 {
    U256::spec_from_le_bytes(sha256d(data))
}

/// The first four bytes of the digest of `data`.
pub open spec fn spec_checksum(data: Seq<u8>) -> Seq<u8> {
    sha256d(data).subrange(0, 4)
}

/// Reads a digest as a number, least significant byte first.
pub fn digest_value(digest: &[u8]) -> (r: U256)
    requires
        digest@.len() == 32,
    ensures
        r == U256::spec_from_le_bytes(digest@),
{
    U256::from_le_bytes(digest)
}

/// Hashes `data` twice with SHA-256 and reads the digest as a number.
pub fn hash256(data: &[u8]) -> (r: U256)
    ensures
        r == spec_hash256(data@),
{
    let digest: Vec<u8> = sha256d_bytes(data);
    digest_value(digest.as_slice())
}

/// The first four bytes of a digest.
pub fn digest_checksum(digest: &[u8]) -> (out: Vec<u8>)
    requires
        digest@.len() >= 4,
    ensures
        out@ == digest@.subrange(0, 4),
{
    let mut out: Vec<u8> = Vec::new();
    out.push(digest[0]);
    out.push(digest[1]);
    out.push(digest[2]);
    out.push(digest[3]);
    assert(out@ =~= digest@.subrange(0, 4));
    out
}

/// The four-byte checksum that guards a stored record.
pub fn checksum(data: &[u8]) -> (out: Vec<u8>)
    ensures
        out@ == spec_checksum(data@),
        out@.len() == 4,
{
    let digest: Vec<u8> = sha256d_bytes(data);
    digest_checksum(digest.as_slice())
}

} // verus!
