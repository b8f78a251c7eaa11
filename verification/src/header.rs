//! Block headers and their 80-byte wire form.

use crate::hash::{hash256, spec_hash256};
use crate::uint256::{append_bytes, U256};
use vstd::bytes::{
    lemma_auto_spec_u128_to_from_le_bytes, lemma_auto_spec_u32_to_from_le_bytes,
    spec_u32_from_le_bytes, spec_u32_to_le_bytes, u32_from_le_bytes, u32_to_le_bytes,
};
use vstd::prelude::*;
use vstd::slice::slice_subrange;

verus! {

/// Length of an encoded header in bytes.
pub const HEADER_SIZE: usize = 80;

/// A block header. Its identity is the hash of its encoding.
#[derive(Clone, Copy, Debug, PartialEq, Eq, Structural)]
pub struct Header {
    /// Block version.
    pub version: i32,
    /// Hash of the previous block's header.
    pub prev_blockhash: U256,
    /// Root of the block's transaction tree.
    pub merkle_root: U256,
    /// Block time, in seconds.
    pub time: u32,
    /// Difficulty target in compact form.
    pub bits: u32,
    /// Nonce.
    pub nonce: u32,
}

/// The unsigned 32-bit number with the same bits as `v`.
pub open spec fn spec_version_bits(v: i32) -> u32 {
    if v >= 0 {
        v as u32
    } else {
        (v + 0x1_0000_0000) as u32
    }
}

/// The signed 32-bit number with the same bits as `u`.
pub open spec fn spec_version_from_bits(u: u32) -> i32 {
    if u < 0x8000_0000 {
        u as i32
    } else {
        (u - 0x1_0000_0000) as i32
    }
}

/// The unsigned 32-bit number with the same bits as `v`.
pub fn version_bits(v: i32) -> (u: u32)
    ensures
        u == spec_version_bits(v),
{
    if v >= 0 {
        v as u32
    } else {
        let shifted: i32 = v + 1 + i32::MAX;
        let low: u32 = shifted as u32;
        low + 0x8000_0000u32
    }
}

/// The signed 32-bit number with the same bits as `u`.
pub fn version_from_bits(u: u32) -> (v: i32)
    ensures
        v == spec_version_from_bits(u),
{
    if u < 0x8000_0000u32 {
        u as i32
    } else {
        let low: u32 = u - 0x8000_0000u32;
        let shifted: i32 = low as i32;
        shifted - 1 - i32::MAX
    }
}

impl Header {
    /// The 80 bytes of a header: version, previous hash, merkle root, time,
    /// bits and nonce, each least significant byte first.
    pub open spec fn spec_encode(self) -> Seq<u8> {
        spec_u32_to_le_bytes(spec_version_bits(self.version))
            + self.prev_blockhash.spec_to_le_bytes() + self.merkle_root.spec_to_le_bytes()
            + spec_u32_to_le_bytes(self.time) + spec_u32_to_le_bytes(self.bits)
            + spec_u32_to_le_bytes(self.nonce)
    }

    /// The header that 80 bytes stand for.
    pub open spec fn spec_decode(b: Seq<u8>) -> Header {
        Header {
            version: spec_version_from_bits(spec_u32_from_le_bytes(b.subrange(0, 4))),
            prev_blockhash: U256::spec_from_le_bytes(b.subrange(4, 36)),
            merkle_root: U256::spec_from_le_bytes(b.subrange(36, 68)),
            time: spec_u32_from_le_bytes(b.subrange(68, 72)),
            bits: spec_u32_from_le_bytes(b.subrange(72, 76)),
            nonce: spec_u32_from_le_bytes(b.subrange(76, 80)),
        }
    }

    /// The hash that identifies a header: the double SHA-256 of its
    /// encoding, read as a number.
    pub open spec fn spec_hash(self) -> U256 {
        spec_hash256(self.spec_encode())
    }

    /// An encoded header is 80 bytes long, and decoding it gives the header
    /// back.
    pub proof fn lemma_decode_encode(self)
        ensures
            self.spec_encode().len() == 80,
            Header::spec_decode(self.spec_encode()) == self,
    {
        lemma_auto_spec_u32_to_from_le_bytes();
        lemma_auto_spec_u128_to_from_le_bytes();
        self.prev_blockhash.lemma_bytes_round_trip();
        self.merkle_root.lemma_bytes_round_trip();
        let b = self.spec_encode();
        assert(b.subrange(0, 4) == spec_u32_to_le_bytes(spec_version_bits(self.version)));
        assert(b.subrange(4, 36) == self.prev_blockhash.spec_to_le_bytes());
        assert(b.subrange(36, 68) == self.merkle_root.spec_to_le_bytes());
        assert(b.subrange(68, 72) == spec_u32_to_le_bytes(self.time));
        assert(b.subrange(72, 76) == spec_u32_to_le_bytes(self.bits));
        assert(b.subrange(76, 80) == spec_u32_to_le_bytes(self.nonce));
    }

    /// Encoding the header that 80 bytes stand for gives the bytes back.
    pub proof fn lemma_encode_decode(b: Seq<u8>)
        requires
            b.len() == 80,
        ensures
            Header::spec_decode(b).spec_encode() == b,
    {
        lemma_auto_spec_u32_to_from_le_bytes();
        U256::lemma_value_round_trip(b.subrange(4, 36));
        U256::lemma_value_round_trip(b.subrange(36, 68));
        assert(b.subrange(0, 4) + b.subrange(4, 36) + b.subrange(36, 68) + b.subrange(68, 72)
            + b.subrange(72, 76) + b.subrange(76, 80) == b);
    }

    /// Encodes the header in its 80 bytes.
    pub fn encode(&self) -> (out: Vec<u8>)
        ensures
            out@ == self.spec_encode(),
            out@.len() == 80,
    {
        let mut out: Vec<u8> = u32_to_le_bytes(version_bits(self.version));
        let prev: Vec<u8> = self.prev_blockhash.to_le_bytes();
        append_bytes(&mut out, prev.as_slice());
        let root: Vec<u8> = self.merkle_root.to_le_bytes();
        append_bytes(&mut out, root.as_slice());
        let time: Vec<u8> = u32_to_le_bytes(self.time);
        append_bytes(&mut out, time.as_slice());
        let bits: Vec<u8> = u32_to_le_bytes(self.bits);
        append_bytes(&mut out, bits.as_slice());
        let nonce: Vec<u8> = u32_to_le_bytes(self.nonce);
        append_bytes(&mut out, nonce.as_slice());
        out
    }

    /// Decodes a header from its 80 bytes; `None` for any other length.
    pub fn decode(b: &[u8]) -> (r: Option<Header>)
        ensures
            r == if b@.len() == 80 {
                Some(Header::spec_decode(b@))
            } else {
                None
            },
    {
        if b.len() != 80 {
            return None;
        }
        let version: i32 = version_from_bits(u32_from_le_bytes(slice_subrange(b, 0, 4)));
        let prev_blockhash: U256 = U256::from_le_bytes(slice_subrange(b, 4, 36));
        let merkle_root: U256 = U256::from_le_bytes(slice_subrange(b, 36, 68));
        let time: u32 = u32_from_le_bytes(slice_subrange(b, 68, 72));
        let bits: u32 = u32_from_le_bytes(slice_subrange(b, 72, 76));
        let nonce: u32 = u32_from_le_bytes(slice_subrange(b, 76, 80));
        Some(Header { version, prev_blockhash, merkle_root, time, bits, nonce })
    }

    /// The hash that identifies the header.
    pub fn hash(&self) -> (r: U256)
        ensures
            r == self.spec_hash(),
    {
        let bytes: Vec<u8> = self.encode();
        hash256(bytes.as_slice())
    }
}

} // verus!
