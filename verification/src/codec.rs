//! Codec for the fixed 80-byte block header format.
//!
//! A header serializes as six little-endian fields: version, previous-hash,
//! merkle-root, timestamp, difficulty bits and nonce.  Its identifier is the
//! double SHA-256 of that encoding.  Encoding and decoding invert each other;
//! the two public lemmas state the round trip in both directions.

use vstd::prelude::*;
use vstd::bytes::*;
use vstd::slice::{slice_subrange, slice_to_vec};

use sha2::Digest;

verus! {

/// A decoded block header.  Immutable once inserted into the store.
#[derive(Debug)]
pub struct BlockHeader {
    /// The version word, kept as the unsigned value of its four bytes.
    pub version: u32,
    /// Hash of the parent header, 32 bytes.
    pub prev_blockhash: Vec<u8>,
    /// Merkle root of the block's transactions, 32 bytes.
    pub merkle_root: Vec<u8>,
    /// Timestamp claimed by the miner, seconds.
    pub time: u32,
    /// Compact encoding of the proof-of-work target.
    pub bits: u32,
    /// Arbitrary value chosen by the miner.
    pub nonce: u32,
}

/// The mathematical model of a header.
pub struct HeaderV {
    pub version: u32,
    pub prev_blockhash: Seq<u8>,
    pub merkle_root: Seq<u8>,
    pub time: u32,
    pub bits: u32,
    pub nonce: u32,
}

impl View for BlockHeader {
    type V = HeaderV;

    open spec fn view(&self) -> HeaderV {
        HeaderV {
            version: self.version,
            prev_blockhash: self.prev_blockhash@,
            merkle_root: self.merkle_root@,
            time: self.time,
            bits: self.bits,
            nonce: self.nonce,
        }
    }
}

impl HeaderV {
    /// Both hash fields hold exactly 32 bytes.
    pub open spec fn wf(self) -> bool {
        self.prev_blockhash.len() == 32 && self.merkle_root.len() == 32
    }
}

/// The 80-byte serialization of a header.
pub open spec fn spec_header_bytes(h: HeaderV) -> Seq<u8> {
    spec_u32_to_le_bytes(h.version) + h.prev_blockhash + h.merkle_root + spec_u32_to_le_bytes(
        h.time,
    ) + spec_u32_to_le_bytes(h.bits) + spec_u32_to_le_bytes(h.nonce)
}

/// The header an 80-byte sequence stands for.
pub open spec fn spec_decode_header(b: Seq<u8>) -> HeaderV {
    HeaderV {
        version: spec_u32_from_le_bytes(b.subrange(0, 4)),
        prev_blockhash: b.subrange(4, 36),
        merkle_root: b.subrange(36, 68),
        time: spec_u32_from_le_bytes(b.subrange(68, 72)),
        bits: spec_u32_from_le_bytes(b.subrange(72, 76)),
        nonce: spec_u32_from_le_bytes(b.subrange(76, 80)),
    }
}

/// Decoding the encoding of a well-formed header gives the header back.
pub proof fn lemma_decode_encode(h: HeaderV)
    requires
        h.wf(),
    ensures
        spec_header_bytes(h).len() == 80,
        spec_decode_header(spec_header_bytes(h)) == h,
{
    lemma_auto_spec_u32_to_from_le_bytes();
    let b = spec_header_bytes(h);
    assert(b.subrange(0, 4) =~= spec_u32_to_le_bytes(h.version));
    assert(b.subrange(4, 36) =~= h.prev_blockhash);
    assert(b.subrange(36, 68) =~= h.merkle_root);
    assert(b.subrange(68, 72) =~= spec_u32_to_le_bytes(h.time));
    assert(b.subrange(72, 76) =~= spec_u32_to_le_bytes(h.bits));
    assert(b.subrange(76, 80) =~= spec_u32_to_le_bytes(h.nonce));
}

/// Encoding the header an 80-byte sequence decodes to reproduces the bytes.
pub proof fn lemma_encode_decode(b: Seq<u8>)
    requires
        b.len() == 80,
    ensures
        spec_decode_header(b).wf(),
        spec_header_bytes(spec_decode_header(b)) == b,
{
    lemma_auto_spec_u32_to_from_le_bytes();
    assert(spec_header_bytes(spec_decode_header(b)) =~= b);
}

/// Appends the four little-endian bytes of a word.
fn push_u32_le(v: &mut Vec<u8>, x: u32)
    ensures
        final(v)@ == old(v)@ + spec_u32_to_le_bytes(x),
{
    let mut b = u32_to_le_bytes(x);
    v.append(&mut b);
}

/// Appends a copy of the given bytes.
fn push_bytes(v: &mut Vec<u8>, src: &Vec<u8>)
    ensures
        final(v)@ == old(v)@ + src@,
{
    let mut b = slice_to_vec(src.as_slice());
    v.append(&mut b);
}

impl BlockHeader {
    /// Serializes the header into its 80 bytes.
    pub fn encode(&self) -> (r: Vec<u8>)
        requires
            self@.wf(),
        ensures
            r@ == spec_header_bytes(self@),
            r@.len() == 80,
    {
        let mut out: Vec<u8> = Vec::new();
        push_u32_le(&mut out, self.version);
        push_bytes(&mut out, &self.prev_blockhash);
        push_bytes(&mut out, &self.merkle_root);
        push_u32_le(&mut out, self.time);
        push_u32_le(&mut out, self.bits);
        push_u32_le(&mut out, self.nonce);
        proof {
            vstd::bytes::lemma_auto_spec_u32_to_from_le_bytes();
            assert(out@ =~= spec_header_bytes(self@));
        }
        out
    }

    /// Parses 80 raw bytes into a header; any other length is malformed.
    pub fn decode(raw: &[u8]) -> (r: Option<BlockHeader>)
        ensures
            r is Some <==> raw@.len() == 80,
            r matches Some(h) ==> h@ == spec_decode_header(raw@) && h@.wf(),
    {
        if raw.len() != 80 {
            return None;
        }
        let version = u32_from_le_bytes(slice_subrange(raw, 0, 4));
        let prev_blockhash = slice_to_vec(slice_subrange(raw, 4, 36));
        let merkle_root = slice_to_vec(slice_subrange(raw, 36, 68));
        let time = u32_from_le_bytes(slice_subrange(raw, 68, 72));
        let bits = u32_from_le_bytes(slice_subrange(raw, 72, 76));
        let nonce = u32_from_le_bytes(slice_subrange(raw, 76, 80));
        Some(BlockHeader { version, prev_blockhash, merkle_root, time, bits, nonce })
    }

    /// An equal, independently owned copy of the header.
    pub fn duplicate(&self) -> (r: BlockHeader)
        ensures
            r@ == self@,
    {
        BlockHeader {
            version: self.version,
            prev_blockhash: slice_to_vec(self.prev_blockhash.as_slice()),
            merkle_root: slice_to_vec(self.merkle_root.as_slice()),
            time: self.time,
            bits: self.bits,
            nonce: self.nonce,
        }
    }
}

/// What one SHA-256 application returns; the digest is a function of the
/// input bytes alone.
pub uninterp spec fn sha256_of(b: Seq<u8>) -> Seq<u8>;

/// Relies on sha2::Sha256::digest: the digest depends on the input bytes
/// alone and is exactly 32 bytes long.
#[verifier::external_body]
fn sha256(b: &[u8]) -> (r: Vec<u8>)
    ensures
        r@ == sha256_of(b@),
        r@.len() == 32,
{
    sha2::Sha256::digest(b).to_vec()
}

/// The identifier of a header: double SHA-256 of its 80-byte encoding.
pub open spec fn spec_block_hash(h: HeaderV) -> Seq<u8> {
    sha256_of(sha256_of(spec_header_bytes(h)))
}

/// Computes the header's identifier.
pub fn block_hash(h: &BlockHeader) -> (r: Vec<u8>)
    requires
        h@.wf(),
    ensures
        r@ == spec_block_hash(h@),
        r@.len() == 32,
{
    let encoded = h.encode();
    let first = sha256(encoded.as_slice());
    sha256(first.as_slice())
}

/// Double SHA-256 of arbitrary bytes, as a reusable entry point.
pub fn double_sha256(b: &[u8]) -> (r: Vec<u8>)
    ensures
        r@ == sha256_of(sha256_of(b@)),
        r@.len() == 32,
{
    let first = sha256(b);
    sha256(first.as_slice())
}

} // verus!
