//! Content hashing: SHA-256 over a value's canonical serialization,
//! interpreted as a big-endian 256-bit integer.
use vstd::prelude::*;
use crate::codec::{be_bytes, be_val, u256_from_be};
use crate::u256::U256;

verus! {

/// The 32-byte SHA-256 digest of a byte string; what `sha256::digest`
/// computes, a pure function of the input.
pub uninterp spec fn sha256_of(data: Seq<u8>) -> Seq<u8>;

/// The content hash of a byte string: its SHA-256 digest as a big-endian
/// 256-bit integer.
pub open spec fn hash_of_bytes(data: Seq<u8>) -> int {
    be_val(sha256_of(data))
}

/// The 32 raw bytes of the SHA-256 digest of `data`.
///
/// Relies on `sha256::digest` (the SHA-256 digest of the input bytes, as a
/// 64-character hex string, a pure function of the input) and `hex::decode`
/// (back to the 32 raw digest bytes).
#[verifier::external_body]
pub fn sha256_bytes(data: &Vec<u8>) -> (r: Vec<u8>)
    ensures
        r@ == sha256_of(data@),
        r@.len() == 32,
{
    let hex_digest = sha256::digest(data);
    hex::decode(hex_digest).unwrap()
}

/// A content hash: a SHA-256 digest read as a 256-bit integer.
#[derive(Clone, Copy, Debug, PartialEq, Eq, Structural)]
pub struct Hash(pub U256);

impl View for Hash {
    type V = int;

    open spec fn view(&self) -> int {
        self.0.val()
    }
}

impl Hash {
    /// The hash of a byte string.
    pub fn of_bytes(data: &Vec<u8>) -> (r: Hash)
        ensures
            r@ == hash_of_bytes(data@),
    {
        let digest = sha256_bytes(data);
        Hash(u256_from_be(&digest))
    }

    /// Whether this hash is an acceptable proof of work for `target`.
    pub fn matches_target(&self, target: U256) -> (r: bool)
        ensures
            r == (self@ <= target.val()),
    {
        self.0.le(&target)
    }

    /// The all-zero hash, the previous-block hash of a genesis block.
    pub fn zero() -> (r: Hash)
        ensures
            r@ == 0,
    {
        Hash(U256::zero())
    }

    /// Whether two hashes are the same value.
    pub fn same(&self, other: &Hash) -> (r: bool)
        ensures
            r == (self@ == other@),
    {
        self.0.le(&other.0) && other.0.le(&self.0)
    }

    /// The 32-byte big-endian encoding of this hash; the byte string that
    /// gets signed.
    pub fn as_bytes(&self) -> (r: Vec<u8>)
        ensures
            r@ == be_bytes(self@, 32),
    {
        let mut out: Vec<u8> = Vec::new();
        crate::codec::push_u256_be(&mut out, &self.0);
        proof {
            assert(out@ =~= be_bytes(self@, 32));
        }
        out
    }
}

/// The signed encoding is injective: equal big-endian bytes mean equal
/// hash values.
pub proof fn lemma_hash_bytes_injective(a: int, b: int)
    requires
        0 <= a < crate::u256::p256(),
        0 <= b < crate::u256::p256(),
        be_bytes(a, 32) == be_bytes(b, 32),
    ensures
        a == b,
{
    crate::codec::lemma_pow256_add(16, 16);
    crate::codec::lemma_pow256_16();
    let p: int = 0x1_0000_0000_0000_0000;
    assert((p * p) * (p * p) == p * (p * (p * p))) by (nonlinear_arith);
    crate::codec::lemma_be_val_be_bytes(a, 32);
    crate::codec::lemma_be_val_be_bytes(b, 32);
}

} // verus!
