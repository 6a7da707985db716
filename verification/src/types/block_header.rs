//! Block headers: the mined commitment to a transaction list.
use vstd::prelude::*;
use crate::codec::{dec_u256, dec_u64, le_bytes, lemma_pow256_16, push_le, push_u256_le,
    read_u256, read_u64};
use crate::sha256::hash_of_bytes;
use crate::u256::{U256, p256};

verus! {

/// A block header. A header is valid for mining when its content hash is at
/// most its target.
#[derive(Clone, Copy, Debug)]
pub struct BlockHeader {
    /// Timestamp of the block, in seconds since the epoch.
    pub timestamp: u64,
    /// Nonce used to mine the block.
    pub nonce: u64,
    /// Hash of the previous block's header.
    pub prev_block_hash: crate::sha256::Hash,
    /// Merkle root of the block's transactions.
    pub merkle_root: crate::util::MerkleRoot,
    /// Proof-of-work target: the header hash must not exceed it.
    pub target: U256,
}

/// The mathematical value of a [`BlockHeader`].
pub ghost struct HeaderV {
    pub timestamp: u64,
    pub nonce: u64,
    pub prev_block_hash: int,
    pub merkle_root: int,
    pub target: int,
}

impl View for BlockHeader {
    type V = HeaderV;

    open spec fn view(&self) -> HeaderV {
        HeaderV {
            timestamp: self.timestamp,
            nonce: self.nonce,
            prev_block_hash: self.prev_block_hash@,
            merkle_root: self.merkle_root@,
            target: self.target.val(),
        }
    }
}

pub open spec fn header_wf(h: HeaderV) -> bool {
    &&& 0 <= h.prev_block_hash < p256()
    &&& 0 <= h.merkle_root < p256()
    &&& 0 <= h.target < p256()
}

/// The canonical encoding of a header.
pub open spec fn enc_header(h: HeaderV) -> Seq<u8> {
    le_bytes(h.timestamp as int, 8) + le_bytes(h.nonce as int, 8) + le_bytes(
        h.prev_block_hash,
        32,
    ) + le_bytes(h.merkle_root, 32) + le_bytes(h.target, 32)
}

/// The content hash of a header: the proof-of-work subject.
pub open spec fn header_hash(h: HeaderV) -> int {
    hash_of_bytes(enc_header(h))
}

pub open spec fn dec_header(s: Seq<u8>, pos: int) -> Option<(HeaderV, int)> {
    match dec_u64(s, pos) {
        Some((timestamp, p1)) => match dec_u64(s, p1) {
            Some((nonce, p2)) => match dec_u256(s, p2) {
                Some((prev, p3)) => match dec_u256(s, p3) {
                    Some((root, p4)) => match dec_u256(s, p4) {
                        Some((target, p5)) => Some(
                            (
                                HeaderV {
                                    timestamp,
                                    nonce,
                                    prev_block_hash: prev,
                                    merkle_root: root,
                                    target,
                                },
                                p5,
                            ),
                        ),
                        None => None,
                    },
                    None => None,
                },
                None => None,
            },
            None => None,
        },
        None => None,
    }
}

/// Decoding the canonical encoding of a header recovers it.
pub proof fn lemma_dec_enc_header(h: HeaderV, s: Seq<u8>, pos: int)
    requires
        header_wf(h),
        0 <= pos,
        pos + 112 <= s.len(),
        enc_header(h).len() == 112,
        s.subrange(pos, pos + 112) == enc_header(h),
    ensures
        dec_header(s, pos) == Some((h, pos + 112)),
{
    let a = le_bytes(h.timestamp as int, 8);
    let b = le_bytes(h.nonce as int, 8);
    let c = le_bytes(h.prev_block_hash, 32);
    let d = le_bytes(h.merkle_root, 32);
    let e = le_bytes(h.target, 32);
    crate::codec::lemma_le_bytes_len(h.timestamp as int, 8);
    crate::codec::lemma_le_bytes_len(h.nonce as int, 8);
    crate::codec::lemma_le_bytes_len(h.prev_block_hash, 32);
    crate::codec::lemma_le_bytes_len(h.merkle_root, 32);
    crate::codec::lemma_le_bytes_len(h.target, 32);
    assert(enc_header(h) =~= a + (b + (c + (d + e))));
    crate::codec::lemma_split_subrange(s, pos, a, b + (c + (d + e)));
    crate::codec::lemma_split_subrange(s, pos + 8, b, c + (d + e));
    crate::codec::lemma_split_subrange(s, pos + 16, c, d + e);
    crate::codec::lemma_split_subrange(s, pos + 48, d, e);
    crate::codec::lemma_dec_enc_u64(h.timestamp, s, pos);
    crate::codec::lemma_dec_enc_u64(h.nonce, s, pos + 8);
    crate::codec::lemma_dec_enc_u256(h.prev_block_hash, s, pos + 16);
    crate::codec::lemma_dec_enc_u256(h.merkle_root, s, pos + 48);
    crate::codec::lemma_dec_enc_u256(h.target, s, pos + 80);
}

/// Reads a header; mirrors [`dec_header`].
pub fn read_header(bytes: &Vec<u8>, pos: usize) -> (r: Option<(BlockHeader, usize)>)
    ensures
        match r {
            Some((v, p)) => dec_header(bytes@, pos as int) == Some((v@, p as int)),
            None => dec_header(bytes@, pos as int) is None,
        },
{
    let (timestamp, p1) = match read_u64(bytes, pos) {
        Some(x) => x,
        None => {
            return None;
        },
    };
    let (nonce, p2) = match read_u64(bytes, p1) {
        Some(x) => x,
        None => {
            return None;
        },
    };
    let (prev, p3) = match read_u256(bytes, p2) {
        Some(x) => x,
        None => {
            return None;
        },
    };
    let (root, p4) = match read_u256(bytes, p3) {
        Some(x) => x,
        None => {
            return None;
        },
    };
    let (target, p5) = match read_u256(bytes, p4) {
        Some(x) => x,
        None => {
            return None;
        },
    };
    Some(
        (
            BlockHeader {
                timestamp,
                nonce,
                prev_block_hash: crate::sha256::Hash(prev),
                merkle_root: crate::util::MerkleRoot(crate::sha256::Hash(root)),
                target,
            },
            p5,
        ),
    )
}

impl BlockHeader {
    pub fn new(
        timestamp: u64,
        nonce: u64,
        prev_block_hash: crate::sha256::Hash,
        merkle_root: crate::util::MerkleRoot,
        target: U256,
    ) -> (r: BlockHeader)
        ensures
            r@ == (HeaderV {
                timestamp,
                nonce,
                prev_block_hash: prev_block_hash@,
                merkle_root: merkle_root@,
                target: target.val(),
            }),
    {
        BlockHeader { timestamp, nonce, prev_block_hash, merkle_root, target }
    }

    /// Appends the canonical encoding of this header.
    pub fn encode_to(&self, out: &mut Vec<u8>)
        ensures
            final(out)@ == old(out)@ + enc_header(self@),
    {
        let ghost pre: Seq<u8> = out@;
        push_le(out, self.timestamp as u128, 8);
        push_le(out, self.nonce as u128, 8);
        push_u256_le(out, &self.prev_block_hash.0);
        push_u256_le(out, &self.merkle_root.0.0);
        push_u256_le(out, &self.target);
        proof {
            assert(out@ =~= pre + enc_header(self@));
        }
    }

    /// The canonical encoding of this header.
    pub fn encode(&self) -> (r: Vec<u8>)
        ensures
            r@ == enc_header(self@),
    {
        let mut out: Vec<u8> = Vec::new();
        self.encode_to(&mut out);
        proof {
            assert(out@ =~= enc_header(self@));
        }
        out
    }

    /// The content hash of this header.
    pub fn hash(&self) -> (r: crate::sha256::Hash)
        ensures
            r@ == header_hash(self@),
    {
        let bytes = self.encode();
        crate::sha256::Hash::of_bytes(&bytes)
    }

    /// Searches for a nonce whose header hash meets the target, trying at
    /// most `steps` increments. Returns exactly whether the final header
    /// meets its own target; only the nonce changes, and the timestamp only
    /// on a nonce wrap-around. A header that already meets its target is
    /// returned untouched.
    pub fn mine(&mut self, steps: usize, now: u64) -> (r: bool)
        ensures
            r == (header_hash(final(self)@) <= final(self)@.target),
            final(self)@.target == old(self)@.target,
            final(self)@.prev_block_hash == old(self)@.prev_block_hash,
            final(self)@.merkle_root == old(self)@.merkle_root,
            final(self)@.timestamp == old(self)@.timestamp || (final(self)@.timestamp
                == now && final(self)@.nonce <= steps),
            header_hash(old(self)@) <= old(self)@.target ==> final(self)@ == old(self)@
                && r,
    {
        if self.hash().matches_target(self.target) {
            return true;
        }
        let mut i: usize = 0;
        while i < steps
            invariant
                i <= steps,
                self.target == old(self).target,
                self.prev_block_hash == old(self).prev_block_hash,
                self.merkle_root == old(self).merkle_root,
                self.timestamp == old(self).timestamp || (self.timestamp == now
                    && self.nonce <= i),
                !(header_hash(self@) <= self@.target),
                !(header_hash(old(self)@) <= old(self)@.target),
            decreases steps - i,
        {
            if self.nonce == u64::MAX {
                self.nonce = 0;
                self.timestamp = now;
            } else {
                self.nonce = self.nonce + 1;
            }
            if self.hash().matches_target(self.target) {
                return true;
            }
            i = i + 1;
        }
        false
    }
}

} // verus!
