//! The Merkle commitment to a block's transaction list.
use vstd::prelude::*;
use crate::codec::le_bytes;
use crate::sha256::hash_of_bytes;
use crate::types::transaction::{Transaction, TxV, tx_hash};
use crate::u256::p256;

verus! {

/// The hash of a pair of hashes: the two canonical 32-byte encodings run
/// through the content hash.
pub open spec fn pair_hash(a: int, b: int) -> int {
    hash_of_bytes(le_bytes(a, 32) + le_bytes(b, 32))
}

/// One reduction step of the Merkle construction: adjacent elements are
/// paired and hashed; an unpaired final element is paired with itself.
pub open spec fn next_layer(s: Seq<int>) -> Seq<int> {
    Seq::new(
        ((s.len() + 1) / 2) as nat,
        |i: int|
            pair_hash(
                s[2 * i],
                if 2 * i + 1 < s.len() {
                    s[2 * i + 1]
                } else {
                    s[2 * i]
                },
            ),
    )
}

/// The Merkle root of a non-empty layer of hashes: reduce until one hash is
/// left.
pub open spec fn merkle_root_of(s: Seq<int>) -> int
    decreases s.len(),
{
    if s.len() <= 1 {
        if s.len() == 1 {
            s[0]
        } else {
            0
        }
    } else {
        merkle_root_of(next_layer(s))
    }
}

/// The hashes of a transaction list.
pub open spec fn tx_hashes(txs: Seq<TxV>) -> Seq<int> {
    txs.map_values(|t: TxV| tx_hash(t))
}

/// The Merkle root of a block's transaction list.
pub open spec fn merkle_root_of_txs(txs: Seq<TxV>) -> int {
    merkle_root_of(tx_hashes(txs))
}

/// The Merkle root: a content hash derived from the ordered transaction
/// list.
#[derive(Clone, Copy, Debug, PartialEq, Eq, Structural)]
pub struct MerkleRoot(pub crate::sha256::Hash);

impl View for MerkleRoot {
    type V = int;

    open spec fn view(&self) -> int {
        self.0@
    }
}

/// The hash of a pair of hashes.
fn hash_pair(a: &crate::sha256::Hash, b: &crate::sha256::Hash) -> (r: crate::sha256::Hash)
    ensures
        r@ == pair_hash(a@, b@),
{
    let mut bytes: Vec<u8> = Vec::new();
    crate::codec::push_u256_le(&mut bytes, &a.0);
    crate::codec::push_u256_le(&mut bytes, &b.0);
    proof {
        assert(bytes@ =~= le_bytes(a@, 32) + le_bytes(b@, 32));
    }
    crate::sha256::Hash::of_bytes(&bytes)
}

impl MerkleRoot {
    /// The Merkle root of a non-empty transaction list, by repeated
    /// pairwise hashing.
    pub fn calculature(transactions: &Vec<Transaction>) -> (r: MerkleRoot)
        requires
            transactions@.len() > 0,
        ensures
            r@ == merkle_root_of_txs(transactions@.map_values(|t: Transaction| t@)),
    {
        let mut layer: Vec<crate::sha256::Hash> = Vec::new();
        let n: usize = transactions.len();
        let mut i: usize = 0;
        while i < n
            invariant
                n == transactions@.len(),
                i <= n,
                layer@.len() == i,
                forall|j: int| 0 <= j < i ==> layer@[j]@ == tx_hash(
                    #[trigger] transactions@[j]@,
                ),
            decreases n - i,
        {
            let h = transactions[i].hash();
            layer.push(h);
            i = i + 1;
        }
        proof {
            assert(layer@.map_values(|h: crate::sha256::Hash| h@) =~= tx_hashes(
                transactions@.map_values(|t: Transaction| t@),
            ));
        }
        while layer.len() > 1
            invariant
                layer@.len() >= 1,
                merkle_root_of(layer@.map_values(|h: crate::sha256::Hash| h@))
                    == merkle_root_of_txs(transactions@.map_values(|t: Transaction| t@)),
            decreases layer@.len(),
        {
            let ghost prev: Seq<int> = layer@.map_values(|h: crate::sha256::Hash| h@);
            let mut next: Vec<crate::sha256::Hash> = Vec::new();
            let m: usize = layer.len();
            let pairs: usize = m / 2 + m % 2;
            let mut j: usize = 0;
            while j < pairs
                invariant
                    m == layer@.len(),
                    m >= 2,
                    pairs == m / 2 + m % 2,
                    prev == layer@.map_values(|h: crate::sha256::Hash| h@),
                    j <= pairs,
                    next@.len() == j,
                    forall|q: int| 0 <= q < j ==> next@[q]@ == next_layer(prev)[q],
                decreases pairs - j,
            {
                let k: usize = 2 * j;
                let left = layer[k];
                let right = if k + 1 < m {
                    layer[k + 1]
                } else {
                    layer[k]
                };
                let h = hash_pair(&left, &right);
                next.push(h);
                j = j + 1;
            }
            proof {
                assert(next@.len() == (prev.len() + 1) / 2);
                assert(next@.map_values(|h: crate::sha256::Hash| h@) =~= next_layer(prev));
            }
            layer = next;
        }
        MerkleRoot(layer[0])
    }
}

/// The Merkle root is deterministic: it is a function of the transaction
/// list alone.
pub proof fn lemma_merkle_deterministic(a: Seq<TxV>, b: Seq<TxV>)
    requires
        a == b,
    ensures
        merkle_root_of_txs(a) == merkle_root_of_txs(b),
{
}

} // verus!
