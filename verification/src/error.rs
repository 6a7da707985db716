//! The validation error taxonomy.
use vstd::prelude::*;

verus! {

/// Why a block or transaction was rejected.
#[derive(Clone, Copy, Debug, PartialEq, Eq, Structural)]
pub enum BtcError {
    /// Previous-hash mismatch, proof-of-work failure, or a non-monotonic
    /// timestamp.
    InvalidBlock,
    /// The Merkle commitment does not match the transaction list.
    InvalidMerkleRoot,
    /// A missing UTXO, duplicate input, value underflow, empty transaction
    /// list, or coinbase miscalculation.
    InvalidTransaction,
    /// A signature that does not verify.
    InvalidSignature,
}

impl BtcError {
    /// A short description, for logs.
    pub fn describe(&self) -> (r: &'static str)
    {
        match self {
            BtcError::InvalidBlock => "invalid block",
            BtcError::InvalidMerkleRoot => "invalid merkle root",
            BtcError::InvalidTransaction => "invalid transaction",
            BtcError::InvalidSignature => "invalid signature",
        }
    }
}

} // verus!
