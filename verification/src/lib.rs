//! Core of a small proof-of-work cryptocurrency node: 256-bit arithmetic,
//! content hashing, transactions, blocks, the chain engine with its UTXO set
//! and mempool, and the peer wire protocol.
use vstd::prelude::*;

pub mod codec;
pub mod error;
pub mod network;
pub mod crypto;
pub mod sha256;
pub mod types;
pub mod u256;
pub mod util;

verus! {

/// Block reward at height 0, in whole coins; multiply by `10^8` for satoshis.
pub const INITIAL_REWARD: u64 = 50;

/// Number of blocks between halvings of the block reward.
pub const HALVING_INTERVAL: u64 = 210;

/// Ideal time between blocks, in seconds.
pub const IDEAL_BLOCK_TIME: u64 = 10;

/// Number of blocks between difficulty adjustments.
pub const DIFFICULTY_UPDATE_INTERVAL: u64 = 50;

/// Mempool entries older than this many seconds are aged out.
pub const MAX_MEMPOOL_TRANSACTION_AGE: u64 = 600;

/// Maximum number of mempool transactions in a mining template,
/// in addition to the coinbase.
pub const BLOCK_TRANSACTION_CAP: usize = 20;

} // verus!
