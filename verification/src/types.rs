//! The data model: transactions, block headers, blocks, and the chain
//! engine.
pub mod block;
pub mod blockchain;
pub mod block_header;
pub mod utxo;
pub mod transaction;
