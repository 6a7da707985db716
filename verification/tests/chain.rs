//! End-to-end checks of the chain engine: consensus scenarios, mempool
//! behaviour, difficulty retargeting, and the cryptographic wrappers.
use btclib::crypto::{PrivateKey, PublicKey, Signature};
use btclib::error::BtcError;
use btclib::types::block::Block;
use btclib::types::block_header::BlockHeader;
use btclib::types::blockchain::Blockchain;
use btclib::types::transaction::{Transaction, TransactionInput, TransactionOutput};
use btclib::types::utxo::{UtxoEntry, UtxoSet};
use btclib::u256::{U256, min_target};
use btclib::util::MerkleRoot;

fn coinbase(value: u64, uid: u128, key: &PublicKey) -> Transaction {
    Transaction::new(
        Vec::new(),
        vec![TransactionOutput::new(value, uid, key.duplicate())],
    )
}

fn genesis(key: &PublicKey, ts: u64) -> Block {
    let txs = vec![coinbase(50 * 100_000_000, 1, key)];
    let root = MerkleRoot::calculature(&txs);
    let header = BlockHeader::new(ts, 0, btclib::sha256::Hash::zero(), root, min_target());
    Block::new(header, txs)
}

/// Mines a block on the current tip with the given transactions.
fn mined_block(bc: &Blockchain, txs: Vec<Transaction>, ts: u64) -> Block {
    let prev = bc.blocks()[bc.blocks().len() - 1].header.hash();
    let root = MerkleRoot::calculature(&txs);
    let mut header = BlockHeader::new(ts, 0, prev, root, bc.target());
    assert!(header.mine(20_000_000, ts));
    Block::new(header, txs)
}

#[test]
fn genesis_then_first_block() {
    let key = PrivateKey::new_key();
    let p0 = key.public_key();
    let mut bc = Blockchain::new();
    let g = genesis(&p0, 100);
    assert!(bc.add_block(g).is_ok());
    assert_eq!(bc.block_height(), 1);
    bc.rebuild_utxos();
    assert_eq!(bc.utxos().len(), 1);
    assert_eq!(bc.utxos().entries[0].output.value, 50 * 100_000_000);
    assert!(!bc.utxos().entries[0].marked);
}

#[test]
fn genesis_requires_zero_prev_hash() {
    let key = PrivateKey::new_key();
    let p0 = key.public_key();
    let mut bc = Blockchain::new();
    let mut g = genesis(&p0, 100);
    g.header.prev_block_hash = btclib::sha256::Hash(U256 { l0: 7, l1: 0, l2: 0, l3: 0 });
    assert_eq!(bc.add_block(g), Err(BtcError::InvalidBlock));
    assert_eq!(bc.block_height(), 0);
}

#[test]
fn wrong_prev_hash_is_invalid_block() {
    let key = PrivateKey::new_key();
    let p0 = key.public_key();
    let mut bc = Blockchain::new();
    assert!(bc.add_block(genesis(&p0, 100)).is_ok());
    // a second "genesis" no longer matches the tip
    let b = genesis(&p0, 200);
    assert_eq!(bc.add_block(b), Err(BtcError::InvalidBlock));
}

#[test]
fn mined_block_extends_chain() {
    let key = PrivateKey::new_key();
    let p0 = key.public_key();
    let mut bc = Blockchain::new();
    assert!(bc.add_block(genesis(&p0, 100)).is_ok());
    bc.rebuild_utxos();
    // height 1: reward halves not yet; no fees, so the coinbase pays the reward
    let txs = vec![coinbase(btclib::types::block::block_reward(1), 2, &p0)];
    let b = mined_block(&bc, txs, 101);
    assert!(bc.add_block(b).is_ok());
    assert_eq!(bc.block_height(), 2);
}

#[test]
fn tampered_merkle_root_is_rejected() {
    let key = PrivateKey::new_key();
    let p0 = key.public_key();
    let mut bc = Blockchain::new();
    assert!(bc.add_block(genesis(&p0, 100)).is_ok());
    bc.rebuild_utxos();
    let txs = vec![coinbase(btclib::types::block::block_reward(1), 2, &p0)];
    let prev = bc.blocks()[0].header.hash();
    let wrong_root = MerkleRoot(btclib::sha256::Hash(U256 { l0: 9, l1: 9, l2: 9, l3: 9 }));
    let mut header = BlockHeader::new(101, 0, prev, wrong_root, bc.target());
    assert!(header.mine(20_000_000, 101));
    let b = Block::new(header, txs);
    assert_eq!(bc.add_block(b), Err(BtcError::InvalidMerkleRoot));
}

#[test]
fn double_spend_within_block() {
    let key = PrivateKey::new_key();
    let p0 = key.public_key();
    let mut bc = Blockchain::new();
    assert!(bc.add_block(genesis(&p0, 100)).is_ok());
    bc.rebuild_utxos();
    let u = bc.utxos().entries[0].hash;
    let sig = Signature::sign_output(&u, &key);
    let spend = |uid: u128| {
        Transaction::new(
            vec![TransactionInput { prev_tx_output_hash: u, signature: Signature(sig.0.clone()) }],
            vec![TransactionOutput::new(10, uid, p0.duplicate())],
        )
    };
    let reward = btclib::types::block::block_reward(1);
    // both transactions spend the same output
    let txs = vec![coinbase(reward, 2, &p0), spend(3), spend(4)];
    let b = Block::new(
        BlockHeader::new(101, 0, bc.blocks()[0].header.hash(), MerkleRoot::calculature(&txs), bc.target()),
        txs,
    );
    assert_eq!(b.verify_transactions(1, bc.utxos()), Err(BtcError::InvalidTransaction));
}

#[test]
fn fee_accounting() {
    let key = PrivateKey::new_key();
    let p0 = key.public_key();
    let mut bc = Blockchain::new();
    // one spendable 10-satoshi output
    let small = TransactionOutput::new(10, 77, p0.duplicate());
    let h = small.hash();
    bc.utxos.entries.push(UtxoEntry { hash: h, marked: false, output: small });
    let sig = Signature::sign_output(&h, &key);
    let spend = Transaction::new(
        vec![TransactionInput { prev_tx_output_hash: h, signature: sig }],
        vec![TransactionOutput::new(7, 78, p0.duplicate())],
    );
    let reward = btclib::types::block::block_reward(1);
    // the coinbase must collect exactly reward + 3
    let good = vec![coinbase(reward + 3, 2, &p0), spend_clone(&spend)];
    let gb = Block::new(
        BlockHeader::new(101, 0, btclib::sha256::Hash::zero(), MerkleRoot::calculature(&good), bc.target()),
        good,
    );
    assert_eq!(gb.calculate_miner_fees(bc.utxos()), Ok(3));
    assert_eq!(gb.verify_transactions(1, bc.utxos()), Ok(()));
    let bad = vec![coinbase(reward + 2, 2, &p0), spend];
    let bb = Block::new(
        BlockHeader::new(101, 0, btclib::sha256::Hash::zero(), MerkleRoot::calculature(&bad), bc.target()),
        bad,
    );
    assert_eq!(bb.verify_transactions(1, bc.utxos()), Err(BtcError::InvalidTransaction));
}

fn spend_clone(t: &Transaction) -> Transaction {
    t.duplicate()
}

#[test]
fn signature_requirement() {
    let key = PrivateKey::new_key();
    let p0 = key.public_key();
    let mut bc = Blockchain::new();
    let small = TransactionOutput::new(10, 77, p0.duplicate());
    let h = small.hash();
    bc.utxos.entries.push(UtxoEntry { hash: h, marked: false, output: small });
    let sig = Signature::sign_output(&h, &key);
    let mut flipped = sig.0.clone();
    flipped[5] ^= 0x01;
    let spend = Transaction::new(
        vec![TransactionInput { prev_tx_output_hash: h, signature: Signature(flipped) }],
        vec![TransactionOutput::new(7, 78, p0.duplicate())],
    );
    let reward = btclib::types::block::block_reward(1);
    let txs = vec![coinbase(reward + 3, 2, &p0), spend];
    let b = Block::new(
        BlockHeader::new(101, 0, btclib::sha256::Hash::zero(), MerkleRoot::calculature(&txs), bc.target()),
        txs,
    );
    assert_eq!(b.verify_transactions(1, bc.utxos()), Err(BtcError::InvalidSignature));
}

#[test]
fn sign_and_verify_round_trip() {
    let key = PrivateKey::new_key();
    let p0 = key.public_key();
    let h = btclib::sha256::Hash(U256 { l0: 5, l1: 6, l2: 7, l3: 8 });
    let sig = Signature::sign_output(&h, &key);
    assert!(sig.verify(&h, &p0));
    let other = btclib::sha256::Hash(U256 { l0: 9, l1: 6, l2: 7, l3: 8 });
    assert!(!sig.verify(&other, &p0));
    let stranger = PrivateKey::new_key().public_key();
    assert!(!sig.verify(&h, &stranger));
}

#[test]
fn difficulty_retarget() {
    let key = PrivateKey::new_key();
    let p0 = key.public_key();
    let mut bc = Blockchain::new();
    // fifty blocks whose span is exactly half the ideal interval time
    for i in 0..50u64 {
        let ts = if i == 49 { 1000 + 250 } else { 1000 + 5 * i };
        let txs = vec![coinbase(1, i as u128, &p0)];
        let header = BlockHeader::new(
            ts,
            0,
            btclib::sha256::Hash::zero(),
            MerkleRoot::calculature(&txs),
            min_target(),
        );
        bc.blocks.push(Block::new(header, txs));
    }
    bc.try_adjust_target();
    // half of 2^240 - 1, truncated
    let expected = U256 {
        l0: 0xFFFF_FFFF_FFFF_FFFF,
        l1: 0xFFFF_FFFF_FFFF_FFFF,
        l2: 0xFFFF_FFFF_FFFF_FFFF,
        l3: 0x0000_7FFF_FFFF_FFFF,
    };
    assert_eq!(bc.target(), expected);
}

#[test]
fn difficulty_clamps_at_quadruple() {
    let key = PrivateKey::new_key();
    let p0 = key.public_key();
    let mut bc = Blockchain::new();
    bc.target = U256 { l0: 1000, l1: 0, l2: 0, l3: 0 };
    // a very slow interval: the scale factor far exceeds four
    for i in 0..50u64 {
        let txs = vec![coinbase(1, i as u128, &p0)];
        let header = BlockHeader::new(
            1000 + 10_000 * i,
            0,
            btclib::sha256::Hash::zero(),
            MerkleRoot::calculature(&txs),
            min_target(),
        );
        bc.blocks.push(Block::new(header, txs));
    }
    bc.try_adjust_target();
    assert_eq!(bc.target(), U256 { l0: 4000, l1: 0, l2: 0, l3: 0 });
}

fn seed_utxo(bc: &mut Blockchain, value: u64, uid: u128, key: &PublicKey) -> btclib::sha256::Hash {
    let o = TransactionOutput::new(value, uid, key.duplicate());
    let h = o.hash();
    bc.utxos.entries.push(UtxoEntry { hash: h, marked: false, output: o });
    h
}

#[test]
fn mempool_conflict_eviction() {
    let key = PrivateKey::new_key();
    let p0 = key.public_key();
    let mut bc = Blockchain::new();
    let u = seed_utxo(&mut bc, 10, 77, &p0);
    let sig = Signature::sign_output(&u, &key);
    let tx_a = Transaction::new(
        vec![TransactionInput { prev_tx_output_hash: u, signature: Signature(sig.0.clone()) }],
        vec![TransactionOutput::new(5, 1, p0.duplicate())],
    );
    let a_hash = tx_a.hash();
    assert!(bc.add_to_mempool_at(tx_a, 1000).is_ok());
    assert_eq!(bc.mempool().len(), 1);
    assert!(bc.utxos().entries[0].marked);
    // tx B spends the same output with a higher fee
    let tx_b = Transaction::new(
        vec![TransactionInput { prev_tx_output_hash: u, signature: Signature(sig.0.clone()) }],
        vec![TransactionOutput::new(2, 2, p0.duplicate())],
    );
    let b_hash = tx_b.hash();
    assert!(bc.add_to_mempool_at(tx_b, 1001).is_ok());
    assert_eq!(bc.mempool().len(), 1);
    assert!(bc.mempool()[0].transaction.hash().same(&b_hash));
    assert!(!bc.mempool()[0].transaction.hash().same(&a_hash));
    assert_eq!(bc.mempool()[0].fee, 8);
    assert!(bc.utxos().entries[0].marked);
}

#[test]
fn mempool_orders_by_fee() {
    let key = PrivateKey::new_key();
    let p0 = key.public_key();
    let mut bc = Blockchain::new();
    let u1 = seed_utxo(&mut bc, 10, 1, &p0);
    let u2 = seed_utxo(&mut bc, 10, 2, &p0);
    let spend = |u: &btclib::sha256::Hash, out: u64, uid: u128| {
        Transaction::new(
            vec![TransactionInput {
                prev_tx_output_hash: *u,
                signature: Signature::sign_output(u, &key),
            }],
            vec![TransactionOutput::new(out, uid, p0.duplicate())],
        )
    };
    // fee 2 first, then fee 9: the pool must reorder
    assert!(bc.add_to_mempool_at(spend(&u1, 8, 10), 1000).is_ok());
    assert!(bc.add_to_mempool_at(spend(&u2, 1, 11), 1001).is_ok());
    assert_eq!(bc.mempool().len(), 2);
    assert_eq!(bc.mempool()[0].fee, 9);
    assert_eq!(bc.mempool()[1].fee, 2);
}

#[test]
fn mempool_rejects_unknown_and_duplicate_inputs() {
    let key = PrivateKey::new_key();
    let p0 = key.public_key();
    let mut bc = Blockchain::new();
    let missing = btclib::sha256::Hash(U256 { l0: 42, l1: 0, l2: 0, l3: 0 });
    let t = Transaction::new(
        vec![TransactionInput {
            prev_tx_output_hash: missing,
            signature: Signature(vec![0u8; 64]),
        }],
        vec![],
    );
    assert_eq!(bc.add_to_mempool_at(t, 1000), Err(BtcError::InvalidTransaction));
    let u = seed_utxo(&mut bc, 10, 1, &p0);
    let dup = Transaction::new(
        vec![
            TransactionInput { prev_tx_output_hash: u, signature: Signature(vec![0u8; 64]) },
            TransactionInput { prev_tx_output_hash: u, signature: Signature(vec![0u8; 64]) },
        ],
        vec![],
    );
    assert_eq!(bc.add_to_mempool_at(dup, 1000), Err(BtcError::InvalidTransaction));
    // inputs must cover outputs
    let greedy = Transaction::new(
        vec![TransactionInput { prev_tx_output_hash: u, signature: Signature(vec![0u8; 64]) }],
        vec![TransactionOutput::new(11, 5, p0.duplicate())],
    );
    assert_eq!(bc.add_to_mempool_at(greedy, 1000), Err(BtcError::InvalidTransaction));
}

#[test]
fn mempool_aging() {
    let key = PrivateKey::new_key();
    let p0 = key.public_key();
    let mut bc = Blockchain::new();
    let u = seed_utxo(&mut bc, 10, 1, &p0);
    let t = Transaction::new(
        vec![TransactionInput {
            prev_tx_output_hash: u,
            signature: Signature::sign_output(&u, &key),
        }],
        vec![TransactionOutput::new(5, 2, p0.duplicate())],
    );
    assert!(bc.add_to_mempool_at(t, 1000).is_ok());
    assert!(bc.utxos().entries[0].marked);
    // at the age limit, nothing is evicted yet
    bc.clean_up_mempool_at(1000 + 600);
    assert_eq!(bc.mempool().len(), 1);
    // one second past the limit the entry leaves and the mark clears
    bc.clean_up_mempool_at(1000 + 601);
    assert_eq!(bc.mempool().len(), 0);
    assert!(!bc.utxos().entries[0].marked);
}

#[test]
fn block_reward_halves() {
    assert_eq!(btclib::types::block::block_reward(0), 5_000_000_000);
    assert_eq!(btclib::types::block::block_reward(209), 5_000_000_000);
    assert_eq!(btclib::types::block::block_reward(210), 2_500_000_000);
    assert_eq!(btclib::types::block::block_reward(420), 1_250_000_000);
    assert_eq!(btclib::types::block::block_reward(210 * 33), 0);
    assert_eq!(btclib::types::block::block_reward(u64::MAX), 0);
}

#[test]
fn block_eviction_from_mempool() {
    // a transaction included in an accepted block leaves the mempool
    let key = PrivateKey::new_key();
    let p0 = key.public_key();
    let mut bc = Blockchain::new();
    assert!(bc.add_block(genesis(&p0, 100)).is_ok());
    bc.rebuild_utxos();
    let u = bc.utxos().entries[0].hash;
    let spend = Transaction::new(
        vec![TransactionInput {
            prev_tx_output_hash: u,
            signature: Signature::sign_output(&u, &key),
        }],
        vec![TransactionOutput::new(50 * 100_000_000 - 3, 9, p0.duplicate())],
    );
    let spend_copy = spend.duplicate();
    assert!(bc.add_to_mempool_at(spend, 1000).is_ok());
    assert_eq!(bc.mempool().len(), 1);
    let reward = btclib::types::block::block_reward(1);
    let txs = vec![coinbase(reward + 3, 2, &p0), spend_copy];
    let b = mined_block(&bc, txs, 101);
    assert!(bc.add_block(b).is_ok());
    assert_eq!(bc.mempool().len(), 0);
}
