//! Round trips of the canonical serialization, hash determinism, Merkle
//! behaviour, and the node dispatch.
use btclib::crypto::{PrivateKey, PublicKey, Signature};
use btclib::network::{Message, NodeAction, build_template, read_message, decode_message};
use btclib::types::block::Block;
use btclib::types::block_header::BlockHeader;
use btclib::types::blockchain::Blockchain;
use btclib::types::transaction::{Transaction, TransactionInput, TransactionOutput,
    read_tx};
use btclib::types::utxo::UtxoEntry;
use btclib::u256::{U256, min_target};
use btclib::util::MerkleRoot;

fn sample_tx(key: &PublicKey) -> Transaction {
    Transaction::new(
        vec![TransactionInput {
            prev_tx_output_hash: btclib::sha256::Hash(U256 { l0: 11, l1: 22, l2: 33, l3: 44 }),
            signature: Signature(vec![7u8; 64]),
        }],
        vec![
            TransactionOutput::new(123, 456, key.duplicate()),
            TransactionOutput::new(789, 1011, key.duplicate()),
        ],
    )
}

fn sample_block(key: &PublicKey) -> Block {
    let txs = vec![sample_tx(key), sample_tx(key)];
    let root = MerkleRoot::calculature(&txs);
    let header = BlockHeader::new(
        1234,
        5678,
        btclib::sha256::Hash(U256 { l0: 1, l1: 2, l2: 3, l3: 4 }),
        root,
        min_target(),
    );
    Block::new(header, txs)
}

#[test]
fn transaction_round_trip() {
    let key = PrivateKey::new_key().public_key();
    let t = sample_tx(&key);
    let bytes = t.encode();
    let (back, consumed) = read_tx(&bytes, 0).expect("decodes");
    assert_eq!(consumed, bytes.len());
    // a decoded transaction re-encodes to the identical bytes
    assert_eq!(back.encode(), bytes);
    assert!(back.hash().same(&t.hash()));
    assert_eq!(back.inputs.len(), 1);
    assert_eq!(back.outputs.len(), 2);
    assert_eq!(back.outputs[0].value, 123);
    assert_eq!(back.outputs[1].unique_id, 1011);
}

#[test]
fn block_round_trip() {
    let key = PrivateKey::new_key().public_key();
    let b = sample_block(&key);
    let bytes = b.encode();
    let (back, consumed) = btclib::types::block::read_block(&bytes, 0).expect("decodes");
    assert_eq!(consumed, bytes.len());
    assert_eq!(back.encode(), bytes);
    assert_eq!(back.header.timestamp, 1234);
    assert_eq!(back.header.nonce, 5678);
    assert_eq!(back.transactions.len(), 2);
}

#[test]
fn message_round_trips() {
    let key = PrivateKey::new_key().public_key();
    let msgs = vec![
        Message::UTXOs(vec![(TransactionOutput::new(5, 6, key.duplicate()), true)]),
        Message::Template(sample_block(&key)),
        Message::Difference(-42),
        Message::TemplateValidity(true),
        Message::NodeList(vec![b"127.0.0.1:9000".to_vec(), b"10.0.0.2:9000".to_vec()]),
        Message::FetchBlock(7),
        Message::FetchUTXOs(key.duplicate()),
        Message::SubmitTransaction(sample_tx(&key)),
        Message::NewTransaction(sample_tx(&key)),
        Message::FetchTemplate(key.duplicate()),
        Message::ValidateTemplate(sample_block(&key)),
        Message::SubmitTemplate(sample_block(&key)),
        Message::DiscoverNodes,
        Message::AskDifference(99),
        Message::NewBlock(sample_block(&key)),
    ];
    for m in msgs {
        let bytes = m.encode();
        let back = decode_message(&bytes).expect("decodes");
        assert_eq!(back.encode(), bytes);
    }
}

#[test]
fn frame_carries_length_prefix() {
    let m = Message::FetchBlock(3);
    let framed = m.encode_frame();
    let payload = m.encode();
    assert_eq!(framed.len(), payload.len() + 8);
    // eight big-endian length bytes
    let mut len: u64 = 0;
    for i in 0..8 {
        len = len * 256 + framed[i] as u64;
    }
    assert_eq!(len as usize, payload.len());
    assert_eq!(&framed[8..], &payload[..]);
}

#[test]
fn truncated_and_junk_payloads_are_rejected() {
    let m = Message::FetchBlock(3);
    let mut bytes = m.encode();
    bytes.pop();
    assert!(decode_message(&bytes).is_none());
    assert!(decode_message(&vec![99u8, 0, 0]).is_none());
    // trailing garbage after a valid message is refused
    let mut padded = m.encode();
    padded.push(0);
    assert!(decode_message(&padded).is_none());
    assert!(read_message(&padded, 0).is_some());
}

#[test]
fn checkpoint_round_trip() {
    let key = PrivateKey::new_key();
    let p0 = key.public_key();
    let mut bc = Blockchain::new();
    let txs = vec![Transaction::new(
        Vec::new(),
        vec![TransactionOutput::new(50 * 100_000_000, 1, p0.duplicate())],
    )];
    let root = MerkleRoot::calculature(&txs);
    let header = BlockHeader::new(100, 0, btclib::sha256::Hash::zero(), root, min_target());
    assert!(bc.add_block(Block::new(header, txs)).is_ok());
    bc.rebuild_utxos();
    let bytes = bc.encode_checkpoint();
    let mut back = Blockchain::decode_checkpoint(&bytes).expect("decodes");
    assert!(back.check_integrity());
    assert_eq!(back.block_height(), 1);
    assert_eq!(back.target(), bc.target());
    assert_eq!(back.mempool().len(), 0);
    back.rebuild_utxos();
    assert_eq!(back.utxos().len(), bc.utxos().len());
    assert_eq!(back.encode_checkpoint(), bytes);
}

#[test]
fn hashing_is_deterministic() {
    let key = PrivateKey::new_key().public_key();
    let t1 = sample_tx(&key);
    let t2 = sample_tx(&key);
    assert!(t1.hash().same(&t2.hash()));
    assert!(t1.hash().same(&t1.hash()));
    let txs1 = vec![sample_tx(&key), sample_tx(&key)];
    let txs2 = vec![sample_tx(&key), sample_tx(&key)];
    assert!(MerkleRoot::calculature(&txs1).0.same(&MerkleRoot::calculature(&txs2).0));
}

#[test]
fn signed_bytes_are_big_endian() {
    let h = btclib::sha256::Hash(U256 { l0: 0x0102030405060708, l1: 0, l2: 0, l3: 0 });
    let bytes = h.as_bytes();
    assert_eq!(bytes.len(), 32);
    for i in 0..24 {
        assert_eq!(bytes[i], 0);
    }
    assert_eq!(&bytes[24..], &[1, 2, 3, 4, 5, 6, 7, 8]);
    // a digest read back out is the digest itself: SHA-256 of the empty
    // string
    let d = btclib::sha256::Hash::of_bytes(&Vec::new()).as_bytes();
    assert_eq!(d[0], 0xe3);
    assert_eq!(d[1], 0xb0);
    assert_eq!(d[31], 0x55);
}

#[test]
fn sha256_known_vector() {
    // SHA-256 of the empty string, read as a big-endian integer
    let h = btclib::sha256::Hash::of_bytes(&Vec::new());
    let expected = U256 {
        l0: 0xa495991b7852b855,
        l1: 0x27ae41e4649b934c,
        l2: 0x9afbf4c8996fb924,
        l3: 0xe3b0c44298fc1c14,
    };
    assert_eq!(h.0, expected);
}

#[test]
fn merkle_distinguishes_order() {
    let key = PrivateKey::new_key().public_key();
    let a = sample_tx(&key);
    let mut b = sample_tx(&key);
    b.outputs[0].value = 124;
    let r1 = MerkleRoot::calculature(&vec![a.duplicate(), b.duplicate()]);
    let r2 = MerkleRoot::calculature(&vec![b, a]);
    assert!(!r1.0.same(&r2.0));
}

#[test]
fn merkle_duplicates_odd_tail() {
    let key = PrivateKey::new_key().public_key();
    let a = sample_tx(&key);
    let mut b = sample_tx(&key);
    b.outputs[0].value = 124;
    let mut c = sample_tx(&key);
    c.outputs[0].value = 125;
    // three leaves: the last is paired with itself
    let r3 = MerkleRoot::calculature(&vec![a.duplicate(), b.duplicate(), c.duplicate()]);
    let r4 = MerkleRoot::calculature(&vec![a, b, c.duplicate(), c]);
    assert!(r3.0.same(&r4.0));
}

#[test]
fn template_collects_reward_and_fees() {
    let signing = PrivateKey::new_key();
    let p0 = signing.public_key();
    let mut bc = Blockchain::new();
    let o = TransactionOutput::new(10, 1, p0.duplicate());
    let h = o.hash();
    bc.utxos.entries.push(UtxoEntry { hash: h, marked: false, output: o });
    let spend = Transaction::new(
        vec![TransactionInput {
            prev_tx_output_hash: h,
            signature: Signature::sign_output(&h, &signing),
        }],
        vec![TransactionOutput::new(7, 2, p0.duplicate())],
    );
    assert!(bc.add_to_mempool_at(spend, 1000).is_ok());
    let b = build_template(&bc, p0.duplicate(), 42, 2000).expect("template");
    assert_eq!(b.transactions.len(), 2);
    assert_eq!(b.transactions[0].inputs.len(), 0);
    assert_eq!(
        b.transactions[0].outputs[0].value,
        btclib::types::block::block_reward(0) + 3
    );
    assert_eq!(b.header.timestamp, 2000);
    assert_eq!(b.header.nonce, 0);
    // the commitment matches the final transaction list
    let root = MerkleRoot::calculature(&b.transactions);
    assert!(b.header.merkle_root.0.same(&root.0));
}

#[test]
fn respond_answers_height_difference() {
    let key = PrivateKey::new_key();
    let p0 = key.public_key();
    let mut bc = Blockchain::new();
    let txs = vec![Transaction::new(
        Vec::new(),
        vec![TransactionOutput::new(50 * 100_000_000, 1, p0.duplicate())],
    )];
    let root = MerkleRoot::calculature(&txs);
    let header = BlockHeader::new(100, 0, btclib::sha256::Hash::zero(), root, min_target());
    assert!(bc.add_block(Block::new(header, txs)).is_ok());
    let peers: Vec<Vec<u8>> = vec![b"peer:1".to_vec()];
    match btclib::network::respond(&mut bc, Message::AskDifference(0), &peers) {
        NodeAction::Send(Message::Difference(d)) => assert_eq!(d, 1),
        _ => panic!("expected a difference reply"),
    }
    match btclib::network::respond(&mut bc, Message::DiscoverNodes, &peers) {
        NodeAction::Send(Message::NodeList(l)) => assert_eq!(l, vec![b"peer:1".to_vec()]),
        _ => panic!("expected the node list"),
    }
    match btclib::network::respond(&mut bc, Message::FetchBlock(0), &peers) {
        NodeAction::Send(Message::NewBlock(b)) => assert_eq!(b.header.timestamp, 100),
        _ => panic!("expected the block"),
    }
    match btclib::network::respond(&mut bc, Message::FetchBlock(5), &peers) {
        NodeAction::CloseConnection => {},
        _ => panic!("expected a closed connection"),
    }
    match btclib::network::respond(&mut bc, Message::Difference(0), &peers) {
        NodeAction::CloseConnection => {},
        _ => panic!("expected a closed connection"),
    }
}

#[test]
fn u256_arithmetic_spot_checks() {
    let a = U256 { l0: u64::MAX, l1: 1, l2: 0, l3: 0 };
    let w = btclib::u256::mul_u256_u64(&a, 2);
    // (2^64 + u64::MAX) * 2 == 2 * 2^64 + 2 * (2^64 - 1)
    assert_eq!(w.w0, u64::MAX - 1);
    assert_eq!(w.w1, 3);
    let q = btclib::u256::div_w5_u64(&w, 6);
    let back = btclib::u256::mul_u256_u64(&q.to_u256(), 6);
    // the remainder is below the divisor
    assert!(btclib::u256::W5::from_u256(&back.to_u256()).le(&w));
    let half = btclib::u256::div_w5_u64(&btclib::u256::W5::from_u256(&min_target()), 2);
    assert_eq!(half.to_u256().l3, 0x0000_7FFF_FFFF_FFFF);
}
