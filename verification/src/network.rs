//! The peer wire protocol: the message set, its canonical length-prefixed
//! framing, and the node's dispatch rules.
use vstd::prelude::*;
use crate::codec::{be_bytes, dec_bytes, dec_u64, enc_bytes, le_bytes,
    lemma_dec_enc_bytes, lemma_dec_enc_u64, lemma_le_bytes_len, lemma_pow256_16,
    lemma_split_subrange, pow256, push_be, push_bytes, push_le, read_bytes, read_u64};
use crate::crypto::PublicKey;
use crate::error::BtcError;
use crate::types::block::{Block, BlockV, dec_block, enc_block, lemma_dec_enc_block,
    lemma_block_view_wf, block_wf};
use crate::types::block_header::{BlockHeader, HeaderV, header_hash, header_wf};
use crate::types::blockchain::{Blockchain, ChainV, MemV, add_block_check,
    admission_outcome, admits, spec_apply_blocks};
use crate::types::transaction::{InputV, TransactionInput};
use crate::types::utxo::EntryV;
use crate::util::{MerkleRoot, merkle_root_of_txs};
use crate::types::transaction::{OutputV, Transaction, TransactionOutput, TxV, dec_output,
    dec_tx, enc_output, enc_tx, lemma_dec_enc_output, lemma_dec_enc_tx, lemma_tx_view_wf,
    output_wf, tx_wf, read_output, read_tx};

verus! {

/// One protocol message.
pub enum Message {
    /// The outputs paying a key, each with its reservation mark.
    UTXOs(Vec<(TransactionOutput, bool)>),
    /// An unmined block template.
    Template(Block),
    /// The responder's height minus the asker's.
    Difference(i32),
    /// Whether a template still extends the tip.
    TemplateValidity(bool),
    /// Known peer addresses, as UTF-8 bytes.
    NodeList(Vec<Vec<u8>>),
    /// A request for the block at a height.
    FetchBlock(u64),
    /// A request for all outputs paying a key.
    FetchUTXOs(PublicKey),
    /// A client-submitted transaction.
    SubmitTransaction(Transaction),
    /// A transaction relayed by a peer.
    NewTransaction(Transaction),
    /// A miner requesting a template.
    FetchTemplate(PublicKey),
    /// A miner checking a template's freshness.
    ValidateTemplate(Block),
    /// A mined template being submitted.
    SubmitTemplate(Block),
    /// A request for the peer's node list.
    DiscoverNodes,
    /// A request for the height differential.
    AskDifference(u64),
    /// A block relayed by a peer.
    NewBlock(Block),
}

/// The mathematical value of a [`Message`].
pub ghost enum MessageV {
    UTXOs(Seq<(OutputV, bool)>),
    Template(BlockV),
    Difference(i32),
    TemplateValidity(bool),
    NodeList(Seq<Seq<u8>>),
    FetchBlock(u64),
    FetchUTXOs(Seq<u8>),
    SubmitTransaction(TxV),
    NewTransaction(TxV),
    FetchTemplate(Seq<u8>),
    ValidateTemplate(BlockV),
    SubmitTemplate(BlockV),
    DiscoverNodes,
    AskDifference(u64),
    NewBlock(BlockV),
}

impl View for Message {
    type V = MessageV;

    open spec fn view(&self) -> MessageV {
        match self {
            Message::UTXOs(v) => MessageV::UTXOs(
                v@.map_values(|p: (TransactionOutput, bool)| (p.0@, p.1)),
            ),
            Message::Template(b) => MessageV::Template(b@),
            Message::Difference(d) => MessageV::Difference(*d),
            Message::TemplateValidity(s) => MessageV::TemplateValidity(*s),
            Message::NodeList(l) => MessageV::NodeList(l@.map_values(|a: Vec<u8>| a@)),
            Message::FetchBlock(h) => MessageV::FetchBlock(*h),
            Message::FetchUTXOs(k) => MessageV::FetchUTXOs(k@),
            Message::SubmitTransaction(t) => MessageV::SubmitTransaction(t@),
            Message::NewTransaction(t) => MessageV::NewTransaction(t@),
            Message::FetchTemplate(k) => MessageV::FetchTemplate(k@),
            Message::ValidateTemplate(b) => MessageV::ValidateTemplate(b@),
            Message::SubmitTemplate(b) => MessageV::SubmitTemplate(b@),
            Message::DiscoverNodes => MessageV::DiscoverNodes,
            Message::AskDifference(h) => MessageV::AskDifference(*h),
            Message::NewBlock(b) => MessageV::NewBlock(b@),
        }
    }
}

pub open spec fn enc_utxo_pair(p: (OutputV, bool)) -> Seq<u8> {
    enc_output(p.0) + seq![if p.1 { 1u8 } else { 0u8 }]
}

pub open spec fn enc_utxo_pairs(s: Seq<(OutputV, bool)>) -> Seq<u8>
    decreases s.len(),
{
    if s.len() == 0 {
        Seq::empty()
    } else {
        enc_utxo_pair(s[0]) + enc_utxo_pairs(s.drop_first())
    }
}

pub open spec fn enc_addr_seq(s: Seq<Seq<u8>>) -> Seq<u8>
    decreases s.len(),
{
    if s.len() == 0 {
        Seq::empty()
    } else {
        enc_bytes(s[0]) + enc_addr_seq(s.drop_first())
    }
}

/// The canonical payload of a message: a tag byte, then the payload of the
/// variant.
pub open spec fn enc_message(m: MessageV) -> Seq<u8> {
    match m {
        MessageV::UTXOs(v) => seq![0u8] + le_bytes(v.len() as int, 8) + enc_utxo_pairs(v),
        MessageV::Template(b) => seq![1u8] + enc_block(b),
        MessageV::Difference(d) => seq![2u8] + le_bytes((d as u32) as int, 4),
        MessageV::TemplateValidity(s) => seq![3u8] + seq![if s { 1u8 } else { 0u8 }],
        MessageV::NodeList(l) => seq![4u8] + le_bytes(l.len() as int, 8) + enc_addr_seq(l),
        MessageV::FetchBlock(h) => seq![5u8] + le_bytes(h as int, 8),
        MessageV::FetchUTXOs(k) => seq![6u8] + enc_bytes(k),
        MessageV::SubmitTransaction(t) => seq![7u8] + enc_tx(t),
        MessageV::NewTransaction(t) => seq![8u8] + enc_tx(t),
        MessageV::FetchTemplate(k) => seq![9u8] + enc_bytes(k),
        MessageV::ValidateTemplate(b) => seq![10u8] + enc_block(b),
        MessageV::SubmitTemplate(b) => seq![11u8] + enc_block(b),
        MessageV::DiscoverNodes => seq![12u8],
        MessageV::AskDifference(h) => seq![13u8] + le_bytes(h as int, 8),
        MessageV::NewBlock(b) => seq![14u8] + enc_block(b),
    }
}

pub open spec fn dec_bool(s: Seq<u8>, pos: int) -> Option<(bool, int)> {
    if 0 <= pos && pos + 1 <= s.len() {
        if s[pos] == 0u8 {
            Some((false, pos + 1))
        } else if s[pos] == 1u8 {
            Some((true, pos + 1))
        } else {
            None
        }
    } else {
        None
    }
}

pub open spec fn dec_utxo_pair(s: Seq<u8>, pos: int) -> Option<((OutputV, bool), int)> {
    match dec_output(s, pos) {
        Some((o, p1)) => match dec_bool(s, p1) {
            Some((m, p2)) => Some(((o, m), p2)),
            None => None,
        },
        None => None,
    }
}

pub open spec fn dec_utxo_pairs(s: Seq<u8>, pos: int, n: nat) -> Option<
    (Seq<(OutputV, bool)>, int),
>
    decreases n,
{
    if n == 0 {
        Some((Seq::empty(), pos))
    } else {
        match dec_utxo_pair(s, pos) {
            Some((v, p)) => match dec_utxo_pairs(s, p, (n - 1) as nat) {
                Some((vs, p2)) => Some((seq![v] + vs, p2)),
                None => None,
            },
            None => None,
        }
    }
}

pub open spec fn dec_addr_seq(s: Seq<u8>, pos: int, n: nat) -> Option<(Seq<Seq<u8>>, int)>
    decreases n,
{
    if n == 0 {
        Some((Seq::empty(), pos))
    } else {
        match dec_bytes(s, pos) {
            Some((v, p)) => match dec_addr_seq(s, p, (n - 1) as nat) {
                Some((vs, p2)) => Some((seq![v] + vs, p2)),
                None => None,
            },
            None => None,
        }
    }
}

pub open spec fn dec_u32(s: Seq<u8>, pos: int) -> Option<(u32, int)> {
    if 0 <= pos && pos + 4 <= s.len() {
        Some((crate::codec::le_val(s.subrange(pos, pos + 4)) as u32, pos + 4))
    } else {
        None
    }
}

/// Decoding a message payload from `pos`.
pub open spec fn dec_message(s: Seq<u8>, pos: int) -> Option<(MessageV, int)> {
    if 0 <= pos && pos + 1 <= s.len() {
        let tag = s[pos];
        let p = pos + 1;
        if tag == 0u8 {
            match dec_u64(s, p) {
                Some((n, p1)) => match dec_utxo_pairs(s, p1, n as nat) {
                    Some((v, p2)) => Some((MessageV::UTXOs(v), p2)),
                    None => None,
                },
                None => None,
            }
        } else if tag == 1u8 {
            match dec_block(s, p) {
                Some((b, p1)) => Some((MessageV::Template(b), p1)),
                None => None,
            }
        } else if tag == 2u8 {
            match dec_u32(s, p) {
                Some((d, p1)) => Some((MessageV::Difference(d as i32), p1)),
                None => None,
            }
        } else if tag == 3u8 {
            match dec_bool(s, p) {
                Some((b, p1)) => Some((MessageV::TemplateValidity(b), p1)),
                None => None,
            }
        } else if tag == 4u8 {
            match dec_u64(s, p) {
                Some((n, p1)) => match dec_addr_seq(s, p1, n as nat) {
                    Some((v, p2)) => Some((MessageV::NodeList(v), p2)),
                    None => None,
                },
                None => None,
            }
        } else if tag == 5u8 {
            match dec_u64(s, p) {
                Some((h, p1)) => Some((MessageV::FetchBlock(h), p1)),
                None => None,
            }
        } else if tag == 6u8 {
            match dec_bytes(s, p) {
                Some((k, p1)) => Some((MessageV::FetchUTXOs(k), p1)),
                None => None,
            }
        } else if tag == 7u8 {
            match dec_tx(s, p) {
                Some((t, p1)) => Some((MessageV::SubmitTransaction(t), p1)),
                None => None,
            }
        } else if tag == 8u8 {
            match dec_tx(s, p) {
                Some((t, p1)) => Some((MessageV::NewTransaction(t), p1)),
                None => None,
            }
        } else if tag == 9u8 {
            match dec_bytes(s, p) {
                Some((k, p1)) => Some((MessageV::FetchTemplate(k), p1)),
                None => None,
            }
        } else if tag == 10u8 {
            match dec_block(s, p) {
                Some((b, p1)) => Some((MessageV::ValidateTemplate(b), p1)),
                None => None,
            }
        } else if tag == 11u8 {
            match dec_block(s, p) {
                Some((b, p1)) => Some((MessageV::SubmitTemplate(b), p1)),
                None => None,
            }
        } else if tag == 12u8 {
            Some((MessageV::DiscoverNodes, p))
        } else if tag == 13u8 {
            match dec_u64(s, p) {
                Some((h, p1)) => Some((MessageV::AskDifference(h), p1)),
                None => None,
            }
        } else if tag == 14u8 {
            match dec_block(s, p) {
                Some((b, p1)) => Some((MessageV::NewBlock(b), p1)),
                None => None,
            }
        } else {
            None
        }
    } else {
        None
    }
}

/// Appends one byte for a boolean.
fn push_bool(out: &mut Vec<u8>, b: bool)
    ensures
        final(out)@ == old(out)@ + seq![if b { 1u8 } else { 0u8 }],
{
    let ghost pre: Seq<u8> = out@;
    if b {
        out.push(1u8);
    } else {
        out.push(0u8);
    }
    proof {
        assert(out@ =~= pre + seq![if b { 1u8 } else { 0u8 }]);
    }
}

impl Message {
    /// The canonical payload of this message.
    pub fn encode(&self) -> (r: Vec<u8>)
        ensures
            r@ == enc_message(self@),
    {
        let mut out: Vec<u8> = Vec::new();
        match self {
            Message::UTXOs(v) => {
                out.push(0u8);
                proof {
                    lemma_pow256_16();
                    vstd::std_specs::vec::axiom_spec_len(v);
                }
                push_le(&mut out, v.len() as u128, 8);
                let ghost pv = v@.map_values(|p: (TransactionOutput, bool)| (p.0@, p.1));
                let ghost mid: Seq<u8> = out@;
                let mut i: usize = 0;
                while i < v.len()
                    invariant
                        i <= v@.len(),
                        pv == v@.map_values(|p: (TransactionOutput, bool)| (p.0@, p.1)),
                        out@ == mid + enc_utxo_pairs(pv.subrange(0, i as int)),
                    decreases v@.len() - i,
                {
                    v[i].0.encode_to(&mut out);
                    push_bool(&mut out, v[i].1);
                    proof {
                        lemma_enc_utxo_pairs_snoc(pv.subrange(0, i as int), pv[i as int]);
                        assert(pv.subrange(0, i as int).push(pv[i as int])
                            =~= pv.subrange(0, i + 1));
                        assert(out@ =~= mid + enc_utxo_pairs(pv.subrange(0, i + 1)));
                    }
                    i = i + 1;
                }
                proof {
                    assert(pv.subrange(0, v@.len() as int) =~= pv);
                    assert(out@ =~= enc_message(self@));
                }
            },
            Message::Template(b) => {
                out.push(1u8);
                b.encode_to(&mut out);
                proof {
                    assert(out@ =~= enc_message(self@));
                }
            },
            Message::Difference(d) => {
                out.push(2u8);
                let u: u32 = *d as u32;
                push_le(&mut out, u as u128, 4);
                proof {
                    assert(out@ =~= enc_message(self@));
                }
            },
            Message::TemplateValidity(s) => {
                out.push(3u8);
                push_bool(&mut out, *s);
                proof {
                    assert(out@ =~= enc_message(self@));
                }
            },
            Message::NodeList(l) => {
                out.push(4u8);
                proof {
                    lemma_pow256_16();
                    vstd::std_specs::vec::axiom_spec_len(l);
                }
                push_le(&mut out, l.len() as u128, 8);
                let ghost lv = l@.map_values(|a: Vec<u8>| a@);
                let ghost mid: Seq<u8> = out@;
                let mut i: usize = 0;
                while i < l.len()
                    invariant
                        i <= l@.len(),
                        lv == l@.map_values(|a: Vec<u8>| a@),
                        out@ == mid + enc_addr_seq(lv.subrange(0, i as int)),
                    decreases l@.len() - i,
                {
                    push_bytes(&mut out, &l[i]);
                    proof {
                        lemma_enc_addr_seq_snoc(lv.subrange(0, i as int), lv[i as int]);
                        assert(lv.subrange(0, i as int).push(lv[i as int]) =~= lv.subrange(
                            0,
                            i + 1,
                        ));
                        assert(out@ =~= mid + enc_addr_seq(lv.subrange(0, i + 1)));
                    }
                    i = i + 1;
                }
                proof {
                    assert(lv.subrange(0, l@.len() as int) =~= lv);
                    assert(out@ =~= enc_message(self@));
                }
            },
            Message::FetchBlock(h) => {
                out.push(5u8);
                push_le(&mut out, *h as u128, 8);
                proof {
                    assert(out@ =~= enc_message(self@));
                }
            },
            Message::FetchUTXOs(k) => {
                out.push(6u8);
                push_bytes(&mut out, &k.0);
                proof {
                    assert(out@ =~= enc_message(self@));
                }
            },
            Message::SubmitTransaction(t) => {
                out.push(7u8);
                t.encode_to(&mut out);
                proof {
                    assert(out@ =~= enc_message(self@));
                }
            },
            Message::NewTransaction(t) => {
                out.push(8u8);
                t.encode_to(&mut out);
                proof {
                    assert(out@ =~= enc_message(self@));
                }
            },
            Message::FetchTemplate(k) => {
                out.push(9u8);
                push_bytes(&mut out, &k.0);
                proof {
                    assert(out@ =~= enc_message(self@));
                }
            },
            Message::ValidateTemplate(b) => {
                out.push(10u8);
                b.encode_to(&mut out);
                proof {
                    assert(out@ =~= enc_message(self@));
                }
            },
            Message::SubmitTemplate(b) => {
                out.push(11u8);
                b.encode_to(&mut out);
                proof {
                    assert(out@ =~= enc_message(self@));
                }
            },
            Message::DiscoverNodes => {
                out.push(12u8);
                proof {
                    assert(out@ =~= enc_message(self@));
                }
            },
            Message::AskDifference(h) => {
                out.push(13u8);
                push_le(&mut out, *h as u128, 8);
                proof {
                    assert(out@ =~= enc_message(self@));
                }
            },
            Message::NewBlock(b) => {
                out.push(14u8);
                b.encode_to(&mut out);
                proof {
                    assert(out@ =~= enc_message(self@));
                }
            },
        }
        out
    }

    /// The canonical frame of this message: the payload length as eight
    /// big-endian bytes, then the payload.
    pub fn encode_frame(&self) -> (r: Vec<u8>)
        ensures
            r@ == be_bytes(enc_message(self@).len() as int, 8) + enc_message(self@),
    {
        let payload = self.encode();
        let mut out: Vec<u8> = Vec::new();
        proof {
            lemma_pow256_16();
            vstd::std_specs::vec::axiom_spec_len(&payload);
        }
        push_be(&mut out, payload.len() as u64, 8);
        let ghost mid: Seq<u8> = out@;
        let mut i: usize = 0;
        while i < payload.len()
            invariant
                i <= payload@.len(),
                out@ == mid + payload@.subrange(0, i as int),
            decreases payload@.len() - i,
        {
            out.push(payload[i]);
            proof {
                assert(mid + payload@.subrange(0, i as int) + seq![payload@[i as int]]
                    =~= mid + payload@.subrange(0, i + 1));
            }
            i = i + 1;
        }
        proof {
            assert(payload@.subrange(0, payload@.len() as int) =~= payload@);
        }
        out
    }
}

pub proof fn lemma_enc_utxo_pairs_snoc(s: Seq<(OutputV, bool)>, v: (OutputV, bool))
    ensures
        enc_utxo_pairs(s.push(v)) == enc_utxo_pairs(s) + enc_utxo_pair(v),
    decreases s.len(),
{
    if s.len() == 0 {
        assert(s.push(v).drop_first() =~= Seq::<(OutputV, bool)>::empty());
        assert(enc_utxo_pairs(Seq::<(OutputV, bool)>::empty()) == Seq::<u8>::empty());
        assert(enc_utxo_pairs(s.push(v)) == enc_utxo_pair(v) + Seq::<u8>::empty());
        assert(enc_utxo_pair(v) + Seq::<u8>::empty() =~= enc_utxo_pairs(s)
            + enc_utxo_pair(v));
    } else {
        lemma_enc_utxo_pairs_snoc(s.drop_first(), v);
        assert(s.push(v).drop_first() =~= s.drop_first().push(v));
        assert(s.push(v)[0] == s[0]);
        assert(enc_utxo_pairs(s.push(v)) == enc_utxo_pair(s[0]) + enc_utxo_pairs(
            s.drop_first().push(v),
        ));
        assert(enc_utxo_pair(s[0]) + (enc_utxo_pairs(s.drop_first()) + enc_utxo_pair(v))
            =~= (enc_utxo_pair(s[0]) + enc_utxo_pairs(s.drop_first())) + enc_utxo_pair(v));
    }
}

pub proof fn lemma_enc_addr_seq_snoc(s: Seq<Seq<u8>>, v: Seq<u8>)
    ensures
        enc_addr_seq(s.push(v)) == enc_addr_seq(s) + enc_bytes(v),
    decreases s.len(),
{
    if s.len() == 0 {
        assert(s.push(v).drop_first() =~= Seq::<Seq<u8>>::empty());
        assert(enc_addr_seq(Seq::<Seq<u8>>::empty()) == Seq::<u8>::empty());
        assert(enc_addr_seq(s.push(v)) == enc_bytes(v) + Seq::<u8>::empty());
        assert(enc_bytes(v) + Seq::<u8>::empty() =~= enc_addr_seq(s) + enc_bytes(v));
    } else {
        lemma_enc_addr_seq_snoc(s.drop_first(), v);
        assert(s.push(v).drop_first() =~= s.drop_first().push(v));
        assert(s.push(v)[0] == s[0]);
        assert(enc_addr_seq(s.push(v)) == enc_bytes(s[0]) + enc_addr_seq(
            s.drop_first().push(v),
        ));
        assert(enc_bytes(s[0]) + (enc_addr_seq(s.drop_first()) + enc_bytes(v)) =~= (
        enc_bytes(s[0]) + enc_addr_seq(s.drop_first())) + enc_bytes(v));
    }
}

/// Reads a boolean byte; mirrors [`dec_bool`].
fn read_bool(bytes: &Vec<u8>, pos: usize) -> (r: Option<(bool, usize)>)
    ensures
        match r {
            Some((v, p)) => dec_bool(bytes@, pos as int) == Some((v, p as int)),
            None => dec_bool(bytes@, pos as int) is None,
        },
{
    if pos >= bytes.len() {
        return None;
    }
    let b: u8 = bytes[pos];
    if b == 0u8 {
        Some((false, pos + 1))
    } else if b == 1u8 {
        Some((true, pos + 1))
    } else {
        None
    }
}

/// Reads `n` output-mark pairs; mirrors [`dec_utxo_pairs`].
fn read_utxo_pairs(bytes: &Vec<u8>, pos: usize, n: u64) -> (r: Option<
    (Vec<(TransactionOutput, bool)>, usize),
>)
    ensures
        match r {
            Some((v, p)) => dec_utxo_pairs(bytes@, pos as int, n as nat) == Some(
                (v@.map_values(|q: (TransactionOutput, bool)| (q.0@, q.1)), p as int),
            ),
            None => dec_utxo_pairs(bytes@, pos as int, n as nat) is None,
        },
    decreases n,
{
    if n == 0 {
        let r: Vec<(TransactionOutput, bool)> = Vec::new();
        proof {
            assert(r@.map_values(|q: (TransactionOutput, bool)| (q.0@, q.1)) =~= Seq::<
                (OutputV, bool),
            >::empty());
        }
        return Some((r, pos));
    }
    let (o, p1) = match read_output(bytes, pos) {
        Some(x) => x,
        None => {
            return None;
        },
    };
    let (m, p2) = match read_bool(bytes, p1) {
        Some(x) => x,
        None => {
            return None;
        },
    };
    let (mut vs, p3) = match read_utxo_pairs(bytes, p2, n - 1) {
        Some(x) => x,
        None => {
            return None;
        },
    };
    vs.insert(0, (o, m));
    proof {
        let f = |q: (TransactionOutput, bool)| (q.0@, q.1);
        assert(vs@.map_values(f) =~= seq![(vs@[0].0@, vs@[0].1)] + vs@.drop_first()
            .map_values(f));
    }
    Some((vs, p3))
}

/// Reads `n` addresses; mirrors [`dec_addr_seq`].
fn read_addr_seq(bytes: &Vec<u8>, pos: usize, n: u64) -> (r: Option<(Vec<Vec<u8>>, usize)>)
    ensures
        match r {
            Some((v, p)) => dec_addr_seq(bytes@, pos as int, n as nat) == Some(
                (v@.map_values(|a: Vec<u8>| a@), p as int),
            ),
            None => dec_addr_seq(bytes@, pos as int, n as nat) is None,
        },
    decreases n,
{
    if n == 0 {
        let r: Vec<Vec<u8>> = Vec::new();
        proof {
            assert(r@.map_values(|a: Vec<u8>| a@) =~= Seq::<Seq<u8>>::empty());
        }
        return Some((r, pos));
    }
    let (a, p1) = match read_bytes(bytes, pos) {
        Some(x) => x,
        None => {
            return None;
        },
    };
    let (mut vs, p2) = match read_addr_seq(bytes, p1, n - 1) {
        Some(x) => x,
        None => {
            return None;
        },
    };
    vs.insert(0, a);
    proof {
        let f = |a: Vec<u8>| a@;
        assert(vs@.map_values(f) =~= seq![vs@[0]@] + vs@.drop_first().map_values(f));
    }
    Some((vs, p2))
}

/// Reads a 32-bit value; mirrors [`dec_u32`].
fn read_u32(bytes: &Vec<u8>, pos: usize) -> (r: Option<(u32, usize)>)
    ensures
        match r {
            Some((v, p)) => dec_u32(bytes@, pos as int) == Some((v, p as int)),
            None => dec_u32(bytes@, pos as int) is None,
        },
{
    let total: usize = bytes.len();
    if pos > total || total - pos < 4 {
        return None;
    }
    proof {
        crate::codec::lemma_le_val_bound(bytes@.subrange(pos as int, pos + 4));
        crate::codec::lemma_pow256_increases(4, 16);
        lemma_pow256_16();
    }
    let v: u32 = crate::codec::read_le(bytes, pos, 4) as u32;
    Some((v, pos + 4))
}

/// Reads one message payload; mirrors [`dec_message`].
pub fn read_message(bytes: &Vec<u8>, pos: usize) -> (r: Option<(Message, usize)>)
    ensures
        match r {
            Some((v, p)) => dec_message(bytes@, pos as int) == Some((v@, p as int)),
            None => dec_message(bytes@, pos as int) is None,
        },
{
    if pos >= bytes.len() {
        return None;
    }
    let tag: u8 = bytes[pos];
    let p: usize = pos + 1;
    if tag == 0u8 {
        let (n, p1) = match read_u64(bytes, p) {
            Some(x) => x,
            None => {
                return None;
            },
        };
        match read_utxo_pairs(bytes, p1, n) {
            Some((v, p2)) => Some((Message::UTXOs(v), p2)),
            None => None,
        }
    } else if tag == 1u8 {
        match crate::types::block::read_block(bytes, p) {
            Some((b, p1)) => Some((Message::Template(b), p1)),
            None => None,
        }
    } else if tag == 2u8 {
        match read_u32(bytes, p) {
            Some((d, p1)) => Some((Message::Difference(d as i32), p1)),
            None => None,
        }
    } else if tag == 3u8 {
        match read_bool(bytes, p) {
            Some((b, p1)) => Some((Message::TemplateValidity(b), p1)),
            None => None,
        }
    } else if tag == 4u8 {
        let (n, p1) = match read_u64(bytes, p) {
            Some(x) => x,
            None => {
                return None;
            },
        };
        match read_addr_seq(bytes, p1, n) {
            Some((v, p2)) => Some((Message::NodeList(v), p2)),
            None => None,
        }
    } else if tag == 5u8 {
        match read_u64(bytes, p) {
            Some((h, p1)) => Some((Message::FetchBlock(h), p1)),
            None => None,
        }
    } else if tag == 6u8 {
        match read_bytes(bytes, p) {
            Some((k, p1)) => Some((Message::FetchUTXOs(PublicKey(k)), p1)),
            None => None,
        }
    } else if tag == 7u8 {
        match read_tx(bytes, p) {
            Some((t, p1)) => Some((Message::SubmitTransaction(t), p1)),
            None => None,
        }
    } else if tag == 8u8 {
        match read_tx(bytes, p) {
            Some((t, p1)) => Some((Message::NewTransaction(t), p1)),
            None => None,
        }
    } else if tag == 9u8 {
        match read_bytes(bytes, p) {
            Some((k, p1)) => Some((Message::FetchTemplate(PublicKey(k)), p1)),
            None => None,
        }
    } else if tag == 10u8 {
        match crate::types::block::read_block(bytes, p) {
            Some((b, p1)) => Some((Message::ValidateTemplate(b), p1)),
            None => None,
        }
    } else if tag == 11u8 {
        match crate::types::block::read_block(bytes, p) {
            Some((b, p1)) => Some((Message::SubmitTemplate(b), p1)),
            None => None,
        }
    } else if tag == 12u8 {
        Some((Message::DiscoverNodes, p))
    } else if tag == 13u8 {
        match read_u64(bytes, p) {
            Some((h, p1)) => Some((Message::AskDifference(h), p1)),
            None => None,
        }
    } else if tag == 14u8 {
        match crate::types::block::read_block(bytes, p) {
            Some((b, p1)) => Some((Message::NewBlock(b), p1)),
            None => None,
        }
    } else {
        None
    }
}

/// Decodes one whole message payload: the bytes must hold exactly one
/// message, nothing more.
pub fn decode_message(bytes: &Vec<u8>) -> (r: Option<Message>)
    ensures
        match r {
            Some(v) => dec_message(bytes@, 0) == Some((v@, bytes@.len() as int)),
            None => !(exists|m: MessageV|
                dec_message(bytes@, 0) == Some((m, bytes@.len() as int))),
        },
{
    match read_message(bytes, 0) {
        Some((m, p)) => {
            if p == bytes.len() {
                Some(m)
            } else {
                None
            }
        },
        None => None,
    }
}

/// Every message view that comes from an executable message is well
/// formed.
pub open spec fn message_wf(m: MessageV) -> bool {
    match m {
        MessageV::UTXOs(v) => v.len() < pow256(8) && forall|j: int|
            0 <= j < v.len() ==> output_wf((#[trigger] v[j]).0),
        MessageV::Template(b) => block_wf(b) && header_wf(b.header),
        MessageV::Difference(d) => true,
        MessageV::TemplateValidity(s) => true,
        MessageV::NodeList(l) => l.len() < pow256(8) && forall|j: int|
            0 <= j < l.len() ==> (#[trigger] l[j]).len() < pow256(8),
        MessageV::FetchBlock(h) => true,
        MessageV::FetchUTXOs(k) => k.len() < pow256(8),
        MessageV::SubmitTransaction(t) => tx_wf(t),
        MessageV::NewTransaction(t) => tx_wf(t),
        MessageV::FetchTemplate(k) => k.len() < pow256(8),
        MessageV::ValidateTemplate(b) => block_wf(b) && header_wf(b.header),
        MessageV::SubmitTemplate(b) => block_wf(b) && header_wf(b.header),
        MessageV::DiscoverNodes => true,
        MessageV::AskDifference(h) => true,
        MessageV::NewBlock(b) => block_wf(b) && header_wf(b.header),
    }
}

pub proof fn lemma_message_view_wf(m: &Message)
    ensures
        message_wf(m@),
{
    lemma_pow256_16();
    match m {
        Message::UTXOs(v) => {
            vstd::std_specs::vec::axiom_spec_len(v);
            assert forall|j: int| 0 <= j < m@->UTXOs_0.len() implies output_wf(
                (#[trigger] m@->UTXOs_0[j]).0,
            ) by {
                assert(m@->UTXOs_0[j] == (v@[j].0@, v@[j].1));
                vstd::std_specs::vec::axiom_spec_len(&v@[j].0.pubkey.0);
            }
        },
        Message::Template(b) => {
            lemma_block_view_wf(b);
        },
        Message::NodeList(l) => {
            vstd::std_specs::vec::axiom_spec_len(l);
            assert forall|j: int| 0 <= j < m@->NodeList_0.len() implies (
            #[trigger] m@->NodeList_0[j]).len() < pow256(8) by {
                assert(m@->NodeList_0[j] == l@[j]@);
                vstd::std_specs::vec::axiom_spec_len(&l@[j]);
            }
        },
        Message::FetchUTXOs(k) => {
            vstd::std_specs::vec::axiom_spec_len(&k.0);
        },
        Message::SubmitTransaction(t) => {
            lemma_tx_view_wf(t);
        },
        Message::NewTransaction(t) => {
            lemma_tx_view_wf(t);
        },
        Message::FetchTemplate(k) => {
            vstd::std_specs::vec::axiom_spec_len(&k.0);
        },
        Message::ValidateTemplate(b) => {
            lemma_block_view_wf(b);
        },
        Message::SubmitTemplate(b) => {
            lemma_block_view_wf(b);
        },
        Message::NewBlock(b) => {
            lemma_block_view_wf(b);
        },
        _ => {},
    }
}

pub proof fn lemma_dec_enc_utxo_pairs(vs: Seq<(OutputV, bool)>, s: Seq<u8>, pos: int)
    requires
        forall|j: int| 0 <= j < vs.len() ==> output_wf((#[trigger] vs[j]).0),
        0 <= pos,
        pos + enc_utxo_pairs(vs).len() <= s.len(),
        s.subrange(pos, pos + enc_utxo_pairs(vs).len()) == enc_utxo_pairs(vs),
    ensures
        dec_utxo_pairs(s, pos, vs.len()) == Some((vs, pos + enc_utxo_pairs(vs).len())),
    decreases vs.len(),
{
    if vs.len() == 0 {
        assert(vs =~= Seq::<(OutputV, bool)>::empty());
    } else {
        let a = enc_utxo_pair(vs[0]);
        let b = enc_utxo_pairs(vs.drop_first());
        assert(enc_utxo_pairs(vs) == a + b);
        lemma_split_subrange(s, pos, a, b);
        let ao = enc_output(vs[0].0);
        let ab = seq![if vs[0].1 { 1u8 } else { 0u8 }];
        lemma_split_subrange(s, pos, ao, ab);
        lemma_dec_enc_output(vs[0].0, s, pos);
        assert(s[pos + ao.len()] == ab[0]);
        assert(dec_bool(s, pos + ao.len()) == Some((vs[0].1, pos + ao.len() + 1)));
        lemma_dec_enc_utxo_pairs(vs.drop_first(), s, pos + a.len());
        assert(seq![vs[0]] + vs.drop_first() =~= vs);
    }
}

pub proof fn lemma_dec_enc_addr_seq(vs: Seq<Seq<u8>>, s: Seq<u8>, pos: int)
    requires
        forall|j: int| 0 <= j < vs.len() ==> (#[trigger] vs[j]).len() < pow256(8),
        0 <= pos,
        pos + enc_addr_seq(vs).len() <= s.len(),
        s.subrange(pos, pos + enc_addr_seq(vs).len()) == enc_addr_seq(vs),
    ensures
        dec_addr_seq(s, pos, vs.len()) == Some((vs, pos + enc_addr_seq(vs).len())),
    decreases vs.len(),
{
    if vs.len() == 0 {
        assert(vs =~= Seq::<Seq<u8>>::empty());
    } else {
        let a = enc_bytes(vs[0]);
        let b = enc_addr_seq(vs.drop_first());
        assert(enc_addr_seq(vs) == a + b);
        lemma_split_subrange(s, pos, a, b);
        crate::codec::lemma_le_bytes_len(vs[0].len() as int, 8);
        lemma_dec_enc_bytes(vs[0], s, pos);
        lemma_dec_enc_addr_seq(vs.drop_first(), s, pos + a.len());
        assert(seq![vs[0]] + vs.drop_first() =~= vs);
    }
}

/// Round trip: decoding the canonical payload of a message recovers
/// exactly the message.
pub proof fn lemma_dec_enc_message(m: MessageV, s: Seq<u8>)
    requires
        message_wf(m),
        s == enc_message(m),
    ensures
        dec_message(s, 0) == Some((m, s.len() as int)),
{
    lemma_pow256_16();
    assert(s.subrange(0, s.len() as int) =~= s);
    match m {
        MessageV::UTXOs(v) => {
            let c = le_bytes(v.len() as int, 8);
            let d = enc_utxo_pairs(v);
            lemma_le_bytes_len(v.len() as int, 8);
            assert(s =~= seq![0u8] + (c + d));
            lemma_split_subrange(s, 0, seq![0u8], c + d);
            lemma_split_subrange(s, 1, c, d);
            assert((v.len() as u64) as nat == v.len());
            lemma_dec_enc_u64(v.len() as u64, s, 1);
            lemma_dec_enc_utxo_pairs(v, s, 9);
            assert(s[0] == 0u8);
        },
        MessageV::Template(b) => {
            lemma_tagged_block(1u8, b, s);
        },
        MessageV::Difference(d) => {
            let c = le_bytes((d as u32) as int, 4);
            lemma_le_bytes_len((d as u32) as int, 4);
            assert(s =~= seq![2u8] + c);
            lemma_split_subrange(s, 0, seq![2u8], c);
            crate::codec::lemma_pow256_increases(4, 16);
            assert(pow256(4) == 0x1_0000_0000) by {
                reveal_with_fuel(crate::codec::pow256, 5);
            }
            crate::codec::lemma_le_val_le_bytes((d as u32) as int, 4);
            assert(s[0] == 2u8);
            assert(dec_u32(s, 1) == Some((d as u32, 5int)));
            assert((d as u32) as i32 == d) by (bit_vector);
        },
        MessageV::TemplateValidity(v) => {
            assert(s =~= seq![3u8] + seq![if v { 1u8 } else { 0u8 }]);
            assert(s[0] == 3u8);
            assert(s[1] == (if v { 1u8 } else { 0u8 }));
        },
        MessageV::NodeList(l) => {
            let c = le_bytes(l.len() as int, 8);
            let d = enc_addr_seq(l);
            lemma_le_bytes_len(l.len() as int, 8);
            assert(s =~= seq![4u8] + (c + d));
            lemma_split_subrange(s, 0, seq![4u8], c + d);
            lemma_split_subrange(s, 1, c, d);
            assert((l.len() as u64) as nat == l.len());
            lemma_dec_enc_u64(l.len() as u64, s, 1);
            lemma_dec_enc_addr_seq(l, s, 9);
            assert(s[0] == 4u8);
        },
        MessageV::FetchBlock(h) => {
            lemma_tagged_u64(5u8, h, s);
        },
        MessageV::FetchUTXOs(k) => {
            lemma_tagged_bytes(6u8, k, s);
        },
        MessageV::SubmitTransaction(t) => {
            lemma_tagged_tx(7u8, t, s);
        },
        MessageV::NewTransaction(t) => {
            lemma_tagged_tx(8u8, t, s);
        },
        MessageV::FetchTemplate(k) => {
            lemma_tagged_bytes(9u8, k, s);
        },
        MessageV::ValidateTemplate(b) => {
            lemma_tagged_block(10u8, b, s);
        },
        MessageV::SubmitTemplate(b) => {
            lemma_tagged_block(11u8, b, s);
        },
        MessageV::DiscoverNodes => {
            assert(s =~= seq![12u8]);
            assert(s[0] == 12u8);
        },
        MessageV::AskDifference(h) => {
            lemma_tagged_u64(13u8, h, s);
        },
        MessageV::NewBlock(b) => {
            lemma_tagged_block(14u8, b, s);
        },
    }
}

proof fn lemma_tagged_block(tag: u8, b: BlockV, s: Seq<u8>)
    requires
        block_wf(b),
        header_wf(b.header),
        s == seq![tag] + enc_block(b),
    ensures
        s[0] == tag,
        s.len() == 1 + enc_block(b).len(),
        dec_block(s, 1) == Some((b, s.len() as int)),
{
    assert(s.subrange(0, s.len() as int) =~= s);
    lemma_split_subrange(s, 0, seq![tag], enc_block(b));
    lemma_dec_enc_block(b, s, 1);
}

proof fn lemma_tagged_tx(tag: u8, t: TxV, s: Seq<u8>)
    requires
        tx_wf(t),
        s == seq![tag] + enc_tx(t),
    ensures
        s[0] == tag,
        s.len() == 1 + enc_tx(t).len(),
        dec_tx(s, 1) == Some((t, s.len() as int)),
{
    assert(s.subrange(0, s.len() as int) =~= s);
    lemma_split_subrange(s, 0, seq![tag], enc_tx(t));
    lemma_dec_enc_tx(t, s, 1);
}

proof fn lemma_tagged_u64(tag: u8, h: u64, s: Seq<u8>)
    requires
        s == seq![tag] + le_bytes(h as int, 8),
    ensures
        s[0] == tag,
        s.len() == 9,
        dec_u64(s, 1) == Some((h, 9int)),
{
    lemma_le_bytes_len(h as int, 8);
    assert(s.subrange(0, s.len() as int) =~= s);
    lemma_split_subrange(s, 0, seq![tag], le_bytes(h as int, 8));
    lemma_dec_enc_u64(h, s, 1);
}

proof fn lemma_tagged_bytes(tag: u8, k: Seq<u8>, s: Seq<u8>)
    requires
        k.len() < pow256(8),
        s == seq![tag] + enc_bytes(k),
    ensures
        s[0] == tag,
        s.len() == 9 + k.len(),
        dec_bytes(s, 1) == Some((k, s.len() as int)),
{
    crate::codec::lemma_le_bytes_len(k.len() as int, 8);
    assert(s.subrange(0, s.len() as int) =~= s);
    lemma_split_subrange(s, 0, seq![tag], enc_bytes(k));
    lemma_dec_enc_bytes(k, s, 1);
}

/// What the connection handler does after one message: nothing, close the
/// connection, answer the sender, or broadcast to every peer.
pub enum NodeAction {
    Nothing,
    CloseConnection,
    Send(Message),
    Broadcast(Message),
}

/// The mathematical value of a [`NodeAction`].
pub ghost enum ActionV {
    Nothing,
    CloseConnection,
    Send(MessageV),
    Broadcast(MessageV),
}

impl View for NodeAction {
    type V = ActionV;

    open spec fn view(&self) -> ActionV {
        match self {
            NodeAction::Nothing => ActionV::Nothing,
            NodeAction::CloseConnection => ActionV::CloseConnection,
            NodeAction::Send(m) => ActionV::Send(m@),
            NodeAction::Broadcast(m) => ActionV::Broadcast(m@),
        }
    }
}

/// A coinbase transaction: no inputs, one output paying `value` to the key.
pub open spec fn coinbase_tx(pk: Seq<u8>, uuid: u128, value: u64) -> TxV {
    TxV {
        inputs: Seq::empty(),
        outputs: seq![OutputV { value, unique_id: uuid, pubkey: pk }],
    }
}

/// The transactions of a fresh template: a zero-value coinbase placeholder,
/// then the highest-fee pending transactions up to the cap.
pub open spec fn template_txs(mempool: Seq<MemV>, pk: Seq<u8>, uuid: u128) -> Seq<TxV> {
    let cap = if mempool.len() <= crate::BLOCK_TRANSACTION_CAP as int {
        mempool.len() as int
    } else {
        crate::BLOCK_TRANSACTION_CAP as int
    };
    seq![coinbase_tx(pk, uuid, 0)] + mempool.subrange(0, cap).map_values(
        |m: MemV| m.transaction,
    )
}

/// The hash a new block must name as its predecessor.
pub open spec fn tip_hash(c: ChainV) -> int {
    if c.blocks.len() == 0 {
        0
    } else {
        header_hash(c.blocks.last().header)
    }
}

/// The template rule: the pending transactions up to the cap behind a
/// coinbase that collects the block reward and the fees, under an unmined
/// header on the current tip; see `FetchTemplate`.
pub open spec fn template_spec(c: ChainV, pk: Seq<u8>, uuid: u128, now: u64) -> Result<
    BlockV,
    BtcError,
> {
    let txs0 = template_txs(c.mempool, pk, uuid);
    match crate::types::block::fees_spec(txs0, c.utxos) {
        Err(e) => Err(e),
        Ok(fee) => if crate::types::block::reward_of(c.blocks.len() as u64) + fee
            > 0xFFFF_FFFF_FFFF_FFFFint {
            Err(BtcError::InvalidTransaction)
        } else {
            let value = (crate::types::block::reward_of(c.blocks.len() as u64) + fee) as u64;
            let txs = txs0.update(0, coinbase_tx(pk, uuid, value));
            Ok(
                BlockV {
                    header: HeaderV {
                        timestamp: now,
                        nonce: 0,
                        prev_block_hash: tip_hash(c),
                        merkle_root: merkle_root_of_txs(txs),
                        target: c.target,
                    },
                    transactions: txs,
                },
            )
        },
    }
}

/// Builds a mining template at time `now` with a fresh coinbase id; see
/// [`template_spec`].
pub fn build_template(bc: &Blockchain, pubkey: PublicKey, uuid: u128, now: u64) -> (r:
    Result<Block, BtcError>)
    requires
        bc.wf(),
    ensures
        match r {
            Ok(b) => template_spec(bc@, pubkey@, uuid, now) == Ok::<BlockV, BtcError>(b@),
            Err(e) => template_spec(bc@, pubkey@, uuid, now) == Err::<BlockV, BtcError>(e),
        },
{
    let ghost c: ChainV = bc@;
    let mut txs: Vec<Transaction> = Vec::new();
    let cb0 = Transaction::new(
        Vec::new(),
        vec![TransactionOutput::new(0, uuid, pubkey.duplicate())],
    );
    proof {
        assert(cb0@.inputs =~= Seq::<InputV>::empty());
        assert(cb0@.outputs =~= seq![OutputV { value: 0u64, unique_id: uuid, pubkey: pubkey@ }]);
        assert(cb0@ == coinbase_tx(pubkey@, uuid, 0));
    }
    txs.push(cb0);
    let cap: usize = if bc.mempool.len() <= crate::BLOCK_TRANSACTION_CAP {
        bc.mempool.len()
    } else {
        crate::BLOCK_TRANSACTION_CAP
    };
    let mut i: usize = 0;
    while i < cap
        invariant
            c == bc@,
            cap <= bc.mempool@.len(),
            cap <= c.mempool.len(),
            i <= cap,
            txs@.len() == i + 1,
            txs@[0]@ == coinbase_tx(pubkey@, uuid, 0),
            forall|j: int| 0 <= j < i ==> txs@[j + 1]@ == c.mempool[j].transaction,
        decreases cap - i,
    {
        let t = bc.mempool[i].transaction.duplicate();
        txs.push(t);
        i = i + 1;
    }
    proof {
        assert(txs@.map_values(|t: Transaction| t@) =~= template_txs(
            c.mempool,
            pubkey@,
            uuid,
        ));
    }
    let prev = if bc.blocks.len() == 0 {
        crate::sha256::Hash::zero()
    } else {
        bc.blocks[bc.blocks.len() - 1].header.hash()
    };
    proof {
        if c.blocks.len() > 0 {
            assert(c.blocks.last() == bc.blocks@[bc.blocks@.len() - 1]@);
        }
    }
    let placeholder = BlockHeader::new(
        now,
        0,
        prev,
        MerkleRoot(crate::sha256::Hash::zero()),
        bc.target(),
    );
    let tmp = Block::new(placeholder, txs);
    let fee: u64 = match tmp.calculate_miner_fees(bc.utxos()) {
        Ok(f) => f,
        Err(e) => {
            return Err(e);
        },
    };
    let reward: u64 = bc.calculate_block_reward();
    if fee > u64::MAX - reward {
        return Err(BtcError::InvalidTransaction);
    }
    let value: u64 = reward + fee;
    let cb = Transaction::new(
        Vec::new(),
        vec![TransactionOutput::new(value, uuid, pubkey)],
    );
    proof {
        assert(cb@.inputs =~= Seq::<InputV>::empty());
        assert(cb@.outputs =~= seq![OutputV { value, unique_id: uuid, pubkey: pubkey@ }]);
        assert(cb@ == coinbase_tx(pubkey@, uuid, value));
    }
    let mut txs2 = tmp.transactions;
    txs2.set(0, cb);
    proof {
        assert(txs2@.map_values(|t: Transaction| t@) =~= template_txs(
            c.mempool,
            pubkey@,
            uuid,
        ).update(0, coinbase_tx(pubkey@, uuid, value)));
    }
    let root = MerkleRoot::calculature(&txs2);
    let header = BlockHeader::new(now, 0, prev, root, bc.target());
    let b = Block::new(header, txs2);
    Ok(b)
}

/// The outputs paying a key, with their reservation marks, in set order.
pub open spec fn utxos_of_key(u: Seq<EntryV>, k: Seq<u8>) -> Seq<(OutputV, bool)>
    decreases u.len(),
{
    if u.len() == 0 {
        Seq::empty()
    } else {
        let rest = utxos_of_key(u.drop_first(), k);
        if u[0].output.pubkey == k {
            seq![(u[0].output, u[0].marked)] + rest
        } else {
            rest
        }
    }
}

pub proof fn lemma_utxos_of_key_snoc(u: Seq<EntryV>, e: EntryV, k: Seq<u8>)
    ensures
        utxos_of_key(u.push(e), k) == if e.output.pubkey == k {
            utxos_of_key(u, k).push((e.output, e.marked))
        } else {
            utxos_of_key(u, k)
        },
    decreases u.len(),
{
    if u.len() == 0 {
        assert(u.push(e).drop_first() =~= Seq::<EntryV>::empty());
        assert(utxos_of_key(Seq::<EntryV>::empty(), k) == Seq::<(OutputV, bool)>::empty());
        if e.output.pubkey == k {
            assert(seq![(e.output, e.marked)] + Seq::<(OutputV, bool)>::empty()
                =~= utxos_of_key(u, k).push((e.output, e.marked)));
        }
    } else {
        lemma_utxos_of_key_snoc(u.drop_first(), e, k);
        assert(u.push(e).drop_first() =~= u.drop_first().push(e));
        assert(u.push(e)[0] == u[0]);
        if e.output.pubkey == k {
            if u[0].output.pubkey == k {
                assert(seq![(u[0].output, u[0].marked)] + utxos_of_key(
                    u.drop_first(),
                    k,
                ).push((e.output, e.marked)) =~= (seq![(u[0].output, u[0].marked)]
                    + utxos_of_key(u.drop_first(), k)).push((e.output, e.marked)));
            }
        }
    }
}

/// Collects the outputs paying a key; mirrors [`utxos_of_key`].
pub fn collect_utxos_for_key(bc: &Blockchain, key: &PublicKey) -> (r: Vec<
    (TransactionOutput, bool),
>)
    ensures
        r@.map_values(|p: (TransactionOutput, bool)| (p.0@, p.1)) == utxos_of_key(
            bc@.utxos,
            key@,
        ),
{
    let mut r: Vec<(TransactionOutput, bool)> = Vec::new();
    let n: usize = bc.utxos.entries.len();
    let mut i: usize = 0;
    proof {
        assert(bc@.utxos.subrange(0, 0) =~= Seq::<EntryV>::empty());
        assert(r@.map_values(|p: (TransactionOutput, bool)| (p.0@, p.1)) =~= Seq::<
            (OutputV, bool),
        >::empty());
    }
    while i < n
        invariant
            n == bc.utxos.entries@.len(),
            i <= n,
            r@.map_values(|p: (TransactionOutput, bool)| (p.0@, p.1)) == utxos_of_key(
                bc@.utxos.subrange(0, i as int),
                key@,
            ),
        decreases n - i,
    {
        proof {
            lemma_utxos_of_key_snoc(
                bc@.utxos.subrange(0, i as int),
                bc@.utxos[i as int],
                key@,
            );
            assert(bc@.utxos.subrange(0, i as int).push(bc@.utxos[i as int])
                =~= bc@.utxos.subrange(0, i + 1));
            assert(bc@.utxos[i as int] == bc.utxos.entries@[i as int]@);
        }
        if crate::crypto::bytes_eq(&bc.utxos.entries[i].output.pubkey.0, &key.0) {
            let pair = (bc.utxos.entries[i].output.duplicate(), bc.utxos.entries[i].marked);
            r.push(pair);
            proof {
                let f = |p: (TransactionOutput, bool)| (p.0@, p.1);
                assert(r@.map_values(f) =~= r@.drop_last().map_values(f).push(
                    (bc@.utxos[i as int].output, bc@.utxos[i as int].marked),
                ));
            }
        }
        i = i + 1;
    }
    proof {
        assert(bc@.utxos.subrange(0, n as int) =~= bc@.utxos);
    }
    r
}

/// The peer to download from during bootstrap: the first peer reporting
/// the largest strictly positive height difference, or none when no peer
/// is ahead.
pub fn best_peer(diffs: &Vec<i32>) -> (r: Option<usize>)
    ensures
        match r {
            Some(i) => i < diffs@.len() && diffs@[i as int] > 0 && (forall|j: int|
                0 <= j < diffs@.len() ==> diffs@[j] <= diffs@[i as int]) && (forall|j: int|
                0 <= j < i ==> diffs@[j] < diffs@[i as int]),
            None => forall|j: int| 0 <= j < diffs@.len() ==> diffs@[j] <= 0,
        },
{
    let n: usize = diffs.len();
    let mut best: Option<usize> = None;
    let mut i: usize = 0;
    while i < n
        invariant
            n == diffs@.len(),
            i <= n,
            match best {
                Some(b) => b < i && diffs@[b as int] > 0 && (forall|j: int|
                    0 <= j < i ==> diffs@[j] <= diffs@[b as int]) && (forall|j: int|
                    0 <= j < b ==> diffs@[j] < diffs@[b as int]),
                None => forall|j: int| 0 <= j < i ==> diffs@[j] <= 0,
            },
        decreases n - i,
    {
        let d: i32 = diffs[i];
        let better: bool = match best {
            Some(b) => d > diffs[b],
            None => d > 0,
        };
        if better {
            best = Some(i);
        }
        i = i + 1;
    }
    best
}

/// A fresh random 128-bit unique id for a coinbase output.
///
/// Relies on `uuid::Uuid::new_v4` and `Uuid::as_u128`.
#[verifier::external_body]
fn new_unique_id() -> (r: u128) {
    uuid::Uuid::new_v4().as_u128()
}

/// The current time in whole seconds since the epoch, clamped at zero.
///
/// Relies on `chrono::Utc::now` and `DateTime::timestamp`. `Utc::now`
/// itself aborts when the system clock is set before 1970; the clamp below
/// is defensive only.
#[verifier::external_body]
fn wall_clock_seconds() -> (r: u64) {
    let t = chrono::Utc::now().timestamp();
    if t < 0 {
        0
    } else {
        t as u64
    }
}

/// Whether `r` is a correct reply to a template request against chain
/// state `c`: a template as [`template_spec`] builds it for some request
/// time and coinbase id, or a closed connection when no template could be
/// built.
pub open spec fn is_template_reply(c: ChainV, k: Seq<u8>, r: ActionV) -> bool {
    exists|now: u64, uuid: u128|
        match #[trigger] template_spec(c, k, uuid, now) {
            Ok(bb) => r == ActionV::Send(MessageV::Template(bb)),
            Err(_) => r == ActionV::CloseConnection,
        }
}

/// Handles a client-submitted transaction: admit, then broadcast.
fn handle_submit_tx(bc: &mut Blockchain, t: Transaction) -> (r: NodeAction)
    requires
        old(bc).wf(),
    ensures
        final(bc).wf(),
        admission_outcome(old(bc)@, final(bc)@, t@),
        if admits(old(bc)@, t@) {
            r@ == ActionV::Broadcast(MessageV::NewTransaction(t@))
        } else {
            r@ == ActionV::CloseConnection
        },
{
    let copy = t.duplicate();
    match bc.add_to_mempool(t) {
        Ok(_) => NodeAction::Broadcast(Message::NewTransaction(copy)),
        Err(_) => NodeAction::CloseConnection,
    }
}

/// Handles a transaction relayed by a peer: admit quietly.
fn handle_new_tx(bc: &mut Blockchain, t: Transaction) -> (r: NodeAction)
    requires
        old(bc).wf(),
    ensures
        final(bc).wf(),
        admission_outcome(old(bc)@, final(bc)@, t@),
        if admits(old(bc)@, t@) {
            r@ == ActionV::Nothing
        } else {
            r@ == ActionV::CloseConnection
        },
{
    match bc.add_to_mempool(t) {
        Ok(_) => NodeAction::Nothing,
        Err(_) => NodeAction::CloseConnection,
    }
}

/// Handles a mined template: append, rebuild the UTXO set, broadcast.
#[verifier::rlimit(60)]
fn handle_submit_template(bc: &mut Blockchain, b: Block) -> (r: NodeAction)
    requires
        old(bc).wf(),
    ensures
        final(bc).wf(),
        if add_block_check(old(bc)@, b@) is Ok {
            final(bc)@.blocks == old(bc)@.blocks.push(b@) && final(bc)@.utxos
                == spec_apply_blocks(old(bc)@.utxos, old(bc)@.blocks.push(b@), 0) && r@
                == ActionV::Broadcast(MessageV::NewBlock(b@))
        } else {
            final(bc)@ == old(bc)@ && r@ == ActionV::CloseConnection
        },
{
    let copy = b.duplicate();
    match bc.add_block(b) {
        Ok(_) => {
            bc.rebuild_utxos();
            NodeAction::Broadcast(Message::NewBlock(copy))
        },
        Err(_) => NodeAction::CloseConnection,
    }
}

/// Handles a block relayed by a peer: append if it fits, never complain.
fn handle_new_block(bc: &mut Blockchain, b: Block) -> (r: NodeAction)
    requires
        old(bc).wf(),
    ensures
        final(bc).wf(),
        r@ == ActionV::Nothing,
        if add_block_check(old(bc)@, b@) is Ok {
            final(bc)@.blocks == old(bc)@.blocks.push(b@) && final(bc)@.utxos == old(
                bc,
            )@.utxos
        } else {
            final(bc)@ == old(bc)@
        },
{
    match bc.add_block(b) {
        Ok(_) => NodeAction::Nothing,
        Err(_) => NodeAction::Nothing,
    }
}

/// One step of the per-connection loop: what the node answers to one
/// message, and how the chain state moves. Read-only requests leave the
/// state alone; submissions run the engine and broadcast what was
/// accepted; an unexpected or rejected message closes the connection, a
/// rejected relayed block is merely ignored.
#[verifier::rlimit(100)]
pub fn respond(bc: &mut Blockchain, msg: Message, peers: &Vec<Vec<u8>>) -> (r: NodeAction)
    requires
        old(bc).wf(),
    ensures
        final(bc).wf(),
        match msg@ {
            MessageV::UTXOs(_) | MessageV::Template(_) | MessageV::Difference(_)
                | MessageV::TemplateValidity(_) | MessageV::NodeList(_) => final(bc)@
                == old(bc)@ && r@ == ActionV::CloseConnection,
            MessageV::FetchBlock(h) => final(bc)@ == old(bc)@ && if (h as int) < old(
                bc,
            )@.blocks.len() {
                r@ == ActionV::Send(MessageV::NewBlock(old(bc)@.blocks[h as int]))
            } else {
                r@ == ActionV::CloseConnection
            },
            MessageV::FetchUTXOs(k) => final(bc)@ == old(bc)@ && r@ == ActionV::Send(
                MessageV::UTXOs(utxos_of_key(old(bc)@.utxos, k)),
            ),
            MessageV::SubmitTransaction(t) => admission_outcome(old(bc)@, final(bc)@, t)
                && if admits(old(bc)@, t) {
                r@ == ActionV::Broadcast(MessageV::NewTransaction(t))
            } else {
                r@ == ActionV::CloseConnection
            },
            MessageV::NewTransaction(t) => admission_outcome(old(bc)@, final(bc)@, t)
                && if admits(old(bc)@, t) {
                r@ == ActionV::Nothing
            } else {
                r@ == ActionV::CloseConnection
            },
            MessageV::FetchTemplate(k) => final(bc)@ == old(bc)@ && is_template_reply(
                old(bc)@,
                k,
                r@,
            ),
            MessageV::ValidateTemplate(b) => final(bc)@ == old(bc)@ && r@ == ActionV::Send(
                MessageV::TemplateValidity(b.header.prev_block_hash == tip_hash(old(bc)@)),
            ),
            MessageV::SubmitTemplate(b) => if add_block_check(old(bc)@, b) is Ok {
                final(bc)@.blocks == old(bc)@.blocks.push(b) && final(bc)@.utxos
                    == spec_apply_blocks(old(bc)@.utxos, old(bc)@.blocks.push(b), 0) && r@
                    == ActionV::Broadcast(MessageV::NewBlock(b))
            } else {
                final(bc)@ == old(bc)@ && r@ == ActionV::CloseConnection
            },
            MessageV::DiscoverNodes => final(bc)@ == old(bc)@ && r@ == ActionV::Send(
                MessageV::NodeList(peers@.map_values(|a: Vec<u8>| a@)),
            ),
            MessageV::AskDifference(h) => final(bc)@ == old(bc)@ && match r@ {
                ActionV::Send(MessageV::Difference(d)) => i32::MIN
                    <= old(bc)@.blocks.len() - h <= i32::MAX ==> d == old(bc)@.blocks.len()
                    - h,
                _ => false,
            },
            MessageV::NewBlock(b) => r@ == ActionV::Nothing && if add_block_check(
                old(bc)@,
                b,
            ) is Ok {
                final(bc)@.blocks == old(bc)@.blocks.push(b) && final(bc)@.utxos == old(
                    bc,
                )@.utxos
            } else {
                final(bc)@ == old(bc)@
            },
        },
{
    let ghost mv: MessageV = msg@;
    match msg {
        Message::UTXOs(_) => {
            return NodeAction::CloseConnection;
        },
        Message::Template(_) => {
            return NodeAction::CloseConnection;
        },
        Message::Difference(_) => {
            return NodeAction::CloseConnection;
        },
        Message::TemplateValidity(_) => {
            return NodeAction::CloseConnection;
        },
        Message::NodeList(_) => {
            return NodeAction::CloseConnection;
        },
        Message::FetchBlock(h) => {
            proof {
                vstd::std_specs::vec::axiom_spec_len(&bc.blocks);
            }
            if h < bc.blocks.len() as u64 {
                let idx: usize = h as usize;
                let b = bc.blocks[idx].duplicate();
                proof {
                    assert(bc@.blocks[h as int] == bc.blocks@[h as int]@);
                }
                return NodeAction::Send(Message::NewBlock(b));
            } else {
                return NodeAction::CloseConnection;
            }
        },
        Message::FetchUTXOs(key) => {
            let found = collect_utxos_for_key(bc, &key);
            return NodeAction::Send(Message::UTXOs(found));
        },
        Message::SubmitTransaction(t) => {
            return handle_submit_tx(bc, t);
        },
        Message::NewTransaction(t) => {
            return handle_new_tx(bc, t);
        },
        Message::FetchTemplate(key) => {
            let now: u64 = wall_clock_seconds();
            let uuid: u128 = new_unique_id();
            let ghost kv: Seq<u8> = key@;
            proof {
                assert(mv == MessageV::FetchTemplate(kv));
                assert(bc@ == old(bc)@);
            }
            match build_template(&*bc, key, uuid, now) {
                Ok(b) => {
                    let a = NodeAction::Send(Message::Template(b));
                    proof {
                        assert(match template_spec(old(bc)@, kv, uuid, now) {
                            Ok(bb) => a@ == ActionV::Send(MessageV::Template(bb)),
                            Err(_) => a@ == ActionV::CloseConnection,
                        });
                        assert(is_template_reply(old(bc)@, kv, a@));
                    }
                    return a;
                },
                Err(_) => {
                    let a = NodeAction::CloseConnection;
                    proof {
                        assert(match template_spec(old(bc)@, kv, uuid, now) {
                            Ok(bb) => a@ == ActionV::Send(MessageV::Template(bb)),
                            Err(_) => a@ == ActionV::CloseConnection,
                        });
                        assert(is_template_reply(old(bc)@, kv, a@));
                    }
                    return a;
                },
            }
        },
        Message::ValidateTemplate(b) => {
            let tip = if bc.blocks.len() == 0 {
                crate::sha256::Hash::zero()
            } else {
                bc.blocks[bc.blocks.len() - 1].header.hash()
            };
            proof {
                if bc@.blocks.len() > 0 {
                    assert(bc@.blocks.last() == bc.blocks@[bc.blocks@.len() - 1]@);
                }
            }
            let fresh = b.header.prev_block_hash.same(&tip);
            return NodeAction::Send(Message::TemplateValidity(fresh));
        },
        Message::SubmitTemplate(b) => {
            return handle_submit_template(bc, b);
        },
        Message::DiscoverNodes => {
            let mut list: Vec<Vec<u8>> = Vec::new();
            let n: usize = peers.len();
            let mut i: usize = 0;
            while i < n
                invariant
                    n == peers@.len(),
                    i <= n,
                    list@.len() == i,
                    forall|j: int| 0 <= j < i ==> (#[trigger] list@[j])@ == peers@[j]@,
                decreases n - i,
            {
                list.push(crate::crypto::copy_bytes(&peers[i]));
                i = i + 1;
            }
            proof {
                assert(list@.map_values(|a: Vec<u8>| a@) =~= peers@.map_values(
                    |a: Vec<u8>| a@,
                ));
            }
            return NodeAction::Send(Message::NodeList(list));
        },
        Message::AskDifference(h) => {
            let height: u64 = bc.block_height();
            let d: i128 = height as i128 - h as i128;
            let c: i32 = #[verifier::truncate] (d as i32);
            return NodeAction::Send(Message::Difference(c));
        },
        Message::NewBlock(b) => {
            return handle_new_block(bc, b);
        },
    }
}

} // verus!
