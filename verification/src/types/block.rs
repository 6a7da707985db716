//! Blocks: a mined header and its transaction list, with the consensus
//! checks that a block must pass before it extends the chain.
use vstd::prelude::*;
use crate::codec::{dec_u64, le_bytes, lemma_dec_enc_u64, lemma_le_bytes_len,
    lemma_pow256_16, lemma_split_subrange, pow256, push_le, read_u64};
use crate::error::BtcError;
use crate::sha256::hash_of_bytes;
use crate::types::block_header::{BlockHeader, HeaderV, dec_header, enc_header};
use crate::types::transaction::{InputV, OutputV, Transaction, TransactionInput,
    TransactionOutput, TxV, dec_tx, enc_tx,
    lemma_dec_enc_tx, lemma_tx_view_wf, tx_wf};
use crate::types::utxo::{EntryV, UtxoSet, lemma_utxo_get_at, utxo_contains, utxo_get};
use crate::crypto::{sig_verify, verify_bytes};

verus! {

/// A block: a header and a non-empty transaction list whose first element
/// is the coinbase.
#[derive(Clone, Debug)]
pub struct Block {
    pub header: BlockHeader,
    pub transactions: Vec<Transaction>,
}

/// The mathematical value of a [`Block`].
pub ghost struct BlockV {
    pub header: HeaderV,
    pub transactions: Seq<TxV>,
}

impl View for Block {
    type V = BlockV;

    open spec fn view(&self) -> BlockV {
        BlockV {
            header: self.header@,
            transactions: self.transactions@.map_values(|t: Transaction| t@),
        }
    }
}

pub open spec fn block_wf(b: BlockV) -> bool {
    &&& b.transactions.len() < pow256(8)
    &&& forall|j: int| 0 <= j < b.transactions.len() ==> tx_wf(
        #[trigger] b.transactions[j],
    )
}

pub open spec fn enc_tx_seq(s: Seq<TxV>) -> Seq<u8>
    decreases s.len(),
{
    if s.len() == 0 {
        Seq::empty()
    } else {
        enc_tx(s[0]) + enc_tx_seq(s.drop_first())
    }
}

/// The canonical encoding of a block: the header, then the counted
/// transaction list.
pub open spec fn enc_block(b: BlockV) -> Seq<u8> {
    enc_header(b.header) + le_bytes(b.transactions.len() as int, 8) + enc_tx_seq(
        b.transactions,
    )
}

/// The content hash of a block.
pub open spec fn block_hash(b: BlockV) -> int {
    hash_of_bytes(enc_block(b))
}

pub open spec fn dec_tx_seq(s: Seq<u8>, pos: int, n: nat) -> Option<(Seq<TxV>, int)>
    decreases n,
{
    if n == 0 {
        Some((Seq::empty(), pos))
    } else {
        match dec_tx(s, pos) {
            Some((v, p)) => match dec_tx_seq(s, p, (n - 1) as nat) {
                Some((vs, p2)) => Some((seq![v] + vs, p2)),
                None => None,
            },
            None => None,
        }
    }
}

pub open spec fn dec_block(s: Seq<u8>, pos: int) -> Option<(BlockV, int)> {
    match dec_header(s, pos) {
        Some((header, p1)) => match dec_u64(s, p1) {
            Some((n, p2)) => match dec_tx_seq(s, p2, n as nat) {
                Some((transactions, p3)) => Some((BlockV { header, transactions }, p3)),
                None => None,
            },
            None => None,
        },
        None => None,
    }
}

pub proof fn lemma_enc_tx_seq_snoc(s: Seq<TxV>, v: TxV)
    ensures
        enc_tx_seq(s.push(v)) == enc_tx_seq(s) + enc_tx(v),
    decreases s.len(),
{
    if s.len() == 0 {
        assert(s.push(v).drop_first() =~= Seq::<TxV>::empty());
        assert(enc_tx_seq(Seq::<TxV>::empty()) == Seq::<u8>::empty());
        assert(enc_tx_seq(s.push(v)) == enc_tx(v) + Seq::<u8>::empty());
        assert(enc_tx(v) + Seq::<u8>::empty() =~= enc_tx_seq(s) + enc_tx(v));
    } else {
        lemma_enc_tx_seq_snoc(s.drop_first(), v);
        assert(s.push(v).drop_first() =~= s.drop_first().push(v));
        assert(s.push(v)[0] == s[0]);
        assert(enc_tx_seq(s.push(v)) == enc_tx(s[0]) + enc_tx_seq(s.drop_first().push(v)));
        assert(enc_tx(s[0]) + (enc_tx_seq(s.drop_first()) + enc_tx(v)) =~= (enc_tx(s[0])
            + enc_tx_seq(s.drop_first())) + enc_tx(v));
    }
}

pub proof fn lemma_dec_enc_tx_seq(vs: Seq<TxV>, s: Seq<u8>, pos: int)
    requires
        forall|j: int| 0 <= j < vs.len() ==> tx_wf(#[trigger] vs[j]),
        0 <= pos,
        pos + enc_tx_seq(vs).len() <= s.len(),
        s.subrange(pos, pos + enc_tx_seq(vs).len()) == enc_tx_seq(vs),
    ensures
        dec_tx_seq(s, pos, vs.len()) == Some((vs, pos + enc_tx_seq(vs).len())),
    decreases vs.len(),
{
    if vs.len() == 0 {
        assert(dec_tx_seq(s, pos, 0) == Some((Seq::<TxV>::empty(), pos)));
        assert(vs =~= Seq::<TxV>::empty());
    } else {
        let a = enc_tx(vs[0]);
        let b = enc_tx_seq(vs.drop_first());
        assert(enc_tx_seq(vs) == a + b);
        lemma_split_subrange(s, pos, a, b);
        lemma_dec_enc_tx(vs[0], s, pos);
        lemma_dec_enc_tx_seq(vs.drop_first(), s, pos + a.len());
        assert(seq![vs[0]] + vs.drop_first() =~= vs);
    }
}

/// Round trip: decoding the canonical encoding of a block recovers exactly
/// the block.
pub proof fn lemma_dec_enc_block(b: BlockV, s: Seq<u8>, pos: int)
    requires
        block_wf(b),
        crate::types::block_header::header_wf(b.header),
        0 <= pos,
        pos + enc_block(b).len() <= s.len(),
        s.subrange(pos, pos + enc_block(b).len()) == enc_block(b),
    ensures
        dec_block(s, pos) == Some((b, pos + enc_block(b).len())),
{
    let a = enc_header(b.header);
    let c = le_bytes(b.transactions.len() as int, 8);
    let d = enc_tx_seq(b.transactions);
    lemma_le_bytes_len(b.header.timestamp as int, 8);
    lemma_le_bytes_len(b.header.nonce as int, 8);
    lemma_le_bytes_len(b.header.prev_block_hash, 32);
    lemma_le_bytes_len(b.header.merkle_root, 32);
    lemma_le_bytes_len(b.header.target, 32);
    lemma_le_bytes_len(b.transactions.len() as int, 8);
    assert(a.len() == 112);
    assert(enc_block(b) =~= a + (c + d));
    lemma_split_subrange(s, pos, a, c + d);
    lemma_split_subrange(s, pos + a.len(), c, d);
    crate::types::block_header::lemma_dec_enc_header(b.header, s, pos);
    assert((b.transactions.len() as u64) as nat == b.transactions.len()) by {
        lemma_pow256_16();
    }
    lemma_dec_enc_u64(b.transactions.len() as u64, s, pos + a.len());
    lemma_dec_enc_tx_seq(b.transactions, s, pos + a.len() + 8);
}

/// Every view that comes from an executable block is well formed.
pub proof fn lemma_block_view_wf(b: &Block)
    ensures
        block_wf(b@),
        crate::types::block_header::header_wf(b@.header),
{
    lemma_pow256_16();
    vstd::std_specs::vec::axiom_spec_len(&b.transactions);
    assert forall|j: int| 0 <= j < b@.transactions.len() implies tx_wf(
        #[trigger] b@.transactions[j],
    ) by {
        assert(b@.transactions[j] == b.transactions@[j]@);
        lemma_tx_view_wf(&b.transactions@[j]);
    }
    b.header.prev_block_hash.0.lemma_val_bounds();
    b.header.merkle_root.0.0.lemma_val_bounds();
    b.header.target.lemma_val_bounds();
}

impl Block {
    pub fn new(header: BlockHeader, transactions: Vec<Transaction>) -> (r: Block)
        ensures
            r@ == (BlockV {
                header: header@,
                transactions: transactions@.map_values(|t: Transaction| t@),
            }),
    {
        Block { header, transactions }
    }

    /// A copy with the same value.
    pub fn duplicate(&self) -> (r: Block)
        ensures
            r@ == self@,
    {
        let mut transactions: Vec<Transaction> = Vec::new();
        let mut i: usize = 0;
        while i < self.transactions.len()
            invariant
                i <= self.transactions@.len(),
                transactions@.len() == i,
                forall|j: int| 0 <= j < i ==> transactions@[j]@ == self.transactions@[j]@,
            decreases self.transactions@.len() - i,
        {
            transactions.push(self.transactions[i].duplicate());
            i = i + 1;
        }
        let r = Block { header: self.header, transactions };
        proof {
            assert(r@.transactions =~= self@.transactions);
        }
        r
    }

    /// Appends the canonical encoding of this block.
    pub fn encode_to(&self, out: &mut Vec<u8>)
        ensures
            final(out)@ == old(out)@ + enc_block(self@),
    {
        let ghost pre: Seq<u8> = out@;
        self.header.encode_to(out);
        proof {
            lemma_pow256_16();
        }
        push_le(out, self.transactions.len() as u128, 8);
        let ghost mid: Seq<u8> = out@;
        let mut i: usize = 0;
        while i < self.transactions.len()
            invariant
                i <= self.transactions@.len(),
                out@ == mid + enc_tx_seq(self@.transactions.subrange(0, i as int)),
            decreases self.transactions@.len() - i,
        {
            self.transactions[i].encode_to(out);
            proof {
                lemma_enc_tx_seq_snoc(
                    self@.transactions.subrange(0, i as int),
                    self@.transactions[i as int],
                );
                assert(self@.transactions.subrange(0, i as int).push(
                    self@.transactions[i as int],
                ) =~= self@.transactions.subrange(0, i + 1));
            }
            i = i + 1;
        }
        proof {
            assert(self@.transactions.subrange(0, self.transactions@.len() as int)
                =~= self@.transactions);
            assert(out@ =~= pre + enc_block(self@));
        }
    }

    /// The canonical encoding of this block.
    pub fn encode(&self) -> (r: Vec<u8>)
        ensures
            r@ == enc_block(self@),
    {
        let mut out: Vec<u8> = Vec::new();
        self.encode_to(&mut out);
        proof {
            assert(out@ =~= enc_block(self@));
        }
        out
    }

    /// The content hash of this block.
    pub fn hash(&self) -> (r: crate::sha256::Hash)
        ensures
            r@ == block_hash(self@),
    {
        let bytes = self.encode();
        crate::sha256::Hash::of_bytes(&bytes)
    }
}

/// Reads a block; mirrors [`dec_block`].
pub fn read_block(bytes: &Vec<u8>, pos: usize) -> (r: Option<(Block, usize)>)
    ensures
        match r {
            Some((v, p)) => dec_block(bytes@, pos as int) == Some((v@, p as int)),
            None => dec_block(bytes@, pos as int) is None,
        },
{
    let (header, p1) = match crate::types::block_header::read_header(bytes, pos) {
        Some(x) => x,
        None => {
            return None;
        },
    };
    let (n, p2) = match read_u64(bytes, p1) {
        Some(x) => x,
        None => {
            return None;
        },
    };
    let (transactions, p3) = match read_tx_seq(bytes, p2, n) {
        Some(x) => x,
        None => {
            return None;
        },
    };
    Some((Block { header, transactions }, p3))
}

/// Reads `n` transactions; mirrors [`dec_tx_seq`].
pub fn read_tx_seq(bytes: &Vec<u8>, pos: usize, n: u64) -> (r: Option<
    (Vec<Transaction>, usize),
>)
    ensures
        match r {
            Some((v, p)) => dec_tx_seq(bytes@, pos as int, n as nat) == Some(
                (v@.map_values(|t: Transaction| t@), p as int),
            ),
            None => dec_tx_seq(bytes@, pos as int, n as nat) is None,
        },
    decreases n,
{
    if n == 0 {
        let r: Vec<Transaction> = Vec::new();
        proof {
            assert(r@.map_values(|t: Transaction| t@) =~= Seq::<TxV>::empty());
        }
        return Some((r, pos));
    }
    let (v, p) = match crate::types::transaction::read_tx(bytes, pos) {
        Some(x) => x,
        None => {
            return None;
        },
    };
    let (mut vs, p2) = match read_tx_seq(bytes, p, n - 1) {
        Some(x) => x,
        None => {
            return None;
        },
    };
    vs.insert(0, v);
    proof {
        let m = |t: Transaction| t@;
        assert(vs@.map_values(m) =~= seq![v@] + vs@.drop_first().map_values(m));
    }
    Some((vs, p2))
}

/// `2^n`.
pub open spec fn pow2_spec(n: nat) -> int
    decreases n,
{
    if n == 0 {
        1
    } else {
        2 * pow2_spec((n - 1) as nat)
    }
}

pub proof fn lemma_pow2_pos(n: nat)
    ensures
        pow2_spec(n) >= 1,
    decreases n,
{
    if n > 0 {
        lemma_pow2_pos((n - 1) as nat);
    }
}

pub proof fn lemma_pow2_increases(a: nat, b: nat)
    requires
        a <= b,
    ensures
        pow2_spec(a) <= pow2_spec(b),
    decreases b,
{
    if a < b && b > 0 {
        lemma_pow2_increases(a, (b - 1) as nat);
        lemma_pow2_pos((b - 1) as nat);
    }
}

/// The block reward at a given height, in satoshis: the initial reward,
/// halved once per halving interval, rounding down.
pub open spec fn reward_of(height: u64) -> int {
    5_000_000_000int / pow2_spec((height / crate::HALVING_INTERVAL) as nat)
}

/// The block reward at a given height.
pub fn block_reward(height: u64) -> (r: u64)
    ensures
        r as int == reward_of(height),
{
    let e: u64 = height / crate::HALVING_INTERVAL;
    if e >= 33 {
        proof {
            reveal_with_fuel(pow2_spec, 34);
            assert(pow2_spec(33) == 0x2_0000_0000);
            lemma_pow2_increases(33, e as nat);
            assert(5_000_000_000int / pow2_spec(e as nat) == 0) by (nonlinear_arith)
                requires
                    pow2_spec(e as nat) > 5_000_000_000,
            ;
        }
        0
    } else {
        let mut r: u64 = crate::INITIAL_REWARD * 100_000_000;
        let mut i: u64 = 0;
        proof {
            assert(pow2_spec(0) == 1);
        }
        while i < e
            invariant
                i <= e,
                e < 33,
                r as int == 5_000_000_000int / pow2_spec(i as nat),
                r <= 5_000_000_000,
            decreases e - i,
        {
            proof {
                lemma_pow2_pos(i as nat);
                vstd::arithmetic::div_mod::lemma_div_denominator(
                    5_000_000_000int,
                    pow2_spec(i as nat),
                    2,
                );
                assert(pow2_spec((i + 1) as nat) == pow2_spec(i as nat) * 2)
                    by (nonlinear_arith)
                    requires
                        pow2_spec((i + 1) as nat) == 2 * pow2_spec(i as nat),
                ;
            }
            r = r / 2;
            i = i + 1;
        }
        r
    }
}

/// Whether a hash value occurs in a list.
pub open spec fn seen_has(s: Seq<int>, h: int) -> bool {
    exists|i: int| 0 <= i < s.len() && s[i] == h
}

/// Whether an input's signature verifies over the referenced output
/// hash's big-endian bytes under the referenced output's key.
pub open spec fn input_sig_ok(inp: InputV, utxos: Seq<EntryV>) -> bool {
    sig_verify(
        inp.signature,
        crate::codec::be_bytes(inp.prev_tx_output_hash, 32),
        utxo_get(utxos, inp.prev_tx_output_hash).output.pubkey,
    )
}

/// Scans a transaction's inputs from `idx` on: each must reference a known
/// UTXO not seen before in this block, under a valid signature. Returns the
/// extended seen list and the summed input value, or the first error.
pub open spec fn check_inputs_spec(
    ins: Seq<InputV>,
    utxos: Seq<EntryV>,
    seen: Seq<int>,
    idx: int,
) -> Result<(Seq<int>, int), BtcError>
    decreases ins.len() - idx,
{
    if idx < 0 || idx >= ins.len() {
        Ok((seen, 0))
    } else {
        let inp = ins[idx];
        if !utxo_contains(utxos, inp.prev_tx_output_hash) {
            Err(BtcError::InvalidTransaction)
        } else if seen_has(seen, inp.prev_tx_output_hash) {
            Err(BtcError::InvalidTransaction)
        } else if !input_sig_ok(inp, utxos) {
            Err(BtcError::InvalidSignature)
        } else {
            match check_inputs_spec(ins, utxos, seen.push(inp.prev_tx_output_hash), idx
                + 1) {
                Ok((s2, rest)) => if utxo_get(utxos, inp.prev_tx_output_hash).output.value
                    + rest > 0xFFFF_FFFF_FFFF_FFFFint {
                    Err(BtcError::InvalidTransaction)
                } else {
                    Ok((s2, utxo_get(utxos, inp.prev_tx_output_hash).output.value + rest))
                },
                Err(e) => Err(e),
            }
        }
    }
}

/// The summed value of a transaction's outputs from `idx` on.
pub open spec fn sum_outputs_from(outs: Seq<OutputV>, idx: int) -> int
    decreases outs.len() - idx,
{
    if idx < 0 || idx >= outs.len() {
        0
    } else {
        outs[idx].value + sum_outputs_from(outs, idx + 1)
    }
}

/// Scans the non-coinbase transactions from `idx` on: inputs checked by
/// [`check_inputs_spec`], and no transaction may spend more than it takes
/// in.
pub open spec fn check_txs_spec(
    txs: Seq<TxV>,
    utxos: Seq<EntryV>,
    seen: Seq<int>,
    idx: int,
) -> Result<Seq<int>, BtcError>
    decreases txs.len() - idx,
{
    if idx < 0 || idx >= txs.len() {
        Ok(seen)
    } else {
        match check_inputs_spec(txs[idx].inputs, utxos, seen, 0) {
            Ok((seen2, in_sum)) => if sum_outputs_from(txs[idx].outputs, 0)
                > 0xFFFF_FFFF_FFFF_FFFFint {
                Err(BtcError::InvalidTransaction)
            } else if in_sum < sum_outputs_from(txs[idx].outputs, 0) {
                Err(BtcError::InvalidTransaction)
            } else {
                check_txs_spec(txs, utxos, seen2, idx + 1)
            },
            Err(e) => Err(e),
        }
    }
}

/// Scans a transaction's inputs for the fee calculation: each must
/// reference a known UTXO not referenced before in this block.
pub open spec fn fee_inputs_spec(
    ins: Seq<InputV>,
    utxos: Seq<EntryV>,
    seen: Seq<int>,
    idx: int,
) -> Result<(Seq<int>, int), BtcError>
    decreases ins.len() - idx,
{
    if idx < 0 || idx >= ins.len() {
        Ok((seen, 0))
    } else {
        let inp = ins[idx];
        if !utxo_contains(utxos, inp.prev_tx_output_hash) {
            Err(BtcError::InvalidTransaction)
        } else if seen_has(seen, inp.prev_tx_output_hash) {
            Err(BtcError::InvalidTransaction)
        } else {
            match fee_inputs_spec(ins, utxos, seen.push(inp.prev_tx_output_hash), idx + 1) {
                Ok((s2, rest)) => if utxo_get(utxos, inp.prev_tx_output_hash).output.value
                    + rest > 0xFFFF_FFFF_FFFF_FFFFint {
                    Err(BtcError::InvalidTransaction)
                } else {
                    Ok((s2, utxo_get(utxos, inp.prev_tx_output_hash).output.value + rest))
                },
                Err(e) => Err(e),
            }
        }
    }
}

/// Scans a transaction's outputs for the fee calculation: no two outputs in
/// the block may share a hash.
pub open spec fn fee_outputs_spec(outs: Seq<OutputV>, seen: Seq<int>, idx: int) -> Result<
    (Seq<int>, int),
    BtcError,
>
    decreases outs.len() - idx,
{
    if idx < 0 || idx >= outs.len() {
        Ok((seen, 0))
    } else {
        let oh = crate::types::transaction::output_hash(outs[idx]);
        if seen_has(seen, oh) {
            Err(BtcError::InvalidTransaction)
        } else {
            match fee_outputs_spec(outs, seen.push(oh), idx + 1) {
                Ok((s2, rest)) => if outs[idx].value + rest > 0xFFFF_FFFF_FFFF_FFFFint {
                    Err(BtcError::InvalidTransaction)
                } else {
                    Ok((s2, outs[idx].value + rest))
                },
                Err(e) => Err(e),
            }
        }
    }
}

/// Scans the non-coinbase transactions for the fee calculation, summing all
/// input values and all output values.
pub open spec fn fee_txs_spec(
    txs: Seq<TxV>,
    utxos: Seq<EntryV>,
    seen_in: Seq<int>,
    seen_out: Seq<int>,
    idx: int,
) -> Result<(Seq<int>, Seq<int>, int, int), BtcError>
    decreases txs.len() - idx,
{
    if idx < 0 || idx >= txs.len() {
        Ok((seen_in, seen_out, 0, 0))
    } else {
        match fee_inputs_spec(txs[idx].inputs, utxos, seen_in, 0) {
            Ok((si, isum)) => match fee_outputs_spec(txs[idx].outputs, seen_out, 0) {
                Ok((so, osum)) => match fee_txs_spec(txs, utxos, si, so, idx + 1) {
                    Ok((si2, so2, is2, os2)) => if isum + is2 > 0xFFFF_FFFF_FFFF_FFFFint
                        || osum + os2 > 0xFFFF_FFFF_FFFF_FFFFint {
                        Err(BtcError::InvalidTransaction)
                    } else {
                        Ok((si2, so2, isum + is2, osum + os2))
                    },
                    Err(e) => Err(e),
                },
                Err(e) => Err(e),
            },
            Err(e) => Err(e),
        }
    }
}

/// The miner fee collected by a block: summed inputs minus summed outputs
/// over the non-coinbase transactions. An unknown or doubly referenced
/// input, a repeated output hash, a negative fee, or a fee beyond the
/// 64-bit range is a coinbase miscalculation.
pub open spec fn fees_spec(txs: Seq<TxV>, utxos: Seq<EntryV>) -> Result<u64, BtcError> {
    match fee_txs_spec(txs, utxos, Seq::empty(), Seq::empty(), 1) {
        Ok((si, so, in_sum, out_sum)) => if in_sum < out_sum {
            Err(BtcError::InvalidTransaction)
        } else {
            Ok((in_sum - out_sum) as u64)
        },
        Err(e) => Err(e),
    }
}

/// The coinbase rule: the first transaction has no inputs, at least one
/// output, and its outputs sum exactly to the block reward plus the miner
/// fees.
pub open spec fn verify_coinbase_spec(b: BlockV, height: u64, utxos: Seq<EntryV>)
    -> Result<(), BtcError> {
    let cb = b.transactions[0];
    if cb.inputs.len() != 0 {
        Err(BtcError::InvalidTransaction)
    } else if cb.outputs.len() == 0 {
        Err(BtcError::InvalidTransaction)
    } else {
        match fees_spec(b.transactions, utxos) {
            Ok(fee) => if sum_outputs_from(cb.outputs, 0) == reward_of(height)
                + fee {
                Ok(())
            } else {
                Err(BtcError::InvalidTransaction)
            },
            Err(e) => Err(e),
        }
    }
}

/// The whole transaction check of a block: a non-empty list, a correct
/// coinbase, and every later transaction spending known, unspent, once-used
/// inputs under valid signatures without creating value.
pub open spec fn verify_transactions_spec(b: BlockV, height: u64, utxos: Seq<EntryV>)
    -> Result<(), BtcError> {
    if b.transactions.len() == 0 {
        Err(BtcError::InvalidTransaction)
    } else {
        match verify_coinbase_spec(b, height, utxos) {
            Ok(u) => match check_txs_spec(b.transactions, utxos, Seq::empty(), 1) {
                Ok(s) => Ok(()),
                Err(e) => Err(e),
            },
            Err(e) => Err(e),
        }
    }
}

/// The ghost values of a list of hashes.
pub open spec fn hashes_view(s: Seq<crate::sha256::Hash>) -> Seq<int> {
    s.map_values(|x: crate::sha256::Hash| x@)
}

/// Whether `h` occurs in `seen`; mirrors [`seen_has`].
fn seen_vec_contains(seen: &Vec<crate::sha256::Hash>, h: &crate::sha256::Hash) -> (r: bool)
    ensures
        r == seen_has(hashes_view(seen@), h@),
{
    let n: usize = seen.len();
    let mut i: usize = 0;
    while i < n
        invariant
            n == seen@.len(),
            i <= n,
            forall|j: int| 0 <= j < i ==> hashes_view(seen@)[j] != h@,
        decreases n - i,
    {
        if seen[i].same(h) {
            proof {
                assert(hashes_view(seen@)[i as int] == h@);
            }
            return true;
        }
        i = i + 1;
    }
    false
}

/// Scans inputs against the UTXO set; mirrors [`check_inputs_spec`].
fn check_inputs(
    ins: &Vec<TransactionInput>,
    utxos: &UtxoSet,
    seen: Vec<crate::sha256::Hash>,
    idx: usize,
) -> (r: Result<(Vec<crate::sha256::Hash>, u128), BtcError>)
    requires
        utxos.wf(),
        idx <= ins@.len(),
    ensures
        match r {
            Ok((s, sum)) => check_inputs_spec(
                ins@.map_values(|x: TransactionInput| x@),
                utxos@,
                hashes_view(seen@),
                idx as int,
            ) == Ok::<_, BtcError>((hashes_view(s@), sum as int)) && sum
                <= 0xFFFF_FFFF_FFFF_FFFFu128,
            Err(e) => check_inputs_spec(
                ins@.map_values(|x: TransactionInput| x@),
                utxos@,
                hashes_view(seen@),
                idx as int,
            ) == Err::<(Seq<int>, int), _>(e),
        },
    decreases ins@.len() - idx,
{
    let ghost iv = ins@.map_values(|x: TransactionInput| x@);
    if idx == ins.len() {
        return Ok((seen, 0));
    }
    let h = ins[idx].prev_tx_output_hash;
    let found = match utxos.find(&h) {
        Some(i) => i,
        None => {
            return Err(BtcError::InvalidTransaction);
        },
    };
    proof {
        assert(utxo_contains(utxos@, h@));
        lemma_utxo_get_at(utxos@, found as int);
    }
    if seen_vec_contains(&seen, &h) {
        return Err(BtcError::InvalidTransaction);
    }
    let msg = h.as_bytes();
    let entry_value: u64 = utxos.entries[found].output.value;
    let ok = verify_bytes(&ins[idx].signature, &msg, &utxos.entries[found].output.pubkey);
    proof {
        assert(utxos@[found as int] == utxos.entries@[found as int]@);
        assert(utxo_get(utxos@, h@) == utxos@[found as int]);
    }
    if !ok {
        return Err(BtcError::InvalidSignature);
    }
    let ghost pre_seen: Seq<int> = hashes_view(seen@);
    let mut seen2 = seen;
    seen2.push(h);
    proof {
        assert(hashes_view(seen2@) =~= pre_seen.push(h@));
    }
    match check_inputs(ins, utxos, seen2, idx + 1) {
        Ok((s, rest)) => {
            let total: u128 = entry_value as u128 + rest;
            if total > 0xFFFF_FFFF_FFFF_FFFFu128 {
                Err(BtcError::InvalidTransaction)
            } else {
                Ok((s, total))
            }
        },
        Err(e) => Err(e),
    }
}

/// Sums a transaction's outputs; mirrors [`sum_outputs_from`].
pub fn sum_outputs(outs: &Vec<TransactionOutput>, idx: usize) -> (r: u128)
    requires
        idx <= outs@.len(),
        outs@.len() < 0x1_0000_0000_0000_0000,
    ensures
        r as int == sum_outputs_from(outs@.map_values(|x: TransactionOutput| x@), idx as int),
        r as int <= (outs@.len() - idx) * 0xFFFF_FFFF_FFFF_FFFFint,
    decreases outs@.len() - idx,
{
    let ghost ov = outs@.map_values(|x: TransactionOutput| x@);
    if idx == outs.len() {
        return 0;
    }
    let v: u64 = outs[idx].value;
    let rest: u128 = sum_outputs(outs, idx + 1);
    proof {
        assert((v as int) + rest <= (ov.len() - idx) * 0xFFFF_FFFF_FFFF_FFFFint && (
        ov.len() - idx) * 0xFFFF_FFFF_FFFF_FFFFint
            < 0x1_0000_0000_0000_0000_0000_0000_0000_0000int) by (nonlinear_arith)
            requires
                rest <= (ov.len() - idx - 1) * 0xFFFF_FFFF_FFFF_FFFFint,
                v <= 0xFFFF_FFFF_FFFF_FFFFu64,
                0 <= idx < ov.len(),
                ov.len() < 0x1_0000_0000_0000_0000int,
        ;
    }
    v as u128 + rest
}

/// Scans the non-coinbase transactions; mirrors [`check_txs_spec`].
fn check_txs(
    txs: &Vec<Transaction>,
    utxos: &UtxoSet,
    seen: Vec<crate::sha256::Hash>,
    idx: usize,
) -> (r: Result<Vec<crate::sha256::Hash>, BtcError>)
    requires
        utxos.wf(),
        idx <= txs@.len(),
    ensures
        match r {
            Ok(s) => check_txs_spec(
                txs@.map_values(|x: Transaction| x@),
                utxos@,
                hashes_view(seen@),
                idx as int,
            ) == Ok::<_, BtcError>(hashes_view(s@)),
            Err(e) => check_txs_spec(
                txs@.map_values(|x: Transaction| x@),
                utxos@,
                hashes_view(seen@),
                idx as int,
            ) == Err::<Seq<int>, _>(e),
        },
    decreases txs@.len() - idx,
{
    if idx == txs.len() {
        return Ok(seen);
    }
    proof {
        vstd::std_specs::vec::axiom_spec_len(&txs[idx as int].outputs);
    }
    let (seen2, in_sum) = match check_inputs(&txs[idx].inputs, utxos, seen, 0) {
        Ok(x) => x,
        Err(e) => {
            return Err(e);
        },
    };
    let out_sum: u128 = sum_outputs(&txs[idx].outputs, 0);
    if in_sum < out_sum {
        return Err(BtcError::InvalidTransaction);
    }
    check_txs(txs, utxos, seen2, idx + 1)
}

/// Scans inputs for the fee calculation; mirrors [`fee_inputs_spec`].
fn fee_inputs(
    ins: &Vec<TransactionInput>,
    utxos: &UtxoSet,
    seen: Vec<crate::sha256::Hash>,
    idx: usize,
) -> (r: Result<(Vec<crate::sha256::Hash>, u128), BtcError>)
    requires
        utxos.wf(),
        idx <= ins@.len(),
    ensures
        match r {
            Ok((s, sum)) => fee_inputs_spec(
                ins@.map_values(|x: TransactionInput| x@),
                utxos@,
                hashes_view(seen@),
                idx as int,
            ) == Ok::<_, BtcError>((hashes_view(s@), sum as int)) && sum
                <= 0xFFFF_FFFF_FFFF_FFFFu128,
            Err(e) => fee_inputs_spec(
                ins@.map_values(|x: TransactionInput| x@),
                utxos@,
                hashes_view(seen@),
                idx as int,
            ) == Err::<(Seq<int>, int), _>(e),
        },
    decreases ins@.len() - idx,
{
    let ghost iv = ins@.map_values(|x: TransactionInput| x@);
    if idx == ins.len() {
        return Ok((seen, 0));
    }
    let h = ins[idx].prev_tx_output_hash;
    let found = match utxos.find(&h) {
        Some(i) => i,
        None => {
            return Err(BtcError::InvalidTransaction);
        },
    };
    proof {
        assert(utxo_contains(utxos@, h@));
        lemma_utxo_get_at(utxos@, found as int);
        assert(utxos@[found as int] == utxos.entries@[found as int]@);
        assert(utxo_get(utxos@, h@) == utxos@[found as int]);
    }
    if seen_vec_contains(&seen, &h) {
        return Err(BtcError::InvalidTransaction);
    }
    let entry_value: u64 = utxos.entries[found].output.value;
    let ghost pre_seen: Seq<int> = hashes_view(seen@);
    let mut seen2 = seen;
    seen2.push(h);
    proof {
        assert(hashes_view(seen2@) =~= pre_seen.push(h@));
    }
    match fee_inputs(ins, utxos, seen2, idx + 1) {
        Ok((s, rest)) => {
            let total: u128 = entry_value as u128 + rest;
            if total > 0xFFFF_FFFF_FFFF_FFFFu128 {
                Err(BtcError::InvalidTransaction)
            } else {
                Ok((s, total))
            }
        },
        Err(e) => Err(e),
    }
}

/// Scans outputs for the fee calculation; mirrors [`fee_outputs_spec`].
fn fee_outputs(
    outs: &Vec<TransactionOutput>,
    seen: Vec<crate::sha256::Hash>,
    idx: usize,
) -> (r: Result<(Vec<crate::sha256::Hash>, u128), BtcError>)
    requires
        idx <= outs@.len(),
    ensures
        match r {
            Ok((s, sum)) => fee_outputs_spec(
                outs@.map_values(|x: TransactionOutput| x@),
                hashes_view(seen@),
                idx as int,
            ) == Ok::<_, BtcError>((hashes_view(s@), sum as int)) && sum
                <= 0xFFFF_FFFF_FFFF_FFFFu128,
            Err(e) => fee_outputs_spec(
                outs@.map_values(|x: TransactionOutput| x@),
                hashes_view(seen@),
                idx as int,
            ) == Err::<(Seq<int>, int), _>(e),
        },
    decreases outs@.len() - idx,
{
    let ghost ov = outs@.map_values(|x: TransactionOutput| x@);
    if idx == outs.len() {
        return Ok((seen, 0));
    }
    let oh = outs[idx].hash();
    if seen_vec_contains(&seen, &oh) {
        return Err(BtcError::InvalidTransaction);
    }
    let v: u64 = outs[idx].value;
    let ghost pre_seen: Seq<int> = hashes_view(seen@);
    let mut seen2 = seen;
    seen2.push(oh);
    proof {
        assert(hashes_view(seen2@) =~= pre_seen.push(oh@));
    }
    match fee_outputs(outs, seen2, idx + 1) {
        Ok((s, rest)) => {
            let total: u128 = v as u128 + rest;
            if total > 0xFFFF_FFFF_FFFF_FFFFu128 {
                Err(BtcError::InvalidTransaction)
            } else {
                Ok((s, total))
            }
        },
        Err(e) => Err(e),
    }
}

/// Scans transactions for the fee calculation; mirrors [`fee_txs_spec`].
fn fee_txs(
    txs: &Vec<Transaction>,
    utxos: &UtxoSet,
    seen_in: Vec<crate::sha256::Hash>,
    seen_out: Vec<crate::sha256::Hash>,
    idx: usize,
) -> (r: Result<(Vec<crate::sha256::Hash>, Vec<crate::sha256::Hash>, u128, u128), BtcError>)
    requires
        utxos.wf(),
        idx <= txs@.len(),
    ensures
        match r {
            Ok((si, so, isum, osum)) => fee_txs_spec(
                txs@.map_values(|x: Transaction| x@),
                utxos@,
                hashes_view(seen_in@),
                hashes_view(seen_out@),
                idx as int,
            ) == Ok::<_, BtcError>(
                (hashes_view(si@), hashes_view(so@), isum as int, osum as int),
            ) && isum <= 0xFFFF_FFFF_FFFF_FFFFu128 && osum <= 0xFFFF_FFFF_FFFF_FFFFu128,
            Err(e) => fee_txs_spec(
                txs@.map_values(|x: Transaction| x@),
                utxos@,
                hashes_view(seen_in@),
                hashes_view(seen_out@),
                idx as int,
            ) == Err::<(Seq<int>, Seq<int>, int, int), _>(e),
        },
    decreases txs@.len() - idx,
{
    if idx == txs.len() {
        return Ok((seen_in, seen_out, 0, 0));
    }
    let (si, isum) = match fee_inputs(&txs[idx].inputs, utxos, seen_in, 0) {
        Ok(x) => x,
        Err(e) => {
            return Err(e);
        },
    };
    let (so, osum) = match fee_outputs(&txs[idx].outputs, seen_out, 0) {
        Ok(x) => x,
        Err(e) => {
            return Err(e);
        },
    };
    match fee_txs(txs, utxos, si, so, idx + 1) {
        Ok((si2, so2, is2, os2)) => {
            let ti: u128 = isum + is2;
            let to: u128 = osum + os2;
            if ti > 0xFFFF_FFFF_FFFF_FFFFu128 || to > 0xFFFF_FFFF_FFFF_FFFFu128 {
                Err(BtcError::InvalidTransaction)
            } else {
                Ok((si2, so2, ti, to))
            }
        },
        Err(e) => Err(e),
    }
}

impl Block {
    /// The miner fees this block collects: summed inputs minus summed
    /// outputs over the non-coinbase transactions. Rejects an unknown or
    /// doubly referenced input, a repeated output hash, and a negative or
    /// out-of-range fee.
    pub fn calculate_miner_fees(&self, utxos: &UtxoSet) -> (r: Result<u64, BtcError>)
        requires
            utxos.wf(),
        ensures
            r == fees_spec(self@.transactions, utxos@),
    {
        proof {
            vstd::std_specs::vec::axiom_spec_len(&self.transactions);
            assert(hashes_view(Seq::<crate::sha256::Hash>::empty()) =~= Seq::<int>::empty());
            lemma_block_view_wf(self);
        }
        if self.transactions.len() == 0 {
            return Ok(0);
        }
        let e0: Vec<crate::sha256::Hash> = Vec::new();
        let e1: Vec<crate::sha256::Hash> = Vec::new();
        let (si, so, isum, osum) = match fee_txs(&self.transactions, utxos, e0, e1, 1) {
            Ok(x) => x,
            Err(e) => {
                return Err(e);
            },
        };
        if isum < osum {
            return Err(BtcError::InvalidTransaction);
        }
        let fee: u128 = isum - osum;
        if fee > 0xFFFF_FFFF_FFFF_FFFFu128 {
            return Err(BtcError::InvalidTransaction);
        }
        Ok(fee as u64)
    }

    /// The coinbase rule: no inputs, at least one output, and the outputs
    /// sum exactly to the block reward at `predicted_block_height` plus the
    /// miner fees.
    pub fn verify_coinbase_transaction(
        &self,
        predicted_block_height: u64,
        utxos: &UtxoSet,
    ) -> (r: Result<(), BtcError>)
        requires
            utxos.wf(),
            self@.transactions.len() > 0,
        ensures
            r == verify_coinbase_spec(self@, predicted_block_height, utxos@),
    {
        if self.transactions[0].inputs.len() != 0 {
            return Err(BtcError::InvalidTransaction);
        }
        if self.transactions[0].outputs.len() == 0 {
            return Err(BtcError::InvalidTransaction);
        }
        let fee = match self.calculate_miner_fees(utxos) {
            Ok(f) => f,
            Err(e) => {
                return Err(e);
            },
        };
        let reward: u64 = block_reward(predicted_block_height);
        proof {
            vstd::std_specs::vec::axiom_spec_len(&self.transactions[0].outputs);
        }
        let total: u128 = sum_outputs(&self.transactions[0].outputs, 0);
        if total == reward as u128 + fee as u128 {
            Ok(())
        } else {
            Err(BtcError::InvalidTransaction)
        }
    }

    /// The whole transaction check of this block against the UTXO set: see
    /// [`verify_transactions_spec`].
    pub fn verify_transactions(
        &self,
        predicted_block_height: u64,
        utxos: &UtxoSet,
    ) -> (r: Result<(), BtcError>)
        requires
            utxos.wf(),
        ensures
            r == verify_transactions_spec(self@, predicted_block_height, utxos@),
    {
        if self.transactions.len() == 0 {
            return Err(BtcError::InvalidTransaction);
        }
        match self.verify_coinbase_transaction(predicted_block_height, utxos) {
            Ok(_) => {},
            Err(e) => {
                return Err(e);
            },
        }
        proof {
            vstd::std_specs::vec::axiom_spec_len(&self.transactions);
            assert(hashes_view(Seq::<crate::sha256::Hash>::empty()) =~= Seq::<int>::empty());
        }
        let e0: Vec<crate::sha256::Hash> = Vec::new();
        match check_txs(&self.transactions, utxos, e0, 1) {
            Ok(_) => Ok(()),
            Err(e) => Err(e),
        }
    }
}

/// The referenced output hashes of the inputs from `idx` on, in order.
pub open spec fn input_prevs(ins: Seq<InputV>, idx: int) -> Seq<int>
    decreases ins.len() - idx,
{
    if idx < 0 || idx >= ins.len() {
        Seq::empty()
    } else {
        seq![ins[idx].prev_tx_output_hash] + input_prevs(ins, idx + 1)
    }
}

proof fn lemma_input_prevs_index(ins: Seq<InputV>, idx: int, j: int)
    requires
        0 <= idx <= j < ins.len(),
    ensures
        input_prevs(ins, idx).len() == ins.len() - idx,
        input_prevs(ins, idx)[j - idx] == ins[j].prev_tx_output_hash,
    decreases j - idx,
{
    lemma_input_prevs_len(ins, idx);
    if idx < j {
        lemma_input_prevs_index(ins, idx + 1, j);
    }
}

proof fn lemma_input_prevs_len(ins: Seq<InputV>, idx: int)
    requires
        0 <= idx <= ins.len(),
    ensures
        input_prevs(ins, idx).len() == ins.len() - idx,
    decreases ins.len() - idx,
{
    if idx < ins.len() {
        lemma_input_prevs_len(ins, idx + 1);
    }
}

/// A successful input scan records exactly the scanned references, none of
/// which occurred before, and no two of which coincide.
proof fn lemma_check_inputs_ok(ins: Seq<InputV>, u: Seq<EntryV>, seen: Seq<int>, idx: int)
    requires
        0 <= idx <= ins.len(),
        check_inputs_spec(ins, u, seen, idx) is Ok,
    ensures
        check_inputs_spec(ins, u, seen, idx)->Ok_0.0 == seen + input_prevs(ins, idx),
        forall|j: int| idx <= j < ins.len() ==> !seen_has(
            seen,
            (#[trigger] ins[j]).prev_tx_output_hash,
        ),
        forall|j1: int, j2: int|
            idx <= j1 < j2 < ins.len() ==> (#[trigger] ins[j1]).prev_tx_output_hash != (
            #[trigger] ins[j2]).prev_tx_output_hash,
    decreases ins.len() - idx,
{
    if idx == ins.len() {
        assert(seen + input_prevs(ins, idx) =~= seen);
    } else {
        let h = ins[idx].prev_tx_output_hash;
        let seen2 = seen.push(h);
        lemma_check_inputs_ok(ins, u, seen2, idx + 1);
        assert(seen2 + input_prevs(ins, idx + 1) =~= seen + input_prevs(ins, idx));
        assert forall|j: int| idx <= j < ins.len() implies !seen_has(
            seen,
            (#[trigger] ins[j]).prev_tx_output_hash,
        ) by {
            if j > idx {
                assert(!seen_has(seen2, ins[j].prev_tx_output_hash));
                if seen_has(seen, ins[j].prev_tx_output_hash) {
                    let q = choose|q: int|
                        0 <= q < seen.len() && seen[q] == ins[j].prev_tx_output_hash;
                    assert(seen2[q] == ins[j].prev_tx_output_hash);
                }
            }
        }
        assert forall|j1: int, j2: int| idx <= j1 < j2 < ins.len() implies (
        #[trigger] ins[j1]).prev_tx_output_hash != (
        #[trigger] ins[j2]).prev_tx_output_hash by {
            if j1 == idx {
                assert(!seen_has(seen2, ins[j2].prev_tx_output_hash));
                assert(seen2[seen.len() as int] == h);
                if ins[j2].prev_tx_output_hash == h {
                    assert(seen_has(seen2, ins[j2].prev_tx_output_hash));
                }
            }
        }
    }
}

/// A successful block scan leaves the scanned transactions' references
/// pairwise distinct, within one transaction and across two.
proof fn lemma_check_txs_ok(txs: Seq<TxV>, u: Seq<EntryV>, seen: Seq<int>, idx: int)
    requires
        0 <= idx <= txs.len(),
        check_txs_spec(txs, u, seen, idx) is Ok,
    ensures
        forall|k: int, j: int|
            idx <= k < txs.len() && 0 <= j < (#[trigger] txs[k]).inputs.len()
                ==> !seen_has(seen, (#[trigger] txs[k].inputs[j]).prev_tx_output_hash),
        forall|k1: int, j1: int, k2: int, j2: int|
            idx <= k1 < txs.len() && 0 <= j1 < (#[trigger] txs[k1]).inputs.len() && idx
                <= k2 < txs.len() && 0 <= j2 < (#[trigger] txs[k2]).inputs.len() && (k1
                != k2 || j1 != j2) ==> (
            #[trigger] txs[k1].inputs[j1]).prev_tx_output_hash != (
            #[trigger] txs[k2].inputs[j2]).prev_tx_output_hash,
    decreases txs.len() - idx,
{
    if idx < txs.len() {
        let ins = txs[idx].inputs;
        let r0 = check_inputs_spec(ins, u, seen, 0);
        let seen2 = r0->Ok_0.0;
        lemma_check_inputs_ok(ins, u, seen, 0);
        assert(seen2 == seen + input_prevs(ins, 0));
        lemma_input_prevs_len(ins, 0);
        lemma_check_txs_ok(txs, u, seen2, idx + 1);
        // a reference of a later transaction is absent from seen2, hence
        // from seen and from this transaction's references
        assert forall|k: int, j: int|
            idx <= k < txs.len() && 0 <= j < (#[trigger] txs[k]).inputs.len() implies
            !seen_has(seen, (#[trigger] txs[k].inputs[j]).prev_tx_output_hash) by {
            if k > idx {
                let h = txs[k].inputs[j].prev_tx_output_hash;
                assert(!seen_has(seen2, h));
                if seen_has(seen, h) {
                    let q = choose|q: int| 0 <= q < seen.len() && seen[q] == h;
                    assert(seen2[q] == h);
                }
            }
        }
        assert forall|k1: int, j1: int, k2: int, j2: int|
            idx <= k1 < txs.len() && 0 <= j1 < (#[trigger] txs[k1]).inputs.len() && idx
                <= k2 < txs.len() && 0 <= j2 < (#[trigger] txs[k2]).inputs.len() && (k1
                != k2 || j1 != j2) implies (
        #[trigger] txs[k1].inputs[j1]).prev_tx_output_hash != (
        #[trigger] txs[k2].inputs[j2]).prev_tx_output_hash by {
            let a = if k1 <= k2 {
                k1
            } else {
                k2
            };
            let b = if k1 <= k2 {
                k2
            } else {
                k1
            };
            let ja = if k1 <= k2 {
                j1
            } else {
                j2
            };
            let jb = if k1 <= k2 {
                j2
            } else {
                j1
            };
            if a == idx && b > idx {
                let h = txs[b].inputs[jb].prev_tx_output_hash;
                assert(!seen_has(seen2, h));
                lemma_input_prevs_index(ins, 0, ja);
                assert(seen2[seen.len() + ja] == ins[ja].prev_tx_output_hash);
                if ins[ja].prev_tx_output_hash == h {
                    assert(seen_has(seen2, h));
                }
            }
        }
    }
}

/// No double spend inside an accepted block: when the transaction check
/// passes, no two non-coinbase inputs — within one transaction or across
/// two — reference the same output.
pub proof fn lemma_verify_ok_no_double_spend(b: BlockV, height: u64, u: Seq<EntryV>)
    requires
        verify_transactions_spec(b, height, u) is Ok,
    ensures
        forall|k1: int, j1: int, k2: int, j2: int|
            1 <= k1 < b.transactions.len() && 0 <= j1 < (
            #[trigger] b.transactions[k1]).inputs.len() && 1 <= k2 < b.transactions.len()
                && 0 <= j2 < (#[trigger] b.transactions[k2]).inputs.len() && (k1 != k2
                || j1 != j2) ==> (
            #[trigger] b.transactions[k1].inputs[j1]).prev_tx_output_hash != (
            #[trigger] b.transactions[k2].inputs[j2]).prev_tx_output_hash,
{
    lemma_check_txs_ok(b.transactions, u, Seq::empty(), 1);
}

/// The fee scan never reads signatures: inputs with the same references
/// scan alike.
proof fn lemma_fee_inputs_sig_blind(
    ins1: Seq<InputV>,
    ins2: Seq<InputV>,
    u: Seq<EntryV>,
    seen: Seq<int>,
    idx: int,
)
    requires
        ins1.len() == ins2.len(),
        forall|i: int| 0 <= i < ins1.len() ==> (#[trigger] ins1[i]).prev_tx_output_hash
            == (#[trigger] ins2[i]).prev_tx_output_hash,
    ensures
        fee_inputs_spec(ins2, u, seen, idx) == fee_inputs_spec(ins1, u, seen, idx),
    decreases ins1.len() - idx,
{
    if idx < 0 || idx >= ins1.len() {
    } else {
        let h = ins1[idx].prev_tx_output_hash;
        if utxo_contains(u, h) && !seen_has(seen, h) {
            lemma_fee_inputs_sig_blind(ins1, ins2, u, seen.push(h), idx + 1);
        }
    }
}

/// Neither does the per-transaction fee scan.
proof fn lemma_fee_txs_sig_blind(
    txs1: Seq<TxV>,
    txs2: Seq<TxV>,
    u: Seq<EntryV>,
    si: Seq<int>,
    so: Seq<int>,
    idx: int,
)
    requires
        txs1.len() == txs2.len(),
        forall|k: int|
            0 <= k < txs1.len() ==> (#[trigger] txs1[k]).outputs == (
            #[trigger] txs2[k]).outputs && txs1[k].inputs.len() == txs2[k].inputs.len(),
        forall|k: int, i: int|
            0 <= k < txs1.len() && 0 <= i < (#[trigger] txs1[k]).inputs.len() ==> (
            #[trigger] txs1[k].inputs[i]).prev_tx_output_hash == (
            #[trigger] txs2[k].inputs[i]).prev_tx_output_hash,
    ensures
        fee_txs_spec(txs2, u, si, so, idx) == fee_txs_spec(txs1, u, si, so, idx),
    decreases txs1.len() - idx,
{
    if idx < 0 || idx >= txs1.len() {
    } else {
        lemma_fee_inputs_sig_blind(txs1[idx].inputs, txs2[idx].inputs, u, si, 0);
        match fee_inputs_spec(txs1[idx].inputs, u, si, 0) {
            Ok((si2, isum)) => {
                match fee_outputs_spec(txs1[idx].outputs, so, 0) {
                    Ok((so2, osum)) => {
                        lemma_fee_txs_sig_blind(txs1, txs2, u, si2, so2, idx + 1);
                    },
                    Err(_) => {},
                }
            },
            Err(_) => {},
        }
    }
}

/// A single failing signature turns a passing input scan into exactly
/// `InvalidSignature`.
proof fn lemma_check_inputs_flip(
    ins1: Seq<InputV>,
    ins2: Seq<InputV>,
    u: Seq<EntryV>,
    seen: Seq<int>,
    idx: int,
    j: int,
)
    requires
        ins1.len() == ins2.len(),
        forall|i: int| 0 <= i < ins1.len() ==> (#[trigger] ins1[i]).prev_tx_output_hash
            == (#[trigger] ins2[i]).prev_tx_output_hash,
        forall|i: int| 0 <= i < ins1.len() && i != j ==> (#[trigger] ins1[i]).signature
            == (#[trigger] ins2[i]).signature,
        0 <= idx <= j < ins1.len(),
        !input_sig_ok(ins2[j], u),
        check_inputs_spec(ins1, u, seen, idx) is Ok,
    ensures
        check_inputs_spec(ins2, u, seen, idx) == Err::<(Seq<int>, int), BtcError>(
            BtcError::InvalidSignature,
        ),
    decreases j - idx,
{
    let h = ins1[idx].prev_tx_output_hash;
    assert(utxo_contains(u, h) && !seen_has(seen, h));
    if idx == j {
    } else {
        assert(ins2[idx] == ins1[idx]);
        assert(input_sig_ok(ins1[idx], u));
        lemma_check_inputs_flip(ins1, ins2, u, seen.push(h), idx + 1, j);
    }
}

/// A single failing signature in a scanned transaction turns a passing
/// block scan into exactly `InvalidSignature`.
proof fn lemma_check_txs_flip(
    txs1: Seq<TxV>,
    txs2: Seq<TxV>,
    u: Seq<EntryV>,
    seen: Seq<int>,
    kidx: int,
    k: int,
    j: int,
)
    requires
        txs1.len() == txs2.len(),
        forall|q: int| 0 <= q < txs1.len() && q != k ==> (#[trigger] txs1[q]) == (
        #[trigger] txs2[q]),
        txs1[k].outputs == txs2[k].outputs,
        txs1[k].inputs.len() == txs2[k].inputs.len(),
        forall|i: int| 0 <= i < txs1[k].inputs.len() ==> (
        #[trigger] txs1[k].inputs[i]).prev_tx_output_hash == (
        #[trigger] txs2[k].inputs[i]).prev_tx_output_hash,
        forall|i: int|
            0 <= i < txs1[k].inputs.len() && i != j ==> (
            #[trigger] txs1[k].inputs[i]).signature == (
            #[trigger] txs2[k].inputs[i]).signature,
        0 <= kidx <= k < txs1.len(),
        0 <= j < txs1[k].inputs.len(),
        !input_sig_ok(txs2[k].inputs[j], u),
        check_txs_spec(txs1, u, seen, kidx) is Ok,
    ensures
        check_txs_spec(txs2, u, seen, kidx) == Err::<Seq<int>, BtcError>(
            BtcError::InvalidSignature,
        ),
    decreases k - kidx,
{
    if kidx == k {
        lemma_check_inputs_flip(txs1[k].inputs, txs2[k].inputs, u, seen, 0, j);
    } else {
        assert(txs2[kidx] == txs1[kidx]);
        match check_inputs_spec(txs1[kidx].inputs, u, seen, 0) {
            Ok((seen2, isum)) => {
                lemma_check_txs_flip(txs1, txs2, u, seen2, kidx + 1, k, j);
            },
            Err(_) => {},
        }
    }
}

/// The signature requirement: take a block whose transaction check passes,
/// and change nothing but one non-coinbase input's signature so that it no
/// longer verifies; the check now returns exactly `InvalidSignature`.
pub proof fn lemma_signature_requirement(
    b: BlockV,
    b2: BlockV,
    height: u64,
    u: Seq<EntryV>,
    k: int,
    j: int,
)
    requires
        verify_transactions_spec(b, height, u) is Ok,
        b2.transactions.len() == b.transactions.len(),
        forall|q: int| 0 <= q < b.transactions.len() && q != k ==> (
        #[trigger] b.transactions[q]) == (#[trigger] b2.transactions[q]),
        1 <= k < b.transactions.len(),
        b2.transactions[k].outputs == b.transactions[k].outputs,
        b2.transactions[k].inputs.len() == b.transactions[k].inputs.len(),
        forall|i: int| 0 <= i < b.transactions[k].inputs.len() ==> (
        #[trigger] b.transactions[k].inputs[i]).prev_tx_output_hash == (
        #[trigger] b2.transactions[k].inputs[i]).prev_tx_output_hash,
        forall|i: int|
            0 <= i < b.transactions[k].inputs.len() && i != j ==> (
            #[trigger] b.transactions[k].inputs[i]).signature == (
            #[trigger] b2.transactions[k].inputs[i]).signature,
        0 <= j < b.transactions[k].inputs.len(),
        !input_sig_ok(b2.transactions[k].inputs[j], u),
    ensures
        verify_transactions_spec(b2, height, u) == Err::<(), BtcError>(
            BtcError::InvalidSignature,
        ),
{
    assert(b2.transactions[0] == b.transactions[0]);
    lemma_fee_txs_sig_blind(
        b.transactions,
        b2.transactions,
        u,
        Seq::empty(),
        Seq::empty(),
        1,
    );
    assert(fees_spec(b2.transactions, u) == fees_spec(b.transactions, u));
    assert(verify_coinbase_spec(b2, height, u) == verify_coinbase_spec(b, height, u));
    lemma_check_txs_flip(b.transactions, b2.transactions, u, Seq::empty(), 1, k, j);
}

/// The summed referenced values of a transaction's inputs, as
/// [`crate::types::blockchain::mem_input_sum`] but local to this scan.
pub open spec fn tx_in_sum(ins: Seq<InputV>, u: Seq<EntryV>, idx: int) -> int
    decreases ins.len() - idx,
{
    if idx < 0 || idx >= ins.len() {
        0
    } else {
        utxo_get(u, ins[idx].prev_tx_output_hash).output.value + tx_in_sum(ins, u, idx + 1)
    }
}

/// The summed referenced input values of the transactions from `idx` on.
pub open spec fn txs_in_sum(txs: Seq<TxV>, u: Seq<EntryV>, idx: int) -> int
    decreases txs.len() - idx,
{
    if idx < 0 || idx >= txs.len() {
        0
    } else {
        tx_in_sum(txs[idx].inputs, u, 0) + txs_in_sum(txs, u, idx + 1)
    }
}

/// The summed output values of the transactions from `idx` on.
pub open spec fn txs_out_sum(txs: Seq<TxV>, idx: int) -> int
    decreases txs.len() - idx,
{
    if idx < 0 || idx >= txs.len() {
        0
    } else {
        sum_outputs_from(txs[idx].outputs, 0) + txs_out_sum(txs, idx + 1)
    }
}

/// A successful fee input scan sums exactly the referenced values, which
/// are all present, newly seen and pairwise distinct.
proof fn lemma_fee_inputs_ok(ins: Seq<InputV>, u: Seq<EntryV>, seen: Seq<int>, idx: int)
    requires
        0 <= idx <= ins.len(),
        fee_inputs_spec(ins, u, seen, idx) is Ok,
    ensures
        fee_inputs_spec(ins, u, seen, idx)->Ok_0.0 == seen + input_prevs(ins, idx),
        fee_inputs_spec(ins, u, seen, idx)->Ok_0.1 == tx_in_sum(ins, u, idx),
        0 <= tx_in_sum(ins, u, idx) <= 0xFFFF_FFFF_FFFF_FFFFint,
        forall|j: int| idx <= j < ins.len() ==> utxo_contains(
            u,
            (#[trigger] ins[j]).prev_tx_output_hash,
        ),
        forall|j: int| idx <= j < ins.len() ==> !seen_has(
            seen,
            (#[trigger] ins[j]).prev_tx_output_hash,
        ),
        forall|j1: int, j2: int|
            idx <= j1 < j2 < ins.len() ==> (#[trigger] ins[j1]).prev_tx_output_hash != (
            #[trigger] ins[j2]).prev_tx_output_hash,
    decreases ins.len() - idx,
{
    if idx == ins.len() {
        assert(seen + input_prevs(ins, idx) =~= seen);
    } else {
        let h = ins[idx].prev_tx_output_hash;
        let seen2 = seen.push(h);
        lemma_fee_inputs_ok(ins, u, seen2, idx + 1);
        assert(seen2 + input_prevs(ins, idx + 1) =~= seen + input_prevs(ins, idx));
        assert forall|j: int| idx <= j < ins.len() implies !seen_has(
            seen,
            (#[trigger] ins[j]).prev_tx_output_hash,
        ) by {
            if j > idx {
                assert(!seen_has(seen2, ins[j].prev_tx_output_hash));
                if seen_has(seen, ins[j].prev_tx_output_hash) {
                    let q = choose|q: int|
                        0 <= q < seen.len() && seen[q] == ins[j].prev_tx_output_hash;
                    assert(seen2[q] == ins[j].prev_tx_output_hash);
                }
            }
        }
        assert forall|j1: int, j2: int| idx <= j1 < j2 < ins.len() implies (
        #[trigger] ins[j1]).prev_tx_output_hash != (
        #[trigger] ins[j2]).prev_tx_output_hash by {
            if j1 == idx {
                assert(!seen_has(seen2, ins[j2].prev_tx_output_hash));
                assert(seen2[seen.len() as int] == h);
                if ins[j2].prev_tx_output_hash == h {
                    assert(seen_has(seen2, ins[j2].prev_tx_output_hash));
                }
            }
        }
    }
}

/// A successful fee output scan sums exactly the output values.
proof fn lemma_fee_outputs_ok(outs: Seq<OutputV>, seen: Seq<int>, idx: int)
    requires
        0 <= idx <= outs.len(),
        fee_outputs_spec(outs, seen, idx) is Ok,
    ensures
        fee_outputs_spec(outs, seen, idx)->Ok_0.1 == sum_outputs_from(outs, idx),
        0 <= sum_outputs_from(outs, idx) <= 0xFFFF_FFFF_FFFF_FFFFint,
    decreases outs.len() - idx,
{
    if idx < outs.len() {
        let oh = crate::types::transaction::output_hash(outs[idx]);
        lemma_fee_outputs_ok(outs, seen.push(oh), idx + 1);
    }
}

/// A successful fee scan sums exactly the referenced input values and the
/// output values of the scanned transactions, whose inputs are all present
/// and pairwise distinct.
proof fn lemma_fee_txs_ok(
    txs: Seq<TxV>,
    u: Seq<EntryV>,
    si: Seq<int>,
    so: Seq<int>,
    idx: int,
)
    requires
        0 <= idx <= txs.len(),
        fee_txs_spec(txs, u, si, so, idx) is Ok,
    ensures
        fee_txs_spec(txs, u, si, so, idx)->Ok_0.2 == txs_in_sum(txs, u, idx),
        fee_txs_spec(txs, u, si, so, idx)->Ok_0.3 == txs_out_sum(txs, idx),
        0 <= txs_in_sum(txs, u, idx) <= 0xFFFF_FFFF_FFFF_FFFFint,
        0 <= txs_out_sum(txs, idx) <= 0xFFFF_FFFF_FFFF_FFFFint,
        forall|k: int, j: int|
            idx <= k < txs.len() && 0 <= j < (#[trigger] txs[k]).inputs.len()
                ==> utxo_contains(u, (#[trigger] txs[k].inputs[j]).prev_tx_output_hash),
        forall|k: int, j: int|
            idx <= k < txs.len() && 0 <= j < (#[trigger] txs[k]).inputs.len()
                ==> !seen_has(si, (#[trigger] txs[k].inputs[j]).prev_tx_output_hash),
        forall|k1: int, j1: int, k2: int, j2: int|
            idx <= k1 < txs.len() && 0 <= j1 < (#[trigger] txs[k1]).inputs.len() && idx
                <= k2 < txs.len() && 0 <= j2 < (#[trigger] txs[k2]).inputs.len() && (k1
                != k2 || j1 != j2) ==> (
            #[trigger] txs[k1].inputs[j1]).prev_tx_output_hash != (
            #[trigger] txs[k2].inputs[j2]).prev_tx_output_hash,
    decreases txs.len() - idx,
{
    if idx < txs.len() {
        let ins = txs[idx].inputs;
        let r0 = fee_inputs_spec(ins, u, si, 0);
        let si2 = r0->Ok_0.0;
        lemma_fee_inputs_ok(ins, u, si, 0);
        assert(si2 == si + input_prevs(ins, 0));
        lemma_input_prevs_len(ins, 0);
        let r1 = fee_outputs_spec(txs[idx].outputs, so, 0);
        let so2 = r1->Ok_0.0;
        lemma_fee_outputs_ok(txs[idx].outputs, so, 0);
        lemma_fee_txs_ok(txs, u, si2, so2, idx + 1);
        assert forall|k: int, j: int|
            idx <= k < txs.len() && 0 <= j < (#[trigger] txs[k]).inputs.len() implies
            !seen_has(si, (#[trigger] txs[k].inputs[j]).prev_tx_output_hash) by {
            if k > idx {
                let h = txs[k].inputs[j].prev_tx_output_hash;
                assert(!seen_has(si2, h));
                if seen_has(si, h) {
                    let q = choose|q: int| 0 <= q < si.len() && si[q] == h;
                    assert(si2[q] == h);
                }
            }
        }
        assert forall|k1: int, j1: int, k2: int, j2: int|
            idx <= k1 < txs.len() && 0 <= j1 < (#[trigger] txs[k1]).inputs.len() && idx
                <= k2 < txs.len() && 0 <= j2 < (#[trigger] txs[k2]).inputs.len() && (k1
                != k2 || j1 != j2) implies (
        #[trigger] txs[k1].inputs[j1]).prev_tx_output_hash != (
        #[trigger] txs[k2].inputs[j2]).prev_tx_output_hash by {
            let a = if k1 <= k2 {
                k1
            } else {
                k2
            };
            let b = if k1 <= k2 {
                k2
            } else {
                k1
            };
            let ja = if k1 <= k2 {
                j1
            } else {
                j2
            };
            let jb = if k1 <= k2 {
                j2
            } else {
                j1
            };
            if a == idx && b > idx {
                let h = txs[b].inputs[jb].prev_tx_output_hash;
                assert(!seen_has(si2, h));
                lemma_input_prevs_index(ins, 0, ja);
                assert(si2[si.len() + ja] == ins[ja].prev_tx_output_hash);
                if ins[ja].prev_tx_output_hash == h {
                    assert(seen_has(si2, h));
                }
            }
        }
    }
}

/// What a passing transaction check pins down for the value accounting:
/// the coinbase has no inputs and collects exactly the reward plus the
/// fee, the fee is the scanned input total minus the scanned output
/// total, and all non-coinbase inputs are present and pairwise distinct.
pub proof fn lemma_verify_ok_accounting(b: BlockV, height: u64, u: Seq<EntryV>)
    requires
        verify_transactions_spec(b, height, u) is Ok,
    ensures
        b.transactions.len() > 0,
        b.transactions[0].inputs.len() == 0,
        txs_in_sum(b.transactions, u, 1) >= txs_out_sum(b.transactions, 1),
        sum_outputs_from(b.transactions[0].outputs, 0) == reward_of(height) + txs_in_sum(
            b.transactions,
            u,
            1,
        ) - txs_out_sum(b.transactions, 1),
        forall|k: int, j: int|
            1 <= k < b.transactions.len() && 0 <= j < (
            #[trigger] b.transactions[k]).inputs.len() ==> utxo_contains(
                u,
                (#[trigger] b.transactions[k].inputs[j]).prev_tx_output_hash,
            ),
        forall|k1: int, j1: int, k2: int, j2: int|
            1 <= k1 < b.transactions.len() && 0 <= j1 < (
            #[trigger] b.transactions[k1]).inputs.len() && 1 <= k2 < b.transactions.len()
                && 0 <= j2 < (#[trigger] b.transactions[k2]).inputs.len() && (k1 != k2
                || j1 != j2) ==> (
            #[trigger] b.transactions[k1].inputs[j1]).prev_tx_output_hash != (
            #[trigger] b.transactions[k2].inputs[j2]).prev_tx_output_hash,
{
    lemma_fee_txs_ok(b.transactions, u, Seq::empty(), Seq::empty(), 1);
    let r = fee_txs_spec(b.transactions, u, Seq::empty(), Seq::empty(), 1);
    let in_sum = r->Ok_0.2;
    let out_sum = r->Ok_0.3;
    assert(in_sum == txs_in_sum(b.transactions, u, 1));
    assert(out_sum == txs_out_sum(b.transactions, 1));
    assert(fees_spec(b.transactions, u) == Ok::<u64, BtcError>((in_sum - out_sum) as u64));
    assert(in_sum - out_sum <= 0xFFFF_FFFF_FFFF_FFFFint);
    assert((in_sum - out_sum) as u64 == in_sum - out_sum);
}

} // verus!
