//! The chain engine: the canonical block sequence, the UTXO set, the
//! difficulty target, and the mempool of pending transactions.
use vstd::prelude::*;
use crate::error::BtcError;
use crate::types::block::{Block, BlockV, block_wf, reward_of, verify_transactions_spec};
use crate::types::block_header::{HeaderV, header_hash};
use crate::types::transaction::{InputV, OutputV, Transaction, TransactionInput, TxV,
    output_hash, tx_hash};
use crate::types::utxo::{EntryV, UtxoSet, spec_remove, spec_set_marked, spec_upsert,
    utxo_contains, utxo_get, utxo_index, utxo_total, utxo_unique};
use crate::u256::{U256, W5, min_target, min_target_val, p256};

verus! {

/// One pending transaction: when it arrived, the fee it pays (computed at
/// admission), and the transaction itself.
#[derive(Clone, Debug)]
pub struct MempoolEntry {
    pub timestamp: u64,
    pub fee: u64,
    pub transaction: Transaction,
}

/// The mathematical value of a [`MempoolEntry`].
pub ghost struct MemV {
    pub timestamp: u64,
    pub fee: u64,
    pub transaction: TxV,
}

impl View for MempoolEntry {
    type V = MemV;

    open spec fn view(&self) -> MemV {
        MemV { timestamp: self.timestamp, fee: self.fee, transaction: self.transaction@ }
    }
}

/// The chain state.
#[derive(Clone, Debug)]
pub struct Blockchain {
    pub utxos: UtxoSet,
    pub target: U256,
    pub blocks: Vec<Block>,
    pub mempool: Vec<MempoolEntry>,
}

/// The mathematical value of a [`Blockchain`].
pub ghost struct ChainV {
    pub utxos: Seq<EntryV>,
    pub target: int,
    pub blocks: Seq<BlockV>,
    pub mempool: Seq<MemV>,
}

impl View for Blockchain {
    type V = ChainV;

    open spec fn view(&self) -> ChainV {
        ChainV {
            utxos: self.utxos@,
            target: self.target.val(),
            blocks: self.blocks@.map_values(|b: Block| b@),
            mempool: self.mempool@.map_values(|m: MempoolEntry| m@),
        }
    }
}

/// Block timestamps strictly increase along the chain.
pub open spec fn timestamps_increase(blocks: Seq<BlockV>) -> bool {
    forall|i: int|
        0 <= i < blocks.len() - 1 ==> (#[trigger] blocks[i]).header.timestamp
            < blocks[i + 1].header.timestamp
}

/// The mempool is sorted by fee, descending.
pub open spec fn mempool_sorted(m: Seq<MemV>) -> bool {
    forall|i: int, j: int| 0 <= i < j < m.len() ==> (#[trigger] m[i]).fee >= (
    #[trigger] m[j]).fee
}

impl Blockchain {
    /// The state invariant: unique UTXO keys, a target no easier than the
    /// minimum, strictly increasing timestamps, and a fee-sorted mempool.
    pub open spec fn wf(&self) -> bool {
        &&& utxo_unique(self@.utxos)
        &&& 0 <= self@.target <= min_target_val()
        &&& timestamps_increase(self@.blocks)
        &&& mempool_sorted(self@.mempool)
    }

    /// A fresh chain: no blocks, no UTXOs, an empty mempool, and the
    /// easiest allowed target.
    pub fn new() -> (r: Blockchain)
        ensures
            r.wf(),
            r@.blocks.len() == 0,
            r@.utxos.len() == 0,
            r@.mempool.len() == 0,
            r@.target == min_target_val(),
    {
        let r = Blockchain {
            utxos: UtxoSet::new(),
            target: min_target(),
            blocks: Vec::new(),
            mempool: Vec::new(),
        };
        proof {
            assert(r@.blocks =~= Seq::<BlockV>::empty());
            assert(r@.mempool =~= Seq::<MemV>::empty());
        }
        r
    }

    /// The height of the chain: the number of blocks.
    pub fn block_height(&self) -> (r: u64)
        ensures
            r == self@.blocks.len(),
    {
        proof {
            crate::codec::lemma_pow256_16();
            vstd::std_specs::vec::axiom_spec_len(&self.blocks);
        }
        self.blocks.len() as u64
    }

    /// The UTXO set.
    pub fn utxos(&self) -> (r: &UtxoSet)
        ensures
            r@ == self@.utxos,
    {
        &self.utxos
    }

    /// The current difficulty target.
    pub fn target(&self) -> (r: U256)
        ensures
            r.val() == self@.target,
    {
        self.target
    }

    /// The canonical block sequence.
    pub fn blocks(&self) -> (r: &Vec<Block>)
        ensures
            r@.map_values(|b: Block| b@) == self@.blocks,
    {
        &self.blocks
    }

    /// The pending transactions, sorted by fee descending.
    pub fn mempool(&self) -> (r: &Vec<MempoolEntry>)
        ensures
            r@.map_values(|m: MempoolEntry| m@) == self@.mempool,
    {
        &self.mempool
    }

    /// The block reward at the current height.
    pub fn calculate_block_reward(&self) -> (r: u64)
        ensures
            r as int == reward_of(self@.blocks.len() as u64),
    {
        crate::types::block::block_reward(self.block_height())
    }
}

/// The retargeting rule: every `DIFFICULTY_UPDATE_INTERVAL` blocks the
/// target is scaled by the ratio of the actual time the last interval took
/// to the ideal time, clamped to a factor of four in either direction and
/// to the minimum difficulty.
pub open spec fn retarget(blocks: Seq<BlockV>, target: int) -> int {
    if blocks.len() == 0 || blocks.len() as int % (crate::DIFFICULTY_UPDATE_INTERVAL as int)
        != 0 {
        target
    } else {
        let start = blocks[blocks.len() - crate::DIFFICULTY_UPDATE_INTERVAL as int]
            .header.timestamp as int;
        let end = blocks[blocks.len() - 1].header.timestamp as int;
        let ideal = crate::IDEAL_BLOCK_TIME as int * crate::DIFFICULTY_UPDATE_INTERVAL as int;
        let scaled = target * (end - start) / ideal;
        let lo = target / 4;
        let hi = target * 4;
        let clamped = if scaled < lo {
            lo
        } else if scaled > hi {
            hi
        } else {
            scaled
        };
        if clamped <= min_target_val() {
            clamped
        } else {
            min_target_val()
        }
    }
}

/// The difficulty clamp: one retargeting step never moves the target by
/// more than a factor of four, and never above the minimum difficulty.
pub proof fn lemma_difficulty_clamp(blocks: Seq<BlockV>, target: int)
    requires
        0 <= target <= min_target_val(),
        blocks.len() > 0,
        blocks.len() as int % (crate::DIFFICULTY_UPDATE_INTERVAL as int) == 0,
    ensures
        target / 4 <= retarget(blocks, target) <= target * 4,
        retarget(blocks, target) <= min_target_val(),
{
}

impl Blockchain {
    /// Adjusts the difficulty target if the chain has just completed a
    /// retargeting interval; see [`retarget`]. Nothing else changes.
    pub fn try_adjust_target(&mut self)
        requires
            old(self).wf(),
        ensures
            final(self).wf(),
            final(self)@.target == retarget(old(self)@.blocks, old(self)@.target),
            final(self)@.blocks == old(self)@.blocks,
            final(self)@.utxos == old(self)@.utxos,
            final(self)@.mempool == old(self)@.mempool,
    {
        proof {
            vstd::std_specs::vec::axiom_spec_len(&self.blocks);
        }
        if self.blocks.len() == 0 {
            return ;
        }
        let interval: usize = crate::DIFFICULTY_UPDATE_INTERVAL as usize;
        if self.blocks.len() % interval != 0 {
            return ;
        }
        let n: usize = self.blocks.len();
        let start_time: u64 = self.blocks[n - interval].header.timestamp;
        let end_time: u64 = self.blocks[n - 1].header.timestamp;
        proof {
            lemma_timestamps_chain(self@.blocks, n - interval, n - 1);
        }
        let diff: u64 = end_time - start_time;
        let ideal: u64 = crate::IDEAL_BLOCK_TIME * crate::DIFFICULTY_UPDATE_INTERVAL;
        let scaled: W5 = crate::u256::div_w5_u64(
            &crate::u256::mul_u256_u64(&self.target, diff),
            ideal,
        );
        let lo: W5 = crate::u256::div_w5_u64(&W5::from_u256(&self.target), 4);
        let hi: W5 = crate::u256::mul_u256_u64(&self.target, 4);
        let clamped: W5 = if scaled.lt(&lo) {
            lo
        } else if hi.lt(&scaled) {
            hi
        } else {
            scaled
        };
        proof {
            self.target.lemma_val_bounds();
            assert(clamped.val() <= self.target.val() * 4);
            assert(self.target.val() * 4 < p256()) by (nonlinear_arith)
                requires
                    0 <= self.target.val() <= min_target_val(),
                    min_target_val() * 4 < p256(),
            ;
            assert(0 <= self.target.val() / 4 <= clamped.val());
        }
        let candidate: U256 = clamped.to_u256();
        let ghost pre: ChainV = self@;
        self.target = candidate.min_with(&min_target());
        proof {
            assert(self@.blocks =~= pre.blocks);
            assert(self@.mempool =~= pre.mempool);
        }
    }
}

/// In a chain with strictly increasing timestamps, an earlier block's
/// timestamp is smaller.
pub proof fn lemma_timestamps_chain(blocks: Seq<BlockV>, i: int, j: int)
    requires
        timestamps_increase(blocks),
        0 <= i <= j < blocks.len(),
    ensures
        i < j ==> blocks[i].header.timestamp < blocks[j].header.timestamp,
        blocks[i].header.timestamp <= blocks[j].header.timestamp,
    decreases j - i,
{
    if i < j {
        lemma_timestamps_chain(blocks, i, j - 1);
    }
}

/// Removing a transaction's referenced outputs from the set, left to
/// right.
pub open spec fn spec_remove_inputs(u: Seq<EntryV>, ins: Seq<InputV>, idx: int) -> Seq<
    EntryV,
>
    decreases ins.len() - idx,
{
    if idx < 0 || idx >= ins.len() {
        u
    } else {
        spec_remove_inputs(spec_remove(u, ins[idx].prev_tx_output_hash), ins, idx + 1)
    }
}

/// Inserting a transaction's outputs, keyed by their hashes, unmarked,
/// left to right.
pub open spec fn spec_insert_outputs(u: Seq<EntryV>, outs: Seq<OutputV>, idx: int) -> Seq<
    EntryV,
>
    decreases outs.len() - idx,
{
    if idx < 0 || idx >= outs.len() {
        u
    } else {
        spec_insert_outputs(spec_upsert(u, output_hash(outs[idx]), outs[idx]), outs, idx
            + 1)
    }
}

/// One transaction's effect on the UTXO set: spent outputs leave, new
/// outputs enter.
pub open spec fn spec_apply_tx(u: Seq<EntryV>, t: TxV) -> Seq<EntryV> {
    spec_insert_outputs(spec_remove_inputs(u, t.inputs, 0), t.outputs, 0)
}

pub open spec fn spec_apply_txs(u: Seq<EntryV>, txs: Seq<TxV>, idx: int) -> Seq<EntryV>
    decreases txs.len() - idx,
{
    if idx < 0 || idx >= txs.len() {
        u
    } else {
        spec_apply_txs(spec_apply_tx(u, txs[idx]), txs, idx + 1)
    }
}

/// One block's effect on the UTXO set.
pub open spec fn spec_apply_block(u: Seq<EntryV>, b: BlockV) -> Seq<EntryV> {
    spec_apply_txs(u, b.transactions, 0)
}

/// The whole chain's effect on the UTXO set, block by block.
pub open spec fn spec_apply_blocks(u: Seq<EntryV>, blocks: Seq<BlockV>, idx: int) -> Seq<
    EntryV,
>
    decreases blocks.len() - idx,
{
    if idx < 0 || idx >= blocks.len() {
        u
    } else {
        spec_apply_blocks(spec_apply_block(u, blocks[idx]), blocks, idx + 1)
    }
}

/// Rebuilding the UTXO set is a function of the starting set and the block
/// list alone: from the same block list and an empty set, it always yields
/// the same final set.
pub proof fn lemma_rebuild_deterministic(a: Seq<BlockV>, b: Seq<BlockV>)
    requires
        a == b,
    ensures
        spec_apply_blocks(Seq::<EntryV>::empty(), a, 0) == spec_apply_blocks(
            Seq::<EntryV>::empty(),
            b,
            0,
        ),
{
}

impl Blockchain {
    /// Replays every transaction of every block against the UTXO set:
    /// spent outputs are removed, created outputs inserted unmarked. The
    /// blocks, target and mempool stay as they are.
    pub fn rebuild_utxos(&mut self)
        requires
            old(self).wf(),
        ensures
            final(self).wf(),
            final(self)@.utxos == spec_apply_blocks(old(self)@.utxos, old(self)@.blocks, 0),
            final(self)@.blocks == old(self)@.blocks,
            final(self)@.target == old(self)@.target,
            final(self)@.mempool == old(self)@.mempool,
    {
        let ghost orig: ChainV = self@;
        let mut bi: usize = 0;
        let nb: usize = self.blocks.len();
        while bi < nb
            invariant
                nb == self.blocks@.len(),
                bi <= nb,
                self.utxos.wf(),
                self.blocks@ == old(self).blocks@,
                self.target == old(self).target,
                self.mempool@ == old(self).mempool@,
                spec_apply_blocks(orig.utxos, orig.blocks, 0) == spec_apply_blocks(
                    self@.utxos,
                    orig.blocks,
                    bi as int,
                ),
                orig == old(self)@,
            decreases nb - bi,
        {
            let ghost u_at_block: Seq<EntryV> = self@.utxos;
            let nt: usize = self.blocks[bi].transactions.len();
            let mut ti: usize = 0;
            while ti < nt
                invariant
                    bi < self.blocks@.len(),
                    nt == self.blocks@[bi as int].transactions@.len(),
                    ti <= nt,
                    self.utxos.wf(),
                    self.blocks@ == old(self).blocks@,
                    self.target == old(self).target,
                    self.mempool@ == old(self).mempool@,
                    spec_apply_block(u_at_block, self.blocks@[bi as int]@)
                        == spec_apply_txs(
                        self@.utxos,
                        self.blocks@[bi as int]@.transactions,
                        ti as int,
                    ),
                decreases nt - ti,
            {
                let ghost u_at_tx: Seq<EntryV> = self@.utxos;
                let ghost txv: TxV = self.blocks@[bi as int].transactions@[ti as int]@;
                let ni: usize = self.blocks[bi].transactions[ti].inputs.len();
                let mut ii: usize = 0;
                while ii < ni
                    invariant
                        bi < self.blocks@.len(),
                        ti < self.blocks@[bi as int].transactions@.len(),
                        txv == self.blocks@[bi as int].transactions@[ti as int]@,
                        ni == txv.inputs.len(),
                        ii <= ni,
                        self.utxos.wf(),
                        self.blocks@ == old(self).blocks@,
                        self.target == old(self).target,
                        self.mempool@ == old(self).mempool@,
                        spec_remove_inputs(u_at_tx, txv.inputs, 0) == spec_remove_inputs(
                            self@.utxos,
                            txv.inputs,
                            ii as int,
                        ),
                    decreases ni - ii,
                {
                    let h = self.blocks[bi].transactions[ti].inputs[ii]
                        .prev_tx_output_hash;
                    self.utxos.remove(&h);
                    ii = ii + 1;
                }
                let ghost u_after_rm: Seq<EntryV> = self@.utxos;
                let no: usize = self.blocks[bi].transactions[ti].outputs.len();
                let mut oi: usize = 0;
                while oi < no
                    invariant
                        bi < self.blocks@.len(),
                        ti < self.blocks@[bi as int].transactions@.len(),
                        txv == self.blocks@[bi as int].transactions@[ti as int]@,
                        no == txv.outputs.len(),
                        oi <= no,
                        self.utxos.wf(),
                        self.blocks@ == old(self).blocks@,
                        self.target == old(self).target,
                        self.mempool@ == old(self).mempool@,
                        spec_insert_outputs(u_after_rm, txv.outputs, 0)
                            == spec_insert_outputs(self@.utxos, txv.outputs, oi as int),
                    decreases no - oi,
                {
                    let h = self.blocks[bi].transactions[ti].outputs[oi].hash();
                    let o = self.blocks[bi].transactions[ti].outputs[oi].duplicate();
                    self.utxos.upsert(h, o);
                    oi = oi + 1;
                }
                proof {
                    assert(spec_apply_tx(u_at_tx, txv) == self@.utxos);
                    assert(self.blocks@[bi as int]@.transactions[ti as int] == txv);
                }
                ti = ti + 1;
            }
            proof {
                assert(spec_apply_block(u_at_block, self.blocks@[bi as int]@)
                    == self@.utxos);
                assert(orig.blocks[bi as int] == self.blocks@[bi as int]@);
            }
            bi = bi + 1;
        }
        proof {
            assert(self@.blocks =~= orig.blocks);
            assert(self@.mempool =~= orig.mempool);
        }
    }
}

/// Whether the block carries a transaction with this hash.
pub open spec fn block_has_tx_hash(b: BlockV, h: int) -> bool {
    exists|i: int| 0 <= i < b.transactions.len() && tx_hash(#[trigger] b.transactions[i])
        == h
}

/// The mempool entries whose transactions are not in the block, in order.
pub open spec fn keep_unincluded(m: Seq<MemV>, b: BlockV) -> Seq<MemV>
    decreases m.len(),
{
    if m.len() == 0 {
        Seq::empty()
    } else {
        let rest = keep_unincluded(m.drop_first(), b);
        if block_has_tx_hash(b, tx_hash(m[0].transaction)) {
            rest
        } else {
            seq![m[0]] + rest
        }
    }
}

pub proof fn lemma_keep_unincluded_snoc(m: Seq<MemV>, e: MemV, b: BlockV)
    ensures
        keep_unincluded(m.push(e), b) == if block_has_tx_hash(b, tx_hash(e.transaction)) {
            keep_unincluded(m, b)
        } else {
            keep_unincluded(m, b).push(e)
        },
    decreases m.len(),
{
    if m.len() == 0 {
        assert(m.push(e).drop_first() =~= Seq::<MemV>::empty());
        assert(keep_unincluded(Seq::<MemV>::empty(), b) == Seq::<MemV>::empty());
        if !block_has_tx_hash(b, tx_hash(e.transaction)) {
            assert(seq![e] + Seq::<MemV>::empty() =~= keep_unincluded(m, b).push(e));
        }
    } else {
        lemma_keep_unincluded_snoc(m.drop_first(), e, b);
        assert(m.push(e).drop_first() =~= m.drop_first().push(e));
        assert(m.push(e)[0] == m[0]);
        if !block_has_tx_hash(b, tx_hash(e.transaction)) {
            if !block_has_tx_hash(b, tx_hash(m[0].transaction)) {
                assert(seq![m[0]] + keep_unincluded(m.drop_first(), b).push(e) =~= (
                seq![m[0]] + keep_unincluded(m.drop_first(), b)).push(e));
            }
        }
    }
}

/// Every fee in the kept entries already occurred at or below the given
/// bound.
pub proof fn lemma_keep_unincluded_fee_bound(m: Seq<MemV>, b: BlockV, f: u64)
    requires
        forall|i: int| 0 <= i < m.len() ==> (#[trigger] m[i]).fee <= f,
    ensures
        forall|i: int|
            0 <= i < keep_unincluded(m, b).len() ==> (#[trigger] keep_unincluded(m, b)[i]).fee
                <= f,
    decreases m.len(),
{
    if m.len() > 0 {
        assert(forall|i: int|
            0 <= i < m.drop_first().len() ==> (#[trigger] m.drop_first()[i]).fee <= f);
        lemma_keep_unincluded_fee_bound(m.drop_first(), b, f);
        let rest = keep_unincluded(m.drop_first(), b);
        if block_has_tx_hash(b, tx_hash(m[0].transaction)) {
        } else {
            let k = seq![m[0]] + rest;
            assert forall|i: int| 0 <= i < k.len() implies (#[trigger] k[i]).fee <= f by {
                if i > 0 {
                    assert(k[i] == rest[i - 1]);
                }
            }
        }
    }
}

/// Dropping included transactions keeps the mempool sorted.
pub proof fn lemma_keep_unincluded_sorted(m: Seq<MemV>, b: BlockV)
    requires
        mempool_sorted(m),
    ensures
        mempool_sorted(keep_unincluded(m, b)),
    decreases m.len(),
{
    if m.len() > 0 {
        assert(mempool_sorted(m.drop_first()));
        lemma_keep_unincluded_sorted(m.drop_first(), b);
        assert(forall|i: int|
            0 <= i < m.drop_first().len() ==> (#[trigger] m.drop_first()[i]).fee
                <= m[0].fee);
        lemma_keep_unincluded_fee_bound(m.drop_first(), b, m[0].fee);
        if !block_has_tx_hash(b, tx_hash(m[0].transaction)) {
            let k = seq![m[0]] + keep_unincluded(m.drop_first(), b);
            assert forall|i: int, j: int| 0 <= i < j < k.len() implies (
            #[trigger] k[i]).fee >= (#[trigger] k[j]).fee by {
                if i > 0 {
                    assert(k[i] == keep_unincluded(m.drop_first(), b)[i - 1]);
                }
                assert(k[j] == keep_unincluded(m.drop_first(), b)[j - 1]);
            }
        }
    }
}

/// The acceptance rule for a new block; see [`Blockchain::add_block`].
pub open spec fn add_block_check(c: ChainV, b: BlockV) -> Result<(), BtcError> {
    if c.blocks.len() == 0 {
        if b.header.prev_block_hash != 0 {
            Err(BtcError::InvalidBlock)
        } else {
            Ok(())
        }
    } else {
        let last = c.blocks.last();
        if b.header.prev_block_hash != header_hash(last.header) {
            Err(BtcError::InvalidBlock)
        } else if !(header_hash(b.header) <= b.header.target) {
            Err(BtcError::InvalidBlock)
        } else if b.transactions.len() == 0 {
            Err(BtcError::InvalidTransaction)
        } else if b.header.merkle_root != crate::util::merkle_root_of_txs(b.transactions) {
            Err(BtcError::InvalidMerkleRoot)
        } else if b.header.timestamp <= last.header.timestamp {
            Err(BtcError::InvalidBlock)
        } else {
            verify_transactions_spec(b, c.blocks.len() as u64, c.utxos)
        }
    }
}

impl Blockchain {
    /// Tries to append a block. A genesis block needs only a zero previous
    /// hash; any later block must extend the tip, meet its own
    /// proof-of-work target, commit to its transactions through the Merkle
    /// root, move time forward, and pass the transaction checks. On
    /// success the included transactions leave the mempool, the block is
    /// appended, and the difficulty target is adjusted; a rejected block
    /// changes nothing. The UTXO set is not updated here: callers
    /// rebuild it.
    pub fn add_block(&mut self, block: Block) -> (r: Result<(), BtcError>)
        requires
            old(self).wf(),
        ensures
            final(self).wf(),
            r == add_block_check(old(self)@, block@),
            r is Ok ==> final(self)@.blocks == old(self)@.blocks.push(block@)
                && final(self)@.mempool == keep_unincluded(old(self)@.mempool, block@)
                && final(self)@.utxos == old(self)@.utxos && final(self)@.target
                == retarget(old(self)@.blocks.push(block@), old(self)@.target),
            r is Err ==> final(self)@ == old(self)@,
    {
        let ghost pre: ChainV = self@;
        proof {
            vstd::std_specs::vec::axiom_spec_len(&self.blocks);
        }
        let height: u64 = self.block_height();
        if self.blocks.len() == 0 {
            if !block.header.prev_block_hash.same(&crate::sha256::Hash::zero()) {
                return Err(BtcError::InvalidBlock);
            }
        } else {
            let last_hash = self.blocks[self.blocks.len() - 1].header.hash();
            proof {
                assert(pre.blocks.last() == self.blocks@[self.blocks@.len() - 1]@);
            }
            if !block.header.prev_block_hash.same(&last_hash) {
                return Err(BtcError::InvalidBlock);
            }
            if !block.header.hash().matches_target(block.header.target) {
                return Err(BtcError::InvalidBlock);
            }
            if block.transactions.len() == 0 {
                return Err(BtcError::InvalidTransaction);
            }
            let calculated = crate::util::MerkleRoot::calculature(&block.transactions);
            if !block.header.merkle_root.0.same(&calculated.0) {
                return Err(BtcError::InvalidMerkleRoot);
            }
            if block.header.timestamp <= self.blocks[self.blocks.len() - 1].header.timestamp {
                return Err(BtcError::InvalidBlock);
            }
            match block.verify_transactions(height, &self.utxos) {
                Ok(_) => {},
                Err(e) => {
                    return Err(e);
                },
            }
        }
        let mut block_hashes: Vec<crate::sha256::Hash> = Vec::new();
        let mut i: usize = 0;
        while i < block.transactions.len()
            invariant
                i <= block.transactions@.len(),
                block_hashes@.len() == i,
                forall|j: int| 0 <= j < i ==> (#[trigger] block_hashes@[j])@ == tx_hash(
                    block@.transactions[j],
                ),
            decreases block.transactions@.len() - i,
        {
            let h = block.transactions[i].hash();
            block_hashes.push(h);
            i = i + 1;
        }
        let mut kept: Vec<MempoolEntry> = Vec::new();
        let mut k: usize = 0;
        proof {
            assert(pre.mempool.subrange(0, 0) =~= Seq::<MemV>::empty());
            assert(keep_unincluded(Seq::<MemV>::empty(), block@) == Seq::<MemV>::empty());
            assert(kept@.map_values(|m: MempoolEntry| m@) =~= Seq::<MemV>::empty());
        }
        while k < self.mempool.len()
            invariant
                k <= self.mempool@.len(),
                pre.mempool == self.mempool@.map_values(|m: MempoolEntry| m@),
                block_hashes@.len() == block.transactions@.len(),
                forall|j: int|
                    0 <= j < block_hashes@.len() ==> (#[trigger] block_hashes@[j])@
                        == tx_hash(block@.transactions[j]),
                kept@.map_values(|m: MempoolEntry| m@) == keep_unincluded(
                    pre.mempool.subrange(0, k as int),
                    block@,
                ),
            decreases self.mempool@.len() - k,
        {
            let th = self.mempool[k].transaction.hash();
            let mut found: bool = false;
            let mut q: usize = 0;
            while q < block_hashes.len()
                invariant
                    q <= block_hashes@.len(),
                    forall|j: int|
                        0 <= j < block_hashes@.len() ==> (#[trigger] block_hashes@[j])@
                            == tx_hash(block@.transactions[j]),
                    th@ == tx_hash(pre.mempool[k as int].transaction),
                    k < pre.mempool.len(),
                    found == exists|j: int|
                        0 <= j < q && tx_hash(#[trigger] block@.transactions[j]) == th@,
                decreases block_hashes@.len() - q,
            {
                if block_hashes[q].same(&th) {
                    found = true;
                }
                q = q + 1;
            }
            proof {
                assert(found == block_has_tx_hash(block@, th@));
                lemma_keep_unincluded_snoc(
                    pre.mempool.subrange(0, k as int),
                    pre.mempool[k as int],
                    block@,
                );
                assert(pre.mempool.subrange(0, k as int).push(pre.mempool[k as int])
                    =~= pre.mempool.subrange(0, k + 1));
            }
            if !found {
                let e = MempoolEntry {
                    timestamp: self.mempool[k].timestamp,
                    fee: self.mempool[k].fee,
                    transaction: self.mempool[k].transaction.duplicate(),
                };
                proof {
                    assert(e@ == pre.mempool[k as int]);
                }
                kept.push(e);
                proof {
                    assert(kept@.map_values(|m: MempoolEntry| m@) =~= kept@.drop_last()
                        .map_values(|m: MempoolEntry| m@).push(e@));
                }
            }
            k = k + 1;
        }
        proof {
            assert(pre.mempool.subrange(0, pre.mempool.len() as int) =~= pre.mempool);
        }
        self.mempool = kept;
        self.blocks.push(block);
        proof {
            assert(self@.blocks =~= pre.blocks.push(self.blocks@[self.blocks@.len()
                - 1]@));
            lemma_keep_unincluded_sorted(pre.mempool, self.blocks@[self.blocks@.len()
                - 1]@);
        }
        self.try_adjust_target();
        Ok(())
    }
}

/// Whether a transaction consumes the output keyed `h`.
pub open spec fn tx_consumes(t: TxV, h: int) -> bool {
    exists|j: int| 0 <= j < t.inputs.len() && (#[trigger] t.inputs[j]).prev_tx_output_hash
        == h
}

/// Whether a transaction produces an output whose hash is `h`.
pub open spec fn tx_produces(t: TxV, h: int) -> bool {
    exists|j: int| 0 <= j < t.outputs.len() && output_hash(#[trigger] t.outputs[j]) == h
}

/// The first mempool entry from `idx` on whose transaction consumes `h`,
/// or the length if none does.
pub open spec fn mem_find_consumer(m: Seq<MemV>, h: int, idx: int) -> int
    decreases m.len() - idx,
{
    if idx < 0 || idx >= m.len() {
        m.len() as int
    } else if tx_consumes(m[idx].transaction, h) {
        idx
    } else {
        mem_find_consumer(m, h, idx + 1)
    }
}

/// The first mempool entry from `idx` on whose transaction produces `h`,
/// or the length if none does.
pub open spec fn mem_find_producer(m: Seq<MemV>, h: int, idx: int) -> int
    decreases m.len() - idx,
{
    if idx < 0 || idx >= m.len() {
        m.len() as int
    } else if tx_produces(m[idx].transaction, h) {
        idx
    } else {
        mem_find_producer(m, h, idx + 1)
    }
}

/// Clearing the reservation marks of a transaction's inputs, left to
/// right.
pub open spec fn spec_unmark_inputs(u: Seq<EntryV>, ins: Seq<InputV>, idx: int) -> Seq<
    EntryV,
>
    decreases ins.len() - idx,
{
    if idx < 0 || idx >= ins.len() {
        u
    } else {
        spec_unmark_inputs(
            spec_set_marked(u, ins[idx].prev_tx_output_hash, false),
            ins,
            idx + 1,
        )
    }
}

/// Setting the reservation marks of a transaction's inputs, left to right.
pub open spec fn spec_mark_inputs(u: Seq<EntryV>, ins: Seq<InputV>, idx: int) -> Seq<
    EntryV,
>
    decreases ins.len() - idx,
{
    if idx < 0 || idx >= ins.len() {
        u
    } else {
        spec_mark_inputs(spec_set_marked(u, ins[idx].prev_tx_output_hash, true), ins, idx
            + 1)
    }
}

/// The conflict rule for one reserved output: the pending transaction
/// holding the reservation leaves the pool and all of its reservations are
/// released; a transaction that consumes the output is preferred, then one
/// that produced it; if none is found the single mark is cleared.
pub open spec fn spec_evict_for(u: Seq<EntryV>, m: Seq<MemV>, h: int) -> (Seq<EntryV>, Seq<
    MemV,
>) {
    if utxo_contains(u, h) && utxo_get(u, h).marked {
        let ci = mem_find_consumer(m, h, 0);
        if ci < m.len() {
            (spec_unmark_inputs(u, m[ci].transaction.inputs, 0), m.remove(ci))
        } else {
            let pi = mem_find_producer(m, h, 0);
            if pi < m.len() {
                (spec_unmark_inputs(u, m[pi].transaction.inputs, 0), m.remove(pi))
            } else {
                (spec_set_marked(u, h, false), m)
            }
        }
    } else {
        (u, m)
    }
}

/// The conflict rule applied for each input of the arriving transaction,
/// left to right.
pub open spec fn spec_evict_conflicts(
    u: Seq<EntryV>,
    m: Seq<MemV>,
    ins: Seq<InputV>,
    idx: int,
) -> (Seq<EntryV>, Seq<MemV>)
    decreases ins.len() - idx,
{
    if idx < 0 || idx >= ins.len() {
        (u, m)
    } else {
        let (u2, m2) = spec_evict_for(u, m, ins[idx].prev_tx_output_hash);
        spec_evict_conflicts(u2, m2, ins, idx + 1)
    }
}

/// The summed value of the outputs a transaction's inputs reference.
pub open spec fn mem_input_sum(ins: Seq<InputV>, u: Seq<EntryV>, idx: int) -> int
    decreases ins.len() - idx,
{
    if idx < 0 || idx >= ins.len() {
        0
    } else {
        utxo_get(u, ins[idx].prev_tx_output_hash).output.value + mem_input_sum(ins, u, idx
            + 1)
    }
}

/// Every input references a present output.
pub open spec fn inputs_known(ins: Seq<InputV>, u: Seq<EntryV>) -> bool {
    forall|j: int| 0 <= j < ins.len() ==> utxo_contains(
        u,
        (#[trigger] ins[j]).prev_tx_output_hash,
    )
}

/// No two inputs reference the same output.
pub open spec fn inputs_distinct(ins: Seq<InputV>) -> bool {
    forall|i: int, j: int|
        0 <= i < j < ins.len() ==> (#[trigger] ins[i]).prev_tx_output_hash != (
        #[trigger] ins[j]).prev_tx_output_hash
}

/// The position a new entry with this fee takes in the fee-sorted pool:
/// after every entry with an equal or higher fee.
pub open spec fn insert_pos(m: Seq<MemV>, fee: u64, idx: int) -> int
    decreases m.len() - idx,
{
    if idx < 0 || idx >= m.len() {
        m.len() as int
    } else if m[idx].fee < fee {
        idx
    } else {
        insert_pos(m, fee, idx + 1)
    }
}

pub proof fn lemma_insert_pos_props(m: Seq<MemV>, fee: u64, idx: int)
    requires
        0 <= idx <= m.len(),
    ensures
        idx <= insert_pos(m, fee, idx) <= m.len(),
        forall|i: int| idx <= i < insert_pos(m, fee, idx) ==> (#[trigger] m[i]).fee >= fee,
        insert_pos(m, fee, idx) < m.len() ==> m[insert_pos(m, fee, idx)].fee < fee,
    decreases m.len() - idx,
{
    if idx < m.len() && m[idx].fee >= fee {
        lemma_insert_pos_props(m, fee, idx + 1);
    }
}

/// Inserting at the computed position keeps the pool sorted.
pub proof fn lemma_insert_sorted(m: Seq<MemV>, e: MemV)
    requires
        mempool_sorted(m),
    ensures
        mempool_sorted(m.insert(insert_pos(m, e.fee, 0), e)),
{
    lemma_insert_pos_props(m, e.fee, 0);
    let p = insert_pos(m, e.fee, 0);
    let t = m.insert(p, e);
    assert forall|i: int, j: int| 0 <= i < j < t.len() implies (#[trigger] t[i]).fee >= (
    #[trigger] t[j]).fee by {
        if i < p {
            assert(t[i] == m[i]);
        } else if i == p {
            assert(t[i] == e);
        } else {
            assert(t[i] == m[i - 1]);
        }
        if j < p {
            assert(t[j] == m[j]);
        } else if j == p {
            assert(t[j] == e);
        } else {
            assert(t[j] == m[j - 1]);
        }
    }
}

/// Removing an entry keeps the pool sorted.
pub proof fn lemma_remove_sorted(m: Seq<MemV>, i: int)
    requires
        mempool_sorted(m),
        0 <= i < m.len(),
    ensures
        mempool_sorted(m.remove(i)),
{
    let t = m.remove(i);
    assert forall|a: int, b: int| 0 <= a < b < t.len() implies (#[trigger] t[a]).fee >= (
    #[trigger] t[b]).fee by {
        let a2 = if a < i {
            a
        } else {
            a + 1
        };
        let b2 = if b < i {
            b
        } else {
            b + 1
        };
        assert(t[a] == m[a2] && t[b] == m[b2]);
    }
}

/// The pool after admitting a transaction with the given fee at time
/// `now`.
pub open spec fn admitted_mempool(m: Seq<MemV>, fee: u64, t: TxV, now: u64) -> Seq<MemV> {
    m.insert(insert_pos(m, fee, 0), MemV { timestamp: now, fee, transaction: t })
}

/// Whether the admission conditions of `add_to_mempool` hold: inputs
/// known and distinct, and the referenced values cover the outputs with a
/// fee in the 64-bit range.
pub open spec fn admits(c: ChainV, t: TxV) -> bool {
    let em = spec_evict_conflicts(c.utxos, c.mempool, t.inputs, 0);
    let isum = mem_input_sum(t.inputs, em.0, 0);
    let osum = crate::types::block::sum_outputs_from(t.outputs, 0);
    &&& inputs_known(t.inputs, c.utxos)
    &&& inputs_distinct(t.inputs)
    &&& isum >= osum
    &&& isum - osum <= 0xFFFF_FFFF_FFFF_FFFFint
}

/// How one admission attempt moves the chain state, for a transaction
/// stamped at some drawn time: blocks and target are untouched; an invalid
/// input set changes nothing; an uncovered value leaves only the conflict
/// pass's evictions; an admitted transaction is reserved and pooled.
pub open spec fn admission_outcome(pre: ChainV, post: ChainV, t: TxV) -> bool {
    let em = spec_evict_conflicts(pre.utxos, pre.mempool, t.inputs, 0);
    let isum = mem_input_sum(t.inputs, em.0, 0);
    let osum = crate::types::block::sum_outputs_from(t.outputs, 0);
    &&& post.blocks == pre.blocks
    &&& post.target == pre.target
    &&& if !(inputs_known(t.inputs, pre.utxos) && inputs_distinct(t.inputs)) {
        post == pre
    } else if isum < osum || isum - osum > 0xFFFF_FFFF_FFFF_FFFFint {
        post.utxos == em.0 && post.mempool == em.1
    } else {
        post.utxos == spec_mark_inputs(em.0, t.inputs, 0) && exists|now: u64|
            post.mempool == #[trigger] admitted_mempool(
                em.1,
                (isum - osum) as u64,
                t,
                now,
            )
    }
}

/// Whether the transaction consumes `h`; mirrors [`tx_consumes`].
fn tx_consumes_exec(t: &Transaction, h: &crate::sha256::Hash) -> (r: bool)
    ensures
        r == tx_consumes(t@, h@),
{
    let n: usize = t.inputs.len();
    let mut i: usize = 0;
    while i < n
        invariant
            n == t.inputs@.len(),
            i <= n,
            forall|j: int| 0 <= j < i ==> (#[trigger] t@.inputs[j]).prev_tx_output_hash
                != h@,
        decreases n - i,
    {
        if t.inputs[i].prev_tx_output_hash.same(h) {
            proof {
                assert(t@.inputs[i as int].prev_tx_output_hash == h@);
            }
            return true;
        }
        i = i + 1;
    }
    false
}

/// Whether the transaction produces an output hashing to `h`; mirrors
/// [`tx_produces`].
fn tx_produces_exec(t: &Transaction, h: &crate::sha256::Hash) -> (r: bool)
    ensures
        r == tx_produces(t@, h@),
{
    let n: usize = t.outputs.len();
    let mut i: usize = 0;
    while i < n
        invariant
            n == t.outputs@.len(),
            i <= n,
            forall|j: int| 0 <= j < i ==> output_hash(#[trigger] t@.outputs[j]) != h@,
        decreases n - i,
    {
        let oh = t.outputs[i].hash();
        if oh.same(h) {
            proof {
                assert(output_hash(t@.outputs[i as int]) == h@);
            }
            return true;
        }
        i = i + 1;
    }
    false
}

/// The first entry whose transaction consumes `h`; mirrors
/// [`mem_find_consumer`].
fn find_consumer(m: &Vec<MempoolEntry>, h: &crate::sha256::Hash) -> (r: Option<usize>)
    ensures
        match r {
            Some(i) => i < m@.len() && mem_find_consumer(
                m@.map_values(|x: MempoolEntry| x@),
                h@,
                0,
            ) == i as int,
            None => mem_find_consumer(m@.map_values(|x: MempoolEntry| x@), h@, 0)
                == m@.len() as int,
        },
{
    let n: usize = m.len();
    let mut i: usize = 0;
    while i < n
        invariant
            n == m@.len(),
            i <= n,
            mem_find_consumer(m@.map_values(|x: MempoolEntry| x@), h@, 0)
                == mem_find_consumer(m@.map_values(|x: MempoolEntry| x@), h@, i as int),
        decreases n - i,
    {
        if tx_consumes_exec(&m[i].transaction, h) {
            return Some(i);
        }
        i = i + 1;
    }
    None
}

/// The first entry whose transaction produces `h`; mirrors
/// [`mem_find_producer`].
fn find_producer(m: &Vec<MempoolEntry>, h: &crate::sha256::Hash) -> (r: Option<usize>)
    ensures
        match r {
            Some(i) => i < m@.len() && mem_find_producer(
                m@.map_values(|x: MempoolEntry| x@),
                h@,
                0,
            ) == i as int,
            None => mem_find_producer(m@.map_values(|x: MempoolEntry| x@), h@, 0)
                == m@.len() as int,
        },
{
    let n: usize = m.len();
    let mut i: usize = 0;
    while i < n
        invariant
            n == m@.len(),
            i <= n,
            mem_find_producer(m@.map_values(|x: MempoolEntry| x@), h@, 0)
                == mem_find_producer(m@.map_values(|x: MempoolEntry| x@), h@, i as int),
        decreases n - i,
    {
        if tx_produces_exec(&m[i].transaction, h) {
            return Some(i);
        }
        i = i + 1;
    }
    None
}

/// The fee-sorted position for a new entry; mirrors [`insert_pos`].
fn find_insert_pos(m: &Vec<MempoolEntry>, fee: u64) -> (r: usize)
    ensures
        r as int == insert_pos(m@.map_values(|x: MempoolEntry| x@), fee, 0),
        r <= m@.len(),
{
    let n: usize = m.len();
    let mut i: usize = 0;
    while i < n
        invariant
            n == m@.len(),
            i <= n,
            insert_pos(m@.map_values(|x: MempoolEntry| x@), fee, 0) == insert_pos(
                m@.map_values(|x: MempoolEntry| x@),
                fee,
                i as int,
            ),
        decreases n - i,
    {
        if m[i].fee < fee {
            return i;
        }
        i = i + 1;
    }
    n
}

/// Changing reservation marks never changes which outputs exist nor the
/// outputs themselves.
pub proof fn lemma_set_marked_entries(u: Seq<EntryV>, h: int, mk: bool)
    requires
        utxo_unique(u),
    ensures
        utxo_unique(spec_set_marked(u, h, mk)),
        forall|x: int| #[trigger] utxo_contains(spec_set_marked(u, h, mk), x)
            == utxo_contains(u, x),
        forall|x: int|
            utxo_contains(u, x) ==> (#[trigger] utxo_get(spec_set_marked(u, h, mk), x)).output
                == utxo_get(u, x).output,
{
    if utxo_contains(u, h) {
        let i = utxo_index(u, h);
        crate::types::utxo::lemma_utxo_get_at(u, i);
        let e = EntryV { hash: h, marked: mk, output: u[i].output };
        crate::types::utxo::lemma_upsert_frame(u, i, e);
        let t = spec_set_marked(u, h, mk);
        assert forall|x: int| utxo_contains(u, x) implies (#[trigger] utxo_get(t, x)).output
            == utxo_get(u, x).output by {
            if x == h {
                assert(utxo_get(t, h) == e);
            }
        }
    }
}

pub proof fn lemma_unmark_inputs_entries(u: Seq<EntryV>, ins: Seq<InputV>, idx: int)
    requires
        utxo_unique(u),
    ensures
        utxo_unique(spec_unmark_inputs(u, ins, idx)),
        forall|x: int| #[trigger] utxo_contains(spec_unmark_inputs(u, ins, idx), x)
            == utxo_contains(u, x),
        forall|x: int|
            utxo_contains(u, x) ==> (#[trigger] utxo_get(spec_unmark_inputs(u, ins, idx), x)).output
                == utxo_get(u, x).output,
    decreases ins.len() - idx,
{
    if idx < 0 || idx >= ins.len() {
    } else {
        lemma_set_marked_entries(u, ins[idx].prev_tx_output_hash, false);
        lemma_unmark_inputs_entries(
            spec_set_marked(u, ins[idx].prev_tx_output_hash, false),
            ins,
            idx + 1,
        );
    }
}

pub proof fn lemma_evict_entries(u: Seq<EntryV>, m: Seq<MemV>, ins: Seq<InputV>, idx: int)
    requires
        utxo_unique(u),
    ensures
        utxo_unique(spec_evict_conflicts(u, m, ins, idx).0),
        forall|x: int| #[trigger] utxo_contains(spec_evict_conflicts(u, m, ins, idx).0, x)
            == utxo_contains(u, x),
        forall|x: int|
            utxo_contains(u, x) ==> (#[trigger] utxo_get(
                spec_evict_conflicts(u, m, ins, idx).0,
                x,
            )).output == utxo_get(u, x).output,
    decreases ins.len() - idx,
{
    if idx < 0 || idx >= ins.len() {
    } else {
        let h = ins[idx].prev_tx_output_hash;
        let (u2, m2) = spec_evict_for(u, m, h);
        if utxo_contains(u, h) && utxo_get(u, h).marked {
            let ci = mem_find_consumer(m, h, 0);
            if ci < m.len() {
                lemma_unmark_inputs_entries(u, m[ci].transaction.inputs, 0);
            } else {
                let pi = mem_find_producer(m, h, 0);
                if pi < m.len() {
                    lemma_unmark_inputs_entries(u, m[pi].transaction.inputs, 0);
                } else {
                    lemma_set_marked_entries(u, h, false);
                }
            }
        }
        lemma_evict_entries(u2, m2, ins, idx + 1);
    }
}

/// Sums the referenced output values; mirrors [`mem_input_sum`].
fn mem_input_sum_exec(ins: &Vec<TransactionInput>, utxos: &UtxoSet, idx: usize) -> (r:
    u128)
    requires
        utxos.wf(),
        idx <= ins@.len(),
        inputs_known(ins@.map_values(|x: TransactionInput| x@), utxos@),
    ensures
        r as int == mem_input_sum(
            ins@.map_values(|x: TransactionInput| x@),
            utxos@,
            idx as int,
        ),
        r as int <= (ins@.len() - idx) * 0xFFFF_FFFF_FFFF_FFFFint,
    decreases ins@.len() - idx,
{
    let ghost iv = ins@.map_values(|x: TransactionInput| x@);
    if idx == ins.len() {
        return 0;
    }
    let h = ins[idx].prev_tx_output_hash;
    let found = match utxos.find(&h) {
        Some(i) => i,
        None => {
            proof {
                assert(utxo_contains(utxos@, iv[idx as int].prev_tx_output_hash));
                assert(false);
            }
            0
        },
    };
    proof {
        crate::types::utxo::lemma_utxo_get_at(utxos@, found as int);
        assert(utxos@[found as int] == utxos.entries@[found as int]@);
    }
    let v: u64 = utxos.entries[found].output.value;
    let rest: u128 = mem_input_sum_exec(ins, utxos, idx + 1);
    proof {
        vstd::std_specs::vec::axiom_spec_len(ins);
        assert((v as int) + rest <= (iv.len() - idx) * 0xFFFF_FFFF_FFFF_FFFFint && (
        iv.len() - idx) * 0xFFFF_FFFF_FFFF_FFFFint
            < 0x1_0000_0000_0000_0000_0000_0000_0000_0000int) by (nonlinear_arith)
            requires
                rest <= (iv.len() - idx - 1) * 0xFFFF_FFFF_FFFF_FFFFint,
                v <= 0xFFFF_FFFF_FFFF_FFFFu64,
                0 <= idx < iv.len(),
                iv.len() < 0x1_0000_0000_0000_0000int,
        ;
    }
    v as u128 + rest
}

/// The current time in whole seconds since the epoch, clamped at zero.
///
/// Relies on `chrono::Utc::now` and `DateTime::timestamp`. `Utc::now`
/// itself aborts when the system clock is set before 1970; the clamp below
/// is defensive only.
#[verifier::external_body]
fn now_seconds() -> (r: u64) {
    let t = chrono::Utc::now().timestamp();
    if t < 0 {
        0
    } else {
        t as u64
    }
}

impl Blockchain {
    /// Admits a pending transaction at time `now`. Its inputs must all
    /// reference known outputs, with no duplicates, and must cover its
    /// outputs; any input already reserved evicts the pending transaction
    /// holding the reservation (see [`spec_evict_for`]). On success every
    /// input is reserved and the entry joins the pool at its fee-sorted
    /// position. A rejection for unknown or duplicate inputs changes
    /// nothing; a rejection for an uncovered value leaves the evictions in
    /// place, as the conflict pass has already run.
    pub fn add_to_mempool_at(&mut self, transaction: Transaction, now: u64) -> (r: Result<
        (),
        BtcError,
    >)
        requires
            old(self).wf(),
        ensures
            final(self).wf(),
            final(self)@.blocks == old(self)@.blocks,
            final(self)@.target == old(self)@.target,
            ({
                let ins = transaction@.inputs;
                let c0 = inputs_known(ins, old(self)@.utxos) && inputs_distinct(ins);
                let em = spec_evict_conflicts(old(self)@.utxos, old(self)@.mempool, ins, 0);
                let isum = mem_input_sum(ins, em.0, 0);
                let osum = crate::types::block::sum_outputs_from(transaction@.outputs, 0);
                if !c0 {
                    r == Err::<(), BtcError>(BtcError::InvalidTransaction) && final(self)@
                        == old(self)@
                } else if isum < osum || isum - osum > 0xFFFF_FFFF_FFFF_FFFFint {
                    r == Err::<(), BtcError>(BtcError::InvalidTransaction) && final(self)@.utxos
                        == em.0 && final(self)@.mempool == em.1
                } else {
                    r == Ok::<(), BtcError>(()) && final(self)@.utxos == spec_mark_inputs(
                        em.0,
                        ins,
                        0,
                    ) && final(self)@.mempool == em.1.insert(
                        insert_pos(em.1, (isum - osum) as u64, 0),
                        MemV {
                            timestamp: now,
                            fee: (isum - osum) as u64,
                            transaction: transaction@,
                        },
                    )
                }
            }),
    {
        let ghost pre: ChainV = self@;
        let ghost ins: Seq<InputV> = transaction@.inputs;
        let n: usize = transaction.inputs.len();
        let mut i: usize = 0;
        while i < n
            invariant
                n == transaction.inputs@.len(),
                i <= n,
                ins == transaction@.inputs,
                self.wf(),
                self@ == pre,
                forall|j: int| 0 <= j < i ==> utxo_contains(
                    pre.utxos,
                    (#[trigger] ins[j]).prev_tx_output_hash,
                ),
                forall|a: int, b: int|
                    0 <= a < b < i ==> (#[trigger] ins[a]).prev_tx_output_hash != (
                    #[trigger] ins[b]).prev_tx_output_hash,
            decreases n - i,
        {
            let h = transaction.inputs[i].prev_tx_output_hash;
            if !self.utxos.contains(&h) {
                proof {
                    assert(!utxo_contains(pre.utxos, ins[i as int].prev_tx_output_hash));
                    assert(!inputs_known(ins, pre.utxos));
                }
                return Err(BtcError::InvalidTransaction);
            }
            let mut j: usize = 0;
            while j < i
                invariant
                    i < n,
                    n == transaction.inputs@.len(),
                    ins == transaction@.inputs,
                    j <= i,
                    self.wf(),
                    self@ == pre,
                    h@ == ins[i as int].prev_tx_output_hash,
                    forall|a: int| 0 <= a < j ==> (#[trigger] ins[a]).prev_tx_output_hash
                        != h@,
                decreases i - j,
            {
                if transaction.inputs[j].prev_tx_output_hash.same(&h) {
                    proof {
                        assert(ins[j as int].prev_tx_output_hash == ins[
                            i as int].prev_tx_output_hash);
                        assert(!inputs_distinct(ins));
                    }
                    return Err(BtcError::InvalidTransaction);
                }
                j = j + 1;
            }
            i = i + 1;
        }
        proof {
            assert(inputs_known(ins, pre.utxos));
            assert(inputs_distinct(ins));
        }
        // conflict pass: evict reservation holders
        let mut ei: usize = 0;
        while ei < n
            invariant
                n == transaction.inputs@.len(),
                ei <= n,
                ins == transaction@.inputs,
                self.utxos.wf(),
                mempool_sorted(self@.mempool),
                self@.blocks == pre.blocks,
                self@.target == pre.target,
                timestamps_increase(self@.blocks),
                spec_evict_conflicts(pre.utxos, pre.mempool, ins, 0)
                    == spec_evict_conflicts(self@.utxos, self@.mempool, ins, ei as int),
                forall|x: int| #[trigger] utxo_contains(self@.utxos, x) == utxo_contains(
                    pre.utxos,
                    x,
                ),
            decreases n - ei,
        {
            let ghost u_cur: Seq<EntryV> = self@.utxos;
            let ghost m_cur: Seq<MemV> = self@.mempool;
            let h = transaction.inputs[ei].prev_tx_output_hash;
            let marked = match self.utxos.find(&h) {
                Some(k) => {
                    proof {
                        crate::types::utxo::lemma_utxo_get_at(u_cur, k as int);
                        assert(u_cur[k as int] == self.utxos.entries@[k as int]@);
                    }
                    self.utxos.entries[k].marked
                },
                None => false,
            };
            if marked {
                // look for the pending transaction that consumes this output
                match find_consumer(&self.mempool, &h) {
                    Some(ci) => {
                        self.unmark_entry_inputs(ci);
                        self.mempool.remove(ci);
                        proof {
                            lemma_remove_sorted(m_cur, ci as int);
                            lemma_unmark_inputs_entries(
                                u_cur,
                                m_cur[ci as int].transaction.inputs,
                                0,
                            );
                            assert(self@.mempool =~= m_cur.remove(ci as int));
                        }
                    },
                    None => {
                        // none consumes it; look for one that produced it
                        match find_producer(&self.mempool, &h) {
                            Some(pi) => {
                                self.unmark_entry_inputs(pi);
                                self.mempool.remove(pi);
                                proof {
                                    lemma_remove_sorted(m_cur, pi as int);
                                    lemma_unmark_inputs_entries(
                                        u_cur,
                                        m_cur[pi as int].transaction.inputs,
                                        0,
                                    );
                                    assert(self@.mempool =~= m_cur.remove(pi as int));
                                }
                            },
                            None => {
                                self.utxos.set_marked(&h, false);
                                proof {
                                    lemma_set_marked_entries(u_cur, h@, false);
                                }
                            },
                        }
                    },
                }
            }
            ei = ei + 1;
        }
        proof {
            lemma_evict_entries(pre.utxos, pre.mempool, ins, 0);
            assert(inputs_known(ins, self@.utxos));
        }
        // the inputs must cover the outputs; the difference is the fee
        let isum: u128 = mem_input_sum_exec(&transaction.inputs, &self.utxos, 0);
        proof {
            vstd::std_specs::vec::axiom_spec_len(&transaction.outputs);
        }
        let osum: u128 = crate::types::block::sum_outputs(&transaction.outputs, 0);
        if isum < osum {
            return Err(BtcError::InvalidTransaction);
        }
        let fee128: u128 = isum - osum;
        if fee128 > 0xFFFF_FFFF_FFFF_FFFFu128 {
            return Err(BtcError::InvalidTransaction);
        }
        let fee: u64 = fee128 as u64;
        let ghost u1: Seq<EntryV> = self@.utxos;
        let ghost m1: Seq<MemV> = self@.mempool;
        // reserve every input
        let mut mi: usize = 0;
        while mi < n
            invariant
                n == transaction.inputs@.len(),
                mi <= n,
                ins == transaction@.inputs,
                self.utxos.wf(),
                self@.mempool == m1,
                self@.blocks == pre.blocks,
                self@.target == pre.target,
                timestamps_increase(self@.blocks),
                mempool_sorted(self@.mempool),
                spec_mark_inputs(u1, ins, 0) == spec_mark_inputs(self@.utxos, ins, mi as int),
            decreases n - mi,
        {
            let h = transaction.inputs[mi].prev_tx_output_hash;
            self.utxos.set_marked(&h, true);
            mi = mi + 1;
        }
        // append at the fee-sorted position, after any equal fee
        let pos: usize = find_insert_pos(&self.mempool, fee);
        let entry = MempoolEntry { timestamp: now, fee, transaction };
        proof {
            lemma_insert_sorted(m1, entry@);
        }
        self.mempool.insert(pos, entry);
        proof {
            assert(self@.mempool =~= m1.insert(pos as int, entry@));
        }
        Ok(())
    }

    /// Clears the reservation marks of the inputs of the mempool entry at
    /// `idx`.
    fn unmark_entry_inputs(&mut self, idx: usize)
        requires
            old(self).utxos.wf(),
            idx < old(self)@.mempool.len(),
        ensures
            final(self).utxos.wf(),
            final(self)@.utxos == spec_unmark_inputs(
                old(self)@.utxos,
                old(self)@.mempool[idx as int].transaction.inputs,
                0,
            ),
            final(self)@.mempool == old(self)@.mempool,
            final(self)@.blocks == old(self)@.blocks,
            final(self)@.target == old(self)@.target,
            final(self).blocks@ == old(self).blocks@,
            final(self).mempool@ == old(self).mempool@,
    {
        let ghost u0: Seq<EntryV> = self@.utxos;
        let ghost tins: Seq<InputV> = self@.mempool[idx as int].transaction.inputs;
        let n: usize = self.mempool[idx].transaction.inputs.len();
        let mut j: usize = 0;
        while j < n
            invariant
                idx < self.mempool@.len(),
                n == self.mempool@[idx as int].transaction.inputs@.len(),
                j <= n,
                tins == self@.mempool[idx as int].transaction.inputs,
                self.utxos.wf(),
                self.mempool@ == old(self).mempool@,
                self.blocks@ == old(self).blocks@,
                self.target == old(self).target,
                spec_unmark_inputs(u0, tins, 0) == spec_unmark_inputs(
                    self@.utxos,
                    tins,
                    j as int,
                ),
            decreases n - j,
        {
            let h = self.mempool[idx].transaction.inputs[j].prev_tx_output_hash;
            proof {
                assert(tins[j as int].prev_tx_output_hash == h@);
            }
            self.utxos.set_marked(&h, false);
            j = j + 1;
        }
    }

    /// Admits a pending transaction, stamped with the current time; see
    /// [`Blockchain::add_to_mempool_at`].
    pub fn add_to_mempool(&mut self, transaction: Transaction) -> (r: Result<
        (),
        BtcError,
    >)
        requires
            old(self).wf(),
        ensures
            final(self).wf(),
            admission_outcome(old(self)@, final(self)@, transaction@),
            r == (if admits(old(self)@, transaction@) {
                Ok::<(), BtcError>(())
            } else {
                Err::<(), BtcError>(BtcError::InvalidTransaction)
            }),
    {
        let now: u64 = now_seconds();
        let ghost em = spec_evict_conflicts(self@.utxos, self@.mempool, transaction@.inputs, 0);
        let ghost tv: TxV = transaction@;
        let r = self.add_to_mempool_at(transaction, now);
        proof {
            let ins = tv.inputs;
            let isum = mem_input_sum(ins, em.0, 0);
            let osum = crate::types::block::sum_outputs_from(tv.outputs, 0);
            if inputs_known(ins, old(self)@.utxos) && inputs_distinct(ins) && isum >= osum
                && isum - osum <= 0xFFFF_FFFF_FFFF_FFFFint {
                assert(final(self)@.mempool == admitted_mempool(
                    em.1,
                    (isum - osum) as u64,
                    tv,
                    now,
                ));
            }
            assert(admission_outcome(old(self)@, final(self)@, tv));
        }
        r
    }
}

/// Whether a pool entry has outlived the maximum age at time `now`.
pub open spec fn entry_expired(e: MemV, now: u64) -> bool {
    now as int - e.timestamp as int > crate::MAX_MEMPOOL_TRANSACTION_AGE as int
}

/// The aging rule: expired entries leave the pool and their reservations
/// are released; the rest keep their order.
pub open spec fn spec_cleanup(u: Seq<EntryV>, m: Seq<MemV>, now: u64) -> (Seq<EntryV>, Seq<
    MemV,
>)
    decreases m.len(),
{
    if m.len() == 0 {
        (u, Seq::empty())
    } else if entry_expired(m[0], now) {
        spec_cleanup(spec_unmark_inputs(u, m[0].transaction.inputs, 0), m.drop_first(), now)
    } else {
        let r = spec_cleanup(u, m.drop_first(), now);
        (r.0, seq![m[0]] + r.1)
    }
}

pub proof fn lemma_cleanup_fee_bound(u: Seq<EntryV>, m: Seq<MemV>, now: u64, f: u64)
    requires
        forall|i: int| 0 <= i < m.len() ==> (#[trigger] m[i]).fee <= f,
    ensures
        forall|i: int|
            0 <= i < spec_cleanup(u, m, now).1.len() ==> (#[trigger] spec_cleanup(
                u,
                m,
                now,
            ).1[i]).fee <= f,
    decreases m.len(),
{
    if m.len() > 0 {
        assert(forall|i: int|
            0 <= i < m.drop_first().len() ==> (#[trigger] m.drop_first()[i]).fee <= f);
        if entry_expired(m[0], now) {
            let u2 = spec_unmark_inputs(u, m[0].transaction.inputs, 0);
            lemma_cleanup_fee_bound(u2, m.drop_first(), now, f);
            assert forall|i: int| 0 <= i < spec_cleanup(u, m, now).1.len() implies (
            #[trigger] spec_cleanup(u, m, now).1[i]).fee <= f by {
                assert(spec_cleanup(u, m, now).1[i] == spec_cleanup(
                    u2,
                    m.drop_first(),
                    now,
                ).1[i]);
            }
        } else {
            lemma_cleanup_fee_bound(u, m.drop_first(), now, f);
            let rest = spec_cleanup(u, m.drop_first(), now).1;
            let k = seq![m[0]] + rest;
            assert forall|i: int| 0 <= i < k.len() implies (#[trigger] k[i]).fee <= f by {
                if i > 0 {
                    assert(k[i] == rest[i - 1]);
                }
            }
        }
    }
}

/// Aging keeps the pool sorted.
pub proof fn lemma_cleanup_sorted(u: Seq<EntryV>, m: Seq<MemV>, now: u64)
    requires
        mempool_sorted(m),
    ensures
        mempool_sorted(spec_cleanup(u, m, now).1),
    decreases m.len(),
{
    if m.len() > 0 {
        assert(mempool_sorted(m.drop_first()));
        assert(forall|i: int|
            0 <= i < m.drop_first().len() ==> (#[trigger] m.drop_first()[i]).fee
                <= m[0].fee);
        if entry_expired(m[0], now) {
            lemma_cleanup_sorted(
                spec_unmark_inputs(u, m[0].transaction.inputs, 0),
                m.drop_first(),
                now,
            );
        } else {
            lemma_cleanup_sorted(u, m.drop_first(), now);
            let rest = spec_cleanup(u, m.drop_first(), now).1;
            lemma_cleanup_fee_bound(u, m.drop_first(), now, m[0].fee);
            let k = seq![m[0]] + rest;
            assert forall|i: int, j: int| 0 <= i < j < k.len() implies (
            #[trigger] k[i]).fee >= (#[trigger] k[j]).fee by {
                if i > 0 {
                    assert(k[i] == rest[i - 1]);
                }
                assert(k[j] == rest[j - 1]);
            }
        }
    }
}

/// Aging releases reservations but never adds or removes outputs.
pub proof fn lemma_cleanup_entries(u: Seq<EntryV>, m: Seq<MemV>, now: u64)
    requires
        utxo_unique(u),
    ensures
        utxo_unique(spec_cleanup(u, m, now).0),
        forall|x: int| #[trigger] utxo_contains(spec_cleanup(u, m, now).0, x)
            == utxo_contains(u, x),
    decreases m.len(),
{
    if m.len() > 0 {
        if entry_expired(m[0], now) {
            lemma_unmark_inputs_entries(u, m[0].transaction.inputs, 0);
            lemma_cleanup_entries(
                spec_unmark_inputs(u, m[0].transaction.inputs, 0),
                m.drop_first(),
                now,
            );
        } else {
            lemma_cleanup_entries(u, m.drop_first(), now);
        }
    }
}

impl Blockchain {
    /// Ages the pool at time `now`: every entry older than the maximum age
    /// is dropped and the outputs it had reserved are released.
    pub fn clean_up_mempool_at(&mut self, now: u64)
        requires
            old(self).wf(),
        ensures
            final(self).wf(),
            final(self)@.utxos == spec_cleanup(old(self)@.utxos, old(self)@.mempool, now).0,
            final(self)@.mempool == spec_cleanup(
                old(self)@.utxos,
                old(self)@.mempool,
                now,
            ).1,
            final(self)@.blocks == old(self)@.blocks,
            final(self)@.target == old(self)@.target,
    {
        let ghost pre: ChainV = self@;
        let mut kept: Vec<MempoolEntry> = Vec::new();
        let mlen: usize = self.mempool.len();
        let mut k: usize = 0;
        proof {
            assert(kept@.map_values(|x: MempoolEntry| x@) =~= Seq::<MemV>::empty());
            assert(pre.mempool.subrange(0, mlen as int) =~= pre.mempool);
        }
        while k < mlen
            invariant
                mlen == self.mempool@.len(),
                k <= mlen,
                self.utxos.wf(),
                self.mempool@.map_values(|x: MempoolEntry| x@) == pre.mempool,
                self@.blocks == pre.blocks,
                self@.target == pre.target,
                timestamps_increase(self@.blocks),
                spec_cleanup(pre.utxos, pre.mempool, now).0 == spec_cleanup(
                    self@.utxos,
                    pre.mempool.subrange(k as int, mlen as int),
                    now,
                ).0,
                spec_cleanup(pre.utxos, pre.mempool, now).1 == kept@.map_values(
                    |x: MempoolEntry| x@,
                ) + spec_cleanup(
                    self@.utxos,
                    pre.mempool.subrange(k as int, mlen as int),
                    now,
                ).1,
            decreases mlen - k,
        {
            let ghost m_rest: Seq<MemV> = pre.mempool.subrange(k as int, mlen as int);
            proof {
                assert(m_rest[0] == pre.mempool[k as int]);
                assert(m_rest.drop_first() =~= pre.mempool.subrange(k + 1, mlen as int));
            }
            let ts: u64 = self.mempool[k].timestamp;
            let expired: bool = ts < now && now - ts > crate::MAX_MEMPOOL_TRANSACTION_AGE;
            if expired {
                self.unmark_entry_inputs(k);
            } else {
                let e = MempoolEntry {
                    timestamp: self.mempool[k].timestamp,
                    fee: self.mempool[k].fee,
                    transaction: self.mempool[k].transaction.duplicate(),
                };
                proof {
                    assert(e@ == pre.mempool[k as int]);
                }
                kept.push(e);
                proof {
                    assert(kept@.map_values(|x: MempoolEntry| x@) =~= kept@.drop_last()
                        .map_values(|x: MempoolEntry| x@).push(e@));
                    assert(kept@.drop_last().map_values(|x: MempoolEntry| x@).push(e@)
                        + spec_cleanup(self@.utxos, m_rest.drop_first(), now).1
                        =~= kept@.drop_last().map_values(|x: MempoolEntry| x@) + (
                    seq![e@] + spec_cleanup(self@.utxos, m_rest.drop_first(), now).1));
                }
            }
            k = k + 1;
        }
        proof {
            assert(pre.mempool.subrange(mlen as int, mlen as int) =~= Seq::<MemV>::empty());
            lemma_cleanup_sorted(pre.utxos, pre.mempool, now);
            assert(kept@.map_values(|x: MempoolEntry| x@) + Seq::<MemV>::empty()
                =~= kept@.map_values(|x: MempoolEntry| x@));
        }
        self.mempool = kept;
    }

    /// Ages the pool against the current time; see
    /// [`Blockchain::clean_up_mempool_at`].
    pub fn clean_up_mempool(&mut self)
        requires
            old(self).wf(),
        ensures
            final(self).wf(),
            final(self)@.blocks == old(self)@.blocks,
            final(self)@.target == old(self)@.target,
            exists|now: u64|
                final(self)@.utxos == (#[trigger] spec_cleanup(
                    old(self)@.utxos,
                    old(self)@.mempool,
                    now,
                )).0 && final(self)@.mempool == spec_cleanup(
                    old(self)@.utxos,
                    old(self)@.mempool,
                    now,
                ).1,
    {
        let now: u64 = now_seconds();
        self.clean_up_mempool_at(now);
    }
}

pub open spec fn enc_block_seq(s: Seq<BlockV>) -> Seq<u8>
    decreases s.len(),
{
    if s.len() == 0 {
        Seq::empty()
    } else {
        crate::types::block::enc_block(s[0]) + enc_block_seq(s.drop_first())
    }
}

pub open spec fn dec_block_seq(s: Seq<u8>, pos: int, n: nat) -> Option<(Seq<BlockV>, int)>
    decreases n,
{
    if n == 0 {
        Some((Seq::empty(), pos))
    } else {
        match crate::types::block::dec_block(s, pos) {
            Some((v, p)) => match dec_block_seq(s, p, (n - 1) as nat) {
                Some((vs, p2)) => Some((seq![v] + vs, p2)),
                None => None,
            },
            None => None,
        }
    }
}

/// The checkpoint encoding of the chain: the difficulty target, then the
/// counted block list — deliberately NOT the whole chain state. The
/// mempool is never persisted, and the UTXO set is left out too: loading
/// rebuilds it from the blocks, which is deterministic
/// ([`lemma_rebuild_deterministic`]), so the rebuilt set equals the one at
/// save time whenever the chain was rebuilt before saving. A checkpoint
/// written between an `add_block` and the following `rebuild_utxos` loads
/// with the rebuild applied.
pub open spec fn enc_chain(c: ChainV) -> Seq<u8> {
    crate::codec::le_bytes(c.target, 32) + crate::codec::le_bytes(c.blocks.len() as int, 8)
        + enc_block_seq(c.blocks)
}

pub open spec fn dec_chain(s: Seq<u8>) -> Option<(int, Seq<BlockV>)> {
    match crate::codec::dec_u256(s, 0) {
        Some((target, p1)) => match crate::codec::dec_u64(s, p1) {
            Some((n, p2)) => match dec_block_seq(s, p2, n as nat) {
                Some((blocks, p3)) => if p3 == s.len() {
                    Some((target, blocks))
                } else {
                    None
                },
                None => None,
            },
            None => None,
        },
        None => None,
    }
}

pub proof fn lemma_enc_block_seq_snoc(s: Seq<BlockV>, v: BlockV)
    ensures
        enc_block_seq(s.push(v)) == enc_block_seq(s) + crate::types::block::enc_block(v),
    decreases s.len(),
{
    let e = |b: BlockV| crate::types::block::enc_block(b);
    if s.len() == 0 {
        assert(s.push(v).drop_first() =~= Seq::<BlockV>::empty());
        assert(enc_block_seq(Seq::<BlockV>::empty()) == Seq::<u8>::empty());
        assert(enc_block_seq(s.push(v)) == e(v) + Seq::<u8>::empty());
        assert(e(v) + Seq::<u8>::empty() =~= enc_block_seq(s) + e(v));
    } else {
        lemma_enc_block_seq_snoc(s.drop_first(), v);
        assert(s.push(v).drop_first() =~= s.drop_first().push(v));
        assert(s.push(v)[0] == s[0]);
        assert(enc_block_seq(s.push(v)) == e(s[0]) + enc_block_seq(s.drop_first().push(v)));
        assert(e(s[0]) + (enc_block_seq(s.drop_first()) + e(v)) =~= (e(s[0])
            + enc_block_seq(s.drop_first())) + e(v));
    }
}

pub proof fn lemma_dec_enc_block_seq(vs: Seq<BlockV>, s: Seq<u8>, pos: int)
    requires
        forall|j: int| 0 <= j < vs.len() ==> block_wf(#[trigger] vs[j])
            && crate::types::block_header::header_wf(vs[j].header),
        0 <= pos,
        pos + enc_block_seq(vs).len() <= s.len(),
        s.subrange(pos, pos + enc_block_seq(vs).len()) == enc_block_seq(vs),
    ensures
        dec_block_seq(s, pos, vs.len()) == Some((vs, pos + enc_block_seq(vs).len())),
    decreases vs.len(),
{
    if vs.len() == 0 {
        assert(vs =~= Seq::<BlockV>::empty());
    } else {
        let a = crate::types::block::enc_block(vs[0]);
        let b = enc_block_seq(vs.drop_first());
        assert(enc_block_seq(vs) == a + b);
        crate::codec::lemma_split_subrange(s, pos, a, b);
        crate::types::block::lemma_dec_enc_block(vs[0], s, pos);
        lemma_dec_enc_block_seq(vs.drop_first(), s, pos + a.len());
        assert(seq![vs[0]] + vs.drop_first() =~= vs);
    }
}

/// Round trip for the checkpoint: decoding an encoded chain recovers its
/// target and block list exactly.
pub proof fn lemma_dec_enc_chain(c: ChainV)
    requires
        0 <= c.target < p256(),
        c.blocks.len() < crate::codec::pow256(8),
        forall|j: int| 0 <= j < c.blocks.len() ==> block_wf(#[trigger] c.blocks[j])
            && crate::types::block_header::header_wf(c.blocks[j].header),
    ensures
        dec_chain(enc_chain(c)) == Some((c.target, c.blocks)),
{
    let s = enc_chain(c);
    let a = crate::codec::le_bytes(c.target, 32);
    let b = crate::codec::le_bytes(c.blocks.len() as int, 8);
    let d = enc_block_seq(c.blocks);
    crate::codec::lemma_le_bytes_len(c.target, 32);
    crate::codec::lemma_le_bytes_len(c.blocks.len() as int, 8);
    assert(s =~= a + (b + d));
    assert(s.subrange(0, s.len() as int) =~= s);
    crate::codec::lemma_split_subrange(s, 0, a, b + d);
    crate::codec::lemma_split_subrange(s, 32, b, d);
    crate::codec::lemma_dec_enc_u256(c.target, s, 0);
    crate::codec::lemma_pow256_16();
    assert((c.blocks.len() as u64) as nat == c.blocks.len());
    crate::codec::lemma_dec_enc_u64(c.blocks.len() as u64, s, 32);
    lemma_dec_enc_block_seq(c.blocks, s, 40);
}

impl Blockchain {
    /// The checkpoint bytes of this chain; see [`enc_chain`].
    pub fn encode_checkpoint(&self) -> (r: Vec<u8>)
        ensures
            r@ == enc_chain(self@),
    {
        let mut out: Vec<u8> = Vec::new();
        crate::codec::push_u256_le(&mut out, &self.target);
        proof {
            crate::codec::lemma_pow256_16();
            vstd::std_specs::vec::axiom_spec_len(&self.blocks);
        }
        crate::codec::push_le(&mut out, self.blocks.len() as u128, 8);
        let ghost mid: Seq<u8> = out@;
        let mut i: usize = 0;
        while i < self.blocks.len()
            invariant
                i <= self.blocks@.len(),
                out@ == mid + enc_block_seq(self@.blocks.subrange(0, i as int)),
            decreases self.blocks@.len() - i,
        {
            self.blocks[i].encode_to(&mut out);
            proof {
                lemma_enc_block_seq_snoc(
                    self@.blocks.subrange(0, i as int),
                    self@.blocks[i as int],
                );
                assert(self@.blocks.subrange(0, i as int).push(self@.blocks[i as int])
                    =~= self@.blocks.subrange(0, i + 1));
            }
            i = i + 1;
        }
        proof {
            assert(self@.blocks.subrange(0, self.blocks@.len() as int) =~= self@.blocks);
            assert(out@ =~= enc_chain(self@));
        }
        out
    }

    /// Decodes a checkpoint: the stored target and blocks, an empty UTXO
    /// set and an empty mempool. The checkpoint carries no UTXO set and no
    /// mempool (see [`enc_chain`]): the caller checks integrity and then
    /// rebuilds the UTXO set from the blocks.
    pub fn decode_checkpoint(bytes: &Vec<u8>) -> (r: Option<Blockchain>)
        ensures
            match r {
                Some(bc) => dec_chain(bytes@) == Some((bc@.target, bc@.blocks))
                    && bc@.utxos.len() == 0 && bc@.mempool.len() == 0,
                None => dec_chain(bytes@) is None,
            },
    {
        let (target, p1) = match crate::codec::read_u256(bytes, 0) {
            Some(x) => x,
            None => {
                return None;
            },
        };
        let (n, p2) = match crate::codec::read_u64(bytes, p1) {
            Some(x) => x,
            None => {
                return None;
            },
        };
        let (blocks, p3) = match read_block_seq(bytes, p2, n) {
            Some(x) => x,
            None => {
                return None;
            },
        };
        if p3 != bytes.len() {
            return None;
        }
        let bc = Blockchain { utxos: UtxoSet::new(), target, blocks, mempool: Vec::new() };
        proof {
            assert(bc@.mempool =~= Seq::<MemV>::empty());
        }
        Some(bc)
    }

    /// Whether a decoded chain may be served: timestamps strictly increase
    /// and the target is within the allowed range. Together with an empty
    /// mempool and a rebuilt UTXO set this is the state invariant.
    pub fn check_integrity(&self) -> (r: bool)
        ensures
            r == (timestamps_increase(self@.blocks) && 0 <= self@.target
                <= min_target_val()),
    {
        if !self.target.le(&min_target()) {
            return false;
        }
        let n: usize = self.blocks.len();
        if n == 0 {
            return true;
        }
        let mut i: usize = 0;
        while i < n - 1
            invariant
                n == self.blocks@.len(),
                1 <= n,
                i <= n - 1,
                forall|j: int| 0 <= j < i ==> (#[trigger] self@.blocks[j]).header.timestamp
                    < self@.blocks[j + 1].header.timestamp,
            decreases n - i,
        {
            if self.blocks[i].header.timestamp >= self.blocks[i + 1].header.timestamp {
                proof {
                    assert(self@.blocks[i as int].header.timestamp == self.blocks@[
                        i as int]@.header.timestamp);
                }
                return false;
            }
            i = i + 1;
        }
        true
    }
}

/// Reads `n` blocks; mirrors [`dec_block_seq`].
fn read_block_seq(bytes: &Vec<u8>, pos: usize, n: u64) -> (r: Option<(Vec<Block>, usize)>)
    ensures
        match r {
            Some((v, p)) => dec_block_seq(bytes@, pos as int, n as nat) == Some(
                (v@.map_values(|b: Block| b@), p as int),
            ),
            None => dec_block_seq(bytes@, pos as int, n as nat) is None,
        },
    decreases n,
{
    if n == 0 {
        let r: Vec<Block> = Vec::new();
        proof {
            assert(r@.map_values(|b: Block| b@) =~= Seq::<BlockV>::empty());
        }
        return Some((r, pos));
    }
    let (v, p) = match crate::types::block::read_block(bytes, pos) {
        Some(x) => x,
        None => {
            return None;
        },
    };
    let (mut vs, p2) = match read_block_seq(bytes, p, n - 1) {
        Some(x) => x,
        None => {
            return None;
        },
    };
    vs.insert(0, v);
    proof {
        let m = |b: Block| b@;
        assert(vs@.map_values(m) =~= seq![v@] + vs@.drop_first().map_values(m));
    }
    Some((vs, p2))
}

/// Whether `x` is referenced by one of the inputs.
pub open spec fn input_listed(ins: Seq<InputV>, x: int) -> bool {
    exists|j: int| 0 <= j < ins.len() && (#[trigger] ins[j]).prev_tx_output_hash == x
}

/// The mempool marking invariant: an output is reserved exactly when some
/// pending transaction consumes it, every pending input references a
/// present reserved output, and no two pending inputs reference the same
/// output.
pub open spec fn mempool_marking_ok(u: Seq<EntryV>, m: Seq<MemV>) -> bool {
    &&& forall|i: int|
        0 <= i < u.len() && (#[trigger] u[i]).marked ==> exists|k: int|
            0 <= k < m.len() && tx_consumes((#[trigger] m[k]).transaction, u[i].hash)
    &&& forall|k: int, j: int|
        0 <= k < m.len() && 0 <= j < (#[trigger] m[k]).transaction.inputs.len()
            ==> utxo_contains(u, (#[trigger] m[k].transaction.inputs[j]).prev_tx_output_hash)
            && utxo_get(u, m[k].transaction.inputs[j].prev_tx_output_hash).marked
    &&& forall|k1: int, j1: int, k2: int, j2: int|
        0 <= k1 < m.len() && 0 <= j1 < (#[trigger] m[k1]).transaction.inputs.len() && 0
            <= k2 < m.len() && 0 <= j2 < (#[trigger] m[k2]).transaction.inputs.len() && (
        k1 != k2 || j1 != j2) ==> (#[trigger] m[k1].transaction.inputs[j1]).prev_tx_output_hash
            != (#[trigger] m[k2].transaction.inputs[j2]).prev_tx_output_hash
}

/// Releasing a transaction's reservations clears exactly the marks of the
/// outputs it listed.
pub proof fn lemma_unmark_inputs_marks(u: Seq<EntryV>, ins: Seq<InputV>, idx: int)
    requires
        utxo_unique(u),
        0 <= idx,
    ensures
        forall|x: int|
            utxo_contains(u, x) ==> (#[trigger] utxo_get(
                spec_unmark_inputs(u, ins, idx),
                x,
            )).marked == (utxo_get(u, x).marked && !(exists|j: int|
                idx <= j < ins.len() && (#[trigger] ins[j]).prev_tx_output_hash == x)),
    decreases ins.len() - idx,
{
    lemma_unmark_inputs_entries(u, ins, idx);
    if idx < 0 || idx >= ins.len() {
    } else {
        let h = ins[idx].prev_tx_output_hash;
        let u2 = spec_set_marked(u, h, false);
        lemma_set_marked_entries(u, h, false);
        lemma_unmark_inputs_marks(u2, ins, idx + 1);
        assert forall|x: int| utxo_contains(u, x) implies (#[trigger] utxo_get(
            spec_unmark_inputs(u, ins, idx),
            x,
        )).marked == (utxo_get(u, x).marked && !(exists|j: int|
            idx <= j < ins.len() && (#[trigger] ins[j]).prev_tx_output_hash == x)) by {
            assert(utxo_contains(u2, x));
            assert(spec_unmark_inputs(u, ins, idx) == spec_unmark_inputs(u2, ins, idx + 1));
            assert(utxo_get(spec_unmark_inputs(u2, ins, idx + 1), x).marked == (utxo_get(
                u2,
                x,
            ).marked && !(exists|j: int|
                idx + 1 <= j < ins.len() && (#[trigger] ins[j]).prev_tx_output_hash == x)));
            if x == h {
                if utxo_contains(u, h) {
                    crate::types::utxo::lemma_utxo_get_at(u, utxo_index(u, h));
                    crate::types::utxo::lemma_upsert_frame(
                        u,
                        utxo_index(u, h),
                        EntryV { hash: h, marked: false, output: u[utxo_index(u, h)].output },
                    );
                    assert(!utxo_get(u2, x).marked);
                }
                assert(ins[idx].prev_tx_output_hash == x);
            } else {
                if utxo_contains(u, h) {
                    crate::types::utxo::lemma_utxo_get_at(u, utxo_index(u, h));
                    crate::types::utxo::lemma_upsert_frame(
                        u,
                        utxo_index(u, h),
                        EntryV { hash: h, marked: false, output: u[utxo_index(u, h)].output },
                    );
                }
                assert(utxo_get(u2, x) == utxo_get(u, x));
                assert((exists|j: int|
                    idx <= j < ins.len() && (#[trigger] ins[j]).prev_tx_output_hash == x)
                    == (exists|j: int|
                    idx + 1 <= j < ins.len() && (#[trigger] ins[j]).prev_tx_output_hash
                        == x)) by {
                    if exists|j: int|
                        idx <= j < ins.len() && (#[trigger] ins[j]).prev_tx_output_hash
                            == x {
                        let j = choose|j: int|
                            idx <= j < ins.len() && (#[trigger] ins[j]).prev_tx_output_hash
                                == x;
                        assert(j != idx);
                        assert(idx + 1 <= j < ins.len() && ins[j].prev_tx_output_hash
                            == x);
                    }
                }
            }
        }
    }
}

/// Aging preserves the marking invariant: the generalized step, with the
/// already-kept prefix carried along.
proof fn lemma_cleanup_marking_step(
    u: Seq<EntryV>,
    ms: Seq<MemV>,
    rest: Seq<MemV>,
    now: u64,
)
    requires
        utxo_unique(u),
        mempool_marking_ok(u, ms + rest),
    ensures
        mempool_marking_ok(
            spec_cleanup(u, rest, now).0,
            ms + spec_cleanup(u, rest, now).1,
        ),
    decreases rest.len(),
{
    if rest.len() == 0 {
        assert(ms + rest =~= ms);
        assert(ms + spec_cleanup(u, rest, now).1 =~= ms);
    } else if entry_expired(rest[0], now) {
        let evicted = rest[0];
        let pool = ms + rest;
        let pos = ms.len() as int;
        assert(pool[pos] == evicted);
        let u2 = spec_unmark_inputs(u, evicted.transaction.inputs, 0);
        let m2 = ms + rest.drop_first();
        lemma_unmark_inputs_entries(u, evicted.transaction.inputs, 0);
        lemma_unmark_inputs_marks(u, evicted.transaction.inputs, 0);
        assert forall|k: int, j: int|
            0 <= k < m2.len() && 0 <= j < (#[trigger] m2[k]).transaction.inputs.len() implies
            utxo_contains(u2, (#[trigger] m2[k].transaction.inputs[j]).prev_tx_output_hash)
                && utxo_get(u2, m2[k].transaction.inputs[j].prev_tx_output_hash).marked by {
            let kp = if k < pos {
                k
            } else {
                k + 1
            };
            assert(m2[k] == pool[kp]);
            let h = m2[k].transaction.inputs[j].prev_tx_output_hash;
            assert(utxo_contains(u, h) && utxo_get(u, h).marked);
            if exists|jj: int|
                0 <= jj < evicted.transaction.inputs.len() && (
                #[trigger] evicted.transaction.inputs[jj]).prev_tx_output_hash == h {
                let jj = choose|jj: int|
                    0 <= jj < evicted.transaction.inputs.len() && (
                    #[trigger] evicted.transaction.inputs[jj]).prev_tx_output_hash == h;
                assert(pool[pos].transaction.inputs[jj].prev_tx_output_hash == pool[
                    kp].transaction.inputs[j].prev_tx_output_hash);
                assert(false);
            }
        }
        assert forall|i: int| 0 <= i < u2.len() && (#[trigger] u2[i]).marked implies exists|k: int|
            0 <= k < m2.len() && tx_consumes((#[trigger] m2[k]).transaction, u2[i].hash) by {
            let x = u2[i].hash;
            crate::types::utxo::lemma_utxo_get_at(u2, i);
            assert(utxo_contains(u, x));
            let iu = utxo_index(u, x);
            crate::types::utxo::lemma_utxo_get_at(u, iu);
            assert(utxo_get(u2, x).marked);
            assert(utxo_get(u, x).marked);
            assert(u[iu].marked);
            let k0 = choose|k0: int|
                0 <= k0 < pool.len() && tx_consumes((#[trigger] pool[k0]).transaction, x);
            if k0 == pos {
                assert(tx_consumes(evicted.transaction, x));
                let jj = choose|jj: int|
                    0 <= jj < evicted.transaction.inputs.len() && (
                    #[trigger] evicted.transaction.inputs[jj]).prev_tx_output_hash == x;
                assert(!utxo_get(u2, x).marked);
                assert(false);
            } else {
                let k2 = if k0 < pos {
                    k0
                } else {
                    k0 - 1
                };
                assert(m2[k2] == pool[k0]);
                assert(tx_consumes(m2[k2].transaction, x));
            }
        }
        assert forall|k1: int, j1: int, k2: int, j2: int|
            0 <= k1 < m2.len() && 0 <= j1 < (#[trigger] m2[k1]).transaction.inputs.len()
                && 0 <= k2 < m2.len() && 0 <= j2 < (
            #[trigger] m2[k2]).transaction.inputs.len() && (k1 != k2 || j1 != j2) implies (
        #[trigger] m2[k1].transaction.inputs[j1]).prev_tx_output_hash != (
        #[trigger] m2[k2].transaction.inputs[j2]).prev_tx_output_hash by {
            let a = if k1 < pos {
                k1
            } else {
                k1 + 1
            };
            let b = if k2 < pos {
                k2
            } else {
                k2 + 1
            };
            assert(m2[k1] == pool[a] && m2[k2] == pool[b]);
        }
        assert(mempool_marking_ok(u2, m2));
        lemma_cleanup_marking_step(u2, ms, rest.drop_first(), now);
        assert(spec_cleanup(u, rest, now) == spec_cleanup(u2, rest.drop_first(), now));
    } else {
        let kept = rest[0];
        assert(ms + rest =~= ms.push(kept) + rest.drop_first());
        lemma_cleanup_marking_step(u, ms.push(kept), rest.drop_first(), now);
        let r = spec_cleanup(u, rest.drop_first(), now);
        assert(spec_cleanup(u, rest, now).0 == r.0);
        assert(spec_cleanup(u, rest, now).1 == seq![kept] + r.1);
        assert(ms.push(kept) + r.1 =~= ms + (seq![kept] + r.1));
    }
}

/// Mempool marking is an invariant of aging: if every reserved output is
/// held by exactly one pending transaction and every pending input is a
/// reserved present output, the same holds after `clean_up_mempool`.
pub proof fn lemma_cleanup_preserves_marking(c: ChainV, now: u64)
    requires
        utxo_unique(c.utxos),
        mempool_marking_ok(c.utxos, c.mempool),
    ensures
        mempool_marking_ok(
            spec_cleanup(c.utxos, c.mempool, now).0,
            spec_cleanup(c.utxos, c.mempool, now).1,
        ),
{
    assert(Seq::<MemV>::empty() + c.mempool =~= c.mempool);
    lemma_cleanup_marking_step(c.utxos, Seq::<MemV>::empty(), c.mempool, now);
    assert(Seq::<MemV>::empty() + spec_cleanup(c.utxos, c.mempool, now).1 =~= spec_cleanup(
        c.utxos,
        c.mempool,
        now,
    ).1);
}

/// The conflict rule keeps the pool sorted: it only removes entries.
proof fn lemma_evict_for_sorted(u: Seq<EntryV>, m: Seq<MemV>, h: int)
    requires
        mempool_sorted(m),
    ensures
        mempool_sorted(spec_evict_for(u, m, h).1),
{
    if utxo_contains(u, h) && utxo_get(u, h).marked {
        let ci = mem_find_consumer(m, h, 0);
        if ci < m.len() {
            lemma_find_in_range_consumer(m, h, 0);
            lemma_remove_sorted(m, ci);
        } else {
            let pi = mem_find_producer(m, h, 0);
            if pi < m.len() {
                lemma_find_in_range_producer(m, h, 0);
                lemma_remove_sorted(m, pi);
            }
        }
    }
}

proof fn lemma_find_in_range_consumer(m: Seq<MemV>, h: int, idx: int)
    requires
        0 <= idx <= m.len(),
    ensures
        idx <= mem_find_consumer(m, h, idx) <= m.len(),
    decreases m.len() - idx,
{
    if idx < m.len() && !tx_consumes(m[idx].transaction, h) {
        lemma_find_in_range_consumer(m, h, idx + 1);
    }
}

proof fn lemma_find_in_range_producer(m: Seq<MemV>, h: int, idx: int)
    requires
        0 <= idx <= m.len(),
    ensures
        idx <= mem_find_producer(m, h, idx) <= m.len(),
    decreases m.len() - idx,
{
    if idx < m.len() && !tx_produces(m[idx].transaction, h) {
        lemma_find_in_range_producer(m, h, idx + 1);
    }
}

/// The whole conflict pass keeps the pool sorted.
proof fn lemma_evict_conflicts_sorted(u: Seq<EntryV>, m: Seq<MemV>, ins: Seq<InputV>, idx: int)
    requires
        mempool_sorted(m),
    ensures
        mempool_sorted(spec_evict_conflicts(u, m, ins, idx).1),
    decreases ins.len() - idx,
{
    if idx < 0 || idx >= ins.len() {
    } else {
        let h = ins[idx].prev_tx_output_hash;
        let (u2, m2) = spec_evict_for(u, m, h);
        lemma_evict_for_sorted(u, m, h);
        lemma_evict_conflicts_sorted(u2, m2, ins, idx + 1);
    }
}

/// Evicting one pending transaction and releasing its reservations
/// preserves the marking invariant.
proof fn lemma_evict_one_marking(u: Seq<EntryV>, m: Seq<MemV>, pos: int)
    requires
        utxo_unique(u),
        mempool_marking_ok(u, m),
        0 <= pos < m.len(),
    ensures
        mempool_marking_ok(
            spec_unmark_inputs(u, m[pos].transaction.inputs, 0),
            m.remove(pos),
        ),
{
    let evicted = m[pos];
    let u2 = spec_unmark_inputs(u, evicted.transaction.inputs, 0);
    let m2 = m.remove(pos);
    lemma_unmark_inputs_entries(u, evicted.transaction.inputs, 0);
    lemma_unmark_inputs_marks(u, evicted.transaction.inputs, 0);
    assert forall|k: int, j: int|
        0 <= k < m2.len() && 0 <= j < (#[trigger] m2[k]).transaction.inputs.len() implies
        utxo_contains(u2, (#[trigger] m2[k].transaction.inputs[j]).prev_tx_output_hash)
            && utxo_get(u2, m2[k].transaction.inputs[j].prev_tx_output_hash).marked by {
        let kp = if k < pos {
            k
        } else {
            k + 1
        };
        assert(m2[k] == m[kp]);
        let h = m2[k].transaction.inputs[j].prev_tx_output_hash;
        assert(utxo_contains(u, h) && utxo_get(u, h).marked);
        if exists|jj: int|
            0 <= jj < evicted.transaction.inputs.len() && (
            #[trigger] evicted.transaction.inputs[jj]).prev_tx_output_hash == h {
            let jj = choose|jj: int|
                0 <= jj < evicted.transaction.inputs.len() && (
                #[trigger] evicted.transaction.inputs[jj]).prev_tx_output_hash == h;
            assert(m[pos].transaction.inputs[jj].prev_tx_output_hash == m[
                kp].transaction.inputs[j].prev_tx_output_hash);
            assert(false);
        }
    }
    assert forall|i: int| 0 <= i < u2.len() && (#[trigger] u2[i]).marked implies exists|k: int|
        0 <= k < m2.len() && tx_consumes((#[trigger] m2[k]).transaction, u2[i].hash) by {
        let x = u2[i].hash;
        crate::types::utxo::lemma_utxo_get_at(u2, i);
        assert(utxo_contains(u, x));
        let iu = utxo_index(u, x);
        crate::types::utxo::lemma_utxo_get_at(u, iu);
        assert(utxo_get(u2, x).marked && utxo_get(u, x).marked && u[iu].marked);
        let k0 = choose|k0: int|
            0 <= k0 < m.len() && tx_consumes((#[trigger] m[k0]).transaction, x);
        if k0 == pos {
            assert(tx_consumes(evicted.transaction, x));
            let jj = choose|jj: int|
                0 <= jj < evicted.transaction.inputs.len() && (
                #[trigger] evicted.transaction.inputs[jj]).prev_tx_output_hash == x;
            assert(!utxo_get(u2, x).marked);
            assert(false);
        } else {
            let k2 = if k0 < pos {
                k0
            } else {
                k0 - 1
            };
            assert(m2[k2] == m[k0]);
            assert(tx_consumes(m2[k2].transaction, x));
        }
    }
    assert forall|k1: int, j1: int, k2: int, j2: int|
        0 <= k1 < m2.len() && 0 <= j1 < (#[trigger] m2[k1]).transaction.inputs.len() && 0
            <= k2 < m2.len() && 0 <= j2 < (#[trigger] m2[k2]).transaction.inputs.len()
            && (k1 != k2 || j1 != j2) implies (
    #[trigger] m2[k1].transaction.inputs[j1]).prev_tx_output_hash != (
    #[trigger] m2[k2].transaction.inputs[j2]).prev_tx_output_hash by {
        let a = if k1 < pos {
            k1
        } else {
            k1 + 1
        };
        let b = if k2 < pos {
            k2
        } else {
            k2 + 1
        };
        assert(m2[k1] == m[a] && m2[k2] == m[b]);
    }
}

/// When some pending transaction consumes `h`, the consumer search finds
/// the first one.
proof fn lemma_find_consumer_found(m: Seq<MemV>, h: int, idx: int)
    requires
        0 <= idx,
        exists|k: int| idx <= k < m.len() && tx_consumes((#[trigger] m[k]).transaction, h),
    ensures
        idx <= mem_find_consumer(m, h, idx) < m.len(),
        tx_consumes(m[mem_find_consumer(m, h, idx)].transaction, h),
    decreases m.len() - idx,
{
    if idx < m.len() && !tx_consumes(m[idx].transaction, h) {
        let k = choose|k: int|
            idx <= k < m.len() && tx_consumes((#[trigger] m[k]).transaction, h);
        assert(idx + 1 <= k < m.len() && tx_consumes(m[k].transaction, h));
        lemma_find_consumer_found(m, h, idx + 1);
    }
}

/// The conflict rule for one input preserves the marking invariant, never
/// sets a mark, and leaves that input unreserved.
proof fn lemma_evict_for_marking(u: Seq<EntryV>, m: Seq<MemV>, h: int)
    requires
        utxo_unique(u),
        mempool_marking_ok(u, m),
    ensures
        utxo_unique(spec_evict_for(u, m, h).0),
        mempool_marking_ok(spec_evict_for(u, m, h).0, spec_evict_for(u, m, h).1),
        forall|x: int| #[trigger] utxo_contains(spec_evict_for(u, m, h).0, x)
            == utxo_contains(u, x),
        forall|x: int|
            utxo_contains(u, x) && (#[trigger] utxo_get(spec_evict_for(u, m, h).0, x)).marked
                ==> utxo_get(u, x).marked,
        utxo_contains(u, h) ==> !utxo_get(spec_evict_for(u, m, h).0, h).marked,
{
    if utxo_contains(u, h) && utxo_get(u, h).marked {
        let iu = utxo_index(u, h);
        crate::types::utxo::lemma_utxo_get_at(u, iu);
        assert(u[iu].marked && u[iu].hash == h);
        let k0 = choose|k0: int|
            0 <= k0 < m.len() && tx_consumes((#[trigger] m[k0]).transaction, h);
        lemma_find_consumer_found(m, h, 0);
        let ci = mem_find_consumer(m, h, 0);
        lemma_evict_one_marking(u, m, ci);
        lemma_unmark_inputs_entries(u, m[ci].transaction.inputs, 0);
        lemma_unmark_inputs_marks(u, m[ci].transaction.inputs, 0);
        let jj = choose|jj: int|
            0 <= jj < m[ci].transaction.inputs.len() && (
            #[trigger] m[ci].transaction.inputs[jj]).prev_tx_output_hash == h;
        assert(!utxo_get(spec_evict_for(u, m, h).0, h).marked);
    }
}

/// The whole conflict pass preserves the marking invariant and leaves
/// every processed input unreserved.
proof fn lemma_evict_conflicts_marking(
    u: Seq<EntryV>,
    m: Seq<MemV>,
    ins: Seq<InputV>,
    idx: int,
)
    requires
        utxo_unique(u),
        mempool_marking_ok(u, m),
        0 <= idx,
    ensures
        utxo_unique(spec_evict_conflicts(u, m, ins, idx).0),
        mempool_marking_ok(
            spec_evict_conflicts(u, m, ins, idx).0,
            spec_evict_conflicts(u, m, ins, idx).1,
        ),
        forall|x: int| #[trigger] utxo_contains(spec_evict_conflicts(u, m, ins, idx).0, x)
            == utxo_contains(u, x),
        forall|x: int|
            utxo_contains(u, x) && (#[trigger] utxo_get(
                spec_evict_conflicts(u, m, ins, idx).0,
                x,
            )).marked ==> utxo_get(u, x).marked,
        forall|j: int|
            idx <= j < ins.len() && utxo_contains(
                u,
                (#[trigger] ins[j]).prev_tx_output_hash,
            ) ==> !utxo_get(
                spec_evict_conflicts(u, m, ins, idx).0,
                ins[j].prev_tx_output_hash,
            ).marked,
    decreases ins.len() - idx,
{
    if idx < ins.len() {
        let h = ins[idx].prev_tx_output_hash;
        let (u2, m2) = spec_evict_for(u, m, h);
        lemma_evict_for_marking(u, m, h);
        lemma_evict_conflicts_marking(u2, m2, ins, idx + 1);
        let fin = spec_evict_conflicts(u2, m2, ins, idx + 1);
        assert(spec_evict_conflicts(u, m, ins, idx) == fin);
        assert forall|j: int|
            idx <= j < ins.len() && utxo_contains(
                u,
                (#[trigger] ins[j]).prev_tx_output_hash,
            ) implies !utxo_get(fin.0, ins[j].prev_tx_output_hash).marked by {
            let hj = ins[j].prev_tx_output_hash;
            if j == idx {
                assert(utxo_contains(u2, hj));
                assert(!utxo_get(u2, hj).marked);
                if utxo_get(fin.0, hj).marked {
                    assert(utxo_get(u2, hj).marked);
                }
            }
        }
    }
}

/// Setting reservation marks sets exactly the listed outputs.
proof fn lemma_mark_inputs_marks(u: Seq<EntryV>, ins: Seq<InputV>, idx: int)
    requires
        utxo_unique(u),
        0 <= idx,
    ensures
        utxo_unique(spec_mark_inputs(u, ins, idx)),
        forall|x: int| #[trigger] utxo_contains(spec_mark_inputs(u, ins, idx), x)
            == utxo_contains(u, x),
        forall|x: int|
            utxo_contains(u, x) ==> (#[trigger] utxo_get(
                spec_mark_inputs(u, ins, idx),
                x,
            )).marked == (utxo_get(u, x).marked || (exists|j: int|
                idx <= j < ins.len() && (#[trigger] ins[j]).prev_tx_output_hash == x)),
    decreases ins.len() - idx,
{
    if idx < 0 || idx >= ins.len() {
    } else {
        let h = ins[idx].prev_tx_output_hash;
        let u2 = spec_set_marked(u, h, true);
        lemma_set_marked_entries(u, h, true);
        lemma_mark_inputs_marks(u2, ins, idx + 1);
        assert forall|x: int| utxo_contains(u, x) implies (#[trigger] utxo_get(
            spec_mark_inputs(u, ins, idx),
            x,
        )).marked == (utxo_get(u, x).marked || (exists|j: int|
            idx <= j < ins.len() && (#[trigger] ins[j]).prev_tx_output_hash == x)) by {
            assert(utxo_contains(u2, x));
            assert(spec_mark_inputs(u, ins, idx) == spec_mark_inputs(u2, ins, idx + 1));
            assert(utxo_get(spec_mark_inputs(u2, ins, idx + 1), x).marked == (utxo_get(
                u2,
                x,
            ).marked || (exists|j: int|
                idx + 1 <= j < ins.len() && (#[trigger] ins[j]).prev_tx_output_hash == x)));
            if x == h {
                if utxo_contains(u, h) {
                    crate::types::utxo::lemma_utxo_get_at(u, utxo_index(u, h));
                    crate::types::utxo::lemma_upsert_frame(
                        u,
                        utxo_index(u, h),
                        EntryV { hash: h, marked: true, output: u[utxo_index(u, h)].output },
                    );
                    assert(utxo_get(u2, x).marked);
                }
                assert(ins[idx].prev_tx_output_hash == x);
            } else {
                if utxo_contains(u, h) {
                    crate::types::utxo::lemma_utxo_get_at(u, utxo_index(u, h));
                    crate::types::utxo::lemma_upsert_frame(
                        u,
                        utxo_index(u, h),
                        EntryV { hash: h, marked: true, output: u[utxo_index(u, h)].output },
                    );
                }
                assert(utxo_get(u2, x) == utxo_get(u, x));
                assert((exists|j: int|
                    idx <= j < ins.len() && (#[trigger] ins[j]).prev_tx_output_hash == x)
                    == (exists|j: int|
                    idx + 1 <= j < ins.len() && (#[trigger] ins[j]).prev_tx_output_hash
                        == x)) by {
                    if exists|j: int|
                        idx <= j < ins.len() && (#[trigger] ins[j]).prev_tx_output_hash
                            == x {
                        let j = choose|j: int|
                            idx <= j < ins.len() && (#[trigger] ins[j]).prev_tx_output_hash
                                == x;
                        assert(j != idx);
                        assert(idx + 1 <= j < ins.len() && ins[j].prev_tx_output_hash
                            == x);
                    }
                }
            }
        }
    }
}

/// Admission preserves the marking invariant: after the conflict pass, the
/// reservation of every input of the arriving transaction, and its entry
/// into the pool, every reserved output is still held by exactly one
/// pending transaction.
pub proof fn lemma_admission_preserves_marking(c: ChainV, t: TxV, fee: u64, now: u64)
    requires
        utxo_unique(c.utxos),
        mempool_marking_ok(c.utxos, c.mempool),
        inputs_known(t.inputs, c.utxos),
        inputs_distinct(t.inputs),
    ensures
        ({
            let em = spec_evict_conflicts(c.utxos, c.mempool, t.inputs, 0);
            mempool_marking_ok(em.0, em.1) && mempool_marking_ok(
                spec_mark_inputs(em.0, t.inputs, 0),
                admitted_mempool(em.1, fee, t, now),
            )
        }),
{
    let em = spec_evict_conflicts(c.utxos, c.mempool, t.inputs, 0);
    lemma_evict_conflicts_marking(c.utxos, c.mempool, t.inputs, 0);
    let u2 = spec_mark_inputs(em.0, t.inputs, 0);
    lemma_mark_inputs_marks(em.0, t.inputs, 0);
    lemma_insert_pos_props(em.1, fee, 0);
    let pos = insert_pos(em.1, fee, 0);
    let entry = MemV { timestamp: now, fee, transaction: t };
    let m2 = em.1.insert(pos, entry);
    assert forall|k: int, j: int|
        0 <= k < m2.len() && 0 <= j < (#[trigger] m2[k]).transaction.inputs.len() implies
        utxo_contains(u2, (#[trigger] m2[k].transaction.inputs[j]).prev_tx_output_hash)
            && utxo_get(u2, m2[k].transaction.inputs[j].prev_tx_output_hash).marked by {
        if k == pos {
            assert(m2[k] == entry);
            let h = t.inputs[j].prev_tx_output_hash;
            assert(utxo_contains(c.utxos, h));
            assert(utxo_contains(em.0, h));
            assert(utxo_get(u2, h).marked);
        } else {
            let kp = if k < pos {
                k
            } else {
                k - 1
            };
            assert(m2[k] == em.1[kp]);
            let h = m2[k].transaction.inputs[j].prev_tx_output_hash;
            assert(utxo_contains(em.0, h) && utxo_get(em.0, h).marked);
            assert(utxo_get(u2, h).marked);
        }
    }
    assert forall|i: int| 0 <= i < u2.len() && (#[trigger] u2[i]).marked implies exists|k: int|
        0 <= k < m2.len() && tx_consumes((#[trigger] m2[k]).transaction, u2[i].hash) by {
        let x = u2[i].hash;
        crate::types::utxo::lemma_utxo_get_at(u2, i);
        assert(utxo_contains(em.0, x));
        let ie = utxo_index(em.0, x);
        crate::types::utxo::lemma_utxo_get_at(em.0, ie);
        if utxo_get(em.0, x).marked {
            assert(em.0[ie].marked);
            let k0 = choose|k0: int|
                0 <= k0 < em.1.len() && tx_consumes((#[trigger] em.1[k0]).transaction, x);
            let k2 = if k0 < pos {
                k0
            } else {
                k0 + 1
            };
            assert(m2[k2] == em.1[k0]);
            assert(tx_consumes(m2[k2].transaction, x));
        } else {
            let j = choose|j: int|
                0 <= j < t.inputs.len() && (#[trigger] t.inputs[j]).prev_tx_output_hash
                    == x;
            assert(m2[pos] == entry);
            assert(tx_consumes(m2[pos].transaction, x));
        }
    }
    assert forall|k1: int, j1: int, k2: int, j2: int|
        0 <= k1 < m2.len() && 0 <= j1 < (#[trigger] m2[k1]).transaction.inputs.len() && 0
            <= k2 < m2.len() && 0 <= j2 < (#[trigger] m2[k2]).transaction.inputs.len()
            && (k1 != k2 || j1 != j2) implies (
    #[trigger] m2[k1].transaction.inputs[j1]).prev_tx_output_hash != (
    #[trigger] m2[k2].transaction.inputs[j2]).prev_tx_output_hash by {
        let h1 = m2[k1].transaction.inputs[j1].prev_tx_output_hash;
        let h2 = m2[k2].transaction.inputs[j2].prev_tx_output_hash;
        if k1 == pos && k2 == pos {
            assert(m2[k1] == entry && m2[k2] == entry);
            assert(j1 != j2);
        } else if k1 == pos {
            let b = if k2 < pos {
                k2
            } else {
                k2 - 1
            };
            assert(m2[k2] == em.1[b]);
            // the old entry's input is still reserved after the conflict
            // pass, while every input of the new transaction is not
            assert(utxo_contains(em.0, h2) && utxo_get(em.0, h2).marked);
            if h1 == h2 {
                assert(utxo_contains(c.utxos, h1));
                assert(!utxo_get(em.0, h1).marked);
                assert(false);
            }
        } else if k2 == pos {
            let a = if k1 < pos {
                k1
            } else {
                k1 - 1
            };
            assert(m2[k1] == em.1[a]);
            assert(utxo_contains(em.0, h1) && utxo_get(em.0, h1).marked);
            if h1 == h2 {
                assert(utxo_contains(c.utxos, h2));
                assert(!utxo_get(em.0, h2).marked);
                assert(false);
            }
        } else {
            let a = if k1 < pos {
                k1
            } else {
                k1 - 1
            };
            let b = if k2 < pos {
                k2
            } else {
                k2 - 1
            };
            assert(m2[k1] == em.1[a] && m2[k2] == em.1[b]);
        }
    }
}

/// The summed input values are unchanged when the referenced entries are
/// unchanged.
proof fn lemma_mem_input_sum_frame(ins: Seq<InputV>, u1: Seq<EntryV>, u2: Seq<EntryV>, idx: int)
    requires
        forall|j: int|
            idx <= j < ins.len() ==> utxo_get(u2, (#[trigger] ins[j]).prev_tx_output_hash)
                == utxo_get(u1, ins[j].prev_tx_output_hash),
    ensures
        mem_input_sum(ins, u2, idx) == mem_input_sum(ins, u1, idx),
    decreases ins.len() - idx,
{
    if idx < 0 || idx >= ins.len() {
    } else {
        lemma_mem_input_sum_frame(ins, u1, u2, idx + 1);
    }
}

/// Spending the referenced outputs removes exactly their summed value.
proof fn lemma_remove_inputs_total(u: Seq<EntryV>, ins: Seq<InputV>, idx: int)
    requires
        utxo_unique(u),
        0 <= idx,
        forall|j: int| idx <= j < ins.len() ==> utxo_contains(
            u,
            (#[trigger] ins[j]).prev_tx_output_hash,
        ),
        forall|j1: int, j2: int|
            idx <= j1 < j2 < ins.len() ==> (#[trigger] ins[j1]).prev_tx_output_hash != (
            #[trigger] ins[j2]).prev_tx_output_hash,
    ensures
        utxo_unique(spec_remove_inputs(u, ins, idx)),
        utxo_total(spec_remove_inputs(u, ins, idx)) == utxo_total(u) - mem_input_sum(
            ins,
            u,
            idx,
        ),
        forall|x: int| #[trigger] utxo_contains(spec_remove_inputs(u, ins, idx), x)
            ==> utxo_contains(u, x),
        forall|x: int|
            utxo_contains(u, x) && !(exists|j: int|
                idx <= j < ins.len() && (#[trigger] ins[j]).prev_tx_output_hash == x)
                ==> utxo_contains(spec_remove_inputs(u, ins, idx), x) && utxo_get(
                spec_remove_inputs(u, ins, idx),
                x,
            ) == utxo_get(u, x),
    decreases ins.len() - idx,
{
    if idx < ins.len() {
        let h = ins[idx].prev_tx_output_hash;
        let iu = utxo_index(u, h);
        crate::types::utxo::lemma_utxo_get_at(u, iu);
        let u2 = spec_remove(u, h);
        crate::types::utxo::lemma_remove_frame(u, iu);
        crate::types::utxo::lemma_total_remove(u, iu);
        assert(utxo_total(u2) == utxo_total(u) - utxo_get(u, h).output.value);
        assert(forall|j: int| idx + 1 <= j < ins.len() ==> utxo_contains(
            u2,
            (#[trigger] ins[j]).prev_tx_output_hash,
        ));
        lemma_remove_inputs_total(u2, ins, idx + 1);
        assert(forall|j: int|
            idx + 1 <= j < ins.len() ==> utxo_get(
                u2,
                (#[trigger] ins[j]).prev_tx_output_hash,
            ) == utxo_get(u, ins[j].prev_tx_output_hash));
        lemma_mem_input_sum_frame(ins, u, u2, idx + 1);
        let fin = spec_remove_inputs(u2, ins, idx + 1);
        assert(spec_remove_inputs(u, ins, idx) == fin);
        assert forall|x: int|
            utxo_contains(u, x) && !(exists|j: int|
                idx <= j < ins.len() && (#[trigger] ins[j]).prev_tx_output_hash == x) implies
            utxo_contains(fin, x) && utxo_get(fin, x) == utxo_get(u, x) by {
            assert(ins[idx].prev_tx_output_hash != x);
            assert(utxo_contains(u2, x) && utxo_get(u2, x) == utxo_get(u, x));
            assert(!(exists|j: int|
                idx + 1 <= j < ins.len() && (#[trigger] ins[j]).prev_tx_output_hash == x));
        }
    }
}

/// Creating fresh outputs adds exactly their summed value.
proof fn lemma_insert_outputs_total(u: Seq<EntryV>, outs: Seq<OutputV>, idx: int)
    requires
        utxo_unique(u),
        0 <= idx,
        forall|j: int| idx <= j < outs.len() ==> !utxo_contains(
            u,
            output_hash(#[trigger] outs[j]),
        ),
        forall|j1: int, j2: int|
            idx <= j1 < j2 < outs.len() ==> output_hash(#[trigger] outs[j1])
                != output_hash(#[trigger] outs[j2]),
    ensures
        utxo_unique(spec_insert_outputs(u, outs, idx)),
        utxo_total(spec_insert_outputs(u, outs, idx)) == utxo_total(u)
            + crate::types::block::sum_outputs_from(outs, idx),
        forall|x: int|
            #[trigger] utxo_contains(u, x) ==> utxo_contains(
                spec_insert_outputs(u, outs, idx),
                x,
            ) && utxo_get(spec_insert_outputs(u, outs, idx), x) == utxo_get(u, x),
        forall|x: int| #[trigger] utxo_contains(spec_insert_outputs(u, outs, idx), x)
            ==> utxo_contains(u, x) || (exists|j: int|
            idx <= j < outs.len() && output_hash(#[trigger] outs[j]) == x),
    decreases outs.len() - idx,
{
    if idx >= outs.len() {
        assert(spec_insert_outputs(u, outs, idx) == u);
        assert forall|x: int| #[trigger] utxo_contains(u, x) implies utxo_contains(
            spec_insert_outputs(u, outs, idx),
            x,
        ) && utxo_get(spec_insert_outputs(u, outs, idx), x) == utxo_get(u, x) by {
            assert(utxo_contains(spec_insert_outputs(u, outs, idx), x));
        }
    } else {
        let oh = output_hash(outs[idx]);
        let u2 = spec_upsert(u, oh, outs[idx]);
        crate::types::utxo::lemma_push_frame(
            u,
            EntryV { hash: oh, marked: false, output: outs[idx] },
        );
        crate::types::utxo::lemma_total_push(
            u,
            EntryV { hash: oh, marked: false, output: outs[idx] },
        );
        assert(u2 == u.push(EntryV { hash: oh, marked: false, output: outs[idx] }));
        assert(utxo_total(u2) == utxo_total(u) + outs[idx].value);
        assert forall|j: int| idx + 1 <= j < outs.len() implies !utxo_contains(
            u2,
            output_hash(#[trigger] outs[j]),
        ) by {
            assert(output_hash(outs[j]) != oh);
        }
        lemma_insert_outputs_total(u2, outs, idx + 1);
        let fin = spec_insert_outputs(u, outs, idx);
        assert(fin == spec_insert_outputs(u2, outs, idx + 1));
        assert forall|x: int| #[trigger] utxo_contains(u, x) implies utxo_contains(
            spec_insert_outputs(u, outs, idx),
            x,
        ) && utxo_get(spec_insert_outputs(u, outs, idx), x) == utxo_get(u, x) by {
            assert(x != oh);
            assert(utxo_contains(u2, x) && utxo_get(u2, x) == utxo_get(u, x));
            assert(utxo_contains(spec_insert_outputs(u2, outs, idx + 1), x) && utxo_get(
                spec_insert_outputs(u2, outs, idx + 1),
                x,
            ) == utxo_get(u2, x));
        }
        assert forall|x: int| #[trigger] utxo_contains(fin, x) implies utxo_contains(u, x)
            || (exists|j: int|
            idx <= j < outs.len() && output_hash(#[trigger] outs[j]) == x) by {
            if !utxo_contains(u, x) {
                if utxo_contains(u2, x) {
                    if x != oh {
                        assert(utxo_contains(u, x));
                    }
                    assert(output_hash(outs[idx]) == x);
                } else {
                    let j = choose|j: int|
                        idx + 1 <= j < outs.len() && output_hash(#[trigger] outs[j]) == x;
                    assert(output_hash(outs[j]) == x);
                }
            }
        }
    }
}

/// Value conservation of one transaction: applying it to the UTXO set
/// changes the total held value by its summed outputs minus the values it
/// consumed, provided its inputs reference distinct present outputs and
/// its outputs are fresh and distinct.
pub proof fn lemma_apply_tx_conservation(u: Seq<EntryV>, t: TxV)
    requires
        utxo_unique(u),
        inputs_known(t.inputs, u),
        inputs_distinct(t.inputs),
        forall|j: int| 0 <= j < t.outputs.len() ==> !utxo_contains(
            u,
            output_hash(#[trigger] t.outputs[j]),
        ),
        forall|j1: int, j2: int|
            0 <= j1 < j2 < t.outputs.len() ==> output_hash(#[trigger] t.outputs[j1])
                != output_hash(#[trigger] t.outputs[j2]),
        forall|i: int, j: int|
            0 <= i < t.inputs.len() && 0 <= j < t.outputs.len() ==> (
            #[trigger] t.inputs[i]).prev_tx_output_hash != output_hash(
                #[trigger] t.outputs[j],
            ),
    ensures
        utxo_unique(spec_apply_tx(u, t)),
        utxo_total(spec_apply_tx(u, t)) == utxo_total(u) - mem_input_sum(t.inputs, u, 0)
            + crate::types::block::sum_outputs_from(t.outputs, 0),
        forall|x: int|
            #[trigger] utxo_contains(u, x) && !tx_consumes(t, x) ==> utxo_contains(
                spec_apply_tx(u, t),
                x,
            ) && utxo_get(spec_apply_tx(u, t), x) == utxo_get(u, x),
        forall|x: int| #[trigger] utxo_contains(spec_apply_tx(u, t), x) ==> utxo_contains(
            u,
            x,
        ) || tx_produces(t, x),
{
    lemma_remove_inputs_total(u, t.inputs, 0);
    let u2 = spec_remove_inputs(u, t.inputs, 0);
    assert forall|j: int| 0 <= j < t.outputs.len() implies !utxo_contains(
        u2,
        output_hash(#[trigger] t.outputs[j]),
    ) by {
        if utxo_contains(u2, output_hash(t.outputs[j])) {
            assert(utxo_contains(u, output_hash(t.outputs[j])));
        }
    }
    lemma_insert_outputs_total(u2, t.outputs, 0);
    let fin = spec_apply_tx(u, t);
    assert(fin == spec_insert_outputs(u2, t.outputs, 0));
    assert forall|x: int|
        utxo_contains(u, x) && !tx_consumes(t, x) implies utxo_contains(fin, x)
        && #[trigger] utxo_get(fin, x) == utxo_get(u, x) by {
        assert(!(exists|j: int|
            0 <= j < t.inputs.len() && (#[trigger] t.inputs[j]).prev_tx_output_hash == x));
        assert(utxo_contains(u2, x) && utxo_get(u2, x) == utxo_get(u, x));
        assert(utxo_contains(fin, x) && utxo_get(spec_insert_outputs(u2, t.outputs, 0), x)
            == utxo_get(u2, x));
    }
    assert forall|x: int| #[trigger] utxo_contains(fin, x) implies utxo_contains(u, x)
        || tx_produces(t, x) by {
        if !utxo_contains(u, x) {
            if utxo_contains(u2, x) {
                assert(utxo_contains(u, x));
            } else {
                let j = choose|j: int|
                    0 <= j < t.outputs.len() && output_hash(#[trigger] t.outputs[j]) == x;
                assert(tx_produces(t, x));
            }
        }
    }
}

/// The conflict-eviction law: when an admissible transaction arrives,
/// whatever pending transaction held a reservation on one of its inputs
/// leaves the pool — afterwards the new entry is the only one referencing
/// any of those inputs — every input of the new entry is reserved again,
/// the new entry sits at its fee-sorted place, and the pool stays sorted,
/// so every lower-fee entry comes after it.
pub proof fn lemma_conflict_eviction(c: ChainV, t: TxV, now: u64)
    requires
        utxo_unique(c.utxos),
        mempool_sorted(c.mempool),
        mempool_marking_ok(c.utxos, c.mempool),
        admits(c, t),
    ensures
        ({
            let em = spec_evict_conflicts(c.utxos, c.mempool, t.inputs, 0);
            let fee = (mem_input_sum(t.inputs, em.0, 0)
                - crate::types::block::sum_outputs_from(t.outputs, 0)) as u64;
            let u2 = spec_mark_inputs(em.0, t.inputs, 0);
            let m2 = admitted_mempool(em.1, fee, t, now);
            let pos = insert_pos(em.1, fee, 0);
            &&& 0 <= pos < m2.len()
            &&& m2[pos] == (MemV { timestamp: now, fee, transaction: t })
            &&& forall|j: int|
                0 <= j < t.inputs.len() ==> utxo_contains(
                    u2,
                    (#[trigger] t.inputs[j]).prev_tx_output_hash,
                ) && utxo_get(u2, t.inputs[j].prev_tx_output_hash).marked
            &&& forall|k: int, j2: int, j: int|
                0 <= k < m2.len() && k != pos && 0 <= j2 < (
                #[trigger] m2[k]).transaction.inputs.len() && 0 <= j < t.inputs.len()
                    ==> (#[trigger] m2[k].transaction.inputs[j2]).prev_tx_output_hash
                    != (#[trigger] t.inputs[j]).prev_tx_output_hash
            &&& mempool_sorted(m2)
        }),
{
    let em = spec_evict_conflicts(c.utxos, c.mempool, t.inputs, 0);
    let fee = (mem_input_sum(t.inputs, em.0, 0) - crate::types::block::sum_outputs_from(
        t.outputs,
        0,
    )) as u64;
    let u2 = spec_mark_inputs(em.0, t.inputs, 0);
    let entry = MemV { timestamp: now, fee, transaction: t };
    let m2 = admitted_mempool(em.1, fee, t, now);
    let pos = insert_pos(em.1, fee, 0);
    lemma_admission_preserves_marking(c, t, fee, now);
    lemma_evict_conflicts_sorted(c.utxos, c.mempool, t.inputs, 0);
    lemma_insert_pos_props(em.1, fee, 0);
    lemma_insert_sorted(em.1, entry);
    assert(m2[pos] == entry);
    assert forall|j: int| 0 <= j < t.inputs.len() implies utxo_contains(
        u2,
        (#[trigger] t.inputs[j]).prev_tx_output_hash,
    ) && utxo_get(u2, t.inputs[j].prev_tx_output_hash).marked by {
        assert(m2[pos].transaction.inputs[j].prev_tx_output_hash == t.inputs[
            j].prev_tx_output_hash);
    }
    assert forall|k: int, j2: int, j: int|
        0 <= k < m2.len() && k != pos && 0 <= j2 < (
        #[trigger] m2[k]).transaction.inputs.len() && 0 <= j < t.inputs.len() implies (
    #[trigger] m2[k].transaction.inputs[j2]).prev_tx_output_hash != (
    #[trigger] t.inputs[j]).prev_tx_output_hash by {
        assert(m2[pos].transaction.inputs[j].prev_tx_output_hash == t.inputs[
            j].prev_tx_output_hash);
    }
}

/// The two input-sum spellings agree.
proof fn lemma_tx_in_sum_is_mem(ins: Seq<InputV>, u: Seq<EntryV>, idx: int)
    ensures
        crate::types::block::tx_in_sum(ins, u, idx) == mem_input_sum(ins, u, idx),
    decreases ins.len() - idx,
{
    if idx >= 0 && idx < ins.len() {
        lemma_tx_in_sum_is_mem(ins, u, idx + 1);
    }
}

/// Referenced values agree between two sets that agree on the referenced
/// entries' values.
proof fn lemma_tx_in_sum_values(ins: Seq<InputV>, u1: Seq<EntryV>, u2: Seq<EntryV>, idx: int)
    requires
        forall|j: int|
            idx <= j < ins.len() ==> utxo_get(
                u2,
                (#[trigger] ins[j]).prev_tx_output_hash,
            ).output.value == utxo_get(u1, ins[j].prev_tx_output_hash).output.value,
    ensures
        crate::types::block::tx_in_sum(ins, u2, idx) == crate::types::block::tx_in_sum(
            ins,
            u1,
            idx,
        ),
    decreases ins.len() - idx,
{
    if idx >= 0 && idx < ins.len() {
        lemma_tx_in_sum_values(ins, u1, u2, idx + 1);
    }
}

/// Applying a tail of transactions whose inputs are present with their
/// original values, whose outputs are fresh, and whose references are
/// globally distinct moves the total by outputs minus referenced inputs.
proof fn lemma_apply_txs_conservation(
    u_orig: Seq<EntryV>,
    u_cur: Seq<EntryV>,
    txs: Seq<TxV>,
    idx: int,
)
    requires
        utxo_unique(u_cur),
        0 <= idx,
        forall|k: int, j: int|
            idx <= k < txs.len() && 0 <= j < (#[trigger] txs[k]).inputs.len()
                ==> utxo_contains(u_cur, (#[trigger] txs[k].inputs[j]).prev_tx_output_hash)
                && utxo_get(u_cur, txs[k].inputs[j].prev_tx_output_hash).output.value
                == utxo_get(u_orig, txs[k].inputs[j].prev_tx_output_hash).output.value,
        forall|k: int, j: int|
            idx <= k < txs.len() && 0 <= j < (#[trigger] txs[k]).outputs.len()
                ==> !utxo_contains(u_cur, output_hash(#[trigger] txs[k].outputs[j])),
        forall|k1: int, j1: int, k2: int, j2: int|
            idx <= k1 < txs.len() && 0 <= j1 < (#[trigger] txs[k1]).inputs.len() && idx
                <= k2 < txs.len() && 0 <= j2 < (#[trigger] txs[k2]).inputs.len() && (k1
                != k2 || j1 != j2) ==> (
            #[trigger] txs[k1].inputs[j1]).prev_tx_output_hash != (
            #[trigger] txs[k2].inputs[j2]).prev_tx_output_hash,
        forall|k1: int, j1: int, k2: int, j2: int|
            idx <= k1 < txs.len() && 0 <= j1 < (#[trigger] txs[k1]).outputs.len() && idx
                <= k2 < txs.len() && 0 <= j2 < (#[trigger] txs[k2]).outputs.len() && (k1
                != k2 || j1 != j2) ==> output_hash(#[trigger] txs[k1].outputs[j1])
                != output_hash(#[trigger] txs[k2].outputs[j2]),
        forall|k1: int, j1: int, k2: int, j2: int|
            idx <= k1 < txs.len() && 0 <= j1 < (#[trigger] txs[k1]).inputs.len() && idx
                <= k2 < txs.len() && 0 <= j2 < (#[trigger] txs[k2]).outputs.len() ==> (
            #[trigger] txs[k1].inputs[j1]).prev_tx_output_hash != output_hash(
                #[trigger] txs[k2].outputs[j2],
            ),
    ensures
        utxo_unique(spec_apply_txs(u_cur, txs, idx)),
        utxo_total(spec_apply_txs(u_cur, txs, idx)) == utxo_total(u_cur)
            + crate::types::block::txs_out_sum(txs, idx) - crate::types::block::txs_in_sum(
            txs,
            u_orig,
            idx,
        ),
    decreases txs.len() - idx,
{
    if idx >= txs.len() {
    } else {
        let t = txs[idx];
        let u_next = spec_apply_tx(u_cur, t);
        assert(inputs_known(t.inputs, u_cur));
        assert(inputs_distinct(t.inputs));
        lemma_apply_tx_conservation(u_cur, t);
        lemma_tx_in_sum_is_mem(t.inputs, u_cur, 0);
        assert forall|j: int|
            0 <= j < t.inputs.len() implies utxo_get(
            u_cur,
            (#[trigger] t.inputs[j]).prev_tx_output_hash,
        ).output.value == utxo_get(u_orig, t.inputs[j].prev_tx_output_hash).output.value by {
            assert(txs[idx].inputs[j] == t.inputs[j]);
        }
        lemma_tx_in_sum_values(t.inputs, u_orig, u_cur, 0);
        // the remaining transactions see their inputs untouched and their
        // outputs still absent
        assert forall|k: int, j: int|
            idx + 1 <= k < txs.len() && 0 <= j < (#[trigger] txs[k]).inputs.len() implies
            utxo_contains(u_next, (#[trigger] txs[k].inputs[j]).prev_tx_output_hash)
                && utxo_get(u_next, txs[k].inputs[j].prev_tx_output_hash).output.value
                == utxo_get(u_orig, txs[k].inputs[j].prev_tx_output_hash).output.value by {
            let h = txs[k].inputs[j].prev_tx_output_hash;
            assert(utxo_contains(u_cur, h));
            if tx_consumes(t, h) {
                let j2 = choose|j2: int|
                    0 <= j2 < t.inputs.len() && (#[trigger] t.inputs[j2]).prev_tx_output_hash
                        == h;
                assert(txs[idx].inputs[j2].prev_tx_output_hash == txs[
                    k].inputs[j].prev_tx_output_hash);
                assert(false);
            }
            assert(utxo_get(u_next, h) == utxo_get(u_cur, h));
        }
        assert forall|k: int, j: int|
            idx + 1 <= k < txs.len() && 0 <= j < (#[trigger] txs[k]).outputs.len() implies
            !utxo_contains(u_next, output_hash(#[trigger] txs[k].outputs[j])) by {
            let x = output_hash(txs[k].outputs[j]);
            if utxo_contains(u_next, x) {
                if utxo_contains(u_cur, x) {
                } else {
                    assert(tx_produces(t, x));
                    let j2 = choose|j2: int|
                        0 <= j2 < t.outputs.len() && output_hash(#[trigger] t.outputs[j2])
                            == x;
                    assert(output_hash(txs[idx].outputs[j2]) == output_hash(
                        txs[k].outputs[j],
                    ));
                    assert(false);
                }
            }
        }
        lemma_apply_txs_conservation(u_orig, u_next, txs, idx + 1);
        assert(spec_apply_txs(u_cur, txs, idx) == spec_apply_txs(u_next, txs, idx + 1));
    }
}

/// What block-level conservation assumes of a block against a set: the
/// transaction check passes, and content addressing holds — no output
/// hash in the block collides with an existing key or with another output
/// hash in the block.
pub open spec fn conservation_pre(u: Seq<EntryV>, b: BlockV, height: u64) -> bool {
    &&& verify_transactions_spec(b, height, u) is Ok
    &&& forall|k: int, j: int|
        0 <= k < b.transactions.len() && 0 <= j < (
        #[trigger] b.transactions[k]).outputs.len() ==> !utxo_contains(
            u,
            output_hash(#[trigger] b.transactions[k].outputs[j]),
        )
    &&& forall|k1: int, j1: int, k2: int, j2: int|
        0 <= k1 < b.transactions.len() && 0 <= j1 < (
        #[trigger] b.transactions[k1]).outputs.len() && 0 <= k2 < b.transactions.len()
            && 0 <= j2 < (#[trigger] b.transactions[k2]).outputs.len() && (k1 != k2 || j1
            != j2) ==> output_hash(#[trigger] b.transactions[k1].outputs[j1])
            != output_hash(#[trigger] b.transactions[k2].outputs[j2])
}

/// Value conservation of one accepted block: replaying it against the set
/// it was verified against raises the total held value by exactly the
/// block reward — the fees move from the spent outputs to the coinbase.
pub proof fn lemma_apply_block_conservation(u: Seq<EntryV>, b: BlockV, height: u64)
    requires
        utxo_unique(u),
        conservation_pre(u, b, height),
    ensures
        utxo_unique(spec_apply_block(u, b)),
        utxo_total(spec_apply_block(u, b)) == utxo_total(u) + crate::types::block::reward_of(
            height,
        ),
{
    let txs = b.transactions;
    crate::types::block::lemma_verify_ok_accounting(b, height, u);
    let in1 = crate::types::block::txs_in_sum(txs, u, 1);
    let out1 = crate::types::block::txs_out_sum(txs, 1);
    // the coinbase spends nothing, so the quantified facts extend to it
    assert forall|k: int, j: int|
        0 <= k < txs.len() && 0 <= j < (#[trigger] txs[k]).inputs.len() implies
        utxo_contains(u, (#[trigger] txs[k].inputs[j]).prev_tx_output_hash) && utxo_get(
            u,
            txs[k].inputs[j].prev_tx_output_hash,
        ).output.value == utxo_get(u, txs[k].inputs[j].prev_tx_output_hash).output.value by {
            assert(k >= 1);
        }
    assert forall|k1: int, j1: int, k2: int, j2: int|
        0 <= k1 < txs.len() && 0 <= j1 < (#[trigger] txs[k1]).inputs.len() && 0 <= k2
            < txs.len() && 0 <= j2 < (#[trigger] txs[k2]).inputs.len() && (k1 != k2 || j1
            != j2) implies (#[trigger] txs[k1].inputs[j1]).prev_tx_output_hash != (
    #[trigger] txs[k2].inputs[j2]).prev_tx_output_hash by {
        assert(k1 >= 1 && k2 >= 1);
    }
    assert forall|k1: int, j1: int, k2: int, j2: int|
        0 <= k1 < txs.len() && 0 <= j1 < (#[trigger] txs[k1]).inputs.len() && 0 <= k2
            < txs.len() && 0 <= j2 < (#[trigger] txs[k2]).outputs.len() implies (
    #[trigger] txs[k1].inputs[j1]).prev_tx_output_hash != output_hash(
        #[trigger] txs[k2].outputs[j2],
    ) by {
        assert(k1 >= 1);
        assert(utxo_contains(u, txs[k1].inputs[j1].prev_tx_output_hash));
        assert(!utxo_contains(u, output_hash(txs[k2].outputs[j2])));
    }
    lemma_apply_txs_conservation(u, u, txs, 0);
    // the sums split into the coinbase and the rest
    assert(crate::types::block::txs_in_sum(txs, u, 0) == crate::types::block::tx_in_sum(
        txs[0].inputs,
        u,
        0,
    ) + in1);
    assert(crate::types::block::tx_in_sum(txs[0].inputs, u, 0) == 0);
    assert(crate::types::block::txs_out_sum(txs, 0)
        == crate::types::block::sum_outputs_from(txs[0].outputs, 0) + out1);
    assert(spec_apply_block(u, b) == spec_apply_txs(u, txs, 0));
}

/// The rewards of the heights in `[from, to)`.
pub open spec fn rewards_in_range(from: int, to: int) -> int
    decreases to - from,
{
    if from < 0 || from >= to {
        0
    } else {
        crate::types::block::reward_of(from as u64) + rewards_in_range(from + 1, to)
    }
}

/// Every block of the chain from `idx` on is accepted, with content
/// addressing holding, against the state the previous blocks left.
pub open spec fn chain_accepts(blocks: Seq<BlockV>, idx: int, u: Seq<EntryV>) -> bool
    decreases blocks.len() - idx,
{
    if idx < 0 || idx >= blocks.len() {
        true
    } else {
        conservation_pre(u, blocks[idx], idx as u64) && chain_accepts(
            blocks,
            idx + 1,
            spec_apply_block(u, blocks[idx]),
        )
    }
}

/// Chain-level value conservation: after any sequence of accepted blocks,
/// the total value held by the UTXO set grows by exactly the sum of the
/// block rewards — fees only move value, they never mint it.
pub proof fn lemma_utxo_conservation(blocks: Seq<BlockV>, idx: int, u: Seq<EntryV>)
    requires
        utxo_unique(u),
        0 <= idx,
        blocks.len() <= 0xFFFF_FFFF_FFFF_FFFF,
        chain_accepts(blocks, idx, u),
    ensures
        utxo_unique(spec_apply_blocks(u, blocks, idx)),
        utxo_total(spec_apply_blocks(u, blocks, idx)) == utxo_total(u) + rewards_in_range(
            idx,
            blocks.len() as int,
        ),
    decreases blocks.len() - idx,
{
    if idx < blocks.len() {
        lemma_apply_block_conservation(u, blocks[idx], idx as u64);
        lemma_utxo_conservation(blocks, idx + 1, spec_apply_block(u, blocks[idx]));
    }
}

/// Value conservation from genesis: rebuilding the UTXO set from an
/// accepted chain holds exactly the summed block rewards.
pub proof fn lemma_chain_conservation(blocks: Seq<BlockV>)
    requires
        blocks.len() <= 0xFFFF_FFFF_FFFF_FFFF,
        chain_accepts(blocks, 0, Seq::empty()),
    ensures
        utxo_total(spec_apply_blocks(Seq::<EntryV>::empty(), blocks, 0))
            == rewards_in_range(0, blocks.len() as int),
{
    lemma_utxo_conservation(blocks, 0, Seq::empty());
}

} // verus!
