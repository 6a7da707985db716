//! Transactions: lists of inputs spending earlier outputs, and fresh
//! outputs, with canonical serialization and content hashes.
use vstd::prelude::*;
use crate::codec::{dec_bytes, lemma_split_subrange, dec_u128, dec_u256, dec_u64, enc_bytes, le_bytes, pow256,
    lemma_dec_enc_bytes, lemma_dec_enc_u128, lemma_dec_enc_u256, lemma_dec_enc_u64,
    lemma_le_bytes_len, lemma_pow256_16, push_bytes, push_le, push_u256_le, read_bytes,
    read_u128, read_u256, read_u64};
use crate::crypto::{PublicKey, Signature, copy_bytes};
use crate::sha256::hash_of_bytes;
use crate::u256::p256;

verus! {

/// A spendable amount of satoshis committed to a public key. The unique id
/// makes two outputs with the same value and key still hash differently, so
/// an output is identified by its hash across the whole chain.
#[derive(Clone, Debug)]
pub struct TransactionOutput {
    pub value: u64,
    pub unique_id: u128,
    pub pubkey: PublicKey,
}

/// The mathematical value of a [`TransactionOutput`].
pub ghost struct OutputV {
    pub value: u64,
    pub unique_id: u128,
    pub pubkey: Seq<u8>,
}

impl View for TransactionOutput {
    type V = OutputV;

    open spec fn view(&self) -> OutputV {
        OutputV { value: self.value, unique_id: self.unique_id, pubkey: self.pubkey@ }
    }
}

/// A reference to an earlier output by its hash, with a signature over that
/// hash that must verify against the referenced output's key.
#[derive(Clone, Debug)]
pub struct TransactionInput {
    pub prev_tx_output_hash: crate::sha256::Hash,
    pub signature: Signature,
}

/// The mathematical value of a [`TransactionInput`].
pub ghost struct InputV {
    pub prev_tx_output_hash: int,
    pub signature: Seq<u8>,
}

impl View for TransactionInput {
    type V = InputV;

    open spec fn view(&self) -> InputV {
        InputV {
            prev_tx_output_hash: self.prev_tx_output_hash@,
            signature: self.signature@,
        }
    }
}

/// An ordered list of inputs and an ordered list of outputs.
#[derive(Clone, Debug)]
pub struct Transaction {
    pub inputs: Vec<TransactionInput>,
    pub outputs: Vec<TransactionOutput>,
}

/// The mathematical value of a [`Transaction`].
pub ghost struct TxV {
    pub inputs: Seq<InputV>,
    pub outputs: Seq<OutputV>,
}

impl View for Transaction {
    type V = TxV;

    open spec fn view(&self) -> TxV {
        TxV {
            inputs: self.inputs@.map_values(|i: TransactionInput| i@),
            outputs: self.outputs@.map_values(|o: TransactionOutput| o@),
        }
    }
}

/// Encodings fit their width prefixes.
pub open spec fn output_wf(o: OutputV) -> bool {
    o.pubkey.len() < pow256(8)
}

pub open spec fn input_wf(i: InputV) -> bool {
    &&& 0 <= i.prev_tx_output_hash < p256()
    &&& i.signature.len() < pow256(8)
}

pub open spec fn tx_wf(t: TxV) -> bool {
    &&& t.inputs.len() < pow256(8)
    &&& t.outputs.len() < pow256(8)
    &&& forall|j: int| 0 <= j < t.inputs.len() ==> input_wf(#[trigger] t.inputs[j])
    &&& forall|j: int| 0 <= j < t.outputs.len() ==> output_wf(#[trigger] t.outputs[j])
}

/// The canonical encoding of an output.
pub open spec fn enc_output(o: OutputV) -> Seq<u8> {
    le_bytes(o.value as int, 8) + le_bytes(o.unique_id as int, 16) + enc_bytes(o.pubkey)
}

/// The canonical encoding of an input.
pub open spec fn enc_input(i: InputV) -> Seq<u8> {
    le_bytes(i.prev_tx_output_hash, 32) + enc_bytes(i.signature)
}

pub open spec fn enc_input_seq(s: Seq<InputV>) -> Seq<u8>
    decreases s.len(),
{
    if s.len() == 0 {
        Seq::empty()
    } else {
        enc_input(s[0]) + enc_input_seq(s.drop_first())
    }
}

pub open spec fn enc_output_seq(s: Seq<OutputV>) -> Seq<u8>
    decreases s.len(),
{
    if s.len() == 0 {
        Seq::empty()
    } else {
        enc_output(s[0]) + enc_output_seq(s.drop_first())
    }
}

/// The canonical encoding of a transaction: counted input list, then
/// counted output list.
pub open spec fn enc_tx(t: TxV) -> Seq<u8> {
    le_bytes(t.inputs.len() as int, 8) + enc_input_seq(t.inputs)
        + le_bytes(t.outputs.len() as int, 8) + enc_output_seq(t.outputs)
}

/// The content hash of an output.
pub open spec fn output_hash(o: OutputV) -> int {
    hash_of_bytes(enc_output(o))
}

/// The content hash of a transaction.
pub open spec fn tx_hash(t: TxV) -> int {
    hash_of_bytes(enc_tx(t))
}

pub open spec fn dec_output(s: Seq<u8>, pos: int) -> Option<(OutputV, int)> {
    match dec_u64(s, pos) {
        Some((value, p1)) => match dec_u128(s, p1) {
            Some((unique_id, p2)) => match dec_bytes(s, p2) {
                Some((pubkey, p3)) => Some((OutputV { value, unique_id, pubkey }, p3)),
                None => None,
            },
            None => None,
        },
        None => None,
    }
}

pub open spec fn dec_input(s: Seq<u8>, pos: int) -> Option<(InputV, int)> {
    match dec_u256(s, pos) {
        Some((prev, p1)) => match dec_bytes(s, p1) {
            Some((sig, p2)) => Some(
                (InputV { prev_tx_output_hash: prev, signature: sig }, p2),
            ),
            None => None,
        },
        None => None,
    }
}

pub open spec fn dec_input_seq(s: Seq<u8>, pos: int, n: nat) -> Option<(Seq<InputV>, int)>
    decreases n,
{
    if n == 0 {
        Some((Seq::empty(), pos))
    } else {
        match dec_input(s, pos) {
            Some((v, p)) => match dec_input_seq(s, p, (n - 1) as nat) {
                Some((vs, p2)) => Some((seq![v] + vs, p2)),
                None => None,
            },
            None => None,
        }
    }
}

pub open spec fn dec_output_seq(s: Seq<u8>, pos: int, n: nat) -> Option<
    (Seq<OutputV>, int),
>
    decreases n,
{
    if n == 0 {
        Some((Seq::empty(), pos))
    } else {
        match dec_output(s, pos) {
            Some((v, p)) => match dec_output_seq(s, p, (n - 1) as nat) {
                Some((vs, p2)) => Some((seq![v] + vs, p2)),
                None => None,
            },
            None => None,
        }
    }
}

pub open spec fn dec_tx(s: Seq<u8>, pos: int) -> Option<(TxV, int)> {
    match dec_u64(s, pos) {
        Some((ni, p1)) => match dec_input_seq(s, p1, ni as nat) {
            Some((inputs, p2)) => match dec_u64(s, p2) {
                Some((no, p3)) => match dec_output_seq(s, p3, no as nat) {
                    Some((outputs, p4)) => Some((TxV { inputs, outputs }, p4)),
                    None => None,
                },
                None => None,
            },
            None => None,
        },
        None => None,
    }
}

impl TransactionOutput {
    pub fn new(value: u64, unique_id: u128, pubkey: PublicKey) -> (r: TransactionOutput)
        ensures
            r@ == (OutputV { value, unique_id, pubkey: pubkey@ }),
    {
        TransactionOutput { value, unique_id, pubkey }
    }

    /// A copy with the same value.
    pub fn duplicate(&self) -> (r: TransactionOutput)
        ensures
            r@ == self@,
    {
        TransactionOutput {
            value: self.value,
            unique_id: self.unique_id,
            pubkey: self.pubkey.duplicate(),
        }
    }

    /// Appends the canonical encoding of this output.
    pub fn encode_to(&self, out: &mut Vec<u8>)
        ensures
            final(out)@ == old(out)@ + enc_output(self@),
    {
        let ghost pre: Seq<u8> = out@;
        push_le(out, self.value as u128, 8);
        push_le(out, self.unique_id, 16);
        push_bytes(out, &self.pubkey.0);
        proof {
            assert(out@ =~= pre + enc_output(self@));
        }
    }

    /// The canonical encoding of this output.
    pub fn encode(&self) -> (r: Vec<u8>)
        ensures
            r@ == enc_output(self@),
    {
        let mut out: Vec<u8> = Vec::new();
        self.encode_to(&mut out);
        proof {
            assert(out@ =~= enc_output(self@));
        }
        out
    }

    /// The content hash, identifying this output across the whole chain.
    pub fn hash(&self) -> (r: crate::sha256::Hash)
        ensures
            r@ == output_hash(self@),
    {
        let bytes = self.encode();
        crate::sha256::Hash::of_bytes(&bytes)
    }
}

impl TransactionInput {
    /// Appends the canonical encoding of this input.
    pub fn encode_to(&self, out: &mut Vec<u8>)
        ensures
            final(out)@ == old(out)@ + enc_input(self@),
    {
        let ghost pre: Seq<u8> = out@;
        push_u256_le(out, &self.prev_tx_output_hash.0);
        push_bytes(out, &self.signature.0);
        proof {
            assert(out@ =~= pre + enc_input(self@));
        }
    }

    /// A copy with the same value.
    pub fn duplicate(&self) -> (r: TransactionInput)
        ensures
            r@ == self@,
    {
        TransactionInput {
            prev_tx_output_hash: self.prev_tx_output_hash,
            signature: Signature(copy_bytes(&self.signature.0)),
        }
    }
}

impl Transaction {
    pub fn new(inputs: Vec<TransactionInput>, outputs: Vec<TransactionOutput>) -> (r:
        Transaction)
        ensures
            r.inputs@ == inputs@,
            r.outputs@ == outputs@,
    {
        Transaction { inputs, outputs }
    }

    /// A copy with the same value.
    pub fn duplicate(&self) -> (r: Transaction)
        ensures
            r@ == self@,
    {
        let mut inputs: Vec<TransactionInput> = Vec::new();
        let mut i: usize = 0;
        while i < self.inputs.len()
            invariant
                i <= self.inputs@.len(),
                inputs@.len() == i,
                forall|j: int| 0 <= j < i ==> inputs@[j]@ == self.inputs@[j]@,
            decreases self.inputs@.len() - i,
        {
            inputs.push(self.inputs[i].duplicate());
            i = i + 1;
        }
        let mut outputs: Vec<TransactionOutput> = Vec::new();
        let mut k: usize = 0;
        while k < self.outputs.len()
            invariant
                k <= self.outputs@.len(),
                outputs@.len() == k,
                forall|j: int| 0 <= j < k ==> outputs@[j]@ == self.outputs@[j]@,
            decreases self.outputs@.len() - k,
        {
            outputs.push(self.outputs[k].duplicate());
            k = k + 1;
        }
        let r = Transaction { inputs, outputs };
        proof {
            assert(r@.inputs =~= self@.inputs);
            assert(r@.outputs =~= self@.outputs);
        }
        r
    }

    /// Appends the canonical encoding of this transaction.
    pub fn encode_to(&self, out: &mut Vec<u8>)
        ensures
            final(out)@ == old(out)@ + enc_tx(self@),
    {
        let ghost pre: Seq<u8> = out@;
        proof {
            lemma_pow256_16();
        }
        push_le(out, self.inputs.len() as u128, 8);
        let mut i: usize = 0;
        while i < self.inputs.len()
            invariant
                i <= self.inputs@.len(),
                out@ == pre + le_bytes(self.inputs@.len() as int, 8) + enc_input_seq(
                    self@.inputs.subrange(0, i as int),
                ),
            decreases self.inputs@.len() - i,
        {
            self.inputs[i].encode_to(out);
            proof {
                lemma_enc_input_seq_snoc(self@.inputs.subrange(0, i as int), self@.inputs[i as int]);
                assert(self@.inputs.subrange(0, i as int).push(self@.inputs[i as int])
                    =~= self@.inputs.subrange(0, i + 1));
            }
            i = i + 1;
        }
        proof {
            assert(self@.inputs.subrange(0, self.inputs@.len() as int) =~= self@.inputs);
        }
        push_le(out, self.outputs.len() as u128, 8);
        let ghost mid: Seq<u8> = out@;
        let mut k: usize = 0;
        while k < self.outputs.len()
            invariant
                k <= self.outputs@.len(),
                out@ == mid + enc_output_seq(self@.outputs.subrange(0, k as int)),
            decreases self.outputs@.len() - k,
        {
            self.outputs[k].encode_to(out);
            proof {
                lemma_enc_output_seq_snoc(
                    self@.outputs.subrange(0, k as int),
                    self@.outputs[k as int],
                );
                assert(self@.outputs.subrange(0, k as int).push(self@.outputs[k as int])
                    =~= self@.outputs.subrange(0, k + 1));
            }
            k = k + 1;
        }
        proof {
            assert(self@.outputs.subrange(0, self.outputs@.len() as int) =~= self@.outputs);
            assert(out@ =~= pre + enc_tx(self@));
        }
    }

    /// The canonical encoding of this transaction.
    pub fn encode(&self) -> (r: Vec<u8>)
        ensures
            r@ == enc_tx(self@),
    {
        let mut out: Vec<u8> = Vec::new();
        self.encode_to(&mut out);
        proof {
            assert(out@ =~= enc_tx(self@));
        }
        out
    }

    /// The content hash of this transaction.
    pub fn hash(&self) -> (r: crate::sha256::Hash)
        ensures
            r@ == tx_hash(self@),
    {
        let bytes = self.encode();
        crate::sha256::Hash::of_bytes(&bytes)
    }
}

/// Appending one item extends the encoded item sequence.
pub proof fn lemma_enc_input_seq_snoc(s: Seq<InputV>, v: InputV)
    ensures
        enc_input_seq(s.push(v)) == enc_input_seq(s) + enc_input(v),
    decreases s.len(),
{
    if s.len() == 0 {
        assert(s.push(v).drop_first() =~= Seq::<InputV>::empty());
        assert(enc_input_seq(Seq::<InputV>::empty()) == Seq::<u8>::empty());
        assert(enc_input_seq(s.push(v)) == enc_input(v) + Seq::<u8>::empty());
        assert(enc_input(v) + Seq::<u8>::empty() =~= enc_input_seq(s) + enc_input(v));
    } else {
        lemma_enc_input_seq_snoc(s.drop_first(), v);
        assert(s.push(v).drop_first() =~= s.drop_first().push(v));
        assert(s.push(v)[0] == s[0]);
        assert(enc_input_seq(s.push(v)) == enc_input(s[0]) + enc_input_seq(
            s.drop_first().push(v),
        ));
        assert(enc_input(s[0]) + (enc_input_seq(s.drop_first()) + enc_input(v)) =~= (
        enc_input(s[0]) + enc_input_seq(s.drop_first())) + enc_input(v));
    }
}

pub proof fn lemma_enc_output_seq_snoc(s: Seq<OutputV>, v: OutputV)
    ensures
        enc_output_seq(s.push(v)) == enc_output_seq(s) + enc_output(v),
    decreases s.len(),
{
    if s.len() == 0 {
        assert(s.push(v).drop_first() =~= Seq::<OutputV>::empty());
        assert(enc_output_seq(Seq::<OutputV>::empty()) == Seq::<u8>::empty());
        assert(enc_output_seq(s.push(v)) == enc_output(v) + Seq::<u8>::empty());
        assert(enc_output(v) + Seq::<u8>::empty() =~= enc_output_seq(s) + enc_output(v));
    } else {
        lemma_enc_output_seq_snoc(s.drop_first(), v);
        assert(s.push(v).drop_first() =~= s.drop_first().push(v));
        assert(s.push(v)[0] == s[0]);
        assert(enc_output_seq(s.push(v)) == enc_output(s[0]) + enc_output_seq(
            s.drop_first().push(v),
        ));
        assert(enc_output(s[0]) + (enc_output_seq(s.drop_first()) + enc_output(v)) =~= (
        enc_output(s[0]) + enc_output_seq(s.drop_first())) + enc_output(v));
    }
}

/// Reads an output; mirrors [`dec_output`].
pub fn read_output(bytes: &Vec<u8>, pos: usize) -> (r: Option<(TransactionOutput, usize)>)
    ensures
        match r {
            Some((v, p)) => dec_output(bytes@, pos as int) == Some((v@, p as int)),
            None => dec_output(bytes@, pos as int) is None,
        },
{
    let (value, p1) = match read_u64(bytes, pos) {
        Some(x) => x,
        None => {
            return None;
        },
    };
    let (unique_id, p2) = match read_u128(bytes, p1) {
        Some(x) => x,
        None => {
            return None;
        },
    };
    let (pk, p3) = match read_bytes(bytes, p2) {
        Some(x) => x,
        None => {
            return None;
        },
    };
    Some((TransactionOutput { value, unique_id, pubkey: PublicKey(pk) }, p3))
}

/// Reads an input; mirrors [`dec_input`].
pub fn read_input(bytes: &Vec<u8>, pos: usize) -> (r: Option<(TransactionInput, usize)>)
    ensures
        match r {
            Some((v, p)) => dec_input(bytes@, pos as int) == Some((v@, p as int)),
            None => dec_input(bytes@, pos as int) is None,
        },
{
    let (prev, p1) = match read_u256(bytes, pos) {
        Some(x) => x,
        None => {
            return None;
        },
    };
    let (sig, p2) = match read_bytes(bytes, p1) {
        Some(x) => x,
        None => {
            return None;
        },
    };
    Some(
        (
            TransactionInput {
                prev_tx_output_hash: crate::sha256::Hash(prev),
                signature: Signature(sig),
            },
            p2,
        ),
    )
}

/// Reads `n` inputs; mirrors [`dec_input_seq`].
pub fn read_input_seq(bytes: &Vec<u8>, pos: usize, n: u64) -> (r: Option<
    (Vec<TransactionInput>, usize),
>)
    ensures
        match r {
            Some((v, p)) => dec_input_seq(bytes@, pos as int, n as nat) == Some(
                (v@.map_values(|i: TransactionInput| i@), p as int),
            ),
            None => dec_input_seq(bytes@, pos as int, n as nat) is None,
        },
    decreases n,
{
    if n == 0 {
        let r: Vec<TransactionInput> = Vec::new();
        proof {
            assert(r@.map_values(|i: TransactionInput| i@) =~= Seq::<InputV>::empty());
        }
        return Some((r, pos));
    }
    let (v, p) = match read_input(bytes, pos) {
        Some(x) => x,
        None => {
            return None;
        },
    };
    let (mut vs, p2) = match read_input_seq(bytes, p, n - 1) {
        Some(x) => x,
        None => {
            return None;
        },
    };
    vs.insert(0, v);
    proof {
        let m = |i: TransactionInput| i@;
        assert(vs@.map_values(m) =~= seq![v@] + vs@.drop_first().map_values(m));
    }
    Some((vs, p2))
}

/// Reads `n` outputs; mirrors [`dec_output_seq`].
pub fn read_output_seq(bytes: &Vec<u8>, pos: usize, n: u64) -> (r: Option<
    (Vec<TransactionOutput>, usize),
>)
    ensures
        match r {
            Some((v, p)) => dec_output_seq(bytes@, pos as int, n as nat) == Some(
                (v@.map_values(|o: TransactionOutput| o@), p as int),
            ),
            None => dec_output_seq(bytes@, pos as int, n as nat) is None,
        },
    decreases n,
{
    if n == 0 {
        let r: Vec<TransactionOutput> = Vec::new();
        proof {
            assert(r@.map_values(|o: TransactionOutput| o@) =~= Seq::<OutputV>::empty());
        }
        return Some((r, pos));
    }
    let (v, p) = match read_output(bytes, pos) {
        Some(x) => x,
        None => {
            return None;
        },
    };
    let (mut vs, p2) = match read_output_seq(bytes, p, n - 1) {
        Some(x) => x,
        None => {
            return None;
        },
    };
    vs.insert(0, v);
    proof {
        let m = |o: TransactionOutput| o@;
        assert(vs@.map_values(m) =~= seq![v@] + vs@.drop_first().map_values(m));
    }
    Some((vs, p2))
}

/// Reads a transaction; mirrors [`dec_tx`].
pub fn read_tx(bytes: &Vec<u8>, pos: usize) -> (r: Option<(Transaction, usize)>)
    ensures
        match r {
            Some((v, p)) => dec_tx(bytes@, pos as int) == Some((v@, p as int)),
            None => dec_tx(bytes@, pos as int) is None,
        },
{
    let (ni, p1) = match read_u64(bytes, pos) {
        Some(x) => x,
        None => {
            return None;
        },
    };
    let (inputs, p2) = match read_input_seq(bytes, p1, ni) {
        Some(x) => x,
        None => {
            return None;
        },
    };
    let (no, p3) = match read_u64(bytes, p2) {
        Some(x) => x,
        None => {
            return None;
        },
    };
    let (outputs, p4) = match read_output_seq(bytes, p3, no) {
        Some(x) => x,
        None => {
            return None;
        },
    };
    Some((Transaction { inputs, outputs }, p4))
}

/// Decoding the canonical encoding of an output recovers it.
pub proof fn lemma_dec_enc_output(o: OutputV, s: Seq<u8>, pos: int)
    requires
        output_wf(o),
        0 <= pos,
        pos + enc_output(o).len() <= s.len(),
        s.subrange(pos, pos + enc_output(o).len()) == enc_output(o),
    ensures
        enc_output(o).len() == 32 + o.pubkey.len(),
        dec_output(s, pos) == Some((o, pos + enc_output(o).len())),
{
    let a = le_bytes(o.value as int, 8);
    let b = le_bytes(o.unique_id as int, 16);
    let c = enc_bytes(o.pubkey);
    lemma_le_bytes_len(o.value as int, 8);
    lemma_le_bytes_len(o.unique_id as int, 16);
    lemma_le_bytes_len(o.pubkey.len() as int, 8);
    assert(enc_output(o) =~= a + (b + c));
    lemma_split_subrange(s, pos, a, b + c);
    lemma_split_subrange(s, pos + 8, b, c);
    lemma_dec_enc_u64(o.value, s, pos);
    lemma_dec_enc_u128(o.unique_id, s, pos + 8);
    lemma_dec_enc_bytes(o.pubkey, s, pos + 24);
}

/// Decoding the canonical encoding of an input recovers it.
pub proof fn lemma_dec_enc_input(i: InputV, s: Seq<u8>, pos: int)
    requires
        input_wf(i),
        0 <= pos,
        pos + enc_input(i).len() <= s.len(),
        s.subrange(pos, pos + enc_input(i).len()) == enc_input(i),
    ensures
        enc_input(i).len() == 40 + i.signature.len(),
        dec_input(s, pos) == Some((i, pos + enc_input(i).len())),
{
    let a = le_bytes(i.prev_tx_output_hash, 32);
    let b = enc_bytes(i.signature);
    lemma_le_bytes_len(i.prev_tx_output_hash, 32);
    lemma_le_bytes_len(i.signature.len() as int, 8);
    assert(enc_input(i) =~= a + b);
    lemma_split_subrange(s, pos, a, b);
    lemma_dec_enc_u256(i.prev_tx_output_hash, s, pos);
    lemma_dec_enc_bytes(i.signature, s, pos + 32);
}

pub proof fn lemma_dec_enc_input_seq(vs: Seq<InputV>, s: Seq<u8>, pos: int)
    requires
        forall|j: int| 0 <= j < vs.len() ==> input_wf(#[trigger] vs[j]),
        0 <= pos,
        pos + enc_input_seq(vs).len() <= s.len(),
        s.subrange(pos, pos + enc_input_seq(vs).len()) == enc_input_seq(vs),
    ensures
        dec_input_seq(s, pos, vs.len()) == Some((vs, pos + enc_input_seq(vs).len())),
    decreases vs.len(),
{
    if vs.len() == 0 {
        assert(dec_input_seq(s, pos, 0) == Some((Seq::<InputV>::empty(), pos)));
        assert(vs =~= Seq::<InputV>::empty());
    } else {
        let a = enc_input(vs[0]);
        let b = enc_input_seq(vs.drop_first());
        assert(enc_input_seq(vs) == a + b);
        lemma_split_subrange(s, pos, a, b);
        lemma_dec_enc_input(vs[0], s, pos);
        lemma_dec_enc_input_seq(vs.drop_first(), s, pos + a.len());
        assert(seq![vs[0]] + vs.drop_first() =~= vs);
    }
}

pub proof fn lemma_dec_enc_output_seq(vs: Seq<OutputV>, s: Seq<u8>, pos: int)
    requires
        forall|j: int| 0 <= j < vs.len() ==> output_wf(#[trigger] vs[j]),
        0 <= pos,
        pos + enc_output_seq(vs).len() <= s.len(),
        s.subrange(pos, pos + enc_output_seq(vs).len()) == enc_output_seq(vs),
    ensures
        dec_output_seq(s, pos, vs.len()) == Some((vs, pos + enc_output_seq(vs).len())),
    decreases vs.len(),
{
    if vs.len() == 0 {
        assert(dec_output_seq(s, pos, 0) == Some((Seq::<OutputV>::empty(), pos)));
        assert(vs =~= Seq::<OutputV>::empty());
    } else {
        let a = enc_output(vs[0]);
        let b = enc_output_seq(vs.drop_first());
        assert(enc_output_seq(vs) == a + b);
        lemma_split_subrange(s, pos, a, b);
        lemma_dec_enc_output(vs[0], s, pos);
        lemma_dec_enc_output_seq(vs.drop_first(), s, pos + a.len());
        assert(seq![vs[0]] + vs.drop_first() =~= vs);
    }
}

/// Round trip: decoding the canonical encoding of a transaction recovers
/// exactly the transaction.
pub proof fn lemma_dec_enc_tx(t: TxV, s: Seq<u8>, pos: int)
    requires
        tx_wf(t),
        0 <= pos,
        pos + enc_tx(t).len() <= s.len(),
        s.subrange(pos, pos + enc_tx(t).len()) == enc_tx(t),
    ensures
        dec_tx(s, pos) == Some((t, pos + enc_tx(t).len())),
{
    let a = le_bytes(t.inputs.len() as int, 8);
    let b = enc_input_seq(t.inputs);
    let c = le_bytes(t.outputs.len() as int, 8);
    let d = enc_output_seq(t.outputs);
    lemma_le_bytes_len(t.inputs.len() as int, 8);
    lemma_le_bytes_len(t.outputs.len() as int, 8);
    assert(enc_tx(t) =~= a + (b + (c + d)));
    lemma_split_subrange(s, pos, a, b + (c + d));
    lemma_split_subrange(s, pos + 8, b, c + d);
    lemma_split_subrange(s, pos + 8 + b.len(), c, d);
    assert((t.inputs.len() as u64) as nat == t.inputs.len()) by {
        lemma_pow256_16();
    }
    assert((t.outputs.len() as u64) as nat == t.outputs.len()) by {
        lemma_pow256_16();
    }
    lemma_dec_enc_u64(t.inputs.len() as u64, s, pos);
    lemma_dec_enc_input_seq(t.inputs, s, pos + 8);
    lemma_dec_enc_u64(t.outputs.len() as u64, s, pos + 8 + b.len());
    lemma_dec_enc_output_seq(t.outputs, s, pos + 8 + b.len() + 8);
}

/// Every view that comes from an executable transaction is well formed.
pub proof fn lemma_tx_view_wf(t: &Transaction)
    ensures
        tx_wf(t@),
{
    lemma_pow256_16();
    vstd::std_specs::vec::axiom_spec_len(&t.inputs);
    vstd::std_specs::vec::axiom_spec_len(&t.outputs);
    assert forall|j: int| 0 <= j < t@.inputs.len() implies input_wf(
        #[trigger] t@.inputs[j],
    ) by {
        assert(t@.inputs[j] == t.inputs@[j]@);
        t.inputs@[j].prev_tx_output_hash.0.lemma_val_bounds();
        vstd::std_specs::vec::axiom_spec_len(&t.inputs@[j].signature.0);
    }
    assert forall|j: int| 0 <= j < t@.outputs.len() implies output_wf(
        #[trigger] t@.outputs[j],
    ) by {
        assert(t@.outputs[j] == t.outputs@[j]@);
        vstd::std_specs::vec::axiom_spec_len(&t.outputs@[j].pubkey.0);
    }
}

/// Content addressing: two transactions with identical canonical
/// serialization have identical hashes, and hashing is deterministic.
pub proof fn lemma_content_addressed_tx(a: TxV, b: TxV)
    requires
        enc_tx(a) == enc_tx(b),
    ensures
        tx_hash(a) == tx_hash(b),
{
}

/// Content addressing for outputs.
pub proof fn lemma_content_addressed_output(a: OutputV, b: OutputV)
    requires
        enc_output(a) == enc_output(b),
    ensures
        output_hash(a) == output_hash(b),
{
}

} // verus!
