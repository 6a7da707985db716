//! The UTXO set: unspent transaction outputs keyed by their hash, each with
//! a mark that reserves it for a pending mempool transaction.
use vstd::prelude::*;
use vstd::pervasive::VecAdditionalExecFns;
use crate::types::transaction::{OutputV, TransactionOutput};

verus! {

/// One unspent output: its identifying hash, the mempool reservation mark,
/// and the output itself.
#[derive(Clone, Debug)]
pub struct UtxoEntry {
    pub hash: crate::sha256::Hash,
    pub marked: bool,
    pub output: TransactionOutput,
}

/// The mathematical value of a [`UtxoEntry`].
pub ghost struct EntryV {
    pub hash: int,
    pub marked: bool,
    pub output: OutputV,
}

impl View for UtxoEntry {
    type V = EntryV;

    open spec fn view(&self) -> EntryV {
        EntryV { hash: self.hash@, marked: self.marked, output: self.output@ }
    }
}

/// Whether some entry carries the key `h`.
pub open spec fn utxo_contains(s: Seq<EntryV>, h: int) -> bool {
    exists|i: int| 0 <= i < s.len() && (#[trigger] s[i]).hash == h
}

/// The index of the entry carrying the key `h`; unique when the keys are
/// unique.
pub open spec fn utxo_index(s: Seq<EntryV>, h: int) -> int {
    choose|i: int| 0 <= i < s.len() && (#[trigger] s[i]).hash == h
}

/// The entry carrying the key `h`; unique when the keys are unique.
pub open spec fn utxo_get(s: Seq<EntryV>, h: int) -> EntryV {
    s[utxo_index(s, h)]
}

/// Inserting an output under a key, unmarked, replacing any entry with the
/// same key.
pub open spec fn spec_upsert(s: Seq<EntryV>, h: int, o: OutputV) -> Seq<EntryV> {
    let e = EntryV { hash: h, marked: false, output: o };
    if utxo_contains(s, h) {
        s.update(utxo_index(s, h), e)
    } else {
        s.push(e)
    }
}

/// Removing the entry under a key, if present.
pub open spec fn spec_remove(s: Seq<EntryV>, h: int) -> Seq<EntryV> {
    if utxo_contains(s, h) {
        s.remove(utxo_index(s, h))
    } else {
        s
    }
}

/// Setting the reservation mark of the entry under a key, if present.
pub open spec fn spec_set_marked(s: Seq<EntryV>, h: int, marked: bool) -> Seq<EntryV> {
    if utxo_contains(s, h) {
        s.update(
            utxo_index(s, h),
            EntryV { hash: h, marked, output: s[utxo_index(s, h)].output },
        )
    } else {
        s
    }
}

/// No two entries carry the same key.
pub open spec fn utxo_unique(s: Seq<EntryV>) -> bool {
    forall|i: int, j: int|
        0 <= i < j < s.len() ==> (#[trigger] s[i]).hash != (#[trigger] s[j]).hash
}

/// The total value held in the set, in satoshis.
pub open spec fn utxo_total(s: Seq<EntryV>) -> int
    decreases s.len(),
{
    if s.len() == 0 {
        0
    } else {
        s[0].output.value as int + utxo_total(s.drop_first())
    }
}

pub proof fn lemma_utxo_get_at(s: Seq<EntryV>, i: int)
    requires
        utxo_unique(s),
        0 <= i < s.len(),
    ensures
        utxo_contains(s, s[i].hash),
        utxo_index(s, s[i].hash) == i,
        utxo_get(s, s[i].hash) == s[i],
{
    let h = s[i].hash;
    let j = choose|j: int| 0 <= j < s.len() && (#[trigger] s[j]).hash == h;
    if i != j {
        assert(s[i].hash != s[j].hash);
    }
}

pub proof fn lemma_total_push(s: Seq<EntryV>, e: EntryV)
    ensures
        utxo_total(s.push(e)) == utxo_total(s) + e.output.value as int,
    decreases s.len(),
{
    if s.len() == 0 {
        assert(s.push(e).drop_first() =~= Seq::<EntryV>::empty());
        assert(utxo_total(Seq::<EntryV>::empty()) == 0);
    } else {
        lemma_total_push(s.drop_first(), e);
        assert(s.push(e).drop_first() =~= s.drop_first().push(e));
        assert(s.push(e)[0] == s[0]);
    }
}

pub proof fn lemma_total_update(s: Seq<EntryV>, i: int, e: EntryV)
    requires
        0 <= i < s.len(),
    ensures
        utxo_total(s.update(i, e)) == utxo_total(s) + e.output.value as int
            - s[i].output.value as int,
    decreases s.len(),
{
    if i == 0 {
        assert(s.update(0, e).drop_first() =~= s.drop_first());
        assert(s.update(0, e)[0] == e);
    } else {
        lemma_total_update(s.drop_first(), i - 1, e);
        assert(s.update(i, e).drop_first() =~= s.drop_first().update(i - 1, e));
        assert(s.update(i, e)[0] == s[0]);
    }
}

pub proof fn lemma_total_remove(s: Seq<EntryV>, i: int)
    requires
        0 <= i < s.len(),
    ensures
        utxo_total(s.remove(i)) == utxo_total(s) - s[i].output.value as int,
    decreases s.len(),
{
    if i == 0 {
        assert(s.remove(0) =~= s.drop_first());
    } else {
        lemma_total_remove(s.drop_first(), i - 1);
        assert(s.remove(i).drop_first() =~= s.drop_first().remove(i - 1));
        assert(s.remove(i)[0] == s[0]);
    }
}

/// The UTXO set, keyed by output hash; insertion order is kept, which makes
/// the canonical serialization of the chain state deterministic.
#[derive(Clone, Debug)]
pub struct UtxoSet {
    pub entries: Vec<UtxoEntry>,
}

impl View for UtxoSet {
    type V = Seq<EntryV>;

    open spec fn view(&self) -> Seq<EntryV> {
        self.entries@.map_values(|e: UtxoEntry| e@)
    }
}

impl UtxoSet {
    /// Keys are unique.
    pub open spec fn wf(&self) -> bool {
        utxo_unique(self@)
    }

    pub fn new() -> (r: UtxoSet)
        ensures
            r@ =~= Seq::<EntryV>::empty(),
            r.wf(),
    {
        UtxoSet { entries: Vec::new() }
    }

    /// The number of entries.
    pub fn len(&self) -> (r: usize)
        ensures
            r == self@.len(),
    {
        self.entries.len()
    }

    /// The index of the entry keyed `h`, if one exists.
    pub fn find(&self, h: &crate::sha256::Hash) -> (r: Option<usize>)
        ensures
            match r {
                Some(i) => i < self@.len() && self@[i as int].hash == h@,
                None => !utxo_contains(self@, h@),
            },
    {
        let n: usize = self.entries.len();
        let mut i: usize = 0;
        while i < n
            invariant
                n == self@.len(),
                i <= n,
                forall|j: int| 0 <= j < i ==> (#[trigger] self@[j]).hash != h@,
            decreases n - i,
        {
            if self.entries[i].hash.0.le(&h.0) && h.0.le(&self.entries[i].hash.0) {
                return Some(i);
            }
            i = i + 1;
        }
        None
    }

    /// Whether an output with hash `h` is present.
    pub fn contains(&self, h: &crate::sha256::Hash) -> (r: bool)
        ensures
            r == utxo_contains(self@, h@),
    {
        match self.find(h) {
            Some(i) => {
                proof {
                    assert(utxo_contains(self@, h@));
                }
                true
            },
            None => false,
        }
    }

    /// Inserts an output under key `h`, unmarked, replacing any entry with
    /// the same key.
    pub fn upsert(&mut self, h: crate::sha256::Hash, output: TransactionOutput)
        requires
            old(self).wf(),
        ensures
            final(self).wf(),
            final(self)@ == spec_upsert(old(self)@, h@, output@),
            utxo_contains(final(self)@, h@),
            utxo_get(final(self)@, h@) == (EntryV {
                hash: h@,
                marked: false,
                output: output@,
            }),
            forall|x: int|
                x != h@ ==> #[trigger] utxo_contains(final(self)@, x) == utxo_contains(
                    old(self)@,
                    x,
                ),
            forall|x: int|
                x != h@ && utxo_contains(old(self)@, x) ==> #[trigger] utxo_get(
                    final(self)@,
                    x,
                ) == utxo_get(old(self)@, x),
            utxo_total(final(self)@) == utxo_total(old(self)@) + output@.value - (
            if utxo_contains(old(self)@, h@) {
                utxo_get(old(self)@, h@).output.value as int
            } else {
                0
            }),
    {
        let ghost pre: Seq<EntryV> = self@;
        let e = UtxoEntry { hash: h, marked: false, output };
        match self.find(&h) {
            Some(i) => {
                proof {
                    lemma_utxo_get_at(pre, i as int);
                    lemma_total_update(pre, i as int, e@);
                }
                self.entries.set(i, e);
                proof {
                    assert(self@ =~= pre.update(i as int, e@));
                    lemma_upsert_frame(pre, i as int, e@);
                }
            },
            None => {
                proof {
                    lemma_total_push(pre, e@);
                }
                self.entries.push(e);
                proof {
                    assert(self@ =~= pre.push(e@));
                    lemma_push_frame(pre, e@);
                }
            },
        }
    }

    /// Removes the entry keyed `h`, if one exists.
    pub fn remove(&mut self, h: &crate::sha256::Hash)
        requires
            old(self).wf(),
        ensures
            final(self).wf(),
            final(self)@ == spec_remove(old(self)@, h@),
            !utxo_contains(final(self)@, h@),
            forall|x: int|
                x != h@ ==> #[trigger] utxo_contains(final(self)@, x) == utxo_contains(
                    old(self)@,
                    x,
                ),
            forall|x: int|
                x != h@ && utxo_contains(old(self)@, x) ==> #[trigger] utxo_get(
                    final(self)@,
                    x,
                ) == utxo_get(old(self)@, x),
            utxo_total(final(self)@) == utxo_total(old(self)@) - (
            if utxo_contains(old(self)@, h@) {
                utxo_get(old(self)@, h@).output.value as int
            } else {
                0
            }),
    {
        let ghost pre: Seq<EntryV> = self@;
        match self.find(h) {
            Some(i) => {
                proof {
                    lemma_utxo_get_at(pre, i as int);
                    lemma_total_remove(pre, i as int);
                }
                self.entries.remove(i);
                proof {
                    assert(self@ =~= pre.remove(i as int));
                    lemma_remove_frame(pre, i as int);
                }
            },
            None => {},
        }
    }

    /// Sets the reservation mark of the entry keyed `h`, if one exists.
    pub fn set_marked(&mut self, h: &crate::sha256::Hash, marked: bool)
        requires
            old(self).wf(),
        ensures
            final(self).wf(),
            final(self)@ == spec_set_marked(old(self)@, h@, marked),
            utxo_contains(final(self)@, h@) == utxo_contains(old(self)@, h@),
            utxo_contains(old(self)@, h@) ==> utxo_get(final(self)@, h@) == (EntryV {
                hash: h@,
                marked,
                output: utxo_get(old(self)@, h@).output,
            }),
            forall|x: int|
                x != h@ ==> #[trigger] utxo_contains(final(self)@, x) == utxo_contains(
                    old(self)@,
                    x,
                ),
            forall|x: int|
                x != h@ && utxo_contains(old(self)@, x) ==> #[trigger] utxo_get(
                    final(self)@,
                    x,
                ) == utxo_get(old(self)@, x),
            utxo_total(final(self)@) == utxo_total(old(self)@),
    {
        let ghost pre: Seq<EntryV> = self@;
        match self.find(h) {
            Some(i) => {
                proof {
                    lemma_utxo_get_at(pre, i as int);
                }
                let e = UtxoEntry {
                    hash: self.entries[i].hash,
                    marked,
                    output: self.entries[i].output.duplicate(),
                };
                proof {
                    lemma_total_update(pre, i as int, e@);
                }
                self.entries.set(i, e);
                proof {
                    assert(self@ =~= pre.update(i as int, e@));
                    lemma_upsert_frame(pre, i as int, e@);
                }
            },
            None => {},
        }
    }
}

/// Updating one entry in place keeps every other key's entry.
pub proof fn lemma_upsert_frame(s: Seq<EntryV>, i: int, e: EntryV)
    requires
        utxo_unique(s),
        0 <= i < s.len(),
        e.hash == s[i].hash,
    ensures
        utxo_unique(s.update(i, e)),
        utxo_contains(s.update(i, e), e.hash),
        utxo_get(s.update(i, e), e.hash) == e,
        forall|x: int|
            x != e.hash ==> #[trigger] utxo_contains(s.update(i, e), x) == utxo_contains(
                s,
                x,
            ),
        forall|x: int|
            x != e.hash && utxo_contains(s, x) ==> #[trigger] utxo_get(s.update(i, e), x)
                == utxo_get(s, x),
{
    let t = s.update(i, e);
    assert forall|x: int| x != e.hash implies #[trigger] utxo_contains(t, x)
        == utxo_contains(s, x) by {
        if utxo_contains(s, x) {
            let j = choose|j: int| 0 <= j < s.len() && (#[trigger] s[j]).hash == x;
            assert(t[j].hash == x);
        }
        if utxo_contains(t, x) {
            let j = choose|j: int| 0 <= j < t.len() && (#[trigger] t[j]).hash == x;
            assert(s[j].hash == x);
        }
    }
    lemma_utxo_get_at(t, i);
    assert forall|x: int| x != e.hash && utxo_contains(s, x) implies #[trigger] utxo_get(
        t,
        x,
    ) == utxo_get(s, x) by {
        let j = choose|j: int| 0 <= j < s.len() && (#[trigger] s[j]).hash == x;
        assert(t[j].hash == x);
        lemma_utxo_get_at(s, j);
        lemma_utxo_get_at(t, j);
    }
}

/// Appending an entry with a fresh key keeps every other key's entry.
pub proof fn lemma_push_frame(s: Seq<EntryV>, e: EntryV)
    requires
        utxo_unique(s),
        !utxo_contains(s, e.hash),
    ensures
        utxo_unique(s.push(e)),
        utxo_contains(s.push(e), e.hash),
        utxo_get(s.push(e), e.hash) == e,
        forall|x: int|
            x != e.hash ==> #[trigger] utxo_contains(s.push(e), x) == utxo_contains(s, x),
        forall|x: int|
            x != e.hash && utxo_contains(s, x) ==> #[trigger] utxo_get(s.push(e), x)
                == utxo_get(s, x),
{
    let t = s.push(e);
    assert forall|i: int, j: int| 0 <= i < j < t.len() implies (#[trigger] t[i]).hash != (
    #[trigger] t[j]).hash by {
        if j < s.len() {
            assert(s[i].hash != s[j].hash);
        } else {
            assert(t[j] == e);
            assert(t[i] == s[i]);
            if s[i].hash == e.hash {
                assert(utxo_contains(s, e.hash));
            }
        }
    }
    lemma_utxo_get_at(t, s.len() as int);
    assert forall|x: int| x != e.hash implies #[trigger] utxo_contains(t, x)
        == utxo_contains(s, x) by {
        if utxo_contains(s, x) {
            let j = choose|j: int| 0 <= j < s.len() && (#[trigger] s[j]).hash == x;
            assert(t[j].hash == x);
        }
        if utxo_contains(t, x) {
            let j = choose|j: int| 0 <= j < t.len() && (#[trigger] t[j]).hash == x;
            assert(j < s.len());
            assert(s[j].hash == x);
        }
    }
    assert forall|x: int| x != e.hash && utxo_contains(s, x) implies #[trigger] utxo_get(
        t,
        x,
    ) == utxo_get(s, x) by {
        let j = choose|j: int| 0 <= j < s.len() && (#[trigger] s[j]).hash == x;
        assert(t[j].hash == x);
        lemma_utxo_get_at(s, j);
        lemma_utxo_get_at(t, j);
    }
}

/// Removing one entry keeps every other key's entry.
pub proof fn lemma_remove_frame(s: Seq<EntryV>, i: int)
    requires
        utxo_unique(s),
        0 <= i < s.len(),
    ensures
        utxo_unique(s.remove(i)),
        !utxo_contains(s.remove(i), s[i].hash),
        forall|x: int|
            x != s[i].hash ==> #[trigger] utxo_contains(s.remove(i), x) == utxo_contains(
                s,
                x,
            ),
        forall|x: int|
            x != s[i].hash && utxo_contains(s, x) ==> #[trigger] utxo_get(s.remove(i), x)
                == utxo_get(s, x),
{
    let t = s.remove(i);
    assert forall|a: int, b: int| 0 <= a < b < t.len() implies (#[trigger] t[a]).hash != (
    #[trigger] t[b]).hash by {
        let a2 = if a < i {
            a
        } else {
            a + 1
        };
        let b2 = if b < i {
            b
        } else {
            b + 1
        };
        assert(t[a] == s[a2] && t[b] == s[b2]);
        assert(s[a2].hash != s[b2].hash);
    }
    if utxo_contains(t, s[i].hash) {
        let j = choose|j: int| 0 <= j < t.len() && (#[trigger] t[j]).hash == s[i].hash;
        let j2 = if j < i {
            j
        } else {
            j + 1
        };
        assert(t[j] == s[j2]);
        assert(s[j2].hash != s[i].hash);
    }
    assert forall|x: int| x != s[i].hash implies #[trigger] utxo_contains(t, x)
        == utxo_contains(s, x) by {
        if utxo_contains(s, x) {
            let j = choose|j: int| 0 <= j < s.len() && (#[trigger] s[j]).hash == x;
            let j2 = if j < i {
                j
            } else {
                j - 1
            };
            assert(t[j2] == s[j]);
        }
        if utxo_contains(t, x) {
            let j = choose|j: int| 0 <= j < t.len() && (#[trigger] t[j]).hash == x;
            let j2 = if j < i {
                j
            } else {
                j + 1
            };
            assert(t[j] == s[j2]);
        }
    }
    assert forall|x: int| x != s[i].hash && utxo_contains(s, x) implies #[trigger] utxo_get(
        t,
        x,
    ) == utxo_get(s, x) by {
        let j = choose|j: int| 0 <= j < s.len() && (#[trigger] s[j]).hash == x;
        let j2 = if j < i {
            j
        } else {
            j - 1
        };
        assert(t[j2] == s[j]);
        lemma_utxo_get_at(s, j);
        lemma_utxo_get_at(t, j2);
    }
}

} // verus!
