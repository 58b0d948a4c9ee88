//! The unspent-output index: a secondary map from transaction id to that
//! transaction's unspent outputs at their original positions. It is a pure
//! function of the chain, rebuilt by `reindex`, and eventually consistent: a
//! caller that wants fresh balances after a new block must reindex.
use vstd::prelude::*;

use crate::blockchain::spec_find_utxo;
use crate::blockchain::Blockchain;
use crate::codec::ascii_chars;
use crate::errors::BcError;
use crate::transaction::IndexedOutputV;
use crate::transaction::TXOutputs;
use crate::wallets::decode_address;
use crate::wallets::spec_decode_address;

verus! {

/// The unspent outputs of one transaction, keyed by its id.
pub struct UtxoEntry {
    pub txid: String,
    pub outputs: TXOutputs,
}

/// The mathematical value of a `UtxoEntry`.
pub ghost struct UtxoEntryV {
    pub txid: Seq<char>,
    pub outputs: Seq<IndexedOutputV>,
}

impl View for UtxoEntry {
    type V = UtxoEntryV;

    open spec fn view(&self) -> UtxoEntryV {
        UtxoEntryV { txid: self.txid@, outputs: self.outputs@ }
    }
}

impl DeepView for UtxoEntry {
    type V = UtxoEntryV;

    open spec fn deep_view(&self) -> UtxoEntryV {
        self@
    }
}

/// References to spendable outputs of one transaction: the positions, within
/// the original transaction, of outputs chosen to fund a spend.
pub struct OutputRefs {
    pub txid: String,
    pub indices: Vec<i32>,
}

/// The mathematical value of an `OutputRefs`.
pub ghost struct OutputRefsV {
    pub txid: Seq<char>,
    pub indices: Seq<i32>,
}

impl View for OutputRefs {
    type V = OutputRefsV;

    open spec fn view(&self) -> OutputRefsV {
        OutputRefsV { txid: self.txid@, indices: self.indices@ }
    }
}

impl DeepView for OutputRefs {
    type V = OutputRefsV;

    open spec fn deep_view(&self) -> OutputRefsV {
        self@
    }
}

/// No output in the index carries a negative value, and ids are ASCII text.
pub open spec fn index_values_ok(entries: Seq<UtxoEntryV>) -> bool {
    &&& forall|i: int, j: int|
        0 <= i < entries.len() && 0 <= j < entries[i].outputs.len() ==> (
        #[trigger] entries[i].outputs[j]).output.value >= 0
    &&& forall|i: int| 0 <= i < entries.len() ==> ascii_chars((#[trigger] entries[i]).txid)
}

/// The total value of one entry's outputs.
pub open spec fn entry_total(outs: Seq<IndexedOutputV>) -> int
    decreases outs.len(),
{
    if outs.len() == 0 {
        0
    } else {
        entry_total(outs.drop_last()) + outs.last().output.value
    }
}

/// The total value held in the index.
pub open spec fn index_total(entries: Seq<UtxoEntryV>) -> int
    decreases entries.len(),
{
    if entries.len() == 0 {
        0
    } else {
        index_total(entries.drop_last()) + entry_total(entries.last().outputs)
    }
}

/// The balance of a public-key hash in one entry: the first `k` outputs'
/// values among those locked to it.
pub open spec fn entry_balance(outs: Seq<IndexedOutputV>, pkh: Seq<u8>, k: int) -> int
    decreases k,
{
    if k <= 0 {
        0
    } else if outs[k - 1].output.pub_key_hash == pkh {
        entry_balance(outs, pkh, k - 1) + outs[k - 1].output.value
    } else {
        entry_balance(outs, pkh, k - 1)
    }
}

/// The balance of a public-key hash in the first `i` entries.
pub open spec fn index_balance(entries: Seq<UtxoEntryV>, pkh: Seq<u8>, i: int) -> int
    decreases i,
{
    if i <= 0 {
        0
    } else {
        index_balance(entries, pkh, i - 1) + entry_balance(
            entries[i - 1].outputs,
            pkh,
            entries[i - 1].outputs.len() as int,
        )
    }
}

/// The balance of a public-key hash across the whole index.
pub open spec fn spec_balance(entries: Seq<UtxoEntryV>, pkh: Seq<u8>) -> int {
    index_balance(entries, pkh, entries.len() as int)
}

/// The greedy selection within one entry: scanning the first `k` outputs,
/// each output locked to the key is taken while the running total, started
/// at `acc0`, is still below `amount`. Returns the new total and the taken
/// positions.
pub open spec fn entry_spendable(
    outs: Seq<IndexedOutputV>,
    pkh: Seq<u8>,
    amount: int,
    acc0: int,
    k: int,
) -> (int, Seq<i32>)
    decreases k,
{
    if k <= 0 {
        (acc0, Seq::empty())
    } else {
        let (acc, idxs) = entry_spendable(outs, pkh, amount, acc0, k - 1);
        if acc < amount && outs[k - 1].output.pub_key_hash == pkh {
            (acc + outs[k - 1].output.value, idxs.push(outs[k - 1].index as i32))
        } else {
            (acc, idxs)
        }
    }
}

/// The greedy selection across the first `i` entries: the accumulated value
/// and, for each entry that contributed, its id with the taken positions.
pub open spec fn index_spendable(
    entries: Seq<UtxoEntryV>,
    pkh: Seq<u8>,
    amount: int,
    i: int,
) -> (int, Seq<OutputRefsV>)
    decreases i,
{
    if i <= 0 {
        (0, Seq::empty())
    } else {
        let (acc, refs) = index_spendable(entries, pkh, amount, i - 1);
        let (acc2, idxs) = entry_spendable(
            entries[i - 1].outputs,
            pkh,
            amount,
            acc,
            entries[i - 1].outputs.len() as int,
        );
        if idxs.len() > 0 {
            (acc2, refs.push(OutputRefsV { txid: entries[i - 1].txid, indices: idxs }))
        } else {
            (acc2, refs)
        }
    }
}

/// What the greedy scan of the whole index yields.
pub open spec fn spec_spendable(entries: Seq<UtxoEntryV>, pkh: Seq<u8>, amount: int) -> (
    int,
    Seq<OutputRefsV>,
) {
    index_spendable(entries, pkh, amount, entries.len() as int)
}

/// For a non-positive amount the greedy scan takes nothing.
pub proof fn lemma_spendable_zero(entries: Seq<UtxoEntryV>, pkh: Seq<u8>, amount: int, i: int)
    requires
        amount <= 0,
        0 <= i <= entries.len(),
    ensures
        index_spendable(entries, pkh, amount, i).0 == 0,
        index_spendable(entries, pkh, amount, i).1 == Seq::<OutputRefsV>::empty(),
    decreases i,
{
    if i > 0 {
        lemma_spendable_zero(entries, pkh, amount, i - 1);
        lemma_entry_spendable_zero(entries[i - 1].outputs, pkh, amount, 0, entries[i
            - 1].outputs.len() as int);
    }
}

proof fn lemma_entry_spendable_zero(
    outs: Seq<IndexedOutputV>,
    pkh: Seq<u8>,
    amount: int,
    acc0: int,
    k: int,
)
    requires
        amount <= 0,
        acc0 >= 0,
        0 <= k <= outs.len(),
    ensures
        entry_spendable(outs, pkh, amount, acc0, k) == (acc0, Seq::<i32>::empty()),
    decreases k,
{
    if k > 0 {
        lemma_entry_spendable_zero(outs, pkh, amount, acc0, k - 1);
    }
}

/// The greedy total within an entry stays between its start and the entry's
/// total above it, when no value is negative.
proof fn lemma_entry_spendable_bounds(
    outs: Seq<IndexedOutputV>,
    pkh: Seq<u8>,
    amount: int,
    acc0: int,
    k: int,
)
    requires
        0 <= k <= outs.len(),
        forall|j: int| 0 <= j < outs.len() ==> (#[trigger] outs[j]).output.value >= 0,
    ensures
        acc0 <= entry_spendable(outs, pkh, amount, acc0, k).0 <= acc0 + entry_balance(
            outs,
            pkh,
            k,
        ),
        entry_balance(outs, pkh, k) <= entry_total(outs.take(k)),
    decreases k,
{
    if k > 0 {
        lemma_entry_spendable_bounds(outs, pkh, amount, acc0, k - 1);
        assert(outs.take(k).drop_last() =~= outs.take(k - 1));
        assert(outs.take(k).last() == outs[k - 1]);
        assert(entry_total(outs.take(k)) == entry_total(outs.take(k - 1)) + outs[k
            - 1].output.value);
    }
}

/// The greedy total across entries stays between zero and the index's
/// balance for the key, which in turn is at most the index's total value.
proof fn lemma_index_spendable_bounds(entries: Seq<UtxoEntryV>, pkh: Seq<u8>, amount: int, i: int)
    requires
        0 <= i <= entries.len(),
        index_values_ok(entries),
    ensures
        0 <= index_spendable(entries, pkh, amount, i).0 <= index_balance(entries, pkh, i),
        index_balance(entries, pkh, i) <= index_total(entries.take(i)),
    decreases i,
{
    if i > 0 {
        lemma_index_spendable_bounds(entries, pkh, amount, i - 1);
        let outs = entries[i - 1].outputs;
        lemma_entry_spendable_bounds(
            outs,
            pkh,
            amount,
            index_spendable(entries, pkh, amount, i - 1).0,
            outs.len() as int,
        );
        assert(outs.take(outs.len() as int) =~= outs);
        assert(entries.take(i).drop_last() =~= entries.take(i - 1));
        assert(entries.take(i).last() == entries[i - 1]);
    }
}

/// Totals are never negative when no value is.
proof fn lemma_index_total_nonneg(entries: Seq<UtxoEntryV>, i: int)
    requires
        0 <= i <= entries.len(),
        index_values_ok(entries),
    ensures
        index_total(entries.take(i)) >= 0,
    decreases i,
{
    if i > 0 {
        lemma_index_total_nonneg(entries, i - 1);
        assert(entries.take(i).drop_last() =~= entries.take(i - 1));
        assert(entries.take(i).last() == entries[i - 1]);
        lemma_entry_total_nonneg(entries[i - 1].outputs, entries[i - 1].outputs.len() as int);
        assert(entries[i - 1].outputs.take(entries[i - 1].outputs.len() as int) =~= entries[i
            - 1].outputs);
    }
}

proof fn lemma_entry_total_nonneg(outs: Seq<IndexedOutputV>, k: int)
    requires
        0 <= k <= outs.len(),
        forall|j: int| 0 <= j < outs.len() ==> (#[trigger] outs[j]).output.value >= 0,
    ensures
        entry_total(outs.take(k)) >= 0,
    decreases k,
{
    if k > 0 {
        lemma_entry_total_nonneg(outs, k - 1);
        assert(outs.take(k).drop_last() =~= outs.take(k - 1));
        assert(outs.take(k).last() == outs[k - 1]);
    }
}

/// The persistent secondary index over the chain's unspent outputs.
pub struct UTXOSet {
    pub blockchain: Blockchain,
    pub entries: Vec<UtxoEntry>,
}

impl UTXOSet {
    /// The index entries this set holds.
    pub open spec fn index(self) -> Seq<UtxoEntryV> {
        self.entries.deep_view()
    }

    /// Values are non-negative and ids are text: what reading the index
    /// relies on.
    pub open spec fn wf(self) -> bool {
        index_values_ok(self.index())
    }

    /// A fresh, empty index over the given chain.
    pub fn new(blockchain: Blockchain) -> (r: UTXOSet)
        ensures
            r.blockchain@ == blockchain@,
            r.index().len() == 0,
            r.wf(),
    {
        UTXOSet { blockchain, entries: Vec::new() }
    }

    /// An index with given entries, as loaded back from disk; callers that
    /// want entries consistent with the chain reindex instead.
    pub fn load(blockchain: Blockchain, entries: Vec<UtxoEntry>) -> (r: Result<UTXOSet, BcError>)
        ensures
            match r {
                Ok(u) => u.blockchain@ == blockchain@ && u.index() == entries.deep_view() && u.wf(),
                Err(e) => e == BcError::SerializationFailure && !index_values_ok(
                    entries.deep_view(),
                ),
            },
    {
        let n = entries.len();
        let mut i: usize = 0;
        while i < n
            invariant
                i <= n,
                n == entries@.len(),
                forall|k: int| 0 <= k < i ==> ascii_chars((#[trigger] entries.deep_view()[k]).txid),
                forall|k: int, j: int|
                    0 <= k < i && 0 <= j < entries.deep_view()[k].outputs.len() ==> (
                    #[trigger] entries.deep_view()[k].outputs[j]).output.value >= 0,
            decreases n - i,
        {
            proof {
                assert(entries.deep_view()[i as int] == entries@[i as int]@);
            }
            if !entries[i].txid.as_str().is_ascii() {
                proof {
                    let a = entries.deep_view()[i as int].txid;
                    if ascii_chars(a) {
                        crate::codec::lemma_ascii_chars_is_ascii(a);
                    }
                }
                return Err(BcError::SerializationFailure);
            }
            let outs = &entries[i].outputs.outputs;
            let m = outs.len();
            let mut j: usize = 0;
            while j < m
                invariant
                    j <= m,
                    i < n,
                    n == entries@.len(),
                    m == outs@.len(),
                    outs.deep_view() == entries.deep_view()[i as int].outputs,
                    forall|k: int|
                        0 <= k < j ==> (#[trigger] outs.deep_view()[k]).output.value >= 0,
                decreases m - j,
            {
                proof {
                    assert(outs.deep_view()[j as int] == outs@[j as int]@);
                }
                if outs[j].output.value < 0 {
                    proof {
                        assert((entries.deep_view()[i as int].outputs[j as int]).output.value < 0);
                        assert(!index_values_ok(entries.deep_view()));
                    }
                    return Err(BcError::SerializationFailure);
                }
                j = j + 1;
            }
            proof {
                let a = entries.deep_view()[i as int].txid;
                assert forall|k: int| 0 <= k < a.len() implies ((#[trigger] a[k]) as u32) < 128 by {
                    crate::codec::lemma_char_in_ascii(a[k]);
                }
            }
            i = i + 1;
        }
        Ok(UTXOSet { blockchain, entries })
    }

    /// The entries, for persisting the index.
    pub fn entries(&self) -> (r: &Vec<UtxoEntry>)
        ensures
            r.deep_view() == self.index(),
    {
        &self.entries
    }

    /// Rebuilds the index from the authoritative chain and returns the
    /// number of distinct transaction ids retained. The result is a pure
    /// function of the chain: reindexing an equal chain gives equal entries.
    pub fn reindex(&mut self) -> (r: Result<usize, BcError>)
        requires
            forall|i: int|
                0 <= i < old(self).blockchain@.len() ==> crate::blockchain::txs_shape_ok(
                    (#[trigger] old(self).blockchain@[i]).transactions,
                ),
        ensures
            r is Ok,
            final(self).blockchain@ == old(self).blockchain@,
            final(self).index() == spec_find_utxo(old(self).blockchain@),
            final(self).wf(),
            r->Ok_0 == final(self).index().len(),
    {
        let entries = self.blockchain.find_utxo();
        let n = entries.len();
        self.entries = entries;
        Ok(n)
    }

    /// The total value held in the index, or `None` when it exceeds what a
    /// 32-bit balance can report. Callers check this before asking for
    /// balances or spendable outputs.
    pub fn total_value(&self) -> (r: Option<i32>)
        requires
            self.wf(),
        ensures
            match r {
                Some(t) => t == index_total(self.index()) && index_total(self.index())
                    <= i32::MAX,
                None => index_total(self.index()) > i32::MAX,
            },
    {
        let ghost ev = self.index();
        let n = self.entries.len();
        let mut acc: i64 = 0;
        let mut i: usize = 0;
        proof {
            assert(ev.take(0) =~= Seq::<UtxoEntryV>::empty());
        }
        while i < n
            invariant
                i <= n,
                n == ev.len(),
                ev == self.index(),
                self.wf(),
                acc == index_total(ev.take(i as int)),
                0 <= acc <= i32::MAX,
            decreases n - i,
        {
            proof {
                assert(ev[i as int] == self.entries@[i as int]@);
                lemma_index_total_nonneg(ev, i as int);
            }
            let outs = &self.entries[i].outputs.outputs;
            let m = outs.len();
            let mut j: usize = 0;
            proof {
                assert(ev[i as int].outputs.take(0) =~= Seq::<IndexedOutputV>::empty());
            }
            while j < m
                invariant
                    j <= m,
                    i < n,
                    n == ev.len(),
                    ev == self.index(),
                    self.wf(),
                    m == outs@.len(),
                    outs.deep_view() == ev[i as int].outputs,
                    acc == index_total(ev.take(i as int)) + entry_total(
                        ev[i as int].outputs.take(j as int),
                    ),
                    0 <= acc <= 2 * (i32::MAX as i64),
                decreases m - j,
            {
                proof {
                    assert(outs.deep_view()[j as int] == outs@[j as int]@);
                    assert(ev[i as int].outputs.take(j + 1).drop_last() =~= ev[
                        i as int
                    ].outputs.take(j as int));
                    assert(ev[i as int].outputs.take(j + 1).last() == ev[i as int].outputs[
                        j as int
                    ]);
                }
                if acc > i32::MAX as i64 {
                    proof {
                        lemma_total_grows(ev, i as int, j as int);
                    }
                    return None;
                }
                acc = acc + (outs[j].output.value as i64);
                j = j + 1;
            }
            if acc > i32::MAX as i64 {
                proof {
                    assert(ev[i as int].outputs.take(m as int) =~= ev[i as int].outputs);
                    assert(ev.take(i + 1).drop_last() =~= ev.take(i as int));
                    assert(ev.take(i + 1).last() == ev[i as int]);
                    lemma_total_grows_entries(ev, i + 1);
                }
                return None;
            }
            i = i + 1;
            proof {
                assert(ev[i - 1].outputs.take(ev[i - 1].outputs.len() as int) =~= ev[
                    i - 1
                ].outputs);
                assert(ev.take(i as int).drop_last() =~= ev.take(i - 1));
                assert(ev.take(i as int).last() == ev[i - 1]);
            }
        }
        proof {
            assert(ev.take(n as int) =~= ev);
        }
        Some(acc as i32)
    }

    /// The number of transactions with unspent outputs in the index.
    pub fn count_transactions(&self) -> (r: usize)
        ensures
            r == self.index().len(),
    {
        self.entries.len()
    }

    /// The greedy scan for spendable outputs: walking the index in storage
    /// order, take every output locked to the key while the accumulated
    /// value is below `amount`; return the total and the positions taken,
    /// grouped by transaction id.
    pub fn find_spendable_outputs(&self, pub_key_hash: &[u8], amount: i32) -> (r: (
        i32,
        Vec<OutputRefs>,
    ))
        requires
            self.wf(),
            index_total(self.index()) <= i32::MAX,
        ensures
            r.0 == spec_spendable(self.index(), pub_key_hash@, amount as int).0,
            r.1.deep_view() == spec_spendable(self.index(), pub_key_hash@, amount as int).1,
            0 <= r.0 <= index_total(self.index()),
            forall|k: int|
                0 <= k < r.1.deep_view().len() ==> ascii_chars(
                    (#[trigger] r.1.deep_view()[k]).txid,
                ),
    {
        let ghost ev = self.index();
        let ghost pkh = pub_key_hash@;
        let n = self.entries.len();
        let mut acc: i32 = 0;
        let mut refs: Vec<OutputRefs> = Vec::new();
        let mut i: usize = 0;
        proof {
            lemma_index_spendable_bounds(ev, pkh, amount as int, 0);
            lemma_index_total_nonneg(ev, ev.len() as int);
            assert(ev.take(ev.len() as int) =~= ev);
        }
        while i < n
            invariant
                i <= n,
                n == ev.len(),
                ev == self.index(),
                pkh == pub_key_hash@,
                self.wf(),
                index_total(ev) <= i32::MAX,
                acc == index_spendable(ev, pkh, amount as int, i as int).0,
                refs.deep_view() == index_spendable(ev, pkh, amount as int, i as int).1,
                forall|k: int|
                    0 <= k < refs.deep_view().len() ==> ascii_chars(
                        (#[trigger] refs.deep_view()[k]).txid,
                    ),
                0 <= acc,
            decreases n - i,
        {
            proof {
                assert(ev[i as int] == self.entries@[i as int]@);
                lemma_index_spendable_bounds(ev, pkh, amount as int, i as int);
                lemma_index_spendable_bounds(ev, pkh, amount as int, i + 1);
                lemma_index_total_prefix(ev, i as int);
                lemma_index_total_prefix(ev, i + 1);
            }
            let entry = &self.entries[i];
            let outs = &entry.outputs.outputs;
            let m = outs.len();
            let mut idxs: Vec<i32> = Vec::new();
            let mut j: usize = 0;
            while j < m
                invariant
                    j <= m,
                    i < n,
                    n == ev.len(),
                    ev == self.index(),
                    pkh == pub_key_hash@,
                    self.wf(),
                    index_total(ev) <= i32::MAX,
                    m == outs@.len(),
                    outs.deep_view() == ev[i as int].outputs,
                    acc == entry_spendable(
                        ev[i as int].outputs,
                        pkh,
                        amount as int,
                        index_spendable(ev, pkh, amount as int, i as int).0,
                        j as int,
                    ).0,
                    idxs@ == entry_spendable(
                        ev[i as int].outputs,
                        pkh,
                        amount as int,
                        index_spendable(ev, pkh, amount as int, i as int).0,
                        j as int,
                    ).1,
                    0 <= acc <= index_total(ev),
                decreases m - j,
            {
                proof {
                    assert(outs.deep_view()[j as int] == outs@[j as int]@);
                    lemma_spendable_step_bound(ev, pkh, amount as int, i as int, j + 1);
                }
                if acc < amount && outs[j].output.is_locked_with_key(pub_key_hash) {
                    acc = acc + outs[j].output.value;
                    idxs.push(outs[j].index as i32);
                }
                j = j + 1;
            }
            if idxs.len() > 0 {
                let ghost prev_refs = refs.deep_view();
                refs.push(OutputRefs { txid: entry.txid.clone(), indices: idxs });
                proof {
                    assert(refs.deep_view() =~= index_spendable(ev, pkh, amount as int, i + 1).1);
                    assert forall|k: int| 0 <= k < refs.deep_view().len() implies ascii_chars(
                        (#[trigger] refs.deep_view()[k]).txid,
                    ) by {
                        if k < prev_refs.len() {
                            assert(refs.deep_view()[k] == prev_refs[k]);
                        } else {
                            assert(refs.deep_view()[k].txid == ev[i as int].txid);
                        }
                    }
                }
            } else {
                proof {
                    assert(refs.deep_view() =~= index_spendable(ev, pkh, amount as int, i + 1).1);
                }
            }
            i = i + 1;
        }
        proof {
            lemma_index_spendable_bounds(ev, pkh, amount as int, ev.len() as int);
            assert(ev.take(ev.len() as int) =~= ev);
        }
        (acc, refs)
    }

    /// The balance of an address: the sum of all index values locked to its
    /// public-key hash. An address that never received funds has balance 0.
    pub fn get_balance(&self, address: &str) -> (r: Result<i32, BcError>)
        requires
            self.wf(),
            index_total(self.index()) <= i32::MAX,
        ensures
            match r {
                Ok(b) => spec_decode_address(address@) matches Result::<Seq<u8>, BcError>::Ok(p)
                    && b == spec_balance(self.index(), p)
                    && crate::wallets::spec_address_reencodes(address@),
                Err(e) => spec_decode_address(address@) == Result::<Seq<u8>, BcError>::Err(e),
            },
    {
        let ghost ev = self.index();
        let pkh = match decode_address(address) {
            Ok(p) => p,
            Err(e) => {
                return Err(e);
            },
        };
        let n = self.entries.len();
        let mut acc: i32 = 0;
        let mut i: usize = 0;
        proof {
            lemma_index_balance_bounds(ev, pkh@, 0);
            lemma_index_total_nonneg(ev, ev.len() as int);
            assert(ev.take(ev.len() as int) =~= ev);
        }
        while i < n
            invariant
                i <= n,
                n == ev.len(),
                ev == self.index(),
                self.wf(),
                index_total(ev) <= i32::MAX,
                acc == index_balance(ev, pkh@, i as int),
                0 <= acc,
            decreases n - i,
        {
            proof {
                assert(ev[i as int] == self.entries@[i as int]@);
                lemma_index_balance_bounds(ev, pkh@, i as int);
                lemma_index_balance_bounds(ev, pkh@, i + 1);
                lemma_index_total_prefix(ev, i as int);
                lemma_index_total_prefix(ev, i + 1);
            }
            let entry = &self.entries[i];
            let outs = &entry.outputs.outputs;
            let m = outs.len();
            let mut j: usize = 0;
            while j < m
                invariant
                    j <= m,
                    i < n,
                    n == ev.len(),
                    ev == self.index(),
                    self.wf(),
                    index_total(ev) <= i32::MAX,
                    m == outs@.len(),
                    outs.deep_view() == ev[i as int].outputs,
                    acc == index_balance(ev, pkh@, i as int) + entry_balance(
                        ev[i as int].outputs,
                        pkh@,
                        j as int,
                    ),
                    0 <= acc <= index_total(ev),
                decreases m - j,
            {
                proof {
                    assert(outs.deep_view()[j as int] == outs@[j as int]@);
                    lemma_balance_step_bound(ev, pkh@, i as int, j + 1);
                }
                if outs[j].output.is_locked_with_key(pkh.as_slice()) {
                    acc = acc + outs[j].output.value;
                }
                j = j + 1;
            }
            i = i + 1;
        }
        Ok(acc)
    }
}

/// A prefix of the index never holds more value than the whole.
proof fn lemma_index_total_prefix(entries: Seq<UtxoEntryV>, i: int)
    requires
        0 <= i <= entries.len(),
        index_values_ok(entries),
    ensures
        index_total(entries.take(i)) <= index_total(entries),
    decreases entries.len() - i,
{
    if i < entries.len() {
        lemma_index_total_prefix(entries, i + 1);
        assert(entries.take(i + 1).drop_last() =~= entries.take(i));
        assert(entries.take(i + 1).last() == entries[i]);
        lemma_entry_total_nonneg(entries[i].outputs, entries[i].outputs.len() as int);
        assert(entries[i].outputs.take(entries[i].outputs.len() as int) =~= entries[i].outputs);
    } else {
        assert(entries.take(i) =~= entries);
    }
}

/// The balance over a prefix stays within the index's total.
proof fn lemma_index_balance_bounds(entries: Seq<UtxoEntryV>, pkh: Seq<u8>, i: int)
    requires
        0 <= i <= entries.len(),
        index_values_ok(entries),
    ensures
        0 <= index_balance(entries, pkh, i) <= index_total(entries.take(i)),
    decreases i,
{
    if i > 0 {
        lemma_index_balance_bounds(entries, pkh, i - 1);
        lemma_entry_balance_bounds(entries[i - 1].outputs, pkh, entries[i - 1].outputs.len() as int);
        assert(entries[i - 1].outputs.take(entries[i - 1].outputs.len() as int) =~= entries[i
            - 1].outputs);
        assert(entries.take(i).drop_last() =~= entries.take(i - 1));
        assert(entries.take(i).last() == entries[i - 1]);
    }
}

/// An entry's balance for a key sits between zero and the entry's total.
proof fn lemma_entry_balance_bounds(outs: Seq<IndexedOutputV>, pkh: Seq<u8>, k: int)
    requires
        0 <= k <= outs.len(),
        forall|j: int| 0 <= j < outs.len() ==> (#[trigger] outs[j]).output.value >= 0,
    ensures
        0 <= entry_balance(outs, pkh, k) <= entry_total(outs.take(k)),
    decreases k,
{
    if k > 0 {
        lemma_entry_balance_bounds(outs, pkh, k - 1);
        assert(outs.take(k).drop_last() =~= outs.take(k - 1));
        assert(outs.take(k).last() == outs[k - 1]);
    }
}

/// Mid-entry: the balance gathered so far stays within the index total.
proof fn lemma_balance_step_bound(entries: Seq<UtxoEntryV>, pkh: Seq<u8>, i: int, j: int)
    requires
        0 <= i < entries.len(),
        0 <= j <= entries[i].outputs.len(),
        index_values_ok(entries),
    ensures
        0 <= index_balance(entries, pkh, i) + entry_balance(entries[i].outputs, pkh, j)
            <= index_total(entries),
{
    lemma_index_balance_bounds(entries, pkh, i);
    lemma_entry_balance_bounds(entries[i].outputs, pkh, j);
    lemma_entry_balance_mono(entries[i].outputs, pkh, j, entries[i].outputs.len() as int);
    lemma_index_balance_bounds(entries, pkh, i + 1);
    lemma_index_total_prefix(entries, i + 1);
    assert(entries.take(i + 1).drop_last() =~= entries.take(i));
    assert(entries.take(i + 1).last() == entries[i]);
}

/// An entry's balance grows with the prefix scanned.
proof fn lemma_entry_balance_mono(outs: Seq<IndexedOutputV>, pkh: Seq<u8>, j: int, k: int)
    requires
        0 <= j <= k <= outs.len(),
        forall|l: int| 0 <= l < outs.len() ==> (#[trigger] outs[l]).output.value >= 0,
    ensures
        entry_balance(outs, pkh, j) <= entry_balance(outs, pkh, k),
    decreases k - j,
{
    if j < k {
        lemma_entry_balance_mono(outs, pkh, j, k - 1);
    }
}

/// Mid-entry: the greedy total gathered so far stays within the index
/// total.
proof fn lemma_spendable_step_bound(
    entries: Seq<UtxoEntryV>,
    pkh: Seq<u8>,
    amount: int,
    i: int,
    j: int,
)
    requires
        0 <= i < entries.len(),
        0 <= j <= entries[i].outputs.len(),
        index_values_ok(entries),
    ensures
        0 <= entry_spendable(
            entries[i].outputs,
            pkh,
            amount,
            index_spendable(entries, pkh, amount, i).0,
            j,
        ).0 <= index_total(entries),
{
    lemma_index_spendable_bounds(entries, pkh, amount, i);
    lemma_entry_spendable_bounds(
        entries[i].outputs,
        pkh,
        amount,
        index_spendable(entries, pkh, amount, i).0,
        j,
    );
    lemma_entry_balance_mono(entries[i].outputs, pkh, j, entries[i].outputs.len() as int);
    lemma_index_spendable_bounds(entries, pkh, amount, i + 1);
    lemma_index_balance_bounds(entries, pkh, i + 1);
    lemma_index_total_prefix(entries, i + 1);
    lemma_entry_balance_bounds(entries[i].outputs, pkh, j);
    assert(entries.take(i + 1).drop_last() =~= entries.take(i));
    assert(entries.take(i + 1).last() == entries[i]);
}


/// A partial total already past the bound keeps the whole total past it.
proof fn lemma_total_grows(entries: Seq<UtxoEntryV>, i: int, j: int)
    requires
        0 <= i < entries.len(),
        0 <= j <= entries[i].outputs.len(),
        index_values_ok(entries),
    ensures
        index_total(entries.take(i)) + entry_total(entries[i].outputs.take(j)) <= index_total(
            entries,
        ),
{
    lemma_entry_total_mono(entries[i].outputs, j, entries[i].outputs.len() as int);
    assert(entries[i].outputs.take(entries[i].outputs.len() as int) =~= entries[i].outputs);
    assert(entries.take(i + 1).drop_last() =~= entries.take(i));
    assert(entries.take(i + 1).last() == entries[i]);
    lemma_total_grows_entries(entries, i + 1);
}

/// An entry's total grows with the prefix taken.
proof fn lemma_entry_total_mono(outs: Seq<IndexedOutputV>, j: int, k: int)
    requires
        0 <= j <= k <= outs.len(),
        forall|l: int| 0 <= l < outs.len() ==> (#[trigger] outs[l]).output.value >= 0,
    ensures
        entry_total(outs.take(j)) <= entry_total(outs.take(k)),
    decreases k - j,
{
    if j < k {
        lemma_entry_total_mono(outs, j, k - 1);
        assert(outs.take(k).drop_last() =~= outs.take(k - 1));
        assert(outs.take(k).last() == outs[k - 1]);
    }
}

/// The total over a prefix of entries never exceeds the whole total.
proof fn lemma_total_grows_entries(entries: Seq<UtxoEntryV>, i: int)
    requires
        0 <= i <= entries.len(),
        index_values_ok(entries),
    ensures
        index_total(entries.take(i)) <= index_total(entries),
{
    lemma_index_total_prefix(entries, i);
}

} // verus!
