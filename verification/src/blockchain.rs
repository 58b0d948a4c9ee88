//! The chain store: an append-only, hash-linked sequence of blocks with a
//! single tip, and the full scan that derives the authoritative unspent
//! output map from it.
use vstd::prelude::*;

use vstd::string::StringExecFns;

use crate::block::block_sealed;
use crate::block::spec_block_hash;
use crate::block::Block;
use crate::block::BlockV;
use crate::block::MAX_BLOCK_TXS;
use crate::codec::ascii_chars;
use crate::codec::string_eq;
use crate::errors::BcError;
use crate::crypto::now_millis;
use crate::transaction::spec_tx_id;
use crate::transaction::IndexedOutputV;
use crate::transaction::Transaction;
use crate::transaction::TransactionV;
use crate::utxoset::UtxoEntry;
use crate::utxoset::UtxoEntryV;
use crate::TARGET_BITS;

verus! {

/// One more than the largest height a block can record.
pub const MAX_CHAIN_LEN: usize = 0x8000_0000;

// ---------------------------------------------------------------------------
// Shape of admissible transactions and chains.
// ---------------------------------------------------------------------------
/// A transaction the chain admits: ASCII strings, output positions that fit
/// a 32-bit signed index, and no negative output values.
pub open spec fn tx_shape_ok(t: TransactionV) -> bool {
    &&& t.strings_ascii()
    &&& t.vout.len() <= MAX_BLOCK_TXS
    &&& forall|j: int| 0 <= j < t.vout.len() ==> (#[trigger] t.vout[j]).value >= 0
}

/// A transaction list a block may carry: non-empty, small enough, and each
/// transaction in shape.
pub open spec fn txs_shape_ok(txs: Seq<TransactionV>) -> bool {
    &&& 1 <= txs.len() <= MAX_BLOCK_TXS
    &&& forall|i: int| 0 <= i < txs.len() ==> tx_shape_ok(#[trigger] txs[i])
}

/// Every transaction's id is its content-addressed hash.
pub open spec fn txs_ids_ok(txs: Seq<TransactionV>) -> bool {
    forall|i: int| 0 <= i < txs.len() ==> (#[trigger] txs[i]).id == spec_tx_id(txs[i])
}

/// The structural chain invariant: a genesis block at height 0 with an empty
/// predecessor hash, every later block referencing its predecessor's hash,
/// heights counting up by one, timestamps strictly increasing, and every
/// block's content in admissible shape.
pub open spec fn chain_form(c: Seq<BlockV>) -> bool {
    &&& 1 <= c.len() <= MAX_CHAIN_LEN
    &&& c[0].prev_block_hash == Seq::<char>::empty()
    &&& forall|i: int| 0 <= i < c.len() ==> (#[trigger] c[i]).height == i
    &&& forall|i: int| 0 < i < c.len() ==> (#[trigger] c[i]).prev_block_hash == c[i - 1].hash
    &&& forall|i: int| 0 < i < c.len() ==> (#[trigger] c[i]).timestamp > c[i - 1].timestamp
    &&& forall|i: int| 0 <= i < c.len() ==> (#[trigger] c[i]).form_ok()
    &&& forall|i: int| 0 <= i < c.len() ==> txs_shape_ok((#[trigger] c[i]).transactions)
}

/// Every block is sealed: its hash is the hash of its header and satisfies
/// the difficulty target.
pub open spec fn chain_sealed(c: Seq<BlockV>) -> bool {
    forall|i: int| 0 <= i < c.len() ==> block_sealed(#[trigger] c[i])
}

/// Every transaction in the chain carries its content-addressed id.
pub open spec fn chain_ids_ok(c: Seq<BlockV>) -> bool {
    forall|i: int| 0 <= i < c.len() ==> txs_ids_ok((#[trigger] c[i]).transactions)
}

/// The full chain invariant.
pub open spec fn chain_wf(c: Seq<BlockV>) -> bool {
    chain_form(c) && chain_sealed(c) && chain_ids_ok(c)
}

/// The same blocks in the opposite order.
pub open spec fn rev_blocks(s: Seq<BlockV>) -> Seq<BlockV> {
    Seq::new(s.len(), |i: int| s[s.len() - 1 - i])
}

/// A block that fails validation against its predecessor breaks the chain
/// invariant.
proof fn lemma_validate_err_not_wf(c: Seq<BlockV>, i: int)
    requires
        0 < i < c.len(),
        !(crate::block::spec_validate(c[i], c[i - 1]) is Ok),
    ensures
        !chain_wf(c),
{
    if chain_wf(c) {
        assert(block_sealed(c[i]));
        crate::block::lemma_valid_proof_sealed(c[i]);
        assert(c[i].height == i && c[i - 1].height == i - 1);
        assert(crate::block::spec_validate(c[i], c[i - 1]) == Result::<bool, BcError>::Ok(true));
    }
}

// ---------------------------------------------------------------------------
// The unspent-output map as a function of the chain.
// ---------------------------------------------------------------------------
/// All transactions of the chain in scan order: from the tip backward, in
/// order within each block.
pub open spec fn chain_txs(c: Seq<BlockV>) -> Seq<TransactionV>
    decreases c.len(),
{
    if c.len() == 0 {
        Seq::empty()
    } else {
        c.last().transactions + chain_txs(c.drop_last())
    }
}

/// Peeling the earliest remaining block off a suffix appends its
/// transactions at the end of the scan order.
proof fn lemma_chain_txs_snoc(c: Seq<BlockV>, b: int)
    requires
        0 <= b < c.len(),
    ensures
        chain_txs(c.skip(b)) == chain_txs(c.skip(b + 1)) + c[b].transactions,
    decreases c.len(),
{
    let n = c.len() as int;
    if b == n - 1 {
        assert(c.skip(b).drop_last() =~= Seq::<BlockV>::empty());
        assert(c.skip(b).last() == c[b]);
        assert(c.skip(b + 1) =~= Seq::<BlockV>::empty());
        assert(chain_txs(c.skip(b)) =~= chain_txs(c.skip(b + 1)) + c[b].transactions);
    } else {
        let cp = c.drop_last();
        assert(c.skip(b).drop_last() =~= cp.skip(b));
        assert(c.skip(b).last() == c[n - 1]);
        lemma_chain_txs_snoc(cp, b);
        assert(c.skip(b + 1).drop_last() =~= cp.skip(b + 1));
        assert(c.skip(b + 1).last() == c[n - 1]);
        assert(cp[b] == c[b]);
        assert(chain_txs(c.skip(b)) == c[n - 1].transactions + (chain_txs(cp.skip(b + 1))
            + c[b].transactions));
        assert(chain_txs(c.skip(b + 1)) == c[n - 1].transactions + chain_txs(cp.skip(b + 1)));
        assert(c[n - 1].transactions + (chain_txs(cp.skip(b + 1)) + c[b].transactions) =~= (c[n
            - 1].transactions + chain_txs(cp.skip(b + 1))) + c[b].transactions);
    }
}

/// Whether some non-coinbase input among the transactions spends the given
/// output of the given transaction id.
pub open spec fn spec_is_spent(txs: Seq<TransactionV>, txid: Seq<char>, idx: int) -> bool {
    exists|i: int, j: int|
        0 <= i < txs.len() && 0 <= j < txs[i].vin.len() && !txs[i].spec_is_coinbase() && (
        #[trigger] txs[i].vin[j]).txid == txid && txs[i].vin[j].vout == idx
}

/// The unspent outputs of transaction `t` among the first `k` of its output
/// positions, each remembering its original position.
pub open spec fn unspent_upto(txs: Seq<TransactionV>, t: TransactionV, k: int) -> Seq<
    IndexedOutputV,
>
    decreases k,
{
    if k <= 0 {
        Seq::empty()
    } else if !spec_is_spent(txs, t.id, k - 1) {
        unspent_upto(txs, t, k - 1) + seq![
            IndexedOutputV { index: (k - 1) as u32, output: t.vout[k - 1] },
        ]
    } else {
        unspent_upto(txs, t, k - 1)
    }
}

/// The index entry of one transaction: its unspent outputs in position
/// order.
pub open spec fn entry_of(txs: Seq<TransactionV>, t: TransactionV) -> UtxoEntryV {
    UtxoEntryV { txid: t.id, outputs: unspent_upto(txs, t, t.vout.len() as int) }
}

/// The transaction at position `i` is the first with its id. Ids are
/// content-addressed, so a repeated id denotes the same content; only the
/// first occurrence gets an index entry.
pub open spec fn first_occurrence(txs: Seq<TransactionV>, i: int) -> bool {
    forall|j: int| 0 <= j < i ==> (#[trigger] txs[j]).id != txs[i].id
}

/// The index entries derived from the first `i` transactions.
pub open spec fn entries_upto(txs: Seq<TransactionV>, i: int) -> Seq<UtxoEntryV>
    decreases i,
{
    if i <= 0 {
        Seq::empty()
    } else if first_occurrence(txs, i - 1) {
        entries_upto(txs, i - 1) + seq![entry_of(txs, txs[i - 1])]
    } else {
        entries_upto(txs, i - 1)
    }
}

/// The authoritative unspent-output map of a chain: one entry per distinct
/// transaction id in scan order, holding the transaction's outputs that no
/// later input spends, at their original positions.
pub open spec fn spec_find_utxo(c: Seq<BlockV>) -> Seq<UtxoEntryV> {
    entries_upto(chain_txs(c), chain_txs(c).len() as int)
}

/// Whether the entries already hold the given transaction id.
pub open spec fn has_txid(entries: Seq<UtxoEntryV>, t: Seq<char>) -> bool {
    exists|e: int| 0 <= e < entries.len() && (#[trigger] entries[e]).txid == t
}

/// The entries derived from a prefix hold an id exactly when the prefix
/// does.
proof fn lemma_entries_txids(txs: Seq<TransactionV>, i: int, t: Seq<char>)
    requires
        0 <= i <= txs.len(),
    ensures
        has_txid(entries_upto(txs, i), t) <==> exists|j: int|
            0 <= j < i && (#[trigger] txs[j]).id == t,
    decreases i,
{
    if i > 0 {
        lemma_entries_txids(txs, i - 1, t);
        let prev = entries_upto(txs, i - 1);
        let cur = entries_upto(txs, i);
        if first_occurrence(txs, i - 1) {
            assert(cur == prev + seq![entry_of(txs, txs[i - 1])]);
            if has_txid(prev, t) {
                let e = choose|e: int| 0 <= e < prev.len() && (#[trigger] prev[e]).txid == t;
                assert(cur[e].txid == t);
            }
            if txs[i - 1].id == t {
                assert(cur[cur.len() - 1].txid == t);
            }
            if has_txid(cur, t) {
                let e = choose|e: int| 0 <= e < cur.len() && (#[trigger] cur[e]).txid == t;
                if e < prev.len() {
                    assert(prev[e].txid == t);
                } else {
                    assert(txs[i - 1].id == t);
                }
            }
        } else {
            let w = choose|j: int| 0 <= j < i - 1 && (#[trigger] txs[j]).id == txs[i - 1].id;
            if txs[i - 1].id == t {
                assert(txs[w].id == t);
            }
        }
    }
}

/// Values in derived entries come from chain outputs, so they inherit the
/// chain's value bounds.
proof fn lemma_unspent_values(txs: Seq<TransactionV>, t: TransactionV, k: int)
    requires
        forall|j: int| 0 <= j < t.vout.len() ==> (#[trigger] t.vout[j]).value >= 0,
        0 <= k <= t.vout.len(),
    ensures
        forall|j: int|
            0 <= j < unspent_upto(txs, t, k).len() ==> (#[trigger] unspent_upto(
                txs,
                t,
                k,
            )[j]).output.value >= 0,
    decreases k,
{
    if k > 0 {
        lemma_unspent_values(txs, t, k - 1);
        let prev = unspent_upto(txs, t, k - 1);
        let cur = unspent_upto(txs, t, k);
        assert forall|j: int| 0 <= j < cur.len() implies (#[trigger] cur[j]).output.value >= 0 by {
            if j < prev.len() {
                assert(cur[j] == prev[j]);
            }
        }
    }
}

/// The chain store: blocks from genesis to tip.
pub struct Blockchain {
    blocks: Vec<Block>,
}

impl View for Blockchain {
    type V = Seq<BlockV>;

    closed spec fn view(&self) -> Seq<BlockV> {
        self.blocks.deep_view()
    }
}

impl Blockchain {
    /// The structural invariant of this chain.
    pub open spec fn form(self) -> bool {
        chain_form(self@)
    }

    /// The full invariant of this chain.
    pub open spec fn wf(self) -> bool {
        chain_wf(self@)
    }

    /// Creates a chain holding a freshly mined genesis block whose coinbase
    /// pays the subsidy to `address`, carrying the traditional memo. Refused
    /// when the store already holds a chain or the address does not decode;
    /// mining fails only if the clock cannot be read or the nonce space is
    /// exhausted.
    pub fn create_blockchain(address: &str, store_has_chain: bool) -> (r: Result<
        Blockchain,
        BcError,
    >)
        ensures
            match r {
                Ok(bc) => {
                    &&& !store_has_chain
                    &&& bc.wf()
                    &&& bc@.len() == 1
                    &&& bc@[0].height == 0
                    &&& bc@[0].difficulty == TARGET_BITS
                    &&& bc@[0].transactions.len() == 1
                    &&& bc@[0].transactions[0].spec_is_coinbase()
                    &&& bc@[0].transactions[0].vin[0].signature.len() == 0
                    &&& exists|rnd: Seq<u8>|
                        rnd.len() == 32 && bc@[0].transactions[0].vin[0].pub_key
                            == vstd::utf8::encode_utf8("The Times 03/Jan/2009 Chancellor on brink of second bailout for banks"@) + rnd
                    &&& bc@[0].transactions[0].vout.len() == 1
                    &&& bc@[0].transactions[0].vout[0].value == crate::SUBSIDY
                    &&& crate::wallets::spec_decode_address(address@) == Result::<
                        Seq<u8>,
                        BcError,
                    >::Ok(bc@[0].transactions[0].vout[0].pub_key_hash)
                },
                Err(e) => {
                    &&& store_has_chain <==> e == BcError::AlreadyExists
                    &&& !store_has_chain && crate::wallets::spec_decode_address(address@) is Err
                        ==> e == crate::wallets::spec_decode_address(address@)->Err_0
                    &&& !store_has_chain && crate::wallets::spec_decode_address(address@) is Ok
                        ==> (e == BcError::IoFailure || e == BcError::InvalidProofOfWork)
                },
            },
    {
        if store_has_chain {
            return Err(BcError::AlreadyExists);
        }
        let data = String::from_str(
            "The Times 03/Jan/2009 Chancellor on brink of second bailout for banks",
        );
        let to_string = String::from_str(address);
        let ghost tov = to_string@;
        let cbtx = match Transaction::new_coinbase(to_string, data) {
            Ok(tx) => tx,
            Err(e) => {
                proof {
                    assert(tov == address@);
                    if crate::wallets::spec_decode_address(address@) is Err {
                        assert(crate::wallets::spec_decode_address(tov) is Err);
                        assert(e == crate::wallets::spec_decode_address(tov)->Err_0);
                        assert(e == crate::wallets::spec_decode_address(address@)->Err_0);
                    } else {
                        assert(e == BcError::IoFailure);
                    }
                    assert(e != BcError::AlreadyExists);
                }
                return Err(e);
            },
        };
        let ghost cbv = cbtx@;
        let mut txs: Vec<Transaction> = Vec::new();
        txs.push(cbtx);
        proof {
            assert(txs.deep_view()[0] == txs@[0]@);
        }
        let genesis = match Block::new_block(txs, String::new(), 0, TARGET_BITS) {
            Ok(b) => b,
            Err(e) => {
                return Err(e);
            },
        };
        let mut blocks: Vec<Block> = Vec::new();
        blocks.push(genesis);
        let bc = Blockchain { blocks };
        proof {
            assert(bc@ =~= seq![blocks@[0]@]);
            crate::hex::lemma_hex_of_ascii(crate::crypto::sha256_of(crate::block::header_of(
                bc@[0],
            )));
            assert(bc@[0].transactions[0] == cbv);
            reveal_strlit("The Times 03/Jan/2009 Chancellor on brink of second bailout for banks");
            let lit = "The Times 03/Jan/2009 Chancellor on brink of second bailout for banks"@;
            assert(lit.len() > 0);
            assert(crate::transaction::spec_memo(address@, lit) == lit);
            let rnd = choose|rnd: Seq<u8>|
                rnd.len() == 32 && cbv.vin[0].pub_key == vstd::utf8::encode_utf8(
                    crate::transaction::spec_memo(address@, lit),
                ) + rnd;
            assert(cbv.vin[0].pub_key == vstd::utf8::encode_utf8(lit) + rnd);
        }
        Ok(bc)
    }

    /// Rebuilds a chain from stored blocks, given tip first, re-validating
    /// everything: succeeds exactly when the blocks, reversed, form a
    /// well-formed chain; an empty store means no chain was created yet.
    pub fn open(blocks_tip_first: Vec<Block>) -> (r: Result<Blockchain, BcError>)
        ensures
            match r {
                Ok(bc) => bc.wf() && bc@ == rev_blocks(blocks_tip_first.deep_view()),
                Err(e) => {
                    &&& blocks_tip_first@.len() == 0 <==> e == BcError::NotInitialised
                    &&& blocks_tip_first@.len() > 0 ==> !chain_wf(
                        rev_blocks(blocks_tip_first.deep_view()),
                    )
                },
            },
    {
        let n = blocks_tip_first.len();
        if n == 0 {
            return Err(BcError::NotInitialised);
        }
        let ghost given = blocks_tip_first.deep_view();
        let mut blocks: Vec<Block> = Vec::new();
        let mut rest = blocks_tip_first;
        let mut taken: usize = 0;
        while rest.len() > 0
            invariant
                taken + rest@.len() == n,
                n == given.len(),
                blocks@.len() == taken,
                forall|i: int| 0 <= i < taken ==> #[trigger] blocks.deep_view()[i] == given[n - 1
                    - i],
                forall|i: int| 0 <= i < rest@.len() ==> #[trigger] rest.deep_view()[i] == given[i],
            decreases rest@.len(),
        {
            let ghost prev_rest = rest@;
            let ghost prev_dv = rest.deep_view();
            let ghost prev_blocks = blocks.deep_view();
            let b = match rest.pop() {
                Some(b) => b,
                None => {
                    proof {
                        assert(false);
                    }
                    return Err(BcError::NotFound);
                },
            };
            proof {
                assert(b == prev_rest.last());
                assert(prev_dv[prev_rest.len() - 1] == prev_rest.last()@);
                assert(b@ == given[prev_rest.len() - 1]);
                assert forall|i: int| 0 <= i < rest@.len() implies #[trigger] rest.deep_view()[i]
                    == given[i] by {
                    assert(rest@[i] == prev_rest[i]);
                    assert(prev_dv[i] == given[i]);
                }
            }
            blocks.push(b);
            taken = taken + 1;
            proof {
                assert forall|i: int| 0 <= i < taken implies #[trigger] blocks.deep_view()[i]
                    == given[n - 1 - i] by {
                    if i < taken - 1 {
                        assert(blocks@[i] == blocks@.drop_last()[i]);
                        assert(prev_blocks[i] == given[n - 1 - i]);
                        assert(blocks.deep_view()[i] == prev_blocks[i]);
                    } else {
                        assert(blocks@[i] == b);
                    }
                }
            }
        }
        let bc = Blockchain { blocks };
        proof {
            assert(bc@ =~= rev_blocks(given));
        }
        match bc.check_well_formed() {
            Ok(()) => Ok(bc),
            Err(e) => Err(e),
        }
    }

    /// Re-validates every block and link of this chain; succeeds exactly
    /// when the chain invariant holds.
    fn check_well_formed(&self) -> (r: Result<(), BcError>)
        requires
            self@.len() >= 1,
        ensures
            match r {
                Ok(()) => self.wf(),
                Err(e) => !self.wf() && e != BcError::NotInitialised,
            },
    {
        let n = self.blocks.len();
        if n > MAX_CHAIN_LEN {
            return Err(BcError::SerializationFailure);
        }
        let mut i: usize = 0;
        while i < n
            invariant
                i <= n,
                n == self@.len(),
                forall|k: int| 0 <= k < i ==> (#[trigger] self@[k]).form_ok(),
                forall|k: int| 0 <= k < i ==> txs_shape_ok((#[trigger] self@[k]).transactions),
                forall|k: int| 0 <= k < i ==> txs_ids_ok((#[trigger] self@[k]).transactions),
                forall|k: int| 0 <= k < i ==> (#[trigger] self@[k]).height == k,
            decreases n - i,
        {
            proof {
                assert(self@[i as int] == self.blocks@[i as int]@);
            }
            match check_block_content(&self.blocks[i]) {
                Ok(()) => (),
                Err(e) => {
                    proof {
                        if self.wf() {
                            assert(self@[i as int].form_ok());
                            assert(txs_shape_ok(self@[i as int].transactions));
                            assert(txs_ids_ok(self@[i as int].transactions));
                        }
                    }
                    return Err(e);
                },
            }
            if !(self.blocks[i].height >= 0 && self.blocks[i].height as usize == i) {
                proof {
                    if self.wf() {
                        assert(self@[i as int].height == i);
                    }
                }
                return Err(BcError::HeightMismatch);
            }
            i = i + 1;
        }
        proof {
            assert(self@[0] == self.blocks@[0]@);
        }
        if !self.blocks[0].prev_block_hash.as_str().is_empty() {
            proof {
                if self.wf() {
                    assert(self@[0].prev_block_hash.len() == 0);
                }
            }
            return Err(BcError::PrevHashMismatch);
        }
        proof {
            assert(self@[0].prev_block_hash =~= Seq::<char>::empty());
        }
        match self.blocks[0].validate_sealed() {
            Ok(()) => (),
            Err(e) => {
                proof {
                    if self.wf() {
                        assert(block_sealed(self@[0]));
                    }
                }
                return Err(e);
            },
        }
        let mut i: usize = 1;
        while i < n
            invariant
                1 <= i <= n,
                n == self@.len(),
                n <= MAX_CHAIN_LEN,
                self@[0].prev_block_hash == Seq::<char>::empty(),
                forall|k: int| 0 <= k < n ==> (#[trigger] self@[k]).form_ok(),
                forall|k: int| 0 <= k < n ==> txs_shape_ok((#[trigger] self@[k]).transactions),
                forall|k: int| 0 <= k < n ==> txs_ids_ok((#[trigger] self@[k]).transactions),
                forall|k: int| 0 <= k < n ==> (#[trigger] self@[k]).height == k,
                forall|k: int| 0 <= k < i ==> block_sealed(#[trigger] self@[k]),
                forall|k: int| 0 < k < i ==> (#[trigger] self@[k]).prev_block_hash == self@[k
                    - 1].hash,
                forall|k: int| 0 < k < i ==> (#[trigger] self@[k]).timestamp > self@[k
                    - 1].timestamp,
            decreases n - i,
        {
            proof {
                assert(self@[i as int] == self.blocks@[i as int]@);
                assert(self@[i - 1] == self.blocks@[i - 1]@);
            }
            match self.blocks[i].validate(&self.blocks[i - 1]) {
                Ok(_) => (),
                Err(e) => {
                    proof {
                        lemma_validate_err_not_wf(self@, i as int);
                    }
                    return Err(e);
                },
            }
            proof {
                crate::block::lemma_valid_proof_sealed(self@[i as int]);
            }
            i = i + 1;
        }
        Ok(())
    }

    /// Appends a freshly mined block carrying the given transactions.
    /// Refuses transactions out of shape or with a wrong content-addressed
    /// id; stamps the block one past the tip's time if the clock has not
    /// advanced, so that chain time stays strictly increasing.
    pub fn add_block(&mut self, transactions: Vec<Transaction>) -> (r: Result<(), BcError>)
        requires
            old(self).form(),
            old(self)@.len() < MAX_CHAIN_LEN,
            old(self)@.last().timestamp < u128::MAX,
        ensures
            match r {
                Ok(()) => {
                    &&& final(self)@.len() == old(self)@.len() + 1
                    &&& forall|i: int|
                        0 <= i < old(self)@.len() ==> #[trigger] final(self)@[i] == old(self)@[i]
                    &&& final(self)@.last().transactions == transactions.deep_view()
                    &&& final(self)@.last().prev_block_hash == old(self)@.last().hash
                    &&& final(self)@.last().height == old(self)@.len()
                    &&& final(self)@.last().difficulty == TARGET_BITS
                    &&& final(self)@.last().timestamp > old(self)@.last().timestamp
                    &&& block_sealed(final(self)@.last())
                    &&& txs_shape_ok(transactions.deep_view())
                    &&& txs_ids_ok(transactions.deep_view())
                    &&& final(self).form()
                    &&& chain_sealed(old(self)@) ==> chain_sealed(final(self)@)
                    &&& chain_ids_ok(old(self)@) ==> chain_ids_ok(final(self)@)
                    &&& old(self).wf() ==> final(self).wf()
                },
                Err(e) => {
                    &&& final(self)@ == old(self)@
                    &&& !txs_shape_ok(transactions.deep_view()) <==> e
                        == BcError::SerializationFailure
                    &&& txs_shape_ok(transactions.deep_view()) && !txs_ids_ok(
                        transactions.deep_view(),
                    ) <==> e == BcError::HashMismatch
                    &&& txs_shape_ok(transactions.deep_view()) && txs_ids_ok(
                        transactions.deep_view(),
                    ) ==> (e == BcError::IoFailure || e == BcError::InvalidProofOfWork)
                },
            },
    {
        match check_transactions(&transactions) {
            Ok(()) => (),
            Err(e) => {
                return Err(e);
            },
        }
        let now = match now_millis() {
            Some(t) => t,
            None => {
                return Err(BcError::IoFailure);
            },
        };
        let n = self.blocks.len();
        proof {
            assert(self@[n - 1] == self.blocks@[n - 1]@);
        }
        let last_ts = self.blocks[n - 1].timestamp;
        let ts: u128 = if now > last_ts {
            now
        } else {
            last_ts + 1
        };
        let prev_hash = self.blocks[n - 1].hash.clone();
        let height = n as i32;
        let block = match Block::mine_block_at(transactions, prev_hash, height, TARGET_BITS, ts) {
            Ok(b) => b,
            Err(e) => {
                return Err(e);
            },
        };
        let ghost pre = self@;
        self.blocks.push(block);
        proof {
            assert(self@ =~= pre.push(self.blocks@[pre.len() as int]@));
            assert(forall|i: int| 0 <= i < pre.len() ==> #[trigger] self@[i] == pre[i]);
            crate::hex::lemma_hex_of_ascii(crate::crypto::sha256_of(crate::block::header_of(
                self@.last(),
            )));
        }
        Ok(())
    }

    /// Mines a block with the given transactions onto the tip.
    pub fn mine_block(&mut self, transactions: Vec<Transaction>) -> (r: Result<(), BcError>)
        requires
            old(self).form(),
            old(self)@.len() < MAX_CHAIN_LEN,
            old(self)@.last().timestamp < u128::MAX,
        ensures
            match r {
                Ok(()) => {
                    &&& final(self)@.len() == old(self)@.len() + 1
                    &&& forall|i: int|
                        0 <= i < old(self)@.len() ==> #[trigger] final(self)@[i] == old(self)@[i]
                    &&& final(self)@.last().transactions == transactions.deep_view()
                    &&& final(self)@.last().height == old(self)@.len()
                    &&& final(self).form()
                    &&& old(self).wf() ==> final(self).wf()
                },
                Err(e) => final(self)@ == old(self)@,
            },
    {
        self.add_block(transactions)
    }

    /// The tip's height.
    pub fn get_best_height(&self) -> (r: i32)
        requires
            self@.len() >= 1,
        ensures
            r == self@.last().height,
    {
        let n = self.blocks.len();
        proof {
            assert(self@[n - 1] == self.blocks@[n - 1]@);
        }
        self.blocks[n - 1].height
    }

    /// The number of blocks in the chain.
    pub fn get_block_count(&self) -> (r: usize)
        ensures
            r == self@.len(),
    {
        self.blocks.len()
    }

    /// The block stored under the given hash, or `NotFound`.
    pub fn get_block(&self, hash: &str) -> (r: Result<&Block, BcError>)
        ensures
            match r {
                Ok(b) => exists|i: int| 0 <= i < self@.len() && #[trigger] self@[i] == b@ && b@.hash
                    == hash@,
                Err(e) => e == BcError::NotFound && forall|i: int|
                    0 <= i < self@.len() ==> (#[trigger] self@[i]).hash != hash@,
            },
    {
        let needle = String::from_str(hash);
        let mut i: usize = 0;
        while i < self.blocks.len()
            invariant
                i <= self@.len(),
                needle@ == hash@,
                forall|k: int| 0 <= k < i ==> (#[trigger] self@[k]).hash != hash@,
            decreases self@.len() - i,
        {
            proof {
                assert(self@[i as int] == self.blocks@[i as int]@);
            }
            if string_eq(&self.blocks[i].hash, &needle) {
                return Ok(&self.blocks[i]);
            }
            i = i + 1;
        }
        Err(BcError::NotFound)
    }

    /// The block at the given position, genesis first.
    pub fn block_at(&self, i: usize) -> (r: &Block)
        requires
            i < self@.len(),
        ensures
            r@ == self@[i as int],
    {
        proof {
            assert(self@[i as int] == self.blocks@[i as int]@);
        }
        &self.blocks[i]
    }

    /// All block hashes, tip first.
    pub fn get_block_hashes(&self) -> (r: Vec<String>)
        ensures
            r@.len() == self@.len(),
            forall|i: int|
                0 <= i < r@.len() ==> (#[trigger] r@[i])@ == self@[self@.len() - 1 - i].hash,
    {
        let n = self.blocks.len();
        let mut out: Vec<String> = Vec::new();
        let mut i: usize = 0;
        while i < n
            invariant
                i <= n,
                n == self@.len(),
                out@.len() == i,
                forall|k: int| 0 <= k < i ==> (#[trigger] out@[k])@ == self@[n - 1 - k].hash,
            decreases n - i,
        {
            proof {
                assert(self@[n - 1 - i as int] == self.blocks@[n - 1 - i as int]@);
            }
            out.push(self.blocks[n - 1 - i].hash.clone());
            i = i + 1;
        }
        out
    }

    /// The stored blocks, genesis first, for persisting the chain.
    pub fn blocks(&self) -> (r: &Vec<Block>)
        ensures
            r.deep_view() == self@,
    {
        &self.blocks
    }

    /// The full scan that derives the unspent-output map: walk the chain
    /// from the tip, give the first transaction of each id an entry with its
    /// outputs, and drop every output that some non-coinbase input spends.
    pub fn find_utxo(&self) -> (r: Vec<UtxoEntry>)
        requires
            forall|i: int| 0 <= i < self@.len() ==> txs_shape_ok((#[trigger] self@[i]).transactions),
        ensures
            r.deep_view() == spec_find_utxo(self@),
            forall|i: int, j: int|
                0 <= i < r.deep_view().len() && 0 <= j < r.deep_view()[i].outputs.len() ==> (
                #[trigger] r.deep_view()[i].outputs[j]).output.value >= 0,
            forall|i: int|
                0 <= i < r.deep_view().len() ==> ascii_chars(
                    (#[trigger] r.deep_view()[i]).txid,
                ),
    {
        let all = self.all_transactions();
        let ghost allv = all.deep_view();
        let n = all.len();
        let mut entries: Vec<UtxoEntry> = Vec::new();
        let mut i: usize = 0;
        while i < n
            invariant
                i <= n,
                n == allv.len(),
                allv == all.deep_view(),
                forall|k: int| 0 <= k < n ==> tx_shape_ok(#[trigger] allv[k]),
                forall|k: int| 0 <= k < n ==> #[trigger] all.deep_view()[k] == allv[k],
                entries.deep_view() =~= entries_upto(allv, i as int),
                forall|a: int, b: int|
                    0 <= a < entries.deep_view().len() && 0 <= b
                        < entries.deep_view()[a].outputs.len() ==> (
                    #[trigger] entries.deep_view()[a].outputs[b]).output.value >= 0,
                forall|a: int|
                    0 <= a < entries.deep_view().len() ==> ascii_chars(
                        (#[trigger] entries.deep_view()[a]).txid,
                    ),
            decreases n - i,
        {
            proof {
                assert(allv[i as int] == all@[i as int]@);
                lemma_entries_txids(allv, i as int, allv[i as int].id);
            }
            let mut seen: bool = false;
            let mut e: usize = 0;
            while e < entries.len()
                invariant
                    e <= entries@.len(),
                    i < n,
                    n == allv.len(),
                    allv == all.deep_view(),
                    allv[i as int] == all@[i as int]@,
                    !seen ==> forall|k: int|
                        0 <= k < e ==> (#[trigger] entries.deep_view()[k]).txid != allv[i as int].id,
                    seen ==> has_txid(entries.deep_view(), allv[i as int].id),
                decreases entries@.len() - e,
            {
                proof {
                    assert(entries.deep_view()[e as int] == entries@[e as int]@);
                }
                if string_eq(&entries[e].txid, &all[i].id) {
                    seen = true;
                    proof {
                        assert((entries.deep_view()[e as int]).txid == allv[i as int].id);
                        assert(has_txid(entries.deep_view(), allv[i as int].id));
                    }
                }
                e = e + 1;
            }
            proof {
                if !seen {
                    assert(!has_txid(entries.deep_view(), allv[i as int].id));
                }
            }
            if !seen {
                proof {
                    assert(first_occurrence(allv, i as int));
                }
                let ghost prev_entries = entries.deep_view();
                let entry = build_entry(&all, i);
                entries.push(entry);
                proof {
                    assert(entries.deep_view() =~= prev_entries + seq![
                        entry_of(allv, allv[i as int]),
                    ]);
                    assert(entries.deep_view() =~= entries_upto(allv, i + 1));
                    lemma_unspent_values(allv, allv[i as int], allv[i as int].vout.len() as int);
                }
            } else {
                proof {
                    assert(!first_occurrence(allv, i as int));
                    assert(entries.deep_view() =~= entries_upto(allv, i + 1));
                }
            }
            i = i + 1;
        }
        proof {
            assert(chain_txs(self@).len() == allv.len());
        }
        entries
    }

    /// All transactions of the chain in scan order, tip first.
    fn all_transactions(&self) -> (r: Vec<&Transaction>)
        requires
            forall|i: int| 0 <= i < self@.len() ==> txs_shape_ok((#[trigger] self@[i]).transactions),
        ensures
            r.deep_view() == chain_txs(self@),
            forall|k: int| 0 <= k < r.deep_view().len() ==> tx_shape_ok(
                #[trigger] r.deep_view()[k],
            ),
    {
        let n = self.blocks.len();
        let mut out: Vec<&Transaction> = Vec::new();
        let mut b: usize = n;
        proof {
            assert(self@.skip(n as int) =~= Seq::<BlockV>::empty());
        }
        while b > 0
            invariant
                b <= n,
                n == self@.len(),
                out.deep_view() =~= chain_txs(self@.skip(b as int)),
                forall|k: int| 0 <= k < out.deep_view().len() ==> tx_shape_ok(
                    #[trigger] out.deep_view()[k],
                ),
                forall|i: int|
                    0 <= i < self@.len() ==> txs_shape_ok((#[trigger] self@[i]).transactions),
            decreases b,
        {
            b = b - 1;
            proof {
                assert(self@[b as int] == self.blocks@[b as int]@);
            }
            let txs = &self.blocks[b].transactions;
            let ghost pre = out.deep_view();
            let m = txs.len();
            let mut t: usize = 0;
            while t < m
                invariant
                    t <= m,
                    b < n,
                    n == self@.len(),
                    m == txs@.len(),
                    txs.deep_view() == self@[b as int].transactions,
                    txs_shape_ok(self@[b as int].transactions),
                    out.deep_view() =~= pre + self@[b as int].transactions.take(t as int),
                    forall|k: int| 0 <= k < out.deep_view().len() ==> tx_shape_ok(
                        #[trigger] out.deep_view()[k],
                    ),
                decreases m - t,
            {
                proof {
                    assert(txs.deep_view()[t as int] == txs@[t as int]@);
                    assert(tx_shape_ok(self@[b as int].transactions[t as int]));
                }
                let ghost prev_out = out.deep_view();
                out.push(&txs[t]);
                t = t + 1;
                proof {
                    assert(out.deep_view() =~= prev_out.push(txs@[t - 1]@));
                    assert(self@[b as int].transactions.take(t as int) =~= self@[
                        b as int
                    ].transactions.take(t - 1).push(self@[b as int].transactions[t - 1]));
                    assert(out.deep_view() =~= pre + self@[b as int].transactions.take(t as int));
                }
            }
            proof {
                assert(self@[b as int].transactions.take(m as int) =~= self@[
                    b as int
                ].transactions);
                lemma_chain_txs_snoc(self@, b as int);
                assert(out.deep_view() =~= chain_txs(self@.skip(b as int)));
            }
        }
        proof {
            assert(self@.skip(0) =~= self@);
        }
        out
    }
}

/// Builds the index entry of the transaction at position `i`: its outputs in
/// position order, skipping each one that some non-coinbase input spends.
fn build_entry(all: &Vec<&Transaction>, i: usize) -> (r: UtxoEntry)
    requires
        i < all@.len(),
        forall|k: int| 0 <= k < all@.len() ==> tx_shape_ok(#[trigger] all.deep_view()[k]),
    ensures
        r@ == entry_of(all.deep_view(), all.deep_view()[i as int]),
{
    let ghost allv = all.deep_view();
    let ghost t = allv[i as int];
    proof {
        assert(allv[i as int] == all@[i as int]@);
    }
    let tx: &Transaction = all[i];
    let m = tx.vout.len();
    let mut outs: Vec<crate::transaction::IndexedOutput> = Vec::new();
    let mut k: usize = 0;
    while k < m
        invariant
            k <= m,
            i < allv.len(),
            allv == all.deep_view(),
            tx@ == t,
            t == allv[i as int],
            tx_shape_ok(t),
            m == t.vout.len(),
            m == tx.vout@.len(),
            outs.deep_view() =~= unspent_upto(allv, t, k as int),
        decreases m - k,
    {
        if !is_spent(all, &tx.id, k) {
            proof {
                assert(tx.vout.deep_view()[k as int] == tx.vout@[k as int]@);
            }
            outs.push(
                crate::transaction::IndexedOutput {
                    index: k as u32,
                    output: crate::transaction::TXOutput {
                        value: tx.vout[k].value,
                        pub_key_hash: vstd::slice::slice_to_vec(tx.vout[k].pub_key_hash.as_slice()),
                    },
                },
            );
        }
        k = k + 1;
        proof {
            assert(outs.deep_view() =~= unspent_upto(allv, t, k as int));
        }
    }
    let r = UtxoEntry {
        txid: tx.id.clone(),
        outputs: crate::transaction::TXOutputs { outputs: outs },
    };
    r
}

/// Whether any non-coinbase input among the transactions spends output `k`
/// of the transaction at position `i`'s id.
fn is_spent(all: &Vec<&Transaction>, txid: &String, k: usize) -> (r: bool)
    requires
        k <= 0x7fff_ffff,
    ensures
        r == spec_is_spent(all.deep_view(), txid@, k as int),
{
    let ghost allv = all.deep_view();
    let n = all.len();
    let mut i: usize = 0;
    while i < n
        invariant
            i <= n,
            n == allv.len(),
            allv == all.deep_view(),
            k <= 0x7fff_ffff,
            forall|a: int, b: int|
                0 <= a < i && 0 <= b < allv[a].vin.len() ==> !(!allv[a].spec_is_coinbase() && (
                #[trigger] allv[a].vin[b]).txid == txid@ && allv[a].vin[b].vout == k),
        decreases n - i,
    {
        proof {
            assert(allv[i as int] == all@[i as int]@);
        }
        let tx: &Transaction = all[i];
        if !tx.is_coinbase() {
            let m = tx.vin.len();
            let mut j: usize = 0;
            while j < m
                invariant
                    j <= m,
                    i < n,
                    n == allv.len(),
                    allv == all.deep_view(),
                    tx@ == allv[i as int],
                    k <= 0x7fff_ffff,
                    m == allv[i as int].vin.len(),
                    m == tx.vin@.len(),
                    !allv[i as int].spec_is_coinbase(),
                    forall|b: int|
                        0 <= b < j ==> !((#[trigger] allv[i as int].vin[b]).txid == txid@ && allv[
                            i as int
                        ].vin[b].vout == k),
                decreases m - j,
            {
                proof {
                    assert(tx.vin.deep_view()[j as int] == tx.vin@[j as int]@);
                }
                if tx.vin[j].vout >= 0 && tx.vin[j].vout as usize == k && string_eq(
                    &tx.vin[j].txid,
                    txid,
                ) {
                    return true;
                }
                j = j + 1;
            }
        } else {
            proof {
                assert(allv[i as int].spec_is_coinbase());
            }
        }
        i = i + 1;
    }
    false
}

/// Checks that a transaction list is admissible: in shape, every id the
/// content-addressed hash of its transaction.
pub fn check_transactions(transactions: &Vec<Transaction>) -> (r: Result<(), BcError>)
    ensures
        match r {
            Ok(()) => txs_shape_ok(transactions.deep_view()) && txs_ids_ok(
                transactions.deep_view(),
            ),
            Err(e) => {
                &&& !(txs_shape_ok(transactions.deep_view()) && txs_ids_ok(
                    transactions.deep_view(),
                ))
                &&& !txs_shape_ok(transactions.deep_view()) <==> e == BcError::SerializationFailure
                &&& txs_shape_ok(transactions.deep_view()) && !txs_ids_ok(transactions.deep_view())
                    <==> e == BcError::HashMismatch
            },
        },
{
    let ghost txv = transactions.deep_view();
    let n = transactions.len();
    if n == 0 || n > MAX_BLOCK_TXS {
        return Err(BcError::SerializationFailure);
    }
    let mut i: usize = 0;
    while i < n
        invariant
            i <= n,
            n == txv.len(),
            txv == transactions.deep_view(),
            forall|k: int| 0 <= k < i ==> tx_shape_ok(#[trigger] txv[k]),
        decreases n - i,
    {
        proof {
            assert(txv[i as int] == transactions@[i as int]@);
        }
        if !tx_shape_check(&transactions[i]) {
            return Err(BcError::SerializationFailure);
        }
        i = i + 1;
    }
    let mut i: usize = 0;
    while i < n
        invariant
            i <= n,
            n == txv.len(),
            txv == transactions.deep_view(),
            txs_shape_ok(txv),
            forall|k: int| 0 <= k < i ==> (#[trigger] txv[k]).id == spec_tx_id(txv[k]),
        decreases n - i,
    {
        proof {
            assert(txv[i as int] == transactions@[i as int]@);
            assert(tx_shape_ok(txv[i as int]));
            assert(txv[i as int].strings_ascii());
        }
        let recomputed = transactions[i].hash();
        if !string_eq(&recomputed, &transactions[i].id) {
            return Err(BcError::HashMismatch);
        }
        i = i + 1;
    }
    Ok(())
}

/// Checks one transaction's shape: ASCII strings, output list small enough,
/// no negative values.
fn tx_shape_check(tx: &Transaction) -> (r: bool)
    ensures
        r == tx_shape_ok(tx@),
{
    if !tx.id.as_str().is_ascii() {
        proof {
            if ascii_chars(tx@.id) {
                ascii_bridge_rev(tx@.id);
            }
        }
        return false;
    }
    proof {
        ascii_bridge(tx.id@);
    }
    let n = tx.vin.len();
    let mut i: usize = 0;
    while i < n
        invariant
            i <= n,
            n == tx.vin@.len(),
            forall|k: int| 0 <= k < i ==> (#[trigger] tx@.vin[k]).strings_ascii(),
        decreases n - i,
    {
        proof {
            assert(tx@.vin[i as int] == tx.vin@[i as int]@);
        }
        if !tx.vin[i].txid.as_str().is_ascii() {
            proof {
                if tx@.strings_ascii() {
                    assert(tx@.vin[i as int].strings_ascii());
                    ascii_bridge_rev(tx@.vin[i as int].txid);
                }
            }
            return false;
        }
        proof {
            ascii_bridge(tx.vin@[i as int].txid@);
        }
        i = i + 1;
    }
    let m = tx.vout.len();
    if m > MAX_BLOCK_TXS {
        return false;
    }
    let mut j: usize = 0;
    while j < m
        invariant
            j <= m,
            m == tx.vout@.len(),
            forall|k: int| 0 <= k < j ==> (#[trigger] tx@.vout[k]).value >= 0,
        decreases m - j,
    {
        proof {
            assert(tx@.vout[j as int] == tx.vout@[j as int]@);
        }
        if tx.vout[j].value < 0 {
            proof {
                if tx_shape_ok(tx@) {
                    assert(tx@.vout[j as int].value >= 0);
                }
            }
            return false;
        }
        j = j + 1;
    }
    proof {
        assert(tx_shape_ok(tx@));
    }
    true
}

/// Carries vstd's character-ordering bound on ASCII text over to the
/// numeric bound used in this library's predicates.
proof fn ascii_bridge(s: Seq<char>)
    requires
        vstd::utf8::is_ascii_chars(s),
    ensures
        ascii_chars(s),
{
    assert forall|i: int| 0 <= i < s.len() implies ((#[trigger] s[i]) as u32) < 128 by {
        crate::codec::lemma_char_in_ascii(s[i]);
    }
}


/// Checks one stored block's content: ASCII text, transactions in shape and
/// ids content-addressed.
fn check_block_content(b: &Block) -> (r: Result<(), BcError>)
    ensures
        match r {
            Ok(()) => b@.form_ok() && txs_shape_ok(b@.transactions) && txs_ids_ok(b@.transactions),
            Err(e) => !(b@.form_ok() && txs_shape_ok(b@.transactions) && txs_ids_ok(
                b@.transactions,
            )) && e != BcError::NotInitialised,
        },
{
    if !b.prev_block_hash.as_str().is_ascii() {
        proof {
            if ascii_chars(b@.prev_block_hash) {
                ascii_bridge_rev(b@.prev_block_hash);
            }
        }
        return Err(BcError::SerializationFailure);
    }
    if !b.hash.as_str().is_ascii() {
        proof {
            if ascii_chars(b@.hash) {
                ascii_bridge_rev(b@.hash);
            }
        }
        return Err(BcError::SerializationFailure);
    }
    proof {
        ascii_bridge(b.prev_block_hash@);
        ascii_bridge(b.hash@);
    }
    if b.transactions.len() > MAX_BLOCK_TXS {
        return Err(BcError::SerializationFailure);
    }
    match check_transactions(&b.transactions) {
        Ok(()) => (),
        Err(e) => {
            return Err(e);
        },
    }
    proof {
        assert forall|i: int| 0 <= i < b@.transactions.len() implies (
        #[trigger] b@.transactions[i]).strings_ascii() by {
            assert(tx_shape_ok(b@.transactions[i]));
        }
    }
    Ok(())
}

/// The converse bridge: this library's numeric ASCII bound implies vstd's
/// character-ordering one.
proof fn ascii_bridge_rev(s: Seq<char>)
    requires
        ascii_chars(s),
    ensures
        vstd::utf8::is_ascii_chars(s),
{
    assert forall|i: int| 0 <= i < s.len() implies '\0' <= #[trigger] s[i] <= '\u{7f}' by {
        crate::codec::lemma_ascii_char(s[i]);
    }
}


/// Law: every block in a well-formed chain carries as its hash the
/// hexadecimal SHA-256 of its serialised header, that text decodes to bytes
/// below the block's difficulty target, and the header digest itself falls
/// below the target.
pub proof fn lemma_chain_proof_of_work(c: Seq<BlockV>)
    requires
        chain_wf(c),
    ensures
        forall|i: int|
            0 <= i < c.len() ==> (#[trigger] c[i]).hash == spec_block_hash(c[i])
                && crate::block::spec_valid_proof(c[i].hash, c[i].difficulty)
                && crate::block::spec_pow_ok(c[i]),
{
    assert forall|i: int| 0 <= i < c.len() implies (#[trigger] c[i]).hash == spec_block_hash(c[i])
        && crate::block::spec_valid_proof(c[i].hash, c[i].difficulty) && crate::block::spec_pow_ok(
        c[i],
    ) by {
        assert(block_sealed(c[i]));
        crate::block::lemma_valid_proof_sealed(c[i]);
    }
}

/// Law: in a well-formed chain every non-genesis block references its
/// predecessor's hash, sits exactly one height above it, and is stamped
/// strictly later.
pub proof fn lemma_chain_linkage(c: Seq<BlockV>)
    requires
        chain_wf(c),
    ensures
        forall|i: int|
            0 < i < c.len() ==> (#[trigger] c[i]).prev_block_hash == c[i - 1].hash && c[i].height
                == c[i - 1].height + 1 && c[i].timestamp > c[i - 1].timestamp,
{
    assert forall|i: int| 0 < i < c.len() implies (#[trigger] c[i]).prev_block_hash == c[i - 1].hash
        && c[i].height == c[i - 1].height + 1 && c[i].timestamp > c[i - 1].timestamp by {
        assert(c[i].height == i);
        assert(c[i - 1].height == i - 1);
    }
}

/// Law: every transaction in a well-formed chain carries as its id the
/// hexadecimal SHA-256 of its serialisation with the id cleared.
pub proof fn lemma_chain_tx_ids(c: Seq<BlockV>)
    requires
        chain_wf(c),
    ensures
        forall|i: int, j: int|
            0 <= i < c.len() && 0 <= j < c[i].transactions.len() ==> (
            #[trigger] c[i].transactions[j]).id == spec_tx_id(c[i].transactions[j]),
{
    assert forall|i: int, j: int|
        0 <= i < c.len() && 0 <= j < c[i].transactions.len() implies (
    #[trigger] c[i].transactions[j]).id == spec_tx_id(c[i].transactions[j]) by {
        assert(txs_ids_ok(c[i].transactions));
    }
}

} // verus!
