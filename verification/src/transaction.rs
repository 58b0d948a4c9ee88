//! The transaction model: inputs referencing prior outputs, outputs locked to
//! a public-key hash, and a content-addressed identity: a transaction's id is
//! the hexadecimal SHA-256 of its serialisation with the id field cleared.
use vstd::prelude::*;

use crate::codec::ascii_chars;
use crate::codec::lemma_sp_bytes_inverse;
use crate::codec::lemma_sp_i32_inverse;
use crate::codec::lemma_sp_string_inverse;
use crate::codec::read_i32_le;
use crate::codec::read_len_bytes;
use crate::codec::read_string;
use crate::codec::rem;
use crate::codec::sp_bytes;
use crate::codec::sp_i32;
use crate::codec::sp_string;
use crate::codec::i32_le;
use crate::codec::len_prefixed;
use crate::codec::push_i32_le;
use crate::codec::push_len_bytes;
use crate::codec::push_string;
use crate::codec::push_u64_le;
use crate::codec::ser_string;
use crate::codec::u32_le;
use crate::codec::u64_le;
use crate::crypto::sha256;
use crate::crypto::sha256_of;
use crate::crypto::random_32_bytes;
use crate::errors::BcError;
use crate::hex::hex_encode;
use crate::hex::hex_of;
use crate::wallets::spec_decode_address;
use crate::wallets::decode_address;
use crate::wallets::spec_hash_pub_key;
use crate::wallets::hash_pub_key;
use crate::wallets::Wallet;
use crate::utxoset::index_total;
use crate::utxoset::lemma_spendable_zero;
use crate::utxoset::spec_spendable;
use crate::utxoset::OutputRefsV;
use crate::utxoset::UTXOSet;
use crate::hex::lemma_hex_of_ascii;
use vstd::slice::slice_to_vec;

verus! {

/// A reference to a prior output: the hex id of the source transaction, the
/// 0-based output index (-1 with an empty id for coinbase), a signature and
/// the spender's public key.
pub struct TXInput {
    pub txid: String,
    pub vout: i32,
    pub signature: Vec<u8>,
    pub pub_key: Vec<u8>,
}

/// A value locked to exactly one public-key hash.
pub struct TXOutput {
    pub value: i32,
    pub pub_key_hash: Vec<u8>,
}

/// An output of the unspent-output index, remembering its 0-based position
/// in the transaction that created it.
pub struct IndexedOutput {
    pub index: u32,
    pub output: TXOutput,
}

/// The unspent outputs of one transaction, each with its original position.
pub struct TXOutputs {
    pub outputs: Vec<IndexedOutput>,
}

/// A hex string id plus ordered inputs and outputs.
pub struct Transaction {
    pub id: String,
    pub vin: Vec<TXInput>,
    pub vout: Vec<TXOutput>,
}

/// The mathematical value of a `TXInput`.
pub ghost struct TXInputV {
    pub txid: Seq<char>,
    pub vout: i32,
    pub signature: Seq<u8>,
    pub pub_key: Seq<u8>,
}

/// The mathematical value of a `TXOutput`.
pub ghost struct TXOutputV {
    pub value: i32,
    pub pub_key_hash: Seq<u8>,
}

/// The mathematical value of an `IndexedOutput`.
pub ghost struct IndexedOutputV {
    pub index: u32,
    pub output: TXOutputV,
}

/// The mathematical value of a `Transaction`.
pub ghost struct TransactionV {
    pub id: Seq<char>,
    pub vin: Seq<TXInputV>,
    pub vout: Seq<TXOutputV>,
}

impl View for TXInput {
    type V = TXInputV;

    open spec fn view(&self) -> TXInputV {
        TXInputV {
            txid: self.txid@,
            vout: self.vout,
            signature: self.signature@,
            pub_key: self.pub_key@,
        }
    }
}

impl DeepView for TXInput {
    type V = TXInputV;

    open spec fn deep_view(&self) -> TXInputV {
        self@
    }
}

impl View for TXOutput {
    type V = TXOutputV;

    open spec fn view(&self) -> TXOutputV {
        TXOutputV { value: self.value, pub_key_hash: self.pub_key_hash@ }
    }
}

impl DeepView for TXOutput {
    type V = TXOutputV;

    open spec fn deep_view(&self) -> TXOutputV {
        self@
    }
}

impl View for IndexedOutput {
    type V = IndexedOutputV;

    open spec fn view(&self) -> IndexedOutputV {
        IndexedOutputV { index: self.index, output: self.output@ }
    }
}

impl DeepView for IndexedOutput {
    type V = IndexedOutputV;

    open spec fn deep_view(&self) -> IndexedOutputV {
        self@
    }
}

impl View for TXOutputs {
    type V = Seq<IndexedOutputV>;

    open spec fn view(&self) -> Seq<IndexedOutputV> {
        self.outputs.deep_view()
    }
}

impl DeepView for TXOutputs {
    type V = Seq<IndexedOutputV>;

    open spec fn deep_view(&self) -> Seq<IndexedOutputV> {
        self@
    }
}

impl View for Transaction {
    type V = TransactionV;

    open spec fn view(&self) -> TransactionV {
        TransactionV { id: self.id@, vin: self.vin.deep_view(), vout: self.vout.deep_view() }
    }
}

impl DeepView for Transaction {
    type V = TransactionV;

    open spec fn deep_view(&self) -> TransactionV {
        self@
    }
}

// ---------------------------------------------------------------------------
// Canonical serialisation: fields in declaration order.
// ---------------------------------------------------------------------------
/// The encoding of one input.
pub open spec fn ser_txinput(v: TXInputV) -> Seq<u8> {
    ser_string(v.txid) + i32_le(v.vout) + len_prefixed(v.signature) + len_prefixed(v.pub_key)
}

/// The concatenated encodings of a sequence of inputs.
pub open spec fn cat_txinputs(s: Seq<TXInputV>) -> Seq<u8>
    decreases s.len(),
{
    if s.len() == 0 {
        Seq::empty()
    } else {
        cat_txinputs(s.drop_last()) + ser_txinput(s.last())
    }
}

/// The encoding of one output.
pub open spec fn ser_txoutput(v: TXOutputV) -> Seq<u8> {
    i32_le(v.value) + len_prefixed(v.pub_key_hash)
}

/// The concatenated encodings of a sequence of outputs.
pub open spec fn cat_txoutputs(s: Seq<TXOutputV>) -> Seq<u8>
    decreases s.len(),
{
    if s.len() == 0 {
        Seq::empty()
    } else {
        cat_txoutputs(s.drop_last()) + ser_txoutput(s.last())
    }
}

/// The encoding of a whole transaction: id, then the inputs and the outputs,
/// each list prefixed by its length.
pub open spec fn ser_tx(t: TransactionV) -> Seq<u8> {
    ser_string(t.id) + u64_le(t.vin.len() as u64) + cat_txinputs(t.vin) + u64_le(
        t.vout.len() as u64,
    ) + cat_txoutputs(t.vout)
}

impl TXInputV {
    /// The input's source id is ASCII text, as a hex id always is.
    pub open spec fn strings_ascii(self) -> bool {
        ascii_chars(self.txid)
    }
}

impl TransactionV {
    /// All strings of the transaction are ASCII text.
    pub open spec fn strings_ascii(self) -> bool {
        &&& ascii_chars(self.id)
        &&& forall|i: int|
            0 <= i < self.vin.len() ==> (#[trigger] self.vin[i]).strings_ascii()
    }

    /// The same transaction with its id cleared, the form over which the
    /// content-addressed id is computed.
    pub open spec fn clear_id(self) -> TransactionV {
        TransactionV { id: Seq::empty(), vin: self.vin, vout: self.vout }
    }

    /// A transaction is coinbase when it has exactly one input whose source
    /// id is empty and whose output index is -1.
    pub open spec fn spec_is_coinbase(self) -> bool {
        self.vin.len() == 1 && self.vin[0].txid.len() == 0 && self.vin[0].vout == -1
    }
}

/// The content-addressed identity of a transaction: the hexadecimal SHA-256
/// of its serialisation with the id cleared.
pub open spec fn spec_tx_id(t: TransactionV) -> Seq<char> {
    hex_of(sha256_of(ser_tx(t.clear_id())))
}

/// Appends the encoding of one input.
fn push_txinput(out: &mut Vec<u8>, inp: &TXInput)
    requires
        inp@.strings_ascii(),
    ensures
        final(out)@ == old(out)@ + ser_txinput(inp@),
{
    push_string(out, self_str(&inp.txid));
    push_i32_le(out, inp.vout);
    push_len_bytes(out, inp.signature.as_slice());
    push_len_bytes(out, inp.pub_key.as_slice());
    proof {
        assert(out@ =~= old(out)@ + ser_txinput(inp@));
    }
}

/// The string slice of a `String` (its view unchanged).
fn self_str(s: &String) -> (r: &str)
    ensures
        r@ == s@,
{
    s.as_str()
}

/// Appends the encoding of one output.
fn push_txoutput(out: &mut Vec<u8>, o: &TXOutput)
    ensures
        final(out)@ == old(out)@ + ser_txoutput(o@),
{
    push_i32_le(out, o.value);
    push_len_bytes(out, o.pub_key_hash.as_slice());
    proof {
        assert(out@ =~= old(out)@ + ser_txoutput(o@));
    }
}

/// Appends the length-prefixed encodings of the inputs.
fn push_txinputs(out: &mut Vec<u8>, vin: &Vec<TXInput>)
    requires
        forall|i: int| 0 <= i < vin@.len() ==> (#[trigger] vin.deep_view()[i]).strings_ascii(),
    ensures
        final(out)@ == old(out)@ + u64_le(vin@.len() as u64) + cat_txinputs(vin.deep_view()),
{
    push_u64_le(out, vin.len() as u64);
    let ghost base = out@;
    let mut i: usize = 0;
    proof {
        assert(out@ =~= base + cat_txinputs(vin.deep_view().take(0)));
    }
    while i < vin.len()
        invariant
            i <= vin@.len(),
            forall|k: int| 0 <= k < vin@.len() ==> (#[trigger] vin.deep_view()[k]).strings_ascii(),
            out@ == base + cat_txinputs(vin.deep_view().take(i as int)),
        decreases vin@.len() - i,
    {
        proof {
            assert(vin.deep_view()[i as int] == vin@[i as int]@);
        }
        push_txinput(out, &vin[i]);
        i = i + 1;
        proof {
            let dv = vin.deep_view();
            assert(dv.take(i as int).drop_last() =~= dv.take(i as int - 1));
            assert(dv.take(i as int).last() == dv[i as int - 1]);
            assert(out@ =~= base + cat_txinputs(dv.take(i as int)));
        }
    }
    proof {
        assert(vin.deep_view().take(vin@.len() as int) =~= vin.deep_view());
    }
}

/// Appends the length-prefixed encodings of the outputs.
fn push_txoutputs(out: &mut Vec<u8>, vout: &Vec<TXOutput>)
    ensures
        final(out)@ == old(out)@ + u64_le(vout@.len() as u64) + cat_txoutputs(vout.deep_view()),
{
    push_u64_le(out, vout.len() as u64);
    let ghost base = out@;
    let mut i: usize = 0;
    proof {
        assert(out@ =~= base + cat_txoutputs(vout.deep_view().take(0)));
    }
    while i < vout.len()
        invariant
            i <= vout@.len(),
            out@ == base + cat_txoutputs(vout.deep_view().take(i as int)),
        decreases vout@.len() - i,
    {
        push_txoutput(out, &vout[i]);
        i = i + 1;
        proof {
            let dv = vout.deep_view();
            assert(dv.take(i as int).drop_last() =~= dv.take(i as int - 1));
            assert(dv.take(i as int).last() == dv[i as int - 1]);
            assert(out@ =~= base + cat_txoutputs(dv.take(i as int)));
        }
    }
    proof {
        assert(vout.deep_view().take(vout@.len() as int) =~= vout.deep_view());
    }
}

/// Appends the encoding of a transaction whose id is given separately.
fn push_tx_fields(out: &mut Vec<u8>, id: &str, vin: &Vec<TXInput>, vout: &Vec<TXOutput>)
    requires
        ascii_chars(id@),
        forall|i: int| 0 <= i < vin@.len() ==> (#[trigger] vin.deep_view()[i]).strings_ascii(),
    ensures
        final(out)@ == old(out)@ + ser_tx(
            TransactionV { id: id@, vin: vin.deep_view(), vout: vout.deep_view() },
        ),
{
    push_string(out, id);
    push_txinputs(out, vin);
    push_txoutputs(out, vout);
    proof {
        assert(out@ =~= old(out)@ + ser_tx(
            TransactionV { id: id@, vin: vin.deep_view(), vout: vout.deep_view() },
        ));
    }
}

/// Appends the canonical encoding of a whole transaction.
pub fn push_tx_encoding(out: &mut Vec<u8>, tx: &Transaction)
    requires
        tx@.strings_ascii(),
    ensures
        final(out)@ == old(out)@ + ser_tx(tx@),
{
    proof {
        assert forall|i: int| 0 <= i < tx.vin@.len() implies (
        #[trigger] tx.vin.deep_view()[i]).strings_ascii() by {
            assert(tx.vin.deep_view()[i] == tx@.vin[i]);
        }
    }
    push_tx_fields(out, tx.id.as_str(), &tx.vin, &tx.vout);
}

impl Transaction {
    /// The canonical encoding of the transaction, id included.
    pub fn serialize(&self) -> (r: Vec<u8>)
        requires
            self@.strings_ascii(),
        ensures
            r@ == ser_tx(self@),
    {
        let mut out: Vec<u8> = Vec::new();
        push_tx_fields(&mut out, self_str(&self.id), &self.vin, &self.vout);
        out
    }

    /// The content-addressed identity: the hexadecimal SHA-256 of the
    /// serialisation with the id cleared. Deterministic in the inputs and
    /// outputs alone.
    pub fn hash(&self) -> (r: String)
        requires
            forall|i: int| 0 <= i < self@.vin.len() ==> (#[trigger] self@.vin[i]).strings_ascii(),
        ensures
            r@ == spec_tx_id(self@),
    {
        let mut out: Vec<u8> = Vec::new();
        let empty_id = "";
        proof {
            reveal_strlit("");
            assert(empty_id@ =~= Seq::<char>::empty());
            assert forall|i: int| 0 <= i < self.vin@.len() implies (
            #[trigger] self.vin.deep_view()[i]).strings_ascii() by {
                assert(self.vin.deep_view()[i] == self@.vin[i]);
            }
        }
        push_tx_fields(&mut out, empty_id, &self.vin, &self.vout);
        let digest = sha256(out.as_slice());
        hex_encode(&digest)
    }

    /// A transaction is coinbase exactly when it has one input whose source
    /// id is empty and whose output index is -1.
    pub fn is_coinbase(&self) -> (r: bool)
        ensures
            r == self@.spec_is_coinbase(),
    {
        self.vin.len() == 1 && self.vin[0].txid.as_str().is_empty() && self.vin[0].vout == -1
    }
}


/// The memo carried by a coinbase input: the given text, or a default
/// naming the recipient when the text is empty.
pub open spec fn spec_memo(to: Seq<char>, data: Seq<char>) -> Seq<char> {
    if data.len() == 0 {
        "Reward to '"@ + to + "'"@
    } else {
        data
    }
}

impl TXOutput {
    /// A new output of the given value, locked to the address. Fails exactly
    /// when the address does not decode.
    pub fn new(value: i32, address: &str) -> (r: Result<TXOutput, BcError>)
        ensures
            match r {
                Ok(o) => o@.value == value && spec_decode_address(address@) == Result::<
                    Seq<u8>,
                    BcError,
                >::Ok(o@.pub_key_hash) && crate::wallets::spec_address_reencodes(address@),
                Err(e) => spec_decode_address(address@) == Result::<Seq<u8>, BcError>::Err(e),
            },
    {
        let mut txo = TXOutput { value, pub_key_hash: Vec::new() };
        match txo.lock(address) {
            Ok(()) => Ok(txo),
            Err(e) => Err(e),
        }
    }

    /// Locks this output to the address: Base58Check-decodes it, verifies the
    /// checksum and stores the public-key hash. On failure the output is
    /// unchanged.
    pub fn lock(&mut self, address: &str) -> (r: Result<(), BcError>)
        ensures
            match r {
                Ok(()) => old(self).value == final(self).value && spec_decode_address(address@)
                    == Result::<Seq<u8>, BcError>::Ok(final(self)@.pub_key_hash)
                    && crate::wallets::spec_address_reencodes(address@),
                Err(e) => spec_decode_address(address@) == Result::<Seq<u8>, BcError>::Err(e)
                    && final(self)@ == old(self)@,
            },
    {
        match decode_address(address) {
            Ok(pkh) => {
                self.pub_key_hash = pkh;
                Ok(())
            },
            Err(e) => Err(e),
        }
    }

    /// Whether this output is locked to the given public-key hash.
    pub fn is_locked_with_key(&self, pub_key_hash: &[u8]) -> (r: bool)
        ensures
            r == (self@.pub_key_hash == pub_key_hash@),
    {
        crate::codec::slices_eq(self.pub_key_hash.as_slice(), pub_key_hash)
    }
}

impl Transaction {
    /// Builds a coinbase transaction: one input with an empty source id,
    /// output index -1, an empty signature and a public key made of the memo
    /// bytes followed by 32 random bytes (so that two coinbases with the
    /// same memo still get distinct ids); one output minting the subsidy to
    /// the recipient. Fails with the address's own error when it does not
    /// decode, else with `IoFailure` exactly when the system's entropy
    /// source fails.
    pub fn new_coinbase(to: String, data: String) -> (r: Result<Transaction, BcError>)
        ensures
            match r {
                Ok(tx) => {
                    &&& tx@.spec_is_coinbase()
                    &&& tx@.strings_ascii()
                    &&& tx@.vin.len() == 1
                    &&& tx@.vin[0].signature.len() == 0
                    &&& exists|rnd: Seq<u8>|
                        rnd.len() == 32 && tx@.vin[0].pub_key == vstd::utf8::encode_utf8(
                            spec_memo(to@, data@),
                        ) + rnd
                    &&& tx@.vout.len() == 1
                    &&& tx@.vout[0].value == crate::SUBSIDY
                    &&& spec_decode_address(to@) == Result::<Seq<u8>, BcError>::Ok(
                        tx@.vout[0].pub_key_hash,
                    )
                    &&& tx@.id == spec_tx_id(tx@)
                },
                Err(e) => {
                    &&& spec_decode_address(to@) is Err ==> e == spec_decode_address(to@)->Err_0
                    &&& spec_decode_address(to@) is Ok ==> e == BcError::IoFailure
                },
            },
    {
        let out0 = match TXOutput::new(crate::SUBSIDY, to.as_str()) {
            Ok(o) => o,
            Err(e) => {
                return Err(e);
            },
        };
        let memo: String = if data.as_str().is_empty() {
            let mut d = String::from_str("Reward to '");
            d.append(to.as_str());
            d.append("'");
            d
        } else {
            data
        };
        let mut pub_key = vstd::string::StrSliceExecFns::as_bytes_vec(memo.as_str());
        let ghost memo_bytes = pub_key@;
        let rnd = match random_32_bytes() {
            Some(b) => b,
            None => {
                return Err(BcError::IoFailure);
            },
        };
        let ghost rnd_bytes = rnd@;
        crate::codec::push_bytes(&mut pub_key, rnd.as_slice());
        let mut vout: Vec<TXOutput> = Vec::new();
        vout.push(out0);
        let mut vin: Vec<TXInput> = Vec::new();
        vin.push(TXInput { txid: String::new(), vout: -1, signature: Vec::new(), pub_key });
        let mut tx = Transaction { id: String::new(), vin, vout };
        let id = tx.hash();
        tx.id = id;
        proof {
            assert(tx@.vin[0].pub_key == memo_bytes + rnd_bytes);
            assert(memo_bytes == vstd::utf8::encode_utf8(spec_memo(to@, data@)));
            assert(tx@.id == spec_tx_id(tx@)) by {
                assert(tx@.clear_id() =~= TransactionV {
                    id: Seq::<char>::empty(),
                    vin: tx@.vin,
                    vout: tx@.vout,
                });
            }
        }
        Ok(tx)
    }
}


/// The inputs a reference group contributes to a spend: one per taken
/// position, with an empty signature and the spender's public key.
pub open spec fn inputs_of_ref(r: OutputRefsV, pk: Seq<u8>) -> Seq<TXInputV> {
    Seq::new(
        r.indices.len(),
        |j: int|
            TXInputV { txid: r.txid, vout: r.indices[j], signature: Seq::empty(), pub_key: pk },
    )
}

/// The inputs of a spend funded by the given reference groups, in order.
pub open spec fn spec_inputs_of(refs: Seq<OutputRefsV>, pk: Seq<u8>) -> Seq<TXInputV>
    decreases refs.len(),
{
    if refs.len() == 0 {
        Seq::empty()
    } else {
        spec_inputs_of(refs.drop_last(), pk) + inputs_of_ref(refs.last(), pk)
    }
}

/// What a successfully built spend looks like: the greedy selection covered
/// the amount, the inputs are exactly the selected references, the first
/// output pays the amount to the recipient, and a second output returns any
/// excess to the sender; the id is content-addressed.
pub open spec fn new_utxo_ok(
    tx: TransactionV,
    pk: Seq<u8>,
    to: Seq<char>,
    amount: i32,
    index: Seq<crate::utxoset::UtxoEntryV>,
) -> bool {
    let pkh = spec_hash_pub_key(pk);
    let acc = spec_spendable(index, pkh, amount as int).0;
    let refs = spec_spendable(index, pkh, amount as int).1;
    &&& acc >= amount
    &&& tx.vin == spec_inputs_of(refs, pk)
    &&& tx.vout.len() >= 1
    &&& tx.vout[0].value == amount
    &&& spec_decode_address(to) == Result::<Seq<u8>, BcError>::Ok(tx.vout[0].pub_key_hash)
    &&& (acc > amount ==> tx.vout.len() == 2 && tx.vout[1].value == acc - amount
        && tx.vout[1].pub_key_hash == pkh)
    &&& (acc == amount ==> tx.vout.len() == 1)
    &&& tx.id == spec_tx_id(tx)
    &&& tx.strings_ascii()
}

impl Transaction {
    /// Builds a spend of `amount` from the wallet to `to`: greedily gathers
    /// the sender's unspent outputs until they cover the amount, pays the
    /// recipient and returns any excess to the sender as change. Signature
    /// fields are left empty. Fails with the balance at hand when the funds
    /// do not suffice, or when the recipient's address does not decode.
    pub fn new_utxo(wallet: &Wallet, to: &str, amount: i32, utxo: &UTXOSet) -> (r: Result<
        Transaction,
        BcError,
    >)
        requires
            wallet.wf(),
            utxo.wf(),
            index_total(utxo.index()) <= i32::MAX,
            amount > i32::MIN,
        ensures
            match r {
                Ok(tx) => new_utxo_ok(tx@, wallet.spec_public_key(), to@, amount, utxo.index()),
                Err(e) => {
                    let acc = spec_spendable(
                        utxo.index(),
                        spec_hash_pub_key(wallet.spec_public_key()),
                        amount as int,
                    ).0;
                    &&& (acc < amount ==> e == (BcError::InsufficientFunds {
                        have: acc as i32,
                        need: amount,
                    }))
                    &&& (acc >= amount ==> spec_decode_address(to@) == Result::<
                        Seq<u8>,
                        BcError,
                    >::Err(e))
                },
            },
    {
        let pk = wallet.public_key();
        let pkh = hash_pub_key(pk.as_slice());
        let found = utxo.find_spendable_outputs(pkh.as_slice(), amount);
        let acc = found.0;
        let refs = found.1;
        if acc < amount {
            return Err(BcError::InsufficientFunds { have: acc, need: amount });
        }
        let ghost refs_dv = refs.deep_view();
        let mut vin: Vec<TXInput> = Vec::new();
        let nrefs = refs.len();
        let mut i: usize = 0;
        proof {
            assert(vin.deep_view() =~= spec_inputs_of(refs_dv.take(0), pk@));
        }
        while i < nrefs
            invariant
                i <= nrefs,
                nrefs == refs_dv.len(),
                refs_dv == refs.deep_view(),
                pk@ == wallet.spec_public_key(),
                forall|k: int| 0 <= k < nrefs ==> ascii_chars((#[trigger] refs_dv[k]).txid),
                vin.deep_view() =~= spec_inputs_of(refs_dv.take(i as int), pk@),
                forall|k: int|
                    0 <= k < vin.deep_view().len() ==> (
                    #[trigger] vin.deep_view()[k]).strings_ascii(),
            decreases nrefs - i,
        {
            proof {
                assert(refs_dv[i as int] == refs@[i as int]@);
            }
            let rf = &refs[i];
            let m = rf.indices.len();
            let mut j: usize = 0;
            proof {
                assert(inputs_of_ref(refs_dv[i as int], pk@).take(0) =~= Seq::<TXInputV>::empty());
            }
            while j < m
                invariant
                    j <= m,
                    i < nrefs,
                    nrefs == refs_dv.len(),
                    refs_dv == refs.deep_view(),
                    pk@ == wallet.spec_public_key(),
                    refs_dv[i as int] == rf@,
                    m == rf.indices@.len(),
                    ascii_chars(rf.txid@),
                    vin.deep_view() =~= spec_inputs_of(refs_dv.take(i as int), pk@)
                        + inputs_of_ref(refs_dv[i as int], pk@).take(j as int),
                    forall|k: int|
                        0 <= k < vin.deep_view().len() ==> (
                        #[trigger] vin.deep_view()[k]).strings_ascii(),
                decreases m - j,
            {
                let ghost prev = vin.deep_view();
                vin.push(
                    TXInput {
                        txid: rf.txid.clone(),
                        vout: rf.indices[j],
                        signature: Vec::new(),
                        pub_key: slice_to_vec(pk.as_slice()),
                    },
                );
                j = j + 1;
                proof {
                    let want = inputs_of_ref(refs_dv[i as int], pk@);
                    assert(vin.deep_view() =~= prev.push(want[j - 1]));
                    assert(want.take(j as int) =~= want.take(j - 1).push(want[j - 1]));
                    assert(vin.deep_view() =~= spec_inputs_of(refs_dv.take(i as int), pk@)
                        + want.take(j as int));
                }
            }
            i = i + 1;
            proof {
                let want = inputs_of_ref(refs_dv[i - 1], pk@);
                assert(want.take(m as int) =~= want);
                assert(refs_dv.take(i as int).drop_last() =~= refs_dv.take(i - 1));
                assert(refs_dv.take(i as int).last() == refs_dv[i - 1]);
                assert(vin.deep_view() =~= spec_inputs_of(refs_dv.take(i as int), pk@));
            }
        }
        proof {
            assert(refs_dv.take(nrefs as int) =~= refs_dv);
        }
        let out0 = match TXOutput::new(amount, to) {
            Ok(o) => o,
            Err(e) => {
                return Err(e);
            },
        };
        let mut vout: Vec<TXOutput> = Vec::new();
        vout.push(out0);
        if acc > amount {
            proof {
                if amount <= 0 {
                    lemma_spendable_zero(
                        utxo.index(),
                        spec_hash_pub_key(pk@),
                        amount as int,
                        utxo.index().len() as int,
                    );
                }
            }
            let change = acc - amount;
            let sender = wallet.get_address();
            let out1 = match TXOutput::new(change, sender.as_str()) {
                Ok(o) => o,
                Err(e) => {
                    proof {
                        assert(false);
                    }
                    return Err(e);
                },
            };
            vout.push(out1);
        }
        let mut tx = Transaction { id: String::new(), vin, vout };
        let id = tx.hash();
        tx.id = id;
        proof {
            lemma_hex_of_ascii(sha256_of(ser_tx(tx@.clear_id())));
            assert(tx@.id == spec_tx_id(tx@)) by {
                assert(tx@.clear_id() =~= TransactionV {
                    id: Seq::<char>::empty(),
                    vin: tx@.vin,
                    vout: tx@.vout,
                });
            }
        }
        Ok(tx)
    }

    /// Builds a spend, checking the wallet's key material at run time: a
    /// wallet whose stored bytes hold no usable key is reported as not
    /// found.
    pub fn new_utxo_checked(wallet: &Wallet, to: &str, amount: i32, utxo: &UTXOSet) -> (r: Result<
        Transaction,
        BcError,
    >)
        requires
            utxo.wf(),
            index_total(utxo.index()) <= i32::MAX,
            amount > i32::MIN,
        ensures
            match r {
                Ok(tx) => wallet.wf() && new_utxo_ok(
                    tx@,
                    wallet.spec_public_key(),
                    to@,
                    amount,
                    utxo.index(),
                ),
                Err(e) => {
                    &&& !wallet.wf() ==> e == BcError::WalletNotFound
                    &&& wallet.wf() ==> ({
                        let acc = spec_spendable(
                            utxo.index(),
                            spec_hash_pub_key(wallet.spec_public_key()),
                            amount as int,
                        ).0;
                        &&& (acc < amount ==> e == (BcError::InsufficientFunds {
                            have: acc as i32,
                            need: amount,
                        }))
                        &&& (acc >= amount ==> spec_decode_address(to@) == Result::<
                            Seq<u8>,
                            BcError,
                        >::Err(e))
                    })
                },
            },
    {
        match wallet.try_public_key() {
            Some(_) => Self::new_utxo(wallet, to, amount, utxo),
            None => Err(BcError::WalletNotFound),
        }
    }
}


// ---------------------------------------------------------------------------
// Parsing transactions back out of the canonical encoding.
// ---------------------------------------------------------------------------
/// The field lengths of a transaction fit the 64-bit length prefixes.
pub open spec fn tx_fits(t: TransactionV) -> bool {
    &&& t.id.len() < 0x1_0000_0000_0000_0000
    &&& t.vin.len() < 0x1_0000_0000_0000_0000
    &&& t.vout.len() < 0x1_0000_0000_0000_0000
    &&& forall|i: int|
        0 <= i < t.vin.len() ==> (#[trigger] t.vin[i]).txid.len() < 0x1_0000_0000_0000_0000
            && t.vin[i].signature.len() < 0x1_0000_0000_0000_0000 && t.vin[i].pub_key.len()
            < 0x1_0000_0000_0000_0000
    &&& forall|i: int|
        0 <= i < t.vout.len() ==> (#[trigger] t.vout[i]).pub_key_hash.len()
            < 0x1_0000_0000_0000_0000
}

/// Parses one input.
pub open spec fn sp_txinput(s: Seq<u8>) -> Option<(TXInputV, Seq<u8>)> {
    match sp_string(s) {
        Option::None => Option::None,
        Option::Some((txid, s1)) => match sp_i32(s1) {
            Option::None => Option::None,
            Option::Some((vout, s2)) => match sp_bytes(s2) {
                Option::None => Option::None,
                Option::Some((sig, s3)) => match sp_bytes(s3) {
                    Option::None => Option::None,
                    Option::Some((pk, s4)) => Option::Some(
                        (TXInputV { txid, vout, signature: sig, pub_key: pk }, s4),
                    ),
                },
            },
        },
    }
}

/// Parses one output.
pub open spec fn sp_txoutput(s: Seq<u8>) -> Option<(TXOutputV, Seq<u8>)> {
    match sp_i32(s) {
        Option::None => Option::None,
        Option::Some((value, s1)) => match sp_bytes(s1) {
            Option::None => Option::None,
            Option::Some((pkh, s2)) => Option::Some(
                (TXOutputV { value, pub_key_hash: pkh }, s2),
            ),
        },
    }
}

/// Parses `n` inputs.
pub open spec fn sp_inputs(s: Seq<u8>, n: int) -> Option<(Seq<TXInputV>, Seq<u8>)>
    decreases n,
{
    if n <= 0 {
        Option::Some((Seq::empty(), s))
    } else {
        match sp_txinput(s) {
            Option::None => Option::None,
            Option::Some((v, s1)) => match sp_inputs(s1, n - 1) {
                Option::None => Option::None,
                Option::Some((vs, s2)) => Option::Some((seq![v] + vs, s2)),
            },
        }
    }
}

/// Parses `n` outputs.
pub open spec fn sp_outputs(s: Seq<u8>, n: int) -> Option<(Seq<TXOutputV>, Seq<u8>)>
    decreases n,
{
    if n <= 0 {
        Option::Some((Seq::empty(), s))
    } else {
        match sp_txoutput(s) {
            Option::None => Option::None,
            Option::Some((v, s1)) => match sp_outputs(s1, n - 1) {
                Option::None => Option::None,
                Option::Some((vs, s2)) => Option::Some((seq![v] + vs, s2)),
            },
        }
    }
}

/// Parses one transaction.
pub open spec fn sp_tx(s: Seq<u8>) -> Option<(TransactionV, Seq<u8>)> {
    match sp_string(s) {
        Option::None => Option::None,
        Option::Some((id, s1)) => match crate::codec::sp_u64(s1) {
            Option::None => Option::None,
            Option::Some((nvin, s2)) => match sp_inputs(s2, nvin as int) {
                Option::None => Option::None,
                Option::Some((vin, s3)) => match crate::codec::sp_u64(s3) {
                    Option::None => Option::None,
                    Option::Some((nvout, s4)) => match sp_outputs(s4, nvout as int) {
                        Option::None => Option::None,
                        Option::Some((vout, s5)) => Option::Some(
                            (TransactionV { id, vin, vout }, s5),
                        ),
                    },
                },
            },
        },
    }
}

/// A non-empty concatenation of input encodings starts with its first.
proof fn lemma_cat_txinputs_first(vs: Seq<TXInputV>)
    requires
        vs.len() > 0,
    ensures
        cat_txinputs(vs) == ser_txinput(vs[0]) + cat_txinputs(vs.drop_first()),
    decreases vs.len(),
{
    if vs.len() == 1 {
        assert(vs.drop_last() =~= Seq::<TXInputV>::empty());
        assert(vs.drop_first() =~= Seq::<TXInputV>::empty());
        assert(cat_txinputs(vs) =~= ser_txinput(vs[0]) + cat_txinputs(vs.drop_first()));
    } else {
        let w = vs.drop_last();
        lemma_cat_txinputs_first(w);
        assert(w[0] == vs[0]);
        assert(vs.drop_first().drop_last() =~= w.drop_first());
        assert(vs.drop_first().last() == vs.last());
        assert(cat_txinputs(vs.drop_first()) == cat_txinputs(w.drop_first()) + ser_txinput(
            vs.last(),
        ));
        crate::codec::lemma_concat_assoc(
            ser_txinput(vs[0]),
            cat_txinputs(w.drop_first()),
            ser_txinput(vs.last()),
        );
    }
}

/// A non-empty concatenation of output encodings starts with its first.
proof fn lemma_cat_txoutputs_first(vs: Seq<TXOutputV>)
    requires
        vs.len() > 0,
    ensures
        cat_txoutputs(vs) == ser_txoutput(vs[0]) + cat_txoutputs(vs.drop_first()),
    decreases vs.len(),
{
    if vs.len() == 1 {
        assert(vs.drop_last() =~= Seq::<TXOutputV>::empty());
        assert(vs.drop_first() =~= Seq::<TXOutputV>::empty());
        assert(cat_txoutputs(vs) =~= ser_txoutput(vs[0]) + cat_txoutputs(vs.drop_first()));
    } else {
        let w = vs.drop_last();
        lemma_cat_txoutputs_first(w);
        assert(w[0] == vs[0]);
        assert(vs.drop_first().drop_last() =~= w.drop_first());
        assert(vs.drop_first().last() == vs.last());
        assert(cat_txoutputs(vs.drop_first()) == cat_txoutputs(w.drop_first()) + ser_txoutput(
            vs.last(),
        ));
        crate::codec::lemma_concat_assoc(
            ser_txoutput(vs[0]),
            cat_txoutputs(w.drop_first()),
            ser_txoutput(vs.last()),
        );
    }
}

/// Parsing inverts the encoding of one input.
proof fn lemma_sp_txinput_inverse(v: TXInputV, tail: Seq<u8>)
    requires
        v.strings_ascii(),
        v.txid.len() < 0x1_0000_0000_0000_0000,
        v.signature.len() < 0x1_0000_0000_0000_0000,
        v.pub_key.len() < 0x1_0000_0000_0000_0000,
    ensures
        sp_txinput(ser_txinput(v) + tail) == Some((v, tail)),
{
    let t3 = crate::codec::len_prefixed(v.pub_key) + tail;
    let t2 = crate::codec::len_prefixed(v.signature) + t3;
    let t1 = crate::codec::i32_le(v.vout) + t2;
    assert(ser_txinput(v) + tail =~= crate::codec::ser_string(v.txid) + t1);
    lemma_sp_string_inverse(v.txid, t1);
    lemma_sp_i32_inverse(v.vout, t2);
    lemma_sp_bytes_inverse(v.signature, t3);
    lemma_sp_bytes_inverse(v.pub_key, tail);
}

/// Parsing inverts the encoding of one output.
proof fn lemma_sp_txoutput_inverse(v: TXOutputV, tail: Seq<u8>)
    requires
        v.pub_key_hash.len() < 0x1_0000_0000_0000_0000,
    ensures
        sp_txoutput(ser_txoutput(v) + tail) == Some((v, tail)),
{
    let t1 = crate::codec::len_prefixed(v.pub_key_hash) + tail;
    assert(ser_txoutput(v) + tail =~= crate::codec::i32_le(v.value) + t1);
    lemma_sp_i32_inverse(v.value, t1);
    lemma_sp_bytes_inverse(v.pub_key_hash, tail);
}

/// Parsing inverts the concatenated encodings of inputs.
#[verifier::rlimit(100)]
#[verifier::spinoff_prover]
proof fn lemma_sp_inputs_inverse(vs: Seq<TXInputV>, tail: Seq<u8>)
    requires
        forall|i: int| 0 <= i < vs.len() ==> (#[trigger] vs[i]).strings_ascii(),
        forall|i: int|
            0 <= i < vs.len() ==> (#[trigger] vs[i]).txid.len() < 0x1_0000_0000_0000_0000 && vs[
                i
            ].signature.len() < 0x1_0000_0000_0000_0000 && vs[i].pub_key.len()
                < 0x1_0000_0000_0000_0000,
    ensures
        sp_inputs(cat_txinputs(vs) + tail, vs.len() as int) == Some((vs, tail)),
    decreases vs.len(),
{
    if vs.len() == 0 {
        assert(cat_txinputs(vs) + tail =~= tail);
        assert(sp_inputs(tail, 0) == Some((Seq::<TXInputV>::empty(), tail)));
        assert(vs =~= Seq::<TXInputV>::empty());
    } else {
        lemma_cat_txinputs_first(vs);
        let rest = vs.drop_first();
        crate::codec::lemma_concat_assoc(ser_txinput(vs[0]), cat_txinputs(rest), tail);
        assert(cat_txinputs(vs) + tail == ser_txinput(vs[0]) + (cat_txinputs(rest) + tail));
        lemma_sp_txinput_inverse(vs[0], cat_txinputs(rest) + tail);
        assert forall|i: int| 0 <= i < rest.len() implies (#[trigger] rest[i]).strings_ascii()
            && rest[i].txid.len() < 0x1_0000_0000_0000_0000 && rest[i].signature.len()
            < 0x1_0000_0000_0000_0000 && rest[i].pub_key.len() < 0x1_0000_0000_0000_0000 by {
            assert(rest[i] == vs[i + 1]);
        }
        lemma_sp_inputs_inverse(rest, tail);
        assert(seq![vs[0]] + rest =~= vs);
    }
}

/// Parsing inverts the concatenated encodings of outputs.
proof fn lemma_sp_outputs_inverse(vs: Seq<TXOutputV>, tail: Seq<u8>)
    requires
        forall|i: int|
            0 <= i < vs.len() ==> (#[trigger] vs[i]).pub_key_hash.len() < 0x1_0000_0000_0000_0000,
    ensures
        sp_outputs(cat_txoutputs(vs) + tail, vs.len() as int) == Some((vs, tail)),
    decreases vs.len(),
{
    if vs.len() == 0 {
        assert(cat_txoutputs(vs) + tail =~= tail);
        assert(vs =~= Seq::<TXOutputV>::empty());
    } else {
        lemma_cat_txoutputs_first(vs);
        let rest = vs.drop_first();
        crate::codec::lemma_concat_assoc(ser_txoutput(vs[0]), cat_txoutputs(rest), tail);
        assert(cat_txoutputs(vs) + tail == ser_txoutput(vs[0]) + (cat_txoutputs(rest) + tail));
        lemma_sp_txoutput_inverse(vs[0], cat_txoutputs(rest) + tail);
        assert forall|i: int| 0 <= i < rest.len() implies (#[trigger] rest[i]).pub_key_hash.len()
            < 0x1_0000_0000_0000_0000 by {
            assert(rest[i] == vs[i + 1]);
        }
        lemma_sp_outputs_inverse(rest, tail);
        assert(seq![vs[0]] + rest =~= vs);
    }
}

/// Parsing inverts the encoding of a transaction.
pub proof fn lemma_sp_tx_inverse(t: TransactionV, tail: Seq<u8>)
    requires
        t.strings_ascii(),
        tx_fits(t),
    ensures
        sp_tx(ser_tx(t) + tail) == Some((t, tail)),
{
    let t4 = cat_txoutputs(t.vout) + tail;
    let t3 = crate::codec::u64_le(t.vout.len() as u64) + t4;
    let t2 = cat_txinputs(t.vin) + t3;
    let t1 = crate::codec::u64_le(t.vin.len() as u64) + t2;
    assert(ser_tx(t) + tail =~= crate::codec::ser_string(t.id) + t1);
    lemma_sp_string_inverse(t.id, t1);
    crate::codec::lemma_sp_u64_inverse(t.vin.len() as u64, t2);
    assert(t2 =~= cat_txinputs(t.vin) + t3);
    lemma_sp_inputs_inverse(t.vin, t3);
    crate::codec::lemma_sp_u64_inverse(t.vout.len() as u64, t4);
    lemma_sp_outputs_inverse(t.vout, tail);
}

/// Reads one input at `*pos`, advancing it.
pub fn read_txinput(data: &Vec<u8>, pos: &mut usize) -> (r: Option<TXInput>)
    requires
        *old(pos) <= data@.len(),
    ensures
        *final(pos) <= data@.len(),
        match r {
            Some(v) => sp_txinput(rem(data@, *old(pos) as int)) == Some(
                (v@, rem(data@, *final(pos) as int)),
            ) && v@.strings_ascii(),
            None => sp_txinput(rem(data@, *old(pos) as int)) is None,
        },
{
    let txid = match read_string(data, pos) {
        Some(s) => s,
        None => {
            return None;
        },
    };
    let vout = match read_i32_le(data, pos) {
        Some(v) => v,
        None => {
            return None;
        },
    };
    let signature = match read_len_bytes(data, pos) {
        Some(b) => b,
        None => {
            return None;
        },
    };
    let pub_key = match read_len_bytes(data, pos) {
        Some(b) => b,
        None => {
            return None;
        },
    };
    Some(TXInput { txid, vout, signature, pub_key })
}

/// Reads one output at `*pos`, advancing it.
pub fn read_txoutput(data: &Vec<u8>, pos: &mut usize) -> (r: Option<TXOutput>)
    requires
        *old(pos) <= data@.len(),
    ensures
        *final(pos) <= data@.len(),
        match r {
            Some(v) => sp_txoutput(rem(data@, *old(pos) as int)) == Some(
                (v@, rem(data@, *final(pos) as int)),
            ),
            None => sp_txoutput(rem(data@, *old(pos) as int)) is None,
        },
{
    let value = match read_i32_le(data, pos) {
        Some(v) => v,
        None => {
            return None;
        },
    };
    let pub_key_hash = match read_len_bytes(data, pos) {
        Some(b) => b,
        None => {
            return None;
        },
    };
    Some(TXOutput { value, pub_key_hash })
}

/// Reads `n` inputs at `*pos`, advancing it.
#[verifier::rlimit(100)]
fn read_inputs(data: &Vec<u8>, pos: &mut usize, n: u64) -> (r: Option<Vec<TXInput>>)
    requires
        *old(pos) <= data@.len(),
    ensures
        *final(pos) <= data@.len(),
        match r {
            Some(vs) => sp_inputs(rem(data@, *old(pos) as int), n as int) == Some(
                (vs.deep_view(), rem(data@, *final(pos) as int)),
            ) && forall|i: int|
                0 <= i < vs.deep_view().len() ==> (#[trigger] vs.deep_view()[i]).strings_ascii(),
            None => sp_inputs(rem(data@, *old(pos) as int), n as int) is None,
        },
{
    let ghost rem0 = rem(data@, *pos as int);
    let mut out: Vec<TXInput> = Vec::new();
    let mut k: u64 = 0;
    proof {
        match sp_inputs(rem0, n as int) {
            Option::Some((vs, r)) => {
                assert(out.deep_view() + vs =~= vs);
            },
            Option::None => {},
        }
    }
    while k < n
        invariant
            k <= n,
            *pos <= data@.len(),
            rem0 == rem(data@, *old(pos) as int),
            forall|i: int|
                0 <= i < out.deep_view().len() ==> (#[trigger] out.deep_view()[i]).strings_ascii(),
            match sp_inputs(rem(data@, *pos as int), (n - k) as int) {
                Option::Some((vs, r)) => sp_inputs(rem0, n as int) == Some(
                    (out.deep_view() + vs, r),
                ),
                Option::None => sp_inputs(rem0, n as int) is None,
            },
        decreases n - k,
    {
        let ghost pre_rem = rem(data@, *pos as int);
        let ghost pre_out = out.deep_view();
        let v = match read_txinput(data, pos) {
            Some(v) => v,
            None => {
                proof {
                    assert(sp_txinput(pre_rem) is None);
                    assert(sp_inputs(pre_rem, (n - k) as int) is None);
                    assert(sp_inputs(rem0, n as int) is None);
                }
                return None;
            },
        };
        out.push(v);
        k = k + 1;
        proof {
            assert(out.deep_view() =~= pre_out.push(v@));
            match sp_inputs(rem(data@, *pos as int), (n - k) as int) {
                Option::Some((vs, r)) => {
                    assert(sp_inputs(pre_rem, (n - k + 1) as int) == Some((seq![v@] + vs, r)));
                    assert(pre_out + (seq![v@] + vs) =~= out.deep_view() + vs);
                },
                Option::None => {},
            }
        }
    }
    proof {
        assert(sp_inputs(rem(data@, *pos as int), 0) == Some(
            (Seq::<TXInputV>::empty(), rem(data@, *pos as int)),
        ));
        assert(out.deep_view() + Seq::<TXInputV>::empty() =~= out.deep_view());
    }
    Some(out)
}

/// Reads `n` outputs at `*pos`, advancing it.
#[verifier::rlimit(100)]
fn read_outputs(data: &Vec<u8>, pos: &mut usize, n: u64) -> (r: Option<Vec<TXOutput>>)
    requires
        *old(pos) <= data@.len(),
    ensures
        *final(pos) <= data@.len(),
        match r {
            Some(vs) => sp_outputs(rem(data@, *old(pos) as int), n as int) == Some(
                (vs.deep_view(), rem(data@, *final(pos) as int)),
            ),
            None => sp_outputs(rem(data@, *old(pos) as int), n as int) is None,
        },
{
    let ghost rem0 = rem(data@, *pos as int);
    let mut out: Vec<TXOutput> = Vec::new();
    let mut k: u64 = 0;
    proof {
        match sp_outputs(rem0, n as int) {
            Option::Some((vs, r)) => {
                assert(out.deep_view() + vs =~= vs);
            },
            Option::None => {},
        }
    }
    while k < n
        invariant
            k <= n,
            *pos <= data@.len(),
            rem0 == rem(data@, *old(pos) as int),
            match sp_outputs(rem(data@, *pos as int), (n - k) as int) {
                Option::Some((vs, r)) => sp_outputs(rem0, n as int) == Some(
                    (out.deep_view() + vs, r),
                ),
                Option::None => sp_outputs(rem0, n as int) is None,
            },
        decreases n - k,
    {
        let ghost pre_rem = rem(data@, *pos as int);
        let ghost pre_out = out.deep_view();
        let v = match read_txoutput(data, pos) {
            Some(v) => v,
            None => {
                proof {
                    assert(sp_txoutput(pre_rem) is None);
                    assert(sp_outputs(pre_rem, (n - k) as int) is None);
                    assert(sp_outputs(rem0, n as int) is None);
                }
                return None;
            },
        };
        out.push(v);
        k = k + 1;
        proof {
            assert(out.deep_view() =~= pre_out.push(v@));
            match sp_outputs(rem(data@, *pos as int), (n - k) as int) {
                Option::Some((vs, r)) => {
                    assert(sp_outputs(pre_rem, (n - k + 1) as int) == Some((seq![v@] + vs, r)));
                    assert(pre_out + (seq![v@] + vs) =~= out.deep_view() + vs);
                },
                Option::None => {},
            }
        }
    }
    proof {
        assert(sp_outputs(rem(data@, *pos as int), 0) == Some(
            (Seq::<TXOutputV>::empty(), rem(data@, *pos as int)),
        ));
        assert(out.deep_view() + Seq::<TXOutputV>::empty() =~= out.deep_view());
    }
    Some(out)
}

/// Reads one transaction at `*pos`, advancing it.
pub fn read_transaction(data: &Vec<u8>, pos: &mut usize) -> (r: Option<Transaction>)
    requires
        *old(pos) <= data@.len(),
    ensures
        *final(pos) <= data@.len(),
        match r {
            Some(v) => sp_tx(rem(data@, *old(pos) as int)) == Some(
                (v@, rem(data@, *final(pos) as int)),
            ) && v@.strings_ascii(),
            None => sp_tx(rem(data@, *old(pos) as int)) is None,
        },
{
    let id = match read_string(data, pos) {
        Some(s) => s,
        None => {
            return None;
        },
    };
    let nvin = match crate::codec::read_u64_le(data, pos) {
        Some(n) => n,
        None => {
            return None;
        },
    };
    let vin = match read_inputs(data, pos, nvin) {
        Some(v) => v,
        None => {
            return None;
        },
    };
    let nvout = match crate::codec::read_u64_le(data, pos) {
        Some(n) => n,
        None => {
            return None;
        },
    };
    let vout = match read_outputs(data, pos, nvout) {
        Some(v) => v,
        None => {
            return None;
        },
    };
    Some(Transaction { id, vin, vout })
}

} // verus!
