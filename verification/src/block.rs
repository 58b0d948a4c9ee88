//! Blocks and the proof-of-work engine. A block header is the serialisation
//! of `(prev_block_hash, merkle_root, timestamp, difficulty, nonce)`; its
//! SHA-256, written as hexadecimal text, is the block's hash and must fall
//! below the difficulty target.
use vstd::prelude::*;

use vstd::slice::slice_to_vec;

use crate::codec::ascii_chars;
use crate::codec::len_prefixed;
use crate::codec::push_len_bytes;
use crate::codec::push_string;
use crate::codec::push_u128_le;
use crate::codec::push_u32_le;
use crate::codec::push_u64_le;
use crate::codec::ser_string;
use crate::codec::str_bytes;
use crate::codec::string_ascii_bytes;
use crate::codec::string_eq;
use crate::codec::u128_le;
use crate::codec::u32_le;
use crate::codec::u64_le;
use crate::crypto::now_millis;
use crate::crypto::sha256;
use crate::crypto::sha256_of;
use crate::errors::BcError;
use crate::hex::hex_decode;
use crate::hex::hex_encode;
use crate::hex::hex_of;
use crate::hex::lemma_hex_round_trip;
use crate::hex::spec_hex_decode;
use crate::codec::i32_le;
use crate::codec::push_i32_le;
use crate::codec::read_i32_le;
use crate::codec::read_string;
use crate::codec::read_u128_le;
use crate::codec::read_u32_le;
use crate::codec::read_u64_le;
use crate::codec::rem;
use crate::codec::sp_string;
use crate::codec::sp_u128;
use crate::codec::sp_u32;
use crate::codec::sp_u64;
use crate::errors::BcError as Bce;
use crate::transaction::lemma_sp_tx_inverse;
use crate::transaction::read_transaction;
use crate::transaction::ser_tx;
use crate::transaction::sp_tx;
use crate::transaction::tx_fits;
use crate::transaction::Transaction;
use crate::transaction::TransactionV;

verus! {

/// The most transactions a block may carry, so that positions fit a 32-bit
/// signed index.
pub const MAX_BLOCK_TXS: usize = 0x7fff_ffff;

/// A timestamped, hash-linked container of transactions sealed by proof of
/// work.
pub struct Block {
    pub timestamp: u128,
    pub transactions: Vec<Transaction>,
    pub prev_block_hash: String,
    pub hash: String,
    pub nonce: u64,
    pub height: i32,
    pub difficulty: u32,
}

/// The mathematical value of a `Block`.
pub ghost struct BlockV {
    pub timestamp: u128,
    pub transactions: Seq<TransactionV>,
    pub prev_block_hash: Seq<char>,
    pub hash: Seq<char>,
    pub nonce: u64,
    pub height: i32,
    pub difficulty: u32,
}

impl View for Block {
    type V = BlockV;

    open spec fn view(&self) -> BlockV {
        BlockV {
            timestamp: self.timestamp,
            transactions: self.transactions.deep_view(),
            prev_block_hash: self.prev_block_hash@,
            hash: self.hash@,
            nonce: self.nonce,
            height: self.height,
            difficulty: self.difficulty,
        }
    }
}

impl DeepView for Block {
    type V = BlockV;

    open spec fn deep_view(&self) -> BlockV {
        self@
    }
}

/// Every transaction's strings are ASCII text.
pub open spec fn txs_ascii(txs: Seq<TransactionV>) -> bool {
    forall|i: int| 0 <= i < txs.len() ==> (#[trigger] txs[i]).strings_ascii()
}

impl BlockV {
    /// The transaction list is small enough to index with 32-bit positions
    /// and all its strings are ASCII text.
    pub open spec fn txs_ok(self) -> bool {
        self.transactions.len() <= MAX_BLOCK_TXS && txs_ascii(self.transactions)
    }

    /// Everything textual in the block is ASCII, and the transaction list is
    /// in shape: what serialising or hashing the block needs.
    pub open spec fn form_ok(self) -> bool {
        ascii_chars(self.prev_block_hash) && ascii_chars(self.hash) && self.txs_ok()
    }
}

// ---------------------------------------------------------------------------
// Difficulty target and byte-wise ordering.
// ---------------------------------------------------------------------------
/// One byte of the 32-byte difficulty target: `d` leading zero bits, then
/// ones.
pub open spec fn spec_target_byte(d: u32, i: int) -> u8 {
    if i < (d / 8) as int {
        0
    } else if i == (d / 8) as int && d % 8 != 0 {
        (0xff as u8) >> (d % 8)
    } else {
        0xff
    }
}

/// The 32-byte target a hash must fall below: difficulty counts required
/// leading zero bits.
pub open spec fn spec_target(d: u32) -> Seq<u8> {
    Seq::new(32, |i: int| spec_target_byte(d, i))
}

/// Lexicographic strict order on byte strings, a shorter proper prefix
/// ranking first.
pub open spec fn bytes_lt(a: Seq<u8>, b: Seq<u8>) -> bool
    decreases a.len(),
{
    if b.len() == 0 {
        false
    } else if a.len() == 0 {
        true
    } else if a[0] < b[0] {
        true
    } else if a[0] > b[0] {
        false
    } else {
        bytes_lt(a.drop_first(), b.drop_first())
    }
}

/// A hexadecimal hash string satisfies the difficulty: it decodes and the
/// bytes fall below the target.
pub open spec fn spec_valid_proof(hash: Seq<char>, d: u32) -> bool {
    match spec_hex_decode(hash) {
        Option::None => false,
        Option::Some(h) => bytes_lt(h, spec_target(d)),
    }
}

/// Builds the 32-byte difficulty target.
fn target_bytes(difficulty: u32) -> (r: Vec<u8>)
    ensures
        r@ == spec_target(difficulty),
{
    let zero_bytes = difficulty / 8;
    let zero_bits = difficulty % 8;
    let mut t: Vec<u8> = Vec::new();
    let mut i: u32 = 0;
    while i < 32
        invariant
            i <= 32,
            zero_bytes == difficulty / 8,
            zero_bits == difficulty % 8,
            t@.len() == i,
            forall|j: int| 0 <= j < i ==> t@[j] == spec_target_byte(difficulty, j),
        decreases 32 - i,
    {
        if i < zero_bytes {
            t.push(0);
        } else if i == zero_bytes && zero_bits > 0 {
            t.push((0xff as u8) >> zero_bits);
        } else {
            t.push(0xff);
        }
        i = i + 1;
    }
    proof {
        assert(t@ =~= spec_target(difficulty));
    }
    t
}

/// Compares byte strings in lexicographic order.
fn bytes_less(a: &[u8], b: &[u8]) -> (r: bool)
    ensures
        r == bytes_lt(a@, b@),
{
    let mut i: usize = 0;
    let a_len = a.len();
    let b_len = b.len();
    proof {
        assert(a@.skip(0) =~= a@);
        assert(b@.skip(0) =~= b@);
    }
    while i < a_len && i < b_len
        invariant
            i <= a@.len(),
            i <= b@.len(),
            a_len == a@.len(),
            b_len == b@.len(),
            forall|j: int| 0 <= j < i ==> a@[j] == b@[j],
            bytes_lt(a@, b@) == bytes_lt(a@.skip(i as int), b@.skip(i as int)),
        decreases a@.len() - i,
    {
        let x = a[i];
        let y = b[i];
        proof {
            assert(a@.skip(i as int)[0] == a@[i as int]);
            assert(b@.skip(i as int)[0] == b@[i as int]);
            assert(a@.skip(i as int).drop_first() =~= a@.skip(i as int + 1));
            assert(b@.skip(i as int).drop_first() =~= b@.skip(i as int + 1));
        }
        if x < y {
            return true;
        }
        if x > y {
            return false;
        }
        i = i + 1;
    }
    proof {
        assert(a@.skip(i as int).len() == a@.len() - i);
        assert(b@.skip(i as int).len() == b@.len() - i);
    }
    i >= a_len && i < b_len
}

// ---------------------------------------------------------------------------
// Merkle root: a complete binary tree over the leaves, stored as an array of
// 2n-1 nodes with the children of node i at 2i+1 and 2i+2; inner nodes are
// the SHA-256 of the concatenated children; the root is node 0.
// ---------------------------------------------------------------------------
/// The value of tree node `i` over `n` leaves: positions `n-1` to `2n-2`
/// hold the leaves, earlier positions the hash of their two children.
pub open spec fn merkle_node(leaves: Seq<Seq<u8>>, i: int) -> Seq<u8>
    decreases 2 * leaves.len() - 1 - i,
{
    let n = leaves.len() as int;
    if i < 0 || i >= 2 * n - 1 {
        Seq::empty()
    } else if i >= n - 1 {
        leaves[i - (n - 1)]
    } else {
        sha256_of(merkle_node(leaves, 2 * i + 1) + merkle_node(leaves, 2 * i + 2))
    }
}

/// The Merkle root: the empty byte string for no leaves, else the tree's
/// node 0.
pub open spec fn spec_merkle_root(leaves: Seq<Seq<u8>>) -> Seq<u8> {
    if leaves.len() == 0 {
        Seq::empty()
    } else {
        merkle_node(leaves, 0)
    }
}

/// The byte sequences held by a vector of byte vectors.
pub open spec fn views_of(s: Seq<Vec<u8>>) -> Seq<Seq<u8>> {
    Seq::new(s.len(), |i: int| s[i]@)
}

/// The Merkle leaves of a transaction list: the UTF-8 bytes of each hex id.
pub open spec fn tx_leaves(txs: Seq<TransactionV>) -> Seq<Seq<u8>> {
    Seq::new(txs.len(), |i: int| str_bytes(txs[i].id))
}

/// The SHA-256 of two concatenated nodes.
fn merge_pair(a: &Vec<u8>, b: &Vec<u8>) -> (r: Vec<u8>)
    ensures
        r@ == sha256_of(a@ + b@),
{
    let mut buf = slice_to_vec(a.as_slice());
    crate::codec::push_bytes(&mut buf, b.as_slice());
    sha256(buf.as_slice())
}

/// The Merkle root of the given leaves.
pub fn merkle_root(leaves: &Vec<Vec<u8>>) -> (r: Vec<u8>)
    requires
        leaves@.len() <= MAX_BLOCK_TXS,
    ensures
        r@ == spec_merkle_root(views_of(leaves@)),
{
    let n = leaves.len();
    if n == 0 {
        return Vec::new();
    }
    let ghost lv = views_of(leaves@);
    let mut nodes: Vec<Vec<u8>> = Vec::new();
    let mut i: usize = 0;
    while i < n - 1
        invariant
            i <= n - 1,
            n == lv.len(),
            nodes@.len() == i,
        decreases n - i,
    {
        nodes.push(Vec::new());
        i = i + 1;
    }
    let mut j: usize = 0;
    while j < n
        invariant
            j <= n,
            n == lv.len() == leaves@.len(),
            lv == views_of(leaves@),
            nodes@.len() == n - 1 + j,
            forall|k: int| n - 1 <= k < n - 1 + j ==> (#[trigger] nodes@[k])@ == merkle_node(lv, k),
        decreases n - j,
    {
        nodes.push(slice_to_vec(leaves[j].as_slice()));
        j = j + 1;
        proof {
            assert((nodes@[n - 1 + j - 1])@ == merkle_node(lv, n - 1 + j - 1));
        }
    }
    let mut i: usize = n - 1;
    while i > 0
        invariant
            0 <= i <= n - 1,
            n == lv.len(),
            n <= MAX_BLOCK_TXS,
            nodes@.len() == 2 * n - 1,
            forall|k: int| i <= k < 2 * n - 1 ==> (#[trigger] nodes@[k])@ == merkle_node(lv, k),
        decreases i,
    {
        i = i - 1;
        let merged = merge_pair(&nodes[2 * i + 1], &nodes[2 * i + 2]);
        nodes.set(i, merged);
        proof {
            assert((nodes@[i as int])@ == merkle_node(lv, i as int));
        }
    }
    let root = slice_to_vec(nodes[0].as_slice());
    root
}

/// The Merkle root over the transactions' ids.
fn hash_transactions(transactions: &Vec<Transaction>) -> (r: Vec<u8>)
    requires
        transactions@.len() <= MAX_BLOCK_TXS,
        txs_ascii(transactions.deep_view()),
    ensures
        r@ == spec_merkle_root(tx_leaves(transactions.deep_view())),
{
    let n = transactions.len();
    let mut leaves: Vec<Vec<u8>> = Vec::new();
    let mut i: usize = 0;
    while i < n
        invariant
            i <= n,
            n == transactions@.len(),
            txs_ascii(transactions.deep_view()),
            leaves@.len() == i,
            forall|k: int| 0 <= k < i ==> (#[trigger] leaves@[k])@ == str_bytes(
                transactions.deep_view()[k].id,
            ),
        decreases n - i,
    {
        proof {
            assert(transactions.deep_view()[i as int] == transactions@[i as int]@);
            assert(transactions.deep_view()[i as int].strings_ascii());
        }
        leaves.push(string_ascii_bytes(&transactions[i].id));
        i = i + 1;
        proof {
            assert((leaves@[i - 1])@ == str_bytes(transactions.deep_view()[i - 1].id));
        }
    }
    let root = merkle_root(&leaves);
    proof {
        assert(views_of(leaves@) =~= tx_leaves(transactions.deep_view()));
    }
    root
}

// ---------------------------------------------------------------------------
// Header hashing, mining and validation.
// ---------------------------------------------------------------------------
/// The serialised header a block's hash is computed over: previous hash,
/// Merkle root, timestamp, difficulty and nonce, in that order.
pub open spec fn header_of(b: BlockV) -> Seq<u8> {
    ser_string(b.prev_block_hash) + len_prefixed(spec_merkle_root(tx_leaves(b.transactions)))
        + u128_le(b.timestamp) + u32_le(b.difficulty) + u64_le(b.nonce)
}

/// The hexadecimal SHA-256 of the block's header.
pub open spec fn spec_block_hash(b: BlockV) -> Seq<char> {
    hex_of(sha256_of(header_of(b)))
}

/// The header's digest falls below the difficulty target.
pub open spec fn spec_pow_ok(b: BlockV) -> bool {
    bytes_lt(sha256_of(header_of(b)), spec_target(b.difficulty))
}

/// The block is sealed: its stored hash is the hash of its header, and the
/// proof of work holds.
pub open spec fn block_sealed(b: BlockV) -> bool {
    b.hash == spec_block_hash(b) && spec_pow_ok(b)
}

/// For a block whose stored hash is its recomputed header hash, the hash
/// string satisfies the difficulty predicate exactly when the header digest
/// falls below the target.
pub proof fn lemma_valid_proof_sealed(b: BlockV)
    requires
        b.hash == spec_block_hash(b),
    ensures
        spec_valid_proof(b.hash, b.difficulty) == spec_pow_ok(b),
{
    lemma_hex_round_trip(sha256_of(header_of(b)));
}

/// The outcome of validating a block against its predecessor, checked in
/// this order: recomputed hash, proof of work, predecessor hash, height,
/// timestamp.
pub open spec fn spec_validate(b: BlockV, prev: BlockV) -> Result<bool, BcError> {
    if b.hash != spec_block_hash(b) {
        Result::Err(BcError::HashMismatch)
    } else if !spec_valid_proof(b.hash, b.difficulty) {
        Result::Err(BcError::InvalidProofOfWork)
    } else if b.prev_block_hash != prev.hash {
        Result::Err(BcError::PrevHashMismatch)
    } else if b.height != prev.height + 1 {
        Result::Err(BcError::HeightMismatch)
    } else if b.timestamp <= prev.timestamp {
        Result::Err(BcError::InvalidTimestamp)
    } else {
        Result::Ok(true)
    }
}

impl Block {
    /// The 32-byte difficulty target of this block.
    pub fn calculate_target(&self) -> (r: Vec<u8>)
        ensures
            r@ == spec_target(self.difficulty),
    {
        target_bytes(self.difficulty)
    }

    /// Whether a hexadecimal hash string decodes and falls below this
    /// block's target. Text that is not hexadecimal is simply not valid.
    pub fn is_valid_proof(&self, hash: &str) -> (r: bool)
        ensures
            r == spec_valid_proof(hash@, self.difficulty),
    {
        let decoded = match hex_decode(hash) {
            Some(d) => d,
            None => {
                return false;
            },
        };
        let target = target_bytes(self.difficulty);
        bytes_less(decoded.as_slice(), target.as_slice())
    }

    /// The serialised header of this block.
    fn header_bytes(&self) -> (r: Vec<u8>)
        requires
            ascii_chars(self.prev_block_hash@),
            self@.txs_ok(),
        ensures
            r@ == header_of(self@),
    {
        let root = hash_transactions(&self.transactions);
        let mut out: Vec<u8> = Vec::new();
        push_string(&mut out, self.prev_block_hash.as_str());
        push_len_bytes(&mut out, root.as_slice());
        push_u128_le(&mut out, self.timestamp);
        push_u32_le(&mut out, self.difficulty);
        push_u64_le(&mut out, self.nonce);
        proof {
            assert(out@ =~= header_of(self@));
        }
        out
    }

    /// The hexadecimal SHA-256 of this block's header.
    pub fn calculate_hash(&self) -> (r: String)
        requires
            ascii_chars(self.prev_block_hash@),
            self@.txs_ok(),
        ensures
            r@ == spec_block_hash(self@),
    {
        let data = self.header_bytes();
        let digest = sha256(data.as_slice());
        hex_encode(&digest)
    }

    /// Mines a block with the given contents and timestamp: searches the
    /// nonce space once, from zero upward, for a header digest below the
    /// target. Failure is owed only when no nonce at all seals this header:
    /// the search reports failed proof of work rather than repeating itself,
    /// since retrying identical headers cannot produce new hashes.
    pub fn mine_block_at(
        transactions: Vec<Transaction>,
        prev_block_hash: String,
        height: i32,
        difficulty: u32,
        timestamp: u128,
    ) -> (r: Result<Block, BcError>)
        requires
            ascii_chars(prev_block_hash@),
            transactions@.len() <= MAX_BLOCK_TXS,
            txs_ascii(transactions.deep_view()),
        ensures
            match r {
                Ok(b) => {
                    &&& b@.transactions == transactions.deep_view()
                    &&& b@.prev_block_hash == prev_block_hash@
                    &&& b@.hash == spec_block_hash(b@)
                    &&& spec_pow_ok(b@)
                    &&& b@.height == height
                    &&& b@.difficulty == difficulty
                    &&& b@.timestamp == timestamp
                },
                Err(e) => e == BcError::InvalidProofOfWork && forall|n: u64|
                    !spec_pow_ok(
                        BlockV {
                            timestamp,
                            transactions: transactions.deep_view(),
                            prev_block_hash: prev_block_hash@,
                            hash: Seq::empty(),
                            nonce: n,
                            height,
                            difficulty,
                        },
                    ),
            },
    {
        let root = hash_transactions(&transactions);
        let mut prefix: Vec<u8> = Vec::new();
        push_string(&mut prefix, prev_block_hash.as_str());
        push_len_bytes(&mut prefix, root.as_slice());
        push_u128_le(&mut prefix, timestamp);
        push_u32_le(&mut prefix, difficulty);
        let target = target_bytes(difficulty);
        let ghost base = prefix@;
        let ghost lv = tx_leaves(transactions.deep_view());
        let mut nonce: u64 = 0;
        let mut found_digest: Vec<u8> = Vec::new();
        let mut found: bool = false;
        loop
            invariant_except_break
                !found,
                prefix@ == base,
                base == ser_string(prev_block_hash@) + len_prefixed(spec_merkle_root(lv)) + u128_le(
                    timestamp,
                ) + u32_le(difficulty),
                lv == tx_leaves(transactions.deep_view()),
                target@ == spec_target(difficulty),
                forall|n: u64|
                    n < nonce ==> !bytes_lt(
                        sha256_of(base + u64_le(n)),
                        spec_target(difficulty),
                    ),
            ensures
                found ==> found_digest@ == sha256_of(base + u64_le(nonce)) && bytes_lt(
                    found_digest@,
                    spec_target(difficulty),
                ),
                !found ==> forall|n: u64|
                    !bytes_lt(sha256_of(base + u64_le(n)), spec_target(difficulty)),
            decreases u64::MAX - nonce,
        {
            let mut header = slice_to_vec(prefix.as_slice());
            push_u64_le(&mut header, nonce);
            let digest = sha256(header.as_slice());
            if bytes_less(digest.as_slice(), target.as_slice()) {
                found_digest = digest;
                found = true;
                break ;
            }
            if nonce == u64::MAX {
                proof {
                    assert forall|n: u64| !bytes_lt(
                        sha256_of(base + u64_le(n)),
                        spec_target(difficulty),
                    ) by {
                        if n < nonce {
                        } else {
                            assert(n == nonce);
                        }
                    }
                }
                break ;
            }
            nonce = nonce + 1;
        }
        if !found {
            proof {
                assert forall|n: u64|
                    !spec_pow_ok(
                        BlockV {
                            timestamp,
                            transactions: transactions.deep_view(),
                            prev_block_hash: prev_block_hash@,
                            hash: Seq::empty(),
                            nonce: n,
                            height,
                            difficulty,
                        },
                    ) by {
                    let bv = BlockV {
                        timestamp,
                        transactions: transactions.deep_view(),
                        prev_block_hash: prev_block_hash@,
                        hash: Seq::empty(),
                        nonce: n,
                        height,
                        difficulty,
                    };
                    assert(header_of(bv) =~= base + u64_le(n));
                }
            }
            return Err(BcError::InvalidProofOfWork);
        }
        let hash = hex_encode(&found_digest);
        let b = Block {
            timestamp,
            transactions,
            prev_block_hash,
            hash,
            nonce,
            height,
            difficulty,
        };
        proof {
            assert(header_of(b@) =~= base + u64_le(nonce));
        }
        Ok(b)
    }

    /// Mines a block stamped with the present time. Fails only when the
    /// clock cannot be read or the nonce space is exhausted.
    pub fn new_block(
        transactions: Vec<Transaction>,
        prev_block_hash: String,
        height: i32,
        difficulty: u32,
    ) -> (r: Result<Block, BcError>)
        requires
            ascii_chars(prev_block_hash@),
            transactions@.len() <= MAX_BLOCK_TXS,
            txs_ascii(transactions.deep_view()),
        ensures
            match r {
                Ok(b) => {
                    &&& b@.transactions == transactions.deep_view()
                    &&& b@.prev_block_hash == prev_block_hash@
                    &&& b@.hash == spec_block_hash(b@)
                    &&& spec_pow_ok(b@)
                    &&& b@.height == height
                    &&& b@.difficulty == difficulty
                },
                Err(e) => e == BcError::IoFailure || e == BcError::InvalidProofOfWork,
            },
    {
        let ts = match now_millis() {
            Some(t) => t,
            None => {
                return Err(BcError::IoFailure);
            },
        };
        Self::mine_block_at(transactions, prev_block_hash, height, difficulty, ts)
    }

    /// Checks that the block is sealed: the stored hash is the recomputed
    /// header hash and satisfies the difficulty target.
    pub fn validate_sealed(&self) -> (r: Result<(), BcError>)
        requires
            self@.form_ok(),
        ensures
            match r {
                Ok(()) => block_sealed(self@),
                Err(e) => !block_sealed(self@) && (e == BcError::HashMismatch || e
                    == BcError::InvalidProofOfWork),
            },
    {
        let calculated = self.calculate_hash();
        if !string_eq(&calculated, &self.hash) {
            return Err(BcError::HashMismatch);
        }
        proof {
            lemma_valid_proof_sealed(self@);
        }
        if !self.is_valid_proof(self.hash.as_str()) {
            return Err(BcError::InvalidProofOfWork);
        }
        Ok(())
    }

    /// Validates this block against its predecessor: the stored hash must be
    /// the recomputed header hash, the proof of work must hold, and the
    /// block must extend the predecessor in hash, height and time. The first
    /// failed check names the error.
    pub fn validate(&self, prev_block: &Block) -> (r: Result<bool, BcError>)
        requires
            self@.form_ok(),
        ensures
            r == spec_validate(self@, prev_block@),
    {
        let calculated = self.calculate_hash();
        if !string_eq(&calculated, &self.hash) {
            return Err(BcError::HashMismatch);
        }
        if !self.is_valid_proof(self.hash.as_str()) {
            return Err(BcError::InvalidProofOfWork);
        }
        if !string_eq(&self.prev_block_hash, &prev_block.hash) {
            return Err(BcError::PrevHashMismatch);
        }
        if (self.height as i64) != (prev_block.height as i64) + 1 {
            return Err(BcError::HeightMismatch);
        }
        if self.timestamp <= prev_block.timestamp {
            return Err(BcError::InvalidTimestamp);
        }
        Ok(true)
    }
}


// ---------------------------------------------------------------------------
// Storing blocks: the canonical encoding of a whole block, and its parser.
// ---------------------------------------------------------------------------
/// The concatenated encodings of a transaction list.
pub open spec fn cat_txs(s: Seq<TransactionV>) -> Seq<u8>
    decreases s.len(),
{
    if s.len() == 0 {
        Seq::empty()
    } else {
        cat_txs(s.drop_last()) + ser_tx(s.last())
    }
}

/// The encoding of a block: its fields in declaration order, the transaction
/// list length-prefixed.
pub open spec fn ser_block(b: BlockV) -> Seq<u8> {
    u128_le(b.timestamp) + u64_le(b.transactions.len() as u64) + cat_txs(b.transactions)
        + ser_string(b.prev_block_hash) + ser_string(b.hash) + u64_le(b.nonce) + i32_le(b.height)
        + u32_le(b.difficulty)
}

/// The lengths in a block fit the encoding's 64-bit prefixes.
pub open spec fn block_fits(b: BlockV) -> bool {
    &&& b.transactions.len() < 0x1_0000_0000_0000_0000
    &&& b.prev_block_hash.len() < 0x1_0000_0000_0000_0000
    &&& b.hash.len() < 0x1_0000_0000_0000_0000
    &&& forall|i: int| 0 <= i < b.transactions.len() ==> tx_fits(#[trigger] b.transactions[i])
}

/// Parses `n` transactions.
pub open spec fn sp_txs(s: Seq<u8>, n: int) -> Option<(Seq<TransactionV>, Seq<u8>)>
    decreases n,
{
    if n <= 0 {
        Option::Some((Seq::empty(), s))
    } else {
        match sp_tx(s) {
            Option::None => Option::None,
            Option::Some((v, s1)) => match sp_txs(s1, n - 1) {
                Option::None => Option::None,
                Option::Some((vs, s2)) => Option::Some((seq![v] + vs, s2)),
            },
        }
    }
}

/// Parses one block.
pub open spec fn sp_block(s: Seq<u8>) -> Option<(BlockV, Seq<u8>)> {
    match sp_u128(s) {
        Option::None => Option::None,
        Option::Some((timestamp, s1)) => match sp_u64(s1) {
            Option::None => Option::None,
            Option::Some((ntx, s2)) => match sp_txs(s2, ntx as int) {
                Option::None => Option::None,
                Option::Some((transactions, s3)) => match sp_string(s3) {
                    Option::None => Option::None,
                    Option::Some((prev_block_hash, s4)) => match sp_string(s4) {
                        Option::None => Option::None,
                        Option::Some((hash, s5)) => match sp_u64(s5) {
                            Option::None => Option::None,
                            Option::Some((nonce, s6)) => match crate::codec::sp_i32(s6) {
                                Option::None => Option::None,
                                Option::Some((height, s7)) => match sp_u32(s7) {
                                    Option::None => Option::None,
                                    Option::Some((difficulty, s8)) => Option::Some(
                                        (
                                            BlockV {
                                                timestamp,
                                                transactions,
                                                prev_block_hash,
                                                hash,
                                                nonce,
                                                height,
                                                difficulty,
                                            },
                                            s8,
                                        ),
                                    ),
                                },
                            },
                        },
                    },
                },
            },
        },
    }
}

/// A non-empty concatenation of transaction encodings starts with its first.
proof fn lemma_cat_txs_first(vs: Seq<TransactionV>)
    requires
        vs.len() > 0,
    ensures
        cat_txs(vs) == ser_tx(vs[0]) + cat_txs(vs.drop_first()),
    decreases vs.len(),
{
    if vs.len() == 1 {
        assert(vs.drop_last() =~= Seq::<TransactionV>::empty());
        assert(vs.drop_first() =~= Seq::<TransactionV>::empty());
        assert(cat_txs(vs) =~= ser_tx(vs[0]) + cat_txs(vs.drop_first()));
    } else {
        let w = vs.drop_last();
        lemma_cat_txs_first(w);
        assert(w[0] == vs[0]);
        assert(vs.drop_first().drop_last() =~= w.drop_first());
        assert(vs.drop_first().last() == vs.last());
        assert(cat_txs(vs.drop_first()) == cat_txs(w.drop_first()) + ser_tx(vs.last()));
        crate::codec::lemma_concat_assoc(
            ser_tx(vs[0]),
            cat_txs(w.drop_first()),
            ser_tx(vs.last()),
        );
    }
}

/// One step of parsing a transaction list: a parsed head extends a parsed
/// rest.
#[verifier::spinoff_prover]
proof fn lemma_sp_txs_step(v0: TransactionV, rest: Seq<TransactionV>, tail: Seq<u8>)
    requires
        v0.strings_ascii(),
        tx_fits(v0),
        sp_txs(cat_txs(rest) + tail, rest.len() as int) == Some((rest, tail)),
    ensures
        sp_txs(ser_tx(v0) + (cat_txs(rest) + tail), rest.len() as int + 1) == Some(
            (seq![v0] + rest, tail),
        ),
{
    lemma_sp_tx_inverse(v0, cat_txs(rest) + tail);
}

/// Parsing inverts the concatenated encodings of transactions.
#[verifier::rlimit(100)]
#[verifier::spinoff_prover]
proof fn lemma_sp_txs_inverse(vs: Seq<TransactionV>, tail: Seq<u8>)
    requires
        forall|i: int| 0 <= i < vs.len() ==> (#[trigger] vs[i]).strings_ascii(),
        forall|i: int| 0 <= i < vs.len() ==> tx_fits(#[trigger] vs[i]),
    ensures
        sp_txs(cat_txs(vs) + tail, vs.len() as int) == Some((vs, tail)),
    decreases vs.len(),
{
    if vs.len() == 0 {
        assert(cat_txs(vs) + tail =~= tail);
        assert(vs =~= Seq::<TransactionV>::empty());
    } else {
        lemma_cat_txs_first(vs);
        let rest = vs.drop_first();
        crate::codec::lemma_concat_assoc(ser_tx(vs[0]), cat_txs(rest), tail);
        assert(cat_txs(vs) + tail == ser_tx(vs[0]) + (cat_txs(rest) + tail));
        assert forall|i: int| 0 <= i < rest.len() implies (#[trigger] rest[i]).strings_ascii()
            && tx_fits(rest[i]) by {
            assert(rest[i] == vs[i + 1]);
        }
        lemma_sp_txs_inverse(rest, tail);
        lemma_sp_txs_step(vs[0], rest, tail);
        assert(seq![vs[0]] + rest =~= vs);
    }
}

/// Law: parsing inverts the encoding of a block. Serialising a block and
/// reading it back yields the block itself, with nothing left over.
pub proof fn lemma_block_round_trip(b: BlockV)
    requires
        b.form_ok(),
        block_fits(b),
    ensures
        sp_block(ser_block(b)) == Some((b, Seq::<u8>::empty())),
{
    let empty = Seq::<u8>::empty();
    let t7 = u32_le(b.difficulty);
    let t6 = i32_le(b.height) + t7;
    let t5 = u64_le(b.nonce) + t6;
    let t4 = ser_string(b.hash) + t5;
    let t3 = ser_string(b.prev_block_hash) + t4;
    let t2 = cat_txs(b.transactions) + t3;
    let t1 = u64_le(b.transactions.len() as u64) + t2;
    crate::codec::lemma_reassoc8(
        u128_le(b.timestamp),
        u64_le(b.transactions.len() as u64),
        cat_txs(b.transactions),
        ser_string(b.prev_block_hash),
        ser_string(b.hash),
        u64_le(b.nonce),
        i32_le(b.height),
        u32_le(b.difficulty),
    );
    assert(ser_block(b) == u128_le(b.timestamp) + t1);
    crate::codec::lemma_sp_u128_inverse(b.timestamp, t1);
    crate::codec::lemma_sp_u64_inverse(b.transactions.len() as u64, t2);
    assert forall|i: int| 0 <= i < b.transactions.len() implies (
    #[trigger] b.transactions[i]).strings_ascii() by {
        assert(txs_ascii(b.transactions));
    }
    lemma_sp_txs_inverse(b.transactions, t3);
    crate::codec::lemma_sp_string_inverse(b.prev_block_hash, t4);
    crate::codec::lemma_sp_string_inverse(b.hash, t5);
    crate::codec::lemma_sp_u64_inverse(b.nonce, t6);
    crate::codec::lemma_sp_i32_inverse(b.height, t7);
    crate::codec::lemma_sp_u32_inverse(b.difficulty, empty);
    assert(u32_le(b.difficulty) + empty =~= u32_le(b.difficulty));
    assert(sp_u32(t7) == Some((b.difficulty, empty)));
    assert(sp_block(ser_block(b)) == Some((BlockV {
        timestamp: b.timestamp,
        transactions: b.transactions,
        prev_block_hash: b.prev_block_hash,
        hash: b.hash,
        nonce: b.nonce,
        height: b.height,
        difficulty: b.difficulty,
    }, empty)));
}

/// Reads `n` transactions at `*pos`, advancing it.
#[verifier::rlimit(100)]
fn read_txs(data: &Vec<u8>, pos: &mut usize, n: u64) -> (r: Option<Vec<Transaction>>)
    requires
        *old(pos) <= data@.len(),
    ensures
        *final(pos) <= data@.len(),
        match r {
            Some(vs) => sp_txs(rem(data@, *old(pos) as int), n as int) == Some(
                (vs.deep_view(), rem(data@, *final(pos) as int)),
            ),
            None => sp_txs(rem(data@, *old(pos) as int), n as int) is None,
        },
{
    let ghost rem0 = rem(data@, *pos as int);
    let mut out: Vec<Transaction> = Vec::new();
    let mut k: u64 = 0;
    proof {
        match sp_txs(rem0, n as int) {
            Option::Some((vs, r)) => {
                assert(out.deep_view() + vs =~= vs);
            },
            Option::None => {},
        }
    }
    while k < n
        invariant
            k <= n,
            *pos <= data@.len(),
            rem0 == rem(data@, *old(pos) as int),
            match sp_txs(rem(data@, *pos as int), (n - k) as int) {
                Option::Some((vs, r)) => sp_txs(rem0, n as int) == Some((out.deep_view() + vs, r)),
                Option::None => sp_txs(rem0, n as int) is None,
            },
        decreases n - k,
    {
        let ghost pre_rem = rem(data@, *pos as int);
        let ghost pre_out = out.deep_view();
        let v = match read_transaction(data, pos) {
            Some(v) => v,
            None => {
                proof {
                    assert(sp_tx(pre_rem) is None);
                    assert(sp_txs(pre_rem, (n - k) as int) is None);
                    assert(sp_txs(rem0, n as int) is None);
                }
                return None;
            },
        };
        out.push(v);
        k = k + 1;
        proof {
            assert(out.deep_view() =~= pre_out.push(v@));
            match sp_txs(rem(data@, *pos as int), (n - k) as int) {
                Option::Some((vs, r)) => {
                    assert(sp_txs(pre_rem, (n - k + 1) as int) == Some((seq![v@] + vs, r)));
                    assert(pre_out + (seq![v@] + vs) =~= out.deep_view() + vs);
                },
                Option::None => {},
            }
        }
    }
    proof {
        assert(sp_txs(rem(data@, *pos as int), 0) == Some(
            (Seq::<TransactionV>::empty(), rem(data@, *pos as int)),
        ));
        assert(out.deep_view() + Seq::<TransactionV>::empty() =~= out.deep_view());
    }
    Some(out)
}

impl Block {
    /// The canonical encoding of this block, as written to the store.
    pub fn serialize(&self) -> (r: Vec<u8>)
        requires
            self@.form_ok(),
        ensures
            r@ == ser_block(self@),
    {
        let mut out: Vec<u8> = Vec::new();
        push_u128_le(&mut out, self.timestamp);
        push_u64_le(&mut out, self.transactions.len() as u64);
        let ghost base = out@;
        let ghost txv = self.transactions.deep_view();
        let n = self.transactions.len();
        let mut i: usize = 0;
        proof {
            assert(out@ =~= base + cat_txs(txv.take(0)));
        }
        while i < n
            invariant
                i <= n,
                n == txv.len(),
                txv == self.transactions.deep_view(),
                txs_ascii(txv),
                out@ == base + cat_txs(txv.take(i as int)),
            decreases n - i,
        {
            proof {
                assert(txv[i as int] == self.transactions@[i as int]@);
                assert(txv[i as int].strings_ascii());
            }
            let tx = &self.transactions[i];
            crate::transaction::push_tx_encoding(&mut out, tx);
            i = i + 1;
            proof {
                assert(txv.take(i as int).drop_last() =~= txv.take(i - 1));
                assert(txv.take(i as int).last() == txv[i - 1]);
                assert(out@ =~= base + cat_txs(txv.take(i as int)));
            }
        }
        proof {
            assert(txv.take(n as int) =~= txv);
        }
        push_string(&mut out, self.prev_block_hash.as_str());
        push_string(&mut out, self.hash.as_str());
        push_u64_le(&mut out, self.nonce);
        push_i32_le(&mut out, self.height);
        push_u32_le(&mut out, self.difficulty);
        proof {
            assert(out@ =~= ser_block(self@));
        }
        out
    }

    /// Parses a stored block: succeeds exactly when the bytes are one whole
    /// block encoding with nothing left over.
    pub fn deserialize(data: &Vec<u8>) -> (r: Result<Block, BcError>)
        ensures
            match r {
                Ok(b) => sp_block(data@) == Some((b@, Seq::<u8>::empty())),
                Err(e) => e == BcError::SerializationFailure && (sp_block(data@) is None
                    || !(sp_block(data@)->Some_0.1 =~= Seq::<u8>::empty())),
            },
    {
        let mut pos: usize = 0;
        let timestamp = match read_u128_le(data, &mut pos) {
            Some(v) => v,
            None => {
                return Err(BcError::SerializationFailure);
            },
        };
        let ntx = match read_u64_le(data, &mut pos) {
            Some(v) => v,
            None => {
                return Err(BcError::SerializationFailure);
            },
        };
        let transactions = match read_txs(data, &mut pos, ntx) {
            Some(v) => v,
            None => {
                return Err(BcError::SerializationFailure);
            },
        };
        let prev_block_hash = match read_string(data, &mut pos) {
            Some(v) => v,
            None => {
                return Err(BcError::SerializationFailure);
            },
        };
        let hash = match read_string(data, &mut pos) {
            Some(v) => v,
            None => {
                return Err(BcError::SerializationFailure);
            },
        };
        let nonce = match read_u64_le(data, &mut pos) {
            Some(v) => v,
            None => {
                return Err(BcError::SerializationFailure);
            },
        };
        let height = match read_i32_le(data, &mut pos) {
            Some(v) => v,
            None => {
                return Err(BcError::SerializationFailure);
            },
        };
        let difficulty = match read_u32_le(data, &mut pos) {
            Some(v) => v,
            None => {
                return Err(BcError::SerializationFailure);
            },
        };
        if pos != data.len() {
            proof {
                assert(rem(data@, pos as int).len() > 0);
            }
            return Err(BcError::SerializationFailure);
        }
        proof {
            assert(rem(data@, pos as int) =~= Seq::<u8>::empty());
        }
        Ok(
            Block {
                timestamp,
                transactions,
                prev_block_hash,
                hash,
                nonce,
                height,
                difficulty,
            },
        )
    }
}

} // verus!
