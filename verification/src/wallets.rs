//! Wallets: Ed25519 key pairs stored as PKCS#8 documents, and the
//! Base58Check address convention: `base58(version | pubkey_hash | checksum)`
//! with version 0, `pubkey_hash = RIPEMD160(SHA256(pubkey))` and
//! `checksum = SHA256(SHA256(version | pubkey_hash))[0..4]`.
use vstd::prelude::*;

use vstd::string::StringExecFns;

use crate::codec::ascii_chars;
use crate::codec::len_prefixed;
use crate::codec::push_len_bytes;
use crate::codec::push_string;
use crate::codec::push_u64_le;
use crate::codec::read_len_bytes;
use crate::codec::read_string;
use crate::codec::read_u64_le;
use crate::codec::rem;
use crate::codec::ser_string;
use crate::codec::sp_bytes;
use crate::codec::sp_string;
use crate::codec::sp_u64;
use crate::codec::u64_le;
use crate::crypto::ed25519_pub_of;
use crate::crypto::ed25519_sig_of;
use crate::crypto::generate_pkcs8;
use crate::crypto::pkcs8_public_key;
use crate::crypto::ripemd160;
use crate::crypto::ripemd160_of;
use crate::crypto::sha256;
use crate::crypto::sha256_of;
use crate::crypto::sign_with_pkcs8;
use crate::errors::BcError;

verus! {

/// The version byte prefixed to every address payload.
pub const ADDRESS_VERSION: u8 = 0x00;

/// The Base58 encoding (Bitcoin alphabet) of a byte string.
pub uninterp spec fn base58_of(b: Seq<u8>) -> Seq<char>;

/// The bytes a Base58 string (Bitcoin alphabet) decodes to, or `None` if a
/// character is outside the alphabet.
pub uninterp spec fn base58_decode_of(s: Seq<char>) -> Option<Seq<u8>>;

/// Relies on `bs58::encode` with the Bitcoin alphabet: the encoding is ASCII
/// text and decodes back to the input bytes.
#[verifier::external_body]
fn base58_encode(b: &[u8]) -> (r: String)
    ensures
        r@ == base58_of(b@),
        base58_decode_of(r@) == Some(b@),
        ascii_chars(r@),
{
    bs58::encode(b).with_alphabet(bs58::Alphabet::BITCOIN).into_string()
}

/// Relies on `bs58::decode` with the Bitcoin alphabet: decoding succeeds
/// exactly when every character is in the alphabet, and the decoded bytes
/// encode back to the input text (the encoding is a bijection).
#[verifier::external_body]
fn base58_decode(s: &str) -> (r: Option<Vec<u8>>)
    ensures
        match r {
            Some(v) => base58_decode_of(s@) == Some(v@) && base58_of(v@) == s@,
            None => base58_decode_of(s@) is None,
        },
{
    bs58::decode(s).with_alphabet(bs58::Alphabet::BITCOIN).into_vec().ok()
}

/// `RIPEMD160(SHA256(pk))`, the 20-byte hash an output is locked to.
pub open spec fn spec_hash_pub_key(pk: Seq<u8>) -> Seq<u8> {
    ripemd160_of(sha256_of(pk))
}

/// `SHA256(SHA256(data))`, used for address checksums.
pub open spec fn spec_double_sha256(data: Seq<u8>) -> Seq<u8> {
    sha256_of(sha256_of(data))
}

/// The version-and-hash payload of an address, checksum included.
pub open spec fn spec_address_payload(pkh: Seq<u8>) -> Seq<u8> {
    seq![ADDRESS_VERSION] + pkh + spec_double_sha256(seq![ADDRESS_VERSION] + pkh).take(4)
}

/// The address locking outputs to a public-key hash.
pub open spec fn spec_address_of_pkh(pkh: Seq<u8>) -> Seq<char> {
    base58_of(spec_address_payload(pkh))
}

/// The address of a public key.
pub open spec fn spec_address_of(pk: Seq<u8>) -> Seq<char> {
    spec_address_of_pkh(spec_hash_pub_key(pk))
}

/// A decodable address is canonical Base58 text: re-encoding what it decodes
/// to gives the address back.
pub open spec fn spec_address_reencodes(s: Seq<char>) -> bool {
    match base58_decode_of(s) {
        Option::Some(d) => base58_of(d) == s,
        Option::None => false,
    }
}

/// What decoding an address yields: the public-key hash between the version
/// byte and the 4-byte checksum, or the error naming what is wrong.
pub open spec fn spec_decode_address(s: Seq<char>) -> Result<Seq<u8>, BcError> {
    match base58_decode_of(s) {
        Option::None => Result::Err(BcError::InvalidAddressChecksum),
        Option::Some(d) => {
            if d.len() < 5 {
                Result::Err(BcError::InvalidAddressLength)
            } else if spec_double_sha256(d.take(d.len() - 4)).take(4) == d.skip(d.len() - 4) {
                Result::Ok(d.take(d.len() - 4).skip(1))
            } else {
                Result::Err(BcError::InvalidAddressChecksum)
            }
        },
    }
}

/// Hashes a public key: `RIPEMD160(SHA256(pk))`, 20 bytes.
pub fn hash_pub_key(pubkey: &[u8]) -> (r: Vec<u8>)
    ensures
        r@ == spec_hash_pub_key(pubkey@),
        r@.len() == 20,
{
    let sha = sha256(pubkey);
    ripemd160(sha.as_slice())
}

/// `SHA256(SHA256(data))`, 32 bytes.
pub fn double_sha256(data: &[u8]) -> (r: Vec<u8>)
    ensures
        r@ == spec_double_sha256(data@),
        r@.len() == 32,
{
    let first = sha256(data);
    sha256(first.as_slice())
}

/// Decodes a Base58Check address: rejects text outside the alphabet, a
/// decoding shorter than version plus checksum, and a checksum that does not
/// match; otherwise returns the public-key hash.
pub fn decode_address(address: &str) -> (r: Result<Vec<u8>, BcError>)
    ensures
        match r {
            Ok(p) => spec_decode_address(address@) == Result::<Seq<u8>, BcError>::Ok(p@)
                && spec_address_reencodes(address@),
            Err(e) => spec_decode_address(address@) == Result::<Seq<u8>, BcError>::Err(e),
        },
{
    let d = match base58_decode(address) {
        Some(d) => d,
        None => {
            return Err(BcError::InvalidAddressChecksum);
        },
    };
    if d.len() < 5 {
        return Err(BcError::InvalidAddressLength);
    }
    let split = d.len() - 4;
    let mut version_payload: Vec<u8> = Vec::new();
    let mut i: usize = 0;
    while i < split
        invariant
            i <= split,
            split + 4 == d@.len(),
            version_payload@ =~= d@.take(i as int),
        decreases split - i,
    {
        version_payload.push(d[i]);
        i = i + 1;
        proof {
            assert(version_payload@ =~= d@.take(i as int));
        }
    }
    let hash = double_sha256(version_payload.as_slice());
    if !(hash[0] == d[split] && hash[1] == d[split + 1] && hash[2] == d[split + 2] && hash[3] == d[
        split + 3]) {
        proof {
            let n = d@.len();
            let chk = spec_double_sha256(d@.take(n - 4)).take(4);
            let tail = d@.skip(n - 4);
            assert(version_payload@ =~= d@.take(n - 4));
            if chk == tail {
                assert(chk[0] == tail[0] && chk[1] == tail[1] && chk[2] == tail[2] && chk[3]
                    == tail[3]);
                assert(false);
            }
        }
        return Err(BcError::InvalidAddressChecksum);
    }
    let mut payload: Vec<u8> = Vec::new();
    let mut j: usize = 1;
    while j < split
        invariant
            1 <= j <= split,
            split + 4 == d@.len(),
            payload@ =~= d@.take(split as int).skip(1).take(j - 1),
        decreases split - j,
    {
        payload.push(d[j]);
        j = j + 1;
        proof {
            assert(payload@ =~= d@.take(split as int).skip(1).take(j - 1));
        }
    }
    proof {
        assert(spec_double_sha256(d@.take(d@.len() - 4)).take(4) =~= d@.skip(d@.len() - 4));
        assert(payload@ =~= d@.take(split as int).skip(1));
    }
    Ok(payload)
}

/// An opaque Ed25519 signer; its key material is a PKCS#8 v2 document.
pub struct Wallet {
    pkcs8: Vec<u8>,
}

impl View for Wallet {
    type V = Seq<u8>;

    closed spec fn view(&self) -> Seq<u8> {
        self.pkcs8@
    }
}

impl DeepView for Wallet {
    type V = Seq<u8>;

    open spec fn deep_view(&self) -> Seq<u8> {
        self@
    }
}

impl Wallet {
    /// The wallet's key material is a valid Ed25519 PKCS#8 document.
    pub open spec fn wf(self) -> bool {
        ed25519_pub_of(self@) is Some
    }

    /// The wallet's public key.
    pub open spec fn spec_public_key(self) -> Seq<u8> {
        ed25519_pub_of(self@).unwrap()
    }

    /// Generates a fresh Ed25519 key pair. Fails only when the system's
    /// entropy source does.
    pub fn new() -> (r: Result<Wallet, BcError>)
        ensures
            match r {
                Ok(w) => w.wf(),
                Err(e) => e == BcError::IoFailure,
            },
    {
        match generate_pkcs8() {
            Some(doc) => Ok(Wallet { pkcs8: doc }),
            None => Err(BcError::IoFailure),
        }
    }

    /// Rebuilds a wallet from stored key material, as loaded from disk.
    /// Nothing is promised of the bytes until a key operation checks them.
    pub fn from_pkcs8(pkcs8: Vec<u8>) -> (r: Wallet)
        ensures
            r@ == pkcs8@,
    {
        Wallet { pkcs8 }
    }

    /// The stored key material.
    pub fn pkcs8_bytes(&self) -> (r: &Vec<u8>)
        ensures
            r@ == self@,
    {
        &self.pkcs8
    }

    /// The wallet's 32-byte public key.
    pub fn public_key(&self) -> (r: Vec<u8>)
        requires
            self.wf(),
        ensures
            r@ == self.spec_public_key(),
            r@.len() == 32,
    {
        match pkcs8_public_key(self.pkcs8.as_slice()) {
            Some(pk) => pk,
            None => {
                proof {
                    assert(false);
                }
                Vec::new()
            },
        }
    }

    /// The public key, checking the key material at run time.
    pub fn try_public_key(&self) -> (r: Option<Vec<u8>>)
        ensures
            match r {
                Some(pk) => self.wf() && pk@ == self.spec_public_key() && pk@.len() == 32,
                None => !self.wf(),
            },
    {
        match pkcs8_public_key(self.pkcs8.as_slice()) {
            Some(_) => Some(self.public_key()),
            None => None,
        }
    }

    /// Signs a message with the wallet's key (Ed25519, deterministic).
    pub fn sign(&self, message: &[u8]) -> (r: Vec<u8>)
        requires
            self.wf(),
        ensures
            r@ == ed25519_sig_of(self@, message@),
            r@.len() == 64,
    {
        sign_with_pkcs8(self.pkcs8.as_slice(), message)
    }

    /// Signs a message, checking the key material at run time.
    pub fn try_sign(&self, message: &[u8]) -> (r: Option<Vec<u8>>)
        ensures
            match r {
                Some(sig) => self.wf() && sig@ == ed25519_sig_of(self@, message@),
                None => !self.wf(),
            },
    {
        match pkcs8_public_key(self.pkcs8.as_slice()) {
            Some(_) => Some(self.sign(message)),
            None => None,
        }
    }

    /// The wallet's Base58Check address. Decoding the address yields the
    /// hash of the wallet's public key with a matching checksum.
    pub fn get_address(&self) -> (r: String)
        requires
            self.wf(),
        ensures
            r@ == spec_address_of(self.spec_public_key()),
            spec_decode_address(r@) == Result::<Seq<u8>, BcError>::Ok(
                spec_hash_pub_key(self.spec_public_key()),
            ),
            ascii_chars(r@),
    {
        let pk = self.public_key();
        let pkh = hash_pub_key(pk.as_slice());
        let mut payload: Vec<u8> = Vec::new();
        payload.push(ADDRESS_VERSION);
        let mut i: usize = 0;
        proof {
            assert(payload@ =~= seq![ADDRESS_VERSION] + pkh@.take(0));
        }
        while i < pkh.len()
            invariant
                i <= pkh@.len(),
                payload@ =~= seq![ADDRESS_VERSION] + pkh@.take(i as int),
            decreases pkh@.len() - i,
        {
            payload.push(pkh[i]);
            i = i + 1;
            proof {
                assert(payload@ =~= seq![ADDRESS_VERSION] + pkh@.take(i as int));
            }
        }
        proof {
            assert(payload@ =~= seq![ADDRESS_VERSION] + pkh@);
        }
        let checksum = double_sha256(payload.as_slice());
        let ghost base = payload@;
        payload.push(checksum[0]);
        payload.push(checksum[1]);
        payload.push(checksum[2]);
        payload.push(checksum[3]);
        proof {
            assert(payload@ =~= base + spec_double_sha256(base).take(4));
            assert(payload@ =~= spec_address_payload(pkh@));
        }
        let addr = base58_encode(payload.as_slice());
        proof {
            let d = payload@;
            assert(d.len() == pkh@.len() + 5);
            assert(d.take(d.len() - 4) =~= seq![ADDRESS_VERSION] + pkh@);
            assert(d.skip(d.len() - 4) =~= spec_double_sha256(seq![ADDRESS_VERSION] + pkh@).take(4));
            assert(spec_double_sha256(d.take(d.len() - 4)).take(4) == d.skip(d.len() - 4));
            assert(d.take(d.len() - 4).skip(1) =~= pkh@);
        }
        addr
    }

    /// The address, checking the key material at run time.
    pub fn try_get_address(&self) -> (r: Option<String>)
        ensures
            match r {
                Some(addr) => self.wf() && addr@ == spec_address_of(self.spec_public_key()),
                None => !self.wf(),
            },
    {
        match pkcs8_public_key(self.pkcs8.as_slice()) {
            Some(_) => Some(self.get_address()),
            None => None,
        }
    }
}

/// One stored wallet, keyed by its address.
pub struct WalletEntry {
    pub address: String,
    pub wallet: Wallet,
}

/// The mathematical value of a `WalletEntry`.
pub ghost struct WalletEntryV {
    pub address: Seq<char>,
    pub pkcs8: Seq<u8>,
}

impl View for WalletEntry {
    type V = WalletEntryV;

    open spec fn view(&self) -> WalletEntryV {
        WalletEntryV { address: self.address@, pkcs8: self.wallet@ }
    }
}

impl DeepView for WalletEntry {
    type V = WalletEntryV;

    open spec fn deep_view(&self) -> WalletEntryV {
        self@
    }
}

/// The wallet the map holds under an address: the first entry that matches.
pub open spec fn spec_get_wallet(entries: Seq<WalletEntryV>, address: Seq<char>) -> Option<Seq<u8>>
    decreases entries.len(),
{
    if entries.len() == 0 {
        Option::None
    } else if entries[0].address == address {
        Option::Some(entries[0].pkcs8)
    } else {
        spec_get_wallet(entries.drop_first(), address)
    }
}

/// An address-keyed collection of wallets.
pub struct Wallets {
    entries: Vec<WalletEntry>,
}

impl View for Wallets {
    type V = Seq<WalletEntryV>;

    closed spec fn view(&self) -> Seq<WalletEntryV> {
        self.entries.deep_view()
    }
}

impl Wallets {
    /// Addresses are unique and ASCII.
    pub open spec fn wf(self) -> bool {
        &&& forall|i: int, j: int|
            0 <= i < j < self@.len() ==> (#[trigger] self@[i]).address != (
            #[trigger] self@[j]).address
        &&& forall|i: int| 0 <= i < self@.len() ==> ascii_chars((#[trigger] self@[i]).address)
    }

    /// An empty wallet collection; stored wallets are brought in through
    /// [`Wallets::from_entries`].
    pub fn new() -> (r: Wallets)
        ensures
            r@.len() == 0,
            r.wf(),
    {
        Wallets { entries: Vec::new() }
    }

    /// The number of wallets held.
    pub fn len(&self) -> (r: usize)
        ensures
            r == self@.len(),
    {
        self.entries.len()
    }

    /// Generates a new wallet, stores it under its address and returns the
    /// address. An existing wallet under the same address is replaced.
    pub fn create_wallet(&mut self) -> (r: Result<String, BcError>)
        requires
            old(self).wf(),
        ensures
            final(self).wf(),
            match r {
                Ok(addr) => {
                    &&& ascii_chars(addr@)
                    &&& spec_get_wallet(final(self)@, addr@) matches Some(p)
                        && ed25519_pub_of(p) is Some && addr@ == spec_address_of(
                        ed25519_pub_of(p).unwrap(),
                    )
                    &&& forall|a: Seq<char>|
                        a != addr@ ==> #[trigger] spec_get_wallet(final(self)@, a)
                            == spec_get_wallet(old(self)@, a)
                },
                Err(e) => e == BcError::IoFailure && final(self)@ == old(self)@,
            },
    {
        let wallet = match Wallet::new() {
            Ok(w) => w,
            Err(e) => {
                return Err(e);
            },
        };
        let address = wallet.get_address();
        let addr_copy = address.clone();
        self.put(WalletEntry { address: addr_copy, wallet });
        Ok(address)
    }

    /// Inserts an entry, replacing any entry under the same address.
    fn put(&mut self, entry: WalletEntry)
        requires
            old(self).wf(),
            ascii_chars(entry.address@),
        ensures
            final(self).wf(),
            spec_get_wallet(final(self)@, entry.address@) == Some(entry.wallet@),
            forall|a: Seq<char>|
                a != entry.address@ ==> #[trigger] spec_get_wallet(final(self)@, a)
                    == spec_get_wallet(old(self)@, a),
    {
        let mut i: usize = 0;
        while i < self.entries.len()
            invariant
                i <= self@.len(),
                old(self)@ == self@,
                self.wf(),
                ascii_chars(entry.address@),
                forall|k: int| 0 <= k < i ==> (#[trigger] self@[k]).address != entry.address@,
            decreases self@.len() - i,
        {
            if string_eq(&self.entries[i].address, &entry.address) {
                let ghost pre = self@;
                let ghost ev = entry@;
                self.entries.set(i, entry);
                proof {
                    assert(self@ =~= pre.update(i as int, ev));
                    assert(self@[i as int] == ev);
                    lemma_get_wallet_update(pre, self@, i as int);
                    assert forall|k: int| 0 <= k < self@.len() implies (
                    #[trigger] self@[k]).address == pre[k].address by {}
                }
                return ;
            }
            i = i + 1;
        }
        let ghost pre = self@;
        let ghost ev = entry@;
        self.entries.push(entry);
        proof {
            assert(self@ =~= pre.push(ev));
            assert(self@.take(pre.len() as int) =~= pre);
            assert(self@.last() == ev);
            lemma_get_wallet_append(pre, self@);
        }
    }

    /// All stored addresses, in storage order.
    pub fn get_all_addresses(&self) -> (r: Vec<String>)
        ensures
            r@.len() == self@.len(),
            forall|i: int| 0 <= i < r@.len() ==> (#[trigger] r@[i])@ == self@[i].address,
    {
        let mut out: Vec<String> = Vec::new();
        let mut i: usize = 0;
        while i < self.entries.len()
            invariant
                i <= self@.len(),
                out@.len() == i,
                forall|k: int| 0 <= k < i ==> (#[trigger] out@[k])@ == self@[k].address,
            decreases self@.len() - i,
        {
            out.push(self.entries[i].address.clone());
            i = i + 1;
        }
        out
    }

    /// The wallet stored under an address, if any.
    pub fn get_wallet(&self, address: &str) -> (r: Option<&Wallet>)
        ensures
            match r {
                Some(w) => spec_get_wallet(self@, address@) == Some(w@),
                None => spec_get_wallet(self@, address@) is None,
            },
    {
        let needle = String::from_str(address);
        let mut i: usize = 0;
        while i < self.entries.len()
            invariant
                i <= self@.len(),
                needle@ == address@,
                forall|k: int| 0 <= k < i ==> (#[trigger] self@[k]).address != address@,
            decreases self@.len() - i,
        {
            if string_eq(&self.entries[i].address, &needle) {
                proof {
                    lemma_get_wallet_found(self@, i as int, address@);
                }
                return Some(&self.entries[i].wallet);
            }
            i = i + 1;
        }
        proof {
            lemma_get_wallet_none(self@, address@);
        }
        None
    }

    /// All entries, for persisting the collection.
    pub fn entries(&self) -> (r: &Vec<WalletEntry>)
        ensures
            r.deep_view() == self@,
    {
        &self.entries
    }

    /// Rebuilds the collection from stored entries, refusing duplicates or
    /// addresses that are not ASCII text.
    pub fn from_entries(entries: Vec<WalletEntry>) -> (r: Result<Wallets, BcError>)
        ensures
            match r {
                Ok(w) => w@ == entries.deep_view() && w.wf(),
                Err(e) => e == BcError::SerializationFailure && !entries_loadable(
                    entries.deep_view(),
                ),
            },
    {
        let mut i: usize = 0;
        while i < entries.len()
            invariant
                i <= entries@.len(),
                forall|k: int, l: int|
                    0 <= k < l < i ==> (#[trigger] entries.deep_view()[k]).address != (
                    #[trigger] entries.deep_view()[l]).address,
                forall|k: int|
                    0 <= k < i ==> ascii_chars((#[trigger] entries.deep_view()[k]).address),
            decreases entries@.len() - i,
        {
            proof {
                assert(entries.deep_view()[i as int] == entries@[i as int]@);
            }
            if !entries[i].address.as_str().is_ascii() {
                proof {
                    let a = entries.deep_view()[i as int].address;
                    if ascii_chars(a) {
                        crate::codec::lemma_ascii_chars_is_ascii(a);
                    }
                }
                return Err(BcError::SerializationFailure);
            }
            proof {
                let a = entries.deep_view()[i as int].address;
                assert forall|k: int| 0 <= k < a.len() implies (#[trigger] a[k] as u32) < 128 by {
                    crate::codec::lemma_char_in_ascii(a[k]);
                }
            }
            let mut j: usize = 0;
            while j < i
                invariant
                    j <= i < entries@.len(),
                    forall|k: int|
                        0 <= k < j ==> (#[trigger] entries.deep_view()[k]).address
                            != entries.deep_view()[i as int].address,
                decreases i - j,
            {
                proof {
                    assert(entries.deep_view()[j as int] == entries@[j as int]@);
                    assert(entries.deep_view()[i as int] == entries@[i as int]@);
                }
                if string_eq(&entries[j].address, &entries[i].address) {
                    proof {
                        assert(!addresses_unique(entries.deep_view()));
                    }
                    return Err(BcError::SerializationFailure);
                }
                j = j + 1;
            }
            proof {
                assert(ascii_chars(entries.deep_view()[i as int].address));
            }
            i = i + 1;
        }
        Ok(Wallets { entries })
    }
}

/// Compares two strings by value.
fn string_eq(a: &String, b: &String) -> (r: bool)
    ensures
        r == (a@ == b@),
{
    a.eq(b)
}

proof fn lemma_get_wallet_found(entries: Seq<WalletEntryV>, i: int, address: Seq<char>)
    requires
        0 <= i < entries.len(),
        entries[i].address == address,
        forall|k: int| 0 <= k < i ==> (#[trigger] entries[k]).address != address,
    ensures
        spec_get_wallet(entries, address) == Some(entries[i].pkcs8),
    decreases i,
{
    if i > 0 {
        lemma_get_wallet_found(entries.drop_first(), i - 1, address);
    }
}

proof fn lemma_get_wallet_none(entries: Seq<WalletEntryV>, address: Seq<char>)
    requires
        forall|k: int| 0 <= k < entries.len() ==> (#[trigger] entries[k]).address != address,
    ensures
        spec_get_wallet(entries, address) is None,
    decreases entries.len(),
{
    if entries.len() > 0 {
        lemma_get_wallet_none(entries.drop_first(), address);
    }
}

proof fn lemma_get_wallet_update(pre: Seq<WalletEntryV>, post: Seq<WalletEntryV>, i: int)
    requires
        0 <= i < pre.len(),
        post == pre.update(i, post[i]),
        post.len() == pre.len(),
        pre[i].address == post[i].address,
        forall|k: int, l: int|
            0 <= k < l < pre.len() ==> (#[trigger] pre[k]).address != (#[trigger] pre[l]).address,
    ensures
        spec_get_wallet(post, post[i].address) == Some(post[i].pkcs8),
        forall|a: Seq<char>|
            a != post[i].address ==> #[trigger] spec_get_wallet(post, a) == spec_get_wallet(pre, a),
    decreases i,
{
    if i == 0 {
        assert forall|a: Seq<char>| a != post[0].address implies #[trigger] spec_get_wallet(post, a)
            == spec_get_wallet(pre, a) by {
            assert(post.drop_first() =~= pre.drop_first());
        }
    } else {
        assert(post[0] == pre[0]);
        assert(post.drop_first() =~= pre.drop_first().update(i - 1, post[i]));
        assert(post.drop_first()[i - 1] == post[i]);
        lemma_get_wallet_update(pre.drop_first(), post.drop_first(), i - 1);
        assert(spec_get_wallet(post, post[i].address) == Some(post[i].pkcs8)) by {
            assert(pre[0].address != pre[i].address);
        }
        assert forall|a: Seq<char>| a != post[i].address implies #[trigger] spec_get_wallet(post, a)
            == spec_get_wallet(pre, a) by {
            assert(spec_get_wallet(post.drop_first(), a) == spec_get_wallet(pre.drop_first(), a));
        }
    }
}

proof fn lemma_get_wallet_append(pre: Seq<WalletEntryV>, post: Seq<WalletEntryV>)
    requires
        post.len() == pre.len() + 1,
        post.take(pre.len() as int) == pre,
        forall|k: int| 0 <= k < pre.len() ==> (#[trigger] pre[k]).address != post.last().address,
    ensures
        spec_get_wallet(post, post.last().address) == Some(post.last().pkcs8),
        forall|a: Seq<char>|
            a != post.last().address ==> #[trigger] spec_get_wallet(post, a) == spec_get_wallet(
                pre,
                a,
            ),
    decreases pre.len(),
{
    if pre.len() == 0 {
        assert forall|a: Seq<char>| a != post.last().address implies #[trigger] spec_get_wallet(
            post,
            a,
        ) == spec_get_wallet(pre, a) by {
            assert(spec_get_wallet(post.drop_first(), a) is None) by {
                assert(post.drop_first().len() == 0);
            }
        }
    } else {
        assert(post[0] == pre[0]);
        assert(post.drop_first().take(pre.len() - 1) =~= pre.drop_first());
        assert(post.drop_first().last() == post.last());
        lemma_get_wallet_append(pre.drop_first(), post.drop_first());
        assert(pre[0].address != post.last().address);
        assert forall|a: Seq<char>| a != post.last().address implies #[trigger] spec_get_wallet(
            post,
            a,
        ) == spec_get_wallet(pre, a) by {
            assert(spec_get_wallet(post.drop_first(), a) == spec_get_wallet(pre.drop_first(), a));
        }
    }
}


// ---------------------------------------------------------------------------
// Persisting the wallet collection.
// ---------------------------------------------------------------------------
/// The encoding of one stored wallet: its address, then its key material.
pub open spec fn ser_wallet_entry(e: WalletEntryV) -> Seq<u8> {
    ser_string(e.address) + len_prefixed(e.pkcs8)
}

/// The concatenated encodings of stored wallets.
pub open spec fn cat_wallet_entries(s: Seq<WalletEntryV>) -> Seq<u8>
    decreases s.len(),
{
    if s.len() == 0 {
        Seq::empty()
    } else {
        cat_wallet_entries(s.drop_last()) + ser_wallet_entry(s.last())
    }
}

/// The encoding of the whole collection: the count, then the entries.
pub open spec fn ser_wallets(s: Seq<WalletEntryV>) -> Seq<u8> {
    u64_le(s.len() as u64) + cat_wallet_entries(s)
}

/// Parses one stored wallet.
pub open spec fn sp_wallet_entry(s: Seq<u8>) -> Option<(WalletEntryV, Seq<u8>)> {
    match sp_string(s) {
        Option::None => Option::None,
        Option::Some((address, s1)) => match sp_bytes(s1) {
            Option::None => Option::None,
            Option::Some((pkcs8, s2)) => Option::Some((WalletEntryV { address, pkcs8 }, s2)),
        },
    }
}

/// Parses `n` stored wallets.
pub open spec fn sp_wallet_entries(s: Seq<u8>, n: int) -> Option<(Seq<WalletEntryV>, Seq<u8>)>
    decreases n,
{
    if n <= 0 {
        Option::Some((Seq::empty(), s))
    } else {
        match sp_wallet_entry(s) {
            Option::None => Option::None,
            Option::Some((v, s1)) => match sp_wallet_entries(s1, n - 1) {
                Option::None => Option::None,
                Option::Some((vs, s2)) => Option::Some((seq![v] + vs, s2)),
            },
        }
    }
}

/// Parses the whole collection.
pub open spec fn sp_wallets(s: Seq<u8>) -> Option<(Seq<WalletEntryV>, Seq<u8>)> {
    match sp_u64(s) {
        Option::None => Option::None,
        Option::Some((n, s1)) => sp_wallet_entries(s1, n as int),
    }
}

/// No two stored wallets share an address.
pub open spec fn addresses_unique(s: Seq<WalletEntryV>) -> bool {
    forall|i: int, j: int|
        0 <= i < j < s.len() ==> (#[trigger] s[i]).address != (#[trigger] s[j]).address
}

/// What a rebuilt collection accepts: distinct addresses, all ASCII text.
pub open spec fn entries_loadable(s: Seq<WalletEntryV>) -> bool {
    addresses_unique(s) && forall|i: int|
        0 <= i < s.len() ==> ascii_chars((#[trigger] s[i]).address)
}

impl Wallets {
    /// The encoding of the collection, as written to the wallet file.
    pub fn to_bytes(&self) -> (r: Vec<u8>)
        requires
            self.wf(),
        ensures
            r@ == ser_wallets(self@),
    {
        let mut out: Vec<u8> = Vec::new();
        push_u64_le(&mut out, self.entries.len() as u64);
        let ghost base = out@;
        let ghost ev = self@;
        let n = self.entries.len();
        let mut i: usize = 0;
        proof {
            assert(out@ =~= base + cat_wallet_entries(ev.take(0)));
        }
        while i < n
            invariant
                i <= n,
                n == ev.len(),
                ev == self@,
                self.wf(),
                out@ == base + cat_wallet_entries(ev.take(i as int)),
            decreases n - i,
        {
            proof {
                assert(ev[i as int] == self.entries@[i as int]@);
                assert(ascii_chars(ev[i as int].address));
            }
            push_string(&mut out, self.entries[i].address.as_str());
            push_len_bytes(&mut out, self.entries[i].wallet.pkcs8_bytes().as_slice());
            i = i + 1;
            proof {
                assert(ev.take(i as int).drop_last() =~= ev.take(i - 1));
                assert(ev.take(i as int).last() == ev[i - 1]);
                assert(out@ =~= base + cat_wallet_entries(ev.take(i as int)));
            }
        }
        proof {
            assert(ev.take(n as int) =~= ev);
        }
        out
    }

    /// Rebuilds the collection from the wallet file's bytes: succeeds when
    /// they are one whole encoding of wallets with distinct addresses.
    pub fn from_bytes(data: &Vec<u8>) -> (r: Result<Wallets, BcError>)
        ensures
            match r {
                Ok(w) => sp_wallets(data@) == Some((w@, Seq::<u8>::empty())) && w.wf(),
                Err(e) => e == BcError::SerializationFailure && (match sp_wallets(data@) {
                    Option::Some((vs, rest)) => rest.len() != 0 || !entries_loadable(vs),
                    Option::None => true,
                }),
            },
    {
        let mut pos: usize = 0;
        proof {
            assert(rem(data@, 0) =~= data@);
        }
        let n = match read_u64_le(data, &mut pos) {
            Some(v) => v,
            None => {
                return Err(BcError::SerializationFailure);
            },
        };
        let ghost rem1 = rem(data@, pos as int);
        proof {
            assert(sp_u64(data@) == Some((n, rem1)));
        }
        let mut entries: Vec<WalletEntry> = Vec::new();
        let mut k: u64 = 0;
        proof {
            match sp_wallet_entries(rem1, n as int) {
                Option::Some((vs, r)) => {
                    assert(entries.deep_view() + vs =~= vs);
                },
                Option::None => {},
            }
        }
        while k < n
            invariant
                k <= n,
                pos <= data@.len(),
                sp_u64(data@) == Some((n, rem1)),
                match sp_wallet_entries(rem(data@, pos as int), (n - k) as int) {
                    Option::Some((vs, r)) => sp_wallet_entries(rem1, n as int) == Some(
                        (entries.deep_view() + vs, r),
                    ),
                    Option::None => sp_wallet_entries(rem1, n as int) is None,
                },
            decreases n - k,
        {
            let ghost pre_rem = rem(data@, pos as int);
            let ghost pre_out = entries.deep_view();
            let address = match read_string(data, &mut pos) {
                Some(s) => s,
                None => {
                    proof {
                        assert(sp_wallet_entry(pre_rem) is None);
                        assert(sp_wallet_entries(pre_rem, (n - k) as int) is None);
                        assert(sp_wallets(data@) is None);
                    }
                    return Err(BcError::SerializationFailure);
                },
            };
            let pkcs8 = match read_len_bytes(data, &mut pos) {
                Some(b) => b,
                None => {
                    proof {
                        assert(sp_wallet_entry(pre_rem) is None);
                        assert(sp_wallet_entries(pre_rem, (n - k) as int) is None);
                        assert(sp_wallets(data@) is None);
                    }
                    return Err(BcError::SerializationFailure);
                },
            };
            let entry = WalletEntry { address, wallet: Wallet::from_pkcs8(pkcs8) };
            entries.push(entry);
            k = k + 1;
            proof {
                assert(entries.deep_view() =~= pre_out.push(entries@[entries@.len() - 1]@));
                match sp_wallet_entries(rem(data@, pos as int), (n - k) as int) {
                    Option::Some((vs, r)) => {
                        assert(sp_wallet_entries(pre_rem, (n - k + 1) as int) == Some(
                            (seq![entries@[entries@.len() - 1]@] + vs, r),
                        ));
                        assert(pre_out + (seq![entries@[entries@.len() - 1]@] + vs)
                            =~= entries.deep_view() + vs);
                    },
                    Option::None => {},
                }
            }
        }
        proof {
            assert(sp_wallet_entries(rem(data@, pos as int), 0) == Some(
                (Seq::<WalletEntryV>::empty(), rem(data@, pos as int)),
            ));
            assert(entries.deep_view() + Seq::<WalletEntryV>::empty() =~= entries.deep_view());
            assert(sp_wallets(data@) == Some((entries.deep_view(), rem(data@, pos as int))));
        }
        if pos != data.len() {
            proof {
                assert(rem(data@, pos as int).len() > 0);
            }
            return Err(BcError::SerializationFailure);
        }
        proof {
            assert(rem(data@, pos as int) =~= Seq::<u8>::empty());
        }
        match Wallets::from_entries(entries) {
            Ok(w) => Ok(w),
            Err(e) => Err(e),
        }
    }
}

} // verus!
