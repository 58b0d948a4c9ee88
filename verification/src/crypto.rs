//! Hash, randomness, clock and signature primitives. Each executable function
//! here wraps one call into an outside crate (or std) and carries the contract
//! that the rest of the library is verified against.
use vstd::prelude::*;

use ring::rand::SecureRandom;
use ring::signature::KeyPair;
use ripemd::Digest as RipemdDigest;
use sha2::Digest as Sha2Digest;

verus! {

/// The SHA-256 digest of a byte sequence (32 bytes).
pub uninterp spec fn sha256_of(data: Seq<u8>) -> Seq<u8>;

/// The RIPEMD-160 digest of a byte sequence (20 bytes).
pub uninterp spec fn ripemd160_of(data: Seq<u8>) -> Seq<u8>;

/// The Ed25519 public key held in a PKCS#8 v2 document, or `None` if the
/// bytes are not such a document.
pub uninterp spec fn ed25519_pub_of(pkcs8: Seq<u8>) -> Option<Seq<u8>>;

/// The Ed25519 signature (64 bytes) of a message under the key pair held in
/// a PKCS#8 document. Ed25519 signing is deterministic, so the signature is
/// a function of the document and the message alone.
pub uninterp spec fn ed25519_sig_of(pkcs8: Seq<u8>, msg: Seq<u8>) -> Seq<u8>;

/// Relies on `sha2::Sha256::digest`: the SHA-256 digest, always 32 bytes.
#[verifier::external_body]
pub(crate) fn sha256(data: &[u8]) -> (r: Vec<u8>)
    ensures
        r@ == sha256_of(data@),
        r@.len() == 32,
{
    sha2::Sha256::digest(data).to_vec()
}

/// Relies on `ripemd::Ripemd160::digest`: the RIPEMD-160 digest, always 20
/// bytes.
#[verifier::external_body]
pub(crate) fn ripemd160(data: &[u8]) -> (r: Vec<u8>)
    ensures
        r@ == ripemd160_of(data@),
        r@.len() == 20,
{
    ripemd::Ripemd160::digest(data).to_vec()
}

/// Relies on `ring::rand::SystemRandom::fill`: 32 bytes from the system's
/// entropy source, or `None` when that source fails. Nothing is promised of
/// the values.
#[verifier::external_body]
pub(crate) fn random_32_bytes() -> (r: Option<Vec<u8>>)
    ensures
        match r {
            Some(b) => b@.len() == 32,
            None => true,
        },
{
    let rng = ring::rand::SystemRandom::new();
    let mut buf = [0u8; 32];
    rng.fill(&mut buf).ok().map(|_| buf.to_vec())
}

/// Relies on `std::time::SystemTime`: the milliseconds since the Unix epoch,
/// or `None` if the clock reads earlier than the epoch. Nothing is promised
/// of the value.
#[verifier::external_body]
pub(crate) fn now_millis() -> (r: Option<u128>)
{
    std::time::SystemTime::now().duration_since(std::time::UNIX_EPOCH).ok().map(|d| d.as_millis())
}

/// Relies on `ring::signature::Ed25519KeyPair::generate_pkcs8` with
/// `ring::rand::SystemRandom`: a freshly generated PKCS#8 v2 document holds a
/// valid Ed25519 key pair. `None` when the system's entropy source fails.
#[verifier::external_body]
pub(crate) fn generate_pkcs8() -> (r: Option<Vec<u8>>)
    ensures
        match r {
            Some(doc) => ed25519_pub_of(doc@) is Some,
            None => true,
        },
{
    let rng = ring::rand::SystemRandom::new();
    ring::signature::Ed25519KeyPair::generate_pkcs8(&rng).ok().map(|doc| doc.as_ref().to_vec())
}

/// Relies on `ring::signature::Ed25519KeyPair::from_pkcs8` and
/// `public_key`: the 32-byte public key of the document's key pair, or
/// `None` exactly when the document is rejected.
#[verifier::external_body]
pub(crate) fn pkcs8_public_key(pkcs8: &[u8]) -> (r: Option<Vec<u8>>)
    ensures
        match r {
            Some(pk) => ed25519_pub_of(pkcs8@) == Some(pk@) && pk@.len() == 32,
            None => ed25519_pub_of(pkcs8@) is None,
        },
{
    ring::signature::Ed25519KeyPair::from_pkcs8(pkcs8).ok().map(
        |kp| kp.public_key().as_ref().to_vec(),
    )
}

/// Relies on `ring::signature::Ed25519KeyPair::sign`: the deterministic
/// 64-byte Ed25519 signature of the message under the document's key pair.
#[verifier::external_body]
pub(crate) fn sign_with_pkcs8(pkcs8: &[u8], msg: &[u8]) -> (r: Vec<u8>)
    requires
        ed25519_pub_of(pkcs8@) is Some,
    ensures
        r@ == ed25519_sig_of(pkcs8@, msg@),
        r@.len() == 64,
{
    let kp = ring::signature::Ed25519KeyPair::from_pkcs8(pkcs8).unwrap();
    kp.sign(msg).as_ref().to_vec()
}

} // verus!
