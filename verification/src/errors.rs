//! Error kinds surfaced by the library. Every failure is reported to the
//! caller verbatim; there are no silent retries.
use vstd::prelude::*;

verus! {

/// The error kinds of the library.
#[derive(Debug, PartialEq, Eq, Structural)]
pub enum BcError {
    /// An input/output or environment failure (for example, no usable clock
    /// or no usable source of randomness).
    IoFailure,
    /// Data does not form an admissible serialised value.
    SerializationFailure,
    /// The chain store holds no chain yet.
    NotInitialised,
    /// A chain already exists where a new one was to be created.
    AlreadyExists,
    /// A block with the requested hash is not in the store.
    NotFound,
    /// A Base58Check address decodes to fewer bytes than version + checksum.
    InvalidAddressLength,
    /// A Base58Check address has a bad checksum or is not Base58 at all.
    InvalidAddressChecksum,
    /// The spendable outputs of the sender sum to less than the amount asked.
    InsufficientFunds { have: i32, need: i32 },
    /// A recomputed hash differs from the stored one.
    HashMismatch,
    /// A block hash does not satisfy its difficulty target.
    InvalidProofOfWork,
    /// A block does not reference the hash of its predecessor.
    PrevHashMismatch,
    /// A block's height is not one more than its predecessor's.
    HeightMismatch,
    /// A block's timestamp does not exceed its predecessor's.
    InvalidTimestamp,
    /// No wallet is stored under the given address.
    WalletNotFound,
}

impl BcError {
    /// A short human-readable name for the error kind.
    pub fn describe(&self) -> (r: &'static str)
        ensures
            r@.len() > 0,
    {
        proof {
            reveal_strlit("input/output failure");
            reveal_strlit("serialization failure");
            reveal_strlit("blockchain not found, create one first");
            reveal_strlit("blockchain already exists");
            reveal_strlit("block not found");
            reveal_strlit("invalid address length");
            reveal_strlit("invalid address checksum");
            reveal_strlit("insufficient balance");
            reveal_strlit("block hash mismatch");
            reveal_strlit("invalid proof-of-work");
            reveal_strlit("previous block hash mismatch");
            reveal_strlit("block height mismatch");
            reveal_strlit("invalid block timestamp");
            reveal_strlit("wallet not found");
        }
        match self {
            BcError::IoFailure => "input/output failure",
            BcError::SerializationFailure => "serialization failure",
            BcError::NotInitialised => "blockchain not found, create one first",
            BcError::AlreadyExists => "blockchain already exists",
            BcError::NotFound => "block not found",
            BcError::InvalidAddressLength => "invalid address length",
            BcError::InvalidAddressChecksum => "invalid address checksum",
            BcError::InsufficientFunds { .. } => "insufficient balance",
            BcError::HashMismatch => "block hash mismatch",
            BcError::InvalidProofOfWork => "invalid proof-of-work",
            BcError::PrevHashMismatch => "previous block hash mismatch",
            BcError::HeightMismatch => "block height mismatch",
            BcError::InvalidTimestamp => "invalid block timestamp",
            BcError::WalletNotFound => "wallet not found",
        }
    }
}

} // verus!
