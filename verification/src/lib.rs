//! A minimal UTXO-style blockchain core: a hash-linked ledger of blocks,
//! defended by a proof-of-work rule and indexed by an unspent-output cache.
use vstd::prelude::*;

pub mod block;
pub mod blockchain;
pub mod codec;
pub mod crypto;
pub mod errors;
pub mod hex;
pub mod transaction;
pub mod utxoset;
pub mod wallets;

verus! {

/// Number of leading zero bits a block hash must have.
pub const TARGET_BITS: u32 = 16;

/// Coinbase reward minted by the first transaction of each block.
pub const SUBSIDY: i32 = 10;

} // verus!
