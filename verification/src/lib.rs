//! A minimal hash-lock (preimage-reveal) transaction workflow for a
//! UTXO ledger: build a locking script that embeds the digest of a secret
//! preimage, derive the deposit address for that script, assemble a funding
//! transaction paying into it, and assemble a spending transaction that
//! reveals the preimage and splits the funded value into payout and change.

pub mod address;
pub mod codec;
pub mod errors;
pub mod hashes;
pub mod hexstr;
pub mod script;
pub mod tx;
