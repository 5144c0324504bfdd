//! An account-based fungible-token ledger: mints with a fixed supply, per-owner
//! balance records, minting into balances and transfers between them, all over
//! byte buffers of accounts handed in by the caller.

pub mod account;
pub mod codec;
pub mod error;
pub mod mint;
pub mod mint_layout;
pub mod token_account;
pub mod transfer;
pub mod instruction;
pub mod laws;
pub mod pool;
