//! Requests of the liquidity-pool program that shares this crate's account
//! model.

use vstd::prelude::*;

verus! {

/// A liquidity-pool instruction.
#[derive(Debug)]
pub enum LiquidityPoolParams {
    /// Open a pool: its parameters, the caller's partially signed transaction,
    /// the outpoints that fund it, and those outpoints as raw 36-byte records.
    InitializePool((OpenPoolParams, Vec<u8>, OpenPoolUtxos, Vec<[u8; 36]>)),
    IncreaseLiquidity,
    DecreaseLiquidity,
    Swap,
}

/// How a pool is opened.
#[derive(Debug)]
pub struct OpenPoolParams {
    /// The initial balance of bitcoin in the pool, in satoshis.
    pub balance_sats: u64,
    /// The initial balance of runes in the pool.
    pub balance_rune: u64,
    /// The trading fee charged on swaps, in basis points.
    pub fee: Option<u8>,
    /// Name of the rune the pool holds.
    pub rune_name: String,
    /// Id of the rune the pool holds: block and transaction index.
    pub rune_id: (u64, u32),
}

impl Default for OpenPoolParams {
    fn default() -> (r: Self)
        ensures
            r.balance_sats == 0,
            r.balance_rune == 0,
            r.fee is None,
            r.rune_name@ == Seq::<char>::empty(),
            r.rune_id == (0u64, 0u32),
    {
        OpenPoolParams { balance_sats: 0, balance_rune: 0, fee: None, rune_name: String::new(), rune_id: (0, 0) }
    }
}

/// The outpoints that fund a new pool, as text.
#[derive(Debug, Clone)]
pub struct OpenPoolUtxos {
    pub btc_utxo: String,
    pub rune_utxo: String,
}

} // verus!
