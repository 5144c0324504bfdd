//! Transfers between two balance accounts of the same mint.

use vstd::prelude::*;

use crate::account::{keys_equal, write_record, written, Account, AccountModel, Key};
use crate::error::{
    LedgerError, BALANCE_MINT_MISMATCH, BALANCE_NOT_PROGRAM_OWNED, BALANCE_OWNER_MISMATCH, MINT_NOT_PROGRAM_OWNED,
    RECEIVER_MINT_MISMATCH, RECEIVER_NOT_PROGRAM_OWNED,
};
use crate::codec::read_u64;
use crate::mint::{credited, parse_amount, TokenMintDetails};
use crate::mint_layout::parse_mint;
use crate::token_account::{balance_bytes, lemma_parse_written_balance, parse_balance, TokenBalance};

verus! {

/// A request to move `amount` units.
#[derive(Debug, Clone, Copy, PartialEq, Eq, Structural)]
pub struct TransferInput {
    pub amount: u64,
}

impl TransferInput {
    pub fn new(amount: u64) -> (r: Self)
        ensures
            r.amount == amount,
    {
        TransferInput { amount }
    }

    /// Reads a request that is exactly one amount.
    pub fn from_bytes(data: &[u8]) -> (r: Option<TransferInput>)
        ensures
            match r {
                Some(i) => parse_amount(data@) == Some(i.amount),
                None => parse_amount(data@) is None,
            },
    {
        if data.len() != 8 {
            return None;
        }
        Some(TransferInput { amount: read_u64(data, 0) })
    }
}

/// A balance with `amount` taken away.
pub open spec fn debited(b: TokenBalance, amount: u64) -> TokenBalance {
    TokenBalance { current_balance: (b.current_balance - amount) as u64, ..b }
}

/// What a transfer decides, check by check in order: the new sender and
/// receiver records, or the first refusal.
pub open spec fn transfer_outcome(
    owner_account: AccountModel,
    mint_account: AccountModel,
    sender_account: AccountModel,
    receiver_account: AccountModel,
    program_id: Seq<u8>,
    amount: u64,
) -> Result<(TokenBalance, TokenBalance), LedgerError> {
    match parse_balance(sender_account.data) {
        None => Err(LedgerError::InvalidAccountData),
        Some(sb) => if sender_account.owner != program_id {
            Err(LedgerError::Custom(BALANCE_NOT_PROGRAM_OWNED))
        } else if sb.mint_account@ != mint_account.key {
            Err(LedgerError::Custom(BALANCE_MINT_MISMATCH))
        } else if sb.owner@ != owner_account.key {
            Err(LedgerError::Custom(BALANCE_OWNER_MISMATCH))
        } else if receiver_account.key == sender_account.key {
            Err(LedgerError::AccountBorrowFailed)
        } else {
            match parse_balance(receiver_account.data) {
                None => Err(LedgerError::InvalidAccountData),
                Some(rb) => if receiver_account.owner != program_id {
                    Err(LedgerError::Custom(RECEIVER_NOT_PROGRAM_OWNED))
                } else if rb.mint_account@ != mint_account.key {
                    Err(LedgerError::Custom(RECEIVER_MINT_MISMATCH))
                } else if mint_account.key == sender_account.key || mint_account.key == receiver_account.key {
                    Err(LedgerError::AccountBorrowFailed)
                } else {
                    match parse_mint(mint_account.data) {
                        None => Err(LedgerError::InvalidAccountData),
                        Some(m) => if mint_account.owner != program_id {
                            Err(LedgerError::Custom(MINT_NOT_PROGRAM_OWNED))
                        } else if !owner_account.is_signer {
                            Err(LedgerError::MissingRequiredSignature)
                        } else if amount > sb.current_balance {
                            Err(LedgerError::InsufficientFunds)
                        } else if rb.current_balance + amount > u64::MAX {
                            Err(LedgerError::ArithmeticOverflow)
                        } else {
                            Ok((debited(sb, amount), credited(rb, amount)))
                        },
                    }
                },
            }
        },
    }
}

/// Moves `transfer_input.amount` units from the sender's balance to the
/// receiver's, both counted in the given mint and the sender's holder signing.
/// The sender is debited before the receiver is credited, and nothing is
/// written unless both succeed.
pub fn transfer_tokens(
    owner_account: &Account,
    mint_account: &Account,
    sender_account: &mut Account,
    receiver_account: &mut Account,
    program_id: &Key,
    transfer_input: TransferInput,
) -> (r: Result<(), LedgerError>)
    ensures
        match transfer_outcome(
            owner_account@,
            mint_account@,
            old(sender_account)@,
            old(receiver_account)@,
            program_id@,
            transfer_input.amount,
        ) {
            Ok((s, v)) => {
                &&& r is Ok
                &&& final(sender_account)@ == old(sender_account)@.with_data(
                    written(old(sender_account)@.data, balance_bytes(s)),
                )
                &&& final(receiver_account)@ == old(receiver_account)@.with_data(
                    written(old(receiver_account)@.data, balance_bytes(v)),
                )
                &&& parse_balance(final(sender_account)@.data) == Some(s)
                &&& parse_balance(final(receiver_account)@.data) == Some(v)
            },
            Err(e) => {
                &&& r == Err::<(), LedgerError>(e)
                &&& final(sender_account)@ == old(sender_account)@
                &&& final(receiver_account)@ == old(receiver_account)@
            },
        },
{
    let amount = transfer_input.amount;
    let mut sender_balance = match TokenBalance::from_bytes(sender_account.data.as_slice()) {
        Some(b) => b,
        None => return Err(LedgerError::InvalidAccountData),
    };
    if !keys_equal(&sender_account.owner, program_id) {
        return Err(LedgerError::Custom(BALANCE_NOT_PROGRAM_OWNED));
    }
    if !keys_equal(&sender_balance.mint_account, &mint_account.key) {
        return Err(LedgerError::Custom(BALANCE_MINT_MISMATCH));
    }
    if !keys_equal(&sender_balance.owner, &owner_account.key) {
        return Err(LedgerError::Custom(BALANCE_OWNER_MISMATCH));
    }
    if keys_equal(&receiver_account.key, &sender_account.key) {
        return Err(LedgerError::AccountBorrowFailed);
    }
    let mut receiver_balance = match TokenBalance::from_bytes(receiver_account.data.as_slice()) {
        Some(b) => b,
        None => return Err(LedgerError::InvalidAccountData),
    };
    if !keys_equal(&receiver_account.owner, program_id) {
        return Err(LedgerError::Custom(RECEIVER_NOT_PROGRAM_OWNED));
    }
    if !keys_equal(&receiver_balance.mint_account, &mint_account.key) {
        return Err(LedgerError::Custom(RECEIVER_MINT_MISMATCH));
    }
    if keys_equal(&mint_account.key, &sender_account.key) || keys_equal(&mint_account.key, &receiver_account.key) {
        return Err(LedgerError::AccountBorrowFailed);
    }
    let mint_details = match TokenMintDetails::from_bytes(mint_account.data.as_slice()) {
        Some(d) => d,
        None => return Err(LedgerError::InvalidAccountData),
    };
    if !keys_equal(&mint_account.owner, program_id) {
        return Err(LedgerError::Custom(MINT_NOT_PROGRAM_OWNED));
    }
    if !owner_account.is_signer {
        return Err(LedgerError::MissingRequiredSignature);
    }
    let ghost sb = sender_balance;
    let ghost rb = receiver_balance;
    match sender_balance.decrease_balance(amount, &mint_details) {
        Ok(()) => {},
        Err(e) => return Err(e),
    }
    match receiver_balance.increase_balance(amount, &mint_details) {
        Ok(()) => {},
        Err(e) => return Err(e),
    }
    assert(sender_balance == debited(sb, amount));
    assert(receiver_balance == credited(rb, amount));
    let new_sender_bytes = sender_balance.to_bytes();
    let new_receiver_bytes = receiver_balance.to_bytes();
    write_record(&mut receiver_account.data, &new_receiver_bytes);
    write_record(&mut sender_account.data, &new_sender_bytes);
    proof {
        lemma_parse_written_balance(old(sender_account)@.data, sender_balance);
        lemma_parse_written_balance(old(receiver_account)@.data, receiver_balance);
    }
    Ok(())
}

} // verus!
