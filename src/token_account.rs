//! The balance ledger: one record per holder and mint, with the holder's
//! current balance.

use vstd::bytes::*;
use vstd::prelude::*;

use crate::account::{keys_equal, write_record, written, Account, AccountModel, Key};
use crate::codec::{push_key, push_u64, read_key, read_u64};
use crate::error::LedgerError;
use crate::mint::TokenMintDetails;

verus! {

/// The record of one holder's balance in one mint.
#[derive(Debug, Clone, Copy, PartialEq, Eq)]
pub struct TokenBalance {
    /// The holder.
    pub owner: Key,
    /// The mint the balance is counted in.
    pub mint_account: Key,
    /// The balance, in the smallest unit.
    pub current_balance: u64,
}

/// Length of an encoded balance record.
pub const BALANCE_LEN: usize = 72;

/// A balance record's bytes: holder, mint, then the balance little-endian.
pub open spec fn balance_record_bytes(owner: Seq<u8>, mint_account: Seq<u8>, current_balance: u64) -> Seq<u8> {
    owner + mint_account + spec_u64_to_le_bytes(current_balance)
}

/// The bytes of a balance record.
pub open spec fn balance_bytes(b: TokenBalance) -> Seq<u8> {
    balance_record_bytes(b.owner@, b.mint_account@, b.current_balance)
}

/// Two records with the same bytes are the same record.
pub proof fn lemma_balance_bytes_injective(a: TokenBalance, b: TokenBalance)
    requires
        balance_bytes(a) == balance_bytes(b),
    ensures
        a == b,
{
    lemma_auto_spec_u64_to_from_le_bytes();
    let sa = balance_bytes(a);
    let sb = balance_bytes(b);
    assert(a.owner@ =~= sa.subrange(0, 32));
    assert(b.owner@ =~= sb.subrange(0, 32));
    assert(a.mint_account@ =~= sa.subrange(32, 64));
    assert(b.mint_account@ =~= sb.subrange(32, 64));
    assert(spec_u64_to_le_bytes(a.current_balance) =~= sa.subrange(64, 72));
    assert(spec_u64_to_le_bytes(b.current_balance) =~= sb.subrange(64, 72));
    assert(a.owner =~= b.owner);
    assert(a.mint_account =~= b.mint_account);
}

impl TokenBalance {
    /// A zero balance of `mint_account` held by `owner`.
    pub fn new(owner: Key, mint_account: Key) -> (r: Self)
        ensures
            r.owner == owner,
            r.mint_account == mint_account,
            r.current_balance == 0,
    {
        TokenBalance { owner, mint_account, current_balance: 0 }
    }

    /// Adds `amount`; refuses, changing nothing, where the sum would not fit.
    pub fn increase_balance(&mut self, amount: u64, token_mint_details: &TokenMintDetails) -> (r: Result<(), LedgerError>)
        ensures
            old(self).current_balance + amount <= u64::MAX ==> r is Ok && final(self).current_balance == old(self).current_balance + amount,
            old(self).current_balance + amount > u64::MAX ==> r == Err::<(), LedgerError>(LedgerError::ArithmeticOverflow) && final(self).current_balance == old(self).current_balance,
            final(self).owner == old(self).owner,
            final(self).mint_account == old(self).mint_account,
    {
        match self.current_balance.checked_add(amount) {
            Some(v) => {
                self.current_balance = v;
                Ok(())
            },
            None => Err(LedgerError::ArithmeticOverflow),
        }
    }

    /// Takes `amount` away; refuses, changing nothing, where the balance is
    /// smaller than `amount`.
    pub fn decrease_balance(&mut self, amount: u64, token_mint_details: &TokenMintDetails) -> (r: Result<(), LedgerError>)
        ensures
            amount <= old(self).current_balance ==> r is Ok && final(self).current_balance == old(self).current_balance - amount,
            amount > old(self).current_balance ==> r == Err::<(), LedgerError>(LedgerError::InsufficientFunds) && final(self).current_balance == old(self).current_balance,
            final(self).owner == old(self).owner,
            final(self).mint_account == old(self).mint_account,
    {
        if self.current_balance < amount {
            return Err(LedgerError::InsufficientFunds);
        }
        self.current_balance = self.current_balance - amount;
        Ok(())
    }

    /// The record's bytes.
    pub fn to_bytes(&self) -> (r: Vec<u8>)
        ensures
            r@ == balance_bytes(*self),
            r@.len() == BALANCE_LEN,
    {
        proof {
            lemma_auto_spec_u64_to_from_le_bytes();
        }
        let mut out: Vec<u8> = Vec::new();
        push_key(&mut out, &self.owner);
        push_key(&mut out, &self.mint_account);
        push_u64(&mut out, self.current_balance);
        assert(out@ =~= balance_bytes(*self));
        out
    }

    /// Reads a record from the start of `data`; bytes after it are ignored.
    pub fn from_bytes(data: &[u8]) -> (r: Option<TokenBalance>)
        ensures
            r == parse_balance(data@),
            r is Some <==> data@.len() >= BALANCE_LEN,
            r matches Some(b) ==> balance_bytes(b) == data@.subrange(0, BALANCE_LEN as int),
    {
        if data.len() < BALANCE_LEN {
            return None;
        }
        let owner = read_key(data, 0);
        let mint_account = read_key(data, 32);
        let current_balance = read_u64(data, 64);
        let b = TokenBalance { owner, mint_account, current_balance };
        proof {
            lemma_auto_spec_u64_to_from_le_bytes();
            assert(data@.subrange(64, 72).len() == 8);
            assert(balance_bytes(b) =~= data@.subrange(0, 72));
            let c = choose|c: TokenBalance| balance_bytes(c) == data@.subrange(0, BALANCE_LEN as int);
            lemma_balance_bytes_injective(c, b);
        }
        Some(b)
    }
}

/// The balance record at the start of `s`, if `s` is long enough to hold one.
pub open spec fn parse_balance(s: Seq<u8>) -> Option<TokenBalance> {
    if s.len() >= BALANCE_LEN {
        Some(choose|b: TokenBalance| balance_bytes(b) == s.subrange(0, BALANCE_LEN as int))
    } else {
        None
    }
}

/// A record written at the start of a buffer reads back.
pub proof fn lemma_parse_written_balance(buffer: Seq<u8>, b: TokenBalance)
    ensures
        parse_balance(written(buffer, balance_bytes(b))) == Some(b),
{
    lemma_auto_spec_u64_to_from_le_bytes();
    let s = written(buffer, balance_bytes(b));
    assert(s.subrange(0, BALANCE_LEN as int) =~= balance_bytes(b));
    let c = choose|c: TokenBalance| balance_bytes(c) == s.subrange(0, BALANCE_LEN as int);
    lemma_balance_bytes_injective(c, b);
}

/// Which check, in order, refuses to set up a balance account, if any.
pub open spec fn balance_init_error(
    owner_account: AccountModel,
    mint_account: AccountModel,
    balance_account: AccountModel,
    program_id: Seq<u8>,
) -> Option<LedgerError> {
    if !owner_account.is_signer {
        Some(LedgerError::MissingRequiredSignature)
    } else if !mint_account.is_writable {
        Some(LedgerError::Immutable)
    } else if mint_account.owner != program_id {
        Some(LedgerError::IllegalOwner)
    } else if balance_account.data.len() != 0 || balance_account.is_executable {
        Some(LedgerError::AccountAlreadyInitialized)
    } else if balance_account.owner != program_id {
        Some(LedgerError::IllegalOwner)
    } else {
        None
    }
}

/// Sets up an empty, program-owned account as a zero balance of the mint,
/// held by the signing owner account.
pub fn initialize_balance_account(
    owner_account: &Account,
    mint_account: &Account,
    balance_account: &mut Account,
    program_id: &Key,
) -> (r: Result<(), LedgerError>)
    ensures
        r == match balance_init_error(owner_account@, mint_account@, old(balance_account)@, program_id@) {
            Some(e) => Err::<(), LedgerError>(e),
            None => Ok(()),
        },
        r is Err ==> final(balance_account)@ == old(balance_account)@,
        r is Ok ==> final(balance_account)@ == old(balance_account)@.with_data(
            balance_record_bytes(owner_account@.key, mint_account@.key, 0),
        ),
{
    if !owner_account.is_signer {
        return Err(LedgerError::MissingRequiredSignature);
    }
    if !mint_account.is_writable {
        return Err(LedgerError::Immutable);
    }
    if !keys_equal(&mint_account.owner, program_id) {
        return Err(LedgerError::IllegalOwner);
    }
    if balance_account.data.len() != 0 || balance_account.is_executable {
        return Err(LedgerError::AccountAlreadyInitialized);
    }
    if !keys_equal(&balance_account.owner, program_id) {
        return Err(LedgerError::IllegalOwner);
    }
    let token_balance = TokenBalance::new(owner_account.key, mint_account.key);
    let bytes = token_balance.to_bytes();
    write_record(&mut balance_account.data, &bytes);
    assert(balance_account.data@ =~= bytes@);
    Ok(())
}

} // verus!
