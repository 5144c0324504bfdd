//! The front door of the ledger: an opcode byte picks the operation, the rest
//! of the instruction is its request, and the accounts come in a fixed order.

use vstd::prelude::*;
use vstd::slice::slice_subrange;

use crate::account::{written, Account, AccountModel, Key};
use crate::error::{LedgerError, WRONG_ACCOUNT_COUNT};
use crate::mint::{
    initial_mint, initialize_mint, mint_init_error, mint_tokens, mint_tokens_outcome, parse_amount,
    parse_initialize_mint_input, InitializeMintInput, MintInput,
};
use crate::mint_layout::mint_bytes;
use crate::token_account::{balance_bytes, balance_init_error, balance_record_bytes, initialize_balance_account};
use crate::transfer::{transfer_outcome, transfer_tokens, TransferInput};

verus! {

/// Opcode: set up a mint. Accounts: the mint.
pub const OP_INITIALIZE_MINT: u8 = 0;

/// Opcode: set up a balance account. Accounts: holder, mint, balance.
pub const OP_INITIALIZE_BALANCE: u8 = 1;

/// Opcode: mint into a balance. Accounts: mint, balance, holder.
pub const OP_MINT: u8 = 2;

/// Opcode: transfer between balances. Accounts: holder, mint, sender, receiver.
pub const OP_TRANSFER: u8 = 3;

/// The accounts as mathematical values.
pub open spec fn accounts_view(accounts: Seq<Account>) -> Seq<AccountModel> {
    accounts.map_values(|a: Account| a@)
}

/// What an instruction does to the accounts handed in with it, or why it is
/// refused. The number of accounts is checked before the request is read.
pub open spec fn instruction_outcome(program_id: Seq<u8>, a: Seq<AccountModel>, data: Seq<u8>) -> Result<
    Seq<AccountModel>,
    LedgerError,
> {
    if data.len() == 0 {
        Err(LedgerError::InvalidArgument)
    } else {
        let payload = data.subrange(1, data.len() as int);
        if data[0] == OP_INITIALIZE_MINT {
            if a.len() != 1 {
                Err(LedgerError::Custom(WRONG_ACCOUNT_COUNT))
            } else {
                match parse_initialize_mint_input(payload) {
                    None => Err(LedgerError::InvalidArgument),
                    Some(input) => match mint_init_error(a[0], program_id, input) {
                        Some(e) => Err(e),
                        None => Ok(seq![a[0].with_data(mint_bytes(initial_mint(input)))]),
                    },
                }
            }
        } else if data[0] == OP_INITIALIZE_BALANCE {
            if a.len() != 3 {
                Err(LedgerError::Custom(WRONG_ACCOUNT_COUNT))
            } else {
                match balance_init_error(a[0], a[1], a[2], program_id) {
                    Some(e) => Err(e),
                    None => Ok(seq![a[0], a[1], a[2].with_data(balance_record_bytes(a[0].key, a[1].key, 0))]),
                }
            }
        } else if data[0] == OP_MINT {
            if a.len() != 3 {
                Err(LedgerError::Custom(WRONG_ACCOUNT_COUNT))
            } else {
                match parse_amount(payload) {
                    None => Err(LedgerError::InvalidArgument),
                    Some(amount) => match mint_tokens_outcome(a[1], a[0], a[2], program_id, amount) {
                        Err(e) => Err(e),
                        Ok((b, m)) => Ok(
                            seq![
                                a[0].with_data(written(a[0].data, mint_bytes(m))),
                                a[1].with_data(written(a[1].data, balance_bytes(b))),
                                a[2],
                            ],
                        ),
                    },
                }
            }
        } else if data[0] == OP_TRANSFER {
            if a.len() != 4 {
                Err(LedgerError::Custom(WRONG_ACCOUNT_COUNT))
            } else {
                match parse_amount(payload) {
                    None => Err(LedgerError::InvalidArgument),
                    Some(amount) => match transfer_outcome(a[0], a[1], a[2], a[3], program_id, amount) {
                        Err(e) => Err(e),
                        Ok((s, v)) => Ok(
                            seq![
                                a[0],
                                a[1],
                                a[2].with_data(written(a[2].data, balance_bytes(s))),
                                a[3].with_data(written(a[3].data, balance_bytes(v))),
                            ],
                        ),
                    },
                }
            }
        } else {
            Err(LedgerError::InvalidArgument)
        }
    }
}

/// Takes the last account off the list.
fn take_last(accounts: &mut Vec<Account>) -> (a: Account)
    requires
        old(accounts)@.len() > 0,
    ensures
        final(accounts)@ == old(accounts)@.drop_last(),
        a == old(accounts)@.last(),
{
    accounts.pop().unwrap()
}

/// Runs one instruction against its accounts. On refusal the accounts are
/// left as they were.
pub fn process_instruction(program_id: &Key, accounts: &mut Vec<Account>, instruction_data: &[u8]) -> (r: Result<
    (),
    LedgerError,
>)
    ensures
        match instruction_outcome(program_id@, accounts_view(old(accounts)@), instruction_data@) {
            Ok(after) => r is Ok && accounts_view(final(accounts)@) == after,
            Err(e) => r == Err::<(), LedgerError>(e) && accounts_view(final(accounts)@) == accounts_view(
                old(accounts)@,
            ),
        },
{
    let ghost a = accounts_view(accounts@);
    let len = instruction_data.len();
    if len == 0 {
        return Err(LedgerError::InvalidArgument);
    }
    let payload = slice_subrange(instruction_data, 1, len);
    let op = instruction_data[0];
    if op == OP_INITIALIZE_MINT {
        if accounts.len() != 1 {
            return Err(LedgerError::Custom(WRONG_ACCOUNT_COUNT));
        }
        let input = match InitializeMintInput::from_bytes(payload) {
            Some(i) => i,
            None => return Err(LedgerError::InvalidArgument),
        };
        let mut mint = take_last(accounts);
        let res = initialize_mint(&mut mint, program_id, input);
        accounts.push(mint);
        assert(accounts_view(accounts@) =~= seq![mint@]);
        proof {
            if res is Err {
                assert(a =~= seq![a[0]]);
            }
        }
        res
    } else if op == OP_INITIALIZE_BALANCE {
        if accounts.len() != 3 {
            return Err(LedgerError::Custom(WRONG_ACCOUNT_COUNT));
        }
        let mut balance = take_last(accounts);
        let mint = take_last(accounts);
        let owner = take_last(accounts);
        let res = initialize_balance_account(&owner, &mint, &mut balance, program_id);
        accounts.push(owner);
        accounts.push(mint);
        accounts.push(balance);
        assert(accounts_view(accounts@) =~= seq![owner@, mint@, balance@]);
        proof {
            if res is Err {
                assert(a =~= seq![a[0], a[1], a[2]]);
            }
        }
        res
    } else if op == OP_MINT {
        if accounts.len() != 3 {
            return Err(LedgerError::Custom(WRONG_ACCOUNT_COUNT));
        }
        let input = match MintInput::from_bytes(payload) {
            Some(i) => i,
            None => return Err(LedgerError::InvalidArgument),
        };
        let owner = take_last(accounts);
        let mut balance = take_last(accounts);
        let mut mint = take_last(accounts);
        let res = mint_tokens(&mut balance, &mut mint, &owner, program_id, input);
        accounts.push(mint);
        accounts.push(balance);
        accounts.push(owner);
        assert(accounts_view(accounts@) =~= seq![mint@, balance@, owner@]);
        proof {
            if res is Err {
                assert(a =~= seq![a[0], a[1], a[2]]);
            }
        }
        res
    } else if op == OP_TRANSFER {
        if accounts.len() != 4 {
            return Err(LedgerError::Custom(WRONG_ACCOUNT_COUNT));
        }
        let input = match TransferInput::from_bytes(payload) {
            Some(i) => i,
            None => return Err(LedgerError::InvalidArgument),
        };
        let mut receiver = take_last(accounts);
        let mut sender = take_last(accounts);
        let mint = take_last(accounts);
        let owner = take_last(accounts);
        let res = transfer_tokens(&owner, &mint, &mut sender, &mut receiver, program_id, input);
        accounts.push(owner);
        accounts.push(mint);
        accounts.push(sender);
        accounts.push(receiver);
        assert(accounts_view(accounts@) =~= seq![owner@, mint@, sender@, receiver@]);
        proof {
            if res is Err {
                assert(a =~= seq![a[0], a[1], a[2], a[3]]);
            }
        }
        res
    } else {
        Err(LedgerError::InvalidArgument)
    }
}

} // verus!
