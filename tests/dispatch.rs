use fungible_token::account::Account;
use fungible_token::error::LedgerError;
use fungible_token::instruction::process_instruction;
use fungible_token::mint::{MintStatus, TokenMintDetails};
use fungible_token::token_account::TokenBalance;

const PROGRAM: [u8; 32] = [7u8; 32];

fn account(key: u8, owner: [u8; 32], is_signer: bool) -> Account {
    Account { key: [key; 32], owner, is_signer, is_writable: true, is_executable: false, data: Vec::new() }
}

fn init_mint_data(supply: u64) -> Vec<u8> {
    let mut data = vec![0u8];
    data.extend_from_slice(&[9u8; 32]);
    data.extend_from_slice(&supply.to_le_bytes());
    data.extend_from_slice(&[3, 0, 0, 0, b'T', b'O', b'K']);
    data.push(2);
    data
}

fn amount_data(op: u8, amount: u64) -> Vec<u8> {
    let mut data = vec![op];
    data.extend_from_slice(&amount.to_le_bytes());
    data
}

#[test]
fn dispatch_full_flow() {
    let mut mint = vec![account(1, PROGRAM, true)];
    assert_eq!(process_instruction(&PROGRAM, &mut mint, &init_mint_data(100)), Ok(()));
    let mint_account = mint.pop().unwrap();

    let mut accts = vec![account(2, [0u8; 32], true), mint_account, account(3, PROGRAM, false)];
    assert_eq!(process_instruction(&PROGRAM, &mut accts, &[1]), Ok(()));
    let sender_balance = accts.pop().unwrap();
    let mint_account = accts.pop().unwrap();
    let holder = accts.pop().unwrap();

    let mut accts = vec![account(4, [0u8; 32], true), mint_account, account(5, PROGRAM, false)];
    assert_eq!(process_instruction(&PROGRAM, &mut accts, &[1]), Ok(()));
    let receiver_balance = accts.pop().unwrap();
    let mint_account = accts.pop().unwrap();

    let mut accts = vec![mint_account, sender_balance, holder];
    assert_eq!(process_instruction(&PROGRAM, &mut accts, &amount_data(2, 40)), Ok(()));
    let holder = accts.pop().unwrap();
    let sender_balance = accts.pop().unwrap();
    let mint_account = accts.pop().unwrap();
    let d = TokenMintDetails::from_bytes(&mint_account.data).unwrap();
    assert_eq!(d.circulating_supply, 40);
    assert_eq!(d.status, MintStatus::Ongoing);

    let mut accts = vec![holder, mint_account, sender_balance, receiver_balance];
    assert_eq!(process_instruction(&PROGRAM, &mut accts, &amount_data(3, 15)), Ok(()));
    assert_eq!(TokenBalance::from_bytes(&accts[2].data).unwrap().current_balance, 25);
    assert_eq!(TokenBalance::from_bytes(&accts[3].data).unwrap().current_balance, 15);
    assert_eq!(TokenBalance::from_bytes(&accts[3].data).unwrap().owner, [4u8; 32]);

    let before: Vec<Vec<u8>> = accts.iter().map(|a| a.data.clone()).collect();
    assert_eq!(process_instruction(&PROGRAM, &mut accts, &amount_data(3, 26)), Err(LedgerError::InsufficientFunds));
    let after: Vec<Vec<u8>> = accts.iter().map(|a| a.data.clone()).collect();
    assert_eq!(before, after);
}

#[test]
fn dispatch_rejects_bad_instructions() {
    let mut one = vec![account(1, PROGRAM, true)];
    assert_eq!(process_instruction(&PROGRAM, &mut one, &[]), Err(LedgerError::InvalidArgument));
    assert_eq!(process_instruction(&PROGRAM, &mut one, &[4]), Err(LedgerError::InvalidArgument));
    assert_eq!(process_instruction(&PROGRAM, &mut one, &[0, 1, 2]), Err(LedgerError::InvalidArgument));
    assert_eq!(process_instruction(&PROGRAM, &mut one, &[1]), Err(LedgerError::Custom(502)));
    assert_eq!(process_instruction(&PROGRAM, &mut one, &amount_data(2, 1)), Err(LedgerError::Custom(502)));
    assert_eq!(process_instruction(&PROGRAM, &mut one, &amount_data(3, 1)), Err(LedgerError::Custom(502)));
    let mut two = vec![account(1, PROGRAM, true), account(2, PROGRAM, true)];
    assert_eq!(process_instruction(&PROGRAM, &mut two, &init_mint_data(5)), Err(LedgerError::Custom(502)));
    let mut three = vec![account(1, PROGRAM, true), account(2, PROGRAM, true), account(3, PROGRAM, true)];
    assert_eq!(process_instruction(&PROGRAM, &mut three, &[2, 1, 2]), Err(LedgerError::InvalidArgument));
    assert!(one[0].data.is_empty());
}
