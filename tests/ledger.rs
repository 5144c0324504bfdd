use fungible_token::account::Account;
use fungible_token::error::LedgerError;
use fungible_token::mint::{
    add_mint_to_circulating_supply, initialize_mint, mint_tokens, InitializeMintInput, MintInput, MintStatus,
    TokenMintDetails,
};
use fungible_token::token_account::{initialize_balance_account, TokenBalance};
use fungible_token::transfer::{transfer_tokens, TransferInput};

const PROGRAM: [u8; 32] = [7u8; 32];
const MINT_KEY: [u8; 32] = [1u8; 32];
const HOLDER_A: [u8; 32] = [2u8; 32];
const HOLDER_B: [u8; 32] = [3u8; 32];
const BALANCE_A: [u8; 32] = [4u8; 32];
const BALANCE_B: [u8; 32] = [5u8; 32];

fn account(key: [u8; 32], owner: [u8; 32], is_signer: bool, data: Vec<u8>) -> Account {
    Account { key, owner, is_signer, is_writable: true, is_executable: false, data }
}

fn mint_details(supply: u64, decimals: u8) -> TokenMintDetails {
    let input = InitializeMintInput::new([0u8; 32], supply, "TEST".to_string(), decimals);
    TokenMintDetails::new(input, MintStatus::Ongoing, Vec::new())
}

fn new_mint(supply: u64, decimals: u8) -> Account {
    let mut mint = account(MINT_KEY, PROGRAM, true, Vec::new());
    let input = InitializeMintInput::new([9u8; 32], supply, "TEST".to_string(), decimals);
    initialize_mint(&mut mint, &PROGRAM, input).unwrap();
    mint
}

fn new_balance(holder: [u8; 32], key: [u8; 32], mint: &Account) -> Account {
    let owner = account(holder, [0u8; 32], true, Vec::new());
    let mut balance = account(key, PROGRAM, false, Vec::new());
    initialize_balance_account(&owner, mint, &mut balance, &PROGRAM).unwrap();
    balance
}

fn balance_of(a: &Account) -> u64 {
    TokenBalance::from_bytes(&a.data).unwrap().current_balance
}

fn mint_of(a: &Account) -> TokenMintDetails {
    TokenMintDetails::from_bytes(&a.data).unwrap()
}

fn mint_into(balance: &mut Account, mint: &mut Account, holder: [u8; 32], amount: u64) -> Result<(), LedgerError> {
    let owner = account(holder, [0u8; 32], true, Vec::new());
    mint_tokens(balance, mint, &owner, &PROGRAM, MintInput::new(amount))
}

fn send(
    mint: &Account,
    sender: &mut Account,
    receiver: &mut Account,
    holder: [u8; 32],
    amount: u64,
) -> Result<(), LedgerError> {
    let owner = account(holder, [0u8; 32], true, Vec::new());
    transfer_tokens(&owner, mint, sender, receiver, &PROGRAM, TransferInput::new(amount))
}

#[test]
fn test_increase_balance_no_fractional_overflow() {
    let mut balance = TokenBalance::new([0u8; 32], [0u8; 32]);
    let mint_details = mint_details(1000, 2);
    balance.increase_balance(5, &mint_details).unwrap();
    assert_eq!(balance.current_balance, 5);
}

#[test]
fn test_decrease_balance_no_fractional_underflow() {
    let mut balance = TokenBalance::new([0u8; 32], [0u8; 32]);
    let mint_details = mint_details(1000, 2);
    balance.increase_balance(5, &mint_details).unwrap();
    let result = balance.decrease_balance(3, &mint_details);
    assert!(result.is_ok());
    assert_eq!(balance.current_balance, 2);
}

#[test]
fn test_decrease_balance_insufficient_balance() {
    let mut balance = TokenBalance::new([0u8; 32], [0u8; 32]);
    let mint_details = mint_details(1000, 2);
    balance.increase_balance(2, &mint_details).unwrap();
    let result = balance.decrease_balance(3, &mint_details);
    assert_eq!(result, Err(LedgerError::InsufficientFunds));
    assert_eq!(balance.current_balance, 2);
}

#[test]
fn increase_balance_refuses_overflow() {
    let mut balance = TokenBalance::new([0u8; 32], [0u8; 32]);
    let mint_details = mint_details(1000, 2);
    balance.increase_balance(u64::MAX, &mint_details).unwrap();
    assert_eq!(balance.increase_balance(1, &mint_details), Err(LedgerError::ArithmeticOverflow));
    assert_eq!(balance.current_balance, u64::MAX);
}

#[test]
fn add_to_circulating_supply_is_exact_or_fails() {
    let mut d = mint_details(100, 0);
    assert_eq!(add_mint_to_circulating_supply(&mut d, &MintInput::new(60)), Ok(()));
    assert_eq!(d.circulating_supply, 60);
    assert_eq!(add_mint_to_circulating_supply(&mut d, &MintInput::new(41)), Err(LedgerError::InsufficientFunds));
    assert_eq!(d.circulating_supply, 60);
    assert_eq!(add_mint_to_circulating_supply(&mut d, &MintInput::new(40)), Ok(()));
    assert_eq!(d.circulating_supply, 100);
}

#[test]
fn fresh_mint_has_nothing_in_circulation() {
    let mint = new_mint(1000, 2);
    let d = mint_of(&mint);
    assert_eq!(d.circulating_supply, 0);
    assert_eq!(d.status, MintStatus::Ongoing);
    assert_eq!(d.supply, 1000);
    assert_eq!(d.decimals, 2);
    assert_eq!(d.ticker, "TEST");
    assert_eq!(d.owner, [9u8; 32]);
    assert!(d.token_metadata.is_empty());
}

#[test]
fn initialize_mint_refuses_used_or_foreign_accounts() {
    let input = || InitializeMintInput::new([9u8; 32], 10, "T".to_string(), 0);
    let mut used = account(MINT_KEY, PROGRAM, true, vec![1]);
    assert_eq!(initialize_mint(&mut used, &PROGRAM, input()), Err(LedgerError::AccountAlreadyInitialized));
    assert_eq!(used.data, vec![1]);
    let mut foreign = account(MINT_KEY, [8u8; 32], true, Vec::new());
    assert_eq!(initialize_mint(&mut foreign, &PROGRAM, input()), Err(LedgerError::IllegalOwner));
    assert!(foreign.data.is_empty());
}

#[test]
fn initialize_balance_account_checks_in_order() {
    let mint = new_mint(10, 0);
    let signer = account(HOLDER_A, [0u8; 32], true, Vec::new());
    let unsigned = account(HOLDER_A, [0u8; 32], false, Vec::new());
    let mut fresh = account(BALANCE_A, PROGRAM, false, Vec::new());
    assert_eq!(
        initialize_balance_account(&unsigned, &mint, &mut fresh, &PROGRAM),
        Err(LedgerError::MissingRequiredSignature)
    );
    let mut read_only_mint = mint.clone();
    read_only_mint.is_writable = false;
    assert_eq!(
        initialize_balance_account(&signer, &read_only_mint, &mut fresh, &PROGRAM),
        Err(LedgerError::Immutable)
    );
    let mut foreign_mint = mint.clone();
    foreign_mint.owner = [8u8; 32];
    assert_eq!(
        initialize_balance_account(&signer, &foreign_mint, &mut fresh, &PROGRAM),
        Err(LedgerError::IllegalOwner)
    );
    let mut used = account(BALANCE_A, PROGRAM, false, vec![0]);
    assert_eq!(
        initialize_balance_account(&signer, &mint, &mut used, &PROGRAM),
        Err(LedgerError::AccountAlreadyInitialized)
    );
    let mut executable = account(BALANCE_A, PROGRAM, false, Vec::new());
    executable.is_executable = true;
    assert_eq!(
        initialize_balance_account(&signer, &mint, &mut executable, &PROGRAM),
        Err(LedgerError::AccountAlreadyInitialized)
    );
    let mut foreign = account(BALANCE_A, [8u8; 32], false, Vec::new());
    assert_eq!(
        initialize_balance_account(&signer, &mint, &mut foreign, &PROGRAM),
        Err(LedgerError::IllegalOwner)
    );
    assert!(fresh.data.is_empty());
    assert_eq!(initialize_balance_account(&signer, &mint, &mut fresh, &PROGRAM), Ok(()));
    let b = TokenBalance::from_bytes(&fresh.data).unwrap();
    assert_eq!(b, TokenBalance { owner: HOLDER_A, mint_account: MINT_KEY, current_balance: 0 });
    assert_eq!(fresh.data.len(), 72);
}

#[test]
fn mint_until_finished_then_refused() {
    let mut mint = new_mint(1000, 2);
    let mut balance = new_balance(HOLDER_A, BALANCE_A, &mint);
    assert_eq!(mint_into(&mut balance, &mut mint, HOLDER_A, 10), Ok(()));
    assert_eq!(mint_of(&mint).circulating_supply, 10);
    assert_eq!(balance_of(&balance), 10);
    assert_eq!(mint_of(&mint).status, MintStatus::Ongoing);
    assert_eq!(mint_into(&mut balance, &mut mint, HOLDER_A, 990), Ok(()));
    assert_eq!(mint_of(&mint).circulating_supply, 1000);
    assert_eq!(mint_of(&mint).status, MintStatus::Finished);
    assert_eq!(balance_of(&balance), 1000);
    let before = (mint.data.clone(), balance.data.clone());
    assert_eq!(mint_into(&mut balance, &mut mint, HOLDER_A, 1), Err(LedgerError::Custom(502)));
    assert_eq!((mint.data.clone(), balance.data.clone()), before);
    assert_eq!(balance_of(&balance), 1000);
}

#[test]
fn minting_exactly_the_rest_finishes_the_mint() {
    let mut mint = new_mint(50, 0);
    let mut balance = new_balance(HOLDER_A, BALANCE_A, &mint);
    assert_eq!(mint_into(&mut balance, &mut mint, HOLDER_A, 20), Ok(()));
    assert_eq!(mint_into(&mut balance, &mut mint, HOLDER_A, 30), Ok(()));
    assert_eq!(mint_of(&mint).status, MintStatus::Finished);
    assert_eq!(mint_into(&mut balance, &mut mint, HOLDER_A, 0), Err(LedgerError::Custom(502)));
    assert_eq!(mint_into(&mut balance, &mut mint, HOLDER_A, 1), Err(LedgerError::Custom(502)));
    assert_eq!(mint_of(&mint).circulating_supply, 50);
}

#[test]
fn circulating_supply_is_the_sum_of_successful_mints() {
    let mut mint = new_mint(100, 0);
    let mut balance = new_balance(HOLDER_A, BALANCE_A, &mint);
    let mut last = 0u64;
    for amount in [3u64, 0, 17, 40, 1] {
        assert_eq!(mint_into(&mut balance, &mut mint, HOLDER_A, amount), Ok(()));
        let now = mint_of(&mint).circulating_supply;
        assert!(now >= last);
        last = now;
    }
    assert_eq!(last, 61);
    assert_eq!(balance_of(&balance), 61);
}

#[test]
fn over_minting_is_refused_and_supply_is_never_exceeded() {
    let mut mint = new_mint(100, 0);
    let mut balance = new_balance(HOLDER_A, BALANCE_A, &mint);
    assert_eq!(mint_into(&mut balance, &mut mint, HOLDER_A, 60), Ok(()));
    let before = (mint.data.clone(), balance.data.clone());
    assert_eq!(mint_into(&mut balance, &mut mint, HOLDER_A, 41), Err(LedgerError::InsufficientFunds));
    assert_eq!((mint.data.clone(), balance.data.clone()), before);
    assert!(mint_of(&mint).circulating_supply <= mint_of(&mint).supply);
}

#[test]
fn zero_supply_mint_finishes_on_first_mint() {
    let mut mint = new_mint(0, 0);
    let mut balance = new_balance(HOLDER_A, BALANCE_A, &mint);
    assert_eq!(mint_of(&mint).status, MintStatus::Ongoing);
    assert_eq!(mint_into(&mut balance, &mut mint, HOLDER_A, 0), Ok(()));
    assert_eq!(mint_of(&mint).status, MintStatus::Finished);
}

#[test]
fn mint_tokens_error_codes() {
    let mint = new_mint(100, 0);
    let balance = new_balance(HOLDER_A, BALANCE_A, &mint);

    let mut b = balance.clone();
    b.owner = [8u8; 32];
    assert_eq!(mint_into(&mut b, &mut mint.clone(), HOLDER_A, 1), Err(LedgerError::Custom(501)));

    let mut other_mint = mint.clone();
    other_mint.key = [6u8; 32];
    assert_eq!(mint_into(&mut balance.clone(), &mut other_mint, HOLDER_A, 1), Err(LedgerError::Custom(503)));

    assert_eq!(mint_into(&mut balance.clone(), &mut mint.clone(), HOLDER_B, 1), Err(LedgerError::Custom(502)));

    let mut foreign_mint = mint.clone();
    foreign_mint.owner = [8u8; 32];
    assert_eq!(mint_into(&mut balance.clone(), &mut foreign_mint, HOLDER_A, 1), Err(LedgerError::Custom(504)));

    let unsigned = account(HOLDER_A, [0u8; 32], false, Vec::new());
    assert_eq!(
        mint_tokens(&mut balance.clone(), &mut mint.clone(), &unsigned, &PROGRAM, MintInput::new(1)),
        Err(LedgerError::MissingRequiredSignature)
    );

    let mut short = balance.clone();
    short.data.truncate(71);
    assert_eq!(mint_into(&mut short, &mut mint.clone(), HOLDER_A, 1), Err(LedgerError::InvalidAccountData));

    let mut broken_mint = mint.clone();
    broken_mint.data[32] = 2;
    assert_eq!(mint_into(&mut balance.clone(), &mut broken_mint, HOLDER_A, 1), Err(LedgerError::InvalidAccountData));
}

#[test]
fn mint_into_own_account_is_a_borrow_conflict() {
    let mint = new_mint(100, 0);
    let mut balance = account(MINT_KEY, PROGRAM, false, Vec::new());
    balance.data = TokenBalance::new(HOLDER_A, MINT_KEY).to_bytes();
    assert_eq!(mint_into(&mut balance, &mut mint.clone(), HOLDER_A, 1), Err(LedgerError::AccountBorrowFailed));
}

#[test]
fn mint_refuses_balance_overflow() {
    let mut mint = new_mint(10, 0);
    let mut balance = new_balance(HOLDER_A, BALANCE_A, &mint);
    balance.data = TokenBalance { owner: HOLDER_A, mint_account: MINT_KEY, current_balance: u64::MAX }.to_bytes();
    let before = mint.data.clone();
    assert_eq!(mint_into(&mut balance, &mut mint, HOLDER_A, 1), Err(LedgerError::ArithmeticOverflow));
    assert_eq!(mint.data, before);
    assert_eq!(balance_of(&balance), u64::MAX);
}

#[test]
fn transfer_all_then_one_more() {
    let mut mint = new_mint(1000, 2);
    let mut a = new_balance(HOLDER_A, BALANCE_A, &mint);
    let mut b = new_balance(HOLDER_B, BALANCE_B, &mint);
    assert_eq!(mint_into(&mut a, &mut mint, HOLDER_A, 10), Ok(()));
    assert_eq!((balance_of(&a), balance_of(&b)), (10, 0));
    assert_eq!(send(&mint, &mut a, &mut b, HOLDER_A, 10), Ok(()));
    assert_eq!((balance_of(&a), balance_of(&b)), (0, 10));
    assert_eq!(send(&mint, &mut a, &mut b, HOLDER_A, 1), Err(LedgerError::InsufficientFunds));
    assert_eq!((balance_of(&a), balance_of(&b)), (0, 10));
}

#[test]
fn transfer_keeps_the_total() {
    let mut mint = new_mint(1000, 0);
    let mut a = new_balance(HOLDER_A, BALANCE_A, &mint);
    let mut b = new_balance(HOLDER_B, BALANCE_B, &mint);
    assert_eq!(mint_into(&mut a, &mut mint, HOLDER_A, 70), Ok(()));
    assert_eq!(mint_into(&mut b, &mut mint, HOLDER_B, 5), Ok(()));
    assert_eq!(send(&mint, &mut a, &mut b, HOLDER_A, 25), Ok(()));
    assert_eq!(balance_of(&a), 45);
    assert_eq!(balance_of(&b), 30);
    assert_eq!(balance_of(&a) + balance_of(&b), 75);
    assert_eq!(mint_of(&mint).circulating_supply, 75);
}

#[test]
fn overdraft_leaves_both_balances() {
    let mut mint = new_mint(1000, 0);
    let mut a = new_balance(HOLDER_A, BALANCE_A, &mint);
    let mut b = new_balance(HOLDER_B, BALANCE_B, &mint);
    assert_eq!(mint_into(&mut a, &mut mint, HOLDER_A, 7), Ok(()));
    let before = (a.data.clone(), b.data.clone());
    assert_eq!(send(&mint, &mut a, &mut b, HOLDER_A, 8), Err(LedgerError::InsufficientFunds));
    assert_eq!((a.data.clone(), b.data.clone()), before);
}

#[test]
fn transfer_error_codes() {
    let mut mint = new_mint(1000, 0);
    let mut a = new_balance(HOLDER_A, BALANCE_A, &mint);
    let b = new_balance(HOLDER_B, BALANCE_B, &mint);
    assert_eq!(mint_into(&mut a, &mut mint, HOLDER_A, 7), Ok(()));

    let mut foreign = a.clone();
    foreign.owner = [8u8; 32];
    assert_eq!(send(&mint, &mut foreign, &mut b.clone(), HOLDER_A, 1), Err(LedgerError::Custom(501)));

    let mut other_mint = mint.clone();
    other_mint.key = [6u8; 32];
    assert_eq!(send(&other_mint, &mut a.clone(), &mut b.clone(), HOLDER_A, 1), Err(LedgerError::Custom(503)));

    assert_eq!(send(&mint, &mut a.clone(), &mut b.clone(), HOLDER_B, 1), Err(LedgerError::Custom(502)));

    let mut same = a.clone();
    assert_eq!(send(&mint, &mut a.clone(), &mut same, HOLDER_A, 1), Err(LedgerError::AccountBorrowFailed));

    let mut foreign_receiver = b.clone();
    foreign_receiver.owner = [8u8; 32];
    assert_eq!(send(&mint, &mut a.clone(), &mut foreign_receiver, HOLDER_A, 1), Err(LedgerError::Custom(505)));

    let mut stray_receiver = b.clone();
    stray_receiver.data = TokenBalance::new(HOLDER_B, [6u8; 32]).to_bytes();
    assert_eq!(send(&mint, &mut a.clone(), &mut stray_receiver, HOLDER_A, 1), Err(LedgerError::Custom(506)));

    let mut foreign_mint = mint.clone();
    foreign_mint.owner = [8u8; 32];
    assert_eq!(send(&foreign_mint, &mut a.clone(), &mut b.clone(), HOLDER_A, 1), Err(LedgerError::Custom(504)));

    let unsigned = account(HOLDER_A, [0u8; 32], false, Vec::new());
    assert_eq!(
        transfer_tokens(&unsigned, &mint, &mut a.clone(), &mut b.clone(), &PROGRAM, TransferInput::new(1)),
        Err(LedgerError::MissingRequiredSignature)
    );

    let mut full = b.clone();
    full.data = TokenBalance { owner: HOLDER_B, mint_account: MINT_KEY, current_balance: u64::MAX }.to_bytes();
    let before = a.data.clone();
    assert_eq!(send(&mint, &mut a, &mut full, HOLDER_A, 1), Err(LedgerError::ArithmeticOverflow));
    assert_eq!(a.data, before);
}
