use vstd::prelude::*;

verus! {

/// Custom code: the balance account is not owned by the program.
pub const BALANCE_NOT_PROGRAM_OWNED: u32 = 501;

/// Custom code: the balance record's holder is not the presented owner account.
pub const BALANCE_OWNER_MISMATCH: u32 = 502;

/// Custom code: the wrong number of accounts was handed to an instruction.
pub const WRONG_ACCOUNT_COUNT: u32 = 502;

/// Custom code: the mint has reached its supply.
pub const MINT_FINISHED: u32 = 502;

/// Custom code: the balance record names another mint.
pub const BALANCE_MINT_MISMATCH: u32 = 503;

/// Custom code: the mint account is not owned by the program.
pub const MINT_NOT_PROGRAM_OWNED: u32 = 504;

/// Custom code: the receiving balance account is not owned by the program.
pub const RECEIVER_NOT_PROGRAM_OWNED: u32 = 505;

/// Custom code: the receiving balance record names another mint.
pub const RECEIVER_MINT_MISMATCH: u32 = 506;

/// Why an operation of the ledger was refused. Every refusal leaves the
/// accounts as they were.
#[derive(Debug, Clone, Copy, PartialEq, Eq, Structural)]
pub enum LedgerError {
    /// A check with a stable numeric code (see the constants of this module).
    Custom(u32),
    /// The instruction could not be decoded, or its opcode is unknown.
    InvalidArgument,
    /// An account's bytes do not hold the record that was expected.
    InvalidAccountData,
    /// Not enough balance, or not enough supply left to mint.
    InsufficientFunds,
    /// The account that must approve the operation did not sign.
    MissingRequiredSignature,
    /// The account to initialize already holds data.
    AccountAlreadyInitialized,
    /// The same account buffer was asked for twice in one operation.
    AccountBorrowFailed,
    /// An account is not owned by the program.
    IllegalOwner,
    /// An account that must be writable is not.
    Immutable,
    /// A balance would exceed the largest representable amount.
    ArithmeticOverflow,
    /// A record could not be encoded (a length does not fit its prefix).
    SerializationFailed,
}

} // verus!
