//! Properties of the ledger that relate several calls or hold of every input.

use vstd::prelude::*;

use crate::account::{written, AccountModel};
use crate::error::{LedgerError, MINT_FINISHED};
use crate::mint::{
    initial_mint, lemma_parse_written_mint, mint_step, mint_tokens_outcome, InitializeMintModel, MintModel,
    MintStatus,
};
use crate::mint_layout::{lemma_parse_mint_bytes, lemma_parse_mint_encodable, mint_bytes, mint_encodable, parse_mint};
use crate::token_account::{balance_bytes, lemma_parse_written_balance, parse_balance, TokenBalance};
use crate::transfer::transfer_outcome;

verus! {

/// The sum of a list of amounts.
pub open spec fn sum_amounts(amounts: Seq<u64>) -> int
    decreases amounts.len(),
{
    if amounts.len() == 0 {
        0
    } else {
        sum_amounts(amounts.drop_last()) + amounts.last()
    }
}

/// A run of mints in which every step succeeded, each turning `states[i]`
/// into `states[i + 1]` by minting `amounts[i]`.
pub open spec fn successful_mint_run(states: Seq<MintModel>, amounts: Seq<u64>) -> bool {
    &&& states.len() == amounts.len() + 1
    &&& forall|i: int| 0 <= i < amounts.len() ==> #[trigger] mint_step(states[i], amounts[i]) == Some(states[i + 1])
}

/// After a run of successful mints the circulating supply has grown by exactly
/// the sum of the amounts (so from a fresh mint it is that sum), it never went
/// down along the way, and the supply never changed.
pub proof fn lemma_successful_mints_add_up(states: Seq<MintModel>, amounts: Seq<u64>)
    requires
        successful_mint_run(states, amounts),
    ensures
        states.last().circulating_supply == states[0].circulating_supply + sum_amounts(amounts),
        states[0].circulating_supply == 0 ==> states.last().circulating_supply == sum_amounts(amounts),
        forall|i: int, j: int|
            0 <= i <= j < states.len() ==> #[trigger] states[i].circulating_supply
                <= #[trigger] states[j].circulating_supply,
        forall|i: int| 0 <= i < states.len() ==> #[trigger] states[i].supply == states[0].supply,
    decreases amounts.len(),
{
    if amounts.len() > 0 {
        let n = amounts.len() - 1;
        let init_states = states.drop_last();
        let init_amounts = amounts.drop_last();
        assert forall|i: int| 0 <= i < init_amounts.len() implies #[trigger] mint_step(
            init_states[i],
            init_amounts[i],
        ) == Some(init_states[i + 1]) by {
            assert(mint_step(states[i], amounts[i]) == Some(states[i + 1]));
        }
        lemma_successful_mints_add_up(init_states, init_amounts);
        assert(mint_step(states[n], amounts[n]) == Some(states[n + 1]));
        assert forall|i: int, j: int|
            0 <= i <= j < states.len() implies #[trigger] states[i].circulating_supply
                <= #[trigger] states[j].circulating_supply by {
            if j < states.len() - 1 {
                assert(init_states[i] == states[i]);
                assert(init_states[j] == states[j]);
            } else if i < j {
                assert(init_states[i] == states[i]);
                assert(init_states[n] == states[n]);
            }
        }
        assert forall|i: int| 0 <= i < states.len() implies #[trigger] states[i].supply == states[0].supply by {
            if i < states.len() - 1 {
                assert(init_states[i] == states[i]);
            }
            assert(init_states[n] == states[n]);
        }
    }
}

/// A freshly set-up mint is well formed, and every successful mint keeps it
/// so: the circulating supply never exceeds the supply.
pub proof fn lemma_minting_preserves_wf(input: InitializeMintModel, m: MintModel, amount: u64)
    ensures
        initial_mint(input).wf(),
        m.wf() && mint_step(m, amount) is Some ==> (mint_step(m, amount)->0).wf(),
        mint_step(m, amount) is Some ==> (mint_step(m, amount)->0).circulating_supply <= m.supply,
{
}

/// From a freshly set-up mint, every state reached by successful mints keeps
/// the circulating supply within the supply.
pub proof fn lemma_supply_never_exceeded(input: InitializeMintModel, states: Seq<MintModel>, amounts: Seq<u64>)
    requires
        successful_mint_run(states, amounts),
        states[0] == initial_mint(input),
    ensures
        forall|i: int| 0 <= i < states.len() ==> #[trigger] states[i].circulating_supply <= states[i].supply,
{
    lemma_successful_mints_add_up(states, amounts);
    assert forall|i: int| 0 <= i < states.len() implies #[trigger] states[i].circulating_supply
        <= states[i].supply by {
        if i > 0 {
            assert(mint_step(states[i - 1], amounts[i - 1]) == Some(states[(i - 1) + 1]));
        }
    }
}

/// Where a mint of nothing would go through, minting exactly the supply that
/// is left goes through too (as long as the balance can hold it) and finishes
/// the mint; after that every further mint is refused as finished, whatever
/// its amount.
pub proof fn lemma_exhausting_mint_finishes(
    balance_account: AccountModel,
    mint_account: AccountModel,
    owner_account: AccountModel,
    program_id: Seq<u8>,
    next_amount: u64,
)
    requires
        mint_tokens_outcome(balance_account, mint_account, owner_account, program_id, 0) is Ok,
        (parse_balance(balance_account.data)->0).current_balance + (parse_mint(mint_account.data)->0).supply
            - (parse_mint(mint_account.data)->0).circulating_supply <= u64::MAX,
    ensures
        ({
            let m0 = parse_mint(mint_account.data)->0;
            let rest = (m0.supply - m0.circulating_supply) as u64;
            match mint_tokens_outcome(balance_account, mint_account, owner_account, program_id, rest) {
                Ok((b, m)) => {
                    &&& m.status == MintStatus::Finished
                    &&& m.circulating_supply == m.supply
                    &&& mint_tokens_outcome(
                        balance_account.with_data(written(balance_account.data, balance_bytes(b))),
                        mint_account.with_data(written(mint_account.data, mint_bytes(m))),
                        owner_account,
                        program_id,
                        next_amount,
                    ) == Err::<(TokenBalance, MintModel), LedgerError>(LedgerError::Custom(MINT_FINISHED))
                },
                Err(_) => false,
            }
        }),
{
    let m0 = parse_mint(mint_account.data)->0;
    let rest = (m0.supply - m0.circulating_supply) as u64;
    let (b, m) = mint_tokens_outcome(balance_account, mint_account, owner_account, program_id, rest)->Ok_0;
    lemma_parse_mint_encodable(mint_account.data);
    lemma_parse_written_balance(balance_account.data, b);
    lemma_parse_written_mint(mint_account.data, m);
}

/// A mint that goes through adds the same amount to the balance and to the
/// circulating supply, so the books of the mint stay balanced.
pub proof fn lemma_mint_keeps_books(
    balance_account: AccountModel,
    mint_account: AccountModel,
    owner_account: AccountModel,
    program_id: Seq<u8>,
    amount: u64,
)
    requires
        mint_tokens_outcome(balance_account, mint_account, owner_account, program_id, amount) is Ok,
    ensures
        ({
            let (b, m) = mint_tokens_outcome(balance_account, mint_account, owner_account, program_id, amount)->Ok_0;
            let b0 = parse_balance(balance_account.data)->0;
            let m0 = parse_mint(mint_account.data)->0;
            &&& b.current_balance == b0.current_balance + amount
            &&& m.circulating_supply == m0.circulating_supply + amount
            &&& m.circulating_supply <= m.supply
            &&& m.supply == m0.supply
            &&& b.owner == b0.owner && b.mint_account == b0.mint_account
        }),
{
}

/// A transfer that goes through takes exactly the amount from the sender and
/// gives it to the receiver: the sender had at least that much, and the two
/// balances together are unchanged.
pub proof fn lemma_transfer_moves_amount(
    owner_account: AccountModel,
    mint_account: AccountModel,
    sender_account: AccountModel,
    receiver_account: AccountModel,
    program_id: Seq<u8>,
    amount: u64,
)
    requires
        transfer_outcome(owner_account, mint_account, sender_account, receiver_account, program_id, amount) is Ok,
    ensures
        ({
            let (s, v) = transfer_outcome(
                owner_account,
                mint_account,
                sender_account,
                receiver_account,
                program_id,
                amount,
            )->Ok_0;
            let sb = parse_balance(sender_account.data)->0;
            let rb = parse_balance(receiver_account.data)->0;
            &&& amount <= sb.current_balance
            &&& s.current_balance == sb.current_balance - amount
            &&& v.current_balance == rb.current_balance + amount
            &&& s.current_balance + v.current_balance == sb.current_balance + rb.current_balance
            &&& s.owner == sb.owner && s.mint_account == sb.mint_account
            &&& v.owner == rb.owner && v.mint_account == rb.mint_account
        }),
{
}

/// A transfer of more than the sender holds is refused; where every earlier
/// check passes, it is refused for want of funds.
pub proof fn lemma_overdraft_refused(
    owner_account: AccountModel,
    mint_account: AccountModel,
    sender_account: AccountModel,
    receiver_account: AccountModel,
    program_id: Seq<u8>,
    amount: u64,
)
    requires
        parse_balance(sender_account.data) is Some,
        amount > (parse_balance(sender_account.data)->0).current_balance,
    ensures
        transfer_outcome(owner_account, mint_account, sender_account, receiver_account, program_id, amount) is Err,
        transfer_outcome(owner_account, mint_account, sender_account, receiver_account, program_id, 0) is Ok
            ==> transfer_outcome(owner_account, mint_account, sender_account, receiver_account, program_id, amount)
            == Err::<(TokenBalance, TokenBalance), LedgerError>(LedgerError::InsufficientFunds),
{
}

/// Writing a mint record and reading it back gives the same record, in every
/// field, for every record that can be written.
pub proof fn lemma_mint_round_trip(m: MintModel)
    requires
        mint_encodable(m),
    ensures
        parse_mint(mint_bytes(m)) == Some(m),
{
    lemma_parse_mint_bytes(m, Seq::empty());
    assert(mint_bytes(m) + Seq::<u8>::empty() =~= mint_bytes(m));
}

/// Writing a balance record and reading it back gives the same record.
pub proof fn lemma_balance_round_trip(b: TokenBalance)
    ensures
        parse_balance(balance_bytes(b)) == Some(b),
{
    lemma_parse_written_balance(Seq::empty(), b);
    assert(written(Seq::empty(), balance_bytes(b)) == balance_bytes(b));
}

} // verus!
