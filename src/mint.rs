//! The mint ledger: one record per token type, holding its fixed supply and
//! how much of it has been minted so far.

use vstd::prelude::*;
use vstd::utf8::*;

use crate::account::{keys_equal, write_record, written, Account, AccountModel, Key};
use crate::codec::{
    parse_string, push_key, push_string, push_u32, push_u64, read_key, read_string, read_u32, read_u64, string_fits,
    u64_at,
};
use crate::error::{
    LedgerError, BALANCE_MINT_MISMATCH, BALANCE_NOT_PROGRAM_OWNED, BALANCE_OWNER_MISMATCH, MINT_FINISHED,
    MINT_NOT_PROGRAM_OWNED,
};
use crate::mint_layout::{
    bytes_lt, canonical, entries_bytes, insert_entry, lemma_bytes_lt_asymmetric, lemma_bytes_lt_irreflexive,
    lemma_bytes_lt_total, lemma_parse_mint_bytes, lemma_parse_mint_encodable, metadata_sorted, mint_bytes,
    mint_encodable, parse_entries, parse_entry, parse_mint, status_byte,
};
use crate::token_account::{balance_bytes, lemma_parse_written_balance, parse_balance, TokenBalance};

verus! {

/// Whether a mint can still issue tokens. `Finished` is terminal.
#[derive(Debug, Clone, Copy, PartialEq, Eq, Structural)]
pub enum MintStatus {
    Ongoing,
    Finished,
}

/// The record of one mint.
#[derive(Debug, Clone)]
pub struct TokenMintDetails {
    /// The authority that set up the mint (informational).
    pub owner: Key,
    pub status: MintStatus,
    /// Total mintable amount, in the smallest unit.
    pub supply: u64,
    /// Amount minted so far, in the smallest unit.
    pub circulating_supply: u64,
    pub ticker: String,
    pub decimals: u8,
    /// Free-form metadata, kept in strictly ascending order of the keys' bytes.
    pub token_metadata: Vec<(String, Key)>,
}

/// A mint record as a mathematical value.
pub ghost struct MintModel {
    pub owner: Seq<u8>,
    pub status: MintStatus,
    pub supply: u64,
    pub circulating_supply: u64,
    pub ticker: Seq<char>,
    pub decimals: u8,
    pub metadata: Seq<(Seq<char>, Seq<u8>)>,
}

impl MintModel {
    /// The record's invariant: no more is in circulation than the supply, a
    /// finished mint has issued all of it, and the metadata keys are in order.
    pub open spec fn wf(self) -> bool {
        &&& self.circulating_supply <= self.supply
        &&& self.status == MintStatus::Finished ==> self.circulating_supply == self.supply
        &&& metadata_sorted(self.metadata)
    }
}

impl View for TokenMintDetails {
    type V = MintModel;

    open spec fn view(&self) -> MintModel {
        MintModel {
            owner: self.owner@,
            status: self.status,
            supply: self.supply,
            circulating_supply: self.circulating_supply,
            ticker: self.ticker@,
            decimals: self.decimals,
            metadata: self.token_metadata@.map_values(|e: (String, Key)| (e.0@, e.1@)),
        }
    }
}

/// What is needed to set up a mint.
#[derive(Debug, Clone)]
pub struct InitializeMintInput {
    pub owner: Key,
    /// Total mintable amount, in the smallest unit.
    pub supply: u64,
    pub ticker: String,
    pub decimals: u8,
}

/// A mint set-up request as a mathematical value.
pub ghost struct InitializeMintModel {
    pub owner: Seq<u8>,
    pub supply: u64,
    pub ticker: Seq<char>,
    pub decimals: u8,
}

impl View for InitializeMintInput {
    type V = InitializeMintModel;

    open spec fn view(&self) -> InitializeMintModel {
        InitializeMintModel { owner: self.owner@, supply: self.supply, ticker: self.ticker@, decimals: self.decimals }
    }
}

impl InitializeMintInput {
    pub fn new(owner: Key, supply: u64, ticker: String, decimals: u8) -> (r: Self)
        ensures
            r.owner == owner,
            r.supply == supply,
            r.ticker@ == ticker@,
            r.decimals == decimals,
    {
        InitializeMintInput { owner, supply, ticker, decimals }
    }
}

/// A request to mint `amount` units.
#[derive(Debug, Clone, Copy, PartialEq, Eq, Structural)]
pub struct MintInput {
    pub amount: u64,
}

impl MintInput {
    pub fn new(amount: u64) -> (r: Self)
        ensures
            r.amount == amount,
    {
        MintInput { amount }
    }
}

impl TokenMintDetails {
    /// A mint record with nothing minted yet.
    pub fn new(input: InitializeMintInput, status: MintStatus, token_metadata: Vec<(String, Key)>) -> (r: Self)
        ensures
            r.owner == input.owner,
            r.status == status,
            r.supply == input.supply,
            r.circulating_supply == 0,
            r.ticker@ == input.ticker@,
            r.decimals == input.decimals,
            r.token_metadata@ == token_metadata@,
    {
        TokenMintDetails {
            owner: input.owner,
            status,
            supply: input.supply,
            circulating_supply: 0,
            ticker: input.ticker,
            decimals: input.decimals,
            token_metadata,
        }
    }
}

/// The metadata entries of a record as mathematical values.
pub open spec fn metadata_view(md: Seq<(String, Key)>) -> Seq<(Seq<char>, Seq<u8>)> {
    md.map_values(|e: (String, Key)| (e.0@, e.1@))
}

/// Compares two byte strings in lexicographic order.
pub fn bytes_less(a: &[u8], b: &[u8]) -> (r: bool)
    ensures
        r == bytes_lt(a@, b@),
{
    let mut i: usize = 0;
    assert(a@.subrange(0, a@.len() as int) =~= a@);
    assert(b@.subrange(0, b@.len() as int) =~= b@);
    while i < a.len() && i < b.len()
        invariant
            0 <= i <= a@.len(),
            i <= b@.len(),
            bytes_lt(a@, b@) == bytes_lt(
                a@.subrange(i as int, a@.len() as int),
                b@.subrange(i as int, b@.len() as int),
            ),
        decreases a@.len() - i,
    {
        let ghost sa = a@.subrange(i as int, a@.len() as int);
        let ghost sb = b@.subrange(i as int, b@.len() as int);
        assert(sa[0] == a@[i as int]);
        assert(sb[0] == b@[i as int]);
        if a[i] != b[i] {
            return a[i] < b[i];
        }
        assert(sa.drop_first() =~= a@.subrange(i + 1, a@.len() as int));
        assert(sb.drop_first() =~= b@.subrange(i + 1, b@.len() as int));
        i = i + 1;
    }
    i == a.len() && i < b.len()
}

/// Compares two byte strings: `-1` where `a` comes first, `1` where `b` does,
/// `0` where they are equal.
pub fn bytes_cmp(a: &[u8], b: &[u8]) -> (r: i8)
    ensures
        r == -1 <==> bytes_lt(a@, b@),
        r == 1 <==> bytes_lt(b@, a@),
        r == 0 <==> a@ == b@,
        r == -1 || r == 0 || r == 1,
{
    proof {
        lemma_bytes_lt_irreflexive(a@);
        lemma_bytes_lt_irreflexive(b@);
        if a@ != b@ {
            lemma_bytes_lt_total(a@, b@);
        }
    }
    if bytes_less(a, b) {
        proof {
            lemma_bytes_lt_asymmetric(a@, b@);
        }
        -1
    } else if bytes_less(b, a) {
        1
    } else {
        0
    }
}

/// Puts an entry into metadata kept in ascending key order; an entry with the
/// same key is replaced.
pub fn insert_metadata(md: &mut Vec<(String, Key)>, k: String, v: Key)
    ensures
        metadata_view(final(md)@) == insert_entry(metadata_view(old(md)@), (k@, v@)),
{
    let ghost e = (k@, v@);
    let ghost whole = metadata_view(md@);
    let n = md.len();
    let mut j: usize = 0;
    assert(whole.skip(0) =~= whole);
    while j < n
        invariant
            n == md@.len(),
            md@ == old(md)@,
            whole == metadata_view(md@),
            e == (k@, v@),
            j <= n,
            insert_entry(whole, e) == whole.take(j as int) + insert_entry(whole.skip(j as int), e),
        decreases n - j,
    {
        let c = bytes_cmp(md[j].0.as_str().as_bytes(), k.as_str().as_bytes());
        let ghost rest = whole.skip(j as int);
        assert(rest[0] == whole[j as int]);
        assert(whole[j as int] == (md@[j as int].0@, md@[j as int].1@));
        if c == 0 {
            md.set(j, (k, v));
            assert(metadata_view(md@) =~= whole.take(j as int) + (seq![e] + rest.drop_first()));
            return;
        }
        if c == 1 {
            md.insert(j, (k, v));
            assert(metadata_view(md@) =~= whole.take(j as int) + (seq![e] + rest));
            return;
        }
        assert(rest.drop_first() =~= whole.skip(j + 1));
        assert(whole.take(j as int) + seq![rest[0]] =~= whole.take(j + 1));
        assert(whole.take(j as int) + (seq![rest[0]] + insert_entry(rest.drop_first(), e)) =~= whole.take(j + 1)
            + insert_entry(whole.skip(j + 1), e));
        j = j + 1;
    }
    assert(whole.take(n as int) =~= whole);
    assert(whole.skip(n as int) =~= Seq::<(Seq<char>, Seq<u8>)>::empty());
    md.push((k, v));
    assert(metadata_view(md@) =~= whole + seq![e]);
}

/// Once reading some entries fails, reading more of them fails too.
proof fn lemma_parse_entries_stays_none(s: Seq<u8>, pos: int, k: nat, k2: nat)
    requires
        parse_entries(s, pos, k) is None,
        k <= k2,
    ensures
        parse_entries(s, pos, k2) is None,
    decreases k2,
{
    if k2 > k {
        lemma_parse_entries_stays_none(s, pos, k, (k2 - 1) as nat);
    }
}

impl TokenMintDetails {
    /// The record's bytes; `None` where a length does not fit its prefix or
    /// the metadata keys are out of order.
    pub fn to_bytes(&self) -> (r: Option<Vec<u8>>)
        ensures
            r is Some <==> mint_encodable(self@),
            r matches Some(b) ==> b@ == mint_bytes(self@),
    {
        let ghost m = self@;
        let mut out: Vec<u8> = Vec::new();
        push_key(&mut out, &self.owner);
        let tag: u8 = match self.status {
            MintStatus::Ongoing => 0,
            MintStatus::Finished => 1,
        };
        out.push(tag);
        push_u64(&mut out, self.supply);
        push_u64(&mut out, self.circulating_supply);
        if !push_string(&mut out, &self.ticker) {
            return None;
        }
        out.push(self.decimals);
        let n = self.token_metadata.len();
        if n > u32::MAX as usize {
            return None;
        }
        push_u32(&mut out, n as u32);
        let ghost prefix = out@;
        assert(prefix =~= m.owner + seq![status_byte(m.status)] + vstd::bytes::spec_u64_to_le_bytes(m.supply)
            + vstd::bytes::spec_u64_to_le_bytes(m.circulating_supply) + crate::codec::string_bytes(m.ticker)
            + seq![m.decimals] + vstd::bytes::spec_u32_to_le_bytes(m.metadata.len() as u32));
        let mut i: usize = 0;
        while i < n
            invariant
                0 <= i <= n,
                n == self.token_metadata@.len(),
                m == self@,
                out@ == prefix + entries_bytes(m.metadata.take(i as int)),
                forall|j: int| 0 <= j < i ==> #[trigger] crate::codec::string_fits(m.metadata[j].0),
                forall|j: int|
                    0 <= j < i - 1 ==> #[trigger] bytes_lt(encode_utf8(m.metadata[j].0), encode_utf8(m.metadata[j + 1].0)),
            decreases n - i,
        {
            let entry = &self.token_metadata[i];
            assert(m.metadata[i as int] == (entry.0@, entry.1@));
            if i > 0 {
                let prev = &self.token_metadata[i - 1];
                assert(m.metadata[i - 1] == (prev.0@, prev.1@));
                if !bytes_less(prev.0.as_str().as_bytes(), entry.0.as_str().as_bytes()) {
                    assert(!bytes_lt(encode_utf8(m.metadata[i - 1].0), encode_utf8(m.metadata[(i - 1) + 1].0)));
                    assert(!metadata_sorted(m.metadata));
                    return None;
                }
            }
            if !push_string(&mut out, &entry.0) {
                assert(!crate::codec::string_fits(m.metadata[i as int].0));
                return None;
            }
            push_key(&mut out, &entry.1);
            assert(m.metadata.take(i + 1).drop_last() =~= m.metadata.take(i as int));
            assert(out@ =~= prefix + entries_bytes(m.metadata.take(i + 1)));
            i = i + 1;
        }
        assert(m.metadata.take(n as int) =~= m.metadata);
        Some(out)
    }

    /// Reads a record from the start of `data`; bytes after it are ignored.
    /// Metadata entries may come in any order; they are kept in ascending key
    /// order, and where a key repeats the later entry wins.
    #[verifier::loop_isolation(false)]
    pub fn from_bytes(data: &[u8]) -> (r: Option<TokenMintDetails>)
        ensures
            match r {
                Some(d) => parse_mint(data@) == Some(d@),
                None => parse_mint(data@) is None,
            },
    {
        let len = data.len();
        if len < 49 {
            return None;
        }
        let tag = data[32];
        if tag > 1 {
            return None;
        }
        let owner = read_key(data, 0);
        let supply = read_u64(data, 33);
        let circulating_supply = read_u64(data, 41);
        let (ticker, p) = match read_string(data, 49) {
            Some(x) => x,
            None => return None,
        };
        if len - p < 5 {
            return None;
        }
        let decimals = data[p];
        let count = read_u32(data, p + 1);
        let ghost start = p + 5;
        let ghost raw: Seq<(Seq<char>, Seq<u8>)> = Seq::empty();
        let mut md: Vec<(String, Key)> = Vec::new();
        let mut pos: usize = p + 5;
        let mut i: u32 = 0;
        while i < count
            invariant
                len == data@.len(),
                pos <= len,
                i <= count,
                parse_entries(data@, start, i as nat) == Some((raw, pos as int)),
                metadata_view(md@) == canonical(raw),
            decreases count - i,
        {
            let (k, end) = match read_string(data, pos) {
                Some(x) => x,
                None => {
                    proof {
                        assert(parse_entry(data@, pos as int) is None);
                        assert(parse_entries(data@, start, (i + 1) as nat) is None);
                        lemma_parse_entries_stays_none(data@, start, (i + 1) as nat, count as nat);
                    }
                    return None;
                },
            };
            if len - end < 32 {
                proof {
                    assert(parse_entry(data@, pos as int) is None);
                    assert(parse_entries(data@, start, (i + 1) as nat) is None);
                    lemma_parse_entries_stays_none(data@, start, (i + 1) as nat, count as nat);
                }
                return None;
            }
            let v = read_key(data, end);
            let ghost e = (k@, v@);
            assert(parse_entry(data@, pos as int) == Some((e, end + 32)));
            insert_metadata(&mut md, k, v);
            proof {
                assert(raw.push(e).drop_last() =~= raw);
                raw = raw.push(e);
            }
            pos = end + 32;
            i = i + 1;
        }
        let status = if tag == 0 {
            MintStatus::Ongoing
        } else {
            MintStatus::Finished
        };
        let d = TokenMintDetails {
            owner,
            status,
            supply,
            circulating_supply,
            ticker,
            decimals,
            token_metadata: md,
        };
        assert(d@.metadata == metadata_view(md@));
        Some(d)
    }
}

/// Reads a mint set-up request that fills `s` exactly: owner, supply, ticker,
/// decimals.
pub open spec fn parse_initialize_mint_input(s: Seq<u8>) -> Option<InitializeMintModel> {
    if s.len() < 40 {
        None
    } else {
        match parse_string(s, 40) {
            Some((ticker, p)) => if p + 1 == s.len() {
                Some(InitializeMintModel { owner: s.subrange(0, 32), supply: u64_at(s, 32), ticker, decimals: s[p] })
            } else {
                None
            },
            None => None,
        }
    }
}

/// Reads a request that is exactly one `u64` amount.
pub open spec fn parse_amount(s: Seq<u8>) -> Option<u64> {
    if s.len() == 8 {
        Some(u64_at(s, 0))
    } else {
        None
    }
}

impl InitializeMintInput {
    /// Reads a request that fills `data` exactly.
    pub fn from_bytes(data: &[u8]) -> (r: Option<InitializeMintInput>)
        ensures
            match r {
                Some(i) => parse_initialize_mint_input(data@) == Some(i@),
                None => parse_initialize_mint_input(data@) is None,
            },
    {
        let len = data.len();
        if len < 40 {
            return None;
        }
        let owner = read_key(data, 0);
        let supply = read_u64(data, 32);
        let (ticker, p) = match read_string(data, 40) {
            Some(x) => x,
            None => return None,
        };
        if p >= len || len - p != 1 {
            return None;
        }
        let decimals = data[p];
        Some(InitializeMintInput { owner, supply, ticker, decimals })
    }
}

impl MintInput {
    /// Reads a request that is exactly one amount.
    pub fn from_bytes(data: &[u8]) -> (r: Option<MintInput>)
        ensures
            match r {
                Some(i) => parse_amount(data@) == Some(i.amount),
                None => parse_amount(data@) is None,
            },
    {
        if data.len() != 8 {
            return None;
        }
        Some(MintInput { amount: read_u64(data, 0) })
    }
}

/// The mint record that `initialize_mint` writes: nothing minted, still open,
/// no metadata.
pub open spec fn initial_mint(input: InitializeMintModel) -> MintModel {
    MintModel {
        owner: input.owner,
        status: MintStatus::Ongoing,
        supply: input.supply,
        circulating_supply: 0,
        ticker: input.ticker,
        decimals: input.decimals,
        metadata: Seq::empty(),
    }
}

/// The record after `amount` more units were minted: the amount is added to
/// the circulating supply, and the mint finishes when that reaches the supply.
pub open spec fn minted(m: MintModel, amount: u64) -> MintModel {
    let c = (m.circulating_supply + amount) as u64;
    MintModel {
        circulating_supply: c,
        status: if c == m.supply {
            MintStatus::Finished
        } else {
            m.status
        },
        ..m
    }
}

/// One mint as far as the mint record decides it: refused once the mint is
/// finished or where not enough supply is left, else the updated record.
pub open spec fn mint_step(m: MintModel, amount: u64) -> Option<MintModel> {
    if m.status == MintStatus::Finished || m.circulating_supply + amount > m.supply {
        None
    } else {
        Some(minted(m, amount))
    }
}

/// A balance with `amount` added.
pub open spec fn credited(b: TokenBalance, amount: u64) -> TokenBalance {
    TokenBalance { current_balance: (b.current_balance + amount) as u64, ..b }
}

/// A record written at the start of a buffer reads back.
pub proof fn lemma_parse_written_mint(buffer: Seq<u8>, m: MintModel)
    requires
        mint_encodable(m),
    ensures
        parse_mint(written(buffer, mint_bytes(m))) == Some(m),
{
    if mint_bytes(m).len() > buffer.len() {
        lemma_parse_mint_bytes(m, Seq::empty());
        assert(mint_bytes(m) + Seq::<u8>::empty() =~= mint_bytes(m));
    } else {
        lemma_parse_mint_bytes(m, buffer.subrange(mint_bytes(m).len() as int, buffer.len() as int));
    }
}

/// Which check, in order, refuses to set up a mint account, if any.
pub open spec fn mint_init_error(account: AccountModel, program_id: Seq<u8>, input: InitializeMintModel) -> Option<
    LedgerError,
> {
    if account.data.len() != 0 {
        Some(LedgerError::AccountAlreadyInitialized)
    } else if account.owner != program_id {
        Some(LedgerError::IllegalOwner)
    } else if !string_fits(input.ticker) {
        Some(LedgerError::SerializationFailed)
    } else {
        None
    }
}

/// Sets up an empty, program-owned account as a new mint with nothing minted.
pub fn initialize_mint(account: &mut Account, program_id: &Key, mint_input: InitializeMintInput) -> (r: Result<
    (),
    LedgerError,
>)
    ensures
        r == match mint_init_error(old(account)@, program_id@, mint_input@) {
            Some(e) => Err::<(), LedgerError>(e),
            None => Ok(()),
        },
        r is Err ==> final(account)@ == old(account)@,
        r is Ok ==> final(account)@ == old(account)@.with_data(mint_bytes(initial_mint(mint_input@))),
        r is Ok ==> parse_mint(final(account)@.data) == Some(initial_mint(mint_input@)),
        r is Ok ==> (parse_mint(final(account)@.data)->0).circulating_supply == 0,
        r is Ok ==> (parse_mint(final(account)@.data)->0).status == MintStatus::Ongoing,
{
    if account.data.len() != 0 {
        return Err(LedgerError::AccountAlreadyInitialized);
    }
    if !keys_equal(&account.owner, program_id) {
        return Err(LedgerError::IllegalOwner);
    }
    let ghost input = mint_input@;
    let details = TokenMintDetails::new(mint_input, MintStatus::Ongoing, Vec::new());
    assert(details@.metadata =~= Seq::<(Seq<char>, Seq<u8>)>::empty());
    assert(details@ == initial_mint(input));
    let bytes = match details.to_bytes() {
        Some(b) => b,
        None => return Err(LedgerError::SerializationFailed),
    };
    write_record(&mut account.data, &bytes);
    assert(account.data@ =~= bytes@);
    proof {
        lemma_parse_written_mint(old(account)@.data, initial_mint(input));
    }
    Ok(())
}

/// Adds a request to the circulating supply; refuses, changing nothing, where
/// it exceeds the supply that is left.
pub fn add_mint_to_circulating_supply(mint_details: &mut TokenMintDetails, mint_input: &MintInput) -> (r: Result<
    (),
    LedgerError,
>)
    ensures
        old(mint_details).circulating_supply + mint_input.amount <= old(mint_details).supply ==> r is Ok
            && final(mint_details)@ == (MintModel {
            circulating_supply: (old(mint_details).circulating_supply + mint_input.amount) as u64,
            ..old(mint_details)@
        }),
        old(mint_details).circulating_supply + mint_input.amount > old(mint_details).supply ==> r == Err::<
            (),
            LedgerError,
        >(LedgerError::InsufficientFunds) && final(mint_details)@ == old(mint_details)@,
{
    if mint_details.circulating_supply > mint_details.supply || mint_input.amount > mint_details.supply
        - mint_details.circulating_supply {
        return Err(LedgerError::InsufficientFunds);
    }
    mint_details.circulating_supply = mint_details.circulating_supply + mint_input.amount;
    Ok(())
}

/// What minting decides, check by check in order: the new balance record and
/// mint record, or the first refusal.
pub open spec fn mint_tokens_outcome(
    balance_account: AccountModel,
    mint_account: AccountModel,
    owner_account: AccountModel,
    program_id: Seq<u8>,
    amount: u64,
) -> Result<(TokenBalance, MintModel), LedgerError> {
    match parse_balance(balance_account.data) {
        None => Err(LedgerError::InvalidAccountData),
        Some(tb) => if balance_account.owner != program_id {
            Err(LedgerError::Custom(BALANCE_NOT_PROGRAM_OWNED))
        } else if tb.mint_account@ != mint_account.key {
            Err(LedgerError::Custom(BALANCE_MINT_MISMATCH))
        } else if tb.owner@ != owner_account.key {
            Err(LedgerError::Custom(BALANCE_OWNER_MISMATCH))
        } else if mint_account.key == balance_account.key {
            Err(LedgerError::AccountBorrowFailed)
        } else {
            match parse_mint(mint_account.data) {
                None => Err(LedgerError::InvalidAccountData),
                Some(m) => if mint_account.owner != program_id {
                    Err(LedgerError::Custom(MINT_NOT_PROGRAM_OWNED))
                } else if m.status == MintStatus::Finished {
                    Err(LedgerError::Custom(MINT_FINISHED))
                } else if !owner_account.is_signer {
                    Err(LedgerError::MissingRequiredSignature)
                } else if m.circulating_supply + amount > m.supply {
                    Err(LedgerError::InsufficientFunds)
                } else if tb.current_balance + amount > u64::MAX {
                    Err(LedgerError::ArithmeticOverflow)
                } else {
                    Ok((credited(tb, amount), minted(m, amount)))
                },
            }
        },
    }
}

/// Mints `mint_input.amount` units into a balance account: the balance and the
/// mint's circulating supply grow by the amount, and the mint finishes when
/// its supply is reached. Both records are written back only when every check
/// passed. The signer is checked against the balance record's holder only; the
/// authority recorded in the mint is not consulted.
pub fn mint_tokens(
    balance_account: &mut Account,
    mint_account: &mut Account,
    owner_account: &Account,
    program_id: &Key,
    mint_input: MintInput,
) -> (r: Result<(), LedgerError>)
    ensures
        match mint_tokens_outcome(
            old(balance_account)@,
            old(mint_account)@,
            owner_account@,
            program_id@,
            mint_input.amount,
        ) {
            Ok((b, m)) => {
                &&& r is Ok
                &&& final(balance_account)@ == old(balance_account)@.with_data(
                    written(old(balance_account)@.data, balance_bytes(b)),
                )
                &&& final(mint_account)@ == old(mint_account)@.with_data(
                    written(old(mint_account)@.data, mint_bytes(m)),
                )
                &&& parse_balance(final(balance_account)@.data) == Some(b)
                &&& parse_mint(final(mint_account)@.data) == Some(m)
                &&& mint_step(parse_mint(old(mint_account)@.data)->0, mint_input.amount) == Some(m)
            },
            Err(e) => {
                &&& r == Err::<(), LedgerError>(e)
                &&& final(balance_account)@ == old(balance_account)@
                &&& final(mint_account)@ == old(mint_account)@
            },
        },
{
    let amount = mint_input.amount;
    let mut token_balance = match TokenBalance::from_bytes(balance_account.data.as_slice()) {
        Some(b) => b,
        None => return Err(LedgerError::InvalidAccountData),
    };
    if !keys_equal(&balance_account.owner, program_id) {
        return Err(LedgerError::Custom(BALANCE_NOT_PROGRAM_OWNED));
    }
    if !keys_equal(&token_balance.mint_account, &mint_account.key) {
        return Err(LedgerError::Custom(BALANCE_MINT_MISMATCH));
    }
    if !keys_equal(&token_balance.owner, &owner_account.key) {
        return Err(LedgerError::Custom(BALANCE_OWNER_MISMATCH));
    }
    if keys_equal(&mint_account.key, &balance_account.key) {
        return Err(LedgerError::AccountBorrowFailed);
    }
    let mut mint_details = match TokenMintDetails::from_bytes(mint_account.data.as_slice()) {
        Some(d) => d,
        None => return Err(LedgerError::InvalidAccountData),
    };
    let ghost m = mint_details@;
    let ghost tb = token_balance;
    proof {
        lemma_parse_mint_encodable(mint_account.data@);
    }
    if !keys_equal(&mint_account.owner, program_id) {
        return Err(LedgerError::Custom(MINT_NOT_PROGRAM_OWNED));
    }
    if mint_details.status == MintStatus::Finished {
        return Err(LedgerError::Custom(MINT_FINISHED));
    }
    if !owner_account.is_signer {
        return Err(LedgerError::MissingRequiredSignature);
    }
    match add_mint_to_circulating_supply(&mut mint_details, &mint_input) {
        Ok(()) => {},
        Err(e) => return Err(e),
    }
    if mint_details.circulating_supply == mint_details.supply {
        mint_details.status = MintStatus::Finished;
    }
    assert(mint_details@ == minted(m, amount));
    match token_balance.increase_balance(amount, &mint_details) {
        Ok(()) => {},
        Err(e) => return Err(e),
    }
    assert(token_balance == credited(tb, amount));
    let new_balance_bytes = token_balance.to_bytes();
    let new_mint_bytes = match mint_details.to_bytes() {
        Some(b) => b,
        None => return Err(LedgerError::SerializationFailed),
    };
    write_record(&mut balance_account.data, &new_balance_bytes);
    write_record(&mut mint_account.data, &new_mint_bytes);
    proof {
        lemma_parse_written_balance(old(balance_account)@.data, token_balance);
        lemma_parse_written_mint(old(mint_account)@.data, minted(m, amount));
    }
    Ok(())
}

} // verus!
