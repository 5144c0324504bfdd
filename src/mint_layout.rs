//! The byte layout of a mint record, as a function from the record's model to
//! bytes and as a parser from bytes back to a model, with the facts that tie
//! the two together.

use vstd::bytes::*;
use vstd::prelude::*;
use vstd::utf8::*;

use crate::codec::{parse_string, string_bytes, string_fits, u32_at, u64_at};
use crate::mint::{MintModel, MintStatus};

verus! {

/// The tag byte of a status.
pub open spec fn status_byte(s: MintStatus) -> u8 {
    match s {
        MintStatus::Ongoing => 0,
        MintStatus::Finished => 1,
    }
}

/// One metadata entry: the key as a string, then the 32-byte value.
pub open spec fn entry_bytes(e: (Seq<char>, Seq<u8>)) -> Seq<u8> {
    string_bytes(e.0) + e.1
}

/// The metadata entries, one after the other.
pub open spec fn entries_bytes(es: Seq<(Seq<char>, Seq<u8>)>) -> Seq<u8>
    decreases es.len(),
{
    if es.len() == 0 {
        Seq::empty()
    } else {
        entries_bytes(es.drop_last()) + entry_bytes(es.last())
    }
}

/// Length of the fixed part before the ticker: owner, status, supply, circulating supply.
pub open spec fn mint_head_len() -> int {
    49
}

/// A mint record's bytes: owner, status tag, supply, circulating supply,
/// ticker, decimals, then the number of metadata entries as a `u32` and the
/// entries.
pub open spec fn mint_bytes(m: MintModel) -> Seq<u8> {
    m.owner + seq![status_byte(m.status)] + spec_u64_to_le_bytes(m.supply) + spec_u64_to_le_bytes(
        m.circulating_supply,
    ) + string_bytes(m.ticker) + seq![m.decimals] + spec_u32_to_le_bytes(m.metadata.len() as u32)
        + entries_bytes(m.metadata)
}

/// Lexicographic order of byte strings, a proper prefix coming first.
pub open spec fn bytes_lt(a: Seq<u8>, b: Seq<u8>) -> bool
    decreases a.len(),
{
    if a.len() == 0 {
        b.len() > 0
    } else if b.len() == 0 {
        false
    } else if a[0] != b[0] {
        a[0] < b[0]
    } else {
        bytes_lt(a.drop_first(), b.drop_first())
    }
}

/// Metadata keys stand in strictly ascending order of their UTF-8 bytes.
pub open spec fn metadata_sorted(md: Seq<(Seq<char>, Seq<u8>)>) -> bool {
    forall|i: int|
        0 <= i < md.len() - 1 ==> #[trigger] bytes_lt(encode_utf8(md[i].0), encode_utf8(md[i + 1].0))
}

/// Every length in the record fits its `u32` prefix, keys are in order, and
/// the fixed-size fields have their sizes.
pub open spec fn mint_encodable(m: MintModel) -> bool {
    &&& m.owner.len() == 32
    &&& string_fits(m.ticker)
    &&& m.metadata.len() <= u32::MAX
    &&& forall|i: int| 0 <= i < m.metadata.len() ==> #[trigger] string_fits(m.metadata[i].0)
    &&& forall|i: int| 0 <= i < m.metadata.len() ==> (#[trigger] m.metadata[i]).1.len() == 32
    &&& metadata_sorted(m.metadata)
}

/// Reads one metadata entry at `pos`.
pub open spec fn parse_entry(s: Seq<u8>, pos: int) -> Option<((Seq<char>, Seq<u8>), int)> {
    match parse_string(s, pos) {
        Some((k, p)) => if p + 32 <= s.len() {
            Some(((k, s.subrange(p, p + 32)), p + 32))
        } else {
            None
        },
        None => None,
    }
}

/// Reads `k` metadata entries starting at `pos`.
pub open spec fn parse_entries(s: Seq<u8>, pos: int, k: nat) -> Option<(Seq<(Seq<char>, Seq<u8>)>, int)>
    decreases k,
{
    if k == 0 {
        Some((Seq::empty(), pos))
    } else {
        match parse_entries(s, pos, (k - 1) as nat) {
            Some((es, p)) => match parse_entry(s, p) {
                Some((e, end)) => Some((es.push(e), end)),
                None => None,
            },
            None => None,
        }
    }
}

/// Reads a mint record from the start of `s`; bytes after it are ignored.
/// Metadata entries may come in any order; where a key repeats, the later
/// entry wins.
pub open spec fn parse_mint(s: Seq<u8>) -> Option<MintModel> {
    if s.len() < mint_head_len() || s[32] > 1 {
        None
    } else {
        match parse_string(s, mint_head_len()) {
            None => None,
            Some((ticker, p)) => if p + 5 > s.len() {
                None
            } else {
                match parse_entries(s, p + 5, u32_at(s, p + 1) as nat) {
                    None => None,
                    Some((md, _)) => Some(
                        MintModel {
                            owner: s.subrange(0, 32),
                            status: if s[32] == 0 {
                                MintStatus::Ongoing
                            } else {
                                MintStatus::Finished
                            },
                            supply: u64_at(s, 33),
                            circulating_supply: u64_at(s, 41),
                            ticker,
                            decimals: s[p],
                            metadata: canonical(md),
                        },
                    ),
                }
            },
        }
    }
}

/// Puts an entry into metadata kept in ascending key order, replacing an
/// entry with the same key.
pub open spec fn insert_entry(md: Seq<(Seq<char>, Seq<u8>)>, e: (Seq<char>, Seq<u8>)) -> Seq<
    (Seq<char>, Seq<u8>),
>
    decreases md.len(),
{
    if md.len() == 0 {
        seq![e]
    } else if encode_utf8(md[0].0) == encode_utf8(e.0) {
        seq![e] + md.drop_first()
    } else if bytes_lt(encode_utf8(e.0), encode_utf8(md[0].0)) {
        seq![e] + md
    } else {
        seq![md[0]] + insert_entry(md.drop_first(), e)
    }
}

/// The metadata that a list of entries amounts to: each put in turn.
pub open spec fn canonical(es: Seq<(Seq<char>, Seq<u8>)>) -> Seq<(Seq<char>, Seq<u8>)>
    decreases es.len(),
{
    if es.len() == 0 {
        Seq::empty()
    } else {
        insert_entry(canonical(es.drop_last()), es.last())
    }
}

/// No byte string comes before itself.
pub proof fn lemma_bytes_lt_irreflexive(a: Seq<u8>)
    ensures
        !bytes_lt(a, a),
    decreases a.len(),
{
    if a.len() > 0 {
        lemma_bytes_lt_irreflexive(a.drop_first());
    }
}

/// The order of byte strings is transitive.
pub proof fn lemma_bytes_lt_transitive(a: Seq<u8>, b: Seq<u8>, c: Seq<u8>)
    requires
        bytes_lt(a, b),
        bytes_lt(b, c),
    ensures
        bytes_lt(a, c),
    decreases a.len(),
{
    if a.len() > 0 && b.len() > 0 && c.len() > 0 && a[0] == b[0] && b[0] == c[0] {
        lemma_bytes_lt_transitive(a.drop_first(), b.drop_first(), c.drop_first());
    }
}

/// Of two different byte strings, one comes first.
pub proof fn lemma_bytes_lt_total(a: Seq<u8>, b: Seq<u8>)
    requires
        a != b,
    ensures
        bytes_lt(a, b) || bytes_lt(b, a),
    decreases a.len(),
{
    if a.len() == 0 && b.len() == 0 {
        assert(a =~= b);
    } else if a.len() > 0 && b.len() > 0 && a[0] == b[0] {
        if a.drop_first() == b.drop_first() {
            assert(a.drop_first().len() == b.drop_first().len());
            assert(a.len() == b.len());
            assert forall|i: int| 0 <= i < a.len() implies a[i] == b[i] by {
                if i > 0 {
                    assert(a[i] == a.drop_first()[i - 1]);
                    assert(b[i] == b.drop_first()[i - 1]);
                }
            }
            assert(a =~= b);
        }
        lemma_bytes_lt_total(a.drop_first(), b.drop_first());
    }
}

/// Two byte strings are not each before the other.
pub proof fn lemma_bytes_lt_asymmetric(a: Seq<u8>, b: Seq<u8>)
    requires
        bytes_lt(a, b),
    ensures
        !bytes_lt(b, a),
{
    if bytes_lt(b, a) {
        lemma_bytes_lt_transitive(a, b, a);
        lemma_bytes_lt_irreflexive(a);
    }
}

/// Inserting keeps the metadata in order, adds at most one entry, and brings
/// in no entry but the inserted one.
pub proof fn lemma_insert_entry(md: Seq<(Seq<char>, Seq<u8>)>, e: (Seq<char>, Seq<u8>))
    requires
        metadata_sorted(md),
    ensures
        metadata_sorted(insert_entry(md, e)),
        insert_entry(md, e).len() <= md.len() + 1,
        insert_entry(md, e).len() > 0,
        insert_entry(md, e)[0] == e || (md.len() > 0 && insert_entry(md, e)[0] == md[0]),
        forall|x| #[trigger] insert_entry(md, e).contains(x) ==> x == e || md.contains(x),
    decreases md.len(),
{
    let r = insert_entry(md, e);
    if md.len() == 0 {
        assert forall|x| #[trigger] r.contains(x) implies x == e || md.contains(x) by {
            let i = choose|i: int| 0 <= i < r.len() && r[i] == x;
        }
    } else if encode_utf8(md[0].0) == encode_utf8(e.0) {
        assert forall|i: int| 0 <= i < r.len() - 1 implies #[trigger] bytes_lt(
            encode_utf8(r[i].0),
            encode_utf8(r[i + 1].0),
        ) by {
            assert(bytes_lt(encode_utf8(md[i].0), encode_utf8(md[i + 1].0)));
        }
        assert forall|x| #[trigger] r.contains(x) implies x == e || md.contains(x) by {
            let i = choose|i: int| 0 <= i < r.len() && r[i] == x;
            if i > 0 {
                assert(md[i] == x);
            }
        }
    } else if bytes_lt(encode_utf8(e.0), encode_utf8(md[0].0)) {
        assert forall|i: int| 0 <= i < r.len() - 1 implies #[trigger] bytes_lt(
            encode_utf8(r[i].0),
            encode_utf8(r[i + 1].0),
        ) by {
            if i > 0 {
                assert(bytes_lt(encode_utf8(md[i - 1].0), encode_utf8(md[(i - 1) + 1].0)));
            }
        }
        assert forall|x| #[trigger] r.contains(x) implies x == e || md.contains(x) by {
            let i = choose|i: int| 0 <= i < r.len() && r[i] == x;
            if i > 0 {
                assert(md[i - 1] == x);
            }
        }
    } else {
        let rest = md.drop_first();
        assert forall|i: int| 0 <= i < rest.len() - 1 implies #[trigger] bytes_lt(
            encode_utf8(rest[i].0),
            encode_utf8(rest[i + 1].0),
        ) by {
            assert(bytes_lt(encode_utf8(md[i + 1].0), encode_utf8(md[(i + 1) + 1].0)));
        }
        lemma_insert_entry(rest, e);
        let tail = insert_entry(rest, e);
        lemma_bytes_lt_total(encode_utf8(md[0].0), encode_utf8(e.0));
        assert forall|i: int| 0 <= i < r.len() - 1 implies #[trigger] bytes_lt(
            encode_utf8(r[i].0),
            encode_utf8(r[i + 1].0),
        ) by {
            if i == 0 {
                if tail[0] != e {
                    assert(bytes_lt(encode_utf8(md[0].0), encode_utf8(md[0int + 1].0)));
                }
            } else {
                assert(bytes_lt(encode_utf8(tail[i - 1].0), encode_utf8(tail[(i - 1) + 1].0)));
            }
        }
        assert forall|x| #[trigger] r.contains(x) implies x == e || md.contains(x) by {
            let i = choose|i: int| 0 <= i < r.len() && r[i] == x;
            if i > 0 {
                assert(tail[i - 1] == x);
                assert(tail.contains(x));
                if x != e {
                    let j = choose|j: int| 0 <= j < rest.len() && rest[j] == x;
                    assert(md[j + 1] == x);
                }
            }
        }
    }
}

/// What canonical metadata is: in order, no longer than the entries it came
/// from, and made of them only.
pub proof fn lemma_canonical(es: Seq<(Seq<char>, Seq<u8>)>)
    ensures
        metadata_sorted(canonical(es)),
        canonical(es).len() <= es.len(),
        forall|x| #[trigger] canonical(es).contains(x) ==> es.contains(x),
    decreases es.len(),
{
    if es.len() > 0 {
        let init = es.drop_last();
        lemma_canonical(init);
        lemma_insert_entry(canonical(init), es.last());
        assert forall|x| #[trigger] canonical(es).contains(x) implies es.contains(x) by {
            if x != es.last() {
                assert(canonical(init).contains(x));
                let j = choose|j: int| 0 <= j < init.len() && init[j] == x;
                assert(es[j] == x);
            } else {
                assert(es[es.len() - 1] == x);
            }
        }
    }
}

/// In ordered metadata every key comes before every later one.
pub proof fn lemma_sorted_pairwise(md: Seq<(Seq<char>, Seq<u8>)>, i: int, j: int)
    requires
        metadata_sorted(md),
        0 <= i < j < md.len(),
    ensures
        bytes_lt(encode_utf8(md[i].0), encode_utf8(md[j].0)),
    decreases j - i,
{
    assert(bytes_lt(encode_utf8(md[j - 1].0), encode_utf8(md[(j - 1) + 1].0)));
    if j > i + 1 {
        lemma_sorted_pairwise(md, i, j - 1);
        lemma_bytes_lt_transitive(encode_utf8(md[i].0), encode_utf8(md[j - 1].0), encode_utf8(md[j].0));
    }
}

/// An entry whose key comes after all others goes at the end.
pub proof fn lemma_insert_greatest(md: Seq<(Seq<char>, Seq<u8>)>, e: (Seq<char>, Seq<u8>))
    requires
        forall|i: int| 0 <= i < md.len() ==> #[trigger] bytes_lt(encode_utf8(md[i].0), encode_utf8(e.0)),
    ensures
        insert_entry(md, e) == md.push(e),
    decreases md.len(),
{
    if md.len() == 0 {
        assert(seq![e] =~= md.push(e));
    } else {
        assert(bytes_lt(encode_utf8(md[0].0), encode_utf8(e.0)));
        lemma_bytes_lt_irreflexive(encode_utf8(e.0));
        lemma_bytes_lt_asymmetric(encode_utf8(md[0].0), encode_utf8(e.0));
        let rest = md.drop_first();
        assert forall|i: int| 0 <= i < rest.len() implies #[trigger] bytes_lt(
            encode_utf8(rest[i].0),
            encode_utf8(e.0),
        ) by {
            assert(bytes_lt(encode_utf8(md[i + 1].0), encode_utf8(e.0)));
        }
        lemma_insert_greatest(rest, e);
        assert(seq![md[0]] + rest.push(e) =~= md.push(e));
    }
}

/// Metadata already in order is its own canonical form.
pub proof fn lemma_canonical_of_sorted(es: Seq<(Seq<char>, Seq<u8>)>)
    requires
        metadata_sorted(es),
    ensures
        canonical(es) == es,
    decreases es.len(),
{
    if es.len() > 0 {
        let init = es.drop_last();
        assert forall|i: int| 0 <= i < init.len() - 1 implies #[trigger] bytes_lt(
            encode_utf8(init[i].0),
            encode_utf8(init[i + 1].0),
        ) by {
            assert(bytes_lt(encode_utf8(es[i].0), encode_utf8(es[i + 1].0)));
        }
        lemma_canonical_of_sorted(init);
        assert forall|i: int| 0 <= i < init.len() implies #[trigger] bytes_lt(
            encode_utf8(init[i].0),
            encode_utf8(es.last().0),
        ) by {
            lemma_sorted_pairwise(es, i, es.len() - 1);
        }
        lemma_insert_greatest(init, es.last());
        assert(init.push(es.last()) =~= es);
    }
}

/// A string written after `pre` reads back, whatever follows it.
pub proof fn lemma_parse_string_bytes(pre: Seq<u8>, cs: Seq<char>, rest: Seq<u8>)
    requires
        string_fits(cs),
    ensures
        parse_string(pre + string_bytes(cs) + rest, pre.len() as int) == Some(
            (cs, (pre.len() + string_bytes(cs).len()) as int),
        ),
        string_bytes(cs).len() == 4 + encode_utf8(cs).len(),
{
    lemma_auto_spec_u32_to_from_le_bytes();
    encode_utf8_valid_utf8(cs);
    encode_utf8_decode_utf8(cs);
    let s = pre + string_bytes(cs) + rest;
    let p = pre.len() as int;
    let n = encode_utf8(cs).len();
    let four = spec_u32_to_le_bytes(n as u32);
    assert(s.subrange(p, p + 4) =~= four);
    assert(s.subrange(p + 4, p + 4 + n) =~= encode_utf8(cs));
}

/// Entries written after `pre` read back, whatever follows them.
pub proof fn lemma_parse_entries_bytes(pre: Seq<u8>, es: Seq<(Seq<char>, Seq<u8>)>, rest: Seq<u8>)
    requires
        forall|i: int| 0 <= i < es.len() ==> #[trigger] string_fits(es[i].0),
        forall|i: int| 0 <= i < es.len() ==> (#[trigger] es[i]).1.len() == 32,
    ensures
        parse_entries(pre + entries_bytes(es) + rest, pre.len() as int, es.len()) == Some(
            (es, (pre.len() + entries_bytes(es).len()) as int),
        ),
    decreases es.len(),
{
    let s = pre + entries_bytes(es) + rest;
    if es.len() == 0 {
        assert(es =~= Seq::<(Seq<char>, Seq<u8>)>::empty());
    } else {
        let init = es.drop_last();
        let e = es.last();
        assert forall|i: int| 0 <= i < init.len() implies #[trigger] string_fits(init[i].0) by {
            assert(init[i] == es[i]);
        }
        assert forall|i: int| 0 <= i < init.len() implies (#[trigger] init[i]).1.len() == 32 by {
            assert(init[i] == es[i]);
        }
        assert(string_fits(es[es.len() - 1].0));
        assert(es[es.len() - 1].1.len() == 32);
        let rest2 = entry_bytes(e) + rest;
        assert(s =~= pre + entries_bytes(init) + rest2);
        lemma_parse_entries_bytes(pre, init, rest2);
        let pre2 = pre + entries_bytes(init);
        let rest3 = e.1 + rest;
        assert(s =~= pre2 + string_bytes(e.0) + rest3);
        lemma_parse_string_bytes(pre2, e.0, rest3);
        let p = (pre2.len() + string_bytes(e.0).len()) as int;
        assert(s.subrange(p, p + 32) =~= e.1);
        assert(init.push(e) =~= es);
    }
}

/// What parsing entries yields: as many entries as asked for, each with a
/// key that fits its prefix and a 32-byte value.
pub proof fn lemma_parse_entries_fit(s: Seq<u8>, pos: int, k: nat)
    requires
        parse_entries(s, pos, k) is Some,
    ensures
        (parse_entries(s, pos, k)->0).0.len() == k,
        forall|i: int| 0 <= i < k ==> #[trigger] string_fits((parse_entries(s, pos, k)->0).0[i].0),
        forall|i: int| 0 <= i < k ==> (#[trigger] (parse_entries(s, pos, k)->0).0[i]).1.len() == 32,
    decreases k,
{
    if k > 0 {
        lemma_parse_entries_fit(s, pos, (k - 1) as nat);
        let (es, p) = parse_entries(s, pos, (k - 1) as nat)->0;
        lemma_parse_string_fits(s, p);
        let all = (parse_entries(s, pos, k)->0).0;
        assert forall|i: int| 0 <= i < k implies #[trigger] string_fits(all[i].0) by {
            if i < k - 1 {
                assert(all[i] == es[i]);
            }
        }
    }
}

/// A string that parses can be written back with a `u32` prefix.
pub proof fn lemma_parse_string_fits(s: Seq<u8>, pos: int)
    requires
        parse_string(s, pos) is Some,
    ensures
        string_fits((parse_string(s, pos)->0).0),
{
    let n = u32_at(s, pos) as int;
    let raw = s.subrange(pos + 4, pos + 4 + n);
    decode_utf8_encode_utf8(raw);
}

/// A record that parses can be written back.
pub proof fn lemma_parse_mint_encodable(s: Seq<u8>)
    requires
        parse_mint(s) is Some,
    ensures
        mint_encodable(parse_mint(s)->0),
{
    let (ticker, p) = parse_string(s, mint_head_len())->0;
    lemma_parse_string_fits(s, mint_head_len());
    let count = u32_at(s, p + 1) as nat;
    lemma_parse_entries_fit(s, p + 5, count);
    let raw = (parse_entries(s, p + 5, count)->0).0;
    lemma_canonical(raw);
    let md = canonical(raw);
    assert forall|i: int| 0 <= i < md.len() implies #[trigger] string_fits(md[i].0) by {
        assert(md.contains(md[i]));
        let j = choose|j: int| 0 <= j < raw.len() && raw[j] == md[i];
        assert(string_fits(raw[j].0));
    }
    assert forall|i: int| 0 <= i < md.len() implies (#[trigger] md[i]).1.len() == 32 by {
        assert(md.contains(md[i]));
        let j = choose|j: int| 0 <= j < raw.len() && raw[j] == md[i];
        assert(raw[j].1.len() == 32);
    }
    assert(raw.len() == count);
    assert((parse_mint(s)->0).metadata == md);
}

/// Writing a record and reading it back gives the record, whatever follows it.
pub proof fn lemma_parse_mint_bytes(m: MintModel, rest: Seq<u8>)
    requires
        mint_encodable(m),
    ensures
        parse_mint(mint_bytes(m) + rest) == Some(m),
{
    lemma_auto_spec_u64_to_from_le_bytes();
    lemma_auto_spec_u32_to_from_le_bytes();
    let s = mint_bytes(m) + rest;
    let head = m.owner + seq![status_byte(m.status)] + spec_u64_to_le_bytes(m.supply)
        + spec_u64_to_le_bytes(m.circulating_supply);
    assert(head.len() == 49);
    let tail = seq![m.decimals] + spec_u32_to_le_bytes(m.metadata.len() as u32) + entries_bytes(
        m.metadata,
    ) + rest;
    assert(s =~= head + string_bytes(m.ticker) + tail);
    lemma_parse_string_bytes(head, m.ticker, tail);
    let p = (head.len() + string_bytes(m.ticker).len()) as int;
    assert(s[p] == m.decimals);
    assert(s.subrange(p + 1, p + 5) =~= spec_u32_to_le_bytes(m.metadata.len() as u32));
    let pre = head + string_bytes(m.ticker) + seq![m.decimals] + spec_u32_to_le_bytes(
        m.metadata.len() as u32,
    );
    assert(s =~= pre + entries_bytes(m.metadata) + rest);
    lemma_parse_entries_bytes(pre, m.metadata, rest);
    assert(s.subrange(0, 32) =~= m.owner);
    assert(s.subrange(33, 41) =~= spec_u64_to_le_bytes(m.supply));
    assert(s.subrange(41, 49) =~= spec_u64_to_le_bytes(m.circulating_supply));
    assert(s[32] == status_byte(m.status));
    lemma_canonical_of_sorted(m.metadata);
}

} // verus!
