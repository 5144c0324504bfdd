//! Byte-level pieces of the record layouts: integers little-endian, keys as
//! their 32 bytes, strings as a `u32` byte count followed by their UTF-8 bytes.

use vstd::bytes::*;
use vstd::prelude::*;
use vstd::slice::*;
use vstd::utf8::*;

use crate::account::Key;

verus! {

/// A string as records hold it: its UTF-8 byte count as a little-endian `u32`,
/// then the bytes. Only meaningful where the count fits in a `u32`.
pub open spec fn string_bytes(cs: Seq<char>) -> Seq<u8> {
    spec_u32_to_le_bytes(encode_utf8(cs).len() as u32) + encode_utf8(cs)
}

/// Whether a string can be written with a `u32` length prefix.
pub open spec fn string_fits(cs: Seq<char>) -> bool {
    encode_utf8(cs).len() <= u32::MAX
}

/// The `u32` stored little-endian at `pos`.
pub open spec fn u32_at(s: Seq<u8>, pos: int) -> u32 {
    spec_u32_from_le_bytes(s.subrange(pos, pos + 4))
}

/// The `u64` stored little-endian at `pos`.
pub open spec fn u64_at(s: Seq<u8>, pos: int) -> u64 {
    spec_u64_from_le_bytes(s.subrange(pos, pos + 8))
}

/// Reads a length-prefixed UTF-8 string at `pos`: its characters and the
/// position just after it, or `None` where the bytes run out or are not UTF-8.
pub open spec fn parse_string(s: Seq<u8>, pos: int) -> Option<(Seq<char>, int)> {
    if 0 <= pos && pos + 4 <= s.len() {
        let n = u32_at(s, pos) as int;
        if pos + 4 + n <= s.len() && valid_utf8(s.subrange(pos + 4, pos + 4 + n)) {
            Some((decode_utf8(s.subrange(pos + 4, pos + 4 + n)), pos + 4 + n))
        } else {
            None
        }
    } else {
        None
    }
}

/// Relies on `String::from_utf8`: it accepts exactly the valid UTF-8 byte
/// sequences, and the string it returns holds those same bytes.
#[verifier::external_body]
fn string_from_utf8(bytes: Vec<u8>) -> (r: Option<String>)
    ensures
        r is Some <==> valid_utf8(bytes@),
        r matches Some(s) ==> encode_utf8(s@) == bytes@,
{
    String::from_utf8(bytes).ok()
}

/// Appends bytes to a buffer.
pub fn push_bytes(out: &mut Vec<u8>, b: &[u8])
    ensures
        final(out)@ == old(out)@ + b@,
{
    let mut i: usize = 0;
    while i < b.len()
        invariant
            0 <= i <= b@.len(),
            out@ == old(out)@ + b@.subrange(0, i as int),
        decreases b@.len() - i,
    {
        out.push(b[i]);
        i = i + 1;
        assert(out@ =~= old(out)@ + b@.subrange(0, i as int));
    }
    assert(b@.subrange(0, b@.len() as int) =~= b@);
}

/// Appends a `u32` little-endian.
pub fn push_u32(out: &mut Vec<u8>, x: u32)
    ensures
        final(out)@ == old(out)@ + spec_u32_to_le_bytes(x),
{
    let b = u32_to_le_bytes(x);
    push_bytes(out, b.as_slice());
}

/// Appends a `u64` little-endian.
pub fn push_u64(out: &mut Vec<u8>, x: u64)
    ensures
        final(out)@ == old(out)@ + spec_u64_to_le_bytes(x),
{
    let b = u64_to_le_bytes(x);
    push_bytes(out, b.as_slice());
}

/// Appends a key's 32 bytes.
pub fn push_key(out: &mut Vec<u8>, k: &Key)
    ensures
        final(out)@ == old(out)@ + k@,
{
    push_bytes(out, k.as_slice());
}

/// Appends a string with its length prefix; refuses, writing nothing, a string
/// whose UTF-8 form is longer than a `u32` can count.
pub fn push_string(out: &mut Vec<u8>, s: &String) -> (ok: bool)
    ensures
        ok == string_fits(s@),
        ok ==> final(out)@ == old(out)@ + string_bytes(s@),
        !ok ==> final(out)@ == old(out)@,
{
    let b = s.as_str().as_bytes();
    if b.len() > u32::MAX as usize {
        return false;
    }
    push_u32(out, b.len() as u32);
    push_bytes(out, b);
    assert(out@ =~= old(out)@ + string_bytes(s@));
    true
}

/// Reads the `u64` at `pos`.
pub fn read_u64(s: &[u8], pos: usize) -> (x: u64)
    requires
        pos + 8 <= s@.len(),
    ensures
        x == u64_at(s@, pos as int),
{
    let len = s.len();
    assert(pos + 8 <= len);
    u64_from_le_bytes(slice_subrange(s, pos, pos + 8))
}

/// Reads the `u32` at `pos`.
pub fn read_u32(s: &[u8], pos: usize) -> (x: u32)
    requires
        pos + 4 <= s@.len(),
    ensures
        x == u32_at(s@, pos as int),
{
    let len = s.len();
    assert(pos + 4 <= len);
    u32_from_le_bytes(slice_subrange(s, pos, pos + 4))
}

/// Reads the 32-byte key at `pos`.
pub fn read_key(s: &[u8], pos: usize) -> (k: Key)
    requires
        pos + 32 <= s@.len(),
    ensures
        k@ == s@.subrange(pos as int, pos + 32),
{
    let len = s.len();
    let mut k: Key = [0u8; 32];
    let mut i: usize = 0;
    while i < 32
        invariant
            0 <= i <= 32,
            pos + 32 <= len,
            len == s@.len(),
            k@.len() == 32,
            forall|j: int| 0 <= j < i ==> k@[j] == s@[pos + j],
        decreases 32 - i,
    {
        k[i] = s[pos + i];
        i = i + 1;
    }
    assert(k@ =~= s@.subrange(pos as int, pos + 32));
    k
}

/// Reads the length-prefixed string at `pos`, with the position after it.
pub fn read_string(s: &[u8], pos: usize) -> (r: Option<(String, usize)>)
    ensures
        match (r, parse_string(s@, pos as int)) {
            (Some((st, end)), Some((cs, e))) => st@ == cs && end == e,
            (None, None) => true,
            _ => false,
        },
{
    if pos > s.len() || s.len() - pos < 4 {
        return None;
    }
    let n = read_u32(s, pos) as usize;
    if s.len() - pos - 4 < n {
        return None;
    }
    let raw = slice_to_vec(slice_subrange(s, pos + 4, pos + 4 + n));
    let ghost raw_view = raw@;
    match string_from_utf8(raw) {
        Some(st) => {
            proof {
                encode_utf8_decode_utf8(st@);
            }
            Some((st, pos + 4 + n))
        },
        None => None,
    }
}

} // verus!
