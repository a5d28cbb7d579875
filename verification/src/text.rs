//! Small text utilities: Latin-1 (byte-to-codepoint) decoding, ASCII case
//! handling, and conversions between `String` and `Vec<char>`.

use vstd::prelude::*;
use vstd::string::StrSliceExecFns;
use vstd::utf8::{valid_utf8, decode_utf8};

verus! {

/// Relies on std's `str::from_utf8`: it succeeds exactly on valid UTF-8
/// and yields the text those bytes encode.
#[verifier::external_body]
pub fn bytes_to_utf8(b: &[u8]) -> (r: Option<String>)
    ensures
        r is Some <==> valid_utf8(b@),
        r matches Some(s) ==> s@ == decode_utf8(b@),
{
    match std::str::from_utf8(b) {
        Ok(s) => Some(s.to_string()),
        Err(_) => None,
    }
}

/// The Latin-1 interpretation of a byte sequence: every byte becomes the
/// character with the same code point, so no input is ever rejected.
pub open spec fn latin1(bytes: Seq<u8>) -> Seq<char> {
    bytes.map_values(|b: u8| b as char)
}

/// Relies on `core::iter::Iterator::collect` for `String`: collecting a
/// sequence of `char`s yields the string of exactly those characters in order.
#[verifier::external_body]
pub fn chars_to_string(v: &Vec<char>) -> (r: String)
    ensures
        r@ == v@,
{
    v.iter().collect()
}

/// Collect the characters of a string slice into a vector.
pub fn str_chars(s: &str) -> (r: Vec<char>)
    ensures
        r@ == s@,
{
    let len = s.unicode_len();
    let mut v: Vec<char> = Vec::new();
    let mut i: usize = 0;
    while i < len
        invariant
            i <= len,
            len == s@.len(),
            v@ =~= s@.subrange(0, i as int),
        decreases len - i,
    {
        v.push(s.get_char(i));
        i = i + 1;
    }
    assert(v@ =~= s@);
    v
}

/// Copy the character range `[a, b)` of `v` into a fresh vector.
pub fn subvec(v: &Vec<char>, a: usize, b: usize) -> (r: Vec<char>)
    requires
        a <= b <= v@.len(),
    ensures
        r@ == v@.subrange(a as int, b as int),
{
    let mut out: Vec<char> = Vec::new();
    let mut i: usize = a;
    while i < b
        invariant
            a <= i <= b <= v@.len(),
            out@ =~= v@.subrange(a as int, i as int),
        decreases b - i,
    {
        out.push(v[i]);
        i = i + 1;
    }
    assert(out@ =~= v@.subrange(a as int, b as int));
    out
}

/// Whether two string slices hold the same characters.
pub fn str_eq(a: &str, b: &str) -> (r: bool)
    ensures
        r == (a@ == b@),
{
    let n = a.unicode_len();
    let m = b.unicode_len();
    if n != m {
        return false;
    }
    let mut i: usize = 0;
    while i < n
        invariant
            i <= n,
            n == a@.len() == b@.len(),
            forall|j: int| 0 <= j < i ==> a@[j] == b@[j],
        decreases n - i,
    {
        if a.get_char(i) != b.get_char(i) {
            return false;
        }
        i = i + 1;
    }
    proof {
        assert(a@ =~= b@);
    }
    true
}

/// The ASCII-lowercase counterpart of a character: letters `A` to `Z` map
/// to `a` to `z`, everything else stays.
pub open spec fn lower_char(c: char) -> char {
    if 'A' <= c <= 'Z' {
        ((c as u32) + 32) as char
    } else {
        c
    }
}

/// The ASCII-lowercase counterpart of a character sequence.
pub open spec fn to_lower(s: Seq<char>) -> Seq<char> {
    s.map_values(|c: char| lower_char(c))
}

/// Lowercase one character, ASCII-only.
pub fn lower_char_exec(c: char) -> (r: char)
    ensures
        r == lower_char(c),
{
    if 'A' <= c && c <= 'Z' {
        (((c as u32) as u8) + 32) as char
    } else {
        c
    }
}

/// The ASCII-lowercase copy of the character range `[a, b)` of `v`.
pub fn lower_range(v: &Vec<char>, a: usize, b: usize) -> (r: Vec<char>)
    requires
        a <= b <= v@.len(),
    ensures
        r@ == to_lower(v@.subrange(a as int, b as int)),
{
    let mut out: Vec<char> = Vec::new();
    let mut i: usize = a;
    while i < b
        invariant
            a <= i <= b <= v@.len(),
            out@ =~= to_lower(v@.subrange(a as int, i as int)),
        decreases b - i,
    {
        out.push(lower_char_exec(v[i]));
        i = i + 1;
    }
    assert(out@ =~= to_lower(v@.subrange(a as int, b as int)));
    out
}

/// The ASCII-lowercase copy of a string.
pub fn lower_string(s: &str) -> (r: String)
    ensures
        r@ == to_lower(s@),
{
    let cs = str_chars(s);
    let lowered = lower_range(&cs, 0, cs.len());
    proof {
        assert(cs@.subrange(0, cs@.len() as int) =~= cs@);
    }
    chars_to_string(&lowered)
}

/// Decode bytes as Latin-1: each byte maps to the code point of the same
/// value. Total: printable ASCII passes through unchanged and nothing is
/// ever lost.
pub fn decode_latin1(bytes: &[u8]) -> (r: String)
    ensures
        r@ == latin1(bytes@),
{
    let v = latin1_chars(bytes);
    chars_to_string(&v)
}

/// The Latin-1 characters of a byte sequence, as a vector.
pub fn latin1_chars(bytes: &[u8]) -> (r: Vec<char>)
    ensures
        r@ == latin1(bytes@),
{
    let mut v: Vec<char> = Vec::new();
    let mut i: usize = 0;
    while i < bytes.len()
        invariant
            i <= bytes.len(),
            v@ =~= latin1(bytes@).subrange(0, i as int),
        decreases bytes.len() - i,
    {
        v.push(bytes[i] as char);
        i = i + 1;
    }
    assert(v@ =~= latin1(bytes@));
    v
}

} // verus!
