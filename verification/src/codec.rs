//! Transfer-encoding codecs: quoted-printable and base64 decoding of body
//! bytes. Quoted-printable decoding is lenient and total (malformed escapes
//! stay literal); base64 decoding rejects bytes outside the standard alphabet
//! and impossible lengths.

use vstd::prelude::*;
use crate::ascii::{TAB, LF, CR, SP, PLUS, SLASH, D0, D9, EQUALS, UA, UF, UZ, LA, LF_LETTER, LZ};

verus! {

/// The value of an ASCII hex digit, or `None` for any other byte.
pub open spec fn hex_val(b: u8) -> Option<u8> {
    if D0 <= b <= D9 {
        Some((b - D0) as u8)
    } else if UA <= b <= UF {
        Some((b - UA + 10) as u8)
    } else if LA <= b <= LF_LETTER {
        Some((b - LA + 10) as u8)
    } else {
        None
    }
}

fn hex_digit(b: u8) -> (r: Option<u8>)
    ensures
        r == hex_val(b),
{
    if D0 <= b && b <= D9 {
        Some(b - D0)
    } else if UA <= b && b <= UF {
        Some(b - UA + 10)
    } else if LA <= b && b <= LF_LETTER {
        Some(b - LA + 10)
    } else {
        None
    }
}

/// Quoted-printable decoding per RFC 2045, leniently: `=` followed by two hex
/// digits yields that byte, a soft line break (`=` before a line ending) is
/// removed, and any other `=` — or any other byte — passes through literally,
/// so decoding never fails and never drops data.
pub open spec fn qp_decoded(s: Seq<u8>) -> Seq<u8>
    decreases s.len(),
{
    if s.len() == 0 {
        Seq::empty()
    } else if s[0] == EQUALS && s.len() >= 3 && hex_val(s[1]) is Some && hex_val(s[2]) is Some {
        seq![(hex_val(s[1])->0 * 16 + hex_val(s[2])->0) as u8] + qp_decoded(s.skip(3))
    } else if s[0] == EQUALS && s.len() >= 3 && s[1] == CR && s[2] == LF {
        qp_decoded(s.skip(3))
    } else if s[0] == EQUALS && s.len() >= 2 && s[1] == LF {
        qp_decoded(s.skip(2))
    } else {
        seq![s[0]] + qp_decoded(s.skip(1))
    }
}

/// Decode quoted-printable bytes. Total: malformed escapes stay literal.
pub fn decode_quoted_printable(s: &[u8]) -> (r: Vec<u8>)
    ensures
        r@ == qp_decoded(s@),
{
    let mut out: Vec<u8> = Vec::new();
    let mut i: usize = 0;
    proof {
        assert(s@.skip(0) =~= s@);
        assert(out@ + qp_decoded(s@) =~= qp_decoded(s@));
    }
    while i < s.len()
        invariant
            i <= s.len(),
            qp_decoded(s@) == out@ + qp_decoded(s@.skip(i as int)),
        decreases s.len() - i,
    {
        let ghost pre = s@.skip(i as int);
        if s[i] == EQUALS && s.len() - i > 2 && hex_digit(s[i + 1]).is_some()
            && hex_digit(s[i + 2]).is_some() {
            let hi = hex_digit(s[i + 1]).unwrap();
            let lo = hex_digit(s[i + 2]).unwrap();
            out.push(hi * 16 + lo);
            i = i + 3;
            proof {
                assert(pre.skip(3) =~= s@.skip(i as int));
            }
        } else if s[i] == EQUALS && s.len() - i > 2 && s[i + 1] == CR && s[i + 2] == LF {
            i = i + 3;
            proof {
                assert(pre.skip(3) =~= s@.skip(i as int));
            }
        } else if s[i] == EQUALS && s.len() - i > 1 && s[i + 1] == LF {
            i = i + 2;
            proof {
                assert(pre.skip(2) =~= s@.skip(i as int));
            }
        } else {
            out.push(s[i]);
            i = i + 1;
            proof {
                assert(pre.skip(1) =~= s@.skip(i as int));
            }
        }
    }
    proof {
        assert(s@.skip(s@.len() as int) =~= Seq::<u8>::empty());
        assert(out@ =~= qp_decoded(s@));
    }
    out
}

/// The value of a byte in the standard base64 alphabet, or `None` for any
/// other byte (padding included).
pub open spec fn b64_val(b: u8) -> Option<u8> {
    if UA <= b <= UZ {
        Some((b - UA) as u8)
    } else if LA <= b <= LZ {
        Some((b - LA + 26) as u8)
    } else if D0 <= b <= D9 {
        Some((b - D0 + 52) as u8)
    } else if b == PLUS {
        Some(62u8)
    } else if b == SLASH {
        Some(63u8)
    } else {
        None
    }
}

fn b64_digit(b: u8) -> (r: Option<u8>)
    ensures
        r == b64_val(b),
{
    if UA <= b && b <= UZ {
        Some(b - UA)
    } else if LA <= b && b <= LZ {
        Some(b - LA + 26)
    } else if D0 <= b && b <= D9 {
        Some(b - D0 + 52)
    } else if b == PLUS {
        Some(62u8)
    } else if b == SLASH {
        Some(63u8)
    } else {
        None
    }
}

/// Whether every byte of `s` is in the base64 alphabet.
pub open spec fn all_b64(s: Seq<u8>) -> bool {
    forall|i: int| 0 <= i < s.len() ==> b64_val(s[i]) is Some
}

/// The bytes encoded by a base64 symbol sequence whose bytes are all in the
/// alphabet: each group of four symbols carries three bytes, a trailing group
/// of three carries two, of two carries one, and a trailing single symbol
/// carries nothing.
pub open spec fn b64_decoded(s: Seq<u8>) -> Seq<u8>
    decreases s.len(),
{
    let v0 = b64_val(s[0])->0;
    let v1 = b64_val(s[1])->0;
    let v2 = b64_val(s[2])->0;
    if s.len() >= 4 {
        let v3 = b64_val(s[3])->0;
        seq![
            (v0 * 4 + v1 / 16) as u8,
            ((v1 % 16) * 16 + v2 / 4) as u8,
            ((v2 % 4) * 64 + v3) as u8,
        ] + b64_decoded(s.skip(4))
    } else if s.len() == 3 {
        seq![(v0 * 4 + v1 / 16) as u8, ((v1 % 16) * 16 + v2 / 4) as u8]
    } else if s.len() == 2 {
        seq![(v0 * 4 + v1 / 16) as u8]
    } else {
        Seq::empty()
    }
}

/// Whether a byte sequence is acceptable base64 input once whitespace is
/// gone: symbols from the alphabet, then up to two `=` padding bytes, the
/// whole either unpadded with a length that is not 1 mod 4, or padded to a
/// multiple of 4 with at least two symbols in the last group.
pub open spec fn b64_well_formed(s: Seq<u8>, data_len: int) -> bool {
    let pad = s.len() - data_len;
    &&& 0 <= data_len <= s.len()
    &&& all_b64(s.subrange(0, data_len))
    &&& forall|i: int| data_len <= i < s.len() ==> s[i] == EQUALS
    &&& pad <= 2
    &&& data_len % 4 != 1
    &&& (pad > 0 ==> s.len() % 4 == 0)
}

/// Strip the base64-irrelevant whitespace (space, tab, CR, LF) out of `s`.
pub open spec fn strip_ws(s: Seq<u8>) -> Seq<u8> {
    s.filter(|b: u8| !(b == SP || b == TAB || b == CR || b == LF))
}

fn is_b64_ws(b: u8) -> (r: bool)
    ensures
        r == (b == SP || b == TAB || b == CR || b == LF),
{
    b == SP || b == TAB || b == CR || b == LF
}

fn strip_b64_whitespace(s: &[u8]) -> (r: Vec<u8>)
    ensures
        r@ == strip_ws(s@),
{
    let mut out: Vec<u8> = Vec::new();
    let mut i: usize = 0;
    while i < s.len()
        invariant
            i <= s.len(),
            out@ == s@.subrange(0, i as int).filter(
                |b: u8| !(b == SP || b == TAB || b == CR || b == LF),
            ),
        decreases s.len() - i,
    {
        proof {
            reveal_with_fuel(Seq::filter, 2);
            assert(s@.subrange(0, i + 1).drop_last() =~= s@.subrange(0, i as int));
        }
        if !is_b64_ws(s[i]) {
            out.push(s[i]);
        }
        i = i + 1;
    }
    proof {
        assert(s@.subrange(0, s@.len() as int) =~= s@);
    }
    out
}

/// Decode base64 symbols `s` (no whitespace, no padding: all bytes already
/// checked to be in the alphabet, length not 1 mod 4).
fn b64_core(s: &Vec<u8>) -> (r: Vec<u8>)
    requires
        all_b64(s@),
        s@.len() % 4 != 1,
    ensures
        r@ == b64_decoded(s@),
{
    let mut out: Vec<u8> = Vec::new();
    let mut i: usize = 0;
    proof {
        assert(s@.skip(0) =~= s@);
        assert(out@ + b64_decoded(s@) =~= b64_decoded(s@));
    }
    while s.len() - i >= 4
        invariant
            i <= s.len(),
            i % 4 == 0,
            all_b64(s@),
            s@.len() % 4 != 1,
            b64_decoded(s@) == out@ + b64_decoded(s@.skip(i as int)),
        decreases s.len() - i,
    {
        let ghost pre = s@.skip(i as int);
        let v0 = b64_digit(s[i]).unwrap();
        let v1 = b64_digit(s[i + 1]).unwrap();
        let v2 = b64_digit(s[i + 2]).unwrap();
        let v3 = b64_digit(s[i + 3]).unwrap();
        out.push(v0 * 4 + v1 / 16);
        out.push((v1 % 16) * 16 + v2 / 4);
        out.push((v2 % 4) * 64 + v3);
        i = i + 4;
        proof {
            assert(pre.skip(4) =~= s@.skip(i as int));
        }
    }
    let n = s.len();
    if i + 3 == n {
        let v0 = b64_digit(s[i]).unwrap();
        let v1 = b64_digit(s[i + 1]).unwrap();
        let v2 = b64_digit(s[i + 2]).unwrap();
        out.push(v0 * 4 + v1 / 16);
        out.push((v1 % 16) * 16 + v2 / 4);
    } else if i + 2 == n {
        let v0 = b64_digit(s[i]).unwrap();
        let v1 = b64_digit(s[i + 1]).unwrap();
        out.push(v0 * 4 + v1 / 16);
    }
    proof {
        assert(out@ =~= b64_decoded(s@));
    }
    out
}

/// Whether stripped base64 input is acceptable, together with the length of
/// its symbol part (padding removed).
pub open spec fn b64_data_len(s: Seq<u8>) -> Option<int> {
    let data_len = if s.len() >= 2 && s[s.len() - 1] == EQUALS && s[s.len() - 2] == EQUALS {
        s.len() - 2
    } else if s.len() >= 1 && s[s.len() - 1] == EQUALS {
        s.len() - 1
    } else {
        s.len() as int
    };
    if b64_well_formed(s, data_len) {
        Some(data_len)
    } else {
        None
    }
}

/// What decoding base64 input yields once whitespace is stripped: the carried
/// bytes for acceptable input, and `None` (an error) otherwise.
pub open spec fn b64_result(s: Seq<u8>) -> Option<Seq<u8>> {
    match b64_data_len(s) {
        Some(n) => Some(b64_decoded(s.subrange(0, n))),
        None => None,
    }
}

/// Decode base64 input `s` after stripping whitespace (space, tab, CR, LF),
/// which mail transports legitimately insert into encoded bodies. Padding
/// with up to two `=` is accepted, as is unpadded input; any byte outside
/// the alphabet, misplaced padding, or an impossible length is an error.
#[verifier::loop_isolation(false)]
pub fn decode_base64(s: &[u8]) -> (r: Option<Vec<u8>>)
    ensures
        r is Some <==> b64_result(strip_ws(s@)) is Some,
        r matches Some(v) ==> Some(v@) == b64_result(strip_ws(s@)),
{
    let clean = strip_b64_whitespace(s);
    let n = clean.len();
    let data_len: usize = if n >= 2 && clean[n - 1] == EQUALS && clean[n - 2] == EQUALS {
        n - 2
    } else if n >= 1 && clean[n - 1] == EQUALS {
        n - 1
    } else {
        n
    };
    let pad = n - data_len;
    if data_len % 4 == 1 {
        return None;
    }
    if pad > 0 && n % 4 != 0 {
        return None;
    }
    let mut data: Vec<u8> = Vec::new();
    let mut i: usize = 0;
    while i < data_len
        invariant
            i <= data_len <= clean@.len(),
            data@ == clean@.subrange(0, i as int),
            all_b64(data@),
        decreases data_len - i,
    {
        if b64_digit(clean[i]).is_none() {
            proof {
                assert(clean@.subrange(0, data_len as int)[i as int] == clean@[i as int]);
                assert(!all_b64(clean@.subrange(0, data_len as int)));
            }
            return None;
        }
        data.push(clean[i]);
        i = i + 1;
        proof {
            assert(data@ =~= clean@.subrange(0, i as int));
        }
    }
    proof {
        assert(data@ =~= clean@.subrange(0, data_len as int));
        assert(b64_well_formed(clean@, data_len as int));
    }
    Some(b64_core(&data))
}

} // verus!
