//! Header tokenization: splitting a header block into ordered key/value
//! records, with RFC 5322 line folding kept in the raw value and `\r`
//! stripped out of it.

use vstd::prelude::*;
use vstd::utf8::{valid_utf8, decode_utf8};
use crate::ascii::{TAB, LF, CR, SP, COLON};
use crate::error::MailParseError;
use crate::util::{find_byte, lemma_find_byte, byte_subvec};
use crate::text::{bytes_to_utf8, latin1, to_lower, lower_char, lower_char_exec, str_chars};
use crate::decode::{decoded_value, decode_header_value};

verus! {

/// A single header record: the raw key bytes and the raw, still-folded
/// value bytes (with `\r` already stripped).
#[derive(Debug)]
pub struct MailHeader {
    /// The raw key bytes, exactly as they stood before the colon.
    pub key: Vec<u8>,
    /// The raw value bytes: leading spaces after the colon skipped,
    /// continuation lines kept with their leading newline and whitespace,
    /// `\r` stripped.
    pub value: Vec<u8>,
}

/// Whether a header line is malformed: empty input, a line that starts with
/// whitespace (there is no prior header to fold into), or a line that ends
/// before any colon.
pub open spec fn header_error(s: Seq<u8>) -> bool {
    ||| s.len() == 0
    ||| s[0] == SP
    ||| s[0] == TAB
    ||| match (find_byte(s, COLON), find_byte(s, LF)) {
        (Option::None, _) => true,
        (Option::Some(c), Option::Some(l)) => l < c,
        (Option::Some(_), Option::None) => false,
    }
}

/// The position right after the run of spaces starting at `p`.
pub open spec fn skip_spaces(s: Seq<u8>, p: int) -> int
    decreases s.len() - p,
{
    if 0 <= p < s.len() && s[p] == SP {
        skip_spaces(s, p + 1)
    } else {
        p
    }
}

/// Where the (possibly folded) header value that starts at `p` ends: at the
/// first newline not followed by a space or tab, or at the end of input.
pub open spec fn value_end(s: Seq<u8>, p: int) -> int
    decreases s.len() - p,
{
    if p < 0 || p >= s.len() {
        s.len() as int
    } else if s[p] == LF {
        if p + 1 < s.len() && (s[p + 1] == SP || s[p + 1] == TAB) {
            value_end(s, p + 1)
        } else {
            p
        }
    } else {
        value_end(s, p + 1)
    }
}

/// `s` with every carriage return removed.
pub open spec fn strip_cr(s: Seq<u8>) -> Seq<u8> {
    s.filter(|b: u8| b != CR)
}

/// The key of the header at the front of `s`: the bytes before the colon.
pub open spec fn spec_header_key(s: Seq<u8>) -> Seq<u8> {
    s.take(find_byte(s, COLON)->0)
}

/// Where the value of the header at the front of `s` starts: after the
/// colon and the spaces that follow it.
pub open spec fn spec_value_start(s: Seq<u8>) -> int {
    skip_spaces(s, find_byte(s, COLON)->0 + 1)
}

/// The raw value of the header at the front of `s`, `\r` stripped.
pub open spec fn spec_header_value(s: Seq<u8>) -> Seq<u8> {
    strip_cr(s.subrange(spec_value_start(s), value_end(s, spec_value_start(s))))
}

/// How many bytes of `s` the header at its front takes, terminator included.
pub open spec fn spec_header_next(s: Seq<u8>) -> int {
    if value_end(s, spec_value_start(s)) >= s.len() {
        s.len() as int
    } else {
        value_end(s, spec_value_start(s)) + 1
    }
}

/// Bounds on the pieces of a well-formed header line.
pub proof fn lemma_header_bounds(s: Seq<u8>)
    requires
        !header_error(s),
    ensures
        ({
            let c = find_byte(s, COLON)->0;
            let vs = spec_value_start(s);
            let ve = value_end(s, vs);
            0 <= c < s.len() && c + 1 <= vs <= ve <= s.len() && 1 <= spec_header_next(s)
                <= s.len()
        }),
{
    lemma_find_byte(s, COLON);
    let c = find_byte(s, COLON)->0;
    lemma_skip_spaces_bounds(s, c + 1);
    let vs = spec_value_start(s);
    lemma_value_end_bounds(s, vs);
}

/// `skip_spaces` never moves backwards and never leaves the input.
pub proof fn lemma_skip_spaces_bounds(s: Seq<u8>, p: int)
    requires
        0 <= p <= s.len(),
    ensures
        p <= skip_spaces(s, p) <= s.len(),
    decreases s.len() - p,
{
    if 0 <= p < s.len() && s[p] == SP {
        lemma_skip_spaces_bounds(s, p + 1);
    }
}

/// `value_end` never moves backwards and never leaves the input.
pub proof fn lemma_value_end_bounds(s: Seq<u8>, p: int)
    requires
        0 <= p <= s.len(),
    ensures
        p <= value_end(s, p) <= s.len(),
    decreases s.len() - p,
{
    if 0 <= p < s.len() {
        if s[p] == LF {
            if p + 1 < s.len() && (s[p + 1] == SP || s[p + 1] == TAB) {
                lemma_value_end_bounds(s, p + 1);
            }
        } else {
            lemma_value_end_bounds(s, p + 1);
        }
    }
}

/// Parse one header at the front of `raw`: the record and how many bytes it
/// took. Fails exactly on malformed header structure: an empty input, a
/// first byte of whitespace, or a line without a colon.
pub fn parse_header(raw: &[u8]) -> (r: Result<(MailHeader, usize), MailParseError>)
    ensures
        r is Ok <==> !header_error(raw@),
        r matches Ok(p) ==> p.0.key@ == spec_header_key(raw@) && p.0.value@ == spec_header_value(
            raw@,
        ) && p.1 == spec_header_next(raw@) && 1 <= p.1 <= raw@.len(),
{
    let n = raw.len();
    if n == 0 {
        return Err(MailParseError::Generic("Empty header"));
    }
    if raw[0] == SP || raw[0] == TAB {
        return Err(MailParseError::Generic("Header cannot start with a space"));
    }
    proof {
        lemma_find_byte(raw@, COLON);
        lemma_find_byte(raw@, LF);
    }
    let mut i: usize = 0;
    while i < n
        invariant
            i <= n == raw@.len(),
            forall|j: int| 0 <= j < i ==> raw@[j] != COLON && raw@[j] != LF,
        decreases n - i,
    {
        if raw[i] == LF {
            proof {
                assert(header_error(raw@));
            }
            return Err(MailParseError::Generic("Unexpected newline in header key"));
        }
        if raw[i] == COLON {
            break ;
        }
        i = i + 1;
    }
    if i == n {
        proof {
            assert(find_byte(raw@, COLON) is None);
        }
        return Err(MailParseError::Generic("Header line does not contain a colon"));
    }
    // `i` is the position of the first colon, and no newline stands before it
    proof {
        assert(find_byte(raw@, COLON) == Some(i as int));
        assert(!header_error(raw@));
        lemma_header_bounds(raw@);
    }
    let key = byte_subvec(raw, 0, i);
    proof {
        assert(raw@.subrange(0, i as int) =~= raw@.take(i as int));
    }
    // skip the spaces after the colon
    let mut p: usize = i + 1;
    while p < n && raw[p] == SP
        invariant
            i + 1 <= p <= n,
            skip_spaces(raw@, i + 1) == skip_spaces(raw@, p as int),
        decreases n - p,
    {
        p = p + 1;
    }
    proof {
        assert(skip_spaces(raw@, p as int) == p as int);
        assert(spec_value_start(raw@) == p as int);
    }
    // collect the value, following folds and dropping carriage returns
    let mut q: usize = p;
    let mut val: Vec<u8> = Vec::new();
    proof {
        assert(val@ =~= strip_cr(raw@.subrange(p as int, q as int)));
    }
    while q < n
        invariant
            p <= q <= n,
            val@ == strip_cr(raw@.subrange(p as int, q as int)),
            value_end(raw@, p as int) == value_end(raw@, q as int),
        decreases n - q,
    {
        proof {
            reveal_with_fuel(Seq::filter, 2);
            assert(raw@.subrange(p as int, q + 1).drop_last() =~= raw@.subrange(
                p as int,
                q as int,
            ));
            assert(raw@.subrange(p as int, q + 1).last() == raw@[q as int]);
        }
        if raw[q] == LF {
            if q + 1 < n && (raw[q + 1] == SP || raw[q + 1] == TAB) {
                val.push(LF);
                q = q + 1;
            } else {
                break ;
            }
        } else {
            if raw[q] != CR {
                val.push(raw[q]);
            }
            q = q + 1;
        }
    }
    proof {
        assert(value_end(raw@, q as int) == q as int);
        assert(value_end(raw@, p as int) == q as int);
        assert(val@ == spec_header_value(raw@));
    }
    let next: usize = if q >= n {
        n
    } else {
        q + 1
    };
    Ok((MailHeader { key, value: val }, next))
}

impl MailHeader {
    /// The decoded key: the raw key bytes read as text. Fails when they are
    /// not valid text.
    pub fn get_key(&self) -> (r: Result<String, MailParseError>)
        ensures
            r is Ok <==> valid_utf8(self.key@),
            r matches Ok(s) ==> s@ == decode_utf8(self.key@),
    {
        match bytes_to_utf8(self.key.as_slice()) {
            Some(s) => Ok(s),
            None => Err(MailParseError::EncodingError),
        }
    }
}

/// The header records and body offset of a header block, if it is well
/// formed: records up to the first blank line (or the end of input), and
/// the offset where the body begins.
pub open spec fn headers_spec(s: Seq<u8>) -> Option<(Seq<(Seq<u8>, Seq<u8>)>, int)>
    decreases s.len(),
{
    if s.len() == 0 {
        Some((Seq::empty(), 0int))
    } else if s[0] == LF {
        Some((Seq::empty(), 1int))
    } else if s[0] == CR && s.len() >= 2 && s[1] == LF {
        Some((Seq::empty(), 2int))
    } else if header_error(s) {
        None
    } else {
        let n = spec_header_next(s);
        if 1 <= n <= s.len() {
            match headers_spec(s.subrange(n, s.len() as int)) {
                Some(t) => Some(
                    (seq![(spec_header_key(s), spec_header_value(s))] + t.0, n + t.1),
                ),
                None => None,
            }
        } else {
            None
        }
    }
}

/// The raw key/value views of a header list.
pub open spec fn header_views(hs: Seq<MailHeader>) -> Seq<(Seq<u8>, Seq<u8>)> {
    hs.map_values(|h: MailHeader| (h.key@, h.value@))
}

/// Combining already-parsed records with what the rest of the block yields.
spec fn headers_comb(done: Seq<(Seq<u8>, Seq<u8>)>, ix: int, s: Seq<u8>) -> Option<
    (Seq<(Seq<u8>, Seq<u8>)>, int),
> {
    match headers_spec(s.subrange(ix, s.len() as int)) {
        Some(t) => Some((done + t.0, ix + t.1)),
        None => None,
    }
}

/// Parse a header block: ordered records up to and including the first
/// blank line, and the byte offset where the body begins. Fails exactly
/// when some header line is malformed.
pub fn parse_headers(raw: &[u8]) -> (r: Result<(Vec<MailHeader>, usize), MailParseError>)
    ensures
        r is Ok <==> headers_spec(raw@) is Some,
        r matches Ok(p) ==> headers_spec(raw@) == Some((header_views(p.0@), p.1 as int)) && p.1
            <= raw@.len(),
{
    let n = raw.len();
    let mut headers: Vec<MailHeader> = Vec::new();
    let mut ix: usize = 0;
    proof {
        assert(raw@.subrange(0, n as int) =~= raw@);
        assert(header_views(headers@) =~= Seq::<(Seq<u8>, Seq<u8>)>::empty());
        assert(headers_spec(raw@) == headers_comb(header_views(headers@), ix as int, raw@));
    }
    while ix < n
        invariant
            ix <= n == raw@.len(),
            headers_spec(raw@) == headers_comb(header_views(headers@), ix as int, raw@),
        decreases n - ix,
    {
        let ghost suffix = raw@.subrange(ix as int, n as int);
        if raw[ix] == LF {
            proof {
                assert(suffix[0] == LF);
                assert(header_views(headers@) + Seq::<(Seq<u8>, Seq<u8>)>::empty()
                    =~= header_views(headers@));
            }
            return Ok((headers, ix + 1));
        }
        if raw[ix] == CR && ix + 1 < n && raw[ix + 1] == LF {
            proof {
                assert(suffix[0] == CR && suffix[1] == LF);
                assert(header_views(headers@) + Seq::<(Seq<u8>, Seq<u8>)>::empty()
                    =~= header_views(headers@));
            }
            return Ok((headers, ix + 2));
        }
        let rest = byte_subvec(raw, ix, n);
        match parse_header(rest.as_slice()) {
            Ok((h, used)) => {
                proof {
                    assert(rest@ == suffix);
                    assert(suffix.subrange(used as int, suffix.len() as int) =~= raw@.subrange(
                        ix + used,
                        n as int,
                    ));
                    assert(header_views(headers@.push(h)) =~= header_views(headers@).push(
                        (h.key@, h.value@),
                    ));
                }
                let ghost before = header_views(headers@);
                headers.push(h);
                let ghost hv = header_views(headers@);
                ix = ix + used;
                proof {
                    match headers_spec(raw@.subrange(ix as int, n as int)) {
                        Some(t) => {
                            assert(before.push((spec_header_key(suffix), spec_header_value(
                                suffix,
                            ))) + t.0 =~= before + (seq![
                                (spec_header_key(suffix), spec_header_value(suffix)),
                            ] + t.0));
                        },
                        None => {},
                    }
                }
            },
            Err(e) => {
                proof {
                    assert(headers_spec(suffix) is None);
                }
                return Err(e);
            },
        }
    }
    proof {
        assert(raw@.subrange(n as int, n as int) =~= Seq::<u8>::empty());
        assert(header_views(headers@) + Seq::<(Seq<u8>, Seq<u8>)>::empty() =~= header_views(
            headers@,
        ));
    }
    Ok((headers, n))
}

/// Whether a raw header key names `name`, ignoring case: the key's Latin-1
/// characters and the name agree letter for letter once both are lowercased.
pub open spec fn key_matches(key: Seq<u8>, name: Seq<char>) -> bool {
    to_lower(latin1(key)) == to_lower(name)
}

/// The index of the first header record whose key names `name`, if any.
pub open spec fn find_header(hs: Seq<(Seq<u8>, Seq<u8>)>, name: Seq<char>) -> Option<int>
    decreases hs.len(),
{
    if hs.len() == 0 {
        None
    } else if key_matches(hs[0].0, name) {
        Some(0int)
    } else {
        match find_header(hs.drop_first(), name) {
            Some(i) => Some(i + 1),
            None => None,
        }
    }
}

/// `find_header` names the first match: its key matches, and no earlier
/// record's key does.
pub proof fn lemma_find_header(hs: Seq<(Seq<u8>, Seq<u8>)>, name: Seq<char>)
    ensures
        match find_header(hs, name) {
            Some(i) => 0 <= i < hs.len() && key_matches(hs[i].0, name) && forall|j: int|
                0 <= j < i ==> !key_matches(hs[j].0, name),
            None => forall|j: int| 0 <= j < hs.len() ==> !key_matches(hs[j].0, name),
        },
    decreases hs.len(),
{
    if hs.len() > 0 && !key_matches(hs[0].0, name) {
        let t = hs.drop_first();
        lemma_find_header(t, name);
        assert(forall|j: int| 0 <= j < t.len() ==> t[j] == hs[j + 1]);
        match find_header(t, name) {
            Some(i) => {
                assert(hs[i + 1] == t[i]);
                assert(forall|j: int|
                    1 <= j < i + 1 ==> hs[j] == t[j - 1] && !key_matches(t[j - 1].0, name));
            },
            None => {
                assert(forall|j: int|
                    1 <= j < hs.len() ==> hs[j] == t[j - 1] && !key_matches(t[j - 1].0, name));
            },
        }
    }
}

/// Header lookup by name is stable under case permutations of the name:
/// two names that lowercase to the same letters find the same header.
pub proof fn lemma_find_header_case_insensitive(
    hs: Seq<(Seq<u8>, Seq<u8>)>,
    n1: Seq<char>,
    n2: Seq<char>,
)
    requires
        to_lower(n1) == to_lower(n2),
    ensures
        find_header(hs, n1) == find_header(hs, n2),
    decreases hs.len(),
{
    if hs.len() > 0 {
        assert(key_matches(hs[0].0, n1) == key_matches(hs[0].0, n2));
        if !key_matches(hs[0].0, n1) {
            lemma_find_header_case_insensitive(hs.drop_first(), n1, n2);
        }
    }
}

/// The decoded values of every header record whose key names `name`, in
/// original order.
pub open spec fn all_matching_values(hs: Seq<(Seq<u8>, Seq<u8>)>, name: Seq<char>) -> Seq<Seq<char>>
    decreases hs.len(),
{
    if hs.len() == 0 {
        Seq::empty()
    } else {
        (if key_matches(hs[0].0, name) {
            seq![decoded_value(hs[0].1)]
        } else {
            Seq::<Seq<char>>::empty()
        }) + all_matching_values(hs.drop_first(), name)
    }
}

/// Whether the raw key bytes of `key` name `name`, ignoring ASCII case.
fn key_matches_exec(key: &Vec<u8>, name: &Vec<char>) -> (r: bool)
    ensures
        r == key_matches(key@, name@),
{
    if key.len() != name.len() {
        proof {
            assert(to_lower(latin1(key@)).len() == key@.len());
            assert(to_lower(name@).len() == name@.len());
        }
        return false;
    }
    let n = key.len();
    let mut i: usize = 0;
    while i < n
        invariant
            i <= n == key@.len() == name@.len(),
            forall|j: int|
                0 <= j < i ==> lower_char(latin1(key@)[j]) == lower_char(name@[j]),
        decreases n - i,
    {
        if lower_char_exec(key[i] as char) != lower_char_exec(name[i]) {
            proof {
                assert(to_lower(latin1(key@))[i as int] != to_lower(name@)[i as int]);
            }
            return false;
        }
        i = i + 1;
    }
    proof {
        assert(to_lower(latin1(key@)) =~= to_lower(name@));
    }
    true
}

/// Case-insensitive lookup of headers by name in a header list.
pub trait MailHeaderMap {
    /// The decoded value of the first header named `key`, if any.
    fn get_first_value(&self, key: &str) -> Result<Option<String>, MailParseError>;

    /// The decoded values of every header named `key`, in original order.
    fn get_all_values(&self, key: &str) -> Result<Vec<String>, MailParseError>;
}

impl MailHeaderMap for Vec<MailHeader> {
    fn get_first_value(&self, key: &str) -> (r: Result<Option<String>, MailParseError>)
        ensures
            r is Ok,
            r matches Ok(o) ==> match find_header(header_views(self@), key@) {
                Some(i) => o matches Some(s) && s@ == decoded_value(self@[i].value@),
                None => o is None,
            },
    {
        let ghost hv = header_views(self@);
        proof {
            lemma_find_header(hv, key@);
            assert(forall|j: int|
                0 <= j < self@.len() ==> hv[j] == (self@[j].key@, self@[j].value@));
        }
        let name = str_chars(key);
        let mut i: usize = 0;
        while i < self.len()
            invariant
                i <= self@.len(),
                name@ == key@,
                forall|j: int| 0 <= j < i ==> !key_matches(hv[j].0, key@),
            decreases self@.len() - i,
        {
            if key_matches_exec(&self[i].key, &name) {
                proof {
                    assert(hv[i as int] == (self@[i as int].key@, self@[i as int].value@));
                    assert(find_header(hv, key@) == Some(i as int));
                }
                return Ok(Some(decode_header_value(self[i].value.as_slice())));
            }
            proof {
                assert(hv[i as int] == (self@[i as int].key@, self@[i as int].value@));
            }
            i = i + 1;
        }
        proof {
            assert(find_header(hv, key@) is None);
        }
        Ok(None)
    }

    fn get_all_values(&self, key: &str) -> (r: Result<Vec<String>, MailParseError>)
        ensures
            r is Ok,
            r matches Ok(v) ==> v@.map_values(|s: String| s@) == all_matching_values(
                header_views(self@),
                key@,
            ),
    {
        let ghost hv = header_views(self@);
        proof {
            assert(forall|j: int|
                0 <= j < self@.len() ==> hv[j] == (self@[j].key@, self@[j].value@));
        }
        let name = str_chars(key);
        let mut out: Vec<String> = Vec::new();
        let mut i: usize = 0;
        proof {
            assert(hv.skip(0) =~= hv);
            assert(out@.map_values(|s: String| s@) =~= Seq::<Seq<char>>::empty());
        }
        while i < self.len()
            invariant
                i <= self@.len(),
                name@ == key@,
                hv.len() == self@.len(),
                all_matching_values(hv, key@) == out@.map_values(|s: String| s@)
                    + all_matching_values(hv.skip(i as int), key@),
            decreases self@.len() - i,
        {
            let ghost sfx = hv.skip(i as int);
            proof {
                assert(sfx[0] == hv[i as int]);
                assert(sfx.drop_first() =~= hv.skip(i + 1));
            }
            let ghost before = out@.map_values(|s: String| s@);
            if key_matches_exec(&self[i].key, &name) {
                let v = decode_header_value(self[i].value.as_slice());
                out.push(v);
                proof {
                    assert(out@.map_values(|s: String| s@) =~= before.push(
                        decoded_value(hv[i as int].1),
                    ));
                    assert(before.push(decoded_value(hv[i as int].1)) + all_matching_values(
                        hv.skip(i + 1),
                        key@,
                    ) =~= before + (seq![decoded_value(hv[i as int].1)] + all_matching_values(
                        hv.skip(i + 1),
                        key@,
                    )));
                }
            } else {
                proof {
                    assert(before + (Seq::<Seq<char>>::empty() + all_matching_values(
                        hv.skip(i + 1),
                        key@,
                    )) =~= before + all_matching_values(hv.skip(i + 1), key@));
                }
            }
            i = i + 1;
        }
        proof {
            assert(hv.skip(hv.len() as int) =~= Seq::<(Seq<u8>, Seq<u8>)>::empty());
            assert(out@.map_values(|s: String| s@) + Seq::<Seq<char>>::empty() =~= out@.map_values(
                |s: String| s@,
            ));
        }
        Ok(out)
    }
}

} // verus!
