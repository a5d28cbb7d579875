//! The multipart decomposer: parse raw message bytes into a tree of typed
//! nodes, recursing into each boundary-delimited part of a multipart body.

use vstd::prelude::*;
use vstd::utf8::encode_utf8;
use vstd::string::StrSliceExecFns;
use crate::ascii::{LF, DASH};
use crate::body::{Body, body_matches};
use crate::charsets::charset_text;
use crate::codec::{qp_decoded, b64_result, strip_ws};
use crate::content::{
    ParsedContentType, ParsedContentDisposition, DispositionType, mimetype_of, charset_of,
    parse_content_type, parse_content_disposition,
};
use crate::decode::decoded_value;
use crate::error::MailParseError;
use crate::header::{MailHeader, MailHeaderMap, headers_spec, header_views, find_header,
    parse_headers};
use crate::params::{params_of, lookup};
use crate::text::{to_lower, lower_string};
use crate::util::{find_sub, byte_subvec, find_from_u8};

verus! {

broadcast use vstd::string::group_string_axioms;

/// The header records of a message whose header block is well formed.
pub open spec fn spec_headers(s: Seq<u8>) -> Seq<(Seq<u8>, Seq<u8>)> {
    match headers_spec(s) {
        Some(t) => t.0,
        None => Seq::empty(),
    }
}

/// Where the body of such a message begins.
pub open spec fn spec_body_start(s: Seq<u8>) -> int {
    match headers_spec(s) {
        Some(t) => t.1,
        None => 0,
    }
}

/// The decoded value of the first Content-Type header, if there is one.
pub open spec fn spec_ctype_value(hv: Seq<(Seq<u8>, Seq<u8>)>) -> Option<Seq<char>> {
    match find_header(hv, "Content-Type"@) {
        Some(i) => Some(decoded_value(hv[i].1)),
        None => None,
    }
}

/// The mimetype a header list gives a node: from its first Content-Type
/// header, or `text/plain` by default.
pub open spec fn spec_mimetype(hv: Seq<(Seq<u8>, Seq<u8>)>) -> Seq<char> {
    match spec_ctype_value(hv) {
        Some(v) => mimetype_of(v),
        None => "text/plain"@,
    }
}

/// The charset a header list gives a node, `us-ascii` by default.
pub open spec fn spec_charset(hv: Seq<(Seq<u8>, Seq<u8>)>) -> Seq<char> {
    match spec_ctype_value(hv) {
        Some(v) => charset_of(v),
        None => "us-ascii"@,
    }
}

/// The Content-Type parameters a header list gives a node.
pub open spec fn spec_ctype_params(hv: Seq<(Seq<u8>, Seq<u8>)>) -> Seq<(Seq<char>, Seq<char>)> {
    match spec_ctype_value(hv) {
        Some(v) => params_of(v),
        None => Seq::empty(),
    }
}

/// The declared transfer encoding of a node, lowercased: the decoded value
/// of its first Content-Transfer-Encoding header.
pub open spec fn spec_transfer_encoding(hv: Seq<(Seq<u8>, Seq<u8>)>) -> Option<Seq<char>> {
    match find_header(hv, "Content-Transfer-Encoding"@) {
        Some(i) => Some(to_lower(decoded_value(hv[i].1))),
        None => None,
    }
}

/// Whether a mimetype is a multipart type.
pub open spec fn is_multipart(mt: Seq<char>) -> bool {
    mt.len() >= 10 && mt.take(10) == "multipart/"@
}

/// The boundary parameter of a node's Content-Type, if any.
pub open spec fn spec_boundary(hv: Seq<(Seq<u8>, Seq<u8>)>) -> Option<Seq<char>> {
    lookup(spec_ctype_params(hv), "boundary"@)
}

/// The byte-literal marker that separates the parts: `--` and the boundary.
pub open spec fn spec_marker(b: Seq<char>) -> Seq<u8> {
    encode_utf8(seq!['-', '-'] + b)
}

/// Whether a message is split into parts at all: a well-formed header
/// block, a multipart mimetype, a boundary parameter, and body bytes to
/// split.
pub open spec fn multipart_active(s: Seq<u8>) -> bool {
    &&& headers_spec(s) is Some
    &&& is_multipart(spec_mimetype(spec_headers(s)))
    &&& spec_boundary(spec_headers(s)) is Some
    &&& spec_body_start(s) < s.len()
    &&& spec_marker(spec_boundary(spec_headers(s))->0).len() >= 1
}

/// Whether parsing succeeds on a whole message: its own header block is
/// well formed, and so is every part's, recursively. Boundary anomalies
/// are never failures.
pub open spec fn mail_ok(s: Seq<u8>) -> bool
    decreases s.len(), s.len() + 1,
{
    &&& headers_spec(s) is Some
    &&& if multipart_active(s) {
        let mk = spec_marker(spec_boundary(spec_headers(s))->0);
        match find_sub(s, spec_body_start(s), mk) {
            Some(pe0) => if 0 <= pe0 && pe0 + mk.len() <= s.len() {
                parts_ok(s, mk, pe0 + mk.len())
            } else {
                true
            },
            None => true,
        }
    } else {
        true
    }
}

/// Whether parsing succeeds on every part delimited from `start` on:
/// `start` stands right after a matched marker.
pub open spec fn parts_ok(s: Seq<u8>, mk: Seq<u8>, start: int) -> bool
    decreases s.len(), s.len() - start,
{
    if start < 0 || start > s.len() || mk.len() < 1 {
        true
    } else {
        match find_sub(s, start, seq![LF]) {
            None => true,
            Some(nl) => {
                if nl < start || nl + 1 > s.len() {
                    true
                } else {
                    let ps = nl + 1;
                    let pe = match find_sub(s, ps, mk) {
                        Some(e) => e,
                        None => s.len() as int,
                    };
                    if pe < ps || pe > s.len() {
                        true
                    } else {
                        let bend = pe + mk.len();
                        &&& mail_ok(s.subrange(ps, pe))
                        &&& if bend + 2 > s.len() || (s[bend] == DASH && s[bend + 1] == DASH) {
                            true
                        } else {
                            parts_ok(s, mk, bend)
                        }
                    }
                }
            },
        }
    }
}

/// Struct that holds the structured representation of a message: its
/// headers, Content-Type information, raw body bytes, and — for a
/// multipart message — the ordered subparts, each a full message node of
/// its own.
#[derive(Debug)]
pub struct ParsedMail {
    /// The headers of the message or subpart, in original order.
    pub headers: Vec<MailHeader>,
    /// The Content-Type information, defaulted when the header is missing.
    pub ctype: ParsedContentType,
    /// The raw body bytes: for a multipart node, the preamble before the
    /// first boundary.
    pub body: Vec<u8>,
    /// The subparts, non-empty only for a multipart node whose boundary
    /// was found.
    pub subparts: Vec<ParsedMail>,
}

/// Whether a parsed node faithfully represents the message bytes `s`: the
/// headers are the tokenized records, the Content-Type fields are derived
/// from the first such header (or defaulted), and the body and subparts
/// follow the multipart decomposition, with each subpart representing its
/// own segment, recursively.
pub open spec fn mail_repr(m: ParsedMail, s: Seq<u8>) -> bool
    decreases s.len(), s.len() + 1,
{
    &&& headers_spec(s) is Some
    &&& header_views(m.headers@) == spec_headers(s)
    &&& m.ctype.mimetype@ == spec_mimetype(spec_headers(s))
    &&& m.ctype.charset@ == spec_charset(spec_headers(s))
    &&& m.ctype.params@ == spec_ctype_params(spec_headers(s))
    &&& {
        let bstart = spec_body_start(s);
        if multipart_active(s) {
            let mk = spec_marker(spec_boundary(spec_headers(s))->0);
            match find_sub(s, bstart, mk) {
                Some(pe0) => if 0 <= pe0 && pe0 + mk.len() <= s.len() {
                    &&& m.body@ == s.subrange(bstart, pe0)
                    &&& parts_repr(m.subparts@, 0, s, mk, pe0 + mk.len())
                } else {
                    true
                },
                None => m.body@ == s.subrange(bstart, s.len() as int) && m.subparts@.len() == 0,
            }
        } else {
            m.body@ == s.subrange(bstart, s.len() as int) && m.subparts@.len() == 0
        }
    }
}

/// Whether `subs[idx..]` are exactly the parts delimited from `start` on,
/// in original order, each representing its own segment: the segment runs
/// from after the newline that follows the marker up to the next marker,
/// or to the end of input when no marker follows.
pub open spec fn parts_repr(
    subs: Seq<ParsedMail>,
    idx: int,
    s: Seq<u8>,
    mk: Seq<u8>,
    start: int,
) -> bool
    decreases s.len(), s.len() - start,
{
    if start < 0 || start > s.len() || mk.len() < 1 {
        idx == subs.len()
    } else {
        match find_sub(s, start, seq![LF]) {
            None => idx == subs.len(),
            Some(nl) => {
                if nl < start || nl + 1 > s.len() {
                    idx == subs.len()
                } else {
                    let ps = nl + 1;
                    let pe = match find_sub(s, ps, mk) {
                        Some(e) => e,
                        None => s.len() as int,
                    };
                    if pe < ps || pe > s.len() {
                        idx == subs.len()
                    } else {
                        let bend = pe + mk.len();
                        &&& 0 <= idx < subs.len()
                        &&& mail_repr(subs[idx], s.subrange(ps, pe))
                        &&& if bend + 2 > s.len() || (s[bend] == DASH && s[bend + 1] == DASH) {
                            idx + 1 == subs.len()
                        } else {
                            parts_repr(subs, idx + 1, s, mk, bend)
                        }
                    }
                }
            },
        }
    }
}

/// What the text view of a body yields under a declared (lowercased)
/// transfer encoding: none for binary, the charset-decoded bytes after
/// undoing base64 or quoted-printable, or the charset-decoded raw bytes.
pub open spec fn spec_body_string(
    raw: Seq<u8>,
    charset: Seq<char>,
    te: Option<Seq<char>>,
) -> Option<Seq<char>> {
    if te == Some("binary"@) {
        None
    } else if te == Some("base64"@) {
        match b64_result(strip_ws(raw)) {
            Some(b) => Some(charset_text(charset, b)),
            None => None,
        }
    } else if te == Some("quoted-printable"@) {
        Some(charset_text(charset, qp_decoded(raw)))
    } else {
        Some(charset_text(charset, raw))
    }
}

/// What the byte view of a body yields under a declared (lowercased)
/// transfer encoding: the raw bytes, or — for base64 and quoted-printable
/// — the decoded bytes.
pub open spec fn spec_body_raw(raw: Seq<u8>, te: Option<Seq<char>>) -> Option<Seq<u8>> {
    if te == Some("base64"@) {
        b64_result(strip_ws(raw))
    } else if te == Some("quoted-printable"@) {
        Some(qp_decoded(raw))
    } else {
        Some(raw)
    }
}

impl ParsedMail {
    /// The body tagged with its transfer-encoding variant, read from the
    /// first Content-Transfer-Encoding header (none or an unrecognized one
    /// selects 7bit). Never fails.
    pub fn get_body_encoded(&self) -> (r: Result<Body, MailParseError>)
        ensures
            r is Ok,
            r matches Ok(b) ==> body_matches(
                b,
                self.body@,
                self.ctype.charset@,
                spec_transfer_encoding(header_views(self.headers@)),
            ),
    {
        let te: Option<String> = match self.headers.get_first_value("Content-Transfer-Encoding") {
            Ok(Some(v)) => {
                let l = lower_string(v.as_str());
                proof {
                    let hv = header_views(self.headers@);
                    assert(find_header(hv, "Content-Transfer-Encoding"@) is Some);
                    crate::header::lemma_find_header(hv, "Content-Transfer-Encoding"@);
                    let idx = find_header(hv, "Content-Transfer-Encoding"@)->0;
                    assert(hv[idx] == (self.headers@[idx].key@, self.headers@[idx].value@));
                    assert(Some(l@) == spec_transfer_encoding(hv));
                }
                Some(l)
            },
            Ok(None) => None,
            Err(e) => {
                return Err(e);
            },
        };
        Ok(Body::new(self.body.as_slice(), &self.ctype, &te))
    }

    /// The body as text: the transfer encoding undone, the result read
    /// with the node's charset. Fails exactly on a binary body, or on
    /// base64 data that cannot be decoded.
    pub fn get_body(&self) -> (r: Result<String, MailParseError>)
        ensures
            r is Ok <==> spec_body_string(
                self.body@,
                self.ctype.charset@,
                spec_transfer_encoding(header_views(self.headers@)),
            ) is Some,
            r matches Ok(s) ==> Some(s@) == spec_body_string(
                self.body@,
                self.ctype.charset@,
                spec_transfer_encoding(header_views(self.headers@)),
            ),
    {
        proof {
            reveal_strlit("base64");
            reveal_strlit("binary");
            reveal_strlit("quoted-printable");
            reveal_strlit("8bit");
            assert("base64"@.len() == 6 && "binary"@.len() == 6 && "quoted-printable"@.len() == 16
                && "8bit"@.len() == 4);
            assert("base64"@[1] == 'a' && "binary"@[1] == 'i');
        }
        match self.get_body_encoded() {
            Ok(enc) => match enc {
                Body::Base64(b) | Body::QuotedPrintable(b) => b.get_decoded_as_string(),
                Body::SevenBit(b) | Body::EightBit(b) => b.get_as_string(),
                Body::Binary(_) => Err(
                    MailParseError::Generic(
                        "Message body of type binary body cannot be parsed into a string",
                    ),
                ),
            },
            Err(e) => Err(e),
        }
    }

    /// The body as bytes: the transfer encoding undone, no charset
    /// decoding. Fails exactly on base64 data that cannot be decoded.
    pub fn get_body_raw(&self) -> (r: Result<Vec<u8>, MailParseError>)
        ensures
            r is Ok <==> spec_body_raw(
                self.body@,
                spec_transfer_encoding(header_views(self.headers@)),
            ) is Some,
            r matches Ok(v) ==> Some(v@) == spec_body_raw(
                self.body@,
                spec_transfer_encoding(header_views(self.headers@)),
            ),
    {
        proof {
            reveal_strlit("base64");
            reveal_strlit("binary");
            reveal_strlit("quoted-printable");
            reveal_strlit("8bit");
            assert("base64"@.len() == 6 && "binary"@.len() == 6 && "quoted-printable"@.len() == 16
                && "8bit"@.len() == 4);
            assert("base64"@[1] == 'a' && "binary"@[1] == 'i');
        }
        match self.get_body_encoded() {
            Ok(enc) => match enc {
                Body::Base64(b) | Body::QuotedPrintable(b) => b.get_decoded(),
                Body::SevenBit(b) | Body::EightBit(b) => {
                    let raw = b.get_raw();
                    Ok(byte_subvec(raw, 0, raw.len()))
                },
                Body::Binary(b) => {
                    let raw = b.get_raw();
                    Ok(byte_subvec(raw, 0, raw.len()))
                },
            },
            Err(e) => Err(e),
        }
    }

    /// The parsed Content-Disposition of the node: from the first such
    /// header, or inline with no parameters when it is missing. Never
    /// fails.
    pub fn get_content_disposition(&self) -> (r: Result<
        ParsedContentDisposition,
        MailParseError,
    >)
        ensures
            r is Ok,
            r matches Ok(d) ==> match find_header(
                header_views(self.headers@),
                "Content-Disposition"@,
            ) {
                Some(i) => {
                    let v = decoded_value(header_views(self.headers@)[i].1);
                    &&& to_lower(crate::params::primary_of(v)) == "inline"@ ==> d.disposition
                        == DispositionType::Inline
                    &&& to_lower(crate::params::primary_of(v)) == "attachment"@ ==> d.disposition
                        == DispositionType::Attachment
                    &&& to_lower(crate::params::primary_of(v)) == "form-data"@ ==> d.disposition
                        == DispositionType::FormData
                    &&& (to_lower(crate::params::primary_of(v)) != "inline"@ && to_lower(
                        crate::params::primary_of(v),
                    ) != "attachment"@ && to_lower(crate::params::primary_of(v)) != "form-data"@)
                        ==> (d.disposition matches DispositionType::Extension(e) && e@ == to_lower(
                        crate::params::primary_of(v),
                    ))
                    &&& d.params@ == params_of(v)
                },
                None => d.disposition == DispositionType::Inline && d.params@ == Seq::<
                    (Seq<char>, Seq<char>),
                >::empty(),
            },
    {
        match self.headers.get_first_value("Content-Disposition") {
            Ok(Some(v)) => {
                let d = parse_content_disposition(v.as_str());
                proof {
                    let ghost hv = header_views(self.headers@);
                    assert(find_header(hv, "Content-Disposition"@) is Some);
                    crate::header::lemma_find_header(hv, "Content-Disposition"@);
                    let idx = find_header(hv, "Content-Disposition"@)->0;
                    assert(hv[idx] == (self.headers@[idx].key@, self.headers@[idx].value@));
                }
                Ok(d)
            },
            Ok(None) => {
                let d = ParsedContentDisposition::default();
                proof {
                    assert(d.params@ =~= Seq::<(Seq<char>, Seq<char>)>::empty());
                }
                Ok(d)
            },
            Err(e) => Err(e),
        }
    }
}

/// Whether position `ix` of `line` may adjoin an encoded word: no position
/// at all, a position at or past the end, or a boundary character.
pub fn is_boundary(line: &str, ix: Option<usize>) -> (r: bool)
    ensures
        r == match ix {
            Some(i) => i >= line@.len() || crate::decode::is_boundary_char(line@[i as int]),
            None => true,
        },
{
    match ix {
        Some(i) => {
            let n = line.unicode_len();
            if i >= n {
                true
            } else {
                crate::decode::is_boundary_exec(line.get_char(i))
            }
        },
        None => true,
    }
}

/// How many boundary-delimited segments stand in `s` from `start` on:
/// one per part the decomposition visits.
pub open spec fn segment_count(s: Seq<u8>, mk: Seq<u8>, start: int) -> int
    decreases s.len() - start,
{
    if start < 0 || start > s.len() || mk.len() < 1 {
        0
    } else {
        match find_sub(s, start, seq![LF]) {
            None => 0,
            Some(nl) => {
                if nl < start || nl + 1 > s.len() {
                    0
                } else {
                    let ps = nl + 1;
                    let pe = match find_sub(s, ps, mk) {
                        Some(e) => e,
                        None => s.len() as int,
                    };
                    if pe < ps || pe > s.len() {
                        0
                    } else {
                        let bend = pe + mk.len();
                        1 + if bend + 2 > s.len() || (s[bend] == DASH && s[bend + 1] == DASH) {
                            0int
                        } else {
                            segment_count(s, mk, bend)
                        }
                    }
                }
            },
        }
    }
}

/// The decomposer yields exactly one subpart per boundary-delimited
/// segment: `subs[idx..]` holds as many nodes as there are segments from
/// `start` on, in original order, whatever the nesting inside them.
pub proof fn lemma_parts_count(subs: Seq<ParsedMail>, idx: int, s: Seq<u8>, mk: Seq<u8>, start: int)
    requires
        parts_repr(subs, idx, s, mk, start),
    ensures
        subs.len() == idx + segment_count(s, mk, start),
    decreases s.len() - start,
{
    if !(start < 0 || start > s.len() || mk.len() < 1) {
        match find_sub(s, start, seq![LF]) {
            None => {},
            Some(nl) => {
                if !(nl < start || nl + 1 > s.len()) {
                    let ps = nl + 1;
                    let pe = match find_sub(s, ps, mk) {
                        Some(e) => e,
                        None => s.len() as int,
                    };
                    if !(pe < ps || pe > s.len()) {
                        let bend = pe + mk.len();
                        if !(bend + 2 > s.len() || (s[bend] == DASH && s[bend + 1] == DASH)) {
                            lemma_parts_count(subs, idx + 1, s, mk, bend);
                        }
                    }
                }
            },
        }
    }
}

/// A multipart node's subpart count is exactly the number of
/// boundary-delimited segments after the first boundary marker.
pub proof fn lemma_subpart_count(m: ParsedMail, s: Seq<u8>)
    requires
        mail_repr(m, s),
        multipart_active(s),
        ({
            let mk = spec_marker(spec_boundary(spec_headers(s))->0);
            match find_sub(s, spec_body_start(s), mk) {
                Some(pe0) => 0 <= pe0 && pe0 + mk.len() <= s.len(),
                None => false,
            }
        }),
    ensures
        ({
            let mk = spec_marker(spec_boundary(spec_headers(s))->0);
            let pe0 = find_sub(s, spec_body_start(s), mk)->0;
            m.subparts@.len() == segment_count(s, mk, pe0 + mk.len())
        }),
{
    let mk = spec_marker(spec_boundary(spec_headers(s))->0);
    let pe0 = find_sub(s, spec_body_start(s), mk)->0;
    lemma_parts_count(m.subparts@, 0, s, mk, pe0 + mk.len());
}

/// When no terminating boundary follows a part, that part is the last
/// one, its segment runs to the very end of the input, and this is no
/// error: the node at `idx` represents all bytes from its start to the
/// end.
pub proof fn lemma_missing_terminator_takes_rest(
    subs: Seq<ParsedMail>,
    idx: int,
    s: Seq<u8>,
    mk: Seq<u8>,
    start: int,
)
    requires
        parts_repr(subs, idx, s, mk, start),
        0 <= start <= s.len(),
        mk.len() >= 1,
        find_sub(s, start, seq![LF]) matches Some(nl) && start <= nl && nl + 1 <= s.len(),
        find_sub(s, find_sub(s, start, seq![LF])->0 + 1, mk) is None,
    ensures
        idx + 1 == subs.len(),
        mail_repr(
            subs[idx],
            s.subrange(find_sub(s, start, seq![LF])->0 + 1, s.len() as int),
        ),
{
    let nl = find_sub(s, start, seq![LF])->0;
    let ps = nl + 1;
    assert(s.len() as int + mk.len() + 2 > s.len());
}

/// An unknown charset name on an otherwise-ASCII body never corrupts it:
/// with no declared transfer encoding, the text view succeeds and yields
/// exactly the body's own characters.
pub proof fn lemma_unknown_charset_body_identity(raw: Seq<u8>, label: Seq<char>)
    requires
        !crate::charsets::charset_known(label),
        forall|i: int| 0 <= i < raw.len() ==> raw[i] < 0x80,
    ensures
        spec_body_string(raw, label, None) matches Some(t) && t.len() == raw.len() && forall|
            i: int,
        | 0 <= i < raw.len() ==> t[i] == raw[i] as char,
{
    crate::charsets::lemma_unknown_charset_preserves_ascii(label, raw);
}

/// Whether a mimetype string starts with `multipart/`.
fn is_multipart_exec(mt: &str) -> (r: bool)
    ensures
        r == is_multipart(mt@),
{
    proof {
        reveal_strlit("multipart/");
        assert("multipart/"@ =~= seq!['m', 'u', 'l', 't', 'i', 'p', 'a', 'r', 't', '/']);
    }
    let n = mt.unicode_len();
    if n < 10 {
        return false;
    }
    let ok = mt.get_char(0) == 'm' && mt.get_char(1) == 'u' && mt.get_char(2) == 'l' && mt.get_char(
        3,
    ) == 't' && mt.get_char(4) == 'i' && mt.get_char(5) == 'p' && mt.get_char(6) == 'a'
        && mt.get_char(7) == 'r' && mt.get_char(8) == 't' && mt.get_char(9) == '/';
    proof {
        if ok {
            assert(mt@.take(10) =~= "multipart/"@);
        } else {
            assert(mt@.take(10) != "multipart/"@);
        }
    }
    ok
}

/// The main mail-parsing entry point: take the raw bytes of a message and
/// build the tree of parsed nodes. Fails exactly when some header block —
/// the message's own or a subpart's — is malformed; boundary and multipart
/// anomalies are resolved by lenient fallbacks, never failures.
pub fn parse_mail(raw_data: &[u8]) -> (r: Result<ParsedMail, MailParseError>)
    ensures
        r is Ok <==> mail_ok(raw_data@),
        r matches Ok(m) ==> mail_repr(m, raw_data@),
    decreases raw_data@.len(), raw_data@.len() + 1,
{
    let ghost s = raw_data@;
    let n = raw_data.len();
    let (headers, ix_body) = match parse_headers(raw_data) {
        Ok(t) => t,
        Err(e) => {
            proof {
                assert(!mail_ok(s));
            }
            return Err(e);
        },
    };
    let ghost hv = header_views(headers@);
    proof {
        assert(headers_spec(s) == Some((hv, ix_body as int)));
        assert(spec_headers(s) == hv);
        assert(spec_body_start(s) == ix_body as int);
    }
    let ctype: ParsedContentType = match headers.get_first_value("Content-Type") {
        Ok(Some(v)) => {
            let c = parse_content_type(v.as_str());
            proof {
                assert(find_header(hv, "Content-Type"@) is Some);
                crate::header::lemma_find_header(hv, "Content-Type"@);
                let idx = find_header(hv, "Content-Type"@)->0;
                assert(hv[idx] == (headers@[idx].key@, headers@[idx].value@));
                assert(spec_ctype_value(hv) == Some(v@));
                assert(c.mimetype@ == spec_mimetype(hv));
                assert(c.charset@ == spec_charset(hv));
                assert(c.params@ == spec_ctype_params(hv));
            }
            c
        },
        Ok(None) => {
            let c = ParsedContentType::default();
            proof {
                assert(spec_ctype_value(hv) is None);
                assert(c.mimetype@ == spec_mimetype(hv));
                assert(c.charset@ == spec_charset(hv));
                assert(c.params@ =~= spec_ctype_params(hv));
            }
            c
        },
        Err(e) => {
            return Err(e);
        },
    };
    proof {
        assert(ctype.mimetype@ == spec_mimetype(hv));
        assert(ctype.charset@ == spec_charset(hv));
        assert(ctype.params@ == spec_ctype_params(hv));
    }
    let is_multi = is_multipart_exec(ctype.mimetype.as_str());
    let boundary: Option<String> = match ctype.params.get("boundary") {
        Some(b) => Some(b.clone()),
        None => None,
    };
    proof {
        assert(boundary matches Some(b) ==> Some(b@) == spec_boundary(hv));
        assert(boundary is None ==> spec_boundary(hv) is None);
    }
    let mut body: Vec<u8>;
    let mut subparts: Vec<ParsedMail> = Vec::new();
    if is_multi && n > ix_body {
        if let Some(b) = boundary {
            let mut marker = "--".to_owned();
            marker.append(b.as_str());
            proof {
                reveal_strlit("--");
                assert("--"@ =~= seq!['-', '-']);
                assert(marker@ == seq!['-', '-'] + b@);
            }
            let mk: &[u8] = marker.as_str().as_bytes();
            proof {
                assert(mk@ == spec_marker(b@));
            }
            if mk.len() >= 1 {
                proof {
                    assert(multipart_active(s));
                    crate::util::lemma_find_sub(s, ix_body as int, mk@);
                }
                match find_from_u8(raw_data, ix_body, mk) {
                    Some(pe0) => {
                        proof {
                            assert(find_sub(s, ix_body as int, mk@) == Some(pe0 as int));
                            assert(0 <= pe0 as int && pe0 + mk@.len() <= s.len());
                        }
                        body = byte_subvec(raw_data, ix_body, pe0);
                        match parse_parts(raw_data, mk, pe0 + mk.len(), &mut subparts) {
                            Ok(_) => {
                                proof {
                                    assert(subparts@.subrange(0, 0) =~= Seq::<
                                        ParsedMail,
                                    >::empty());
                                    assert(parts_repr(subparts@, 0, s, mk@, pe0 + mk@.len()));
                                    assert(mail_ok(s));
                                }
                            },
                            Err(e) => {
                                proof {
                                    assert(!parts_ok(s, mk@, pe0 + mk@.len()));
                                    assert(!mail_ok(s));
                                }
                                return Err(e);
                            },
                        }
                    },
                    None => {
                        proof {
                            assert(find_sub(s, ix_body as int, mk@) is None);
                            assert(mail_ok(s));
                        }
                        body = byte_subvec(raw_data, ix_body, n);
                    },
                }
            } else {
                proof {
                    assert(!multipart_active(s));
                    assert(mail_ok(s));
                }
                body = byte_subvec(raw_data, ix_body, n);
            }
        } else {
            proof {
                assert(!multipart_active(s));
                assert(mail_ok(s));
            }
            body = byte_subvec(raw_data, ix_body, n);
        }
    } else {
        proof {
            assert(!multipart_active(s));
            assert(mail_ok(s));
        }
        body = byte_subvec(raw_data, ix_body, n);
    }
    let result = ParsedMail { headers, ctype, body, subparts };
    proof {
        assert(mail_repr(result, s));
    }
    Ok(result)
}

/// Collect the parts delimited from `start` (right after a matched marker)
/// on, appending each parsed part to `subparts`.
fn parse_parts(
    raw: &[u8],
    mk: &[u8],
    start: usize,
    subparts: &mut Vec<ParsedMail>,
) -> (r: Result<(), MailParseError>)
    requires
        mk@.len() >= 1,
        start <= raw@.len(),
    ensures
        r is Ok <==> parts_ok(raw@, mk@, start as int),
        r matches Ok(_) ==> ({
            &&& final(subparts)@.len() >= old(subparts)@.len()
            &&& final(subparts)@.subrange(0, old(subparts)@.len() as int) == old(subparts)@
            &&& parts_repr(
                final(subparts)@,
                old(subparts)@.len() as int,
                raw@,
                mk@,
                start as int,
            )
        }),
    decreases raw@.len(), raw@.len() - start,
{
    let ghost s = raw@;
    let n = raw.len();
    let mut nl_pat: Vec<u8> = Vec::new();
    nl_pat.push(LF);
    proof {
        assert(nl_pat@ =~= seq![LF]);
    }
    proof {
        crate::util::lemma_find_sub(s, start as int, seq![LF]);
    }
    let nl = match find_from_u8(raw, start, nl_pat.as_slice()) {
        Some(v) => v,
        None => {
            proof {
                assert(find_sub(s, start as int, seq![LF]) is None);
                assert(parts_ok(s, mk@, start as int));
                assert(subparts@.subrange(0, old(subparts)@.len() as int) =~= old(subparts)@);
                assert(parts_repr(subparts@, old(subparts)@.len() as int, s, mk@, start as int));
            }
            return Ok(());
        },
    };
    proof {
        assert(find_sub(s, start as int, seq![LF]) == Some(nl as int));
        assert(start <= nl && nl + 1 <= s.len());
    }
    let ps = nl + 1;
    proof {
        crate::util::lemma_find_sub(s, ps as int, mk@);
    }
    let pe = match find_from_u8(raw, ps, mk) {
        Some(e) => e,
        None => n,
    };
    let ghost pe_spec = match find_sub(s, ps as int, mk@) {
        Some(e) => e,
        None => s.len() as int,
    };
    proof {
        assert(pe as int == pe_spec);
        assert(ps <= pe <= s.len());
    }
    let part = byte_subvec(raw, ps, pe);
    let sub = match parse_mail(part.as_slice()) {
        Ok(m) => m,
        Err(e) => {
            proof {
                assert(!mail_ok(s.subrange(ps as int, pe as int)));
                assert(!parts_ok(s, mk@, start as int));
            }
            return Err(e);
        },
    };
    proof {
        assert(mail_ok(s.subrange(ps as int, pe as int)));
        assert(mail_repr(sub, s.subrange(ps as int, pe as int)));
    }
    let ghost oldsubs = subparts@;
    subparts.push(sub);
    // where the next boundary scan would resume; stop past the end or at
    // the closing `--`
    let ghost bend_spec = pe_spec + mk@.len();
    if n - pe < mk.len() {
        proof {
            assert(bend_spec + 2 > s.len());
            assert(parts_ok(s, mk@, start as int));
            assert(subparts@.subrange(0, oldsubs.len() as int) =~= oldsubs);
            assert(subparts@[oldsubs.len() as int] == sub);
            assert(parts_repr(subparts@, oldsubs.len() as int, s, mk@, start as int));
        }
        return Ok(());
    }
    let bend = pe + mk.len();
    if n - bend < 2 || (raw[bend] == DASH && raw[bend + 1] == DASH) {
        proof {
            assert(bend_spec == bend as int);
            assert(bend_spec + 2 > s.len() || (s[bend_spec] == DASH && s[bend_spec + 1] == DASH));
            assert(parts_ok(s, mk@, start as int));
            assert(subparts@.subrange(0, oldsubs.len() as int) =~= oldsubs);
            assert(subparts@[oldsubs.len() as int] == sub);
            assert(parts_repr(subparts@, oldsubs.len() as int, s, mk@, start as int));
        }
        return Ok(());
    }
    proof {
        assert(bend_spec == bend as int);
        assert(!(bend_spec + 2 > s.len() || (s[bend_spec] == DASH && s[bend_spec + 1] == DASH)));
    }
    let ghost mid = subparts@;
    match parse_parts(raw, mk, bend, subparts) {
        Ok(_) => {
            proof {
                assert(final(subparts)@.subrange(0, mid.len() as int) == mid);
                assert(final(subparts)@.subrange(0, oldsubs.len() as int) =~= mid.subrange(
                    0,
                    oldsubs.len() as int,
                ));
                assert(mid.subrange(0, oldsubs.len() as int) =~= oldsubs);
                assert(final(subparts)@[oldsubs.len() as int] == mid[oldsubs.len() as int]);
                assert(mid[oldsubs.len() as int] == sub);
                assert(parts_repr(final(subparts)@, mid.len() as int, s, mk@, bend as int));
                assert(parts_repr(final(subparts)@, oldsubs.len() as int, s, mk@, start as int));
            }
            Ok(())
        },
        Err(e) => {
            proof {
                assert(!parts_ok(s, mk@, bend as int));
                assert(!parts_ok(s, mk@, start as int));
            }
            Err(e)
        },
    }
}

} // verus!
