//! Transfer-encoding-aware views of a message body: exactly one tagged
//! variant per node, chosen from its Content-Transfer-Encoding header.

use vstd::prelude::*;
use crate::charsets::charset_text;
use crate::codec::{qp_decoded, b64_result, strip_ws, decode_quoted_printable, decode_base64};
use crate::content::ParsedContentType;
use crate::error::MailParseError;
use crate::text::str_eq;
use crate::util::byte_subvec;

verus! {

/// A body whose bytes are transfer-encoded: base64 or quoted-printable.
pub struct EncodedBody {
    raw: Vec<u8>,
    charset: String,
    base64: bool,
}

impl EncodedBody {
    /// The raw body bytes, encoding still applied.
    pub closed spec fn spec_raw(&self) -> Seq<u8> {
        self.raw@
    }

    /// The charset the decoded bytes are to be read with.
    pub closed spec fn spec_charset(&self) -> Seq<char> {
        self.charset@
    }

    /// Whether the encoding is base64 (else quoted-printable).
    pub closed spec fn spec_base64(&self) -> bool {
        self.base64
    }

    /// What decoding the raw bytes yields, if anything: base64 may fail,
    /// quoted-printable is total.
    pub open spec fn spec_decoded(&self) -> Option<Seq<u8>> {
        if self.spec_base64() {
            b64_result(strip_ws(self.spec_raw()))
        } else {
            Some(qp_decoded(self.spec_raw()))
        }
    }

    /// The raw body bytes, without undoing the transfer encoding.
    pub fn get_raw(&self) -> (r: &[u8])
        ensures
            r@ == self.spec_raw(),
    {
        self.raw.as_slice()
    }

    /// The body bytes with the transfer encoding undone. Fails exactly on
    /// base64 data that cannot be decoded.
    pub fn get_decoded(&self) -> (r: Result<Vec<u8>, MailParseError>)
        ensures
            r is Ok <==> self.spec_decoded() is Some,
            r matches Ok(v) ==> Some(v@) == self.spec_decoded(),
    {
        if self.base64 {
            match decode_base64(self.raw.as_slice()) {
                Some(v) => Ok(v),
                None => Err(MailParseError::Base64DecodeError),
            }
        } else {
            Ok(decode_quoted_printable(self.raw.as_slice()))
        }
    }

    /// The decoded body bytes read as text with the node's charset.
    pub fn get_decoded_as_string(&self) -> (r: Result<String, MailParseError>)
        ensures
            r is Ok <==> self.spec_decoded() is Some,
            r matches Ok(s) ==> s@ == charset_text(self.spec_charset(), self.spec_decoded()->0),
    {
        match self.get_decoded() {
            Ok(bytes) => Ok(crate::charsets::decode_charset(self.charset.as_str(), bytes.as_slice())),
            Err(e) => Err(e),
        }
    }
}

/// A 7bit or 8bit body: the raw bytes plus the node's charset.
pub struct TextBody {
    raw: Vec<u8>,
    charset: String,
}

impl TextBody {
    /// The raw body bytes.
    pub closed spec fn spec_raw(&self) -> Seq<u8> {
        self.raw@
    }

    /// The charset the bytes are to be read with.
    pub closed spec fn spec_charset(&self) -> Seq<char> {
        self.charset@
    }

    /// The raw body bytes.
    pub fn get_raw(&self) -> (r: &[u8])
        ensures
            r@ == self.spec_raw(),
    {
        self.raw.as_slice()
    }

    /// The body read as text with the node's charset; total, falling back
    /// to a Latin-1 read when the charset is not recognized.
    pub fn get_as_string(&self) -> (r: Result<String, MailParseError>)
        ensures
            r is Ok,
            r matches Ok(s) ==> s@ == charset_text(self.spec_charset(), self.spec_raw()),
    {
        Ok(crate::charsets::decode_charset(self.charset.as_str(), self.raw.as_slice()))
    }
}

/// A binary body: raw bytes pass through unchanged, and no text view is
/// offered.
pub struct BinaryBody {
    raw: Vec<u8>,
}

impl BinaryBody {
    /// The raw body bytes.
    pub closed spec fn spec_raw(&self) -> Seq<u8> {
        self.raw@
    }

    /// The raw body bytes.
    pub fn get_raw(&self) -> (r: &[u8])
        ensures
            r@ == self.spec_raw(),
    {
        self.raw.as_slice()
    }
}

/// A message body tagged with its transfer encoding.
pub enum Body {
    /// A base64-encoded body.
    Base64(EncodedBody),
    /// A quoted-printable-encoded body.
    QuotedPrintable(EncodedBody),
    /// A body declared 7bit, or with no (or an unrecognized) declared
    /// encoding.
    SevenBit(TextBody),
    /// A body declared 8bit; handled exactly as 7bit.
    EightBit(TextBody),
    /// A body declared binary: no charset-safe text interpretation exists.
    Binary(BinaryBody),
}

/// Which `Body` variant a raw body, a charset and a (lowercased) declared
/// transfer encoding select, and what that variant holds.
pub open spec fn body_matches(
    b: Body,
    raw: Seq<u8>,
    charset: Seq<char>,
    te: Option<Seq<char>>,
) -> bool {
    if te == Some("base64"@) {
        b matches Body::Base64(e) && e.spec_raw() == raw && e.spec_charset() == charset
            && e.spec_base64()
    } else if te == Some("quoted-printable"@) {
        b matches Body::QuotedPrintable(e) && e.spec_raw() == raw && e.spec_charset() == charset
            && !e.spec_base64()
    } else if te == Some("binary"@) {
        b matches Body::Binary(bb) && bb.spec_raw() == raw
    } else if te == Some("8bit"@) {
        b matches Body::EightBit(t) && t.spec_raw() == raw && t.spec_charset() == charset
    } else {
        b matches Body::SevenBit(t) && t.spec_raw() == raw && t.spec_charset() == charset
    }
}

impl Body {
    /// Select the variant for a body from its Content-Type and its
    /// (lowercased) declared transfer encoding: `base64`,
    /// `quoted-printable` and `binary` select their own variants, `8bit`
    /// its documentation-only variant, and anything else — a missing or
    /// unrecognized declaration included — is handled as 7bit.
    pub fn new(raw_body: &[u8], ctype: &ParsedContentType, transfer_encoding: &Option<String>) -> (r:
        Body)
        ensures
            body_matches(
                r,
                raw_body@,
                ctype.charset@,
                match transfer_encoding {
                    Some(s) => Some(s@),
                    None => None,
                },
            ),
    {
        let raw = byte_subvec(raw_body, 0, raw_body.len());
        proof {
            assert(raw_body@.subrange(0, raw_body@.len() as int) =~= raw_body@);
        }
        match transfer_encoding {
            Some(te) => {
                if str_eq(te.as_str(), "base64") {
                    Body::Base64(
                        EncodedBody { raw, charset: ctype.charset.clone(), base64: true },
                    )
                } else if str_eq(te.as_str(), "quoted-printable") {
                    Body::QuotedPrintable(
                        EncodedBody { raw, charset: ctype.charset.clone(), base64: false },
                    )
                } else if str_eq(te.as_str(), "binary") {
                    Body::Binary(BinaryBody { raw })
                } else if str_eq(te.as_str(), "8bit") {
                    Body::EightBit(TextBody { raw, charset: ctype.charset.clone() })
                } else {
                    proof {
                        reveal_strlit("base64");
                        reveal_strlit("quoted-printable");
                        reveal_strlit("binary");
                        reveal_strlit("8bit");
                    }
                    Body::SevenBit(TextBody { raw, charset: ctype.charset.clone() })
                }
            },
            None => Body::SevenBit(TextBody { raw, charset: ctype.charset.clone() }),
        }
    }
}

} // verus!
