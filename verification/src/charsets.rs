//! Charset decoding: a total `decode` from a charset label and raw bytes to
//! text. Recognized labels are decoded by the `charset` crate (malformed
//! sequences become replacement characters); unrecognized labels fall back to
//! a Latin-1 byte-to-codepoint decode so ASCII content is never lost.

use vstd::prelude::*;
use crate::text::{latin1, decode_latin1};

verus! {

/// Whether the `charset` crate recognizes a charset label. Label matching is
/// case-insensitive and depends on the label alone.
pub uninterp spec fn charset_known(label: Seq<char>) -> bool;

/// The text that the `charset` crate decodes `bytes` to under a recognized
/// label. A pure function of the label and the bytes: malformed sequences
/// are replaced with the replacement character, never dropped.
pub uninterp spec fn charset_decoded(label: Seq<char>, bytes: Seq<u8>) -> Seq<char>;

/// Relies on `charset::Charset::for_label` (whether a label names a known
/// charset is a function of the label alone) and `charset::Charset::decode`
/// (a total decode whose result depends only on the charset and the input
/// bytes; malformed sequences become replacement characters).
#[verifier::external_body]
pub(crate) fn decode_labelled(label: &str, bytes: &[u8]) -> (r: Option<String>)
    ensures
        r is Some <==> charset_known(label@),
        r matches Some(s) ==> s@ == charset_decoded(label@, bytes@),
{
    match charset::Charset::for_label(label.as_bytes()) {
        Some(cs) => {
            let (cow, _, _) = cs.decode(bytes);
            Some(cow.into_owned())
        },
        None => None,
    }
}

/// What decoding bytes under a charset label yields: the charset crate's
/// decode for a recognized label, and the Latin-1 fallback otherwise.
pub open spec fn charset_text(label: Seq<char>, bytes: Seq<u8>) -> Seq<char> {
    if charset_known(label) {
        charset_decoded(label, bytes)
    } else {
        latin1(bytes)
    }
}

/// Decode `bytes` under the charset named by `label`. Total: an unrecognized
/// label falls back to the Latin-1 byte-to-codepoint decode.
pub fn decode_charset(label: &str, bytes: &[u8]) -> (r: String)
    ensures
        r@ == charset_text(label@, bytes@),
{
    match decode_labelled(label, bytes) {
        Some(s) => s,
        None => decode_latin1(bytes),
    }
}

/// An unrecognized charset label never corrupts ASCII content: the fallback
/// decode maps every byte to the character with the same code point, so an
/// all-ASCII body decodes to exactly its own characters.
pub proof fn lemma_unknown_charset_preserves_ascii(label: Seq<char>, bytes: Seq<u8>)
    requires
        !charset_known(label),
        forall|i: int| 0 <= i < bytes.len() ==> bytes[i] < 0x80,
    ensures
        charset_text(label, bytes).len() == bytes.len(),
        forall|i: int| 0 <= i < bytes.len() ==> charset_text(label, bytes)[i] == bytes[i] as char,
{
}

} // verus!
