//! The error type surfaced by parsing and by the fallible body accessors.

use vstd::prelude::*;

verus! {

/// Why a parse or a decode failed.
#[derive(Debug)]
pub enum MailParseError {
    /// Base64 body data that cannot be decoded.
    Base64DecodeError,
    /// Header bytes that are not valid text where strict text validity is
    /// required.
    EncodingError,
    /// Malformed header structure, or a body that has no text form.
    Generic(&'static str),
}

impl MailParseError {
    /// A short description of the error.
    pub fn message(&self) -> (r: &'static str)
        ensures
            self matches MailParseError::Generic(m) ==> r == m,
    {
        match self {
            MailParseError::Base64DecodeError => "Invalid base64 encoding",
            MailParseError::EncodingError => "Invalid text encoding",
            MailParseError::Generic(m) => m,
        }
    }
}

} // verus!
