//! A MIME mail parsing library: header tokenization with RFC 5322 line
//! unfolding, RFC 2047 encoded-word decoding, Content-Type and
//! Content-Disposition parameter parsing, recursive multipart decomposition,
//! and transfer-encoding-aware body access.
#![verifier::loop_isolation(false)]

pub mod ascii;
pub mod body;
pub mod charsets;
pub mod codec;
pub mod content;
pub mod decode;
pub mod error;
pub mod header;
pub mod mail;
pub mod params;
pub mod text;
pub mod util;
pub mod vec1;

pub use body::{BinaryBody, Body, EncodedBody, TextBody};
pub use error::MailParseError;
pub use header::{MailHeader, MailHeaderMap, parse_header, parse_headers};
pub use mail::{ParsedMail, is_boundary, parse_mail};
pub use util::find_from_u8;
pub use content::{
    DispositionType, ParsedContentDisposition, ParsedContentType, parse_content_disposition,
    parse_content_type, parse_disposition_type,
};
pub use params::{ParamContent, ParamMap, parse_param_content};
pub use text::decode_latin1;
pub use vec1::{Size0Error, Vec1};
