//! Structured views of Content-Type and Content-Disposition header values.

use vstd::prelude::*;
use crate::params::{
    ParamMap, parse_param_content, params_of, primary_of, lookup, case_eq,
    lemma_param_parse_case_insensitive,
};
use crate::text::{to_lower, lower_string};

verus! {

broadcast use vstd::string::group_string_axioms;

/// The mimetype a Content-Type value carries: its primary token, lowercased.
pub open spec fn mimetype_of(s: Seq<char>) -> Seq<char> {
    to_lower(primary_of(s))
}

/// The charset a Content-Type value carries: its `charset` parameter, or
/// `us-ascii` when none is given.
pub open spec fn charset_of(s: Seq<char>) -> Seq<char> {
    match lookup(params_of(s), "charset"@) {
        Some(v) => v,
        None => "us-ascii"@,
    }
}

/// A structured representation of a Content-Type header value.
#[derive(Debug)]
pub struct ParsedContentType {
    /// The type of the data, lowercased, for example `text/plain`.
    pub mimetype: String,
    /// The charset used to decode the raw byte data, for example `utf-8`.
    /// Always populated: it defaults to `us-ascii`.
    pub charset: String,
    /// The remaining parameters, keys lowercased, values de-quoted. The
    /// `charset` key appears here only when the input spelt it out.
    pub params: ParamMap,
}

impl Default for ParsedContentType {
    /// The Content-Type assumed when a message has no such header.
    fn default() -> (r: Self)
        ensures
            r.mimetype@ == "text/plain"@,
            r.charset@ == "us-ascii"@,
            r.params@ == Seq::<(Seq<char>, Seq<char>)>::empty(),
    {
        ParsedContentType {
            mimetype: "text/plain".to_owned(),
            charset: "us-ascii".to_owned(),
            params: ParamMap::new(),
        }
    }
}

/// Parse a header value as a Content-Type. The `params` table carries a
/// `charset` key only when the input spelt one out; the `charset` field is
/// populated either way, defaulting to `us-ascii`.
pub fn parse_content_type(header: &str) -> (r: ParsedContentType)
    ensures
        r.mimetype@ == mimetype_of(header@),
        r.charset@ == charset_of(header@),
        r.params@ == params_of(header@),
{
    let pc = parse_param_content(header);
    let mimetype = lower_string(&pc.value);
    let charset = match pc.params.get("charset") {
        Some(c) => c.clone(),
        None => "us-ascii".to_owned(),
    };
    ParsedContentType { mimetype, charset, params: pc.params }
}

/// The disposition types commonly found in mail messages, with `Extension`
/// holding any other token (lowercased).
#[derive(Debug, Clone, PartialEq, Eq)]
pub enum DispositionType {
    /// The content is to be displayed inline as part of the enclosing
    /// document: the default.
    Inline,
    /// The content is not meant for inline display, but can be accessed
    /// for use.
    Attachment,
    /// The content contains a form submission.
    FormData,
    /// Any disposition token not enumerated above.
    Extension(String),
}

impl Default for DispositionType {
    fn default() -> (r: Self)
        ensures
            r == DispositionType::Inline,
    {
        DispositionType::Inline
    }
}

/// Convert a disposition token to the enum, matching case-insensitively.
pub fn parse_disposition_type(disposition: &str) -> (r: DispositionType)
    ensures
        to_lower(disposition@) == "inline"@ ==> r == DispositionType::Inline,
        to_lower(disposition@) == "attachment"@ ==> r == DispositionType::Attachment,
        to_lower(disposition@) == "form-data"@ ==> r == DispositionType::FormData,
        (to_lower(disposition@) != "inline"@ && to_lower(disposition@) != "attachment"@
            && to_lower(disposition@) != "form-data"@) ==> (r matches DispositionType::Extension(e)
            && e@ == to_lower(disposition@)),
{
    proof {
        reveal_strlit("inline");
        reveal_strlit("attachment");
        reveal_strlit("form-data");
        assert("inline"@.len() == 6);
        assert("attachment"@.len() == 10);
        assert("form-data"@.len() == 9);
    }
    let lower = lower_string(disposition);
    if crate::text::str_eq(lower.as_str(), "inline") {
        DispositionType::Inline
    } else if crate::text::str_eq(lower.as_str(), "attachment") {
        DispositionType::Attachment
    } else if crate::text::str_eq(lower.as_str(), "form-data") {
        DispositionType::FormData
    } else {
        DispositionType::Extension(lower)
    }
}

/// Deriving `mimetype`, `charset` and `params` from a Content-Type value
/// is stable under case permutations: two values that agree letter for
/// letter up to ASCII case yield the same mimetype, parameter tables with
/// the same keys in the same order, and charsets that agree up to case
/// (mimetype and keys normalize to lowercase; parameter values keep their
/// case).
pub proof fn lemma_content_type_case_insensitive(u: Seq<char>, w: Seq<char>)
    requires
        case_eq(u, w),
    ensures
        mimetype_of(u) == mimetype_of(w),
        params_of(u).len() == params_of(w).len(),
        forall|i: int|
            0 <= i < params_of(u).len() ==> (#[trigger] params_of(u)[i]).0 == params_of(w)[i].0
                && case_eq(params_of(u)[i].1, params_of(w)[i].1),
        case_eq(charset_of(u), charset_of(w)),
{
    lemma_param_parse_case_insensitive(u, w);
    if lookup(params_of(u), "charset"@) is None {
        assert(case_eq("us-ascii"@, "us-ascii"@));
    }
}

/// A structured representation of a Content-Disposition header value.
#[derive(Debug)]
pub struct ParsedContentDisposition {
    /// The disposition type; an extension token is lowercased.
    pub disposition: DispositionType,
    /// The remaining parameters, keys lowercased, values de-quoted.
    pub params: ParamMap,
}

impl Default for ParsedContentDisposition {
    /// The disposition assumed when a message has no such header: inline,
    /// with no parameters.
    fn default() -> (r: Self)
        ensures
            r.disposition == DispositionType::Inline,
            r.params@ == Seq::<(Seq<char>, Seq<char>)>::empty(),
    {
        ParsedContentDisposition { disposition: DispositionType::Inline, params: ParamMap::new() }
    }
}

/// Parse a header value as a Content-Disposition: the primary token picks
/// the disposition type, the rest is the parameter table.
pub fn parse_content_disposition(header: &str) -> (r: ParsedContentDisposition)
    ensures
        to_lower(primary_of(header@)) == "inline"@ ==> r.disposition == DispositionType::Inline,
        to_lower(primary_of(header@)) == "attachment"@ ==> r.disposition
            == DispositionType::Attachment,
        to_lower(primary_of(header@)) == "form-data"@ ==> r.disposition
            == DispositionType::FormData,
        (to_lower(primary_of(header@)) != "inline"@ && to_lower(primary_of(header@))
            != "attachment"@ && to_lower(primary_of(header@)) != "form-data"@) ==> (r.disposition
            matches DispositionType::Extension(e) && e@ == to_lower(primary_of(header@))),
        r.params@ == params_of(header@),
{
    let pc = parse_param_content(header);
    let disposition = parse_disposition_type(pc.value.as_str());
    ParsedContentDisposition { disposition, params: pc.params }
}

} // verus!
