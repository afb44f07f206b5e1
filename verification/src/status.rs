//! HTTP status codes.
use vstd::prelude::*;

verus! {

/// The code and the standard reason phrase of a status, as an error text names it.
pub uninterp spec fn status_line(code: u16) -> Seq<char>;

/// The codes that an HTTP status can have.
pub open spec fn is_status(code: u16) -> bool {
    100 <= code <= 999
}

/// `reqwest::StatusCode` displays a status as its code and its reason phrase, which depends on
/// the code alone. Every code of three digits, the first of them not zero, is a status.
#[verifier::external_body]
pub(crate) fn status_text(code: u16) -> (text: String)
    requires
        is_status(code),
    ensures
        text@ == status_line(code),
{
    reqwest::StatusCode::from_u16(code).unwrap().to_string()
}

/// Whether `code` reports success.
pub open spec fn is_success(code: u16) -> bool {
    200 <= code <= 299
}

} // verus!
