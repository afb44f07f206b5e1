//! Decoding UTF-8, without substituting for what is not UTF-8.
use vstd::prelude::*;
use vstd::utf8::{decode_utf8, valid_utf8};

verus! {

/// The length of the longest prefix of `bytes` that is UTF-8.
pub open spec fn valid_up_to(bytes: Seq<u8>) -> nat
    decreases bytes.len(),
{
    if valid_utf8(bytes) || bytes.len() == 0 {
        bytes.len()
    } else {
        valid_up_to(bytes.drop_last())
    }
}

/// What the standard library says of bytes that are not UTF-8.
pub uninterp spec fn utf8_complaint(bytes: Seq<u8>) -> Seq<char>;

/// Why bytes could not be decoded.
pub struct NotUtf8 {
    /// The length of the longest prefix that is UTF-8.
    pub valid_up_to: usize,
    /// What the standard library says of them.
    pub complaint: String,
}

/// `std::str::from_utf8` decodes bytes that are UTF-8 to the text that they encode, and refuses
/// all others. The error gives the length of the longest prefix that is UTF-8, and a message
/// that depends on the bytes alone.
#[verifier::external_body]
pub(crate) fn from_utf8(bytes: &[u8]) -> (decoded: Result<String, NotUtf8>)
    ensures
        decoded is Ok == valid_utf8(bytes@),
        decoded matches Ok(text) ==> text@ == decode_utf8(bytes@),
        decoded matches Err(error) ==> error.valid_up_to == valid_up_to(bytes@)
            && error.complaint@ == utf8_complaint(bytes@),
{
    match std::str::from_utf8(bytes) {
        Ok(text) => Ok(text.to_owned()),
        Err(e) => Err(NotUtf8 { valid_up_to: e.valid_up_to(), complaint: e.to_string() }),
    }
}

} // verus!
