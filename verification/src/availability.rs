//! Availability check: where to ask about a candidate, and how to read the
//! status code of the answer.

use vstd::prelude::*;
use vstd::string::StringExecFns;

verus! {

/// The one status code that means "not registered": 204, No Content.
pub const AVAILABLE_STATUS: u16 = 204;

/// The address that is asked about a candidate: the fixed prefix followed by
/// the candidate as the last path segment.
pub open spec fn endpoint_of(candidate: Seq<char>) -> Seq<char> {
    "https://passport.twitch.tv/usernames/"@ + candidate
}

/// Whether a status code is in the success class, 200 to 299.
pub open spec fn is_success_class(status: u16) -> bool {
    200 <= status < 300
}

/// Whether an answer with this status code means that the candidate is
/// available: the code is in the success class and is 204.
pub open spec fn means_available(status: u16) -> bool {
    is_success_class(status) && status == 204
}

/// `StatusCode::from_u16` followed by `StatusCode::is_success`: true exactly
/// for the codes from 200 to 299. `from_u16` refuses the numbers outside
/// 100..=999, none of which is in the success class.
#[verifier::external_body]
fn success_class(status: u16) -> (r: bool)
    ensures
        r == is_success_class(status),
{
    match reqwest::StatusCode::from_u16(status) {
        Ok(code) => code.is_success(),
        Err(_) => false,
    }
}

/// Builds the address to request for `candidate`.
pub fn endpoint_url(candidate: &str) -> (url: String)
    ensures
        url@ == endpoint_of(candidate@),
{
    let mut url = String::from_str("https://passport.twitch.tv/usernames/");
    url.append(candidate);
    url
}

/// Classifies the status code of one answer: `true` if and only if it is
/// 204. Every other code, the other success codes included, gives `false`.
pub fn is_available(status: u16) -> (available: bool)
    ensures
        available == means_available(status),
        available == (status == 204),
{
    success_class(status) && status == AVAILABLE_STATUS
}

} // verus!
