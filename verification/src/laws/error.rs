//! Laws of what is said of an error.
use crate::bencode::grammar::SyntaxError;
use crate::error::TrackerError;
use vstd::prelude::*;

verus! {

/// What is said of an error. A refusal is quoted in full, and so is what is said
/// of a body that is not a bencoded value.
pub proof fn law_error_is_said(error: &TrackerError, text: String, inner: String)
    requires
        call_ensures(TrackerError::message, (error,), text),
    ensures
        error is UnsupportedScheme ==> text@ == "only http:// trackers are supported in this MVP"@,
        error is MalformedResponse ==> text@ == "malformed tracker HTTP response"@,
        error matches TrackerError::Bencode(e) ==> call_ensures(SyntaxError::message, (e,), inner)
            ==> text@ == "tracker bencode: "@ + inner@,
        error matches TrackerError::Failure(reason) ==> text@ == "tracker failure: "@ + reason@,
        error is MissingPeers ==> text@ == "tracker response has no `peers`"@,
        error is UnrecognizedPeers ==> text@
            == "tracker `peers` is neither compact bytes nor a list"@,
{
}

/// Something can be said of every error.
pub proof fn law_errors_are_taken(error: &TrackerError)
    ensures
        call_requires(TrackerError::message, (error,)),
{
}

} // verus!
