//! What can go wrong with an announce, apart from the connection itself.
use crate::bencode::grammar::SyntaxError;
use vstd::prelude::*;

verus! {

/// Why an announce gave no peers.
#[derive(Debug, PartialEq, Eq)]
pub enum TrackerError {
    /// The announce URL is not an `http://` URL.
    UnsupportedScheme,
    /// The response has no end of header.
    MalformedResponse,
    /// The body of the response is not a bencoded value, for this reason.
    Bencode(SyntaxError),
    /// The tracker refused, for the reason it gives.
    Failure(String),
    /// The answer has no `peers`.
    MissingPeers,
    /// The answer's `peers` is neither a byte string nor a list.
    UnrecognizedPeers,
}

/// The same, with the reason as a sequence of characters.
pub enum ErrorKind {
    UnsupportedScheme,
    MalformedResponse,
    Bencode(SyntaxError),
    Failure(Seq<char>),
    MissingPeers,
    UnrecognizedPeers,
}

impl ErrorKind {
    /// What is said of the error.
    pub open spec fn text(self) -> Seq<char> {
        match self {
            ErrorKind::UnsupportedScheme => "only http:// trackers are supported in this MVP"@,
            ErrorKind::MalformedResponse => "malformed tracker HTTP response"@,
            ErrorKind::Bencode(e) => "tracker bencode: "@ + e.text(),
            ErrorKind::Failure(reason) => "tracker failure: "@ + reason,
            ErrorKind::MissingPeers => "tracker response has no `peers`"@,
            ErrorKind::UnrecognizedPeers =>
            "tracker `peers` is neither compact bytes nor a list"@,
        }
    }
}

impl TrackerError {
    /// The error, apart from its representation.
    pub open spec fn view(self) -> ErrorKind {
        match self {
            TrackerError::UnsupportedScheme => ErrorKind::UnsupportedScheme,
            TrackerError::MalformedResponse => ErrorKind::MalformedResponse,
            TrackerError::Bencode(e) => ErrorKind::Bencode(e),
            TrackerError::Failure(reason) => ErrorKind::Failure(reason@),
            TrackerError::MissingPeers => ErrorKind::MissingPeers,
            TrackerError::UnrecognizedPeers => ErrorKind::UnrecognizedPeers,
        }
    }

    /// The error in words.
    pub fn message(&self) -> (text: String)
        ensures
            text@ == self@.text(),
    {
        match self {
            TrackerError::UnsupportedScheme => "only http:// trackers are supported in this MVP".to_owned(),
            TrackerError::MalformedResponse => "malformed tracker HTTP response".to_owned(),
            TrackerError::Bencode(e) => {
                let mut text = "tracker bencode: ".to_owned();
                text.append(e.message().as_str());
                text
            },
            TrackerError::Failure(reason) => {
                let mut text = "tracker failure: ".to_owned();
                text.append(reason.as_str());
                text
            },
            TrackerError::MissingPeers => "tracker response has no `peers`".to_owned(),
            TrackerError::UnrecognizedPeers => "tracker `peers` is neither compact bytes nor a list".to_owned(),
        }
    }
}

} // verus!
