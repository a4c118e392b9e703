//! The error type shared by the store, the server and the client.

use vstd::prelude::*;
use vstd::std_specs::convert::FromSpecImpl;

verus! {

/// `std::io::Error`: an error of the caller's storage or transport, carried
/// through as it is.
#[verifier::external_type_specification]
#[verifier::external_body]
pub struct ExIoError(std::io::Error);

/// `serde_json::Error`: an error of the wire encoding, carried through as it
/// is.
#[verifier::external_type_specification]
#[verifier::external_body]
pub struct ExJsonError(serde_json::Error);

/// The error type for the key–value store.
#[derive(Debug)]
pub enum KvsError {
    /// The key to remove is not in the store.
    KeyNotFound,
    /// A log record is not what the index says it is, or does not decode:
    /// the log is corrupt.
    UnexpectedCommand,
    /// An I/O error reported by the caller's storage or transport.
    Io(std::io::Error),
    /// A message on the wire did not encode or decode.
    Serde(serde_json::Error),
    /// An error reported by the peer as text.
    MessageError(String),
}

impl From<std::io::Error> for KvsError {
    fn from(err: std::io::Error) -> (e: KvsError) {
        KvsError::Io(err)
    }
}

impl FromSpecImpl<std::io::Error> for KvsError {
    open spec fn obeys_from_spec() -> bool {
        true
    }

    open spec fn from_spec(err: std::io::Error) -> KvsError {
        KvsError::Io(err)
    }
}

impl From<serde_json::Error> for KvsError {
    fn from(err: serde_json::Error) -> (e: KvsError) {
        KvsError::Serde(err)
    }
}

impl FromSpecImpl<serde_json::Error> for KvsError {
    open spec fn obeys_from_spec() -> bool {
        true
    }

    open spec fn from_spec(err: serde_json::Error) -> KvsError {
        KvsError::Serde(err)
    }
}

impl KvsError {
    /// Whether `text` is a rendering of this error. The text of an I/O or
    /// wire error is fixed only up to its prefix: the rest is whatever the
    /// underlying error prints.
    pub open spec fn is_message(&self, text: Seq<char>) -> bool {
        match self {
            KvsError::KeyNotFound => text == "Key not found error"@,
            KvsError::UnexpectedCommand => text == "UnexpectedCommand error"@,
            KvsError::Io(_) => "IO error: "@.is_prefix_of(text),
            KvsError::Serde(_) => "serde_json error: "@.is_prefix_of(text),
            KvsError::MessageError(m) => text == m@,
        }
    }

    /// The human-readable text of this error.
    pub fn message(&self) -> (text: String)
        ensures
            self.is_message(text@),
    {
        match self {
            KvsError::KeyNotFound => String::from_str("Key not found error"),
            KvsError::UnexpectedCommand => String::from_str("UnexpectedCommand error"),
            KvsError::Io(e) => {
                let detail = e.to_string();
                String::from_str("IO error: ").concat(detail.as_str())
            },
            KvsError::Serde(e) => {
                let detail = e.to_string();
                String::from_str("serde_json error: ").concat(detail.as_str())
            },
            KvsError::MessageError(m) => m.clone(),
        }
    }
}

} // verus!
