//! The requests and responses that a server and its clients exchange.
//!
//! Each request is answered by exactly one response of the matching shape.
//! An engine error reaches the client as the text of the error, and comes
//! out there as a [`KvsError::MessageError`].

use crate::error::KvsError;
use vstd::prelude::*;

verus! {

/// A request to the server.
#[derive(Debug, Clone, PartialEq, Eq)]
pub enum Protocol {
    /// Asks for the value of `key`.
    Get { key: String },
    /// Asks to set `key` to `value`.
    Put { key: String, value: String },
    /// Asks to remove `key`.
    Remove { key: String },
}

/// The answer to a `Get` request.
#[derive(Debug, Clone, PartialEq, Eq)]
pub enum GetResponse {
    /// The value of the key, or `None` where the key is absent.
    Value(Option<String>),
    /// The text of the error that the engine reported.
    Failure(String),
}

/// The answer to a `Put` request.
#[derive(Debug, Clone, PartialEq, Eq)]
pub enum SetResponse {
    /// The value was set.
    Done,
    /// The text of the error that the engine reported.
    Failure(String),
}

/// The answer to a `Remove` request.
#[derive(Debug, Clone, PartialEq, Eq)]
pub enum RemoveResponse {
    /// The key was removed.
    Done,
    /// The text of the error that the engine reported.
    Failure(String),
}

/// The answer to a request, whatever its kind.
#[derive(Debug, Clone, PartialEq, Eq)]
pub enum Response {
    Got(GetResponse),
    Stored(SetResponse),
    Removed(RemoveResponse),
}

impl GetResponse {
    /// The response to a `Get` request for which the engine returned
    /// `result`: the value as it is, an error as its text.
    pub fn from_result(result: Result<Option<String>, KvsError>) -> (response: GetResponse)
        ensures
            match result {
                Ok(value) => response == GetResponse::Value(value),
                Err(e) => response matches GetResponse::Failure(text) && e.is_message(text@),
            },
    {
        match result {
            Ok(value) => GetResponse::Value(value),
            Err(e) => GetResponse::Failure(e.message()),
        }
    }

    /// What a client returns for this response: the value, or the server's
    /// error text as a `MessageError`.
    pub fn into_result(self) -> (result: Result<Option<String>, KvsError>)
        ensures
            match self {
                GetResponse::Value(value) => result == Ok::<Option<String>, KvsError>(value),
                GetResponse::Failure(text) => result == Err::<Option<String>, KvsError>(
                    KvsError::MessageError(text),
                ),
            },
    {
        match self {
            GetResponse::Value(value) => Ok(value),
            GetResponse::Failure(text) => Err(KvsError::MessageError(text)),
        }
    }
}

impl SetResponse {
    /// The response to a `Put` request for which the engine returned
    /// `result`.
    pub fn from_result(result: Result<(), KvsError>) -> (response: SetResponse)
        ensures
            match result {
                Ok(_) => response == SetResponse::Done,
                Err(e) => response matches SetResponse::Failure(text) && e.is_message(text@),
            },
    {
        match result {
            Ok(_) => SetResponse::Done,
            Err(e) => SetResponse::Failure(e.message()),
        }
    }

    /// What a client returns for this response.
    pub fn into_result(self) -> (result: Result<(), KvsError>)
        ensures
            match self {
                SetResponse::Done => result == Ok::<(), KvsError>(()),
                SetResponse::Failure(text) => result == Err::<(), KvsError>(
                    KvsError::MessageError(text),
                ),
            },
    {
        match self {
            SetResponse::Done => Ok(()),
            SetResponse::Failure(text) => Err(KvsError::MessageError(text)),
        }
    }
}

impl RemoveResponse {
    /// The response to a `Remove` request for which the engine returned
    /// `result`.
    pub fn from_result(result: Result<(), KvsError>) -> (response: RemoveResponse)
        ensures
            match result {
                Ok(_) => response == RemoveResponse::Done,
                Err(e) => response matches RemoveResponse::Failure(text) && e.is_message(text@),
            },
    {
        match result {
            Ok(_) => RemoveResponse::Done,
            Err(e) => RemoveResponse::Failure(e.message()),
        }
    }

    /// What a client returns for this response.
    pub fn into_result(self) -> (result: Result<(), KvsError>)
        ensures
            match self {
                RemoveResponse::Done => result == Ok::<(), KvsError>(()),
                RemoveResponse::Failure(text) => result == Err::<(), KvsError>(
                    KvsError::MessageError(text),
                ),
            },
    {
        match self {
            RemoveResponse::Done => Ok(()),
            RemoveResponse::Failure(text) => Err(KvsError::MessageError(text)),
        }
    }
}

} // verus!
