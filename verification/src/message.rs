//! The messages of the protocol: what a client may ask, and what the server
//! may answer.

use crate::text::{decimal, decimal_text};
use vstd::prelude::*;
use vstd::string::StringExecFns;

verus! {

/// What a client asks of the server.
#[derive(Debug, Clone, PartialEq, Eq)]
pub enum Request {
    /// Look a key up.
    Get(String),
    /// Store a value under a key.
    Put { key: String, value: String },
    /// Ask how many entries the cache holds.
    Size,
    /// End the connection.
    Stop,
}

/// What the server answers.
#[derive(Debug, Clone, PartialEq, Eq)]
pub enum Response {
    /// The value found under the key that was asked for.
    GetResult(String),
    /// The value was stored.
    SetAck,
    /// The cache holds nothing under this key.
    NotFoundError(String),
    /// The number of entries in the cache.
    SizeResult(u64),
    /// Something else went wrong; the message says what.
    GenericError(String),
}

impl Response {
    /// The line that a client shows its user for this response.
    pub open spec fn display_text(&self) -> Seq<char> {
        match self {
            Response::GetResult(value) => value@,
            Response::SetAck => "OK"@,
            Response::NotFoundError(key) => "Could not find key "@ + key@ + " in store"@,
            Response::SizeResult(count) => decimal(*count as nat),
            Response::GenericError(message) => message@,
        }
    }

    /// The line that a client shows its user for this response. Whether it
    /// goes to the output or to the error stream, [`Response::is_error`]
    /// says.
    pub fn display(&self) -> (line: String)
        ensures
            line@ == self.display_text(),
    {
        match self {
            Response::GetResult(value) => value.clone(),
            Response::SetAck => "OK".to_owned(),
            Response::NotFoundError(key) => {
                let mut line = "Could not find key ".to_owned();
                line.append(key.as_str());
                line.append(" in store");
                line
            },
            Response::SizeResult(count) => decimal_text(*count),
            Response::GenericError(message) => message.clone(),
        }
    }

    /// The response reports a failure, and belongs on the error stream.
    pub open spec fn spec_is_error(&self) -> bool {
        self is NotFoundError || self is GenericError
    }

    /// The response reports a failure, and belongs on the error stream.
    #[verifier::when_used_as_spec(spec_is_error)]
    pub fn is_error(&self) -> (result: bool)
        ensures
            result == self.spec_is_error(),
    {
        match self {
            Response::NotFoundError(_) => true,
            Response::GenericError(_) => true,
            _ => false,
        }
    }
}

} // verus!
