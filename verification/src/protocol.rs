//! What a client sends to the server and what the server answers.

use crate::error::KvsError;
use std::fmt::Display;
use vstd::prelude::*;
use vstd::std_specs::convert::FromSpecImpl;
use vstd::string::to_string_from_display_ensures;

verus! {

/// A command that a client sends to the server.
#[derive(Debug)]
pub enum Request {
    /// Store `value` under `key`.
    Put {
        /// The key to set.
        key: String,
        /// The value to store under it.
        value: String,
    },
    /// Delete `key`.
    Remove {
        /// The key to delete.
        key: String,
    },
    /// Look `key` up.
    Get {
        /// The key to look up.
        key: String,
    },
}

/// The server's answer to one request.
#[derive(Debug)]
pub enum Response {
    /// The command succeeded; a `Get` that found its key carries the value.
    Success(Option<String>),
    /// The command failed; the text says how.
    Failure(String),
}

impl Response {
    /// The answer that reports the failure `err` by its displayed text.
    pub fn new_error<T: Display>(err: T) -> (response: Response)
        ensures
            response matches Response::Failure(text) && to_string_from_display_ensures::<T>(
                &err,
                text,
            ),
    {
        Response::Failure(err.to_string())
    }

    /// The answer that reports a failure by the text `text`.
    pub fn new_error_text(text: String) -> (response: Response)
        ensures
            response == Response::Failure(text),
    {
        Response::Failure(text)
    }

    /// The answer that reports success, with the value found if there is one.
    pub fn new_success(msg: Option<String>) -> (response: Response)
        ensures
            response == Response::Success(msg),
    {
        Response::Success(msg)
    }
}

impl From<Response> for Result<(), KvsError> {
    /// What a client makes of the answer to a `Put` or a `Remove`.
    fn from(res: Response) -> (out: Result<(), KvsError>) {
        match res {
            Response::Success(_) => Ok(()),
            Response::Failure(e) => Err(KvsError::RemoteError(e)),
        }
    }
}

impl FromSpecImpl<Response> for Result<(), KvsError> {
    open spec fn obeys_from_spec() -> bool {
        true
    }

    open spec fn from_spec(res: Response) -> Result<(), KvsError> {
        match res {
            Response::Success(_) => Ok(()),
            Response::Failure(e) => Err(KvsError::RemoteError(e)),
        }
    }
}

impl From<Response> for Result<Option<String>, KvsError> {
    /// What a client makes of the answer to a `Get`.
    fn from(res: Response) -> (out: Result<Option<String>, KvsError>) {
        match res {
            Response::Success(msg) => Ok(msg),
            Response::Failure(e) => Err(KvsError::RemoteError(e)),
        }
    }
}

impl FromSpecImpl<Response> for Result<Option<String>, KvsError> {
    open spec fn obeys_from_spec() -> bool {
        true
    }

    open spec fn from_spec(res: Response) -> Result<Option<String>, KvsError> {
        match res {
            Response::Success(msg) => Ok(msg),
            Response::Failure(e) => Err(KvsError::RemoteError(e)),
        }
    }
}

} // verus!
