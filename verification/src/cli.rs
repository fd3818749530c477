//! What a command-line program shows of the outcome of a command.
//!
//! Printing and ending the process is the caller's part; what to print,
//! where, and with which exit status is decided here.

use crate::error::KvsError;
use vstd::prelude::*;

verus! {

/// What a program shows of a command's outcome.
#[derive(Debug)]
pub enum Report {
    /// Nothing is printed; the exit status is 0.
    Quiet,
    /// The line goes to the standard output; the exit status is 0.
    Line(String),
    /// The line goes to the standard output; the exit status is 1.
    Refusal(String),
    /// The line goes to the standard error; the exit status is 1.
    Complaint(String),
    /// The error is handed up as the program's own failure; the exit
    /// status is not 0.
    Fault(KvsError),
}

impl Report {
    /// The exit status that the report stands for, where it fixes one.
    pub open spec fn status(self) -> Option<int> {
        match self {
            Report::Quiet => Some(0),
            Report::Line(_) => Some(0),
            Report::Refusal(_) => Some(1),
            Report::Complaint(_) => Some(1),
            Report::Fault(_) => None,
        }
    }

    /// The exit status that the report stands for; 1 for an error that is
    /// handed up.
    pub fn exit_code(&self) -> (code: i32)
        ensures
            match self.status() {
                Some(status) => code == status,
                None => code == 1,
            },
    {
        match self {
            Report::Quiet => 0,
            Report::Line(_) => 0,
            Report::Refusal(_) => 1,
            Report::Complaint(_) => 1,
            Report::Fault(_) => 1,
        }
    }
}

/// The report on setting a key: nothing on success.
pub fn report_set(outcome: Result<(), KvsError>) -> (report: Report)
    ensures
        match outcome {
            Ok(_) => report == Report::Quiet,
            Err(e) => report == Report::Fault(e),
        },
{
    match outcome {
        Ok(_) => Report::Quiet,
        Err(e) => Report::Fault(e),
    }
}

/// The report on looking a key up: the value, or `Key not found`; either
/// way the lookup has succeeded.
pub fn report_get(outcome: Result<Option<String>, KvsError>) -> (report: Report)
    ensures
        match outcome {
            Ok(Some(value)) => report == Report::Line(value),
            Ok(None) => report matches Report::Line(text) && text@ == "Key not found"@,
            Err(e) => report == Report::Fault(e),
        },
{
    match outcome {
        Ok(Some(value)) => Report::Line(value),
        Ok(None) => Report::Line(String::from_str("Key not found")),
        Err(e) => Report::Fault(e),
    }
}

/// The report on removing a key.
///
/// A key that the local store does not hold is refused with the text of
/// `KeyNotFound`; a failure that the server reported is a complaint with
/// the server's text.
pub fn report_remove(outcome: Result<(), KvsError>) -> (report: Report)
    ensures
        match outcome {
            Ok(_) => report == Report::Quiet,
            Err(KvsError::KeyNotFound) => report matches Report::Refusal(text) && text@
                == KvsError::KeyNotFound.message_spec(),
            Err(KvsError::RemoteError(text)) => report == Report::Complaint(text),
            Err(e) => report == Report::Fault(e),
        },
{
    match outcome {
        Ok(_) => Report::Quiet,
        Err(KvsError::KeyNotFound) => Report::Refusal(KvsError::KeyNotFound.message()),
        Err(KvsError::RemoteError(text)) => Report::Complaint(text),
        Err(e) => Report::Fault(e),
    }
}

} // verus!
