//! The failure kinds of the store and of its network service.

use vstd::prelude::*;
use vstd::string::to_string_from_display_ensures;

verus! {

/// What can go wrong in the store, the codecs or the service.
///
/// A variant that stems from an underlying library carries that library's
/// own description of the failure.
#[derive(Debug)]
pub enum KvsError {
    /// A file or a socket failed.
    Io(String),
    /// A record of the log is malformed or truncated, or could not be written.
    Serde(String),
    /// A message on the wire could not be encoded or decoded.
    Bincode(String),
    /// A stored value is not valid UTF-8.
    Utf8(String),
    /// `remove` was applied to a key that the store does not hold.
    KeyNotFound,
    /// A pointer of the index leads to a record that is no `Set`.
    UnexpectedCommandType,
    /// The engine asked for differs from the one that the directory was made with.
    WrongEngineType,
    /// The server reported a failure; the text is the server's.
    RemoteError(String),
}

impl KvsError {
    /// The text shown to a user for this error.
    pub open spec fn message_spec(self) -> Seq<char> {
        match self {
            KvsError::Io(text) => text@,
            KvsError::Serde(text) => text@,
            KvsError::Bincode(text) => text@,
            KvsError::Utf8(text) => "UTF-8 error: "@ + text@,
            KvsError::KeyNotFound => "Key not found"@,
            KvsError::UnexpectedCommandType => "Unexpected command type"@,
            KvsError::WrongEngineType => "Different engine type from the previous one"@,
            KvsError::RemoteError(_) => "Error occurring in remote"@,
        }
    }

    /// The text shown to a user for this error.
    pub fn message(&self) -> (text: String)
        ensures
            text@ == self.message_spec(),
    {
        match self {
            KvsError::Io(text) => text.clone(),
            KvsError::Serde(text) => text.clone(),
            KvsError::Bincode(text) => text.clone(),
            KvsError::Utf8(text) => String::from_str("UTF-8 error: ").concat(text.as_str()),
            KvsError::KeyNotFound => String::from_str("Key not found"),
            KvsError::UnexpectedCommandType => String::from_str("Unexpected command type"),
            KvsError::WrongEngineType => String::from_str(
                "Different engine type from the previous one",
            ),
            KvsError::RemoteError(_) => String::from_str("Error occurring in remote"),
        }
    }
}

impl KvsError {
    /// The error of the store for a failure that `serde_json` reported: a
    /// `Serde` that carries the text which the failure displays.
    pub fn from_json(e: serde_json::Error) -> (out: KvsError)
        ensures
            out matches KvsError::Serde(text) && to_string_from_display_ensures::<
                serde_json::Error,
            >(&e, text),
    {
        KvsError::Serde(e.to_string())
    }
}

} // verus!
