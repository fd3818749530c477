//! The commands that the log records, and where a record lies.

use vstd::prelude::*;

verus! {

/// Where one record lies: the segment, the offset of its first byte in
/// that segment, and its length in bytes.
#[derive(Clone, Copy, Debug, PartialEq, Eq, Structural)]
pub struct LogPointer {
    /// The id of the segment that holds the record.
    pub file_id: u64,
    /// The offset of the record's first byte.
    pub offset: u64,
    /// The number of bytes of the record.
    pub len: u64,
}

/// A command as the log records it.
#[derive(Debug)]
pub enum Command {
    /// `key` was given `value`.
    Put {
        /// The key that was set.
        key: String,
        /// The value that it was given.
        value: String,
    },
    /// `key` was deleted.
    Remove {
        /// The key that was deleted.
        key: String,
    },
}

/// A command, with its strings as sequences of characters.
pub enum CommandView {
    /// `key` was given `value`.
    Put { key: Seq<char>, value: Seq<char> },
    /// `key` was deleted.
    Remove { key: Seq<char> },
}

impl CommandView {
    /// The key that the command is about.
    pub open spec fn key(self) -> Seq<char> {
        match self {
            CommandView::Put { key, .. } => key,
            CommandView::Remove { key } => key,
        }
    }
}

impl View for Command {
    type V = CommandView;

    open spec fn view(&self) -> CommandView {
        match self {
            Command::Put { key, value } => CommandView::Put { key: key@, value: value@ },
            Command::Remove { key } => CommandView::Remove { key: key@ },
        }
    }
}

} // verus!
