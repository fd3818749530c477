//! The calls into `serde_json`: the JSON text of a string, and back.

use vstd::prelude::*;

verus! {

/// Makes `serde_json::Error` known as a type. Nothing is claimed of its
/// values; they are carried from `serde_json` to `KvsError::from_json`.
#[verifier::external_type_specification]
#[verifier::external_body]
pub struct ExJsonError(serde_json::Error);

/// The JSON text that `serde_json` writes for the string `s`, as bytes;
/// `None` where it reports an error instead.
pub uninterp spec fn json_text(s: Seq<char>) -> Option<Seq<u8>>;

/// The string that `serde_json` reads from the JSON text `text`; `None`
/// where it rejects the text.
pub uninterp spec fn json_string(text: Seq<u8>) -> Option<Seq<char>>;

/// Calls `serde_json::to_vec` on a string slice.
///
/// Believed, not proved: the outcome depends on `s` alone, so that it can be
/// named `json_text(s@)`. Nothing is claimed of what the text looks like.
#[verifier::external_body]
pub(crate) fn write_string(s: &str) -> (out: Result<Vec<u8>, serde_json::Error>)
    ensures
        match out {
            Ok(text) => json_text(s@) == Some(text@),
            Err(_) => json_text(s@) is None,
        },
{
    serde_json::to_vec(s)
}

/// Calls `serde_json::from_slice` for a `String`.
///
/// Believed, not proved: the outcome depends on `text` alone, so that it can
/// be named `json_string(text@)`. Nothing is claimed of which texts are read.
#[verifier::external_body]
pub(crate) fn read_string(text: &[u8]) -> (out: Result<String, serde_json::Error>)
    ensures
        match out {
            Ok(s) => json_string(text@) == Some(s@),
            Err(_) => json_string(text@) is None,
        },
{
    serde_json::from_slice::<String>(text)
}

} // verus!
