//! The contract between the server and a storage engine.

use crate::error::KvsError;
use vstd::prelude::*;
use vstd::string::StringSliceAdditionalSpecFns;

verus! {

/// The storage engines that a directory of data can belong to.
#[allow(non_camel_case_types)]
#[derive(Clone, Copy, Debug, PartialEq, Eq, Structural)]
pub enum EngineType {
    /// The log-structured store of this library.
    kvs,
    /// The store that the `sled` database backs.
    sled,
}

/// The lower-case form of an ASCII letter; any other byte stays.
pub open spec fn lower(byte: u8) -> u8 {
    if 0x41 <= byte <= 0x5a {
        (byte + 0x20) as u8
    } else {
        byte
    }
}

/// Whether two sequences of bytes are the same but for the case of their
/// ASCII letters.
pub open spec fn same_but_case(a: Seq<u8>, b: Seq<u8>) -> bool {
    &&& a.len() == b.len()
    &&& forall|i: int| 0 <= i < a.len() ==> lower(a[i]) == lower(b[i])
}

/// The engine that a text names: `kvs` or `sled`, in any case of letters,
/// and nothing around it.
pub open spec fn engine_named(text: Seq<char>) -> Option<EngineType> {
    if same_but_case(vstd::utf8::encode_utf8(text), "kvs".spec_bytes()) {
        Some(EngineType::kvs)
    } else if same_but_case(vstd::utf8::encode_utf8(text), "sled".spec_bytes()) {
        Some(EngineType::sled)
    } else {
        None
    }
}

/// The engine to run: the one that the directory was made with, or else the
/// one asked for, or else `kvs`; `None` where the one asked for is not the
/// one that the directory was made with.
pub open spec fn engine_chosen(previous: Option<EngineType>, wanted: Option<EngineType>) -> Option<
    EngineType,
> {
    match (previous, wanted) {
        (Some(before), Some(engine)) => if engine == before {
            Some(before)
        } else {
            None
        },
        (Some(before), None) => Some(before),
        (None, Some(engine)) => Some(engine),
        (None, None) => Some(EngineType::kvs),
    }
}

/// The lower-case form of an ASCII letter; any other byte stays.
fn to_lower(byte: u8) -> (out: u8)
    ensures
        out == lower(byte),
{
    if 0x41 <= byte && byte <= 0x5a {
        byte + 0x20
    } else {
        byte
    }
}

/// Whether two texts are the same but for the case of their ASCII letters.
fn equal_but_case(a: &str, b: &str) -> (same: bool)
    ensures
        same == same_but_case(a.spec_bytes(), b.spec_bytes()),
{
    let left = a.as_bytes();
    let right = b.as_bytes();
    if left.len() != right.len() {
        return false;
    }
    let mut at: usize = 0;
    while at < left.len()
        invariant
            at <= left@.len(),
            left@ == a.spec_bytes(),
            right@ == b.spec_bytes(),
            left@.len() == right@.len(),
            forall|i: int| 0 <= i < at ==> lower(left@[i]) == lower(right@[i]),
        decreases left@.len() - at,
    {
        if to_lower(left[at]) != to_lower(right[at]) {
            return false;
        }
        at += 1;
    }
    true
}

impl EngineType {
    /// The name of the engine, as it stands in the file that records the
    /// choice.
    pub open spec fn name_spec(self) -> Seq<char> {
        match self {
            EngineType::kvs => "kvs"@,
            EngineType::sled => "sled"@,
        }
    }

    /// The name of the engine.
    pub fn name(&self) -> (text: &'static str)
        ensures
            text@ == self.name_spec(),
    {
        match self {
            EngineType::kvs => "kvs",
            EngineType::sled => "sled",
        }
    }

    /// The engine that `text` names, if it names one.
    pub fn parse(text: &str) -> (engine: Option<EngineType>)
        ensures
            engine == engine_named(text@),
    {
        if equal_but_case(text, "kvs") {
            Some(EngineType::kvs)
        } else if equal_but_case(text, "sled") {
            Some(EngineType::sled)
        } else {
            None
        }
    }

    /// The engine that the directory was made with, given what its file of
    /// the choice holds: `None` for `content` where there is no such file.
    /// A file that names no engine counts as no file.
    pub fn previous_engine_type(content: Option<&str>) -> (engine: Option<EngineType>)
        ensures
            engine == match content {
                Some(text) => engine_named(text@),
                None => None,
            },
    {
        match content {
            Some(text) => EngineType::parse(text),
            None => None,
        }
    }

    /// Settles which engine to run, given the one asked for, if any, and
    /// what the directory's file of the choice holds, if there is one.
    ///
    /// Fails with `WrongEngineType` exactly where an engine is asked for
    /// and the file names another one.
    pub fn new(engine_op: Option<EngineType>, content: Option<&str>) -> (result: Result<
        EngineType,
        KvsError,
    >)
        ensures
            match engine_chosen(
                match content {
                    Some(text) => engine_named(text@),
                    None => None,
                },
                engine_op,
            ) {
                Some(engine) => result == Ok::<EngineType, KvsError>(engine),
                None => result == Err::<EngineType, KvsError>(KvsError::WrongEngineType),
            },
    {
        match EngineType::previous_engine_type(content) {
            Some(before) => match engine_op {
                Some(engine) => {
                    if engine != before {
                        Err(KvsError::WrongEngineType)
                    } else {
                        Ok(before)
                    }
                },
                None => Ok(before),
            },
            None => match engine_op {
                Some(engine) => Ok(engine),
                None => Ok(EngineType::kvs),
            },
        }
    }

    /// What the file of the choice is to hold for this engine.
    pub fn dump_config(&self) -> (content: String)
        ensures
            content@ == self.name_spec(),
    {
        String::from_str(self.name())
    }
}

/// A file that holds an engine's name, as `dump_config` writes it, names
/// that engine.
pub proof fn lemma_name_is_read(engine: EngineType)
    ensures
        engine_named(engine.name_spec()) == Some(engine),
{
    reveal_strlit("kvs");
    reveal_strlit("sled");
    vstd::utf8::is_ascii_chars_encode_utf8("kvs"@);
    vstd::utf8::is_ascii_chars_encode_utf8("sled"@);
    assert("kvs".spec_bytes() == vstd::utf8::encode_utf8("kvs"@));
    assert("sled".spec_bytes() == vstd::utf8::encode_utf8("sled"@));
}

/// Once a directory was made with `kvs`, asking for `sled` fails, and
/// asking for `kvs` or for nothing gives `kvs`.
pub proof fn law_engine_guard()
    ensures
        engine_chosen(engine_named(EngineType::kvs.name_spec()), Some(EngineType::sled)) is None,
        engine_chosen(engine_named(EngineType::kvs.name_spec()), Some(EngineType::kvs)) == Some(
            EngineType::kvs,
        ),
        engine_chosen(engine_named(EngineType::kvs.name_spec()), None) == Some(EngineType::kvs),
{
    lemma_name_is_read(EngineType::kvs);
}

/// A storage engine: a map from string keys to string values that a server
/// can put its requests to.
///
/// The methods take `&mut self`, because an engine may have to move in its
/// files even to read. None of them is bound to succeed: an engine may fail
/// at its files at any time. What the contracts say is what an outcome
/// means for what the engine holds.
///
/// An engine that is verified says what it holds (`pairs`, with `modelled`
/// true), and may say more of each call (`set_yields`, `get_yields`,
/// `remove_yields`). An engine that is not verified leaves all five as they
/// are, and nothing is then claimed of it.
pub trait KvsEngine: Sized {
    /// Whether `pairs` says what the engine holds.
    open spec fn modelled(&self) -> bool {
        false
    }

    /// The pairs that the engine holds.
    open spec fn pairs(&self) -> Map<Seq<char>, Seq<char>> {
        Map::empty()
    }

    /// What the engine says of a call of `set` with `key` and `value` that
    /// ended with `outcome` and left the engine as `after`.
    open spec fn set_yields(
        &self,
        key: Seq<char>,
        value: Seq<char>,
        outcome: Result<(), KvsError>,
        after: Self,
    ) -> bool {
        true
    }

    /// What the engine says of a call of `get` with `key` that ended with
    /// `outcome` and left the engine as `after`.
    open spec fn get_yields(
        &self,
        key: Seq<char>,
        outcome: Result<Option<String>, KvsError>,
        after: Self,
    ) -> bool {
        true
    }

    /// What the engine says of a call of `remove` with `key` that ended
    /// with `outcome` and left the engine as `after`.
    open spec fn remove_yields(
        &self,
        key: Seq<char>,
        outcome: Result<(), KvsError>,
        after: Self,
    ) -> bool {
        true
    }

    /// Stores `value` under `key`, in place of any value that was there.
    fn set(&mut self, key: String, value: String) -> (result: Result<(), KvsError>)
        ensures
            final(self).modelled() == old(self).modelled(),
            set_as_map(
                old(self).modelled(),
                old(self).pairs(),
                key@,
                value@,
                result,
                final(self).pairs(),
            ),
            old(self).set_yields(key@, value@, result, *final(self)),
    ;

    /// Looks `key` up: the value stored under it, or `None` where there is
    /// none, whether the key was never set or was removed. What the engine
    /// holds stays as it is.
    fn get(&mut self, key: String) -> (result: Result<Option<String>, KvsError>)
        ensures
            final(self).modelled() == old(self).modelled(),
            get_as_map(old(self).modelled(), old(self).pairs(), key@, result, final(self).pairs()),
            old(self).get_yields(key@, result, *final(self)),
    ;

    /// Deletes `key`. Fails with `KeyNotFound` only where the engine does
    /// not hold the key, and then holds what it held.
    fn remove(&mut self, key: String) -> (result: Result<(), KvsError>)
        ensures
            final(self).modelled() == old(self).modelled(),
            remove_as_map(
                old(self).modelled(),
                old(self).pairs(),
                key@,
                result,
                final(self).pairs(),
            ),
            old(self).remove_yields(key@, result, *final(self)),
    ;
}

/// What the outcome of `set` means for an engine that is a map: on
/// success the engine holds what it held, with `key` set to `value`.
pub open spec fn set_as_map(
    modelled: bool,
    before: Map<Seq<char>, Seq<char>>,
    key: Seq<char>,
    value: Seq<char>,
    outcome: Result<(), KvsError>,
    after: Map<Seq<char>, Seq<char>>,
) -> bool {
    modelled && outcome is Ok ==> after == before.insert(key, value)
}

/// What the outcome of `get` means for an engine that is a map: the engine
/// holds what it held, and on success what was found is what it holds for
/// `key`.
pub open spec fn get_as_map(
    modelled: bool,
    before: Map<Seq<char>, Seq<char>>,
    key: Seq<char>,
    outcome: Result<Option<String>, KvsError>,
    after: Map<Seq<char>, Seq<char>>,
) -> bool {
    modelled ==> {
        &&& after == before
        &&& outcome matches Ok(found) ==> match found {
            Some(value) => before.contains_key(key) && before[key] == value@,
            None => !before.contains_key(key),
        }
    }
}

/// What the outcome of `remove` means for an engine that is a map: on
/// success the engine held `key` and holds what it held without it; on
/// `KeyNotFound` the engine did not hold `key` and holds what it held.
pub open spec fn remove_as_map(
    modelled: bool,
    before: Map<Seq<char>, Seq<char>>,
    key: Seq<char>,
    outcome: Result<(), KvsError>,
    after: Map<Seq<char>, Seq<char>>,
) -> bool {
    modelled ==> {
        &&& outcome is Ok ==> before.contains_key(key) && after == before.remove(key)
        &&& outcome matches Err(KvsError::KeyNotFound) ==> !before.contains_key(key) && after
            == before
    }
}

} // verus!
