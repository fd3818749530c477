//! What the server does with one request: put it to the engine and turn
//! the outcome into an answer.
//!
//! Listening, and moving requests and answers over a connection, is the
//! caller's part. For each connection the caller hands `handle` the request
//! that it decoded, or the text of the failure to decode one, and sends
//! back the answer that `handle` returns.

use crate::engine::{get_as_map, remove_as_map, set_as_map, KvsEngine};
use crate::error::KvsError;
use crate::protocol::{Request, Response};
use vstd::prelude::*;

verus! {

/// Whether `response` is the answer to a request that sets or removes a
/// key, given the `outcome` at the engine: success carries no value,
/// failure carries the error's text.
pub open spec fn answers_done(outcome: Result<(), KvsError>, response: Response) -> bool {
    match outcome {
        Ok(_) => response == Response::Success(None),
        Err(e) => response matches Response::Failure(text) && text@ == e.message_spec(),
    }
}

/// Whether `response` is the answer to a request that looks a key up,
/// given the `outcome` at the engine: success carries the value if there
/// is one, failure carries the error's text.
pub open spec fn answers_found(
    outcome: Result<Option<String>, KvsError>,
    response: Response,
) -> bool {
    match outcome {
        Ok(found) => response == Response::Success(found),
        Err(e) => response matches Response::Failure(text) && text@ == e.message_spec(),
    }
}

/// The answer to a request that sets or removes a key, given how the engine
/// fared: success carries no value, failure carries the error's text.
pub fn answer_done(outcome: Result<(), KvsError>) -> (response: Response)
    ensures
        answers_done(outcome, response),
{
    match outcome {
        Ok(_) => Response::new_success(None),
        Err(e) => Response::Failure(e.message()),
    }
}

/// The answer to a request that looks a key up, given how the engine fared:
/// success carries the value if there is one, failure carries the error's
/// text.
pub fn answer_found(outcome: Result<Option<String>, KvsError>) -> (response: Response)
    ensures
        answers_found(outcome, response),
{
    match outcome {
        Ok(found) => Response::new_success(found),
        Err(e) => Response::Failure(e.message()),
    }
}

/// Whether `response` answers a `Put` of `key` and `value` that found the
/// engine as `before` and left it as `after`.
///
/// The answer is `answer_done` of an outcome of which holds what the engine
/// says of `set` with that key and value. It carries no value; and where
/// the engine says what it holds, after an answer of success it holds what
/// it held, with the key set to the value.
pub open spec fn put_handled<T: KvsEngine>(
    before: T,
    key: Seq<char>,
    value: Seq<char>,
    response: Response,
    after: T,
) -> bool {
    &&& exists|outcome: Result<(), KvsError>|
        {
            &&& #[trigger] answers_done(outcome, response)
            &&& set_as_map(before.modelled(), before.pairs(), key, value, outcome, after.pairs())
            &&& before.set_yields(key, value, outcome, after)
        }
    &&& response == Response::Success(None) || response is Failure
    &&& before.modelled() && response is Success ==> after.pairs() == before.pairs().insert(
        key,
        value,
    )
}

/// Whether `response` answers a `Get` of `key` that found the engine as
/// `before` and left it as `after`.
///
/// The answer is `answer_found` of an outcome of which holds what the
/// engine says of `get` with that key. Where the engine says what it
/// holds, it holds what it held, and an answer of success carries the value
/// that it holds for the key, or none where it holds none.
pub open spec fn get_handled<T: KvsEngine>(
    before: T,
    key: Seq<char>,
    response: Response,
    after: T,
) -> bool {
    &&& exists|outcome: Result<Option<String>, KvsError>|
        {
            &&& #[trigger] answers_found(outcome, response)
            &&& get_as_map(before.modelled(), before.pairs(), key, outcome, after.pairs())
            &&& before.get_yields(key, outcome, after)
        }
    &&& before.modelled() ==> after.pairs() == before.pairs()
    &&& before.modelled() ==> (response matches Response::Success(found) ==> match found {
        Some(value) => before.pairs().contains_key(key) && before.pairs()[key] == value@,
        None => !before.pairs().contains_key(key),
    })
}

/// Whether `response` answers a `Remove` of `key` that found the engine as
/// `before` and left it as `after`.
///
/// The answer is `answer_done` of an outcome of which holds what the engine
/// says of `remove` with that key. It carries no value; and where the
/// engine says what it holds, after an answer of success it held the key
/// and holds what it held without it.
pub open spec fn remove_handled<T: KvsEngine>(
    before: T,
    key: Seq<char>,
    response: Response,
    after: T,
) -> bool {
    &&& exists|outcome: Result<(), KvsError>|
        {
            &&& #[trigger] answers_done(outcome, response)
            &&& remove_as_map(before.modelled(), before.pairs(), key, outcome, after.pairs())
            &&& before.remove_yields(key, outcome, after)
        }
    &&& response == Response::Success(None) || response is Failure
    &&& before.modelled() && response is Success ==> {
        &&& before.pairs().contains_key(key)
        &&& after.pairs() == before.pairs().remove(key)
    }
}

/// Whether `response` answers `incoming`, which found the engine as
/// `before` and left it as `after`.
pub open spec fn handled<T: KvsEngine>(
    before: T,
    incoming: Result<Request, String>,
    response: Response,
    after: T,
) -> bool {
    &&& after.modelled() == before.modelled()
    &&& match incoming {
        Err(text) => response == Response::Failure(text) && after == before,
        Ok(Request::Put { key, value }) => put_handled(before, key@, value@, response, after),
        Ok(Request::Get { key }) => get_handled(before, key@, response, after),
        Ok(Request::Remove { key }) => remove_handled(before, key@, response, after),
    }
}

/// The server: an engine, and the rule that turns requests into answers.
pub struct KvsServer<T: KvsEngine> {
    engine: T,
}

impl<T: KvsEngine> KvsServer<T> {
    /// The engine that the server puts its requests to.
    pub closed spec fn engine(self) -> T {
        self.engine
    }

    /// A server on `engine`.
    pub fn new(engine: T) -> (server: KvsServer<T>)
        ensures
            server.engine() == engine,
    {
        KvsServer { engine }
    }

    /// Gives the engine back.
    pub fn into_engine(self) -> (engine: T)
        ensures
            engine == self.engine(),
    {
        self.engine
    }

    /// Answers one request.
    ///
    /// A request that could not be decoded is answered with a failure that
    /// carries the given text, and the engine is not touched.
    ///
    /// Any other request goes to the engine: `set` gets the key and the
    /// value of a `Put`, `get` and `remove` the key of a `Get` or a
    /// `Remove`. The answer is `answer_done` of the outcome of `set` or
    /// `remove`, and `answer_found` of the outcome of `get`. Of that outcome
    /// and of the engine afterwards holds what the engine says of such a
    /// call, and, where the engine says what it holds:
    ///
    /// - after a `Put` that is answered with success, the engine holds what
    ///   it held, with the key set to the value;
    /// - after a `Get`, the engine holds what it held, and an answer of
    ///   success carries the value that the engine holds for the key, or
    ///   none where it holds none;
    /// - after a `Remove` that is answered with success, the engine held the
    ///   key and holds what it held without it.
    pub fn handle(&mut self, incoming: Result<Request, String>) -> (response: Response)
        ensures
            handled(old(self).engine(), incoming, response, final(self).engine()),
    {
        match incoming {
            Err(text) => Response::new_error_text(text),
            Ok(Request::Put { key, value }) => {
                let outcome = self.engine.set(key, value);
                let ghost seen = outcome;
                let response = answer_done(outcome);
                assert(answers_done(seen, response));
                response
            },
            Ok(Request::Remove { key }) => {
                let outcome = self.engine.remove(key);
                let ghost seen = outcome;
                let response = answer_done(outcome);
                assert(answers_done(seen, response));
                response
            },
            Ok(Request::Get { key }) => {
                let outcome = self.engine.get(key);
                let ghost seen = outcome;
                let response = answer_found(outcome);
                assert(answers_found(seen, response));
                response
            },
        }
    }
}

} // verus!
