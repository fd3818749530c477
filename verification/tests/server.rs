use kvs::cli::{report_get, report_remove, report_set, Report};
use kvs::server::{answer_done, answer_found};
use kvs::{KvStore, KvsEngine, KvsError, KvsServer, Request, Response};

fn put(key: &str, value: &str) -> Result<Request, String> {
    Ok(Request::Put {
        key: key.to_string(),
        value: value.to_string(),
    })
}

fn get(key: &str) -> Result<Request, String> {
    Ok(Request::Get {
        key: key.to_string(),
    })
}

fn remove(key: &str) -> Result<Request, String> {
    Ok(Request::Remove {
        key: key.to_string(),
    })
}

/// An engine that fails at everything.
struct Broken;

impl KvsEngine for Broken {
    fn set(&mut self, _key: String, _value: String) -> Result<(), KvsError> {
        Err(KvsError::Io("no space left".to_string()))
    }

    fn get(&mut self, _key: String) -> Result<Option<String>, KvsError> {
        Err(KvsError::UnexpectedCommandType)
    }

    fn remove(&mut self, _key: String) -> Result<(), KvsError> {
        Err(KvsError::Utf8("bad byte".to_string()))
    }
}

#[test]
fn set_then_get_over_the_server() {
    let mut server = KvsServer::new(KvStore::new());
    let answer = server.handle(put("key1", "value1"));
    assert!(matches!(answer, Response::Success(None)));
    assert!(matches!(report_set(answer.into()), Report::Quiet));

    let answer = server.handle(get("key1"));
    assert!(matches!(&answer, Response::Success(Some(value)) if value == "value1"));
    let report = report_get(answer.into());
    assert_eq!(report.exit_code(), 0);
    assert!(matches!(report, Report::Line(line) if line == "value1"));
}

#[test]
fn the_last_set_wins_over_the_server() {
    let mut server = KvsServer::new(KvStore::new());
    server.handle(put("key1", "value1"));
    server.handle(put("key1", "value2"));
    let report = report_get(server.handle(get("key1")).into());
    assert!(matches!(report, Report::Line(line) if line == "value2"));
}

#[test]
fn get_of_a_missing_key_over_the_server() {
    let mut server = KvsServer::new(KvStore::new());
    let answer = server.handle(get("missing"));
    assert!(matches!(answer, Response::Success(None)));
    let report = report_get(answer.into());
    assert_eq!(report.exit_code(), 0);
    assert!(matches!(report, Report::Line(line) if line == "Key not found"));
}

#[test]
fn rm_of_a_missing_key_over_the_server() {
    let mut server = KvsServer::new(KvStore::new());
    let answer = server.handle(remove("missing"));
    assert!(matches!(&answer, Response::Failure(text) if text == "Key not found"));
    let report = report_remove(answer.into());
    assert_eq!(report.exit_code(), 1);
    assert!(matches!(report, Report::Complaint(line) if line.contains("Key not found")));
}

#[test]
fn rm_over_the_server_removes() {
    let mut server = KvsServer::new(KvStore::new());
    server.handle(put("key1", "value1"));
    let answer = server.handle(remove("key1"));
    assert!(matches!(answer, Response::Success(None)));
    assert!(matches!(report_remove(answer.into()), Report::Quiet));
    assert!(matches!(
        server.handle(get("key1")),
        Response::Success(None)
    ));
    let mut store = server.into_engine();
    assert_eq!(store.get("key1".to_string()).unwrap(), None);
    assert_eq!(store.len(), 0);
}

#[test]
fn a_request_that_could_not_be_decoded_is_answered_with_its_failure() {
    let mut server = KvsServer::new(KvStore::new());
    server.handle(put("key1", "value1"));
    let answer = server.handle(Err("io error: unexpected end of file".to_string()));
    assert!(
        matches!(answer, Response::Failure(text) if text == "io error: unexpected end of file")
    );
    assert!(
        matches!(server.handle(get("key1")), Response::Success(Some(value)) if value == "value1")
    );
}

#[test]
fn the_failures_of_an_engine_are_answered_with_their_texts() {
    let mut server = KvsServer::new(Broken);
    assert!(matches!(
        server.handle(put("k", "v")),
        Response::Failure(text) if text == "no space left"
    ));
    assert!(matches!(
        server.handle(get("k")),
        Response::Failure(text) if text == "Unexpected command type"
    ));
    assert!(matches!(
        server.handle(remove("k")),
        Response::Failure(text) if text == "UTF-8 error: bad byte"
    ));
}

#[test]
fn answers_follow_the_outcome() {
    assert!(matches!(answer_done(Ok(())), Response::Success(None)));
    assert!(matches!(
        answer_done(Err(KvsError::KeyNotFound)),
        Response::Failure(text) if text == "Key not found"
    ));
    assert!(matches!(
        answer_found(Ok(Some("v".to_string()))),
        Response::Success(Some(value)) if value == "v"
    ));
    assert!(matches!(answer_found(Ok(None)), Response::Success(None)));
    assert!(matches!(
        answer_found(Err(KvsError::WrongEngineType)),
        Response::Failure(text) if text == "Different engine type from the previous one"
    ));
}

/// An engine that notes what it is asked and answers from a fixed list.
struct Noting {
    asked: Vec<String>,
}

impl KvsEngine for Noting {
    fn set(&mut self, key: String, value: String) -> Result<(), KvsError> {
        self.asked.push(format!("set {} {}", key, value));
        Ok(())
    }

    fn get(&mut self, key: String) -> Result<Option<String>, KvsError> {
        self.asked.push(format!("get {}", key));
        Ok(Some(format!("value of {}", key)))
    }

    fn remove(&mut self, key: String) -> Result<(), KvsError> {
        self.asked.push(format!("remove {}", key));
        Err(KvsError::KeyNotFound)
    }
}

#[test]
fn each_request_is_one_call_with_the_fields_of_the_request() {
    let mut server = KvsServer::new(Noting { asked: Vec::new() });
    assert!(matches!(
        server.handle(put("k1", "v1")),
        Response::Success(None)
    ));
    assert!(matches!(
        server.handle(get("k2")),
        Response::Success(Some(value)) if value == "value of k2"
    ));
    assert!(matches!(
        server.handle(Err("not a request".to_string())),
        Response::Failure(text) if text == "not a request"
    ));
    assert!(matches!(
        server.handle(remove("k3")),
        Response::Failure(text) if text == "Key not found"
    ));
    assert_eq!(
        server.into_engine().asked,
        vec!["set k1 v1", "get k2", "remove k3"]
    );
}

#[test]
fn a_failed_remove_does_not_stop_the_server() {
    let mut server = KvsServer::new(KvStore::new());
    assert!(matches!(
        server.handle(remove("missing")),
        Response::Failure(text) if text == "Key not found"
    ));
    assert!(matches!(
        server.handle(put("key1", "value1")),
        Response::Success(None)
    ));
    assert!(matches!(
        server.handle(get("key1")),
        Response::Success(Some(value)) if value == "value1"
    ));
}
