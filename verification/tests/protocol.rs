use kvs::{KvsError, Request, Response};

#[test]
fn success_keeps_the_value() {
    match Response::new_success(Some("v".to_string())) {
        Response::Success(Some(v)) => assert_eq!(v, "v"),
        other => panic!("unexpected response {:?}", other),
    }
    assert!(matches!(
        Response::new_success(None),
        Response::Success(None)
    ));
}

#[test]
fn an_error_is_reported_by_its_displayed_text() {
    match Response::new_error("Key not found") {
        Response::Failure(text) => assert_eq!(text, "Key not found"),
        other => panic!("unexpected response {:?}", other),
    }
    match Response::new_error(404) {
        Response::Failure(text) => assert_eq!(text, "404"),
        other => panic!("unexpected response {:?}", other),
    }
    match Response::new_error_text("plain".to_string()) {
        Response::Failure(text) => assert_eq!(text, "plain"),
        other => panic!("unexpected response {:?}", other),
    }
}

#[test]
fn a_client_takes_success_for_done() {
    let done: Result<(), KvsError> = Response::Success(None).into();
    assert!(matches!(done, Ok(())));
    let done: Result<(), KvsError> = Response::Success(Some("v".to_string())).into();
    assert!(matches!(done, Ok(())));
}

#[test]
fn a_client_takes_success_for_the_value() {
    let found: Result<Option<String>, KvsError> = Response::Success(Some("v".to_string())).into();
    assert_eq!(found.unwrap(), Some("v".to_string()));
    let found: Result<Option<String>, KvsError> = Response::Success(None).into();
    assert_eq!(found.unwrap(), None);
}

#[test]
fn a_client_takes_failure_for_a_remote_error() {
    let done: Result<(), KvsError> = Response::Failure("Key not found".to_string()).into();
    assert!(matches!(done, Err(KvsError::RemoteError(text)) if text == "Key not found"));
    let found: Result<Option<String>, KvsError> = Response::Failure("boom".to_string()).into();
    assert!(matches!(found, Err(KvsError::RemoteError(text)) if text == "boom"));
}

#[test]
fn requests_carry_their_strings() {
    let request = Request::Put {
        key: "k".to_string(),
        value: "v".to_string(),
    };
    assert!(matches!(request, Request::Put { key, value } if key == "k" && value == "v"));
    assert!(matches!(
        Request::Get { key: "k".to_string() },
        Request::Get { key } if key == "k"
    ));
    assert!(matches!(
        Request::Remove { key: "k".to_string() },
        Request::Remove { key } if key == "k"
    ));
}
