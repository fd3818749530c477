use kvs::KvsError;

#[test]
fn each_error_has_its_text() {
    assert_eq!(KvsError::Io("disk full".to_string()).message(), "disk full");
    assert_eq!(
        KvsError::Serde("bad record".to_string()).message(),
        "bad record"
    );
    assert_eq!(
        KvsError::Bincode("bad message".to_string()).message(),
        "bad message"
    );
    assert_eq!(
        KvsError::Utf8("invalid byte".to_string()).message(),
        "UTF-8 error: invalid byte"
    );
    assert_eq!(KvsError::KeyNotFound.message(), "Key not found");
    assert_eq!(
        KvsError::UnexpectedCommandType.message(),
        "Unexpected command type"
    );
    assert_eq!(
        KvsError::WrongEngineType.message(),
        "Different engine type from the previous one"
    );
    assert_eq!(
        KvsError::RemoteError("whatever".to_string()).message(),
        "Error occurring in remote"
    );
}

#[test]
fn a_failure_of_serde_json_is_a_serde_error_with_its_text() {
    let failure = serde_json::from_str::<String>("\"open").unwrap_err();
    let text = failure.to_string();
    match KvsError::from_json(failure) {
        KvsError::Serde(found) => assert_eq!(found, text),
        other => panic!("unexpected {:?}", other),
    }
}
