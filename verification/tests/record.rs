use kvs::record::{
    build_put, build_remove, decode, encode, encode_checked, read_value, scan, value_of_command,
    Layout, Span,
};
use kvs::{Command, KvsError};

fn put(key: &str, value: &str) -> Command {
    Command::Put {
        key: key.to_string(),
        value: value.to_string(),
    }
}

fn remove(key: &str) -> Command {
    Command::Remove {
        key: key.to_string(),
    }
}

#[test]
fn a_put_is_written_as_a_json_object() {
    assert_eq!(
        encode(&put("a", "b")).unwrap(),
        b"{\"Set\":{\"key\":\"a\",\"value\":\"b\"}}".to_vec()
    );
}

#[test]
fn a_remove_is_written_as_a_json_object() {
    assert_eq!(
        encode(&remove("a")).unwrap(),
        b"{\"Remove\":{\"key\":\"a\"}}".to_vec()
    );
}

#[test]
fn strings_are_written_as_json_text() {
    let record = encode(&put("quote\"d", "back\\slash\nline\ttab\u{1}")).unwrap();
    assert_eq!(
        String::from_utf8(record).unwrap(),
        "{\"Set\":{\"key\":\"quote\\\"d\",\"value\":\"back\\\\slash\\nline\\ttab\\u0001\"}}"
    );
}

#[test]
fn a_record_is_what_serde_json_reads_as_a_tagged_object() {
    let record = encode(&put("k\u{e9}y", "v\"al")).unwrap();
    let value: serde_json::Value = serde_json::from_slice(&record).unwrap();
    let fields = value.get("Set").unwrap();
    assert_eq!(fields.get("key").unwrap().as_str(), Some("k\u{e9}y"));
    assert_eq!(fields.get("value").unwrap().as_str(), Some("v\"al"));
    assert_eq!(value.as_object().unwrap().len(), 1);
    assert_eq!(fields.as_object().unwrap().len(), 2);

    let record = encode(&remove("gone")).unwrap();
    let value: serde_json::Value = serde_json::from_slice(&record).unwrap();
    assert_eq!(
        value.get("Remove").unwrap().get("key").unwrap().as_str(),
        Some("gone")
    );
}

#[test]
fn decode_reads_back_what_encode_wrote() {
    for (key, value) in [
        ("a", "b"),
        ("", ""),
        ("quote\"d", "back\\slash"),
        ("k\u{e9}y \u{1f600}", "line\nbreak\r\n\ttab"),
        ("\\\"", "\u{0}\u{1f}\u{7f}"),
        ("}}", "{\"Set\":{\"key\":\"x\",\"value\":\"y\"}}"),
    ] {
        let record = encode(&put(key, value)).unwrap();
        match decode(&record, 0).unwrap() {
            (Command::Put { key: k, value: v }, next) => {
                assert_eq!(k, key);
                assert_eq!(v, value);
                assert_eq!(next, record.len());
            }
            other => panic!("unexpected {:?}", other),
        }
        let record = encode(&remove(key)).unwrap();
        match decode(&record, 0).unwrap() {
            (Command::Remove { key: k }, next) => {
                assert_eq!(k, key);
                assert_eq!(next, record.len());
            }
            other => panic!("unexpected {:?}", other),
        }
    }
}

#[test]
fn decode_reads_a_record_from_the_middle_of_a_log() {
    let first = encode(&put("a", "1")).unwrap();
    let second = encode(&remove("a")).unwrap();
    let third = encode(&put("b", "2")).unwrap();
    let mut log = first.clone();
    log.extend_from_slice(&second);
    log.extend_from_slice(&third);

    let (command, next) = decode(&log, first.len()).unwrap();
    assert!(matches!(command, Command::Remove { key } if key == "a"));
    assert_eq!(next, first.len() + second.len());

    let (command, next) = decode(&log, next).unwrap();
    assert!(matches!(command, Command::Put { key, value } if key == "b" && value == "2"));
    assert_eq!(next, log.len());
}

#[test]
fn decode_reads_the_escapes_of_json() {
    let record = b"{\"Set\":{\"key\":\"\\u0041\\/\",\"value\":\"\\ud83d\\ude00\\b\\f\"}}";
    let (command, next) = decode(record, 0).unwrap();
    assert!(matches!(
        command,
        Command::Put { key, value } if key == "A/" && value == "\u{1f600}\u{8}\u{c}"
    ));
    assert_eq!(next, record.len());
}

#[test]
fn decode_rejects_what_is_no_record() {
    let bad: Vec<&[u8]> = vec![
        b"",
        b"{",
        b"{\"Set\":{\"key\":\"a\",\"value\":\"b\"}",
        b"{\"Set\":{\"key\":\"a\",\"value\":\"b}}",
        b"{\"Set\":{\"key\":\"a\"}}",
        b"{\"Set\":{\"value\":\"b\",\"key\":\"a\"}}",
        b" {\"Set\":{\"key\":\"a\",\"value\":\"b\"}}",
        b"{\"Set\": {\"key\":\"a\",\"value\":\"b\"}}",
        b"{\"Get\":{\"key\":\"a\"}}",
        b"{\"Remove\":{\"key\":7}}",
        b"{\"Remove\":{\"key\":\"a\\\"}}",
        b"{\"Remove\":{\"key\":\"bad \\x escape\"}}",
        b"{\"Remove\":{\"key\":\"\xff\"}}",
        b"null",
    ];
    for bytes in bad {
        assert!(
            matches!(decode(bytes, 0), Err(KvsError::Serde(_))),
            "{:?}",
            String::from_utf8_lossy(bytes)
        );
    }
}

#[test]
fn decode_rejects_an_offset_at_or_behind_the_end() {
    let record = encode(&put("a", "b")).unwrap();
    assert!(matches!(
        decode(&record, record.len()),
        Err(KvsError::Serde(_))
    ));
    assert!(matches!(
        decode(&record, record.len() + 10),
        Err(KvsError::Serde(_))
    ));
    assert!(matches!(decode(&record, usize::MAX), Err(KvsError::Serde(_))));
    assert!(matches!(decode(&record, 1), Err(KvsError::Serde(_))));
}

#[test]
fn encode_checked_gives_the_record_of_encode() {
    for command in [put("a", "b"), remove("a"), put("\u{0}\"\\", "\u{10ffff}")] {
        assert_eq!(
            encode_checked(&command).unwrap(),
            encode(&command).unwrap()
        );
    }
}

#[test]
fn read_value_gives_the_value_of_a_put() {
    let record = encode(&put("key", "the \"value\"")).unwrap();
    assert_eq!(read_value(&record).unwrap(), "the \"value\"");
}

#[test]
fn read_value_of_a_remove_is_an_unexpected_command() {
    let record = encode(&remove("key")).unwrap();
    assert!(matches!(
        read_value(&record),
        Err(KvsError::UnexpectedCommandType)
    ));
}

#[test]
fn read_value_rejects_bytes_behind_the_record() {
    let mut record = encode(&put("key", "value")).unwrap();
    record.push(b' ');
    assert!(matches!(read_value(&record), Err(KvsError::Serde(_))));
    let mut two = encode(&put("key", "value")).unwrap();
    two.extend_from_slice(&encode(&put("key", "value")).unwrap());
    assert!(matches!(read_value(&two), Err(KvsError::Serde(_))));
    assert!(matches!(read_value(b""), Err(KvsError::Serde(_))));
}

#[test]
fn the_frame_is_set_around_the_texts_as_they_are() {
    assert_eq!(
        build_put(b"\"k\"", b"\"v\""),
        b"{\"Set\":{\"key\":\"k\",\"value\":\"v\"}}".to_vec()
    );
    assert_eq!(
        build_put(b"", b"anything"),
        b"{\"Set\":{\"key\":,\"value\":anything}}".to_vec()
    );
    assert_eq!(
        build_remove(b"\"k\""),
        b"{\"Remove\":{\"key\":\"k\"}}".to_vec()
    );
    assert_eq!(build_remove(b""), b"{\"Remove\":{\"key\":}}".to_vec());
}

#[test]
fn scan_finds_the_texts_of_the_strings() {
    let log = b"{\"Set\":{\"key\":\"ab\",\"value\":\"c\\\"d\"}}{\"Remove\":{\"key\":\"\"}}";
    assert_eq!(
        scan(log, 0),
        Some(Layout::Put {
            key: Span { start: 14, end: 18 },
            value: Span { start: 27, end: 33 },
            next: 35,
        })
    );
    assert_eq!(&log[14..18], b"\"ab\"");
    assert_eq!(&log[27..33], b"\"c\\\"d\"");
    assert_eq!(
        scan(log, 35),
        Some(Layout::Remove {
            key: Span { start: 52, end: 54 },
            next: 56,
        })
    );
    assert_eq!(log.len(), 56);
    assert_eq!(scan(log, 56), None);
    assert_eq!(scan(log, 1), None);
    assert_eq!(scan(log, 34), None);
}

#[test]
fn scan_looks_at_the_frame_only() {
    // The texts are not JSON strings that can be read, yet they are framed.
    let record = b"{\"Remove\":{\"key\":\"\\x\xff\"}}";
    assert_eq!(
        scan(record, 0),
        Some(Layout::Remove {
            key: Span { start: 17, end: 22 },
            next: 24,
        })
    );
    assert!(matches!(decode(record, 0), Err(KvsError::Serde(_))));
    assert_eq!(scan(b"{\"Remove\":{\"key\":\"open}}", 0), None);
    assert_eq!(scan(b"{\"Remove\":{\"key\":\"a\\", 0), None);
    assert_eq!(scan(b"{\"Remove\":{\"key\":\"a\"}", 0), None);
    assert_eq!(scan(b"{\"Set\":{\"key\":\"a\",\"value\":7}}", 0), None);
}

#[test]
fn the_value_of_a_command_is_that_of_a_put() {
    assert_eq!(value_of_command(put("k", "v")).unwrap(), "v");
    assert!(matches!(
        value_of_command(remove("k")),
        Err(KvsError::UnexpectedCommandType)
    ));
}

#[test]
fn bytes_that_are_not_framed_are_called_malformed() {
    match decode(b"garbage", 0) {
        Err(KvsError::Serde(text)) => assert_eq!(text, "malformed record in the log"),
        other => panic!("unexpected {:?}", other),
    }
    // A text in the frame that cannot be read is reported in the words of
    // `serde_json`.
    let unread = serde_json::from_slice::<String>(b"\"\\x\"").unwrap_err().to_string();
    match decode(b"{\"Remove\":{\"key\":\"\\x\"}}", 0) {
        Err(KvsError::Serde(text)) => assert_eq!(text, unread),
        other => panic!("unexpected {:?}", other),
    }
}
