use kvs::{EngineType, KvsError};

#[test]
fn an_engine_is_named_in_any_case() {
    assert_eq!(EngineType::parse("kvs"), Some(EngineType::kvs));
    assert_eq!(EngineType::parse("KVS"), Some(EngineType::kvs));
    assert_eq!(EngineType::parse("Sled"), Some(EngineType::sled));
    assert_eq!(EngineType::parse("sLeD"), Some(EngineType::sled));
}

#[test]
fn other_texts_name_no_engine() {
    for text in ["", "kv", "kvss", "kvs\n", " kvs", "sled ", "rocks", "k\u{212a}s"] {
        assert_eq!(EngineType::parse(text), None, "{:?}", text);
    }
}

#[test]
fn the_config_holds_the_name() {
    assert_eq!(EngineType::kvs.dump_config(), "kvs");
    assert_eq!(EngineType::sled.dump_config(), "sled");
    assert_eq!(EngineType::kvs.name(), "kvs");
    assert_eq!(EngineType::sled.name(), "sled");
    for engine in [EngineType::kvs, EngineType::sled] {
        assert_eq!(
            EngineType::previous_engine_type(Some(&engine.dump_config())),
            Some(engine)
        );
    }
}

#[test]
fn no_file_or_a_bad_file_is_no_previous_engine() {
    assert_eq!(EngineType::previous_engine_type(None), None);
    assert_eq!(EngineType::previous_engine_type(Some("")), None);
    assert_eq!(EngineType::previous_engine_type(Some("kvs\n")), None);
    assert_eq!(
        EngineType::previous_engine_type(Some("SLED")),
        Some(EngineType::sled)
    );
}

#[test]
fn a_fresh_directory_takes_the_engine_asked_for_or_kvs() {
    assert!(matches!(EngineType::new(None, None), Ok(EngineType::kvs)));
    assert!(matches!(
        EngineType::new(Some(EngineType::sled), None),
        Ok(EngineType::sled)
    ));
    assert!(matches!(
        EngineType::new(Some(EngineType::kvs), None),
        Ok(EngineType::kvs)
    ));
    assert!(matches!(
        EngineType::new(Some(EngineType::sled), Some("garbage")),
        Ok(EngineType::sled)
    ));
    assert!(matches!(
        EngineType::new(None, Some("garbage")),
        Ok(EngineType::kvs)
    ));
}

#[test]
fn a_directory_keeps_its_engine() {
    assert!(matches!(
        EngineType::new(None, Some("sled")),
        Ok(EngineType::sled)
    ));
    assert!(matches!(
        EngineType::new(Some(EngineType::sled), Some("sled")),
        Ok(EngineType::sled)
    ));
    assert!(matches!(
        EngineType::new(Some(EngineType::kvs), Some("kvs")),
        Ok(EngineType::kvs)
    ));
}

#[test]
fn another_engine_than_the_directory_s_is_refused() {
    assert!(matches!(
        EngineType::new(Some(EngineType::sled), Some("kvs")),
        Err(KvsError::WrongEngineType)
    ));
    assert!(matches!(
        EngineType::new(Some(EngineType::kvs), Some("sled")),
        Err(KvsError::WrongEngineType)
    ));
}
