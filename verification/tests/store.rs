use std::collections::BTreeMap;

use kvs::{DiskOp, KvStore, KvsEngine, KvsError, Segment};

/// Carries out the pending operations of `store` on `disk`.
fn sync(store: &mut KvStore, disk: &mut BTreeMap<u64, Vec<u8>>) {
    for op in store.take_pending() {
        match op {
            DiskOp::Append { file_id, bytes } => {
                disk.entry(file_id).or_default().extend_from_slice(&bytes)
            }
            DiskOp::Delete { file_id } => {
                assert!(disk.remove(&file_id).is_some());
            }
        }
    }
}

fn segments_of(disk: &BTreeMap<u64, Vec<u8>>) -> Vec<Segment> {
    disk.iter()
        .map(|(id, data)| Segment {
            id: *id,
            data: data.clone(),
        })
        .collect()
}

#[test]
fn get_returns_what_set_stored() {
    let mut store = KvStore::new();
    store.set("key1".to_string(), "value1".to_string()).unwrap();
    assert_eq!(
        store.get("key1".to_string()).unwrap(),
        Some("value1".to_string())
    );
}

#[test]
fn set_overwrites() {
    let mut store = KvStore::new();
    store.set("key1".to_string(), "value1".to_string()).unwrap();
    store.set("key1".to_string(), "value2".to_string()).unwrap();
    assert_eq!(
        store.get("key1".to_string()).unwrap(),
        Some("value2".to_string())
    );
}

#[test]
fn get_of_a_missing_key_is_none() {
    let mut store = KvStore::new();
    assert_eq!(store.get("missing".to_string()).unwrap(), None);
}

#[test]
fn remove_takes_the_key_away() {
    let mut store = KvStore::new();
    store.set("key1".to_string(), "value1".to_string()).unwrap();
    store.remove("key1".to_string()).unwrap();
    assert_eq!(store.get("key1".to_string()).unwrap(), None);
}

#[test]
fn remove_of_a_missing_key_fails_and_writes_nothing() {
    let mut store = KvStore::new();
    let mut disk = BTreeMap::new();
    sync(&mut store, &mut disk);
    assert!(matches!(
        store.remove("missing".to_string()),
        Err(KvsError::KeyNotFound)
    ));
    assert!(store.take_pending().is_empty());
    assert_eq!(disk.get(&0), Some(&Vec::new()));
}

#[test]
fn the_log_holds_json_records() {
    let mut store = KvStore::new();
    let mut disk = BTreeMap::new();
    store.set("a\"b".to_string(), "x\\y\n".to_string()).unwrap();
    store.remove("a\"b".to_string()).unwrap();
    sync(&mut store, &mut disk);
    let text = String::from_utf8(disk[&0].clone()).unwrap();
    assert_eq!(
        text,
        "{\"Set\":{\"key\":\"a\\\"b\",\"value\":\"x\\\\y\\n\"}}{\"Remove\":{\"key\":\"a\\\"b\"}}"
    );
}

#[test]
fn reopening_gives_the_same_answers() {
    let mut store = KvStore::new();
    let mut disk = BTreeMap::new();
    for i in 0..50 {
        store.set(format!("key{}", i), format!("value{}", i)).unwrap();
    }
    for i in 0..50 {
        if i % 3 == 0 {
            store.remove(format!("key{}", i)).unwrap();
        }
        if i % 5 == 0 {
            store.set(format!("key{}", i), format!("again{}", i)).unwrap();
        }
    }
    sync(&mut store, &mut disk);
    let mut reopened = KvStore::open(segments_of(&disk)).unwrap();
    assert_eq!(reopened.uncompacted(), store.uncompacted());
    assert_eq!(reopened.len(), store.len());
    for i in 0..50 {
        let key = format!("key{}", i);
        assert_eq!(reopened.pointer(&key), store.pointer(&key));
        assert_eq!(
            reopened.get(key.clone()).unwrap(),
            store.get(key.clone()).unwrap()
        );
        let expected = if i % 5 == 0 {
            Some(format!("again{}", i))
        } else if i % 3 == 0 {
            None
        } else {
            Some(format!("value{}", i))
        };
        assert_eq!(reopened.get(key).unwrap(), expected);
    }
}

#[test]
fn compaction_keeps_the_contents_and_shrinks_the_log() {
    let mut store = KvStore::new();
    let mut disk = BTreeMap::new();
    for round in 0..10 {
        for i in 0..20 {
            store
                .set(format!("key{}", i), format!("value{}-{}", i, round))
                .unwrap();
        }
    }
    store.remove("key7".to_string()).unwrap();
    sync(&mut store, &mut disk);
    let before: usize = disk.values().map(|data| data.len()).sum();
    assert!(store.uncompacted() > 0);
    assert!(store.compact());
    sync(&mut store, &mut disk);
    let after: usize = disk.values().map(|data| data.len()).sum();
    assert!(after < before);
    assert_eq!(store.uncompacted(), 0);
    assert_eq!(store.segment_ids(), vec![1, 2]);
    assert_eq!(disk.keys().copied().collect::<Vec<u64>>(), vec![1, 2]);
    assert_eq!(store.current_id(), 2);
    for i in 0..20 {
        let key = format!("key{}", i);
        let expected = if i == 7 {
            None
        } else {
            Some(format!("value{}-9", i))
        };
        assert_eq!(store.get(key.clone()).unwrap(), expected);
        if i != 7 {
            assert_eq!(store.pointer(&key).unwrap().file_id, 1);
        }
    }
    let mut reopened = KvStore::open(segments_of(&disk)).unwrap();
    assert_eq!(reopened.uncompacted(), 0);
    assert_eq!(
        reopened.get("key3".to_string()).unwrap(),
        Some("value3-9".to_string())
    );
}

#[test]
fn open_rejects_a_truncated_record() {
    let segments = vec![Segment {
        id: 0,
        data: b"{\"Set\":{\"key\":\"a\",\"value\":\"b\"}}{\"Set\":{\"key\":\"a\",\"val".to_vec(),
    }];
    assert!(matches!(KvStore::open(segments), Err(KvsError::Serde(_))));
}

#[test]
fn a_fresh_store_asks_for_its_first_segment() {
    let mut store = KvStore::new();
    assert_eq!(store.current_id(), 0);
    assert_eq!(store.uncompacted(), 0);
    assert_eq!(store.len(), 0);
    assert_eq!(store.segment_ids(), vec![0]);
    let ops = store.take_pending();
    assert_eq!(ops.len(), 1);
    assert!(matches!(&ops[0], DiskOp::Append { file_id: 0, bytes } if bytes.is_empty()));
    assert!(store.take_pending().is_empty());
}

#[test]
fn opening_no_segments_gives_a_fresh_store() {
    let mut store = KvStore::open(Vec::new()).unwrap();
    assert_eq!(store.segment_ids(), vec![0]);
    assert_eq!(store.take_pending().len(), 1);
    assert_eq!(store.get("a".to_string()).unwrap(), None);
}

#[test]
fn each_command_asks_for_its_record_to_be_appended() {
    let mut store = KvStore::new();
    store.take_pending();
    store.set("k".to_string(), "v".to_string()).unwrap();
    let ops = store.take_pending();
    assert_eq!(ops.len(), 1);
    assert!(matches!(
        &ops[0],
        DiskOp::Append { file_id: 0, bytes }
            if bytes.as_slice() == b"{\"Set\":{\"key\":\"k\",\"value\":\"v\"}}"
    ));
    assert_eq!(
        store.pointer("k"),
        Some(kvs::LogPointer {
            file_id: 0,
            offset: 0,
            len: 31
        })
    );
    store.remove("k".to_string()).unwrap();
    let ops = store.take_pending();
    assert_eq!(ops.len(), 1);
    assert!(matches!(
        &ops[0],
        DiskOp::Append { file_id: 0, bytes }
            if bytes.as_slice() == b"{\"Remove\":{\"key\":\"k\"}}"
    ));
    assert_eq!(store.pointer("k"), None);
    assert_eq!(store.get("k".to_string()).unwrap(), None);
    assert!(store.take_pending().is_empty());
}

#[test]
fn the_stale_bytes_are_those_of_superseded_records() {
    let mut store = KvStore::new();
    store.set("k".to_string(), "v".to_string()).unwrap();
    assert_eq!(store.uncompacted(), 0);
    store.set("other".to_string(), "w".to_string()).unwrap();
    assert_eq!(store.uncompacted(), 0);
    // The first record of `k`, 31 bytes, is superseded.
    store.set("k".to_string(), "longer".to_string()).unwrap();
    assert_eq!(store.uncompacted(), 31);
    // The second record of `k`, 36 bytes, and the removal itself, 22 bytes.
    store.remove("k".to_string()).unwrap();
    assert_eq!(store.uncompacted(), 31 + 36 + 22);
    assert_eq!(
        store.pointer("other"),
        Some(kvs::LogPointer {
            file_id: 0,
            offset: 31,
            len: 35
        })
    );
    assert_eq!(store.segment_data(0).unwrap().len(), 31 + 35 + 36 + 22);
    assert_eq!(store.segment_data(1), None);
}

#[test]
fn replaying_counts_the_same_stale_bytes() {
    let log = b"{\"Set\":{\"key\":\"k\",\"value\":\"v\"}}\
{\"Set\":{\"key\":\"other\",\"value\":\"w\"}}\
{\"Set\":{\"key\":\"k\",\"value\":\"longer\"}}\
{\"Remove\":{\"key\":\"k\"}}\
{\"Remove\":{\"key\":\"never\"}}"
        .to_vec();
    let mut store = KvStore::open(vec![Segment { id: 4, data: log }]).unwrap();
    assert_eq!(store.uncompacted(), 31 + 36 + 22 + 26);
    assert_eq!(store.current_id(), 4);
    assert_eq!(store.len(), 1);
    assert!(store.take_pending().is_empty());
    assert_eq!(store.get("k".to_string()).unwrap(), None);
    assert_eq!(store.get("other".to_string()).unwrap(), Some("w".to_string()));
    assert_eq!(
        store.pointer("other"),
        Some(kvs::LogPointer {
            file_id: 4,
            offset: 31,
            len: 35
        })
    );
}

#[test]
fn segments_are_replayed_in_the_order_of_their_ids() {
    let newer = Segment {
        id: 9,
        data: b"{\"Set\":{\"key\":\"k\",\"value\":\"new\"}}{\"Remove\":{\"key\":\"gone\"}}".to_vec(),
    };
    let older = Segment {
        id: 2,
        data: b"{\"Set\":{\"key\":\"k\",\"value\":\"old\"}}{\"Set\":{\"key\":\"gone\",\"value\":\"x\"}}"
            .to_vec(),
    };
    let mut store = KvStore::open(vec![newer, older]).unwrap();
    assert_eq!(store.segment_ids(), vec![2, 9]);
    assert_eq!(store.current_id(), 9);
    assert_eq!(store.get("k".to_string()).unwrap(), Some("new".to_string()));
    assert_eq!(store.get("gone".to_string()).unwrap(), None);
    assert_eq!(store.pointer("k").unwrap().file_id, 9);
    store.set("more".to_string(), "1".to_string()).unwrap();
    assert_eq!(store.pointer("more").unwrap().file_id, 9);
    assert!(matches!(
        &store.take_pending()[..],
        [DiskOp::Append { file_id: 9, .. }]
    ));
}

#[test]
fn of_two_segments_with_one_id_the_later_counts() {
    let first = Segment {
        id: 1,
        data: b"{\"Set\":{\"key\":\"k\",\"value\":\"first\"}}".to_vec(),
    };
    let second = Segment {
        id: 1,
        data: b"{\"Set\":{\"key\":\"k\",\"value\":\"second\"}}".to_vec(),
    };
    let mut store = KvStore::open(vec![first, second]).unwrap();
    assert_eq!(store.segment_ids(), vec![1]);
    assert_eq!(store.uncompacted(), 0);
    assert_eq!(
        store.get("k".to_string()).unwrap(),
        Some("second".to_string())
    );
}

#[test]
fn open_rejects_a_malformed_segment_wherever_it_stands() {
    let good = b"{\"Set\":{\"key\":\"a\",\"value\":\"b\"}}".to_vec();
    for bad in [
        b"{\"Set\":{\"key\":\"a\",\"value\":\"b\"}}\n".to_vec(),
        b"garbage".to_vec(),
        b"{\"Set\":{\"key\":\"a\",\"value\":\"b\"}".to_vec(),
    ] {
        for bad_id in [0, 5, 9] {
            let segments = vec![
                Segment {
                    id: 3,
                    data: good.clone(),
                },
                Segment {
                    id: bad_id,
                    data: bad.clone(),
                },
                Segment {
                    id: 7,
                    data: good.clone(),
                },
            ];
            assert!(matches!(KvStore::open(segments), Err(KvsError::Serde(_))));
        }
    }
}

#[test]
fn compaction_asks_for_the_new_segments_before_it_drops_the_old() {
    let mut store = KvStore::open(vec![
        Segment {
            id: 3,
            data: b"{\"Set\":{\"key\":\"b\",\"value\":\"old\"}}{\"Set\":{\"key\":\"a\",\"value\":\"1\"}}"
                .to_vec(),
        },
        Segment {
            id: 5,
            data: b"{\"Set\":{\"key\":\"b\",\"value\":\"2\"}}".to_vec(),
        },
    ])
    .unwrap();
    assert!(store.compact());
    let ops = store.take_pending();
    assert_eq!(ops.len(), 4);
    // The live records, in the order of their keys.
    assert!(matches!(
        &ops[0],
        DiskOp::Append { file_id: 6, bytes }
            if bytes.as_slice()
                == b"{\"Set\":{\"key\":\"a\",\"value\":\"1\"}}{\"Set\":{\"key\":\"b\",\"value\":\"2\"}}"
    ));
    assert!(matches!(&ops[1], DiskOp::Append { file_id: 7, bytes } if bytes.is_empty()));
    assert!(matches!(&ops[2], DiskOp::Delete { file_id: 3 }));
    assert!(matches!(&ops[3], DiskOp::Delete { file_id: 5 }));
    assert_eq!(store.segment_ids(), vec![6, 7]);
    assert_eq!(store.current_id(), 7);
    assert_eq!(
        store.pointer("a"),
        Some(kvs::LogPointer {
            file_id: 6,
            offset: 0,
            len: 31
        })
    );
    assert_eq!(
        store.pointer("b"),
        Some(kvs::LogPointer {
            file_id: 6,
            offset: 31,
            len: 31
        })
    );
    assert_eq!(store.get("a".to_string()).unwrap(), Some("1".to_string()));
    assert_eq!(store.get("b".to_string()).unwrap(), Some("2".to_string()));
    store.set("c".to_string(), "3".to_string()).unwrap();
    assert_eq!(store.pointer("c").unwrap().file_id, 7);
}

#[test]
fn compaction_of_an_empty_store_leaves_two_empty_segments() {
    let mut store = KvStore::new();
    assert!(store.compact());
    assert_eq!(store.segment_ids(), vec![1, 2]);
    assert_eq!(store.segment_data(1).unwrap().len(), 0);
    assert_eq!(store.segment_data(2).unwrap().len(), 0);
    assert_eq!(store.len(), 0);
}

#[test]
fn the_store_compacts_by_itself_at_the_threshold() {
    let mut store = KvStore::new();
    let mut disk = BTreeMap::new();
    let value = "x".repeat(1000);
    let record = 14 + 3 + 9 + 1002 + 2;
    let mut writes = 0;
    while store.current_id() == 0 {
        store.set("k".to_string(), value.clone()).unwrap();
        writes += 1;
        sync(&mut store, &mut disk);
        assert!(writes < 1000);
    }
    // The count reaches 256 KiB with the write that supersedes enough bytes.
    let needed = (262144 + record - 1) / record + 1;
    assert_eq!(writes, needed);
    assert_eq!(store.uncompacted(), 0);
    assert_eq!(store.segment_ids(), vec![1, 2]);
    assert_eq!(disk.keys().copied().collect::<Vec<u64>>(), vec![1, 2]);
    assert_eq!(disk[&1].len(), record);
    assert_eq!(disk[&2].len(), 0);
    assert_eq!(store.get("k".to_string()).unwrap(), Some(value));
}

#[test]
fn removals_count_towards_the_threshold() {
    let mut store = KvStore::new();
    let value = "x".repeat(100_000);
    store.set("a".to_string(), value.clone()).unwrap();
    store.set("b".to_string(), value.clone()).unwrap();
    store.set("c".to_string(), value.clone()).unwrap();
    store.remove("a".to_string()).unwrap();
    store.remove("b".to_string()).unwrap();
    assert_eq!(store.current_id(), 0);
    assert_eq!(store.uncompacted(), 2 * (100_030 + 22));
    store.remove("c".to_string()).unwrap();
    assert_eq!(store.current_id(), 2);
    assert_eq!(store.uncompacted(), 0);
    assert_eq!(store.len(), 0);
    assert_eq!(store.segment_data(1).unwrap().len(), 0);
}

#[test]
fn a_store_without_ids_to_spare_does_not_compact() {
    for id in [u64::MAX, u64::MAX - 1] {
        let mut store = KvStore::open(vec![Segment {
            id,
            data: Vec::new(),
        }])
        .unwrap();
        assert!(!store.compact());
        let value = "x".repeat(200_000);
        for _ in 0..4 {
            store.set("k".to_string(), value.clone()).unwrap();
        }
        assert_eq!(store.segment_ids(), vec![id]);
        assert!(store.uncompacted() >= 262144);
        assert_eq!(store.get("k".to_string()).unwrap(), Some(value));
    }
    let mut store = KvStore::open(vec![Segment {
        id: u64::MAX - 2,
        data: Vec::new(),
    }])
    .unwrap();
    assert!(store.compact());
    assert_eq!(store.segment_ids(), vec![u64::MAX - 1, u64::MAX]);
}

#[test]
fn many_keys_survive_a_restart() {
    let mut store = KvStore::new();
    let mut disk = BTreeMap::new();
    let filler = "v".repeat(1000);
    for i in 0..10_000 {
        store
            .set(format!("key{}", i), format!("{}{:024}", filler, i))
            .unwrap();
        if i % 100 == 0 {
            sync(&mut store, &mut disk);
        }
    }
    sync(&mut store, &mut disk);
    drop(store);
    // No record was superseded, so one segment holds them all.
    assert_eq!(disk.len(), 1);
    let mut reopened = KvStore::open(segments_of(&disk)).unwrap();
    assert_eq!(reopened.len(), 10_000);
    assert_eq!(reopened.uncompacted(), 0);
    for i in 0..10_000 {
        assert_eq!(
            reopened.get(format!("key{}", i)).unwrap(),
            Some(format!("{}{:024}", filler, i))
        );
    }
}

#[test]
fn overwriting_one_key_keeps_the_log_small() {
    let mut store = KvStore::new();
    let mut disk = BTreeMap::new();
    let mut last = String::new();
    for i in 0..100 {
        last = format!("{:03}{}", i, "y".repeat(100 * 1024 - 3));
        store.set("K".to_string(), last.clone()).unwrap();
        sync(&mut store, &mut disk);
    }
    drop(store);
    let size: usize = disk.values().map(|data| data.len()).sum();
    assert!(size >= 100 * 1024);
    assert!(size < 4 * (100 * 1024 + 64));
    assert!(disk.len() <= 2);
    let mut reopened = KvStore::open(segments_of(&disk)).unwrap();
    assert_eq!(reopened.get("K".to_string()).unwrap(), Some(last));
    assert_eq!(reopened.len(), 1);
}

#[test]
fn compaction_at_any_point_changes_no_answer() {
    let script: Vec<(u8, usize)> = (0..60)
        .map(|step| (((step * 7 + 3) % 5) as u8, (step * 11) % 8))
        .collect();
    for compact_at in 0..=script.len() {
        let mut plain = KvStore::new();
        let mut compacted = KvStore::new();
        for (step, (what, which)) in script.iter().enumerate() {
            if step == compact_at {
                assert!(compacted.compact());
            }
            let key = format!("key{}", which);
            match what {
                0 | 1 | 2 => {
                    let value = format!("value{}-{}", which, step);
                    plain.set(key.clone(), value.clone()).unwrap();
                    compacted.set(key.clone(), value).unwrap();
                }
                3 => {
                    let left = plain.remove(key.clone());
                    let right = compacted.remove(key.clone());
                    match (left, right) {
                        (Ok(()), Ok(())) => {}
                        (Err(KvsError::KeyNotFound), Err(KvsError::KeyNotFound)) => {}
                        other => panic!("unexpected {:?}", other),
                    }
                }
                _ => {}
            }
            assert_eq!(
                plain.get(key.clone()).unwrap(),
                compacted.get(key).unwrap()
            );
        }
        assert_eq!(plain.len(), compacted.len());
    }
}

#[test]
fn opening_twice_gives_the_same_index() {
    let mut store = KvStore::new();
    let mut disk = BTreeMap::new();
    for i in 0..30 {
        store.set(format!("key{}", i % 7), format!("v{}", i)).unwrap();
    }
    store.remove("key3".to_string()).unwrap();
    sync(&mut store, &mut disk);
    let first = KvStore::open(segments_of(&disk)).unwrap();
    let second = KvStore::open(segments_of(&disk)).unwrap();
    assert_eq!(first.len(), second.len());
    assert_eq!(first.uncompacted(), second.uncompacted());
    assert_eq!(first.segment_ids(), second.segment_ids());
    for i in 0..8 {
        let key = format!("key{}", i);
        assert_eq!(first.pointer(&key), second.pointer(&key));
        assert_eq!(first.pointer(&key), store.pointer(&key));
    }
}

#[test]
fn records_that_were_read_back_can_be_handed_to_the_store() {
    let mut store = KvStore::new();
    store.take_pending();
    let put = kvs::Command::Put {
        key: "k".to_string(),
        value: "v".to_string(),
    };
    let record = kvs::record::encode_checked(&put).unwrap();
    store.put_record("k".to_string(), record.clone());
    assert_eq!(store.get("k".to_string()).unwrap(), Some("v".to_string()));
    assert!(matches!(
        &store.take_pending()[..],
        [DiskOp::Append { file_id: 0, bytes }] if *bytes == record
    ));
    store.put_record("k".to_string(), record.clone());
    assert_eq!(store.uncompacted(), 31);
    let gone = kvs::Command::Remove {
        key: "k".to_string(),
    };
    let record = kvs::record::encode_checked(&gone).unwrap();
    store.remove_record("k".to_string(), record);
    assert_eq!(store.get("k".to_string()).unwrap(), None);
    assert_eq!(store.uncompacted(), 31 + 31 + 22);
    assert_eq!(store.segment_data(0).unwrap().len(), 31 + 31 + 22);
}
