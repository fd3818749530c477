use kvs::index::{rank_bytes, Index, Rank};
use kvs::LogPointer;

fn pointer(n: u64) -> LogPointer {
    LogPointer {
        file_id: n,
        offset: 10 * n,
        len: n + 1,
    }
}

#[test]
fn bytes_rank_as_in_the_dictionary() {
    assert!(matches!(rank_bytes(b"", b""), Rank::Same));
    assert!(matches!(rank_bytes(b"abc", b"abc"), Rank::Same));
    assert!(matches!(rank_bytes(b"", b"a"), Rank::Before));
    assert!(matches!(rank_bytes(b"a", b""), Rank::After));
    assert!(matches!(rank_bytes(b"ab", b"abc"), Rank::Before));
    assert!(matches!(rank_bytes(b"abd", b"abc"), Rank::After));
    assert!(matches!(rank_bytes(b"b", b"abc"), Rank::After));
    assert!(matches!(rank_bytes(b"a\x7f", b"a\x80"), Rank::Before));
}

#[test]
fn an_empty_index_holds_nothing() {
    let index = Index::new();
    assert_eq!(index.len(), 0);
    assert_eq!(index.get("a"), None);
    assert_eq!(index.find("a"), (false, 0));
}

#[test]
fn insert_returns_the_pointer_that_was_there() {
    let mut index = Index::new();
    assert_eq!(index.insert("b".to_string(), pointer(1)), None);
    assert_eq!(index.insert("a".to_string(), pointer(2)), None);
    assert_eq!(index.insert("b".to_string(), pointer(3)), Some(pointer(1)));
    assert_eq!(index.len(), 2);
    assert_eq!(index.get("a"), Some(pointer(2)));
    assert_eq!(index.get("b"), Some(pointer(3)));
    assert_eq!(index.get("c"), None);
}

#[test]
fn the_entries_stand_in_the_order_of_their_keys() {
    let mut index = Index::new();
    let keys = ["pear", "apple", "", "zebra", "apples", "Apple", "\u{e9}t\u{e9}", "b"];
    for (n, key) in keys.iter().enumerate() {
        index.insert(key.to_string(), pointer(n as u64));
    }
    let mut sorted: Vec<&str> = keys.to_vec();
    sorted.sort();
    assert_eq!(index.len(), sorted.len());
    for (at, key) in sorted.iter().enumerate() {
        assert_eq!(index.key_at(at), key);
        assert_eq!(index.find(key), (true, at));
        let n = keys.iter().position(|k| k == key).unwrap();
        assert_eq!(index.pointer_at(at), pointer(n as u64));
    }
    assert_eq!(index.find("a"), (false, 2));
    assert_eq!(index.find("zzz"), (false, 7));
    assert_eq!(index.find("\u{ffff}"), (false, 8));
}

#[test]
fn remove_takes_one_entry_out() {
    let mut index = Index::new();
    for (n, key) in ["a", "b", "c"].iter().enumerate() {
        index.insert(key.to_string(), pointer(n as u64));
    }
    assert_eq!(index.remove("b"), Some(pointer(1)));
    assert_eq!(index.remove("b"), None);
    assert_eq!(index.len(), 2);
    assert_eq!(index.key_at(0), "a");
    assert_eq!(index.key_at(1), "c");
    assert_eq!(index.get("c"), Some(pointer(2)));
}

#[test]
fn set_pointer_changes_the_pointer_only() {
    let mut index = Index::new();
    index.insert("a".to_string(), pointer(1));
    index.insert("b".to_string(), pointer(2));
    index.set_pointer(1, pointer(9));
    assert_eq!(index.key_at(1), "b");
    assert_eq!(index.get("b"), Some(pointer(9)));
    assert_eq!(index.get("a"), Some(pointer(1)));
}
