use kvs::names::{log_path, parse_log_name, sorted_file_ids};

#[test]
fn a_segment_file_is_named_by_its_id() {
    assert_eq!(log_path(0), "0.log");
    assert_eq!(log_path(7), "7.log");
    assert_eq!(log_path(10), "10.log");
    assert_eq!(log_path(1234567890), "1234567890.log");
    assert_eq!(log_path(u64::MAX), "18446744073709551615.log");
}

#[test]
fn the_name_of_a_segment_file_gives_its_id() {
    assert_eq!(parse_log_name("0.log"), Some(0));
    assert_eq!(parse_log_name("42.log"), Some(42));
    assert_eq!(parse_log_name("18446744073709551615.log"), Some(u64::MAX));
    assert_eq!(parse_log_name("007.log"), Some(7));
    assert_eq!(parse_log_name("+5.log"), Some(5));
}

#[test]
fn other_names_give_no_id() {
    for name in [
        "",
        ".log",
        "log",
        "5",
        "5.txt",
        "5.log.log",
        "5.LOG",
        "-5.log",
        "+.log",
        "++5.log",
        "5+.log",
        "a.log",
        "5a.log",
        " 5.log",
        "5 .log",
        "5.log ",
        "0x10.log",
        "18446744073709551616.log",
        "99999999999999999999999.log",
        "engine_config",
        "\u{664}.log",
    ] {
        assert_eq!(parse_log_name(name), None, "{:?}", name);
    }
}

#[test]
fn names_are_read_back_as_written() {
    for id in [0, 1, 9, 10, 99, 100, 4000, u64::MAX - 1, u64::MAX] {
        assert_eq!(parse_log_name(&log_path(id)), Some(id));
    }
}

#[test]
fn file_ids_come_sorted() {
    let names: Vec<String> = [
        "10.log",
        "engine_config",
        "2.log",
        "notes.txt",
        "33.log",
        "1.log",
        "x.log",
        "2.log.bak",
    ]
    .iter()
    .map(|name| name.to_string())
    .collect();
    assert_eq!(sorted_file_ids(&names), vec![1, 2, 10, 33]);
}

#[test]
fn file_ids_keep_an_id_that_two_names_give() {
    let names: Vec<String> = ["7.log", "3.log", "007.log", "+3.log"]
        .iter()
        .map(|name| name.to_string())
        .collect();
    assert_eq!(sorted_file_ids(&names), vec![3, 3, 7, 7]);
    assert_eq!(sorted_file_ids(&Vec::new()), Vec::<u64>::new());
}
