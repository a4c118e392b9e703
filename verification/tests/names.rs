use kvs::names::{fetch_file_indexes, parse_segment_name, segment_file_name};

#[test]
fn names_of_segments() {
    assert_eq!(segment_file_name(0), "0.log");
    assert_eq!(segment_file_name(7), "7.log");
    assert_eq!(segment_file_name(10), "10.log");
    assert_eq!(segment_file_name(1234567890), "1234567890.log");
    assert_eq!(segment_file_name(u64::MAX), "18446744073709551615.log");
}

#[test]
fn parses_segment_names() {
    assert_eq!(parse_segment_name("0.log"), Some(0));
    assert_eq!(parse_segment_name("1.log"), Some(1));
    assert_eq!(parse_segment_name("907.log"), Some(907));
    assert_eq!(parse_segment_name("18446744073709551615.log"), Some(u64::MAX));
}

#[test]
fn passes_over_other_names() {
    for name in [
        "",
        ".log",
        "log",
        "1",
        "1.txt",
        "1.LOG",
        "01.log",
        "00.log",
        "+1.log",
        "-1.log",
        " 1.log",
        "1 .log",
        "1.log ",
        "1.log.log",
        "a.log",
        "1a.log",
        "0x1.log",
        "18446744073709551616.log",
        "99999999999999999999999999.log",
        "\u{661}.log",
    ] {
        assert_eq!(parse_segment_name(name), None);
    }
}

#[test]
fn parse_inverts_name() {
    for id in [0u64, 1, 9, 10, 11, 99, 100, 4096, u64::MAX - 1, u64::MAX] {
        assert_eq!(parse_segment_name(&segment_file_name(id)), Some(id));
    }
}

#[test]
fn lists_ids_in_ascending_order() {
    let names: Vec<String> = ["10.log", "2.log", "notes.txt", "1.log", "02.log", "2.log", "0.log"]
        .iter()
        .map(|s| s.to_string())
        .collect();
    assert_eq!(fetch_file_indexes(&names), vec![0, 1, 2, 10]);
}

#[test]
fn lists_nothing_in_empty_directory() {
    assert_eq!(fetch_file_indexes(&Vec::new()), Vec::<u64>::new());
}
