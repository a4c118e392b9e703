use kvs::command::Command;
use kvs::index::Index;
use kvs::kv::{read_command, read_value, COMPACTION_THRESHOLD};
use kvs::segment::Segment;
use kvs::{CommandMetadata, KvStore, KvsError};

fn s(text: &str) -> String {
    text.to_string()
}

fn reopen(store: KvStore) -> KvStore {
    KvStore::open(store.segments().clone()).unwrap()
}

fn total_size(store: &KvStore) -> usize {
    store.segments().iter().map(|segment| segment.data.len()).sum()
}

#[test]
fn open_empty_set_get() {
    let mut store = KvStore::open(Vec::new()).unwrap();
    store.set(s("a"), s("1")).unwrap();
    assert_eq!(store.get(s("a")).unwrap(), Some(s("1")));
    assert_eq!(store.get(s("b")).unwrap(), None);
}

#[test]
fn overwrite_survives_reopening() {
    let mut store = KvStore::open(Vec::new()).unwrap();
    store.set(s("a"), s("1")).unwrap();
    store.set(s("a"), s("2")).unwrap();
    let mut store = reopen(store);
    assert_eq!(store.get(s("a")).unwrap(), Some(s("2")));
}

#[test]
fn remove_then_get_and_remove_again() {
    let mut store = KvStore::open(Vec::new()).unwrap();
    store.set(s("a"), s("1")).unwrap();
    store.remove(s("a")).unwrap();
    assert_eq!(store.get(s("a")).unwrap(), None);
    assert!(matches!(store.remove(s("a")), Err(KvsError::KeyNotFound)));
}

#[test]
fn overwrite_loop_compacts_with_small_threshold() {
    let mut store = KvStore::open_with_threshold(Vec::new(), 1024).unwrap();
    for i in 1..=10_000 {
        store.set(s("k"), i.to_string()).unwrap();
    }
    assert_eq!(store.get(s("k")).unwrap(), Some(s("10000")));
    assert!(store.current_index() > 1);
    assert!(store.uncompacted_bytes() <= 1024);
    let ids: Vec<u64> = store.segments().iter().map(|segment| segment.id).collect();
    assert_eq!(ids.len(), 2);
    assert_eq!(ids[1], store.current_index());
    assert_eq!(ids[0] + 1, ids[1]);
}

#[test]
fn overwrite_loop_compacts_past_one_mebibyte() {
    let mut store = KvStore::open(Vec::new()).unwrap();
    assert_eq!(store.threshold(), COMPACTION_THRESHOLD);
    assert_eq!(COMPACTION_THRESHOLD, 1_048_576);
    let padding = "x".repeat(200);
    let mut compactions = 0;
    let mut last_index = store.current_index();
    for i in 1..=10_000 {
        store.set(s("k"), format!("{}{}", padding, i)).unwrap();
        if store.current_index() != last_index {
            assert_eq!(store.current_index(), last_index + 2);
            assert_eq!(store.uncompacted_bytes(), 0);
            assert_eq!(store.segments().len(), 2);
            assert_eq!(store.segments()[0].id, last_index + 1);
            last_index = store.current_index();
            compactions += 1;
        }
    }
    assert!(compactions >= 1);
    assert_eq!(store.get(s("k")).unwrap(), Some(format!("{}{}", padding, 10_000)));
    for segment in store.segments() {
        assert!(segment.id >= last_index - 1);
    }
}

#[test]
fn two_keys_two_reopenings() {
    let mut store = KvStore::open(Vec::new()).unwrap();
    store.set(s("x"), s("X")).unwrap();
    store.set(s("y"), s("Y")).unwrap();
    let mut store = reopen(store);
    store.remove(s("x")).unwrap();
    let mut store = reopen(store);
    assert_eq!(store.get(s("x")).unwrap(), None);
    assert_eq!(store.get(s("y")).unwrap(), Some(s("Y")));
}

#[test]
fn last_write_wins() {
    let mut store = KvStore::open(Vec::new()).unwrap();
    store.set(s("a"), s("1")).unwrap();
    store.set(s("b"), s("2")).unwrap();
    store.remove(s("a")).unwrap();
    store.set(s("a"), s("3")).unwrap();
    store.set(s("b"), s("4")).unwrap();
    store.remove(s("b")).unwrap();
    store.set(s("c"), s("5")).unwrap();
    assert_eq!(store.get(s("a")).unwrap(), Some(s("3")));
    assert_eq!(store.get(s("b")).unwrap(), None);
    assert_eq!(store.get(s("c")).unwrap(), Some(s("5")));
    assert_eq!(store.get(s("d")).unwrap(), None);
}

#[test]
fn opening_starts_a_fresh_segment() {
    let store = KvStore::open(Vec::new()).unwrap();
    assert_eq!(store.current_index(), 1);
    assert_eq!(store.segments(), &vec![Segment { id: 1, data: Vec::new() }]);
    let store = reopen(store);
    assert_eq!(store.current_index(), 2);
    let old = vec![Segment { id: 3, data: Vec::new() }, Segment { id: 8, data: Vec::new() }];
    let store = KvStore::open(old).unwrap();
    assert_eq!(store.current_index(), 9);
    let ids: Vec<u64> = store.segments().iter().map(|segment| segment.id).collect();
    assert_eq!(ids, vec![3, 8, 9]);
}

#[test]
fn writes_go_to_the_active_segment() {
    let mut store = KvStore::open(vec![Segment { id: 4, data: Vec::new() }]).unwrap();
    store.set(s("a"), s("1")).unwrap();
    store.remove(s("a")).unwrap();
    assert_eq!(store.segments()[0], Segment { id: 4, data: Vec::new() });
    assert_eq!(
        store.segments()[1],
        Segment {
            id: 5,
            data: b"{\"Set\":{\"key\":\"a\",\"value\":\"1\"}}{\"Remove\":{\"key\":\"a\"}}".to_vec(),
        }
    );
}

#[test]
fn index_points_at_latest_record() {
    let mut store = KvStore::open(Vec::new()).unwrap();
    store.set(s("a"), s("1")).unwrap();
    store.set(s("b"), s("22")).unwrap();
    store.set(s("a"), s("333")).unwrap();
    assert_eq!(
        store.metadata("a"),
        Some(CommandMetadata { file_index: 1, position: 63, length: 33 })
    );
    assert_eq!(
        store.metadata("b"),
        Some(CommandMetadata { file_index: 1, position: 31, length: 32 })
    );
    assert_eq!(store.metadata("c"), None);
}

#[test]
fn stale_bytes_count_displaced_records() {
    let mut store = KvStore::open(Vec::new()).unwrap();
    assert_eq!(store.uncompacted_bytes(), 0);
    store.set(s("a"), s("1")).unwrap();
    assert_eq!(store.uncompacted_bytes(), 0);
    store.set(s("a"), s("22")).unwrap();
    assert_eq!(store.uncompacted_bytes(), 31);
    store.set(s("b"), s("x")).unwrap();
    assert_eq!(store.uncompacted_bytes(), 31);
    store.remove(s("a")).unwrap();
    assert_eq!(store.uncompacted_bytes(), 63);
    assert!(store.remove(s("a")).is_err());
    assert_eq!(store.uncompacted_bytes(), 63);
    let store = reopen(store);
    assert_eq!(store.uncompacted_bytes(), 63);
}

#[test]
fn same_value_is_written_again() {
    let mut store = KvStore::open(Vec::new()).unwrap();
    store.set(s("a"), s("1")).unwrap();
    store.set(s("a"), s("1")).unwrap();
    assert_eq!(store.segments()[0].data.len(), 62);
    assert_eq!(store.uncompacted_bytes(), 31);
    assert_eq!(
        store.metadata("a"),
        Some(CommandMetadata { file_index: 1, position: 31, length: 31 })
    );
}

#[test]
fn remove_of_absent_key_writes_nothing() {
    let mut store = KvStore::open(Vec::new()).unwrap();
    store.set(s("a"), s("1")).unwrap();
    let before = store.segments().clone();
    let stale = store.uncompacted_bytes();
    assert!(matches!(store.remove(s("missing")), Err(KvsError::KeyNotFound)));
    assert_eq!(store.segments(), &before);
    assert_eq!(store.uncompacted_bytes(), stale);
    assert_eq!(store.current_index(), 1);
}

#[test]
fn reopening_keeps_every_answer() {
    let mut store = KvStore::open(Vec::new()).unwrap();
    store.set(s("a"), s("1")).unwrap();
    store.set(s("b"), s("2")).unwrap();
    store.remove(s("a")).unwrap();
    store.set(s("c"), s("\u{e9}\"\n")).unwrap();
    let mut again = reopen(KvStore::open(store.segments().clone()).unwrap());
    for key in ["a", "b", "c", "d"] {
        assert_eq!(again.get(s(key)).unwrap(), store.get(s(key)).unwrap());
    }
}

#[test]
fn reopening_twice_gives_the_same_index() {
    let mut store = KvStore::open(Vec::new()).unwrap();
    store.set(s("a"), s("1")).unwrap();
    store.set(s("b"), s("2")).unwrap();
    store.set(s("a"), s("3")).unwrap();
    let once = reopen(store);
    let twice = KvStore::open(once.segments().clone()).unwrap();
    for key in ["a", "b", "c"] {
        assert_eq!(once.metadata(key), twice.metadata(key));
    }
    assert_eq!(once.uncompacted_bytes(), twice.uncompacted_bytes());
}

#[test]
fn compaction_keeps_contents_and_reclaims_space() {
    let mut store = KvStore::open_with_threshold(Vec::new(), 100).unwrap();
    store.set(s("a"), s("1")).unwrap();
    store.set(s("b"), s("2")).unwrap();
    store.set(s("c"), s("3")).unwrap();
    store.remove(s("b")).unwrap();
    store.set(s("a"), s("4")).unwrap();
    store.set(s("c"), s("5")).unwrap();
    assert_eq!(store.uncompacted_bytes(), 93);
    assert_eq!(store.current_index(), 1);
    store.set(s("a"), s("66")).unwrap();
    assert_eq!(store.current_index(), 3);
    assert_eq!(store.uncompacted_bytes(), 0);
    assert_eq!(store.get(s("a")).unwrap(), Some(s("66")));
    assert_eq!(store.get(s("b")).unwrap(), None);
    assert_eq!(store.get(s("c")).unwrap(), Some(s("5")));
    let live = Command::Put { key: s("a"), value: s("66") }.encode().len()
        + Command::Put { key: s("c"), value: s("5") }.encode().len();
    assert_eq!(total_size(&store), live);
    assert_eq!(store.segments().len(), 2);
    assert_eq!(store.segments()[0].id, 2);
    assert_eq!(store.segments()[1], Segment { id: 3, data: Vec::new() });
    assert_eq!(
        store.metadata("a"),
        Some(CommandMetadata { file_index: 2, position: 0, length: 32 })
    );
    assert_eq!(
        store.metadata("c"),
        Some(CommandMetadata { file_index: 2, position: 32, length: 31 })
    );
    let mut store = reopen(store);
    assert_eq!(store.get(s("a")).unwrap(), Some(s("66")));
    assert_eq!(store.get(s("c")).unwrap(), Some(s("5")));
    assert_eq!(store.current_index(), 4);
}

#[test]
fn compact_does_nothing_below_threshold() {
    let mut store = KvStore::open(Vec::new()).unwrap();
    store.set(s("a"), s("1")).unwrap();
    store.set(s("a"), s("2")).unwrap();
    let before = store.segments().clone();
    store.compact().unwrap();
    assert_eq!(store.segments(), &before);
    assert_eq!(store.uncompacted_bytes(), 31);
    assert_eq!(store.current_index(), 1);
}

#[test]
fn compaction_is_skipped_when_ids_run_out() {
    let old = vec![Segment { id: u64::MAX - 2, data: Vec::new() }];
    let mut store = KvStore::open_with_threshold(old, 0).unwrap();
    assert_eq!(store.current_index(), u64::MAX - 1);
    store.set(s("a"), s("1")).unwrap();
    store.set(s("a"), s("2")).unwrap();
    assert_eq!(store.current_index(), u64::MAX - 1);
    assert_eq!(store.uncompacted_bytes(), 31);
    assert_eq!(store.get(s("a")).unwrap(), Some(s("2")));
}

#[test]
fn open_rejects_a_corrupt_segment() {
    let good = Segment { id: 1, data: Command::Put { key: s("a"), value: s("1") }.encode() };
    let bad = Segment { id: 2, data: b"{\"Set\":{\"key\":\"a\"".to_vec() };
    assert!(matches!(KvStore::open(vec![good, bad]), Err(KvsError::UnexpectedCommand)));
}

#[test]
fn new_makes_a_store_of_its_parts() {
    let data = Command::Put { key: s("a"), value: s("1") }.encode();
    let mut index = Index::new();
    index.insert(s("a"), CommandMetadata { file_index: 2, position: 0, length: 31 });
    let mut store = KvStore::new(vec![Segment { id: 2, data }], index, 2, 7);
    assert_eq!(store.get(s("a")).unwrap(), Some(s("1")));
    assert_eq!(store.current_index(), 2);
    assert_eq!(store.uncompacted_bytes(), 7);
    assert_eq!(store.threshold(), COMPACTION_THRESHOLD);
}

#[test]
fn read_command_reads_an_exact_extent() {
    let mut data = Command::Put { key: s("a"), value: s("1") }.encode();
    Command::Remove { key: s("a") }.encode_into(&mut data);
    let at = |position, length| CommandMetadata { file_index: 1, position, length };
    assert_eq!(
        read_command(&data, &at(0, 31)).unwrap(),
        Command::Put { key: s("a"), value: s("1") }
    );
    assert_eq!(read_command(&data, &at(31, 22)).unwrap(), Command::Remove { key: s("a") });
    for (position, length) in [(0, 30), (0, 32), (1, 31), (31, 23), (53, 0), (54, 1), (u64::MAX, 1)]
    {
        assert!(matches!(
            read_command(&data, &at(position, length)),
            Err(KvsError::UnexpectedCommand)
        ));
    }
}

#[test]
fn read_value_checks_the_extent() {
    let mut data = Command::Put { key: s("a"), value: s("1") }.encode();
    Command::Remove { key: s("a") }.encode_into(&mut data);
    Command::Put { key: s("b"), value: s("2") }.encode_into(&mut data);
    data.extend_from_slice(b"{\"Set\":");
    let segments = vec![
        Segment { id: 1, data: Vec::new() },
        Segment { id: 4, data },
        Segment { id: 9, data: Command::Put { key: s("a"), value: s("9") }.encode() },
    ];
    let at = |file_index, position, length| CommandMetadata { file_index, position, length };
    assert_eq!(read_value(&segments, &at(4, 0, 31), "a").unwrap(), "1");
    assert_eq!(read_value(&segments, &at(4, 53, 31), "b").unwrap(), "2");
    assert_eq!(read_value(&segments, &at(9, 0, 31), "a").unwrap(), "9");
    let corrupt = [
        (at(4, 31, 22), "a"),
        (at(4, 53, 31), "a"),
        (at(4, 0, 31), "b"),
        (at(4, 84, 7), "a"),
        (at(4, 0, 30), "a"),
        (at(4, 0, 32), "a"),
        (at(4, 1, 31), "a"),
        (at(4, 91, 0), "a"),
        (at(4, 1000, 31), "a"),
        (at(1, 0, 31), "a"),
        (at(2, 0, 31), "a"),
        (at(9, 0, 31), "b"),
    ];
    for (metadata, key) in corrupt {
        assert!(matches!(
            read_value(&segments, &metadata, key),
            Err(KvsError::UnexpectedCommand)
        ));
    }
    assert!(matches!(
        read_value(&Vec::new(), &at(1, 0, 31), "a"),
        Err(KvsError::UnexpectedCommand)
    ));
}
