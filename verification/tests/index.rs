use kvs::command::Command;
use kvs::index::Index;
use kvs::replay::{load_command, load_file, load_files};
use kvs::segment::Segment;
use kvs::{CommandMetadata, KvsError};

fn meta(file_index: u64, position: u64, length: u64) -> CommandMetadata {
    CommandMetadata { file_index, position, length }
}

fn put(key: &str, value: &str) -> Command {
    Command::Put { key: key.to_string(), value: value.to_string() }
}

fn remove(key: &str) -> Command {
    Command::Remove { key: key.to_string() }
}

#[test]
fn index_insert_get_remove() {
    let mut index = Index::new();
    assert_eq!(index.len(), 0);
    assert_eq!(index.get("a"), None);
    assert_eq!(index.insert("a".to_string(), meta(1, 0, 31)), None);
    assert_eq!(index.insert("b".to_string(), meta(1, 31, 31)), None);
    assert_eq!(index.get("a"), Some(meta(1, 0, 31)));
    assert_eq!(index.insert("a".to_string(), meta(1, 62, 33)), Some(meta(1, 0, 31)));
    assert_eq!(index.len(), 2);
    assert_eq!(index.get("a"), Some(meta(1, 62, 33)));
    assert_eq!(index.remove("a"), Some(meta(1, 62, 33)));
    assert_eq!(index.remove("a"), None);
    assert_eq!(index.get("a"), None);
    assert_eq!(index.get("b"), Some(meta(1, 31, 31)));
    assert_eq!(index.len(), 1);
    assert_eq!(index.entry(0).key, "b");
}

#[test]
fn index_relocate_moves_one_entry() {
    let mut index = Index::new();
    index.insert("a".to_string(), meta(1, 0, 31));
    index.insert("b".to_string(), meta(1, 31, 31));
    index.relocate(0, meta(5, 7, 31));
    assert_eq!(index.get("a"), Some(meta(5, 7, 31)));
    assert_eq!(index.get("b"), Some(meta(1, 31, 31)));
}

#[test]
fn load_command_returns_displaced_length() {
    let mut index = Index::new();
    assert_eq!(load_command(&mut index, put("a", "1"), 3, 0, 31), 0);
    assert_eq!(index.get("a"), Some(meta(3, 0, 31)));
    assert_eq!(load_command(&mut index, put("a", "22"), 3, 31, 63), 31);
    assert_eq!(index.get("a"), Some(meta(3, 31, 32)));
    assert_eq!(load_command(&mut index, remove("b"), 3, 63, 85), 0);
    assert_eq!(load_command(&mut index, remove("a"), 3, 85, 107), 32);
    assert_eq!(index.get("a"), None);
}

#[test]
fn load_file_replays_a_segment() {
    let mut data = put("a", "1").encode();
    put("b", "2").encode_into(&mut data);
    put("a", "3").encode_into(&mut data);
    remove("b").encode_into(&mut data);
    let mut index = Index::new();
    assert_eq!(load_file(4, &data, &mut index).unwrap(), 62);
    assert_eq!(index.get("a"), Some(meta(4, 62, 31)));
    assert_eq!(index.get("b"), None);
}

#[test]
fn load_file_rejects_what_is_no_log() {
    let mut data = put("a", "1").encode();
    data.extend_from_slice(b"{\"Set\"");
    let mut index = Index::new();
    assert!(matches!(load_file(1, &data, &mut index), Err(KvsError::UnexpectedCommand)));
}

#[test]
fn load_files_replays_in_order() {
    let first = Segment { id: 1, data: put("a", "1").encode() };
    let mut second_data = put("a", "2").encode();
    put("b", "x").encode_into(&mut second_data);
    let second = Segment { id: 2, data: second_data };
    let third = Segment { id: 5, data: remove("b").encode() };
    let mut index = Index::new();
    assert_eq!(load_files(&vec![first, second, third], &mut index).unwrap(), 62);
    assert_eq!(index.get("a"), Some(meta(2, 0, 31)));
    assert_eq!(index.get("b"), None);
}

#[test]
fn load_files_rejects_a_corrupt_segment() {
    let good = Segment { id: 1, data: put("a", "1").encode() };
    let bad = Segment { id: 2, data: b"garbage".to_vec() };
    let mut index = Index::new();
    assert!(matches!(load_files(&vec![good, bad], &mut index), Err(KvsError::UnexpectedCommand)));
}

#[test]
fn index_keeps_many_keys_apart() {
    let mut index = Index::new();
    let keys: Vec<String> = (0..500u64).map(|i| format!("key{}", (i * 7919) % 1000)).collect();
    for (i, key) in keys.iter().enumerate() {
        assert_eq!(index.insert(key.clone(), meta(1, i as u64, 1)), None);
    }
    assert_eq!(index.len(), 500);
    for (i, key) in keys.iter().enumerate() {
        assert_eq!(index.get(key), Some(meta(1, i as u64, 1)));
    }
    for i in 1..index.len() {
        assert!(index.entry(i - 1).key.as_bytes() < index.entry(i).key.as_bytes());
    }
    for (i, key) in keys.iter().enumerate() {
        if i % 2 == 0 {
            assert_eq!(index.remove(key), Some(meta(1, i as u64, 1)));
        }
    }
    for (i, key) in keys.iter().enumerate() {
        let expected = if i % 2 == 0 { None } else { Some(meta(1, i as u64, 1)) };
        assert_eq!(index.get(key), expected);
    }
    assert_eq!(index.get("key"), None);
    assert_eq!(index.get("key9999"), None);
    assert_eq!(index.get(""), None);
}

#[test]
fn index_orders_keys_by_their_bytes() {
    let mut index = Index::new();
    for key in ["b", "", "ab", "a", "\u{e9}", "B", "aa", "z"] {
        index.insert(key.to_string(), meta(1, 0, 1));
    }
    let keys: Vec<&str> = (0..index.len()).map(|i| index.entry(i).key.as_str()).collect();
    assert_eq!(keys, vec!["", "B", "a", "aa", "ab", "b", "z", "\u{e9}"]);
}
