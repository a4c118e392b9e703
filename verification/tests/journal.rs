use kvs::command::Command;
use kvs::journal::DiskAction;
use kvs::segment::Segment;
use kvs::KvStore;
use std::collections::BTreeMap;

fn s(text: &str) -> String {
    text.to_string()
}

fn perform(disk: &mut BTreeMap<u64, Vec<u8>>, actions: Vec<DiskAction>) {
    for action in actions {
        match action {
            DiskAction::Create { id } => {
                disk.insert(id, Vec::new());
            }
            DiskAction::Append { id, data } => {
                disk.entry(id).or_default().extend_from_slice(&data);
            }
            DiskAction::Delete { id } => {
                disk.remove(&id);
            }
        }
    }
}

fn image(store: &KvStore) -> BTreeMap<u64, Vec<u8>> {
    store.segments().iter().map(|segment| (segment.id, segment.data.clone())).collect()
}

#[test]
fn opening_creates_the_active_segment() {
    let mut store = KvStore::open(Vec::new()).unwrap();
    assert_eq!(store.take_actions(), vec![DiskAction::Create { id: 1 }]);
    assert_eq!(store.take_actions(), Vec::new());
}

#[test]
fn writes_append_to_the_active_segment() {
    let mut store = KvStore::open(vec![Segment { id: 6, data: Vec::new() }]).unwrap();
    store.take_actions();
    store.set(s("a"), s("1")).unwrap();
    store.remove(s("a")).unwrap();
    assert_eq!(
        store.take_actions(),
        vec![
            DiskAction::Append { id: 7, data: Command::Put { key: s("a"), value: s("1") }.encode() },
            DiskAction::Append { id: 7, data: Command::Remove { key: s("a") }.encode() },
        ]
    );
}

#[test]
fn reads_and_failed_removes_note_nothing() {
    let mut store = KvStore::open(Vec::new()).unwrap();
    store.set(s("a"), s("1")).unwrap();
    store.take_actions();
    store.get(s("a")).unwrap();
    store.get(s("b")).unwrap();
    assert!(store.remove(s("b")).is_err());
    store.compact().unwrap();
    assert_eq!(store.take_actions(), Vec::new());
}

#[test]
fn compaction_creates_two_segments_and_deletes_the_old() {
    let old = vec![Segment { id: 2, data: Vec::new() }, Segment { id: 5, data: Vec::new() }];
    let mut store = KvStore::open_with_threshold(old, 0).unwrap();
    store.set(s("a"), s("1")).unwrap();
    store.take_actions();
    store.set(s("a"), s("2")).unwrap();
    let record = Command::Put { key: s("a"), value: s("2") }.encode();
    assert_eq!(
        store.take_actions(),
        vec![
            DiskAction::Append { id: 6, data: record.clone() },
            DiskAction::Create { id: 7 },
            DiskAction::Append { id: 7, data: record },
            DiskAction::Create { id: 8 },
            DiskAction::Delete { id: 2 },
            DiskAction::Delete { id: 5 },
            DiskAction::Delete { id: 6 },
        ]
    );
}

#[test]
fn performed_actions_give_the_segments_of_the_store() {
    let first = Segment { id: 3, data: Command::Put { key: s("x"), value: s("X") }.encode() };
    let mut disk: BTreeMap<u64, Vec<u8>> = BTreeMap::new();
    disk.insert(3, first.data.clone());
    let mut store = KvStore::open_with_threshold(vec![first], 64).unwrap();
    perform(&mut disk, store.take_actions());
    assert_eq!(disk, image(&store));
    for i in 0..50 {
        store.set(format!("k{}", i % 7), i.to_string()).unwrap();
        if i % 5 == 0 {
            let _ = store.remove(format!("k{}", i % 3));
        }
        if i % 4 == 0 {
            perform(&mut disk, store.take_actions());
            assert_eq!(disk, image(&store));
        }
    }
    perform(&mut disk, store.take_actions());
    assert_eq!(disk, image(&store));
    assert!(store.current_index() > 4);
    let segments: Vec<Segment> =
        disk.into_iter().map(|(id, data)| Segment { id, data }).collect();
    let mut again = KvStore::open(segments).unwrap();
    for i in 0..7 {
        let key = format!("k{}", i);
        assert_eq!(again.get(key.clone()).unwrap(), store.get(key).unwrap());
    }
}
