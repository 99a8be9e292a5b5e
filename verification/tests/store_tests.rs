use kvs::{AppendLog, Command, KvStore, KvsError, LogPointer, SegmentFile, encode};

fn open_empty() -> KvStore {
    KvStore::open(Vec::new()).unwrap()
}

fn get_str(store: &KvStore, key: &[u8]) -> Option<Vec<u8>> {
    store.get(key.to_vec()).unwrap()
}

#[test]
fn set_then_get() {
    let mut store = open_empty();
    store.set(b"a".to_vec(), b"1".to_vec()).unwrap();
    assert_eq!(get_str(&store, b"a"), Some(b"1".to_vec()));
    assert_eq!(get_str(&store, b"b"), None);
}

#[test]
fn overwrite_takes_last_value() {
    let mut store = open_empty();
    store.set(b"a".to_vec(), b"1".to_vec()).unwrap();
    store.set(b"a".to_vec(), b"2".to_vec()).unwrap();
    assert_eq!(get_str(&store, b"a"), Some(b"2".to_vec()));
}

#[test]
fn remove_erases_until_reinserted() {
    let mut store = open_empty();
    store.set(b"a".to_vec(), b"1".to_vec()).unwrap();
    store.remove(b"a".to_vec()).unwrap();
    assert_eq!(get_str(&store, b"a"), None);
    store.set(b"a".to_vec(), b"3".to_vec()).unwrap();
    assert_eq!(get_str(&store, b"a"), Some(b"3".to_vec()));
}

#[test]
fn remove_missing_key_is_key_not_found() {
    let mut store = open_empty();
    assert_eq!(store.remove(b"missing".to_vec()).unwrap_err(), KvsError::KeyNotFound);
}

#[test]
fn scenario_set_remove_reopen() {
    let mut store = open_empty();
    store.set(b"a".to_vec(), b"1".to_vec()).unwrap();
    store.set(b"b".to_vec(), b"2".to_vec()).unwrap();
    store.set(b"a".to_vec(), b"3".to_vec()).unwrap();
    store.remove(b"b".to_vec()).unwrap();
    assert_eq!(get_str(&store, b"a"), Some(b"3".to_vec()));
    assert_eq!(get_str(&store, b"b"), None);

    let files = store.close();
    let reopened = KvStore::open(files).unwrap();
    assert_eq!(get_str(&reopened, b"a"), Some(b"3".to_vec()));
    assert_eq!(get_str(&reopened, b"b"), None);
}

#[test]
fn reopen_after_every_prefix_of_appends() {
    let ops: [(&[u8], Option<&[u8]>); 4] =
        [(b"x", Some(b"1")), (b"y", Some(b"2")), (b"x", None), (b"x", Some(b"9"))];
    let mut store = open_empty();
    for (key, val) in ops.iter() {
        match val {
            Some(v) => store.set(key.to_vec(), v.to_vec()).unwrap(),
            None => store.remove(key.to_vec()).unwrap(),
        }
        let reopened = KvStore::open(store.segment_files()).unwrap();
        assert_eq!(get_str(&reopened, b"x"), get_str(&store, b"x"));
        assert_eq!(get_str(&reopened, b"y"), get_str(&store, b"y"));
    }
}

#[test]
fn open_tolerates_torn_tail() {
    let mut data = encode(&Command::set(b"a".to_vec(), b"1".to_vec()));
    let half = encode(&Command::set(b"b".to_vec(), b"2".to_vec()));
    data.extend_from_slice(&half[..half.len() / 2]);
    let store = KvStore::open(vec![SegmentFile { id: 1, data }]).unwrap();
    assert_eq!(get_str(&store, b"a"), Some(b"1".to_vec()));
    assert_eq!(get_str(&store, b"b"), None);
}

#[test]
fn open_replays_segments_in_order() {
    let one = encode(&Command::set(b"a".to_vec(), b"old".to_vec()));
    let mut two = encode(&Command::set(b"a".to_vec(), b"new".to_vec()));
    two.extend(encode(&Command::set(b"b".to_vec(), b"2".to_vec())));
    let files = vec![SegmentFile { id: 3, data: one }, SegmentFile { id: 7, data: two }];
    let store = KvStore::open(files).unwrap();
    assert_eq!(get_str(&store, b"a"), Some(b"new".to_vec()));
    assert_eq!(get_str(&store, b"b"), Some(b"2".to_vec()));
}

#[test]
fn compaction_preserves_gets() {
    let mut store = open_empty();
    // Overwriting one key leaves a dead record per overwrite; crossing the
    // threshold makes `set` trigger compaction on its own.
    for i in 0..20u8 {
        store.set(b"k".to_vec(), vec![i]).unwrap();
        store.set(b"stable".to_vec(), b"s".to_vec()).unwrap();
    }
    assert_eq!(get_str(&store, b"k"), Some(vec![19]));
    assert_eq!(get_str(&store, b"stable"), Some(b"s".to_vec()));
    // The log was rewritten down to the live records plus a fresh active
    // segment, so far fewer bytes remain than were appended.
    let files = store.segment_files();
    let total: usize = files.iter().map(|f| f.data.len()).sum();
    assert!(total < 500);
    let reopened = KvStore::open(files).unwrap();
    assert_eq!(get_str(&reopened, b"k"), Some(vec![19]));
    assert_eq!(get_str(&reopened, b"stable"), Some(b"s".to_vec()));
}

#[test]
fn compacting_compacted_store_is_noop() {
    let mut store = open_empty();
    store.set(b"a".to_vec(), b"1".to_vec()).unwrap();
    store.set(b"b".to_vec(), b"2".to_vec()).unwrap();
    // No dead records: nothing to reclaim, so compaction must not run.
    assert!(!store.maybe_compact());
    assert_eq!(get_str(&store, b"a"), Some(b"1".to_vec()));
    assert_eq!(get_str(&store, b"b"), Some(b"2".to_vec()));
}

#[test]
fn read_at_missing_segment_is_dangling() {
    let log = AppendLog { segments: Vec::new() };
    let ptr = LogPointer { segment_id: 42, offset: 0, length: 17 };
    match log.read_at(ptr) {
        Err(e) => assert_eq!(e, KvsError::DanglingPointer),
        Ok(_) => panic!("read through a dangling pointer"),
    }
}

#[test]
fn retire_active_segment_is_in_use() {
    let mut store = open_empty();
    // A freshly created store has a single active segment, id 1.
    let r = store.log.retire_segments(&vec![1]);
    assert_eq!(r.unwrap_err(), KvsError::SegmentInUse);
    assert!(store.log.segments.len() == 1);
}

#[test]
fn retire_sealed_segment_leaves_pointer_dangling() {
    let one = encode(&Command::set(b"a".to_vec(), b"old".to_vec()));
    let two = encode(&Command::set(b"a".to_vec(), b"new".to_vec()));
    let files = vec![SegmentFile { id: 3, data: one }, SegmentFile { id: 7, data: two }];
    let mut store = KvStore::open(files).unwrap();
    store.log.retire_segments(&vec![3]).unwrap();
    // The live pointer for "a" is in segment 7, so reads still work.
    assert_eq!(get_str(&store, b"a"), Some(b"new".to_vec()));
    // A pointer into the retired segment now dangles.
    let ptr = LogPointer { segment_id: 3, offset: 0, length: 22 };
    match store.log.read_at(ptr) {
        Err(e) => assert_eq!(e, KvsError::DanglingPointer),
        Ok(_) => panic!("read through a retired segment"),
    }
}

#[test]
fn replay_all_yields_records_in_order() {
    let mut store = open_empty();
    store.set(b"a".to_vec(), b"1".to_vec()).unwrap();
    store.set(b"b".to_vec(), b"2".to_vec()).unwrap();
    store.remove(b"a".to_vec()).unwrap();
    let replayed = store.log.replay_all();
    assert_eq!(replayed.len(), 3);
    match &replayed[0].0 {
        Command::Put(sc) => {
            assert_eq!(sc.key, b"a".to_vec());
            assert_eq!(sc.value, b"1".to_vec());
        }
        Command::Remove { .. } => panic!("first record should be a put"),
    }
    match &replayed[1].0 {
        Command::Put(sc) => assert_eq!(sc.key, b"b".to_vec()),
        Command::Remove { .. } => panic!("second record should be a put"),
    }
    assert!(matches!(&replayed[2].0, Command::Remove { .. }));
    // Restartable: a second pass sees the same sequence.
    assert_eq!(store.log.replay_all().len(), 3);
    // Each yielded pointer resolves back to its own record.
    let ptr = replayed[1].1;
    match store.log.read_at(ptr).unwrap() {
        Command::Put(sc) => assert_eq!(sc.value, b"2".to_vec()),
        Command::Remove { .. } => panic!("pointer resolved to the wrong record"),
    }
}
