use kvs::{KvStore, KvsError, LogFile, COMPACTION_THRESHOLD};

fn open_empty() -> KvStore {
    KvStore::open(Vec::new()).expect("open of an empty directory succeeds")
}

fn reopen(store: &KvStore) -> KvStore {
    KvStore::open(store.directory()).expect("reopen succeeds")
}

fn dir_total(store: &KvStore) -> usize {
    store.directory().iter().map(|f| f.data.len()).sum()
}

#[test]
fn get_stored_value() {
    let mut store = open_empty();
    store.set("k".to_owned(), "v".to_owned()).unwrap();
    assert_eq!(store.get("k".to_owned()).unwrap(), Some("v".to_owned()));
    assert_eq!(store.get("absent".to_owned()).unwrap(), None);
}

#[test]
fn overwrite_value() {
    let mut store = open_empty();
    store.set("k".to_owned(), "1".to_owned()).unwrap();
    store.set("k".to_owned(), "2".to_owned()).unwrap();
    store.set("k".to_owned(), "3".to_owned()).unwrap();
    assert_eq!(store.get("k".to_owned()).unwrap(), Some("3".to_owned()));
}

#[test]
fn remove_key() {
    let mut store = open_empty();
    store.set("k".to_owned(), "v".to_owned()).unwrap();
    store.remove("k".to_owned()).unwrap();
    assert_eq!(store.get("k".to_owned()).unwrap(), None);
}

#[test]
fn remove_absent_key_twice() {
    let mut store = open_empty();
    store.set("k".to_owned(), "v".to_owned()).unwrap();
    store.remove("k".to_owned()).unwrap();
    let before = store.directory();
    let again = store.remove("k".to_owned());
    assert!(matches!(again, Err(KvsError::KeyNotFound)));
    // a removal of an absent key writes nothing: no file grew
    let after = store.directory();
    assert_eq!(before.len(), after.len());
    for (a, b) in before.iter().zip(after.iter()) {
        assert_eq!(a.id, b.id);
        assert_eq!(a.data, b.data);
    }
}

#[test]
fn persists_across_reopen() {
    let mut store = open_empty();
    store.set("k".to_owned(), "v".to_owned()).unwrap();
    store.set("k2".to_owned(), "v2".to_owned()).unwrap();
    store.remove("k2".to_owned()).unwrap();
    let mut store2 = reopen(&store);
    assert_eq!(store2.get("k".to_owned()).unwrap(), Some("v".to_owned()));
    assert_eq!(store2.get("k2".to_owned()).unwrap(), None);
}

#[test]
fn empty_directory_numbering() {
    let mut store = open_empty();
    assert_eq!(store.active_log_id(), 1);
    store.set("k".to_owned(), "v".to_owned()).unwrap();
    let dir = store.directory();
    assert_eq!(dir.len(), 1);
    assert_eq!(dir[0].id, 1);
    // recovery restarts numbering one past the highest id on disk
    let store2 = reopen(&store);
    assert_eq!(store2.active_log_id(), 2);
}

#[test]
fn records_land_in_the_active_segment() {
    let mut store = open_empty();
    let set_rec = kvs::codec::encode_command(&kvs::Command::SetCmd(kvs::SetArgs {
        key: "k".to_owned(),
        value: "v".to_owned(),
    }));
    store.set("k".to_owned(), "v".to_owned()).unwrap();
    // the first record occupies bytes [0, len) of 1.log
    let dir = store.directory();
    assert_eq!(dir.len(), 1);
    assert_eq!(dir[0].id, 1);
    assert_eq!(dir[0].data, set_rec);
    assert_eq!(store.stale_bytes(), 0);
    // overwriting makes exactly the displaced record stale
    store.set("k".to_owned(), "w".to_owned()).unwrap();
    assert_eq!(store.stale_bytes(), set_rec.len() as u64);
    let dir = store.directory();
    assert_eq!(dir[0].data.len(), 2 * set_rec.len());
    // removing makes the old record and the tombstone itself stale
    let rm_rec = kvs::codec::encode_command(&kvs::Command::Rm(kvs::RmArgs {
        key: "k".to_owned(),
    }));
    store.remove("k".to_owned()).unwrap();
    assert_eq!(store.stale_bytes(), (2 * set_rec.len() + rm_rec.len()) as u64);
    // recovery recomputes the same stale count from the records
    let store2 = reopen(&store);
    assert_eq!(store2.stale_bytes(), store.stale_bytes());
}

#[test]
fn large_values_round_trip() {
    let mut store = open_empty();
    let big_a = "a".repeat(300 * 1024);
    let big_b = "\\\"".repeat(150 * 1024);
    store.set("a".to_owned(), big_a.clone()).unwrap();
    store.set("b".to_owned(), big_b.clone()).unwrap();
    assert_eq!(store.get("a".to_owned()).unwrap(), Some(big_a.clone()));
    assert_eq!(store.get("b".to_owned()).unwrap(), Some(big_b.clone()));
    let mut store2 = reopen(&store);
    assert_eq!(store2.get("a".to_owned()).unwrap(), Some(big_a));
    assert_eq!(store2.get("b".to_owned()).unwrap(), Some(big_b));
}

#[test]
fn compaction_bounds_one_hot_key() {
    let mut store = open_empty();
    let value = "x".repeat(200 * 1024);
    for _ in 0..20 {
        store.set("hot".to_owned(), value.clone()).unwrap();
    }
    // twenty 200 KB records were written, but the stale ones were
    // reclaimed: the footprint is one live record plus bounded slack
    assert!(store.stale_bytes() <= COMPACTION_THRESHOLD);
    let total = dir_total(&store);
    assert!(total <= 200 * 1024 + 64 + COMPACTION_THRESHOLD as usize);
    assert_eq!(store.get("hot".to_owned()).unwrap(), Some(value));
}

#[test]
fn many_keys_bounded_size() {
    let mut store = open_empty();
    let value = "v".repeat(2 * 1024);
    for round in 0..20 {
        for key in 0..100 {
            let v = format!("{}-{}", round, value);
            store.set(format!("key{}", key), v).unwrap();
        }
    }
    for key in 0..100 {
        let expected = format!("{}-{}", 19, value);
        assert_eq!(store.get(format!("key{}", key)).unwrap(), Some(expected));
    }
    // live data is about 100 x 2 KB; the directory stays within that plus
    // the compaction threshold
    let total = dir_total(&store);
    assert!(total <= 100 * (2 * 1024 + 64) + COMPACTION_THRESHOLD as usize);
    let mut store2 = reopen(&store);
    for key in 0..100 {
        let expected = format!("{}-{}", 19, value);
        assert_eq!(store2.get(format!("key{}", key)).unwrap(), Some(expected));
    }
}

#[test]
fn long_single_key_run_compacts() {
    let mut store = open_empty();
    let pre_active = store.active_log_id();
    for i in 0..100_000u64 {
        store.set("counter".to_owned(), format!("{:020}", i)).unwrap();
    }
    // many compactions ran; no segment older than the latest compaction
    // output survives, and every id on disk is newer than the first log
    let dir = store.directory();
    assert!(dir.len() <= 2);
    for f in &dir {
        assert!(f.id > pre_active);
    }
    assert!(store.stale_bytes() <= COMPACTION_THRESHOLD);
    // compacting once more reclaims everything that had gone stale since
    let active_before = store.active_log_id();
    store.compact().unwrap();
    assert_eq!(store.stale_bytes(), 0);
    for f in store.directory() {
        assert!(f.id >= active_before + 1);
    }
    assert_eq!(
        store.get("counter".to_owned()).unwrap(),
        Some(format!("{:020}", 99_999))
    );
}

#[test]
fn compact_keeps_every_live_binding() {
    let mut store = open_empty();
    for i in 0..50 {
        store.set(format!("k{}", i), format!("v{}", i)).unwrap();
    }
    store.remove("k7".to_owned()).unwrap();
    let active_before = store.active_log_id();
    store.compact().unwrap();
    assert_eq!(store.stale_bytes(), 0);
    assert_eq!(store.active_log_id(), active_before + 2);
    for f in store.directory() {
        assert!(f.id >= active_before + 1);
    }
    for i in 0..50 {
        let expected = if i == 7 { None } else { Some(format!("v{}", i)) };
        assert_eq!(store.get(format!("k{}", i)).unwrap(), expected);
    }
    // the compaction output replays cleanly
    let mut store2 = reopen(&store);
    assert_eq!(store2.get("k8".to_owned()).unwrap(), Some("v8".to_owned()));
    assert_eq!(store2.get("k7".to_owned()).unwrap(), None);
}

#[test]
fn open_rejects_corrupt_segment() {
    let files = vec![LogFile { id: 1, data: b"{\"Set\":{\"key\":\"k\",\"val".to_vec() }];
    assert!(matches!(
        KvStore::open(files),
        Err(KvsError::SerializationError)
    ));
}

#[test]
fn open_rejects_get_record_in_log() {
    let files = vec![LogFile { id: 1, data: b"{\"Get\":{\"key\":\"k\"}}".to_vec() }];
    assert!(matches!(
        KvStore::open(files),
        Err(KvsError::UnexpectedCommand)
    ));
}

#[test]
fn open_replays_handwritten_log() {
    let data = b"{\"Set\":{\"key\":\"a\",\"value\":\"1\"}}{\"Set\":{\"key\":\"b\",\"value\":\"2\"}}{\"Rm\":{\"key\":\"a\"}}".to_vec();
    let files = vec![LogFile { id: 3, data }];
    let mut store = KvStore::open(files).unwrap();
    assert_eq!(store.active_log_id(), 4);
    assert_eq!(store.get("a".to_owned()).unwrap(), None);
    assert_eq!(store.get("b".to_owned()).unwrap(), Some("2".to_owned()));
}
