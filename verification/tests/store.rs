use kvs::codec::encode_command;
use kvs::{KvCommand, KvEngine, KvError, KvStore};

fn s(x: &str) -> String {
    x.to_string()
}

#[test]
fn empty_log_opens_empty_store() {
    let store = KvStore::open(Vec::new());
    assert_eq!(store.get(s("a")), Ok(None));
    assert!(store.log_bytes().is_empty());
    assert_eq!(store.compactions(), 0);
}

#[test]
fn get_after_set_gives_value() {
    let mut store = KvStore::open(Vec::new());
    assert_eq!(store.set(s("key1"), s("value1")), Ok(()));
    assert_eq!(store.get(s("key1")), Ok(Some(s("value1"))));
}

#[test]
fn set_overwrites_value() {
    let mut store = KvStore::open(Vec::new());
    store.set(s("key1"), s("value1")).unwrap();
    store.set(s("key1"), s("value2")).unwrap();
    assert_eq!(store.get(s("key1")), Ok(Some(s("value2"))));
}

#[test]
fn set_keeps_other_keys() {
    let mut store = KvStore::open(Vec::new());
    store.set(s("a"), s("1")).unwrap();
    store.set(s("b"), s("2")).unwrap();
    assert_eq!(store.get(s("a")), Ok(Some(s("1"))));
    assert_eq!(store.get(s("b")), Ok(Some(s("2"))));
}

#[test]
fn get_missing_key_is_none() {
    let mut store = KvStore::open(Vec::new());
    store.set(s("a"), s("1")).unwrap();
    assert_eq!(store.get(s("b")), Ok(None));
}

#[test]
fn get_after_rm_is_none() {
    let mut store = KvStore::open(Vec::new());
    store.set(s("key1"), s("value1")).unwrap();
    assert_eq!(store.rm(s("key1")), Ok(()));
    assert_eq!(store.get(s("key1")), Ok(None));
}

#[test]
fn rm_missing_key_is_remove_error() {
    let mut store = KvStore::open(Vec::new());
    store.set(s("a"), s("1")).unwrap();
    let before = store.log_bytes().to_vec();
    assert_eq!(store.rm(s("b")), Err(KvError::Remove));
    assert_eq!(store.log_bytes(), &before[..]);
}

#[test]
fn set_appends_one_record() {
    let mut store = KvStore::open(Vec::new());
    store.set(s("a"), s("b")).unwrap();
    store.rm(s("a")).unwrap();
    assert_eq!(store.log_bytes(), &[0u8, 1, 97, 1, 98, 2, 1, 97][..]);
}

#[test]
fn reopen_gives_back_contents() {
    let mut store = KvStore::open(Vec::new());
    store.set(s("a"), s("1")).unwrap();
    store.set(s("b"), s("2")).unwrap();
    store.set(s("a"), s("3")).unwrap();
    store.rm(s("b")).unwrap();
    let reopened = KvStore::open(store.log_bytes().to_vec());
    assert_eq!(reopened.get(s("a")), Ok(Some(s("3"))));
    assert_eq!(reopened.get(s("b")), Ok(None));
}

#[test]
fn open_reads_log_written_elsewhere() {
    let mut log = encode_command(&KvCommand::Put { key: s("k"), value: s("v") });
    log.extend(encode_command(&KvCommand::Get { key: s("k") }));
    let store = KvStore::open(log);
    assert_eq!(store.get(s("k")), Ok(Some(s("v"))));
}

#[test]
fn open_stops_at_unreadable_tail() {
    let mut log = encode_command(&KvCommand::Put { key: s("k"), value: s("v") });
    log.extend_from_slice(&[9, 9]);
    log.extend(encode_command(&KvCommand::Put { key: s("j"), value: s("w") }));
    let store = KvStore::open(log);
    assert_eq!(store.get(s("k")), Ok(Some(s("v"))));
    assert_eq!(store.get(s("j")), Ok(None));
}

#[test]
fn writes_after_unreadable_tail_are_answered() {
    let mut log = encode_command(&KvCommand::Put { key: s("k"), value: s("v") });
    log.push(9);
    let mut store = KvStore::open(log);
    store.set(s("j"), s("w")).unwrap();
    assert_eq!(store.get(s("j")), Ok(Some(s("w"))));
    // the record sits behind the unreadable byte, so a reopened store does not see it
    let reopened = KvStore::open(store.log_bytes().to_vec());
    assert_eq!(reopened.get(s("j")), Ok(None));
    assert_eq!(reopened.get(s("k")), Ok(Some(s("v"))));
}

#[test]
fn compaction_keeps_latest_values() {
    let mut store = KvStore::open(Vec::new());
    let big = "x".repeat(600 * 1024);
    store.set(s("small"), s("1")).unwrap();
    store.set(s("big"), big.clone()).unwrap();
    assert_eq!(store.compactions(), 0);
    store.set(s("big"), big.clone()).unwrap();
    assert_eq!(store.compactions(), 1);
    assert_eq!(store.get(s("big")), Ok(Some(big.clone())));
    assert_eq!(store.get(s("small")), Ok(Some(s("1"))));
    // only the latest record of each key is left, in the order written
    let mut expected = encode_command(&KvCommand::Put { key: s("small"), value: s("1") });
    expected.extend(encode_command(&KvCommand::Put { key: s("big"), value: big.clone() }));
    assert_eq!(store.log_bytes(), &expected[..]);
    let reopened = KvStore::open(store.log_bytes().to_vec());
    assert_eq!(reopened.get(s("big")), Ok(Some(big)));
}

#[test]
fn compaction_drops_removed_keys() {
    let mut store = KvStore::open(Vec::new());
    let big = "y".repeat(700 * 1024);
    store.set(s("gone"), big.clone()).unwrap();
    store.set(s("kept"), s("v")).unwrap();
    store.rm(s("gone")).unwrap();
    store.set(s("other"), big.clone()).unwrap();
    assert_eq!(store.compactions(), 1);
    assert_eq!(store.get(s("gone")), Ok(None));
    let mut expected = encode_command(&KvCommand::Put { key: s("kept"), value: s("v") });
    expected.extend(encode_command(&KvCommand::Put { key: s("other"), value: big }));
    assert_eq!(store.log_bytes(), &expected[..]);
}

#[test]
fn many_unique_keys_survive_compaction() {
    let mut store = KvStore::open(Vec::new());
    for i in 0..60000 {
        store.set(format!("key{}", i), format!("value{}", i)).unwrap();
    }
    assert!(store.compactions() >= 1);
    for i in (0..60000).step_by(997) {
        assert_eq!(store.get(format!("key{}", i)), Ok(Some(format!("value{}", i))));
    }
}

#[test]
fn rm_undoes_set() {
    let mut store = KvStore::open(Vec::new());
    store.set(s("a"), s("1")).unwrap();
    store.set(s("b"), s("2")).unwrap();
    store.rm(s("b")).unwrap();
    assert_eq!(store.get(s("a")), Ok(Some(s("1"))));
    assert_eq!(store.get(s("b")), Ok(None));
}

#[test]
fn reopen_after_rm_has_no_key() {
    let mut store = KvStore::open(Vec::new());
    store.set(s("a"), s("1")).unwrap();
    store.rm(s("a")).unwrap();
    let mut reopened = KvStore::open(store.log_bytes().to_vec());
    assert_eq!(reopened.get(s("a")), Ok(None));
    assert_eq!(reopened.rm(s("a")), Err(KvError::Remove));
}

#[test]
fn set_after_compaction_appends_at_new_end() {
    let mut store = KvStore::open(Vec::new());
    let big = "z".repeat(600 * 1024);
    store.set(s("big"), big.clone()).unwrap();
    store.set(s("big"), big.clone()).unwrap();
    assert_eq!(store.compactions(), 1);
    let compacted = store.log_bytes().to_vec();
    store.set(s("k"), s("v")).unwrap();
    let mut expected = compacted;
    expected.extend(encode_command(&KvCommand::Put { key: s("k"), value: s("v") }));
    assert_eq!(store.log_bytes(), &expected[..]);
}

#[test]
fn compacting_a_compacted_log_keeps_its_bytes() {
    let mut store = KvStore::open(Vec::new());
    let big = "q".repeat(600 * 1024);
    store.set(s("a"), s("1")).unwrap();
    store.set(s("big"), big.clone()).unwrap();
    store.set(s("big"), big.clone()).unwrap();
    assert_eq!(store.compactions(), 1);
    let compacted = store.log_bytes().to_vec();
    // reopened, the compacted log counts as pending; the next large write
    // compacts it again, and every record of it survives as it was
    let mut reopened = KvStore::open(compacted.clone());
    let other = "r".repeat(500 * 1024);
    reopened.set(s("other"), other.clone()).unwrap();
    assert_eq!(reopened.compactions(), 1);
    let mut expected = compacted;
    expected.extend(encode_command(&KvCommand::Put { key: s("other"), value: other }));
    assert_eq!(reopened.log_bytes(), &expected[..]);
}
