use kvs::{Engine, EngineType, KvEngine, KvError, KvSled};
use std::time::{SystemTime, UNIX_EPOCH};

fn s(x: &str) -> String {
    x.to_string()
}

fn fresh_path(tag: &str) -> String {
    let nanos = SystemTime::now().duration_since(UNIX_EPOCH).unwrap().as_nanos();
    format!("/tmp/kvs-sled-test-{}-{}", tag, nanos)
}

#[test]
fn sled_get_after_set() {
    let mut db = KvSled::open(&fresh_path("set")).unwrap();
    assert_eq!(db.get(s("key1")), Ok(None));
    db.set(s("key1"), s("value1")).unwrap();
    assert_eq!(db.get(s("key1")), Ok(Some(s("value1"))));
    db.set(s("key1"), s("value2")).unwrap();
    assert_eq!(db.get(s("key1")), Ok(Some(s("value2"))));
}

#[test]
fn sled_rm() {
    let mut db = KvSled::open(&fresh_path("rm")).unwrap();
    db.set(s("key1"), s("value1")).unwrap();
    assert_eq!(db.rm(s("key1")), Ok(()));
    assert_eq!(db.get(s("key1")), Ok(None));
    assert_eq!(db.rm(s("key1")), Err(KvError::Remove));
}

#[test]
fn sled_engine_opens_at_path() {
    let mut engine = Engine::open(EngineType::Sled, &fresh_path("engine"), Vec::new()).unwrap();
    engine.set(s("k"), s("v")).unwrap();
    assert_eq!(engine.get(s("k")), Ok(Some(s("v"))));
}

#[test]
fn sled_keeps_data_across_open() {
    let path = fresh_path("reopen");
    {
        let mut db = KvSled::open(&path).unwrap();
        db.set(s("k"), s("v")).unwrap();
    }
    let db = KvSled::open(&path).unwrap();
    assert_eq!(db.get(s("k")), Ok(Some(s("v"))));
}

use kvs::sled_engine::{answer_get, answer_remove, answer_write};

fn failure() -> sled::Error {
    sled::Error::Unsupported("test".to_string())
}

#[test]
fn read_answers_for_each_sled_answer() {
    assert_eq!(answer_get(Ok(Some(b"value".to_vec()))), Ok(Some(s("value"))));
    assert_eq!(answer_get(Ok(None)), Ok(None));
    assert_eq!(answer_get(Ok(Some(vec![0xffu8, 0xfe]))), Err(KvError::Utf8));
    assert_eq!(answer_get(Err(failure())), Err(KvError::Sled));
}

#[test]
fn remove_answers_for_each_sled_answer() {
    assert_eq!(answer_remove(Ok(Some(b"v".to_vec()))), Ok(()));
    assert_eq!(answer_remove(Ok(None)), Err(KvError::Remove));
    assert_eq!(answer_remove(Err(failure())), Err(KvError::Sled));
}

#[test]
fn write_answers_for_each_sled_answer() {
    assert_eq!(answer_write(Ok(3usize)), Ok(()));
    assert_eq!(answer_write::<usize>(Err(failure())), Err(KvError::Sled));
}

use kvs::sled_engine::answer_open;

#[test]
fn open_answers_for_each_sled_answer() {
    let db = sled::open(fresh_path("answer")).unwrap();
    let mut engine = answer_open(Ok(db)).unwrap();
    engine.set(s("k"), s("v")).unwrap();
    assert_eq!(engine.get(s("k")), Ok(Some(s("v"))));
    assert!(matches!(answer_open(Err(failure())), Err(KvError::Sled)));
}
