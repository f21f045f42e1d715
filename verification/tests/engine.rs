use kvs::engine::check_engine;
use kvs::{Engine, EngineType, KvEngine, KvError};
use std::str::FromStr;

fn s(x: &str) -> String {
    x.to_string()
}

#[test]
fn engine_names_parse() {
    assert_eq!(EngineType::parse("kvs"), Ok(EngineType::Kvs));
    assert_eq!(EngineType::parse("kvstore"), Ok(EngineType::Kvs));
    assert_eq!(EngineType::parse("sled"), Ok(EngineType::Sled));
    assert_eq!(EngineType::parse("sld"), Ok(EngineType::Sled));
}

#[test]
fn engine_names_ignore_case() {
    assert_eq!(EngineType::parse("KVS"), Ok(EngineType::Kvs));
    assert_eq!(EngineType::parse("KvStore"), Ok(EngineType::Kvs));
    assert_eq!(EngineType::parse("SLED"), Ok(EngineType::Sled));
    assert_eq!(EngineType::from_str("Sld"), Ok(EngineType::Sled));
}

#[test]
fn unknown_engine_name_is_error() {
    assert_eq!(EngineType::parse("redis"), Err(KvError::InvalidEngineName));
    assert_eq!(EngineType::parse(""), Err(KvError::InvalidEngineName));
    assert_eq!(EngineType::from_lowercase("KVS"), Err(KvError::InvalidEngineName));
}

#[test]
fn first_open_records_engine() {
    assert_eq!(check_engine(None, EngineType::Kvs), Ok(true));
}

#[test]
fn same_engine_opens() {
    assert_eq!(check_engine(Some(EngineType::Sled), EngineType::Sled), Ok(false));
}

#[test]
fn other_engine_is_refused() {
    assert_eq!(
        check_engine(Some(EngineType::Sled), EngineType::Kvs),
        Err(KvError::WrongEngine { requested: EngineType::Kvs, existing: EngineType::Sled })
    );
}

#[test]
fn kvs_engine_opens_on_log() {
    let mut engine = Engine::open(EngineType::Kvs, "", Vec::new()).unwrap();
    engine.set(s("a"), s("1")).unwrap();
    assert_eq!(engine.get(s("a")), Ok(Some(s("1"))));
    assert_eq!(engine.rm(s("a")), Ok(()));
    assert_eq!(engine.rm(s("a")), Err(KvError::Remove));
}

#[test]
fn error_messages() {
    assert_eq!(KvError::Remove.message(), "remove error");
    assert_eq!(KvError::InvalidEngineName.message(), "invalid engine name");
    assert_eq!(KvError::BincodeDecoding.message(), "bincode decoding error");
    assert_eq!(KvError::MessageTooLarge.message(), "network message is too large");
}
