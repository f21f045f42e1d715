use kvs::protocol::{client_output, execute, frame_length, frame_message, ClientOutput};
use kvs::{Engine, EngineType, KvCommand, KvResponse};

fn s(x: &str) -> String {
    x.to_string()
}

#[test]
fn frame_prefixes_big_endian_length() {
    assert_eq!(frame_message(&[7u8, 8, 9]).unwrap(), vec![0u8, 0, 0, 3, 7, 8, 9]);
    let payload = vec![1u8; 70000];
    let framed = frame_message(&payload).unwrap();
    assert_eq!(&framed[..4], &[0u8, 1, 0x11, 0x70]);
    assert_eq!(framed.len(), 70004);
}

#[test]
fn frame_length_reads_header() {
    assert_eq!(frame_length([0, 0, 0, 3]), 3);
    assert_eq!(frame_length([0, 1, 0x11, 0x70]), 70000);
    assert_eq!(frame_length([0xff, 0xff, 0xff, 0xff]), 0xffff_ffff);
}

#[test]
fn frame_length_of_framed_message() {
    let framed = frame_message(&vec![5u8; 1234]).unwrap();
    assert_eq!(frame_length([framed[0], framed[1], framed[2], framed[3]]), 1234);
}

#[test]
fn execute_commands_on_store() {
    let mut engine = Engine::open(EngineType::Kvs, "", Vec::new()).unwrap();
    assert_eq!(execute(&mut engine, KvCommand::Get { key: s("a") }), KvResponse::Success(None));
    assert_eq!(
        execute(&mut engine, KvCommand::Put { key: s("a"), value: s("1") }),
        KvResponse::Success(None)
    );
    assert_eq!(execute(&mut engine, KvCommand::Get { key: s("a") }), KvResponse::Success(Some(s("1"))));
    assert_eq!(execute(&mut engine, KvCommand::Rm { key: s("a") }), KvResponse::Success(None));
}

#[test]
fn removing_missing_key_is_answered_with_error() {
    let mut engine = Engine::open(EngineType::Kvs, "", Vec::new()).unwrap();
    assert_eq!(
        execute(&mut engine, KvCommand::Rm { key: s("nope") }),
        KvResponse::Failure(s("remove error"))
    );
}

#[test]
fn client_prints_value() {
    match client_output(&KvCommand::Get { key: s("a") }, KvResponse::Success(Some(s("v")))) {
        ClientOutput::Print(t) => assert_eq!(t, "v"),
        _ => panic!("expected a line"),
    }
}

#[test]
fn client_prints_key_not_found() {
    match client_output(&KvCommand::Get { key: s("a") }, KvResponse::Success(None)) {
        ClientOutput::Print(t) => assert_eq!(t, "Key not found"),
        _ => panic!("expected a line"),
    }
}

#[test]
fn client_is_silent_after_write() {
    let out = client_output(&KvCommand::Put { key: s("a"), value: s("b") }, KvResponse::Success(None));
    assert!(matches!(out, ClientOutput::Nothing));
}

#[test]
fn client_fails_on_error() {
    match client_output(&KvCommand::Rm { key: s("a") }, KvResponse::Failure(s("remove error"))) {
        ClientOutput::Fail(t) => assert_eq!(t, "remove error"),
        _ => panic!("expected a failure"),
    }
}

use kvs::protocol::{server_step, AcceptOutcome, ServerStep, ShutdownPoll};

#[test]
fn server_stops_on_shutdown() {
    assert_eq!(server_step(ShutdownPoll::Requested, None), ServerStep::Stop);
    assert_eq!(server_step(ShutdownPoll::Disconnected, Some(AcceptOutcome::Connection)), ServerStep::Stop);
}

#[test]
fn server_accepts_and_spawns() {
    assert_eq!(server_step(ShutdownPoll::Empty, None), ServerStep::Accept);
    assert_eq!(server_step(ShutdownPoll::Empty, Some(AcceptOutcome::Connection)), ServerStep::Spawn);
    assert_eq!(server_step(ShutdownPoll::Empty, Some(AcceptOutcome::Failed)), ServerStep::Sleep);
    assert_eq!(server_step(ShutdownPoll::Empty, Some(AcceptOutcome::WouldBlock)), ServerStep::Sleep);
}
