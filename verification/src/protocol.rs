//! The network protocol: each message is its length as four big-endian bytes
//! followed by its bincode encoding; a server answers each command with a
//! response, and a client turns the response into what it prints.
use vstd::prelude::*;

use crate::command::{KvCommand, KvResponse};
use crate::engine::{opt_chars, Engine, KvEngine};
use crate::error::KvError;
use vstd::utf8::{decode_utf8, encode_utf8, encode_utf8_decode_utf8, encode_utf8_valid_utf8, valid_utf8};
use crate::sled_engine::{sled_write_outcome, text_entries};

verus! {

/// The four big-endian bytes of `n`.
pub open spec fn be32_bytes(n: u32) -> Seq<u8> {
    seq![
        ((n >> 24u32) & 0xffu32) as u8,
        ((n >> 16u32) & 0xffu32) as u8,
        ((n >> 8u32) & 0xffu32) as u8,
        (n & 0xffu32) as u8,
    ]
}

/// The number that four big-endian bytes stand for.
pub open spec fn be32_value(b0: u8, b1: u8, b2: u8, b3: u8) -> u32 {
    ((b0 as u32) << 24u32) | ((b1 as u32) << 16u32) | ((b2 as u32) << 8u32) | (b3 as u32)
}

/// Frames a message: its length as four big-endian bytes, then the message.
/// A message of 2^32 bytes or more cannot be framed.
pub fn frame_message(payload: &[u8]) -> (out: Result<Vec<u8>, KvError>)
    ensures
        payload@.len() <= u32::MAX ==> (out matches Ok(f) && f@ == be32_bytes(
            payload@.len() as u32,
        ) + payload@),
        payload@.len() > u32::MAX ==> out == Err::<Vec<u8>, KvError>(KvError::MessageTooLarge),
{
    if payload.len() > 0xffff_ffffusize {
        return Err(KvError::MessageTooLarge);
    }
    let n = payload.len() as u32;
    let mut out: Vec<u8> = Vec::new();
    out.push(((n >> 24u32) & 0xffu32) as u8);
    out.push(((n >> 16u32) & 0xffu32) as u8);
    out.push(((n >> 8u32) & 0xffu32) as u8);
    out.push((n & 0xffu32) as u8);
    let mut i: usize = 0;
    while i < payload.len()
        invariant
            i <= payload@.len(),
            out@ == be32_bytes(n) + payload@.take(i as int),
        decreases payload@.len() - i,
    {
        out.push(payload[i]);
        i = i + 1;
        assert(payload@.take(i as int) =~= payload@.take((i - 1) as int).push(payload@[i - 1]));
    }
    assert(payload@.take(i as int) =~= payload@);
    Ok(out)
}

/// The length that a frame's header announces.
pub fn frame_length(header: [u8; 4]) -> (n: usize)
    ensures
        n == be32_value(header@[0], header@[1], header@[2], header@[3]),
{
    let v: u32 = ((header[0] as u32) << 24u32) | ((header[1] as u32) << 16u32) | ((header[2] as u32)
        << 8u32) | (header[3] as u32);
    v as usize
}

/// Reading back a frame's header gives the length of the framed message.
pub proof fn lemma_frame_length(n: u32)
    ensures
        be32_value(be32_bytes(n)[0], be32_bytes(n)[1], be32_bytes(n)[2], be32_bytes(n)[3]) == n,
{
    let b0 = ((n >> 24u32) & 0xffu32) as u8;
    let b1 = ((n >> 16u32) & 0xffu32) as u8;
    let b2 = ((n >> 8u32) & 0xffu32) as u8;
    let b3 = (n & 0xffu32) as u8;
    assert(((b0 as u32) << 24u32) | ((b1 as u32) << 16u32) | ((b2 as u32) << 8u32) | (b3 as u32)
        == n) by (bit_vector)
        requires
            b0 == ((n >> 24u32) & 0xffu32) as u8,
            b1 == ((n >> 16u32) & 0xffu32) as u8,
            b2 == ((n >> 8u32) & 0xffu32) as u8,
            b3 == (n & 0xffu32) as u8,
    ;
}

/// The text of an error that an engine can report.
pub open spec fn is_error_text(m: Seq<char>) -> bool {
    exists|e: KvError| e.message_text() == m
}

/// The response to a read: the value if the engine answered, else the error's text.
pub fn respond_get(r: Result<Option<String>, KvError>) -> (response: KvResponse)
    ensures
        r matches Ok(o) ==> response == KvResponse::Success(o),
        r matches Err(e) ==> response matches KvResponse::Failure(m) && m@ == e.message_text(),
{
    match r {
        Ok(value) => KvResponse::Success(value),
        Err(e) => KvResponse::Failure(e.message()),
    }
}

/// The response to a write: no value if the engine accepted it, else the error's text.
pub fn respond_write(r: Result<(), KvError>) -> (response: KvResponse)
    ensures
        r is Ok ==> response == KvResponse::Success(None),
        r matches Err(e) ==> response matches KvResponse::Failure(m) && m@ == e.message_text(),
{
    match r {
        Ok(()) => KvResponse::Success(None),
        Err(e) => KvResponse::Failure(e.message()),
    }
}

/// What a response to a read of `key` says of a sled database that holds
/// `raw`: a value is the text stored under the key's bytes, no value means
/// that the key's bytes are not stored, and a failure is either a failure of
/// sled or stored bytes that are not text.
pub open spec fn sled_get_response(raw: Map<Seq<u8>, Seq<u8>>, key: Seq<char>, response: KvResponse) -> bool {
    let k = encode_utf8(key);
    match response {
        KvResponse::Success(Some(v)) => raw.contains_key(k) && raw[k] == encode_utf8(v@),
        KvResponse::Success(None) => !raw.contains_key(k),
        KvResponse::Failure(m) => m@ == "sled error"@ || (m@ == "invalid utf-8 data"@ && raw.contains_key(k)
            && !valid_utf8(raw[k])),
    }
}

/// A server that reads a key holding text from a sled database answers that
/// text; the one other answer is the failure of sled itself.
pub proof fn law_sled_served_read(raw: Map<Seq<u8>, Seq<u8>>, key: Seq<char>, response: KvResponse)
    requires
        text_entries(raw).contains_key(key),
        sled_get_response(raw, key, response),
    ensures
        (response matches KvResponse::Success(Some(v)) && v@ == text_entries(raw)[key])
            || (response matches KvResponse::Failure(m) && m@ == "sled error"@),
{
    broadcast use encode_utf8_decode_utf8;

    reveal_strlit("sled error");
    reveal_strlit("invalid utf-8 data");
    if let KvResponse::Success(Some(v)) = response {
        assert(decode_utf8(encode_utf8(v@)) == v@);
    }
}

/// A server that reads a key of a sled database right after it wrote it
/// answers the written value, or the failure of sled itself.
pub proof fn law_sled_served_read_after_write(
    before: Map<Seq<u8>, Seq<u8>>,
    after: Map<Seq<u8>, Seq<u8>>,
    key: Seq<char>,
    value: Seq<char>,
    response: KvResponse,
)
    requires
        sled_write_outcome(before, after, key, value, Ok(())),
        sled_get_response(after, key, response),
    ensures
        (response matches KvResponse::Success(Some(v)) && v@ == value)
            || (response matches KvResponse::Failure(m) && m@ == "sled error"@),
{
    broadcast use encode_utf8_decode_utf8, encode_utf8_valid_utf8;

    assert(after[encode_utf8(key)] == encode_utf8(value));
    assert(text_entries(after).contains_key(key));
    assert(text_entries(after)[key] == value);
    law_sled_served_read(after, key, response);
}

/// Carries out one command of a client on the engine and gives the response.
pub fn execute(engine: &mut Engine, command: KvCommand) -> (response: KvResponse)
    requires
        old(engine).inv(),
    ensures
        final(engine).inv(),
        command is Get ==> *final(engine) == *old(engine),
        command is Get ==> (response matches KvResponse::Success(o) ==> opt_chars(o)
            == old(engine).stored().get(command->Get_key@)),
        !(command is Get) ==> (response matches KvResponse::Success(o) ==> o is None),
        response matches KvResponse::Failure(m) ==> is_error_text(m@),
        response is Success && old(engine).keeps_writes() && command is Put
            ==> final(engine).stored() == old(engine).stored().insert(command->Put_key@, command->value@),
        response is Success && old(engine).keeps_writes() && command is Rm
            ==> final(engine).stored() == old(engine).stored().remove(command->Rm_key@),
        *old(engine) is Kvs ==> (response is Failure <==> (command is Rm
            && !old(engine).stored().contains_key(command->Rm_key@))),
        *old(engine) is Kvs ==> (response matches KvResponse::Failure(m) ==> m@ == "remove error"@),
        *old(engine) matches Engine::Sled(d) ==> (command is Get ==> (response matches KvResponse::Success(Some(v))
            ==> d.raw().contains_key(encode_utf8(command->Get_key@)) && d.raw()[encode_utf8(command->Get_key@)] == encode_utf8(v@))),
        *old(engine) matches Engine::Sled(d) ==> (command is Get ==> (response == KvResponse::Success(None)
            ==> !d.raw().contains_key(encode_utf8(command->Get_key@)))),
        *old(engine) is Sled && command is Get ==> (response matches KvResponse::Failure(m)
            ==> m@ == "sled error"@ || m@ == "invalid utf-8 data"@),
        *old(engine) matches Engine::Sled(d) ==> (command is Get ==> sled_get_response(d.raw(), command->Get_key@, response)),
        *old(engine) is Sled && command is Put ==> (response matches KvResponse::Failure(m) ==> m@ == "sled error"@),
        *old(engine) matches Engine::Sled(d) ==> (command is Rm ==> (response is Success
            ==> d.raw().contains_key(encode_utf8(command->Rm_key@)))),
        *old(engine) matches Engine::Sled(d) ==> (command is Rm ==> (!d.raw().contains_key(encode_utf8(command->Rm_key@))
            ==> (response matches KvResponse::Failure(m) && (m@ == "remove error"@ || m@ == "sled error"@)))),
{
    match command {
        KvCommand::Get { key } => {
            let r = engine.get(key);
            respond_get(r)
        },
        KvCommand::Put { key, value } => {
            let r = engine.set(key, value);
            respond_write(r)
        },
        KvCommand::Rm { key } => {
            let r = engine.rm(key);
            respond_write(r)
        },
    }
}

/// What a client does with a response: print a line, print nothing, or
/// report an error and fail.
pub enum ClientOutput {
    Print(String),
    Nothing,
    Fail(String),
}

/// What a client prints for the response to a command: the value; for a read
/// of a missing key "Key not found"; nothing for an accepted write; and the
/// error's text, failing, for an error.
pub fn client_output(command: &KvCommand, response: KvResponse) -> (out: ClientOutput)
    ensures
        response matches KvResponse::Success(Some(v)) ==> out == ClientOutput::Print(v),
        command is Get && response == KvResponse::Success(None) ==> (out matches ClientOutput::Print(t) && t@ == "Key not found"@),
        !(command is Get) && response == KvResponse::Success(None) ==> out is Nothing,
        response matches KvResponse::Failure(m) ==> out == ClientOutput::Fail(m),
{
    match response {
        KvResponse::Success(Some(value)) => ClientOutput::Print(value),
        KvResponse::Success(None) => {
            match command {
                KvCommand::Get { .. } => ClientOutput::Print("Key not found".to_owned()),
                _ => ClientOutput::Nothing,
            }
        },
        KvResponse::Failure(message) => ClientOutput::Fail(message),
    }
}

} // verus!

verus! {

/// What a look at the shutdown channel found.
#[derive(Clone, Copy, Debug, PartialEq, Eq, Structural)]
pub enum ShutdownPoll {
    Requested,
    Disconnected,
    Empty,
}

/// What an attempt to accept a connection gave.
#[derive(Clone, Copy, Debug, PartialEq, Eq, Structural)]
pub enum AcceptOutcome {
    Connection,
    WouldBlock,
    Failed,
}

/// What the server does next.
#[derive(Clone, Copy, Debug, PartialEq, Eq, Structural)]
pub enum ServerStep {
    Stop,
    Accept,
    Spawn,
    Sleep,
}

/// One decision of a server that runs until it is told to stop: a shutdown
/// request or a closed channel stops it; otherwise it tries to accept a
/// connection (`accepted` is `None` until it has) and hands a connection to
/// the pool; when no connection is waiting, or accepting failed, it sleeps
/// briefly before it looks again.
pub fn server_step(shutdown: ShutdownPoll, accepted: Option<AcceptOutcome>) -> (s: ServerStep)
    ensures
        shutdown != ShutdownPoll::Empty ==> s == ServerStep::Stop,
        shutdown == ShutdownPoll::Empty && accepted is None ==> s == ServerStep::Accept,
        shutdown == ShutdownPoll::Empty && accepted == Some(AcceptOutcome::Connection) ==> s == ServerStep::Spawn,
        shutdown == ShutdownPoll::Empty && accepted == Some(AcceptOutcome::WouldBlock) ==> s == ServerStep::Sleep,
        shutdown == ShutdownPoll::Empty && accepted == Some(AcceptOutcome::Failed) ==> s == ServerStep::Sleep,
{
    match shutdown {
        ShutdownPoll::Requested => ServerStep::Stop,
        ShutdownPoll::Disconnected => ServerStep::Stop,
        ShutdownPoll::Empty => match accepted {
            None => ServerStep::Accept,
            Some(AcceptOutcome::Connection) => ServerStep::Spawn,
            Some(AcceptOutcome::WouldBlock) => ServerStep::Sleep,
            Some(AcceptOutcome::Failed) => ServerStep::Sleep,
        },
    }
}

} // verus!
