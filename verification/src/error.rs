use vstd::prelude::*;

use crate::engine::EngineType;

verus! {

/// The errors that the store, its engines and its protocol report.
#[derive(Debug, Clone, Copy, PartialEq, Eq, Structural)]
pub enum KvError {
    InvalidEngineName,
    InvalidAddr,
    Open,
    Remove,
    MessageTooLarge,
    BincodeEncode,
    BincodeDecoding,
    IndexInsertion,
    Sled,
    Utf8,
    WrongEngine { requested: EngineType, existing: EngineType },
}

impl KvError {
    /// The text that the error displays.
    pub fn message(&self) -> (text: String)
        ensures
            text@ == self.message_text(),
    {
        let s = match self {
            KvError::InvalidEngineName => "invalid engine name",
            KvError::InvalidAddr => "invalid addr",
            KvError::Open => "failed to open datastore at path",
            KvError::Remove => "remove error",
            KvError::MessageTooLarge => "network message is too large",
            KvError::BincodeEncode => "bincode encoding error",
            KvError::BincodeDecoding => "bincode decoding error",
            KvError::IndexInsertion => "failed to insert into index",
            KvError::Sled => "sled error",
            KvError::Utf8 => "invalid utf-8 data",
            KvError::WrongEngine { .. } => "wrong engine",
        };
        s.to_owned()
    }

    pub open spec fn message_text(&self) -> Seq<char> {
        match self {
            KvError::InvalidEngineName => "invalid engine name"@,
            KvError::InvalidAddr => "invalid addr"@,
            KvError::Open => "failed to open datastore at path"@,
            KvError::Remove => "remove error"@,
            KvError::MessageTooLarge => "network message is too large"@,
            KvError::BincodeEncode => "bincode encoding error"@,
            KvError::BincodeDecoding => "bincode decoding error"@,
            KvError::IndexInsertion => "failed to insert into index"@,
            KvError::Sled => "sled error"@,
            KvError::Utf8 => "invalid utf-8 data"@,
            KvError::WrongEngine { .. } => "wrong engine"@,
        }
    }
}

} // verus!
