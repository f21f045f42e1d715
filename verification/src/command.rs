use vstd::prelude::*;

verus! {

/// A command of the store, as it is written to the log and sent over the wire.
#[derive(Debug, Clone, PartialEq, Eq, PartialOrd, Ord)]
pub enum KvCommand {
    Put { key: String, value: String },
    Get { key: String },
    Rm { key: String },
}

/// The mathematical value of a command: its kind and the characters of its strings.
pub enum Op {
    Put(Seq<char>, Seq<char>),
    Get(Seq<char>),
    Rm(Seq<char>),
}

impl View for KvCommand {
    type V = Op;

    open spec fn view(&self) -> Op {
        match self {
            KvCommand::Put { key, value } => Op::Put(key@, value@),
            KvCommand::Get { key } => Op::Get(key@),
            KvCommand::Rm { key } => Op::Rm(key@),
        }
    }
}

/// Response from the server after processing a command.
#[derive(Debug, Clone, PartialEq, Eq)]
pub enum KvResponse {
    /// Successful operation with optional value (for Get commands)
    Success(Option<String>),
    /// Error occurred
    Failure(String),
}

} // verus!
