//! Key Value Storage: a log-structured key/value database with set, get and
//! remove.
//!
//! Commands are appended to a log in bincode's standard encoding; an index maps
//! every live key to the offset of its latest `Put` record, and the log is
//! compacted once enough bytes have been written since it was last read or
//! compacted.  A second engine keeps its data in a `sled` database.  Clients
//! and the server exchange length-prefixed commands and responses.

pub mod codec;
pub mod command;
pub mod engine;
pub mod error;
pub mod index;
pub mod log;
pub mod protocol;
pub mod sled_engine;
pub mod store;

pub use command::{KvCommand, KvResponse};
pub use engine::{Engine, EngineType, KvEngine};
pub use error::KvError;
pub use sled_engine::KvSled;
pub use store::KvStore;
