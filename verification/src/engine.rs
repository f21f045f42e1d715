//! The engines behind the store's interface, and how one is chosen.
use vstd::prelude::*;

use crate::error::KvError;
use crate::log::log_contents;
use crate::sled_engine::{sled_read_outcome, sled_remove_outcome, sled_write_outcome, KvSled};
use crate::store::{rm_outcome, set_outcome, KvStore};

verus! {

/// The characters of an optional string.
pub open spec fn opt_chars(o: Option<String>) -> Option<Seq<char>> {
    match o {
        Some(s) => Some(s@),
        None => None,
    }
}

/// A key/value engine: string keys mapped to string values.
pub trait KvEngine {
    /// What the engine keeps true between calls.
    spec fn inv(&self) -> bool;

    /// What the engine holds: each key with its value.
    spec fn stored(&self) -> Map<Seq<char>, Seq<char>>;

    /// A write that succeeds is kept as written (a log-structured store loses
    /// this only while an unreadable tail sits in its log).
    spec fn keeps_writes(&self) -> bool;

    /// The value of `key`, if it has one.
    fn get(&self, key: String) -> (r: Result<Option<String>, KvError>)
        requires
            self.inv(),
        ensures
            r matches Ok(o) ==> opt_chars(o) == self.stored().get(key@),
    ;

    /// Sets `key` to `value`.
    fn set(&mut self, key: String, value: String) -> (r: Result<(), KvError>)
        requires
            old(self).inv(),
        ensures
            final(self).inv(),
            (r is Ok && old(self).keeps_writes()) ==> final(self).keeps_writes(),
            (r is Ok && old(self).keeps_writes()) ==> final(self).stored() == old(self).stored().insert(key@, value@),
    ;

    /// Removes `key`; a key that is not there is an error.
    fn rm(&mut self, key: String) -> (r: Result<(), KvError>)
        requires
            old(self).inv(),
        ensures
            final(self).inv(),
            (r is Ok && old(self).keeps_writes()) ==> final(self).keeps_writes(),
            (r is Ok && old(self).keeps_writes()) ==> final(self).stored() == old(self).stored().remove(key@),
            r == Err::<(), KvError>(KvError::Remove) ==> !old(self).stored().contains_key(key@)
                && final(self).stored() == old(self).stored(),
    ;
}

/// The kinds of engine.
#[derive(Clone, Copy, Debug, PartialEq, Eq, Structural)]
#[non_exhaustive]
pub enum EngineType {
    Kvs,
    Sled,
}

/// What `str::to_lowercase` returns for a string: its lowercase equivalent as
/// Unicode defines it.
pub uninterp spec fn lowercase(s: Seq<char>) -> Seq<char>;

/// Calls `str::to_lowercase`.
#[verifier::external_body]
fn to_lowercase(s: &str) -> (r: String)
    ensures
        r@ == lowercase(s@),
{
    s.to_lowercase()
}

/// The engine that a lowercased name stands for.
pub open spec fn engine_named(name: Seq<char>) -> Result<EngineType, KvError> {
    if name == "kvs"@ || name == "kvstore"@ {
        Ok(EngineType::Kvs)
    } else if name == "sled"@ || name == "sld"@ {
        Ok(EngineType::Sled)
    } else {
        Err(KvError::InvalidEngineName)
    }
}

impl EngineType {
    /// The engine that an already lowercased name stands for: "kvs" or
    /// "kvstore", "sled" or "sld"; any other name is `InvalidEngineName`.
    pub fn from_lowercase(name: &str) -> (r: Result<EngineType, KvError>)
        ensures
            r == engine_named(name@),
    {
        let name = name.to_owned();
        if name == "kvs".to_owned() || name == "kvstore".to_owned() {
            Ok(EngineType::Kvs)
        } else if name == "sled".to_owned() || name == "sld".to_owned() {
            Ok(EngineType::Sled)
        } else {
            Err(KvError::InvalidEngineName)
        }
    }

    /// Parses an engine name, in any case.
    pub fn parse(s: &str) -> (r: Result<EngineType, KvError>)
        ensures
            r == engine_named(lowercase(s@)),
    {
        let lower = to_lowercase(s);
        EngineType::from_lowercase(lower.as_str())
    }
}

impl std::str::FromStr for EngineType {
    type Err = KvError;

    /// Parses an engine name, in any case, as `EngineType::parse` does.
    fn from_str(s: &str) -> (r: Result<EngineType, KvError>)
        ensures
            r == engine_named(lowercase(s@)),
    {
        EngineType::parse(s)
    }
}

/// Decides how a store directory is opened, given the engine recorded in it
/// (if any) and the one requested: a different recorded engine is an error;
/// `Ok(true)` means that the requested engine is to be recorded, as nothing
/// was recorded yet.
pub fn check_engine(existing: Option<EngineType>, requested: EngineType) -> (r: Result<bool, KvError>)
    ensures
        existing is None ==> r == Ok::<bool, KvError>(true),
        existing == Some(requested) ==> r == Ok::<bool, KvError>(false),
        existing is Some && existing != Some(requested) ==> r == Err::<bool, KvError>(
            KvError::WrongEngine { requested, existing: existing.unwrap() },
        ),
{
    match existing {
        Some(e) => {
            if e != requested {
                Err(KvError::WrongEngine { requested, existing: e })
            } else {
                Ok(false)
            }
        },
        None => Ok(true),
    }
}

/// A wrapper enum that can hold any engine implementation.
pub enum Engine {
    Kvs(KvStore),
    Sled(KvSled),
}

impl Engine {
    /// Opens an engine of the given type: a log-structured store on the bytes
    /// of its log, or a sled database at the path.
    pub fn open(engine_type: EngineType, path: &str, kvs_log: Vec<u8>) -> (r: Result<Engine, KvError>)
        ensures
            engine_type == EngineType::Kvs ==> (r matches Ok(Engine::Kvs(s)) && s.wf() && s@
                == log_contents(kvs_log@) && s.log_view() == kvs_log@),
            engine_type == EngineType::Sled ==> (r matches Ok(e) ==> e is Sled),
            engine_type == EngineType::Sled ==> (r matches Ok(Engine::Sled(d)) ==> d.path() == path@),
            engine_type == EngineType::Sled ==> (r is Err ==> r == Err::<Engine, KvError>(
                KvError::Sled,
            )),
    {
        match engine_type {
            EngineType::Kvs => Ok(Engine::Kvs(KvStore::open(kvs_log))),
            EngineType::Sled => match KvSled::open(path) {
                Ok(db) => Ok(Engine::Sled(db)),
                Err(e) => Err(e),
            },
        }
    }
}

impl KvEngine for Engine {
    open spec fn inv(&self) -> bool {
        match self {
            Engine::Kvs(s) => s.inv(),
            Engine::Sled(d) => d.inv(),
        }
    }

    open spec fn stored(&self) -> Map<Seq<char>, Seq<char>> {
        match self {
            Engine::Kvs(s) => s.stored(),
            Engine::Sled(d) => d.stored(),
        }
    }

    open spec fn keeps_writes(&self) -> bool {
        match self {
            Engine::Kvs(s) => s.keeps_writes(),
            Engine::Sled(d) => d.keeps_writes(),
        }
    }

    fn get(&self, key: String) -> (r: Result<Option<String>, KvError>)
        ensures
            self matches Engine::Kvs(s) ==> (r matches Ok(o) && opt_chars(o) == s@.get(key@)),
            self matches Engine::Sled(d) ==> sled_read_outcome(d.raw(), key@, r),
    {
        match self {
            Engine::Kvs(s) => s.get(key),
            Engine::Sled(d) => d.get(key),
        }
    }

    fn set(&mut self, key: String, value: String) -> (r: Result<(), KvError>)
        ensures
            *old(self) matches Engine::Kvs(s0) ==> (r is Ok && (*final(self) matches Engine::Kvs(s1)
                && set_outcome(s0, s1, key@, value@))),
            *old(self) matches Engine::Sled(d0) ==> (*final(self) matches Engine::Sled(d1)
                && sled_write_outcome(d0.raw(), d1.raw(), key@, value@, r)),
    {
        match self {
            Engine::Kvs(s) => s.set(key, value),
            Engine::Sled(d) => d.set(key, value),
        }
    }

    fn rm(&mut self, key: String) -> (r: Result<(), KvError>)
        ensures
            *old(self) matches Engine::Kvs(s0) ==> (*final(self) matches Engine::Kvs(s1)
                && rm_outcome(s0, s1, key@, r)),
            *old(self) matches Engine::Sled(d0) ==> (*final(self) matches Engine::Sled(d1)
                && sled_remove_outcome(d0.raw(), d1.raw(), key@, r)),
    {
        match self {
            Engine::Kvs(s) => s.rm(key),
            Engine::Sled(d) => d.rm(key),
        }
    }
}

} // verus!
