//! The engine that keeps its data in a `sled` database.
use vstd::prelude::*;
use vstd::utf8::{decode_utf8, encode_utf8, encode_utf8_decode_utf8, encode_utf8_valid_utf8, valid_utf8};

use crate::engine::{opt_chars, KvEngine};
use crate::error::KvError;

verus! {

#[verifier::external_type_specification]
#[verifier::external_body]
pub struct ExSledDb(sled::Db);

#[verifier::external_type_specification]
#[verifier::external_body]
pub struct ExSledError(sled::Error);

/// The entries that a sled database holds: the bytes of each key with the
/// bytes of its value.
pub uninterp spec fn sled_entries(db: sled::Db) -> Map<Seq<u8>, Seq<u8>>;

/// The bytes of an optional byte vector.
pub open spec fn opt_bytes(o: Option<Vec<u8>>) -> Option<Seq<u8>> {
    match o {
        Some(v) => Some(v@),
        None => None,
    }
}

/// The path that a sled database was opened at.
pub uninterp spec fn sled_path(db: sled::Db) -> Seq<char>;

/// Calls `sled::open`: a database that it opens is the one at `path`.  What
/// the database holds, and whether it opens at all, comes from the disk, so
/// nothing more is claimed.
#[verifier::external_body]
fn sled_open(path: &str) -> (r: Result<sled::Db, sled::Error>)
    ensures
        r matches Ok(db) ==> sled_path(db) == path@,
{
    sled::open(path)
}

/// Calls `Tree::get` on the database and copies out the value: when it
/// succeeds, the value stored under the key, if there is one.
#[verifier::external_body]
fn sled_get(db: &sled::Db, key: &[u8]) -> (r: Result<Option<Vec<u8>>, sled::Error>)
    ensures
        r matches Ok(o) ==> opt_bytes(o) == sled_entries(*db).get(key@),
{
    match db.get(key) {
        Ok(Some(v)) => Ok(Some(v.to_vec())),
        Ok(None) => Ok(None),
        Err(e) => Err(e),
    }
}

/// Calls `Tree::insert`: when it succeeds, the key now holds the value, the
/// other entries stay, and the previous value is returned.  Nothing is
/// claimed of the database after an error.
#[verifier::external_body]
fn sled_insert(db: &mut sled::Db, key: &[u8], value: &[u8]) -> (r: Result<Option<Vec<u8>>, sled::Error>)
    ensures
        r matches Ok(prev) ==> opt_bytes(prev) == sled_entries(*old(db)).get(key@)
            && sled_entries(*final(db)) == sled_entries(*old(db)).insert(key@, value@),
{
    match db.insert(key, value) {
        Ok(Some(v)) => Ok(Some(v.to_vec())),
        Ok(None) => Ok(None),
        Err(e) => Err(e),
    }
}

/// Calls `Tree::remove`: when it succeeds, the key is gone, the other entries
/// stay, and its value is returned if it was there.  Nothing is claimed of
/// the database after an error.
#[verifier::external_body]
fn sled_remove(db: &mut sled::Db, key: &[u8]) -> (r: Result<Option<Vec<u8>>, sled::Error>)
    ensures
        r matches Ok(prev) ==> opt_bytes(prev) == sled_entries(*old(db)).get(key@)
            && sled_entries(*final(db)) == sled_entries(*old(db)).remove(key@),
{
    match db.remove(key) {
        Ok(Some(v)) => Ok(Some(v.to_vec())),
        Ok(None) => Ok(None),
        Err(e) => Err(e),
    }
}

/// Calls `Tree::flush`, which writes dirty buffers to disk; whether it
/// succeeds depends on the disk.
#[verifier::external_body]
fn sled_flush(db: &sled::Db) -> (r: Result<usize, sled::Error>) {
    db.flush()
}

/// Calls `String::from_utf8`: a string exactly when the bytes are valid
/// UTF-8, and then the characters that they encode.
#[verifier::external_body]
fn string_from_utf8(bytes: Vec<u8>) -> (r: Option<String>)
    ensures
        r is Some == valid_utf8(bytes@),
        r matches Some(s) ==> s@ == decode_utf8(bytes@),
{
    String::from_utf8(bytes).ok()
}

/// The text entries of a database: each key whose bytes are stored, with a
/// value that is valid UTF-8, and the characters of that value.
pub open spec fn text_entries(raw: Map<Seq<u8>, Seq<u8>>) -> Map<Seq<char>, Seq<char>> {
    Map::new(
        |k: Seq<char>| raw.contains_key(encode_utf8(k)) && valid_utf8(raw[encode_utf8(k)]),
        |k: Seq<char>| decode_utf8(raw[encode_utf8(k)]),
    )
}

proof fn lemma_text_insert(raw: Map<Seq<u8>, Seq<u8>>, k: Seq<char>, v: Seq<char>)
    ensures
        text_entries(raw.insert(encode_utf8(k), encode_utf8(v))) == text_entries(raw).insert(k, v),
{
    broadcast use encode_utf8_decode_utf8, encode_utf8_valid_utf8;

    let a = text_entries(raw.insert(encode_utf8(k), encode_utf8(v)));
    let b = text_entries(raw).insert(k, v);
    assert forall|x: Seq<char>| #[trigger] a.contains_key(x) == b.contains_key(x) by {
        if x != k {
            assert(decode_utf8(encode_utf8(x)) == x);
        }
    }
    assert forall|x: Seq<char>| a.contains_key(x) implies #[trigger] a[x] == b[x] by {
        if x != k {
            assert(decode_utf8(encode_utf8(x)) == x);
        }
    }
    assert(a =~= b);
}

proof fn lemma_text_remove(raw: Map<Seq<u8>, Seq<u8>>, k: Seq<char>)
    ensures
        text_entries(raw.remove(encode_utf8(k))) == text_entries(raw).remove(k),
{
    broadcast use encode_utf8_decode_utf8;

    let a = text_entries(raw.remove(encode_utf8(k)));
    let b = text_entries(raw).remove(k);
    assert forall|x: Seq<char>| #[trigger] a.contains_key(x) == b.contains_key(x) by {
        if x != k {
            assert(decode_utf8(encode_utf8(x)) == x);
        }
    }
    assert(a =~= b);
}

/// What a read answers, given the bytes that the database holds: nothing
/// exactly where the key's bytes are not stored, else the characters whose
/// UTF-8 encoding is stored; a stored value that is not valid UTF-8 is
/// `Utf8`, and a failure of sled is `Sled`.
pub open spec fn sled_read_outcome(
    raw: Map<Seq<u8>, Seq<u8>>,
    key: Seq<char>,
    r: Result<Option<String>, KvError>,
) -> bool {
    let k = encode_utf8(key);
    &&& (r matches Ok(None) ==> !raw.contains_key(k))
    &&& (r matches Ok(Some(s)) ==> raw.contains_key(k) && raw[k] == encode_utf8(s@))
    &&& (r == Err::<Option<String>, KvError>(KvError::Utf8) ==> raw.contains_key(k) && !valid_utf8(raw[k]))
    &&& (r is Err ==> r == Err::<Option<String>, KvError>(KvError::Sled) || r == Err::<Option<String>, KvError>(KvError::Utf8))
}

/// What a write does to the bytes that the database holds: once it succeeds,
/// the key's bytes hold the value's bytes and nothing else changed; a failure
/// is `Sled`.
pub open spec fn sled_write_outcome(
    before: Map<Seq<u8>, Seq<u8>>,
    after: Map<Seq<u8>, Seq<u8>>,
    key: Seq<char>,
    value: Seq<char>,
    r: Result<(), KvError>,
) -> bool {
    &&& (r is Ok ==> after == before.insert(encode_utf8(key), encode_utf8(value)))
    &&& (r is Err ==> r == Err::<(), KvError>(KvError::Sled))
}

/// What a removal does to the bytes that the database holds: it succeeds only
/// where the key's bytes were stored, and then they are gone; `Remove` means
/// that they were not stored, and nothing changed; the other failure is `Sled`.
pub open spec fn sled_remove_outcome(
    before: Map<Seq<u8>, Seq<u8>>,
    after: Map<Seq<u8>, Seq<u8>>,
    key: Seq<char>,
    r: Result<(), KvError>,
) -> bool {
    let k = encode_utf8(key);
    &&& (r is Ok ==> before.contains_key(k) && after == before.remove(k))
    &&& (r == Err::<(), KvError>(KvError::Remove) ==> !before.contains_key(k) && after == before)
    &&& (r is Err ==> r == Err::<(), KvError>(KvError::Sled) || r == Err::<(), KvError>(KvError::Remove))
}

/// A read answers what the database holds as text: the characters of the
/// value stored under the key's bytes, nothing where none is stored, and
/// `Utf8` only where the stored bytes are not text.  So where the key holds
/// text, the one answer other than that text is a failure of sled itself.
pub proof fn law_sled_read_gives_stored(raw: Map<Seq<u8>, Seq<u8>>, key: Seq<char>, r: Result<Option<String>, KvError>)
    requires
        sled_read_outcome(raw, key, r),
    ensures
        r matches Ok(o) ==> opt_chars(o) == text_entries(raw).get(key),
        text_entries(raw).contains_key(key) ==> (r matches Ok(Some(s)) && s@ == text_entries(raw)[key])
            || r == Err::<Option<String>, KvError>(KvError::Sled),
        !raw.contains_key(encode_utf8(key)) ==> r == Ok::<Option<String>, KvError>(None)
            || r == Err::<Option<String>, KvError>(KvError::Sled),
{
    broadcast use encode_utf8_decode_utf8, encode_utf8_valid_utf8;

    if let Ok(Some(s)) = r {
        assert(decode_utf8(encode_utf8(s@)) == s@);
    }
}

/// A read after a write that sled accepted finds the written value: it
/// answers the value's characters or reports a failure of sled, and never a
/// missing key or bytes that are not text.
pub proof fn law_sled_read_after_write(
    before: Map<Seq<u8>, Seq<u8>>,
    after: Map<Seq<u8>, Seq<u8>>,
    key: Seq<char>,
    value: Seq<char>,
    r: Result<Option<String>, KvError>,
)
    requires
        sled_write_outcome(before, after, key, value, Ok(())),
        sled_read_outcome(after, key, r),
    ensures
        r is Ok ==> (r matches Ok(Some(s)) && s@ == value),
        r is Err ==> r == Err::<Option<String>, KvError>(KvError::Sled),
{
    broadcast use encode_utf8_decode_utf8, encode_utf8_valid_utf8;

    lemma_text_insert(before, key, value);
    law_sled_read_gives_stored(after, key, r);
    assert(text_entries(after).contains_key(key));
}

/// A read after a removal that sled accepted finds nothing: it answers no
/// value or reports a failure of sled.
pub proof fn law_sled_read_after_remove(
    before: Map<Seq<u8>, Seq<u8>>,
    after: Map<Seq<u8>, Seq<u8>>,
    key: Seq<char>,
    r: Result<Option<String>, KvError>,
)
    requires
        sled_remove_outcome(before, after, key, Ok(())),
        sled_read_outcome(after, key, r),
    ensures
        r == Ok::<Option<String>, KvError>(None) || r == Err::<Option<String>, KvError>(KvError::Sled),
{
    law_sled_read_gives_stored(after, key, r);
}

/// A removal after a write that sled accepted finds the key: it never
/// answers `Remove`, and when it succeeds the database holds what it held
/// before the write, without the key.
pub proof fn law_sled_remove_after_write(
    before: Map<Seq<u8>, Seq<u8>>,
    written: Map<Seq<u8>, Seq<u8>>,
    after: Map<Seq<u8>, Seq<u8>>,
    key: Seq<char>,
    value: Seq<char>,
    r: Result<(), KvError>,
)
    requires
        sled_write_outcome(before, written, key, value, Ok(())),
        sled_remove_outcome(written, after, key, r),
    ensures
        r is Ok || r == Err::<(), KvError>(KvError::Sled),
        r is Ok ==> after == before.remove(encode_utf8(key)),
        r is Ok ==> text_entries(after) == text_entries(before).remove(key),
{
    let k = encode_utf8(key);
    assert(written.contains_key(k));
    if r is Ok {
        assert(after =~= before.remove(k));
        lemma_text_remove(before, key);
    }
}

/// A removal of a key whose bytes are not stored never succeeds: it answers
/// `Remove` and leaves the database as it was, or reports a failure of sled.
pub proof fn law_sled_remove_missing(
    before: Map<Seq<u8>, Seq<u8>>,
    after: Map<Seq<u8>, Seq<u8>>,
    key: Seq<char>,
    r: Result<(), KvError>,
)
    requires
        !before.contains_key(encode_utf8(key)),
        sled_remove_outcome(before, after, key, r),
    ensures
        r == Err::<(), KvError>(KvError::Remove) || r == Err::<(), KvError>(KvError::Sled),
        r == Err::<(), KvError>(KvError::Remove) ==> after == before,
{
}

/// What a read answers for each answer of sled: a failure is `Sled`, no value
/// is `Ok(None)`, a value is its characters when it is valid UTF-8 and `Utf8`
/// when it is not.
pub fn answer_get(found: Result<Option<Vec<u8>>, sled::Error>) -> (r: Result<Option<String>, KvError>)
    ensures
        found is Err ==> r == Err::<Option<String>, KvError>(KvError::Sled),
        found matches Ok(None) ==> r == Ok::<Option<String>, KvError>(None),
        found matches Ok(Some(b)) ==> (valid_utf8(b@) ==> (r matches Ok(Some(s)) && s@ == decode_utf8(b@))),
        found matches Ok(Some(b)) ==> (!valid_utf8(b@) ==> r == Err::<Option<String>, KvError>(KvError::Utf8)),
{
    match found {
        Err(_) => Err(KvError::Sled),
        Ok(None) => Ok(None),
        Ok(Some(bytes)) => match string_from_utf8(bytes) {
            Some(s) => Ok(Some(s)),
            None => Err(KvError::Utf8),
        },
    }
}

/// What a removal answers for each answer of sled's `remove`: a failure is
/// `Sled`, no previous value is `Remove`, a previous value goes on (`Ok`) to
/// be flushed.
pub fn answer_remove(removed: Result<Option<Vec<u8>>, sled::Error>) -> (r: Result<(), KvError>)
    ensures
        removed is Err ==> r == Err::<(), KvError>(KvError::Sled),
        removed matches Ok(None) ==> r == Err::<(), KvError>(KvError::Remove),
        removed matches Ok(Some(_)) ==> r is Ok,
{
    match removed {
        Err(_) => Err(KvError::Sled),
        Ok(None) => Err(KvError::Remove),
        Ok(Some(_)) => Ok(()),
    }
}

/// What a write answers for each answer of sled's `insert` or `flush`: a
/// failure is `Sled`, anything else succeeds.
pub fn answer_write<T>(done: Result<T, sled::Error>) -> (r: Result<(), KvError>)
    ensures
        done is Err ==> r == Err::<(), KvError>(KvError::Sled),
        done is Ok ==> r is Ok,
{
    match done {
        Err(_) => Err(KvError::Sled),
        Ok(_) => Ok(()),
    }
}

/// The engine backed by a sled database.
pub struct KvSled(sled::Db);

/// What opening answers for each answer of `sled::open`: the engine on the
/// database that sled opened, holding what that database holds; a failure
/// is `Sled`.
pub fn answer_open(opened: Result<sled::Db, sled::Error>) -> (r: Result<KvSled, KvError>)
    ensures
        opened is Ok ==> r is Ok,
        opened is Err ==> r == Err::<KvSled, KvError>(KvError::Sled),
        r matches Ok(k) ==> opened is Ok && k.raw() == sled_entries(opened->Ok_0),
        r matches Ok(k) ==> k.path() == sled_path(opened->Ok_0),
{
    match opened {
        Ok(db) => Ok(KvSled(db)),
        Err(_) => Err(KvError::Sled),
    }
}

impl KvSled {
    /// The bytes that the database holds.
    pub closed spec fn raw(&self) -> Map<Seq<u8>, Seq<u8>> {
        sled_entries(self.0)
    }

    /// The path of the database.
    pub closed spec fn path(&self) -> Seq<char> {
        sled_path(self.0)
    }

    /// Opens the sled database at the given path: the engine on that
    /// database when sled opens it (see `answer_open`), else `KvError::Sled`.
    /// Whether sled opens it depends on the disk, so the contract leaves
    /// open which of the two comes back; `answer_open` fixes the answer for
    /// each answer of sled.
    pub fn open(path: &str) -> (r: Result<KvSled, KvError>)
        ensures
            r is Err ==> r == Err::<KvSled, KvError>(KvError::Sled),
            r matches Ok(k) ==> k.path() == path@,
    {
        answer_open(sled_open(path))
    }
}

impl KvEngine for KvSled {
    open spec fn inv(&self) -> bool {
        true
    }

    open spec fn stored(&self) -> Map<Seq<char>, Seq<char>> {
        text_entries(self.raw())
    }

    open spec fn keeps_writes(&self) -> bool {
        true
    }

    /// Reads the value stored under the key's bytes; a value that is not
    /// valid UTF-8 is `KvError::Utf8`, a failure of sled `KvError::Sled`.
    /// Whether sled's read fails depends on the disk, so a `KvError::Sled`
    /// is admitted on every input; `answer_get` fixes the answer for each
    /// answer of sled, and `law_sled_read_gives_stored` what any other
    /// answer holds.
    fn get(&self, key: String) -> (r: Result<Option<String>, KvError>)
        ensures
            sled_read_outcome(self.raw(), key@, r),
    {
        let found = sled_get(&self.0, key.as_str().as_bytes());
        let r = answer_get(found);
        proof {
            broadcast use vstd::utf8::decode_utf8_encode_utf8;
        }
        r
    }

    /// Stores the value's bytes under the key's bytes, then flushes.
    /// Whether sled's insert and flush succeed depends on the disk, so a
    /// `KvError::Sled` is admitted on every input; `answer_write` fixes the
    /// answer for each answer of sled.
    fn set(&mut self, key: String, value: String) -> (r: Result<(), KvError>)
        ensures
            sled_write_outcome(old(self).raw(), final(self).raw(), key@, value@, r),
    {
        let ghost before = self.raw();
        let inserted = answer_write(sled_insert(&mut self.0, key.as_str().as_bytes(), value.as_str().as_bytes()));
        if inserted.is_err() {
            return inserted;
        }
        proof {
            lemma_text_insert(before, key@, value@);
        }
        answer_write(sled_flush(&self.0))
    }

    /// Removes the key's bytes, then flushes; a key that is not there is
    /// `KvError::Remove`.  Whether sled's remove and flush succeed depends on
    /// the disk, so a `KvError::Sled` is admitted on every input;
    /// `answer_remove` and `answer_write` fix the answer for each answer of
    /// sled.
    fn rm(&mut self, key: String) -> (r: Result<(), KvError>)
        ensures
            sled_remove_outcome(old(self).raw(), final(self).raw(), key@, r),
    {
        let ghost before = self.raw();
        let removed = answer_remove(sled_remove(&mut self.0, key.as_str().as_bytes()));
        proof {
            lemma_text_remove(before, key@);
        }
        if removed.is_err() {
            proof {
                if removed == Err::<(), KvError>(KvError::Remove) {
                    assert(before.remove(encode_utf8(key@)) =~= before);
                }
            }
            return removed;
        }
        answer_write(sled_flush(&self.0))
    }
}

} // verus!
