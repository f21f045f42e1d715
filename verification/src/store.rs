//! The log-structured store: an append-only log of commands in memory, and an
//! index from each live key to the offset of its latest `Put`.  The bytes of
//! the log are what the store keeps on disk; the program around the library
//! writes them out.
use dashmap::DashMap;
use vstd::prelude::*;
use vstd::slice::slice_subrange;

use crate::codec::{decode_command, delimits, encode_command, op_bytes, op_decoded};
use crate::command::{KvCommand, Op};
use crate::engine::{opt_chars, KvEngine};
use crate::error::KvError;
use crate::index::{index_clear, index_entries, index_get, index_insert, index_new, index_remove};
use crate::log::{
    compacted_log, contents, contiguous, entries_valid, keeps, kept, latest, lemma_contiguous_parse,
    lemma_contents_same_ops, lemma_latest, lemma_parse_from, lemma_survivors_contents, log_contents,
    log_entries, offsets, parse_from, parsed_end_from, parses_fully, records_bytes, survivors, Entry,
    distinct_puts, lemma_distinct_puts_survive, lemma_records_bytes_same_ops, op_key,
};

verus! {

/// Once this many bytes have been written since the log was last read or
/// compacted, the log is compacted.
pub const COMPACTION_THRESHOLD: u64 = 1024 * 1024;

/// Reads the records of a log from its start, as far as they can be read, and
/// builds the index that they stand for.  Returns the index, the offset where
/// reading stopped, and the records read.
fn replay_log(log: &[u8]) -> (out: (DashMap<String, u64>, usize, Ghost<Seq<Entry>>))
    ensures
        out.2@ == log_entries(log@),
        index_entries(out.0) == offsets(out.2@),
        entries_valid(log@, out.2@),
        contiguous(out.2@, out.1 as nat),
        out.1 == parsed_end_from(log@, 0),
{
    let mut index = index_new();
    let mut pos: usize = 0;
    let ghost mut done: Seq<Entry> = Seq::empty();
    proof {
        assert(index_entries(index) =~= offsets(done));
    }
    while pos < log.len()
        invariant
            pos <= log@.len(),
            log_entries(log@) == done + parse_from(log@, pos as nat),
            parsed_end_from(log@, 0) == parsed_end_from(log@, pos as nat),
            index_entries(index) == offsets(done),
            entries_valid(log@, done),
            contiguous(done, pos as nat),
        ensures
            parse_from(log@, pos as nat) == Seq::<Entry>::empty(),
            parsed_end_from(log@, pos as nat) == pos,
        decreases log@.len() - pos,
    {
        let rest = slice_subrange(log, pos, log.len());
        assert(rest@ =~= log@.skip(pos as int));
        match decode_command(rest) {
            None => {
                break;
            },
            Some((cmd, n)) => {
                let ghost e = Entry { pos: pos as nat, len: n as nat, op: cmd@ };
                proof {
                    assert(parse_from(log@, pos as nat) == seq![e] + parse_from(
                        log@,
                        (pos + n) as nat,
                    ));
                    assert(log@.subrange(pos as int, (pos + n) as int) =~= rest@.take(n as int));
                }
                match cmd {
                    KvCommand::Put { key, value: _ } => {
                        index_insert(&mut index, key, pos as u64);
                    },
                    KvCommand::Rm { key } => {
                        index_remove(&mut index, key.as_str());
                    },
                    KvCommand::Get { key: _ } => {},
                }
                proof {
                    let next = done.push(e);
                    assert(next.drop_last() =~= done);
                    assert(index_entries(index) =~= offsets(next));
                    assert(log_entries(log@) =~= next + parse_from(log@, (pos + n) as nat));
                    assert forall|i: int| 0 <= i < next.len() implies {
                        &&& #[trigger] next[i].pos + next[i].len <= log@.len()
                        &&& next[i].len >= 1
                        &&& delimits(
                            log@.subrange(next[i].pos as int, (next[i].pos + next[i].len) as int),
                            next[i].op,
                        )
                    } by {
                        if i < done.len() {
                            assert(next[i] == done[i]);
                        }
                    }
                    assert forall|i: int, j: int| #![trigger next[i], next[j]] 0 <= i && j == i + 1 && j < next.len() implies next[i].pos + next[i].len == next[j].pos by {
                        if j < done.len() {
                            assert(next[i] == done[i]);
                            assert(next[j] == done[j]);
                        } else {
                            assert(next[i] == done[i]);
                        }
                    }
                    done = next;
                }
                pos = pos + n;
            },
        }
    }
    proof {
        assert(done + Seq::<Entry>::empty() =~= done);
    }
    (index, pos, Ghost(done))
}

} // verus!

verus! {

/// The count of compactions after one more.
pub open spec fn next_count(c: u64) -> u64 {
    if c == u64::MAX {
        0
    } else {
        (c + 1) as u64
    }
}

/// The main data structure that stores the values.
pub struct KvStore {
    log: Vec<u8>,
    index: DashMap<String, u64>,
    uncompacted: u64,
    compactions: u64,
    entries: Ghost<Seq<Entry>>,
}

impl View for KvStore {
    type V = Map<Seq<char>, Seq<char>>;

    /// The contents of the store: each live key with its value.
    closed spec fn view(&self) -> Map<Seq<char>, Seq<char>> {
        contents(self.entries@)
    }
}

impl KvStore {
    /// The bytes of the log.
    pub closed spec fn log_view(&self) -> Seq<u8> {
        self.log@
    }

    /// The bytes written since the log was last read or compacted.
    pub closed spec fn pending(&self) -> nat {
        self.uncompacted as nat
    }

    /// How many times the log has been compacted (counting round at `u64::MAX`).
    pub closed spec fn compaction_count(&self) -> u64 {
        self.compactions
    }

    /// The records that the store answers from lie in the log and can be read
    /// back there, and the index points at the latest `Put` of each live key.
    pub closed spec fn wf(&self) -> bool {
        &&& entries_valid(self.log@, self.entries@)
        &&& index_entries(self.index) == offsets(self.entries@)
        &&& self.uncompacted <= self.log@.len()
    }

    /// The log is exactly the store's records, one after the other: reading it
    /// back gives the same contents.
    pub closed spec fn is_clean(&self) -> bool {
        contiguous(self.entries@, self.log@.len())
    }

    /// The log holds only the latest `Put` of each live key, written one after
    /// the other: what a compaction leaves.
    pub closed spec fn is_compacted(&self) -> bool {
        &&& distinct_puts(self.entries@)
        &&& self.log@ == records_bytes(self.entries@)
    }

    /// Opens a store on the bytes of its log: the records are read from the
    /// start, as far as they can be read, and the index is built from them.
    pub fn open(log: Vec<u8>) -> (store: KvStore)
        ensures
            store.wf(),
            store@ == log_contents(log@),
            store.log_view() == log@,
            store.pending() == log@.len(),
            store.is_clean() == parses_fully(log@),
            store.compaction_count() == 0,
    {
        let (index, end, entries) = replay_log(log.as_slice());
        let uncompacted = log.len() as u64;
        let store = KvStore { log, index, uncompacted, compactions: 0, entries };
        proof {
            if parses_fully(log@) {
                assert(contiguous(entries@, log@.len()));
            }
            if contiguous(entries@, log@.len()) && entries@.len() > 0 {
                assert(end == log@.len());
            }
        }
        store
    }

    /// The bytes of the log, to be written out.
    pub fn log_bytes(&self) -> (bytes: &[u8])
        ensures
            bytes@ == self.log_view(),
    {
        self.log.as_slice()
    }

    /// How many times the log has been compacted: a change tells that the
    /// whole log was rewritten.
    pub fn compactions(&self) -> (n: u64)
        ensures
            n == self.compaction_count(),
    {
        self.compactions
    }
}

} // verus!

verus! {

impl KvStore {
    /// Appends one record to the log and notes it; the index is the caller's.
    fn append_record(&mut self, cmd: &KvCommand) -> (start: usize)
        requires
            entries_valid(old(self).log@, old(self).entries@),
            old(self).uncompacted <= old(self).log@.len(),
        ensures
            start == old(self).log@.len(),
            final(self).log@ == old(self).log@ + op_bytes(cmd@),
            final(self).entries@ == old(self).entries@.push(
                Entry { pos: start as nat, len: op_bytes(cmd@).len(), op: cmd@ },
            ),
            entries_valid(final(self).log@, final(self).entries@),
            final(self).uncompacted == old(self).uncompacted + op_bytes(cmd@).len(),
            final(self).uncompacted <= final(self).log@.len(),
            final(self).index == old(self).index,
            final(self).compactions == old(self).compactions,
            contiguous(old(self).entries@, old(self).log@.len()) == contiguous(
                final(self).entries@,
                final(self).log@.len(),
            ),
    {
        let mut bytes = encode_command(cmd);
        let start = self.log.len();
        let n = bytes.len();
        let ghost old_log = self.log@;
        let ghost old_entries = self.entries@;
        self.log.append(&mut bytes);
        let total = self.log.len();
        self.uncompacted = self.uncompacted + n as u64;
        let ghost e = Entry { pos: start as nat, len: n as nat, op: cmd@ };
        proof {
            let es = old_entries.push(e);
            assert forall|i: int| 0 <= i < es.len() implies {
                &&& #[trigger] es[i].pos + es[i].len <= self.log@.len()
                &&& es[i].len >= 1
                &&& delimits(
                    self.log@.subrange(es[i].pos as int, (es[i].pos + es[i].len) as int),
                    es[i].op,
                )
            } by {
                if i < old_entries.len() {
                    assert(es[i] == old_entries[i]);
                    assert(self.log@.subrange(es[i].pos as int, (es[i].pos + es[i].len) as int)
                        =~= old_log.subrange(es[i].pos as int, (es[i].pos + es[i].len) as int));
                } else {
                    assert(self.log@.subrange(start as int, (start + n) as int) =~= op_bytes(
                        cmd@,
                    ));
                }
            }
            if contiguous(old_entries, old_log.len()) {
                assert forall|i: int, j: int| #![trigger es[i], es[j]] 0 <= i && j == i + 1 && j < es.len() implies es[i].pos + es[i].len == es[j].pos by {
                    assert(es[i] == old_entries[i]);
                    if j < old_entries.len() {
                        assert(es[j] == old_entries[j]);
                    }
                }
            }
            if contiguous(es, self.log@.len()) {
                if old_entries.len() > 0 {
                    let i = old_entries.len() - 1;
                    let j = i + 1;
                    assert(es[i].pos + es[i].len == es[j].pos);
                    assert(es[i] == old_entries[i]);
                } else {
                    assert(es[0] == e);
                }
                assert forall|i: int, j: int| #![trigger old_entries[i], old_entries[j]] 0 <= i && j == i + 1 && j < old_entries.len() implies old_entries[i].pos + old_entries[i].len == old_entries[j].pos by {
                    assert(es[i] == old_entries[i]);
                    assert(es[j] == old_entries[j]);
                    assert(es[i].pos + es[i].len == es[j].pos);
                }
            }
            self.entries = Ghost(es);
        }
        start
    }

    /// Rewrites the log with only the latest `Put` of each live key, read from
    /// the log as far as it can be read, in the order in which they were written.
    fn compact(&mut self)
        requires
            old(self).wf(),
        ensures
            final(self).wf(),
            final(self).is_clean(),
            final(self)@ == log_contents(old(self).log@),
            final(self).log@ == compacted_log(old(self).log@),
            final(self).log@.len() <= old(self).log@.len(),
            final(self).is_compacted(),
            final(self).uncompacted == 0,
            final(self).compactions == next_count(old(self).compactions),
    {
        let (live, _end, all) = replay_log(self.log.as_slice());
        let ghost all = all@;
        let ghost last = latest(all);
        let ghost log = self.log@;
        proof {
            lemma_parse_from(log, 0);
            lemma_latest(all);
        }
        index_clear(&mut self.index);
        let mut new_log: Vec<u8> = Vec::new();
        let ghost mut done: Seq<Entry> = Seq::empty();
        let ghost mut fresh: Seq<Entry> = Seq::empty();
        let mut pos: usize = 0;
        proof {
            assert(all =~= done + parse_from(log, 0));
            assert(index_entries(self.index) =~= offsets(fresh));
            assert(new_log@ =~= records_bytes(kept(done, last)));
        }
        while pos < self.log.len()
            invariant
                self.log@ == log,
                self.compactions == old(self).compactions,
                all == log_entries(log),
                last == latest(all),
                pos <= log.len(),
                all == done + parse_from(log, pos as nat),
                index_entries(live) == offsets(all),
                forall|i: int| 0 <= i < all.len() ==> #[trigger] all[i].pos + all[i].len <= log.len(),
                forall|k: Seq<char>| #[trigger] last.contains_key(k) ==> exists|j: int|
                    0 <= j < all.len() && all[j] == last[k],
                kept(done, last).len() == fresh.len(),
                forall|i: int| 0 <= i < fresh.len() ==> #[trigger] fresh[i].op == kept(done, last)[i].op,
                new_log@ == records_bytes(kept(done, last)),
                new_log@.len() <= pos,
                distinct_puts(fresh),
                forall|i: int| 0 <= i < fresh.len() ==> last.contains_key(op_key(#[trigger] fresh[i].op))
                    && last[op_key(fresh[i].op)].pos < pos,
                contiguous(fresh, new_log@.len()),
                entries_valid(new_log@, fresh),
                index_entries(self.index) == offsets(fresh),
            ensures
                parse_from(log, pos as nat) == Seq::<Entry>::empty(),
            decreases log.len() - pos,
        {
            let rest = slice_subrange(self.log.as_slice(), pos, self.log.len());
            assert(rest@ =~= log.skip(pos as int));
            match decode_command(rest) {
                None => {
                    break;
                },
                Some((cmd, n)) => {
                    let ghost e = Entry { pos: pos as nat, len: n as nat, op: cmd@ };
                    proof {
                        assert(parse_from(log, pos as nat) == seq![e] + parse_from(
                            log,
                            (pos + n) as nat,
                        ));
                        assert(all =~= done.push(e) + parse_from(log, (pos + n) as nat));
                        assert(done.push(e).drop_last() =~= done);
                    }
                    match cmd {
                        KvCommand::Put { key, value } => {
                            let latest_pos = index_get(&live, key.as_str());
                            let survives = match latest_pos {
                                Some(p) => p == pos as u64,
                                None => false,
                            };
                            proof {
                                if last.contains_key(key@) {
                                    let j = choose|j: int| 0 <= j < all.len() && all[j] == last[key@];
                                    assert(last[key@].pos <= log.len());
                                }
                                assert(survives == keeps(last, e));
                            }
                            if survives {
                                let q = new_log.len();
                                let index_key = key.clone();
                                let record = KvCommand::Put { key, value };
                                let mut bytes = encode_command(&record);
                                let ghost before = new_log@;
                                new_log.append(&mut bytes);
                                let total = new_log.len();
                                index_insert(&mut self.index, index_key, q as u64);
                                proof {
                                    let f = Entry { pos: q as nat, len: op_bytes(record@).len(), op: record@ };
                                    let nf = fresh.push(f);
                                    let nk = kept(done.push(e), last);
                                    assert(nk == kept(done, last).push(e));
                                    assert(nf.drop_last() =~= fresh);
                                    assert(nk.drop_last() =~= kept(done, last));
                                    assert(index_entries(self.index) =~= offsets(nf));
                                    assert forall|i: int| 0 <= i < nf.len() implies #[trigger] nf[i].op == nk[i].op by {
                                        if i < fresh.len() {
                                            assert(nf[i] == fresh[i]);
                                        }
                                    }
                                    assert forall|i: int| 0 <= i < nf.len() implies {
                                        &&& #[trigger] nf[i].pos + nf[i].len <= new_log@.len()
                                        &&& nf[i].len >= 1
                                        &&& delimits(
                                            new_log@.subrange(nf[i].pos as int, (nf[i].pos + nf[i].len) as int),
                                            nf[i].op,
                                        )
                                    } by {
                                        if i < fresh.len() {
                                            assert(nf[i] == fresh[i]);
                                            assert(new_log@.subrange(nf[i].pos as int, (nf[i].pos + nf[i].len) as int)
                                                =~= before.subrange(nf[i].pos as int, (nf[i].pos + nf[i].len) as int));
                                        } else {
                                            assert(new_log@.subrange(q as int, (q + op_bytes(record@).len()) as int)
                                                =~= op_bytes(record@));
                                        }
                                    }
                                    assert forall|i: int, j: int| #![trigger nf[i], nf[j]] 0 <= i && j == i + 1 && j < nf.len() implies nf[i].pos + nf[i].len == nf[j].pos by {
                                        assert(nf[i] == fresh[i]);
                                        if j < fresh.len() {
                                            assert(nf[j] == fresh[j]);
                                        }
                                    }
                                    assert forall|i: int| 0 <= i < nf.len() implies #[trigger] nf[i].op is Put by {
                                        if i < fresh.len() {
                                            assert(nf[i] == fresh[i]);
                                        }
                                    }
                                    assert forall|i: int, j: int| #![trigger nf[i], nf[j]] 0 <= i < j < nf.len() implies op_key(nf[i].op) != op_key(nf[j].op) by {
                                        assert(nf[i] == fresh[i]);
                                        if j < fresh.len() {
                                            assert(nf[j] == fresh[j]);
                                        } else {
                                            assert(last[op_key(fresh[i].op)].pos < pos);
                                        }
                                    }
                                    assert forall|i: int| 0 <= i < nf.len() implies last.contains_key(op_key(#[trigger] nf[i].op))
                                        && last[op_key(nf[i].op)].pos < pos + n by {
                                        if i < fresh.len() {
                                            assert(nf[i] == fresh[i]);
                                        }
                                    }
                                    fresh = nf;
                                }
                            } else {
                                proof {
                                    assert(kept(done.push(e), last) == kept(done, last));
                                }
                            }
                        },
                        _ => {
                            proof {
                                assert(!keeps(last, e));
                                assert(kept(done.push(e), last) == kept(done, last));
                            }
                        },
                    }
                    proof {
                        done = done.push(e);
                    }
                    pos = pos + n;
                },
            }
        }
        proof {
            assert(done =~= all);
            lemma_contents_same_ops(fresh, survivors(all));
            lemma_records_bytes_same_ops(fresh, survivors(all));
            lemma_survivors_contents(all);
        }
        self.log = new_log;
        self.uncompacted = 0;
        self.compactions = if self.compactions == u64::MAX {
            0
        } else {
            self.compactions + 1
        };
        self.entries = Ghost(fresh);
    }
}

} // verus!

verus! {

proof fn lemma_push_put(es: Seq<Entry>, e: Entry, k: Seq<char>, v: Seq<char>)
    requires
        e.op == Op::Put(k, v),
    ensures
        contents(es.push(e)) == contents(es).insert(k, v),
        offsets(es.push(e)) == offsets(es).insert(k, e.pos as u64),
{
    assert(es.push(e).drop_last() =~= es);
    assert(offsets(es.push(e)) =~= offsets(es).insert(k, e.pos as u64));
}

proof fn lemma_push_rm(es: Seq<Entry>, e: Entry, k: Seq<char>)
    requires
        e.op == Op::Rm(k),
    ensures
        contents(es.push(e)) == contents(es).remove(k),
        offsets(es.push(e)) == offsets(es).remove(k),
{
    assert(es.push(e).drop_last() =~= es);
    assert(offsets(es.push(e)) =~= offsets(es).remove(k));
}

/// What `set` does to a store: it stays well formed; a store whose log reads
/// back fully keeps doing so and holds `value` at `key`, the rest unchanged.
/// Below the compaction threshold the `Put` record is appended to the log;
/// above it, the log with that record appended is compacted: the store then
/// holds what that log stands for, and the log, no longer than before, is
/// exactly its compacted form.
pub open spec fn set_outcome(before: KvStore, after: KvStore, key: Seq<char>, value: Seq<char>) -> bool {
    let record = op_bytes(Op::Put(key, value));
    let appended = before.log_view() + record;
    &&& after.wf()
    &&& (before.is_clean() ==> after.is_clean() && after@ == before@.insert(key, value))
    &&& (before.pending() + record.len() > COMPACTION_THRESHOLD ==> {
        &&& after@ == log_contents(appended)
        &&& after.log_view() == compacted_log(appended)
        &&& after.log_view().len() <= appended.len()
        &&& after.is_clean()
        &&& after.is_compacted()
        &&& after.pending() == 0
        &&& after.compaction_count() == next_count(before.compaction_count())
    })
    &&& (before.pending() + record.len() <= COMPACTION_THRESHOLD ==> {
        &&& after@ == before@.insert(key, value)
        &&& after.log_view() == appended
        &&& after.is_clean() == before.is_clean()
        &&& after.pending() == before.pending() + record.len()
        &&& after.compaction_count() == before.compaction_count()
    })
}

/// What `rm` does to a store: it succeeds exactly when the key is there; a
/// failure is `Remove` and changes nothing.  A success removes the key, with
/// an `Rm` record appended or the log compacted as for `set`.
pub open spec fn rm_outcome(before: KvStore, after: KvStore, key: Seq<char>, r: Result<(), KvError>) -> bool {
    let record = op_bytes(Op::Rm(key));
    let appended = before.log_view() + record;
    &&& after.wf()
    &&& (r is Ok <==> before@.contains_key(key))
    &&& (r is Err ==> {
        &&& r == Err::<(), KvError>(KvError::Remove)
        &&& after@ == before@
        &&& after.log_view() == before.log_view()
        &&& after.pending() == before.pending()
        &&& after.is_clean() == before.is_clean()
        &&& after.compaction_count() == before.compaction_count()
    })
    &&& (r is Ok && before.is_clean() ==> after.is_clean() && after@ == before@.remove(key))
    &&& (r is Ok && before.pending() + record.len() > COMPACTION_THRESHOLD ==> {
        &&& after@ == log_contents(appended)
        &&& after.log_view() == compacted_log(appended)
        &&& after.log_view().len() <= appended.len()
        &&& after.is_clean()
        &&& after.is_compacted()
        &&& after.pending() == 0
        &&& after.compaction_count() == next_count(before.compaction_count())
    })
    &&& (r is Ok && before.pending() + record.len() <= COMPACTION_THRESHOLD ==> {
        &&& after@ == before@.remove(key)
        &&& after.log_view() == appended
        &&& after.is_clean() == before.is_clean()
        &&& after.pending() == before.pending() + record.len()
        &&& after.compaction_count() == before.compaction_count()
    })
}

impl KvEngine for KvStore {
    open spec fn inv(&self) -> bool {
        self.wf()
    }

    open spec fn stored(&self) -> Map<Seq<char>, Seq<char>> {
        self@
    }

    open spec fn keeps_writes(&self) -> bool {
        self.is_clean()
    }

    /// The getter function: reads the latest record of the key from the log.
    fn get(&self, key: String) -> (r: Result<Option<String>, KvError>)
        ensures
            r matches Ok(o) && opt_chars(o) == self@.get(key@),
    {
        let found = index_get(&self.index, key.as_str());
        proof {
            lemma_latest(self.entries@);
        }
        match found {
            None => {
                proof {
                    assert(!latest(self.entries@).contains_key(key@));
                }
                Ok(None)
            },
            Some(p) => {
                let ghost es = self.entries@;
                let ghost k = key@;
                let ghost j = choose|j: int| 0 <= j < es.len() && es[j] == latest(es)[k];
                proof {
                    assert(latest(es).contains_key(k));
                    assert(es[j] == latest(es)[k]);
                    assert(es[j].pos + es[j].len <= self.log@.len());
                }
                let rest = slice_subrange(self.log.as_slice(), p as usize, self.log.len());
                proof {
                    let span = self.log@.subrange(es[j].pos as int, (es[j].pos + es[j].len) as int);
                    let tail = self.log@.skip((es[j].pos + es[j].len) as int);
                    assert(rest@ =~= span + tail);
                    assert(op_decoded(span + tail) == Some((es[j].op, span.len())));
                }
                match decode_command(rest) {
                    Some((KvCommand::Put { key: _, value }, _)) => Ok(Some(value)),
                    _ => {
                        proof {
                            assert(false);
                        }
                        Err(KvError::BincodeDecoding)
                    },
                }
            },
        }
    }

    /// The setter function: appends a `Put` record, points the index at it,
    /// and compacts the log once enough bytes have been written.
    fn set(&mut self, key: String, value: String) -> (r: Result<(), KvError>)
        ensures
            r is Ok,
            set_outcome(*old(self), *final(self), key@, value@),
    {
        let index_key = key.clone();
        let ghost k = key@;
        let ghost v = value@;
        let cmd = KvCommand::Put { key, value };
        let ghost old_entries = self.entries@;
        let start = self.append_record(&cmd);
        index_insert(&mut self.index, index_key, start as u64);
        proof {
            let e = Entry { pos: start as nat, len: op_bytes(cmd@).len(), op: cmd@ };
            lemma_push_put(old_entries, e, k, v);
            if contiguous(self.entries@, self.log@.len()) {
                lemma_contiguous_parse(self.log@, self.entries@);
            }
        }
        let ghost mid_log = self.log@;
        let ghost mid_view = self@;
        assert(mid_log == old(self).log_view() + op_bytes(Op::Put(k, v)));
        assert(mid_view == old(self)@.insert(k, v));
        if self.uncompacted > COMPACTION_THRESHOLD {
            self.compact();
            assert(self@ == log_contents(mid_log));
        } else {
            assert(self@ == mid_view);
        }
        Ok(())
    }

    /// Removes a key: drops it from the index and appends an `Rm` record; a
    /// key that is not there is an error and changes nothing.
    fn rm(&mut self, key: String) -> (r: Result<(), KvError>)
        ensures
            rm_outcome(*old(self), *final(self), key@, r),
    {
        proof {
            lemma_latest(self.entries@);
        }
        let ghost k = key@;
        let ghost old_entries = self.entries@;
        match index_remove(&mut self.index, key.as_str()) {
            Some(_) => {
                let cmd = KvCommand::Rm { key };
                let start = self.append_record(&cmd);
                proof {
                    let e = Entry { pos: start as nat, len: op_bytes(cmd@).len(), op: cmd@ };
                    lemma_push_rm(old_entries, e, k);
                    if contiguous(self.entries@, self.log@.len()) {
                        lemma_contiguous_parse(self.log@, self.entries@);
                    }
                }
                if self.uncompacted > COMPACTION_THRESHOLD {
                    self.compact();
                }
                Ok(())
            },
            None => {
                proof {
                    assert(index_entries(self.index) =~= index_entries(old(self).index));
                }
                Err(KvError::Remove)
            },
        }
    }
}

} // verus!

verus! {

/// Reopening a store on the bytes of its log gives back its contents, as long
/// as every byte of the log belongs to a readable record: `KvStore::open` on
/// `log_bytes()` then holds the same keys and values, and its log reads back
/// fully again.
pub proof fn law_reopen(store: &KvStore)
    requires
        store.wf(),
        store.is_clean(),
    ensures
        log_contents(store.log_view()) == store@,
        parses_fully(store.log_view()),
{
    lemma_contiguous_parse(store.log@, store.entries@);
}

/// Compaction keeps what a log stands for: the records that it keeps, the
/// latest `Put` of each live key in the order written, replay to the same
/// contents as all the records of the log.
pub proof fn law_compaction_keeps_contents(b: Seq<u8>)
    ensures
        contents(survivors(log_entries(b))) == log_contents(b),
{
    lemma_parse_from(b, 0);
    lemma_survivors_contents(log_entries(b));
}

/// Writing a key and then reading it gives the value written, and every
/// other key reads as before: this holds of every store that `set` can leave
/// behind from a store whose log reads back fully, whether or not the write
/// compacted the log, and the log still reads back fully.
pub proof fn law_get_after_set(before: KvStore, after: KvStore, key: Seq<char>, value: Seq<char>)
    requires
        before.wf(),
        before.is_clean(),
        set_outcome(before, after, key, value),
    ensures
        after@.get(key) == Some(value),
        forall|k: Seq<char>| k != key ==> #[trigger] after@.get(k) == before@.get(k),
        after.is_clean(),
{
}

/// Removing a key and then reading it gives nothing, and every other key
/// reads as before.
pub proof fn law_get_after_rm(before: KvStore, after: KvStore, key: Seq<char>)
    requires
        before.wf(),
        before.is_clean(),
        rm_outcome(before, after, key, Ok(())),
    ensures
        after@.get(key) == None::<Seq<char>>,
        forall|k: Seq<char>| k != key ==> #[trigger] after@.get(k) == before@.get(k),
        after.is_clean(),
{
}

/// Removing a key that a `set` has just added gives back the contents from
/// before the `set`.
pub proof fn law_rm_undoes_set(
    s0: KvStore,
    s1: KvStore,
    s2: KvStore,
    key: Seq<char>,
    value: Seq<char>,
)
    requires
        s0.wf(),
        s0.is_clean(),
        !s0@.contains_key(key),
        set_outcome(s0, s1, key, value),
        rm_outcome(s1, s2, key, Ok(())),
    ensures
        s2@ == s0@,
        s2.is_clean(),
{
    assert(s2@ =~= s0@);
}

/// A write survives reopening: the log that `set` leaves behind, read again
/// by `KvStore::open`, stands for the old contents with `value` at `key`.
pub proof fn law_reopen_after_set(before: KvStore, after: KvStore, key: Seq<char>, value: Seq<char>)
    requires
        before.wf(),
        before.is_clean(),
        set_outcome(before, after, key, value),
    ensures
        log_contents(after.log_view()) == before@.insert(key, value),
        parses_fully(after.log_view()),
{
    law_reopen(&after);
}

/// A removal survives reopening: the log that a successful `rm` leaves
/// behind stands for the old contents without `key`, so a reopened store
/// does not have it (and removing it again is the remove error).
pub proof fn law_reopen_after_rm(before: KvStore, after: KvStore, key: Seq<char>)
    requires
        before.wf(),
        before.is_clean(),
        rm_outcome(before, after, key, Ok(())),
    ensures
        log_contents(after.log_view()) == before@.remove(key),
        !log_contents(after.log_view()).contains_key(key),
        parses_fully(after.log_view()),
{
    law_reopen(&after);
}

/// A write that compacts the log changes no read but its own: the store holds
/// the old contents with `value` at `key`, its log is the compacted form of
/// the log with the new record, no longer than that log, and reading that log
/// again gives the same contents.
pub proof fn law_compaction_keeps_reads(before: KvStore, after: KvStore, key: Seq<char>, value: Seq<char>)
    requires
        before.wf(),
        before.is_clean(),
        set_outcome(before, after, key, value),
        before.pending() + op_bytes(Op::Put(key, value)).len() > COMPACTION_THRESHOLD,
    ensures
        after@ == before@.insert(key, value),
        after.log_view() == compacted_log(before.log_view() + op_bytes(Op::Put(key, value))),
        after.log_view().len() <= before.log_view().len() + op_bytes(Op::Put(key, value)).len(),
        after.pending() == 0,
        log_contents(after.log_view()) == after@,
        compacted_log(after.log_view()) == after.log_view(),
{
    law_reopen(&after);
    law_compaction_idempotent(&after);
}

/// Compacting a compacted log changes nothing: a second compaction of what a
/// compaction left writes the same bytes again (and the same contents, by
/// `law_compaction_keeps_contents`).
pub proof fn law_compaction_idempotent(store: &KvStore)
    requires
        store.wf(),
        store.is_clean(),
        store.is_compacted(),
    ensures
        compacted_log(store.log_view()) == store.log_view(),
        log_contents(compacted_log(store.log_view())) == store@,
{
    lemma_contiguous_parse(store.log@, store.entries@);
    lemma_distinct_puts_survive(store.entries@);
}

/// After a compaction nothing is pending, so the next write below the
/// threshold appends its record at the new end of the compacted log.
pub proof fn law_set_after_compaction(s1: KvStore, s2: KvStore, key: Seq<char>, value: Seq<char>)
    requires
        s1.wf(),
        s1.pending() == 0,
        op_bytes(Op::Put(key, value)).len() <= COMPACTION_THRESHOLD,
        set_outcome(s1, s2, key, value),
    ensures
        s2.log_view() == s1.log_view() + op_bytes(Op::Put(key, value)),
        s2@ == s1@.insert(key, value),
        s2.pending() == op_bytes(Op::Put(key, value)).len(),
{
}

} // verus!
