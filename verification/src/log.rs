//! The log as a sequence of records: how it is read from its bytes, what
//! contents it stands for, and which records survive a compaction.
use vstd::prelude::*;

use crate::codec::{delimits, op_bytes, op_decoded};
use crate::command::Op;

verus! {

/// A record of the log: where it starts, how many bytes it takes, and its command.
pub struct Entry {
    pub pos: nat,
    pub len: nat,
    pub op: Op,
}

/// The records read from `b` starting at `pos`, one after the other, up to the
/// end of the bytes or to the first place where no record can be read.
pub open spec fn parse_from(b: Seq<u8>, pos: nat) -> Seq<Entry>
    decreases b.len() - pos,
{
    if pos >= b.len() {
        Seq::empty()
    } else {
        match op_decoded(b.skip(pos as int)) {
            Some((op, n)) => if 1 <= n && pos + n <= b.len() {
                seq![Entry { pos, len: n, op }] + parse_from(b, pos + n)
            } else {
                Seq::empty()
            },
            None => Seq::empty(),
        }
    }
}

/// Where reading records from `pos` stops.
pub open spec fn parsed_end_from(b: Seq<u8>, pos: nat) -> nat
    decreases b.len() - pos,
{
    if pos >= b.len() {
        pos
    } else {
        match op_decoded(b.skip(pos as int)) {
            Some((op, n)) => if 1 <= n && pos + n <= b.len() {
                parsed_end_from(b, pos + n)
            } else {
                pos
            },
            None => pos,
        }
    }
}

/// The records of a log, read from its start.
pub open spec fn log_entries(b: Seq<u8>) -> Seq<Entry> {
    parse_from(b, 0)
}

/// Every byte of the log belongs to a record that can be read.
pub open spec fn parses_fully(b: Seq<u8>) -> bool {
    parsed_end_from(b, 0) == b.len()
}

/// The contents after one command.
pub open spec fn apply_op(m: Map<Seq<char>, Seq<char>>, op: Op) -> Map<Seq<char>, Seq<char>> {
    match op {
        Op::Put(k, v) => m.insert(k, v),
        Op::Rm(k) => m.remove(k),
        Op::Get(_) => m,
    }
}

/// The contents that a sequence of records stands for, replayed from the first.
pub open spec fn contents(es: Seq<Entry>) -> Map<Seq<char>, Seq<char>>
    decreases es.len(),
{
    if es.len() == 0 {
        Map::empty()
    } else {
        apply_op(contents(es.drop_last()), es.last().op)
    }
}

/// The contents that the bytes of a log stand for.
pub open spec fn log_contents(b: Seq<u8>) -> Map<Seq<char>, Seq<char>> {
    contents(log_entries(b))
}

/// For each live key, the record of its latest `Put`.
pub open spec fn apply_entry(m: Map<Seq<char>, Entry>, e: Entry) -> Map<Seq<char>, Entry> {
    match e.op {
        Op::Put(k, _) => m.insert(k, e),
        Op::Rm(k) => m.remove(k),
        Op::Get(_) => m,
    }
}

pub open spec fn latest(es: Seq<Entry>) -> Map<Seq<char>, Entry>
    decreases es.len(),
{
    if es.len() == 0 {
        Map::empty()
    } else {
        apply_entry(latest(es.drop_last()), es.last())
    }
}

/// For each live key, the offset of its latest `Put`: what the index holds.
pub open spec fn offsets(es: Seq<Entry>) -> Map<Seq<char>, u64> {
    latest(es).map_values(|e: Entry| e.pos as u64)
}

/// A record survives compaction when it is the latest `Put` of a live key.
pub open spec fn keeps(last: Map<Seq<char>, Entry>, e: Entry) -> bool {
    e.op matches Op::Put(k, _) && last.contains_key(k) && last[k].pos == e.pos
}

pub open spec fn kept(es: Seq<Entry>, last: Map<Seq<char>, Entry>) -> Seq<Entry>
    decreases es.len(),
{
    if es.len() == 0 {
        Seq::empty()
    } else if keeps(last, es.last()) {
        kept(es.drop_last(), last).push(es.last())
    } else {
        kept(es.drop_last(), last)
    }
}

/// The records that compaction keeps, in the order in which they were written.
pub open spec fn survivors(es: Seq<Entry>) -> Seq<Entry> {
    kept(es, latest(es))
}

/// The bytes of a sequence of records written one after the other.
pub open spec fn records_bytes(es: Seq<Entry>) -> Seq<u8>
    decreases es.len(),
{
    if es.len() == 0 {
        Seq::empty()
    } else {
        records_bytes(es.drop_last()) + op_bytes(es.last().op)
    }
}

/// The log that compacting `b` writes.
pub open spec fn compacted_log(b: Seq<u8>) -> Seq<u8> {
    records_bytes(survivors(log_entries(b)))
}

/// Every record lies inside the log and can be read back at its offset.
pub open spec fn entries_valid(b: Seq<u8>, es: Seq<Entry>) -> bool {
    forall|i: int|
        0 <= i < es.len() ==> {
            &&& #[trigger] es[i].pos + es[i].len <= b.len()
            &&& es[i].len >= 1
            &&& delimits(b.subrange(es[i].pos as int, (es[i].pos + es[i].len) as int), es[i].op)
        }
}

/// The records follow each other without gaps from offset 0 to `end`.
pub open spec fn contiguous(es: Seq<Entry>, end: nat) -> bool {
    &&& es.len() == 0 ==> end == 0
    &&& es.len() > 0 ==> es[0].pos == 0 && es.last().pos + es.last().len == end
    &&& forall|i: int, j: int|
        #![trigger es[i], es[j]]
        0 <= i && j == i + 1 && j < es.len() ==> es[i].pos + es[i].len == es[j].pos
}

} // verus!

verus! {

/// The latest `Put` of each key is a record of the sequence, and it carries
/// the key's current value.
pub proof fn lemma_latest(es: Seq<Entry>)
    ensures
        forall|k: Seq<char>| #[trigger]
            latest(es).contains_key(k) == contents(es).contains_key(k),
        forall|k: Seq<char>| #[trigger]
            latest(es).contains_key(k) ==> latest(es)[k].op == Op::Put(k, contents(es)[k]),
        forall|k: Seq<char>| #[trigger]
            latest(es).contains_key(k) ==> exists|j: int|
                0 <= j < es.len() && es[j] == latest(es)[k],
    decreases es.len(),
{
    if es.len() > 0 {
        let pre = es.drop_last();
        lemma_latest(pre);
        let e = es.last();
        assert forall|k: Seq<char>| #[trigger] latest(es).contains_key(k) implies exists|j: int|
            0 <= j < es.len() && es[j] == latest(es)[k] by {
            let from_last = match e.op {
                Op::Put(kk, _) => kk == k,
                _ => false,
            };
            if from_last {
                assert(es[es.len() - 1] == latest(es)[k]);
            } else {
                assert(latest(pre).contains_key(k));
                let j = choose|j: int| 0 <= j < pre.len() && pre[j] == latest(pre)[k];
                assert(es[j] == pre[j]);
            }
        }
    }
}

/// Facts about the records read from a position: they lie in the log, each
/// takes at least one byte, and their offsets grow strictly.
pub proof fn lemma_parse_from(b: Seq<u8>, pos: nat)
    ensures
        forall|i: int|
            0 <= i < parse_from(b, pos).len() ==> {
                &&& pos <= #[trigger] parse_from(b, pos)[i].pos
                &&& parse_from(b, pos)[i].pos + parse_from(b, pos)[i].len <= b.len()
                &&& parse_from(b, pos)[i].len >= 1
            },
        forall|i: int, j: int|
            0 <= i < j < parse_from(b, pos).len() ==> #[trigger] parse_from(b, pos)[i].pos
                < #[trigger] parse_from(b, pos)[j].pos,
    decreases b.len() - pos,
{
    if pos < b.len() {
        match op_decoded(b.skip(pos as int)) {
            Some((op, n)) => {
                if 1 <= n && pos + n <= b.len() {
                    lemma_parse_from(b, pos + n);
                    let tail = parse_from(b, pos + n);
                    let es = parse_from(b, pos);
                    assert(es == seq![Entry { pos, len: n, op }] + tail);
                    assert forall|i: int| 0 <= i < es.len() implies {
                        &&& pos <= #[trigger] es[i].pos
                        &&& es[i].pos + es[i].len <= b.len()
                        &&& es[i].len >= 1
                    } by {
                        if i > 0 {
                            assert(es[i] == tail[i - 1]);
                        }
                    }
                    assert forall|i: int, j: int| 0 <= i < j < es.len() implies #[trigger] es[i].pos
                        < #[trigger] es[j].pos by {
                        assert(es[j] == tail[j - 1]);
                        if i > 0 {
                            assert(es[i] == tail[i - 1]);
                        }
                    }
                }
            },
            None => {},
        }
    }
}

/// Replaying records depends only on their commands.
pub proof fn lemma_contents_same_ops(a: Seq<Entry>, b: Seq<Entry>)
    requires
        a.len() == b.len(),
        forall|i: int| 0 <= i < a.len() ==> #[trigger] a[i].op == b[i].op,
    ensures
        contents(a) == contents(b),
    decreases a.len(),
{
    if a.len() > 0 {
        lemma_contents_same_ops(a.drop_last(), b.drop_last());
        assert(a.last().op == b[b.len() - 1].op);
    }
}

proof fn lemma_kept_prefix(es: Seq<Entry>, i: int)
    requires
        0 <= i <= es.len(),
        forall|a: int, b: int| 0 <= a < b < es.len() ==> #[trigger] es[a].pos < #[trigger] es[b].pos,
    ensures
        forall|k: Seq<char>| #[trigger]
            contents(kept(es.take(i), latest(es))).contains_key(k) == (latest(es).contains_key(k)
                && exists|j: int| 0 <= j < i && es[j] == latest(es)[k]),
        forall|k: Seq<char>| #[trigger]
            contents(kept(es.take(i), latest(es))).contains_key(k) ==> contents(
                kept(es.take(i), latest(es)),
            )[k] == contents(es)[k],
    decreases i,
{
    let l = latest(es);
    lemma_latest(es);
    if i > 0 {
        lemma_kept_prefix(es, i - 1);
        let pre = es.take(i - 1);
        let cur = es.take(i);
        assert(cur.drop_last() =~= pre);
        assert(cur.last() == es[i - 1]);
        let e = es[i - 1];
        let kp = kept(pre, l);
        if keeps(l, e) {
            let (k0, v0) = match e.op {
                Op::Put(k, v) => (k, v),
                _ => (Seq::empty(), Seq::empty()),
            };
            let j0 = choose|j: int| 0 <= j < es.len() && es[j] == l[k0];
            if j0 != i - 1 {
                if j0 < i - 1 {
                    assert(es[j0].pos < es[i - 1].pos);
                } else {
                    assert(es[i - 1].pos < es[j0].pos);
                }
            }
            assert(l[k0] == e);
            assert(kept(cur, l) == kp.push(e));
            assert(kp.push(e).drop_last() =~= kp);
            assert(contents(kept(cur, l)) == contents(kp).insert(k0, v0));
            assert forall|k: Seq<char>| #[trigger]
                contents(kept(cur, l)).contains_key(k) == (l.contains_key(k) && exists|j: int|
                    0 <= j < i && es[j] == l[k]) by {
                if k == k0 {
                    assert(es[i - 1] == l[k]);
                } else {
                    if l.contains_key(k) && exists|j: int| 0 <= j < i && es[j] == l[k] {
                        let j = choose|j: int| 0 <= j < i && es[j] == l[k];
                        if j == i - 1 {
                            assert(l[k].op == Op::Put(k, contents(es)[k]));
                        }
                        assert(0 <= j < i - 1 && es[j] == l[k]);
                    }
                    if contents(kp).contains_key(k) {
                        let j = choose|j: int| 0 <= j < i - 1 && es[j] == l[k];
                        assert(0 <= j < i && es[j] == l[k]);
                    }
                }
            }
        } else {
            assert(kept(cur, l) == kp);
            assert forall|k: Seq<char>| #[trigger]
                contents(kept(cur, l)).contains_key(k) == (l.contains_key(k) && exists|j: int|
                    0 <= j < i && es[j] == l[k]) by {
                if l.contains_key(k) && exists|j: int| 0 <= j < i && es[j] == l[k] {
                    let j = choose|j: int| 0 <= j < i && es[j] == l[k];
                    if j == i - 1 {
                        assert(l[k].op == Op::Put(k, contents(es)[k]));
                        assert(keeps(l, e));
                    }
                    assert(0 <= j < i - 1 && es[j] == l[k]);
                }
                if contents(kp).contains_key(k) {
                    let j = choose|j: int| 0 <= j < i - 1 && es[j] == l[k];
                    assert(0 <= j < i && es[j] == l[k]);
                }
            }
        }
    }
}

/// Compaction keeps the contents: the surviving records stand for the same
/// contents as all the records, where offsets grow strictly.
pub proof fn lemma_survivors_contents(es: Seq<Entry>)
    requires
        forall|a: int, b: int| 0 <= a < b < es.len() ==> #[trigger] es[a].pos < #[trigger] es[b].pos,
    ensures
        contents(survivors(es)) == contents(es),
{
    lemma_kept_prefix(es, es.len() as int);
    lemma_latest(es);
    assert(es.take(es.len() as int) =~= es);
    let a = contents(survivors(es));
    let c = contents(es);
    assert forall|k: Seq<char>| #[trigger] a.contains_key(k) == c.contains_key(k) by {
        if latest(es).contains_key(k) {
            let j = choose|j: int| 0 <= j < es.len() && es[j] == latest(es)[k];
            assert(0 <= j < es.len() && es[j] == latest(es)[k]);
        }
    }
    assert(a =~= c);
}

proof fn lemma_contiguous_parse_from(b: Seq<u8>, es: Seq<Entry>, i: int)
    requires
        contiguous(es, b.len()),
        entries_valid(b, es),
        0 <= i <= es.len(),
    ensures
        ({
            let start: nat = if i < es.len() { es[i].pos } else { b.len() };
            &&& parse_from(b, start) == es.skip(i)
            &&& parsed_end_from(b, start) == b.len()
        }),
    decreases es.len() - i,
{
    if i < es.len() {
        lemma_contiguous_parse_from(b, es, i + 1);
        let p = es[i].pos;
        let n = es[i].len;
        let span = b.subrange(p as int, (p + n) as int);
        assert(b.skip(p as int) =~= span + b.skip((p + n) as int));
        assert(op_decoded(span + b.skip((p + n) as int)) == Some((es[i].op, span.len())));
        if i + 1 < es.len() {
            let j = i + 1;
            assert(es[i].pos + es[i].len == es[j].pos);
        }
        assert(es.skip(i) =~= seq![es[i]] + es.skip(i + 1));
    }
}

/// A log whose records follow each other without gaps reads back as exactly
/// those records, to its last byte.
pub proof fn lemma_contiguous_parse(b: Seq<u8>, es: Seq<Entry>)
    requires
        contiguous(es, b.len()),
        entries_valid(b, es),
    ensures
        log_entries(b) == es,
        parses_fully(b),
{
    lemma_contiguous_parse_from(b, es, 0);
    assert(es.skip(0) =~= es);
}

} // verus!

verus! {

/// The key of a command.
pub open spec fn op_key(op: Op) -> Seq<char> {
    match op {
        Op::Put(k, _) => k,
        Op::Get(k) => k,
        Op::Rm(k) => k,
    }
}

/// Every record is a `Put`, and no two of them are for the same key.
pub open spec fn distinct_puts(es: Seq<Entry>) -> bool {
    &&& forall|i: int| 0 <= i < es.len() ==> #[trigger] es[i].op is Put
    &&& forall|i: int, j: int|
        #![trigger es[i], es[j]]
        0 <= i < j < es.len() ==> op_key(es[i].op) != op_key(es[j].op)
}

/// The bytes of records written one after the other depend only on their commands.
pub proof fn lemma_records_bytes_same_ops(a: Seq<Entry>, b: Seq<Entry>)
    requires
        a.len() == b.len(),
        forall|i: int| 0 <= i < a.len() ==> #[trigger] a[i].op == b[i].op,
    ensures
        records_bytes(a) == records_bytes(b),
    decreases a.len(),
{
    if a.len() > 0 {
        lemma_records_bytes_same_ops(a.drop_last(), b.drop_last());
        assert(a.last().op == b[b.len() - 1].op);
    }
}

proof fn lemma_distinct_puts_latest(es: Seq<Entry>)
    requires
        distinct_puts(es),
    ensures
        forall|i: int| 0 <= i < es.len() ==> #[trigger] latest(es).contains_key(op_key(es[i].op))
            && latest(es)[op_key(es[i].op)] == es[i],
    decreases es.len(),
{
    if es.len() > 0 {
        let pre = es.drop_last();
        assert forall|i: int| 0 <= i < pre.len() implies #[trigger] pre[i].op is Put by {
            assert(pre[i] == es[i]);
        }
        assert forall|i: int, j: int| #![trigger pre[i], pre[j]] 0 <= i < j < pre.len() implies op_key(pre[i].op) != op_key(pre[j].op) by {
            assert(pre[i] == es[i]);
            assert(pre[j] == es[j]);
        }
        lemma_distinct_puts_latest(pre);
        let n = es.len() - 1;
        assert(es[n].op is Put);
        assert(latest(es) == apply_entry(latest(pre), es[n]));
        let kn = op_key(es[n].op);
        assert(latest(es) == latest(pre).insert(kn, es[n]));
        assert forall|i: int| 0 <= i < es.len() implies #[trigger] latest(es).contains_key(op_key(es[i].op))
            && latest(es)[op_key(es[i].op)] == es[i] by {
            if i < n {
                assert(pre[i] == es[i]);
                assert(op_key(es[i].op) != op_key(es[n].op));
            }
        }
    }
}

proof fn lemma_all_kept(es: Seq<Entry>, last: Map<Seq<char>, Entry>)
    requires
        forall|i: int| 0 <= i < es.len() ==> keeps(last, #[trigger] es[i]),
    ensures
        kept(es, last) == es,
    decreases es.len(),
{
    if es.len() > 0 {
        let pre = es.drop_last();
        assert forall|i: int| 0 <= i < pre.len() implies keeps(last, #[trigger] pre[i]) by {
            assert(pre[i] == es[i]);
        }
        lemma_all_kept(pre, last);
        assert(keeps(last, es[es.len() - 1]));
        assert(pre.push(es.last()) =~= es);
    }
}

/// Records that are `Put`s of distinct keys all survive a compaction.
pub proof fn lemma_distinct_puts_survive(es: Seq<Entry>)
    requires
        distinct_puts(es),
    ensures
        survivors(es) == es,
{
    lemma_distinct_puts_latest(es);
    assert forall|i: int| 0 <= i < es.len() implies keeps(latest(es), #[trigger] es[i]) by {
        assert(es[i].op is Put);
        assert(latest(es).contains_key(op_key(es[i].op)));
    }
    lemma_all_kept(es, latest(es));
}

} // verus!
