//! Optimistic transactions: snapshot reads, buffered writes, and the
//! first-committer-wins validation set.
//!
//! Validation covers every written (and `get_for_update`-ed) key, tombstones
//! included: any committed version newer than the transaction's snapshot
//! aborts the commit.

use vstd::prelude::*;

use crate::batch::BatchOp;
use crate::commit::QueuedEntry;
use crate::error::{invalid, Error, Result};
use crate::order::{bytes_eq, bytes_le, bytes_lt, to_bytes};
use crate::types::{validate_user_key, SeqNo};

verus! {

use crate::batch::{ops_view, Op};
use crate::order::{
    lemma_lex_asymmetric, lemma_lex_irreflexive, lemma_lex_total, lemma_lex_transitive, lex_le,
    lex_lt,
};
use crate::types::is_user_key;

/// A buffered write: a value to put, or nothing for a delete.
pub type Buffered = (Vec<u8>, Option<Vec<u8>>);

/// The same over plain bytes.
pub type Edit = (Seq<u8>, Option<Seq<u8>>);

pub open spec fn edit_of(b: Buffered) -> Edit {
    (
        b.0@,
        match b.1 {
            Some(v) => Some(v@),
            None => None,
        },
    )
}

pub open spec fn edits_view(ws: Seq<Buffered>) -> Seq<Edit> {
    ws.map_values(|b: Buffered| edit_of(b))
}

/// Keys in strictly ascending order.
pub open spec fn keys_ascend(es: Seq<Edit>) -> bool {
    forall|i: int, j: int| 0 <= i < j < es.len() ==> lex_lt((#[trigger] es[i]).0, (#[trigger] es[j]).0)
}

/// The edit of the key, if there is one.
pub open spec fn edit_on(es: Seq<Edit>, key: Seq<u8>) -> Option<Option<Seq<u8>>>
    decreases es.len(),
{
    if es.len() == 0 {
        None
    } else if es.last().0 == key {
        Some(es.last().1)
    } else {
        edit_on(es.drop_last(), key)
    }
}

/// `new_es` edits `key` to `v`, and every other key as `old_es` does.
pub open spec fn edited(old_es: Seq<Edit>, key: Seq<u8>, v: Option<Seq<u8>>, new_es: Seq<Edit>) -> bool {
    &&& keys_ascend(new_es)
    &&& edit_on(new_es, key) == Some(v)
    &&& forall|k: Seq<u8>| k != key ==> #[trigger] edit_on(new_es, k) == edit_on(old_es, k)
}

proof fn lemma_edit_at(es: Seq<Edit>, i: int)
    requires
        keys_ascend(es),
        0 <= i < es.len(),
    ensures
        edit_on(es, es[i].0) == Some(es[i].1),
    decreases es.len(),
{
    if i < es.len() - 1 {
        let t = es.drop_last();
        assert(lex_lt(es[i].0, es[es.len() - 1].0));
        lemma_lex_irreflexive(es[i].0);
        assert forall|a: int, b: int| 0 <= a < b < t.len() implies lex_lt(
            (#[trigger] t[a]).0,
            (#[trigger] t[b]).0,
        ) by {
            assert(lex_lt(es[a].0, es[b].0));
        }
        lemma_edit_at(t, i);
        assert(t[i] == es[i]);
    }
}

proof fn lemma_no_edit(es: Seq<Edit>, key: Seq<u8>)
    requires
        forall|i: int| 0 <= i < es.len() ==> (#[trigger] es[i]).0 != key,
    ensures
        edit_on(es, key) is None,
    decreases es.len(),
{
    if es.len() > 0 {
        assert(es[es.len() - 1].0 != key);
        assert forall|i: int| 0 <= i < es.drop_last().len() implies (
        #[trigger] es.drop_last()[i]).0 != key by {
            assert(es[i].0 != key);
        }
        lemma_no_edit(es.drop_last(), key);
    }
}

/// An edit exists exactly where the list has it.
pub proof fn lemma_edit_found(es: Seq<Edit>, key: Seq<u8>)
    requires
        keys_ascend(es),
    ensures
        match edit_on(es, key) {
            Some(v) => es.contains((key, v)),
            None => forall|i: int| 0 <= i < es.len() ==> (#[trigger] es[i]).0 != key,
        },
{
    if exists|i: int| 0 <= i < es.len() && (#[trigger] es[i]).0 == key {
        let i = choose|i: int| 0 <= i < es.len() && (#[trigger] es[i]).0 == key;
        lemma_edit_at(es, i);
        assert(es[i] == (key, es[i].1));
    } else {
        lemma_no_edit(es, key);
    }
}

/// Two lists with the same keys' edits where the lists agree.
proof fn lemma_edit_same(a: Seq<Edit>, b: Seq<Edit>, key: Seq<u8>)
    requires
        keys_ascend(a),
        keys_ascend(b),
        forall|e: Edit| e.0 == key ==> (#[trigger] a.contains(e) <==> b.contains(e)),
    ensures
        edit_on(a, key) == edit_on(b, key),
{
    lemma_edit_found(a, key);
    lemma_edit_found(b, key);
    match edit_on(a, key) {
        Some(v) => {
            assert(a.contains((key, v)));
            assert(b.contains((key, v)));
            let i = choose|i: int| 0 <= i < b.len() && b[i] == (key, v);
            lemma_edit_at(b, i);
        },
        None => {
            if let Some(v) = edit_on(b, key) {
                assert(b.contains((key, v)));
                assert(a.contains((key, v)));
                let i = choose|i: int| 0 <= i < a.len() && a[i] == (key, v);
                assert(a[i].0 != key);
            }
        },
    }
}

/// The first edit whose key is not below `key`.
fn place_of(ws: &Vec<Buffered>, key: &[u8]) -> (n: usize)
    requires
        keys_ascend(edits_view(ws@)),
    ensures
        n <= ws@.len(),
        forall|i: int| 0 <= i < n ==> lex_lt((#[trigger] ws@[i]).0@, key@),
        forall|i: int| n <= i < ws@.len() ==> lex_le(key@, (#[trigger] ws@[i]).0@),
{
    let mut n: usize = 0;
    while n < ws.len()
        invariant
            keys_ascend(edits_view(ws@)),
            n <= ws@.len(),
            forall|i: int| 0 <= i < n ==> lex_lt((#[trigger] ws@[i]).0@, key@),
        decreases ws@.len() - n,
    {
        if !bytes_lt(ws[n].0.as_slice(), key) {
            proof {
                let es = edits_view(ws@);
                lemma_lex_total(ws@[n as int].0@, key@);
                assert forall|i: int| n <= i < ws@.len() implies lex_le(
                    key@,
                    (#[trigger] ws@[i]).0@,
                ) by {
                    if i > n {
                        assert(es[n as int].0 == ws@[n as int].0@);
                        assert(es[i].0 == ws@[i].0@);
                        assert(lex_lt(es[n as int].0, es[i].0));
                        if key@ != ws@[n as int].0@ {
                            lemma_lex_transitive(key@, es[n as int].0, es[i].0);
                        }
                    }
                }
            }
            return n;
        }
        n += 1;
    }
    n
}

/// Buffer a write, replacing an earlier one on the key.
fn put_edit(ws: &mut Vec<Buffered>, key: Vec<u8>, v: Option<Vec<u8>>)
    requires
        keys_ascend(edits_view(old(ws)@)),
    ensures
        edited(edits_view(old(ws)@), key@, edit_of((key, v)).1, edits_view(final(ws)@)),
{
    let n: usize = place_of(ws, key.as_slice());
    let ghost es = edits_view(ws@);
    let ghost e = edit_of((key, v));
    let ghost w0 = ws@;
    if n < ws.len() && bytes_eq(ws[n].0.as_slice(), key.as_slice()) {
        ws.set(n, (key, v));
        proof {
            let es2 = edits_view(ws@);
            assert(es2 =~= es.update(n as int, e));
            assert(es[n as int].0 == e.0);
            assert(keys_ascend(es2)) by {
                assert forall|i: int, j: int| 0 <= i < j < es2.len() implies lex_lt(
                    (#[trigger] es2[i]).0,
                    (#[trigger] es2[j]).0,
                ) by {
                    assert(lex_lt(es[i].0, es[j].0));
                }
            }
            lemma_edit_at(es2, n as int);
            assert forall|k: Seq<u8>| k != e.0 implies #[trigger] edit_on(es2, k) == edit_on(es, k) by {
                assert forall|x: Edit| x.0 == k implies (#[trigger] es2.contains(x) <==> es.contains(
                    x,
                )) by {
                    if es2.contains(x) {
                        let i = choose|i: int| 0 <= i < es2.len() && es2[i] == x;
                        assert(es[i] == x);
                    }
                    if es.contains(x) {
                        let i = choose|i: int| 0 <= i < es.len() && es[i] == x;
                        assert(es2[i] == x);
                    }
                }
                lemma_edit_same(es2, es, k);
            }
        }
    } else {
        ws.insert(n, (key, v));
        proof {
            let es2 = edits_view(ws@);
            assert(es2 =~= es.insert(n as int, e));
            assert(keys_ascend(es2)) by {
                assert forall|i: int, j: int| 0 <= i < j < es2.len() implies lex_lt(
                    (#[trigger] es2[i]).0,
                    (#[trigger] es2[j]).0,
                ) by {
                    let a = if i < n {
                        i
                    } else {
                        i - 1
                    };
                    let b = if j < n {
                        j
                    } else {
                        j - 1
                    };
                    if i != n && j != n {
                        assert(lex_lt(es[a].0, es[b].0));
                    } else if i == n {
                        assert(lex_le(key@, w0[b].0@));
                        assert(es[b].0 == w0[b].0@);
                        if b == n {
                            assert(w0[n as int].0@ != key@);
                        } else {
                            assert(lex_lt(es[n as int].0, es[b].0));
                            assert(lex_le(key@, w0[n as int].0@));
                            assert(es[n as int].0 == w0[n as int].0@);
                            lemma_lex_irreflexive(key@);
                            if key@ == w0[b].0@ {
                                lemma_lex_asymmetric(es[n as int].0, es[b].0);
                            }
                        }
                    } else {
                        assert(lex_lt(w0[a].0@, key@));
                        assert(es[a].0 == w0[a].0@);
                    }
                }
            }
            assert(es2[n as int] == e);
            lemma_edit_at(es2, n as int);
            assert forall|k: Seq<u8>| k != e.0 implies #[trigger] edit_on(es2, k) == edit_on(es, k) by {
                assert forall|x: Edit| x.0 == k implies (#[trigger] es2.contains(x) <==> es.contains(
                    x,
                )) by {
                    if es2.contains(x) {
                        let i = choose|i: int| 0 <= i < es2.len() && es2[i] == x;
                        let a = if i < n {
                            i
                        } else {
                            i - 1
                        };
                        assert(es[a] == x);
                    }
                    if es.contains(x) {
                        let i = choose|i: int| 0 <= i < es.len() && es[i] == x;
                        let a = if i < n {
                            i
                        } else {
                            i + 1
                        };
                        assert(es2[a] == x);
                    }
                }
                lemma_edit_same(es2, es, k);
            }
        }
    }
}

/// Bounds on what a transaction buffers.
#[derive(Clone, Copy)]
pub struct TxnLimits {
    pub max_key_size: usize,
    pub max_value_size: usize,
    pub max_txn_write_bytes: usize,
}

/// A transaction: what it read from, what it wrote, and what it locked.
pub struct Txn {
    pub snap: SeqNo,
    /// key -> Some(value) for puts, None for deletes, by ascending key.
    pub writes: Vec<Buffered>,
    /// Keys whose reads must still be the newest committed version at commit
    /// time, by ascending key; a lock writes nothing.
    pub locks: Vec<Buffered>,
    pub bytes: usize,
    pub limits: TxnLimits,
    /// Engine-internal transaction (the trigger runner): its commit fires no
    /// triggers, so trigger invocations can never cascade.
    pub system: bool,
}

/// Where a transaction's read is answered.
pub enum TxnRead {
    /// By its own buffered write.
    Own(Option<Vec<u8>>),
    /// By the store, at this seqno.
    At(SeqNo),
}

pub open spec fn sat_total(a: usize, b: int) -> int {
    if a + b <= usize::MAX {
        a + b
    } else {
        usize::MAX as int
    }
}

impl Txn {
    pub open spec fn wf(self) -> bool {
        keys_ascend(edits_view(self.writes@)) && keys_ascend(edits_view(self.locks@))
    }

    /// What the transaction wrote to the key, if it did.
    pub open spec fn own(self, key: Seq<u8>) -> Option<Option<Seq<u8>>> {
        edit_on(edits_view(self.writes@), key)
    }

    pub open spec fn locked(self, key: Seq<u8>) -> bool {
        edit_on(edits_view(self.locks@), key) is Some
    }

    /// Everything but the writes and their bytes stays.
    pub open spec fn same_but_writes(self, t: Txn) -> bool {
        self.snap == t.snap && self.locks == t.locks && self.limits == t.limits && self.system
            == t.system
    }

    pub fn new(snap: SeqNo, limits: TxnLimits) -> (t: Txn)
        ensures
            t.wf(),
            t.snap == snap,
            t.writes@.len() == 0,
            t.locks@.len() == 0,
            t.bytes == 0,
            t.limits == limits,
            !t.system,
    {
        Txn { snap, writes: Vec::new(), locks: Vec::new(), bytes: 0, limits, system: false }
    }

    /// Mark this transaction as engine-internal: its commit generates no
    /// trigger events.
    pub fn mark_system(&mut self)
        ensures
            final(self).system,
            final(self).snap == old(self).snap,
            final(self).writes == old(self).writes,
            final(self).locks == old(self).locks,
            final(self).bytes == old(self).bytes,
            final(self).limits == old(self).limits,
    {
        self.system = true;
    }

    /// Count more buffered bytes. They stay counted even where the limit is
    /// passed.
    fn track_bytes(&mut self, n: usize) -> (r: Result<()>)
        ensures
            final(self).bytes == sat_total(old(self).bytes, n as int),
            final(self).writes == old(self).writes,
            final(self).same_but_writes(*old(self)),
            r is Ok <==> final(self).bytes <= old(self).limits.max_txn_write_bytes,
            r matches Err(e) ==> e is InvalidArgument,
    {
        self.bytes = self.bytes.saturating_add(n);
        if self.bytes > self.limits.max_txn_write_bytes {
            return Err(invalid("transaction write set exceeds max_txn_write_bytes"));
        }
        Ok(())
    }

    /// Buffer a reserved-keyspace delete (trigger queue consumption). The key
    /// joins the commit's conflict set like any write, which is what makes
    /// consuming an event safe against a concurrent re-touch.
    pub fn sys_delete(&mut self, key: Vec<u8>) -> (r: Result<()>)
        requires
            old(self).wf(),
        ensures
            final(self).wf(),
            final(self).same_but_writes(*old(self)),
            final(self).bytes == sat_total(old(self).bytes, key@.len() as int),
            r matches Err(e) ==> e is InvalidArgument,
            if final(self).bytes <= old(self).limits.max_txn_write_bytes {
                &&& r is Ok
                &&& edited(
                    edits_view(old(self).writes@),
                    key@,
                    None,
                    edits_view(final(self).writes@),
                )
            } else {
                r is Err && final(self).writes == old(self).writes
            },
    {
        self.track_bytes(key.len())?;
        put_edit(&mut self.writes, key, None);
        Ok(())
    }

    pub fn snapshot_seqno(&self) -> (s: SeqNo)
        ensures
            s == self.snap,
    {
        self.snap
    }

    /// Read a key: the transaction sees its own writes, and otherwise the
    /// store at its snapshot.
    pub fn get(&self, key: &[u8]) -> (r: Result<TxnRead>)
        requires
            self.wf(),
        ensures
            if is_user_key(key@) {
                match self.own(key@) {
                    Some(Some(v)) => r matches Ok(TxnRead::Own(Some(x))) && x@ == v,
                    Some(None) => r matches Ok(TxnRead::Own(None)),
                    None => r matches Ok(TxnRead::At(s)) && s == self.snap,
                }
            } else {
                r matches Err(Error::InvalidArgument(_))
            },
    {
        validate_user_key(key)?;
        let n: usize = place_of(&self.writes, key);
        let ghost es = edits_view(self.writes@);
        if n < self.writes.len() && bytes_eq(self.writes[n].0.as_slice(), key) {
            proof {
                lemma_edit_at(es, n as int);
                assert(es[n as int] == edit_of(self.writes@[n as int]));
            }
            return Ok(
                TxnRead::Own(
                    match &self.writes[n].1 {
                        Some(v) => Some(to_bytes(v.as_slice())),
                        None => None,
                    },
                ),
            );
        }
        proof {
            assert forall|i: int| 0 <= i < es.len() implies (#[trigger] es[i]).0 != key@ by {
                assert(es[i].0 == self.writes@[i].0@);
                if i < n {
                    lemma_lex_irreflexive(key@);
                } else if i > n {
                    assert(lex_lt(es[n as int].0, es[i].0));
                    assert(lex_le(key@, self.writes@[n as int].0@));
                    assert(es[n as int].0 == self.writes@[n as int].0@);
                    lemma_lex_irreflexive(key@);
                    if key@ == es[i].0 {
                        lemma_lex_asymmetric(es[n as int].0, es[i].0);
                    }
                }
            }
            lemma_no_edit(es, key@);
        }
        Ok(TxnRead::At(self.snap))
    }

    /// Read a key and add it to the conflict set: commit fails if anyone else
    /// writes (or deletes) it after this transaction's snapshot.
    pub fn get_for_update(&mut self, key: &[u8]) -> (r: Result<TxnRead>)
        requires
            old(self).wf(),
        ensures
            final(self).wf(),
            final(self).writes == old(self).writes,
            final(self).bytes == old(self).bytes,
            final(self).snap == old(self).snap,
            final(self).limits == old(self).limits,
            final(self).system == old(self).system,
            if is_user_key(key@) {
                &&& edited(
                    edits_view(old(self).locks@),
                    key@,
                    None,
                    edits_view(final(self).locks@),
                )
                &&& match old(self).own(key@) {
                    Some(Some(v)) => r matches Ok(TxnRead::Own(Some(x))) && x@ == v,
                    Some(None) => r matches Ok(TxnRead::Own(None)),
                    None => r matches Ok(TxnRead::At(s)) && s == old(self).snap,
                }
            } else {
                r matches Err(Error::InvalidArgument(_)) && final(self).locks == old(self).locks
            },
    {
        validate_user_key(key)?;
        put_edit(&mut self.locks, to_bytes(key), None);
        self.get(key)
    }

    /// Buffer a put.
    pub fn put(&mut self, key: Vec<u8>, value: Vec<u8>) -> (r: Result<()>)
        requires
            old(self).wf(),
        ensures
            final(self).wf(),
            final(self).same_but_writes(*old(self)),
            r matches Err(e) ==> e is InvalidArgument,
            if !is_user_key(key@) || key@.len() > old(self).limits.max_key_size || value@.len()
                > old(self).limits.max_value_size {
                r is Err && final(self).writes == old(self).writes && final(self).bytes == old(
                    self,
                ).bytes
            } else {
                &&& final(self).bytes == sat_total(
                    old(self).bytes,
                    (key@.len() + value@.len()) as int,
                )
                &&& if final(self).bytes <= old(self).limits.max_txn_write_bytes {
                    r is Ok && edited(
                        edits_view(old(self).writes@),
                        key@,
                        Some(value@),
                        edits_view(final(self).writes@),
                    )
                } else {
                    r is Err && final(self).writes == old(self).writes
                }
            },
    {
        validate_user_key(key.as_slice())?;
        if key.len() > self.limits.max_key_size || value.len() > self.limits.max_value_size {
            return Err(invalid("key or value too large"));
        }
        self.track_bytes(key.len().saturating_add(value.len()))?;
        put_edit(&mut self.writes, key, Some(value));
        Ok(())
    }

    /// Buffer a delete.
    pub fn delete(&mut self, key: Vec<u8>) -> (r: Result<()>)
        requires
            old(self).wf(),
        ensures
            final(self).wf(),
            final(self).same_but_writes(*old(self)),
            r matches Err(e) ==> e is InvalidArgument,
            if !is_user_key(key@) {
                r is Err && final(self).writes == old(self).writes && final(self).bytes == old(
                    self,
                ).bytes
            } else {
                &&& final(self).bytes == sat_total(old(self).bytes, key@.len() as int)
                &&& if final(self).bytes <= old(self).limits.max_txn_write_bytes {
                    r is Ok && edited(
                        edits_view(old(self).writes@),
                        key@,
                        None,
                        edits_view(final(self).writes@),
                    )
                } else {
                    r is Err && final(self).writes == old(self).writes
                }
            },
    {
        validate_user_key(key.as_slice())?;
        self.track_bytes(key.len())?;
        put_edit(&mut self.writes, key, None);
        Ok(())
    }

    pub fn write_set_len(&self) -> (n: usize)
        ensures
            n == self.writes@.len(),
    {
        self.writes.len()
    }

    /// What the commit queues: the writes by ascending key, validated at the
    /// snapshot over every written and every locked key. Nothing at all where
    /// nothing was written or locked.
    pub fn commit(self) -> (r: Option<QueuedEntry>)
        ensures
            match r {
                None => self.writes@.len() == 0 && self.locks@.len() == 0,
                Some(q) => {
                    &&& self.writes@.len() + self.locks@.len() > 0
                    &&& ops_view(q.ops@) == edit_ops(edits_view(self.writes@))
                    &&& q.ops@.len() == self.writes@.len()
                    &&& forall|i: int|
                        0 <= i < self.writes@.len() ==> match self.writes@[i].1 {
                            Some(v) => #[trigger] q.ops@[i] matches BatchOp::Put { key, value }
                                && key@ == self.writes@[i].0@ && value@ == v@,
                            None => q.ops@[i] matches BatchOp::Delete { key } && key@
                                == self.writes@[i].0@,
                        }
                    &&& q@.validate == Some(
                        (
                            self.snap,
                            edit_keys(edits_view(self.writes@)) + edit_keys(
                                edits_view(self.locks@),
                            ),
                        ),
                    )
                },
            },
    {
        if self.writes.len() == 0 && self.locks.len() == 0 {
            return None;
        }
        let ghost we = edits_view(self.writes@);
        let ghost le = edits_view(self.locks@);
        let mut ops: Vec<BatchOp> = Vec::new();
        let mut keys: Vec<Vec<u8>> = Vec::new();
        let mut i: usize = 0;
        proof {
            assert(ops_view(ops@) =~= edit_ops(we).take(0));
            assert(keys@.map_values(|k: Vec<u8>| k@) =~= edit_keys(we).take(0));
        }
        while i < self.writes.len()
            invariant
                i <= self.writes@.len(),
                we == edits_view(self.writes@),
                ops_view(ops@) == edit_ops(we).take(i as int),
                ops@.len() == i,
                forall|k: int|
                    0 <= k < i ==> match self.writes@[k].1 {
                        Some(v) => #[trigger] ops@[k] matches BatchOp::Put { key, value } && key@
                            == self.writes@[k].0@ && value@ == v@,
                        None => ops@[k] matches BatchOp::Delete { key } && key@
                            == self.writes@[k].0@,
                    },
                keys@.map_values(|k: Vec<u8>| k@) == edit_keys(we).take(i as int),
            decreases self.writes@.len() - i,
        {
            let ghost o0 = ops_view(ops@);
            let ghost k0 = keys@.map_values(|k: Vec<u8>| k@);
            let key = to_bytes(self.writes[i].0.as_slice());
            keys.push(to_bytes(self.writes[i].0.as_slice()));
            let op = match &self.writes[i].1 {
                Some(v) => BatchOp::Put { key, value: to_bytes(v.as_slice()) },
                None => BatchOp::Delete { key },
            };
            ops.push(op);
            proof {
                assert(we[i as int] == edit_of(self.writes@[i as int]));
                assert(ops_view(ops@) =~= o0.push(op@));
                assert(edit_ops(we).take(i + 1) =~= edit_ops(we).take(i as int).push(
                    edit_ops(we)[i as int],
                ));
                assert(keys@.map_values(|k: Vec<u8>| k@) =~= k0.push(we[i as int].0));
                assert(edit_keys(we).take(i + 1) =~= edit_keys(we).take(i as int).push(
                    edit_keys(we)[i as int],
                ));
            }
            i += 1;
        }
        let ghost wk = edit_keys(we);
        proof {
            assert(edit_ops(we).take(i as int) =~= edit_ops(we));
            assert(edit_keys(we).take(i as int) =~= wk);
            assert(wk + edit_keys(le).take(0) =~= wk);
        }
        let mut j: usize = 0;
        while j < self.locks.len()
            invariant
                j <= self.locks@.len(),
                le == edits_view(self.locks@),
                keys@.map_values(|k: Vec<u8>| k@) == wk + edit_keys(le).take(j as int),
            decreases self.locks@.len() - j,
        {
            let ghost k0 = keys@.map_values(|k: Vec<u8>| k@);
            keys.push(to_bytes(self.locks[j].0.as_slice()));
            proof {
                assert(le[j as int] == edit_of(self.locks@[j as int]));
                assert(keys@.map_values(|k: Vec<u8>| k@) =~= k0.push(le[j as int].0));
                assert(wk + edit_keys(le).take(j + 1) =~= (wk + edit_keys(le).take(
                    j as int,
                )).push(le[j as int].0));
            }
            j += 1;
        }
        assert(edit_keys(le).take(j as int) =~= edit_keys(le));
        Some(QueuedEntry { ops, validate: Some((self.snap, keys)) })
    }

    /// Discard all buffered writes.
    pub fn rollback(self) {
    }

    /// The buffered writes in `[lo, hi)`, in the order of the scan. Writes made
    /// later are not observed by an iterator that was opened on them.
    pub fn overlay(&self, lo: Option<&[u8]>, hi: Option<&[u8]>, reverse: bool) -> (out: Vec<Buffered>)
        ensures
            edits_view(out@) == ({
                let part = edits_view(self.writes@).filter(
                    |e: Edit| within(e.0, opt(lo), opt(hi)),
                );
                if reverse {
                    part.reverse()
                } else {
                    part
                }
            }),
    {
        let ghost es = edits_view(self.writes@);
        let ghost p = |e: Edit| within(e.0, opt(lo), opt(hi));
        let mut out: Vec<Buffered> = Vec::new();
        let mut i: usize = 0;
        proof {
            reveal(Seq::filter);
            assert(es.take(0) =~= Seq::empty());
            assert(edits_view(out@) =~= es.take(0).filter(p));
        }
        while i < self.writes.len()
            invariant
                i <= self.writes@.len(),
                es == edits_view(self.writes@),
                p == |e: Edit| within(e.0, opt(lo), opt(hi)),
                edits_view(out@) == (if reverse {
                    es.take(i as int).filter(p).reverse()
                } else {
                    es.take(i as int).filter(p)
                }),
            decreases self.writes@.len() - i,
        {
            let ghost f0 = es.take(i as int).filter(p);
            let ghost e = es[i as int];
            proof {
                reveal(Seq::filter);
                assert(es.take(i + 1).drop_last() =~= es.take(i as int));
                assert(es.take(i + 1).last() == e);
                assert(e == edit_of(self.writes@[i as int]));
            }
            let key = self.writes[i].0.as_slice();
            let above: bool = match lo {
                Some(l) => bytes_le(l, key),
                None => true,
            };
            let below: bool = match hi {
                Some(h) => bytes_lt(key, h),
                None => true,
            };
            if above && below {
                let ghost o0 = edits_view(out@);
                let b: Buffered = (
                    to_bytes(key),
                    match &self.writes[i].1 {
                        Some(v) => Some(to_bytes(v.as_slice())),
                        None => None,
                    },
                );
                assert(edit_of(b) == e);
                assert(p(e));
                if reverse {
                    out.insert(0, b);
                    assert(edits_view(out@) =~= seq![e] + o0);
                    assert(f0.push(e).reverse() =~= seq![e] + f0.reverse());
                } else {
                    out.push(b);
                    assert(edits_view(out@) =~= o0.push(e));
                }
            }
            i += 1;
        }
        assert(es.take(i as int) =~= es);
        out
    }
}

pub open spec fn opt(b: Option<&[u8]>) -> Option<Seq<u8>> {
    match b {
        Some(x) => Some(x@),
        None => None,
    }
}

/// The key is in `[lo, hi)`, an absent bound being no bound.
pub open spec fn within(key: Seq<u8>, lo: Option<Seq<u8>>, hi: Option<Seq<u8>>) -> bool {
    (lo matches Some(l) ==> lex_le(l, key)) && (hi matches Some(h) ==> lex_lt(key, h))
}

pub open spec fn edit_op(e: Edit) -> Op {
    match e.1 {
        Some(v) => Op::Put { key: e.0, value: v },
        None => Op::Delete { key: e.0 },
    }
}

pub open spec fn edit_ops(es: Seq<Edit>) -> Seq<Op> {
    es.map_values(|e: Edit| edit_op(e))
}

pub open spec fn edit_keys(es: Seq<Edit>) -> Seq<Seq<u8>> {
    es.map_values(|e: Edit| e.0)
}

// ---------------------------------------------------------------------------
// Scans
// ---------------------------------------------------------------------------

pub type Pair = (Seq<u8>, Seq<u8>);

/// `a` comes no later than `b` in the direction of the scan.
pub open spec fn no_later(a: Seq<u8>, b: Seq<u8>, reverse: bool) -> bool {
    if reverse {
        lex_le(b, a)
    } else {
        lex_le(a, b)
    }
}

/// `a` comes before `b` in the direction of the scan.
pub open spec fn earlier(a: Seq<u8>, b: Seq<u8>, reverse: bool) -> bool {
    if reverse {
        lex_lt(b, a)
    } else {
        lex_lt(a, b)
    }
}

/// What an edit shows: its value, and nothing for a delete.
pub open spec fn shown(e: Edit) -> Seq<Pair> {
    match e.1 {
        Some(v) => seq![(e.0, v)],
        None => Seq::empty(),
    }
}

/// The pairs of the store with the transaction's own edits laid over them.
pub open spec fn overlaid(base: Seq<Pair>, over: Seq<Edit>, reverse: bool) -> Seq<Pair>
    decreases base.len() + over.len(),
{
    if over.len() == 0 {
        base
    } else if base.len() == 0 {
        shown(over[0]) + overlaid(base, over.skip(1), reverse)
    } else if no_later(over[0].0, base[0].0, reverse) {
        shown(over[0]) + overlaid(
            if base[0].0 == over[0].0 {
                base.skip(1)
            } else {
                base
            },
            over.skip(1),
            reverse,
        )
    } else {
        seq![base[0]] + overlaid(base.skip(1), over, reverse)
    }
}

/// A scan of a transaction: the snapshot's pairs, which come in one at a time,
/// with the overlay laid over them.
pub struct TxnIter {
    pub overlay: Vec<Buffered>,
    pub at: usize,
    pub base_peek: Option<(Vec<u8>, Vec<u8>)>,
    pub base_done: bool,
    pub reverse: bool,
}

/// What a scan does next.
pub enum TxnStep {
    /// The next pair of the snapshot is wanted.
    NeedBase,
    Item(Vec<u8>, Vec<u8>),
    End,
}

impl TxnIter {
    pub open spec fn wf(self) -> bool {
        self.at <= self.overlay@.len()
    }

    pub open spec fn peeked(self) -> Seq<Pair> {
        match self.base_peek {
            Some((k, v)) => seq![(k@, v@)],
            None => Seq::empty(),
        }
    }

    /// What the scan still gives, where the snapshot still has `b`.
    pub open spec fn stream(self, b: Seq<Pair>) -> Seq<Pair> {
        overlaid(
            self.peeked() + b,
            edits_view(self.overlay@).skip(self.at as int),
            self.reverse,
        )
    }

    pub fn new(overlay: Vec<Buffered>, reverse: bool) -> (t: Self)
        ensures
            t.wf(),
            !t.base_done,
            t.base_peek is None,
            t.reverse == reverse,
            forall|b: Seq<Pair>| #[trigger]
                t.stream(b) == overlaid(b, edits_view(overlay@), reverse),
    {
        let t = TxnIter { overlay, at: 0, base_peek: None, base_done: false, reverse };
        proof {
            assert(edits_view(overlay@).skip(0) =~= edits_view(overlay@));
            assert forall|b: Seq<Pair>| #[trigger]
                t.stream(b) == overlaid(b, edits_view(overlay@), reverse) by {
                assert(t.peeked() + b =~= b);
            }
        }
        t
    }

    /// The snapshot's next pair, or that it has no more.
    pub fn feed(&mut self, item: Option<(Vec<u8>, Vec<u8>)>)
        requires
            old(self).wf(),
            old(self).base_peek is None,
            !old(self).base_done,
        ensures
            final(self).wf(),
            final(self).reverse == old(self).reverse,
            match item {
                Some((k, v)) => !final(self).base_done && forall|b: Seq<Pair>| #[trigger]
                    final(self).stream(b) == old(self).stream(seq![(k@, v@)] + b),
                None => final(self).base_done && final(self).stream(Seq::empty()) == old(
                    self,
                ).stream(Seq::empty()),
            },
    {
        match item {
            Some((k, v)) => {
                self.base_peek = Some((k, v));
                proof {
                    assert forall|b: Seq<Pair>| #[trigger]
                        self.stream(b) == old(self).stream(seq![(k@, v@)] + b) by {
                        assert(self.peeked() + b =~= old(self).peeked() + (seq![(k@, v@)] + b));
                    }
                }
            },
            None => {
                self.base_done = true;
            },
        }
    }

    /// The next step of the scan. An edit hides the snapshot's pair of the same
    /// key; a delete shows nothing.
    #[verifier::rlimit(40)]
    pub fn next(&mut self) -> (r: TxnStep)
        requires
            old(self).wf(),
        ensures
            final(self).wf(),
            final(self).reverse == old(self).reverse,
            final(self).base_done == old(self).base_done,
            forall|b: Seq<Pair>|
                (old(self).base_done ==> b.len() == 0) ==> {
                    let all = #[trigger] old(self).stream(b);
                    match r {
                        TxnStep::NeedBase => all == final(self).stream(b),
                        TxnStep::Item(k, v) => all == seq![(k@, v@)] + final(self).stream(b),
                        TxnStep::End => all.len() == 0,
                    }
                },
            r is NeedBase ==> !final(self).base_done && final(self).base_peek is None,
            r is End ==> final(self).base_done,
    {
        loop
            invariant
                self.wf(),
                self.reverse == old(self).reverse,
                self.base_done == old(self).base_done,
                self.overlay == old(self).overlay,
                forall|b: Seq<Pair>|
                    (self.base_done ==> b.len() == 0) ==> #[trigger] old(self).stream(b)
                        == self.stream(b),
            decreases self.overlay@.len() - self.at,
        {
            if self.base_peek.is_none() && !self.base_done {
                return TxnStep::NeedBase;
            }
            let ghost over = edits_view(self.overlay@).skip(self.at as int);
            let ghost peek = self.peeked();
            let ghost rev = self.reverse;
            if self.at >= self.overlay.len() {
                assert(over.len() == 0);
                match self.base_peek.take() {
                    Some((k, v)) => {
                        proof {
                            assert forall|b: Seq<Pair>|
                                (self.base_done ==> b.len() == 0) implies #[trigger] old(
                                self,
                            ).stream(b) == seq![(k@, v@)] + self.stream(b) by {
                                assert(peek + b =~= seq![(k@, v@)] + b);
                                assert(self.peeked() + b =~= b);
                            }
                        }
                        return TxnStep::Item(k, v);
                    },
                    None => {
                        return TxnStep::End;
                    },
                }
            }
            let ghost e = edit_of(self.overlay@[self.at as int]);
            proof {
                assert(over[0] == e);
                assert(over.skip(1) =~= edits_view(self.overlay@).skip(self.at + 1));
            }
            let (use_overlay, hides): (bool, bool) = match &self.base_peek {
                None => (true, false),
                Some((bk, _)) => {
                    let ok = self.overlay[self.at].0.as_slice();
                    let u: bool = if self.reverse {
                        bytes_le(bk.as_slice(), ok)
                    } else {
                        bytes_le(ok, bk.as_slice())
                    };
                    (u, bytes_eq(bk.as_slice(), ok))
                },
            };
            if use_overlay {
                if hides {
                    self.base_peek = None;
                }
                let at: usize = self.at;
                self.at = at + 1;
                proof {
                    assert forall|b: Seq<Pair>|
                        (self.base_done ==> b.len() == 0) implies #[trigger] old(self).stream(b)
                        == shown(e) + self.stream(b) by {
                        let all = peek + b;
                        if peek.len() > 0 {
                            assert(all[0] == peek[0]);
                            if hides {
                                assert(all.skip(1) =~= self.peeked() + b);
                            } else {
                                assert(all =~= self.peeked() + b);
                            }
                        } else {
                            assert(all.len() == 0);
                            assert(all =~= self.peeked() + b);
                        }
                    }
                }
                match &self.overlay[at].1 {
                    Some(v) => {
                        let key = to_bytes(self.overlay[at].0.as_slice());
                        let value = to_bytes(v.as_slice());
                        assert(shown(e) == seq![(key@, value@)]);
                        return TxnStep::Item(key, value);
                    },
                    None => {
                        proof {
                            assert forall|b: Seq<Pair>|
                                (self.base_done ==> b.len() == 0) implies #[trigger] old(
                                self,
                            ).stream(b) == self.stream(b) by {
                                assert(shown(e) + self.stream(b) =~= self.stream(b));
                            }
                        }
                    },
                }
            } else {
                match self.base_peek.take() {
                    Some((k, v)) => {
                        proof {
                            assert forall|b: Seq<Pair>|
                                (self.base_done ==> b.len() == 0) implies #[trigger] old(
                                self,
                            ).stream(b) == seq![(k@, v@)] + self.stream(b) by {
                                let all = peek + b;
                                assert(all[0] == (k@, v@));
                                assert(all.skip(1) =~= self.peeked() + b);
                            }
                        }
                        return TxnStep::Item(k, v);
                    },
                    None => {
                        return TxnStep::End;
                    },
                }
            }
        }
    }
}

pub open spec fn pairs_in_order(base: Seq<Pair>, reverse: bool) -> bool {
    forall|i: int, j: int|
        0 <= i < j < base.len() ==> earlier(
            (#[trigger] base[i]).0,
            (#[trigger] base[j]).0,
            reverse,
        )
}

pub open spec fn edits_in_order(over: Seq<Edit>, reverse: bool) -> bool {
    forall|i: int, j: int|
        0 <= i < j < over.len() ==> earlier(
            (#[trigger] over[i]).0,
            (#[trigger] over[j]).0,
            reverse,
        )
}

pub open spec fn edits_key(over: Seq<Edit>, key: Seq<u8>) -> bool {
    exists|i: int| 0 <= i < over.len() && (#[trigger] over[i]).0 == key
}

proof fn lemma_skip_contains<T>(s: Seq<T>, x: T)
    requires
        s.len() > 0,
    ensures
        s.contains(x) <==> x == s[0] || s.skip(1).contains(x),
{
    let t = s.skip(1);
    if s.contains(x) {
        let i = choose|i: int| 0 <= i < s.len() && s[i] == x;
        if i > 0 {
            assert(t[i - 1] == x);
        }
    }
    if t.contains(x) {
        let i = choose|i: int| 0 <= i < t.len() && t[i] == x;
        assert(s[i + 1] == x);
    }
}

proof fn lemma_earlier_strict(a: Seq<u8>, b: Seq<u8>, reverse: bool)
    requires
        earlier(a, b, reverse),
    ensures
        a != b,
        !no_later(b, a, reverse),
{
    lemma_lex_irreflexive(a);
    if reverse {
        lemma_lex_asymmetric(b, a);
    } else {
        lemma_lex_asymmetric(a, b);
    }
}

proof fn lemma_not_no_later(a: Seq<u8>, b: Seq<u8>, reverse: bool)
    ensures
        !no_later(a, b, reverse) ==> earlier(b, a, reverse),
{
    lemma_lex_total(a, b);
}

proof fn lemma_earlier_chain(a: Seq<u8>, b: Seq<u8>, c: Seq<u8>, reverse: bool)
    requires
        no_later(a, b, reverse),
        earlier(b, c, reverse),
    ensures
        earlier(a, c, reverse),
{
    if reverse {
        if a != b {
            lemma_lex_transitive(c, b, a);
        }
    } else {
        if a != b {
            lemma_lex_transitive(a, b, c);
        }
    }
}

/// A transaction's scan reads its own writes: a pair is shown exactly where the
/// transaction put it, or the snapshot has it and the transaction did not touch
/// its key.
pub proof fn lemma_scan_reads_own_writes(
    base: Seq<Pair>,
    over: Seq<Edit>,
    reverse: bool,
    key: Seq<u8>,
    value: Seq<u8>,
)
    requires
        pairs_in_order(base, reverse),
        edits_in_order(over, reverse),
    ensures
        overlaid(base, over, reverse).contains((key, value)) <==> over.contains((key, Some(value)))
            || (!edits_key(over, key) && base.contains((key, value))),
    decreases base.len() + over.len(),
{
    let x = (key, value);
    let all = overlaid(base, over, reverse);
    if over.len() == 0 {
        assert(!over.contains((key, Some(value))));
    } else {
        let e = over[0];
        let rest = over.skip(1);
        assert(edits_in_order(rest, reverse)) by {
            assert forall|i: int, j: int| 0 <= i < j < rest.len() implies earlier(
                (#[trigger] rest[i]).0,
                (#[trigger] rest[j]).0,
                reverse,
            ) by {
                assert(earlier(over[i + 1].0, over[j + 1].0, reverse));
            }
        }
        let btail = if base.len() > 0 {
            base.skip(1)
        } else {
            base
        };
        assert(pairs_in_order(btail, reverse)) by {
            assert forall|i: int, j: int| 0 <= i < j < btail.len() implies earlier(
                (#[trigger] btail[i]).0,
                (#[trigger] btail[j]).0,
                reverse,
            ) by {
                assert(earlier(base[i + 1].0, base[j + 1].0, reverse));
            }
        }
        lemma_skip_contains(over, (key, Some(value)));
        // later edits have other keys
        assert forall|i: int| 0 <= i < rest.len() implies (#[trigger] rest[i]).0 != e.0 by {
            assert(earlier(over[0].0, over[i + 1].0, reverse));
            lemma_earlier_strict(over[0].0, over[i + 1].0, reverse);
        }
        assert(edits_key(over, key) <==> key == e.0 || edits_key(rest, key)) by {
            if edits_key(over, key) {
                let i = choose|i: int| 0 <= i < over.len() && (#[trigger] over[i]).0 == key;
                if i > 0 {
                    assert(rest[i - 1].0 == key);
                }
            }
            if edits_key(rest, key) {
                let i = choose|i: int| 0 <= i < rest.len() && (#[trigger] rest[i]).0 == key;
                assert(over[i + 1].0 == key);
            }
            assert(over[0].0 == e.0);
        }
        let take_over = base.len() == 0 || no_later(e.0, base[0].0, reverse);
        if take_over {
            let b2 = if base.len() > 0 && base[0].0 == e.0 {
                base.skip(1)
            } else {
                base
            };
            let tail = overlaid(b2, rest, reverse);
            assert(all == shown(e) + tail);
            lemma_scan_reads_own_writes(b2, rest, reverse, key, value);
            lemma_concat_contains(shown(e), tail, x);
            assert(shown(e).contains(x) <==> (key == e.0 && e.1 == Some(value))) by {
                if key == e.0 && e.1 == Some(value) {
                    assert(shown(e)[0] == x);
                }
            }
            // nothing left of the base has the edit's key
            assert forall|i: int| 0 <= i < b2.len() implies (#[trigger] b2[i]).0 != e.0 by {
                if base[0].0 == e.0 {
                    assert(earlier(base[0].0, base[i + 1].0, reverse));
                    lemma_earlier_strict(base[0].0, base[i + 1].0, reverse);
                } else if i > 0 {
                    assert(earlier(base[0].0, base[i].0, reverse));
                    lemma_earlier_chain(e.0, base[0].0, base[i].0, reverse);
                    lemma_earlier_strict(e.0, base[i].0, reverse);
                }
            }
            if base.len() > 0 {
                lemma_skip_contains(base, x);
            }
            if b2.contains(x) {
                let i = choose|i: int| 0 <= i < b2.len() && b2[i] == x;
                assert(b2[i].0 != e.0);
            }
            if rest.contains((key, Some(value))) {
                let i = choose|i: int| 0 <= i < rest.len() && rest[i] == (key, Some(value));
                assert(rest[i].0 != e.0);
            }
            if edits_key(rest, key) {
                let i = choose|i: int| 0 <= i < rest.len() && (#[trigger] rest[i]).0 == key;
                assert(rest[i].0 != e.0);
            }
        } else {
            let tail = overlaid(base.skip(1), over, reverse);
            assert(all == seq![base[0]] + tail);
            lemma_scan_reads_own_writes(base.skip(1), over, reverse, key, value);
            lemma_concat_contains(seq![base[0]], tail, x);
            lemma_skip_contains(base, x);
            assert(seq![base[0]].contains(x) <==> x == base[0]) by {
                assert(seq![base[0]][0] == base[0]);
            }
            // no edit has the key of the pair that comes first
            assert(!edits_key(over, base[0].0)) by {
                lemma_not_no_later(e.0, base[0].0, reverse);
                if edits_key(over, base[0].0) {
                    let i = choose|i: int|
                        0 <= i < over.len() && (#[trigger] over[i]).0 == base[0].0;
                    if i > 0 {
                        assert(earlier(over[0].0, over[i].0, reverse));
                        lemma_earlier_strict(over[0].0, over[i].0, reverse);
                        lemma_earlier_strict(base[0].0, e.0, reverse);
                    } else {
                        lemma_earlier_strict(base[0].0, e.0, reverse);
                    }
                }
            }
            if over.contains((base[0].0, Some(base[0].1))) {
                let i = choose|i: int|
                    0 <= i < over.len() && over[i] == (base[0].0, Some(base[0].1));
                assert(over[i].0 == base[0].0);
            }
        }
    }
}

proof fn lemma_concat_contains<T>(a: Seq<T>, b: Seq<T>, x: T)
    ensures
        (a + b).contains(x) <==> a.contains(x) || b.contains(x),
{
    let s = a + b;
    if s.contains(x) {
        let i = choose|i: int| 0 <= i < s.len() && s[i] == x;
        if i < a.len() {
            assert(a[i] == x);
        } else {
            assert(b[i - a.len()] == x);
        }
    }
    if a.contains(x) {
        let i = choose|i: int| 0 <= i < a.len() && a[i] == x;
        assert(s[i] == x);
    }
    if b.contains(x) {
        let i = choose|i: int| 0 <= i < b.len() && b[i] == x;
        assert(s[i + a.len()] == x);
    }
}

/// A transaction's scan comes in order: each key once, in the direction of the
/// scan.
#[verifier::rlimit(50)]
pub proof fn lemma_own_scan_is_in_order(base: Seq<Pair>, over: Seq<Edit>, reverse: bool)
    requires
        pairs_in_order(base, reverse),
        edits_in_order(over, reverse),
    ensures
        pairs_in_order(overlaid(base, over, reverse), reverse),
    decreases base.len() + over.len(),
{
    let all = overlaid(base, over, reverse);
    if over.len() > 0 {
        let e = over[0];
        let rest = over.skip(1);
        let btail = if base.len() > 0 {
            base.skip(1)
        } else {
            base
        };
        assert forall|i: int, j: int| 0 <= i < j < rest.len() implies earlier(
            (#[trigger] rest[i]).0,
            (#[trigger] rest[j]).0,
            reverse,
        ) by {
            assert(earlier(over[i + 1].0, over[j + 1].0, reverse));
        }
        assert forall|i: int, j: int| 0 <= i < j < btail.len() implies earlier(
            (#[trigger] btail[i]).0,
            (#[trigger] btail[j]).0,
            reverse,
        ) by {
            if base.len() > 0 {
                assert(earlier(base[i + 1].0, base[j + 1].0, reverse));
            }
        }
        if base.len() == 0 || no_later(e.0, base[0].0, reverse) {
            let b2 = if base.len() > 0 && base[0].0 == e.0 {
                btail
            } else {
                base
            };
            let t = overlaid(b2, rest, reverse);
            lemma_own_scan_is_in_order(b2, rest, reverse);
            assert(all == shown(e) + t);
            assert forall|x: int| 0 <= x < t.len() implies earlier(
                e.0,
                (#[trigger] t[x]).0,
                reverse,
            ) by {
                lemma_scan_reads_own_writes(b2, rest, reverse, t[x].0, t[x].1);
                assert(t.contains((t[x].0, t[x].1)));
                if rest.contains((t[x].0, Some(t[x].1))) {
                    let i = choose|i: int|
                        0 <= i < rest.len() && rest[i] == (t[x].0, Some(t[x].1));
                    assert(earlier(over[0].0, over[i + 1].0, reverse));
                } else {
                    let i = choose|i: int| 0 <= i < b2.len() && b2[i] == (t[x].0, t[x].1);
                    if base[0].0 == e.0 {
                        assert(earlier(base[0].0, base[i + 1].0, reverse));
                    } else if i == 0 {
                        lemma_lex_total(e.0, base[0].0);
                    } else {
                        assert(earlier(base[0].0, base[i].0, reverse));
                        lemma_earlier_chain(e.0, base[0].0, base[i].0, reverse);
                    }
                }
            }
            lemma_front_in_order(shown(e), t, e.0, reverse);
        } else {
            let t = overlaid(btail, over, reverse);
            lemma_own_scan_is_in_order(btail, over, reverse);
            let h = base[0];
            assert(all == seq![h] + t);
            lemma_not_no_later(e.0, h.0, reverse);
            assert forall|x: int| 0 <= x < t.len() implies earlier(
                h.0,
                (#[trigger] t[x]).0,
                reverse,
            ) by {
                lemma_scan_reads_own_writes(btail, over, reverse, t[x].0, t[x].1);
                assert(t.contains((t[x].0, t[x].1)));
                if over.contains((t[x].0, Some(t[x].1))) {
                    let i = choose|i: int|
                        0 <= i < over.len() && over[i] == (t[x].0, Some(t[x].1));
                    if i > 0 {
                        assert(earlier(over[0].0, over[i].0, reverse));
                        lemma_earlier_chain(h.0, e.0, over[i].0, reverse);
                    }
                } else {
                    let i = choose|i: int| 0 <= i < btail.len() && btail[i] == (t[x].0, t[x].1);
                    assert(earlier(base[0].0, base[i + 1].0, reverse));
                }
            }
            lemma_front_in_order(seq![h], t, h.0, reverse);
        }
    }
}

proof fn lemma_front_in_order(front: Seq<Pair>, t: Seq<Pair>, key: Seq<u8>, reverse: bool)
    requires
        front.len() <= 1,
        front.len() == 1 ==> front[0].0 == key,
        pairs_in_order(t, reverse),
        forall|x: int| 0 <= x < t.len() ==> earlier(key, (#[trigger] t[x]).0, reverse),
    ensures
        pairs_in_order(front + t, reverse),
{
    let all = front + t;
    assert forall|i: int, j: int| 0 <= i < j < all.len() implies earlier(
        (#[trigger] all[i]).0,
        (#[trigger] all[j]).0,
        reverse,
    ) by {
        if i < front.len() {
            assert(all[j] == t[j - front.len()]);
        } else {
            assert(all[i] == t[i - front.len()] && all[j] == t[j - front.len()]);
        }
    }
}

/// A transaction lays exactly its own writes of the range over the snapshot, in
/// the direction of the scan.
pub proof fn lemma_overlay_is_the_range(
    t: Txn,
    lo: Option<Seq<u8>>,
    hi: Option<Seq<u8>>,
    over: Seq<Edit>,
    e: Edit,
)
    requires
        over == edits_view(t.writes@).filter(|e: Edit| within(e.0, lo, hi)),
    ensures
        over.contains(e) <==> edits_view(t.writes@).contains(e) && (lo matches Some(l) ==> lex_le(
            l,
            e.0,
        )) && (hi matches Some(h) ==> lex_lt(e.0, h)),
{
    crate::gc::lemma_filtered(edits_view(t.writes@), |e: Edit| within(e.0, lo, hi), e);
}

/// A transaction reads its own writes: once it has put a key it reads that
/// value, once it has deleted it the key is gone, and what it wrote to other keys
/// stays.
pub proof fn lemma_own_write_is_read(
    before: Txn,
    after: Txn,
    key: Seq<u8>,
    v: Option<Seq<u8>>,
    other: Seq<u8>,
)
    requires
        edited(edits_view(before.writes@), key, v, edits_view(after.writes@)),
        other != key,
    ensures
        after.own(key) == Some(v),
        after.own(other) == before.own(other),
{
}

/// What a transaction buffers is counted in full, up to what a counter holds.
pub proof fn lemma_buffered_bytes_add_up(a: usize, b: nat)
    ensures
        a + b <= usize::MAX ==> sat_total(a, b as int) == a + b,
        a + b > usize::MAX ==> sat_total(a, b as int) == usize::MAX,
{
}

} // verus!
