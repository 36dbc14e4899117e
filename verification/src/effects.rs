//! What writes do to later reads: of a batch, and of a transaction's commit.

use vstd::prelude::*;

use crate::commit::{Fate, GroupIo, GroupVerdict, GroupPlan, Placing};
use crate::engine::Db;
use crate::error::{Error, Result};
use crate::scan::Pending;
use crate::txn::Txn;
use crate::types::{SeqNo, MAX_SEQNO};

verus! {

use crate::batch::{entries_view, Entry, Op};
use crate::commit::{
    admissible, admitted, approx, check_entry, check_key, check_keys, fate_of, group_writes,
    head_at, is_plan, last_on, lemma_approx_take, lemma_batch_kv, lemma_last_on, lemma_place_end,
    lemma_record_len, op_record, op_writes, passed_ops, place_end, placed, placed_entry,
    queue_verdict, separated, survivors, verdict_is, written, wrote, BATCH_LIMIT, Queued, Write,
};
use crate::compaction::value_of;
use crate::engine::{batch_look, batch_read_back};
use crate::group::group_entries;
use crate::iter::Kv;
use crate::txn::{edit_keys, edit_ops, edits_view, lemma_edit_found};
use crate::types::{lemma_repr_roundtrip, p_repr, seqno_of, Repr};
use crate::vlog::{lemma_record_roundtrip, p_record};

/// The operation is on the key.
pub open spec fn touches(op: Op, uk: Seq<u8>) -> bool {
    match op {
        Op::Put { key, .. } => key == uk,
        Op::Delete { key } => key == uk,
    }
}

/// Operation `i` is the last one on the key.
pub open spec fn is_last_op(ops: Seq<Op>, uk: Seq<u8>, i: int) -> bool {
    &&& 0 <= i < ops.len()
    &&& touches(ops[i], uk)
    &&& forall|j: int| i < j < ops.len() ==> !touches(#[trigger] ops[j], uk)
}

/// The lookup finds the value: in place, or in a record of the key that is among
/// the writes to the file.
pub open spec fn finds_value(
    look: Option<Option<Kv>>,
    uk: Seq<u8>,
    value: Seq<u8>,
    file: u64,
    writes: Seq<Write>,
) -> bool {
    look matches Some(hit) && (value_of(hit) matches Some(repr) && match p_repr(repr) {
        Some(Repr::Inline(v)) => v == value,
        Some(Repr::Ptr(p)) => p.file == file && exists|w: int|
            0 <= w < writes.len() && (#[trigger] writes[w]).offset == p.offset
                && writes[w].bytes.len() == p.len && p_record(writes[w].bytes) == Some((uk, value)),
        None => false,
    })
}

/// The lookup finds that there is no value.
pub open spec fn finds_nothing(look: Option<Option<Kv>>) -> bool {
    look matches Some(hit) && value_of(hit) is None
}

/// The record of an operation is among the writes.
proof fn lemma_op_write(ops: Seq<Op>, pl: Placing, off: nat, n: int, i: int) -> (w: int)
    requires
        0 <= i < n <= ops.len(),
        separated(ops[i], pl),
    ensures
        0 <= w < op_writes(ops, pl, off, n).len(),
        op_writes(ops, pl, off, n)[w].offset == place_end(ops, pl, off, i),
        op_writes(ops, pl, off, n)[w].bytes == op_record(ops[i]),
    decreases n,
{
    if i == n - 1 {
        op_writes(ops, pl, off, n - 1).len() as int
    } else {
        lemma_op_write(ops, pl, off, n - 1, i)
    }
}

/// The records of a batch lie side by side from `off` on: each starts where the
/// one before it ends.
pub proof fn lemma_records_lie_side_by_side(ops: Seq<Op>, pl: Placing, off: nat, n: int)
    requires
        0 <= n <= ops.len(),
    ensures
        ({
            let ws = op_writes(ops, pl, off, n);
            &&& ws.len() == 0 ==> place_end(ops, pl, off, n) == off
            &&& ws.len() > 0 ==> ws[0].offset == off && ws.last().offset + ws.last().bytes.len()
                == place_end(ops, pl, off, n)
            &&& forall|i: int|
                0 < i < ws.len() ==> (#[trigger] ws[i]).offset == ws[i - 1].offset
                    + ws[i - 1].bytes.len()
        }),
    decreases n,
{
    if n > 0 {
        lemma_records_lie_side_by_side(ops, pl, off, n - 1);
        let before = op_writes(ops, pl, off, n - 1);
        let ws = op_writes(ops, pl, off, n);
        assert forall|i: int| 0 < i < ws.len() implies (#[trigger] ws[i]).offset == ws[i - 1].offset
            + ws[i - 1].bytes.len() by {
            if i < before.len() {
                assert(ws[i] == before[i] && ws[i - 1] == before[i - 1]);
            }
        }
    }
}

/// A batch does what it says: once it is visible, a read of a key that its last
/// operation put gives that value, one of a key that its last operation deleted
/// gives nothing, and every other read gives what it gave before. A read at an
/// older seqno sees nothing of the batch.
#[verifier::rlimit(50)]
pub proof fn lemma_write_does_what_it_says(
    before: Db,
    after: Db,
    ops: Seq<Op>,
    pl: Placing,
    off: nat,
    uk: Seq<u8>,
    snap: SeqNo,
)
    requires
        admissible(ops, before.visible as nat + 1),
        off + BATCH_LIMIT <= u64::MAX,
        batch_read_back(before, after, (before.visible + 1) as u64, placed(ops, pl, off)),
    ensures
        snap <= before.visible ==> after.lookup(uk, snap) == before.lookup(uk, snap),
        snap >= before.visible + ops.len() ==> {
            let look = after.lookup(uk, snap);
            let ws = op_writes(ops, pl, off, ops.len() as int);
            &&& forall|i: int| #[trigger]
                is_last_op(ops, uk, i) ==> match ops[i] {
                    Op::Put { value, .. } => finds_value(look, uk, value, pl.head, ws),
                    Op::Delete { .. } => finds_nothing(look),
                }
            &&& (forall|i: int| 0 <= i < ops.len() ==> !touches(#[trigger] ops[i], uk)) ==> look
                == before.lookup(uk, snap)
        },
{
    let base = (before.visible + 1) as u64;
    let es = placed(ops, pl, off);
    let n = es.len() as int;
    let look = after.lookup(uk, snap);
    let ws = op_writes(ops, pl, off, n);
    if snap >= before.visible + ops.len() {
        assert(look == batch_look(before, base, es, uk, snap));
        lemma_last_on(es, uk, n);
        assert forall|i: int| 0 <= i < n implies (#[trigger] es[i]).key == uk <==> touches(
            ops[i],
            uk,
        ) by {
            assert(es[i] == placed_entry(ops[i], pl, place_end(ops, pl, off, i)));
        }
        assert forall|i: int| #[trigger] is_last_op(ops, uk, i) implies match ops[i] {
            Op::Put { value, .. } => finds_value(look, uk, value, pl.head, ws),
            Op::Delete { .. } => finds_nothing(look),
        } by {
            assert(es[i].key == uk);
            let k = last_on(es, uk, n)->Some_0;
            assert(es[k].key == uk);
            if k > i {
                assert(touches(ops[k], uk));
            }
            assert(k == i);
            lemma_batch_kv(base, es, i);
            assert(es[i] == placed_entry(ops[i], pl, place_end(ops, pl, off, i)));
            if let Op::Put { key, value } = ops[i] {
                if separated(ops[i], pl) {
                    lemma_place_end(ops, pl, off, i);
                    lemma_approx_take(ops, i + 1);
                    assert(ops.take(i + 1).drop_last() =~= ops.take(i));
                    assert(ops.take(i + 1).last() == ops[i]);
                    lemma_record_len(key, value);
                    let p = crate::types::ValuePtr {
                        file: pl.head,
                        offset: place_end(ops, pl, off, i) as u64,
                        len: op_record(ops[i]).len() as u32,
                    };
                    lemma_repr_roundtrip(Repr::Ptr(p));
                    lemma_record_roundtrip(key, value);
                    let w = lemma_op_write(ops, pl, off, n, i);
                    assert(ws[w].offset == p.offset);
                } else {
                    lemma_repr_roundtrip(Repr::Inline(value));
                }
            }
        }
        if forall|i: int| 0 <= i < ops.len() ==> !touches(#[trigger] ops[i], uk) {
            if let Some(k) = last_on(es, uk, n) {
                assert(es[k].key == uk);
                assert(touches(ops[k], uk));
            }
        }
    }
}

/// A commit does what the transaction's own reads said it would: once its batch
/// is visible, a read of a key gives the value that the transaction had buffered
/// for it, nothing where it had deleted the key, and what it gave before where
/// the transaction had not written it.
#[verifier::rlimit(50)]
pub proof fn lemma_commit_is_read_back(
    t: Txn,
    before: Db,
    after: Db,
    ops: Seq<Op>,
    pl: Placing,
    off: nat,
    uk: Seq<u8>,
    snap: SeqNo,
)
    requires
        t.wf(),
        ops == edit_ops(edits_view(t.writes@)),
        admissible(ops, before.visible as nat + 1),
        off + BATCH_LIMIT <= u64::MAX,
        batch_read_back(before, after, (before.visible + 1) as u64, placed(ops, pl, off)),
        snap >= before.visible + ops.len(),
    ensures
        match t.own(uk) {
            Some(Some(v)) => finds_value(
                after.lookup(uk, snap),
                uk,
                v,
                pl.head,
                op_writes(ops, pl, off, ops.len() as int),
            ),
            Some(None) => finds_nothing(after.lookup(uk, snap)),
            None => after.lookup(uk, snap) == before.lookup(uk, snap),
        },
{
    let es = edits_view(t.writes@);
    lemma_edit_found(es, uk);
    lemma_write_does_what_it_says(before, after, ops, pl, off, uk, snap);
    match t.own(uk) {
        Some(v) => {
            let i = choose|i: int| 0 <= i < es.len() && es[i] == (uk, v);
            assert(touches(ops[i], uk));
            assert forall|j: int| i < j < ops.len() implies !touches(#[trigger] ops[j], uk) by {
                assert(crate::order::lex_lt(es[i].0, es[j].0));
                crate::order::lemma_lex_irreflexive(uk);
            }
            assert(is_last_op(ops, uk, i));
        },
        None => {
            assert forall|j: int| 0 <= j < ops.len() implies !touches(#[trigger] ops[j], uk) by {
                assert(es[j].0 != uk);
            }
        },
    }
}

// ---------------------------------------------------------------------------
// Snapshots
// ---------------------------------------------------------------------------

/// A snapshot is stable: what is committed later changes no answer at a seqno
/// that was visible before.
pub proof fn lemma_snapshot_is_stable(
    before: Db,
    after: Db,
    base: u64,
    es: Seq<Entry>,
    uk: Seq<u8>,
    snap: SeqNo,
    r: Result<Option<Pending>>,
)
    requires
        base == before.visible + 1,
        after.visible == before.visible + es.len(),
        batch_read_back(before, after, base, es),
        after.version.vlogs@ == before.version.vlogs@,
        snap <= before.visible,
    ensures
        after.answers(uk, snap, r) <==> before.answers(uk, snap, r),
{
    assert(after.lookup(uk, snap) == before.lookup(uk, snap));
}

/// A read sees what was written: once a batch is visible, a read of the key at
/// that seqno or any later one gives the value that the batch's last operation
/// on it put, in place or as the place of its record, and nothing where that
/// operation deleted it.
#[verifier::rlimit(50)]
pub proof fn lemma_read_sees_the_write(
    before: Db,
    after: Db,
    ops: Seq<Op>,
    pl: Placing,
    off: nat,
    uk: Seq<u8>,
    snap: SeqNo,
    i: int,
    r: Result<Option<Pending>>,
)
    requires
        admissible(ops, before.visible as nat + 1),
        off + BATCH_LIMIT <= u64::MAX,
        after.visible == before.visible + ops.len(),
        batch_read_back(before, after, (before.visible + 1) as u64, placed(ops, pl, off)),
        after.version.vlogs@.contains(pl.head),
        snap >= after.visible,
        is_last_op(ops, uk, i),
        after.answers(uk, snap, r),
    ensures
        match ops[i] {
            Op::Put { value, .. } => match r {
                Ok(Some(Pending::Ready(x))) => value.len() < pl.threshold && x@ == value,
                Ok(Some(Pending::Ptr(p))) => value.len() >= pl.threshold && p.file == pl.head
                    && exists|w: int|
                    0 <= w < op_writes(ops, pl, off, ops.len() as int).len() && (
                    #[trigger] op_writes(ops, pl, off, ops.len() as int)[w]).offset == p.offset
                        && op_writes(ops, pl, off, ops.len() as int)[w].bytes.len() == p.len
                        && p_record(op_writes(ops, pl, off, ops.len() as int)[w].bytes) == Some(
                        (uk, value),
                    ),
                _ => false,
            },
            Op::Delete { .. } => r matches Ok(None),
        },
{
    lemma_write_does_what_it_says(before, after, ops, pl, off, uk, after.visible);
    let look = after.lookup(uk, after.visible);
    let es = placed(ops, pl, off);
    let base = (before.visible + 1) as u64;
    let n = es.len() as int;
    assert(look == batch_look(before, base, es, uk, after.visible));
    lemma_last_on(es, uk, n);
    assert(es[i] == placed_entry(ops[i], pl, place_end(ops, pl, off, i)));
    assert(es[i].key == uk);
    let k = last_on(es, uk, n)->Some_0;
    assert(es[k] == placed_entry(ops[k], pl, place_end(ops, pl, off, k)));
    if k > i {
        assert(touches(ops[k], uk));
    }
    assert(k == i);
    lemma_batch_kv(base, es, i);
    if let Op::Put { key, value } = ops[i] {
        if separated(ops[i], pl) {
            let p = crate::types::ValuePtr {
                file: pl.head,
                offset: place_end(ops, pl, off, i) as u64,
                len: op_record(ops[i]).len() as u32,
            };
            lemma_repr_roundtrip(Repr::Ptr(p));
        } else {
            lemma_repr_roundtrip(Repr::Inline(value));
        }
    }
}

// ---------------------------------------------------------------------------
// Conflicts
// ---------------------------------------------------------------------------

/// The key was committed to after the snapshot, or an earlier entry of the queue
/// that goes through writes it.
pub open spec fn changed_since(
    look: spec_fn(Seq<u8>) -> Option<Option<Kv>>,
    q: Seq<Queued>,
    i: int,
    snap: u64,
    key: Seq<u8>,
) -> bool {
    (look(key) matches Some(Some(kv)) && seqno_of(kv.key) > snap) || exists|j: int|
        0 <= j < i && goes_through(look, q, j) && #[trigger] has_op_on(q[j].ops, key)
}

/// Some operation is on the key, a put or a delete.
pub open spec fn has_op_on(ops: Seq<Op>, key: Seq<u8>) -> bool {
    exists|x: int| 0 <= x < ops.len() && touches(#[trigger] ops[x], key)
}

proof fn lemma_has_op_on(ops: Seq<Op>, key: Seq<u8>)
    ensures
        has_op_on(ops, key) <==> wrote(ops, key),
{
    if wrote(ops, key) {
        let x = choose|x: int| 0 <= x < ops.len() && (#[trigger] ops[x]).key() == key;
        assert(touches(ops[x], key));
    }
    if has_op_on(ops, key) {
        let x = choose|x: int| 0 <= x < ops.len() && touches(#[trigger] ops[x], key);
        assert(ops[x].key() == key);
    }
}

pub open spec fn goes_through(
    look: spec_fn(Seq<u8>) -> Option<Option<Kv>>,
    q: Seq<Queued>,
    i: int,
) -> bool {
    queue_verdict(look, q, i) is Apply || queue_verdict(look, q, i) is Nothing
}

proof fn lemma_passed_from(
    look: spec_fn(Seq<u8>) -> Option<Option<Kv>>,
    q: Seq<Queued>,
    n: int,
    key: Seq<u8>,
)
    requires
        0 <= n <= q.len(),
    ensures
        written(passed_ops(look, q, n), key) <==> exists|j: int|
            0 <= j < n && goes_through(look, q, j) && #[trigger] has_op_on(q[j].ops, key),
    decreases n,
{
    let p = passed_ops(look, q, n);
    if n > 0 {
        lemma_passed_from(look, q, n - 1, key);
        lemma_has_op_on(q[n - 1].ops, key);
        let b = passed_ops(look, q, n - 1);
        let clear = check_entry(look, b, q[n - 1]) is Clear;
        assert(clear <==> goes_through(look, q, n - 1));
        if written(p, key) {
            let j = choose|j: int| 0 <= j < p.len() && wrote(#[trigger] p[j], key);
            if j < b.len() {
                assert(b[j] == p[j]);
                assert(written(b, key));
            } else {
                assert(has_op_on(q[n - 1].ops, key));
            }
        }
        if exists|j: int|
            0 <= j < n && goes_through(look, q, j) && #[trigger] has_op_on(q[j].ops, key) {
            let j = choose|j: int|
                0 <= j < n && goes_through(look, q, j) && #[trigger] has_op_on(q[j].ops, key);
            if j < n - 1 {
                assert(written(b, key));
                let x = choose|x: int| 0 <= x < b.len() && wrote(#[trigger] b[x], key);
                assert(p[x] == b[x]);
            } else {
                assert(p[b.len() as int] == q[j].ops);
            }
        }
    }
}

proof fn lemma_check(
    look: spec_fn(Seq<u8>) -> Option<Option<Kv>>,
    q: Seq<Queued>,
    i: int,
    snap: u64,
    keys: Seq<Seq<u8>>,
    n: int,
)
    requires
        0 <= i < q.len(),
        0 <= n <= keys.len(),
    ensures
        ({
            let c = check_keys(look, passed_ops(look, q, i), snap, keys, n);
            &&& c is Clear ==> forall|k: int|
                0 <= k < n ==> !changed_since(look, q, i, snap, #[trigger] keys[k])
            &&& c is Clash ==> exists|k: int|
                0 <= k < n && changed_since(look, q, i, snap, #[trigger] keys[k])
            &&& c is Unreadable ==> exists|k: int|
                0 <= k < n && !told_kind(look(#[trigger] keys[k]))
        }),
    decreases n,
{
    if n > 0 {
        lemma_check(look, q, i, snap, keys, n - 1);
        lemma_passed_from(look, q, i, keys[n - 1]);
        let p = passed_ops(look, q, i);
        let c = check_keys(look, p, snap, keys, n);
        let last = check_key(look, p, snap, keys[n - 1]);
        if check_keys(look, p, snap, keys, n - 1) is Clear {
            if last is Clash {
                assert(changed_since(look, q, i, snap, keys[n - 1]));
            }
            if last is Unreadable {
                assert(!told_kind(look(keys[n - 1])));
            }
        }
    }
}

/// The lookup could be made, and what it found is of a known kind.
pub open spec fn told_kind(look: Option<Option<Kv>>) -> bool {
    look matches Some(hit) && (hit matches Some(kv) ==> crate::types::kind_of_byte(
        crate::types::kind_byte_of(kv.key),
    ) is Some)
}

/// First committer wins. An entry of the queue that validates its keys at a
/// snapshot goes through exactly where all of them can be read and none was
/// changed since; it is refused with a conflict only where one was changed, and
/// it fails only where one cannot be read. One that validates nothing always
/// goes through; and one that goes through is applied where it has writes.
pub proof fn lemma_first_committer_wins(
    look: spec_fn(Seq<u8>) -> Option<Option<Kv>>,
    q: Seq<Queued>,
    i: int,
)
    requires
        0 <= i < q.len(),
    ensures
        goes_through(look, q, i) ==> (queue_verdict(look, q, i) is Apply <==> q[i].ops.len() > 0),
        q[i].validate is None ==> goes_through(look, q, i),
        q[i].validate matches Some((snap, keys)) ==> {
            &&& goes_through(look, q, i) ==> forall|k: int|
                0 <= k < keys.len() ==> !changed_since(look, q, i, snap, #[trigger] keys[k])
            &&& queue_verdict(look, q, i) is Conflict ==> exists|k: int|
                0 <= k < keys.len() && changed_since(look, q, i, snap, #[trigger] keys[k])
            &&& queue_verdict(look, q, i) is Failed ==> exists|k: int|
                0 <= k < keys.len() && !told_kind(look(#[trigger] keys[k]))
        },
{
    if let Some((snap, keys)) = q[i].validate {
        lemma_check(look, q, i, snap, keys, keys.len() as int);
    }
}

/// A commit validates all that the transaction wrote or read for update: every
/// key that it would answer from its own writes, or that it locked, is among the
/// keys that must not have changed since its snapshot.
pub proof fn lemma_commit_validates_all(t: Txn, uk: Seq<u8>)
    requires
        t.wf(),
        t.own(uk) is Some || t.locked(uk),
    ensures
        (edit_keys(edits_view(t.writes@)) + edit_keys(edits_view(t.locks@))).contains(uk),
{
    let w = edits_view(t.writes@);
    let l = edits_view(t.locks@);
    let all = edit_keys(w) + edit_keys(l);
    lemma_edit_found(w, uk);
    lemma_edit_found(l, uk);
    if let Some(v) = t.own(uk) {
        let i = choose|i: int| 0 <= i < w.len() && w[i] == (uk, v);
        assert(all[i] == uk);
    } else {
        let v = crate::txn::edit_on(l, uk)->Some_0;
        let i = choose|i: int| 0 <= i < l.len() && l[i] == (uk, v);
        assert(all[w.len() + i] == uk);
    }
}

// ---------------------------------------------------------------------------
// Group commit
// ---------------------------------------------------------------------------

/// A batch of a group is applied exactly where nothing failed that it rests on:
/// its values and those before it reached the value log, which was synced, and
/// its record and those before it reached the write-ahead log, which was synced.
pub proof fn lemma_applied_is_durable(io: GroupIo, n: nat, g: int)
    requires
        0 <= g < n,
    ensures
        fate_of(io, n, g) == Fate::Applied <==> {
            &&& io.vlog_append matches Some(v) ==> g < v
            &&& !io.vlog_sync
            &&& io.wal_append matches Some(w) ==> g < w
            &&& !io.wal_sync
        },
        g < survivors(io, n) <==> fate_of(io, n, g) == Fate::Applied,
{
}

/// The entry stands for the operation: same key, and a put of its value, in place
/// or in a record of the key among the writes to the file, or a delete.
pub open spec fn stands_for(e: Entry, op: Op, file: u64, writes: Seq<Write>) -> bool {
    match op {
        Op::Put { key, value } => e.key == key && e.kind is Put && match p_repr(e.repr) {
            Some(Repr::Inline(v)) => v == value,
            Some(Repr::Ptr(p)) => p.file == file && exists|w: int|
                0 <= w < writes.len() && (#[trigger] writes[w]).offset == p.offset
                    && writes[w].bytes.len() == p.len && p_record(writes[w].bytes) == Some(
                    (key, value),
                ),
            None => false,
        },
        Op::Delete { key } => e.key == key && e.kind is Delete,
    }
}

proof fn lemma_placed_stands_for(ops: Seq<Op>, pl: Placing, off: nat, i: int)
    requires
        approx(ops) < BATCH_LIMIT,
        off + BATCH_LIMIT <= u64::MAX,
        0 <= i < ops.len(),
    ensures
        stands_for(
            placed(ops, pl, off)[i],
            ops[i],
            pl.head,
            op_writes(ops, pl, off, ops.len() as int),
        ),
{
    let n = ops.len() as int;
    let ws = op_writes(ops, pl, off, n);
    if let Op::Put { key, value } = ops[i] {
        if separated(ops[i], pl) {
            lemma_place_end(ops, pl, off, i);
            lemma_approx_take(ops, i + 1);
            assert(ops.take(i + 1).drop_last() =~= ops.take(i));
            assert(ops.take(i + 1).last() == ops[i]);
            lemma_record_len(key, value);
            let p = crate::types::ValuePtr {
                file: pl.head,
                offset: place_end(ops, pl, off, i) as u64,
                len: op_record(ops[i]).len() as u32,
            };
            lemma_repr_roundtrip(Repr::Ptr(p));
            lemma_record_roundtrip(key, value);
            let w = lemma_op_write(ops, pl, off, n, i);
            assert(ws[w].offset == p.offset);
        } else {
            lemma_repr_roundtrip(Repr::Inline(value));
        }
    }
}

/// The operations of the first `n` admitted batches, in order.
pub open spec fn group_ops(batches: Seq<Seq<Op>>, acc: Seq<(int, nat)>, n: int) -> Seq<Op>
    decreases n,
{
    if n <= 0 {
        Seq::empty()
    } else {
        group_ops(batches, acc, n - 1) + batches[acc[n - 1].0]
    }
}

/// Every entry stands for the operation at its place.
pub open spec fn all_stand_for(es: Seq<Entry>, ops: Seq<Op>, file: u64, writes: Seq<Write>) -> bool {
    &&& es.len() == ops.len()
    &&& forall|i: int| 0 <= i < es.len() ==> stands_for(#[trigger] es[i], ops[i], file, writes)
}

proof fn lemma_more_writes(e: Entry, op: Op, file: u64, a: Seq<Write>, b: Seq<Write>)
    requires
        stands_for(e, op, file, a) || stands_for(e, op, file, b),
    ensures
        stands_for(e, op, file, a + b),
{
    if let Op::Put { key, value } = op {
        if let Some(Repr::Ptr(p)) = p_repr(e.repr) {
            if stands_for(e, op, file, a) {
                let w = choose|w: int|
                    0 <= w < a.len() && (#[trigger] a[w]).offset == p.offset && a[w].bytes.len()
                        == p.len && p_record(a[w].bytes) == Some((key, value));
                assert((a + b)[w] == a[w]);
            } else {
                let w = choose|w: int|
                    0 <= w < b.len() && (#[trigger] b[w]).offset == p.offset && b[w].bytes.len()
                        == p.len && p_record(b[w].bytes) == Some((key, value));
                assert((a + b)[a.len() + w] == b[w]);
            }
        }
    }
}

/// A planned group writes what its batches say: the entries of the first `n`
/// admitted batches stand for their operations, in order.
#[verifier::rlimit(50)]
pub proof fn lemma_group_entries_stand_for(
    p: GroupPlan,
    batches: Seq<Seq<Op>>,
    seen: nat,
    pl: Placing,
    off: nat,
    n: int,
)
    requires
        is_plan(p, batches, seen, pl, off, batches.len() as int),
        0 <= n <= p.placed@.len(),
        off + batches.len() * BATCH_LIMIT <= u64::MAX,
    ensures
        ({
            let acc = admitted(batches, seen, batches.len() as int);
            all_stand_for(
                group_entries(p, n),
                group_ops(batches, acc, n),
                pl.head,
                group_writes(batches, acc, pl, off, n),
            )
        }),
    decreases n,
{
    if n > 0 {
        lemma_group_entries_stand_for(p, batches, seen, pl, off, n - 1);
        let m = batches.len() as int;
        let acc = admitted(batches, seen, m);
        let g = n - 1;
        lemma_admitted_at(batches, seen, m, g);
        lemma_head_bound(batches, seen, pl, off, g);
        let b = batches[acc[g].0];
        let at = head_at(batches, acc, pl, off, g);
        assert(entries_view(p.placed@[g].entries@) == placed(b, pl, at));
        let ws0 = group_writes(batches, acc, pl, off, g);
        let ws1 = op_writes(b, pl, at, b.len() as int);
        let es0 = group_entries(p, g);
        let es1 = placed(b, pl, at);
        let os0 = group_ops(batches, acc, g);
        let es = group_entries(p, n);
        let os = group_ops(batches, acc, n);
        assert(g < m) by {
            lemma_admitted_count(batches, seen, m);
        }
        assert(at + BATCH_LIMIT <= u64::MAX) by (nonlinear_arith)
            requires
                at <= off + g * BATCH_LIMIT,
                g + 1 <= m,
                off + m * BATCH_LIMIT <= u64::MAX,
        ;
        assert forall|i: int| 0 <= i < es.len() implies stands_for(
            #[trigger] es[i],
            os[i],
            pl.head,
            ws0 + ws1,
        ) by {
            if i < es0.len() {
                assert(es[i] == es0[i] && os[i] == os0[i]);
                lemma_more_writes(es0[i], os0[i], pl.head, ws0, ws1);
            } else {
                let k = i - es0.len();
                assert(es[i] == es1[k] && os[i] == b[k]);
                lemma_placed_stands_for(b, pl, at, k);
                lemma_more_writes(es1[k], b[k], pl.head, ws0, ws1);
            }
        }
    }
}

proof fn lemma_admitted_count(batches: Seq<Seq<Op>>, seen: nat, n: int)
    requires
        0 <= n,
    ensures
        admitted(batches, seen, n).len() <= n,
    decreases n,
{
    if n > 0 {
        lemma_admitted_count(batches, seen, n - 1);
    }
}

proof fn lemma_admitted_at(batches: Seq<Seq<Op>>, seen: nat, n: int, g: int)
    requires
        0 <= n <= batches.len(),
        0 <= g < admitted(batches, seen, n).len(),
    ensures
        0 <= admitted(batches, seen, n)[g].0 < n,
        approx(batches[admitted(batches, seen, n)[g].0]) < BATCH_LIMIT,
    decreases n,
{
    let before = admitted(batches, seen, n - 1);
    if g < before.len() {
        lemma_admitted_at(batches, seen, n - 1, g);
    }
}

proof fn lemma_head_bound(batches: Seq<Seq<Op>>, seen: nat, pl: Placing, off: nat, g: int)
    requires
        0 <= g <= admitted(batches, seen, batches.len() as int).len(),
    ensures
        head_at(batches, admitted(batches, seen, batches.len() as int), pl, off, g) <= off + g
            * BATCH_LIMIT,
    decreases g,
{
    if g > 0 {
        let m = batches.len() as int;
        let acc = admitted(batches, seen, m);
        lemma_head_bound(batches, seen, pl, off, g - 1);
        lemma_admitted_at(batches, seen, m, g - 1);
        let b = batches[acc[g - 1].0];
        lemma_place_end(b, pl, head_at(batches, acc, pl, off, g - 1), b.len() as int);
        assert((g - 1) * BATCH_LIMIT + BATCH_LIMIT == g * BATCH_LIMIT) by (nonlinear_arith);
    }
}

/// A published group does what its batches say: a read that sees it finds the
/// value of the last put on the key, nothing after a last delete, and otherwise
/// what it found before. The records lie side by side in the value log, over all
/// batches.
#[verifier::rlimit(50)]
pub proof fn lemma_group_does_what_it_says(
    before: Db,
    after: Db,
    p: GroupPlan,
    batches: Seq<Seq<Op>>,
    pl: Placing,
    off: nat,
    n: int,
    uk: Seq<u8>,
    snap: SeqNo,
)
    requires
        is_plan(p, batches, before.visible as nat, pl, off, batches.len() as int),
        0 <= n <= p.placed@.len(),
        off + batches.len() * BATCH_LIMIT <= u64::MAX,
        before.visible + 1 + group_entries(p, n).len() <= MAX_SEQNO,
        batch_read_back(before, after, (before.visible + 1) as u64, group_entries(p, n)),
        snap >= before.visible + group_entries(p, n).len(),
    ensures
        ({
            let acc = admitted(batches, before.visible as nat, batches.len() as int);
            let ops = group_ops(batches, acc, n);
            let ws = group_writes(batches, acc, pl, off, n);
            let look = after.lookup(uk, snap);
            &&& forall|i: int| #[trigger]
                is_last_op(ops, uk, i) ==> match ops[i] {
                    Op::Put { value, .. } => finds_value(look, uk, value, pl.head, ws),
                    Op::Delete { .. } => finds_nothing(look),
                }
            &&& (forall|i: int| 0 <= i < ops.len() ==> !touches(#[trigger] ops[i], uk)) ==> look
                == before.lookup(uk, snap)
            &&& side_by_side(ws, off, head_at(batches, acc, pl, off, n))
        }),
{
    let acc = admitted(batches, before.visible as nat, batches.len() as int);
    let base = (before.visible + 1) as u64;
    let es = group_entries(p, n);
    let ops = group_ops(batches, acc, n);
    let ws = group_writes(batches, acc, pl, off, n);
    let m = es.len() as int;
    let look = after.lookup(uk, snap);
    lemma_group_entries_stand_for(p, batches, before.visible as nat, pl, off, n);
    lemma_group_side_by_side(batches, acc, pl, off, n);
    assert(look == batch_look(before, base, es, uk, snap));
    lemma_last_on(es, uk, m);
    assert forall|i: int| 0 <= i < m implies (#[trigger] es[i]).key == uk <==> touches(
        ops[i],
        uk,
    ) by {
        assert(stands_for(es[i], ops[i], pl.head, ws));
    }
    assert forall|i: int| #[trigger] is_last_op(ops, uk, i) implies match ops[i] {
        Op::Put { value, .. } => finds_value(look, uk, value, pl.head, ws),
        Op::Delete { .. } => finds_nothing(look),
    } by {
        assert(es[i].key == uk);
        let k = last_on(es, uk, m)->Some_0;
        assert(es[k].key == uk);
        if k > i {
            assert(touches(ops[k], uk));
        }
        assert(k == i);
        lemma_batch_kv(base, es, i);
        assert(stands_for(es[i], ops[i], pl.head, ws));
    }
    if forall|i: int| 0 <= i < ops.len() ==> !touches(#[trigger] ops[i], uk) {
        if let Some(k) = last_on(es, uk, m) {
            assert(es[k].key == uk);
            assert(touches(ops[k], uk));
        }
    }
}

/// The writes lie side by side from `from` to `to`.
pub open spec fn side_by_side(ws: Seq<Write>, from: nat, to: nat) -> bool {
    &&& ws.len() == 0 ==> from == to
    &&& ws.len() > 0 ==> ws[0].offset == from && ws.last().offset + ws.last().bytes.len() == to
    &&& forall|i: int|
        0 < i < ws.len() ==> (#[trigger] ws[i]).offset == ws[i - 1].offset + ws[i - 1].bytes.len()
}

proof fn lemma_group_side_by_side(
    batches: Seq<Seq<Op>>,
    acc: Seq<(int, nat)>,
    pl: Placing,
    off: nat,
    g: int,
)
    requires
        0 <= g,
    ensures
        side_by_side(
            group_writes(batches, acc, pl, off, g),
            off,
            head_at(batches, acc, pl, off, g),
        ),
    decreases g,
{
    if g > 0 {
        lemma_group_side_by_side(batches, acc, pl, off, g - 1);
        let b = batches[acc[g - 1].0];
        let at = head_at(batches, acc, pl, off, g - 1);
        lemma_records_lie_side_by_side(b, pl, at, b.len() as int);
        let x = group_writes(batches, acc, pl, off, g - 1);
        let y = op_writes(b, pl, at, b.len() as int);
        let ws = group_writes(batches, acc, pl, off, g);
        assert(ws == x + y);
        assert forall|i: int| 0 < i < ws.len() implies (#[trigger] ws[i]).offset == ws[i - 1].offset
            + ws[i - 1].bytes.len() by {
            if i < x.len() {
                assert(ws[i] == x[i] && ws[i - 1] == x[i - 1]);
            } else if i > x.len() {
                assert(ws[i] == y[i - x.len()] && ws[i - 1] == y[i - 1 - x.len()]);
                assert(y[i - x.len()].offset == y[i - x.len() - 1].offset + y[i - x.len()
                    - 1].bytes.len());
            } else {
                assert(ws[i] == y[0] && ws[i - 1] == x.last());
            }
        }
        if y.len() == 0 {
            assert(ws =~= x);
        } else {
            assert(ws.last() == y.last());
            if x.len() > 0 {
                assert(ws[0] == x[0]);
            } else {
                assert(ws[0] == y[0]);
            }
        }
    }
}

/// What a committer is told is what was decided: it is told of success only where
/// none of its keys was changed since its snapshot, of a conflict only where one
/// was, and of damage only where one cannot be read; its writes are applied
/// exactly where it goes through and has some.
pub proof fn lemma_verdict_is_told(
    look: spec_fn(Seq<u8>) -> Option<Option<Kv>>,
    q: Seq<Queued>,
    i: int,
    v: GroupVerdict,
)
    requires
        0 <= i < q.len(),
        verdict_is(v, queue_verdict(look, q, i)),
    ensures
        v is Apply <==> goes_through(look, q, i) && q[i].ops.len() > 0,
        v matches GroupVerdict::Done(Ok(_)) ==> goes_through(look, q, i) && q[i].ops.len() == 0,
        v matches GroupVerdict::Done(Err(Error::Conflict)) ==> (q[i].validate matches Some(x)
            && exists|k: int|
            0 <= k < x.1.len() && changed_since(look, q, i, x.0, #[trigger] x.1[k])),
        q[i].validate matches Some(x) ==> ((forall|k: int|
            0 <= k < x.1.len() ==> told_kind(look(#[trigger] x.1[k]))) && (exists|k: int|
            0 <= k < x.1.len() && changed_since(look, q, i, x.0, #[trigger] x.1[k]))
            ==> v matches GroupVerdict::Done(Err(Error::Conflict))),
        q[i].validate is None ==> !(v matches GroupVerdict::Done(Err(_))),
{
    lemma_first_committer_wins(look, q, i);
}

} // verus!
