//! Subscriptions to committed writes: what a batch is on the stream, what of it
//! concerns a subscriber, and when a subscriber has fallen too far behind.

use vstd::prelude::*;

use crate::batch::BatchOp;
use crate::edge::StreamEntry;
use crate::order::{bytes_le, bytes_lt, to_bytes};
use crate::types::{SeqNo, ValueKind};

verus! {

use crate::batch::{ops_view, Op};
use crate::mvcc::in_range;
use crate::txn::opt;

/// A stream entry as a value.
pub struct Row {
    pub seqno: SeqNo,
    pub kind: ValueKind,
    pub key: Seq<u8>,
    pub value: Option<Seq<u8>>,
}

pub open spec fn value_view(v: Option<Vec<u8>>) -> Option<Seq<u8>> {
    match v {
        Some(v) => Some(v@),
        None => None,
    }
}

pub open spec fn row_of(e: StreamEntry) -> Row {
    Row { seqno: e.seqno, kind: e.kind, key: e.key@, value: value_view(e.value) }
}

pub open spec fn rows(es: Seq<StreamEntry>) -> Seq<Row> {
    es.map_values(|e: StreamEntry| row_of(e))
}

/// The entry of a batch's operation.
pub open spec fn op_row(op: Op, seqno: SeqNo) -> Row {
    match op {
        Op::Put { key, value } => Row { seqno, kind: ValueKind::Put, key, value: Some(value) },
        Op::Delete { key } => Row { seqno, kind: ValueKind::Delete, key, value: None },
    }
}

/// The operations of a committed batch as a stream carries them: each with its
/// own seqno.
pub fn stream_entries(ops: &Vec<BatchOp>, base: SeqNo) -> (out: Vec<StreamEntry>)
    requires
        base + ops@.len() <= u64::MAX,
    ensures
        out@.len() == ops@.len(),
        forall|i: int|
            0 <= i < out@.len() ==> row_of(#[trigger] out@[i]) == op_row(
                ops_view(ops@)[i],
                (base + i) as u64,
            ),
{
    let mut out: Vec<StreamEntry> = Vec::new();
    let mut i: usize = 0;
    while i < ops.len()
        invariant
            i <= ops@.len(),
            base + ops@.len() <= u64::MAX,
            out@.len() == i,
            forall|k: int|
                0 <= k < i ==> row_of(#[trigger] out@[k]) == op_row(
                    ops_view(ops@)[k],
                    (base + k) as u64,
                ),
        decreases ops@.len() - i,
    {
        let seqno: u64 = base + i as u64;
        let e = match &ops[i] {
            BatchOp::Put { key, value } => StreamEntry {
                seqno,
                kind: ValueKind::Put,
                key: to_bytes(key.as_slice()),
                value: Some(to_bytes(value.as_slice())),
            },
            BatchOp::Delete { key } => StreamEntry {
                seqno,
                kind: ValueKind::Delete,
                key: to_bytes(key.as_slice()),
                value: None,
            },
        };
        out.push(e);
        i += 1;
    }
    out
}

/// The entries whose keys lie in `[lo, hi)`, in order.
pub open spec fn concerning(es: Seq<Row>, lo: Seq<u8>, hi: Option<Seq<u8>>) -> Seq<Row>
    decreases es.len(),
{
    if es.len() == 0 {
        Seq::empty()
    } else if in_range(es.last().key, lo, hi) {
        concerning(es.drop_last(), lo, hi).push(es.last())
    } else {
        concerning(es.drop_last(), lo, hi)
    }
}

fn copy_of(e: &StreamEntry) -> (c: StreamEntry)
    ensures
        row_of(c) == row_of(*e),
{
    let value: Option<Vec<u8>> = match &e.value {
        Some(v) => Some(to_bytes(v.as_slice())),
        None => None,
    };
    StreamEntry { seqno: e.seqno, kind: e.kind, key: to_bytes(e.key.as_slice()), value }
}

/// What of a committed batch falls into a subscriber's range.
pub fn select(entries: &Vec<StreamEntry>, lo: &[u8], hi: Option<&[u8]>) -> (out: Vec<StreamEntry>)
    ensures
        rows(out@) == concerning(rows(entries@), lo@, opt(hi)),
{
    let ghost all = rows(entries@);
    let mut out: Vec<StreamEntry> = Vec::new();
    let mut i: usize = 0;
    proof {
        assert(rows(out@) =~= Seq::<Row>::empty());
        assert(all.take(0) =~= Seq::<Row>::empty());
    }
    while i < entries.len()
        invariant
            i <= entries@.len(),
            all == rows(entries@),
            rows(out@) == concerning(all.take(i as int), lo@, opt(hi)),
        decreases entries@.len() - i,
    {
        let key = entries[i].key.as_slice();
        let below: bool = match hi {
            Some(h) => bytes_lt(key, h),
            None => true,
        };
        let ghost o0 = out@;
        proof {
            let t = all.take(i + 1);
            assert(t.drop_last() =~= all.take(i as int));
            assert(t.last() == row_of(entries@[i as int]));
        }
        if bytes_le(lo, key) && below {
            out.push(copy_of(&entries[i]));
            assert(rows(out@) =~= rows(o0).push(row_of(entries@[i as int])));
        }
        i += 1;
    }
    assert(all.take(i as int) =~= all);
    out
}

/// Bytes of an entry: its key and its value.
pub open spec fn row_size(r: Row) -> nat {
    r.key.len() + match r.value {
        Some(v) => v.len(),
        None => 0,
    }
}

pub open spec fn rows_size(rs: Seq<Row>) -> nat
    decreases rs.len(),
{
    if rs.len() == 0 {
        0
    } else {
        rows_size(rs.drop_last()) + row_size(rs.last())
    }
}

/// `n`, at most what a machine word holds.
pub open spec fn word(n: nat) -> nat {
    if n <= usize::MAX {
        n
    } else {
        usize::MAX as nat
    }
}

/// Bytes of a batch, at most what a machine word holds.
pub fn size(entries: &Vec<StreamEntry>) -> (n: usize)
    ensures
        n == word(rows_size(rows(entries@))),
{
    let ghost all = rows(entries@);
    let mut n: usize = 0;
    let mut i: usize = 0;
    assert(all.take(0) =~= Seq::<Row>::empty());
    while i < entries.len()
        invariant
            i <= entries@.len(),
            all == rows(entries@),
            n == word(rows_size(all.take(i as int))),
        decreases entries@.len() - i,
    {
        proof {
            let t = all.take(i + 1);
            assert(t.drop_last() =~= all.take(i as int));
            assert(t.last() == row_of(entries@[i as int]));
        }
        let v: usize = match &entries[i].value {
            Some(v) => v.len(),
            None => 0,
        };
        n = n.saturating_add(entries[i].key.len()).saturating_add(v);
        i += 1;
    }
    assert(all.take(i as int) =~= all);
    n
}

/// How much waits for a subscriber, and whether it fell too far behind.
pub struct Backlog {
    pub bytes: usize,
    pub lagged: bool,
}

impl Backlog {
    pub fn new() -> (b: Self)
        ensures
            b.bytes == 0,
            !b.lagged,
    {
        Backlog { bytes: 0, lagged: false }
    }

    /// Whether a batch of `n` bytes is to be queued. One that would take the
    /// queue past its cap marks the subscriber as lagging instead, and nothing
    /// more is queued for one that lags: it has to start over.
    pub fn offer(&mut self, n: usize, cap: usize) -> (queue: bool)
        ensures
            offered(*old(self), *final(self), n, cap, queue),
            queue == (!old(self).lagged && old(self).bytes + n <= cap),
            final(self).bytes == (if queue {
                old(self).bytes + n
            } else {
                old(self).bytes as int
            }),
            final(self).lagged == !queue,
    {
        if self.lagged || n > cap || self.bytes > cap - n {
            self.lagged = true;
            return false;
        }
        self.bytes = self.bytes + n;
        true
    }

    /// A batch of `n` bytes was taken off the queue.
    pub fn taken(&mut self, n: usize)
        ensures
            final(self).bytes == (if old(self).bytes >= n {
                old(self).bytes - n
            } else {
                0
            }),
            final(self).lagged == old(self).lagged,
    {
        self.bytes = self.bytes.saturating_sub(n);
    }
}

impl Default for Backlog {
    fn default() -> (b: Self)
        ensures
            b.bytes == 0,
            !b.lagged,
    {
        Backlog::new()
    }
}

/// What waits for a subscriber is counted in full: the bytes of its keys and
/// values.
pub proof fn lemma_waiting_bytes_add_up(rs: Seq<Row>, r: Row)
    ensures
        rows_size(Seq::empty()) == 0,
        rows_size(rs.push(r)) == rows_size(rs) + r.key.len() + match r.value {
            Some(v) => v.len(),
            None => 0,
        },
        rows_size(rs) <= usize::MAX ==> word(rows_size(rs)) == rows_size(rs),
{
    assert(rs.push(r).drop_last() =~= rs);
}

/// The stream says what was done, and when: a put with its value, a delete
/// without one, under the seqno of the operation.
pub proof fn lemma_row_says_what_was_done(op: Op, seqno: SeqNo)
    ensures
        op_row(op, seqno).seqno == seqno,
        match op {
            Op::Put { key, value } => op_row(op, seqno).key == key && op_row(op, seqno).value
                == Some(value) && op_row(op, seqno).kind is Put,
            Op::Delete { key } => op_row(op, seqno).key == key && op_row(op, seqno).value is None
                && op_row(op, seqno).kind is Delete,
        },
{
}

/// What comes of offering a subscriber `n` more bytes.
pub open spec fn offered(before: Backlog, after: Backlog, n: usize, cap: usize, queue: bool) -> bool {
    &&& queue <==> !before.lagged && before.bytes + n <= cap
    &&& queue ==> after.bytes == before.bytes + n && !after.lagged
    &&& !queue ==> after.bytes == before.bytes && after.lagged
}

/// A subscriber gets a stream without gaps: once something did not fit it is told
/// nothing more, and what waits for it never passes the cap.
pub proof fn lemma_lagged_stays_lagged(
    a: Backlog,
    b: Backlog,
    c: Backlog,
    n: usize,
    m: usize,
    cap: usize,
    first: bool,
    second: bool,
)
    requires
        offered(a, b, n, cap, first),
        offered(b, c, m, cap, second),
    ensures
        !first ==> !second && c.lagged,
        first ==> b.bytes <= cap,
        first && second ==> c.bytes == a.bytes + n + m,
        second ==> c.bytes <= cap,
{
}

} // verus!
