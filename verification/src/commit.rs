//! The write path: admission of batches, value placement, group commit with
//! its failure rules, and optimistic validation inside a group.

use vstd::prelude::*;

use crate::batch::{encode_batch, BatchOp, EncEntry};
use crate::error::{invalid, Error, Result};
use crate::memtable::Memtable;
use crate::order::{bytes_eq, to_bytes};
use crate::types::{encode_inline, encode_ptr, make_ikey, SeqNo, ValueKind, ValuePtr, MAX_SEQNO};
use crate::version::ReadView;
use crate::vlog::encode_record;
use crate::wal::frame_record;

verus! {

use crate::memtable::ENTRY_OVERHEAD;
use crate::batch::{enc_batch, entries_view, ops_view, Entry, Op};
use crate::coding::{lemma_le_len, lemma_uvarint_roundtrip};
use crate::compaction::lemma_find_by_order;
use crate::iter::{sorted, Kv};
use crate::memtable::upserted;
use crate::mvcc::{find_newest, found_at, lemma_found_unique, visible};
use crate::types::{
    enc_repr, entry_ikey, ikey_before, is_ikey, kind_byte_of, kind_of_byte, lemma_entry_ikey,
    lemma_ikey_asymmetric, lemma_ikey_irreflexive, lemma_newer_sorts_first, seqno_of, ukey_of, Repr,
};
use crate::vlog::enc_record;
use crate::wal::wal_frame;

/// A batch must stay below this many bytes: the limit of one WAL record.
pub const BATCH_LIMIT: u64 = 1_073_741_824;

/// One queued write: its operations, and for a transaction its snapshot and
/// the keys that nobody may have written since.
pub struct QueuedEntry {
    pub ops: Vec<BatchOp>,
    pub validate: Option<(SeqNo, Vec<Vec<u8>>)>,
}

// ---------------------------------------------------------------------------
// Chunking
// ---------------------------------------------------------------------------

pub open spec fn byte_cap(first: nat) -> nat {
    if first <= 131_072 {
        first + 131_072
    } else {
        1_048_576
    }
}

/// Group byte cap: 1 MiB at most, but where the front batch is small, the front
/// and 128 KiB, so small writes aren't delayed by huge neighbors. A batch larger
/// than the cap always commits (alone): the front is always taken.
pub fn group_byte_cap(first_bytes: usize) -> (n: usize)
    ensures
        n == byte_cap(first_bytes as nat),
{
    if first_bytes <= 131_072 {
        first_bytes + 131_072
    } else {
        1_048_576
    }
}

/// Where a group ends that has taken everything before `end`, `total` bytes.
pub open spec fn group_end(sizes: Seq<usize>, end: int, total: nat, cap: nat) -> int
    decreases sizes.len() - end,
{
    if 0 <= end < sizes.len() && total + sizes[end] <= cap {
        group_end(sizes, end + 1, total + sizes[end] as nat, cap)
    } else {
        end
    }
}

/// The end of the group that starts at `start`: it takes the queue in order for
/// as long as the bytes stay within the cap of its front.
pub fn chunk_end(sizes: &Vec<usize>, start: usize) -> (end: usize)
    requires
        start < sizes@.len(),
    ensures
        start < end <= sizes@.len(),
        end == group_end(
            sizes@,
            start + 1,
            sizes@[start as int] as nat,
            byte_cap(sizes@[start as int] as nat),
        ),
{
    let first: usize = sizes[start];
    let cap: usize = group_byte_cap(first);
    let mut total: usize = first;
    assert(sizes.len() == sizes@.len());
    let mut end: usize = start + 1;
    while end < sizes.len() && total <= cap && sizes[end] <= cap - total
        invariant
            start < end <= sizes@.len(),
            group_end(sizes@, end as int, total as nat, cap as nat) == group_end(
                sizes@,
                start + 1,
                first as nat,
                cap as nat,
            ),
            first == sizes@[start as int],
            cap == byte_cap(first as nat),
        decreases sizes@.len() - end,
    {
        total = total + sizes[end];
        end += 1;
    }
    end
}

// ---------------------------------------------------------------------------
// Admission
// ---------------------------------------------------------------------------

/// An upper bound on what an operation takes in the log.
pub open spec fn op_approx(op: Op) -> nat {
    match op {
        Op::Put { key, value } => key.len() + value.len() + 32,
        Op::Delete { key } => key.len() + 16,
    }
}

pub open spec fn approx(ops: Seq<Op>) -> nat
    decreases ops.len(),
{
    if ops.len() == 0 {
        0
    } else {
        approx(ops.drop_last()) + op_approx(ops.last())
    }
}

/// The seqnos of the batch are free, and it fits one log record.
pub open spec fn admissible(ops: Seq<Op>, base: nat) -> bool {
    approx(ops) < BATCH_LIMIT && base + ops.len() < MAX_SEQNO
}

/// The seqno that the batch after the first `n` starts at.
pub open spec fn next_base(batches: Seq<Seq<Op>>, seen: nat, n: int) -> nat
    decreases n,
{
    if n <= 0 {
        seen + 1
    } else {
        let base = next_base(batches, seen, n - 1);
        if admissible(batches[n - 1], base) {
            base + batches[n - 1].len()
        } else {
            base
        }
    }
}

/// The admitted ones of the first `n` batches with their first seqnos. A batch
/// that is refused takes none, so the admitted ones stand side by side.
pub open spec fn admitted(batches: Seq<Seq<Op>>, seen: nat, n: int) -> Seq<(int, nat)>
    decreases n,
{
    if n <= 0 {
        Seq::empty()
    } else {
        let before = admitted(batches, seen, n - 1);
        let base = next_base(batches, seen, n - 1);
        if admissible(batches[n - 1], base) {
            before.push((n - 1, base))
        } else {
            before
        }
    }
}

pub open spec fn batches_view(bs: Seq<Vec<BatchOp>>) -> Seq<Seq<Op>> {
    bs.map_values(|b: Vec<BatchOp>| ops_view(b@))
}

pub proof fn lemma_approx_take(ops: Seq<Op>, n: int)
    requires
        0 <= n <= ops.len(),
    ensures
        approx(ops.take(n)) <= approx(ops),
    decreases ops.len(),
{
    if n < ops.len() {
        lemma_approx_take(ops.drop_last(), n);
        assert(ops.drop_last().take(n) =~= ops.take(n));
    } else {
        assert(ops.take(n) =~= ops);
    }
}

/// Bytes the batch takes in the log at most, or the limit where it takes more.
pub fn batch_approx(ops: &Vec<BatchOp>) -> (n: u64)
    ensures
        n == (if approx(ops_view(ops@)) < BATCH_LIMIT {
            approx(ops_view(ops@))
        } else {
            BATCH_LIMIT as nat
        }),
{
    let mut n: u64 = 0;
    let mut i: usize = 0;
    let ghost m = ops_view(ops@);
    assert(m.take(0) =~= Seq::empty());
    while i < ops.len()
        invariant
            i <= ops@.len(),
            m == ops_view(ops@),
            n == approx(m.take(i as int)),
            n < BATCH_LIMIT,
        decreases ops@.len() - i,
    {
        proof {
            let t = m.take(i + 1);
            assert(t.drop_last() =~= m.take(i as int));
            assert(t.last() == ops@[i as int]@);
            lemma_approx_take(m, i + 1);
        }
        let (a, b): (usize, usize) = match &ops[i] {
            BatchOp::Put { key, value } => (key.len(), value.len()),
            BatchOp::Delete { key } => (key.len(), 0),
        };
        let extra: u64 = match &ops[i] {
            BatchOp::Put { .. } => 32,
            BatchOp::Delete { .. } => 16,
        };
        if a as u64 >= BATCH_LIMIT || b as u64 >= BATCH_LIMIT {
            return BATCH_LIMIT;
        }
        n = n + a as u64 + b as u64 + extra;
        if n >= BATCH_LIMIT {
            return BATCH_LIMIT;
        }
        i += 1;
    }
    assert(m.take(i as int) =~= m);
    n
}

// ---------------------------------------------------------------------------
// Placement
// ---------------------------------------------------------------------------

/// Where values go: into the log file `head` from `threshold` bytes on.
#[derive(Clone, Copy)]
pub struct Placing {
    pub threshold: usize,
    pub head: u64,
}

/// The operation puts a record into the value log.
pub open spec fn separated(op: Op, pl: Placing) -> bool {
    op matches Op::Put { key, value } && value.len() >= pl.threshold
}

pub open spec fn op_record(op: Op) -> Seq<u8> {
    match op {
        Op::Put { key, value } => enc_record(key, value),
        Op::Delete { key } => Seq::empty(),
    }
}

/// The entry that stands for the operation, whose record, if it has one, lies
/// at `off`.
pub open spec fn placed_entry(op: Op, pl: Placing, off: nat) -> Entry {
    match op {
        Op::Put { key, value } => Entry {
            kind: ValueKind::Put,
            key,
            repr: if separated(op, pl) {
                enc_repr(
                    Repr::Ptr(
                        ValuePtr {
                            file: pl.head,
                            offset: off as u64,
                            len: op_record(op).len() as u32,
                        },
                    ),
                )
            } else {
                enc_repr(Repr::Inline(value))
            },
        },
        Op::Delete { key } => Entry { kind: ValueKind::Delete, key, repr: Seq::empty() },
    }
}

/// Where the log's head stands once the first `n` operations are placed.
pub open spec fn place_end(ops: Seq<Op>, pl: Placing, off: nat, n: int) -> nat
    decreases n,
{
    if n <= 0 {
        off
    } else {
        let at = place_end(ops, pl, off, n - 1);
        if separated(ops[n - 1], pl) {
            at + op_record(ops[n - 1]).len()
        } else {
            at
        }
    }
}

/// The entries of a batch placed from `off` on.
pub open spec fn placed(ops: Seq<Op>, pl: Placing, off: nat) -> Seq<Entry> {
    Seq::new(ops.len(), |i: int| placed_entry(ops[i], pl, place_end(ops, pl, off, i)))
}

/// A record to be written to the head of the value log.
pub struct VlogWrite {
    pub offset: u64,
    pub bytes: Vec<u8>,
}

/// The same over plain values.
pub struct Write {
    pub offset: nat,
    pub bytes: Seq<u8>,
}

pub open spec fn writes_view(ws: Seq<VlogWrite>) -> Seq<Write> {
    ws.map_values(|w: VlogWrite| Write { offset: w.offset as nat, bytes: w.bytes@ })
}

/// The log writes of the first `n` operations, in order.
pub open spec fn op_writes(ops: Seq<Op>, pl: Placing, off: nat, n: int) -> Seq<Write>
    decreases n,
{
    if n <= 0 {
        Seq::empty()
    } else {
        let before = op_writes(ops, pl, off, n - 1);
        if separated(ops[n - 1], pl) {
            before.push(
                Write { offset: place_end(ops, pl, off, n - 1), bytes: op_record(ops[n - 1]) },
            )
        } else {
            before
        }
    }
}

/// A record is no longer than what its operation was counted for.
pub proof fn lemma_record_len(key: Seq<u8>, value: Seq<u8>)
    requires
        key.len() <= u64::MAX,
        value.len() <= u64::MAX,
    ensures
        key.len() + value.len() < enc_record(key, value).len() <= key.len() + value.len() + 24,
{
    lemma_uvarint_roundtrip(key.len() as u64, Seq::empty());
    lemma_uvarint_roundtrip(value.len() as u64, Seq::empty());
    lemma_le_len(crate::coding::crc32_of(crate::vlog::record_body(key, value)) as nat, 4);
}

pub proof fn lemma_place_end(ops: Seq<Op>, pl: Placing, off: nat, n: int)
    requires
        0 <= n <= ops.len(),
        approx(ops) < BATCH_LIMIT,
    ensures
        off <= place_end(ops, pl, off, n) <= off + approx(ops.take(n)),
        approx(ops.take(n)) < BATCH_LIMIT,
    decreases n,
{
    lemma_approx_take(ops, n);
    if n > 0 {
        lemma_place_end(ops, pl, off, n - 1);
        let t = ops.take(n);
        assert(t.drop_last() =~= ops.take(n - 1));
        assert(t.last() == ops[n - 1]);
        if let Op::Put { key, value } = ops[n - 1] {
            lemma_record_len(key, value);
        }
    } else {
        assert(ops.take(0) =~= Seq::empty());
    }
}

/// Place the values of an admitted batch: large ones get a record at the head
/// of the log and a pointer to it, the others stay inline.
pub fn place_batch(ops: &Vec<BatchOp>, pl: Placing, off: u64, writes: &mut Vec<VlogWrite>) -> (r: (
    Vec<EncEntry>,
    u64,
))
    requires
        approx(ops_view(ops@)) < BATCH_LIMIT,
        off + BATCH_LIMIT <= u64::MAX,
    ensures
        entries_view(r.0@) == placed(ops_view(ops@), pl, off as nat),
        r.1 == place_end(ops_view(ops@), pl, off as nat, ops@.len() as int),
        off <= r.1 <= off + BATCH_LIMIT,
        writes_view(final(writes)@) == writes_view(old(writes)@) + op_writes(
            ops_view(ops@),
            pl,
            off as nat,
            ops@.len() as int,
        ),
{
    let mut entries: Vec<EncEntry> = Vec::new();
    let mut at: u64 = off;
    let mut i: usize = 0;
    let ghost m = ops_view(ops@);
    let ghost w0 = writes_view(writes@);
    assert(w0 + op_writes(m, pl, off as nat, 0) =~= w0);
    assert(entries_view(entries@) =~= placed(m, pl, off as nat).take(0));
    while i < ops.len()
        invariant
            i <= ops@.len(),
            m == ops_view(ops@),
            approx(m) < BATCH_LIMIT,
            off + BATCH_LIMIT <= u64::MAX,
            at == place_end(m, pl, off as nat, i as int),
            entries_view(entries@) == placed(m, pl, off as nat).take(i as int),
            writes_view(writes@) == w0 + op_writes(m, pl, off as nat, i as int),
        decreases ops@.len() - i,
    {
        let ghost op = m[i as int];
        let ghost e0 = entries_view(entries@);
        let ghost ws = writes_view(writes@);
        proof {
            assert(op == ops@[i as int]@);
            lemma_place_end(m, pl, off as nat, i as int);
            lemma_place_end(m, pl, off as nat, i + 1);
        }
        let e: EncEntry = match &ops[i] {
            BatchOp::Put { key, value } => {
                let repr = if value.len() >= pl.threshold {
                    let rec = encode_record(key.as_slice(), value.as_slice());
                    proof {
                        assert(separated(op, pl));
                        assert(value.len() == value@.len() && key.len() == key@.len());
                        lemma_record_len(key@, value@);
                        assert(m.take(i + 1).last() == op);
                        assert(m.take(i + 1).drop_last() =~= m.take(i as int));
                        assert(rec@.len() < BATCH_LIMIT);
                    }
                    let len: u32 = rec.len() as u32;
                    let p = ValuePtr { file: pl.head, offset: at, len };
                    let w = VlogWrite { offset: at, bytes: rec };
                    writes.push(w);
                    proof {
                        assert(writes_view(writes@) =~= ws.push(
                            Write { offset: at as nat, bytes: op_record(op) },
                        ));
                        assert(ws.push(Write { offset: at as nat, bytes: op_record(op) }) =~= w0
                            + op_writes(m, pl, off as nat, i + 1));
                    }
                    at = at + len as u64;
                    encode_ptr(p)
                } else {
                    encode_inline(value.as_slice())
                };
                EncEntry { kind: ValueKind::Put, key: to_bytes(key.as_slice()), repr }
            },
            BatchOp::Delete { key } => {
                let none: Vec<u8> = Vec::new();
                assert(none@ =~= Seq::empty());
                EncEntry { kind: ValueKind::Delete, key: to_bytes(key.as_slice()), repr: none }
            },
        };
        assert(e@ == placed_entry(op, pl, place_end(m, pl, off as nat, i as int)));
        entries.push(e);
        proof {
            assert(entries_view(entries@) =~= e0.push(e@));
            assert(placed(m, pl, off as nat).take(i + 1) =~= placed(m, pl, off as nat).take(
                i as int,
            ).push(placed(m, pl, off as nat)[i as int]));
        }
        i += 1;
    }
    proof {
        assert(placed(m, pl, off as nat).take(i as int) =~= placed(m, pl, off as nat));
        lemma_place_end(m, pl, off as nat, i as int);
    }
    (entries, at)
}

// ---------------------------------------------------------------------------
// The plan of a group
// ---------------------------------------------------------------------------

/// An admitted batch, placed: which batch it is, its first seqno, its entries,
/// and how many log writes the group has up to and with it.
pub struct PlacedBatch {
    pub index: usize,
    pub base: SeqNo,
    pub entries: Vec<EncEntry>,
    pub writes_end: usize,
}

/// What a group of batches writes if nothing fails.
pub struct GroupPlan {
    pub placed: Vec<PlacedBatch>,
    pub writes: Vec<VlogWrite>,
}

/// Where the log's head stands once the first `g` admitted batches are placed.
pub open spec fn head_at(
    batches: Seq<Seq<Op>>,
    acc: Seq<(int, nat)>,
    pl: Placing,
    off: nat,
    g: int,
) -> nat
    decreases g,
{
    if g <= 0 {
        off
    } else {
        let b = batches[acc[g - 1].0];
        place_end(b, pl, head_at(batches, acc, pl, off, g - 1), b.len() as int)
    }
}

/// The log writes of the first `g` admitted batches.
pub open spec fn group_writes(
    batches: Seq<Seq<Op>>,
    acc: Seq<(int, nat)>,
    pl: Placing,
    off: nat,
    g: int,
) -> Seq<Write>
    decreases g,
{
    if g <= 0 {
        Seq::empty()
    } else {
        let b = batches[acc[g - 1].0];
        group_writes(batches, acc, pl, off, g - 1) + op_writes(
            b,
            pl,
            head_at(batches, acc, pl, off, g - 1),
            b.len() as int,
        )
    }
}

/// The plan for the batches, from seqno `seen` and log offset `off` on.
pub open spec fn is_plan(
    p: GroupPlan,
    batches: Seq<Seq<Op>>,
    seen: nat,
    pl: Placing,
    off: nat,
    n: int,
) -> bool {
    let acc = admitted(batches, seen, n);
    &&& p.placed@.len() == acc.len()
    &&& forall|g: int|
        0 <= g < acc.len() ==> {
            &&& (#[trigger] p.placed@[g]).index == acc[g].0
            &&& p.placed@[g].base == acc[g].1
            &&& entries_view(p.placed@[g].entries@) == placed(
                batches[acc[g].0],
                pl,
                head_at(batches, acc, pl, off, g),
            )
            &&& p.placed@[g].writes_end == group_writes(batches, acc, pl, off, g + 1).len()
        }
    &&& writes_view(p.writes@) == group_writes(batches, acc, pl, off, acc.len() as int)
}

pub proof fn lemma_admitted(batches: Seq<Seq<Op>>, seen: nat, n: int)
    requires
        0 <= n <= batches.len(),
    ensures
        admitted(batches, seen, n).len() <= n,
        forall|g: int|
            0 <= g < admitted(batches, seen, n).len() ==> 0 <= (#[trigger] admitted(
                batches,
                seen,
                n,
            )[g]).0 < n && admissible(
                batches[admitted(batches, seen, n)[g].0],
                admitted(batches, seen, n)[g].1,
            ),
        next_base(batches, seen, n) >= seen + 1,
        seen < MAX_SEQNO ==> next_base(batches, seen, n) <= MAX_SEQNO,
    decreases n,
{
    if n > 0 {
        lemma_admitted(batches, seen, n - 1);
    }
}

/// A longer list of admitted batches says the same of the earlier ones.
proof fn lemma_group_prefix(
    batches: Seq<Seq<Op>>,
    acc: Seq<(int, nat)>,
    more: (int, nat),
    pl: Placing,
    off: nat,
    g: int,
)
    requires
        0 <= g <= acc.len(),
    ensures
        head_at(batches, acc.push(more), pl, off, g) == head_at(batches, acc, pl, off, g),
        group_writes(batches, acc.push(more), pl, off, g) == group_writes(
            batches,
            acc,
            pl,
            off,
            g,
        ),
    decreases g,
{
    if g > 0 {
        lemma_group_prefix(batches, acc, more, pl, off, g - 1);
        assert(acc.push(more)[g - 1] == acc[g - 1]);
    }
}

proof fn lemma_head_bound(
    batches: Seq<Seq<Op>>,
    acc: Seq<(int, nat)>,
    pl: Placing,
    off: nat,
    g: int,
)
    requires
        0 <= g <= acc.len(),
        forall|k: int| 0 <= k < acc.len() ==> approx(batches[(#[trigger] acc[k]).0]) < BATCH_LIMIT,
    ensures
        off <= head_at(batches, acc, pl, off, g) <= off + g * BATCH_LIMIT,
    decreases g,
{
    if g > 0 {
        lemma_head_bound(batches, acc, pl, off, g - 1);
        let b = batches[acc[g - 1].0];
        lemma_place_end(b, pl, head_at(batches, acc, pl, off, g - 1), b.len() as int);
        assert((g - 1) * BATCH_LIMIT + BATCH_LIMIT == g * BATCH_LIMIT) by (nonlinear_arith);
    }
}

/// Why a batch that was not admitted was refused: it is too large, or else no
/// seqnos are left for it.
pub fn refusal(ops: &Vec<BatchOp>) -> (e: Error)
    ensures
        e matches Error::InvalidArgument(m) && m@ == (if approx(ops_view(ops@)) >= BATCH_LIMIT {
            "write batch exceeds WAL record limit"@
        } else {
            "seqno space exhausted"@
        }),
{
    if batch_approx(ops) >= BATCH_LIMIT {
        invalid("write batch exceeds WAL record limit")
    } else {
        invalid("seqno space exhausted")
    }
}

/// Admit and place a group of batches: each keeps its own contiguous seqno
/// range; one that is too large, or for which no seqnos are left, is refused
/// before any of its values is placed, and takes none.
#[verifier::rlimit(60)]
pub fn plan_group(batches: &Vec<Vec<BatchOp>>, seen: SeqNo, pl: Placing, off: u64) -> (p: GroupPlan)
    requires
        seen < MAX_SEQNO,
        off + batches@.len() * BATCH_LIMIT <= u64::MAX,
    ensures
        is_plan(
            p,
            batches_view(batches@),
            seen as nat,
            pl,
            off as nat,
            batches@.len() as int,
        ),
{
    let ghost m = batches_view(batches@);
    let mut plan = GroupPlan { placed: Vec::new(), writes: Vec::new() };
    let mut next: u64 = seen + 1;
    let mut at: u64 = off;
    let mut i: usize = 0;
    assert(writes_view(plan.writes@) =~= Seq::<Write>::empty());
    while i < batches.len()
        invariant
            i <= batches@.len(),
            m == batches_view(batches@),
            seen < MAX_SEQNO,
            off + batches@.len() * BATCH_LIMIT <= u64::MAX,
            next == next_base(m, seen as nat, i as int),
            at == head_at(
                m,
                admitted(m, seen as nat, i as int),
                pl,
                off as nat,
                admitted(m, seen as nat, i as int).len() as int,
            ),
            is_plan(plan, m, seen as nat, pl, off as nat, i as int),
        decreases batches@.len() - i,
    {
        let ghost acc = admitted(m, seen as nat, i as int);
        let ghost n = acc.len() as int;
        proof {
            assert(m[i as int] == ops_view(batches@[i as int]@));
            lemma_admitted(m, seen as nat, i as int);
            lemma_admitted(m, seen as nat, i + 1);
            assert forall|k: int| 0 <= k < acc.len() implies approx(m[(#[trigger] acc[k]).0])
                < BATCH_LIMIT by {}
            lemma_head_bound(m, acc, pl, off as nat, n);
            let all = batches@.len() as int;
            assert(n * BATCH_LIMIT + BATCH_LIMIT <= all * BATCH_LIMIT) by (nonlinear_arith)
                requires
                    n + 1 <= all,
            ;
        }
        let count: usize = batches[i].len();
        if batch_approx(&batches[i]) < BATCH_LIMIT && next < MAX_SEQNO && (count as u64) < MAX_SEQNO
            - next {
            assert(admissible(m[i as int], next as nat));
            let ghost b = m[i as int];
            let ghost w0 = writes_view(plan.writes@);
            let ghost p0 = plan.placed@;
            let (entries, end) = place_batch(&batches[i], pl, at, &mut plan.writes);
            let pb = PlacedBatch { index: i, base: next, entries, writes_end: plan.writes.len() };
            plan.placed.push(pb);
            proof {
                let more = (i as int, next as nat);
                let acc2 = admitted(m, seen as nat, i + 1);
                assert(acc2 == acc.push(more));
                lemma_group_prefix(m, acc, more, pl, off as nat, n);
                assert(acc2[n] == more);
                assert(head_at(m, acc2, pl, off as nat, n + 1) == end);
                assert(writes_view(plan.writes@) == group_writes(m, acc2, pl, off as nat, n + 1));
                assert forall|g: int| 0 <= g < acc2.len() implies ({
                    &&& (#[trigger] plan.placed@[g]).index == acc2[g].0
                    &&& plan.placed@[g].base == acc2[g].1
                    &&& entries_view(plan.placed@[g].entries@) == placed(
                        m[acc2[g].0],
                        pl,
                        head_at(m, acc2, pl, off as nat, g),
                    )
                    &&& plan.placed@[g].writes_end == group_writes(m, acc2, pl, off as nat, g
                        + 1).len()
                }) by {
                    lemma_group_prefix(m, acc, more, pl, off as nat, g);
                    if g < n {
                        lemma_group_prefix(m, acc, more, pl, off as nat, g + 1);
                        assert(plan.placed@[g] == p0[g]);
                        assert(acc2[g] == acc[g]);
                    }
                }
            }
            next = next + count as u64;
            at = end;
        }
        i += 1;
    }
    plan
}

/// Accepted batches hold adjacent seqno ranges, from the first free seqno on.
pub proof fn lemma_bases_contiguous(batches: Seq<Seq<Op>>, seen: nat, n: int, g: int)
    requires
        0 <= n <= batches.len(),
        0 <= g < admitted(batches, seen, n).len(),
    ensures
        ({
            let acc = admitted(batches, seen, n);
            acc[g].1 == if g == 0 {
                seen + 1
            } else {
                acc[g - 1].1 + batches[acc[g - 1].0].len()
            }
        }),
        ({
            let acc = admitted(batches, seen, n);
            g == acc.len() - 1 ==> acc[g].1 + batches[acc[g].0].len() == next_base(
                batches,
                seen,
                n,
            )
        }),
    decreases n,
{
    let acc = admitted(batches, seen, n);
    let before = admitted(batches, seen, n - 1);
    if g < before.len() {
        lemma_bases_contiguous(batches, seen, n - 1, g);
        if g > 0 {
            assert(acc[g - 1] == before[g - 1]);
        }
    } else {
        if before.len() > 0 {
            lemma_bases_contiguous(batches, seen, n - 1, before.len() - 1);
        } else {
            lemma_none_admitted(batches, seen, n - 1);
        }
    }
}

proof fn lemma_none_admitted(batches: Seq<Seq<Op>>, seen: nat, n: int)
    requires
        0 <= n <= batches.len(),
        admitted(batches, seen, n).len() == 0,
    ensures
        next_base(batches, seen, n) == seen + 1,
    decreases n,
{
    if n > 0 {
        lemma_none_admitted(batches, seen, n - 1);
    }
}

// ---------------------------------------------------------------------------
// Failures inside a group
// ---------------------------------------------------------------------------

/// What went wrong while a group was written, by the number of the admitted
/// batch: an append to the value log or to the WAL, or a sync of either.
pub struct GroupIo {
    pub vlog_append: Option<usize>,
    pub vlog_sync: bool,
    pub wal_append: Option<usize>,
    /// The append was refused before it touched the file: the record is over
    /// the limit.
    pub wal_refused: bool,
    pub wal_sync: bool,
}

/// What becomes of an admitted batch.
#[derive(Clone, Copy, PartialEq, Eq, Structural)]
pub enum Fate {
    /// Durable and published.
    Applied,
    /// Its own write failed.
    Failed,
    /// Not applied because of another batch's failure: safe to retry.
    Aborted,
}

/// How many of `n` admitted batches have all their values in the value log.
pub open spec fn placed_count(io: GroupIo, n: nat) -> nat {
    match io.vlog_append {
        Some(g) => if g < n {
            g as nat
        } else {
            n
        },
        None => n,
    }
}

/// How many of them are appended to the WAL.
pub open spec fn appended_count(io: GroupIo, n: nat) -> nat {
    let p = placed_count(io, n);
    if io.vlog_sync {
        0
    } else {
        match io.wal_append {
            Some(g) => if g < p {
                g as nat
            } else {
                p
            },
            None => p,
        }
    }
}

/// How many are published: always a prefix of the admitted ones.
pub open spec fn survivors(io: GroupIo, n: nat) -> nat {
    if io.wal_sync {
        0
    } else {
        appended_count(io, n)
    }
}

/// The batch that a failure belongs to: the one whose append failed, and for a
/// failed sync, which belongs to no single one, the first.
pub open spec fn owns_failure(io: GroupIo, n: nat, g: int) -> bool {
    ||| io.vlog_append == Some(g as usize)
    ||| !io.vlog_sync && io.wal_append == Some(g as usize)
    ||| (io.vlog_sync || io.wal_sync) && g == 0
}

pub open spec fn fate_of(io: GroupIo, n: nat, g: int) -> Fate {
    if g < survivors(io, n) {
        Fate::Applied
    } else if owns_failure(io, n, g) {
        Fate::Failed
    } else {
        Fate::Aborted
    }
}

/// What keeps a batch from being applied.
#[derive(Clone, Copy, PartialEq, Eq, Structural)]
pub enum Cause {
    VlogAppend,
    VlogSync,
    WalAppend,
    WalSync,
}

/// The failure that batch `g` of the group met first, if it met one.
pub open spec fn cause_of(io: GroupIo, g: int) -> Option<Cause> {
    if io.vlog_append matches Some(v) && g >= v {
        Some(Cause::VlogAppend)
    } else if io.vlog_sync {
        Some(Cause::VlogSync)
    } else if io.wal_append matches Some(w) && g >= w {
        Some(Cause::WalAppend)
    } else if io.wal_sync {
        Some(Cause::WalSync)
    } else {
        None
    }
}

/// A batch is applied exactly where it met no failure.
pub proof fn lemma_applied_met_no_failure(io: GroupIo, n: nat, g: int)
    requires
        0 <= g < n,
    ensures
        fate_of(io, n, g) == Fate::Applied <==> cause_of(io, g) is None,
{
}

/// Why batch `g` of the group was not applied, if it was not.
pub fn cause(io: &GroupIo, g: usize) -> (c: Option<Cause>)
    ensures
        c == cause_of(*io, g as int),
{
    if let Some(v) = io.vlog_append {
        if g >= v {
            return Some(Cause::VlogAppend);
        }
    }
    if io.vlog_sync {
        return Some(Cause::VlogSync);
    }
    if let Some(w) = io.wal_append {
        if g >= w {
            return Some(Cause::WalAppend);
        }
    }
    if io.wal_sync {
        return Some(Cause::WalSync);
    }
    None
}

/// What the writer of a batch is told of its fate: the failure itself goes to
/// the batch that owns it, where it is still at hand, and the others that were
/// not applied are told what aborted them. That is an error of the files, not
/// of the background: the batch may be written again.
pub fn result_of(f: Fate, first: Option<Error>, reason: &str) -> (r: Result<()>)
    ensures
        match (f, first) {
            (Fate::Applied, _) => r is Ok,
            (Fate::Failed, Some(e)) => r == Err::<(), Error>(e),
            _ => r matches Err(Error::Io(m)) && m@
                == "write group aborted by another batch's failure: "@ + reason@,
        },
{
    match (f, first) {
        (Fate::Applied, _) => Ok(()),
        (Fate::Failed, Some(e)) => Err(e),
        _ => {
            let mut m = "write group aborted by another batch's failure: ".to_string();
            m.append(reason);
            Err(Error::Io(m))
        },
    }
}

/// The fate of each admitted batch. Later ones never survive an earlier one,
/// so what is published never runs past a failed batch.
pub fn settle(io: &GroupIo, n: usize) -> (r: (Vec<Fate>, usize))
    ensures
        r.0@.len() == n,
        forall|g: int| 0 <= g < n ==> #[trigger] r.0@[g] == fate_of(*io, n as nat, g),
        r.1 == survivors(*io, n as nat),
        r.1 <= n,
{
    let p: usize = match io.vlog_append {
        Some(g) => if g < n {
            g
        } else {
            n
        },
        None => n,
    };
    let a: usize = if io.vlog_sync {
        0
    } else {
        match io.wal_append {
            Some(g) => if g < p {
                g
            } else {
                p
            },
            None => p,
        }
    };
    let s: usize = if io.wal_sync {
        0
    } else {
        a
    };
    let mut fates: Vec<Fate> = Vec::new();
    let mut g: usize = 0;
    while g < n
        invariant
            g <= n,
            fates@.len() == g,
            s == survivors(*io, n as nat),
            forall|k: int| 0 <= k < g ==> #[trigger] fates@[k] == fate_of(*io, n as nat, k),
        decreases n - g,
    {
        let own_vlog: bool = match io.vlog_append {
            Some(k) => k == g,
            None => false,
        };
        let own_wal: bool = match io.wal_append {
            Some(k) => !io.vlog_sync && k == g,
            None => false,
        };
        let f = if g < s {
            Fate::Applied
        } else if own_vlog || own_wal || ((io.vlog_sync || io.wal_sync) && g == 0) {
            Fate::Failed
        } else {
            Fate::Aborted
        };
        fates.push(f);
        g += 1;
    }
    (fates, s)
}

/// Whether the store refuses writes from now on, because the state of the WAL
/// or of the value log's head is unknown.
pub fn degrades(io: &GroupIo) -> (b: bool)
    ensures
        b == (io.vlog_append is Some || io.vlog_sync || (io.wal_append is Some && !io.wal_refused)
            || io.wal_sync),
{
    io.vlog_append.is_some() || io.vlog_sync || (io.wal_append.is_some() && !io.wal_refused)
        || io.wal_sync
}

/// Whether files may be rotated after the group: something was published, and
/// no append failed. A WAL whose tail may hold a torn record is never sealed:
/// damage in a sealed WAL is fatal to recovery, while an unsealed tail is
/// truncated.
pub fn may_rotate(io: &GroupIo, published: usize) -> (b: bool)
    ensures
        b == (published > 0 && io.vlog_append is None && (io.wal_append is None || io.wal_refused)),
{
    published > 0 && io.vlog_append.is_none() && (io.wal_append.is_none() || io.wal_refused)
}

/// The batch whose log write is the `k`-th of the group.
pub fn batch_of_write(plan: &GroupPlan, k: usize) -> (g: usize)
    ensures
        g <= plan.placed@.len(),
        forall|j: int| 0 <= j < g ==> (#[trigger] plan.placed@[j]).writes_end <= k,
        g < plan.placed@.len() ==> k < plan.placed@[g as int].writes_end,
{
    let mut g: usize = 0;
    while g < plan.placed.len()
        invariant
            g <= plan.placed@.len(),
            forall|j: int| 0 <= j < g ==> (#[trigger] plan.placed@[j]).writes_end <= k,
        decreases plan.placed@.len() - g,
    {
        if k < plan.placed[g].writes_end {
            return g;
        }
        g += 1;
    }
    g
}

/// No batch is applied behind one that is not: what survives is a prefix.
pub proof fn lemma_survivors_are_a_prefix(io: GroupIo, n: nat, g: int, h: int)
    requires
        0 <= g < h < n,
        fate_of(io, n, h) == Fate::Applied,
    ensures
        fate_of(io, n, g) == Fate::Applied,
{
}

/// The WAL record of a batch; one over the limit is refused.
pub fn batch_record(base: SeqNo, entries: &Vec<EncEntry>) -> (r: Result<Vec<u8>>)
    ensures
        match r {
            Ok(rec) => enc_batch(base, entries_view(entries@)).len() < BATCH_LIMIT && rec@
                == wal_frame(enc_batch(base, entries_view(entries@))),
            Err(e) => e is InvalidArgument && enc_batch(base, entries_view(entries@)).len()
                >= BATCH_LIMIT,
        },
{
    let payload = encode_batch(base, entries.as_slice());
    if payload.len() as u64 >= BATCH_LIMIT {
        return Err(invalid("write batch exceeds WAL record limit"));
    }
    Ok(frame_record(payload.as_slice()))
}

// ---------------------------------------------------------------------------
// Publishing
// ---------------------------------------------------------------------------

/// The versions that a batch makes, its entries numbered from `base` on.
pub open spec fn batch_kvs(base: u64, es: Seq<Entry>) -> Seq<Kv> {
    Seq::new(
        es.len(),
        |i: int|
            Kv {
                key: entry_ikey(es[i].key, (base + i) as u64, es[i].kind),
                repr: es[i].repr,
            },
    )
}

/// `new_es` holds the versions `kvs`, and of `old_es` what they do not replace.
pub open spec fn applied(old_es: Seq<Kv>, kvs: Seq<Kv>, new_es: Seq<Kv>) -> bool {
    &&& sorted(new_es)
    &&& forall|x: Kv| #[trigger]
        new_es.contains(x) <==> kvs.contains(x) || (old_es.contains(x) && forall|i: int|
            0 <= i < kvs.len() ==> (#[trigger] kvs[i]).key != x.key)
}

pub proof fn lemma_batch_kv(base: u64, es: Seq<Entry>, i: int)
    requires
        0 <= i < es.len(),
        base + es.len() <= MAX_SEQNO,
    ensures
        ({
            let k = batch_kvs(base, es)[i].key;
            is_ikey(k) && ukey_of(k) == es[i].key && seqno_of(k) == base + i && kind_of_byte(
                kind_byte_of(k),
            ) == Some(es[i].kind)
        }),
{
    lemma_entry_ikey(es[i].key, (base + i) as u64, es[i].kind);
}

proof fn lemma_applied_step(old_es: Seq<Kv>, kvs: Seq<Kv>, k: int, cur: Seq<Kv>, next: Seq<Kv>)
    requires
        0 <= k < kvs.len(),
        forall|i: int| 0 <= i < k ==> (#[trigger] kvs[i]).key != kvs[k].key,
        applied(old_es, kvs.take(k), cur),
        upserted(cur, kvs[k], next),
    ensures
        applied(old_es, kvs.take(k + 1), next),
{
    let a = kvs.take(k);
    let b = kvs.take(k + 1);
    assert(b[k] == kvs[k]);
    assert forall|x: Kv| #[trigger]
        next.contains(x) <==> b.contains(x) || (old_es.contains(x) && forall|i: int|
            0 <= i < b.len() ==> (#[trigger] b[i]).key != x.key) by {
        assert(next.contains(x) <==> x == kvs[k] || (cur.contains(x) && x.key != kvs[k].key));
        assert(cur.contains(x) <==> a.contains(x) || (old_es.contains(x) && forall|i: int|
            0 <= i < a.len() ==> (#[trigger] a[i]).key != x.key));
        if a.contains(x) {
            let i = choose|i: int| 0 <= i < a.len() && a[i] == x;
            assert(b[i] == x);
            assert(kvs[i].key != kvs[k].key);
        }
        if b.contains(x) {
            let i = choose|i: int| 0 <= i < b.len() && b[i] == x;
            if i < k {
                assert(a[i] == x);
                assert(kvs[i].key != kvs[k].key);
            }
        }
        if forall|i: int| 0 <= i < a.len() ==> (#[trigger] a[i]).key != x.key {
            if x.key != kvs[k].key {
                assert forall|i: int| 0 <= i < b.len() implies (#[trigger] b[i]).key != x.key by {
                    if i < k {
                        assert(a[i] == b[i]);
                    }
                }
            }
        }
        if forall|i: int| 0 <= i < b.len() ==> (#[trigger] b[i]).key != x.key {
            assert(b[k].key != x.key);
            assert forall|i: int| 0 <= i < a.len() implies (#[trigger] a[i]).key != x.key by {
                assert(a[i] == b[i]);
            }
        }
    }
}

/// What a memtable counts once it has taken the first `n` entries.
pub open spec fn bytes_after(b: usize, es: Seq<Entry>, n: int) -> usize
    decreases n,
{
    if n <= 0 {
        b
    } else {
        bytes_after(b, es, n - 1).wrapping_add(
            (es[n - 1].key.len() + 8 + es[n - 1].repr.len() + ENTRY_OVERHEAD) as usize,
        )
    }
}

/// Put the entries of a durable batch into the memtable.
pub fn apply_entries(mem: &mut Memtable, base: SeqNo, entries: &Vec<EncEntry>)
    requires
        old(mem).inv(),
        base + entries@.len() <= MAX_SEQNO,
        forall|i: int|
            0 <= i < entries@.len() ==> (#[trigger] entries@[i]).key@.len()
                + entries@[i].repr@.len() + 128 <= usize::MAX,
    ensures
        final(mem).inv(),
        final(mem).wal() == old(mem).wal(),
        final(mem).bytes() == bytes_after(
            old(mem).bytes(),
            entries_view(entries@),
            entries@.len() as int,
        ),
        applied(
            old(mem).entries(),
            batch_kvs(base, entries_view(entries@)),
            final(mem).entries(),
        ),
{
    let ghost es = entries_view(entries@);
    let ghost kvs = batch_kvs(base, es);
    let ghost es0 = mem.entries();
    let mut i: usize = 0;
    proof {
        mem.lemma_sorted();
        assert(kvs.take(0) =~= Seq::empty());
    }
    while i < entries.len()
        invariant
            i <= entries@.len(),
            es == entries_view(entries@),
            kvs == batch_kvs(base, es),
            mem.inv(),
            mem.wal() == old(mem).wal(),
            mem.bytes() == bytes_after(old(mem).bytes(), es, i as int),
            base + entries@.len() <= MAX_SEQNO,
            forall|i: int|
                0 <= i < entries@.len() ==> (#[trigger] entries@[i]).key@.len()
                    + entries@[i].repr@.len() + 128 <= usize::MAX,
            applied(es0, kvs.take(i as int), mem.entries()),
        decreases entries@.len() - i,
    {
        let ghost cur = mem.entries();
        let ik = make_ikey(entries[i].key.as_slice(), base + i as u64, entries[i].kind);
        let repr = to_bytes(entries[i].repr.as_slice());
        proof {
            assert(es[i as int] == entries@[i as int]@);
            lemma_batch_kv(base, es, i as int);
            lemma_entry_len(es[i as int].key, (base + i) as u64, es[i as int].kind);
            assert forall|k: int| 0 <= k < i implies (#[trigger] kvs[k]).key != kvs[i as int].key by {
                lemma_batch_kv(base, es, k);
            }
        }
        mem.insert(ik, repr);
        proof {
            lemma_applied_step(es0, kvs, i as int, cur, mem.entries());
        }
        i += 1;
    }
    assert(kvs.take(i as int) =~= kvs);
}

pub proof fn lemma_entry_len(ukey: Seq<u8>, seq: u64, kind: ValueKind)
    ensures
        entry_ikey(ukey, seq, kind).len() == ukey.len() + 8,
{
    crate::coding::lemma_be_len(seq as nat * 256 + kind.byte() as nat, 8);
}

/// Reads depend on nothing but the visible versions of their key.
proof fn lemma_same_versions(a: Seq<Kv>, b: Seq<Kv>, uk: Seq<u8>, snap: nat)
    requires
        sorted(a),
        sorted(b),
        forall|x: Kv|
            ukey_of(x.key) == uk && visible(x, snap) ==> (#[trigger] a.contains(x) <==> b.contains(
                x,
            )),
    ensures
        find_newest(a, uk, snap) == find_newest(b, uk, snap),
{
    if exists|i: int| found_at(a, uk, snap, i) {
        let i = choose|i: int| found_at(a, uk, snap, i);
        assert(found_at(a, uk, snap, i));
        lemma_found_unique(a, uk, snap, i);
        assert(a.contains(a[i]));
        let j = choose|j: int| 0 <= j < b.len() && b[j] == a[i];
        assert forall|k: int|
            0 <= k < b.len() && ukey_of(#[trigger] b[k].key) == uk && visible(b[k], snap) implies k
            == j || ikey_before(b[j].key, b[k].key) by {
            assert(b.contains(b[k]));
            assert(a.contains(b[k]));
            let l = choose|l: int| 0 <= l < a.len() && a[l] == b[k];
            if l < i {
                assert(!visible(a[l], snap));
            } else if l > i {
                assert(ikey_before(a[i].key, a[l].key));
            } else if k != j {
                if k < j {
                    assert(ikey_before(b[k].key, b[j].key));
                }
                crate::types::lemma_ikey_irreflexive(a[i].key);
            }
        }
        lemma_find_by_order(b, uk, snap, j);
    } else if exists|j: int| found_at(b, uk, snap, j) {
        let j = choose|j: int| found_at(b, uk, snap, j);
        assert(found_at(b, uk, snap, j));
        assert(b.contains(b[j]));
        assert(a.contains(b[j]));
        let i = choose|i: int| 0 <= i < a.len() && a[i] == b[j];
        crate::version::lemma_visible_is_found(a, uk, snap, i);
    }
}

/// The last of the first `n` entries on the key.
pub open spec fn last_on(es: Seq<Entry>, uk: Seq<u8>, n: int) -> Option<int>
    decreases n,
{
    if n <= 0 {
        None
    } else if es[n - 1].key == uk {
        Some(n - 1)
    } else {
        last_on(es, uk, n - 1)
    }
}

pub proof fn lemma_last_on(es: Seq<Entry>, uk: Seq<u8>, n: int)
    requires
        0 <= n <= es.len(),
    ensures
        match last_on(es, uk, n) {
            Some(i) => 0 <= i < n && es[i].key == uk && forall|j: int|
                i < j < n ==> (#[trigger] es[j]).key != uk,
            None => forall|j: int| 0 <= j < n ==> (#[trigger] es[j]).key != uk,
        },
    decreases n,
{
    if n > 0 {
        lemma_last_on(es, uk, n - 1);
    }
}

/// A snapshot taken before a batch sees nothing of it; one taken once it is
/// published sees all of it: of each key the batch's last operation, and where
/// the batch has none, what was there before.
pub proof fn lemma_batch_is_atomic(
    old_es: Seq<Kv>,
    new_es: Seq<Kv>,
    base: u64,
    es: Seq<Entry>,
    uk: Seq<u8>,
    snap: nat,
)
    requires
        sorted(old_es),
        base + es.len() <= MAX_SEQNO,
        applied(old_es, batch_kvs(base, es), new_es),
        forall|i: int| 0 <= i < old_es.len() ==> seqno_of((#[trigger] old_es[i]).key) < base,
    ensures
        snap < base ==> find_newest(new_es, uk, snap) == find_newest(old_es, uk, snap),
        snap >= base + es.len() - 1 ==> find_newest(new_es, uk, snap) == match last_on(
            es,
            uk,
            es.len() as int,
        ) {
            Some(i) => Some(batch_kvs(base, es)[i]),
            None => find_newest(old_es, uk, snap),
        },
{
    let kvs = batch_kvs(base, es);
    let n = es.len() as int;
    lemma_last_on(es, uk, n);
    assert forall|x: Kv| #[trigger] kvs.contains(x) implies exists|i: int|
        0 <= i < n && #[trigger] kvs[i] == x && ukey_of(x.key) == es[i].key && seqno_of(x.key)
            == base + i by {
        let i = choose|i: int| 0 <= i < kvs.len() && kvs[i] == x;
        lemma_batch_kv(base, es, i);
        assert(kvs[i] == x);
    }
    // old versions are below the batch and none is replaced
    assert forall|x: Kv| #[trigger] old_es.contains(x) implies new_es.contains(x) && seqno_of(x.key)
        < base by {
        let j = choose|j: int| 0 <= j < old_es.len() && old_es[j] == x;
        assert(seqno_of(old_es[j].key) < base);
        assert forall|i: int| 0 <= i < kvs.len() implies (#[trigger] kvs[i]).key != x.key by {
            lemma_batch_kv(base, es, i);
        }
    }
    if snap < base {
        assert forall|x: Kv| ukey_of(x.key) == uk && visible(x, snap) implies (
        #[trigger] new_es.contains(x) <==> old_es.contains(x)) by {
            if kvs.contains(x) {
                let i = choose|i: int|
                    0 <= i < n && #[trigger] kvs[i] == x && ukey_of(x.key) == es[i].key && seqno_of(
                        x.key,
                    ) == base + i;
                assert(false);
            }
        }
        lemma_same_versions(new_es, old_es, uk, snap);
    }
    if snap >= base + es.len() - 1 {
        match last_on(es, uk, n) {
            Some(i) => {
                lemma_batch_kv(base, es, i);
                assert(kvs[i] == kvs[i]);
                assert(kvs.contains(kvs[i]));
                assert(new_es.contains(kvs[i]));
                let x = choose|x: int| 0 <= x < new_es.len() && new_es[x] == kvs[i];
                assert forall|y: int|
                    0 <= y < new_es.len() && ukey_of(#[trigger] new_es[y].key) == uk && visible(
                        new_es[y],
                        snap,
                    ) implies y == x || ikey_before(new_es[x].key, new_es[y].key) by {
                    assert(new_es.contains(new_es[y]));
                    if y < x {
                        assert(ikey_before(new_es[y].key, new_es[x].key));
                        if kvs.contains(new_es[y]) {
                            let j = choose|j: int|
                                0 <= j < n && #[trigger] kvs[j] == new_es[y] && ukey_of(
                                    new_es[y].key,
                                ) == es[j].key && seqno_of(new_es[y].key) == base + j;
                            assert(j <= i);
                            if j < i {
                                lemma_newer_sorts_first(new_es[x].key, new_es[y].key);
                                lemma_ikey_asymmetric(new_es[x].key, new_es[y].key);
                            } else {
                                lemma_ikey_irreflexive(new_es[x].key);
                            }
                        } else {
                            assert(seqno_of(new_es[y].key) < base);
                            lemma_newer_sorts_first(new_es[x].key, new_es[y].key);
                            lemma_ikey_asymmetric(new_es[x].key, new_es[y].key);
                        }
                    }
                }
                lemma_find_by_order(new_es, uk, snap, x);
            },
            None => {
                assert forall|x: Kv| ukey_of(x.key) == uk && visible(x, snap) implies (
                #[trigger] new_es.contains(x) <==> old_es.contains(x)) by {
                    if kvs.contains(x) {
                        let i = choose|i: int|
                            0 <= i < n && #[trigger] kvs[i] == x && ukey_of(x.key) == es[i].key
                                && seqno_of(x.key) == base + i;
                        assert(es[i].key != uk);
                    }
                }
                lemma_same_versions(new_es, old_es, uk, snap);
            },
        }
    }
}

// ---------------------------------------------------------------------------
// Optimistic validation
// ---------------------------------------------------------------------------

/// A queued write over plain values.
pub struct Queued {
    pub ops: Seq<Op>,
    pub validate: Option<(u64, Seq<Seq<u8>>)>,
}

impl View for QueuedEntry {
    type V = Queued;

    open spec fn view(&self) -> Queued {
        Queued {
            ops: ops_view(self.ops@),
            validate: match self.validate {
                Some((snap, keys)) => Some((snap, keys@.map_values(|k: Vec<u8>| k@))),
                None => None,
            },
        }
    }
}

pub open spec fn queue_view(q: Seq<QueuedEntry>) -> Seq<Queued> {
    q.map_values(|e: QueuedEntry| e@)
}

/// What a check of keys comes to.
pub enum Check {
    Clear,
    Clash,
    Unreadable,
}

/// What becomes of a queued write.
pub enum Verdict {
    /// It is applied with the group.
    Apply,
    /// It holds no operation: validated, and done.
    Nothing,
    /// Somebody wrote one of its keys first.
    Conflict,
    /// One of its keys could not be read.
    Failed,
}

pub open spec fn wrote(ops: Seq<Op>, key: Seq<u8>) -> bool {
    exists|i: int| 0 <= i < ops.len() && (#[trigger] ops[i]).key() == key
}

/// One of the batches that passed writes the key.
pub open spec fn written(passed: Seq<Seq<Op>>, key: Seq<u8>) -> bool {
    exists|j: int| 0 <= j < passed.len() && wrote(#[trigger] passed[j], key)
}

/// A key clashes where an earlier write of the group has it, or a committed
/// version is newer than the snapshot.
pub open spec fn check_key(
    look: spec_fn(Seq<u8>) -> Option<Option<Kv>>,
    passed: Seq<Seq<Op>>,
    snap: u64,
    key: Seq<u8>,
) -> Check {
    if written(passed, key) {
        Check::Clash
    } else {
        match look(key) {
            None => Check::Unreadable,
            Some(Some(kv)) => if kind_of_byte(kind_byte_of(kv.key)) is None {
                Check::Unreadable
            } else if seqno_of(kv.key) > snap {
                Check::Clash
            } else {
                Check::Clear
            },
            Some(None) => Check::Clear,
        }
    }
}

/// The first of the keys that is not clear decides.
pub open spec fn check_keys(
    look: spec_fn(Seq<u8>) -> Option<Option<Kv>>,
    passed: Seq<Seq<Op>>,
    snap: u64,
    keys: Seq<Seq<u8>>,
    n: int,
) -> Check
    decreases n,
{
    if n <= 0 {
        Check::Clear
    } else {
        match check_keys(look, passed, snap, keys, n - 1) {
            Check::Clear => check_key(look, passed, snap, keys[n - 1]),
            other => other,
        }
    }
}

pub open spec fn check_entry(look: spec_fn(Seq<u8>) -> Option<Option<Kv>>, passed: Seq<Seq<Op>>, e: Queued) -> Check {
    match e.validate {
        Some((snap, keys)) => check_keys(look, passed, snap, keys, keys.len() as int),
        None => Check::Clear,
    }
}

pub open spec fn verdict_of(look: spec_fn(Seq<u8>) -> Option<Option<Kv>>, passed: Seq<Seq<Op>>, e: Queued) -> Verdict {
    match check_entry(look, passed, e) {
        Check::Clear => if e.ops.len() == 0 {
            Verdict::Nothing
        } else {
            Verdict::Apply
        },
        Check::Clash => Verdict::Conflict,
        Check::Unreadable => Verdict::Failed,
    }
}

/// The operations of those of the first `n` queued writes that passed.
pub open spec fn passed_ops(look: spec_fn(Seq<u8>) -> Option<Option<Kv>>, q: Seq<Queued>, n: int) -> Seq<Seq<Op>>
    decreases n,
{
    if n <= 0 {
        Seq::empty()
    } else {
        let before = passed_ops(look, q, n - 1);
        if check_entry(look, before, q[n - 1]) is Clear {
            before.push(q[n - 1].ops)
        } else {
            before
        }
    }
}

/// The verdict on the queued write `i`, in the light of those before it.
pub open spec fn queue_verdict(look: spec_fn(Seq<u8>) -> Option<Option<Kv>>, q: Seq<Queued>, i: int) -> Verdict {
    verdict_of(look, passed_ops(look, q, i), q[i])
}

/// A verdict as callers get it: to be applied, or done with a result.
pub enum GroupVerdict {
    Apply,
    Done(Result<()>),
}

pub open spec fn verdict_is(v: GroupVerdict, m: Verdict) -> bool {
    match m {
        Verdict::Apply => v is Apply,
        Verdict::Nothing => v matches GroupVerdict::Done(Ok(_)),
        Verdict::Conflict => v matches GroupVerdict::Done(Err(Error::Conflict)),
        Verdict::Failed => v matches GroupVerdict::Done(Err(e)) && (e is Corruption || e is Io),
    }
}

fn op_key(op: &BatchOp) -> (k: &Vec<u8>)
    ensures
        k@ == op@.key(),
{
    match op {
        BatchOp::Put { key, .. } => key,
        BatchOp::Delete { key } => key,
    }
}

fn ops_write(ops: &Vec<BatchOp>, key: &[u8]) -> (b: bool)
    ensures
        b == wrote(ops_view(ops@), key@),
{
    let mut i: usize = 0;
    let ghost m = ops_view(ops@);
    while i < ops.len()
        invariant
            i <= ops@.len(),
            m == ops_view(ops@),
            forall|k: int| 0 <= k < i ==> (#[trigger] m[k]).key() != key@,
        decreases ops@.len() - i,
    {
        assert(m[i as int] == ops@[i as int]@);
        if bytes_eq(op_key(&ops[i]).as_slice(), key) {
            return true;
        }
        i += 1;
    }
    false
}

/// The operations of the entries with these numbers.
spec fn ops_at(q: Seq<Queued>, at: Seq<usize>) -> Seq<Seq<Op>> {
    at.map_values(|i: usize| q[i as int].ops)
}

fn group_wrote(entries: &Vec<QueuedEntry>, passed: &Vec<usize>, key: &[u8]) -> (b: bool)
    requires
        forall|k: int| 0 <= k < passed@.len() ==> #[trigger] passed@[k] < entries@.len(),
    ensures
        b == written(ops_at(queue_view(entries@), passed@), key@),
{
    let mut j: usize = 0;
    let ghost p = ops_at(queue_view(entries@), passed@);
    while j < passed.len()
        invariant
            j <= passed@.len(),
            p == ops_at(queue_view(entries@), passed@),
            forall|k: int| 0 <= k < passed@.len() ==> #[trigger] passed@[k] < entries@.len(),
            forall|k: int| 0 <= k < j ==> !wrote(#[trigger] p[k], key@),
        decreases passed@.len() - j,
    {
        let at: usize = passed[j];
        assert(p[j as int] == ops_view(entries@[at as int].ops@));
        if ops_write(&entries[at].ops, key) {
            return true;
        }
        j += 1;
    }
    false
}

/// Check the keys of one transaction.
fn clash(
    view: &ReadView<'_>,
    entries: &Vec<QueuedEntry>,
    passed: &Vec<usize>,
    snap: SeqNo,
    keys: &Vec<Vec<u8>>,
) -> (r: Result<bool>)
    requires
        view.inv(),
        forall|k: int| 0 <= k < passed@.len() ==> #[trigger] passed@[k] < entries@.len(),
    ensures
        match check_keys(
            view.newest(),
            ops_at(queue_view(entries@), passed@),
            snap,
            keys@.map_values(|k: Vec<u8>| k@),
            keys@.len() as int,
        ) {
            Check::Clear => r matches Ok(false),
            Check::Clash => r matches Ok(true),
            Check::Unreadable => r matches Err(e) && (e is Corruption || e is Io),
        },
{
    let ghost km = keys@.map_values(|k: Vec<u8>| k@);
    let ghost p = ops_at(queue_view(entries@), passed@);
    let ghost look = view.newest();
    let mut i: usize = 0;
    while i < keys.len()
        invariant
            view.inv(),
            forall|k: int| 0 <= k < passed@.len() ==> #[trigger] passed@[k] < entries@.len(),
            i <= keys@.len(),
            km == keys@.map_values(|k: Vec<u8>| k@),
            p == ops_at(queue_view(entries@), passed@),
            look == view.newest(),
            check_keys(look, p, snap, km, i as int) is Clear,
        decreases keys@.len() - i,
    {
        let key = keys[i].as_slice();
        proof {
            assert(km[i as int] == keys@[i as int]@);
        }
        if group_wrote(entries, passed, key) {
            proof {
                assert(check_keys(look, p, snap, km, i + 1) is Clash);
                lemma_check_decided(look, p, snap, km, i + 1, km.len() as int);
            }
            return Ok(true);
        }
        match view.latest(key) {
            Ok(Some((seq, _))) => {
                if seq > snap {
                    proof {
                        assert(check_keys(look, p, snap, km, i + 1) is Clash);
                        lemma_check_decided(look, p, snap, km, i + 1, km.len() as int);
                    }
                    return Ok(true);
                }
            },
            Ok(None) => {},
            Err(e) => {
                proof {
                    assert(check_keys(look, p, snap, km, i + 1) is Unreadable);
                    lemma_check_decided(look, p, snap, km, i + 1, km.len() as int);
                }
                return Err(e);
            },
        }
        i += 1;
    }
    Ok(false)
}

proof fn lemma_check_decided(
    look: spec_fn(Seq<u8>) -> Option<Option<Kv>>,
    passed: Seq<Seq<Op>>,
    snap: u64,
    keys: Seq<Seq<u8>>,
    n: int,
    m: int,
)
    requires
        0 <= n <= m,
        !(check_keys(look, passed, snap, keys, n) is Clear),
    ensures
        check_keys(look, passed, snap, keys, m) == check_keys(look, passed, snap, keys, n),
    decreases m - n,
{
    if n < m {
        lemma_check_decided(look, passed, snap, keys, n, m - 1);
    }
}

/// Validate the queued writes of one group in order, against what is committed
/// and against each other: the writes of an earlier one are not in the view
/// yet. A queued write without a snapshot always passes.
pub fn validate_group(view: &ReadView<'_>, entries: &Vec<QueuedEntry>) -> (out: Vec<GroupVerdict>)
    requires
        view.inv(),
    ensures
        out@.len() == entries@.len(),
        forall|i: int|
            0 <= i < entries@.len() ==> verdict_is(
                #[trigger] out@[i],
                queue_verdict(view.newest(), queue_view(entries@), i),
            ),
{
    let ghost q = queue_view(entries@);
    let ghost look = view.newest();
    let mut out: Vec<GroupVerdict> = Vec::new();
    let mut passed: Vec<usize> = Vec::new();
    let mut i: usize = 0;
    assert(ops_at(q, passed@) =~= Seq::<Seq<Op>>::empty());
    while i < entries.len()
        invariant
            view.inv(),
            i <= entries@.len(),
            q == queue_view(entries@),
            look == view.newest(),
            out@.len() == i,
            forall|k: int| 0 <= k < passed@.len() ==> #[trigger] passed@[k] < entries@.len(),
            ops_at(q, passed@) == passed_ops(look, q, i as int),
            forall|k: int|
                0 <= k < i ==> verdict_is(#[trigger] out@[k], queue_verdict(look, q, k)),
        decreases entries@.len() - i,
    {
        let ghost out0 = out@;
        assert(q[i as int] == entries@[i as int]@);
        let c: Result<bool> = match &entries[i].validate {
            Some((snap, keys)) => clash(view, entries, &passed, *snap, keys),
            None => Ok(false),
        };
        let v: GroupVerdict = match c {
            Ok(true) => GroupVerdict::Done(Err(Error::Conflict)),
            Ok(false) => {
                let ghost p0 = ops_at(q, passed@);
                passed.push(i);
                assert(ops_at(q, passed@) =~= p0.push(q[i as int].ops));
                if entries[i].ops.len() == 0 {
                    GroupVerdict::Done(Ok(()))
                } else {
                    GroupVerdict::Apply
                }
            },
            Err(e) => GroupVerdict::Done(Err(e)),
        };
        out.push(v);
        proof {
            assert(out@[i as int] == v);
            assert(verdict_is(v, queue_verdict(look, q, i as int)));
            assert forall|k: int| 0 <= k < i + 1 implies verdict_is(
                #[trigger] out@[k],
                queue_verdict(look, q, k),
            ) by {
                if k < i {
                    assert(out@[k] == out0[k]);
                }
            }
        }
        i += 1;
    }
    out
}

proof fn lemma_check_keys_clear(
    look: spec_fn(Seq<u8>) -> Option<Option<Kv>>,
    passed: Seq<Seq<Op>>,
    snap: u64,
    keys: Seq<Seq<u8>>,
    n: int,
    k: int,
)
    requires
        0 <= k < n <= keys.len(),
        check_keys(look, passed, snap, keys, n) is Clear,
    ensures
        check_key(look, passed, snap, keys[k]) is Clear,
    decreases n,
{
    if k < n - 1 {
        lemma_check_keys_clear(look, passed, snap, keys, n - 1, k);
    }
}

proof fn lemma_passed_grows(look: spec_fn(Seq<u8>) -> Option<Option<Kv>>, q: Seq<Queued>, i: int, n: int)
    requires
        0 <= i < n,
        check_entry(look, passed_ops(look, q, i), q[i]) is Clear,
    ensures
        passed_ops(look, q, n).contains(q[i].ops),
    decreases n,
{
    let s = passed_ops(look, q, n);
    if i < n - 1 {
        lemma_passed_grows(look, q, i, n - 1);
        let t = passed_ops(look, q, n - 1);
        let x = choose|x: int| 0 <= x < t.len() && t[x] == q[i].ops;
        assert(s[x] == q[i].ops);
    } else {
        assert(s[s.len() - 1] == q[i].ops);
    }
}

/// A transaction that passes read nothing that changed since its snapshot: every
/// key it validates could be read and has no newer committed version, and no earlier write of its
/// group that passed has one of them. Of two that conflict, the later one is
/// refused.
pub proof fn lemma_validated_is_unchanged(
    look: spec_fn(Seq<u8>) -> Option<Option<Kv>>,
    q: Seq<Queued>,
    i: int,
    j: int,
    snap: u64,
    keys: Seq<Seq<u8>>,
    k: int,
)
    requires
        0 <= i <= j < q.len(),
        q[j].validate == Some((snap, keys)),
        0 <= k < keys.len(),
        queue_verdict(look, q, j) is Apply || queue_verdict(look, q, j) is Nothing,
    ensures
        look(keys[k]) matches Some(found) && (found matches Some(kv) ==> seqno_of(kv.key) <= snap),
        i < j && (queue_verdict(look, q, i) is Apply || queue_verdict(look, q, i) is Nothing)
            ==> !wrote(q[i].ops, keys[k]),
{
    let p = passed_ops(look, q, j);
    lemma_check_keys_clear(look, p, snap, keys, keys.len() as int, k);
    if i < j && (queue_verdict(look, q, i) is Apply || queue_verdict(look, q, i) is Nothing) {
        lemma_passed_grows(look, q, i, j);
        let x = choose|x: int| 0 <= x < p.len() && p[x] == q[i].ops;
        if wrote(q[i].ops, keys[k]) {
            assert(wrote(p[x], keys[k]));
            assert(written(p, keys[k]));
        }
    }
}

/// A group stays within its cap: what it takes behind its front adds up to no
/// more than the cap allows, and where it leaves a batch behind, that one would
/// have passed it.
pub proof fn lemma_group_stays_within_cap(sizes: Seq<usize>, end: int, total: nat, cap: nat)
    requires
        0 <= end <= sizes.len(),
    ensures
        ({
            let e = group_end(sizes, end, total, cap);
            &&& end <= e <= sizes.len()
            &&& e == end || total + size_sum(sizes, end, e) <= cap
            &&& e < sizes.len() ==> total + size_sum(sizes, end, e) + sizes[e] > cap
        }),
    decreases sizes.len() - end,
{
    if end < sizes.len() && total + sizes[end] <= cap {
        lemma_group_stays_within_cap(sizes, end + 1, total + sizes[end] as nat, cap);
        lemma_size_sum(sizes, end, group_end(sizes, end, total, cap));
    }
}

/// The sizes from `from` up to `to`.
pub open spec fn size_sum(sizes: Seq<usize>, from: int, to: int) -> nat
    decreases to - from,
{
    if to <= from {
        0
    } else {
        size_sum(sizes, from, to - 1) + sizes[to - 1] as nat
    }
}

proof fn lemma_size_sum(sizes: Seq<usize>, from: int, to: int)
    requires
        0 <= from < to <= sizes.len(),
    ensures
        size_sum(sizes, from, to) == sizes[from] + size_sum(sizes, from + 1, to),
    decreases to - from,
{
    if from + 1 < to {
        lemma_size_sum(sizes, from, to - 1);
    } else {
        assert(size_sum(sizes, from, from) == 0);
        assert(size_sum(sizes, from + 1, from + 1) == 0);
    }
}

/// What a batch takes in memory.
pub open spec fn held_bytes(es: Seq<Entry>, n: int) -> nat
    decreases n,
{
    if n <= 0 {
        0
    } else {
        held_bytes(es, n - 1) + es[n - 1].key.len() + es[n - 1].repr.len()
    }
}

/// A memtable counts at least what it holds, for as long as the count can hold it:
/// so it is rotated in time.
pub proof fn lemma_memory_is_counted(b: usize, es: Seq<Entry>, n: int)
    requires
        0 <= n <= es.len(),
        b + held_bytes(es, n) + n * (8 + ENTRY_OVERHEAD) <= usize::MAX,
    ensures
        bytes_after(b, es, n) == b + held_bytes(es, n) + n * (8 + ENTRY_OVERHEAD),
    decreases n,
{
    if n > 0 {
        assert(n * (8 + ENTRY_OVERHEAD) == (n - 1) * (8 + ENTRY_OVERHEAD) + 8 + ENTRY_OVERHEAD)
            by (nonlinear_arith);
        lemma_memory_is_counted(b, es, n - 1);
        let x = bytes_after(b, es, n - 1);
        let y = (es[n - 1].key.len() + 8 + es[n - 1].repr.len() + ENTRY_OVERHEAD) as nat;
        assert(x + y == b + held_bytes(es, n) + n * (8 + ENTRY_OVERHEAD));
        assert(bytes_after(b, es, n) == x.wrapping_add(y as usize));
    } else {
        assert(n * (8 + ENTRY_OVERHEAD) == 0) by (nonlinear_arith)
            requires
                n == 0,
        ;
    }
}

} // verus!
