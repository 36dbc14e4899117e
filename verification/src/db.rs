//! The engine's rules around reads and writes: snapshots and the garbage
//! watermark, admission of user batches, backpressure, point reads.

use vstd::prelude::*;
use vstd::string::StringExecFns;

use crate::batch::{BatchOp, WriteBatch};
use crate::counts::{get_count, set_count};
use crate::error::{corrupt, invalid, Error, Result};
use crate::install::contains_id;
use crate::manifest::ManifestData;
use crate::order::to_bytes;
use crate::scan::Pending;
use crate::types::{decode_repr, validate_user_key, ReprRef, SeqNo, ValueKind, MAX_SEQNO};
use crate::version::{ReadView, Run};

verus! {

use crate::batch::Op;
use crate::compaction::value_of;
use crate::counts::{ascending, count_of, counts_id, lemma_count_at, lemma_count_none};
use crate::gc::tellable;
use crate::iter::Kv;
use crate::scan::pending_is;
use crate::shape::runs_bytes;
use crate::types::{is_user_key, p_repr, Repr};

/// Seqnos that open snapshots read at, with how many read at each.
pub struct SnapshotList {
    pub counts: Vec<(u64, u64)>,
}

impl SnapshotList {
    pub open spec fn wf(self) -> bool {
        &&& ascending(self.counts@)
        &&& forall|i: int| 0 <= i < self.counts@.len() ==> (#[trigger] self.counts@[i]).1 > 0
    }

    /// How many snapshots read at `seq`.
    pub open spec fn held(self, seq: u64) -> u64 {
        count_of(self.counts@, seq)
    }

    pub fn new() -> (s: Self)
        ensures
            s.wf(),
            forall|q: u64| #[trigger] s.held(q) == 0,
    {
        SnapshotList { counts: Vec::new() }
    }

    pub fn register(&mut self, seq: SeqNo)
        requires
            old(self).wf(),
            old(self).held(seq) < u64::MAX,
        ensures
            final(self).wf(),
            final(self).held(seq) == old(self).held(seq) + 1,
            forall|q: u64| q != seq ==> #[trigger] final(self).held(q) == old(self).held(q),
    {
        let n: u64 = match get_count(&self.counts, seq) {
            Some(n) => n,
            None => 0,
        };
        let ghost before = self.counts@;
        set_count(&mut self.counts, seq, n + 1);
        proof {
            let after = self.counts@;
            assert forall|i: int| 0 <= i < after.len() implies (#[trigger] after[i]).1 > 0 by {
                lemma_count_at(after, i);
                let g = after[i].0;
                if g != seq {
                    assert(count_of(after, g) == count_of(before, g));
                    assert(counts_id(after, g));
                    assert(counts_id(before, g));
                    let j = choose|j: int| 0 <= j < before.len() && (#[trigger] before[j]).0 == g;
                    lemma_count_at(before, j);
                    assert(before[j].1 > 0);
                }
            }
        }
    }

    /// One snapshot less at `seq`; nothing where there was none.
    pub fn deregister(&mut self, seq: SeqNo)
        requires
            old(self).wf(),
        ensures
            final(self).wf(),
            final(self).held(seq) == (if old(self).held(seq) > 0 {
                old(self).held(seq) - 1
            } else {
                0
            }),
            forall|q: u64| q != seq ==> #[trigger] final(self).held(q) == old(self).held(q),
    {
        let ghost before = self.counts@;
        let mut i: usize = 0;
        while i < self.counts.len()
            invariant
                i <= self.counts@.len(),
                before == self.counts@,
                *self == *old(self),
                old(self).wf(),
                forall|k: int| 0 <= k < i ==> (#[trigger] before[k]).0 != seq,
            decreases self.counts@.len() - i,
        {
            if self.counts[i].0 == seq {
                let n: u64 = self.counts[i].1;
                proof {
                    lemma_count_at(before, i as int);
                    assert(before[i as int].1 > 0);
                }
                if n > 1 {
                    self.counts.set(i, (seq, n - 1));
                    proof {
                        let after = self.counts@;
                        assert(ascending(after)) by {
                            assert forall|a: int, b: int| 0 <= a < b < after.len() implies (
                            #[trigger] after[a]).0 < (#[trigger] after[b]).0 by {
                                assert(before[a].0 < before[b].0);
                            }
                        }
                        lemma_count_at(after, i as int);
                        assert forall|k: int| 0 <= k < after.len() implies (
                        #[trigger] after[k]).1 > 0 by {
                            assert(before[k].1 > 0);
                        }
                        assert forall|q: u64| q != seq implies #[trigger] count_of(after, q)
                            == count_of(before, q) by {
                            lemma_count_kept(before, after, q);
                        }
                    }
                } else {
                    self.counts.remove(i);
                    proof {
                        let after = self.counts@;
                        assert(after == before.remove(i as int));
                        assert(ascending(after)) by {
                            assert forall|a: int, b: int| 0 <= a < b < after.len() implies (
                            #[trigger] after[a]).0 < (#[trigger] after[b]).0 by {
                                let x = if a < i {
                                    a
                                } else {
                                    a + 1
                                };
                                let y = if b < i {
                                    b
                                } else {
                                    b + 1
                                };
                                assert(before[x].0 < before[y].0);
                            }
                        }
                        assert forall|k: int| 0 <= k < after.len() implies (
                        #[trigger] after[k]).1 > 0 by {
                            let x = if k < i {
                                k
                            } else {
                                k + 1
                            };
                            assert(before[x].1 > 0);
                        }
                        assert(!counts_id(after, seq)) by {
                            if counts_id(after, seq) {
                                let k = choose|k: int|
                                    0 <= k < after.len() && (#[trigger] after[k]).0 == seq;
                                if k >= i {
                                    assert(before[i as int].0 < before[k + 1].0);
                                } else {
                                    assert(before[k].0 != seq);
                                }
                            }
                        }
                        lemma_count_none(after, seq);
                        assert forall|q: u64| q != seq implies #[trigger] count_of(after, q)
                            == count_of(before, q) by {
                            lemma_count_removed(before, i as int, q);
                        }
                    }
                }
                return ;
            }
            i += 1;
        }
        proof {
            assert(!counts_id(before, seq));
            lemma_count_none(before, seq);
        }
    }

    /// The lowest seqno that a snapshot reads at.
    pub fn min(&self) -> (r: Option<SeqNo>)
        requires
            self.wf(),
        ensures
            match r {
                Some(s) => self.held(s) > 0 && forall|q: u64| #[trigger] self.held(q) > 0 ==> s
                    <= q,
                None => forall|q: u64| #[trigger] self.held(q) == 0,
            },
    {
        proof {
            let v = self.counts@;
            assert forall|q: u64| #[trigger] count_of(v, q) > 0 implies v.len() > 0 && v[0].0
                <= q by {
                if !counts_id(v, q) {
                    lemma_count_none(v, q);
                }
                let i = choose|i: int| 0 <= i < v.len() && (#[trigger] v[i]).0 == q;
                if i > 0 {
                    assert(v[0].0 < v[i].0);
                }
            }
            if v.len() > 0 {
                lemma_count_at(v, 0);
                assert(v[0].1 > 0);
            }
        }
        if self.counts.len() == 0 {
            None
        } else {
            Some(self.counts[0].0)
        }
    }

    /// The GC watermark: no current or future reader uses a lower seqno. With
    /// no snapshot open that is one past what is visible.
    pub fn watermark(&self, visible: SeqNo) -> (w: SeqNo)
        requires
            self.wf(),
            visible < u64::MAX,
        ensures
            forall|q: u64| #[trigger] self.held(q) > 0 ==> w <= q,
            (forall|q: u64| #[trigger] self.held(q) == 0) ==> w == visible + 1,
            (exists|q: u64| #[trigger] self.held(q) > 0) ==> self.held(w) > 0,
    {
        match self.min() {
            Some(s) => s,
            None => visible + 1,
        }
    }
}

proof fn lemma_count_kept(before: Seq<(u64, u64)>, after: Seq<(u64, u64)>, q: u64)
    requires
        ascending(before),
        ascending(after),
        before.len() == after.len(),
        forall|k: int|
            0 <= k < before.len() ==> (#[trigger] before[k]).0 == after[k].0 && (before[k].0 == q
                ==> before[k].1 == after[k].1),
    ensures
        count_of(after, q) == count_of(before, q),
{
    if counts_id(before, q) {
        let k = choose|k: int| 0 <= k < before.len() && (#[trigger] before[k]).0 == q;
        lemma_count_at(before, k);
        lemma_count_at(after, k);
    } else {
        assert(!counts_id(after, q)) by {
            if counts_id(after, q) {
                let k = choose|k: int| 0 <= k < after.len() && (#[trigger] after[k]).0 == q;
                assert(before[k].0 == q);
            }
        }
        lemma_count_none(before, q);
        lemma_count_none(after, q);
    }
}

proof fn lemma_count_removed(v: Seq<(u64, u64)>, i: int, q: u64)
    requires
        ascending(v),
        ascending(v.remove(i)),
        0 <= i < v.len(),
        q != v[i].0,
    ensures
        count_of(v.remove(i), q) == count_of(v, q),
{
    let t = v.remove(i);
    if counts_id(v, q) {
        let k = choose|k: int| 0 <= k < v.len() && (#[trigger] v[k]).0 == q;
        lemma_count_at(v, k);
        let x = if k < i {
            k
        } else {
            k - 1
        };
        assert(t[x] == v[k]);
        lemma_count_at(t, x);
    } else {
        assert(!counts_id(t, q)) by {
            if counts_id(t, q) {
                let k = choose|k: int| 0 <= k < t.len() && (#[trigger] t[k]).0 == q;
                let x = if k < i {
                    k
                } else {
                    k + 1
                };
                assert(v[x] == t[k]);
            }
        }
        lemma_count_none(v, q);
        lemma_count_none(t, q);
    }
}

/// A registered consistent point-in-time view: the seqno it reads at.
pub struct Snapshot {
    pub seq: SeqNo,
}

impl Snapshot {
    /// The sequence number this snapshot reads at.
    pub fn seqno(&self) -> (s: SeqNo)
        ensures
            s == self.seq,
    {
        self.seq
    }
}

pub open spec fn value_len(op: Op) -> nat {
    match op {
        Op::Put { key, value } => value.len(),
        Op::Delete { key } => 0,
    }
}

/// A user may write this.
pub open spec fn op_allowed(op: Op, max_key: nat, max_value: nat) -> bool {
    is_user_key(op.key()) && op.key().len() <= max_key && value_len(op) <= max_value
}

/// Check a user's batch: every key outside the reserved keyspace and within
/// the size limits, every value within its limit.
pub fn validate_batch(batch: &WriteBatch, max_key_size: usize, max_value_size: usize) -> (r: Result<
    (),
>)
    ensures
        r is Ok <==> forall|i: int|
            0 <= i < batch.ops@.len() ==> op_allowed(
                #[trigger] batch.ops@[i]@,
                max_key_size as nat,
                max_value_size as nat,
            ),
        r matches Err(e) ==> e is InvalidArgument,
{
    let mut i: usize = 0;
    while i < batch.ops.len()
        invariant
            i <= batch.ops@.len(),
            forall|k: int|
                0 <= k < i ==> op_allowed(
                    #[trigger] batch.ops@[k]@,
                    max_key_size as nat,
                    max_value_size as nat,
                ),
        decreases batch.ops@.len() - i,
    {
        let ghost op = batch.ops@[i as int]@;
        let (key, vlen): (&Vec<u8>, usize) = match &batch.ops[i] {
            BatchOp::Put { key, value } => (key, value.len()),
            BatchOp::Delete { key } => (key, 0),
        };
        assert(op.key() == key@ && value_len(op) == vlen);
        assert(op == batch.ops@[i as int]@);
        if let Err(e) = validate_user_key(key.as_slice()) {
            assert(!op_allowed(
                batch.ops@[i as int]@,
                max_key_size as nat,
                max_value_size as nat,
            ));
            return Err(e);
        }
        if key.len() > max_key_size {
            assert(!op_allowed(
                batch.ops@[i as int]@,
                max_key_size as nat,
                max_value_size as nat,
            ));
            return Err(invalid("key exceeds max_key_size"));
        }
        if vlen > max_value_size {
            assert(!op_allowed(
                batch.ops@[i as int]@,
                max_key_size as nat,
                max_value_size as nat,
            ));
            return Err(invalid("value exceeds max_value_size"));
        }
        i += 1;
    }
    Ok(())
}

/// Whether writers wait: too many frozen memtables, or too many runs in L0.
pub fn stalled(
    frozen: usize,
    max_immutable_memtables: usize,
    l0_runs: usize,
    l0_stall_trigger: usize,
) -> (b: bool)
    ensures
        b == (frozen >= max_immutable_memtables || l0_runs >= l0_stall_trigger),
{
    frozen >= max_immutable_memtables || l0_runs >= l0_stall_trigger
}

/// Whether the store takes work: not once it is degraded, nor once it is shut
/// down. A degraded store says why.
pub fn check_bg_error(bg_error: &Option<String>, shutdown: bool) -> (r: Result<()>)
    ensures
        match bg_error {
            Some(msg) => r matches Err(Error::Background(m)) && m@ == msg@,
            None => if shutdown {
                r matches Err(Error::Closed)
            } else {
                r is Ok
            },
        },
{
    if let Some(msg) = bg_error {
        let mut m = String::from_str("");
        m.append(msg.as_str());
        proof {
            reveal_strlit("");
            assert(m@ =~= msg@);
        }
        return Err(Error::Background(m));
    }
    if shutdown {
        return Err(Error::Closed);
    }
    Ok(())
}

/// The first failure degrades the store; later ones do not change why.
pub fn set_bg_error(bg_error: &mut Option<String>, msg: String)
    ensures
        *final(bg_error) == (match *old(bg_error) {
            Some(m) => Some(m),
            None => Some(msg),
        }),
{
    if bg_error.is_none() {
        *bg_error = Some(msg);
    }
}

/// Where a stored representation's value is: at hand, or in a value-log file
/// that must be among the known ones.
pub fn resolve_repr(repr: &[u8], vlogs: &Vec<u64>) -> (r: Result<Pending>)
    ensures
        match p_repr(repr@) {
            Some(Repr::Inline(v)) => r matches Ok(Pending::Ready(x)) && x@ == v,
            Some(Repr::Ptr(p)) => if vlogs@.contains(p.file) {
                r matches Ok(Pending::Ptr(x)) && x == p
            } else {
                r matches Err(Error::Corruption(_))
            },
            None => r matches Err(Error::Corruption(_)),
        },
{
    match decode_repr(repr)? {
        ReprRef::Inline(v) => Ok(Pending::Ready(to_bytes(v))),
        ReprRef::Ptr(p) => {
            if !contains_id(vlogs, p.file) {
                return Err(corrupt("pointer into unknown vlog file"));
            }
            Ok(Pending::Ptr(p))
        },
    }
}

pub open spec fn lower(a: u64, b: u64) -> u64 {
    if a < b {
        a
    } else {
        b
    }
}

/// What a point read returns for a lookup: the value, or where it lies; nothing
/// for a tombstone; an error where something on the path, the version's kind or
/// its representation cannot be read, or it points into a file that is gone.
pub open spec fn point_answer(
    r: Result<Option<Pending>>,
    look: Option<Option<Kv>>,
    vlogs: Seq<u64>,
) -> bool {
    match look {
        None => r matches Err(e) && (e is Corruption || e is Io),
        Some(hit) => match r {
            Ok(None) => tellable(hit) && value_of(hit) is None,
            Ok(Some(p)) => tellable(hit) && (value_of(hit) matches Some(repr) && (p_repr(
                repr,
            ) matches Some(x) && pending_is(p, x) && (x matches Repr::Ptr(q) ==> vlogs.contains(
                q.file,
            )))),
            Err(e) => e is Corruption && (!tellable(hit) || (value_of(hit) matches Some(repr) && (
            p_repr(repr) matches Some(Repr::Ptr(q)) && !vlogs.contains(q.file)))),
        },
    }
}

/// What a point read at `seq` finds: nothing where the newest version it sees
/// is a tombstone or there is none.
pub fn get_at_seq(view: &ReadView<'_>, visible: SeqNo, key: &[u8], seq: SeqNo) -> (r: Result<
    Option<Pending>,
>)
    requires
        view.inv(),
        visible <= MAX_SEQNO,
    ensures
        point_answer(r, view.lookup(key@, lower(seq, visible)), view.version.vlogs@),
{
    let at: u64 = if seq < visible {
        seq
    } else {
        visible
    };
    match view.get_versioned(key, at)? {
        None => Ok(None),
        Some((ValueKind::Delete, _, _)) => Ok(None),
        Some((ValueKind::Put, _, repr)) => {
            let p = resolve_repr(repr.as_slice(), &view.version.vlogs)?;
            Ok(Some(p))
        },
    }
}

/// A report on an open store.
pub struct DbStats {
    pub visible_seqno: u64,
    pub memtable_bytes: usize,
    pub immutable_memtables: usize,
    /// Per level: (runs, fragment files, bytes).
    pub levels: Vec<(usize, usize, u64)>,
    pub vlog_files: usize,
    pub vlog_retired: usize,
    pub discard_bytes: u64,
    pub cache_hits: u64,
    pub cache_misses: u64,
    /// Group commits led (leader critical sections on the batch path).
    pub commit_groups: u64,
    /// Batches committed through the group path.
    pub commit_batches: u64,
    /// WAL fsyncs actually performed.
    pub wal_syncs: u64,
}

pub open spec fn runs_tables(rs: Seq<Run>) -> nat
    decreases rs.len(),
{
    if rs.len() == 0 {
        0
    } else {
        runs_tables(rs.drop_last()) + rs.last().tables@.len()
    }
}

proof fn lemma_tables_take(rs: Seq<Run>, n: int)
    requires
        0 <= n <= rs.len(),
    ensures
        runs_tables(rs.take(n)) <= runs_tables(rs),
    decreases rs.len(),
{
    if n < rs.len() {
        lemma_tables_take(rs.drop_last(), n);
        assert(rs.drop_last().take(n) =~= rs.take(n));
    } else {
        assert(rs.take(n) =~= rs);
    }
}

/// One level in the report: its runs, their files, their bytes.
pub fn level_stats(runs: &Vec<Run>) -> (r: (usize, usize, u64))
    requires
        runs_tables(runs@) <= usize::MAX,
        runs_bytes(runs@) <= u64::MAX,
    ensures
        r.0 == runs@.len(),
        r.1 == runs_tables(runs@),
        r.2 == runs_bytes(runs@),
{
    let mut files: usize = 0;
    let mut i: usize = 0;
    assert(runs@.take(0) =~= Seq::empty());
    while i < runs.len()
        invariant
            i <= runs@.len(),
            files == runs_tables(runs@.take(i as int)),
            runs_tables(runs@) <= usize::MAX,
        decreases runs@.len() - i,
    {
        proof {
            assert(runs@.take(i + 1).drop_last() =~= runs@.take(i as int));
            lemma_tables_take(runs@, i + 1);
        }
        files = files + runs[i].tables.len();
        i += 1;
    }
    assert(runs@.take(i as int) =~= runs@);
    (runs.len(), files, crate::shape::total_bytes(runs))
}

/// The discarded bytes of all files, at most what 64 bits hold.
pub open spec fn discard_total(d: Seq<(u64, u64)>) -> nat
    decreases d.len(),
{
    if d.len() == 0 {
        0
    } else {
        discard_total(d.drop_last()) + d.last().1 as nat
    }
}

pub fn discard_bytes(data: &ManifestData) -> (n: u64)
    ensures
        n == crate::table::builder::capped(discard_total(data.discard@)),
{
    let mut n: u64 = 0;
    let mut i: usize = 0;
    let ghost d = data.discard@;
    assert(d.take(0) =~= Seq::empty());
    while i < data.discard.len()
        invariant
            i <= d.len(),
            d == data.discard@,
            n == crate::table::builder::capped(discard_total(d.take(i as int))),
        decreases d.len() - i,
    {
        proof {
            assert(d.take(i + 1).drop_last() =~= d.take(i as int));
        }
        n = n.saturating_add(data.discard[i].1);
        i += 1;
    }
    assert(d.take(i as int) =~= d);
    n
}

/// A batch is admitted exactly where every operation may be a user's: its key is
/// not empty, does not start with the byte of the reserved keys, and neither the
/// key nor the value is longer than the options allow.
pub proof fn lemma_only_user_writes_are_admitted(op: Op, max_key: nat, max_value: nat)
    ensures
        op_allowed(op, max_key, max_value) <==> match op {
            Op::Put { key, value } => 0 < key.len() <= max_key && key[0] != 0 && value.len()
                <= max_value,
            Op::Delete { key } => 0 < key.len() <= max_key && key[0] != 0,
        },
{
}

/// What a level is said to hold adds up: over its runs the tables and the bytes of
/// their files, and over all files the bytes that are dead in them.
pub proof fn lemma_stats_add_up(
    rs: Seq<Run>,
    r: Run,
    ts: Seq<std::sync::Arc<crate::version::TableHandle>>,
    t: std::sync::Arc<crate::version::TableHandle>,
    d: Seq<(u64, u64)>,
    e: (u64, u64),
)
    ensures
        crate::version::sizes_sum(ts.push(t)) == crate::version::sizes_sum(ts) + t.size,
        runs_tables(rs.push(r)) == runs_tables(rs) + r.tables@.len(),
        runs_bytes(rs.push(r)) == runs_bytes(rs) + crate::version::sizes_sum(r.tables@),
        discard_total(d.push(e)) == discard_total(d) + e.1,
        runs_tables(Seq::empty()) == 0,
        discard_total(Seq::empty()) == 0,
{
    assert(rs.push(r).drop_last() =~= rs);
    assert(ts.push(t).drop_last() =~= ts);
    assert(d.push(e).drop_last() =~= d);
}

} // verus!
