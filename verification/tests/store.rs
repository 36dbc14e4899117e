//! The store as a whole: writes, merges, group commit and transactions.

use fluent31::batch::{BatchOp, WriteBatch};
use fluent31::commit::{
    batch_of_write, batch_record, cause, chunk_end, degrades, group_byte_cap, may_rotate, plan_group,
    refusal, result_of, settle, validate_group, Cause, Fate, GroupIo, GroupVerdict, Placing, QueuedEntry,
};
use fluent31::compaction::{run_job, MergeOptions};
use fluent31::db::{
    check_bg_error, get_at_seq, level_stats, resolve_repr, set_bg_error, stalled,
    validate_batch,
};
use fluent31::engine::{open_tables, Db};
use fluent31::error::Error;
use fluent31::fork::levels_of;
use fluent31::install::{install_levels, install_manifest};
use fluent31::manifest::{ManifestData, RunMeta};
use fluent31::memtable::Memtable;
use fluent31::identity::PendingFork;
use fluent31::recovery::{
    complete_open, init_fresh, next_free_id, normalize_levels, record_flush, replay,
    settle_identity, YoungFile,
};
use fluent31::scan::{window_from, Pending, PREFETCH_BYTES, PREFETCH_ENTRIES};
use fluent31::stream::{select, size, stream_entries, Backlog};
use fluent31::shape::{pick, JobKind, ShapeOptions};
use fluent31::reopen::open_levels;
use fluent31::txn::{Txn, TxnIter, TxnLimits, TxnRead, TxnStep};
use fluent31::types::{encode_inline, encode_ptr, ValuePtr, MAX_SEQNO};
use fluent31::version::{ReadView, Run, Version};
use fluent31::vlog::{encode_record, record_value_for, scan_records};

const PLACING: Placing = Placing { threshold: 4096, head: 1 };

fn tiny_shape() -> ShapeOptions {
    ShapeOptions { memtable_size: 32 << 10, l0_compaction_trigger: 2, tier_width: 2 }
}

fn merge_opts() -> MergeOptions {
    MergeOptions { block_size: 4096, bloom_bits_per_key: 10, target_file_size: 64 << 20 }
}

/// A store with the options that drive it, kept in memory.
struct Store {
    db: Db,
    opts: MergeOptions,
    shape: ShapeOptions,
}

impl Store {
    fn new(levels: usize) -> Store {
        Store { db: Db::new(levels, 1, 2), opts: merge_opts(), shape: tiny_shape() }
    }

    fn write(&mut self, batch: WriteBatch) {
        self.db.write(&batch.ops, PLACING, 0).unwrap();
    }

    fn put(&mut self, key: impl Into<Vec<u8>>, value: impl Into<Vec<u8>>) {
        let mut b = WriteBatch::new();
        b.put(key.into(), value.into());
        self.write(b);
    }

    fn delete(&mut self, key: impl Into<Vec<u8>>) {
        let mut b = WriteBatch::new();
        b.delete(key.into());
        self.write(b);
    }

    fn get_at(&self, key: &[u8], seq: u64) -> Option<Vec<u8>> {
        match self.db.get(key, seq).unwrap() {
            Some(Pending::Ready(v)) => Some(v),
            Some(Pending::Ptr(_)) => panic!("no value is separated here"),
            None => None,
        }
    }

    fn get(&self, key: &[u8]) -> Option<Vec<u8>> {
        self.get_at(key, MAX_SEQNO)
    }

    fn flush(&mut self) {
        self.db.flush(1, &self.opts).unwrap();
    }

    /// One merge, if one is due.
    fn maintenance_pass(&mut self) -> bool {
        self.db.compact_once(&self.shape, &self.opts, false).unwrap().is_some()
    }

    fn bottom_len(&self) -> usize {
        self.db.version.levels.last().unwrap().len()
    }

    /// The store as it is found again in its files: the manifest names the
    /// tables, and each is opened from its bytes.
    fn reopen(self) -> Store {
        assert!(self.db.mem.is_empty() && self.db.imms.is_empty(), "flush first");
        let mut data = ManifestData::empty();
        data.next_file_id = self.db.next_file_id;
        data.last_flushed_seqno = self.db.visible;
        data.levels = self
            .db
            .version
            .levels
            .iter()
            .map(|l| {
                l.iter()
                    .map(|r| RunMeta {
                        id: r.id,
                        table_ids: r.tables.iter().map(|t| t.id).collect(),
                    })
                    .collect()
            })
            .collect();
        let data = ManifestData::decode(&data.encode()).unwrap();
        let mut files: Vec<(u64, Vec<u8>)> = Vec::new();
        for r in self.db.version.levels.iter().flatten() {
            for t in &r.tables {
                files.push((t.id, t.table.data.clone()));
            }
        }
        let levels = open_levels(&data, &files).unwrap();
        let logs = replay(&vec![], &vec![], &vec![], data.last_flushed_seqno).unwrap();
        let next = data.next_file_id;
        let db = Db::reopen(levels, logs.mem, vec![1], 1, 1, logs.max_seq, next);
        Store { db, opts: self.opts, shape: self.shape }
    }
}

/// A bottom of three runs must read the newest value after splicing: merging
/// the front run into the base would leave middle runs positioned "newer" than
/// newer data.
#[test]
fn three_run_bottom_reads_newest_after_splices() {
    // L0 is the bottom: flushes build bottom runs
    let mut s = Store::new(1);
    // build bottom = [r3(k=v3), r2(k=v2), r1(k=v1)]
    for v in ["v1", "v2", "v3"] {
        s.put("k", v);
        s.put(format!("pad/{v}"), v);
        s.flush();
    }
    assert!(s.db.version.levels[0].len() >= 3, "need a 3-run bottom");
    // splice to quiet
    for _ in 0..50 {
        if !s.maintenance_pass() {
            break;
        }
    }
    assert_eq!(
        s.get(b"k").as_deref(),
        Some(b"v3".as_ref()),
        "newest value must win after incremental bottom merges"
    );
}

/// A tombstone in a newer bottom run must not be dropped while a stranded
/// middle run still holds an older put.
#[test]
fn tombstone_survives_multi_run_bottom_splices() {
    let mut s = Store::new(1);
    s.put("k", "v1");
    s.put("keep/1", "x");
    s.flush();
    s.put("k", "v2");
    s.put("keep/2", "x");
    s.flush();
    s.delete("k");
    s.put("keep/3", "x");
    s.flush();
    assert!(s.db.version.levels[0].len() >= 3);
    for _ in 0..50 {
        if !s.maintenance_pass() {
            break;
        }
    }
    assert_eq!(s.get(b"k"), None, "deleted key resurrected through bottom splices");
    for i in 1..=3 {
        assert!(s.get(format!("keep/{i}").as_bytes()).is_some());
    }
    // and it stays dead across recovery
    let s = s.reopen();
    assert_eq!(s.get(b"k"), None, "resurrected after reopen");
}

/// A bottom level past its byte budget grows a new level instead of being
/// rewritten in place forever; the deeper manifest reopens fine.
#[test]
fn bottom_overflow_deepens_the_tree() {
    let mut s = Store::new(2);
    // unit = 32KiB * 2 = 64KiB; level-1 budget = 128KiB. Write ~2MiB.
    let val = vec![7u8; 1000];
    for i in 0..2000u32 {
        s.put(format!("deep/{i:06}"), val.clone());
        if s.db.mem.approximate_bytes() >= s.shape.memtable_size {
            s.flush();
            s.maintenance_pass();
        }
    }
    s.flush();
    // let maintenance chew until quiet
    for _ in 0..200 {
        if !s.maintenance_pass() {
            break;
        }
    }
    let depth = s.db.version.levels.len();
    assert!(depth > 2, "bottom overflow must deepen: depth={depth}");

    for i in (0..2000u32).step_by(97) {
        assert!(s.get(format!("deep/{i:06}").as_bytes()).is_some());
    }
    // reopen: manifest is deeper than the configured levels
    let s = s.reopen();
    assert!(s.db.version.levels.len() > 2);
    for i in (0..2000u32).step_by(97) {
        assert!(s.get(format!("deep/{i:06}").as_bytes()).is_some());
    }
}

/// A newer bottom run disjoint from most of the base must splice: base tables
/// outside the overlap survive by identity (no rewrite).
#[test]
fn bottom_merge_keeps_untouched_base_tables() {
    let mut s = Store::new(2);
    s.opts.target_file_size = 16 << 10; // many small fragments in the base

    // phase 1: a wide base at the bottom
    let val = vec![3u8; 500];
    for i in 0..1500u32 {
        s.put(format!("a/{i:06}"), val.clone());
        if s.db.mem.approximate_bytes() >= s.shape.memtable_size {
            s.flush();
            s.maintenance_pass();
        }
    }
    s.flush();
    while s.maintenance_pass() {}
    s.db.compact_all(&s.shape, &s.opts).unwrap();
    while s.maintenance_pass() {}
    let base = s.db.version.levels.last().unwrap().last().unwrap();
    assert!(base.tables.len() > 3, "need several base fragments");
    let base_ids: Vec<u64> = base.tables.iter().map(|t| t.id).collect();

    // phase 2: a narrow update touching only the very start of the
    // keyspace, pushed down to the bottom by the tiered merges
    for i in 0..40u32 {
        s.put(format!("a/{i:06}"), vec![9u8; 500]);
    }
    s.flush();
    for _ in 0..200 {
        if !s.maintenance_pass() {
            break;
        }
    }

    let bottom_ids: Vec<u64> = s
        .db
        .version
        .levels
        .last()
        .unwrap()
        .iter()
        .flat_map(|r| r.tables.iter().map(|t| t.id))
        .collect();
    let survived = base_ids.iter().filter(|id| bottom_ids.contains(id)).count();
    assert!(
        survived > 0,
        "an incremental bottom merge must keep base tables outside the \
         overlap by identity (all {} were rewritten)",
        base_ids.len()
    );

    // and the data is right: updated head, untouched tail
    assert_eq!(s.get(b"a/000000").as_deref(), Some(&vec![9u8; 500][..]));
    assert_eq!(s.get(b"a/001400").as_deref(), Some(&vec![3u8; 500][..]));
}

/// A splice (front and base only) must not drop a front-run tombstone whose key
/// a middle bottom run still shadows.
#[test]
fn bottom_splice_must_not_resurrect_deleted_keys() {
    let mut s = Store::new(2);

    // Step A: base run B at the bottom (holds put k@v0 among a..z).
    for i in 0..26u8 {
        s.put(vec![b'a' + i], vec![0u8; 16]);
    }
    s.flush();
    s.put("zz", vec![0u8; 16]);
    s.flush();
    assert!(s.maintenance_pass(), "tier L0->bottom (B)");
    assert_eq!(s.bottom_len(), 1, "bottom = [B]");

    // Step B: middle run M with put k = "resurrected".
    s.put("k", b"resurrected".to_vec());
    s.flush();
    s.put("zz", vec![1u8; 16]);
    s.flush();
    assert!(s.maintenance_pass(), "tier L0->bottom (M)");
    assert_eq!(s.bottom_len(), 2, "bottom = [M, B]");

    // Step C: front run F with delete k. The L0 tier trigger wins over the
    // splice, so the bottom reaches 3 runs.
    s.delete("k");
    s.flush();
    s.put("zz", vec![2u8; 16]);
    s.flush();
    let job = pick(&s.db.version.levels, &s.shape, false, s.db.next_file_id).unwrap();
    assert!(matches!(job.kind, JobKind::Tier), "L0 tier must win over splice");
    assert!(s.maintenance_pass(), "tier L0->bottom (F)");
    assert_eq!(s.bottom_len(), 3, "bottom = [F(del k), M(put k), B]");
    assert_eq!(s.get(b"k"), None, "delete visible pre-splice");

    // Step D: the incremental splice merges one run and B's overlap only.
    let job = pick(&s.db.version.levels, &s.shape, false, s.db.next_file_id).unwrap();
    assert!(matches!(job.kind, JobKind::BottomSplice { .. }));
    assert!(job.older.is_empty(), "splice job carries no older runs");
    assert!(s.maintenance_pass());
    let after_splice = s.get(b"k");

    // Permanence: full compaction, then reopen.
    s.db.compact_all(&s.shape, &s.opts).unwrap();
    let after_full = s.get(b"k");
    let s = s.reopen();
    let after_reopen = s.get(b"k");
    assert!(
        after_splice.is_none() && after_full.is_none() && after_reopen.is_none(),
        "deleted key resurrected: {after_splice:?} {after_full:?} {after_reopen:?}"
    );
}

#[test]
fn merges_keep_what_a_snapshot_sees() {
    let mut s = Store::new(1);
    s.put("k", "old");
    let snap = s.db.snapshot();
    s.put("k", "new");
    s.delete("gone");
    s.flush();
    s.put("other", "x");
    s.flush();
    s.db.compact_all(&s.shape, &s.opts).unwrap();
    assert_eq!(s.db.version.levels[0].len(), 1);
    assert_eq!(s.get_at(b"k", snap.seqno()).as_deref(), Some(&b"old"[..]));
    assert_eq!(s.get(b"k").as_deref(), Some(&b"new"[..]));
    let seq = snap.seqno();
    s.db.release(snap);
    // once released, the next merge forgets the old version
    s.put("more", "y");
    s.flush();
    s.db.compact_all(&s.shape, &s.opts).unwrap();
    s.put("k2", "z");
    s.flush();
    s.put("k", "newest");
    s.flush();
    s.db.compact_all(&s.shape, &s.opts).unwrap();
    assert_eq!(s.get_at(b"k", seq), None);
    assert_eq!(s.get(b"k").as_deref(), Some(&b"newest"[..]));
}

#[test]
fn scan_reads_every_source_in_both_directions() {
    let mut s = Store::new(2);
    s.put("a", "1");
    s.put("b", "2");
    s.flush();
    s.put("c", "3");
    s.delete("a");
    s.db.rotate(7);
    s.put("d", "4");
    s.put(vec![0u8, b'x'], "reserved");
    let read = |reverse: bool, lo: Option<&[u8]>, hi: Option<Vec<u8>>| -> Vec<Vec<u8>> {
        s.db.scan(lo, hi, reverse, MAX_SEQNO)
            .unwrap()
            .into_iter()
            .map(|(k, v)| {
                assert!(matches!(v, Pending::Ready(_)));
                k
            })
            .collect()
    };
    assert_eq!(read(false, None, None), vec![b"b".to_vec(), b"c".to_vec(), b"d".to_vec()]);
    assert_eq!(read(true, None, None), vec![b"d".to_vec(), b"c".to_vec(), b"b".to_vec()]);
    assert_eq!(read(false, Some(b"c"), Some(b"d".to_vec())), vec![b"c".to_vec()]);
}

#[test]
fn a_refused_write_changes_nothing() {
    let mut db = Db::new(1, 1, 2);
    db.visible = MAX_SEQNO - 4;
    let mut b = WriteBatch::new();
    for k in ["a", "b", "c"] {
        b.put(k.as_bytes().to_vec(), b"v".to_vec());
    }
    assert!(matches!(db.write(&b.ops, PLACING, 0), Err(Error::InvalidArgument(_))));
    assert_eq!(db.visible, MAX_SEQNO - 4);
    assert!(db.mem.is_empty());
}

#[test]
fn large_values_go_to_the_value_log() {
    let mut db = Db::new(1, 1, 2);
    db.version.vlogs.push(1);
    let mut b = WriteBatch::new();
    b.put(b"big".to_vec(), vec![5u8; 5000]);
    b.put(b"small".to_vec(), b"s".to_vec());
    let writes = db.write(&b.ops, PLACING, 100).unwrap();
    assert_eq!(writes.len(), 1);
    assert_eq!(writes[0].offset, 100);
    assert_eq!(writes[0].bytes, encode_record(b"big", &vec![5u8; 5000]));
    let Some(Pending::Ptr(p)) = db.get(b"big", MAX_SEQNO).unwrap() else { panic!() };
    assert_eq!(p, ValuePtr { file: 1, offset: 100, len: writes[0].bytes.len() as u32 });
    assert_eq!(record_value_for(&writes[0].bytes, b"big").unwrap(), vec![5u8; 5000]);
    assert!(matches!(db.get(b"small", MAX_SEQNO).unwrap(), Some(Pending::Ready(v)) if v == b"s"));
    assert!(db.get(b"small", 1).unwrap().is_none());
}

// ---------------------------------------------------------------------------
// Group commit
// ---------------------------------------------------------------------------

#[test]
fn group_cap_matches_leveldb_heuristic() {
    assert_eq!(group_byte_cap(0), 128 << 10);
    assert_eq!(group_byte_cap(100), 100 + (128 << 10));
    assert_eq!(group_byte_cap(128 << 10), (128 << 10) * 2);
    assert_eq!(group_byte_cap((128 << 10) + 1), 1 << 20);
    // a >1MiB front is not capped out of its own group: the leader
    // always includes the front, the cap only stops ADDING neighbors
    assert_eq!(group_byte_cap(2 << 20), 1 << 20);
}

#[test]
fn a_group_takes_neighbours_up_to_its_cap() {
    assert_eq!(chunk_end(&vec![2 << 20, 1, 1], 0), 1);
    assert_eq!(chunk_end(&vec![10, 10, 10], 0), 3);
    assert_eq!(chunk_end(&vec![10, 200 << 10, 10], 0), 1);
}

fn limits() -> TxnLimits {
    TxnLimits { max_key_size: 1024, max_value_size: 1 << 20, max_txn_write_bytes: 1 << 20 }
}

/// Apply the queued entries that the group's validation lets through, in order.
fn commit_group(s: &mut Store, entries: Vec<QueuedEntry>) -> Vec<Result<(), Error>> {
    let view = ReadView {
        mem: &s.db.mem,
        imms: Vec::new(),
        version: &s.db.version,
        visible: s.db.visible,
    };
    let verdicts = validate_group(&view, &entries);
    assert_eq!(verdicts.len(), entries.len());
    let mut out = Vec::new();
    for (e, v) in entries.iter().zip(verdicts) {
        match v {
            GroupVerdict::Apply => out.push(s.db.write(&e.ops, PLACING, 0).map(|_| ())),
            GroupVerdict::Done(r) => out.push(r),
        }
    }
    out
}

/// Two conflicting transactions forced into the same group: the in-group
/// written-set check must fail exactly one (the store view alone cannot see the
/// earlier one's uncommitted writes).
#[test]
fn conflicting_txns_in_one_group_cannot_both_commit() {
    let mut s = Store::new(2);
    s.put("k", 0u64.to_le_bytes().to_vec());

    let mut t1 = Txn::new(s.db.visible, limits());
    let mut t2 = Txn::new(s.db.visible, limits());
    for t in [&mut t1, &mut t2] {
        let TxnRead::At(seq) = t.get_for_update(b"k").unwrap() else { panic!() };
        let v = s.get_at(b"k", seq).unwrap();
        let n = u64::from_le_bytes(v[..8].try_into().unwrap());
        t.put(b"k".to_vec(), (n + 1).to_le_bytes().to_vec()).unwrap();
    }

    let group = vec![t1.commit().unwrap(), t2.commit().unwrap()];
    let r = commit_group(&mut s, group);
    let ok = r.iter().filter(|b| b.is_ok()).count();
    assert_eq!(ok, 1, "exactly one may commit: {r:?}");
    let v = s.get(b"k").unwrap();
    assert_eq!(u64::from_le_bytes(v[..8].try_into().unwrap()), 1);
}

/// A plain batch write queued ahead of a transaction in the same group conflicts
/// it via the in-group written set.
#[test]
fn plain_write_in_same_group_conflicts_later_txn() {
    let mut s = Store::new(2);
    s.put("k", "orig");

    let mut txn = Txn::new(s.db.visible, limits());
    let _ = txn.get_for_update(b"k").unwrap();
    txn.put(b"k".to_vec(), b"from-txn".to_vec()).unwrap();

    let mut put = WriteBatch::new();
    put.put(b"k".to_vec(), b"from-put".to_vec());
    let plain = QueuedEntry { ops: put.ops, validate: None };
    let r = commit_group(&mut s, vec![plain, txn.commit().unwrap()]);
    assert!(r[0].is_ok());
    assert!(matches!(r[1], Err(Error::Conflict)), "{r:?}");
    assert_eq!(s.get(b"k").as_deref(), Some(b"from-put".as_ref()));
}

#[test]
fn a_committed_write_conflicts_an_older_transaction() {
    let mut s = Store::new(2);
    s.put("k", "orig");
    let mut txn = Txn::new(s.db.visible, limits());
    let _ = txn.get_for_update(b"k").unwrap();
    txn.put(b"j".to_vec(), b"v".to_vec()).unwrap();
    s.put("k", "changed");
    let r = commit_group(&mut s, vec![txn.commit().unwrap()]);
    assert!(matches!(r[0], Err(Error::Conflict)));
    assert_eq!(s.get(b"j"), None);
}

/// Validation failures are batch-local: a mid-group reject consumes no seqnos,
/// later batches proceed, and every batch gets exactly one result.
#[test]
fn group_validation_failure_is_batch_local_and_results_complete() {
    // park the visible seqno so close to MAX_SEQNO that a 3-op batch fails
    // the seqno-space check while 1-op batches still fit
    let seen = MAX_SEQNO - 4;
    let mk = |n: usize| -> Vec<BatchOp> {
        let mut b = WriteBatch::new();
        for i in 0..n {
            b.put(format!("k{n}-{i}").into_bytes(), b"v".to_vec());
        }
        b.ops
    };
    let batches = vec![mk(1), mk(3), mk(1)];
    let plan = plan_group(&batches, seen, PLACING, 0);
    assert_eq!(plan.placed.len(), 2, "the middle batch is refused, the others proceed");
    assert_eq!((plan.placed[0].index, plan.placed[1].index), (0, 2));
    let r = refusal(&mk(3));
    assert!(matches!(&r, Error::InvalidArgument(m) if m.contains("seqno")), "{r:?}");
    let io = GroupIo {
        vlog_append: None,
        vlog_sync: false,
        wal_append: None,
        wal_refused: false,
        wal_sync: false,
    };
    let mut db = Db::new(1, 1, 2);
    db.visible = seen;
    let (fates, published) = db.finish_group(&batches, PLACING, 0, &plan, &io);
    assert_eq!(fates.len(), 2);
    assert!(fates.iter().all(|f| *f == Fate::Applied));
    assert_eq!(published, 2);
    // the skipped batch consumed no seqnos: exactly 2 were used
    assert_eq!(db.visible, MAX_SEQNO - 2);
    assert!(db.get(b"k1-0", MAX_SEQNO).unwrap().is_some());
    assert!(db.get(b"k3-0", MAX_SEQNO).unwrap().is_none());
}

#[test]
fn only_what_was_logged_is_published() {
    let put = |k: &str, v: &str| {
        let mut b = WriteBatch::new();
        b.put(k.as_bytes().to_vec(), v.as_bytes().to_vec());
        b.ops
    };
    let batches = vec![put("a", "1"), put("a", "2"), put("b", "3")];
    let mut s = Store::new(1);
    let plan = plan_group(&batches, s.db.visible, PLACING, 0);
    let io = GroupIo {
        vlog_append: None,
        vlog_sync: false,
        wal_append: Some(2),
        wal_refused: false,
        wal_sync: false,
    };
    let (_, published) = s.db.finish_group(&batches, PLACING, 0, &plan, &io);
    assert_eq!(published, 2);
    assert_eq!(s.db.visible, 2);
    assert_eq!(s.get(b"a").as_deref(), Some(&b"2"[..]));
    assert_eq!(s.get(b"b"), None);
    // a log that could not be synced publishes nothing
    let mut s = Store::new(1);
    let plan = plan_group(&batches, s.db.visible, PLACING, 0);
    let io = GroupIo { wal_append: None, wal_sync: true, ..io };
    let (fates, published) = s.db.finish_group(&batches, PLACING, 0, &plan, &io);
    assert_eq!(published, 0);
    assert!(fates.iter().all(|f| *f != Fate::Applied));
    assert_eq!(s.get(b"a"), None);
}

#[test]
fn a_failed_log_append_keeps_the_prefix() {
    let ok = GroupIo {
        vlog_append: None,
        vlog_sync: false,
        wal_append: None,
        wal_refused: false,
        wal_sync: false,
    };
    assert!(!degrades(&ok));
    let io = GroupIo { wal_append: Some(1), ..ok };
    let (fates, published) = settle(&io, 3);
    assert_eq!(published, 1);
    assert!(fates[0] == Fate::Applied);
    assert!(fates[1] != Fate::Applied && fates[2] != Fate::Applied);
    assert!(degrades(&io));
    assert!(!may_rotate(&io, published));
}

#[test]
fn planned_records_replay_into_a_memtable() {
    let mut b = WriteBatch::new();
    b.put(b"big".to_vec(), vec![5u8; 5000]);
    b.put(b"small".to_vec(), b"s".to_vec());
    b.delete(b"gone".to_vec());
    let plan = plan_group(&vec![b.ops], 10, PLACING, 0);
    assert_eq!(plan.placed[0].base, 11);
    assert_eq!(batch_of_write(&plan, 0), 0);
    let file = batch_record(plan.placed[0].base, &plan.placed[0].entries).unwrap();
    let mut log: Vec<u8> = Vec::new();
    for w in &plan.writes {
        log.extend_from_slice(&w.bytes);
    }
    let (records, valid) = scan_records(&log);
    assert_eq!(valid, log.len() as u64);
    let young = vec![YoungFile { id: 1, records }];
    let got = replay(&vec![(3, file.clone())], &young, &vec![1], 0).unwrap();
    assert_eq!(got.max_seq, 13);
    assert!(got.truncate.is_none());
    let mem: Memtable = got.mem;
    assert_eq!(mem.get(b"small", MAX_SEQNO).unwrap().2, encode_inline(b"s"));
    let p = ValuePtr { file: 1, offset: 0, len: plan.writes[0].bytes.len() as u32 };
    assert_eq!(mem.get(b"big", MAX_SEQNO).unwrap().2, encode_ptr(p));

    // a torn tail is cut off at the last whole record
    let mut torn = file.clone();
    let keep = torn.len() as u64;
    torn.extend_from_slice(&file[..10]);
    let records = scan_records(&log).0;
    let young = vec![YoungFile { id: 1, records }];
    let got = replay(&vec![(3, torn)], &young, &vec![1], 0).unwrap();
    assert_eq!(got.truncate, Some((3, keep)));
}

#[test]
fn a_restart_loses_nothing_that_was_logged() {
    // two logs: one frozen memtable and the active one; a table from before
    let mut s = Store::new(2);
    s.put("a", "1");
    s.put("b", "1");
    s.flush();
    let mut logs: Vec<(u64, Vec<u8>)> = Vec::new();
    for (id, keys) in [(10u64, ["b", "c"]), (11, ["a", "c"])] {
        let mut file = Vec::new();
        for k in keys {
            let mut b = WriteBatch::new();
            b.put(k.as_bytes().to_vec(), format!("{id}").into_bytes());
            let plan = plan_group(&vec![b.ops], s.db.visible, PLACING, 0);
            file.extend(batch_record(plan.placed[0].base, &plan.placed[0].entries).unwrap());
            s.db.publish(&plan.placed[0].entries);
        }
        logs.push((id, file));
        if id == 10 {
            s.db.rotate(11);
        }
    }
    let flushed = s.db.version.levels[0][0].tables[0].table.data.clone();
    let id = s.db.version.levels[0][0].tables[0].id;
    let mut data = ManifestData::empty();
    data.levels = vec![
        vec![RunMeta { id: s.db.version.levels[0][0].id, table_ids: vec![id] }],
        vec![],
    ];
    data.last_flushed_seqno = 2;
    // the newest log ends in half a record
    let torn = logs[0].1[..9].to_vec();
    logs[1].1.extend(torn);
    let rec = replay(&logs, &vec![], &vec![], 2).unwrap();
    assert!(matches!(rec.truncate, Some((11, _))));
    let levels = open_levels(&data, &vec![(id, flushed)]).unwrap();
    let db = Db::reopen(levels, rec.mem, vec![], 0, 12, rec.max_seq, s.db.next_file_id);
    assert_eq!(db.visible, s.db.visible);
    let back = Store { db, opts: merge_opts(), shape: tiny_shape() };
    for key in ["a", "b", "c", "d"] {
        for seq in 0..=s.db.visible {
            assert_eq!(
                back.get_at(key.as_bytes(), seq),
                s.get_at(key.as_bytes(), seq),
                "{key} at {seq}"
            );
        }
    }
}

#[test]
fn a_missing_table_is_an_error() {
    let mut data = ManifestData::empty();
    data.levels = vec![vec![RunMeta { id: 3, table_ids: vec![4] }]];
    assert!(matches!(open_levels(&data, &vec![]), Err(Error::Io(_))));
    assert!(open_levels(&data, &vec![(4, vec![1, 2, 3])]).is_err());
}

#[test]
fn a_store_keeps_its_name() {
    let mut d = init_fresh();
    settle_identity(&mut d, None).unwrap();
    assert!(d.identity.is_none());
    settle_identity(&mut d, Some("prod")).unwrap();
    assert_eq!(d.identity.as_ref().unwrap().name, "prod");
    settle_identity(&mut d, Some("prod")).unwrap();
    assert!(matches!(settle_identity(&mut d, Some("other")), Err(Error::InvalidArgument(_))));
    // a fork mints its identity when it is first opened
    let parent = d.identity.clone().unwrap();
    let mut f = init_fresh();
    let fork = PendingFork {
        parent_instance_id: parent.instance_id,
        cut_seqno: 9,
        name: "nightly".into(),
    };
    let minted = fork.mint();
    f.pending_fork = Some(fork);
    settle_identity(&mut f, None).unwrap();
    assert_eq!(f.identity, Some(minted));
    assert!(f.pending_fork.is_none());
}

// ---------------------------------------------------------------------------
// Transactions
// ---------------------------------------------------------------------------

#[test]
fn a_transaction_reads_its_own_writes() {
    let mut t = Txn::new(5, limits());
    assert_eq!(t.snapshot_seqno(), 5);
    t.put(b"b".to_vec(), b"mine".to_vec()).unwrap();
    t.delete(b"c".to_vec()).unwrap();
    assert!(matches!(t.get(b"b").unwrap(), TxnRead::Own(Some(v)) if v == b"mine"));
    assert!(matches!(t.get(b"c").unwrap(), TxnRead::Own(None)));
    assert!(matches!(t.get(b"d").unwrap(), TxnRead::At(5)));
    assert_eq!(t.write_set_len(), 2);

    // the store holds a, b and c
    let mut base = vec![
        (b"a".to_vec(), b"1".to_vec()),
        (b"b".to_vec(), b"2".to_vec()),
        (b"c".to_vec(), b"3".to_vec()),
    ]
    .into_iter();
    let mut it = TxnIter::new(t.overlay(None, None, false), false);
    let mut out = Vec::new();
    loop {
        match it.next() {
            TxnStep::NeedBase => it.feed(base.next()),
            TxnStep::Item(k, v) => out.push((k, v)),
            TxnStep::End => break,
        }
    }
    assert_eq!(
        out,
        vec![(b"a".to_vec(), b"1".to_vec()), (b"b".to_vec(), b"mine".to_vec())]
    );
}

#[test]
fn a_transaction_without_writes_commits_nothing() {
    let t = Txn::new(5, limits());
    assert!(t.commit().is_none());
}

#[test]
fn transactions_refuse_what_writes_refuse() {
    let mut t = Txn::new(5, limits());
    assert!(matches!(t.put(Vec::new(), Vec::new()), Err(Error::InvalidArgument(_))));
    assert!(matches!(t.put(vec![0, 1], Vec::new()), Err(Error::InvalidArgument(_))));
    assert!(matches!(t.put(vec![b'k'; 2000], Vec::new()), Err(Error::InvalidArgument(_))));
    assert_eq!(t.write_set_len(), 0);

    let mut b = WriteBatch::new();
    b.put(vec![b'k'; 2000], Vec::new());
    assert!(validate_batch(&b, 1024, 1024).is_err());
    let mut b = WriteBatch::new();
    b.put(b"k".to_vec(), vec![0; 2000]);
    assert!(validate_batch(&b, 1024, 1024).is_err());
    assert!(validate_batch(&b, 1024, 2000).is_ok());
}

// ---------------------------------------------------------------------------
// Pieces of the store
// ---------------------------------------------------------------------------

#[test]
fn background_errors_stick() {
    let mut e: Option<String> = None;
    assert!(check_bg_error(&e, false).is_ok());
    set_bg_error(&mut e, String::from("first"));
    set_bg_error(&mut e, String::from("second"));
    match check_bg_error(&e, false) {
        Err(Error::Background(m)) => assert_eq!(m, "first"),
        other => panic!("{other:?}"),
    }
    assert!(matches!(check_bg_error(&None, true), Err(Error::Closed)));
    assert_eq!(Error::Closed.message(), "database closed");
}

#[test]
fn values_resolve_by_their_representation() {
    assert!(matches!(resolve_repr(&encode_inline(b"v"), &vec![]).unwrap(),
        Pending::Ready(v) if v == b"v"));
    let p = ValuePtr { file: 3, offset: 4, len: 5 };
    assert!(matches!(resolve_repr(&encode_ptr(p), &vec![3]).unwrap(), Pending::Ptr(q) if q == p));
    assert!(matches!(resolve_repr(&encode_ptr(p), &vec![4]), Err(Error::Corruption(_))));
}

#[test]
fn reads_stop_at_what_is_visible() {
    let mut mem = Memtable::new(1);
    mem.insert(
        fluent31::types::make_ikey(b"k", 9, fluent31::types::ValueKind::Put),
        encode_inline(b"late"),
    );
    let version = Version::empty(1);
    let view = ReadView { mem: &mem, imms: Vec::new(), version: &version, visible: 8 };
    assert!(get_at_seq(&view, 8, b"k", MAX_SEQNO).unwrap().is_none());
    assert!(get_at_seq(&view, 9, b"k", MAX_SEQNO).unwrap().is_some());
}

#[test]
fn levels_are_counted() {
    let mut s = Store::new(1);
    s.put("a", "1");
    s.put("c", "1");
    s.flush();
    s.put("b", "1");
    s.flush();
    let (runs, tables, bytes) = level_stats(&s.db.version.levels[0]);
    assert_eq!((runs, tables), (2, 2));
    assert!(bytes > 0);
    let job = pick(&s.db.version.levels, &s.shape, true, 99).unwrap();
    let out = run_job(&job.inputs, &job.older, s.db.visible, &s.opts).unwrap();
    assert_eq!(out.tables.len(), 1);
    assert_eq!(out.tables[0].stats.entries, 3);
}

#[test]
fn the_manifest_follows_the_tree() {
    let mut s = Store::new(2);
    let mut data = init_fresh();
    normalize_levels(&mut data, 2);
    for (wal, key) in [(5, "a"), (6, "b")] {
        s.put(key, "1");
        s.db.rotate(wal + 1);
        let f = s.db.flush_one(&s.opts).unwrap().unwrap();
        let run = f.run.map(|(id, table_ids)| RunMeta { id, table_ids });
        record_flush(&mut data, run, f.max_seq, f.wal_id, s.db.next_file_id);
        assert_eq!(data.levels, levels_of(&s.db.version.levels));
    }
    assert_eq!(data.last_flushed_seqno, 2);
    assert_eq!(data.wal_floor, 7);
    // a merge, installed in both
    let job = pick(&s.db.version.levels, &s.shape, false, 50).unwrap();
    let out = run_job(&job.inputs, &job.older, s.db.visible, &s.opts).unwrap();
    let tables = open_tables(out.tables, 51).unwrap();
    let output = Some(Run { id: 50, tables });
    install_manifest(&mut data, &job, &output, &out.discard, &vec![], 52);
    install_levels(&mut s.db.version.levels, &job, output);
    assert_eq!(data.levels, levels_of(&s.db.version.levels));
    assert_eq!((data.levels[0].len(), data.levels[1].len()), (0, 1));
    assert_eq!(s.get(b"a").as_deref(), Some(&b"1"[..]));
}

#[test]
fn ids_continue_past_every_file() {
    assert_eq!(next_free_id(5, &vec![3, 9, 4]), 10);
    assert_eq!(next_free_id(5, &vec![]), 5);
    let mut d = init_fresh();
    complete_open(&mut d, &vec![2, 7], 8, 7, 9);
    assert_eq!(d.vlog_head, 7);
    assert_eq!(d.next_file_id, 9);
}

#[test]
fn writers_stall_behind_flushes() {
    assert!(!stalled(0, 4, 0, 10));
    assert!(stalled(4, 4, 0, 10));
    assert!(stalled(0, 4, 10, 10));
}

#[test]
fn writers_are_told_what_became_of_their_batch() {
    assert!(result_of(Fate::Applied, None, "disk full").is_ok());
    let own = Some(Error::Io("disk full".to_string()));
    assert!(matches!(result_of(Fate::Failed, own, "x"), Err(Error::Io(m)) if m == "disk full"));
    let told = "write group aborted by another batch's failure: disk full";
    let r = result_of(Fate::Failed, None, "disk full");
    assert!(matches!(r, Err(Error::Io(m)) if m == told));
    let r = result_of(Fate::Aborted, None, "disk full");
    assert!(matches!(r, Err(Error::Io(m)) if m == told));
}

/// Each batch is told of the failure that it met first.
#[test]
fn failures_are_told_apart() {
    let io = GroupIo {
        vlog_append: Some(3),
        vlog_sync: false,
        wal_append: Some(1),
        wal_refused: false,
        wal_sync: false,
    };
    assert!(cause(&io, 0).is_none());
    assert!(matches!(cause(&io, 1), Some(Cause::WalAppend)));
    assert!(matches!(cause(&io, 2), Some(Cause::WalAppend)));
    assert!(matches!(cause(&io, 3), Some(Cause::VlogAppend)));
    let (fates, published) = settle(&io, 5);
    assert_eq!(published, 1);
    assert!(fates[1] == Fate::Failed && fates[3] == Fate::Failed);
    assert!(fates[2] == Fate::Aborted && fates[4] == Fate::Aborted);
    let io = GroupIo { vlog_sync: true, ..io };
    assert!(matches!(cause(&io, 0), Some(Cause::VlogSync)));
    let io = GroupIo {
        vlog_append: None,
        vlog_sync: false,
        wal_append: None,
        wal_refused: false,
        wal_sync: true,
    };
    assert!(matches!(cause(&io, 4), Some(Cause::WalSync)));
}

#[test]
fn a_stream_carries_what_concerns_its_reader() {
    let ops = vec![
        BatchOp::Put { key: b"a".to_vec(), value: b"1".to_vec() },
        BatchOp::Delete { key: b"b".to_vec() },
        BatchOp::Put { key: b"c".to_vec(), value: b"333".to_vec() },
    ];
    let all = stream_entries(&ops, 40);
    let seqnos: Vec<u64> = all.iter().map(|e| e.seqno).collect();
    assert_eq!(seqnos, vec![40, 41, 42]);
    assert_eq!(size(&all), 7);
    let some = select(&all, b"b", Some(b"c"));
    assert_eq!(some.len(), 1);
    assert_eq!((some[0].key.as_slice(), some[0].value.is_none()), (b"b".as_slice(), true));
    assert_eq!(select(&all, b"b", None).len(), 2);
    assert!(select(&all, b"d", None).is_empty());
}

#[test]
fn a_subscriber_past_its_cap_lags_for_good() {
    let mut q = Backlog::new();
    assert!(q.offer(6, 10));
    assert!(q.offer(4, 10));
    q.taken(6);
    assert_eq!(q.bytes, 4);
    assert!(!q.offer(7, 10));
    assert!(q.lagged);
    assert!(!q.offer(1, 10));
    assert_eq!(q.bytes, 4);
}

#[test]
fn windows_end_at_either_limit() {
    let small = |n: usize| -> Vec<(Vec<u8>, Pending)> {
        (0..n).map(|_| (b"k".to_vec(), Pending::Ready(b"v".to_vec()))).collect()
    };
    assert_eq!(window_from(&small(3), 0), 3);
    assert_eq!(window_from(&small(3), 3), 3);
    assert_eq!(window_from(&small(100), 40), 40 + PREFETCH_ENTRIES);
    let p = ValuePtr { file: 1, offset: 0, len: PREFETCH_BYTES as u32 };
    let mut big = small(3);
    big[1].1 = Pending::Ptr(p);
    assert_eq!(window_from(&big, 0), 2);
    assert_eq!(window_from(&big, 2), 3);
}

/// A merge's output is cut into files at the target size, between user keys.
#[test]
fn files_are_cut_at_the_target_size() {
    let mut s = Store::new(2);
    s.opts.block_size = 256;
    s.opts.target_file_size = 1024;
    for i in 0..100u32 {
        s.put(format!("key{i:03}"), vec![b'v'; 40]);
    }
    s.flush();
    let run = &s.db.version.levels[0][0];
    assert!(run.tables.len() > 3);
    for (i, t) in run.tables.iter().enumerate() {
        if i + 1 < run.tables.len() {
            assert!(t.table.data.len() >= 1024);
            assert!(t.table.max_ukey() < run.tables[i + 1].table.min_ukey());
        }
    }
}
