//! The store in memory: what is written, how reads see it, and the moves that
//! bring it from the memtable down the tree. Files are written from what these
//! moves return.

use std::sync::Arc;

use vstd::prelude::*;

use crate::batch::{BatchOp, EncEntry};
use crate::commit::{apply_entries, batch_approx, place_batch, refusal, Placing, VlogWrite, BATCH_LIMIT};
use crate::compaction::{build_run_from_mem, Fragment, MergeOptions};
use crate::db::{get_at_seq, Snapshot, SnapshotList};
use crate::error::{invalid, Error, Result};
use crate::memtable::Memtable;
use crate::iter::InternalIterator;
use crate::order::to_bytes;
use crate::range::{damage_of, read_runs, scan_children};
use crate::scan::{DbIterator, Pending};
use crate::table::reader::Table;
use crate::types::{SeqNo, MAX_SEQNO};
use crate::version::{Child, ReadView, Run, TableHandle, Version};

verus! {

use crate::batch::{entries_view, ops_view, Entry, Op};
use crate::commit::{
    admissible, applied, approx, batch_kvs, bytes_after, last_on, lemma_approx_take, lemma_batch_kv,
    op_approx, op_writes, place_end, placed, placed_entry, separated, writes_view,
};
use crate::compaction::{
    files, fits_format, fragment_sound, fragments_entries, is_put, lemma_written_run_reads_back,
    split_between_keys, top_seq, value_of,
};
use crate::db::{lower, point_answer};
use crate::install::table_ids;
use crate::iter::{flat, in_some, kinds_ok, lemma_merged, mergeable, merged, parts_of, sorted, Kv};
use crate::mvcc::find_newest;
use crate::order::{lex_le, lex_lt};
use crate::range::{
    behind, is_first_damage, is_last_damage, lemma_narrowed, lemma_part_scans, lemma_range_of_runs,
    lemma_sound_above, lemma_sound_below, range_sound, runs_reached,
};
use crate::ranges::{is_visible_pair, lemma_user_scan_is_the_range};
use crate::scan::{is_window, pending_is, readable, window_end};
use crate::table::{p_table, table_sound};
use crate::tree::{
    lacks, lemma_lacks_finds_nothing, lemma_newest_first_mergeable, lemma_one_source,
    lemma_write_is_read_back,
};
use crate::types::{
    kind_byte_of, kind_of_byte, lemma_repr_roundtrip, p_repr, seqno_of, ukey_of, Repr,
};
use crate::version::{
    first_hit, fragments, fragments_open, fragments_sound, in_tree, lemma_first_hit_split,
    lemma_front_lookup, lemma_intact_sources_lookup, lemma_sound_is_intact, lemma_sound_run_lookup,
    lemma_sound_sources_lookup, level_entries, mems_entries, newest_first, runs_entries,
    sources_lookup,
};

/// Every entry has a known kind, and every value a representation that can be
/// read.
pub open spec fn good(es: Seq<Kv>) -> bool {
    &&& kinds_ok(es)
    &&& forall|i: int|
        0 <= i < es.len() && is_put(#[trigger] es[i]) ==> p_repr(es[i].repr) is Some
}

pub open spec fn imm_es(ms: Seq<Memtable>) -> Seq<Seq<Kv>> {
    ms.map_values(|m: Memtable| m.entries())
}

/// What holds of all sources: each is good, newer sources hold newer versions,
/// and none holds a version that is not visible yet.
pub open spec fn sources_ok(srcs: Seq<Seq<Kv>>, visible: nat) -> bool {
    &&& newest_first(srcs)
    &&& forall|l: int| 0 <= l < srcs.len() ==> good(#[trigger] srcs[l])
    &&& forall|l: int, i: int|
        0 <= l < srcs.len() && 0 <= i < srcs[l].len() ==> seqno_of((#[trigger] srcs[l][i]).key)
            <= visible
}

/// Every table's id is below the counter.
pub open spec fn ids_below(ts: Seq<Arc<TableHandle>>, next_file_id: u64) -> bool {
    forall|t: int| 0 <= t < ts.len() ==> (#[trigger] ts[t]).id < next_file_id
}

/// Tables under consecutive ids are below whatever comes behind these.
pub proof fn lemma_ids_below(ts: Seq<Arc<TableHandle>>, first: u64, next: u64)
    requires
        table_ids(ts) == ids_from(first, ts.len()),
        first + ts.len() <= next,
    ensures
        ids_below(ts, next),
{
    assert forall|t: int| 0 <= t < ts.len() implies (#[trigger] ts[t]).id < next by {
        assert(table_ids(ts)[t] == ts[t].id);
        assert(ids_from(first, ts.len())[t] == (first + t) as u64);
    }
}

/// The levels are intact and open, every run has tables, and the ids of runs and
/// tables are below the counter, those of runs told apart within a level.
pub open spec fn levels_ok(levels: Seq<Vec<Run>>, next_file_id: u64) -> bool {
    &&& 0 < levels.len() < usize::MAX
    &&& forall|l: int, k: int|
        0 <= l < levels.len() && 0 <= k < levels[l]@.len() ==> {
            &&& fragments_open((#[trigger] levels[l]@[k]).tables@)
            &&& levels[l]@[k].intact()
            &&& levels[l]@[k].tables@.len() > 0
            &&& levels[l]@[k].id < next_file_id
            &&& ids_below(levels[l]@[k].tables@, next_file_id)
        }
    &&& forall|l: int, k: int, m: int|
        0 <= l < levels.len() && 0 <= k < m < levels[l]@.len() ==> (#[trigger] levels[l]@[k]).id != (
        #[trigger] levels[l]@[m]).id
}

/// What a read finds once a batch is visible: its last operation on the key, or
/// else what was there.
pub open spec fn batch_look(
    before: Db,
    base: u64,
    es: Seq<Entry>,
    uk: Seq<u8>,
    snap: SeqNo,
) -> Option<Option<Kv>> {
    match last_on(es, uk, es.len() as int) {
        Some(i) => Some(Some(batch_kvs(base, es)[i])),
        None => before.lookup(uk, snap),
    }
}

/// A batch that was published is read back: reads that see all of it find its
/// last operation on each key it touched, whatever else can be read, and reads
/// at older seqnos find what they found before.
pub open spec fn batch_read_back(before: Db, after: Db, base: u64, es: Seq<Entry>) -> bool {
    forall|uk: Seq<u8>, snap: SeqNo|
        (snap < base ==> #[trigger] after.lookup(uk, snap) == before.lookup(uk, snap)) && (snap
            >= base + es.len() - 1 ==> after.lookup(uk, snap) == batch_look(
            before,
            base,
            es,
            uk,
            snap,
        ))
}

/// The state of a store.
pub struct Db {
    pub mem: Memtable,
    /// Frozen memtables, newest first; flush consumes from the back.
    pub imms: Vec<Memtable>,
    pub version: Version,
    pub visible: SeqNo,
    pub snapshots: SnapshotList,
    pub next_file_id: u64,
}

/// One more run stands in front of level 0; the others are where they were.
pub open spec fn newest_in_front(before: Seq<Vec<Run>>, after: Seq<Vec<Run>>) -> bool {
    &&& after.len() == before.len()
    &&& after.len() > 0
    &&& after[0]@.len() == before[0]@.len() + 1
    &&& after[0]@.skip(1) == before[0]@
    &&& forall|l: int| 1 <= l < before.len() ==> #[trigger] after[l] == before[l]
}

/// Runs were put in front of level 0; all others are where they were.
pub open spec fn grown_in_front(before: Seq<Vec<Run>>, after: Seq<Vec<Run>>) -> bool {
    &&& after.len() == before.len()
    &&& before.len() > 0 ==> after[0]@.len() >= before[0]@.len() && after[0]@.skip(
        after[0]@.len() - before[0]@.len(),
    ) == before[0]@
    &&& forall|l: int| 1 <= l < before.len() ==> #[trigger] after[l] == before[l]
}

proof fn lemma_grown_further(a: Seq<Vec<Run>>, b: Seq<Vec<Run>>, c: Seq<Vec<Run>>)
    requires
        grown_in_front(a, b),
        newest_in_front(b, c) || b == c,
    ensures
        grown_in_front(a, c),
{
    if b != c {
        let n = a[0]@.len() as int;
        let m = b[0]@.len() as int;
        assert(c[0]@.skip(m + 1 - n) =~= c[0]@.skip(1).skip(m - n));
        assert forall|l: int| 1 <= l < a.len() implies #[trigger] c[l] == a[l] by {
            assert(b[l] == a[l]);
        }
    }
}

/// A memtable that was flushed: what the manifest records of it.
pub struct Flushed {
    /// The new run's id and its tables' ids; nothing where the memtable was
    /// empty.
    pub run: Option<(u64, Vec<u64>)>,
    pub max_seq: SeqNo,
    pub wal_id: u64,
}

/// A run that was built from a memtable and is not installed yet.
pub struct BuiltRun {
    /// Nothing where the memtable was empty.
    pub run: Option<Run>,
    pub max_seq: SeqNo,
    pub wal_id: u64,
}

/// The run holds what the memtable holds.
pub open spec fn built_from(b: BuiltRun, m: Memtable) -> bool {
    let es = m.entries();
    &&& b.wal_id == m.wal()
    &&& b.max_seq == top_seq(es, es.len() as int)
    &&& match b.run {
        None => es.len() == 0,
        Some(run) => {
            &&& es.len() > 0
            &&& fragments_open(run.tables@)
            &&& run.sound()
            &&& run.tables@.len() > 0
            &&& sized(run.tables@)
            &&& run.entries() == es
        },
    }
}

impl Db {
    /// What the memtables and the sound tables hold, newest source first.
    pub open spec fn sources(self) -> Seq<Seq<Kv>> {
        seq![self.mem.entries()] + imm_es(self.imms@) + self.version.sources()
    }

    /// The memtables' entries, newest first.
    pub open spec fn memtables(self) -> Seq<Seq<Kv>> {
        seq![self.mem.entries()] + imm_es(self.imms@)
    }

    /// What a lookup finds: nothing at all where a block on its path cannot be
    /// read.
    pub open spec fn lookup(self, uk: Seq<u8>, snap: SeqNo) -> Option<Option<Kv>> {
        sources_lookup(self.memtables(), self.version.levels@, uk, snap)
    }

    /// `r` answers a read of the key at the seqno.
    pub open spec fn answers(self, key: Seq<u8>, seq: SeqNo, r: Result<Option<Pending>>) -> bool {
        point_answer(r, self.lookup(key, lower(seq, self.visible)), self.version.vlogs@)
    }

    /// Where no table is damaged, a lookup finds the newest version that the
    /// sources hold.
    pub proof fn lemma_sound_lookup(&self, uk: Seq<u8>, snap: SeqNo)
        requires
            self.version.sound(),
            snap <= MAX_SEQNO,
        ensures
            self.lookup(uk, snap) == Some(first_hit(self.sources(), uk, snap as nat)),
    {
        lemma_sound_sources_lookup(self.memtables(), self.version, uk, snap);
    }

    /// A lookup that meets no damage finds the newest version that the sources
    /// hold, whatever else is damaged.
    pub proof fn lemma_lookup_is_newest(&self, uk: Seq<u8>, snap: SeqNo)
        requires
            self.inv(),
            snap <= MAX_SEQNO,
        ensures
            self.lookup(uk, snap) matches Some(hit) ==> hit == first_hit(
                self.sources(),
                uk,
                snap as nat,
            ),
    {
        let ls = self.version.levels@;
        assert forall|l: int, k: int| 0 <= l < ls.len() && 0 <= k < ls[l]@.len() implies (
        #[trigger] ls[l]@[k]).intact() by {}
        lemma_intact_sources_lookup(self.memtables(), self.version, uk, snap);
    }

    pub open spec fn inv(self) -> bool {
        &&& self.mem.inv()
        &&& forall|i: int| 0 <= i < self.imms@.len() ==> (#[trigger] self.imms@[i]).inv()
        &&& levels_ok(self.version.levels@, self.next_file_id)
        &&& sources_ok(self.sources(), self.visible as nat)
        &&& self.visible < MAX_SEQNO
        &&& self.snapshots.wf()
        &&& forall|q: u64| #[trigger] self.snapshots.held(q) > 0 ==> q <= self.visible
    }

    /// A store with nothing in it.
    pub fn new(levels: usize, wal_id: u64, next_file_id: u64) -> (e: Self)
        requires
            0 < levels < usize::MAX,
        ensures
            e.inv(),
            e.visible == 0,
            e.next_file_id == next_file_id,
            e.version.levels@.len() == levels,
            e.version.vlogs@.len() == 0,
            e.version.vlog_head_id == 0,
            e.mem.wal() == wal_id,
            e.mem.bytes() == 0,
            e.imms@.len() == 0,
            forall|q: u64| #[trigger] e.snapshots.held(q) == 0,
            forall|l: int| 0 <= l < e.sources().len() ==> (#[trigger] e.sources()[l]).len() == 0,
    {
        let version = Version::empty(levels);
        let e = Db {
            mem: Memtable::new(wal_id),
            imms: Vec::new(),
            version,
            visible: 0,
            snapshots: SnapshotList::new(),
            next_file_id,
        };
        proof {
            lemma_no_levels(e.version.levels@, levels as nat);
            assert(imm_es(e.imms@) =~= Seq::<Seq<Kv>>::empty());
            assert(e.sources() =~= seq![Seq::<Kv>::empty()]);
        }
        e
    }

    /// Read a key at a seqno: the newest version at or below it, nothing for a
    /// tombstone. A damaged block fails only the reads whose path it is on.
    pub fn get(&self, key: &[u8], seq: SeqNo) -> (r: Result<Option<Pending>>)
        requires
            self.inv(),
        ensures
            self.answers(key@, seq, r),
            ({
                let hit = first_hit(self.sources(), key@, lower(seq, self.visible) as nat);
                match r {
                    Ok(None) => value_of(hit) is None,
                    Ok(Some(p)) => value_of(hit) matches Some(repr) && (p_repr(repr) matches Some(
                        x,
                    ) && pending_is(p, x)),
                    Err(e) => self.version.sound() ==> e is Corruption && (value_of(hit) matches Some(
                        repr,
                    ) && (p_repr(repr) matches Some(Repr::Ptr(q)) && !self.version.vlogs@.contains(
                        q.file,
                    ))),
                }
            }),
    {
        let mut imms: Vec<&Memtable> = Vec::new();
        let mut i: usize = 0;
        while i < self.imms.len()
            invariant
                i <= self.imms@.len(),
                imms@.len() == i,
                forall|k: int| 0 <= k < i ==> *(#[trigger] imms@[k]) == self.imms@[k],
            decreases self.imms@.len() - i,
        {
            imms.push(&self.imms[i]);
            i += 1;
        }
        let view = ReadView {
            mem: &self.mem,
            imms,
            version: &self.version,
            visible: self.visible,
        };
        proof {
            assert(mems_entries(view.imms@) =~= imm_es(self.imms@));
            assert(view.sources() == self.sources());
            self.lemma_view(view);
            self.lemma_lookup_is_newest(key@, lower(seq, self.visible));
            if self.version.sound() {
                self.lemma_sound_lookup(key@, lower(seq, self.visible));
            }
            let hit = first_hit(
                self.sources(),
                key@,
                lower(seq, self.visible) as nat,
            );
            if hit is Some {
                let (l, x) = crate::compaction::lemma_first_hit_source(
                    self.sources(),
                    key@,
                    lower(seq, self.visible) as nat,
                );
                assert(good(self.sources()[l]));
                assert(self.sources()[l][x] == hit->Some_0);
                assert(kind_of_byte(kind_byte_of(self.sources()[l][x].key)) is Some);
            }
        }
        get_at_seq(&view, self.visible, key, seq)
    }

    /// What the invariant says of a view of the store.
    proof fn lemma_view(&self, view: ReadView<'_>)
        requires
            self.inv(),
            view.mem == &self.mem,
            view.version == &self.version,
            mems_entries(view.imms@) == imm_es(self.imms@),
            view.imms@.len() == self.imms@.len(),
            forall|k: int| 0 <= k < view.imms@.len() ==> *(#[trigger] view.imms@[k]) == self.imms@[k],
        ensures
            view.inv(),
            self.version.open_runs(),
    {
        assert(good(self.sources()[0]));
        assert forall|i: int| 0 <= i < view.imms@.len() implies (#[trigger] view.imms@[i]).inv()
            && kinds_ok(view.imms@[i].entries()) by {
            assert(self.imms@[i].inv());
            assert(self.sources()[i + 1] == self.imms@[i].entries());
            assert(good(self.sources()[i + 1]));
        }
    }

    /// Every source is sorted.
    pub proof fn lemma_sources_sorted(&self)
        requires
            self.inv(),
        ensures
            forall|l: int| 0 <= l < self.sources().len() ==> sorted(#[trigger] self.sources()[l]),
    {
        let srcs = self.sources();
        self.mem.lemma_sorted();
        let k = self.imms@.len() as int;
        let ls = self.version.levels@;
        lemma_levels_sorted(ls, ls.len(), self.next_file_id);
        assert forall|l: int| 0 <= l < srcs.len() implies sorted(#[trigger] srcs[l]) by {
            if l == 0 {
            } else if l < 1 + k {
                assert(srcs[l] == self.imms@[l - 1].entries());
                self.imms@[l - 1].lemma_sorted();
            } else {
                assert(srcs[l] == self.version.sources()[l - 1 - k]);
            }
        }
    }

    /// Publish a batch whose log record is durable: its entries get the next
    /// seqnos and become visible together.
    pub fn publish(&mut self, entries: &Vec<EncEntry>)
        requires
            old(self).inv(),
            old(self).visible + 1 + entries@.len() < MAX_SEQNO,
            forall|i: int|
                0 <= i < entries@.len() ==> (#[trigger] entries@[i]).key@.len()
                    + entries@[i].repr@.len() + 128 <= usize::MAX,
            forall|i: int|
                0 <= i < entries@.len() && (#[trigger] entries@[i]).kind is Put ==> p_repr(
                    entries@[i].repr@,
                ) is Some,
        ensures
            final(self).inv(),
            final(self).visible == old(self).visible + entries@.len(),
            applied(
                old(self).mem.entries(),
                batch_kvs((old(self).visible + 1) as u64, entries_view(entries@)),
                final(self).mem.entries(),
            ),
            batch_read_back(
                *old(self),
                *final(self),
                (old(self).visible + 1) as u64,
                entries_view(entries@),
            ),
            final(self).mem.wal() == old(self).mem.wal(),
            final(self).mem.bytes() == bytes_after(
                old(self).mem.bytes(),
                entries_view(entries@),
                entries@.len() as int,
            ),
            final(self).imms == old(self).imms,
            final(self).version == old(self).version,
            final(self).snapshots == old(self).snapshots,
            final(self).next_file_id == old(self).next_file_id,
    {
        let base: u64 = self.visible + 1;
        let ghost mem0 = self.mem.entries();
        let ghost srcs0 = self.sources();
        let ghost rest = imm_es(self.imms@) + self.version.sources();
        apply_entries(&mut self.mem, base, entries);
        self.visible = self.visible + entries.len() as u64;
        proof {
            let es = entries_view(entries@);
            let mem1 = self.mem.entries();
            assert(srcs0 =~= seq![mem0] + rest);
            assert(self.sources() =~= seq![mem1] + rest);
            assert forall|i: int| 0 <= i < es.len() && (#[trigger] es[i]).kind is Put implies p_repr(
                es[i].repr,
            ) is Some by {
                assert(es[i] == entries@[i]@);
            }
            lemma_published(mem0, mem1, rest, base, es, old(self).visible as nat);
            let imms = imm_es(self.imms@);
            assert forall|uk: Seq<u8>, snap: SeqNo|
                (snap < base ==> #[trigger] self.lookup(uk, snap) == old(self).lookup(uk, snap)) && (
                snap >= base + es.len() - 1 ==> self.lookup(uk, snap) == batch_look(
                    *old(self),
                    base,
                    es,
                    uk,
                    snap,
                )) by {
                old(self).mem.lemma_sorted();
                assert forall|i: int| 0 <= i < mem0.len() implies seqno_of(
                    (#[trigger] mem0[i]).key,
                ) < base by {
                    assert(srcs0[0][i] == mem0[i]);
                }
                lemma_write_is_read_back(mem0, mem1, imms, base, es, uk, snap as nat);
            }
        }
    }

    /// Admit, place and publish one batch. Gives the value-log records that it
    /// placed from `off` on; a batch that is too large, or for which no seqnos
    /// are left, is refused and changes nothing.
    pub fn write(&mut self, ops: &Vec<BatchOp>, pl: Placing, off: u64) -> (r: Result<
        Vec<VlogWrite>,
    >)
        requires
            old(self).inv(),
            off + BATCH_LIMIT <= u64::MAX,
        ensures
            final(self).inv(),
            r is Ok <==> admissible(ops_view(ops@), (old(self).visible + 1) as nat),
            r matches Err(e) ==> e is InvalidArgument && *final(self) == *old(self),
            r matches Ok(writes) ==> {
                let es = placed(ops_view(ops@), pl, off as nat);
                &&& writes_view(writes@) == op_writes(
                    ops_view(ops@),
                    pl,
                    off as nat,
                    ops@.len() as int,
                )
                &&& final(self).visible == old(self).visible + ops@.len()
                &&& applied(
                    old(self).mem.entries(),
                    batch_kvs((old(self).visible + 1) as u64, es),
                    final(self).mem.entries(),
                )
                &&& batch_read_back(
                    *old(self),
                    *final(self),
                    (old(self).visible + 1) as u64,
                    es,
                )
                &&& final(self).mem.wal() == old(self).mem.wal()
                &&& final(self).mem.bytes() == bytes_after(
                    old(self).mem.bytes(),
                    es,
                    es.len() as int,
                )
                &&& final(self).imms == old(self).imms
                &&& final(self).version == old(self).version
                &&& final(self).snapshots == old(self).snapshots
                &&& final(self).next_file_id == old(self).next_file_id
            },
    {
        let count: u64 = ops.len() as u64;
        let base: u64 = self.visible + 1;
        if batch_approx(ops) >= BATCH_LIMIT || base >= MAX_SEQNO || count >= MAX_SEQNO - base {
            return Err(refusal(ops));
        }
        let mut writes: Vec<VlogWrite> = Vec::new();
        let (entries, _) = place_batch(ops, pl, off, &mut writes);
        proof {
            let m = ops_view(ops@);
            let es = placed(m, pl, off as nat);
            assert(es.len() == m.len());
            assert(entries_view(entries@).len() == entries@.len());
            assert forall|i: int| 0 <= i < entries@.len() implies (#[trigger] entries@[i]).key@.len()
                + entries@[i].repr@.len() + 128 <= usize::MAX && (entries@[i].kind is Put ==> p_repr(
                entries@[i].repr@,
            ) is Some) by {
                assert(entries_view(entries@)[i] == entries@[i]@);
                assert(es[i] == placed_entry(m[i], pl, place_end(m, pl, off as nat, i)));
                lemma_placed_entry(m, pl, off as nat, i);
            }
            assert(writes_view(Seq::<VlogWrite>::empty()) + op_writes(
                m,
                pl,
                off as nat,
                m.len() as int,
            ) =~= op_writes(m, pl, off as nat, m.len() as int));
            assert(writes_view(Seq::<VlogWrite>::empty()) =~= Seq::empty());
        }
        self.publish(&entries);
        Ok(writes)
    }

    /// Freeze the memtable and start an empty one with a fresh log. No read
    /// changes.
    pub fn rotate(&mut self, wal_id: u64)
        requires
            old(self).inv(),
        ensures
            final(self).inv(),
            forall|key: Seq<u8>, seq: SeqNo, r: Result<Option<Pending>>| #[trigger]
                final(self).answers(key, seq, r) == old(self).answers(key, seq, r),
            final(self).mem.entries() == Seq::<Kv>::empty(),
            final(self).mem.bytes() == 0,
            final(self).mem.wal() == wal_id,
            final(self).imms@ == seq![old(self).mem] + old(self).imms@,
            final(self).version == old(self).version,
            final(self).visible == old(self).visible,
            final(self).snapshots == old(self).snapshots,
            final(self).next_file_id == old(self).next_file_id,
            forall|uk: Seq<u8>, snap: SeqNo| #[trigger]
                final(self).lookup(uk, snap) == old(self).lookup(uk, snap),
            forall|uk: Seq<u8>, snap: nat| #[trigger]
                first_hit(final(self).sources(), uk, snap) == first_hit(
                    old(self).sources(),
                    uk,
                    snap,
                ),
    {
        let ghost srcs0 = self.sources();
        let mut fresh = Memtable::new(wal_id);
        let ghost f0 = fresh;
        std::mem::swap(&mut self.mem, &mut fresh);
        self.imms.insert(0, fresh);
        proof {
            let e = Seq::<Kv>::empty();
            assert(self.imms@ =~= seq![old(self).mem] + old(self).imms@);
            assert(imm_es(self.imms@) =~= seq![old(self).mem.entries()] + imm_es(
                old(self).imms@,
            ));
            assert(self.sources() =~= seq![e] + srcs0);
            lemma_empty_front(srcs0, self.visible as nat);
            assert forall|uk: Seq<u8>, snap: nat| #[trigger]
                first_hit(self.sources(), uk, snap) == first_hit(srcs0, uk, snap) by {
                lemma_first_hit_split(seq![e], srcs0, uk, snap);
                lemma_one_source(e, uk, snap);
                assert(lacks(e, uk));
                lemma_lacks_finds_nothing(e, uk, snap);
            }
            let m0 = old(self).memtables();
            assert(self.memtables() =~= seq![e] + m0);
            assert forall|uk: Seq<u8>, snap: SeqNo| #[trigger]
                self.lookup(uk, snap) == old(self).lookup(uk, snap) by {
                lemma_first_hit_split(seq![e], m0, uk, snap as nat);
                lemma_one_source(e, uk, snap as nat);
                assert(lacks(e, uk));
                lemma_lacks_finds_nothing(e, uk, snap as nat);
            }
        }
    }
}

proof fn lemma_no_levels(levels: Seq<Vec<Run>>, n: nat)
    requires
        n <= levels.len(),
        forall|l: int| 0 <= l < levels.len() ==> (#[trigger] levels[l])@.len() == 0,
    ensures
        level_entries(levels, n) == Seq::<Seq<Kv>>::empty(),
    decreases n,
{
    if n > 0 {
        lemma_no_levels(levels, (n - 1) as nat);
        assert(runs_entries(levels[n - 1]@) =~= Seq::<Seq<Kv>>::empty());
        assert(level_entries(levels, n) =~= Seq::<Seq<Kv>>::empty());
    }
}

proof fn lemma_levels_sorted(levels: Seq<Vec<Run>>, n: nat, next: u64)
    requires
        n <= levels.len(),
        levels_ok(levels, next),
    ensures
        forall|l: int|
            0 <= l < level_entries(levels, n).len() ==> sorted(
                #[trigger] level_entries(levels, n)[l],
            ),
    decreases n,
{
    if n > 0 {
        lemma_levels_sorted(levels, (n - 1) as nat, next);
        let a = level_entries(levels, (n - 1) as nat);
        let b = runs_entries(levels[n - 1]@);
        assert forall|l: int| 0 <= l < level_entries(levels, n).len() implies sorted(
            #[trigger] level_entries(levels, n)[l],
        ) by {
            if l < a.len() {
                assert(level_entries(levels, n)[l] == a[l]);
            } else {
                let k = l - a.len();
                assert(level_entries(levels, n)[l] == b[k]);
                assert(levels[n - 1]@[k].intact());
                crate::version::lemma_run_sorted(levels[n - 1]@[k].tables@);
            }
        }
    }
}

pub proof fn lemma_empty_front(srcs: Seq<Seq<Kv>>, visible: nat)
    requires
        sources_ok(srcs, visible),
    ensures
        sources_ok(seq![Seq::<Kv>::empty()] + srcs, visible),
{
    let e = Seq::<Kv>::empty();
    let s = seq![e] + srcs;
    assert forall|k: int, l: int, i: int, j: int|
        0 <= k < l < s.len() && 0 <= i < s[k].len() && 0 <= j < s[l].len() && ukey_of(
            (#[trigger] s[k][i]).key,
        ) == ukey_of((#[trigger] s[l][j]).key) implies seqno_of(s[k][i].key) > seqno_of(
        s[l][j].key,
    ) by {
        assert(s[k] == srcs[k - 1]);
        assert(s[l] == srcs[l - 1]);
        assert(seqno_of(srcs[k - 1][i].key) > seqno_of(srcs[l - 1][j].key));
    }
    assert forall|l: int| 0 <= l < s.len() implies good(#[trigger] s[l]) by {
        if l > 0 {
            assert(s[l] == srcs[l - 1]);
        }
    }
    assert forall|l: int, i: int| 0 <= l < s.len() && 0 <= i < s[l].len() implies seqno_of(
        (#[trigger] s[l][i]).key,
    ) <= visible by {
        assert(s[l] == srcs[l - 1]);
        assert(seqno_of(srcs[l - 1][i].key) <= visible);
    }
}

/// A published batch keeps the sources in order: its versions are newer than
/// all others.
proof fn lemma_published(
    mem0: Seq<Kv>,
    mem1: Seq<Kv>,
    rest: Seq<Seq<Kv>>,
    base: u64,
    es: Seq<Entry>,
    visible: nat,
)
    requires
        sources_ok(seq![mem0] + rest, visible),
        base == visible + 1,
        base + es.len() <= MAX_SEQNO,
        applied(mem0, batch_kvs(base, es), mem1),
        forall|i: int|
            0 <= i < es.len() && (#[trigger] es[i]).kind is Put ==> p_repr(es[i].repr) is Some,
    ensures
        sources_ok(seq![mem1] + rest, visible + es.len()),
{
    let a = seq![mem0] + rest;
    let b = seq![mem1] + rest;
    let kvs = batch_kvs(base, es);
    assert(good(a[0]));
    // an entry of the memtable is of the batch or was there before
    assert forall|i: int| 0 <= i < mem1.len() implies (exists|k: int|
        0 <= k < kvs.len() && #[trigger] kvs[k] == mem1[i]) || mem0.contains(
        #[trigger] mem1[i],
    ) by {
        assert(mem1.contains(mem1[i]));
        if kvs.contains(mem1[i]) {
            let k = choose|k: int| 0 <= k < kvs.len() && kvs[k] == mem1[i];
            assert(kvs[k] == mem1[i]);
        }
    }
    assert forall|i: int| 0 <= i < mem1.len() implies kind_of_byte(
        kind_byte_of((#[trigger] mem1[i]).key),
    ) is Some && (is_put(mem1[i]) ==> p_repr(mem1[i].repr) is Some) && seqno_of(mem1[i].key)
        <= visible + es.len() by {
        if mem0.contains(mem1[i]) {
            let k = choose|k: int| 0 <= k < mem0.len() && mem0[k] == mem1[i];
            assert(kind_of_byte(kind_byte_of(mem0[k].key)) is Some);
            assert(a[0][k] == mem0[k]);
            assert(seqno_of(a[0][k].key) <= visible);
        } else {
            let k = choose|k: int| 0 <= k < kvs.len() && #[trigger] kvs[k] == mem1[i];
            lemma_batch_kv(base, es, k);
            assert(es[k].kind is Put ==> p_repr(es[k].repr) is Some);
        }
    }
    assert(good(mem1));
    assert forall|l: int| 0 <= l < b.len() implies good(#[trigger] b[l]) by {
        if l > 0 {
            assert(b[l] == a[l]);
        }
    }
    assert forall|l: int, i: int| 0 <= l < b.len() && 0 <= i < b[l].len() implies seqno_of(
        (#[trigger] b[l][i]).key,
    ) <= visible + es.len() by {
        if l > 0 {
            assert(b[l] == a[l]);
            assert(seqno_of(a[l][i].key) <= visible);
        } else {
            assert(seqno_of(mem1[i].key) <= visible + es.len());
        }
    }
    assert forall|k: int, l: int, i: int, j: int|
        0 <= k < l < b.len() && 0 <= i < b[k].len() && 0 <= j < b[l].len() && ukey_of(
            (#[trigger] b[k][i]).key,
        ) == ukey_of((#[trigger] b[l][j]).key) implies seqno_of(b[k][i].key) > seqno_of(
        b[l][j].key,
    ) by {
        assert(b[l] == a[l]);
        assert(seqno_of(a[l][j].key) <= visible);
        if k > 0 {
            assert(b[k] == a[k]);
            assert(seqno_of(a[k][i].key) > seqno_of(a[l][j].key));
        } else if mem0.contains(mem1[i]) {
            let x = choose|x: int| 0 <= x < mem0.len() && mem0[x] == mem1[i];
            assert(a[0][x] == mem1[i]);
            assert(seqno_of(a[0][x].key) > seqno_of(a[l][j].key));
        } else {
            let x = choose|x: int| 0 <= x < kvs.len() && #[trigger] kvs[x] == mem1[i];
            lemma_batch_kv(base, es, x);
        }
    }
}

/// What placement makes of an operation can be read, and is not much larger.
pub proof fn lemma_placed_entry(ops: Seq<Op>, pl: Placing, off: nat, i: int)
    requires
        0 <= i < ops.len(),
        approx(ops) < BATCH_LIMIT,
    ensures
        ({
            let e = placed_entry(ops[i], pl, place_end(ops, pl, off, i));
            &&& e.key.len() + e.repr.len() + 128 <= usize::MAX
            &&& e.kind is Put ==> p_repr(e.repr) is Some
        }),
{
    lemma_approx_take(ops, i + 1);
    assert(ops.take(i + 1).drop_last() =~= ops.take(i));
    assert(ops.take(i + 1).last() == ops[i]);
    assert(op_approx(ops[i]) <= approx(ops.take(i + 1)));
    if let Op::Put { key, value } = ops[i] {
        let e = placed_entry(ops[i], pl, place_end(ops, pl, off, i));
        if separated(ops[i], pl) {
            let p = crate::types::ValuePtr {
                file: pl.head,
                offset: place_end(ops, pl, off, i) as u64,
                len: crate::commit::op_record(ops[i]).len() as u32,
            };
            lemma_repr_roundtrip(Repr::Ptr(p));
            crate::types::lemma_repr_len(Repr::Ptr(p));
        } else {
            lemma_repr_roundtrip(Repr::Inline(value));
            crate::types::lemma_repr_len(Repr::Inline(value));
        }
    }
}

// ---------------------------------------------------------------------------
// Flush
// ---------------------------------------------------------------------------

pub open spec fn ids_from(first: u64, n: nat) -> Seq<u64> {
    Seq::new(n, |k: int| (first + k) as u64)
}

/// A run over the entries cannot be written: the format cannot hold one of its
/// files, or the file ids behind `run_id` do not suffice.
pub open spec fn unwritable_run(es: Seq<Kv>, opts: MergeOptions, run_id: u64) -> bool {
    !fits_format(es, opts) || run_id + 1 + files(es, opts).len() > u64::MAX
}

/// Every handle knows the length of its file.
pub open spec fn sized(ts: Seq<Arc<TableHandle>>) -> bool {
    forall|k: int| 0 <= k < ts.len() ==> (#[trigger] ts[k]).size == ts[k].table.bytes().len()
}

/// The handle is open on the fragment's file.
pub open spec fn opened_from(h: TableHandle, f: Fragment) -> bool {
    &&& h.size == f.bytes@.len()
    &&& h.table.inv()
    &&& h.table.bytes() == f.bytes@
    &&& p_table(f.bytes@) == Some(h.table.model())
    &&& h.table.sound() == table_sound(f.bytes@, h.table.model())
}

fn open_one(f: Fragment, id: u64) -> (r: Result<TableHandle>)
    requires
        fragment_sound(f),
    ensures
        r matches Ok(h) && opened_from(h, f) && h.id == id,
{
    let size: u64 = f.bytes.len() as u64;
    match Table::open(f.bytes, id) {
        Ok(table) => Ok(TableHandle::new(id, String::new(), size, table)),
        Err(e) => Err(e),
    }
}

/// Open freshly written tables under consecutive ids.
#[verifier::spinoff_prover]
#[verifier::rlimit(60)]
pub fn open_tables(tables: Vec<Fragment>, first_id: u64) -> (r: Result<Vec<Arc<TableHandle>>>)
    requires
        forall|k: int| 0 <= k < tables@.len() ==> fragment_sound(#[trigger] tables@[k]),
        split_between_keys(fragments_entries(tables@)),
        first_id + tables@.len() <= u64::MAX,
    ensures
        r matches Ok(ts) && ts@.len() == tables@.len() && fragments_open(ts@) && fragments_sound(
            ts@,
        ) && fragments(ts@) == fragments_entries(tables@) && table_ids(ts@) == ids_from(
            first_id,
            tables@.len(),
        ) && sized(ts@) && forall|k: int|
            0 <= k < ts@.len() ==> (#[trigger] ts@[k]).table.bytes() == tables@[k].bytes@,
{
    let ghost all = tables@;
    let mut tables = tables;
    let mut ts: Vec<Arc<TableHandle>> = Vec::new();
    assert(all.skip(0) =~= all);
    while tables.len() > 0
        invariant
            ts@.len() + tables@.len() == all.len(),
            tables@ == all.skip(ts@.len() as int),
            first_id + all.len() <= u64::MAX,
            forall|k: int| 0 <= k < all.len() ==> fragment_sound(#[trigger] all[k]),
            forall|k: int|
                0 <= k < ts@.len() ==> opened_from(*#[trigger] ts@[k], all[k]) && ts@[k].id
                    == first_id + k,
        decreases tables@.len(),
    {
        let ghost n = ts@.len() as int;
        assert(tables@[0] == all[n]);
        assert(fragment_sound(all[n]));
        let f = tables.remove(0);
        let id: u64 = first_id + ts.len() as u64;
        let h = match open_one(f, id) {
            Ok(h) => h,
            Err(e) => {
                return Err(e);
            },
        };
        let ghost t0 = ts@;
        ts.push(Arc::new(h));
        proof {
            assert(tables@ =~= all.skip(n + 1));
            assert forall|k: int| 0 <= k < ts@.len() implies opened_from(
                *#[trigger] ts@[k],
                all[k],
            ) && ts@[k].id == first_id + k by {
                if k < n {
                    assert(ts@[k] == t0[k]);
                }
            }
        }
    }
    proof {
        lemma_written_run_reads_back(all, ts@);
        assert(table_ids(ts@) =~= ids_from(first_id, all.len()));
    }
    Ok(ts)
}

/// A run in front of level 0 is the newest of the tree.
proof fn lemma_front_run(before: Seq<Vec<Run>>, after: Seq<Vec<Run>>, r: Run, n: nat)
    requires
        0 < n <= before.len(),
        after.len() == before.len(),
        after[0]@ == seq![r] + before[0]@,
        forall|l: int| 1 <= l < before.len() ==> #[trigger] after[l] == before[l],
    ensures
        level_entries(after, n) == seq![r.entries()] + level_entries(before, n),
    decreases n,
{
    if n == 1 {
        assert(level_entries(before, 0) =~= Seq::<Seq<Kv>>::empty());
        assert(level_entries(after, 0) =~= Seq::<Seq<Kv>>::empty());
        assert(runs_entries(seq![r] + before[0]@) =~= seq![r.entries()] + runs_entries(
            before[0]@,
        ));
        assert(level_entries(before, 1) =~= runs_entries(before[0]@));
        assert(level_entries(after, 1) =~= runs_entries(after[0]@));
    } else {
        lemma_front_run(before, after, r, (n - 1) as nat);
        assert(after[n - 1] == before[n - 1]);
        assert(level_entries(after, n) =~= seq![r.entries()] + level_entries(before, n));
    }
}

/// A source without entries may go.
proof fn lemma_drop_empty(a: Seq<Seq<Kv>>, e: Seq<Kv>, b: Seq<Seq<Kv>>, visible: nat)
    requires
        sources_ok(a + seq![e] + b, visible),
        e.len() == 0,
    ensures
        sources_ok(a + b, visible),
        forall|uk: Seq<u8>, snap: nat| #[trigger]
            first_hit(a + b, uk, snap) == first_hit(a + seq![e] + b, uk, snap),
{
    let s = a + seq![e] + b;
    let t = a + b;
    let n = a.len() as int;
    assert forall|l: int| 0 <= l < t.len() implies #[trigger] t[l] == s[if l < n {
        l
    } else {
        l + 1
    }] by {}
    assert forall|k: int, l: int, i: int, j: int|
        0 <= k < l < t.len() && 0 <= i < t[k].len() && 0 <= j < t[l].len() && ukey_of(
            (#[trigger] t[k][i]).key,
        ) == ukey_of((#[trigger] t[l][j]).key) implies seqno_of(t[k][i].key) > seqno_of(
        t[l][j].key,
    ) by {
        let x = if k < n {
            k
        } else {
            k + 1
        };
        let y = if l < n {
            l
        } else {
            l + 1
        };
        assert(t[k] == s[x] && t[l] == s[y]);
        assert(seqno_of(s[x][i].key) > seqno_of(s[y][j].key));
    }
    assert forall|l: int| 0 <= l < t.len() implies good(#[trigger] t[l]) by {
        let x = if l < n {
            l
        } else {
            l + 1
        };
        assert(t[l] == s[x]);
        assert(good(s[x]));
    }
    assert forall|l: int, i: int| 0 <= l < t.len() && 0 <= i < t[l].len() implies seqno_of(
        (#[trigger] t[l][i]).key,
    ) <= visible by {
        let x = if l < n {
            l
        } else {
            l + 1
        };
        assert(t[l] == s[x]);
        assert(seqno_of(s[x][i].key) <= visible);
    }
    assert forall|uk: Seq<u8>, snap: nat| #[trigger]
        first_hit(t, uk, snap) == first_hit(s, uk, snap) by {
        lemma_first_hit_split(a, b, uk, snap);
        lemma_first_hit_split(a + seq![e], b, uk, snap);
        lemma_first_hit_split(a, seq![e], uk, snap);
        lemma_one_source(e, uk, snap);
        assert(lacks(e, uk));
        lemma_lacks_finds_nothing(e, uk, snap);
    }
}

impl Db {
    /// The oldest memtable is looked into after all others.
    proof fn lemma_last_memtable(&self, uk: Seq<u8>, snap: nat)
        requires
            self.imms@.len() > 0,
        ensures
            first_hit(self.memtables(), uk, snap) == match first_hit(
                seq![self.mem.entries()] + imm_es(self.imms@.drop_last()),
                uk,
                snap,
            ) {
                Some(kv) => Some(kv),
                None => find_newest(self.imms@.last().entries(), uk, snap),
            },
    {
        let es = self.imms@.last().entries();
        let head = seq![self.mem.entries()] + imm_es(self.imms@.drop_last());
        assert(self.memtables() =~= head + seq![es]);
        lemma_first_hit_split(head, seq![es], uk, snap);
        lemma_one_source(es, uk, snap);
    }

    /// Flush the oldest frozen memtable into a run in front of level 0. No read
    /// changes. Gives what the manifest records of it, or nothing where no
    /// memtable was frozen. One that the file format cannot hold is refused, and
    /// nothing changes.
    #[verifier::rlimit(40)]
    pub fn flush_one(&mut self, opts: &MergeOptions) -> (r: Result<Option<Flushed>>)
        requires
            old(self).inv(),
        ensures
            final(self).inv(),
            forall|key: Seq<u8>, seq: SeqNo, x: Result<Option<Pending>>| #[trigger]
                final(self).answers(key, seq, x) == old(self).answers(key, seq, x),
            forall|uk: Seq<u8>, snap: SeqNo|
                snap <= MAX_SEQNO ==> #[trigger] final(self).lookup(uk, snap) == old(self).lookup(
                    uk,
                    snap,
                ),
            forall|uk: Seq<u8>, snap: nat| #[trigger]
                first_hit(final(self).sources(), uk, snap) == first_hit(
                    old(self).sources(),
                    uk,
                    snap,
                ),
            final(self).mem == old(self).mem,
            final(self).visible == old(self).visible,
            final(self).snapshots == old(self).snapshots,
            final(self).version.vlogs == old(self).version.vlogs,
            final(self).version.vlog_head_id == old(self).version.vlog_head_id,
            final(self).version.levels@.len() == old(self).version.levels@.len(),
            match r {
                Ok(None) => old(self).imms@.len() == 0 && *final(self) == *old(self),
                Ok(Some(f)) => {
                    let es = old(self).imms@.last().entries();
                    &&& old(self).imms@.len() > 0
                    &&& final(self).imms@ == old(self).imms@.drop_last()
                    &&& f.wal_id == old(self).imms@.last().wal()
                    &&& f.max_seq == top_seq(es, es.len() as int)
                    &&& match f.run {
                        None => es.len() == 0 && final(self).version.levels == old(
                            self,
                        ).version.levels && final(self).next_file_id == old(self).next_file_id,
                        Some((id, ids)) => {
                            &&& es.len() > 0
                            &&& id == old(self).next_file_id
                            &&& ids@ == ids_from((id + 1) as u64, ids@.len())
                            &&& final(self).next_file_id == id + 1 + ids@.len()
                            &&& newest_in_front(
                                old(self).version.levels@,
                                final(self).version.levels@,
                            )
                            &&& final(self).version.levels@[0]@[0].id == id
                            &&& table_ids(final(self).version.levels@[0]@[0].tables@) == ids@
                            &&& final(self).version.levels@[0]@[0].entries() == es
                            &&& fragments(final(self).version.levels@[0]@[0].tables@) == files(
                                es,
                                *opts,
                            )
                            &&& sized(final(self).version.levels@[0]@[0].tables@)
                        },
                    }
                },
                Err(e) => {
                    &&& e is InvalidArgument
                    &&& *final(self) == *old(self)
                    &&& old(self).imms@.len() > 0
                    &&& unwritable_run(
                        old(self).imms@.last().entries(),
                        *opts,
                        old(self).next_file_id,
                    )
                },
            },
    {
        let ghost db0 = *self;
        let b = match self.build_flush(opts) {
            Ok(Some(b)) => b,
            Ok(None) => {
                return Ok(None);
            },
            Err(e) => {
                return Err(e);
            },
        };
        proof {
            let ls = self.version.levels@;
            assert forall|k: int| 0 <= k < ls[0]@.len() implies (#[trigger] ls[0]@[k]).id
                < db0.next_file_id by {
                assert(db0.version.levels@[0]@[k].id < db0.next_file_id);
            }
            assert(self.sources() == db0.sources());
            assert(self.memtables() == db0.memtables());
            if b.run is Some {
                let run = b.run->Some_0;
                lemma_ids_below(run.tables@, (run.id + 1) as u64, self.next_file_id);
            }
        }
        let f = self.install_flush(b);
        Ok(Some(f))
    }

    /// Build the run that the oldest frozen memtable becomes, under fresh ids.
    /// Nothing but the ids is taken: reads go on as before, and the run counts
    /// once it is installed. Gives nothing where no memtable was frozen. One
    /// that the file format cannot hold is refused, and nothing changes.
    #[verifier::rlimit(40)]
    pub fn build_flush(&mut self, opts: &MergeOptions) -> (r: Result<Option<BuiltRun>>)
        requires
            old(self).inv(),
        ensures
            final(self).inv(),
            final(self).mem == old(self).mem,
            final(self).imms == old(self).imms,
            final(self).version == old(self).version,
            final(self).visible == old(self).visible,
            final(self).snapshots == old(self).snapshots,
            match r {
                Ok(None) => old(self).imms@.len() == 0 && *final(self) == *old(self),
                Ok(Some(b)) => {
                    &&& old(self).imms@.len() > 0
                    &&& built_from(b, old(self).imms@.last())
                    &&& match b.run {
                        None => final(self).next_file_id == old(self).next_file_id,
                        Some(run) => {
                            &&& run.id == old(self).next_file_id
                            &&& table_ids(run.tables@) == ids_from(
                                (run.id + 1) as u64,
                                run.tables@.len(),
                            )
                            &&& final(self).next_file_id == run.id + 1 + run.tables@.len()
                            &&& fragments(run.tables@) == files(
                                old(self).imms@.last().entries(),
                                *opts,
                            )
                        },
                    }
                },
                Err(e) => {
                    &&& e is InvalidArgument
                    &&& *final(self) == *old(self)
                    &&& old(self).imms@.len() > 0
                    &&& unwritable_run(
                        old(self).imms@.last().entries(),
                        *opts,
                        old(self).next_file_id,
                    )
                },
            },
    {
        let n: usize = self.imms.len();
        if n == 0 {
            return Ok(None);
        }
        let ghost es = self.imms@.last().entries();
        proof {
            assert(self.imms@[n - 1].inv());
            assert(self.sources()[n as int] == es);
            assert(good(self.sources()[n as int]));
        }
        let wal_id: u64 = self.imms[n - 1].log_id();
        if self.imms[n - 1].is_empty() {
            return Ok(Some(BuiltRun { run: None, max_seq: 0, wal_id }));
        }
        let (tables, max_seq) = match build_run_from_mem(&self.imms[n - 1], opts) {
            Ok(x) => x,
            Err(e) => {
                return Err(e);
            },
        };
        let count: u64 = tables.len() as u64;
        assert(fragments_entries(tables@).len() == tables@.len());
        let run_id: u64 = self.next_file_id;
        if run_id == u64::MAX || count > u64::MAX - run_id - 1 {
            return Err(invalid("file ids exhausted"));
        }
        let ts = match open_tables(tables, run_id + 1) {
            Ok(ts) => ts,
            Err(e) => {
                return Err(e);
            },
        };
        proof {
            if ts@.len() == 0 {
                assert(fragments(ts@) =~= Seq::<Seq<Kv>>::empty());
                assert(flat(fragments(ts@)).len() == 0);
            }
        }
        self.next_file_id = run_id + 1 + count;
        proof {
            let ls = self.version.levels@;
            assert forall|l: int, k: int| 0 <= l < ls.len() && 0 <= k < ls[l]@.len() implies {
                &&& fragments_open((#[trigger] ls[l]@[k]).tables@)
                &&& ls[l]@[k].intact()
                &&& ls[l]@[k].tables@.len() > 0
                &&& ls[l]@[k].id < self.next_file_id
                &&& ids_below(ls[l]@[k].tables@, self.next_file_id)
            } by {
                assert(ls[l]@[k].id < old(self).next_file_id);
                assert(ids_below(ls[l]@[k].tables@, old(self).next_file_id));
            }
            assert(self.sources() == old(self).sources());
        }
        Ok(Some(BuiltRun { run: Some(Run { id: run_id, tables: ts }), max_seq, wal_id }))
    }

    /// Put a run that was built from the oldest frozen memtable in front of
    /// level 0, and let the memtable go. No read changes.
    #[verifier::rlimit(60)]
    pub fn install_flush(&mut self, b: BuiltRun) -> (f: Flushed)
        requires
            old(self).inv(),
            old(self).imms@.len() > 0,
            built_from(b, old(self).imms@.last()),
            b.run matches Some(run) ==> run.id < old(self).next_file_id && ids_below(
                run.tables@,
                old(self).next_file_id,
            ) && (forall|k: int|
                0 <= k < old(self).version.levels@[0]@.len() ==> (
                #[trigger] old(self).version.levels@[0]@[k]).id != run.id),
        ensures
            final(self).inv(),
            forall|key: Seq<u8>, seq: SeqNo, r: Result<Option<Pending>>| #[trigger]
                final(self).answers(key, seq, r) == old(self).answers(key, seq, r),
            forall|uk: Seq<u8>, snap: SeqNo|
                snap <= MAX_SEQNO ==> #[trigger] final(self).lookup(uk, snap) == old(self).lookup(
                    uk,
                    snap,
                ),
            forall|uk: Seq<u8>, snap: nat| #[trigger]
                first_hit(final(self).sources(), uk, snap) == first_hit(
                    old(self).sources(),
                    uk,
                    snap,
                ),
            final(self).mem == old(self).mem,
            final(self).imms@ == old(self).imms@.drop_last(),
            final(self).visible == old(self).visible,
            final(self).snapshots == old(self).snapshots,
            final(self).next_file_id == old(self).next_file_id,
            final(self).version.vlogs == old(self).version.vlogs,
            final(self).version.vlog_head_id == old(self).version.vlog_head_id,
            final(self).version.levels@.len() == old(self).version.levels@.len(),
            f.wal_id == b.wal_id,
            f.max_seq == b.max_seq,
            match (b.run, f.run) {
                (None, None) => final(self).version.levels == old(self).version.levels,
                (Some(run), Some((id, ids))) => {
                    &&& id == run.id
                    &&& ids@ == table_ids(run.tables@)
                    &&& newest_in_front(old(self).version.levels@, final(self).version.levels@)
                    &&& final(self).version.levels@[0]@[0] == run
                },
                _ => false,
            },
    {
        let ghost srcs0 = self.sources();
        let ghost es = self.imms@.last().entries();
        let ghost head = seq![self.mem.entries()] + imm_es(self.imms@.drop_last());
        let ghost tail = self.version.sources();
        let ghost levels0 = self.version.levels@;
        proof {
            assert(imm_es(self.imms@) =~= imm_es(self.imms@.drop_last()).push(es));
            assert(srcs0 =~= head + seq![es] + tail);
        }
        let BuiltRun { run, max_seq, wal_id } = b;
        let run = match run {
            Some(run) => run,
            None => {
                self.imms.pop();
                proof {
                    assert(self.imms@ =~= old(self).imms@.drop_last());
                    lemma_drop_empty(head, es, tail, self.visible as nat);
                    assert(self.sources() =~= head + tail);
                    assert forall|uk: Seq<u8>, snap: SeqNo| #[trigger]
                        self.lookup(uk, snap) == old(self).lookup(uk, snap) by {
                        old(self).lemma_last_memtable(uk, snap as nat);
                        assert(lacks(es, uk));
                        lemma_lacks_finds_nothing(es, uk, snap as nat);
                    }
                }
                return Flushed { run: None, max_seq, wal_id };
            },
        };
        let run_id: u64 = run.id;
        let mut ids: Vec<u64> = Vec::new();
        crate::install::add_ids(&mut ids, &run.tables);
        let ghost r0 = run;
        assert(ids@ =~= table_ids(r0.tables@));
        self.version.levels[0].insert(0, run);
        self.imms.pop();
        proof {
            assert(self.imms@ =~= old(self).imms@.drop_last());
            let levels1 = self.version.levels@;
            assert(levels1[0]@ =~= seq![r0] + levels0[0]@);
            assert(levels1[0]@.skip(1) =~= levels0[0]@);
            lemma_front_run(levels0, levels1, r0, levels0.len());
            assert(self.version.sources() == seq![es] + tail);
            assert(self.sources() =~= head + (seq![es] + tail));
            assert(self.sources() =~= srcs0);
            lemma_sound_is_intact(r0.tables@);
            assert forall|uk: Seq<u8>, snap: SeqNo| snap <= MAX_SEQNO implies #[trigger] self.lookup(
                uk,
                snap,
            ) == old(self).lookup(uk, snap) by {
                old(self).lemma_last_memtable(uk, snap as nat);
                lemma_sound_run_lookup(r0, uk, snap);
                lemma_front_lookup(levels0, levels1, r0, levels0.len() as int, uk, snap);
            }
            assert forall|l: int, k: int| 0 <= l < levels1.len() && 0 <= k < levels1[l]@.len() implies {
                &&& fragments_open((#[trigger] levels1[l]@[k]).tables@)
                &&& levels1[l]@[k].intact()
                &&& levels1[l]@[k].tables@.len() > 0
                &&& levels1[l]@[k].id < self.next_file_id
                &&& ids_below(levels1[l]@[k].tables@, self.next_file_id)
            } by {
                if l == 0 {
                    if k > 0 {
                        assert(levels1[0]@[k] == levels0[0]@[k - 1]);
                        assert(levels0[0]@[k - 1].id < old(self).next_file_id);
                    }
                } else {
                    assert(levels1[l] == levels0[l]);
                    assert(levels0[l]@[k].id < old(self).next_file_id);
                }
            }
            assert forall|l: int, k: int, m: int|
                0 <= l < levels1.len() && 0 <= k < m < levels1[l]@.len() implies (
            #[trigger] levels1[l]@[k]).id != (#[trigger] levels1[l]@[m]).id by {
                if l == 0 {
                    assert(levels1[0]@[m] == levels0[0]@[m - 1]);
                    if k > 0 {
                        assert(levels1[0]@[k] == levels0[0]@[k - 1]);
                        assert(levels0[0]@[k - 1].id != levels0[0]@[m - 1].id);
                    }
                } else {
                    assert(levels1[l] == levels0[l]);
                }
            }
        }
        Flushed { run: Some((run_id, ids)), max_seq, wal_id }
    }
}

// ---------------------------------------------------------------------------
// Snapshots and scans
// ---------------------------------------------------------------------------

impl Db {
    /// Freeze the memtable and write every frozen one out, oldest first. No
    /// read changes.
    pub fn flush(&mut self, wal_id: u64, opts: &MergeOptions) -> (r: Result<()>)
        requires
            old(self).inv(),
        ensures
            final(self).inv(),
            forall|key: Seq<u8>, seq: SeqNo, x: Result<Option<Pending>>| #[trigger]
                final(self).answers(key, seq, x) == old(self).answers(key, seq, x),
            forall|uk: Seq<u8>, snap: SeqNo|
                snap <= MAX_SEQNO ==> #[trigger] final(self).lookup(uk, snap) == old(self).lookup(
                    uk,
                    snap,
                ),
            forall|uk: Seq<u8>, snap: nat| #[trigger]
                first_hit(final(self).sources(), uk, snap) == first_hit(
                    old(self).sources(),
                    uk,
                    snap,
                ),
            final(self).mem.entries() == Seq::<Kv>::empty(),
            final(self).mem.bytes() == 0,
            final(self).mem.wal() == wal_id,
            final(self).visible == old(self).visible,
            final(self).snapshots == old(self).snapshots,
            final(self).version.vlogs == old(self).version.vlogs,
            final(self).version.vlog_head_id == old(self).version.vlog_head_id,
            final(self).next_file_id >= old(self).next_file_id,
            grown_in_front(old(self).version.levels@, final(self).version.levels@),
            final(self).imms@ == (seq![old(self).mem] + old(self).imms@).take(
                final(self).imms@.len() as int,
            ),
            final(self).imms@.len() <= old(self).imms@.len() + 1,
            final(self).version.levels@.len() == old(self).version.levels@.len(),
            r is Ok ==> final(self).imms@.len() == 0,
            r matches Err(e) ==> e is InvalidArgument && final(self).imms@.len() > 0
                && unwritable_run(
                final(self).imms@.last().entries(),
                *opts,
                final(self).next_file_id,
            ),
    {
        let ghost mems = seq![self.mem] + self.imms@;
        self.rotate(wal_id);
        assert(self.version.levels@[0]@.skip(0) =~= self.version.levels@[0]@);
        assert(mems.take(mems.len() as int) =~= mems);
        while self.imms.len() > 0
            invariant
                self.inv(),
                forall|uk: Seq<u8>, snap: SeqNo|
                    snap <= MAX_SEQNO ==> #[trigger] self.lookup(uk, snap) == old(self).lookup(
                        uk,
                        snap,
                    ),
                forall|uk: Seq<u8>, snap: nat| #[trigger]
                    first_hit(self.sources(), uk, snap) == first_hit(
                        old(self).sources(),
                        uk,
                        snap,
                    ),
                self.mem.entries() == Seq::<Kv>::empty(),
                self.mem.bytes() == 0,
                self.mem.wal() == wal_id,
                self.visible == old(self).visible,
                self.snapshots == old(self).snapshots,
                mems == seq![old(self).mem] + old(self).imms@,
                grown_in_front(old(self).version.levels@, self.version.levels@),
                self.imms@.len() <= mems.len(),
                self.imms@ == mems.take(self.imms@.len() as int),
                self.version.vlogs == old(self).version.vlogs,
                self.version.vlog_head_id == old(self).version.vlog_head_id,
                self.next_file_id >= old(self).next_file_id,
                old(self).visible < MAX_SEQNO,
                self.version.levels@.len() == old(self).version.levels@.len(),
            decreases self.imms@.len(),
        {
            let ghost before = *self;
            match self.flush_one(opts) {
                Ok(_) => {
                    proof {
                        lemma_grown_further(
                            old(self).version.levels@,
                            before.version.levels@,
                            self.version.levels@,
                        );
                        assert(self.imms@ =~= mems.take(self.imms@.len() as int));
                    }
                },
                Err(e) => {
                    return Err(e);
                },
            }
        }
        Ok(())
    }
}

/// The pairs are what a scan of the sources finds.
pub open spec fn is_scan(
    out: Seq<(Vec<u8>, Pending)>,
    srcs: Seq<Seq<Kv>>,
    at: nat,
    lo: Seq<u8>,
    hi: Option<Seq<u8>>,
    reverse: bool,
) -> bool {
    let pairs = crate::mvcc::scan(merged(srcs, false), at, lo, hi);
    let want = if reverse {
        pairs.reverse()
    } else {
        pairs
    };
    is_window(out, want, want.len() as int)
}

impl Db {
    /// A consistent view of what is visible now: until it is released, merges
    /// keep whatever it can see.
    pub fn snapshot(&mut self) -> (s: Snapshot)
        requires
            old(self).inv(),
            old(self).snapshots.held(old(self).visible) < u64::MAX,
        ensures
            final(self).inv(),
            s.seq == old(self).visible,
            final(self).snapshots.held(s.seq) == old(self).snapshots.held(s.seq) + 1,
            forall|q: u64|
                q != s.seq ==> #[trigger] final(self).snapshots.held(q) == old(
                    self,
                ).snapshots.held(q),
            final(self).mem == old(self).mem,
            final(self).imms == old(self).imms,
            final(self).version == old(self).version,
            final(self).visible == old(self).visible,
            final(self).next_file_id == old(self).next_file_id,
    {
        let seq: u64 = self.visible;
        self.snapshots.register(seq);
        proof {
            assert forall|q: u64| #[trigger] self.snapshots.held(q) > 0 implies q
                <= self.visible by {
                if q != seq {
                    assert(self.snapshots.held(q) == old(self).snapshots.held(q));
                }
            }
            assert(self.sources() == old(self).sources());
        }
        Snapshot { seq }
    }

    /// The snapshot is no longer read from.
    pub fn release(&mut self, s: Snapshot)
        requires
            old(self).inv(),
        ensures
            final(self).inv(),
            final(self).snapshots.held(s.seq) == (if old(self).snapshots.held(s.seq) > 0 {
                old(self).snapshots.held(s.seq) - 1
            } else {
                0
            }),
            forall|q: u64|
                q != s.seq ==> #[trigger] final(self).snapshots.held(q) == old(
                    self,
                ).snapshots.held(q),
            final(self).mem == old(self).mem,
            final(self).imms == old(self).imms,
            final(self).version == old(self).version,
            final(self).visible == old(self).visible,
            final(self).next_file_id == old(self).next_file_id,
    {
        self.snapshots.deregister(s.seq);
        proof {
            assert forall|q: u64| #[trigger] self.snapshots.held(q) > 0 implies q
                <= self.visible by {
                assert(old(self).snapshots.held(q) > 0);
            }
            assert(self.sources() == old(self).sources());
        }
    }

    /// The visible pairs of `[lo, hi)` at a seqno, in either direction; reserved
    /// keys are never among them. Only the blocks that may hold keys of the
    /// range are read; a damaged one among them fails the scan.
    pub fn scan(&self, lo: Option<&[u8]>, hi: Option<Vec<u8>>, reverse: bool, seq: SeqNo) -> (r:
        Result<Vec<(Vec<u8>, Pending)>>)
        requires
            self.inv(),
        ensures
            match r {
                Ok(out) => range_sound(
                    self.version,
                    crate::scan::user_lo(crate::txn::opt(lo)),
                    crate::mvcc::opt_view(hi),
                ) && is_scan(
                    out@,
                    self.sources(),
                    lower(seq, self.visible) as nat,
                    crate::scan::user_lo(crate::txn::opt(lo)),
                    crate::mvcc::opt_view(hi),
                    reverse,
                ),
                Err(e) => !range_sound(
                    self.version,
                    crate::scan::user_lo(crate::txn::opt(lo)),
                    crate::mvcc::opt_view(hi),
                ) && (e is Corruption || e is Io),
            },
            r matches Ok(out) ==> forall|i: int|
                0 <= i < out@.len() ==> {
                    let k = (#[trigger] out@[i]).0@;
                    &&& k.len() > 0 && k[0] != 0
                    &&& lo matches Some(l) ==> lex_le(l@, k)
                    &&& hi matches Some(h) ==> lex_lt(k, h@)
                    &&& is_visible_pair(
                        out@[i],
                        self.sources(),
                        lower(seq, self.visible) as nat,
                    )
                },
            r matches Ok(out) ==> forall|uk: Seq<u8>|
                uk.len() > 0 && uk[0] != 0 && (lo matches Some(l) ==> lex_le(l@, uk)) && (
                hi matches Some(h) ==> lex_lt(uk, h@)) && value_of(
                    #[trigger] first_hit(self.sources(), uk, lower(seq, self.visible) as nat),
                ) is Some ==> exists|i: int| 0 <= i < out@.len() && (#[trigger] out@[i]).0@ == uk,
            r matches Ok(out) ==> forall|i: int, j: int|
                0 <= i < j < out@.len() ==> if reverse {
                    lex_lt((#[trigger] out@[j]).0@, (#[trigger] out@[i]).0@)
                } else {
                    lex_lt(out@[i].0@, out@[j].0@)
                },
    {
        let lo_b = crate::scan::clamp_lo(lo);
        let r = self.scan_raw(lo_b.as_slice(), hi, reverse, seq);
        proof {
            self.lemma_sources_sorted();
            if r is Ok {
                lemma_user_scan_is_the_range(
                    r->Ok_0@,
                    self.sources(),
                    self.visible as nat,
                    lower(seq, self.visible) as nat,
                    crate::txn::opt(lo),
                    crate::mvcc::opt_view(hi),
                    reverse,
                );
            }
        }
        r
    }

    /// The pairs of a scan as far as they can be read, the reserved keys' too:
    /// where a block of the range is damaged, the pairs that come before it in
    /// the direction of the scan, and the error.
    pub fn scan_to_damage(&self, lo: &[u8], hi: Option<Vec<u8>>, reverse: bool, seq: SeqNo) -> (r: (
        Vec<(Vec<u8>, Pending)>,
        Option<Error>,
    ))
        requires
            self.inv(),
        ensures
            ({
                let at = lower(seq, self.visible) as nat;
                let h = crate::mvcc::opt_view(hi);
                match r.1 {
                    None => range_sound(self.version, lo@, h) && is_scan(
                        r.0@,
                        self.sources(),
                        at,
                        lo@,
                        h,
                        reverse,
                    ),
                    Some(e) => {
                        &&& e is Corruption || e is Io
                        &&& !range_sound(self.version, lo@, h)
                        &&& reverse ==> exists|k: Seq<u8>| #[trigger]
                            is_last_damage(self.version, lo@, h, k) && is_scan(
                                r.0@,
                                self.sources(),
                                at,
                                behind(k),
                                h,
                                true,
                            )
                        &&& !reverse ==> exists|k: Seq<u8>| #[trigger]
                            is_first_damage(self.version, lo@, h, k) && is_scan(
                                r.0@,
                                self.sources(),
                                at,
                                lo@,
                                Some(k),
                                false,
                            )
                    },
                }
            }),
    {
        let ghost h = crate::mvcc::opt_view(hi);
        let copy: Option<Vec<u8>> = match &hi {
            Some(x) => Some(to_bytes(x.as_slice())),
            None => None,
        };
        let e = match self.scan_raw(lo, copy, reverse, seq) {
            Ok(out) => {
                return (out, None);
            },
            Err(e) => e,
        };
        proof {
            let ls = self.version.levels@;
            assert forall|l: int, k: int| 0 <= l < ls.len() && 0 <= k < ls[l]@.len() implies (
            #[trigger] ls[l]@[k]).intact() by {}
        }
        let again = match damage_of(&self.version, lo, &hi) {
            Some((first, last)) => {
                let ghost f = first@;
                let ghost g = last@;
                if reverse {
                    let mut from = last;
                    from.push(0);
                    proof {
                        lemma_sound_above(self.version, lo@, h, g);
                        assert(from@ == behind(g));
                    }
                    self.scan_raw(from.as_slice(), hi, true, seq)
                } else {
                    proof {
                        lemma_sound_below(self.version, lo@, h, f);
                    }
                    self.scan_raw(lo, Some(first), false, seq)
                }
            },
            None => Ok(Vec::new()),
        };
        match again {
            Ok(out) => (out, Some(e)),
            Err(e2) => (Vec::new(), Some(e2)),
        }
    }

    /// The same over all keys, the reserved ones too.
    #[verifier::rlimit(40)]
    pub fn scan_raw(&self, lo: &[u8], hi: Option<Vec<u8>>, reverse: bool, seq: SeqNo) -> (r: Result<
        Vec<(Vec<u8>, Pending)>,
    >)
        requires
            self.inv(),
        ensures
            match r {
                Ok(out) => range_sound(
                    self.version,
                    lo@,
                    crate::mvcc::opt_view(hi),
                ) && is_scan(
                    out@,
                    self.sources(),
                    lower(seq, self.visible) as nat,
                    lo@,
                    crate::mvcc::opt_view(hi),
                    reverse,
                ),
                Err(e) => !range_sound(
                    self.version,
                    lo@,
                    crate::mvcc::opt_view(hi),
                ) && (e is Corruption || e is Io),
            },
    {
        let ghost srcs = self.sources();
        let at: u64 = if seq < self.visible {
            seq
        } else {
            self.visible
        };
        let runs = self.version.runs_newest_first();
        proof {
            lemma_runs_intact(self.version, runs@, self.next_file_id);
        }
        let ghost hi_v = crate::mvcc::opt_view(hi);
        let blocks = match read_runs(&runs, lo, &hi) {
            Ok(b) => b,
            Err(e) => {
                proof {
                    lemma_range_of_runs(self.version, runs@, lo@, hi_v);
                }
                return Err(e);
            },
        };
        let ghost ms = self.memtables();
        let ghost parts = ms + runs_reached(runs@, lo@, hi_v);
        proof {
            lemma_range_of_runs(self.version, runs@, lo@, hi_v);
        }
        let children = scan_children(
            &self.mem,
            &self.imms,
            &runs,
            &blocks,
            Ghost(lo@),
            Ghost(hi_v),
        );
        proof {
            self.lemma_sources_sorted();
            lemma_newest_first_mergeable(srcs);
            assert(children@.map_values(|c: Child<'_>| c.entries()) =~= parts) by {
                assert(parts_of(children@) =~= parts);
            }
            assert forall|l: int| 0 <= l < ms.len() implies sorted(#[trigger] ms[l]) by {
                assert(srcs[l] == ms[l]);
            }
            lemma_narrowed(self.version, ms, runs@, lo@, hi_v);
            assert(srcs =~= ms + self.version.sources());
            lemma_part_scans(srcs, parts, at as nat, lo@, hi_v);
        }
        let mut it = DbIterator::new(children, at, lo, hi, reverse);
        let ghost want = it.pending();
        let ghost es = merged(parts, false);
        proof {
            lemma_merged_good(srcs, parts, self.visible as nat);
            lemma_scan_readable(
                es,
                at as nat,
                lo@,
                crate::mvcc::opt_view(hi),
                reverse,
                want,
            );
        }
        let mut out: Vec<(Vec<u8>, Pending)> = Vec::new();
        let mut done: bool = false;
        assert(want.skip(0) =~= want);
        while !done
            invariant
                it.inv(),
                it.all() == es,
                kinds_ok(es),
                out@.len() <= want.len(),
                it.pending() == want.skip(out@.len() as int),
                is_window(out@, want, out@.len() as int),
                readable(want, want.len() as int),
                done ==> out@.len() == want.len(),
            decreases want.len() - out@.len(), (if done {
                0int
            } else {
                1int
            }),
        {
            let ghost ps = it.pending();
            let ghost n0 = out@.len() as int;
            proof {
                let n = window_end(ps, 0, 0);
                crate::scan::lemma_window_grows(ps, 0, 0);
                assert(readable(ps, n)) by {
                    assert forall|k: int| 0 <= k < n implies p_repr((#[trigger] ps[k]).1) is Some by {
                        assert(ps[k] == want[n0 + k]);
                    }
                }
                if ps.len() > 0 {
                    crate::scan::lemma_window_grows(ps, 1, crate::scan::pair_cost(ps[0]));
                    assert(n >= 1);
                }
            }
            let mut w = match it.next_window() {
                Ok(w) => w,
                Err(e) => {
                    return Err(e);
                },
            };
            if w.len() == 0 {
                done = true;
            } else {
                let ghost o0 = out@;
                let ghost wv = w@;
                out.append(&mut w);
                proof {
                    assert(out@ =~= o0 + wv);
                    let n = wv.len() as int;
                    assert(ps.skip(n) =~= want.skip(n0 + n));
                    assert forall|k: int| 0 <= k < out@.len() implies (#[trigger] out@[k]).0@
                        == want[k].0 && (p_repr(want[k].1) matches Some(r) && pending_is(
                        out@[k].1,
                        r,
                    )) by {
                        if k < n0 {
                            assert(out@[k] == o0[k]);
                        } else {
                            assert(out@[k] == wv[k - n0]);
                            assert(ps[k - n0] == want[k]);
                        }
                    }
                }
            }
        }
        Ok(out)
    }
}

/// A merge of what good sources hold is good.
proof fn lemma_merged_good(srcs: Seq<Seq<Kv>>, parts: Seq<Seq<Kv>>, vis: nat)
    requires
        sources_ok(srcs, vis),
        mergeable(parts, false),
        forall|kv: Kv| #[trigger] in_some(parts, kv) ==> in_some(srcs, kv),
    ensures
        good(merged(parts, false)),
{
    let es = merged(parts, false);
    lemma_merged(parts, false);
    assert forall|i: int| 0 <= i < es.len() implies kind_of_byte(
        kind_byte_of((#[trigger] es[i]).key),
    ) is Some && (is_put(es[i]) ==> p_repr(es[i].repr) is Some) by {
        assert(es.contains(es[i]));
        assert(in_some(parts, es[i]));
        assert(in_some(srcs, es[i]));
        let (a, b) = choose|a: int, b: int|
            0 <= a < srcs.len() && 0 <= b < srcs[a].len() && #[trigger] srcs[a][b] == es[i];
        assert(good(srcs[a]));
        assert(kind_of_byte(kind_byte_of(srcs[a][b].key)) is Some);
    }
}

/// Every listed run is intact.
proof fn lemma_runs_intact(v: Version, rs: Seq<&Run>, next: u64)
    requires
        levels_ok(v.levels@, next),
        forall|k: int| 0 <= k < rs.len() ==> in_tree(v.levels@, *#[trigger] rs[k]),
    ensures
        forall|k: int|
            0 <= k < rs.len() ==> (#[trigger] rs[k]).intact() && fragments_open(rs[k].tables@),
{
    assert forall|k: int| 0 <= k < rs.len() implies (#[trigger] rs[k]).intact() && fragments_open(
        rs[k].tables@,
    ) by {
        assert(in_tree(v.levels@, *rs[k]));
        let (l, j) = choose|l: int, j: int|
            0 <= l < v.levels@.len() && 0 <= j < v.levels@[l]@.len() && #[trigger] v.levels@[l]@[j]
                == *rs[k];
        assert(v.levels@[l]@[j].intact());
    }
}

/// Every pair of a scan over good entries can be read.
proof fn lemma_scan_readable(
    es: Seq<Kv>,
    snap: nat,
    lo: Seq<u8>,
    hi: Option<Seq<u8>>,
    reverse: bool,
    want: Seq<(Seq<u8>, Seq<u8>)>,
)
    requires
        good(es),
        want == (if reverse {
            crate::mvcc::scan(es, snap, lo, hi).reverse()
        } else {
            crate::mvcc::scan(es, snap, lo, hi)
        }),
    ensures
        readable(want, want.len() as int),
{
    let ps = crate::mvcc::scan(es, snap, lo, hi);
    assert forall|k: int| 0 <= k < want.len() implies p_repr((#[trigger] want[k]).1) is Some by {
        let x = if reverse {
            ps.len() - 1 - k
        } else {
            k
        };
        assert(want[k] == ps[x]);
        let (uk, repr) = ps[x];
        assert(ps.contains((uk, repr)));
        crate::mvcc::lemma_scan_is_exact(es, snap, lo, hi, uk, repr);
        let i = choose|i: int|
            #[trigger] crate::mvcc::live(es, snap, i) && ukey_of(es[i].key) == uk && es[i].repr
                == repr;
        assert(is_put(es[i]));
    }
}

} // verus!
