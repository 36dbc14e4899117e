//! A store that comes back: the state it is opened with, and that nothing of
//! it was lost.

use vstd::prelude::*;

use crate::db::SnapshotList;
use crate::engine::Db;
use crate::memtable::Memtable;
use crate::types::{SeqNo, MAX_SEQNO};
use crate::order::{bytes_le, bytes_lt};
use crate::version::{Run, Version};

verus! {

use crate::order::{lemma_lex_transitive, lex_le, lex_lt};
use crate::shape::{max_of, min_of};
use crate::splice::lemma_lt_le;
use crate::durability::{
    logged, memtables_follow, lemma_reopened_store_reads_the_same, lemma_recovered_is_union,
    lemma_front_newest_first, Batches,
};
use crate::engine::{good, ids_below, imm_es, lemma_empty_front, levels_ok, newest_in_front, sources_ok};
use crate::install::{
    levels_by_ids, levels_over, meta_levels, meta_over, metas_over, run_by_ids, runs_by_ids,
    runs_over, table_ids,
};
use crate::iter::Kv;
use crate::manifest::RunMeta;
use crate::recovery::{all_kvs, holds_latest};
use crate::reopen::{
    all_stored, level_opened, levels_opened, lemma_reopened_lookup, lemma_reopened_tree_is_the_same,
    run_opened, stored,
    table_opened,
};
use crate::tree::{lacks, lemma_lacks_finds_nothing, lemma_one_source};
use crate::types::{kind_byte_of, kind_of_byte, p_repr, seqno_of, ukey_of};
use crate::version::{
    first_hit, fragments_intact, fragments_open, lemma_first_hit_split, level_entries,
    newest_first, ranges_ordered, sources_lookup,
};

/// The run has tables, each with bounds in order, and their ranges follow one
/// another.
pub open spec fn run_shaped(r: Run, next: u64) -> bool {
    &&& r.tables@.len() > 0
    &&& r.id < next
    &&& ids_below(r.tables@, next)
    &&& forall|k: int|
        0 <= k < r.tables@.len() ==> lex_le(
            min_of(#[trigger] r.tables@[k]),
            max_of(r.tables@[k]),
        )
    &&& ranges_ordered(r.tables@)
}

pub open spec fn level_shaped(rs: Seq<Run>, next: u64) -> bool {
    &&& forall|k: int| 0 <= k < rs.len() ==> run_shaped(#[trigger] rs[k], next)
    &&& forall|k: int, m: int|
        0 <= k < m < rs.len() ==> (#[trigger] rs[k]).id != (#[trigger] rs[m]).id
}

/// What can be told of a tree without reading its blocks: there are levels,
/// every run is laid out as it must be, and the ids of runs and tables are below
/// the counter, those of runs told apart within a level.
pub open spec fn levels_shaped(levels: Seq<Vec<Run>>, next: u64) -> bool {
    &&& 0 < levels.len() < usize::MAX
    &&& forall|l: int| 0 <= l < levels.len() ==> level_shaped((#[trigger] levels[l])@, next)
}

/// A tree of that shape is one that a store can be opened with, where every
/// block that can be read is what a builder wrote.
pub proof fn lemma_shaped_is_ok(levels: Seq<Vec<Run>>, next: u64)
    requires
        levels_shaped(levels, next),
        forall|l: int, k: int, t: int|
            0 <= l < levels.len() && 0 <= k < levels[l]@.len() && 0 <= t
                < levels[l]@[k].tables@.len() ==> (
            #[trigger] levels[l]@[k].tables@[t]).table.intact(),
    ensures
        levels_ok(levels, next),
{
    assert forall|l: int, k: int| 0 <= l < levels.len() && 0 <= k < levels[l]@.len() implies {
        &&& fragments_open((#[trigger] levels[l]@[k]).tables@)
        &&& levels[l]@[k].intact()
        &&& levels[l]@[k].tables@.len() > 0
        &&& levels[l]@[k].id < next
        &&& ids_below(levels[l]@[k].tables@, next)
    } by {
        assert(level_shaped(levels[l]@, next));
        assert(run_shaped(levels[l]@[k], next));
        let ts = levels[l]@[k].tables@;
        assert forall|t: int| 0 <= t < ts.len() implies (#[trigger] ts[t]).table.intact() by {
            assert(levels[l]@[k].tables@[t].table.intact());
        }
    }
    assert forall|l: int, k: int, m: int|
        0 <= l < levels.len() && 0 <= k < m < levels[l]@.len() implies (#[trigger] levels[l]@[k]).id
        != (#[trigger] levels[l]@[m]).id by {
        assert(level_shaped(levels[l]@, next));
    }
}

fn check_run(r: &Run, next: u64) -> (b: bool)
    requires
        fragments_open(r.tables@),
    ensures
        b == run_shaped(*r, next),
{
    let n: usize = r.tables.len();
    if n == 0 || r.id >= next {
        return false;
    }
    let mut k: usize = 0;
    while k < n
        invariant
            k <= n,
            n == r.tables@.len(),
            fragments_open(r.tables@),
            forall|j: int| 0 <= j < k ==> (#[trigger] r.tables@[j]).id < next,
            forall|j: int|
                0 <= j < k ==> lex_le(min_of(#[trigger] r.tables@[j]), max_of(r.tables@[j])),
            forall|j: int, l: int|
                0 <= j < l < k ==> lex_lt(
                    max_of(#[trigger] r.tables@[j]),
                    min_of(#[trigger] r.tables@[l]),
                ),
        decreases n - k,
    {
        assert(r.tables@[k as int].table.inv());
        if r.tables[k].id >= next {
            assert(r.tables@[k as int].id >= next);
            return false;
        }
        if !bytes_le(r.tables[k].table.min_ukey(), r.tables[k].table.max_ukey()) {
            assert(!lex_le(min_of(r.tables@[k as int]), max_of(r.tables@[k as int])));
            return false;
        }
        if k > 0 {
            assert(r.tables@[k - 1].table.inv());
            if !bytes_lt(r.tables[k - 1].table.max_ukey(), r.tables[k].table.min_ukey()) {
                assert(!lex_lt(max_of(r.tables@[k - 1]), min_of(r.tables@[k as int])));
                return false;
            }
            proof {
                assert forall|j: int| 0 <= j < k implies lex_lt(
                    max_of(#[trigger] r.tables@[j]),
                    min_of(r.tables@[k as int]),
                ) by {
                    if j < k - 1 {
                        let a = r.tables@[k - 1];
                        assert(lex_lt(max_of(r.tables@[j]), min_of(a)));
                        lemma_lt_le(max_of(r.tables@[j]), min_of(a), max_of(a));
                        lemma_lex_transitive(
                            max_of(r.tables@[j]),
                            max_of(a),
                            min_of(r.tables@[k as int]),
                        );
                    }
                }
            }
        }
        k += 1;
    }
    true
}

fn check_level(rs: &Vec<Run>, next: u64) -> (b: bool)
    requires
        forall|k: int| 0 <= k < rs@.len() ==> fragments_open((#[trigger] rs@[k]).tables@),
    ensures
        b == level_shaped(rs@, next),
{
    let mut k: usize = 0;
    while k < rs.len()
        invariant
            k <= rs@.len(),
            forall|j: int| 0 <= j < rs@.len() ==> fragments_open((#[trigger] rs@[j]).tables@),
            forall|j: int| 0 <= j < k ==> run_shaped(#[trigger] rs@[j], next),
            forall|j: int, m: int|
                0 <= j < m < k ==> (#[trigger] rs@[j]).id != (#[trigger] rs@[m]).id,
        decreases rs@.len() - k,
    {
        assert(fragments_open(rs@[k as int].tables@));
        if !check_run(&rs[k], next) {
            return false;
        }
        let mut j: usize = 0;
        while j < k
            invariant
                j <= k < rs@.len(),
                forall|x: int| 0 <= x < j ==> (#[trigger] rs@[x]).id != rs@[k as int].id,
            decreases k - j,
        {
            if rs[j].id == rs[k].id {
                assert(rs@[j as int].id == rs@[k as int].id);
                return false;
            }
            j += 1;
        }
        k += 1;
    }
    true
}

/// Whether the tables that were opened lie as those of a store must.
pub fn check_levels(levels: &Vec<Vec<Run>>, next: u64) -> (b: bool)
    requires
        forall|l: int, k: int|
            0 <= l < levels@.len() && 0 <= k < levels@[l]@.len() ==> fragments_open(
                (#[trigger] levels@[l]@[k]).tables@,
            ),
    ensures
        b == levels_shaped(levels@, next),
{
    if levels.len() == 0 || levels.len() == usize::MAX {
        return false;
    }
    let mut l: usize = 0;
    while l < levels.len()
        invariant
            l <= levels@.len(),
            forall|i: int, k: int|
                0 <= i < levels@.len() && 0 <= k < levels@[i]@.len() ==> fragments_open(
                    (#[trigger] levels@[i]@[k]).tables@,
                ),
            forall|i: int| 0 <= i < l ==> level_shaped((#[trigger] levels@[i])@, next),
        decreases levels@.len() - l,
    {
        assert forall|k: int| 0 <= k < levels@[l as int]@.len() implies fragments_open(
            (#[trigger] levels@[l as int]@[k]).tables@,
        ) by {}
        if !check_level(&levels[l], next) {
            assert(!level_shaped(levels@[l as int]@, next));
            return false;
        }
        l += 1;
    }
    true
}

impl Db {
    /// The state of a store that is opened: its tree, what its logs replay
    /// into, a fresh memtable and no snapshots.
    pub fn reopen(
        levels: Vec<Vec<Run>>,
        recovered: Memtable,
        vlogs: Vec<u64>,
        vlog_head_id: u64,
        wal_id: u64,
        visible: SeqNo,
        next_file_id: u64,
    ) -> (db: Db)
        requires
            recovered.inv(),
            levels_ok(levels@, next_file_id),
            visible < MAX_SEQNO,
            sources_ok(
                seq![recovered.entries()] + level_entries(levels@, levels@.len()),
                visible as nat,
            ),
        ensures
            db.inv(),
            db.mem.entries() == Seq::<Kv>::empty(),
            db.mem.wal() == wal_id,
            db.imms@ == (if recovered.entries().len() == 0 {
                Seq::empty()
            } else {
                seq![recovered]
            }),
            db.version.levels == levels,
            db.version.vlogs == vlogs,
            db.version.vlog_head_id == vlog_head_id,
            db.visible == visible,
            db.next_file_id == next_file_id,
            forall|q: u64| #[trigger] db.snapshots.held(q) == 0,
            forall|uk: Seq<u8>, snap: SeqNo| #[trigger]
                db.lookup(uk, snap) == sources_lookup(
                    seq![recovered.entries()],
                    levels@,
                    uk,
                    snap,
                ),
            forall|uk: Seq<u8>, snap: nat| #[trigger]
                first_hit(db.sources(), uk, snap) == first_hit(
                    seq![recovered.entries()] + level_entries(levels@, levels@.len()),
                    uk,
                    snap,
                ),
    {
        let ghost rec = recovered.entries();
        let ghost tree = level_entries(levels@, levels@.len());
        let mut imms: Vec<Memtable> = Vec::new();
        if !recovered.is_empty() {
            imms.push(recovered);
        }
        let db = Db {
            mem: Memtable::new(wal_id),
            imms,
            version: Version { levels, vlogs, vlog_head_id },
            visible,
            snapshots: SnapshotList::new(),
            next_file_id,
        };
        proof {
            let e = Seq::<Kv>::empty();
            let srcs = seq![rec] + tree;
            assert(db.mem.entries() =~= e);
            if rec.len() == 0 {
                assert(rec =~= e);
                assert(db.imms@ =~= Seq::empty());
                assert(imm_es(db.imms@) =~= Seq::<Seq<Kv>>::empty());
                assert(db.sources() =~= srcs);
                assert(db.memtables() =~= seq![rec]);
            } else {
                assert(db.imms@ =~= seq![recovered]);
                assert(imm_es(db.imms@) =~= seq![rec]);
                assert(db.sources() =~= seq![e] + srcs);
                lemma_empty_front(srcs, visible as nat);
                assert forall|uk: Seq<u8>, snap: nat| #[trigger]
                    first_hit(db.sources(), uk, snap) == first_hit(srcs, uk, snap) by {
                    lemma_first_hit_split(seq![e], srcs, uk, snap);
                    lemma_one_source(e, uk, snap);
                    assert(lacks(e, uk));
                    lemma_lacks_finds_nothing(e, uk, snap);
                }
                assert(db.memtables() =~= seq![e] + seq![rec]);
                assert forall|uk: Seq<u8>, snap: SeqNo| #[trigger]
                    db.lookup(uk, snap) == sources_lookup(seq![rec], levels@, uk, snap) by {
                    lemma_first_hit_split(seq![e], seq![rec], uk, snap as nat);
                    lemma_one_source(e, uk, snap as nat);
                    assert(lacks(e, uk));
                    lemma_lacks_finds_nothing(e, uk, snap as nat);
                }
            }
        }
        db
    }
}

proof fn lemma_reopened_levels_ok(
    fs: Seq<(u64, Seq<u8>)>,
    meta: Seq<Vec<RunMeta>>,
    before: Seq<Vec<Run>>,
    after: Seq<Vec<Run>>,
    next: u64,
)
    requires
        levels_ok(before, next),
        meta_levels(meta) == levels_by_ids(levels_over(before)),
        all_stored(fs, before),
        levels_opened(fs, meta, after),
    ensures
        levels_ok(after, next),
{
    assert(meta.len() == meta_levels(meta).len());
    assert(before.len() == levels_by_ids(levels_over(before)).len());
    assert forall|l: int, k: int| 0 <= l < after.len() && 0 <= k < after[l]@.len() implies ({
        let r = #[trigger] after[l]@[k];
        let b = before[l]@[k];
        &&& k < before[l]@.len()
        &&& fragments_open(r.tables@)
        &&& r.intact()
        &&& r.tables@.len() > 0
        &&& r.id == b.id
        &&& ids_below(r.tables@, next)
    }) by {
        assert(meta_levels(meta)[l] == metas_over(meta[l]@));
        assert(levels_by_ids(levels_over(before))[l] == runs_by_ids(runs_over(before[l]@)));
        assert(level_opened(fs, meta[l]@, after[l]@));
        assert(metas_over(meta[l]@).len() == runs_by_ids(runs_over(before[l]@)).len());
        let m = meta[l]@[k];
        let r = after[l]@[k];
        let b = before[l]@[k];
        assert(metas_over(meta[l]@)[k] == meta_over(m));
        assert(runs_by_ids(runs_over(before[l]@))[k] == run_by_ids(runs_over(before[l]@)[k]));
        assert(m.table_ids@ == table_ids(b.tables@));
        assert(run_opened(fs, m, r));
        assert forall|t: int| 0 <= t < r.tables@.len() implies ({
            let x = #[trigger] r.tables@[t];
            &&& x.table.inv()
            &&& x.table.intact()
            &&& x.table.model() == b.tables@[t].table.model()
        }) by {
            let h = *before[l]@[k].tables@[t];
            assert(stored(fs, h));
            assert(m.table_ids@[t] == h.id);
            assert(table_opened(fs, m.table_ids@[t], *r.tables@[t]));
            assert(b.intact());
            assert(b.tables@[t].table.intact());
        }
        assert(ids_below(r.tables@, next)) by {
            assert(ids_below(b.tables@, next));
            assert forall|t: int| 0 <= t < r.tables@.len() implies (#[trigger] r.tables@[t]).id
                < next by {
                assert(table_opened(fs, m.table_ids@[t], *r.tables@[t]));
                assert(m.table_ids@[t] == b.tables@[t].id);
            }
        }
        assert(fragments_intact(r.tables@)) by {
            assert forall|t: int, u: int| 0 <= t < u < r.tables@.len() implies crate::order::lex_lt(
                ukey_of((#[trigger] r.tables@[t]).table.model().stats.last_ikey),
                ukey_of((#[trigger] r.tables@[u]).table.model().stats.first_ikey),
            ) by {
                assert(fragments_intact(b.tables@));
                assert(r.tables@[t].table.model() == b.tables@[t].table.model());
                assert(r.tables@[u].table.model() == b.tables@[u].table.model());
            }
        }
    }
    assert forall|l: int, k: int, m: int|
        0 <= l < after.len() && 0 <= k < m < after[l]@.len() implies (#[trigger] after[l]@[k]).id
        != (#[trigger] after[l]@[m]).id by {
        assert(after[l]@[k].id == before[l]@[k].id);
        assert(after[l]@[m].id == before[l]@[m].id);
    }
}

/// The manifest and the tree stay in step across a flush: where they list the
/// same tables before, and the new run is recorded by its id and its tables'
/// ids, they do so after it.
pub proof fn lemma_flush_stays_in_step(
    before: Seq<Vec<Run>>,
    after: Seq<Vec<Run>>,
    meta0: Seq<Vec<RunMeta>>,
    meta1: Seq<Vec<RunMeta>>,
    run: RunMeta,
)
    requires
        before.len() > 0,
        meta_levels(meta0) == levels_by_ids(levels_over(before)),
        newest_in_front(before, after),
        run.id == after[0]@[0].id,
        run.table_ids@ == table_ids(after[0]@[0].tables@),
        meta1.len() == meta0.len(),
        meta1[0]@ == seq![run] + meta0[0]@,
        forall|l: int| 1 <= l < meta0.len() ==> #[trigger] meta1[l] == meta0[l],
    ensures
        meta_levels(meta1) == levels_by_ids(levels_over(after)),
{
    let m0 = meta_levels(meta0);
    let m1 = meta_levels(meta1);
    let b = levels_by_ids(levels_over(before));
    let a = levels_by_ids(levels_over(after));
    assert(m0.len() == meta0.len());
    assert(b.len() == before.len());
    assert forall|l: int| 0 <= l < m1.len() implies m1[l] == a[l] by {
        assert(m0[l] == metas_over(meta0[l]@));
        assert(m1[l] == metas_over(meta1[l]@));
        assert(b[l] == runs_by_ids(runs_over(before[l]@)));
        assert(a[l] == runs_by_ids(runs_over(after[l]@)));
        if l == 0 {
            let x = m1[0];
            let y = a[0];
            assert(m0[0].len() == meta0[0]@.len());
            assert(b[0].len() == before[0]@.len());
            assert forall|k: int| 0 <= k < x.len() implies x[k] == y[k] by {
                if k > 0 {
                    assert(meta1[0]@[k] == meta0[0]@[k - 1]);
                    assert(after[0]@[k] == after[0]@.skip(1)[k - 1]);
                    assert(m0[0][k - 1] == meta_over(meta0[0]@[k - 1]));
                    assert(b[0][k - 1] == run_by_ids(runs_over(before[0]@)[k - 1]));
                } else {
                    assert(x[0] == meta_over(run));
                    assert(y[0] == run_by_ids(runs_over(after[0]@)[0]));
                }
            }
            assert(x =~= y);
        }
    }
    assert(m1 =~= a);
}

/// Nothing is lost across a restart. Where the logs hold the batches of the
/// memtables and the files hold the tables that the manifest names, a store can
/// be reopened from what is replayed and read, and every read finds what it
/// found before.
pub proof fn lemma_restart_loses_nothing(
    db: Db,
    logs: Seq<(u64, Batches)>,
    fs: Seq<(u64, Seq<u8>)>,
    meta: Seq<Vec<RunMeta>>,
    after: Seq<Vec<Run>>,
    recovered: Seq<Kv>,
)
    requires
        db.inv(),
        memtables_follow(db.memtables(), logs),
        all_stored(fs, db.version.levels@),
        meta_levels(meta) == levels_by_ids(levels_over(db.version.levels@)),
        levels_opened(fs, meta, after),
        holds_latest(all_kvs(logged(logs, logs.len() as int)), recovered),
    ensures
        levels_ok(after, db.next_file_id),
        sources_ok(seq![recovered] + level_entries(after, after.len()), db.visible as nat),
        forall|uk: Seq<u8>, snap: SeqNo| #[trigger]
            sources_lookup(seq![recovered], after, uk, snap) == db.lookup(uk, snap),
        forall|uk: Seq<u8>, snap: nat| #[trigger]
            first_hit(seq![recovered] + level_entries(after, after.len()), uk, snap) == first_hit(
                db.sources(),
                uk,
                snap,
            ),
{
    let mems = db.memtables();
    let tree = db.version.sources();
    lemma_reopened_levels_ok(fs, meta, db.version.levels@, after, db.next_file_id);
    lemma_reopened_tree_is_the_same(fs, meta, db.version.levels@, after);
    assert(db.sources() =~= mems + tree);
    let srcs = seq![recovered] + tree;
    let vis = db.visible as nat;
    assert forall|x: Kv| #[trigger] recovered.contains(x) implies exists|k: int, i: int|
        0 <= k < mems.len() && 0 <= i < mems[k].len() && #[trigger] mems[k][i] == x by {
        lemma_recovered_is_union(mems, logs, tree, recovered, x);
    }
    assert(sources_ok(srcs, vis)) by {
        lemma_recovered_ok(mems, tree, recovered, vis);
    }
    assert forall|uk: Seq<u8>, snap: nat| #[trigger] first_hit(srcs, uk, snap) == first_hit(
        db.sources(),
        uk,
        snap,
    ) by {
        lemma_reopened_store_reads_the_same(mems, logs, tree, recovered, uk, snap);
    }
    let none = Seq::<Seq<Kv>>::empty();
    assert(mems + none =~= mems);
    assert(seq![recovered] + none =~= seq![recovered]);
    assert(newest_first(mems + none)) by {
        lemma_front_newest_first(mems, tree);
    }
    assert forall|uk: Seq<u8>, snap: SeqNo| #[trigger]
        sources_lookup(seq![recovered], after, uk, snap) == db.lookup(uk, snap) by {
        lemma_reopened_store_reads_the_same(mems, logs, none, recovered, uk, snap as nat);
        lemma_reopened_lookup(
            fs,
            meta,
            db.version.levels@,
            after,
            db.version.levels@.len() as int,
            uk,
            snap,
        );
    }
}

proof fn lemma_recovered_ok(
    mems: Seq<Seq<Kv>>,
    tree: Seq<Seq<Kv>>,
    recovered: Seq<Kv>,
    vis: nat,
)
    requires
        sources_ok(mems + tree, vis),
        forall|x: Kv| #[trigger]
            recovered.contains(x) ==> exists|k: int, i: int|
                0 <= k < mems.len() && 0 <= i < mems[k].len() && #[trigger] mems[k][i] == x,
    ensures
        sources_ok(seq![recovered] + tree, vis),
{
    let old_srcs = mems + tree;
    let srcs = seq![recovered] + tree;
    let n = mems.len() as int;
    assert forall|i: int| 0 <= i < recovered.len() implies ({
        let x = #[trigger] recovered[i];
        &&& kind_of_byte(kind_byte_of(x.key)) is Some
        &&& crate::compaction::is_put(x) ==> p_repr(x.repr) is Some
        &&& seqno_of(x.key) <= vis
    }) by {
        assert(recovered.contains(recovered[i]));
        let (k, j) = choose|k: int, j: int|
            0 <= k < mems.len() && 0 <= j < mems[k].len() && #[trigger] mems[k][j] == recovered[i];
        assert(old_srcs[k] == mems[k]);
        assert(good(old_srcs[k]));
        assert(old_srcs[k][j] == recovered[i]);
    }
    assert(good(recovered));
    assert forall|l: int| 0 <= l < srcs.len() implies good(#[trigger] srcs[l]) by {
        if l > 0 {
            assert(srcs[l] == old_srcs[n + l - 1]);
        }
    }
    assert forall|l: int, i: int| 0 <= l < srcs.len() && 0 <= i < srcs[l].len() implies seqno_of(
        (#[trigger] srcs[l][i]).key,
    ) <= vis by {
        if l > 0 {
            assert(srcs[l] == old_srcs[n + l - 1]);
            assert(old_srcs[n + l - 1][i] == srcs[l][i]);
        } else {
            assert(srcs[l][i] == recovered[i]);
        }
    }
    assert forall|k: int, l: int, i: int, j: int|
        0 <= k < l < srcs.len() && 0 <= i < srcs[k].len() && 0 <= j < srcs[l].len() && ukey_of(
            (#[trigger] srcs[k][i]).key,
        ) == ukey_of((#[trigger] srcs[l][j]).key) implies seqno_of(srcs[k][i].key) > seqno_of(
        srcs[l][j].key,
    ) by {
        assert(old_srcs[n + l - 1][j] == srcs[l][j]);
        if k > 0 {
            assert(old_srcs[n + k - 1][i] == srcs[k][i]);
        } else {
            assert(recovered.contains(recovered[i]));
            let (a, b) = choose|a: int, b: int|
                0 <= a < mems.len() && 0 <= b < mems[a].len() && #[trigger] mems[a][b]
                    == recovered[i];
            assert(old_srcs[a][b] == recovered[i]);
        }
    }
}

/// A store's own tree has that shape: it is not refused when it is opened again.
pub proof fn lemma_ok_is_shaped(levels: Seq<Vec<Run>>, next: u64)
    requires
        levels_ok(levels, next),
    ensures
        levels_shaped(levels, next),
{
    assert forall|l: int| 0 <= l < levels.len() implies level_shaped(
        (#[trigger] levels[l])@,
        next,
    ) by {
        assert forall|k: int| 0 <= k < levels[l]@.len() implies run_shaped(
            #[trigger] levels[l]@[k],
            next,
        ) by {
            let r = levels[l]@[k];
            assert(r.intact());
            assert forall|t: int| 0 <= t < r.tables@.len() implies lex_le(
                min_of(#[trigger] r.tables@[t]),
                max_of(r.tables@[t]),
            ) by {
                assert(r.tables@[t].table.intact());
                r.tables@[t].table.lemma_intact();
            }
        }
    }
}

} // verus!
