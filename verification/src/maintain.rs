//! Compaction of a store in memory: pick a merge, run it, install it. What a
//! reader may read does not change.

use std::sync::Arc;

use vstd::prelude::*;

use crate::compaction::{run_job, JobOutput, MergeOptions};
use crate::engine::{open_tables, Db};
use crate::error::{invalid, Error, Result};
use crate::install::install_levels;
use crate::scan::Pending;
use crate::shape::{pick, Job, ShapeOptions};
use crate::version::{Run, TableHandle};

verus! {

use crate::compaction::{
    all_sound, compacted, dead_at, dead_bytes, dropped_reprs_ok, files, fits_format, fragments_entries,
    is_output, is_put, keep_upto, kept, runs_intact, some_admits, value_of,
};
use crate::counts::{ascending, count_of, counts_id};
use crate::db::lower;
use crate::lookup::{
    lemma_same_answer, lemma_levels_look, lemma_same_watermark, lemma_splice_lookup, lemma_tier_lookup, look_value,
    output_holds, splice_output, splice_parts,
};
use crate::engine::{
    good, ids_below, ids_from, imm_es, lemma_ids_below, levels_ok, sized, sources_ok,
};
use crate::install::{
    change_of, installed, levels_over, run_ids, run_over, runs_over, table_ids, unlisted, Change,
    RunOver, SpliceOver,
};
use crate::iter::{
    flat, in_some, kinds_ok, lemma_flat_at, lemma_merged, mergeable, merged, part_start, sorted, Kv,
};
use crate::mvcc::{find_newest, found_at, newest, visible};
use crate::order::{lex_le, lex_lt};
use crate::shape::{
    due, highest, is_splice_job, is_tier_job, left_of, lowest, max_of, min_of, none_due, overflows, overlapping,
    right_of, runs_from, same_run, same_runs,
};
use crate::splice::{
    all_left, all_right, entries_of, lemma_below_disjoint, lemma_bounds, lemma_in_tables,
    lemma_joined_sound, lemma_le_lt,
    lemma_lt_le, lemma_partition, lemma_parts_sound, lemma_table_range, lemma_tables_concat,
    tables_below,
};
use crate::tree::{
    deeper, disjoint, drawn_from, lacks, lemma_compacted_drawn, lemma_level_es, lemma_levels_split,
    lemma_lacks_finds_nothing, lemma_newest_first_mergeable, lemma_not_admitted, lemma_one_source,
    lemma_regroup_first, lemma_replaced, lemma_splice_preserves_values, lemma_splice_sources,
    lemma_split_one, lemma_tier_preserves_values, lemma_tier_shape, lemma_tier_sources,
    lemma_tree_is_levels, level_es, output_es, run_es, tree_es, TreeRun,
};
use crate::types::{
    kind_byte_of, kind_of_byte, p_repr, seqno_of, ukey_of, SeqNo, MAX_SEQNO,
};
use crate::version::{
    first_hit, fragments, fragments_intact, fragments_open, fragments_sound, lemma_first_hit_split,
    level_entries, levels_lookup,
    newest_first, runs_entries,
};

/// The job is the one that the tree needs next.
pub open spec fn picked(
    job: Job,
    ls: Seq<Vec<Run>>,
    shape: ShapeOptions,
    force: bool,
    next: u64,
) -> bool {
    &&& forall|i: int| #[trigger]
        due(ls, shape, force, i) && none_due(ls, shape, force, i) ==> is_tier_job(job, ls, i)
    &&& none_due(ls, shape, force, ls.len() - 1) ==> if overflows(ls, shape, force) {
        is_tier_job(job, ls, ls.len() - 1)
    } else {
        ls.last()@.len() >= 2 && is_splice_job(job, ls, next)
    }
}

/// The oldest seqno that anyone may still read at, or one past the newest.
pub open spec fn is_watermark(db: Db, w: u64) -> bool {
    &&& forall|q: u64| #[trigger] db.snapshots.held(q) > 0 ==> w <= q
    &&& (forall|q: u64| #[trigger] db.snapshots.held(q) == 0) ==> w == db.visible + 1
    &&& (exists|q: u64| #[trigger] db.snapshots.held(q) > 0) ==> db.snapshots.held(w) > 0
}

/// The merge is that of the job: its output takes the place of its inputs, and
/// holds of their entries what readers from the watermark on need.
pub open spec fn merged_by(
    before: Db,
    after: Db,
    c: Compacted,
    shape: ShapeOptions,
    opts: MergeOptions,
    force: bool,
    job: Job,
    output: Option<Run>,
    w: u64,
) -> bool {
    let es = merged(runs_entries(job.inputs@), false);
    let out = compacted(es, w as nat, some_admits(job.older@));
    &&& picked(job, before.version.levels@, shape, force, before.next_file_id)
    &&& is_watermark(before, w)
    &&& c.level == job.level
    &&& c.target == job.target
    &&& levels_over(after.version.levels@) == installed(
        levels_over(before.version.levels@),
        change_of(job, output),
    )
    &&& match output {
        Some(r) => {
            &&& r.tables@.len() > 0
            &&& r.entries() == out
            &&& fragments(r.tables@) == files(out, opts)
            &&& sized(r.tables@)
            &&& r.id == before.next_file_id + 1
            &&& table_ids(r.tables@) == ids_from(
                (before.next_file_id + 2) as u64,
                r.tables@.len(),
            )
        },
        None => out.len() == 0,
    }
    &&& after.next_file_id == before.next_file_id + 2 + files(out, opts).len()
    &&& ascending(c.discard@)
    &&& forall|f: u64| #[trigger]
        count_of(c.discard@, f) == dead_bytes(es, w as nat, es.len() as int, f)
    &&& forall|f: u64| #[trigger]
        counts_id(c.discard@, f) <==> exists|i: int|
            0 <= i < es.len() && #[trigger] dead_at(es, w as nat, i, f) is Some
}

/// The merge is that of the job that the tree needed next.
pub open spec fn some_merge(
    before: Db,
    after: Db,
    c: Compacted,
    shape: ShapeOptions,
    opts: MergeOptions,
    force: bool,
) -> bool {
    exists|job: Job, output: Option<Run>, w: u64| #[trigger]
        merged_by(before, after, c, shape, opts, force, job, output, w)
}

/// What a merge did, for the manifest.
pub struct Compacted {
    pub level: usize,
    pub target: usize,
    /// Dead bytes found, by value-log file.
    pub discard: Vec<(u64, u64)>,
}

// ---------------------------------------------------------------------------
// Sources
// ---------------------------------------------------------------------------

proof fn lemma_part_newest_first(a: Seq<Seq<Kv>>, b: Seq<Seq<Kv>>, c: Seq<Seq<Kv>>)
    requires
        newest_first(a + b + c),
    ensures
        newest_first(b),
{
    let s = a + b + c;
    let n = a.len() as int;
    assert forall|k: int, l: int, i: int, j: int|
        0 <= k < l < b.len() && 0 <= i < b[k].len() && 0 <= j < b[l].len() && ukey_of(
            (#[trigger] b[k][i]).key,
        ) == ukey_of((#[trigger] b[l][j]).key) implies seqno_of(b[k][i].key) > seqno_of(
        b[l][j].key,
    ) by {
        assert(s[n + k] == b[k] && s[n + l] == b[l]);
        assert(seqno_of(s[n + k][i].key) > seqno_of(s[n + l][j].key));
    }
}

/// A merge of good sources is good.
proof fn lemma_good_merged(ins: Seq<Seq<Kv>>, w: nat)
    requires
        mergeable(ins, false),
        forall|l: int| 0 <= l < ins.len() ==> good(#[trigger] ins[l]),
    ensures
        kinds_ok(merged(ins, false)),
        dropped_reprs_ok(merged(ins, false), w),
{
    let es = merged(ins, false);
    lemma_merged(ins, false);
    assert forall|i: int| 0 <= i < es.len() implies kind_of_byte(
        kind_byte_of((#[trigger] es[i]).key),
    ) is Some && (is_put(es[i]) ==> p_repr(es[i].repr) is Some) by {
        assert(es.contains(es[i]));
        assert(in_some(ins, es[i]));
        let (a, b) = choose|a: int, b: int|
            0 <= a < ins.len() && 0 <= b < ins[a].len() && #[trigger] ins[a][b] == es[i];
        assert(good(ins[a]));
        assert(kind_of_byte(kind_byte_of(ins[a][b].key)) is Some);
    }
}

/// What is drawn from sources in order is as good as they.
proof fn lemma_drawn_ok(before: Seq<Seq<Kv>>, after: Seq<Seq<Kv>>, vis: nat)
    requires
        sources_ok(before, vis),
        newest_first(after),
        drawn_from(after, before),
    ensures
        sources_ok(after, vis),
{
    assert forall|l: int, i: int| 0 <= l < after.len() && 0 <= i < after[l].len() implies seqno_of(
        (#[trigger] after[l][i]).key,
    ) <= vis && kind_of_byte(kind_byte_of(after[l][i].key)) is Some && (is_put(after[l][i])
        ==> p_repr(after[l][i].repr) is Some) by {
        assert(in_some(before, after[l][i]));
        let (a, b) = choose|a: int, b: int|
            0 <= a < before.len() && 0 <= b < before[a].len() && #[trigger] before[a][b]
                == after[l][i];
        assert(good(before[a]));
        assert(seqno_of(before[a][b].key) <= vis);
        assert(kind_of_byte(kind_byte_of(before[a][b].key)) is Some);
    }
    assert forall|l: int| 0 <= l < after.len() implies good(#[trigger] after[l]) by {
        assert forall|i: int| 0 <= i < after[l].len() implies kind_of_byte(
            kind_byte_of((#[trigger] after[l][i]).key),
        ) is Some by {}
    }
}

/// Where every version is visible, any later snapshot reads the same.
pub proof fn lemma_all_visible(srcs: Seq<Seq<Kv>>, uk: Seq<u8>, s1: nat, s2: nat)
    requires
        forall|l: int, i: int|
            0 <= l < srcs.len() && 0 <= i < srcs[l].len() ==> seqno_of((#[trigger] srcs[l][i]).key)
                <= s1,
        s1 <= s2,
    ensures
        first_hit(srcs, uk, s1) == first_hit(srcs, uk, s2),
    decreases srcs.len(),
{
    if srcs.len() > 0 {
        let es = srcs[0];
        assert forall|i: int| 0 <= i < es.len() implies visible(#[trigger] es[i], s1) && visible(
            es[i],
            s2,
        ) by {
            assert(seqno_of(srcs[0][i].key) <= s1);
        }
        assert forall|i: int| found_at(es, uk, s1, i) == found_at(es, uk, s2, i) by {
            assert(newest(es, s1, i) == newest(es, s2, i));
        }
        assert(find_newest(es, uk, s1) == find_newest(es, uk, s2)) by {
            if exists|i: int| found_at(es, uk, s1, i) {
                let i = choose|i: int| found_at(es, uk, s1, i);
                assert(found_at(es, uk, s1, i));
                assert(found_at(es, uk, s2, i));
                crate::mvcc::lemma_found_unique(es, uk, s1, i);
                crate::mvcc::lemma_found_unique(es, uk, s2, i);
            } else if exists|i: int| found_at(es, uk, s2, i) {
                let i = choose|i: int| found_at(es, uk, s2, i);
                assert(found_at(es, uk, s2, i));
                assert(found_at(es, uk, s1, i));
            }
        }
        let t = srcs.skip(1);
        assert forall|l: int, i: int| 0 <= l < t.len() && 0 <= i < t[l].len() implies seqno_of(
            (#[trigger] t[l][i]).key,
        ) <= s1 by {
            assert(t[l] == srcs[l + 1]);
            assert(seqno_of(srcs[l + 1][i].key) <= s1);
        }
        lemma_all_visible(t, uk, s1, s2);
    }
}

// ---------------------------------------------------------------------------
// Levels
// ---------------------------------------------------------------------------

pub open spec fn run_ok(r: TreeRun, next: u64) -> bool {
    &&& fragments_open(r.tables)
    &&& fragments_intact(r.tables)
    &&& r.tables.len() > 0
    &&& r.id < next
    &&& ids_below(r.tables, next)
}

pub open spec fn level_ok(rs: Seq<TreeRun>, next: u64) -> bool {
    &&& forall|k: int| 0 <= k < rs.len() ==> run_ok(#[trigger] rs[k], next)
    &&& forall|k: int, m: int|
        0 <= k < m < rs.len() ==> (#[trigger] rs[k]).id != (#[trigger] rs[m]).id
}

pub open spec fn tree_ok(ls: Seq<Seq<TreeRun>>, next: u64) -> bool {
    forall|l: int| 0 <= l < ls.len() ==> level_ok(#[trigger] ls[l], next)
}

proof fn lemma_levels_tree(levels: Seq<Vec<Run>>, next: u64)
    requires
        levels_ok(levels, next),
    ensures
        tree_ok(levels_over(levels), next),
{
    let ls = levels_over(levels);
    assert forall|l: int| 0 <= l < ls.len() implies level_ok(#[trigger] ls[l], next) by {
        let rs = levels[l]@;
        assert(ls[l] == runs_over(rs));
        assert forall|k: int| 0 <= k < ls[l].len() implies run_ok(#[trigger] ls[l][k], next) by {
            assert(ls[l][k] == run_over(rs[k]));
            assert(levels[l]@[k].id < next);
            assert(ids_below(levels[l]@[k].tables@, next));
        }
        assert forall|k: int, m: int| 0 <= k < m < ls[l].len() implies (#[trigger] ls[l][k]).id != (
        #[trigger] ls[l][m]).id by {
            assert(levels[l]@[k].id != levels[l]@[m].id);
        }
    }
}

proof fn lemma_tree_levels(levels: Seq<Vec<Run>>, next: u64)
    requires
        tree_ok(levels_over(levels), next),
        0 < levels.len() < usize::MAX,
    ensures
        levels_ok(levels, next),
{
    let ls = levels_over(levels);
    assert forall|l: int, k: int| 0 <= l < levels.len() && 0 <= k < levels[l]@.len() implies {
        &&& fragments_open((#[trigger] levels[l]@[k]).tables@)
        &&& levels[l]@[k].intact()
        &&& levels[l]@[k].tables@.len() > 0
        &&& levels[l]@[k].id < next
        &&& ids_below(levels[l]@[k].tables@, next)
    } by {
        assert(level_ok(ls[l], next));
        assert(ls[l][k] == run_over(levels[l]@[k]));
        assert(run_ok(ls[l][k], next));
    }
    assert forall|l: int, k: int, m: int|
        0 <= l < levels.len() && 0 <= k < m < levels[l]@.len() implies (#[trigger] levels[l]@[k]).id
        != (#[trigger] levels[l]@[m]).id by {
        assert(level_ok(ls[l], next));
        assert(ls[l][k].id != ls[l][m].id);
    }
}

proof fn lemma_level_later(rs: Seq<TreeRun>, next: u64, later: u64)
    requires
        level_ok(rs, next),
        next <= later,
    ensures
        level_ok(rs, later),
{
    assert forall|k: int| 0 <= k < rs.len() implies run_ok(#[trigger] rs[k], later) by {
        assert(run_ok(rs[k], next));
        assert(ids_below(rs[k].tables, next));
    }
}

/// The sources of the levels from `i` on are those of their runs.
proof fn lemma_deeper_runs(levels: Seq<Vec<Run>>, i: int)
    requires
        0 <= i <= levels.len(),
    ensures
        deeper(levels_over(levels), i, levels.len() as int) == runs_entries(runs_from(levels, i)),
    decreases levels.len() - i,
{
    let n = levels.len() as int;
    let ls = levels_over(levels);
    if i < n {
        lemma_deeper_runs(levels, i + 1);
        lemma_split_one(ls, i, n);
        lemma_level_es(levels[i]@);
        assert(ls[i] == runs_over(levels[i]@));
        assert(runs_entries(levels[i]@ + runs_from(levels, i + 1)) =~= runs_entries(levels[i]@)
            + runs_entries(runs_from(levels, i + 1)));
    } else {
        assert(runs_entries(runs_from(levels, i)) =~= Seq::<Seq<Kv>>::empty());
    }
}

proof fn lemma_same_runs_entries(a: Seq<Run>, b: Seq<Run>)
    requires
        same_runs(a, b),
    ensures
        runs_entries(a) == runs_entries(b),
        runs_over(a) == runs_over(b),
        run_ids(a) == run_ids(b),
{
    assert forall|k: int| 0 <= k < a.len() implies runs_entries(a)[k] == runs_entries(b)[k]
        && runs_over(a)[k] == runs_over(b)[k] && run_ids(a)[k] == run_ids(b)[k] by {
        assert(same_run(a[k], b[k]));
    }
    assert(runs_entries(a) =~= runs_entries(b));
    assert(runs_over(a) =~= runs_over(b));
    assert(run_ids(a) =~= run_ids(b));
}

/// Every run from level `i` on is intact.
proof fn lemma_runs_from_intact(levels: Seq<Vec<Run>>, i: int, next: u64)
    requires
        levels_ok(levels, next),
        0 <= i <= levels.len(),
    ensures
        runs_intact(runs_from(levels, i)),
    decreases levels.len() - i,
{
    if i < levels.len() {
        lemma_runs_from_intact(levels, i + 1, next);
        let a = levels[i]@;
        let b = runs_from(levels, i + 1);
        assert forall|r: int| 0 <= r < (a + b).len() implies fragments_open(
            (#[trigger] (a + b)[r]).tables@,
        ) && (a + b)[r].intact() by {
            if r < a.len() {
                assert((a + b)[r] == levels[i]@[r]);
            } else {
                assert((a + b)[r] == b[r - a.len()]);
            }
        }
    }
}

proof fn lemma_same_intact(a: Seq<Run>, b: Seq<Run>)
    requires
        same_runs(a, b),
        runs_intact(b),
    ensures
        runs_intact(a),
{
    assert forall|r: int| 0 <= r < a.len() implies fragments_open((#[trigger] a[r]).tables@)
        && a[r].intact() by {
        assert(same_run(a[r], b[r]));
        assert(b[r].intact());
    }
}

/// Filtering out every id leaves nothing.
proof fn lemma_all_listed(rs: Seq<TreeRun>, ids: Seq<u64>)
    requires
        forall|k: int| 0 <= k < rs.len() ==> ids.contains((#[trigger] rs[k]).id),
    ensures
        unlisted(rs, ids) == Seq::<TreeRun>::empty(),
    decreases rs.len(),
{
    reveal(Seq::filter);
    if rs.len() > 0 {
        let t = rs.drop_last();
        assert forall|k: int| 0 <= k < t.len() implies ids.contains((#[trigger] t[k]).id) by {
            assert(ids.contains(rs[k].id));
        }
        lemma_all_listed(t, ids);
        assert(ids.contains(rs[rs.len() - 1].id));
    } else {
        assert(unlisted(rs, ids) =~= Seq::<TreeRun>::empty());
    }
}

// ---------------------------------------------------------------------------
// Tiered merges
// ---------------------------------------------------------------------------

/// The inputs of a tiered merge, as the merge wants them.
proof fn lemma_tier_ready(
    first: Seq<Seq<Kv>>,
    levels: Seq<Vec<Run>>,
    next: u64,
    vis: nat,
    i: int,
    job: Job,
    w: nat,
)
    requires
        levels_ok(levels, next),
        0 <= i < levels.len(),
        is_tier_job(job, levels, i),
        sources_ok(first + level_entries(levels, levels.len()), vis),
    ensures
        runs_intact(job.inputs@),
        runs_intact(job.older@),
        newest_first(runs_entries(job.inputs@)),
        forall|l: int|
            0 <= l < job.inputs@.len() ==> sorted(#[trigger] runs_entries(job.inputs@)[l]),
        mergeable(runs_entries(job.inputs@), false),
        kinds_ok(merged(runs_entries(job.inputs@), false)),
        dropped_reprs_ok(merged(runs_entries(job.inputs@), false), w),
{
    let n = levels.len() as int;
    let ls = levels_over(levels);
    let rs = levels[i]@;
    let ins = runs_entries(rs);
    lemma_same_runs_entries(job.inputs@, rs);
    assert(runs_intact(rs)) by {
        assert forall|r: int| 0 <= r < rs.len() implies fragments_open((#[trigger] rs[r]).tables@)
            && rs[r].intact() by {
            assert(levels[i]@[r].intact());
        }
    }
    lemma_same_intact(job.inputs@, rs);
    lemma_runs_from_intact(levels, i + 1, next);
    lemma_same_intact(job.older@, runs_from(levels, i + 1));
    assert forall|l: int| 0 <= l < ins.len() implies sorted(#[trigger] ins[l]) by {
        assert(rs[l].intact());
        crate::version::lemma_run_sorted(rs[l].tables@);
    }
    lemma_tree_is_levels(levels, levels.len());
    lemma_levels_split(ls, i, n);
    lemma_split_one(ls, i, n);
    lemma_level_es(rs);
    assert(ls[i] == runs_over(rs));
    let front = first + tree_es(ls, i as nat);
    let behind = deeper(ls, i + 1, n);
    let srcs = first + level_entries(levels, levels.len());
    assert(srcs =~= front + ins + behind);
    lemma_part_newest_first(front, ins, behind);
    lemma_newest_first_mergeable(ins);
    assert forall|l: int| 0 <= l < ins.len() implies good(#[trigger] ins[l]) by {
        assert(srcs[front.len() + l] == ins[l]);
        assert(good(srcs[front.len() + l]));
    }
    lemma_good_merged(ins, w);
}

/// After a tiered merge: the tree is as sound as before, and holds nothing
/// new.
proof fn lemma_tier_after(
    first: Seq<Seq<Kv>>,
    before: Seq<Vec<Run>>,
    after: Seq<Vec<Run>>,
    next: u64,
    later: u64,
    vis: nat,
    i: int,
    job: Job,
    output: Option<Run>,
    w: nat,
)
    requires
        levels_ok(before, next),
        0 <= i < before.len(),
        before.len() + 1 < usize::MAX,
        is_tier_job(job, before, i),
        sources_ok(first + level_entries(before, before.len()), vis),
        levels_over(after) == installed(levels_over(before), change_of(job, output)),
        next < later,
        match output {
            Some(r) => run_ok(run_over(r), later) && r.id >= next && r.entries() == compacted(
                merged(runs_entries(job.inputs@), false),
                w,
                some_admits(job.older@),
            ),
            None => compacted(
                merged(runs_entries(job.inputs@), false),
                w,
                some_admits(job.older@),
            ).len() == 0,
        },
    ensures
        levels_ok(after, later),
        sources_ok(first + level_entries(after, after.len()), vis),
        forall|uk: Seq<u8>, snap: nat|
            snap >= w ==> value_of(
                #[trigger] first_hit(first + level_entries(after, after.len()), uk, snap),
            ) == value_of(first_hit(first + level_entries(before, before.len()), uk, snap)),
        level_entries(after, after.len()).len() + before[i]@.len() <= level_entries(
            before,
            before.len(),
        ).len() + 1,
        i + 1 < before.len() ==> after.len() == before.len(),
{
    let n = before.len() as int;
    let ls = levels_over(before);
    let la = levels_over(after);
    let c = change_of(job, output);
    let rs = before[i]@;
    let ins = runs_entries(rs);
    let none = Seq::<TreeRun>::empty();
    lemma_tier_ready(first, before, next, vis, i, job, w);
    lemma_same_runs_entries(job.inputs@, rs);
    lemma_level_es(rs);
    assert(ls[i] == runs_over(rs));
    assert(none + ls[i] =~= ls[i]);
    assert forall|k: int| 0 <= k < ls[i].len() implies c.input_ids.contains(
        (#[trigger] ls[i][k]).id,
    ) by {
        assert(run_ids(rs)[k] == ls[i][k].id);
    }
    lemma_all_listed(ls[i], c.input_ids);
    lemma_tier_shape(ls, c, none, ls[i]);
    lemma_levels_tree(before, next);
    assert(la.len() == after.len());
    assert(after.len() > 0);
    // the tree
    assert forall|l: int| 0 <= l < la.len() implies level_ok(#[trigger] la[l], later) by {
        if l == i {
        } else if l == i + 1 {
            let nx = if i + 1 < n {
                ls[i + 1]
            } else {
                Seq::empty()
            };
            if i + 1 < n {
                assert(level_ok(ls[i + 1], next));
                lemma_level_later(ls[i + 1], next, later);
            }
            if let Some(r) = output {
                let x = run_over(r);
                let y = seq![x] + nx;
                assert(la[l] == y);
                assert forall|k: int| 0 <= k < y.len() implies run_ok(#[trigger] y[k], later) by {
                    if k > 0 {
                        assert(y[k] == nx[k - 1]);
                    }
                }
                assert forall|k: int, m: int| 0 <= k < m < y.len() implies (#[trigger] y[k]).id != (
                #[trigger] y[m]).id by {
                    assert(y[m] == nx[m - 1]);
                    assert(run_ok(ls[i + 1][m - 1], next));
                    if k > 0 {
                        assert(y[k] == nx[k - 1]);
                    }
                }
            }
        } else {
            assert(la[l] == ls[l]);
            assert(level_ok(ls[l], next));
            lemma_level_later(ls[l], next, later);
        }
    }
    lemma_tree_levels(after, later);
    // the sources
    lemma_tier_sources(ls, c, none, ls[i]);
    lemma_tree_is_levels(before, before.len());
    lemma_tree_is_levels(after, after.len());
    let newer = tree_es(ls, i as nat) + level_es(none);
    let behind = deeper(ls, i + 1, n);
    let o = output_es(c.output);
    let older = some_admits(job.older@);
    lemma_regroup_first(first, newer, ins, behind);
    lemma_regroup_first(first, newer, o, behind);
    lemma_compacted_drawn(ins, w, older);
    let one = seq![compacted(merged(ins, false), w, older)];
    assert(drawn_from(o, ins)) by {
        if output is Some {
            assert(o =~= one);
        }
    }
    lemma_replaced(first + newer, ins, behind, o);
    lemma_drawn_ok(
        first + level_entries(before, before.len()),
        first + level_entries(after, after.len()),
        vis,
    );
    // the values
    lemma_deeper_runs(before, i + 1);
    lemma_same_runs_entries(job.older@, runs_from(before, i + 1));
    assert forall|uk: Seq<u8>, snap: nat| snap >= w implies value_of(
        #[trigger] first_hit(first + level_entries(after, after.len()), uk, snap),
    ) == value_of(first_hit(first + level_entries(before, before.len()), uk, snap)) by {
        if !older(uk) {
            assert forall|l: int| 0 <= l < behind.len() implies lacks(#[trigger] behind[l], uk) by {
                assert(behind[l] == runs_entries(job.older@)[l]);
                assert(job.older@[l].intact());
                assert(!crate::version::run_admits(job.older@[l].tables@, uk));
                lemma_not_admitted(job.older@[l], uk);
            }
        }
        lemma_tier_preserves_values(first, ls, c, none, ls[i], older, w, uk, snap);
    }
}

// ---------------------------------------------------------------------------
// Splices
// ---------------------------------------------------------------------------

/// Tombstone rules that agree on every key keep the same.
proof fn lemma_keep_congruent(
    es: Seq<Kv>,
    w: nat,
    f: spec_fn(Seq<u8>) -> bool,
    g: spec_fn(Seq<u8>) -> bool,
    n: int,
)
    requires
        forall|k: Seq<u8>| #[trigger] f(k) == g(k),
    ensures
        keep_upto(es, w, f, n) == keep_upto(es, w, g, n),
    decreases n,
{
    if n > 0 {
        lemma_keep_congruent(es, w, f, g, n - 1);
        assert(f(ukey_of(es[n - 1].key)) == g(ukey_of(es[n - 1].key)));
        assert(kept(es, w, f, n - 1) == kept(es, w, g, n - 1));
    }
}

proof fn lemma_none_listed(rs: Seq<TreeRun>, ids: Seq<u64>)
    requires
        forall|k: int| 0 <= k < rs.len() ==> !ids.contains((#[trigger] rs[k]).id),
    ensures
        unlisted(rs, ids) == rs,
    decreases rs.len(),
{
    reveal(Seq::filter);
    if rs.len() > 0 {
        let t = rs.drop_last();
        assert forall|k: int| 0 <= k < t.len() implies !ids.contains((#[trigger] t[k]).id) by {
            assert(!ids.contains(rs[k].id));
        }
        lemma_none_listed(t, ids);
        assert(!ids.contains(rs[rs.len() - 1].id));
        assert(t.push(rs.last()) =~= rs);
    } else {
        assert(unlisted(rs, ids) =~= rs);
    }
}

proof fn lemma_unlisted_push(rs: Seq<TreeRun>, x: TreeRun, ids: Seq<u64>)
    ensures
        unlisted(rs.push(x), ids) == (if ids.contains(x.id) {
            unlisted(rs, ids)
        } else {
            unlisted(rs, ids).push(x)
        }),
{
    reveal(Seq::filter);
    assert(rs.push(x).drop_last() =~= rs);
}

/// Taking out the last two runs by their ids leaves the others.
proof fn lemma_unlisted_tail(newer: Seq<TreeRun>, u: TreeRun, b: TreeRun)
    requires
        forall|k: int| 0 <= k < newer.len() ==> (#[trigger] newer[k]).id != u.id && newer[k].id != b.id,
    ensures
        unlisted(unlisted(newer.push(u).push(b), seq![u.id, b.id]), seq![b.id]) == newer,
{
    let ids = seq![u.id, b.id];
    assert(ids[0] == u.id && ids[1] == b.id);
    assert(ids.contains(u.id) && ids.contains(b.id));
    lemma_unlisted_push(newer.push(u), b, ids);
    lemma_unlisted_push(newer, u, ids);
    assert forall|k: int| 0 <= k < newer.len() implies !ids.contains((#[trigger] newer[k]).id) by {}
    lemma_none_listed(newer, ids);
    lemma_none_listed(newer, seq![b.id]);
}

/// The bottom's last two runs and the parts of the base.
pub struct Bottom {
    pub upper: TreeRun,
    pub base: TreeRun,
    pub left: Seq<Arc<TableHandle>>,
    pub mid: Seq<Arc<TableHandle>>,
    pub right: Seq<Arc<TableHandle>>,
}

pub open spec fn bottom_of(levels: Seq<Vec<Run>>) -> Bottom {
    let rs = levels.last()@;
    let upper = run_over(rs[rs.len() - 2]);
    let base = run_over(rs[rs.len() - 1]);
    let lo = lowest(upper.tables);
    let hi = highest(upper.tables);
    Bottom {
        upper,
        base,
        left: left_of(base.tables, lo),
        mid: overlapping(base.tables, lo, hi),
        right: right_of(base.tables, lo, hi),
    }
}

/// How the parts of the base lie to each other and to the run above.
#[verifier::opaque]
spec fn bottom_laid_out(b: Bottom) -> bool {
    &&& b.base.tables == b.left + b.mid + b.right
    &&& fragments_intact(b.left) && fragments_intact(b.mid) && fragments_intact(b.right)
    &&& fragments_open(b.left) && fragments_open(b.mid) && fragments_open(b.right)
    &&& tables_below(b.left, b.mid)
    &&& tables_below(b.left, b.right)
    &&& tables_below(b.mid, b.right)
    &&& tables_below(b.left, b.upper.tables)
    &&& tables_below(b.upper.tables, b.right)
}

proof fn lemma_open_parts(
    a: Seq<Arc<TableHandle>>,
    b: Seq<Arc<TableHandle>>,
    c: Seq<Arc<TableHandle>>,
)
    ensures
        fragments_open(a + b + c) <==> fragments_open(a) && fragments_open(b) && fragments_open(c),
{
    let s = a + b + c;
    let n = a.len() as int;
    let m = (a.len() + b.len()) as int;
    if fragments_open(s) {
        assert forall|k: int| 0 <= k < a.len() implies (#[trigger] a[k]).table.inv() by {
            assert(s[k] == a[k]);
        }
        assert forall|k: int| 0 <= k < b.len() implies (#[trigger] b[k]).table.inv() by {
            assert(s[n + k] == b[k]);
        }
        assert forall|k: int| 0 <= k < c.len() implies (#[trigger] c[k]).table.inv() by {
            assert(s[m + k] == c[k]);
        }
    }
    if fragments_open(a) && fragments_open(b) && fragments_open(c) {
        assert forall|k: int| 0 <= k < s.len() implies (#[trigger] s[k]).table.inv() by {
            if k < n {
                assert(s[k] == a[k]);
            } else if k < m {
                assert(s[k] == b[k - n]);
            } else {
                assert(s[k] == c[k - m]);
            }
        }
    }
}

proof fn lemma_left_below(l: Seq<Arc<TableHandle>>, u: Seq<Arc<TableHandle>>)
    requires
        all_left(l, lowest(u)),
    ensures
        tables_below(l, u),
{
    let lo = lowest(u);
    assert forall|k: int, j: int| 0 <= k < l.len() && 0 <= j < u.len() implies lex_lt(
        max_of(#[trigger] l[k]),
        min_of(#[trigger] u[j]),
    ) by {
        lemma_bounds(u, j);
        lemma_lt_le(max_of(l[k]), lo, min_of(u[j]));
    }
}

proof fn lemma_right_above(u: Seq<Arc<TableHandle>>, r: Seq<Arc<TableHandle>>)
    requires
        all_right(r, highest(u)),
    ensures
        tables_below(u, r),
{
    let hi = highest(u);
    assert forall|k: int, j: int| 0 <= k < u.len() && 0 <= j < r.len() implies lex_lt(
        max_of(#[trigger] u[k]),
        min_of(#[trigger] r[j]),
    ) by {
        lemma_bounds(u, k);
        lemma_le_lt(max_of(u[k]), hi, min_of(r[j]));
    }
}

/// How a base lies around a run above it.
proof fn lemma_laid_out(b: Bottom)
    requires
        fragments_intact(b.base.tables),
        fragments_open(b.base.tables),
        b.left == left_of(b.base.tables, lowest(b.upper.tables)),
        b.mid == overlapping(
            b.base.tables,
            lowest(b.upper.tables),
            highest(b.upper.tables),
        ),
        b.right == right_of(b.base.tables, lowest(b.upper.tables), highest(b.upper.tables)),
    ensures
        bottom_laid_out(b),
{
    lemma_partition(b.base.tables, lowest(b.upper.tables), highest(b.upper.tables));
    lemma_left_below(b.left, b.upper.tables);
    lemma_right_above(b.upper.tables, b.right);
    lemma_laid_out_parts(b);
}

proof fn lemma_laid_out_parts(b: Bottom)
    requires
        b.base.tables == b.left + b.mid + b.right,
        fragments_intact(b.left + b.mid + b.right),
        fragments_open(b.left + b.mid + b.right),
        tables_below(b.left, b.upper.tables),
        tables_below(b.upper.tables, b.right),
    ensures
        bottom_laid_out(b),
{
    lemma_parts_sound(b.left, b.mid, b.right);
    lemma_open_parts(b.left, b.mid, b.right);
    reveal(bottom_laid_out);
}

/// The bottom's last two runs are sound.
proof fn lemma_bottom_runs(levels: Seq<Vec<Run>>, next: u64)
    requires
        levels_ok(levels, next),
        levels.last()@.len() >= 2,
    ensures
        fragments_intact(bottom_of(levels).upper.tables),
        fragments_open(bottom_of(levels).upper.tables),
        bottom_of(levels).upper.tables.len() > 0,
        fragments_intact(bottom_of(levels).base.tables),
        fragments_open(bottom_of(levels).base.tables),
{
    let l = levels.len() - 1;
    let m = levels[l]@.len() as int;
    assert(levels[l]@[m - 2].intact());
    assert(levels[l]@[m - 1].intact());
}

proof fn lemma_bottom(levels: Seq<Vec<Run>>, next: u64)
    requires
        levels_ok(levels, next),
        levels.last()@.len() >= 2,
    ensures
        bottom_laid_out(bottom_of(levels)),
        fragments_intact(bottom_of(levels).upper.tables),
        fragments_open(bottom_of(levels).upper.tables),
        bottom_of(levels).upper.tables.len() > 0,
{
    lemma_bottom_runs(levels, next);
    lemma_laid_out(bottom_of(levels));
}

/// The entries of a laid out base are those of its parts.
proof fn lemma_base_entries(b: Bottom)
    requires
        bottom_laid_out(b),
    ensures
        run_es(b.base) == flat(fragments(b.left)) + flat(fragments(b.mid)) + flat(
            fragments(b.right),
        ),
        fragments_open(b.mid),
        fragments_intact(b.mid),
        fragments_open(b.left),
        fragments_open(b.right),
        fragments_intact(b.left),
        fragments_intact(b.right),
{
    reveal(bottom_laid_out);
    lemma_tables_concat(b.left, b.mid, b.right);
}

/// A part of a source behind another is older than it too.
proof fn lemma_part_behind(
    srcs: Seq<Seq<Kv>>,
    p: int,
    le: Seq<Kv>,
    me: Seq<Kv>,
    re: Seq<Kv>,
)
    requires
        0 <= p < srcs.len() - 1,
        newest_first(srcs),
        good(srcs[p]),
        good(srcs[p + 1]),
        srcs[p + 1] == le + me + re,
    ensures
        newest_first(seq![srcs[p], me]),
        good(me),
{
    let ins = seq![srcs[p], me];
    let base = srcs[p + 1];
    let off = le.len() as int;
    assert forall|j: int| 0 <= j < me.len() implies #[trigger] me[j] == base[off + j] by {}
    assert forall|k: int, l: int, i: int, j: int|
        0 <= k < l < ins.len() && 0 <= i < ins[k].len() && 0 <= j < ins[l].len() && ukey_of(
            (#[trigger] ins[k][i]).key,
        ) == ukey_of((#[trigger] ins[l][j]).key) implies seqno_of(ins[k][i].key) > seqno_of(
        ins[l][j].key,
    ) by {
        assert(k == 0 && l == 1);
        assert(srcs[p][i] == ins[0][i]);
        assert(me[j] == base[off + j]);
        assert(srcs[p + 1][off + j] == ins[1][j]);
        assert(seqno_of(srcs[p][i].key) > seqno_of(srcs[p + 1][off + j].key));
    }
    assert forall|j: int| 0 <= j < me.len() implies kind_of_byte(
        kind_byte_of((#[trigger] me[j]).key),
    ) is Some && (is_put(me[j]) ==> p_repr(me[j].repr) is Some) by {
        assert(me[j] == base[off + j]);
        assert(kind_of_byte(kind_byte_of(base[off + j].key)) is Some);
    }
}

/// Where the bottom's last two runs stand among the sources.
proof fn lemma_bottom_sources(first: Seq<Seq<Kv>>, levels: Seq<Vec<Run>>, next: u64) -> (newer: Seq<
    TreeRun,
>)
    requires
        levels_ok(levels, next),
        levels.last()@.len() >= 2,
    ensures
        ({
            let b = bottom_of(levels);
            let ls = levels_over(levels);
            &&& ls.last() == newer.push(b.upper).push(b.base)
            &&& first + level_entries(levels, levels.len()) == (first + (tree_es(
                ls,
                (levels.len() - 1) as nat,
            ) + level_es(newer))) + seq![run_es(b.upper), run_es(b.base)]
            &&& forall|k: int|
                0 <= k < newer.len() ==> run_ok(#[trigger] newer[k], next) && newer[k].id
                    != b.upper.id && newer[k].id != b.base.id
            &&& level_ok(newer, next)
        }),
{
    let b = bottom_of(levels);
    let ls = levels_over(levels);
    let l = levels.len() - 1;
    let rs = levels[l]@;
    let m = rs.len() as int;
    let newer = runs_over(rs.take(m - 2));
    lemma_levels_tree(levels, next);
    assert(level_ok(ls[l], next));
    assert(ls[l] == runs_over(rs));
    assert(ls[l] =~= newer.push(b.upper).push(b.base));
    lemma_tree_is_levels(levels, levels.len());
    assert(level_es(ls[l]) =~= level_es(newer) + seq![run_es(b.upper), run_es(b.base)]);
    let t = tree_es(ls, l as nat);
    let two = seq![run_es(b.upper), run_es(b.base)];
    assert(first + (t + (level_es(newer) + two)) =~= (first + (t + level_es(newer))) + two);
    assert forall|k: int| 0 <= k < newer.len() implies run_ok(#[trigger] newer[k], next)
        && newer[k].id != b.upper.id && newer[k].id != b.base.id by {
        assert(ls[l][k] == newer[k]);
        assert(run_ok(ls[l][k], next));
        assert(ls[l][m - 2] == b.upper && ls[l][m - 1] == b.base);
    }
    assert forall|k: int, j: int| 0 <= k < j < newer.len() implies (#[trigger] newer[k]).id != (
    #[trigger] newer[j]).id by {
        assert(ls[l][k] == newer[k] && ls[l][j] == newer[j]);
    }
    newer
}

/// The inputs of a splice, as the merge wants them.
proof fn lemma_splice_ready(
    first: Seq<Seq<Kv>>,
    levels: Seq<Vec<Run>>,
    next: u64,
    vis: nat,
    job: Job,
    w: nat,
)
    requires
        levels_ok(levels, next),
        levels.last()@.len() >= 2,
        is_splice_job(job, levels, next),
        sources_ok(first + level_entries(levels, levels.len()), vis),
    ensures
        ({
            let b = bottom_of(levels);
            let ins = seq![run_es(b.upper), flat(fragments(b.mid))];
            &&& runs_entries(job.inputs@) == ins
            &&& runs_intact(job.inputs@)
            &&& runs_intact(job.older@)
            &&& newest_first(ins)
            &&& sorted(ins[0]) && sorted(ins[1])
            &&& mergeable(ins, false)
            &&& kinds_ok(merged(ins, false))
            &&& dropped_reprs_ok(merged(ins, false), w)
        }),
{
    let b = bottom_of(levels);
    let u_es = run_es(b.upper);
    let mid_es = flat(fragments(b.mid));
    let base_es = run_es(b.base);
    let ins = seq![u_es, mid_es];
    lemma_bottom(levels, next);
    lemma_base_entries(b);
    lemma_splice_inputs(levels, next, job);
    let srcs = first + level_entries(levels, levels.len());
    let newer = lemma_bottom_sources(first, levels, next);
    let p = srcs.len() - 2;
    assert(srcs[p] == u_es && srcs[p + 1] == base_es);
    assert(good(srcs[p]));
    assert(good(srcs[p + 1]));
    lemma_part_behind(
        srcs,
        p,
        flat(fragments(b.left)),
        mid_es,
        flat(fragments(b.right)),
    );
    crate::version::lemma_run_sorted(b.upper.tables);
    crate::version::lemma_run_sorted(b.mid);
    assert forall|l: int| 0 <= l < ins.len() implies sorted(#[trigger] ins[l]) by {}
    lemma_newest_first_mergeable(ins);
    assert forall|l: int| 0 <= l < ins.len() implies good(#[trigger] ins[l]) by {}
    lemma_good_merged(ins, w);
}

/// The runs that a splice merges.
proof fn lemma_splice_inputs(levels: Seq<Vec<Run>>, next: u64, job: Job)
    requires
        is_splice_job(job, levels, next),
        levels.last()@.len() >= 2,
        fragments_intact(bottom_of(levels).upper.tables),
        fragments_open(bottom_of(levels).upper.tables),
        fragments_intact(bottom_of(levels).mid),
        fragments_open(bottom_of(levels).mid),
    ensures
        runs_entries(job.inputs@) == seq![
            run_es(bottom_of(levels).upper),
            flat(fragments(bottom_of(levels).mid)),
        ],
        runs_intact(job.inputs@),
        runs_intact(job.older@),
        run_ids(job.inputs@) == seq![bottom_of(levels).upper.id, bottom_of(levels).base.id],
{
    let b = bottom_of(levels);
    assert(job.inputs@[0].tables@ == b.upper.tables);
    assert(job.inputs@[1].tables@ == b.mid);
    assert(runs_entries(job.inputs@) =~= seq![run_es(b.upper), flat(fragments(b.mid))]);
    assert(run_ids(job.inputs@) =~= seq![b.upper.id, b.base.id]);
    assert forall|k: int| 0 <= k < job.inputs@.len() implies fragments_open(
        (#[trigger] job.inputs@[k]).tables@,
    ) && job.inputs@[k].intact() by {
        if k == 0 {
            assert(job.inputs@[0].tables@ == b.upper.tables);
        } else {
            assert(job.inputs@[1].tables@ == b.mid);
        }
    }
}

/// What a splice writes lies between the untouched tables.
proof fn lemma_output_between(
    b: Bottom,
    ts: Seq<Arc<TableHandle>>,
    w: nat,
    older: spec_fn(Seq<u8>) -> bool,
)
    requires
        bottom_laid_out(b),
        fragments_intact(b.upper.tables),
        fragments_sound(ts),
        mergeable(seq![run_es(b.upper), flat(fragments(b.mid))], false),
        flat(fragments(ts)) == compacted(
            merged(seq![run_es(b.upper), flat(fragments(b.mid))], false),
            w,
            older,
        ),
    ensures
        tables_below(b.left, ts),
        tables_below(ts, b.right),
{
    let ins = seq![run_es(b.upper), flat(fragments(b.mid))];
    lemma_compacted_drawn(ins, w, older);
    assert forall|k: int, j: int| 0 <= k < b.left.len() && 0 <= j < ts.len() implies lex_lt(
        max_of(#[trigger] b.left[k]),
        min_of(#[trigger] ts[j]),
    ) by {
        let (t, q) = lemma_edge_source(b, ts, ins, j, 0);
        assert(lex_lt(max_of(b.left[k]), min_of(t)));
        lemma_lt_le(max_of(b.left[k]), min_of(t), q);
    }
    assert forall|k: int, j: int| 0 <= k < ts.len() && 0 <= j < b.right.len() implies lex_lt(
        max_of(#[trigger] ts[k]),
        min_of(#[trigger] b.right[j]),
    ) by {
        assert(ts[k].table.sound());
        ts[k].table.lemma_sound();
        let n = ts[k].table.entries().len() as int;
        let (t, q) = lemma_edge_source(b, ts, ins, k, n - 1);
        assert(lex_lt(max_of(t), min_of(b.right[j])));
        lemma_le_lt(q, max_of(t), min_of(b.right[j]));
    }
}

/// The table of the inputs that an output entry came from, and its key.
proof fn lemma_edge_source(
    b: Bottom,
    ts: Seq<Arc<TableHandle>>,
    ins: Seq<Seq<Kv>>,
    j: int,
    i: int,
) -> (r: (Arc<TableHandle>, Seq<u8>))
    requires
        bottom_laid_out(b),
        fragments_intact(b.upper.tables),
        fragments_sound(ts),
        ins == seq![run_es(b.upper), flat(fragments(b.mid))],
        drawn_from(seq![flat(fragments(ts))], ins),
        0 <= j < ts.len(),
        0 <= i < ts[j].table.entries().len() || i == 0,
    ensures
        b.upper.tables.contains(r.0) || b.mid.contains(r.0),
        i == 0 ==> r.1 == min_of(ts[j]),
        i == ts[j].table.entries().len() - 1 ==> r.1 == max_of(ts[j]),
        lex_le(min_of(r.0), r.1),
        lex_le(r.1, max_of(r.0)),
        forall|k: int| 0 <= k < b.left.len() ==> lex_lt(max_of(#[trigger] b.left[k]), min_of(r.0)),
        forall|k: int|
            0 <= k < b.right.len() ==> lex_lt(max_of(r.0), min_of(#[trigger] b.right[k])),
{
    let out = flat(fragments(ts));
    let one = seq![out];
    let parts = fragments(ts);
    reveal(bottom_laid_out);
    assert(ts[j].table.sound());
    ts[j].table.lemma_sound();
    lemma_flat_at(parts, j);
    let x = part_start(parts, j) + i;
    assert(parts[j] == entries_of(ts[j]));
    assert(out[x] == parts[j][i]);
    assert(one[0][x] == out[x]);
    assert(in_some(ins, one[0][x]));
    let (a, c) = choose|a: int, c: int|
        0 <= a < ins.len() && 0 <= c < ins[a].len() && #[trigger] ins[a][c] == out[x];
    let q = ukey_of(out[x].key);
    if a == 0 {
        let (k, e) = lemma_in_tables(b.upper.tables, c);
        let t = b.upper.tables[k];
        assert(b.upper.tables[k].table.intact());
        lemma_table_range(t, e);
        assert(b.upper.tables.contains(t));
        assert forall|k2: int| 0 <= k2 < b.left.len() implies lex_lt(
            max_of(#[trigger] b.left[k2]),
            min_of(t),
        ) by {
            assert(lex_lt(max_of(b.left[k2]), min_of(b.upper.tables[k])));
        }
        assert forall|k2: int| 0 <= k2 < b.right.len() implies lex_lt(
            max_of(t),
            min_of(#[trigger] b.right[k2]),
        ) by {
            assert(lex_lt(max_of(b.upper.tables[k]), min_of(b.right[k2])));
        }
        (t, q)
    } else {
        let (k, e) = lemma_in_tables(b.mid, c);
        let t = b.mid[k];
        assert(b.mid[k].table.intact());
        lemma_table_range(t, e);
        assert(b.mid.contains(t));
        assert forall|k2: int| 0 <= k2 < b.left.len() implies lex_lt(
            max_of(#[trigger] b.left[k2]),
            min_of(t),
        ) by {
            assert(lex_lt(max_of(b.left[k2]), min_of(b.mid[k])));
        }
        assert forall|k2: int| 0 <= k2 < b.right.len() implies lex_lt(
            max_of(t),
            min_of(#[trigger] b.right[k2]),
        ) by {
            assert(lex_lt(max_of(b.mid[k]), min_of(b.right[k2])));
        }
        (t, q)
    }
}

/// What a splice leaves is drawn from the two runs it replaced.
proof fn lemma_splice_drawn(b: Bottom, out: Seq<Kv>)
    requires
        bottom_laid_out(b),
        drawn_from(seq![out], seq![run_es(b.upper), flat(fragments(b.mid))]),
    ensures
        drawn_from(
            seq![flat(fragments(b.left)) + out + flat(fragments(b.right))],
            seq![run_es(b.upper), run_es(b.base)],
        ),
{
    let ins = seq![run_es(b.upper), flat(fragments(b.mid))];
    let two = seq![run_es(b.upper), run_es(b.base)];
    let le = flat(fragments(b.left));
    let me = flat(fragments(b.mid));
    let re = flat(fragments(b.right));
    let nb = le + out + re;
    let one = seq![nb];
    lemma_base_entries(b);
    let base = run_es(b.base);
    assert(base == le + me + re);
    assert forall|l: int, i: int| 0 <= l < one.len() && 0 <= i < one[l].len() implies in_some(
        two,
        #[trigger] one[l][i],
    ) by {
        if i < le.len() {
            assert(two[1][i] == nb[i]);
        } else if i < le.len() + out.len() {
            let x = i - le.len();
            assert(seq![out][0][x] == nb[i]);
            assert(in_some(ins, seq![out][0][x]));
            let (a, c) = choose|a: int, c: int|
                0 <= a < ins.len() && 0 <= c < ins[a].len() && #[trigger] ins[a][c] == nb[i];
            if a == 0 {
                assert(two[0][c] == nb[i]);
            } else {
                assert(two[1][le.len() + c] == nb[i]);
            }
        } else {
            let x = i - le.len() - out.len();
            assert(two[1][le.len() + me.len() + x] == nb[i]);
        }
    }
}

/// After a splice: the tree is as sound as before, and holds nothing new.
#[verifier::rlimit(60)]
proof fn lemma_splice_after(
    first: Seq<Seq<Kv>>,
    before: Seq<Vec<Run>>,
    after: Seq<Vec<Run>>,
    next: u64,
    later: u64,
    vis: nat,
    job: Job,
    output: Option<Run>,
    w: nat,
)
    requires
        levels_ok(before, next),
        before.last()@.len() >= 2,
        is_splice_job(job, before, next),
        sources_ok(first + level_entries(before, before.len()), vis),
        levels_over(after) == installed(levels_over(before), change_of(job, output)),
        next < later,
        match output {
            Some(r) => fragments_open(r.tables@) && fragments_sound(r.tables@) && ids_below(
                r.tables@,
                later,
            ) && r.entries() == compacted(
                merged(runs_entries(job.inputs@), false),
                w,
                some_admits(job.older@),
            ),
            None => compacted(
                merged(runs_entries(job.inputs@), false),
                w,
                some_admits(job.older@),
            ).len() == 0,
        },
    ensures
        levels_ok(after, later),
        sources_ok(first + level_entries(after, after.len()), vis),
        forall|uk: Seq<u8>, snap: nat|
            snap >= w ==> value_of(
                #[trigger] first_hit(first + level_entries(after, after.len()), uk, snap),
            ) == value_of(first_hit(first + level_entries(before, before.len()), uk, snap)),
        level_entries(after, after.len()).len() < level_entries(before, before.len()).len(),
        after.len() == before.len(),
{
    let b = bottom_of(before);
    let ls = levels_over(before);
    let la = levels_over(after);
    let n = before.len() as int;
    let c = change_of(job, output);
    let s = c.splice->Some_0;
    let ins = seq![run_es(b.upper), flat(fragments(b.mid))];
    let older = some_admits(job.older@);
    let none = |k: Seq<u8>| false;
    let out = compacted(merged(ins, false), w, older);
    lemma_splice_ready(first, before, next, vis, job, w);
    lemma_bottom(before, next);
    let newer = lemma_bottom_sources(first, before, next);
    assert forall|k: Seq<u8>| #[trigger] older(k) == none(k) by {}
    lemma_keep_congruent(merged(ins, false), w, older, none, merged(ins, false).len() as int);
    assert(out == compacted(merged(ins, false), w, none));
    // the levels
    lemma_base_entries(b);
    lemma_splice_inputs(before, next, job);
    assert(s.base_id == b.base.id && s.left == b.left && s.right == b.right && s.new_id == next);
    lemma_unlisted_tail(newer, b.upper, b.base);
    assert(ls[c.level] == ls.last());
    lemma_splice_sources(ls, c, s, newer, b.upper, b.base);
    let ots = match output {
        Some(r) => r.tables@,
        None => Seq::empty(),
    };
    assert(flat(fragments(ots)) == out) by {
        if output is None {
            assert(fragments(ots) =~= Seq::<Seq<Kv>>::empty());
            assert(out =~= flat(fragments(ots)));
        }
    }
    let tables = b.left + ots + b.right;
    let le = flat(fragments(b.left));
    let me = flat(fragments(b.mid));
    let re = flat(fragments(b.right));
    lemma_tables_concat(b.left, ots, b.right);
    lemma_output_between(b, ots, w, older);
    crate::version::lemma_sound_is_intact(ots);
    lemma_new_base(b, ots);
    lemma_levels_tree(before, next);
    lemma_base_ids(before, ots, next, later);
    lemma_splice_tree(ls, c, s, newer, tables, next, later);
    assert(la.len() == after.len());
    lemma_tree_levels(after, later);
    lemma_tree_is_levels(after, after.len());
    let t = tree_es(ls, (n - 1) as nat) + level_es(newer);
    let front = first + t;
    let nb = le + out + re;
    let outs = if tables.len() == 0 {
        Seq::empty()
    } else {
        seq![nb]
    };
    assert(first + (t + outs) =~= front + outs);
    assert(first + level_entries(after, after.len()) == front + outs);
    assert(first + level_entries(before, before.len()) == front.push(run_es(b.upper)).push(
        run_es(b.base),
    ));
    if tables.len() == 0 {
        assert(fragments(tables) =~= Seq::<Seq<Kv>>::empty());
        assert(nb.len() == 0);
    }
    lemma_compacted_drawn(ins, w, older);
    lemma_splice_drawn(b, out);
    lemma_splice_reads(front, b, out, outs, vis, w);
    assert forall|uk: Seq<u8>, snap: nat| snap >= w implies value_of(
        #[trigger] first_hit(first + level_entries(after, after.len()), uk, snap),
    ) == value_of(first_hit(first + level_entries(before, before.len()), uk, snap)) by {
        lemma_splice_values(front, b, outs, w, uk, snap);
    }
}

/// The ids of the new base's tables are below the counter.
proof fn lemma_base_ids(
    before: Seq<Vec<Run>>,
    ots: Seq<Arc<TableHandle>>,
    next: u64,
    later: u64,
)
    requires
        levels_ok(before, next),
        before.last()@.len() >= 2,
        ids_below(ots, later),
        next <= later,
    ensures
        ids_below(bottom_of(before).left + ots + bottom_of(before).right, later),
{
    let b = bottom_of(before);
    let l = before.len() - 1;
    let m = before[l]@.len() - 1;
    assert(before[l]@[m].tables@ == b.base.tables);
    assert(ids_below(b.base.tables, next));
    lemma_bottom(before, next);
    lemma_base_parts(b);
    lemma_ids_of_parts(b.left, b.mid, b.right, ots, next, later);
}

proof fn lemma_base_parts(b: Bottom)
    requires
        bottom_laid_out(b),
    ensures
        b.base.tables == b.left + b.mid + b.right,
{
    reveal(bottom_laid_out);
}

proof fn lemma_ids_of_parts(
    left: Seq<Arc<TableHandle>>,
    mid: Seq<Arc<TableHandle>>,
    right: Seq<Arc<TableHandle>>,
    ots: Seq<Arc<TableHandle>>,
    next: u64,
    later: u64,
)
    requires
        ids_below(left + mid + right, next),
        ids_below(ots, later),
        next <= later,
    ensures
        ids_below(left + ots + right, later),
{
    let ts = left + mid + right;
    let n = left.len() as int;
    let k = (left.len() + mid.len()) as int;
    let s = left + ots + right;
    assert forall|t: int| 0 <= t < s.len() implies (#[trigger] s[t]).id < later by {
        if t < n {
            assert(s[t] == ts[t]);
        } else if t < n + ots.len() {
            assert(s[t] == ots[t - n]);
        } else {
            assert(s[t] == ts[k + (t - n - ots.len())]);
        }
    }
}

/// The new base is sound.
proof fn lemma_new_base(b: Bottom, ots: Seq<Arc<TableHandle>>)
    requires
        bottom_laid_out(b),
        fragments_intact(ots),
        fragments_open(ots),
        tables_below(b.left, ots),
        tables_below(ots, b.right),
    ensures
        fragments_intact(b.left + ots + b.right),
        fragments_open(b.left + ots + b.right),
{
    reveal(bottom_laid_out);
    lemma_joined_sound(b.left, ots, b.right);
    lemma_open_parts(b.left, ots, b.right);
}

/// The sources stay in order where the base is replaced.
proof fn lemma_splice_reads(
    front: Seq<Seq<Kv>>,
    b: Bottom,
    out: Seq<Kv>,
    outs: Seq<Seq<Kv>>,
    vis: nat,
    w: nat,
)
    requires
        sources_ok(front + seq![run_es(b.upper), run_es(b.base)], vis),
        drawn_from(
            seq![flat(fragments(b.left)) + out + flat(fragments(b.right))],
            seq![run_es(b.upper), run_es(b.base)],
        ),
        outs.len() == 0 || outs == seq![flat(fragments(b.left)) + out + flat(fragments(b.right))],
    ensures
        sources_ok(front + outs, vis),
{
    let two = seq![run_es(b.upper), run_es(b.base)];
    let nothing = Seq::<Seq<Kv>>::empty();
    assert(front + two + nothing =~= front + two);
    assert(front + outs + nothing =~= front + outs);
    assert(drawn_from(outs, two));
    lemma_replaced(front, two, nothing, outs);
    lemma_drawn_ok(front + two, front + outs, vis);
}

/// Reads through the new base find what reads through the old runs found.
proof fn lemma_splice_values(
    front: Seq<Seq<Kv>>,
    b: Bottom,
    outs: Seq<Seq<Kv>>,
    w: nat,
    uk: Seq<u8>,
    snap: nat,
)
    requires
        bottom_laid_out(b),
        fragments_intact(b.upper.tables),
        newest_first(seq![run_es(b.upper), flat(fragments(b.mid))]),
        sorted(run_es(b.upper)),
        sorted(flat(fragments(b.mid))),
        mergeable(seq![run_es(b.upper), flat(fragments(b.mid))], false),
        w <= snap,
        ({
            let out = compacted(
                merged(seq![run_es(b.upper), flat(fragments(b.mid))], false),
                w,
                |k: Seq<u8>| false,
            );
            let nb = flat(fragments(b.left)) + out + flat(fragments(b.right));
            outs == seq![nb] || (outs.len() == 0 && nb.len() == 0)
        }),
    ensures
        value_of(first_hit(front + outs, uk, snap)) == value_of(
            first_hit(front + seq![run_es(b.upper), run_es(b.base)], uk, snap),
        ),
{
    let le = flat(fragments(b.left));
    let me = flat(fragments(b.mid));
    let re = flat(fragments(b.right));
    lemma_base_entries(b);
    lemma_apart(b);
    lemma_splice_preserves_values(front, run_es(b.upper), le, me, re, w, uk, snap);
    if outs.len() == 0 {
        let out = compacted(merged(seq![run_es(b.upper), me], false), w, |k: Seq<u8>| false);
        let nb = le + out + re;
        lemma_first_hit_split(front, seq![nb], uk, snap);
        lemma_one_source(nb, uk, snap);
        assert(lacks(nb, uk));
        lemma_lacks_finds_nothing(nb, uk, snap);
        assert(front + outs =~= front);
    }
}

proof fn lemma_apart(b: Bottom)
    requires
        bottom_laid_out(b),
        fragments_intact(b.upper.tables),
    ensures
        disjoint(run_es(b.upper), flat(fragments(b.left))),
        disjoint(run_es(b.upper), flat(fragments(b.right))),
        disjoint(flat(fragments(b.mid)), flat(fragments(b.right))),
{
    reveal(bottom_laid_out);
    lemma_below_disjoint(b.left, b.upper.tables);
    lemma_below_disjoint(b.upper.tables, b.right);
    lemma_below_disjoint(b.mid, b.right);
}

/// The tree that a splice leaves.
proof fn lemma_splice_tree(
    ls: Seq<Seq<TreeRun>>,
    c: Change<Arc<TableHandle>>,
    s: SpliceOver<Arc<TableHandle>>,
    newer: Seq<TreeRun>,
    tables: Seq<Arc<TableHandle>>,
    next: u64,
    later: u64,
)
    requires
        tree_ok(ls, next),
        next < later,
        ls.len() > 0,
        c.level == ls.len() - 1,
        c.splice == Some(s),
        s.new_id == next,
        unlisted(unlisted(ls[c.level], c.input_ids), seq![s.base_id]) == newer,
        level_ok(newer, next),
        tables == s.left + (match c.output {
            Some(run) => run.tables,
            None => Seq::empty(),
        }) + s.right,
        fragments_intact(tables),
        fragments_open(tables),
        ids_below(tables, later),
    ensures
        tree_ok(installed(ls, c), later),
        installed(ls, c).len() == ls.len(),
{
    let la = installed(ls, c);
    assert forall|l: int| 0 <= l < la.len() implies level_ok(#[trigger] la[l], later) by {
        if l == c.level {
            lemma_level_later(newer, next, later);
            if tables.len() > 0 {
                let r = RunOver { id: s.new_id, tables };
                let y = newer.push(r);
                assert(la[l] == y);
                assert forall|k: int| 0 <= k < y.len() implies run_ok(#[trigger] y[k], later) by {
                    if k < newer.len() {
                        assert(y[k] == newer[k]);
                    }
                }
                assert forall|k: int, m: int| 0 <= k < m < y.len() implies (#[trigger] y[k]).id != (
                #[trigger] y[m]).id by {
                    assert(y[k] == newer[k]);
                    assert(run_ok(newer[k], next));
                    if m < newer.len() {
                        assert(y[m] == newer[m]);
                    }
                }
            }
        } else {
            assert(la[l] == ls[l]);
            assert(level_ok(ls[l], next));
            lemma_level_later(ls[l], next, later);
        }
    }
}

// ---------------------------------------------------------------------------
// Lookups
// ---------------------------------------------------------------------------

/// No version is newer than `vis`.
spec fn all_seen(es: Seq<Kv>, vis: nat) -> bool {
    forall|i: int| 0 <= i < es.len() ==> seqno_of((#[trigger] es[i]).key) <= vis
}

/// The versions that a merge reads are all visible.
proof fn lemma_inputs_visible(
    srcs: Seq<Seq<Kv>>,
    ins: Seq<Seq<Kv>>,
    vis: nat,
)
    requires
        sources_ok(srcs, vis),
        mergeable(ins, false),
        drawn_from(ins, srcs),
    ensures
        all_seen(merged(ins, false), vis),
{
    let es = merged(ins, false);
    lemma_merged(ins, false);
    assert forall|i: int| 0 <= i < es.len() implies seqno_of((#[trigger] es[i]).key) <= vis by {
        assert(es.contains(es[i]));
        assert(in_some(ins, es[i]));
        let (a, b) = choose|a: int, b: int|
            0 <= a < ins.len() && 0 <= b < ins[a].len() && #[trigger] ins[a][b] == es[i];
        assert(in_some(srcs, ins[a][b]));
        let (x, y) = choose|x: int, y: int|
            0 <= x < srcs.len() && 0 <= y < srcs[x].len() && #[trigger] srcs[x][y] == es[i];
        assert(seqno_of(srcs[x][y].key) <= vis);
    }
}

/// A reader below the watermark sees every version: for it, what was kept is
/// what its own seqno would keep.
proof fn lemma_reader_watermark(
    es: Seq<Kv>,
    w: nat,
    older: spec_fn(Seq<u8>) -> bool,
    vis: nat,
    snap: nat,
) -> (v: nat)
    requires
        all_seen(es, vis),
        w <= snap || vis <= snap,
    ensures
        v <= snap,
        compacted(es, w, older) == compacted(es, v, older),
{
    let v = if snap < w {
        snap
    } else {
        w
    };
    assert forall|i: int| 0 <= i < es.len() implies visible(#[trigger] es[i], w) == visible(
        es[i],
        v,
    ) by {
        assert(seqno_of(es[i].key) <= vis);
    }
    lemma_same_watermark(es, w, v, older, es.len() as int);
    v
}

/// A tiered merge's inputs are sources of the store.
proof fn lemma_tier_drawn(first: Seq<Seq<Kv>>, before: Seq<Vec<Run>>, i: int, job: Job)
    requires
        0 <= i < before.len(),
        is_tier_job(job, before, i),
    ensures
        drawn_from(
            runs_entries(job.inputs@),
            first + level_entries(before, before.len()),
        ),
{
    let ls = levels_over(before);
    let rs = before[i]@;
    let n = before.len() as int;
    let ins = runs_entries(job.inputs@);
    let srcs = first + level_entries(before, before.len());
    lemma_same_runs_entries(job.inputs@, rs);
    lemma_tree_is_levels(before, before.len());
    lemma_levels_split(ls, i, n);
    lemma_split_one(ls, i, n);
    lemma_level_es(rs);
    assert(ls[i] == runs_over(rs));
    let front = first + tree_es(ls, i as nat);
    let behind = deeper(ls, i + 1, n);
    assert(srcs =~= front + ins + behind);
    assert forall|l: int, k: int| 0 <= l < ins.len() && 0 <= k < ins[l].len() implies in_some(
        srcs,
        #[trigger] ins[l][k],
    ) by {
        let x = front.len() + l;
        assert(srcs[x] == ins[l]);
        assert(srcs[x][k] == ins[l][k]);
    }
}

proof fn lemma_tier_visible(
    first: Seq<Seq<Kv>>,
    before: Seq<Vec<Run>>,
    vis: nat,
    i: int,
    job: Job,
)
    requires
        0 <= i < before.len(),
        is_tier_job(job, before, i),
        sources_ok(first + level_entries(before, before.len()), vis),
        mergeable(runs_entries(job.inputs@), false),
    ensures
        all_seen(merged(runs_entries(job.inputs@), false), vis),
{
    lemma_tier_drawn(first, before, i, job);
    lemma_inputs_visible(
        first + level_entries(before, before.len()),
        runs_entries(job.inputs@),
        vis,
    );
}

/// A tiered merge takes every run of its level.
proof fn lemma_level_listed(before: Seq<Vec<Run>>, i: int, job: Job, output: Option<Run>)
    requires
        0 <= i < before.len(),
        is_tier_job(job, before, i),
    ensures
        unlisted(levels_over(before)[i], change_of(job, output).input_ids) == Seq::<TreeRun>::empty(),
{
    let ls = levels_over(before);
    let c = change_of(job, output);
    let rs = before[i]@;
    assert(ls[i] == runs_over(rs));
    lemma_same_runs_entries(job.inputs@, rs);
    assert forall|k: int| 0 <= k < ls[i].len() implies c.input_ids.contains(
        (#[trigger] ls[i][k]).id,
    ) by {
        assert(run_ids(rs)[k] == ls[i][k].id);
    }
    lemma_all_listed(ls[i], c.input_ids);
}

#[verifier::spinoff_prover]
#[verifier::rlimit(40)]
proof fn lemma_tier_look(
    first: Seq<Seq<Kv>>,
    before: Seq<Vec<Run>>,
    after: Seq<Vec<Run>>,
    next: u64,
    vis: nat,
    i: int,
    job: Job,
    output: Option<Run>,
    w: nat,
    uk: Seq<u8>,
    seq: SeqNo,
)
    requires
        levels_ok(before, next),
        0 <= i < before.len(),
        is_tier_job(job, before, i),
        all_sound(job.inputs@),
        sources_ok(first + level_entries(before, before.len()), vis),
        levels_over(after) == installed(levels_over(before), change_of(job, output)),
        output_holds(
            output,
            compacted(merged(runs_entries(job.inputs@), false), w, some_admits(job.older@)),
        ),
        w <= seq || vis <= seq,
        seq <= MAX_SEQNO,
    ensures
        look_value(levels_lookup(after, after.len() as int, uk, seq)) == look_value(
            levels_lookup(before, before.len() as int, uk, seq),
        ),
{
    let es = merged(runs_entries(job.inputs@), false);
    lemma_tier_ready(first, before, next, vis, i, job, w);
    lemma_tier_visible(first, before, vis, i, job);
    let v = lemma_reader_watermark(es, w, some_admits(job.older@), vis, seq as nat);
    lemma_level_listed(before, i, job, output);
    lemma_tier_lookup(before, after, i, job, output, v, uk, seq);
}

proof fn lemma_splice_visible(
    first: Seq<Seq<Kv>>,
    before: Seq<Vec<Run>>,
    next: u64,
    vis: nat,
)
    requires
        levels_ok(before, next),
        before.last()@.len() >= 2,
        sources_ok(first + level_entries(before, before.len()), vis),
        mergeable(
            seq![run_es(bottom_of(before).upper), flat(fragments(bottom_of(before).mid))],
            false,
        ),
    ensures
        all_seen(
            merged(
                seq![run_es(bottom_of(before).upper), flat(fragments(bottom_of(before).mid))],
                false,
            ),
            vis,
        ),
{
    let b = bottom_of(before);
    let me = flat(fragments(b.mid));
    let le = flat(fragments(b.left));
    let ins = seq![run_es(b.upper), me];
    let srcs = first + level_entries(before, before.len());
    lemma_bottom(before, next);
    let newer = lemma_bottom_sources(first, before, next);
    lemma_base_entries(b);
    let p = srcs.len() - 2;
    assert(srcs[p] == run_es(b.upper) && srcs[p + 1] == run_es(b.base));
    assert(drawn_from(ins, srcs)) by {
        assert forall|l: int, k: int| 0 <= l < ins.len() && 0 <= k < ins[l].len() implies in_some(
            srcs,
            #[trigger] ins[l][k],
        ) by {
            if l == 0 {
                assert(srcs[p][k] == ins[l][k]);
            } else {
                assert(run_es(b.base)[le.len() + k] == me[k]);
                assert(srcs[p + 1][le.len() + k] == ins[l][k]);
            }
        }
    }
    lemma_inputs_visible(srcs, ins, vis);
}

/// How the ranges of the bottom's tables and of what is written lie.
proof fn lemma_splice_parts(b: Bottom, ots: Seq<Arc<TableHandle>>)
    requires
        bottom_laid_out(b),
        fragments_sound(b.upper.tables),
        fragments_sound(b.mid),
        fragments_sound(ots),
        fragments_open(ots),
        tables_below(b.left, ots),
        tables_below(ots, b.right),
    ensures
        splice_parts(b.upper.tables, b.base.tables, b.left, b.mid, b.right, ots),
{
    crate::version::lemma_sound_is_intact(ots);
    lemma_new_base(b, ots);
    reveal(bottom_laid_out);
    reveal(splice_parts);
    lemma_joined_sound(b.left, b.mid, b.right);
}

/// What a splice writes, at the bottom and for a reader at `v` or above.
proof fn lemma_splice_written(
    first: Seq<Seq<Kv>>,
    before: Seq<Vec<Run>>,
    next: u64,
    vis: nat,
    job: Job,
    out: Seq<Kv>,
    w: nat,
    snap: nat,
) -> (v: nat)
    requires
        levels_ok(before, next),
        before.last()@.len() >= 2,
        is_splice_job(job, before, next),
        sources_ok(first + level_entries(before, before.len()), vis),
        out == compacted(merged(runs_entries(job.inputs@), false), w, some_admits(job.older@)),
        w <= snap || vis <= snap,
    ensures
        v <= snap,
        splice_output(
            run_es(bottom_of(before).upper),
            flat(fragments(bottom_of(before).mid)),
            out,
            v,
        ),
{
    let b = bottom_of(before);
    let ins = seq![run_es(b.upper), flat(fragments(b.mid))];
    let older = some_admits(job.older@);
    let none = |k: Seq<u8>| false;
    lemma_splice_ready(first, before, next, vis, job, w);
    lemma_splice_visible(first, before, next, vis);
    let es = merged(ins, false);
    let v = lemma_reader_watermark(es, w, older, vis, snap);
    assert forall|k: Seq<u8>| #[trigger] older(k) == none(k) by {}
    lemma_keep_congruent(es, v, older, none, es.len() as int);
    reveal(splice_output);
    v
}

/// The tables that a splice reads and writes.
proof fn lemma_splice_tables(
    first: Seq<Seq<Kv>>,
    before: Seq<Vec<Run>>,
    next: u64,
    vis: nat,
    job: Job,
    ots: Seq<Arc<TableHandle>>,
    w: nat,
)
    requires
        levels_ok(before, next),
        before.last()@.len() >= 2,
        is_splice_job(job, before, next),
        all_sound(job.inputs@),
        sources_ok(first + level_entries(before, before.len()), vis),
        fragments_sound(ots),
        fragments_open(ots),
        flat(fragments(ots)) == compacted(
            merged(runs_entries(job.inputs@), false),
            w,
            some_admits(job.older@),
        ),
    ensures
        ({
            let b = bottom_of(before);
            splice_parts(b.upper.tables, b.base.tables, b.left, b.mid, b.right, ots)
        }),
{
    let b = bottom_of(before);
    lemma_splice_ready(first, before, next, vis, job, w);
    lemma_bottom(before, next);
    lemma_output_between(b, ots, w, some_admits(job.older@));
    assert(job.inputs@[0].sound() && job.inputs@[1].sound());
    assert(job.inputs@[0].tables@ == b.upper.tables);
    assert(job.inputs@[1].tables@ == b.mid);
    lemma_splice_parts(b, ots);
}

/// The runs of the bottom that a splice leaves alone.
proof fn lemma_splice_rest(
    first: Seq<Seq<Kv>>,
    before: Seq<Vec<Run>>,
    next: u64,
    job: Job,
    output: Option<Run>,
) -> (newer: Seq<TreeRun>)
    requires
        levels_ok(before, next),
        before.last()@.len() >= 2,
        is_splice_job(job, before, next),
    ensures
        ({
            let b = bottom_of(before);
            let ls = levels_over(before);
            let c = change_of(job, output);
            &&& c.level == ls.len() - 1
            &&& c.splice matches Some(s) && s.left == b.left && s.right == b.right
                && ls[c.level] == newer.push(b.upper).push(b.base) && unlisted(
                unlisted(ls[c.level], c.input_ids),
                seq![s.base_id],
            ) == newer
        }),
{
    let b = bottom_of(before);
    let ls = levels_over(before);
    let c = change_of(job, output);
    let newer = lemma_bottom_sources(first, before, next);
    assert(ls[c.level] == ls.last());
    assert(c.input_ids =~= seq![b.upper.id, b.base.id]);
    lemma_unlisted_tail(newer, b.upper, b.base);
    newer
}

#[verifier::spinoff_prover]
#[verifier::rlimit(60)]
proof fn lemma_splice_look(
    first: Seq<Seq<Kv>>,
    before: Seq<Vec<Run>>,
    after: Seq<Vec<Run>>,
    next: u64,
    vis: nat,
    job: Job,
    output: Option<Run>,
    w: nat,
    uk: Seq<u8>,
    seq: SeqNo,
)
    requires
        levels_ok(before, next),
        before.last()@.len() >= 2,
        is_splice_job(job, before, next),
        all_sound(job.inputs@),
        sources_ok(first + level_entries(before, before.len()), vis),
        levels_over(after) == installed(levels_over(before), change_of(job, output)),
        output_holds(
            output,
            compacted(merged(runs_entries(job.inputs@), false), w, some_admits(job.older@)),
        ),
        output matches Some(r) ==> fragments_open(r.tables@),
        w <= seq || vis <= seq,
        seq <= MAX_SEQNO,
    ensures
        look_value(levels_lookup(after, after.len() as int, uk, seq)) == look_value(
            levels_lookup(before, before.len() as int, uk, seq),
        ),
{
    let b = bottom_of(before);
    let ls = levels_over(before);
    let c = change_of(job, output);
    let s = c.splice->Some_0;
    let out = compacted(merged(runs_entries(job.inputs@), false), w, some_admits(job.older@));
    let ots = match output {
        Some(r) => r.tables@,
        None => Seq::empty(),
    };
    assert(flat(fragments(ots)) == out) by {
        if output is None {
            assert(fragments(ots) =~= Seq::<Seq<Kv>>::empty());
            assert(out =~= flat(fragments(ots)));
        }
    }
    let v = lemma_splice_written(first, before, next, vis, job, out, w, seq as nat);
    lemma_splice_tables(first, before, next, vis, job, ots, w);
    let newer = lemma_splice_rest(first, before, next, job, output);
    lemma_splice_lookup(ls, c, s, newer, b.upper, b.base, b.mid, ots, v, uk, seq);
    lemma_levels_look(before, uk, seq);
    lemma_levels_look(after, uk, seq);
}

// ---------------------------------------------------------------------------
// The store
// ---------------------------------------------------------------------------

impl Db {
    /// Someone may read at this seqno, now or later: it is visible, or at or
    /// above an open snapshot.
    pub open spec fn may_read(self, snap: nat) -> bool {
        snap >= self.visible || exists|q: u64| #[trigger] self.snapshots.held(q) > 0 && q <= snap
    }

    /// Whether any merge is due.
    pub open spec fn merge_due(self, shape: ShapeOptions, force: bool) -> bool {
        let ls = self.version.levels@;
        !none_due(ls, shape, force, ls.len() - 1) || overflows(ls, shape, force)
            || ls.last()@.len() >= 2
    }

    /// The merge that is due cannot be written: the file ids do not suffice, or
    /// the file format cannot hold one of the files that its output goes into.
    pub open spec fn merge_fails(self, shape: ShapeOptions, opts: MergeOptions, force: bool) -> bool {
        ||| self.next_file_id > u64::MAX - 3
        ||| exists|job: Job, w: u64|
            #![trigger picked(job, self.version.levels@, shape, force, self.next_file_id), is_watermark(self, w)]
            picked(job, self.version.levels@, shape, force, self.next_file_id) && is_watermark(
                self,
                w,
            ) && all_sound(job.inputs@) && unwritable(job, w, opts, (self.next_file_id + 2) as nat)
    }

    /// A block of the merge that is due is damaged.
    pub open spec fn merge_damaged(self, shape: ShapeOptions, force: bool) -> bool {
        exists|job: Job| #[trigger]
            picked(job, self.version.levels@, shape, force, self.next_file_id) && !all_sound(
                job.inputs@,
            )
    }

    /// Run the next merge that the tree needs. Whatever anyone may read stays
    /// as it is. A damaged block among its inputs fails it, and a merge whose
    /// output the file format cannot hold is refused; either way nothing
    /// changes.
    #[verifier::spinoff_prover]
    #[verifier::rlimit(80)]
    pub fn compact_once(&mut self, shape: &ShapeOptions, opts: &MergeOptions, force: bool) -> (r:
        Result<Option<Compacted>>)
        requires
            old(self).inv(),
            old(self).version.levels@.len() < usize::MAX - 1,
        ensures
            final(self).inv(),
            final(self).mem == old(self).mem,
            final(self).imms == old(self).imms,
            final(self).visible == old(self).visible,
            final(self).snapshots == old(self).snapshots,
            final(self).version.vlogs == old(self).version.vlogs,
            final(self).version.vlog_head_id == old(self).version.vlog_head_id,
            forall|key: Seq<u8>, seq: SeqNo, x: Result<Option<Pending>>|
                old(self).may_read(lower(seq, old(self).visible) as nat) ==> #[trigger] final(self).answers(key, seq, x) == old(self).answers(key, seq, x),
            forall|uk: Seq<u8>, snap: SeqNo|
                snap <= MAX_SEQNO && old(self).may_read(snap as nat) ==> look_value(
                    #[trigger] final(self).lookup(uk, snap),
                ) == look_value(old(self).lookup(uk, snap)),
            forall|uk: Seq<u8>, snap: nat|
                old(self).may_read(snap) ==> value_of(
                    #[trigger] first_hit(final(self).sources(), uk, snap),
                ) == value_of(first_hit(old(self).sources(), uk, snap)),
            r is Ok && r->Ok_0 is None ==> !old(self).merge_due(*shape, force) && *final(self) == *old(
                self,
            ),
            r matches Ok(Some(c)) ==> old(self).merge_due(*shape, force),
            r matches Ok(Some(c)) ==> some_merge(
                *old(self),
                *final(self),
                c,
                *shape,
                *opts,
                force,
            ),
            final(self).next_file_id >= old(self).next_file_id,
            r matches Ok(Some(c)) ==> c.level < old(self).version.levels@.len(),
            r matches Ok(Some(c)) ==> final(self).version.levels@.len()
                <= old(self).version.levels@.len() + 1,
            r matches Ok(Some(c)) && force ==> final(self).sources().len()
                < old(self).sources().len(),
            r matches Ok(Some(c)) && force ==> final(self).version.levels@.len()
                == old(self).version.levels@.len(),
            match r {
                Ok(_) => true,
                Err(Error::InvalidArgument(_)) => old(self).merge_fails(*shape, *opts, force),
                Err(e) => (e is Corruption || e is Io) && old(self).merge_damaged(*shape, force),
            },
            r is Err ==> *final(self) == *old(self),
    {
        let next: u64 = self.next_file_id;
        if next > u64::MAX - 3 {
            return Err(invalid("file ids exhausted"));
        }
        let w: u64 = self.snapshots.watermark(self.visible);
        let ghost first = seq![self.mem.entries()] + imm_es(self.imms@);
        let ghost levels0 = self.version.levels@;
        let ghost n = levels0.len() as int;
        let ghost vis = self.visible as nat;
        let ghost srcs0 = self.sources();
        proof {
            assert(srcs0 == first + level_entries(levels0, levels0.len()));
            assert forall|k: int| 0 <= k < levels0.last()@.len() implies fragments_open(
                (#[trigger] levels0.last()@[k]).tables@,
            ) && levels0.last()@[k].tables@.len() > 0 by {
                assert(levels0[n - 1]@[k].intact());
            }
        }
        let job = match pick(&self.version.levels, shape, force, next) {
            Some(j) => j,
            None => {
                proof {
                    self.lemma_none_picked(*shape, force);
                }
                return Ok(None);
            },
        };
        let ghost tier = job.kind is Tier;
        proof {
            assert(picked(job, levels0, *shape, force, next));
            lemma_picked(levels0, *shape, force, next, job);
            if tier {
                lemma_tier_ready(first, levels0, next, vis, job.level as int, job, w as nat);
            } else {
                lemma_splice_ready(first, levels0, next, vis, job, w as nat);
            }
        }
        let (ts, discard) = match write_merge(&job, w, opts, next + 2) {
            Ok(x) => x,
            Err(e) => {
                assert(is_watermark(*old(self), w));
                assert(picked(job, old(self).version.levels@, *shape, force, next));
                return Err(e);
            },
        };
        let count: u64 = ts.len() as u64;
        let later: u64 = next + 2 + count;
        let output: Option<Run> = if ts.len() == 0 {
            None
        } else {
            Some(Run { id: next + 1, tables: ts })
        };
        let ghost out0 = output;
        proof {
            crate::version::lemma_sound_is_intact(ts@);
            lemma_ids_below(ts@, (next + 2) as u64, later);
            assert(fragments(ts@).len() == ts@.len());
            if ts@.len() == 0 {
                assert(fragments(ts@) =~= Seq::<Seq<Kv>>::empty());
            }
        }
        let level: usize = job.level;
        let target: usize = job.target;
        install_levels(&mut self.version.levels, &job, output);
        self.next_file_id = later;
        proof {
            let levels1 = self.version.levels@;
            if tier {
                lemma_tier_after(
                    first,
                    levels0,
                    levels1,
                    next,
                    later,
                    vis,
                    job.level as int,
                    job,
                    out0,
                    w as nat,
                );
            } else {
                lemma_splice_after(first, levels0, levels1, next, later, vis, job, out0, w as nat);
            }
            assert(self.sources() == first + level_entries(levels1, levels1.len()));
            lemma_grown(levels0, levels1, change_of(job, out0));
            assert forall|uk: Seq<u8>, snap: nat| old(self).may_read(snap) implies value_of(
                #[trigger] first_hit(self.sources(), uk, snap),
            ) == value_of(first_hit(srcs0, uk, snap)) by {
                if snap < w {
                    old(self).lemma_reader(w, snap);
                    lemma_all_visible(srcs0, uk, snap, w as nat);
                    lemma_all_visible(self.sources(), uk, snap, w as nat);
                }
            }
        }
        proof {
            old(self).lemma_merge_keeps_lookups(*self, job, out0, w, *shape, force);
            old(self).lemma_merge_keeps_answers(*self);
        }
        let c = Compacted { level, target, discard };
        assert(is_watermark(*old(self), w));
        assert(picked(job, levels0, *shape, force, next));
        assert(merged_by(*old(self), *self, c, *shape, *opts, force, job, out0, w));
        assert(some_merge(*old(self), *self, c, *shape, *opts, force));
        Ok(Some(c))
    }

    /// A merge keeps what every lookup comes to that anyone may make, whatever is
    /// damaged elsewhere.
    proof fn lemma_merge_keeps_lookups(
        &self,
        after: Db,
        job: Job,
        output: Option<Run>,
        w: u64,
        shape: ShapeOptions,
        force: bool,
    )
        requires
            self.inv(),
            after.mem == self.mem,
            after.imms == self.imms,
            picked(job, self.version.levels@, shape, force, self.next_file_id),
            is_watermark(*self, w),
            all_sound(job.inputs@),
            levels_over(after.version.levels@) == installed(
                levels_over(self.version.levels@),
                change_of(job, output),
            ),
            output_holds(
                output,
                compacted(
                    merged(runs_entries(job.inputs@), false),
                    w as nat,
                    some_admits(job.older@),
                ),
            ),
            output matches Some(r) ==> fragments_open(r.tables@),
        ensures
            forall|uk: Seq<u8>, snap: SeqNo|
                snap <= MAX_SEQNO && self.may_read(snap as nat) ==> look_value(
                    #[trigger] after.lookup(uk, snap),
                ) == look_value(self.lookup(uk, snap)),
    {
        let first = self.memtables();
        let levels0 = self.version.levels@;
        let levels1 = after.version.levels@;
        let next = self.next_file_id;
        let vis = self.visible as nat;
        lemma_picked(levels0, shape, force, next, job);
        assert(self.sources() == first + level_entries(levels0, levels0.len()));
        assert forall|uk: Seq<u8>, snap: SeqNo|
            snap <= MAX_SEQNO && self.may_read(snap as nat) implies look_value(
            #[trigger] after.lookup(uk, snap),
        ) == look_value(self.lookup(uk, snap)) by {
            if snap < w {
                self.lemma_reader(w, snap as nat);
            }
            if job.kind is Tier {
                let i = job.level as int;
                lemma_tier_look(
                    first,
                    levels0,
                    levels1,
                    next,
                    vis,
                    i,
                    job,
                    output,
                    w as nat,
                    uk,
                    snap,
                );
            } else {
                lemma_splice_look(
                    first,
                    levels0,
                    levels1,
                    next,
                    vis,
                    job,
                    output,
                    w as nat,
                    uk,
                    snap,
                );
            }
        }
    }

    /// A job that was run keeps every read: where its output takes the place of
    /// its inputs, every read at an open snapshot, or at what is visible, is
    /// answered as before. A key whose newest version is a tombstone does not
    /// come back.
    pub proof fn lemma_run_job_keeps_reads(
        &self,
        after: Db,
        job: Job,
        out: JobOutput,
        output: Option<Run>,
        w: u64,
        shape: ShapeOptions,
        opts: MergeOptions,
        force: bool,
        key: Seq<u8>,
        seq: SeqNo,
        x: Result<Option<Pending>>,
    )
        requires
            self.inv(),
            picked(job, self.version.levels@, shape, force, self.next_file_id),
            is_watermark(*self, w),
            all_sound(job.inputs@),
            is_output(
                out,
                merged(runs_entries(job.inputs@), false),
                w as nat,
                some_admits(job.older@),
                opts,
            ),
            match output {
                Some(r) => r.sound() && fragments(r.tables@) == fragments_entries(out.tables@),
                None => out.tables@.len() == 0,
            },
            levels_over(after.version.levels@) == installed(
                levels_over(self.version.levels@),
                change_of(job, output),
            ),
            after.mem == self.mem,
            after.imms == self.imms,
            after.visible == self.visible,
            after.version.vlogs == self.version.vlogs,
            self.may_read(lower(seq, self.visible) as nat),
        ensures
            after.answers(key, seq, x) == self.answers(key, seq, x),
    {
        if output is None {
            assert(fragments_entries(out.tables@) =~= Seq::<Seq<Kv>>::empty());
        } else {
            let ts = output->Some_0.tables@;
            assert forall|t: int| 0 <= t < ts.len() implies (#[trigger] ts[t]).table.inv() by {
                assert(ts[t].table.sound());
                ts[t].table.lemma_sound();
            }
        }
        self.lemma_merge_keeps_lookups(after, job, output, w, shape, force);
        self.lemma_merge_keeps_answers(after);
    }

    /// What lookups come to decides what reads are answered.
    proof fn lemma_merge_keeps_answers(&self, after: Db)
        requires
            self.inv(),
            after.visible == self.visible,
            after.version.vlogs == self.version.vlogs,
            forall|uk: Seq<u8>, snap: SeqNo|
                snap <= MAX_SEQNO && self.may_read(snap as nat) ==> look_value(
                    #[trigger] after.lookup(uk, snap),
                ) == look_value(self.lookup(uk, snap)),
        ensures
            forall|key: Seq<u8>, seq: SeqNo, x: Result<Option<Pending>>|
                self.may_read(lower(seq, self.visible) as nat) ==> #[trigger] after.answers(
                    key,
                    seq,
                    x,
                ) == self.answers(key, seq, x),
    {
        assert forall|key: Seq<u8>, seq: SeqNo, x: Result<Option<Pending>>|
            self.may_read(lower(seq, self.visible) as nat) implies #[trigger] after.answers(
            key,
            seq,
            x,
        ) == self.answers(key, seq, x) by {
            let at = lower(seq, self.visible);
            lemma_same_answer(
                after.lookup(key, at),
                self.lookup(key, at),
                self.version.vlogs@,
                x,
            );
        }
    }

    /// A reader below the watermark reads everything there is.
    proof fn lemma_reader(&self, w: u64, snap: nat)
        requires
            self.inv(),
            self.may_read(snap),
            snap < w,
            is_watermark(*self, w),
        ensures
            snap >= self.visible,
    {
        if exists|q: u64| #[trigger] self.snapshots.held(q) > 0 && q <= snap {
            let q = choose|q: u64| #[trigger] self.snapshots.held(q) > 0 && q <= snap;
            assert(w <= q);
        }
    }

    proof fn lemma_none_picked(&self, shape: ShapeOptions, force: bool)
        requires
            self.inv(),
            forall|i: int|
                #[trigger] due(self.version.levels@, shape, force, i) ==> !none_due(
                    self.version.levels@,
                    shape,
                    force,
                    i,
                ),
            none_due(self.version.levels@, shape, force, self.version.levels@.len() - 1)
                ==> !overflows(self.version.levels@, shape, force)
                && self.version.levels@.last()@.len() < 2,
        ensures
            !self.merge_due(shape, force),
    {
        let ls = self.version.levels@;
        lemma_first_due(ls, shape, force, ls.len() - 1);
    }
}

/// Where some level is due, one is with none before it.
proof fn lemma_first_due(ls: Seq<Vec<Run>>, shape: ShapeOptions, force: bool, n: int) -> (i: int)
    ensures
        none_due(ls, shape, force, n) || (0 <= i < n && due(ls, shape, force, i) && none_due(
            ls,
            shape,
            force,
            i,
        )),
    decreases n,
{
    if n <= 0 {
        0
    } else {
        let i = lemma_first_due(ls, shape, force, n - 1);
        if none_due(ls, shape, force, n - 1) {
            n - 1
        } else {
            i
        }
    }
}

/// What was picked is a tiered merge of some level, or a splice of the bottom.
proof fn lemma_picked(ls: Seq<Vec<Run>>, shape: ShapeOptions, force: bool, next: u64, job: Job)
    requires
        ls.len() > 0,
        picked(job, ls, shape, force, next),
    ensures
        job.kind is Tier ==> job.level < ls.len() && is_tier_job(job, ls, job.level as int),
        !(job.kind is Tier) ==> ls.last()@.len() >= 2 && is_splice_job(job, ls, next),
        !none_due(ls, shape, force, ls.len() - 1) || overflows(ls, shape, force)
            || ls.last()@.len() >= 2,
        job.level < ls.len(),
        job.target <= ls.len(),
        force && job.kind is Tier ==> job.level < ls.len() - 1 && ls[job.level as int]@.len() >= 2,
{
    let i = lemma_first_due(ls, shape, force, ls.len() - 1);
}

proof fn lemma_grown(
    before: Seq<Vec<Run>>,
    after: Seq<Vec<Run>>,
    c: Change<Arc<TableHandle>>,
)
    requires
        levels_over(after) == installed(levels_over(before), c),
        0 <= c.level < before.len(),
        0 <= c.target <= before.len(),
    ensures
        after.len() <= before.len() + 1,
{
    assert(levels_over(after).len() == after.len());
}

/// The output of a merge cannot be written: the format cannot hold one of its
/// files, or the file ids from `first_id` on do not suffice.
pub open spec fn unwritable(job: Job, w: u64, opts: MergeOptions, first_id: nat) -> bool {
    let es = merged(runs_entries(job.inputs@), false);
    let out = compacted(es, w as nat, some_admits(job.older@));
    !fits_format(out, opts) || first_id + files(out, opts).len() > u64::MAX
}

/// Run a merge, and open what it writes under fresh ids.
fn write_merge(job: &Job, w: u64, opts: &MergeOptions, first_id: u64) -> (r: Result<
    (Vec<Arc<TableHandle>>, Vec<(u64, u64)>),
>)
    requires
        runs_intact(job.inputs@),
        runs_intact(job.older@),
        mergeable(runs_entries(job.inputs@), false),
        kinds_ok(merged(runs_entries(job.inputs@), false)),
        dropped_reprs_ok(merged(runs_entries(job.inputs@), false), w as nat),
    ensures
        ({
            let es = merged(runs_entries(job.inputs@), false);
            match r {
                Ok((ts, discard)) => {
                    &&& all_sound(job.inputs@)
                    &&& fragments_open(ts@)
                    &&& fragments_sound(ts@)
                    &&& flat(fragments(ts@)) == compacted(es, w as nat, some_admits(job.older@))
                    &&& fragments(ts@) == files(
                        compacted(es, w as nat, some_admits(job.older@)),
                        *opts,
                    )
                    &&& table_ids(ts@) == ids_from(first_id, ts@.len())
                    &&& sized(ts@)
                    &&& first_id + ts@.len() <= u64::MAX
                    &&& ascending(discard@)
                    &&& forall|f: u64| #[trigger]
                        count_of(discard@, f) == dead_bytes(es, w as nat, es.len() as int, f)
                    &&& forall|f: u64| #[trigger]
                        counts_id(discard@, f) <==> exists|i: int|
                            0 <= i < es.len() && #[trigger] dead_at(es, w as nat, i, f) is Some
                },
                Err(Error::InvalidArgument(_)) => all_sound(job.inputs@) && unwritable(
                    *job,
                    w,
                    *opts,
                    first_id as nat,
                ),
                Err(e) => (e is Corruption || e is Io) && !all_sound(job.inputs@),
            }
        }),
{
    proof {
        assert(crate::compaction::runs_open(job.older@));
    }
    let out = match run_job(&job.inputs, &job.older, w, opts) {
        Ok(o) => o,
        Err(e) => {
            return Err(e);
        },
    };
    let count: u64 = out.tables.len() as u64;
    assert(fragments_entries(out.tables@).len() == out.tables@.len());
    if count > u64::MAX - first_id {
        return Err(invalid("file ids exhausted"));
    }
    let ts = match open_tables(out.tables, first_id) {
        Ok(ts) => ts,
        Err(e) => {
            return Err(e);
        },
    };
    Ok((ts, out.discard))
}

impl Db {
    /// Merge regardless of the configured triggers until every level holds at
    /// most one run. Whatever anyone may read stays as it is.
    pub fn compact_all(&mut self, shape: &ShapeOptions, opts: &MergeOptions) -> (r: Result<()>)
        requires
            old(self).inv(),
            old(self).version.levels@.len() < usize::MAX - 1,
        ensures
            final(self).inv(),
            final(self).mem == old(self).mem,
            final(self).imms == old(self).imms,
            final(self).visible == old(self).visible,
            final(self).snapshots == old(self).snapshots,
            final(self).version.vlogs == old(self).version.vlogs,
            final(self).version.vlog_head_id == old(self).version.vlog_head_id,
            final(self).version.levels@.len() == old(self).version.levels@.len(),
            final(self).next_file_id >= old(self).next_file_id,
            forall|key: Seq<u8>, seq: SeqNo, x: Result<Option<Pending>>|
                old(self).may_read(lower(seq, old(self).visible) as nat) ==> #[trigger] final(self).answers(key, seq, x) == old(self).answers(key, seq, x),
            forall|uk: Seq<u8>, snap: SeqNo|
                snap <= MAX_SEQNO && old(self).may_read(snap as nat) ==> look_value(
                    #[trigger] final(self).lookup(uk, snap),
                ) == look_value(old(self).lookup(uk, snap)),
            forall|uk: Seq<u8>, snap: nat|
                old(self).may_read(snap) ==> value_of(
                    #[trigger] first_hit(final(self).sources(), uk, snap),
                ) == value_of(first_hit(old(self).sources(), uk, snap)),
            match r {
                Ok(_) => true,
                Err(Error::InvalidArgument(_)) => final(self).merge_fails(*shape, *opts, true),
                Err(e) => (e is Corruption || e is Io) && final(self).merge_damaged(*shape, true),
            },
            r is Ok ==> forall|l: int|
                0 <= l < final(self).version.levels@.len() ==> (
                #[trigger] final(self).version.levels@[l])@.len() <= 1,
    {
        let mut done: bool = false;
        while !done
            invariant
                self.inv(),
                self.version.levels@.len() < usize::MAX - 1,
                self.mem == old(self).mem,
                self.imms == old(self).imms,
                self.visible == old(self).visible,
                self.snapshots == old(self).snapshots,
                self.version.vlogs == old(self).version.vlogs,
                self.version.vlog_head_id == old(self).version.vlog_head_id,
                self.version.levels@.len() == old(self).version.levels@.len(),
                self.next_file_id >= old(self).next_file_id,
                forall|key: Seq<u8>, seq: SeqNo, x: Result<Option<Pending>>|
                    old(self).may_read(lower(seq, old(self).visible) as nat)
                        ==> #[trigger] self.answers(key, seq, x) == old(self).answers(
                        key,
                        seq,
                        x,
                    ),
                forall|uk: Seq<u8>, snap: SeqNo|
                    snap <= MAX_SEQNO && old(self).may_read(snap as nat) ==> look_value(
                        #[trigger] self.lookup(uk, snap),
                    ) == look_value(old(self).lookup(uk, snap)),
                forall|uk: Seq<u8>, snap: nat|
                    old(self).may_read(snap) ==> value_of(
                        #[trigger] first_hit(self.sources(), uk, snap),
                    ) == value_of(first_hit(old(self).sources(), uk, snap)),
                done ==> !self.merge_due(*shape, true),
            decreases self.sources().len(), (if done {
                0int
            } else {
                1int
            }),
        {
            let ghost before = *self;
            match self.compact_once(shape, opts, true) {
                Ok(Some(_)) => {
                    proof {
                        assert forall|key: Seq<u8>, seq: SeqNo, x: Result<Option<Pending>>|
                            old(self).may_read(
                                lower(seq, old(self).visible) as nat,
                            ) implies #[trigger] self.answers(key, seq, x) == old(self).answers(
                            key,
                            seq,
                            x,
                        ) by {
                            assert(before.may_read(lower(seq, before.visible) as nat));
                            assert(before.answers(key, seq, x) == old(self).answers(key, seq, x));
                        }
                        assert forall|uk: Seq<u8>, snap: SeqNo|
                            snap <= MAX_SEQNO && old(self).may_read(
                                snap as nat,
                            ) implies look_value(#[trigger] self.lookup(uk, snap)) == look_value(
                            old(self).lookup(uk, snap),
                        ) by {
                            assert(before.may_read(snap as nat));
                            assert(look_value(self.lookup(uk, snap)) == look_value(
                                before.lookup(uk, snap),
                            ));
                        }
                        assert forall|uk: Seq<u8>, snap: nat| old(self).may_read(
                            snap,
                        ) implies value_of(#[trigger] first_hit(self.sources(), uk, snap))
                            == value_of(first_hit(old(self).sources(), uk, snap)) by {
                            assert(before.may_read(snap));
                            assert(value_of(first_hit(self.sources(), uk, snap)) == value_of(
                                first_hit(before.sources(), uk, snap),
                            ));
                        }
                    }
                },
                Ok(None) => {
                    done = true;
                },
                Err(e) => {
                    return Err(e);
                },
            }
        }
        proof {
            let ls = self.version.levels@;
            assert forall|l: int| 0 <= l < ls.len() implies (#[trigger] ls[l])@.len() <= 1 by {
                if l < ls.len() - 1 {
                    assert(!due(ls, *shape, true, l));
                } else {
                    assert(ls[l] == ls.last());
                }
            }
        }
        Ok(())
    }
}

/// Merges keep what anyone reads: every snapshot that is held, and whatever reads
/// at what is visible now or later, is among the readers that they answer to.
pub proof fn lemma_held_snapshots_are_readers(db: Db, snap: u64)
    requires
        db.snapshots.held(snap) > 0 || snap >= db.visible,
    ensures
        db.may_read(snap as nat),
{
}

/// A merge is due exactly where some level above the last one has reached its
/// trigger, or the last one is over its budget and may move down, or it holds
/// more than one run.
pub proof fn lemma_merge_is_due(db: Db, shape: ShapeOptions, force: bool)
    requires
        db.version.levels@.len() > 0,
    ensures
        ({
            let ls = db.version.levels@;
            db.merge_due(shape, force) <==> (exists|i: int|
                0 <= i < ls.len() - 1 && (#[trigger] ls[i])@.len() >= (if force {
                    2
                } else if i == 0 {
                    shape.l0_compaction_trigger as nat
                } else {
                    shape.tier_width as nat
                })) || overflows(ls, shape, force) || ls.last()@.len() >= 2
        }),
{
    crate::shape::lemma_left_alone_is_in_shape(db.version.levels@, shape, force);
}

} // verus!
