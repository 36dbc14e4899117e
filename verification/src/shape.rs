//! The shape of the tree: which runs to merge next, and what the levels look
//! like once a merge is done.

use std::sync::Arc;

use vstd::prelude::*;

use crate::order::{bytes_lt, to_bytes};
use crate::version::{Run, TableHandle};

verus! {

use crate::order::lex_lt;
use crate::types::ukey_of;
use crate::version::{fragments_open, sizes_sum};

/// Levels can grow (deepening) but never past this: 16 tiers at any sane
/// `tier_width` is more data than a single node stores.
pub const MAX_DYNAMIC_LEVELS: usize = 16;

pub struct ShapeOptions {
    pub memtable_size: usize,
    pub l0_compaction_trigger: usize,
    pub tier_width: usize,
}

pub enum JobKind {
    /// Tiered merge: the output run lands at the FRONT (newest) of the target
    /// level. Also used for deepening (target is one past the last level: a
    /// new bottom level is created on install).
    Tier,
    /// Incremental bottom merge: the inputs are a bottom run plus ONLY the
    /// base run's tables overlapping its key range; the output is spliced
    /// between the base run's untouched fragments to form the new single
    /// leveled base run at the BACK of the level.
    BottomSplice {
        /// The (old) base run consumed by the splice.
        base_id: u64,
        /// Base tables strictly before / after the merged range, key order.
        keep_left: Vec<Arc<TableHandle>>,
        keep_right: Vec<Arc<TableHandle>>,
        new_run_id: u64,
    },
}

pub struct Job {
    pub level: usize,
    pub target: usize,
    pub inputs: Vec<Run>,
    /// Runs that will sit *behind* (older than) the output: existing runs of
    /// the target level plus everything deeper. A tombstone may only be
    /// dropped if none of these can contain its key.
    pub older: Vec<Run>,
    pub kind: JobKind,
}

/// `std::sync::Arc::clone`: another handle on the same value.
#[verifier::external_body]
pub(crate) fn share<T>(t: &Arc<T>) -> (r: Arc<T>)
    ensures
        r == *t,
{
    Arc::clone(t)
}

/// Two runs with the same id over the same tables.
pub open spec fn same_run(a: Run, b: Run) -> bool {
    a.id == b.id && a.tables@ == b.tables@
}

pub open spec fn same_runs(a: Seq<Run>, b: Seq<Run>) -> bool {
    &&& a.len() == b.len()
    &&& forall|k: int| 0 <= k < a.len() ==> same_run(#[trigger] a[k], b[k])
}

pub open spec fn min_of(t: Arc<TableHandle>) -> Seq<u8> {
    ukey_of(t.table.model().stats.first_ikey)
}

pub open spec fn max_of(t: Arc<TableHandle>) -> Seq<u8> {
    ukey_of(t.table.model().stats.last_ikey)
}

/// The lowest user key of the tables.
pub open spec fn lowest(ts: Seq<Arc<TableHandle>>) -> Seq<u8>
    decreases ts.len(),
{
    if ts.len() <= 1 {
        min_of(ts[0])
    } else {
        let m = lowest(ts.drop_last());
        if lex_lt(min_of(ts.last()), m) {
            min_of(ts.last())
        } else {
            m
        }
    }
}

/// The highest user key of the tables.
pub open spec fn highest(ts: Seq<Arc<TableHandle>>) -> Seq<u8>
    decreases ts.len(),
{
    if ts.len() <= 1 {
        max_of(ts[0])
    } else {
        let m = highest(ts.drop_last());
        if lex_lt(m, max_of(ts.last())) {
            max_of(ts.last())
        } else {
            m
        }
    }
}

/// Runs of the levels from `i` on, in order.
pub open spec fn runs_from(levels: Seq<Vec<Run>>, i: int) -> Seq<Run>
    decreases levels.len() - i,
{
    if i < 0 || i >= levels.len() {
        Seq::empty()
    } else {
        levels[i]@ + runs_from(levels, i + 1)
    }
}

pub open spec fn runs_bytes(rs: Seq<Run>) -> nat
    decreases rs.len(),
{
    if rs.len() == 0 {
        0
    } else {
        runs_bytes(rs.drop_last()) + sizes_sum(rs.last().tables@)
    }
}

pub open spec fn sat_mul(a: nat, b: nat) -> nat {
    if a * b <= u64::MAX {
        a * b
    } else {
        u64::MAX as nat
    }
}

/// The byte budget of a level: the volume of one L0 to L1 merge is the unit;
/// each level down multiplies by the tier width.
pub open spec fn budget(o: ShapeOptions, level: nat) -> nat
    decreases level,
{
    if level == 0 {
        let unit = sat_mul(o.memtable_size as nat, o.l0_compaction_trigger as nat);
        if unit == 0 {
            1
        } else {
            unit
        }
    } else {
        sat_mul(
            budget(o, (level - 1) as nat),
            if o.tier_width < 2 {
                2
            } else {
                o.tier_width as nat
            },
        )
    }
}

/// The product, at most what 64 bits hold.
fn saturating_product(a: u64, b: u64) -> (n: u64)
    ensures
        n == sat_mul(a as nat, b as nat),
{
    assert(a * b <= 0xffff_ffff_ffff_ffff * 0xffff_ffff_ffff_ffff) by (nonlinear_arith)
        requires
            a <= 0xffff_ffff_ffff_ffff,
            b <= 0xffff_ffff_ffff_ffff,
    ;
    assert(a * b >= 0) by (nonlinear_arith);
    let p: u128 = (a as u128) * (b as u128);
    if p <= u64::MAX as u128 {
        p as u64
    } else {
        u64::MAX
    }
}

/// Per-level byte budget for deepening decisions.
pub fn level_target_bytes(o: &ShapeOptions, level: usize) -> (n: u64)
    ensures
        n == budget(*o, level as nat),
{
    let unit: u64 = saturating_product(o.memtable_size as u64, o.l0_compaction_trigger as u64);
    let width: u64 = if o.tier_width < 2 {
        2
    } else {
        o.tier_width as u64
    };
    let mut n: u64 = if unit == 0 {
        1
    } else {
        unit
    };
    let mut i: usize = 0;
    while i < level
        invariant
            i <= level,
            n == budget(*o, i as nat),
            width == (if o.tier_width < 2 {
                2
            } else {
                o.tier_width as int
            }),
        decreases level - i,
    {
        n = saturating_product(n, width);
        i += 1;
    }
    n
}

/// The run count at which level `i` merges down.
pub open spec fn trigger_of(o: ShapeOptions, force: bool, i: int) -> nat {
    if force {
        2
    } else if i == 0 {
        o.l0_compaction_trigger as nat
    } else {
        o.tier_width as nat
    }
}

/// A level above the last has gathered enough runs to merge down.
pub open spec fn due(levels: Seq<Vec<Run>>, o: ShapeOptions, force: bool, i: int) -> bool {
    0 <= i < levels.len() - 1 && levels[i]@.len() >= trigger_of(o, force, i)
}

pub open spec fn none_due(levels: Seq<Vec<Run>>, o: ShapeOptions, force: bool, n: int) -> bool {
    forall|i: int| 0 <= i < n ==> !#[trigger] due(levels, o, force, i)
}

/// The bottom outgrew its budget and may grow a level below it.
pub open spec fn overflows(levels: Seq<Vec<Run>>, o: ShapeOptions, force: bool) -> bool {
    &&& !force
    &&& levels.len() < MAX_DYNAMIC_LEVELS
    &&& levels.last()@.len() > 0
    &&& runs_bytes(levels.last()@) > budget(o, (levels.len() - 1) as nat)
}

/// The job that merges all runs of level `i` into one at the next level.
pub open spec fn is_tier_job(j: Job, levels: Seq<Vec<Run>>, i: int) -> bool {
    &&& j.level == i
    &&& j.target == i + 1
    &&& same_runs(j.inputs@, levels[i]@)
    &&& same_runs(j.older@, runs_from(levels, i + 1))
    &&& j.kind is Tier
}

/// A base table left of the merged range, right of it, or in it.
pub open spec fn left_of(ts: Seq<Arc<TableHandle>>, lo: Seq<u8>) -> Seq<Arc<TableHandle>> {
    ts.filter(|t: Arc<TableHandle>| lex_lt(max_of(t), lo))
}

pub open spec fn right_of(ts: Seq<Arc<TableHandle>>, lo: Seq<u8>, hi: Seq<u8>) -> Seq<
    Arc<TableHandle>,
> {
    ts.filter(|t: Arc<TableHandle>| !lex_lt(max_of(t), lo) && lex_lt(hi, min_of(t)))
}

pub open spec fn overlapping(ts: Seq<Arc<TableHandle>>, lo: Seq<u8>, hi: Seq<u8>) -> Seq<
    Arc<TableHandle>,
> {
    ts.filter(|t: Arc<TableHandle>| !lex_lt(max_of(t), lo) && !lex_lt(hi, min_of(t)))
}

/// The job that merges the run next to the base into the base tables it
/// overlaps.
pub open spec fn is_splice_job(j: Job, levels: Seq<Vec<Run>>, fresh_id: u64) -> bool {
    let bottom = levels.last()@;
    let upper = bottom[bottom.len() - 2];
    let base = bottom[bottom.len() - 1];
    let lo = lowest(upper.tables@);
    let hi = highest(upper.tables@);
    &&& j.level == levels.len() - 1
    &&& j.target == levels.len() - 1
    &&& j.inputs@.len() == 2
    &&& same_run(j.inputs@[0], upper)
    &&& j.inputs@[1].id == base.id
    &&& j.inputs@[1].tables@ == overlapping(base.tables@, lo, hi)
    &&& j.older@.len() == 0
    &&& j.kind matches JobKind::BottomSplice { base_id, keep_left, keep_right, new_run_id }
        && base_id == base.id && keep_left@ == left_of(base.tables@, lo) && keep_right@
        == right_of(base.tables@, lo, hi) && new_run_id == fresh_id
}

fn copy_run(r: &Run) -> (c: Run)
    ensures
        same_run(c, *r),
{
    let mut tables: Vec<Arc<TableHandle>> = Vec::new();
    let mut i: usize = 0;
    while i < r.tables.len()
        invariant
            i <= r.tables@.len(),
            tables@ == r.tables@.take(i as int),
        decreases r.tables@.len() - i,
    {
        tables.push(share(&r.tables[i]));
        assert(tables@ =~= r.tables@.take(i + 1));
        i += 1;
    }
    assert(tables@ =~= r.tables@);
    Run { id: r.id, tables }
}

/// Append copies of the runs.
fn copy_runs(out: &mut Vec<Run>, rs: &Vec<Run>, Ghost(done): Ghost<Seq<Run>>)
    requires
        same_runs(old(out)@, done),
    ensures
        same_runs(final(out)@, done + rs@),
{
    let mut i: usize = 0;
    while i < rs.len()
        invariant
            i <= rs@.len(),
            out@.len() == done.len() + i,
            forall|k: int| 0 <= k < out@.len() ==> same_run(#[trigger] out@[k], (done + rs@)[k]),
        decreases rs@.len() - i,
    {
        out.push(copy_run(&rs[i]));
        i += 1;
    }
}

/// The job that merges level `i` down.
fn tier_job(levels: &Vec<Vec<Run>>, i: usize) -> (j: Job)
    requires
        i < levels@.len(),
        levels@.len() < usize::MAX,
    ensures
        is_tier_job(j, levels@, i as int),
{
    let mut inputs: Vec<Run> = Vec::new();
    copy_runs(&mut inputs, &levels[i], Ghost(Seq::empty()));
    assert(Seq::<Run>::empty() + levels@[i as int]@ =~= levels@[i as int]@);
    let mut older: Vec<Run> = Vec::new();
    let mut l: usize = i + 1;
    let ghost mut done: Seq<Run> = Seq::empty();
    assert(done + runs_from(levels@, l as int) =~= runs_from(levels@, l as int));
    while l < levels.len()
        invariant
            i + 1 <= l <= levels@.len(),
            same_runs(older@, done),
            done + runs_from(levels@, l as int) == runs_from(levels@, i + 1),
        decreases levels@.len() - l,
    {
        copy_runs(&mut older, &levels[l], Ghost(done));
        proof {
            assert(done + (levels@[l as int]@ + runs_from(levels@, l + 1)) =~= (done
                + levels@[l as int]@) + runs_from(levels@, l + 1));
            done = done + levels@[l as int]@;
        }
        l += 1;
    }
    proof {
        assert(done + runs_from(levels@, l as int) =~= done);
    }
    Job { level: i, target: i + 1, inputs, older, kind: JobKind::Tier }
}

fn lowest_key(r: &Run) -> (k: Vec<u8>)
    requires
        fragments_open(r.tables@),
        r.tables@.len() > 0,
    ensures
        k@ == lowest(r.tables@),
{
    let mut k: Vec<u8> = to_bytes(r.tables[0].table.min_ukey());
    let mut i: usize = 1;
    assert(r.tables@.take(1)[0] == r.tables@[0]);
    while i < r.tables.len()
        invariant
            1 <= i <= r.tables@.len(),
            fragments_open(r.tables@),
            k@ == lowest(r.tables@.take(i as int)),
        decreases r.tables@.len() - i,
    {
        assert(r.tables@[i as int].table.inv());
        let m = r.tables[i].table.min_ukey();
        proof {
            let t = r.tables@.take(i + 1);
            assert(t.drop_last() =~= r.tables@.take(i as int));
            assert(t.last() == r.tables@[i as int]);
        }
        if bytes_lt(m, k.as_slice()) {
            k = to_bytes(m);
        }
        i += 1;
    }
    assert(r.tables@.take(i as int) =~= r.tables@);
    k
}

fn highest_key(r: &Run) -> (k: Vec<u8>)
    requires
        fragments_open(r.tables@),
        r.tables@.len() > 0,
    ensures
        k@ == highest(r.tables@),
{
    let mut k: Vec<u8> = to_bytes(r.tables[0].table.max_ukey());
    let mut i: usize = 1;
    assert(r.tables@.take(1)[0] == r.tables@[0]);
    while i < r.tables.len()
        invariant
            1 <= i <= r.tables@.len(),
            fragments_open(r.tables@),
            k@ == highest(r.tables@.take(i as int)),
        decreases r.tables@.len() - i,
    {
        assert(r.tables@[i as int].table.inv());
        let m = r.tables[i].table.max_ukey();
        proof {
            let t = r.tables@.take(i + 1);
            assert(t.drop_last() =~= r.tables@.take(i as int));
            assert(t.last() == r.tables@[i as int]);
        }
        if bytes_lt(k.as_slice(), m) {
            k = to_bytes(m);
        }
        i += 1;
    }
    assert(r.tables@.take(i as int) =~= r.tables@);
    k
}

/// The job that splices `upper` into `base`.
fn splice_job(upper: &Run, base: &Run, last: usize, fresh_id: u64) -> (j: Job)
    requires
        fragments_open(upper.tables@),
        fragments_open(base.tables@),
        upper.tables@.len() > 0,
    ensures
        ({
            let lo = lowest(upper.tables@);
            let hi = highest(upper.tables@);
            &&& j.level == last
            &&& j.target == last
            &&& j.inputs@.len() == 2
            &&& same_run(j.inputs@[0], *upper)
            &&& j.inputs@[1].id == base.id
            &&& j.inputs@[1].tables@ == overlapping(base.tables@, lo, hi)
            &&& j.older@.len() == 0
            &&& j.kind matches JobKind::BottomSplice { base_id, keep_left, keep_right, new_run_id }
                && base_id == base.id && keep_left@ == left_of(base.tables@, lo) && keep_right@
                == right_of(base.tables@, lo, hi) && new_run_id == fresh_id
        }),
{
    let lo = lowest_key(upper);
    let hi = highest_key(upper);
    let mut keep_left: Vec<Arc<TableHandle>> = Vec::new();
    let mut overlapped: Vec<Arc<TableHandle>> = Vec::new();
    let mut keep_right: Vec<Arc<TableHandle>> = Vec::new();
    let mut i: usize = 0;
    let ghost ts = base.tables@;
    proof {
        reveal(Seq::filter);
        assert(ts.take(0) =~= Seq::empty());
    }
    while i < base.tables.len()
        invariant
            i <= ts.len(),
            ts == base.tables@,
            fragments_open(ts),
            keep_left@ == left_of(ts.take(i as int), lo@),
            overlapped@ == overlapping(ts.take(i as int), lo@, hi@),
            keep_right@ == right_of(ts.take(i as int), lo@, hi@),
        decreases ts.len() - i,
    {
        proof {
            reveal(Seq::filter);
            assert(ts.take(i + 1).drop_last() =~= ts.take(i as int));
            assert(ts.take(i + 1).last() == ts[i as int]);
            assert(ts[i as int].table.inv());
        }
        let t = share(&base.tables[i]);
        if bytes_lt(base.tables[i].table.max_ukey(), lo.as_slice()) {
            keep_left.push(t);
        } else if bytes_lt(hi.as_slice(), base.tables[i].table.min_ukey()) {
            keep_right.push(t);
        } else {
            overlapped.push(t);
        }
        i += 1;
    }
    assert(ts.take(i as int) =~= ts);
    let over = Run { id: base.id, tables: overlapped };
    let mut inputs: Vec<Run> = Vec::new();
    inputs.push(copy_run(upper));
    inputs.push(over);
    Job {
        level: last,
        target: last,
        inputs,
        older: Vec::new(),
        kind: JobKind::BottomSplice { base_id: base.id, keep_left, keep_right, new_run_id: fresh_id },
    }
}

pub fn total_bytes(rs: &Vec<Run>) -> (n: u64)
    requires
        runs_bytes(rs@) <= u64::MAX,
    ensures
        n == runs_bytes(rs@),
{
    let mut n: u64 = 0;
    let mut i: usize = 0;
    assert(rs@.take(0) =~= Seq::empty());
    while i < rs.len()
        invariant
            i <= rs@.len(),
            n == runs_bytes(rs@.take(i as int)),
            runs_bytes(rs@) <= u64::MAX,
        decreases rs@.len() - i,
    {
        proof {
            assert(rs@.take(i + 1).drop_last() =~= rs@.take(i as int));
            lemma_bytes_take(rs@, i + 1);
        }
        n = n + rs[i].size();
        i += 1;
    }
    assert(rs@.take(i as int) =~= rs@);
    n
}

proof fn lemma_bytes_take(rs: Seq<Run>, n: int)
    requires
        0 <= n <= rs.len(),
    ensures
        runs_bytes(rs.take(n)) <= runs_bytes(rs),
    decreases rs.len(),
{
    if n < rs.len() {
        lemma_bytes_take(rs.drop_last(), n);
        assert(rs.drop_last().take(n) =~= rs.take(n));
    } else {
        assert(rs.take(n) =~= rs);
    }
}

proof fn lemma_sizes_take(ts: Seq<Arc<TableHandle>>, n: int)
    requires
        0 <= n <= ts.len(),
    ensures
        sizes_sum(ts.take(n)) <= sizes_sum(ts),
    decreases ts.len(),
{
    if n < ts.len() {
        lemma_sizes_take(ts.drop_last(), n);
        assert(ts.drop_last().take(n) =~= ts.take(n));
    } else {
        assert(ts.take(n) =~= ts);
    }
}

/// Whether the runs hold more bytes than the limit.
fn exceeds(rs: &Vec<Run>, limit: u64) -> (b: bool)
    ensures
        b == (runs_bytes(rs@) > limit),
{
    let mut n: u128 = 0;
    let mut i: usize = 0;
    assert(rs@.take(0) =~= Seq::empty());
    while i < rs.len()
        invariant
            i <= rs@.len(),
            n == runs_bytes(rs@.take(i as int)),
            n <= limit,
        decreases rs@.len() - i,
    {
        let ts = &rs[i].tables;
        let mut k: usize = 0;
        proof {
            assert(rs@.take(i + 1).drop_last() =~= rs@.take(i as int));
            assert(rs@.take(i + 1).last() == rs@[i as int]);
            lemma_bytes_take(rs@, i + 1);
            assert(ts@.take(0) =~= Seq::empty());
        }
        while k < ts.len()
            invariant
                k <= ts@.len(),
                i < rs@.len(),
                ts@ == rs@[i as int].tables@,
                n == runs_bytes(rs@.take(i as int)) + sizes_sum(ts@.take(k as int)),
                n <= limit,
                runs_bytes(rs@.take(i + 1)) == runs_bytes(rs@.take(i as int)) + sizes_sum(ts@),
                runs_bytes(rs@.take(i + 1)) <= runs_bytes(rs@),
            decreases ts@.len() - k,
        {
            proof {
                assert(ts@.take(k + 1).drop_last() =~= ts@.take(k as int));
                assert(ts@.take(k + 1).last() == ts@[k as int]);
                lemma_sizes_take(ts@, k + 1);
            }
            n = n + ts[k].size as u128;
            if n > limit as u128 {
                return true;
            }
            k += 1;
        }
        assert(ts@.take(k as int) =~= ts@);
        i += 1;
    }
    assert(rs@.take(i as int) =~= rs@);
    false
}

/// The next merge the tree needs, if any. A level above the last that reached
/// its run count merges down, topmost first; else a bottom past its byte
/// budget deepens the tree (never under `force`, which wants convergence); else
/// the bottom run ADJACENT to the base (the oldest but the base) merges into
/// the base: with any other run, data would end up behind runs that are older.
pub fn pick(levels: &Vec<Vec<Run>>, o: &ShapeOptions, force: bool, fresh_id: u64) -> (r: Option<Job>)
    requires
        0 < levels@.len() < usize::MAX,
        forall|k: int|
            0 <= k < levels@.last()@.len() ==> fragments_open(
                (#[trigger] levels@.last()@[k]).tables@,
            ) && levels@.last()@[k].tables@.len() > 0,
    ensures
        ({
            let ls = levels@;
            let last = ls.len() - 1;
            &&& forall|i: int| #[trigger]
                due(ls, *o, force, i) && none_due(ls, *o, force, i) ==> (r matches Some(j)
                    && is_tier_job(j, ls, i))
            &&& none_due(ls, *o, force, last) ==> if overflows(ls, *o, force) {
                r matches Some(j) && is_tier_job(j, ls, last)
            } else if ls.last()@.len() >= 2 {
                r matches Some(j) && is_splice_job(j, ls, fresh_id)
            } else {
                r is None
            }
        }),
{
    let last: usize = levels.len() - 1;
    let mut i: usize = 0;
    while i < last
        invariant
            i <= last,
            last == levels@.len() - 1,
            levels@.len() < usize::MAX,
            none_due(levels@, *o, force, i as int),
        decreases last - i,
    {
        let trigger: usize = if force {
            2
        } else if i == 0 {
            o.l0_compaction_trigger
        } else {
            o.tier_width
        };
        if levels[i].len() >= trigger {
            proof {
                assert(due(levels@, *o, force, i as int));
                assert forall|k: int| #[trigger]
                    due(levels@, *o, force, k) && none_due(levels@, *o, force, k) implies k
                    == i by {
                    if k > i {
                        assert(!due(levels@, *o, force, i as int));
                    }
                }
            }
            return Some(tier_job(levels, i));
        }
        i += 1;
    }
    let bottom = &levels[last];
    assert(bottom@ == levels@.last()@);
    if !force && levels.len() < MAX_DYNAMIC_LEVELS && bottom.len() > 0 && exceeds(
        bottom,
        level_target_bytes(o, last),
    ) {
        return Some(tier_job(levels, last));
    }
    if bottom.len() >= 2 {
        let n: usize = bottom.len();
        assert(bottom@[n - 2].tables@.len() > 0);
        assert(fragments_open(bottom@[n - 1].tables@));
        return Some(splice_job(&bottom[n - 2], &bottom[n - 1], last, fresh_id));
    }
    None
}

// ---------------------------------------------------------------------------
// When a tree is merged
// ---------------------------------------------------------------------------

/// Every level's budget is at least twice that of the level above, up to what a
/// counter holds, and none is empty.
pub proof fn lemma_budgets_grow(o: ShapeOptions, level: nat)
    ensures
        1 <= budget(o, level) <= u64::MAX,
        budget(o, level + 1) >= 2 * budget(o, level) || budget(o, level + 1) == u64::MAX,
        o.memtable_size * o.l0_compaction_trigger <= u64::MAX && o.memtable_size
            * o.l0_compaction_trigger > 0 ==> budget(o, 0) == o.memtable_size
            * o.l0_compaction_trigger,
    decreases level,
{
    if level > 0 {
        lemma_budgets_grow(o, (level - 1) as nat);
    }
    let b = budget(o, level);
    let w: nat = if o.tier_width < 2 {
        2
    } else {
        o.tier_width as nat
    };
    assert(b * w >= 2 * b) by (nonlinear_arith)
        requires
            w >= 2,
    ;
    assert(budget(o, level + 1) == sat_mul(b, w));
    assert(b >= 1);
}

/// A tree that is left alone is in shape: no level above the last one has
/// reached its trigger, which is two runs where a merge is forced, and the last
/// one is neither over its budget, where it may move down, nor made of two runs.
pub proof fn lemma_left_alone_is_in_shape(levels: Seq<Vec<Run>>, o: ShapeOptions, force: bool)
    requires
        levels.len() > 0,
    ensures
        none_due(levels, o, force, levels.len() - 1) <==> forall|i: int|
            0 <= i < levels.len() - 1 ==> (#[trigger] levels[i])@.len() < (if force {
                2
            } else if i == 0 {
                o.l0_compaction_trigger as nat
            } else {
                o.tier_width as nat
            }),
        overflows(levels, o, force) <==> !force && levels.len() < 16 && levels.last()@.len() > 0
            && runs_bytes(levels.last()@) > budget(o, (levels.len() - 1) as nat),
        force ==> !overflows(levels, o, force),
{
    let n = levels.len() - 1;
    if none_due(levels, o, force, n) {
        assert forall|i: int| 0 <= i < n implies (#[trigger] levels[i])@.len() < (if force {
            2
        } else if i == 0 {
            o.l0_compaction_trigger as nat
        } else {
            o.tier_width as nat
        }) by {
            assert(!due(levels, o, force, i));
        }
    }
}

} // verus!
