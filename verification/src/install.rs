//! What a finished merge does to the levels, in memory and in the manifest.

use std::sync::Arc;

use vstd::prelude::*;

use crate::counts::{get_count, set_count};
use crate::manifest::{ManifestData, RunMeta};
use crate::shape::{share, Job, JobKind};
use crate::version::{Run, TableHandle};

verus! {

use crate::counts::{ascending, count_of, counts_id, sat_add};

/// A run over tables that are told apart by a `T`: a handle in memory, a file
/// id in the manifest.
pub struct RunOver<T> {
    pub id: u64,
    pub tables: Seq<T>,
}

pub open spec fn run_over(r: Run) -> RunOver<Arc<TableHandle>> {
    RunOver { id: r.id, tables: r.tables@ }
}

pub open spec fn runs_over(rs: Seq<Run>) -> Seq<RunOver<Arc<TableHandle>>> {
    rs.map_values(|r: Run| run_over(r))
}

/// The levels in memory.
pub open spec fn levels_over(ls: Seq<Vec<Run>>) -> Seq<Seq<RunOver<Arc<TableHandle>>>> {
    ls.map_values(|l: Vec<Run>| runs_over(l@))
}

pub open spec fn meta_over(r: RunMeta) -> RunOver<u64> {
    RunOver { id: r.id, tables: r.table_ids@ }
}

pub open spec fn metas_over(rs: Seq<RunMeta>) -> Seq<RunOver<u64>> {
    rs.map_values(|r: RunMeta| meta_over(r))
}

/// The levels in the manifest.
pub open spec fn meta_levels(ls: Seq<Vec<RunMeta>>) -> Seq<Seq<RunOver<u64>>> {
    ls.map_values(|l: Vec<RunMeta>| metas_over(l@))
}

/// The runs that are not listed, in order.
pub open spec fn unlisted<T>(rs: Seq<RunOver<T>>, ids: Seq<u64>) -> Seq<RunOver<T>> {
    rs.filter(|r: RunOver<T>| !ids.contains(r.id))
}

/// A spliced base: its tables left and right of the merged range, the old
/// base's id and the new one's.
pub struct SpliceOver<T> {
    pub base_id: u64,
    pub left: Seq<T>,
    pub right: Seq<T>,
    pub new_id: u64,
}

/// A merge, as far as the levels are concerned.
pub struct Change<T> {
    pub level: int,
    pub target: int,
    pub input_ids: Seq<u64>,
    pub splice: Option<SpliceOver<T>>,
    pub output: Option<RunOver<T>>,
}

/// The levels after a merge. The inputs are gone. A tiered merge puts its
/// output at the front of the target level, which it creates where it is new.
/// A splice replaces the base, at the back of its level, by the untouched
/// tables around the output.
pub open spec fn installed<T>(before: Seq<Seq<RunOver<T>>>, c: Change<T>) -> Seq<Seq<RunOver<T>>> {
    let l1 = before.update(c.level, unlisted(before[c.level], c.input_ids));
    match c.splice {
        None => {
            let l2 = if c.target == l1.len() {
                l1.push(Seq::empty())
            } else {
                l1
            };
            match c.output {
                Some(run) => l2.update(c.target, seq![run] + l2[c.target]),
                None => l2,
            }
        },
        Some(s) => {
            let rest = unlisted(l1[c.level], seq![s.base_id]);
            let tables = s.left + (match c.output {
                Some(run) => run.tables,
                None => Seq::empty(),
            }) + s.right;
            l1.update(
                c.level,
                if tables.len() == 0 {
                    rest
                } else {
                    rest.push(RunOver { id: s.new_id, tables })
                },
            )
        },
    }
}

pub open spec fn run_ids(rs: Seq<Run>) -> Seq<u64> {
    rs.map_values(|r: Run| r.id)
}

pub open spec fn table_ids(ts: Seq<Arc<TableHandle>>) -> Seq<u64> {
    ts.map_values(|t: Arc<TableHandle>| t.id)
}

/// What a job and its output change in memory.
pub open spec fn change_of(j: Job, output: Option<Run>) -> Change<Arc<TableHandle>> {
    Change {
        level: j.level as int,
        target: j.target as int,
        input_ids: run_ids(j.inputs@),
        splice: match j.kind {
            JobKind::Tier => None,
            JobKind::BottomSplice { base_id, keep_left, keep_right, new_run_id } => Some(
                SpliceOver { base_id, left: keep_left@, right: keep_right@, new_id: new_run_id },
            ),
        },
        output: match output {
            Some(r) => Some(run_over(r)),
            None => None,
        },
    }
}

pub open spec fn run_by_ids(r: RunOver<Arc<TableHandle>>) -> RunOver<u64> {
    RunOver { id: r.id, tables: table_ids(r.tables) }
}

pub open spec fn runs_by_ids(rs: Seq<RunOver<Arc<TableHandle>>>) -> Seq<RunOver<u64>> {
    rs.map_values(|r: RunOver<Arc<TableHandle>>| run_by_ids(r))
}

/// The levels in memory with each table named by its file id.
pub open spec fn levels_by_ids(ls: Seq<Seq<RunOver<Arc<TableHandle>>>>) -> Seq<
    Seq<RunOver<u64>>,
> {
    ls.map_values(|l: Seq<RunOver<Arc<TableHandle>>>| runs_by_ids(l))
}

/// The same change with each table named by its file id.
pub open spec fn change_by_ids(c: Change<Arc<TableHandle>>) -> Change<u64> {
    Change {
        level: c.level,
        target: c.target,
        input_ids: c.input_ids,
        splice: match c.splice {
            Some(s) => Some(
                SpliceOver {
                    base_id: s.base_id,
                    left: table_ids(s.left),
                    right: table_ids(s.right),
                    new_id: s.new_id,
                },
            ),
            None => None,
        },
        output: match c.output {
            Some(r) => Some(run_by_ids(r)),
            None => None,
        },
    }
}

proof fn lemma_unlisted_by_ids(rs: Seq<RunOver<Arc<TableHandle>>>, ids: Seq<u64>)
    ensures
        runs_by_ids(unlisted(rs, ids)) == unlisted(runs_by_ids(rs), ids),
    decreases rs.len(),
{
    reveal(Seq::filter);
    if rs.len() > 0 {
        let t = rs.drop_last();
        lemma_unlisted_by_ids(t, ids);
        assert(runs_by_ids(rs).drop_last() =~= runs_by_ids(t));
        assert(runs_by_ids(rs).last() == run_by_ids(rs.last()));
        if !ids.contains(rs.last().id) {
            assert(unlisted(rs, ids) == unlisted(t, ids).push(rs.last()));
            assert(runs_by_ids(unlisted(t, ids).push(rs.last())) =~= runs_by_ids(
                unlisted(t, ids),
            ).push(run_by_ids(rs.last())));
        }
    } else {
        assert(unlisted(rs, ids) =~= Seq::empty());
        assert(runs_by_ids(rs) =~= Seq::empty());
        assert(unlisted(runs_by_ids(rs), ids) =~= Seq::empty());
        assert(runs_by_ids(Seq::empty()) =~= Seq::<RunOver<u64>>::empty());
    }
}

/// The manifest and the tree in memory stay in step: where they list the same
/// tables before a merge is installed, they do so after it.
pub proof fn lemma_manifest_stays_in_step(
    before: Seq<Seq<RunOver<Arc<TableHandle>>>>,
    c: Change<Arc<TableHandle>>,
)
    requires
        0 <= c.level < before.len(),
        0 <= c.target <= before.len(),
    ensures
        levels_by_ids(installed(before, c)) == installed(levels_by_ids(before), change_by_ids(c)),
{
    let d = change_by_ids(c);
    let bids = levels_by_ids(before);
    lemma_unlisted_by_ids(before[c.level], c.input_ids);
    let l1 = before.update(c.level, unlisted(before[c.level], c.input_ids));
    let m1 = bids.update(c.level, unlisted(bids[c.level], c.input_ids));
    assert(levels_by_ids(l1) =~= m1);
    match c.splice {
        None => {
            let l2 = if c.target == l1.len() {
                l1.push(Seq::empty())
            } else {
                l1
            };
            let m2 = if c.target == m1.len() {
                m1.push(Seq::empty())
            } else {
                m1
            };
            assert(runs_by_ids(Seq::empty()) =~= Seq::<RunOver<u64>>::empty());
            assert(levels_by_ids(l2) =~= m2);
            match c.output {
                Some(run) => {
                    assert(runs_by_ids(seq![run] + l2[c.target]) =~= seq![run_by_ids(run)]
                        + m2[c.target]);
                    assert(levels_by_ids(installed(before, c)) =~= installed(bids, d));
                },
                None => {},
            }
        },
        Some(s) => {
            lemma_unlisted_by_ids(l1[c.level], seq![s.base_id]);
            let mid = match c.output {
                Some(run) => run.tables,
                None => Seq::empty(),
            };
            let tables = s.left + mid + s.right;
            assert(table_ids(Seq::empty()) =~= Seq::<u64>::empty());
            assert(table_ids(tables) =~= table_ids(s.left) + table_ids(mid) + table_ids(s.right));
            let rest = unlisted(l1[c.level], seq![s.base_id]);
            let run = RunOver { id: s.new_id, tables };
            assert(runs_by_ids(rest.push(run)) =~= runs_by_ids(rest).push(run_by_ids(run)));
            assert(levels_by_ids(installed(before, c)) =~= installed(bids, d));
        },
    }
}

pub fn contains_id(ids: &Vec<u64>, id: u64) -> (b: bool)
    ensures
        b == ids@.contains(id),
{
    let mut i: usize = 0;
    while i < ids.len()
        invariant
            i <= ids@.len(),
            forall|k: int| 0 <= k < i ==> ids@[k] != id,
        decreases ids@.len() - i,
    {
        if ids[i] == id {
            return true;
        }
        i += 1;
    }
    false
}

/// One step of keeping the unlisted runs.
proof fn lemma_unlisted_step<T>(rs: Seq<RunOver<T>>, ids: Seq<u64>, k: int)
    requires
        0 <= k < rs.len(),
    ensures
        unlisted(rs.take(k + 1), ids) == (if ids.contains(rs[k].id) {
            unlisted(rs.take(k), ids)
        } else {
            unlisted(rs.take(k), ids).push(rs[k])
        }),
{
    reveal(Seq::filter);
    assert(rs.take(k + 1).drop_last() =~= rs.take(k));
    assert(rs.take(k + 1).last() == rs[k]);
}

fn drop_runs(v: &mut Vec<Run>, ids: &Vec<u64>)
    ensures
        runs_over(final(v)@) == unlisted(runs_over(old(v)@), ids@),
{
    let ghost before = runs_over(v@);
    let ghost mut k: int = 0;
    let mut i: usize = 0;
    proof {
        reveal(Seq::filter);
        assert(before.take(0) =~= Seq::empty());
        assert(runs_over(v@) =~= unlisted(before.take(0), ids@) + before.skip(0));
    }
    while i < v.len()
        invariant
            0 <= k <= before.len(),
            i == unlisted(before.take(k), ids@).len(),
            runs_over(v@) == unlisted(before.take(k), ids@) + before.skip(k),
        decreases v@.len() - i,
    {
        let ghost done = unlisted(before.take(k), ids@);
        let ghost now = runs_over(v@);
        proof {
            assert(now.len() == v@.len());
            assert(now[i as int] == before.skip(k)[0]);
            assert(now[i as int] == run_over(v@[i as int]));
            lemma_unlisted_step(before, ids@, k);
        }
        if contains_id(ids, v[i].id) {
            let ghost v0 = v@;
            v.remove(i);
            proof {
                assert(v@ == v0.remove(i as int));
                assert(runs_over(v@) =~= now.remove(i as int));
                assert(runs_over(v@) =~= done + before.skip(k + 1));
            }
        } else {
            i += 1;
            proof {
                assert(runs_over(v@) =~= done.push(before[k]) + before.skip(k + 1));
            }
        }
        proof {
            k = k + 1;
        }
    }
    proof {
        assert(runs_over(v@).len() == v@.len());
        assert(before.skip(k).len() == 0);
        assert(before.take(k) =~= before);
        assert(runs_over(v@) =~= unlisted(before, ids@));
    }
}

fn drop_metas(v: &mut Vec<RunMeta>, ids: &Vec<u64>)
    ensures
        metas_over(final(v)@) == unlisted(metas_over(old(v)@), ids@),
{
    let ghost before = metas_over(v@);
    let ghost mut k: int = 0;
    let mut i: usize = 0;
    proof {
        reveal(Seq::filter);
        assert(before.take(0) =~= Seq::empty());
        assert(metas_over(v@) =~= unlisted(before.take(0), ids@) + before.skip(0));
    }
    while i < v.len()
        invariant
            0 <= k <= before.len(),
            i == unlisted(before.take(k), ids@).len(),
            metas_over(v@) == unlisted(before.take(k), ids@) + before.skip(k),
        decreases v@.len() - i,
    {
        let ghost done = unlisted(before.take(k), ids@);
        let ghost now = metas_over(v@);
        proof {
            assert(now.len() == v@.len());
            assert(now[i as int] == before.skip(k)[0]);
            assert(now[i as int] == meta_over(v@[i as int]));
            lemma_unlisted_step(before, ids@, k);
        }
        if contains_id(ids, v[i].id) {
            let ghost v0 = v@;
            v.remove(i);
            proof {
                assert(v@ == v0.remove(i as int));
                assert(metas_over(v@) =~= now.remove(i as int));
                assert(metas_over(v@) =~= done + before.skip(k + 1));
            }
        } else {
            i += 1;
            proof {
                assert(metas_over(v@) =~= done.push(before[k]) + before.skip(k + 1));
            }
        }
        proof {
            k = k + 1;
        }
    }
    proof {
        assert(metas_over(v@).len() == v@.len());
        assert(before.skip(k).len() == 0);
        assert(before.take(k) =~= before);
        assert(metas_over(v@) =~= unlisted(before, ids@));
    }
}

fn ids_of(rs: &Vec<Run>) -> (ids: Vec<u64>)
    ensures
        ids@ == run_ids(rs@),
{
    let mut ids: Vec<u64> = Vec::new();
    let mut i: usize = 0;
    while i < rs.len()
        invariant
            i <= rs@.len(),
            ids@ =~= run_ids(rs@).take(i as int),
        decreases rs@.len() - i,
    {
        ids.push(rs[i].id);
        i += 1;
    }
    assert(ids@ =~= run_ids(rs@));
    ids
}

fn add_tables(out: &mut Vec<Arc<TableHandle>>, ts: &Vec<Arc<TableHandle>>)
    ensures
        final(out)@ == old(out)@ + ts@,
{
    let mut i: usize = 0;
    while i < ts.len()
        invariant
            i <= ts@.len(),
            out@ =~= old(out)@ + ts@.take(i as int),
        decreases ts@.len() - i,
    {
        out.push(share(&ts[i]));
        i += 1;
    }
    assert(out@ =~= old(out)@ + ts@);
}

pub fn add_ids(out: &mut Vec<u64>, ts: &Vec<Arc<TableHandle>>)
    ensures
        final(out)@ == old(out)@ + table_ids(ts@),
{
    let mut i: usize = 0;
    while i < ts.len()
        invariant
            i <= ts@.len(),
            out@ =~= old(out)@ + table_ids(ts@).take(i as int),
        decreases ts@.len() - i,
    {
        out.push(ts[i].id);
        i += 1;
    }
    assert(out@ =~= old(out)@ + table_ids(ts@));
}

/// Install a finished merge in the levels. Runs that came in since the job was
/// picked stay in front.
pub fn install_levels(levels: &mut Vec<Vec<Run>>, job: &Job, output: Option<Run>)
    requires
        job.level < old(levels)@.len(),
        job.target <= old(levels)@.len(),
        old(levels)@.len() < usize::MAX,
    ensures
        levels_over(final(levels)@) == installed(levels_over(old(levels)@), change_of(*job, output)),
{
    let ids = ids_of(&job.inputs);
    let ghost before = levels_over(levels@);
    let ghost l0 = levels@;
    drop_runs(&mut levels[job.level], &ids);
    let ghost l1 = before.update(job.level as int, unlisted(before[job.level as int], ids@));
    assert(levels_over(levels@) =~= l1);
    match &job.kind {
        JobKind::Tier => {
            if job.target == levels.len() {
                let fresh: Vec<Run> = Vec::new();
                levels.push(fresh);
                assert(runs_over(fresh@) =~= Seq::empty());
                assert(levels_over(levels@) =~= l1.push(Seq::empty()));
            }
            let ghost l2 = levels_over(levels@);
            match output {
                Some(run) => {
                    let ghost at = levels@[job.target as int]@;
                    levels[job.target].insert(0, run);
                    proof {
                        let now = levels@[job.target as int]@;
                        assert(now == at.insert(0, run));
                        assert(runs_over(now) =~= seq![run_over(run)] + runs_over(at));
                        assert(levels_over(levels@) =~= l2.update(
                            job.target as int,
                            seq![run_over(run)] + l2[job.target as int],
                        ));
                    }
                },
                None => {},
            }
        },
        JobKind::BottomSplice { base_id, keep_left, keep_right, new_run_id } => {
            let mut base: Vec<u64> = Vec::new();
            base.push(*base_id);
            assert(base@ =~= seq![*base_id]);
            drop_runs(&mut levels[job.level], &base);
            let ghost rest = unlisted(l1[job.level as int], seq![*base_id]);
            assert(levels_over(levels@) =~= l1.update(job.level as int, rest));
            let mut tables: Vec<Arc<TableHandle>> = Vec::new();
            add_tables(&mut tables, keep_left);
            if let Some(run) = &output {
                add_tables(&mut tables, &run.tables);
            }
            add_tables(&mut tables, keep_right);
            proof {
                let mid = match output {
                    Some(run) => run.tables@,
                    None => Seq::empty(),
                };
                assert(tables@ =~= keep_left@ + mid + keep_right@);
            }
            if tables.len() > 0 {
                let ghost at = levels@[job.level as int]@;
                let run = Run { id: *new_run_id, tables };
                levels[job.level].push(run);
                proof {
                    let now = levels@[job.level as int]@;
                    assert(now == at.push(run));
                    assert(runs_over(now) =~= runs_over(at).push(run_over(run)));
                    assert(levels_over(levels@) =~= l1.update(
                        job.level as int,
                        rest.push(run_over(run)),
                    ));
                }
            }
        },
    }
}

/// Whether dead bytes of file `f` are worth counting: it can still be read and
/// is not on its way out. Counts of other files would stay forever.
pub open spec fn counted(f: u64, resolvable: Seq<u64>, retired: Seq<(u64, u64)>) -> bool {
    resolvable.contains(f) && !is_retired(retired, f)
}

pub open spec fn is_retired(retired: Seq<(u64, u64)>, f: u64) -> bool {
    exists|i: int| 0 <= i < retired.len() && (#[trigger] retired[i]).0 == f
}

pub fn retired_holds(retired: &Vec<(u64, u64)>, f: u64) -> (b: bool)
    ensures
        b == is_retired(retired@, f),
{
    let mut i: usize = 0;
    while i < retired.len()
        invariant
            i <= retired@.len(),
            forall|k: int| 0 <= k < i ==> (#[trigger] retired@[k]).0 != f,
        decreases retired@.len() - i,
    {
        if retired[i].0 == f {
            return true;
        }
        i += 1;
    }
    false
}

impl ManifestData {
    /// The discard counts by file, each file once, in ascending order; where
    /// the list names a file twice, its last count.
    pub fn discard_map(&self) -> (m: Vec<(u64, u64)>)
        ensures
            ascending(m@),
            forall|f: u64| #[trigger] count_of(m@, f) == count_of(self.discard@, f),
            forall|f: u64| #[trigger] counts_id(m@, f) == counts_id(self.discard@, f),
    {
        let mut m: Vec<(u64, u64)> = Vec::new();
        let mut i: usize = 0;
        let ghost d = self.discard@;
        assert(d.take(0) =~= Seq::empty());
        while i < self.discard.len()
            invariant
                i <= d.len(),
                d == self.discard@,
                ascending(m@),
                forall|f: u64| #[trigger] count_of(m@, f) == count_of(d.take(i as int), f),
                forall|f: u64| #[trigger] counts_id(m@, f) == counts_id(d.take(i as int), f),
            decreases d.len() - i,
        {
            let (f, n) = self.discard[i];
            let ghost m0 = m@;
            set_count(&mut m, f, n);
            proof {
                let t = d.take(i + 1);
                assert(t.drop_last() =~= d.take(i as int));
                assert(t.last() == d[i as int]);
                assert forall|g: u64| #[trigger] count_of(m@, g) == count_of(t, g) by {
                    assert(count_of(m0, g) == count_of(d.take(i as int), g));
                }
                assert forall|g: u64| #[trigger] counts_id(m@, g) == counts_id(t, g) by {
                    if g != f {
                        assert(count_of(m@, g) == count_of(m0, g));
                    }
                    assert(counts_id(m0, g) == counts_id(d.take(i as int), g));
                    assert(t[i as int].0 == f);
                    if counts_id(d.take(i as int), g) {
                        let k = choose|k: int|
                            0 <= k < d.take(i as int).len() && (#[trigger] d.take(i as int)[k]).0
                                == g;
                        assert(t[k].0 == g);
                    }
                    if counts_id(t, g) && g != f {
                        let k = choose|k: int| 0 <= k < t.len() && (#[trigger] t[k]).0 == g;
                        assert(d.take(i as int)[k].0 == g);
                    }
                }
            }
            i += 1;
        }
        assert(d.take(i as int) =~= d);
        m
    }
}

/// The count of file `f` once a merge has reported its dead bytes.
pub open spec fn count_after(
    before: Seq<(u64, u64)>,
    found: Seq<(u64, u64)>,
    resolvable: Seq<u64>,
    retired: Seq<(u64, u64)>,
    f: u64,
) -> u64 {
    if counts_id(found, f) && counted(f, resolvable, retired) {
        sat_add(count_of(before, f), count_of(found, f))
    } else {
        count_of(before, f)
    }
}

/// Add the dead bytes a merge found to the counts.
fn add_found(
    m: &mut Vec<(u64, u64)>,
    found: &Vec<(u64, u64)>,
    resolvable: &Vec<u64>,
    retired: &Vec<(u64, u64)>,
)
    requires
        ascending(old(m)@),
        ascending(found@),
    ensures
        ascending(final(m)@),
        forall|f: u64| #[trigger]
            count_of(final(m)@, f) == count_after(
                old(m)@,
                found@,
                resolvable@,
                retired@,
                f,
            ),
        forall|f: u64| #[trigger]
            counts_id(final(m)@, f) == (counts_id(old(m)@, f) || (counts_id(found@, f) && counted(
                f,
                resolvable@,
                retired@,
            ))),
{
    let mut i: usize = 0;
    let ghost m0 = m@;
    let ghost d = found@;
    assert(d.take(0) =~= Seq::empty());
    while i < found.len()
        invariant
            i <= d.len(),
            d == found@,
            ascending(d),
            ascending(m@),
            forall|f: u64| #[trigger]
                count_of(m@, f) == count_after(m0, d.take(i as int), resolvable@, retired@, f),
            forall|f: u64| #[trigger]
                counts_id(m@, f) == (counts_id(m0, f) || (counts_id(d.take(i as int), f) && counted(
                    f,
                    resolvable@,
                    retired@,
                ))),
        decreases d.len() - i,
    {
        let (f, n) = found[i];
        let ghost m1 = m@;
        let ghost t0 = d.take(i as int);
        let ghost t = d.take(i + 1);
        proof {
            assert(t.drop_last() =~= t0);
            assert(t.last() == d[i as int]);
            assert(t[i as int].0 == f);
            assert(!counts_id(t0, f)) by {
                if counts_id(t0, f) {
                    let k = choose|k: int| 0 <= k < t0.len() && (#[trigger] t0[k]).0 == f;
                    assert(d[k].0 < d[i as int].0);
                }
            }
            assert forall|g: u64| g != f implies counts_id(t, g) == counts_id(t0, g) by {
                if counts_id(t0, g) {
                    let k = choose|k: int| 0 <= k < t0.len() && (#[trigger] t0[k]).0 == g;
                    assert(t[k].0 == g);
                }
                if counts_id(t, g) {
                    let k = choose|k: int| 0 <= k < t.len() && (#[trigger] t[k]).0 == g;
                    assert(t0[k].0 == g);
                }
            }
            assert(count_of(m1, f) == count_of(m0, f));
        }
        if contains_id(resolvable, f) && !retired_holds(retired, f) {
            let prior: u64 = match get_count(m, f) {
                Some(c) => c,
                None => 0,
            };
            proof {
                if !counts_id(m@, f) {
                    crate::counts::lemma_count_none(m@, f);
                }
            }
            set_count(m, f, prior.saturating_add(n));
        }
        proof {
            assert forall|g: u64| #[trigger]
                count_of(m@, g) == count_after(m0, t, resolvable@, retired@, g) by {
                assert(count_of(m1, g) == count_after(m0, t0, resolvable@, retired@, g));
            }
            assert forall|g: u64| #[trigger]
                counts_id(m@, g) == (counts_id(m0, g) || (counts_id(t, g) && counted(
                    g,
                    resolvable@,
                    retired@,
                ))) by {
                if g != f {
                    assert(count_of(m@, g) == count_of(m1, g));
                }
                assert(counts_id(m1, g) == (counts_id(m0, g) || (counts_id(t0, g) && counted(
                    g,
                    resolvable@,
                    retired@,
                ))));
            }
        }
        i += 1;
    }
    assert(d.take(i as int) =~= d);
}

/// Install a finished merge in the manifest: the levels, the discard counts
/// and the file id counter. Nothing else changes.
pub fn install_manifest(
    data: &mut ManifestData,
    job: &Job,
    output: &Option<Run>,
    discard: &Vec<(u64, u64)>,
    resolvable: &Vec<u64>,
    next_file_id: u64,
)
    requires
        job.level < old(data).levels@.len(),
        job.target <= old(data).levels@.len(),
        old(data).levels@.len() < usize::MAX,
        ascending(discard@),
    ensures
        meta_levels(final(data).levels@) == installed(
            meta_levels(old(data).levels@),
            change_by_ids(change_of(*job, *output)),
        ),
        discard@.len() == 0 ==> final(data).discard == old(data).discard,
        discard@.len() > 0 ==> ascending(final(data).discard@),
        forall|f: u64| #[trigger]
            count_of(final(data).discard@, f) == count_after(
                old(data).discard@,
                discard@,
                resolvable@,
                old(data).vlog_retired@,
                f,
            ),
        forall|f: u64| #[trigger]
            counts_id(final(data).discard@, f) == (counts_id(old(data).discard@, f) || (counts_id(
                discard@,
                f,
            ) && counted(f, resolvable@, old(data).vlog_retired@))),
        final(data).next_file_id == next_file_id,
        final(data).last_flushed_seqno == old(data).last_flushed_seqno,
        final(data).wal_floor == old(data).wal_floor,
        final(data).vlog_live == old(data).vlog_live,
        final(data).vlog_head == old(data).vlog_head,
        final(data).vlog_retired == old(data).vlog_retired,
        final(data).identity == old(data).identity,
        final(data).pending_fork == old(data).pending_fork,
        final(data).pins == old(data).pins,
{
    install_metas(&mut data.levels, job, output);
    if discard.len() > 0 {
        let mut map = data.discard_map();
        let ghost m0 = map@;
        add_found(&mut map, discard, resolvable, &data.vlog_retired);
        proof {
            assert forall|f: u64| #[trigger]
                count_of(map@, f) == count_after(
                    data.discard@,
                    discard@,
                    resolvable@,
                    data.vlog_retired@,
                    f,
                ) by {
                assert(count_of(m0, f) == count_of(data.discard@, f));
            }
            assert forall|f: u64| #[trigger]
                counts_id(map@, f) == (counts_id(data.discard@, f) || (counts_id(discard@, f)
                    && counted(f, resolvable@, data.vlog_retired@))) by {
                assert(counts_id(m0, f) == counts_id(data.discard@, f));
            }
        }
        data.discard = map;
    }
    data.next_file_id = next_file_id;
}

fn install_metas(levels: &mut Vec<Vec<RunMeta>>, job: &Job, output: &Option<Run>)
    requires
        job.level < old(levels)@.len(),
        job.target <= old(levels)@.len(),
        old(levels)@.len() < usize::MAX,
    ensures
        meta_levels(final(levels)@) == installed(
            meta_levels(old(levels)@),
            change_by_ids(change_of(*job, *output)),
        ),
{
    let ids = ids_of(&job.inputs);
    let ghost before = meta_levels(levels@);
    drop_metas(&mut levels[job.level], &ids);
    let ghost l1 = before.update(job.level as int, unlisted(before[job.level as int], ids@));
    assert(meta_levels(levels@) =~= l1);
    match &job.kind {
        JobKind::Tier => {
            if job.target == levels.len() {
                let fresh: Vec<RunMeta> = Vec::new();
                levels.push(fresh);
                assert(metas_over(fresh@) =~= Seq::empty());
                assert(meta_levels(levels@) =~= l1.push(Seq::empty()));
            }
            let ghost l2 = meta_levels(levels@);
            if let Some(run) = output {
                let mut tids: Vec<u64> = Vec::new();
                add_ids(&mut tids, &run.tables);
                assert(tids@ =~= table_ids(run.tables@));
                let meta = RunMeta { id: run.id, table_ids: tids };
                let ghost at = levels@[job.target as int]@;
                levels[job.target].insert(0, meta);
                proof {
                    let now = levels@[job.target as int]@;
                    assert(now == at.insert(0, meta));
                    assert(metas_over(now) =~= seq![meta_over(meta)] + metas_over(at));
                    assert(meta_levels(levels@) =~= l2.update(
                        job.target as int,
                        seq![meta_over(meta)] + l2[job.target as int],
                    ));
                }
            }
        },
        JobKind::BottomSplice { base_id, keep_left, keep_right, new_run_id } => {
            let mut base: Vec<u64> = Vec::new();
            base.push(*base_id);
            assert(base@ =~= seq![*base_id]);
            drop_metas(&mut levels[job.level], &base);
            let ghost rest = unlisted(l1[job.level as int], seq![*base_id]);
            assert(meta_levels(levels@) =~= l1.update(job.level as int, rest));
            let mut tids: Vec<u64> = Vec::new();
            add_ids(&mut tids, keep_left);
            if let Some(run) = output {
                add_ids(&mut tids, &run.tables);
            }
            add_ids(&mut tids, keep_right);
            proof {
                let mid = match output {
                    Some(run) => table_ids(run.tables@),
                    None => Seq::empty(),
                };
                assert(tids@ =~= table_ids(keep_left@) + mid + table_ids(keep_right@));
            }
            if tids.len() > 0 {
                let ghost at = levels@[job.level as int]@;
                let meta = RunMeta { id: *new_run_id, table_ids: tids };
                levels[job.level].push(meta);
                proof {
                    let now = levels@[job.level as int]@;
                    assert(now == at.push(meta));
                    assert(metas_over(now) =~= metas_over(at).push(meta_over(meta)));
                    assert(meta_levels(levels@) =~= l1.update(
                        job.level as int,
                        rest.push(meta_over(meta)),
                    ));
                }
            }
        },
    }
}

/// What a merge finds dead is counted once, for files that can still be
/// collected: a file's count grows by what was found in it, where it is one that
/// reads may go to and that was not collected already, and stays otherwise.
pub proof fn lemma_dead_is_counted(
    before: Seq<(u64, u64)>,
    found: Seq<(u64, u64)>,
    resolvable: Seq<u64>,
    retired: Seq<(u64, u64)>,
    f: u64,
)
    ensures
        count_after(before, found, resolvable, retired, f) >= count_of(before, f),
        !resolvable.contains(f) || (exists|i: int|
            0 <= i < retired.len() && (#[trigger] retired[i]).0 == f) || (forall|i: int|
            0 <= i < found.len() ==> (#[trigger] found[i]).0 != f) ==> count_after(
            before,
            found,
            resolvable,
            retired,
            f,
        ) == count_of(before, f),
        resolvable.contains(f) && (forall|i: int|
            0 <= i < retired.len() ==> (#[trigger] retired[i]).0 != f) && (exists|i: int|
            0 <= i < found.len() && (#[trigger] found[i]).0 == f) && count_of(before, f) + count_of(
            found,
            f,
        ) <= u64::MAX ==> count_after(before, found, resolvable, retired, f) == count_of(before, f)
            + count_of(found, f),
{
}

} // verus!
