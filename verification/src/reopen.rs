//! Opening tables by the manifest: each from the bytes of its file.

use std::sync::Arc;

use vstd::prelude::*;

use crate::error::{Error, Result};
use crate::manifest::{ManifestData, RunMeta};
use crate::order::to_bytes;
use crate::table::reader::Table;
use crate::version::{Run, TableHandle};

verus! {

use crate::install::{
    levels_by_ids, levels_over, meta_levels, meta_over, metas_over, runs_by_ids, runs_over,
    table_ids,
};
use crate::table::{p_table, table_sound};
use crate::types::SeqNo;
use crate::version::{
    fragments, lemma_same_tables_lookup, level_entries, levels_lookup, runs_entries, runs_lookup,
    same_tables,
};

pub open spec fn files_view(fs: Seq<(u64, Vec<u8>)>) -> Seq<(u64, Seq<u8>)> {
    fs.map_values(|f: (u64, Vec<u8>)| (f.0, f.1@))
}

/// The bytes of the file with that id, where it is there.
pub open spec fn fetched(fs: Seq<(u64, Seq<u8>)>, id: u64) -> Option<Seq<u8>>
    decreases fs.len(),
{
    if fs.len() == 0 {
        None
    } else if fs[0].0 == id {
        Some(fs[0].1)
    } else {
        fetched(fs.skip(1), id)
    }
}

pub fn find_fetched(files: &Vec<(u64, Vec<u8>)>, id: u64) -> (r: Option<Vec<u8>>)
    ensures
        match fetched(files_view(files@), id) {
            Some(d) => r matches Some(x) && x@ == d,
            None => r is None,
        },
{
    let ghost fs = files_view(files@);
    let mut i: usize = 0;
    assert(fs.skip(0) =~= fs);
    while i < files.len()
        invariant
            i <= files@.len(),
            fs == files_view(files@),
            fetched(fs, id) == fetched(fs.skip(i as int), id),
        decreases files@.len() - i,
    {
        assert(fs.skip(i as int)[0] == (files@[i as int].0, files@[i as int].1@));
        assert(fs.skip(i as int).skip(1) =~= fs.skip(i + 1));
        if files[i].0 == id {
            return Some(to_bytes(files[i].1.as_slice()));
        }
        i += 1;
    }
    None
}

/// The file of the table is there and opens.
pub open spec fn table_there(fs: Seq<(u64, Seq<u8>)>, id: u64) -> bool {
    fetched(fs, id) matches Some(data) && p_table(data) is Some
}

pub open spec fn run_there(fs: Seq<(u64, Seq<u8>)>, r: RunMeta) -> bool {
    forall|k: int| 0 <= k < r.table_ids@.len() ==> table_there(fs, #[trigger] r.table_ids@[k])
}

pub open spec fn level_there(fs: Seq<(u64, Seq<u8>)>, rs: Seq<RunMeta>) -> bool {
    forall|k: int| 0 <= k < rs.len() ==> run_there(fs, #[trigger] rs[k])
}

/// Every table that the manifest names is there and opens.
pub open spec fn all_there(fs: Seq<(u64, Seq<u8>)>, levels: Seq<Vec<RunMeta>>) -> bool {
    forall|l: int| 0 <= l < levels.len() ==> level_there(fs, (#[trigger] levels[l])@)
}

/// The handle is open on the file of the table.
pub open spec fn table_opened(fs: Seq<(u64, Seq<u8>)>, id: u64, h: TableHandle) -> bool {
    &&& h.id == id
    &&& h.size == h.table.bytes().len()
    &&& h.table.inv()
    &&& fetched(fs, id) == Some(h.table.bytes())
    &&& p_table(h.table.bytes()) == Some(h.table.model())
    &&& h.table.sound() == table_sound(h.table.bytes(), h.table.model())
}

pub open spec fn run_opened(fs: Seq<(u64, Seq<u8>)>, r: RunMeta, x: Run) -> bool {
    &&& x.id == r.id
    &&& x.tables@.len() == r.table_ids@.len()
    &&& forall|k: int|
        0 <= k < r.table_ids@.len() ==> table_opened(
            fs,
            r.table_ids@[k],
            *#[trigger] x.tables@[k],
        )
}

pub open spec fn level_opened(fs: Seq<(u64, Seq<u8>)>, rs: Seq<RunMeta>, xs: Seq<Run>) -> bool {
    &&& xs.len() == rs.len()
    &&& forall|k: int| 0 <= k < rs.len() ==> run_opened(fs, rs[k], #[trigger] xs[k])
}

/// The levels are those of the manifest, run for run and table for table.
pub open spec fn levels_opened(
    fs: Seq<(u64, Seq<u8>)>,
    levels: Seq<Vec<RunMeta>>,
    xs: Seq<Vec<Run>>,
) -> bool {
    &&& xs.len() == levels.len()
    &&& forall|l: int| 0 <= l < levels.len() ==> level_opened(fs, levels[l]@, (#[trigger] xs[l])@)
}

fn open_table(id: u64, files: &Vec<(u64, Vec<u8>)>) -> (r: Result<TableHandle>)
    ensures
        match r {
            Ok(h) => table_there(files_view(files@), id) && table_opened(files_view(files@), id, h),
            Err(e) => !table_there(files_view(files@), id) && (e is Corruption || e is Io),
        },
{
    let data = match find_fetched(files, id) {
        Some(d) => d,
        None => {
            return Err(Error::Io("table file is missing".to_string()));
        },
    };
    let size: u64 = data.len() as u64;
    let table = match Table::open(data, id) {
        Ok(t) => t,
        Err(e) => {
            return Err(e);
        },
    };
    Ok(TableHandle::new(id, String::new(), size, table))
}

fn open_run(r: &RunMeta, files: &Vec<(u64, Vec<u8>)>) -> (out: Result<Run>)
    ensures
        match out {
            Ok(x) => run_there(files_view(files@), *r) && run_opened(files_view(files@), *r, x),
            Err(e) => !run_there(files_view(files@), *r) && (e is Corruption || e is Io),
        },
{
    let ghost fs = files_view(files@);
    let mut tables: Vec<Arc<TableHandle>> = Vec::new();
    let mut i: usize = 0;
    while i < r.table_ids.len()
        invariant
            i <= r.table_ids@.len(),
            fs == files_view(files@),
            tables@.len() == i,
            forall|k: int|
                0 <= k < i ==> table_opened(fs, r.table_ids@[k], *#[trigger] tables@[k]),
            forall|k: int| 0 <= k < i ==> table_there(fs, #[trigger] r.table_ids@[k]),
        decreases r.table_ids@.len() - i,
    {
        match open_table(r.table_ids[i], files) {
            Ok(h) => {
                tables.push(Arc::new(h));
            },
            Err(e) => {
                assert(!table_there(fs, r.table_ids@[i as int]));
                return Err(e);
            },
        }
        i += 1;
    }
    Ok(Run { id: r.id, tables })
}

fn open_level(rs: &Vec<RunMeta>, files: &Vec<(u64, Vec<u8>)>) -> (out: Result<Vec<Run>>)
    ensures
        match out {
            Ok(x) => level_there(files_view(files@), rs@) && level_opened(
                files_view(files@),
                rs@,
                x@,
            ),
            Err(e) => !level_there(files_view(files@), rs@) && (e is Corruption || e is Io),
        },
{
    let ghost fs = files_view(files@);
    let mut runs: Vec<Run> = Vec::new();
    let mut i: usize = 0;
    while i < rs.len()
        invariant
            i <= rs@.len(),
            fs == files_view(files@),
            runs@.len() == i,
            forall|k: int| 0 <= k < i ==> run_opened(fs, rs@[k], #[trigger] runs@[k]),
            forall|k: int| 0 <= k < i ==> run_there(fs, #[trigger] rs@[k]),
        decreases rs@.len() - i,
    {
        match open_run(&rs[i], files) {
            Ok(x) => {
                runs.push(x);
            },
            Err(e) => {
                assert(!run_there(fs, rs@[i as int]));
                return Err(e);
            },
        }
        i += 1;
    }
    Ok(runs)
}

/// The tree that the manifest describes, opened from the files.
pub fn open_levels(data: &ManifestData, files: &Vec<(u64, Vec<u8>)>) -> (out: Result<Vec<Vec<Run>>>)
    ensures
        match out {
            Ok(x) => all_there(files_view(files@), data.levels@) && levels_opened(
                files_view(files@),
                data.levels@,
                x@,
            ),
            Err(e) => !all_there(files_view(files@), data.levels@) && (e is Corruption || e is Io),
        },
{
    let ghost fs = files_view(files@);
    let mut levels: Vec<Vec<Run>> = Vec::new();
    let mut i: usize = 0;
    while i < data.levels.len()
        invariant
            i <= data.levels@.len(),
            fs == files_view(files@),
            levels@.len() == i,
            forall|l: int|
                0 <= l < i ==> level_opened(fs, data.levels@[l]@, (#[trigger] levels@[l])@),
            forall|l: int| 0 <= l < i ==> level_there(fs, (#[trigger] data.levels@[l])@),
        decreases data.levels@.len() - i,
    {
        match open_level(&data.levels[i], files) {
            Ok(x) => {
                levels.push(x);
            },
            Err(e) => {
                assert(!level_there(fs, data.levels@[i as int]@));
                return Err(e);
            },
        }
        i += 1;
    }
    Ok(levels)
}

// ---------------------------------------------------------------------------
// What was written comes back
// ---------------------------------------------------------------------------

/// The table's bytes are in its file, and it is what they parse to.
pub open spec fn stored(fs: Seq<(u64, Seq<u8>)>, h: TableHandle) -> bool {
    &&& fetched(fs, h.id) == Some(h.table.bytes())
    &&& p_table(h.table.bytes()) == Some(h.table.model())
    &&& h.table.sound() == table_sound(h.table.bytes(), h.table.model())
}

pub open spec fn all_stored(fs: Seq<(u64, Seq<u8>)>, levels: Seq<Vec<Run>>) -> bool {
    forall|l: int, k: int, t: int|
        0 <= l < levels.len() && 0 <= k < levels[l]@.len() && 0 <= t
            < levels[l]@[k].tables@.len() ==> stored(fs, *#[trigger] levels[l]@[k].tables@[t])
}

proof fn lemma_reopened_run(fs: Seq<(u64, Seq<u8>)>, m: RunMeta, before: Run, after: Run)
    requires
        m.table_ids@ == table_ids(before.tables@),
        run_opened(fs, m, after),
        forall|t: int| 0 <= t < before.tables@.len() ==> stored(fs, *#[trigger] before.tables@[t]),
    ensures
        after.entries() == before.entries(),
        same_tables(after.tables@, before.tables@),
{
    let a = fragments(after.tables@);
    let b = fragments(before.tables@);
    assert forall|t: int| 0 <= t < b.len() implies a[t] == b[t] by {
        let h = *before.tables@[t];
        assert(stored(fs, h));
        assert(m.table_ids@[t] == h.id);
        assert(table_opened(fs, m.table_ids@[t], *after.tables@[t]));
    }
    assert(a =~= b);
}

proof fn lemma_reopened_levels(
    fs: Seq<(u64, Seq<u8>)>,
    meta: Seq<Vec<RunMeta>>,
    before: Seq<Vec<Run>>,
    after: Seq<Vec<Run>>,
    n: nat,
)
    requires
        meta_levels(meta) == levels_by_ids(levels_over(before)),
        all_stored(fs, before),
        levels_opened(fs, meta, after),
        n <= before.len(),
    ensures
        level_entries(after, n) == level_entries(before, n),
    decreases n,
{
    if n > 0 {
        lemma_reopened_levels(fs, meta, before, after, (n - 1) as nat);
        let l = n - 1;
        assert(meta.len() == meta_levels(meta).len());
        assert(before.len() == levels_by_ids(levels_over(before)).len());
        assert(meta_levels(meta)[l] == metas_over(meta[l]@));
        assert(levels_by_ids(levels_over(before))[l] == runs_by_ids(runs_over(before[l]@)));
        assert(level_opened(fs, meta[l]@, after[l]@));
        let ms = metas_over(meta[l]@);
        let bs = runs_by_ids(runs_over(before[l]@));
        assert(ms.len() == bs.len());
        assert forall|k: int| 0 <= k < before[l]@.len() implies after[l]@[k].entries()
            == before[l]@[k].entries() by {
            assert(ms[k] == bs[k]);
            assert(ms[k] == meta_over(meta[l]@[k]));
            assert(meta[l]@[k].table_ids@ == table_ids(before[l]@[k].tables@));
            assert(run_opened(fs, meta[l]@[k], after[l]@[k]));
            lemma_reopened_run(fs, meta[l]@[k], before[l]@[k], after[l]@[k]);
        }
        assert(runs_entries(after[l]@) =~= runs_entries(before[l]@));
    }
}

proof fn lemma_same_runs_lookup(a: Seq<Run>, b: Seq<Run>, n: int, uk: Seq<u8>, seq: SeqNo)
    requires
        0 <= n <= a.len(),
        a.len() == b.len(),
        forall|k: int| 0 <= k < a.len() ==> same_tables((#[trigger] a[k]).tables@, b[k].tables@),
    ensures
        runs_lookup(a, n, uk, seq) == runs_lookup(b, n, uk, seq),
    decreases n,
{
    if n > 0 {
        lemma_same_runs_lookup(a, b, n - 1, uk, seq);
        assert(same_tables(a[n - 1].tables@, b[n - 1].tables@));
        lemma_same_tables_lookup(a[n - 1].tables@, b[n - 1].tables@, uk, seq);
    }
}

/// A reopened tree is looked up in as the one that was written, damage and
/// all.
pub proof fn lemma_reopened_lookup(
    fs: Seq<(u64, Seq<u8>)>,
    meta: Seq<Vec<RunMeta>>,
    before: Seq<Vec<Run>>,
    after: Seq<Vec<Run>>,
    n: int,
    uk: Seq<u8>,
    seq: SeqNo,
)
    requires
        meta_levels(meta) == levels_by_ids(levels_over(before)),
        all_stored(fs, before),
        levels_opened(fs, meta, after),
        0 <= n <= before.len(),
    ensures
        before.len() == after.len(),
        levels_lookup(after, n, uk, seq) == levels_lookup(before, n, uk, seq),
    decreases n,
{
    assert(meta.len() == meta_levels(meta).len());
    assert(before.len() == levels_by_ids(levels_over(before)).len());
    if n > 0 {
        lemma_reopened_lookup(fs, meta, before, after, n - 1, uk, seq);
        let l = n - 1;
        assert(meta_levels(meta)[l] == metas_over(meta[l]@));
        assert(levels_by_ids(levels_over(before))[l] == runs_by_ids(runs_over(before[l]@)));
        assert(level_opened(fs, meta[l]@, after[l]@));
        let ms = metas_over(meta[l]@);
        let bs = runs_by_ids(runs_over(before[l]@));
        assert(ms.len() == bs.len());
        assert forall|k: int| 0 <= k < after[l]@.len() implies same_tables(
            (#[trigger] after[l]@[k]).tables@,
            before[l]@[k].tables@,
        ) by {
            assert(ms[k] == bs[k]);
            assert(ms[k] == meta_over(meta[l]@[k]));
            assert(meta[l]@[k].table_ids@ == table_ids(before[l]@[k].tables@));
            assert(run_opened(fs, meta[l]@[k], after[l]@[k]));
            lemma_reopened_run(fs, meta[l]@[k], before[l]@[k], after[l]@[k]);
        }
        lemma_same_runs_lookup(after[l]@, before[l]@, after[l]@.len() as int, uk, seq);
    }
}

/// A reopened tree is the one that was written: where the manifest names the
/// tables of a tree and their files hold them, opening it gives the same
/// entries in the same places.
pub proof fn lemma_reopened_tree_is_the_same(
    fs: Seq<(u64, Seq<u8>)>,
    meta: Seq<Vec<RunMeta>>,
    before: Seq<Vec<Run>>,
    after: Seq<Vec<Run>>,
)
    requires
        meta_levels(meta) == levels_by_ids(levels_over(before)),
        all_stored(fs, before),
        levels_opened(fs, meta, after),
    ensures
        level_entries(after, after.len()) == level_entries(before, before.len()),
{
    assert(meta.len() == meta_levels(meta).len());
    assert(before.len() == levels_by_ids(levels_over(before)).len());
    lemma_reopened_levels(fs, meta, before, after, before.len());
}

// ---------------------------------------------------------------------------
// What opening deletes
// ---------------------------------------------------------------------------

/// The table files that are left once opening has deleted what it deletes.
pub open spec fn left_files(fs: Seq<(u64, Seq<u8>)>, data: ManifestData, gen: u64) -> Seq<
    (u64, Seq<u8>),
> {
    fs.filter(
        |f: (u64, Seq<u8>)| !crate::recovery::is_garbage(
            data,
            gen,
            crate::recovery::kind_of_name(crate::config::table_file(f.0)),
        ),
    )
}

/// A file that stays is found as before.
proof fn lemma_left_is_found(fs: Seq<(u64, Seq<u8>)>, keep: spec_fn((u64, Seq<u8>)) -> bool, id: u64)
    requires
        forall|d: Seq<u8>| #[trigger] keep((id, d)),
    ensures
        fetched(fs.filter(keep), id) == fetched(fs, id),
    decreases fs.len(),
{
    reveal(Seq::filter);
    if fs.len() > 0 {
        let one = seq![fs[0]];
        let rest = fs.skip(1);
        lemma_left_is_found(rest, keep, id);
        assert(fs =~= one + rest);
        Seq::filter_distributes_over_add(one, rest, keep);
        assert(one.drop_last() =~= Seq::empty());
        let all = fs.filter(keep);
        if keep(fs[0]) {
            assert(one.filter(keep) =~= one);
            assert(all =~= one + rest.filter(keep));
            assert(all.skip(1) =~= rest.filter(keep));
        } else {
            assert(one.drop_last().filter(keep) =~= Seq::empty());
            assert(one.last() == fs[0]);
            assert(one.filter(keep) =~= Seq::empty());
            assert(all =~= rest.filter(keep));
            assert(keep((fs[0].0, fs[0].1)) == keep(fs[0]));
        }
    }
}

/// Opening deletes no table that the next open needs: the tree that the manifest
/// describes opens from the files that are left exactly as it did from all of
/// them, and every table file that is left is one that some run names.
#[verifier::rlimit(50)]
pub proof fn lemma_startup_keeps_the_tree(
    fs: Seq<(u64, Seq<u8>)>,
    data: ManifestData,
    gen: u64,
    levels: Seq<Vec<Run>>,
)
    ensures
        levels_opened(fs, data.levels@, levels) ==> levels_opened(
            left_files(fs, data, gen),
            data.levels@,
            levels,
        ),
        all_there(fs, data.levels@) ==> all_there(left_files(fs, data, gen), data.levels@),
        forall|id: u64, d: Seq<u8>| #[trigger]
            left_files(fs, data, gen).contains((id, d)) ==> exists|l: int, r: int|
                0 <= l < data.levels@.len() && 0 <= r < data.levels@[l]@.len() && (
                #[trigger] data.levels@[l]@[r]).table_ids@.contains(id),
{
    let keep = |f: (u64, Seq<u8>)|
        !crate::recovery::is_garbage(
            data,
            gen,
            crate::recovery::kind_of_name(crate::config::table_file(f.0)),
        );
    let left = left_files(fs, data, gen);
    assert forall|l: int, r: int, k: int|
        0 <= l < data.levels@.len() && 0 <= r < data.levels@[l]@.len() && 0 <= k
            < data.levels@[l]@[r].table_ids@.len() implies fetched(
        left,
        #[trigger] data.levels@[l]@[r].table_ids@[k],
    ) == fetched(fs, data.levels@[l]@[r].table_ids@[k]) by {
        let id = data.levels@[l]@[r].table_ids@[k];
        assert(data.levels@[l]@[r].table_ids@.contains(id));
        assert forall|d: Seq<u8>| #[trigger] keep((id, d)) by {
            crate::recovery::lemma_startup_deletes(data, gen, crate::config::table_file(id));
        }
        lemma_left_is_found(fs, keep, id);
    }
    if levels_opened(fs, data.levels@, levels) {
        assert forall|l: int| 0 <= l < data.levels@.len() implies level_opened(
            left,
            data.levels@[l]@,
            (#[trigger] levels[l])@,
        ) by {
            assert(level_opened(fs, data.levels@[l]@, levels[l]@));
            assert forall|r: int| 0 <= r < data.levels@[l]@.len() implies run_opened(
                left,
                data.levels@[l]@[r],
                #[trigger] levels[l]@[r],
            ) by {
                let m = data.levels@[l]@[r];
                assert(run_opened(fs, m, levels[l]@[r]));
                assert forall|k: int| 0 <= k < m.table_ids@.len() implies table_opened(
                    left,
                    m.table_ids@[k],
                    *#[trigger] levels[l]@[r].tables@[k],
                ) by {
                    assert(table_opened(fs, m.table_ids@[k], *levels[l]@[r].tables@[k]));
                    assert(fetched(left, data.levels@[l]@[r].table_ids@[k]) == fetched(
                        fs,
                        m.table_ids@[k],
                    ));
                }
            }
        }
    }
    if all_there(fs, data.levels@) {
        assert forall|l: int| 0 <= l < data.levels@.len() implies level_there(
            left,
            (#[trigger] data.levels@[l])@,
        ) by {
            assert(level_there(fs, data.levels@[l]@));
            assert forall|r: int| 0 <= r < data.levels@[l]@.len() implies run_there(
                left,
                #[trigger] data.levels@[l]@[r],
            ) by {
                assert(run_there(fs, data.levels@[l]@[r]));
                assert forall|k: int|
                    0 <= k < data.levels@[l]@[r].table_ids@.len() implies table_there(
                    left,
                    #[trigger] data.levels@[l]@[r].table_ids@[k],
                ) by {
                    assert(table_there(fs, data.levels@[l]@[r].table_ids@[k]));
                }
            }
        }
    }
    assert forall|id: u64, d: Seq<u8>| #[trigger] left.contains((id, d)) implies exists|
        l: int,
        r: int,
    |
        0 <= l < data.levels@.len() && 0 <= r < data.levels@[l]@.len() && (
        #[trigger] data.levels@[l]@[r]).table_ids@.contains(id) by {
        let i = choose|i: int| 0 <= i < left.len() && left[i] == (id, d);
        fs.lemma_filter_pred(keep, i);
        assert(keep(left[i]));
        crate::recovery::lemma_startup_deletes(data, gen, crate::config::table_file(id));
    }
}

/// A tree that was written opens: where the manifest names its tables and their
/// files hold them, none is missing.
pub proof fn lemma_written_tree_opens(
    fs: Seq<(u64, Seq<u8>)>,
    meta: Seq<Vec<RunMeta>>,
    before: Seq<Vec<Run>>,
)
    requires
        meta_levels(meta) == levels_by_ids(levels_over(before)),
        all_stored(fs, before),
    ensures
        all_there(fs, meta),
{
    let ms = meta_levels(meta);
    let bs = levels_by_ids(levels_over(before));
    assert forall|l: int| 0 <= l < meta.len() implies level_there(fs, (#[trigger] meta[l])@) by {
        assert(ms.len() == bs.len() && ms[l] == bs[l]);
        assert(ms[l] == metas_over(meta[l]@));
        assert(bs[l] == runs_by_ids(runs_over(before[l]@)));
        assert(ms[l].len() == bs[l].len());
        assert forall|r: int| 0 <= r < meta[l]@.len() implies run_there(
            fs,
            #[trigger] meta[l]@[r],
        ) by {
            assert(ms[l][r] == meta_over(meta[l]@[r]));
            assert(bs[l][r].tables == table_ids(before[l]@[r].tables@));
            assert forall|k: int| 0 <= k < meta[l]@[r].table_ids@.len() implies table_there(
                fs,
                #[trigger] meta[l]@[r].table_ids@[k],
            ) by {
                assert(meta[l]@[r].table_ids@[k] == before[l]@[r].tables@[k].id);
                assert(stored(fs, *before[l]@[r].tables@[k]));
            }
        }
    }
}

} // verus!
