//! What a scan reads: of each run only the blocks that may hold keys of the
//! range.

use std::sync::Arc;

use vstd::prelude::*;

use crate::block::{Block, BlockIter};
use crate::error::Result;
use crate::iter::ConcatIter;
use crate::memtable::Memtable;
use crate::order::{bytes_lt, to_bytes};
use crate::table::reader::TableIter;
use crate::types::ikey_ukey;
use crate::version::{Child, Run, TableHandle, Version};

verus! {

use crate::block::{block_entries, block_ok};
use crate::iter::{
    dir_before, dir_sorted, flat, in_some, lemma_flat_at, lemma_flat_find, lemma_merged,
    lemma_part_start_monotone, mergeable, merged, part_start, parts_of, sorted, InternalIterator,
    Kv,
};
use crate::mvcc::{in_range, lemma_same_members, newest, opt_view, scan, scan_upto, visible};
use crate::order::{
    lemma_lex_irreflexive, lemma_lex_total, lemma_lex_transitive, lex_le, lex_lt,
};
use crate::shape::{max_of, min_of};
use crate::splice::{entries_of, lemma_in_tables, lemma_le_le, lemma_le_lt, lemma_lt_le, lemma_table_range};
use crate::table::{block_reads, part_at, TableModel};
use crate::types::{ikey_before, is_ikey, ukey_of};
use crate::version::{fragments, fragments_intact, fragments_open, in_tree, listed};

/// A table that may hold keys of `[lo, hi)`.
pub open spec fn in_reach(t: Arc<TableHandle>, lo: Seq<u8>, hi: Option<Seq<u8>>) -> bool {
    !lex_lt(max_of(t), lo) && (hi matches Some(h) ==> lex_lt(min_of(t), h))
}

pub open spec fn model_of(t: Arc<TableHandle>) -> TableModel {
    t.table.model()
}

/// The least user key that block `k` may hold.
pub open spec fn block_floor(m: TableModel, k: int) -> Seq<u8> {
    if k <= 0 {
        ukey_of(m.stats.first_ikey)
    } else {
        ukey_of(m.index[k - 1].last)
    }
}

/// The greatest user key that block `k` may hold.
pub open spec fn block_ceiling(m: TableModel, k: int) -> Seq<u8> {
    ukey_of(m.index[k].last)
}

/// Block `k` may hold keys of the range.
pub open spec fn block_in_reach(m: TableModel, k: int, lo: Seq<u8>, hi: Option<Seq<u8>>) -> bool {
    !lex_lt(block_ceiling(m, k), lo) && (hi matches Some(h) ==> lex_lt(block_floor(m, k), h))
}

/// A block of a table of a run, by their numbers.
pub struct Place {
    pub t: int,
    pub k: int,
}

/// The blocks of table `t` among its first `n` that may hold keys of the range,
/// in order.
pub open spec fn table_places(
    m: TableModel,
    t: int,
    n: int,
    lo: Seq<u8>,
    hi: Option<Seq<u8>>,
) -> Seq<Place>
    decreases n,
{
    if n <= 0 {
        Seq::empty()
    } else {
        let before = table_places(m, t, n - 1, lo, hi);
        if block_in_reach(m, n - 1, lo, hi) {
            before.push(Place { t, k: n - 1 })
        } else {
            before
        }
    }
}

/// The blocks of the first `n` tables that may hold keys of the range, in order.
pub open spec fn run_places(
    ts: Seq<Arc<TableHandle>>,
    n: int,
    lo: Seq<u8>,
    hi: Option<Seq<u8>>,
) -> Seq<Place>
    decreases n,
{
    if n <= 0 {
        Seq::empty()
    } else {
        let before = run_places(ts, n - 1, lo, hi);
        if in_reach(ts[n - 1], lo, hi) {
            before + all_places(ts, n - 1, lo, hi)
        } else {
            before
        }
    }
}

pub open spec fn all_places(
    ts: Seq<Arc<TableHandle>>,
    t: int,
    lo: Seq<u8>,
    hi: Option<Seq<u8>>,
) -> Seq<Place> {
    table_places(ts[t].table.model(), t, ts[t].table.model().index.len() as int, lo, hi)
}

/// The entries of the block at the place.
pub open spec fn part_of_place(ts: Seq<Arc<TableHandle>>, p: Place) -> Seq<Kv> {
    part_at(ts[p.t].table.bytes(), ts[p.t].table.model(), p.k)
}

pub open spec fn parts_of_places(ts: Seq<Arc<TableHandle>>, ps: Seq<Place>) -> Seq<Seq<Kv>> {
    ps.map_values(|p: Place| part_of_place(ts, p))
}

/// The entries of the run's blocks that may hold keys of the range.
pub open spec fn reached(ts: Seq<Arc<TableHandle>>, lo: Seq<u8>, hi: Option<Seq<u8>>) -> Seq<Kv> {
    flat(parts_of_places(ts, run_places(ts, ts.len() as int, lo, hi)))
}

/// The block at the place can be read.
pub open spec fn place_reads(ts: Seq<Arc<TableHandle>>, p: Place) -> bool {
    block_reads(ts[p.t].table.bytes(), ts[p.t].table.model(), p.k)
}

/// The place is one of a table and a block that may hold keys of the range.
pub open spec fn place_in_reach(
    ts: Seq<Arc<TableHandle>>,
    p: Place,
    lo: Seq<u8>,
    hi: Option<Seq<u8>>,
) -> bool {
    &&& 0 <= p.t < ts.len()
    &&& 0 <= p.k < ts[p.t].table.model().index.len()
    &&& in_reach(ts[p.t], lo, hi)
    &&& block_in_reach(ts[p.t].table.model(), p.k, lo, hi)
}

pub open spec fn place_before(p: Place, q: Place) -> bool {
    p.t < q.t || (p.t == q.t && p.k < q.k)
}

/// Every block of the run that may hold keys of the range can be read.
pub open spec fn run_reads(ts: Seq<Arc<TableHandle>>, lo: Seq<u8>, hi: Option<Seq<u8>>) -> bool {
    forall|p: Place| #[trigger] place_in_reach(ts, p, lo, hi) ==> place_reads(ts, p)
}

/// No block of the tree that may hold keys of the range is damaged.
pub open spec fn range_sound(v: Version, lo: Seq<u8>, hi: Option<Seq<u8>>) -> bool {
    forall|l: int, k: int|
        0 <= l < v.levels@.len() && 0 <= k < v.levels@[l]@.len() ==> run_reads(
            (#[trigger] v.levels@[l]@[k]).tables@,
            lo,
            hi,
        )
}

proof fn lemma_table_places(
    m: TableModel,
    t: int,
    n: int,
    lo: Seq<u8>,
    hi: Option<Seq<u8>>,
    x: int,
)
    requires
        0 <= x < table_places(m, t, n, lo, hi).len(),
    ensures
        ({
            let p = table_places(m, t, n, lo, hi)[x];
            p.t == t && 0 <= p.k < n && block_in_reach(m, p.k, lo, hi)
        }),
        forall|y: int|
            0 <= y < x ==> (#[trigger] table_places(m, t, n, lo, hi)[y]).k < table_places(
                m,
                t,
                n,
                lo,
                hi,
            )[x].k,
    decreases n,
{
    let before = table_places(m, t, n - 1, lo, hi);
    if x < before.len() {
        lemma_table_places(m, t, n - 1, lo, hi, x);
        let all = table_places(m, t, n, lo, hi);
        assert forall|y: int| 0 <= y < x implies (#[trigger] all[y]).k < all[x].k by {
            assert(all[y] == before[y]);
            assert(before[y].k < before[x].k);
        }
    } else {
        let all = table_places(m, t, n, lo, hi);
        assert forall|y: int| 0 <= y < x implies (#[trigger] all[y]).k < all[x].k by {
            assert(all[y] == before[y]);
            lemma_table_places(m, t, n - 1, lo, hi, y);
        }
    }
}

proof fn lemma_table_place_of(
    m: TableModel,
    t: int,
    n: int,
    lo: Seq<u8>,
    hi: Option<Seq<u8>>,
    k: int,
) -> (x: int)
    requires
        0 <= k < n,
        block_in_reach(m, k, lo, hi),
    ensures
        0 <= x < table_places(m, t, n, lo, hi).len(),
        table_places(m, t, n, lo, hi)[x] == (Place { t, k }),
    decreases n,
{
    if k == n - 1 {
        table_places(m, t, n - 1, lo, hi).len() as int
    } else {
        lemma_table_place_of(m, t, n - 1, lo, hi, k)
    }
}

/// What is listed is in reach, and in order.
proof fn lemma_run_places(
    ts: Seq<Arc<TableHandle>>,
    n: int,
    lo: Seq<u8>,
    hi: Option<Seq<u8>>,
    x: int,
)
    requires
        0 <= n <= ts.len(),
        0 <= x < run_places(ts, n, lo, hi).len(),
    ensures
        place_in_reach(ts, run_places(ts, n, lo, hi)[x], lo, hi),
        run_places(ts, n, lo, hi)[x].t < n,
        forall|y: int|
            0 <= y < x ==> place_before(
                #[trigger] run_places(ts, n, lo, hi)[y],
                run_places(ts, n, lo, hi)[x],
            ),
    decreases n,
{
    let before = run_places(ts, n - 1, lo, hi);
    let all = run_places(ts, n, lo, hi);
    if x < before.len() {
        lemma_run_places(ts, n - 1, lo, hi, x);
        assert forall|y: int| 0 <= y < x implies place_before(#[trigger] all[y], all[x]) by {
            assert(all[y] == before[y]);
            assert(all[x] == before[x]);
            assert(place_before(before[y], before[x]));
        }
    } else {
        let m = model_of(ts[n - 1]);
        let own = all_places(ts, n - 1, lo, hi);
        let z = x - before.len();
        lemma_table_places(m, n - 1, m.index.len() as int, lo, hi, z);
        assert(all[x] == own[z]);
        assert forall|y: int| 0 <= y < x implies place_before(#[trigger] all[y], all[x]) by {
            if y < before.len() {
                lemma_run_places(ts, n - 1, lo, hi, y);
                assert(all[y] == before[y]);
                assert(before[y].t < n - 1);
            } else {
                let w = y - before.len();
                lemma_table_places(m, n - 1, m.index.len() as int, lo, hi, w);
                assert(all[y] == own[w]);
                assert(own[w].k < own[z].k);
            }
        }
    }
}

/// Everything in reach is listed.
proof fn lemma_place_listed(
    ts: Seq<Arc<TableHandle>>,
    n: int,
    lo: Seq<u8>,
    hi: Option<Seq<u8>>,
    p: Place,
) -> (x: int)
    requires
        0 <= n <= ts.len(),
        place_in_reach(ts, p, lo, hi),
        p.t < n,
    ensures
        0 <= x < run_places(ts, n, lo, hi).len(),
        run_places(ts, n, lo, hi)[x] == p,
    decreases n,
{
    let before = run_places(ts, n - 1, lo, hi);
    if p.t == n - 1 {
        let m = model_of(ts[n - 1]);
        let z = lemma_table_place_of(m, n - 1, m.index.len() as int, lo, hi, p.k);
        assert(run_places(ts, n, lo, hi)[before.len() + z] == p);
        before.len() + z
    } else {
        lemma_place_listed(ts, n - 1, lo, hi, p)
    }
}

// ---------------------------------------------------------------------------
// The entries in reach
// ---------------------------------------------------------------------------

/// Where an entry in reach comes from.
proof fn lemma_reached_from(
    ts: Seq<Arc<TableHandle>>,
    lo: Seq<u8>,
    hi: Option<Seq<u8>>,
    x: int,
) -> (r: (int, int, int))
    requires
        fragments_intact(ts),
        0 <= x < reached(ts, lo, hi).len(),
    ensures
        ({
            let ps = run_places(ts, ts.len() as int, lo, hi);
            let parts = parts_of_places(ts, ps);
            let (q, i, y) = r;
            &&& 0 <= q < ps.len()
            &&& i == x - part_start(parts, q)
            &&& 0 <= i < parts[q].len()
            &&& part_start(parts, q) <= x < part_start(parts, q + 1)
            &&& reached(ts, lo, hi)[x] == parts[q][i]
            &&& parts[q] == part_of_place(ts, ps[q])
            &&& place_in_reach(ts, ps[q], lo, hi)
            &&& 0 <= y < ts[ps[q].t].table.entries().len()
            &&& ts[ps[q].t].table.entries()[y] == parts[q][i]
        }),
{
    let ps = run_places(ts, ts.len() as int, lo, hi);
    let parts = parts_of_places(ts, ps);
    let q = lemma_flat_find(parts, x);
    lemma_flat_at(parts, q);
    lemma_run_places(ts, ts.len() as int, lo, hi, q);
    let i = x - part_start(parts, q);
    assert(parts[q] == part_of_place(ts, ps[q]));
    let y = ts[ps[q].t].table.lemma_part_entry(ps[q].k, i);
    (q, i, y)
}

/// The entries in reach are in order.
pub proof fn lemma_reached_sorted(ts: Seq<Arc<TableHandle>>, lo: Seq<u8>, hi: Option<Seq<u8>>)
    requires
        fragments_intact(ts),
    ensures
        sorted(reached(ts, lo, hi)),
{
    let es = reached(ts, lo, hi);
    let ps = run_places(ts, ts.len() as int, lo, hi);
    let parts = parts_of_places(ts, ps);
    assert forall|x: int| 0 <= x < es.len() implies is_ikey(#[trigger] es[x].key) by {
        let (q, i, y) = lemma_reached_from(ts, lo, hi, x);
        lemma_entry_is_ikey(ts, ps[q].t, y);
    }
    assert forall|x: int, y: int| 0 <= x < y < es.len() implies ikey_before(
        #[trigger] es[x].key,
        #[trigger] es[y].key,
    ) by {
        let (q, i, a) = lemma_reached_from(ts, lo, hi, x);
        let (r, j, b) = lemma_reached_from(ts, lo, hi, y);
        if r < q {
            lemma_part_start_monotone(parts, r + 1, q);
        }
        if q < r {
            lemma_run_places(ts, ts.len() as int, lo, hi, r);
            assert(place_before(ps[q], ps[r]));
        }
        let s = ps[q].t;
        let t = ps[r].t;
        if s < t {
            assert(ts[s].table.intact() && ts[t].table.intact());
            lemma_table_range(ts[s], a);
            lemma_table_range(ts[t], b);
            assert(lex_lt(max_of(ts[s]), min_of(ts[t])));
            lemma_le_lt(ukey_of(es[x].key), max_of(ts[s]), min_of(ts[t]));
            lemma_lt_le(ukey_of(es[x].key), min_of(ts[t]), ukey_of(es[y].key));
        } else {
            assert(ts[s].table.intact());
            ts[s].table.lemma_blocks_ordered(ps[q].k, i, ps[r].k, j);
        }
    }
}

proof fn lemma_entry_is_ikey(ts: Seq<Arc<TableHandle>>, t: int, y: int)
    requires
        fragments_intact(ts),
        0 <= t < ts.len(),
        0 <= y < ts[t].table.entries().len(),
    ensures
        is_ikey(ts[t].table.entries()[y].key),
{
    assert(ts[t].table.intact());
    ts[t].table.lemma_intact();
}

/// The entries in reach are entries of the run, and all of them that lie in the
/// range.
pub proof fn lemma_reached_entries(
    ts: Seq<Arc<TableHandle>>,
    lo: Seq<u8>,
    hi: Option<Seq<u8>>,
    kv: Kv,
)
    requires
        fragments_intact(ts),
    ensures
        reached(ts, lo, hi).contains(kv) ==> flat(fragments(ts)).contains(kv),
        flat(fragments(ts)).contains(kv) && in_range(ukey_of(kv.key), lo, hi) ==> reached(
            ts,
            lo,
            hi,
        ).contains(kv),
{
    let es = reached(ts, lo, hi);
    let ps = run_places(ts, ts.len() as int, lo, hi);
    if es.contains(kv) {
        let x = choose|x: int| 0 <= x < es.len() && es[x] == kv;
        let (q, i, y) = lemma_reached_from(ts, lo, hi, x);
        lemma_table_entry(ts, ps[q].t, y);
    }
    if flat(fragments(ts)).contains(kv) && in_range(ukey_of(kv.key), lo, hi) {
        let x = choose|x: int| 0 <= x < flat(fragments(ts)).len() && flat(fragments(ts))[x] == kv;
        let (t, y) = lemma_in_tables(ts, x);
        assert(ts[t].table.intact());
        let (k, i) = ts[t].table.lemma_entry_bounds(y);
        let p = Place { t, k };
        lemma_entry_in_reach(ts, p, lo, hi, y);
        let q = lemma_place_listed(ts, ts.len() as int, lo, hi, p);
        let parts = parts_of_places(ts, ps);
        assert(parts[q] == part_of_place(ts, p));
        lemma_flat_at(parts, q);
        assert(es[part_start(parts, q) + i] == parts[q][i]);
    }
}

/// A block that holds a key of the range is in reach, and so is its table.
proof fn lemma_entry_in_reach(
    ts: Seq<Arc<TableHandle>>,
    p: Place,
    lo: Seq<u8>,
    hi: Option<Seq<u8>>,
    y: int,
)
    requires
        fragments_intact(ts),
        0 <= p.t < ts.len(),
        0 <= y < ts[p.t].table.entries().len(),
        0 <= p.k < ts[p.t].table.model().index.len(),
        in_range(ukey_of(ts[p.t].table.entries()[y].key), lo, hi),
        lex_le(
            block_floor(ts[p.t].table.model(), p.k),
            ukey_of(ts[p.t].table.entries()[y].key),
        ),
        lex_le(
            ukey_of(ts[p.t].table.entries()[y].key),
            block_ceiling(ts[p.t].table.model(), p.k),
        ),
    ensures
        place_in_reach(ts, p, lo, hi),
{
    let m = model_of(ts[p.t]);
    let uk = ukey_of(entries_of(ts[p.t])[y].key);
    assert(ts[p.t].table.intact());
    lemma_table_range(ts[p.t], y);
    lemma_not_below(uk, max_of(ts[p.t]), lo);
    lemma_not_below(uk, block_ceiling(m, p.k), lo);
    if let Some(h) = hi {
        lemma_le_lt(min_of(ts[p.t]), uk, h);
        lemma_le_lt(block_floor(m, p.k), uk, h);
    }
}

/// What is at or above a key at or above `lo` is not below it.
proof fn lemma_not_below(uk: Seq<u8>, top: Seq<u8>, lo: Seq<u8>)
    requires
        lex_le(lo, uk),
        lex_le(uk, top),
    ensures
        !lex_lt(top, lo),
{
    if lex_lt(top, lo) {
        lemma_le_lt(uk, top, lo);
        lemma_lt_le(uk, lo, uk);
        lemma_lex_irreflexive(uk);
    }
}

proof fn lemma_table_entry(ts: Seq<Arc<TableHandle>>, k: int, i: int)
    requires
        0 <= k < ts.len(),
        0 <= i < ts[k].table.entries().len(),
    ensures
        flat(fragments(ts)).contains(ts[k].table.entries()[i]),
{
    let parts = fragments(ts);
    assert(parts[k] == entries_of(ts[k]));
    lemma_flat_at(parts, k);
    let x = part_start(parts, k) + i;
    assert(flat(parts)[x] == parts[k][i]);
}

// ---------------------------------------------------------------------------
// Scans of a part of the sources
// ---------------------------------------------------------------------------

/// The entries of the range, in order.
pub open spec fn within(es: Seq<Kv>, lo: Seq<u8>, hi: Option<Seq<u8>>) -> Seq<Kv>
    decreases es.len(),
{
    if es.len() == 0 {
        Seq::empty()
    } else if in_range(ukey_of(es.last().key), lo, hi) {
        within(es.drop_last(), lo, hi).push(es.last())
    } else {
        within(es.drop_last(), lo, hi)
    }
}

/// What is within a range: the entries whose keys are.
pub proof fn lemma_within_members(es: Seq<Kv>, lo: Seq<u8>, hi: Option<Seq<u8>>, kv: Kv)
    ensures
        within(es, lo, hi).contains(kv) <==> es.contains(kv) && in_range(ukey_of(kv.key), lo, hi),
    decreases es.len(),
{
    if es.len() > 0 {
        let init = es.drop_last();
        let w = within(es, lo, hi);
        let wi = within(init, lo, hi);
        lemma_within_members(init, lo, hi, kv);
        assert(es =~= init.push(es.last()));
        if w.contains(kv) {
            let x = choose|x: int| 0 <= x < w.len() && w[x] == kv;
            if x < wi.len() {
                assert(wi[x] == kv);
                let y = choose|y: int| 0 <= y < init.len() && init[y] == kv;
                assert(es[y] == kv);
            } else {
                assert(es[es.len() - 1] == kv);
            }
        }
        if es.contains(kv) && in_range(ukey_of(kv.key), lo, hi) {
            let y = choose|y: int| 0 <= y < es.len() && es[y] == kv;
            if y < init.len() {
                assert(init[y] == kv);
                let x = choose|x: int| 0 <= x < wi.len() && wi[x] == kv;
                assert(w[x] == kv);
            } else {
                assert(w[w.len() - 1] == kv);
            }
        }
    }
}

proof fn lemma_within_sorted(es: Seq<Kv>, lo: Seq<u8>, hi: Option<Seq<u8>>)
    requires
        dir_sorted(es, false),
    ensures
        dir_sorted(within(es, lo, hi), false),
    decreases es.len(),
{
    if es.len() > 0 {
        let init = es.drop_last();
        let w = within(es, lo, hi);
        let wi = within(init, lo, hi);
        assert(dir_sorted(init, false)) by {
            assert forall|i: int, j: int| 0 <= i < j < init.len() implies dir_before(
                #[trigger] init[i].key,
                #[trigger] init[j].key,
                false,
            ) by {
                assert(dir_before(es[i].key, es[j].key, false));
            }
            assert forall|i: int| 0 <= i < init.len() implies crate::types::is_ikey(
                #[trigger] init[i].key,
            ) by {
                assert(crate::types::is_ikey(es[i].key));
            }
        }
        lemma_within_sorted(init, lo, hi);
        assert forall|i: int| 0 <= i < w.len() implies crate::types::is_ikey(
            #[trigger] w[i].key,
        ) by {
            if i < wi.len() {
                assert(crate::types::is_ikey(wi[i].key));
            } else {
                assert(crate::types::is_ikey(es[es.len() - 1].key));
            }
        }
        assert forall|i: int, j: int| 0 <= i < j < w.len() implies dir_before(
            #[trigger] w[i].key,
            #[trigger] w[j].key,
            false,
        ) by {
            if j < wi.len() {
                assert(dir_before(wi[i].key, wi[j].key, false));
            } else {
                lemma_within_members(init, lo, hi, wi[i]);
                assert(wi.contains(wi[i]));
                let y = choose|y: int| 0 <= y < init.len() && init[y] == wi[i];
                assert(dir_before(es[y].key, es[es.len() - 1].key, false));
            }
        }
    }
}

proof fn lemma_newest_take(a: Seq<Kv>, b: Seq<Kv>, snap: nat, n: int)
    requires
        0 <= n < a.len(),
        n < b.len(),
        forall|i: int| 0 <= i <= n ==> #[trigger] a[i] == b[i],
        newest(a, snap, n),
    ensures
        newest(b, snap, n),
{
    assert(a[n] == b[n]);
    assert forall|j: int| 0 <= j < n && ukey_of(#[trigger] b[j].key) == ukey_of(b[n].key) implies !visible(
        b[j],
        snap,
    ) by {
        assert(a[j] == b[j]);
    }
}

proof fn lemma_scan_take(
    a: Seq<Kv>,
    b: Seq<Kv>,
    snap: nat,
    lo: Seq<u8>,
    hi: Option<Seq<u8>>,
    n: int,
)
    requires
        0 <= n <= a.len(),
        n <= b.len(),
        forall|i: int| 0 <= i < n ==> #[trigger] a[i] == b[i],
    ensures
        scan_upto(a, snap, lo, hi, n) == scan_upto(b, snap, lo, hi, n),
    decreases n,
{
    if n > 0 {
        lemma_scan_take(a, b, snap, lo, hi, n - 1);
        assert(a[n - 1] == b[n - 1]);
        assert forall|i: int| 0 <= i <= n - 1 implies #[trigger] b[i] == a[i] by {
            assert(a[i] == b[i]);
        }
        if newest(a, snap, n - 1) {
            lemma_newest_take(a, b, snap, n - 1);
        }
        if newest(b, snap, n - 1) {
            lemma_newest_take(b, a, snap, n - 1);
        }
    }
}

/// A scan reads nothing but the entries of its range.
proof fn lemma_scan_within(es: Seq<Kv>, snap: nat, lo: Seq<u8>, hi: Option<Seq<u8>>)
    ensures
        scan(within(es, lo, hi), snap, lo, hi) == scan(es, snap, lo, hi),
    decreases es.len(),
{
    if es.len() > 0 {
        let init = es.drop_last();
        let n = es.len() as int;
        let wi = within(init, lo, hi);
        let w = within(es, lo, hi);
        lemma_scan_within(init, snap, lo, hi);
        lemma_scan_take(init, es, snap, lo, hi, n - 1);
        if in_range(ukey_of(es.last().key), lo, hi) {
            let m = w.len() as int;
            lemma_scan_take(wi, w, snap, lo, hi, m - 1);
            assert(newest(es, snap, n - 1) == newest(w, snap, m - 1)) by {
                let uk = ukey_of(es.last().key);
                if newest(es, snap, n - 1) {
                    assert forall|j: int|
                        0 <= j < m - 1 && ukey_of(#[trigger] w[j].key) == uk implies !visible(
                        w[j],
                        snap,
                    ) by {
                        assert(w[j] == wi[j]);
                        assert(wi.contains(wi[j]));
                        lemma_within_members(init, lo, hi, wi[j]);
                        let y = choose|y: int| 0 <= y < init.len() && init[y] == wi[j];
                        assert(es[y] == wi[j]);
                    }
                }
                if newest(w, snap, m - 1) {
                    assert forall|j: int|
                        0 <= j < n - 1 && ukey_of(#[trigger] es[j].key) == uk implies !visible(
                        es[j],
                        snap,
                    ) by {
                        assert(init[j] == es[j]);
                        assert(init.contains(init[j]));
                        lemma_within_members(init, lo, hi, init[j]);
                        let x = choose|x: int| 0 <= x < wi.len() && wi[x] == init[j];
                        assert(w[x] == es[j]);
                    }
                }
            }
        }
    }
}

/// Sources that hold the same of the range are scanned alike.
pub proof fn lemma_scan_of_part(
    a: Seq<Seq<Kv>>,
    b: Seq<Seq<Kv>>,
    snap: nat,
    lo: Seq<u8>,
    hi: Option<Seq<u8>>,
)
    requires
        mergeable(a, false),
        mergeable(b, false),
        forall|kv: Kv| in_some(b, kv) ==> #[trigger] in_some(a, kv),
        forall|kv: Kv|
            in_some(a, kv) && in_range(ukey_of(kv.key), lo, hi) ==> #[trigger] in_some(b, kv),
    ensures
        scan(merged(a, false), snap, lo, hi) == scan(merged(b, false), snap, lo, hi),
{
    let ma = merged(a, false);
    let mb = merged(b, false);
    lemma_merged(a, false);
    lemma_merged(b, false);
    let wa = within(ma, lo, hi);
    let wb = within(mb, lo, hi);
    lemma_within_sorted(ma, lo, hi);
    lemma_within_sorted(mb, lo, hi);
    assert forall|kv: Kv| wa.contains(kv) <==> wb.contains(kv) by {
        lemma_within_members(ma, lo, hi, kv);
        lemma_within_members(mb, lo, hi, kv);
        assert(ma.contains(kv) <==> in_some(a, kv));
        assert(mb.contains(kv) <==> in_some(b, kv));
    }
    lemma_same_members(wa, wb, false);
    lemma_scan_within(ma, snap, lo, hi);
    lemma_scan_within(mb, snap, lo, hi);
}

/// Each source is a part of the other at its place, with everything that the
/// other has in the range.
#[verifier::opaque]
pub open spec fn part_of(
    b: Seq<Seq<Kv>>,
    a: Seq<Seq<Kv>>,
    lo: Seq<u8>,
    hi: Option<Seq<u8>>,
) -> bool {
    &&& a.len() == b.len()
    &&& forall|l: int| 0 <= l < b.len() ==> sorted(#[trigger] b[l])
    &&& forall|l: int, kv: Kv|
        0 <= l < b.len() && #[trigger] b[l].contains(kv) ==> a[l].contains(kv)
    &&& forall|l: int, kv: Kv|
        0 <= l < a.len() && #[trigger] a[l].contains(kv) && in_range(ukey_of(kv.key), lo, hi)
            ==> b[l].contains(kv)
}

/// A scan of the parts is a scan of the whole.
pub proof fn lemma_part_scans(
    a: Seq<Seq<Kv>>,
    b: Seq<Seq<Kv>>,
    snap: nat,
    lo: Seq<u8>,
    hi: Option<Seq<u8>>,
)
    requires
        mergeable(a, false),
        part_of(b, a, lo, hi),
    ensures
        mergeable(b, false),
        scan(merged(a, false), snap, lo, hi) == scan(merged(b, false), snap, lo, hi),
        forall|kv: Kv| #[trigger] in_some(b, kv) ==> in_some(a, kv),
{
    reveal(part_of);
    assert forall|k: int| 0 <= k < b.len() implies dir_sorted(#[trigger] b[k], false) by {
        assert(sorted(b[k]));
        assert forall|i: int, j: int| 0 <= i < j < b[k].len() implies dir_before(
            #[trigger] b[k][i].key,
            #[trigger] b[k][j].key,
            false,
        ) by {
            assert(ikey_before(b[k][i].key, b[k][j].key));
        }
    }
    assert forall|k: int, l: int, i: int, j: int|
        0 <= k < b.len() && 0 <= l < b.len() && k != l && 0 <= i < b[k].len() && 0 <= j
            < b[l].len() implies (#[trigger] b[k][i]).key != (#[trigger] b[l][j]).key by {
        assert(b[k].contains(b[k][i]) && b[l].contains(b[l][j]));
        assert(a[k].contains(b[k][i]) && a[l].contains(b[l][j]));
        let x = choose|x: int| 0 <= x < a[k].len() && a[k][x] == b[k][i];
        let y = choose|y: int| 0 <= y < a[l].len() && a[l][y] == b[l][j];
        assert(a[k][x].key != a[l][y].key);
    }
    assert forall|kv: Kv| #[trigger] in_some(b, kv) implies in_some(a, kv) by {
        let (k, i) = choose|k: int, i: int|
            0 <= k < b.len() && 0 <= i < b[k].len() && #[trigger] b[k][i] == kv;
        assert(b[k].contains(kv));
        assert(a[k].contains(kv));
        let x = choose|x: int| 0 <= x < a[k].len() && a[k][x] == kv;
        assert(a[k][x] == kv);
    }
    assert forall|kv: Kv| in_some(a, kv) && in_range(ukey_of(kv.key), lo, hi) implies #[trigger] in_some(
        b,
        kv,
    ) by {
        let (k, i) = choose|k: int, i: int|
            0 <= k < a.len() && 0 <= i < a[k].len() && #[trigger] a[k][i] == kv;
        assert(a[k].contains(kv));
        assert(b[k].contains(kv));
        let x = choose|x: int| 0 <= x < b[k].len() && b[k][x] == kv;
        assert(b[k][x] == kv);
    }
    lemma_scan_of_part(a, b, snap, lo, hi);
}

// ---------------------------------------------------------------------------
// Reading the blocks of a range
// ---------------------------------------------------------------------------

/// The blocks of a run that were read, and the last key of each.
pub struct RunBlocks {
    pub blocks: Vec<Block>,
    pub lasts: Vec<Vec<u8>>,
}

/// They are the blocks at the places.
pub open spec fn holds_places(b: RunBlocks, ts: Seq<Arc<TableHandle>>, ps: Seq<Place>) -> bool {
    &&& b.blocks@.len() == ps.len()
    &&& b.lasts@.len() == ps.len()
    &&& forall|q: int|
        0 <= q < ps.len() ==> holds_place(#[trigger] b.blocks@[q], b.lasts@[q]@, ts, ps[q])
}

pub open spec fn holds_place(
    b: Block,
    last: Seq<u8>,
    ts: Seq<Arc<TableHandle>>,
    p: Place,
) -> bool {
    &&& place_reads(ts, p)
    &&& block_ok(b.payload())
    &&& block_entries(b.payload()) == part_of_place(ts, p)
    &&& part_of_place(ts, p).len() > 0
    &&& last == part_of_place(ts, p).last().key
}

/// Read the blocks of one table.
fn read_table(
    out: &mut RunBlocks,
    tables: &Vec<Arc<TableHandle>>,
    t: usize,
    lo: &[u8],
    hi: &Option<Vec<u8>>,
    Ghost(ps): Ghost<Seq<Place>>,
) -> (r: Result<()>)
    requires
        t < tables@.len(),
        fragments_intact(tables@),
        holds_places(*old(out), tables@, ps),
    ensures
        match r {
            Ok(_) => holds_places(
                *final(out),
                tables@,
                ps + all_places(tables@, t as int, lo@, opt_view(*hi)),
            ),
            Err(e) => (e is Corruption || e is Io) && exists|p: Place|
                p.t == t && 0 <= p.k < tables@[t as int].table.model().index.len()
                    && block_in_reach(tables@[t as int].table.model(), p.k, lo@, opt_view(*hi))
                    && !#[trigger] place_reads(tables@, p),
        },
{
    let ghost ts = tables@;
    let ghost hi_v = opt_view(*hi);
    let ghost m = model_of(ts[t as int]);
    proof {
        assert(ts[t as int].table.intact());
    }
    let table = &tables[t].table;
    let n: usize = table.block_count();
    let mut k: usize = 0;
    assert(ps + table_places(m, t as int, 0, lo@, hi_v) =~= ps);
    while k < n
        invariant
            k <= n,
            n == m.index.len(),
            t < ts.len(),
            ts == tables@,
            hi_v == opt_view(*hi),
            table == &ts[t as int].table,
            m == ts[t as int].table.model(),
            table.intact(),
            holds_places(*out, ts, ps + table_places(m, t as int, k as int, lo@, hi_v)),
        decreases n - k,
    {
        let below: bool = match hi {
            Some(h) => if k == 0 {
                bytes_lt(table.min_ukey(), h.as_slice())
            } else {
                bytes_lt(ikey_ukey(table.block_last(k - 1)), h.as_slice())
            },
            None => true,
        };
        let ghost p = Place { t: t as int, k: k as int };
        let ghost done = ps + table_places(m, t as int, k as int, lo@, hi_v);
        if below && !bytes_lt(ikey_ukey(table.block_last(k)), lo) {
            assert(block_in_reach(m, k as int, lo@, hi_v));
            let b = match table.load_block(k) {
                Ok(b) => b,
                Err(e) => {
                    assert(!place_reads(ts, p));
                    return Err(e);
                },
            };
            let last = to_bytes(table.block_last(k));
            let ghost b0 = *out;
            proof {
                table.lemma_read_block(k as int);
                assert(holds_place(b, last@, ts, p));
            }
            out.blocks.push(b);
            out.lasts.push(last);
            proof {
                assert(done.push(p) =~= ps + table_places(m, t as int, k + 1, lo@, hi_v));
                lemma_one_more(b0, *out, ts, done, p);
            }
        }
        k += 1;
    }
    Ok(())
}

proof fn lemma_one_more(
    a: RunBlocks,
    b: RunBlocks,
    ts: Seq<Arc<TableHandle>>,
    ps: Seq<Place>,
    p: Place,
)
    requires
        holds_places(a, ts, ps),
        b.blocks@.len() == ps.len() + 1,
        b.lasts@.len() == ps.len() + 1,
        forall|q: int| 0 <= q < ps.len() ==> #[trigger] b.blocks@[q] == a.blocks@[q],
        forall|q: int| 0 <= q < ps.len() ==> #[trigger] b.lasts@[q] == a.lasts@[q],
        holds_place(b.blocks@[ps.len() as int], b.lasts@[ps.len() as int]@, ts, p),
    ensures
        holds_places(b, ts, ps.push(p)),
{
    let ps2 = ps.push(p);
    assert forall|q: int| 0 <= q < ps2.len() implies holds_place(
        #[trigger] b.blocks@[q],
        b.lasts@[q]@,
        ts,
        ps2[q],
    ) by {
        if q < ps.len() {
            assert(holds_place(a.blocks@[q], a.lasts@[q]@, ts, ps[q]));
            assert(b.lasts@[q] == a.lasts@[q]);
        }
    }
}

/// Read the blocks of a run that may hold keys of the range.
pub fn read_run(run: &Run, lo: &[u8], hi: &Option<Vec<u8>>) -> (r: Result<RunBlocks>)
    requires
        run.intact(),
    ensures
        match r {
            Ok(b) => run_reads(run.tables@, lo@, opt_view(*hi)) && holds_places(
                b,
                run.tables@,
                run_places(run.tables@, run.tables@.len() as int, lo@, opt_view(*hi)),
            ),
            Err(e) => (e is Corruption || e is Io) && !run_reads(
                run.tables@,
                lo@,
                opt_view(*hi),
            ),
        },
{
    let ghost ts = run.tables@;
    let ghost hi_v = opt_view(*hi);
    let mut out = RunBlocks { blocks: Vec::new(), lasts: Vec::new() };
    let mut t: usize = 0;
    while t < run.tables.len()
        invariant
            t <= ts.len(),
            ts == run.tables@,
            hi_v == opt_view(*hi),
            fragments_intact(ts),
            holds_places(out, ts, run_places(ts, t as int, lo@, hi_v)),
        decreases ts.len() - t,
    {
        assert(ts[t as int].table.intact());
        let below: bool = match hi {
            Some(h) => bytes_lt(run.tables[t].table.min_ukey(), h.as_slice()),
            None => true,
        };
        if below && !bytes_lt(run.tables[t].table.max_ukey(), lo) {
            assert(in_reach(ts[t as int], lo@, hi_v));
            match read_table(
                &mut out,
                &run.tables,
                t,
                lo,
                hi,
                Ghost(run_places(ts, t as int, lo@, hi_v)),
            ) {
                Ok(()) => {},
                Err(e) => {
                    proof {
                        let p = choose|p: Place|
                            p.t == t && 0 <= p.k < ts[t as int].table.model().index.len()
                                && block_in_reach(ts[t as int].table.model(), p.k, lo@, hi_v)
                                && !#[trigger] place_reads(ts, p);
                        assert(place_in_reach(ts, p, lo@, hi_v));
                    }
                    return Err(e);
                },
            }
        }
        t += 1;
    }
    proof {
        let n = ts.len() as int;
        assert forall|p: Place| #[trigger] place_in_reach(ts, p, lo@, hi_v) implies place_reads(
            ts,
            p,
        ) by {
            let x = lemma_place_listed(ts, n, lo@, hi_v, p);
            assert(holds_place(out.blocks@[x], out.lasts@[x]@, ts, p));
        }
    }
    Ok(out)
}

/// A cursor over the blocks of a run that were read.
pub fn blocks_iter<'a>(
    b: &'a RunBlocks,
    Ghost(ts): Ghost<Seq<Arc<TableHandle>>>,
    Ghost(lo): Ghost<Seq<u8>>,
    Ghost(hi): Ghost<Option<Seq<u8>>>,
) -> (it: TableIter<'a>)
    requires
        fragments_intact(ts),
        holds_places(*b, ts, run_places(ts, ts.len() as int, lo, hi)),
    ensures
        it.inv(),
        it.entries() == reached(ts, lo, hi),
{
    let ghost ps = run_places(ts, ts.len() as int, lo, hi);
    let ghost parts = parts_of_places(ts, ps);
    let mut children: Vec<BlockIter<'a>> = Vec::new();
    let mut lasts: Vec<Vec<u8>> = Vec::new();
    let mut q: usize = 0;
    while q < b.blocks.len()
        invariant
            q <= b.blocks@.len(),
            b.blocks@.len() == ps.len(),
            parts == parts_of_places(ts, ps),
            holds_places(*b, ts, ps),
            children@.len() == q,
            lasts@.len() == q,
            forall|k: int|
                0 <= k < q ==> (#[trigger] children@[k]).inv() && children@[k].entries() == parts[k]
                    && children@[k].pos() == -1 && children@[k].entries().len() > 0,
            forall|k: int| 0 <= k < q ==> (#[trigger] lasts@[k])@ == parts[k].last().key,
        decreases b.blocks@.len() - q,
    {
        proof {
            assert(holds_place(b.blocks@[q as int], b.lasts@[q as int]@, ts, ps[q as int]));
            assert(parts[q as int] == part_of_place(ts, ps[q as int]));
        }
        children.push(BlockIter::new(&b.blocks[q]));
        lasts.push(to_bytes(b.lasts[q].as_slice()));
        q += 1;
    }
    proof {
        lemma_reached_sorted(ts, lo, hi);
        assert(parts_of(children@) =~= parts);
    }
    ConcatIter::new(children, lasts)
}

/// The blocks of every run that may hold keys of the range.
pub fn read_runs(runs: &Vec<&Run>, lo: &[u8], hi: &Option<Vec<u8>>) -> (r: Result<Vec<RunBlocks>>)
    requires
        forall|k: int| 0 <= k < runs@.len() ==> (#[trigger] runs@[k]).intact(),
    ensures
        match r {
            Ok(bs) => bs@.len() == runs@.len() && forall|k: int|
                0 <= k < runs@.len() ==> run_reads(
                    (#[trigger] runs@[k]).tables@,
                    lo@,
                    opt_view(*hi),
                ) && holds_places(
                    bs@[k],
                    runs@[k].tables@,
                    run_places(
                        runs@[k].tables@,
                        runs@[k].tables@.len() as int,
                        lo@,
                        opt_view(*hi),
                    ),
                ),
            Err(e) => (e is Corruption || e is Io) && exists|k: int|
                0 <= k < runs@.len() && !run_reads(
                    (#[trigger] runs@[k]).tables@,
                    lo@,
                    opt_view(*hi),
                ),
        },
{
    let mut out: Vec<RunBlocks> = Vec::new();
    let mut j: usize = 0;
    while j < runs.len()
        invariant
            j <= runs@.len(),
            out@.len() == j,
            forall|k: int| 0 <= k < runs@.len() ==> (#[trigger] runs@[k]).intact(),
            forall|k: int|
                0 <= k < j ==> run_reads(
                    (#[trigger] runs@[k]).tables@,
                    lo@,
                    opt_view(*hi),
                ) && holds_places(
                    out@[k],
                    runs@[k].tables@,
                    run_places(
                        runs@[k].tables@,
                        runs@[k].tables@.len() as int,
                        lo@,
                        opt_view(*hi),
                    ),
                ),
        decreases runs@.len() - j,
    {
        assert(runs@[j as int].intact());
        match read_run(runs[j], lo, hi) {
            Ok(b) => {
                out.push(b);
            },
            Err(e) => {
                assert(!run_reads(runs@[j as int].tables@, lo@, opt_view(*hi)));
                return Err(e);
            },
        }
        j += 1;
    }
    Ok(out)
}

/// What the runs hold in reach, run by run.
pub open spec fn runs_reached(runs: Seq<&Run>, lo: Seq<u8>, hi: Option<Seq<u8>>) -> Seq<Seq<Kv>> {
    runs.map_values(|r: &Run| reached(r.tables@, lo, hi))
}

/// The sources of a scan: the memtables, and of each run the blocks that were
/// read.
pub fn scan_children<'b>(
    mem: &'b Memtable,
    imms: &'b Vec<Memtable>,
    runs: &Vec<&Run>,
    blocks: &'b Vec<RunBlocks>,
    Ghost(lo): Ghost<Seq<u8>>,
    Ghost(hi): Ghost<Option<Seq<u8>>>,
) -> (cs: Vec<Child<'b>>)
    requires
        mem.inv(),
        forall|k: int| 0 <= k < imms@.len() ==> (#[trigger] imms@[k]).inv(),
        runs@.len() == blocks@.len(),
        forall|k: int| 0 <= k < runs@.len() ==> (#[trigger] runs@[k]).intact(),
        forall|k: int|
            0 <= k < runs@.len() ==> holds_places(
                #[trigger] blocks@[k],
                runs@[k].tables@,
                run_places(runs@[k].tables@, runs@[k].tables@.len() as int, lo, hi),
            ),
    ensures
        forall|k: int| 0 <= k < cs@.len() ==> (#[trigger] cs@[k]).inv(),
        parts_of(cs@) == seq![mem.entries()] + imms@.map_values(|m: Memtable| m.entries())
            + runs_reached(runs@, lo, hi),
{
    let ghost ms = imms@.map_values(|m: Memtable| m.entries());
    let ghost rs = runs_reached(runs@, lo, hi);
    let mut out: Vec<Child<'b>> = Vec::new();
    out.push(Child::Mem(mem.iter()));
    let mut i: usize = 0;
    assert(parts_of(out@) =~= seq![mem.entries()] + ms.take(0));
    while i < imms.len()
        invariant
            i <= imms@.len(),
            ms == imms@.map_values(|m: Memtable| m.entries()),
            forall|k: int| 0 <= k < imms@.len() ==> (#[trigger] imms@[k]).inv(),
            forall|k: int| 0 <= k < out@.len() ==> (#[trigger] out@[k]).inv(),
            parts_of(out@) == seq![mem.entries()] + ms.take(i as int),
        decreases imms@.len() - i,
    {
        let ghost before = parts_of(out@);
        assert(imms@[i as int].inv());
        out.push(Child::Mem(imms[i].iter()));
        proof {
            assert(parts_of(out@) =~= before.push(ms[i as int]));
            assert(ms.take(i + 1) =~= ms.take(i as int).push(ms[i as int]));
            assert(parts_of(out@) =~= seq![mem.entries()] + ms.take(i + 1));
        }
        i += 1;
    }
    let ghost head = seq![mem.entries()] + ms;
    let mut j: usize = 0;
    proof {
        assert(ms.take(i as int) =~= ms);
        assert(parts_of(out@) =~= head + rs.take(0));
    }
    while j < blocks.len()
        invariant
            j <= runs@.len(),
            runs@.len() == blocks@.len(),
            rs == runs_reached(runs@, lo, hi),
            forall|k: int| 0 <= k < runs@.len() ==> (#[trigger] runs@[k]).intact(),
            forall|k: int|
                0 <= k < runs@.len() ==> holds_places(
                    #[trigger] blocks@[k],
                    runs@[k].tables@,
                    run_places(runs@[k].tables@, runs@[k].tables@.len() as int, lo, hi),
                ),
            forall|k: int| 0 <= k < out@.len() ==> (#[trigger] out@[k]).inv(),
            parts_of(out@) == head + rs.take(j as int),
        decreases runs@.len() - j,
    {
        let ghost before = parts_of(out@);
        proof {
            assert(runs@[j as int].intact());
            assert(holds_places(
                blocks@[j as int],
                runs@[j as int].tables@,
                run_places(
                    runs@[j as int].tables@,
                    runs@[j as int].tables@.len() as int,
                    lo,
                    hi,
                ),
            ));
        }
        let it = blocks_iter(
            &blocks[j],
            Ghost(runs@[j as int].tables@),
            Ghost(lo),
            Ghost(hi),
        );
        out.push(Child::Blocks(it));
        proof {
            assert(rs[j as int] == reached(runs@[j as int].tables@, lo, hi));
            assert(parts_of(out@) =~= before.push(rs[j as int]));
            assert(rs.take(j + 1) =~= rs.take(j as int).push(rs[j as int]));
            assert(parts_of(out@) =~= head + rs.take(j + 1));
        }
        j += 1;
    }
    assert(rs.take(j as int) =~= rs);
    out
}

/// The sources of a scan hold all that the whole sources hold in the range.
#[verifier::spinoff_prover]
#[verifier::rlimit(40)]
pub proof fn lemma_narrowed(
    v: Version,
    ms: Seq<Seq<Kv>>,
    runs: Seq<&Run>,
    lo: Seq<u8>,
    hi: Option<Seq<u8>>,
)
    requires
        forall|l: int| 0 <= l < ms.len() ==> sorted(#[trigger] ms[l]),
        runs.map_values(|r: &Run| r.entries()) == v.sources(),
        forall|k: int| 0 <= k < runs.len() ==> (#[trigger] runs[k]).intact(),
    ensures
        part_of(ms + runs_reached(runs, lo, hi), ms + v.sources(), lo, hi),
{
    let rs = runs_reached(runs, lo, hi);
    let vs = v.sources();
    let b = ms + rs;
    let a = ms + vs;
    let n = ms.len() as int;
    assert(vs.len() == runs.len());
    reveal(part_of);
    assert forall|l: int| 0 <= l < b.len() implies sorted(#[trigger] b[l]) by {
        if l < n {
            assert(b[l] == ms[l]);
        } else {
            assert(b[l] == reached(runs[l - n].tables@, lo, hi));
            assert(runs[l - n].intact());
            lemma_reached_sorted(runs[l - n].tables@, lo, hi);
        }
    }
    assert forall|l: int, kv: Kv| 0 <= l < b.len() && #[trigger] b[l].contains(kv) implies a[l].contains(
    kv) by {
        if l >= n {
            assert(b[l] == reached(runs[l - n].tables@, lo, hi));
            assert(a[l] == vs[l - n] && vs[l - n] == runs[l - n].entries());
            assert(runs[l - n].intact());
            lemma_reached_entries(runs[l - n].tables@, lo, hi, kv);
        } else {
            assert(b[l] == a[l]);
        }
    }
    assert forall|l: int, kv: Kv|
        0 <= l < a.len() && #[trigger] a[l].contains(kv) && in_range(
            ukey_of(kv.key),
            lo,
            hi,
        ) implies b[l].contains(kv) by {
        if l >= n {
            assert(b[l] == reached(runs[l - n].tables@, lo, hi));
            assert(a[l] == vs[l - n] && vs[l - n] == runs[l - n].entries());
            assert(runs[l - n].intact());
            lemma_reached_entries(runs[l - n].tables@, lo, hi, kv);
        } else {
            assert(b[l] == a[l]);
        }
    }
}

/// Whether a range can be read is told by the runs that are listed.
pub proof fn lemma_range_of_runs(v: Version, runs: Seq<&Run>, lo: Seq<u8>, hi: Option<Seq<u8>>)
    requires
        forall|k: int| 0 <= k < runs.len() ==> in_tree(v.levels@, *#[trigger] runs[k]),
        forall|l: int, k: int|
            0 <= l < v.levels@.len() && 0 <= k < v.levels@[l]@.len() ==> listed(
                runs,
                #[trigger] v.levels@[l]@[k],
            ),
    ensures
        range_sound(v, lo, hi) <==> forall|k: int|
            0 <= k < runs.len() ==> run_reads((#[trigger] runs[k]).tables@, lo, hi),
{
    if range_sound(v, lo, hi) {
        assert forall|k: int| 0 <= k < runs.len() implies run_reads(
            (#[trigger] runs[k]).tables@,
            lo,
            hi,
        ) by {
            assert(in_tree(v.levels@, *runs[k]));
            let (l, j) = choose|l: int, j: int|
                0 <= l < v.levels@.len() && 0 <= j < v.levels@[l]@.len() && #[trigger] v.levels@[l]@[j]
                    == *runs[k];
            assert(run_reads(v.levels@[l]@[j].tables@, lo, hi));
        }
    }
    if forall|k: int| 0 <= k < runs.len() ==> run_reads((#[trigger] runs[k]).tables@, lo, hi) {
        assert forall|l: int, k: int|
            0 <= l < v.levels@.len() && 0 <= k < v.levels@[l]@.len() implies run_reads(
            (#[trigger] v.levels@[l]@[k]).tables@,
            lo,
            hi,
        ) by {
            assert(listed(runs, v.levels@[l]@[k]));
            let i = choose|i: int| 0 <= i < runs.len() && *(#[trigger] runs[i]) == v.levels@[l]@[k];
            assert(run_reads(runs[i].tables@, lo, hi));
        }
    }
}

// ---------------------------------------------------------------------------
// Where the damage lies
// ---------------------------------------------------------------------------

/// The block at the place may hold keys of the range, and is damaged.
pub open spec fn damaged_at(
    v: Version,
    l: int,
    k: int,
    p: Place,
    lo: Seq<u8>,
    hi: Option<Seq<u8>>,
) -> bool {
    &&& 0 <= l < v.levels@.len()
    &&& 0 <= k < v.levels@[l]@.len()
    &&& place_in_reach(v.levels@[l]@[k].tables@, p, lo, hi)
    &&& !place_reads(v.levels@[l]@[k].tables@, p)
}

pub open spec fn place_floor(ts: Seq<Arc<TableHandle>>, p: Place) -> Seq<u8> {
    block_floor(ts[p.t].table.model(), p.k)
}

pub open spec fn place_ceiling(ts: Seq<Arc<TableHandle>>, p: Place) -> Seq<u8> {
    block_ceiling(ts[p.t].table.model(), p.k)
}

/// The least key that a damaged block of the range may hold.
pub open spec fn is_first_damage(v: Version, lo: Seq<u8>, hi: Option<Seq<u8>>, h: Seq<u8>) -> bool {
    &&& exists|l: int, k: int, p: Place| #[trigger]
        damaged_at(v, l, k, p, lo, hi) && place_floor(v.levels@[l]@[k].tables@, p) == h
    &&& forall|l: int, k: int, p: Place| #[trigger]
        damaged_at(v, l, k, p, lo, hi) ==> lex_le(h, place_floor(v.levels@[l]@[k].tables@, p))
}

/// The greatest key that a damaged block of the range may hold.
pub open spec fn is_last_damage(v: Version, lo: Seq<u8>, hi: Option<Seq<u8>>, h: Seq<u8>) -> bool {
    &&& exists|l: int, k: int, p: Place| #[trigger]
        damaged_at(v, l, k, p, lo, hi) && place_ceiling(v.levels@[l]@[k].tables@, p) == h
    &&& forall|l: int, k: int, p: Place| #[trigger]
        damaged_at(v, l, k, p, lo, hi) ==> lex_le(place_ceiling(v.levels@[l]@[k].tables@, p), h)
}

/// Below the first damaged block everything can be read.
pub proof fn lemma_sound_below(v: Version, lo: Seq<u8>, hi: Option<Seq<u8>>, h: Seq<u8>)
    requires
        is_first_damage(v, lo, hi, h),
    ensures
        range_sound(v, lo, Some(h)),
{
    let (a, b, c) = choose|l: int, k: int, p: Place| #[trigger]
        damaged_at(v, l, k, p, lo, hi) && place_floor(v.levels@[l]@[k].tables@, p) == h;
    assert forall|l: int, k: int|
        0 <= l < v.levels@.len() && 0 <= k < v.levels@[l]@.len() implies run_reads(
        (#[trigger] v.levels@[l]@[k]).tables@,
        lo,
        Some(h),
    ) by {
        let ts = v.levels@[l]@[k].tables@;
        assert forall|p: Place| #[trigger] place_in_reach(ts, p, lo, Some(h)) implies place_reads(
            ts,
            p,
        ) by {
            if !place_reads(ts, p) {
                let f = place_floor(ts, p);
                if let Some(g) = hi {
                    lemma_lex_transitive(min_of(ts[p.t]), h, g);
                    lemma_lex_transitive(f, h, g);
                }
                assert(damaged_at(v, l, k, p, lo, hi));
                lemma_lt_le(f, h, f);
                lemma_lex_irreflexive(f);
            }
        }
    }
}

/// The key right behind another.
pub open spec fn behind(k: Seq<u8>) -> Seq<u8> {
    k.push(0)
}

/// Above the last damaged block everything can be read.
pub proof fn lemma_sound_above(v: Version, lo: Seq<u8>, hi: Option<Seq<u8>>, h: Seq<u8>)
    requires
        is_last_damage(v, lo, hi, h),
    ensures
        range_sound(v, behind(h), hi),
{
    let (a, b, c) = choose|l: int, k: int, p: Place| #[trigger]
        damaged_at(v, l, k, p, lo, hi) && place_ceiling(v.levels@[l]@[k].tables@, p) == h;
    lemma_behind(h);
    assert forall|l: int, k: int|
        0 <= l < v.levels@.len() && 0 <= k < v.levels@[l]@.len() implies run_reads(
        (#[trigger] v.levels@[l]@[k]).tables@,
        behind(h),
        hi,
    ) by {
        let ts = v.levels@[l]@[k].tables@;
        assert forall|p: Place| #[trigger] place_in_reach(ts, p, behind(h), hi) implies place_reads(
            ts,
            p,
        ) by {
            if !place_reads(ts, p) {
                lemma_above(max_of(ts[p.t]), lo, h);
                lemma_above(place_ceiling(ts, p), lo, h);
                assert(damaged_at(v, l, k, p, lo, hi));
                lemma_le_lt(place_ceiling(ts, p), h, behind(h));
            }
        }
    }
}

/// What is not below the key behind `h` is not below `lo`, where `h` is not.
proof fn lemma_above(x: Seq<u8>, lo: Seq<u8>, h: Seq<u8>)
    requires
        !lex_lt(x, behind(h)),
        !lex_lt(h, lo),
    ensures
        !lex_lt(x, lo),
{
    if lex_lt(x, lo) {
        lemma_behind(h);
        lemma_lex_total(lo, h);
        if lo != h {
            lemma_lex_transitive(x, lo, h);
        }
        lemma_lex_transitive(x, h, behind(h));
    }
}

/// The key right behind another sorts after it.
pub proof fn lemma_behind(h: Seq<u8>)
    ensures
        lex_lt(h, behind(h)),
    decreases h.len(),
{
    let b = behind(h);
    if h.len() > 0 {
        lemma_behind(h.skip(1));
        assert(b.skip(1) =~= behind(h.skip(1)));
        assert(b[0] == h[0]);
    }
}

/// What the damaged blocks among those at the first `n` places may hold: the
/// least and the greatest key of each.
pub open spec fn damage_of_places(
    ts: Seq<Arc<TableHandle>>,
    ps: Seq<Place>,
    n: int,
) -> Set<(Seq<u8>, Seq<u8>)>
    decreases n,
{
    if n <= 0 {
        Set::empty()
    } else if place_reads(ts, ps[n - 1]) {
        damage_of_places(ts, ps, n - 1)
    } else {
        damage_of_places(ts, ps, n - 1).insert(
            (place_floor(ts, ps[n - 1]), place_ceiling(ts, ps[n - 1])),
        )
    }
}

pub open spec fn damage_of_run(
    ts: Seq<Arc<TableHandle>>,
    lo: Seq<u8>,
    hi: Option<Seq<u8>>,
) -> Set<(Seq<u8>, Seq<u8>)> {
    let ps = run_places(ts, ts.len() as int, lo, hi);
    damage_of_places(ts, ps, ps.len() as int)
}

pub open spec fn damage_of_runs(
    runs: Seq<&Run>,
    n: int,
    lo: Seq<u8>,
    hi: Option<Seq<u8>>,
) -> Set<(Seq<u8>, Seq<u8>)>
    decreases n,
{
    if n <= 0 {
        Set::empty()
    } else {
        damage_of_runs(runs, n - 1, lo, hi).union(damage_of_run(runs[n - 1].tables@, lo, hi))
    }
}

/// The least of the lower ends, and the greatest of the upper ones.
pub open spec fn bounds_are(d: Set<(Seq<u8>, Seq<u8>)>, b: Option<(Seq<u8>, Seq<u8>)>) -> bool {
    match b {
        None => forall|x: (Seq<u8>, Seq<u8>)| !#[trigger] d.contains(x),
        Some((lo, hi)) => {
            &&& exists|x: (Seq<u8>, Seq<u8>)| #[trigger] d.contains(x) && x.0 == lo
            &&& exists|x: (Seq<u8>, Seq<u8>)| #[trigger] d.contains(x) && x.1 == hi
            &&& forall|x: (Seq<u8>, Seq<u8>)| #[trigger]
                d.contains(x) ==> lex_le(lo, x.0) && lex_le(x.1, hi)
        },
    }
}

pub open spec fn bounds_view(b: Option<(Vec<u8>, Vec<u8>)>) -> Option<(Seq<u8>, Seq<u8>)> {
    match b {
        Some((x, y)) => Some((x@, y@)),
        None => None,
    }
}

/// One more block widens the bounds.
fn widen(b: &mut Option<(Vec<u8>, Vec<u8>)>, lo: &[u8], hi: &[u8], Ghost(d): Ghost<Set<(Seq<u8>, Seq<u8>)>>)
    requires
        bounds_are(d, bounds_view(*old(b))),
    ensures
        bounds_are(d.insert((lo@, hi@)), bounds_view(*final(b))),
{
    let (x, y) = match &*b {
        Some((x0, y0)) => {
            let x = if bytes_lt(lo, x0.as_slice()) {
                to_bytes(lo)
            } else {
                to_bytes(x0.as_slice())
            };
            let y = if bytes_lt(y0.as_slice(), hi) {
                to_bytes(hi)
            } else {
                to_bytes(y0.as_slice())
            };
            (x, y)
        },
        None => (to_bytes(lo), to_bytes(hi)),
    };
    proof {
        lemma_widened(d, bounds_view(*b), lo@, hi@, x@, y@);
    }
    *b = Some((x, y));
}

proof fn lemma_widened(
    d: Set<(Seq<u8>, Seq<u8>)>,
    b: Option<(Seq<u8>, Seq<u8>)>,
    lo: Seq<u8>,
    hi: Seq<u8>,
    x: Seq<u8>,
    y: Seq<u8>,
)
    requires
        bounds_are(d, b),
        x == (match b {
            Some((x0, _)) => if lex_lt(lo, x0) {
                lo
            } else {
                x0
            },
            None => lo,
        }),
        y == (match b {
            Some((_, y0)) => if lex_lt(y0, hi) {
                hi
            } else {
                y0
            },
            None => hi,
        }),
    ensures
        bounds_are(d.insert((lo, hi)), Some((x, y))),
{
    let e = d.insert((lo, hi));
    assert(e.contains((lo, hi)));
    if let Some((x0, y0)) = b {
        let p = choose|p: (Seq<u8>, Seq<u8>)| #[trigger] d.contains(p) && p.0 == x0;
        assert(e.contains(p));
        let q = choose|q: (Seq<u8>, Seq<u8>)| #[trigger] d.contains(q) && q.1 == y0;
        assert(e.contains(q));
        lemma_lex_total(lo, x0);
        lemma_lex_total(y0, hi);
        assert forall|z: (Seq<u8>, Seq<u8>)| #[trigger] e.contains(z) implies lex_le(x, z.0)
            && lex_le(z.1, y) by {
            if z != (lo, hi) {
                assert(d.contains(z));
                lemma_le_le(x, x0, z.0);
                lemma_le_le(z.1, y0, y);
            }
        }
    }
}

/// The damage of one table.
fn table_damage(
    b: &mut Option<(Vec<u8>, Vec<u8>)>,
    tables: &Vec<Arc<TableHandle>>,
    t: usize,
    lo: &[u8],
    hi: &Option<Vec<u8>>,
    Ghost(d): Ghost<Set<(Seq<u8>, Seq<u8>)>>,
)
    requires
        t < tables@.len(),
        fragments_open(tables@),
        bounds_are(d, bounds_view(*old(b))),
    ensures
        ({
            let ps = all_places(tables@, t as int, lo@, opt_view(*hi));
            bounds_are(
                d.union(damage_of_places(tables@, ps, ps.len() as int)),
                bounds_view(*final(b)),
            )
        }),
{
    let ghost ts = tables@;
    let ghost hi_v = opt_view(*hi);
    let ghost m = model_of(ts[t as int]);
    assert(ts[t as int].table.inv());
    let table = &tables[t].table;
    let n: usize = table.block_count();
    let mut k: usize = 0;
    assert(d.union(damage_of_places(ts, table_places(m, t as int, 0, lo@, hi_v), 0)) =~= d);
    while k < n
        invariant
            k <= n,
            n == m.index.len(),
            t < ts.len(),
            ts == tables@,
            hi_v == opt_view(*hi),
            table == &ts[t as int].table,
            m == ts[t as int].table.model(),
            table.inv(),
            ({
                let ps = table_places(m, t as int, k as int, lo@, hi_v);
                bounds_are(
                    d.union(damage_of_places(ts, ps, ps.len() as int)),
                    bounds_view(*b),
                )
            }),
        decreases n - k,
    {
        let floor = if k == 0 {
            table.min_ukey()
        } else {
            ikey_ukey(table.block_last(k - 1))
        };
        let below: bool = match hi {
            Some(h) => bytes_lt(floor, h.as_slice()),
            None => true,
        };
        let ceiling = ikey_ukey(table.block_last(k));
        let ghost p = Place { t: t as int, k: k as int };
        let ghost ps = table_places(m, t as int, k as int, lo@, hi_v);
        if below && !bytes_lt(ceiling, lo) {
            proof {
                assert(block_in_reach(m, k as int, lo@, hi_v));
                assert(table_places(m, t as int, k + 1, lo@, hi_v) == ps.push(p));
                lemma_places_prefix(ts, ps, ps.push(p), ps.len() as int);
            }
            if table.load_block(k).is_err() {
                let ghost done = d.union(damage_of_places(ts, ps, ps.len() as int));
                widen(b, floor, ceiling, Ghost(done));
                proof {
                    assert(!place_reads(ts, p));
                    assert(done.insert((floor@, ceiling@)) =~= d.union(
                        damage_of_places(ts, ps.push(p), ps.push(p).len() as int),
                    ));
                }
            } else {
                assert(place_reads(ts, p));
            }
        }
        k += 1;
    }
}

proof fn lemma_places_prefix(
    ts: Seq<Arc<TableHandle>>,
    a: Seq<Place>,
    b: Seq<Place>,
    n: int,
)
    requires
        0 <= n <= a.len(),
        n <= b.len(),
        forall|i: int| 0 <= i < n ==> #[trigger] a[i] == b[i],
    ensures
        damage_of_places(ts, a, n) == damage_of_places(ts, b, n),
    decreases n,
{
    if n > 0 {
        lemma_places_prefix(ts, a, b, n - 1);
        assert(a[n - 1] == b[n - 1]);
    }
}

proof fn lemma_places_concat(ts: Seq<Arc<TableHandle>>, a: Seq<Place>, b: Seq<Place>, n: int)
    requires
        0 <= n <= b.len(),
    ensures
        damage_of_places(ts, a + b, a.len() + n) == damage_of_places(
            ts,
            a,
            a.len() as int,
        ).union(damage_of_places(ts, b, n)),
    decreases n,
{
    let s = a + b;
    if n > 0 {
        lemma_places_concat(ts, a, b, n - 1);
        assert(s[a.len() + n - 1] == b[n - 1]);
        assert(damage_of_places(ts, s, a.len() + n) =~= damage_of_places(
            ts,
            a,
            a.len() as int,
        ).union(damage_of_places(ts, b, n)));
    } else {
        lemma_places_prefix(ts, a, s, a.len() as int);
        assert(damage_of_places(ts, a, a.len() as int).union(damage_of_places(ts, b, 0))
            =~= damage_of_places(ts, a, a.len() as int));
    }
}

/// The damage of one run.
fn run_damage(
    b: &mut Option<(Vec<u8>, Vec<u8>)>,
    run: &Run,
    lo: &[u8],
    hi: &Option<Vec<u8>>,
    Ghost(d): Ghost<Set<(Seq<u8>, Seq<u8>)>>,
)
    requires
        fragments_open(run.tables@),
        bounds_are(d, bounds_view(*old(b))),
    ensures
        bounds_are(
            d.union(damage_of_run(run.tables@, lo@, opt_view(*hi))),
            bounds_view(*final(b)),
        ),
{
    let ghost ts = run.tables@;
    let ghost hi_v = opt_view(*hi);
    let mut t: usize = 0;
    assert(d.union(damage_of_places(ts, run_places(ts, 0, lo@, hi_v), 0)) =~= d);
    while t < run.tables.len()
        invariant
            t <= ts.len(),
            ts == run.tables@,
            hi_v == opt_view(*hi),
            fragments_open(ts),
            ({
                let ps = run_places(ts, t as int, lo@, hi_v);
                bounds_are(
                    d.union(damage_of_places(ts, ps, ps.len() as int)),
                    bounds_view(*b),
                )
            }),
        decreases ts.len() - t,
    {
        assert(ts[t as int].table.inv());
        let below: bool = match hi {
            Some(h) => bytes_lt(run.tables[t].table.min_ukey(), h.as_slice()),
            None => true,
        };
        if below && !bytes_lt(run.tables[t].table.max_ukey(), lo) {
            let ghost ps = run_places(ts, t as int, lo@, hi_v);
            let ghost own = all_places(ts, t as int, lo@, hi_v);
            let ghost done = d.union(damage_of_places(ts, ps, ps.len() as int));
            table_damage(b, &run.tables, t, lo, hi, Ghost(done));
            proof {
                assert(in_reach(ts[t as int], lo@, hi_v));
                lemma_places_concat(ts, ps, own, own.len() as int);
                assert(done.union(damage_of_places(ts, own, own.len() as int)) =~= d.union(
                    damage_of_places(ts, ps + own, (ps + own).len() as int),
                ));
            }
        }
        t += 1;
    }
}

/// Whatever is among the damage comes of a damaged block.
proof fn lemma_damage_from(
    ts: Seq<Arc<TableHandle>>,
    ps: Seq<Place>,
    n: int,
    x: (Seq<u8>, Seq<u8>),
) -> (q: int)
    requires
        0 <= n <= ps.len(),
        damage_of_places(ts, ps, n).contains(x),
    ensures
        0 <= q < n,
        !place_reads(ts, ps[q]),
        x == (place_floor(ts, ps[q]), place_ceiling(ts, ps[q])),
    decreases n,
{
    if n <= 0 {
        0
    } else if place_reads(ts, ps[n - 1]) || damage_of_places(ts, ps, n - 1).contains(x) {
        lemma_damage_from(ts, ps, n - 1, x)
    } else {
        n - 1
    }
}

proof fn lemma_damage_has(ts: Seq<Arc<TableHandle>>, ps: Seq<Place>, n: int, q: int)
    requires
        0 <= q < n <= ps.len(),
        !place_reads(ts, ps[q]),
    ensures
        damage_of_places(ts, ps, n).contains((place_floor(ts, ps[q]), place_ceiling(ts, ps[q]))),
    decreases n,
{
    if q < n - 1 {
        lemma_damage_has(ts, ps, n - 1, q);
    }
}

/// The same over runs.
proof fn lemma_damage_from_runs(
    v: Version,
    runs: Seq<&Run>,
    n: int,
    lo: Seq<u8>,
    hi: Option<Seq<u8>>,
    x: (Seq<u8>, Seq<u8>),
) -> (r: (int, int, Place))
    requires
        0 <= n <= runs.len(),
        forall|k: int| 0 <= k < runs.len() ==> in_tree(v.levels@, *#[trigger] runs[k]),
        damage_of_runs(runs, n, lo, hi).contains(x),
    ensures
        damaged_at(v, r.0, r.1, r.2, lo, hi),
        x == (
            place_floor(v.levels@[r.0]@[r.1].tables@, r.2),
            place_ceiling(v.levels@[r.0]@[r.1].tables@, r.2),
        ),
    decreases n,
{
    let ts = runs[n - 1].tables@;
    if damage_of_run(ts, lo, hi).contains(x) {
        let ps = run_places(ts, ts.len() as int, lo, hi);
        let q = lemma_damage_from(ts, ps, ps.len() as int, x);
        lemma_run_places(ts, ts.len() as int, lo, hi, q);
        assert(in_tree(v.levels@, *runs[n - 1]));
        let (l, j) = choose|l: int, j: int|
            0 <= l < v.levels@.len() && 0 <= j < v.levels@[l]@.len() && #[trigger] v.levels@[l]@[j]
                == *runs[n - 1];
        (l, j, ps[q])
    } else {
        lemma_damage_from_runs(v, runs, n - 1, lo, hi, x)
    }
}

proof fn lemma_runs_damage_has(
    runs: Seq<&Run>,
    n: int,
    lo: Seq<u8>,
    hi: Option<Seq<u8>>,
    i: int,
    p: Place,
)
    requires
        0 <= i < n <= runs.len(),
        place_in_reach(runs[i].tables@, p, lo, hi),
        !place_reads(runs[i].tables@, p),
    ensures
        damage_of_runs(runs, n, lo, hi).contains(
            (place_floor(runs[i].tables@, p), place_ceiling(runs[i].tables@, p)),
        ),
    decreases n,
{
    if i == n - 1 {
        let ts = runs[i].tables@;
        let ps = run_places(ts, ts.len() as int, lo, hi);
        let q = lemma_place_listed(ts, ts.len() as int, lo, hi, p);
        lemma_damage_has(ts, ps, ps.len() as int, q);
    } else {
        lemma_runs_damage_has(runs, n - 1, lo, hi, i, p);
    }
}

/// A range that can be read has no damage.
pub proof fn lemma_sound_has_no_damage(v: Version, lo: Seq<u8>, hi: Option<Seq<u8>>)
    requires
        range_sound(v, lo, hi),
    ensures
        forall|h: Seq<u8>| !#[trigger] is_first_damage(v, lo, hi, h),
        forall|h: Seq<u8>| !#[trigger] is_last_damage(v, lo, hi, h),
{
    assert forall|l: int, k: int, p: Place| !#[trigger] damaged_at(v, l, k, p, lo, hi) by {
        if damaged_at(v, l, k, p, lo, hi) {
            assert(run_reads(v.levels@[l]@[k].tables@, lo, hi));
        }
    }
}

/// A range has one first and one last damage.
pub proof fn lemma_one_damage(v: Version, lo: Seq<u8>, hi: Option<Seq<u8>>, a: Seq<u8>, b: Seq<u8>)
    ensures
        is_first_damage(v, lo, hi, a) && is_first_damage(v, lo, hi, b) ==> a == b,
        is_last_damage(v, lo, hi, a) && is_last_damage(v, lo, hi, b) ==> a == b,
{
    if is_first_damage(v, lo, hi, a) && is_first_damage(v, lo, hi, b) {
        let x = choose|l: int, k: int, p: Place| #[trigger]
            damaged_at(v, l, k, p, lo, hi) && place_floor(v.levels@[l]@[k].tables@, p) == a;
        let y = choose|l: int, k: int, p: Place| #[trigger]
            damaged_at(v, l, k, p, lo, hi) && place_floor(v.levels@[l]@[k].tables@, p) == b;
        assert(damaged_at(v, x.0, x.1, x.2, lo, hi) && damaged_at(v, y.0, y.1, y.2, lo, hi));
        lemma_le_le_same(a, b);
    }
    if is_last_damage(v, lo, hi, a) && is_last_damage(v, lo, hi, b) {
        let x = choose|l: int, k: int, p: Place| #[trigger]
            damaged_at(v, l, k, p, lo, hi) && place_ceiling(v.levels@[l]@[k].tables@, p) == a;
        let y = choose|l: int, k: int, p: Place| #[trigger]
            damaged_at(v, l, k, p, lo, hi) && place_ceiling(v.levels@[l]@[k].tables@, p) == b;
        assert(damaged_at(v, x.0, x.1, x.2, lo, hi) && damaged_at(v, y.0, y.1, y.2, lo, hi));
        lemma_le_le_same(a, b);
    }
}

proof fn lemma_le_le_same(a: Seq<u8>, b: Seq<u8>)
    requires
        lex_le(a, b),
        lex_le(b, a),
    ensures
        a == b,
{
    if a != b {
        lemma_lt_le(a, b, a);
        lemma_lex_irreflexive(a);
    }
}

/// Where the damage of a range begins and ends, if there is any.
pub fn damage_of(v: &Version, lo: &[u8], hi: &Option<Vec<u8>>) -> (r: Option<(Vec<u8>, Vec<u8>)>)
    requires
        v.open_runs(),
    ensures
        match r {
            Some((first, last)) => is_first_damage(*v, lo@, opt_view(*hi), first@)
                && is_last_damage(*v, lo@, opt_view(*hi), last@),
            None => range_sound(*v, lo@, opt_view(*hi)),
        },
{
    let runs = v.runs_newest_first();
    let ghost ls = v.levels@;
    let ghost hi_v = opt_view(*hi);
    proof {
        let open = |r: Run| fragments_open(r.tables@);
        assert forall|k: int| 0 <= k < runs@.len() implies fragments_open(
            (#[trigger] runs@[k]).tables@,
        ) by {
            assert(in_tree(ls, *runs@[k]));
            let (l, j) = choose|l: int, j: int|
                0 <= l < ls.len() && 0 <= j < ls[l]@.len() && #[trigger] ls[l]@[j] == *runs@[k];
            assert(open(ls[l]@[j]));
        }
    }
    let mut b: Option<(Vec<u8>, Vec<u8>)> = None;
    let mut n: usize = 0;
    while n < runs.len()
        invariant
            n <= runs@.len(),
            hi_v == opt_view(*hi),
            forall|k: int|
                0 <= k < runs@.len() ==> fragments_open((#[trigger] runs@[k]).tables@),
            bounds_are(damage_of_runs(runs@, n as int, lo@, hi_v), bounds_view(b)),
        decreases runs@.len() - n,
    {
        assert(fragments_open(runs@[n as int].tables@));
        run_damage(&mut b, runs[n], lo, hi, Ghost(damage_of_runs(runs@, n as int, lo@, hi_v)));
        n += 1;
    }
    proof {
        lemma_damage_of(*v, runs@, lo@, hi_v, bounds_view(b));
    }
    b
}

proof fn lemma_damage_of(
    v: Version,
    runs: Seq<&Run>,
    lo: Seq<u8>,
    hi: Option<Seq<u8>>,
    b: Option<(Seq<u8>, Seq<u8>)>,
)
    requires
        forall|k: int| 0 <= k < runs.len() ==> in_tree(v.levels@, *#[trigger] runs[k]),
        forall|l: int, k: int|
            0 <= l < v.levels@.len() && 0 <= k < v.levels@[l]@.len() ==> listed(
                runs,
                #[trigger] v.levels@[l]@[k],
            ),
        bounds_are(damage_of_runs(runs, runs.len() as int, lo, hi), b),
    ensures
        match b {
            Some((first, last)) => is_first_damage(v, lo, hi, first) && is_last_damage(
                v,
                lo,
                hi,
                last,
            ),
            None => range_sound(v, lo, hi),
        },
{
    let n = runs.len() as int;
    let d = damage_of_runs(runs, n, lo, hi);
    let ls = v.levels@;
    assert forall|l: int, k: int, p: Place| #[trigger] damaged_at(v, l, k, p, lo, hi) implies d.contains(
        (place_floor(ls[l]@[k].tables@, p), place_ceiling(ls[l]@[k].tables@, p)),
    ) by {
        assert(listed(runs, ls[l]@[k]));
        let i = choose|i: int| 0 <= i < runs.len() && *(#[trigger] runs[i]) == ls[l]@[k];
        lemma_runs_damage_has(runs, n, lo, hi, i, p);
    }
    match b {
        Some((first, last)) => {
            let x = choose|x: (Seq<u8>, Seq<u8>)| #[trigger] d.contains(x) && x.0 == first;
            let (l, k, p) = lemma_damage_from_runs(v, runs, n, lo, hi, x);
            assert(damaged_at(v, l, k, p, lo, hi));
            let y = choose|y: (Seq<u8>, Seq<u8>)| #[trigger] d.contains(y) && y.1 == last;
            let (l2, k2, p2) = lemma_damage_from_runs(v, runs, n, lo, hi, y);
            assert(damaged_at(v, l2, k2, p2, lo, hi));
        },
        None => {
            assert forall|l: int, k: int| 0 <= l < ls.len() && 0 <= k < ls[l]@.len() implies run_reads(
                (#[trigger] ls[l]@[k]).tables@,
                lo,
                hi,
            ) by {
                let ts = ls[l]@[k].tables@;
                assert forall|p: Place| #[trigger] place_in_reach(ts, p, lo, hi) implies place_reads(
                    ts,
                    p,
                ) by {
                    if !place_reads(ts, p) {
                        assert(damaged_at(v, l, k, p, lo, hi));
                    }
                }
            }
        },
    }
}

/// A store without damage can be scanned wherever one likes.
pub proof fn lemma_sound_store_scans(v: Version, lo: Seq<u8>, hi: Option<Seq<u8>>)
    requires
        v.sound(),
    ensures
        range_sound(v, lo, hi),
{
    let ls = v.levels@;
    assert forall|l: int, k: int| 0 <= l < ls.len() && 0 <= k < ls[l]@.len() implies run_reads(
        (#[trigger] ls[l]@[k]).tables@,
        lo,
        hi,
    ) by {
        let good = |r: Run| r.sound();
        assert(good(ls[l]@[k]));
        let ts = ls[l]@[k].tables@;
        assert forall|p: Place| #[trigger] place_in_reach(ts, p, lo, hi) implies place_reads(
            ts,
            p,
        ) by {
            assert(ts[p.t].table.sound());
            ts[p.t].table.lemma_sound_reads(p.k);
        }
    }
}

/// A scan looks at every block that could matter, and stops for no other: a
/// block whose keys all lie outside the range is passed over, damaged or not.
pub proof fn lemma_blocks_outside_are_passed_over(m: TableModel, k: int, lo: Seq<u8>, hi: Option<Seq<u8>>)
    ensures
        lex_lt(ukey_of(m.index[k].last), lo) ==> !block_in_reach(m, k, lo, hi),
        hi matches Some(h) ==> (k > 0 && !lex_lt(ukey_of(m.index[k - 1].last), h)
            ==> !block_in_reach(m, k, lo, hi)),
{
}

} // verus!
