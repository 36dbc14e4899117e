//! Reading a range out of tables of which nothing is known: the blocks that may
//! hold its keys are read, and their entries collected, those of newer runs in
//! place of those of older ones.

use std::sync::Arc;

use vstd::prelude::*;

use crate::block::Block;
use crate::error::{corrupt, Result};
use crate::iter::InternalIterator;
use crate::memtable::Memtable;
use crate::order::{bytes_le, bytes_lt, to_bytes};
use crate::types::ikey_ukey;
use crate::version::{Run, TableHandle, Version};

verus! {

use crate::block::{block_entries, block_parses, count_of, header_ok, p_block_entry};
use crate::iter::{sorted, Kv};
use crate::memtable::ENTRY_OVERHEAD;
use crate::mvcc::{in_range, opt_view};
use crate::order::{lex_le, lex_lt};
use crate::range::{block_in_reach, in_reach, model_of, within};
use crate::recovery::{holds_latest, lemma_insert_latest};
use crate::table::{payload_at, TableModel};
use crate::types::{is_ikey, ukey_of};
use crate::version::fragments_open;

/// A memtable can take the entry.
pub open spec fn takes(kv: Kv) -> bool {
    kv.key.len() + kv.repr.len() + ENTRY_OVERHEAD <= usize::MAX
}

/// The entries of the range in block `k`; nothing at all where it cannot be
/// read.
pub open spec fn block_kvs(
    bytes: Seq<u8>,
    m: TableModel,
    k: int,
    lo: Seq<u8>,
    hi: Option<Seq<u8>>,
) -> Option<Seq<Kv>> {
    match payload_at(bytes, m.index[k].at) {
        None => None,
        Some(d) => if header_ok(d) && block_parses(d) && all_take(
            within(block_entries(d), lo, hi),
        ) {
            Some(within(block_entries(d), lo, hi))
        } else {
            None
        },
    }
}

pub open spec fn all_take(es: Seq<Kv>) -> bool {
    forall|i: int| 0 <= i < es.len() ==> takes(#[trigger] es[i])
}

/// One after the other, where both could be read.
pub open spec fn and_then(a: Option<Seq<Kv>>, b: Option<Seq<Kv>>) -> Option<Seq<Kv>> {
    match (a, b) {
        (Some(x), Some(y)) => Some(x + y),
        _ => None,
    }
}

/// The entries of the range in the first `n` blocks.
pub open spec fn table_kvs(
    bytes: Seq<u8>,
    m: TableModel,
    n: int,
    lo: Seq<u8>,
    hi: Option<Seq<u8>>,
) -> Option<Seq<Kv>>
    decreases n,
{
    if n <= 0 {
        Some(Seq::empty())
    } else {
        let before = table_kvs(bytes, m, n - 1, lo, hi);
        if block_in_reach(m, n - 1, lo, hi) {
            and_then(before, block_kvs(bytes, m, n - 1, lo, hi))
        } else {
            before
        }
    }
}

/// The entries of the range in the first `n` tables.
pub open spec fn tables_kvs(
    ts: Seq<Arc<TableHandle>>,
    n: int,
    lo: Seq<u8>,
    hi: Option<Seq<u8>>,
) -> Option<Seq<Kv>>
    decreases n,
{
    if n <= 0 {
        Some(Seq::empty())
    } else {
        let before = tables_kvs(ts, n - 1, lo, hi);
        if in_reach(ts[n - 1], lo, hi) {
            and_then(before, whole_table_kvs(ts[n - 1], lo, hi))
        } else {
            before
        }
    }
}

pub open spec fn whole_table_kvs(t: Arc<TableHandle>, lo: Seq<u8>, hi: Option<Seq<u8>>) -> Option<
    Seq<Kv>,
> {
    table_kvs(t.table.bytes(), t.table.model(), t.table.model().index.len() as int, lo, hi)
}

/// The entries of the range in the runs from `i` on, the oldest first.
pub open spec fn runs_kvs(rs: Seq<Run>, i: int, lo: Seq<u8>, hi: Option<Seq<u8>>) -> Option<Seq<Kv>>
    decreases rs.len() - i,
{
    if i < 0 || i >= rs.len() {
        Some(Seq::empty())
    } else {
        and_then(
            runs_kvs(rs, i + 1, lo, hi),
            tables_kvs(rs[i].tables@, rs[i].tables@.len() as int, lo, hi),
        )
    }
}

/// The entries of the range in the levels from `l` on, the oldest first.
pub open spec fn levels_kvs(
    ls: Seq<Vec<Run>>,
    l: int,
    lo: Seq<u8>,
    hi: Option<Seq<u8>>,
) -> Option<Seq<Kv>>
    decreases ls.len() - l,
{
    if l < 0 || l >= ls.len() {
        Some(Seq::empty())
    } else {
        and_then(levels_kvs(ls, l + 1, lo, hi), runs_kvs(ls[l]@, 0, lo, hi))
    }
}

fn key_in_range(uk: &[u8], lo: &[u8], hi: &Option<Vec<u8>>) -> (b: bool)
    ensures
        b == in_range(uk@, lo@, opt_view(*hi)),
{
    let below: bool = match hi {
        Some(h) => bytes_lt(uk, h.as_slice()),
        None => true,
    };
    below && bytes_le(lo, uk)
}

/// Collect the entries of the range of one block.
fn gather_block(
    mem: &mut Memtable,
    b: &Block,
    lo: &[u8],
    hi: &Option<Vec<u8>>,
    Ghost(kvs): Ghost<Seq<Kv>>,
) -> (r: Result<()>)
    requires
        old(mem).inv(),
        holds_latest(kvs, old(mem).entries()),
        header_ok(b.payload()),
    ensures
        final(mem).inv(),
        ({
            let d = b.payload();
            let es = within(block_entries(d), lo@, opt_view(*hi));
            match r {
                Ok(_) => block_parses(d) && all_take(es) && holds_latest(
                    kvs + es,
                    final(mem).entries(),
                ),
                Err(e) => e is Corruption && !(block_parses(d) && all_take(es)),
            }
        }),
{
    let ghost d = b.payload();
    let ghost all = block_entries(d);
    let ghost hi_v = opt_view(*hi);
    let n: usize = b.count();
    let mut i: usize = 0;
    proof {
        assert(all.take(0) =~= Seq::<Kv>::empty());
        assert(kvs + within(all.take(0), lo@, hi_v) =~= kvs);
    }
    while i < n
        invariant
            i <= n,
            n == count_of(d),
            d == b.payload(),
            all == block_entries(d),
            hi_v == opt_view(*hi),
            mem.inv(),
            forall|k: int| 0 <= k < i ==> (#[trigger] p_block_entry(d, k)) is Some,
            all_take(within(all.take(i as int), lo@, hi_v)),
            holds_latest(kvs + within(all.take(i as int), lo@, hi_v), mem.entries()),
        decreases n - i,
    {
        let (k, v) = match b.entry(i) {
            Ok(kv) => kv,
            Err(e) => {
                assert(p_block_entry(d, i as int) is None);
                return Err(e);
            },
        };
        let ghost kv = all[i as int];
        let ghost w0 = within(all.take(i as int), lo@, hi_v);
        let ghost w1 = within(all.take(i + 1), lo@, hi_v);
        proof {
            assert(all.take(i + 1).drop_last() =~= all.take(i as int));
            assert(all.take(i + 1).last() == kv);
            assert(kv.key == k@ && kv.repr == v@);
        }
        if key_in_range(ikey_ukey(k), lo, hi) {
            assert(w1 == w0.push(kv));
            if k.len() > usize::MAX - ENTRY_OVERHEAD || v.len() > usize::MAX - ENTRY_OVERHEAD
                - k.len() {
                proof {
                    assert(!takes(kv));
                    lemma_within_prefix(all, i + 1, lo@, hi_v);
                    assert(w1[w0.len() as int] == kv);
                    assert(within(all, lo@, hi_v)[w0.len() as int] == kv);
                }
                return Err(corrupt("block entry exceeds the limits of memory"));
            }
            let ghost es0 = mem.entries();
            mem.insert(to_bytes(k), to_bytes(v));
            proof {
                lemma_insert_latest(kvs + w0, kv, es0, mem.entries());
                assert((kvs + w0).push(kv) =~= kvs + w1);
                assert forall|x: int| 0 <= x < w1.len() implies takes(#[trigger] w1[x]) by {
                    if x < w0.len() {
                        assert(w1[x] == w0[x]);
                    }
                }
            }
        } else {
            assert(w1 == w0);
        }
        i += 1;
    }
    assert(all.take(i as int) =~= all);
    Ok(())
}

/// What is in a range of the first entries is the first part of all of it.
proof fn lemma_within_prefix(es: Seq<Kv>, n: int, lo: Seq<u8>, hi: Option<Seq<u8>>)
    requires
        0 <= n <= es.len(),
    ensures
        within(es.take(n), lo, hi).is_prefix_of(within(es, lo, hi)),
    decreases es.len(),
{
    if n < es.len() {
        let init = es.drop_last();
        lemma_within_prefix(init, n, lo, hi);
        assert(init.take(n) =~= es.take(n));
        let a = within(es.take(n), lo, hi);
        let b = within(init, lo, hi);
        let c = within(es, lo, hi);
        assert(c.take(a.len() as int) =~= b.take(a.len() as int));
    } else {
        assert(es.take(n) =~= es);
        let a = within(es, lo, hi);
        assert(a.take(a.len() as int) =~= a);
    }
}

/// Collect the entries of the range of one table.
fn gather_table(
    mem: &mut Memtable,
    t: &TableHandle,
    lo: &[u8],
    hi: &Option<Vec<u8>>,
    Ghost(kvs): Ghost<Seq<Kv>>,
) -> (r: Result<()>)
    requires
        old(mem).inv(),
        holds_latest(kvs, old(mem).entries()),
        t.table.inv(),
    ensures
        final(mem).inv(),
        ({
            let m = t.table.model();
            let got = table_kvs(t.table.bytes(), m, m.index.len() as int, lo@, opt_view(*hi));
            match r {
                Ok(_) => got matches Some(es) && holds_latest(kvs + es, final(mem).entries()),
                Err(e) => got is None && (e is Corruption || e is Io),
            }
        }),
{
    let ghost m = t.table.model();
    let ghost bytes = t.table.bytes();
    let ghost hi_v = opt_view(*hi);
    let n: usize = t.table.block_count();
    let mut k: usize = 0;
    let ghost mut got: Seq<Kv> = Seq::empty();
    assert(kvs + got =~= kvs);
    while k < n
        invariant
            k <= n,
            n == m.index.len(),
            m == t.table.model(),
            bytes == t.table.bytes(),
            hi_v == opt_view(*hi),
            t.table.inv(),
            mem.inv(),
            table_kvs(bytes, m, k as int, lo@, hi_v) == Some(got),
            holds_latest(kvs + got, mem.entries()),
        decreases n - k,
    {
        let below: bool = match hi {
            Some(h) => if k == 0 {
                bytes_lt(t.table.min_ukey(), h.as_slice())
            } else {
                bytes_lt(ikey_ukey(t.table.block_last(k - 1)), h.as_slice())
            },
            None => true,
        };
        if below && !bytes_lt(ikey_ukey(t.table.block_last(k)), lo) {
            assert(block_in_reach(m, k as int, lo@, hi_v));
            let b = match t.table.load_block(k) {
                Ok(b) => b,
                Err(e) => {
                    proof {
                        assert(block_kvs(bytes, m, k as int, lo@, hi_v) is None);
                        lemma_table_stuck(bytes, m, k + 1, n as int, lo@, hi_v);
                    }
                    return Err(e);
                },
            };
            match gather_block(mem, &b, lo, hi, Ghost(kvs + got)) {
                Ok(()) => {
                    proof {
                        let es = within(block_entries(b.payload()), lo@, hi_v);
                        assert(kvs + got + es =~= kvs + (got + es));
                        got = got + es;
                    }
                },
                Err(e) => {
                    proof {
                        assert(block_kvs(bytes, m, k as int, lo@, hi_v) is None);
                        lemma_table_stuck(bytes, m, k + 1, n as int, lo@, hi_v);
                    }
                    return Err(e);
                },
            }
        }
        k += 1;
    }
    Ok(())
}

proof fn lemma_table_stuck(
    bytes: Seq<u8>,
    m: TableModel,
    k: int,
    n: int,
    lo: Seq<u8>,
    hi: Option<Seq<u8>>,
)
    requires
        k <= n,
        table_kvs(bytes, m, k, lo, hi) is None,
    ensures
        table_kvs(bytes, m, n, lo, hi) is None,
    decreases n - k,
{
    if k < n {
        lemma_table_stuck(bytes, m, k, n - 1, lo, hi);
    }
}

/// Collect the entries of the range of one run.
fn gather_run(
    mem: &mut Memtable,
    run: &Run,
    lo: &[u8],
    hi: &Option<Vec<u8>>,
    Ghost(kvs): Ghost<Seq<Kv>>,
) -> (r: Result<()>)
    requires
        old(mem).inv(),
        holds_latest(kvs, old(mem).entries()),
        fragments_open(run.tables@),
    ensures
        final(mem).inv(),
        ({
            let got = tables_kvs(run.tables@, run.tables@.len() as int, lo@, opt_view(*hi));
            match r {
                Ok(_) => got matches Some(es) && holds_latest(kvs + es, final(mem).entries()),
                Err(e) => got is None && (e is Corruption || e is Io),
            }
        }),
{
    let ghost ts = run.tables@;
    let ghost hi_v = opt_view(*hi);
    let n: usize = run.tables.len();
    let mut k: usize = 0;
    let ghost mut got: Seq<Kv> = Seq::empty();
    assert(kvs + got =~= kvs);
    while k < n
        invariant
            k <= n,
            n == ts.len(),
            ts == run.tables@,
            hi_v == opt_view(*hi),
            fragments_open(ts),
            mem.inv(),
            tables_kvs(ts, k as int, lo@, hi_v) == Some(got),
            holds_latest(kvs + got, mem.entries()),
        decreases n - k,
    {
        let t = &run.tables[k];
        assert(ts[k as int].table.inv());
        let below: bool = match hi {
            Some(h) => bytes_lt(t.table.min_ukey(), h.as_slice()),
            None => true,
        };
        if below && !bytes_lt(t.table.max_ukey(), lo) {
            assert(in_reach(ts[k as int], lo@, hi_v));
            match gather_table(mem, t, lo, hi, Ghost(kvs + got)) {
                Ok(()) => {
                    proof {
                        let es = whole_table_kvs(ts[k as int], lo@, hi_v)->Some_0;
                        assert(kvs + got + es =~= kvs + (got + es));
                        got = got + es;
                    }
                },
                Err(e) => {
                    proof {
                        assert(whole_table_kvs(ts[k as int], lo@, hi_v) is None);
                        lemma_tables_stuck(ts, k + 1, n as int, lo@, hi_v);
                    }
                    return Err(e);
                },
            }
        }
        k += 1;
    }
    Ok(())
}

proof fn lemma_tables_stuck(
    ts: Seq<Arc<TableHandle>>,
    k: int,
    n: int,
    lo: Seq<u8>,
    hi: Option<Seq<u8>>,
)
    requires
        k <= n,
        tables_kvs(ts, k, lo, hi) is None,
    ensures
        tables_kvs(ts, n, lo, hi) is None,
    decreases n - k,
{
    if k < n {
        lemma_tables_stuck(ts, k, n - 1, lo, hi);
    }
}

/// Collect the entries of the range of a level's runs, the oldest first.
fn gather_level(
    mem: &mut Memtable,
    rs: &Vec<Run>,
    lo: &[u8],
    hi: &Option<Vec<u8>>,
    Ghost(kvs): Ghost<Seq<Kv>>,
) -> (r: Result<()>)
    requires
        old(mem).inv(),
        holds_latest(kvs, old(mem).entries()),
        forall|k: int| 0 <= k < rs@.len() ==> fragments_open((#[trigger] rs@[k]).tables@),
    ensures
        final(mem).inv(),
        ({
            let got = runs_kvs(rs@, 0, lo@, opt_view(*hi));
            match r {
                Ok(_) => got matches Some(es) && holds_latest(kvs + es, final(mem).entries()),
                Err(e) => got is None && (e is Corruption || e is Io),
            }
        }),
{
    let ghost hi_v = opt_view(*hi);
    let mut i: usize = rs.len();
    let ghost mut got: Seq<Kv> = Seq::empty();
    assert(kvs + got =~= kvs);
    while i > 0
        invariant
            i <= rs@.len(),
            hi_v == opt_view(*hi),
            forall|k: int| 0 <= k < rs@.len() ==> fragments_open((#[trigger] rs@[k]).tables@),
            mem.inv(),
            runs_kvs(rs@, i as int, lo@, hi_v) == Some(got),
            holds_latest(kvs + got, mem.entries()),
        decreases i,
    {
        i = i - 1;
        let ghost ts = rs@[i as int].tables@;
        assert(fragments_open(rs@[i as int].tables@));
        match gather_run(mem, &rs[i], lo, hi, Ghost(kvs + got)) {
            Ok(()) => {
                proof {
                    let es = tables_kvs(ts, ts.len() as int, lo@, hi_v)->Some_0;
                    assert(kvs + got + es =~= kvs + (got + es));
                    got = got + es;
                }
            },
            Err(e) => {
                proof {
                    lemma_runs_stuck(rs@, 0, i as int, lo@, hi_v);
                }
                return Err(e);
            },
        }
    }
    Ok(())
}

proof fn lemma_runs_stuck(rs: Seq<Run>, i: int, k: int, lo: Seq<u8>, hi: Option<Seq<u8>>)
    requires
        0 <= i <= k < rs.len(),
        runs_kvs(rs, k, lo, hi) is None,
    ensures
        runs_kvs(rs, i, lo, hi) is None,
    decreases k - i,
{
    if i < k {
        lemma_runs_stuck(rs, i + 1, k, lo, hi);
    }
}

/// Collect the entries of the range of a tree, those of newer runs in place of
/// those of older ones.
pub fn gather(v: &Version, lo: &[u8], hi: &Option<Vec<u8>>) -> (r: Result<Memtable>)
    requires
        v.open_runs(),
    ensures
        ({
            let got = levels_kvs(v.levels@, 0, lo@, opt_view(*hi));
            match r {
                Ok(mem) => mem.inv() && (got matches Some(es) && holds_latest(es, mem.entries())),
                Err(e) => got is None && (e is Corruption || e is Io),
            }
        }),
{
    let ghost hi_v = opt_view(*hi);
    let ghost ls = v.levels@;
    let mut mem = Memtable::new(0);
    let mut l: usize = v.levels.len();
    let ghost mut got: Seq<Kv> = Seq::empty();
    while l > 0
        invariant
            l <= ls.len(),
            ls == v.levels@,
            hi_v == opt_view(*hi),
            v.open_runs(),
            mem.inv(),
            levels_kvs(ls, l as int, lo@, hi_v) == Some(got),
            holds_latest(got, mem.entries()),
        decreases l,
    {
        l = l - 1;
        proof {
            let open = |r: Run| fragments_open(r.tables@);
            assert forall|k: int| 0 <= k < ls[l as int]@.len() implies fragments_open(
                (#[trigger] ls[l as int]@[k]).tables@,
            ) by {
                assert(open(ls[l as int]@[k]));
            }
        }
        match gather_level(&mut mem, &v.levels[l], lo, hi, Ghost(got)) {
            Ok(()) => {
                proof {
                    got = got + runs_kvs(ls[l as int]@, 0, lo@, hi_v)->Some_0;
                }
            },
            Err(e) => {
                proof {
                    lemma_levels_stuck(ls, 0, l as int, lo@, hi_v);
                }
                return Err(e);
            },
        }
    }
    Ok(mem)
}

proof fn lemma_levels_stuck(ls: Seq<Vec<Run>>, i: int, k: int, lo: Seq<u8>, hi: Option<Seq<u8>>)
    requires
        0 <= i <= k < ls.len(),
        levels_kvs(ls, k, lo, hi) is None,
    ensures
        levels_kvs(ls, i, lo, hi) is None,
    decreases k - i,
{
    if i < k {
        lemma_levels_stuck(ls, i + 1, k, lo, hi);
    }
}

/// Put the entries of the range of a memtable on top.
pub fn gather_memtable(
    mem: &mut Memtable,
    top: &Memtable,
    lo: &[u8],
    hi: &Option<Vec<u8>>,
    Ghost(kvs): Ghost<Seq<Kv>>,
)
    requires
        old(mem).inv(),
        holds_latest(kvs, old(mem).entries()),
        top.inv(),
        all_take(top.entries()),
    ensures
        final(mem).inv(),
        holds_latest(kvs + within(top.entries(), lo@, opt_view(*hi)), final(mem).entries()),
{
    let ghost es = top.entries();
    let ghost hi_v = opt_view(*hi);
    let mut it = top.iter();
    it.seek_to_first();
    let ghost mut p: int = 0;
    proof {
        top.lemma_sorted();
        it.lemma_inv();
        assert(es.take(0) =~= Seq::<Kv>::empty());
        assert(kvs + within(es.take(0), lo@, hi_v) =~= kvs);
    }
    while it.valid()
        invariant
            it.inv(),
            it.entries() == es,
            es == top.entries(),
            sorted(es),
            all_take(es),
            0 <= p <= es.len(),
            it.pos() == p,
            hi_v == opt_view(*hi),
            mem.inv(),
            holds_latest(kvs + within(es.take(p), lo@, hi_v), mem.entries()),
        decreases es.len() - p,
    {
        let ik = it.ikey();
        let ghost kv = es[p];
        let ghost w0 = within(es.take(p), lo@, hi_v);
        proof {
            assert(is_ikey(es[p].key));
            assert(takes(es[p]));
            assert(es.take(p + 1).drop_last() =~= es.take(p));
            assert(es.take(p + 1).last() == kv);
        }
        if key_in_range(ikey_ukey(ik), lo, hi) {
            let ghost m0 = mem.entries();
            mem.insert(to_bytes(ik), to_bytes(it.value()));
            proof {
                lemma_insert_latest(kvs + w0, kv, m0, mem.entries());
                assert((kvs + w0).push(kv) =~= kvs + w0.push(kv));
            }
        }
        it.next();
        proof {
            p = p + 1;
        }
    }
    assert(es.take(p) =~= es);
}

// ---------------------------------------------------------------------------
// What is collected
// ---------------------------------------------------------------------------

/// Some block of the tree that may hold keys of the range holds the entry.
pub open spec fn held_at(
    ls: Seq<Vec<Run>>,
    l: int,
    r: int,
    t: int,
    k: int,
    lo: Seq<u8>,
    hi: Option<Seq<u8>>,
    kv: Kv,
) -> bool {
    &&& 0 <= l < ls.len()
    &&& 0 <= r < ls[l]@.len()
    &&& 0 <= t < ls[l]@[r].tables@.len()
    &&& in_reach(ls[l]@[r].tables@[t], lo, hi)
    &&& 0 <= k < model_of(ls[l]@[r].tables@[t]).index.len()
    &&& block_in_reach(model_of(ls[l]@[r].tables@[t]), k, lo, hi)
    &&& payload_at(
        bytes_of(ls[l]@[r].tables@[t]),
        model_of(ls[l]@[r].tables@[t]).index[k].at,
    ) matches Some(d) && block_entries(d).contains(kv)
}

pub open spec fn bytes_of(t: Arc<TableHandle>) -> Seq<u8> {
    t.table.bytes()
}

proof fn lemma_contains_concat(a: Seq<Kv>, b: Seq<Kv>, kv: Kv)
    ensures
        (a + b).contains(kv) <==> a.contains(kv) || b.contains(kv),
{
    let s = a + b;
    if a.contains(kv) {
        let i = choose|i: int| 0 <= i < a.len() && a[i] == kv;
        assert(s[i] == kv);
    }
    if b.contains(kv) {
        let i = choose|i: int| 0 <= i < b.len() && b[i] == kv;
        assert(s[a.len() + i] == kv);
    }
    if s.contains(kv) {
        let i = choose|i: int| 0 <= i < s.len() && s[i] == kv;
        if i < a.len() {
            assert(a[i] == kv);
        } else {
            assert(b[i - a.len()] == kv);
        }
    }
}

proof fn lemma_table_has(
    bytes: Seq<u8>,
    m: TableModel,
    n: int,
    lo: Seq<u8>,
    hi: Option<Seq<u8>>,
    k: int,
    kv: Kv,
)
    requires
        0 <= k < n,
        block_in_reach(m, k, lo, hi),
        payload_at(bytes, m.index[k].at) matches Some(d) && block_entries(d).contains(kv),
        in_range(ukey_of(kv.key), lo, hi),
        table_kvs(bytes, m, n, lo, hi) is Some,
    ensures
        table_kvs(bytes, m, n, lo, hi)->Some_0.contains(kv),
    decreases n,
{
    let before = table_kvs(bytes, m, n - 1, lo, hi);
    if k == n - 1 {
        let d = payload_at(bytes, m.index[k].at)->Some_0;
        crate::range::lemma_within_members(block_entries(d), lo, hi, kv);
        lemma_contains_concat(before->Some_0, within(block_entries(d), lo, hi), kv);
    } else {
        lemma_table_has(bytes, m, n - 1, lo, hi, k, kv);
        if block_in_reach(m, n - 1, lo, hi) {
            lemma_contains_concat(
                before->Some_0,
                block_kvs(bytes, m, n - 1, lo, hi)->Some_0,
                kv,
            );
        }
    }
}

proof fn lemma_tables_have(
    ts: Seq<Arc<TableHandle>>,
    n: int,
    lo: Seq<u8>,
    hi: Option<Seq<u8>>,
    t: int,
    kv: Kv,
)
    requires
        0 <= t < n <= ts.len(),
        in_reach(ts[t], lo, hi),
        whole_table_kvs(ts[t], lo, hi) matches Some(es) && es.contains(kv),
        tables_kvs(ts, n, lo, hi) is Some,
    ensures
        tables_kvs(ts, n, lo, hi)->Some_0.contains(kv),
    decreases n,
{
    let before = tables_kvs(ts, n - 1, lo, hi);
    if t == n - 1 {
        lemma_contains_concat(before->Some_0, whole_table_kvs(ts[t], lo, hi)->Some_0, kv);
    } else {
        lemma_tables_have(ts, n - 1, lo, hi, t, kv);
        if in_reach(ts[n - 1], lo, hi) {
            lemma_contains_concat(before->Some_0, whole_table_kvs(ts[n - 1], lo, hi)->Some_0, kv);
        }
    }
}

/// A table whose neighbours could be read could be read.
proof fn lemma_table_read(ts: Seq<Arc<TableHandle>>, n: int, lo: Seq<u8>, hi: Option<Seq<u8>>, t: int)
    requires
        0 <= t < n <= ts.len(),
        in_reach(ts[t], lo, hi),
        tables_kvs(ts, n, lo, hi) is Some,
    ensures
        whole_table_kvs(ts[t], lo, hi) is Some,
    decreases n,
{
    if t < n - 1 {
        lemma_table_read(ts, n - 1, lo, hi, t);
    }
}

proof fn lemma_runs_have(rs: Seq<Run>, i: int, lo: Seq<u8>, hi: Option<Seq<u8>>, r: int, kv: Kv)
    requires
        0 <= i <= r < rs.len(),
        runs_kvs(rs, i, lo, hi) is Some,
        tables_kvs(rs[r].tables@, rs[r].tables@.len() as int, lo, hi) matches Some(es)
            ==> es.contains(kv),
    ensures
        tables_kvs(rs[r].tables@, rs[r].tables@.len() as int, lo, hi) is Some,
        runs_kvs(rs, i, lo, hi)->Some_0.contains(kv),
    decreases rs.len() - i,
{
    let own = tables_kvs(rs[i].tables@, rs[i].tables@.len() as int, lo, hi);
    let rest = runs_kvs(rs, i + 1, lo, hi);
    if r > i {
        lemma_runs_have(rs, i + 1, lo, hi, r, kv);
    }
    lemma_contains_concat(rest->Some_0, own->Some_0, kv);
}

proof fn lemma_levels_have(
    ls: Seq<Vec<Run>>,
    i: int,
    lo: Seq<u8>,
    hi: Option<Seq<u8>>,
    l: int,
    kv: Kv,
)
    requires
        0 <= i <= l < ls.len(),
        levels_kvs(ls, i, lo, hi) is Some,
        runs_kvs(ls[l]@, 0, lo, hi) matches Some(es) ==> es.contains(kv),
    ensures
        runs_kvs(ls[l]@, 0, lo, hi) is Some,
        levels_kvs(ls, i, lo, hi)->Some_0.contains(kv),
    decreases ls.len() - i,
{
    let own = runs_kvs(ls[i]@, 0, lo, hi);
    let rest = levels_kvs(ls, i + 1, lo, hi);
    if l > i {
        lemma_levels_have(ls, i + 1, lo, hi, l, kv);
    }
    lemma_contains_concat(rest->Some_0, own->Some_0, kv);
}

proof fn lemma_level_read(ls: Seq<Vec<Run>>, i: int, lo: Seq<u8>, hi: Option<Seq<u8>>, l: int)
    requires
        0 <= i <= l < ls.len(),
        levels_kvs(ls, i, lo, hi) is Some,
    ensures
        runs_kvs(ls[l]@, 0, lo, hi) is Some,
    decreases l - i,
{
    if i < l {
        lemma_level_read(ls, i + 1, lo, hi, l);
    }
}

proof fn lemma_run_read(rs: Seq<Run>, i: int, lo: Seq<u8>, hi: Option<Seq<u8>>, r: int)
    requires
        0 <= i <= r < rs.len(),
        runs_kvs(rs, i, lo, hi) is Some,
    ensures
        tables_kvs(rs[r].tables@, rs[r].tables@.len() as int, lo, hi) is Some,
    decreases r - i,
{
    if i < r {
        lemma_run_read(rs, i + 1, lo, hi, r);
    }
}

/// Nothing of the range is left out: where a range can be read, every entry of
/// it that some block holds is collected.
pub proof fn lemma_range_is_collected(
    ls: Seq<Vec<Run>>,
    lo: Seq<u8>,
    hi: Option<Seq<u8>>,
    l: int,
    r: int,
    t: int,
    k: int,
    kv: Kv,
)
    requires
        levels_kvs(ls, 0, lo, hi) is Some,
        held_at(ls, l, r, t, k, lo, hi, kv),
        lex_le(lo, ukey_of(kv.key)),
        hi matches Some(h) ==> lex_lt(ukey_of(kv.key), h),
    ensures
        levels_kvs(ls, 0, lo, hi)->Some_0.contains(kv),
{
    let ts = ls[l]@[r].tables@;
    let n = model_of(ts[t]).index.len() as int;
    lemma_level_read(ls, 0, lo, hi, l);
    lemma_run_read(ls[l]@, 0, lo, hi, r);
    lemma_table_read(ts, ts.len() as int, lo, hi, t);
    lemma_table_has(bytes_of(ts[t]), model_of(ts[t]), n, lo, hi, k, kv);
    lemma_tables_have(ts, ts.len() as int, lo, hi, t, kv);
    lemma_runs_have(ls[l]@, 0, lo, hi, r, kv);
    lemma_levels_have(ls, 0, lo, hi, l, kv);
}

} // verus!
