//! Immutable snapshots of the LSM shape.
//!
//! A `Run` is a sequence of key-ordered, non-overlapping table *fragments*
//! (bounded-size files), which keeps per-file blooms and indexes small and
//! bottom merges resumable. A `Version` is the levels array plus the live
//! value-log file set. Sources are read newest first: the first one that holds
//! a version of a key holds its newest.

use std::sync::Arc;

use vstd::prelude::*;

use crate::block::Block;
use crate::error::{Error, Result};
use crate::iter::{ConcatIter, InternalIterator};
use crate::memtable::{MemIter, Memtable};
use crate::order::{bytes_le, bytes_lt, to_bytes};
use crate::table::reader::{Table, TableIter};
use crate::types::{SeqNo, ValueKind, MAX_SEQNO};

verus! {

use crate::iter::{
    flat, lemma_flat_at, lemma_flat_find, lemma_part_start_monotone, part_start, parts_of, sorted,
    Kv,
};
use crate::mvcc::{find_newest, found_at, lemma_found_unique, newest, visible};
use crate::table::reader::{lookup_answer, table_lookup};
use crate::order::{
    lemma_lex_asymmetric, lemma_lex_irreflexive, lemma_lex_total, lemma_lex_transitive, lex_le,
    lex_lt,
};
use crate::types::{ikey_before, is_ikey, kind_byte_of, kind_of_byte, seqno_of, ukey_of};

/// One table file of a run.
pub struct TableHandle {
    pub id: u64,
    pub path: String,
    pub size: u64,
    pub table: Table,
}

impl TableHandle {
    pub fn new(id: u64, path: String, size: u64, table: Table) -> (h: Self)
        ensures
            h.id == id,
            h.path == path,
            h.size == size,
            h.table == table,
    {
        TableHandle { id, path, size, table }
    }
}

/// A sorted run: fragments ordered by key, pairwise non-overlapping.
pub struct Run {
    pub id: u64,
    pub tables: Vec<Arc<TableHandle>>,
}

pub open spec fn sizes_sum(ts: Seq<Arc<TableHandle>>) -> nat
    decreases ts.len(),
{
    if ts.len() == 0 {
        0
    } else {
        sizes_sum(ts.drop_last()) + ts.last().size as nat
    }
}

/// The entries of each fragment.
pub open spec fn fragments(ts: Seq<Arc<TableHandle>>) -> Seq<Seq<Kv>> {
    ts.map_values(|t: Arc<TableHandle>| t.table.entries())
}

/// Every fragment is sound, and a user key's versions all lie in one fragment.
pub open spec fn fragments_sound(ts: Seq<Arc<TableHandle>>) -> bool {
    &&& forall|k: int| 0 <= k < ts.len() ==> (#[trigger] ts[k]).table.sound()
    &&& ranges_ordered(ts)
}

/// Every fragment is intact, and a user key's versions all lie in one fragment.
pub open spec fn fragments_intact(ts: Seq<Arc<TableHandle>>) -> bool {
    &&& forall|k: int| 0 <= k < ts.len() ==> (#[trigger] ts[k]).table.intact()
    &&& ranges_ordered(ts)
}

pub proof fn lemma_sound_is_intact(ts: Seq<Arc<TableHandle>>)
    requires
        fragments_sound(ts),
    ensures
        fragments_intact(ts),
{
    assert forall|k: int| 0 <= k < ts.len() implies (#[trigger] ts[k]).table.intact() by {
        ts[k].table.lemma_sound_is_intact();
    }
}

/// The first fragment from `from` on that does not end below `uk`.
pub open spec fn fragment_at(ts: Seq<Arc<TableHandle>>, uk: Seq<u8>, from: int) -> int
    decreases ts.len() - from,
{
    if 0 <= from < ts.len() && lex_lt(ukey_of(ts[from].table.model().stats.last_ikey), uk) {
        fragment_at(ts, uk, from + 1)
    } else {
        from
    }
}

/// The single fragment that may contain `uk`, if any.
pub open spec fn fragment_of(ts: Seq<Arc<TableHandle>>, uk: Seq<u8>) -> Option<int> {
    let k = fragment_at(ts, uk, 0);
    if k < ts.len() && lex_le(first_ukey(ts, k), uk) {
        Some(k)
    } else {
        None
    }
}

/// The fragment for `uk` may hold it by its range and filter.
pub open spec fn run_admits(ts: Seq<Arc<TableHandle>>, uk: Seq<u8>) -> bool {
    fragment_of(ts, uk) matches Some(k) && ts[k].table.admits(uk)
}

/// What a lookup in a run finds; nothing at all where the block on its path
/// cannot be read.
pub open spec fn run_lookup(ts: Seq<Arc<TableHandle>>, uk: Seq<u8>, seq: SeqNo) -> Option<
    Option<Kv>,
> {
    match fragment_of(ts, uk) {
        Some(k) => table_lookup(ts[k].table.bytes(), ts[k].table.model(), uk, seq),
        None => Some(None),
    }
}

/// A lookup goes on to the older source only where the newer one could be read
/// and held nothing.
pub open spec fn look_on(newer: Option<Option<Kv>>, older: Option<Option<Kv>>) -> Option<
    Option<Kv>,
> {
    match newer {
        Some(None) => older,
        other => other,
    }
}

/// What a lookup finds in the first `n` runs, the newest first.
pub open spec fn runs_lookup(rs: Seq<Run>, n: int, uk: Seq<u8>, seq: SeqNo) -> Option<Option<Kv>>
    decreases n,
{
    if n <= 0 {
        Some(None)
    } else {
        look_on(runs_lookup(rs, n - 1, uk, seq), run_lookup(rs[n - 1].tables@, uk, seq))
    }
}

/// What a lookup finds in the first `n` levels.
pub open spec fn levels_lookup(ls: Seq<Vec<Run>>, n: int, uk: Seq<u8>, seq: SeqNo) -> Option<
    Option<Kv>,
>
    decreases n,
{
    if n <= 0 {
        Some(None)
    } else {
        look_on(
            levels_lookup(ls, n - 1, uk, seq),
            runs_lookup(ls[n - 1]@, ls[n - 1]@.len() as int, uk, seq),
        )
    }
}

/// What a lookup finds in memtables and behind them a tree. A hit in a memtable
/// needs nothing of the tree.
pub open spec fn sources_lookup(
    mems: Seq<Seq<Kv>>,
    ls: Seq<Vec<Run>>,
    uk: Seq<u8>,
    seq: SeqNo,
) -> Option<Option<Kv>> {
    look_on(Some(first_hit(mems, uk, seq as nat)), levels_lookup(ls, ls.len() as int, uk, seq))
}

/// The tables are open on the same bytes.
pub open spec fn same_tables(a: Seq<Arc<TableHandle>>, b: Seq<Arc<TableHandle>>) -> bool {
    &&& a.len() == b.len()
    &&& forall|k: int|
        0 <= k < a.len() ==> (#[trigger] a[k]).table.bytes() == b[k].table.bytes()
            && a[k].table.model() == b[k].table.model()
}

proof fn lemma_same_fragment(
    a: Seq<Arc<TableHandle>>,
    b: Seq<Arc<TableHandle>>,
    uk: Seq<u8>,
    from: int,
)
    requires
        same_tables(a, b),
        0 <= from <= a.len(),
    ensures
        fragment_at(a, uk, from) == fragment_at(b, uk, from),
        from <= fragment_at(a, uk, from) <= a.len(),
    decreases a.len() - from,
{
    if from < a.len() {
        assert(a[from].table.model() == b[from].table.model());
        lemma_same_fragment(a, b, uk, from + 1);
    }
}

/// Tables that are open on the same bytes are looked up in alike.
pub proof fn lemma_same_tables_lookup(
    a: Seq<Arc<TableHandle>>,
    b: Seq<Arc<TableHandle>>,
    uk: Seq<u8>,
    seq: SeqNo,
)
    requires
        same_tables(a, b),
    ensures
        run_lookup(a, uk, seq) == run_lookup(b, uk, seq),
{
    lemma_same_fragment(a, b, uk, 0);
    let k = fragment_at(a, uk, 0);
    if k < a.len() {
        assert(a[k].table.model() == b[k].table.model());
    }
}

/// A run in front is looked into first.
pub proof fn lemma_front_run_lookup(r: Run, rs: Seq<Run>, n: int, uk: Seq<u8>, seq: SeqNo)
    requires
        0 <= n <= rs.len(),
    ensures
        runs_lookup(seq![r] + rs, n + 1, uk, seq) == look_on(
            run_lookup(r.tables@, uk, seq),
            runs_lookup(rs, n, uk, seq),
        ),
    decreases n,
{
    let s = seq![r] + rs;
    if n > 0 {
        lemma_front_run_lookup(r, rs, n - 1, uk, seq);
        assert(s[n] == rs[n - 1]);
    } else {
        assert(s[0] == r);
        assert(runs_lookup(s, 0, uk, seq) == Some(None::<Kv>));
    }
}

/// A run in front of level 0 is looked into before the tree.
pub proof fn lemma_front_lookup(
    before: Seq<Vec<Run>>,
    after: Seq<Vec<Run>>,
    r: Run,
    n: int,
    uk: Seq<u8>,
    seq: SeqNo,
)
    requires
        0 < n <= before.len(),
        after.len() == before.len(),
        after[0]@ == seq![r] + before[0]@,
        forall|l: int| 1 <= l < before.len() ==> #[trigger] after[l] == before[l],
    ensures
        levels_lookup(after, n, uk, seq) == look_on(
            run_lookup(r.tables@, uk, seq),
            levels_lookup(before, n, uk, seq),
        ),
    decreases n,
{
    if n == 1 {
        lemma_front_run_lookup(r, before[0]@, before[0]@.len() as int, uk, seq);
        assert(levels_lookup(before, 0, uk, seq) == Some(None::<Kv>));
        assert(levels_lookup(after, 0, uk, seq) == Some(None::<Kv>));
    } else {
        lemma_front_lookup(before, after, r, n - 1, uk, seq);
        assert(after[n - 1] == before[n - 1]);
    }
}

proof fn lemma_fragment_at(ts: Seq<Arc<TableHandle>>, uk: Seq<u8>, from: int)
    requires
        0 <= from <= ts.len(),
    ensures
        from <= fragment_at(ts, uk, from) <= ts.len(),
        forall|l: int|
            from <= l < fragment_at(ts, uk, from) ==> lex_lt(
                ukey_of((#[trigger] ts[l]).table.model().stats.last_ikey),
                uk,
            ),
        fragment_at(ts, uk, from) < ts.len() ==> !lex_lt(
            ukey_of(ts[fragment_at(ts, uk, from)].table.model().stats.last_ikey),
            uk,
        ),
    decreases ts.len() - from,
{
    if from < ts.len() && lex_lt(last_ukey(ts, from), uk) {
        lemma_fragment_at(ts, uk, from + 1);
    }
}

/// The key ranges of the fragments follow one another.
pub open spec fn ranges_ordered(ts: Seq<Arc<TableHandle>>) -> bool {
    forall|k: int, l: int|
        0 <= k < l < ts.len() ==> lex_lt(
            ukey_of((#[trigger] ts[k]).table.model().stats.last_ikey),
            ukey_of((#[trigger] ts[l]).table.model().stats.first_ikey),
        )
}

/// In a run whose ranges follow one another, only the fragment for a key has it
/// in its range.
pub proof fn lemma_fragment_of(ts: Seq<Arc<TableHandle>>, uk: Seq<u8>)
    requires
        ranges_ordered(ts),
    ensures
        forall|l: int|
            0 <= l < ts.len() ==> (#[trigger] in_fragment(ts, l, uk) <==> fragment_of(ts, uk)
                == Some(l)),
        fragment_of(ts, uk) matches Some(k) ==> 0 <= k < ts.len(),
{
    let k = fragment_at(ts, uk, 0);
    lemma_fragment_at(ts, uk, 0);
    lemma_lex_irreflexive(uk);
    assert forall|l: int| 0 <= l < ts.len() implies (#[trigger] in_fragment(ts, l, uk)
        <==> fragment_of(ts, uk) == Some(l)) by {
        let hi = ukey_of(ts[l].table.model().stats.last_ikey);
        lemma_lex_total(hi, uk);
        if l < k {
            assert(lex_lt(ukey_of(ts[l].table.model().stats.last_ikey), uk));
            lemma_lex_asymmetric(hi, uk);
        } else if l > k {
            let hi_k = ukey_of(ts[k].table.model().stats.last_ikey);
            assert(lex_lt(
                ukey_of(ts[k].table.model().stats.last_ikey),
                ukey_of(ts[l].table.model().stats.first_ikey),
            ));
            lemma_lex_total(hi_k, uk);
            lemma_le_lt(uk, hi_k, first_ukey(ts, l));
            lemma_lex_asymmetric(uk, first_ukey(ts, l));
        }
    }
}

/// A key that the run does not admit, none of its fragments admits.
pub proof fn lemma_run_not_admitted(ts: Seq<Arc<TableHandle>>, uk: Seq<u8>, k: int)
    requires
        ranges_ordered(ts),
        !run_admits(ts, uk),
        0 <= k < ts.len(),
    ensures
        !ts[k].table.admits(uk),
{
    lemma_fragment_of(ts, uk);
    if fragment_admits(ts, k, uk) {
        assert(in_fragment(ts, k, uk));
    }
}

/// In a sound run a lookup finds what the entries hold.
pub proof fn lemma_sound_run_lookup(r: Run, uk: Seq<u8>, seq: SeqNo)
    requires
        r.sound(),
        seq <= MAX_SEQNO,
    ensures
        run_lookup(r.tables@, uk, seq) == Some(find_newest(r.entries(), uk, seq as nat)),
{
    lemma_sound_tables_lookup(r.tables@, uk, seq);
}

pub proof fn lemma_sound_tables_lookup(ts: Seq<Arc<TableHandle>>, uk: Seq<u8>, seq: SeqNo)
    requires
        fragments_sound(ts),
        seq <= MAX_SEQNO,
    ensures
        run_lookup(ts, uk, seq) == Some(find_newest(flat(fragments(ts)), uk, seq as nat)),
{
    let parts = fragments(ts);
    lemma_fragment_of(ts, uk);
    lemma_sound_is_intact(ts);
    assert forall|l: int, i: int|
        0 <= l < ts.len() && 0 <= i < parts[l].len() && fragment_of(ts, uk) != Some(
            l,
        ) implies ukey_of((#[trigger] parts[l][i]).key) != uk by {
        assert(ts[l].table.intact());
        lemma_table_range(ts[l].table, i);
        assert(!in_fragment(ts, l, uk));
    }
    match fragment_of(ts, uk) {
        Some(k) => {
            assert(ts[k].table.sound());
            lemma_lookup_in_part(parts, uk, seq as nat, k);
            ts[k].table.lemma_sound_lookup(uk, seq);
        },
        None => {
            lemma_lookup_nowhere(parts, uk, seq as nat);
        },
    }
}

/// A lookup in an intact run finds what the entries hold, wherever it can be
/// made.
pub proof fn lemma_intact_run_lookup(r: Run, uk: Seq<u8>, seq: SeqNo)
    requires
        r.intact(),
        seq <= MAX_SEQNO,
    ensures
        run_lookup(r.tables@, uk, seq) matches Some(hit) ==> hit == find_newest(
            r.entries(),
            uk,
            seq as nat,
        ),
{
    let ts = r.tables@;
    let parts = fragments(ts);
    lemma_fragment_of(ts, uk);
    assert forall|l: int, i: int|
        0 <= l < ts.len() && 0 <= i < parts[l].len() && fragment_of(ts, uk) != Some(
            l,
        ) implies ukey_of((#[trigger] parts[l][i]).key) != uk by {
        assert(ts[l].table.intact());
        lemma_table_range(ts[l].table, i);
        assert(!in_fragment(ts, l, uk));
    }
    match fragment_of(ts, uk) {
        Some(k) => {
            assert(ts[k].table.intact());
            lemma_lookup_in_part(parts, uk, seq as nat, k);
            ts[k].table.lemma_intact_lookup(uk, seq);
        },
        None => {
            lemma_lookup_nowhere(parts, uk, seq as nat);
        },
    }
}

proof fn lemma_intact_runs_lookup(rs: Seq<Run>, n: int, uk: Seq<u8>, seq: SeqNo)
    requires
        0 <= n <= rs.len(),
        forall|k: int| 0 <= k < n ==> (#[trigger] rs[k]).intact(),
        seq <= MAX_SEQNO,
    ensures
        runs_lookup(rs, n, uk, seq) matches Some(hit) ==> hit == first_hit(
            runs_entries(rs).take(n),
            uk,
            seq as nat,
        ),
    decreases n,
{
    let es = runs_entries(rs);
    if n > 0 {
        lemma_intact_runs_lookup(rs, n - 1, uk, seq);
        lemma_intact_run_lookup(rs[n - 1], uk, seq);
        assert(es.take(n) =~= es.take(n - 1) + seq![es[n - 1]]);
        lemma_first_hit_split(es.take(n - 1), seq![es[n - 1]], uk, seq as nat);
        assert(seq![es[n - 1]].skip(1) =~= Seq::<Seq<Kv>>::empty());
        reveal_with_fuel(first_hit, 3);
    } else {
        assert(es.take(0) =~= Seq::<Seq<Kv>>::empty());
    }
}

proof fn lemma_intact_levels_lookup(ls: Seq<Vec<Run>>, n: int, uk: Seq<u8>, seq: SeqNo)
    requires
        0 <= n <= ls.len(),
        forall|l: int, k: int|
            0 <= l < n && 0 <= k < ls[l]@.len() ==> (#[trigger] ls[l]@[k]).intact(),
        seq <= MAX_SEQNO,
    ensures
        levels_lookup(ls, n, uk, seq) matches Some(hit) ==> hit == first_hit(
            level_entries(ls, n as nat),
            uk,
            seq as nat,
        ),
    decreases n,
{
    if n > 0 {
        lemma_intact_levels_lookup(ls, n - 1, uk, seq);
        let rs = ls[n - 1]@;
        lemma_intact_runs_lookup(rs, rs.len() as int, uk, seq);
        assert(runs_entries(rs).take(rs.len() as int) =~= runs_entries(rs));
        lemma_first_hit_split(
            level_entries(ls, (n - 1) as nat),
            runs_entries(rs),
            uk,
            seq as nat,
        );
    }
}

/// A lookup over intact tables finds the first hit of all sources, wherever it
/// can be made.
pub proof fn lemma_intact_sources_lookup(
    mems: Seq<Seq<Kv>>,
    v: Version,
    uk: Seq<u8>,
    seq: SeqNo,
)
    requires
        forall|l: int, k: int|
            0 <= l < v.levels@.len() && 0 <= k < v.levels@[l]@.len() ==> (
            #[trigger] v.levels@[l]@[k]).intact(),
        seq <= MAX_SEQNO,
    ensures
        sources_lookup(mems, v.levels@, uk, seq) matches Some(hit) ==> hit == first_hit(
            mems + v.sources(),
            uk,
            seq as nat,
        ),
{
    lemma_intact_levels_lookup(v.levels@, v.levels@.len() as int, uk, seq);
    lemma_first_hit_split(mems, v.sources(), uk, seq as nat);
}

pub proof fn lemma_sound_runs_lookup(rs: Seq<Run>, n: int, uk: Seq<u8>, seq: SeqNo)
    requires
        0 <= n <= rs.len(),
        forall|k: int| 0 <= k < n ==> (#[trigger] rs[k]).sound(),
        seq <= MAX_SEQNO,
    ensures
        runs_lookup(rs, n, uk, seq) == Some(
            first_hit(runs_entries(rs).take(n), uk, seq as nat),
        ),
    decreases n,
{
    let es = runs_entries(rs);
    if n > 0 {
        lemma_sound_runs_lookup(rs, n - 1, uk, seq);
        lemma_sound_run_lookup(rs[n - 1], uk, seq);
        assert(es.take(n) =~= es.take(n - 1) + seq![es[n - 1]]);
        lemma_first_hit_split(es.take(n - 1), seq![es[n - 1]], uk, seq as nat);
        assert(seq![es[n - 1]].skip(1) =~= Seq::<Seq<Kv>>::empty());
        reveal_with_fuel(first_hit, 3);
    } else {
        assert(es.take(0) =~= Seq::<Seq<Kv>>::empty());
    }
}

/// In a sound tree a lookup finds the first hit of its runs.
pub proof fn lemma_sound_levels_lookup(ls: Seq<Vec<Run>>, n: int, uk: Seq<u8>, seq: SeqNo)
    requires
        0 <= n <= ls.len(),
        forall|l: int, k: int|
            0 <= l < n && 0 <= k < ls[l]@.len() ==> (#[trigger] ls[l]@[k]).sound(),
        seq <= MAX_SEQNO,
    ensures
        levels_lookup(ls, n, uk, seq) == Some(
            first_hit(level_entries(ls, n as nat), uk, seq as nat),
        ),
    decreases n,
{
    if n > 0 {
        lemma_sound_levels_lookup(ls, n - 1, uk, seq);
        let rs = ls[n - 1]@;
        lemma_sound_runs_lookup(rs, rs.len() as int, uk, seq);
        assert(runs_entries(rs).take(rs.len() as int) =~= runs_entries(rs));
        lemma_first_hit_split(
            level_entries(ls, (n - 1) as nat),
            runs_entries(rs),
            uk,
            seq as nat,
        );
    }
}

/// Where the tree is sound, a lookup finds the first hit of all sources.
pub proof fn lemma_sound_sources_lookup(
    mems: Seq<Seq<Kv>>,
    v: Version,
    uk: Seq<u8>,
    seq: SeqNo,
)
    requires
        v.sound(),
        seq <= MAX_SEQNO,
    ensures
        sources_lookup(mems, v.levels@, uk, seq) == Some(
            first_hit(mems + v.sources(), uk, seq as nat),
        ),
{
    let ls = v.levels@;
    assert forall|l: int, k: int| 0 <= l < ls.len() && 0 <= k < ls[l]@.len() implies (
    #[trigger] ls[l]@[k]).sound() by {
        let good = |r: Run| r.sound();
        assert(good(ls[l]@[k]));
    }
    lemma_sound_levels_lookup(ls, ls.len() as int, uk, seq);
    lemma_first_hit_split(mems, v.sources(), uk, seq as nat);
}

/// What the first runs settle, all of them do.
proof fn lemma_runs_settled(rs: Seq<Run>, n: int, m: int, uk: Seq<u8>, seq: SeqNo)
    requires
        0 <= n <= m,
        runs_lookup(rs, n, uk, seq) != Some(None::<Kv>),
    ensures
        runs_lookup(rs, m, uk, seq) == runs_lookup(rs, n, uk, seq),
    decreases m - n,
{
    if n < m {
        lemma_runs_settled(rs, n, m - 1, uk, seq);
    }
}

proof fn lemma_levels_settled(ls: Seq<Vec<Run>>, n: int, m: int, uk: Seq<u8>, seq: SeqNo)
    requires
        0 <= n <= m,
        levels_lookup(ls, n, uk, seq) != Some(None::<Kv>),
    ensures
        levels_lookup(ls, m, uk, seq) == levels_lookup(ls, n, uk, seq),
    decreases m - n,
{
    if n < m {
        lemma_levels_settled(ls, n, m - 1, uk, seq);
    }
}

/// `uk` lies in the key range of fragment `k`.
pub open spec fn in_fragment(ts: Seq<Arc<TableHandle>>, k: int, uk: Seq<u8>) -> bool {
    lex_le(ukey_of(ts[k].table.model().stats.first_ikey), uk) && lex_le(
        uk,
        ukey_of(ts[k].table.model().stats.last_ikey),
    )
}

/// The run's tables can be read.
pub open spec fn fragments_open(ts: Seq<Arc<TableHandle>>) -> bool {
    forall|k: int| 0 <= k < ts.len() ==> (#[trigger] ts[k]).table.inv()
}

/// The greatest user key of fragment `k`.
pub open spec fn last_ukey(ts: Seq<Arc<TableHandle>>, k: int) -> Seq<u8> {
    ukey_of(ts[k].table.model().stats.last_ikey)
}

/// Fragment `k` may hold `uk` by its range and filter.
pub open spec fn fragment_admits(ts: Seq<Arc<TableHandle>>, k: int, uk: Seq<u8>) -> bool {
    ts[k].table.admits(uk)
}

/// The least user key of fragment `k`.
pub open spec fn first_ukey(ts: Seq<Arc<TableHandle>>, k: int) -> Seq<u8> {
    ukey_of(ts[k].table.model().stats.first_ikey)
}

/// A sorted sequence's user keys lie between its first and its last one.
proof fn lemma_table_range(t: Table, i: int)
    requires
        t.intact(),
        0 <= i < t.entries().len(),
    ensures
        lex_le(ukey_of(t.model().stats.first_ikey), ukey_of(t.entries()[i].key)),
        lex_le(ukey_of(t.entries()[i].key), ukey_of(t.model().stats.last_ikey)),
{
    t.lemma_intact();
}

proof fn lemma_le_lt(a: Seq<u8>, b: Seq<u8>, c: Seq<u8>)
    requires
        lex_le(a, b),
        lex_lt(b, c),
    ensures
        lex_lt(a, c),
{
    if a != b {
        lemma_lex_transitive(a, b, c);
    }
}

proof fn lemma_lt_le(a: Seq<u8>, b: Seq<u8>, c: Seq<u8>)
    requires
        lex_lt(a, b),
        lex_le(b, c),
    ensures
        lex_lt(a, c),
{
    if b != c {
        lemma_lex_transitive(a, b, c);
    }
}

proof fn lemma_entries_sorted(ts: Seq<Arc<TableHandle>>, k: int)
    requires
        0 <= k < ts.len(),
        ts[k].table.intact(),
    ensures
        sorted(fragments(ts)[k]),
{
    ts[k].table.lemma_intact();
}

/// The entries of a run are in order.
pub proof fn lemma_run_sorted(ts: Seq<Arc<TableHandle>>)
    requires
        fragments_intact(ts),
    ensures
        sorted(flat(fragments(ts))),
        forall|k: int|
            0 <= k < ts.len() && (#[trigger] ts[k]).table.sound() ==> fragments(ts)[k].len() > 0,
{
    let parts = fragments(ts);
    let es = flat(parts);
    assert forall|k: int| 0 <= k < ts.len() implies sorted(#[trigger] parts[k]) by {
        assert(ts[k].table.intact());
        lemma_entries_sorted(ts, k);
    }
    assert forall|k: int| 0 <= k < ts.len() && (
    #[trigger] ts[k]).table.sound() implies parts[k].len() > 0 by {
        ts[k].table.lemma_sound();
    }
    assert forall|x: int| 0 <= x < es.len() implies is_ikey(#[trigger] es[x].key) by {
        let k = lemma_flat_find(parts, x);
        lemma_flat_at(parts, k);
        assert(sorted(parts[k]));
        assert(is_ikey(parts[k][x - part_start(parts, k)].key));
    }
    assert forall|x: int, y: int| 0 <= x < y < es.len() implies ikey_before(
        #[trigger] es[x].key,
        #[trigger] es[y].key,
    ) by {
        let k = lemma_flat_find(parts, x);
        let l = lemma_flat_find(parts, y);
        if l < k {
            lemma_part_start_monotone(parts, l + 1, k);
        }
        lemma_flat_at(parts, k);
        lemma_flat_at(parts, l);
        if k == l {
            assert(sorted(parts[k]));
            assert(ikey_before(
                parts[k][x - part_start(parts, k)].key,
                parts[k][y - part_start(parts, k)].key,
            ));
        } else {
            let i = x - part_start(parts, k);
            let j = y - part_start(parts, l);
            let a = ukey_of(es[x].key);
            let b = ukey_of(es[y].key);
            assert(ts[k].table.intact() && ts[l].table.intact());
            lemma_table_range(ts[k].table, i);
            lemma_table_range(ts[l].table, j);
            let hi = ukey_of(ts[k].table.model().stats.last_ikey);
            let lo = ukey_of(ts[l].table.model().stats.first_ikey);
            lemma_le_lt(a, hi, lo);
            lemma_lt_le(a, lo, b);
        }
    }
}

/// Where only piece `k` holds versions of `uk`, a lookup in all is a lookup in
/// that piece.
proof fn lemma_lookup_in_part(parts: Seq<Seq<Kv>>, uk: Seq<u8>, seq: nat, k: int)
    requires
        0 <= k < parts.len(),
        forall|l: int, i: int|
            0 <= l < parts.len() && l != k && 0 <= i < parts[l].len() ==> ukey_of(
                (#[trigger] parts[l][i]).key,
            ) != uk,
    ensures
        find_newest(flat(parts), uk, seq) == find_newest(parts[k], uk, seq),
{
    let es = flat(parts);
    let p = parts[k];
    let start = part_start(parts, k);
    lemma_flat_at(parts, k);
    if exists|i: int| found_at(p, uk, seq, i) {
        let i = choose|i: int| found_at(p, uk, seq, i);
        assert(found_at(p, uk, seq, i));
        assert(es[start + i] == p[i]);
        assert forall|j: int|
            0 <= j < start + i && ukey_of(#[trigger] es[j].key) == ukey_of(
                es[start + i].key,
            ) implies !visible(es[j], seq) by {
            let l = lemma_flat_find(parts, j);
            lemma_flat_at(parts, l);
            if l != k {
                assert(ukey_of(parts[l][j - part_start(parts, l)].key) != uk);
            } else {
                assert(es[j] == p[j - start]);
            }
        }
        assert(found_at(es, uk, seq, start + i));
        lemma_found_unique(es, uk, seq, start + i);
        lemma_found_unique(p, uk, seq, i);
    } else if exists|x: int| found_at(es, uk, seq, x) {
        let x = choose|x: int| found_at(es, uk, seq, x);
        assert(found_at(es, uk, seq, x));
        let l = lemma_flat_find(parts, x);
        lemma_flat_at(parts, l);
        if l != k {
            assert(ukey_of(parts[l][x - part_start(parts, l)].key) != uk);
        }
        let i = x - start;
        assert forall|j: int|
            0 <= j < i && ukey_of(#[trigger] p[j].key) == ukey_of(p[i].key) implies !visible(
            p[j],
            seq,
        ) by {
            assert(es[start + j] == p[j]);
        }
        assert(found_at(p, uk, seq, i));
        assert(false);
    }
}

proof fn lemma_lookup_nowhere(parts: Seq<Seq<Kv>>, uk: Seq<u8>, seq: nat)
    requires
        forall|l: int, i: int|
            0 <= l < parts.len() && 0 <= i < parts[l].len() ==> ukey_of(
                (#[trigger] parts[l][i]).key,
            ) != uk,
    ensures
        find_newest(flat(parts), uk, seq) is None,
{
    let es = flat(parts);
    if exists|x: int| found_at(es, uk, seq, x) {
        let x = choose|x: int| found_at(es, uk, seq, x);
        assert(found_at(es, uk, seq, x));
        let l = lemma_flat_find(parts, x);
        lemma_flat_at(parts, l);
        assert(ukey_of(parts[l][x - part_start(parts, l)].key) != uk);
    }
}

impl Run {
    pub open spec fn sound(self) -> bool {
        fragments_sound(self.tables@)
    }

    /// Every table is open, and unless a block fails its checksum or does not
    /// parse, it is what a builder wrote.
    pub open spec fn intact(self) -> bool {
        fragments_intact(self.tables@)
    }

    /// All entries of the sound tables, in order.
    pub open spec fn entries(self) -> Seq<Kv> {
        flat(fragments(self.tables@))
    }

    pub fn size(&self) -> (n: u64)
        requires
            sizes_sum(self.tables@) <= u64::MAX,
        ensures
            n == sizes_sum(self.tables@),
    {
        let mut n: u64 = 0;
        let mut i: usize = 0;
        assert(self.tables@.take(0) =~= Seq::empty());
        while i < self.tables.len()
            invariant
                i <= self.tables@.len(),
                n == sizes_sum(self.tables@.take(i as int)),
                sizes_sum(self.tables@) <= u64::MAX,
            decreases self.tables@.len() - i,
        {
            proof {
                assert(self.tables@.take(i + 1).drop_last() =~= self.tables@.take(i as int));
                lemma_sizes_take(self.tables@, i + 1);
            }
            n = n + self.tables[i].size;
            i += 1;
        }
        assert(self.tables@.take(i as int) =~= self.tables@);
        n
    }

    /// The single fragment that may contain `ukey`, if any.
    fn fragment_for(&self, ukey: &[u8]) -> (r: Option<usize>)
        requires
            fragments_open(self.tables@),
        ensures
            match fragment_of(self.tables@, ukey@) {
                Some(k) => r matches Some(x) && x == k && x < self.tables@.len(),
                None => r is None,
            },
    {
        let mut k: usize = 0;
        let ghost ts = self.tables@;
        let mut below: bool = true;
        while below && k < self.tables.len()
            invariant
                k <= ts.len(),
                ts == self.tables@,
                fragments_open(ts),
                fragment_at(ts, ukey@, 0) == fragment_at(ts, ukey@, k as int),
                !below ==> k < ts.len() && fragment_at(ts, ukey@, 0) == k,
            decreases ts.len() - k, below as int,
        {
            assert(ts[k as int].table.inv());
            if bytes_lt(self.tables[k].table.max_ukey(), ukey) {
                k += 1;
            } else {
                below = false;
            }
        }
        if k >= self.tables.len() {
            return None;
        }
        assert(ts[k as int].table.inv());
        if bytes_le(self.tables[k].table.min_ukey(), ukey) {
            Some(k)
        } else {
            None
        }
    }

    /// Newest version of `ukey` with `seqno <= seq` in this run.
    pub fn get(&self, ukey: &[u8], seq: SeqNo) -> (r: Result<Option<(ValueKind, SeqNo, Vec<u8>)>>)
        requires
            fragments_open(self.tables@),
            seq <= MAX_SEQNO,
        ensures
            lookup_answer(r, run_lookup(self.tables@, ukey@, seq)),
    {
        match self.fragment_for(ukey) {
            Some(k) => {
                assert(self.tables@[k as int].table.inv());
                self.tables[k].table.get(ukey, seq)
            },
            None => Ok(None),
        }
    }

    /// Can this run possibly contain `ukey`? Bloom-backed; false means
    /// provably absent (used by the tombstone-drop predicate).
    pub fn may_contain_ukey(&self, ukey: &[u8]) -> (b: bool)
        requires
            fragments_open(self.tables@),
        ensures
            b == run_admits(self.tables@, ukey@),
            self.intact() && !b ==> forall|x: int|
                0 <= x < self.entries().len() ==> ukey_of(#[trigger] self.entries()[x].key)
                    != ukey@,
    {
        let ghost parts = fragments(self.tables@);
        let b = match self.fragment_for(ukey) {
            Some(k) => {
                assert(self.tables@[k as int].table.inv());
                self.tables[k].table.may_contain_ukey(ukey)
            },
            None => false,
        };
        proof {
            if self.intact() && !b {
                assert forall|x: int| 0 <= x < self.entries().len() implies ukey_of(
                    #[trigger] self.entries()[x].key,
                ) != ukey@ by {
                    let l = lemma_flat_find(parts, x);
                    let i = x - part_start(parts, l);
                    lemma_flat_at(parts, l);
                    assert(parts[l][i] == self.entries()[x]);
                    if ukey_of(parts[l][i].key) == ukey@ {
                        assert(self.tables@[l].table.intact());
                        self.tables@[l].table.lemma_holds_admits(i);
                        lemma_run_not_admitted(self.tables@, ukey@, l);
                    }
                }
            }
        }
        b
    }

    /// `bs` are the blocks of the run's tables.
    pub open spec fn holds_blocks(self, bs: Seq<Vec<Block>>) -> bool {
        &&& bs.len() == self.tables@.len()
        &&& forall|k: int|
            0 <= k < bs.len() ==> (#[trigger] self.tables@[k]).table.holds_blocks(bs[k]@)
    }

    /// Every block of every table.
    pub fn load_blocks(&self) -> (r: Result<Vec<Vec<Block>>>)
        requires
            fragments_open(self.tables@),
        ensures
            r matches Ok(bs) ==> self.holds_blocks(bs@),
            r matches Err(e) ==> e is Corruption || e is Io,
            self.sound() ==> r is Ok,
    {
        let mut out: Vec<Vec<Block>> = Vec::new();
        let mut i: usize = 0;
        while i < self.tables.len()
            invariant
                fragments_open(self.tables@),
                i <= self.tables@.len(),
                out@.len() == i,
                forall|k: int|
                    0 <= k < i ==> (#[trigger] self.tables@[k]).table.holds_blocks(out@[k]@),
            decreases self.tables@.len() - i,
        {
            proof {
                assert(self.tables@[i as int].table.inv());
                if self.sound() {
                    assert(self.tables@[i as int].table.sound());
                }
            }
            let bs = self.tables[i].table.load_blocks()?;
            out.push(bs);
            i += 1;
        }
        Ok(out)
    }

    /// A cursor over the run, not positioned yet.
    pub fn iter<'a>(&self, blocks: &'a Vec<Vec<Block>>) -> (it: RunIter<'a>)
        requires
            self.sound(),
            self.holds_blocks(blocks@),
        ensures
            it.inv(),
            it.entries() == self.entries(),
            it.pos() == -1,
    {
        let mut children: Vec<TableIter<'a>> = Vec::new();
        let mut lasts: Vec<Vec<u8>> = Vec::new();
        let ghost parts = fragments(self.tables@);
        let mut i: usize = 0;
        while i < blocks.len()
            invariant
                self.sound(),
                self.holds_blocks(blocks@),
                parts == fragments(self.tables@),
                i <= blocks@.len(),
                children@.len() == i,
                lasts@.len() == i,
                forall|k: int|
                    0 <= k < i ==> (#[trigger] children@[k]).inv() && children@[k].entries()
                        == parts[k] && children@[k].pos() == -1,
                forall|k: int| 0 <= k < i ==> (#[trigger] lasts@[k])@ == parts[k].last().key,
            decreases blocks@.len() - i,
        {
            proof {
                self.tables@[i as int].table.lemma_sound();
            }
            children.push(self.tables[i].table.iter(&blocks[i]));
            lasts.push(to_bytes(self.tables[i].table.last_ikey()));
            i += 1;
        }
        proof {
            lemma_sound_is_intact(self.tables@);
            lemma_run_sorted(self.tables@);
            assert(parts_of(children@) =~= parts);
            assert forall|k: int| 0 <= k < children@.len() implies (
            #[trigger] children@[k]).entries().len() > 0 by {
                assert(self.tables@[k].table.sound());
                assert(parts[k].len() > 0);
            }
        }
        ConcatIter::new(children, lasts)
    }
}

pub proof fn lemma_sizes_take(ts: Seq<Arc<TableHandle>>, n: int)
    requires
        0 <= n <= ts.len(),
    ensures
        sizes_sum(ts.take(n)) <= sizes_sum(ts),
    decreases ts.len(),
{
    if n < ts.len() {
        lemma_sizes_take(ts.drop_last(), n);
        assert(ts.drop_last().take(n) =~= ts.take(n));
    } else {
        assert(ts.take(n) =~= ts);
    }
}

/// Cursor over a run's fragments.
pub type RunIter<'a> = ConcatIter<TableIter<'a>>;

// ---------------------------------------------------------------------------
// Several sources, newest first
// ---------------------------------------------------------------------------

/// The newest visible version in the first source that holds one.
pub open spec fn first_hit(srcs: Seq<Seq<Kv>>, uk: Seq<u8>, seq: nat) -> Option<Kv>
    decreases srcs.len(),
{
    if srcs.len() == 0 {
        None
    } else {
        match find_newest(srcs[0], uk, seq) {
            Some(kv) => Some(kv),
            None => first_hit(srcs.skip(1), uk, seq),
        }
    }
}

/// Every version of a key in an earlier source is newer than every version of
/// it in a later one.
pub open spec fn newest_first(srcs: Seq<Seq<Kv>>) -> bool {
    forall|k: int, l: int, i: int, j: int|
        0 <= k < l < srcs.len() && 0 <= i < srcs[k].len() && 0 <= j < srcs[l].len() && ukey_of(
            (#[trigger] srcs[k][i]).key,
        ) == ukey_of((#[trigger] srcs[l][j]).key) ==> seqno_of(srcs[k][i].key) > seqno_of(
            srcs[l][j].key,
        )
}

/// Where sources are ordered newest first and each is sorted, the first hit
/// is at least as new as every visible version of the key in any source: what
/// a read returns is the newest committed version at or below its seqno.
pub proof fn lemma_first_hit_is_newest(
    srcs: Seq<Seq<Kv>>,
    uk: Seq<u8>,
    seq: nat,
    k: int,
    i: int,
)
    requires
        newest_first(srcs),
        forall|l: int| 0 <= l < srcs.len() ==> sorted(#[trigger] srcs[l]),
        0 <= k < srcs.len(),
        0 <= i < srcs[k].len(),
        ukey_of(srcs[k][i].key) == uk,
        visible(srcs[k][i], seq),
    ensures
        first_hit(srcs, uk, seq) matches Some(kv) && seqno_of(kv.key) >= seqno_of(srcs[k][i].key)
            && ukey_of(kv.key) == uk && visible(kv, seq),
    decreases srcs.len(),
{
    let first = srcs[0];
    assert(sorted(first));
    match find_newest(first, uk, seq) {
        Some(kv) => {
            let x = choose|x: int| found_at(first, uk, seq, x);
            assert(found_at(first, uk, seq, x));
            if k == 0 {
                if i < x {
                    assert(!visible(first[i], seq));
                } else if i > x {
                    assert(ikey_before(first[x].key, first[i].key));
                    lemma_lex_irreflexive(uk);
                }
            } else {
                assert(seqno_of(srcs[0][x].key) > seqno_of(srcs[k][i].key));
            }
        },
        None => {
            if k == 0 {
                lemma_visible_is_found(first, uk, seq, i);
            } else {
                let rest = srcs.skip(1);
                assert forall|a: int, b: int, c: int, d: int|
                    0 <= a < b < rest.len() && 0 <= c < rest[a].len() && 0 <= d < rest[b].len()
                        && ukey_of((#[trigger] rest[a][c]).key) == ukey_of(
                        (#[trigger] rest[b][d]).key,
                    ) implies seqno_of(rest[a][c].key) > seqno_of(rest[b][d].key) by {
                    assert(rest[a][c] == srcs[a + 1][c]);
                    assert(rest[b][d] == srcs[b + 1][d]);
                }
                assert forall|l: int| 0 <= l < rest.len() implies sorted(#[trigger] rest[l]) by {
                    assert(sorted(srcs[l + 1]));
                }
                assert(rest[k - 1][i] == srcs[k][i]);
                lemma_first_hit_is_newest(rest, uk, seq, k - 1, i);
            }
        },
    }
}

/// Where a visible version stands, a newest one does.
pub proof fn lemma_visible_is_found(es: Seq<Kv>, uk: Seq<u8>, seq: nat, i: int)
    requires
        0 <= i < es.len(),
        ukey_of(es[i].key) == uk,
        visible(es[i], seq),
    ensures
        find_newest(es, uk, seq) is Some,
    decreases i,
{
    if exists|j: int|
        0 <= j < i && ukey_of(#[trigger] es[j].key) == uk && visible(es[j], seq) {
        let j = choose|j: int|
            0 <= j < i && ukey_of(#[trigger] es[j].key) == uk && visible(es[j], seq);
        lemma_visible_is_found(es, uk, seq, j);
    } else {
        assert(found_at(es, uk, seq, i));
        lemma_found_unique(es, uk, seq, i);
    }
}

/// Immutable view of the tree structure. Levels hold runs newest-first.
pub struct Version {
    pub levels: Vec<Vec<Run>>,
    /// Every live vlog file (sealed + head).
    pub vlogs: Vec<u64>,
    pub vlog_head_id: u64,
}

pub open spec fn runs_entries(runs: Seq<Run>) -> Seq<Seq<Kv>> {
    runs.map_values(|r: Run| r.entries())
}

/// The runs' entries of the first `n` levels, newest run first.
pub open spec fn level_entries(levels: Seq<Vec<Run>>, n: nat) -> Seq<Seq<Kv>>
    decreases n,
{
    if n == 0 {
        Seq::empty()
    } else {
        level_entries(levels, (n - 1) as nat) + runs_entries(levels[n - 1]@)
    }
}

pub open spec fn all_runs(levels: Seq<Vec<Run>>, good: spec_fn(Run) -> bool) -> bool {
    forall|l: int, k: int|
        0 <= l < levels.len() && 0 <= k < levels[l]@.len() ==> good(#[trigger] levels[l]@[k])
}

pub proof fn lemma_first_hit_split(a: Seq<Seq<Kv>>, b: Seq<Seq<Kv>>, uk: Seq<u8>, seq: nat)
    ensures
        first_hit(a + b, uk, seq) == match first_hit(a, uk, seq) {
            Some(kv) => Some(kv),
            None => first_hit(b, uk, seq),
        },
    decreases a.len(),
{
    if a.len() == 0 {
        assert(a + b =~= b);
    } else {
        assert((a + b).skip(1) =~= a.skip(1) + b);
        lemma_first_hit_split(a.skip(1), b, uk, seq);
    }
}

impl Version {
    pub open spec fn sound(self) -> bool {
        all_runs(self.levels@, |r: Run| r.sound())
    }

    pub open spec fn open_runs(self) -> bool {
        all_runs(self.levels@, |r: Run| fragments_open(r.tables@))
    }

    /// The runs' entries, newest run first.
    pub open spec fn sources(self) -> Seq<Seq<Kv>> {
        level_entries(self.levels@, self.levels@.len())
    }

    /// No runs and no value log.
    pub fn empty(max_levels: usize) -> (v: Self)
        ensures
            v.levels@.len() == max_levels,
            forall|l: int| 0 <= l < max_levels ==> (#[trigger] v.levels@[l])@.len() == 0,
            v.vlogs@.len() == 0,
            v.vlog_head_id == 0,
    {
        let mut levels: Vec<Vec<Run>> = Vec::new();
        let mut i: usize = 0;
        while i < max_levels
            invariant
                i <= max_levels,
                levels@.len() == i,
                forall|l: int| 0 <= l < i ==> (#[trigger] levels@[l])@.len() == 0,
            decreases max_levels - i,
        {
            levels.push(Vec::new());
            i += 1;
        }
        Version { levels, vlogs: Vec::new(), vlog_head_id: 0 }
    }

    /// Newest version of `ukey` with `seqno <= seq` in the runs, the newest
    /// run first.
    pub fn get(&self, ukey: &[u8], seq: SeqNo) -> (r: Result<Option<(ValueKind, SeqNo, Vec<u8>)>>)
        requires
            self.open_runs(),
            seq <= MAX_SEQNO,
        ensures
            lookup_answer(
                r,
                levels_lookup(self.levels@, self.levels@.len() as int, ukey@, seq),
            ),
    {
        let ghost levels = self.levels@;
        let ghost uk = ukey@;
        let mut l: usize = 0;
        while l < self.levels.len()
            invariant
                levels == self.levels@,
                uk == ukey@,
                seq <= MAX_SEQNO,
                self.open_runs(),
                l <= levels.len(),
                levels_lookup(levels, l as int, uk, seq) == Some(None::<Kv>),
            decreases levels.len() - l,
        {
            let ghost runs = levels[l as int]@;
            let mut k: usize = 0;
            while k < self.levels[l].len()
                invariant
                    levels == self.levels@,
                    uk == ukey@,
                    seq <= MAX_SEQNO,
                    self.open_runs(),
                    l < levels.len(),
                    runs == levels[l as int]@,
                    k <= runs.len(),
                    levels_lookup(levels, l as int, uk, seq) == Some(None::<Kv>),
                    runs_lookup(runs, k as int, uk, seq) == Some(None::<Kv>),
                decreases runs.len() - k,
            {
                proof {
                    let good = |r: Run| fragments_open(r.tables@);
                    assert(good(levels[l as int]@[k as int]));
                    if runs_lookup(runs, k + 1, uk, seq) != Some(None::<Kv>) {
                        lemma_runs_settled(runs, k + 1, runs.len() as int, uk, seq);
                        lemma_levels_settled(levels, l + 1, levels.len() as int, uk, seq);
                    }
                }
                match self.levels[l][k].get(ukey, seq) {
                    Ok(Some(hit)) => return Ok(Some(hit)),
                    Ok(None) => {},
                    Err(e) => return Err(e),
                }
                k += 1;
            }
            l += 1;
        }
        Ok(None)
    }
}

/// The run is on the list.
pub open spec fn listed(rs: Seq<&Run>, r: Run) -> bool {
    exists|i: int| 0 <= i < rs.len() && *(#[trigger] rs[i]) == r
}

/// The run stands in the tree.
pub open spec fn in_tree(ls: Seq<Vec<Run>>, r: Run) -> bool {
    exists|l: int, j: int|
        0 <= l < ls.len() && 0 <= j < ls[l]@.len() && #[trigger] ls[l]@[j] == r
}

impl Version {
    /// The runs of the tree, newest first.
    pub fn runs_newest_first(&self) -> (rs: Vec<&Run>)
        ensures
            rs@.map_values(|r: &Run| r.entries()) == self.sources(),
            forall|k: int|
                0 <= k < rs@.len() ==> in_tree(self.levels@, *#[trigger] rs@[k]),
            forall|l: int, k: int|
                0 <= l < self.levels@.len() && 0 <= k < self.levels@[l]@.len() ==> listed(
                    rs@,
                    #[trigger] self.levels@[l]@[k],
                ),
    {
        let mut rs: Vec<&Run> = Vec::new();
        let ghost ls = self.levels@;
        let mut l: usize = 0;
        assert(rs@.map_values(|r: &Run| r.entries()) =~= Seq::<Seq<Kv>>::empty());
        while l < self.levels.len()
            invariant
                l <= ls.len(),
                ls == self.levels@,
                rs@.map_values(|r: &Run| r.entries()) == level_entries(ls, l as nat),
                forall|k: int| 0 <= k < rs@.len() ==> in_tree(ls, *#[trigger] rs@[k]),
                forall|a: int, k: int|
                    0 <= a < l && 0 <= k < ls[a]@.len() ==> listed(rs@, #[trigger] ls[a]@[k]),
            decreases ls.len() - l,
        {
            let level = &self.levels[l];
            let ghost base = level_entries(ls, l as nat);
            let mut k: usize = 0;
            assert(base + runs_entries(level@).take(0) =~= base);
            while k < level.len()
                invariant
                    l < ls.len(),
                    k <= level@.len(),
                    ls == self.levels@,
                    level@ == ls[l as int]@,
                    rs@.map_values(|r: &Run| r.entries()) == base + runs_entries(level@).take(
                        k as int,
                    ),
                    forall|k: int| 0 <= k < rs@.len() ==> in_tree(ls, *#[trigger] rs@[k]),
                    forall|a: int, j: int|
                        0 <= a < ls.len() && 0 <= j < ls[a]@.len() && (a < l || (a == l && j < k))
                            ==> listed(rs@, #[trigger] ls[a]@[j]),
                decreases level@.len() - k,
            {
                let ghost r0 = rs@;
                rs.push(&level[k]);
                proof {
                    let es = runs_entries(level@);
                    assert(rs@.map_values(|r: &Run| r.entries()) =~= r0.map_values(
                        |r: &Run| r.entries(),
                    ).push(es[k as int]));
                    assert(base + es.take(k + 1) =~= (base + es.take(k as int)).push(
                        es[k as int],
                    ));
                    assert forall|a: int, j: int|
                        0 <= a < ls.len() && 0 <= j < ls[a]@.len() && (a < l || (a == l && j
                            <= k)) implies listed(rs@, #[trigger] ls[a]@[j]) by {
                        if a < l || j < k {
                            assert(listed(r0, ls[a]@[j]));
                            let i = choose|i: int|
                                0 <= i < r0.len() && *(#[trigger] r0[i]) == ls[a]@[j];
                            assert(*rs@[i] == ls[a]@[j]);
                        } else {
                            assert(*rs@[r0.len() as int] == ls[a]@[j]);
                        }
                    }
                    assert forall|x: int| 0 <= x < rs@.len() implies in_tree(
                        ls,
                        *#[trigger] rs@[x],
                    ) by {
                        if x < r0.len() {
                            assert(rs@[x] == r0[x]);
                        } else {
                            assert(ls[l as int]@[k as int] == *rs@[x]);
                        }
                    }
                }
                k += 1;
            }
            assert(runs_entries(level@).take(k as int) =~= runs_entries(level@));
            l += 1;
        }
        rs
    }
}

/// A consistent read view: memtables + version, plus the visible seqno.
pub struct ReadView<'a> {
    pub mem: &'a Memtable,
    pub imms: Vec<&'a Memtable>,
    pub version: &'a Version,
    pub visible: SeqNo,
}

pub open spec fn mems_entries(ms: Seq<&Memtable>) -> Seq<Seq<Kv>> {
    ms.map_values(|m: &Memtable| m.entries())
}

/// Every kind byte in the memtables is a known one: writes only put such in.
pub open spec fn mem_kinds_ok(m: Memtable) -> bool {
    crate::iter::kinds_ok(m.entries())
}

impl<'a> ReadView<'a> {
    pub open spec fn inv(self) -> bool {
        &&& self.mem.inv()
        &&& mem_kinds_ok(*self.mem)
        &&& forall|i: int|
            0 <= i < self.imms@.len() ==> (#[trigger] self.imms@[i]).inv() && mem_kinds_ok(
                *self.imms@[i],
            )
        &&& self.version.open_runs()
    }

    /// The sources, newest first.
    pub open spec fn sources(self) -> Seq<Seq<Kv>> {
        seq![self.mem.entries()] + mems_entries(self.imms@) + self.version.sources()
    }

    /// The memtables' entries, newest first.
    pub open spec fn memtables(self) -> Seq<Seq<Kv>> {
        seq![self.mem.entries()] + mems_entries(self.imms@)
    }

    /// What a lookup finds in the view.
    pub open spec fn lookup(self, uk: Seq<u8>, seq: SeqNo) -> Option<Option<Kv>> {
        sources_lookup(self.memtables(), self.version.levels@, uk, seq)
    }

    /// What a lookup of each key finds of all that is committed.
    pub open spec fn newest(self) -> spec_fn(Seq<u8>) -> Option<Option<Kv>> {
        |uk: Seq<u8>| self.lookup(uk, MAX_SEQNO)
    }

    /// Where the tree is sound, a lookup finds the first hit of all sources.
    pub proof fn lemma_sound_lookup(self, uk: Seq<u8>, seq: SeqNo)
        requires
            self.version.sound(),
            seq <= MAX_SEQNO,
        ensures
            self.lookup(uk, seq) == Some(first_hit(self.sources(), uk, seq as nat)),
    {
        lemma_sound_sources_lookup(self.memtables(), *self.version, uk, seq);
    }

    /// Newest version of `ukey` with `seqno <= seq` across the whole view.
    pub fn get_versioned(&self, ukey: &[u8], seq: SeqNo) -> (r: Result<
        Option<(ValueKind, SeqNo, Vec<u8>)>,
    >)
        requires
            self.inv(),
            seq <= MAX_SEQNO,
        ensures
            lookup_answer(r, self.lookup(ukey@, seq)),
    {
        let ghost uk = ukey@;
        let ghost sq = seq as nat;
        let ghost ms = mems_entries(self.imms@);
        let ghost first = seq![self.mem.entries()];
        proof {
            assert(first.skip(1) =~= Seq::<Seq<Kv>>::empty());
            reveal_with_fuel(first_hit, 3);
            lemma_first_hit_split(first, ms, uk, sq);
            lemma_found_kind(self.mem.entries(), uk, sq);
        }
        if let Some(hit) = self.mem.get(ukey, seq) {
            return Ok(Some(hit));
        }
        let mut i: usize = 0;
        assert(ms.take(0) =~= Seq::<Seq<Kv>>::empty());
        while i < self.imms.len()
            invariant
                self.inv(),
                seq <= MAX_SEQNO,
                uk == ukey@,
                sq == seq as nat,
                ms == mems_entries(self.imms@),
                i <= self.imms@.len(),
                first_hit(ms.take(i as int), uk, sq) is None,
                first_hit(seq![self.mem.entries()] + ms, uk, sq) == first_hit(ms, uk, sq),
            decreases self.imms@.len() - i,
        {
            proof {
                assert(ms.take(i + 1) =~= ms.take(i as int) + seq![ms[i as int]]);
                lemma_first_hit_split(ms.take(i as int), seq![ms[i as int]], uk, sq);
                assert(seq![ms[i as int]].skip(1) =~= Seq::<Seq<Kv>>::empty());
                reveal_with_fuel(first_hit, 3);
                assert(ms =~= ms.take(i + 1) + ms.skip(i + 1));
                lemma_first_hit_split(ms.take(i + 1), ms.skip(i + 1), uk, sq);
                assert(self.imms@[i as int].inv());
                lemma_found_kind(ms[i as int], uk, sq);
            }
            if let Some(hit) = self.imms[i].get(ukey, seq) {
                return Ok(Some(hit));
            }
            i += 1;
        }
        assert(ms.take(i as int) =~= ms);
        self.version.get(ukey, seq)
    }

    /// Newest committed (seqno, kind) for `ukey`, tombstones included: the
    /// validation primitive of optimistic transactions.
    pub fn latest(&self, ukey: &[u8]) -> (r: Result<Option<(SeqNo, ValueKind)>>)
        requires
            self.inv(),
        ensures
            match self.lookup(ukey@, MAX_SEQNO) {
                None => r matches Err(e) && (e is Corruption || e is Io),
                Some(Some(kv)) => match kind_of_byte(kind_byte_of(kv.key)) {
                    Some(kind) => r matches Ok(Some((s, k))) && s == seqno_of(kv.key) && k == kind,
                    None => r matches Err(Error::Corruption(_)),
                },
                Some(None) => r matches Ok(None),
            },
    {
        match self.get_versioned(ukey, MAX_SEQNO) {
            Ok(Some((kind, seq, _))) => Ok(Some((seq, kind))),
            Ok(None) => Ok(None),
            Err(e) => Err(e),
        }
    }

    /// Cursors over every source, newest first. `blocks` holds the loaded
    /// blocks of the runs, in the same order.
    pub fn internal_children<'b>(&'b self, runs: &'b Vec<&'b Run>, blocks: &'b Vec<Vec<Vec<Block>>>) -> (cs: Vec<
        Child<'b>,
    >)
        requires
            self.inv(),
            runs@.len() == blocks@.len(),
            forall|k: int|
                0 <= k < runs@.len() ==> (#[trigger] runs@[k]).sound() && runs@[k].holds_blocks(
                    blocks@[k]@,
                ),
        ensures
            forall|k: int| 0 <= k < cs@.len() ==> (#[trigger] cs@[k]).inv(),
            parts_of(cs@) == seq![self.mem.entries()] + mems_entries(self.imms@)
                + runs@.map_values(|r: &Run| r.entries()),
    {
        let mut out: Vec<Child<'b>> = Vec::new();
        out.push(Child::Mem(self.mem.iter()));
        let mut i: usize = 0;
        let ghost ms = mems_entries(self.imms@);
        let ghost rs = runs@.map_values(|r: &Run| r.entries());
        assert(parts_of(out@) =~= seq![self.mem.entries()] + ms.take(0));
        while i < self.imms.len()
            invariant
                self.inv(),
                i <= self.imms@.len(),
                ms == mems_entries(self.imms@),
                forall|k: int| 0 <= k < out@.len() ==> (#[trigger] out@[k]).inv(),
                parts_of(out@) == seq![self.mem.entries()] + ms.take(i as int),
            decreases self.imms@.len() - i,
        {
            let ghost before = parts_of(out@);
            assert(self.imms@[i as int].inv());
            let c = Child::Mem(self.imms[i].iter());
            out.push(c);
            proof {
                assert(parts_of(out@) =~= before.push(ms[i as int]));
                assert(ms.take(i + 1) =~= ms.take(i as int).push(ms[i as int]));
                assert(parts_of(out@) =~= seq![self.mem.entries()] + ms.take(i + 1));
            }
            i += 1;
        }
        let ghost head = seq![self.mem.entries()] + ms;
        let mut j: usize = 0;
        proof {
            assert(ms.take(i as int) =~= ms);
            assert(parts_of(out@) =~= head + rs.take(0));
        }
        while j < runs.len()
            invariant
                j <= runs@.len(),
                runs@.len() == blocks@.len(),
                forall|k: int|
                    0 <= k < runs@.len() ==> (#[trigger] runs@[k]).sound()
                        && runs@[k].holds_blocks(blocks@[k]@),
                rs == runs@.map_values(|r: &Run| r.entries()),
                forall|k: int| 0 <= k < out@.len() ==> (#[trigger] out@[k]).inv(),
                parts_of(out@) == head + rs.take(j as int),
            decreases runs@.len() - j,
        {
            let ghost before = parts_of(out@);
            assert(runs@[j as int].sound());
            let c = Child::Run(runs[j].iter(&blocks[j]));
            out.push(c);
            proof {
                assert(parts_of(out@) =~= before.push(rs[j as int]));
                assert(rs.take(j + 1) =~= rs.take(j as int).push(rs[j as int]));
                assert(parts_of(out@) =~= head + rs.take(j + 1));
            }
            j += 1;
        }
        assert(rs.take(j as int) =~= rs);
        out
    }
}

/// Where every kind is known, what a lookup finds has a known kind.
proof fn lemma_found_kind(es: Seq<Kv>, uk: Seq<u8>, seq: nat)
    requires
        crate::iter::kinds_ok(es),
    ensures
        find_newest(es, uk, seq) matches Some(kv) ==> kind_of_byte(kind_byte_of(kv.key)) is Some,
{
    if exists|i: int| found_at(es, uk, seq, i) {
        let i = choose|i: int| found_at(es, uk, seq, i);
        assert(found_at(es, uk, seq, i));
        assert(kind_of_byte(kind_byte_of(es[i].key)) is Some);
    }
}

/// One source of a merge.
pub enum Child<'a> {
    Mem(MemIter<'a>),
    Run(RunIter<'a>),
    Blocks(TableIter<'a>),
}

impl<'a> InternalIterator for Child<'a> {
    open spec fn entries(&self) -> Seq<Kv> {
        match self {
            Child::Mem(m) => m.entries(),
            Child::Run(r) => r.entries(),
            Child::Blocks(b) => b.entries(),
        }
    }

    open spec fn pos(&self) -> int {
        match self {
            Child::Mem(m) => m.pos(),
            Child::Run(r) => r.pos(),
            Child::Blocks(b) => b.pos(),
        }
    }

    open spec fn inv(&self) -> bool {
        match self {
            Child::Mem(m) => m.inv(),
            Child::Run(r) => r.inv(),
            Child::Blocks(b) => b.inv(),
        }
    }

    proof fn lemma_inv(&self) {
        match self {
            Child::Mem(m) => m.lemma_inv(),
            Child::Run(r) => r.lemma_inv(),
            Child::Blocks(b) => b.lemma_inv(),
        }
    }

    fn seek_to_first(&mut self) {
        match self {
            Child::Mem(m) => m.seek_to_first(),
            Child::Run(r) => r.seek_to_first(),
            Child::Blocks(b) => b.seek_to_first(),
        }
    }

    fn seek_to_last(&mut self) {
        match self {
            Child::Mem(m) => m.seek_to_last(),
            Child::Run(r) => r.seek_to_last(),
            Child::Blocks(b) => b.seek_to_last(),
        }
    }

    fn seek(&mut self, ikey: &[u8]) {
        match self {
            Child::Mem(m) => m.seek(ikey),
            Child::Run(r) => r.seek(ikey),
            Child::Blocks(b) => b.seek(ikey),
        }
    }

    fn seek_for_prev(&mut self, ikey: &[u8]) {
        match self {
            Child::Mem(m) => m.seek_for_prev(ikey),
            Child::Run(r) => r.seek_for_prev(ikey),
            Child::Blocks(b) => b.seek_for_prev(ikey),
        }
    }

    fn valid(&self) -> bool {
        match self {
            Child::Mem(m) => m.valid(),
            Child::Run(r) => r.valid(),
            Child::Blocks(b) => b.valid(),
        }
    }

    fn next(&mut self) {
        match self {
            Child::Mem(m) => m.next(),
            Child::Run(r) => r.next(),
            Child::Blocks(b) => b.next(),
        }
    }

    fn prev(&mut self) {
        match self {
            Child::Mem(m) => m.prev(),
            Child::Run(r) => r.prev(),
            Child::Blocks(b) => b.prev(),
        }
    }

    fn ikey(&self) -> &[u8] {
        match self {
            Child::Mem(m) => m.ikey(),
            Child::Run(r) => r.ikey(),
            Child::Blocks(b) => b.ikey(),
        }
    }

    fn value(&self) -> &[u8] {
        match self {
            Child::Mem(m) => m.value(),
            Child::Run(r) => r.value(),
            Child::Blocks(b) => b.value(),
        }
    }
}

} // verus!
