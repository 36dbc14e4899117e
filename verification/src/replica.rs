//! What an edge replica serves: the master's writes within its scope, and
//! nothing from outside of it.

use vstd::prelude::*;

use crate::edge::{EdgeConfig, EdgeState, SliceManifest, StreamEntry};
use crate::types::{SeqNo, MAX_SEQNO};
use crate::error::{Error, Result};

verus! {

use crate::batch::Op;
use crate::compaction::{lemma_find_by_order, value_of};
use crate::edge::{
    as_advertised, cut_hi, cut_lo, edge_kvs, hi_view, in_scope_of, is_edge_page, is_empty_range,
    is_page, is_page_to_damage, is_range_page, is_reached, level_advertised, past_watermark,
    references, run_advertised, slice_advertised, stops_at, stream_end, stream_kv, stream_kvs,
    stream_top, streamable, upserts,
};
use crate::effects::{finds_nothing, is_last_op, touches};
use crate::iter::{sorted, Kv};
use crate::mvcc::{find_newest, found_at, lemma_scan_ascends, lemma_scan_is_exact, live, visible};
use crate::order::{lemma_lex_irreflexive, lemma_lex_total, lemma_lex_transitive, lex_le, lex_lt};
use crate::recovery::{holds_latest, latest_of};
use crate::reopen::fetched;
use crate::stream::{concerning, op_row, row_of, Row};
use crate::table::p_table;
use crate::tree::lemma_one_source;
use crate::types::{
    ikey_before, lemma_entry_ikey, lemma_newer_sorts_first, lemma_repr_roundtrip, p_repr, seqno_of,
    ukey_of, Repr,
};
use crate::vlog::{enc_record, lemma_record_roundtrip, p_record};

/// The key is in `[lo, hi)`, an absent bound being none.
pub open spec fn between(key: Seq<u8>, lo: Option<Seq<u8>>, hi: Option<Seq<u8>>) -> bool {
    &&& lo matches Some(l) ==> lex_le(l, key)
    &&& hi matches Some(h) ==> lex_lt(key, h)
}

proof fn lemma_le_chain(a: Seq<u8>, b: Seq<u8>, c: Seq<u8>)
    requires
        lex_le(a, b),
        lex_le(b, c),
    ensures
        lex_le(a, c),
{
    if a != b && b != c {
        lemma_lex_transitive(a, b, c);
    }
}

proof fn lemma_lt_chain(a: Seq<u8>, b: Seq<u8>, c: Seq<u8>)
    requires
        lex_lt(a, b),
        lex_le(b, c),
    ensures
        lex_lt(a, c),
{
    if b != c {
        lemma_lex_transitive(a, b, c);
    }
}

/// A range narrowed to the scope holds exactly the keys that are in both; where
/// it is empty there is none.
pub proof fn lemma_narrowed_is_both(cfg: EdgeConfig, lo: Option<Seq<u8>>, hi: Option<Seq<u8>>, key: Seq<u8>)
    ensures
        ({
            let (l, h) = cfg.narrowed(lo, hi);
            let both = between(key, lo, hi) && between(
                key,
                Some(cfg.scope_lo@),
                hi_view(cfg.scope_hi),
            );
            &&& both <==> lex_le(l, key) && (h matches Some(x) ==> lex_lt(key, x))
            &&& is_empty_range(l, h) ==> !both
        }),
{
    let (l, h) = cfg.narrowed(lo, hi);
    let s = cfg.scope_lo@;
    if let Some(a) = lo {
        lemma_lex_total(s, a);
        if lex_le(a, key) && lex_lt(s, a) {
            lemma_le_chain(s, a, key);
        }
        if lex_le(s, key) && !lex_lt(s, a) {
            lemma_le_chain(a, s, key);
        }
    }
    if let (Some(a), Some(b)) = (hi, hi_view(cfg.scope_hi)) {
        lemma_lex_total(a, b);
        if lex_lt(key, a) && lex_le(a, b) {
            lemma_lt_chain(key, a, b);
        }
        if lex_lt(key, b) && !lex_le(a, b) {
            lemma_lt_chain(key, b, a);
        }
    }
    if let Some(x) = h {
        if lex_le(x, l) && lex_le(l, key) && lex_lt(key, x) {
            lemma_le_chain(x, l, key);
            lemma_lt_chain(key, x, key);
            lemma_lex_irreflexive(key);
        }
    }
}

/// A subscriber gets the writes of its range, all of them, in order.
pub proof fn lemma_select_is_the_range(es: Seq<Row>, lo: Seq<u8>, hi: Option<Seq<u8>>)
    ensures
        concerning(es, lo, hi) == es.filter(|r: Row| between(r.key, Some(lo), hi)),
    decreases es.len(),
{
    reveal(Seq::filter);
    if es.len() > 0 {
        lemma_select_is_the_range(es.drop_last(), lo, hi);
    } else {
        assert(concerning(es, lo, hi) =~= es.filter(|r: Row| between(r.key, Some(lo), hi)));
    }
}

// ---------------------------------------------------------------------------
// The stream
// ---------------------------------------------------------------------------

/// The entries are what the stream delivers of a batch that committed from
/// `base` on.
pub open spec fn delivers(entries: Seq<StreamEntry>, ops: Seq<Op>, base: nat) -> bool {
    &&& entries.len() == ops.len()
    &&& forall|i: int|
        0 <= i < ops.len() ==> row_of(#[trigger] entries[i]) == op_row(ops[i], (base + i) as u64)
}

/// What an edge gives of a put: its value, in place.
pub open spec fn gives_value(look: Option<Option<Kv>>, value: Seq<u8>) -> bool {
    look matches Some(hit) && (value_of(hit) matches Some(repr) && p_repr(repr) == Some(
        Repr::Inline(value),
    ))
}

proof fn lemma_all_streamed(entries: Seq<StreamEntry>, lo: Seq<u8>, hi: Option<Seq<u8>>, n: int)
    requires
        0 <= n <= entries.len(),
        forall|i: int| 0 <= i < entries.len() ==> streamable(#[trigger] entries[i]),
    ensures
        stream_end(entries, lo, hi, n) == entries.len(),
    decreases entries.len() - n,
{
    if n < entries.len() {
        lemma_all_streamed(entries, lo, hi, n + 1);
    }
}

/// Where an entry of the stream comes from.
proof fn lemma_streamed_from(
    entries: Seq<StreamEntry>,
    lo: Seq<u8>,
    hi: Option<Seq<u8>>,
    n: int,
    x: int,
) -> (i: int)
    requires
        0 <= n <= entries.len(),
        0 <= x < stream_kvs(entries, lo, hi, n).len(),
    ensures
        0 <= i < n,
        in_scope_of(entries[i].key@, lo, hi),
        stream_kvs(entries, lo, hi, n)[x] == stream_kv(entries[i]),
    decreases n,
{
    let before = stream_kvs(entries, lo, hi, n - 1);
    if x < before.len() {
        lemma_streamed_from(entries, lo, hi, n - 1, x)
    } else {
        n - 1
    }
}

/// Where an entry of the stream goes to.
proof fn lemma_streamed_to(
    entries: Seq<StreamEntry>,
    lo: Seq<u8>,
    hi: Option<Seq<u8>>,
    n: int,
    i: int,
) -> (x: int)
    requires
        0 <= i < n <= entries.len(),
        in_scope_of(entries[i].key@, lo, hi),
    ensures
        0 <= x < stream_kvs(entries, lo, hi, n).len(),
        stream_kvs(entries, lo, hi, n)[x] == stream_kv(entries[i]),
    decreases n,
{
    if i == n - 1 {
        stream_kvs(entries, lo, hi, n - 1).len() as int
    } else {
        lemma_streamed_to(entries, lo, hi, n - 1, i)
    }
}

/// Sequences that hold the same versions of a key are read alike.
proof fn lemma_same_versions(a: Seq<Kv>, b: Seq<Kv>, uk: Seq<u8>, snap: nat)
    requires
        sorted(a),
        sorted(b),
        forall|x: Kv| ukey_of(x.key) == uk ==> (#[trigger] a.contains(x) <==> b.contains(x)),
    ensures
        find_newest(a, uk, snap) == find_newest(b, uk, snap),
{
    if exists|i: int| found_at(a, uk, snap, i) {
        lemma_found_there(a, b, uk, snap);
    } else if exists|i: int| found_at(b, uk, snap, i) {
        lemma_found_there(b, a, uk, snap);
    }
}

proof fn lemma_found_there(a: Seq<Kv>, b: Seq<Kv>, uk: Seq<u8>, snap: nat)
    requires
        sorted(a),
        sorted(b),
        forall|x: Kv| ukey_of(x.key) == uk ==> (#[trigger] a.contains(x) <==> b.contains(x)),
        exists|i: int| found_at(a, uk, snap, i),
    ensures
        find_newest(a, uk, snap) == find_newest(b, uk, snap),
{
    let i = choose|i: int| found_at(a, uk, snap, i);
    assert(a.contains(a[i]));
    assert(b.contains(a[i]));
    let k = choose|k: int| 0 <= k < b.len() && b[k] == a[i];
    assert forall|j: int|
        0 <= j < b.len() && ukey_of(#[trigger] b[j].key) == uk && visible(b[j], snap) implies j == k
        || ikey_before(b[k].key, b[j].key) by {
        assert(b.contains(b[j]));
        assert(a.contains(b[j]));
        let m = choose|m: int| 0 <= m < a.len() && a[m] == b[j];
        if m < i {
            assert(!visible(a[m], snap));
        } else if m > i {
            assert(ikey_before(a[i].key, a[m].key));
        } else if j != k {
            if j < k {
                assert(ikey_before(b[j].key, b[k].key));
            } else {
                assert(ikey_before(b[k].key, b[j].key));
            }
        }
    }
    lemma_find_by_order(b, uk, snap, k);
}

/// An edge follows its master: once the stream has delivered a batch, a read of
/// a key in scope gives the value that the batch's last operation on it put, or
/// nothing where that operation deleted it; what the batch does not touch, or
/// what is out of scope, is read as before. The whole batch is taken.
#[verifier::rlimit(50)]
pub proof fn lemma_edge_follows_the_stream(
    before: EdgeState,
    after: EdgeState,
    lo: Seq<u8>,
    hi: Option<Seq<u8>>,
    entries: Seq<StreamEntry>,
    ops: Seq<Op>,
    base: nat,
    uk: Seq<u8>,
)
    requires
        delivers(entries, ops, base),
        base + ops.len() <= MAX_SEQNO,
        sorted(before.overlay.entries()),
        forall|i: int|
            0 <= i < before.overlay.entries().len() ==> seqno_of(
                (#[trigger] before.overlay.entries()[i]).key,
            ) < base,
        after.version == before.version,
        upserts(
            before.overlay.entries(),
            stream_kvs(entries, lo, hi, stream_end(entries, lo, hi, 0)),
            after.overlay.entries(),
        ),
    ensures
        stream_end(entries, lo, hi, 0) == entries.len(),
        between(uk, Some(lo), hi) ==> forall|i: int| #[trigger]
            is_last_op(ops, uk, i) ==> match ops[i] {
                Op::Put { value, .. } => gives_value(after.lookup(uk), value),
                Op::Delete { .. } => finds_nothing(after.lookup(uk)),
            },
        (forall|i: int| 0 <= i < ops.len() ==> !touches(#[trigger] ops[i], uk)) || !between(
            uk,
            Some(lo),
            hi,
        ) ==> after.lookup(uk) == before.lookup(uk),
{
    let n = entries.len() as int;
    assert forall|i: int| 0 <= i < entries.len() implies streamable(#[trigger] entries[i]) by {
        assert(row_of(entries[i]) == op_row(ops[i], (base + i) as u64));
    }
    lemma_all_streamed(entries, lo, hi, 0);
    let kvs = stream_kvs(entries, lo, hi, n);
    let a = before.overlay.entries();
    let b = after.overlay.entries();
    let snap = MAX_SEQNO as nat;
    lemma_one_source(a, uk, snap);
    lemma_one_source(b, uk, snap);
    assert forall|x: int| 0 <= x < kvs.len() implies {
        let i = taken_from(entries, lo, hi, x);
        &&& 0 <= i < n
        &&& in_scope_of(entries[i].key@, lo, hi)
        &&& #[trigger] kvs[x] == stream_kv(entries[i])
    } by {
        lemma_streamed_from(entries, lo, hi, n, x);
        lemma_taken_from(entries, lo, hi, x);
    }
    assert forall|i: int| 0 <= i < n implies {
        let kv = stream_kv(#[trigger] entries[i]);
        &&& ukey_of(kv.key) == entries[i].key@
        &&& seqno_of(kv.key) == base + i
        &&& touches(ops[i], entries[i].key@)
        &&& touches(ops[i], uk) <==> entries[i].key@ == uk
    } by {
        assert(row_of(entries[i]) == op_row(ops[i], (base + i) as u64));
        lemma_entry_ikey(entries[i].key@, entries[i].seqno, entries[i].kind);
    }
    if between(uk, Some(lo), hi) {
        assert forall|i: int| #[trigger] is_last_op(ops, uk, i) implies match ops[i] {
            Op::Put { value, .. } => gives_value(after.lookup(uk), value),
            Op::Delete { .. } => finds_nothing(after.lookup(uk)),
        } by {
            assert(row_of(entries[i]) == op_row(ops[i], (base + i) as u64));
            let kv = stream_kv(entries[i]);
            let x = lemma_streamed_to(entries, lo, hi, n, i);
            assert forall|z: int| 0 <= z < kvs.len() && (#[trigger] kvs[z]).key == kv.key implies kvs[z]
                == kv by {
                let j = taken_from(entries, lo, hi, z);
                assert(kvs[z] == stream_kv(entries[j]));
                assert(seqno_of(stream_kv(entries[j]).key) == base + j);
                assert(seqno_of(kv.key) == base + i);
            }
            let y = lemma_last_of(kvs, kv, x);
            assert(latest_of(kvs, kv));
            assert(b.contains(kv));
            let k = choose|k: int| 0 <= k < b.len() && b[k] == kv;
            assert forall|j: int|
                0 <= j < b.len() && ukey_of(#[trigger] b[j].key) == uk && visible(
                    b[j],
                    snap,
                ) implies j == k || ikey_before(b[k].key, b[j].key) by {
                assert(b.contains(b[j]));
                if latest_of(kvs, b[j]) {
                    let y = choose|y: int| 0 <= y < kvs.len() && #[trigger] kvs[y] == b[j];
                    let m = taken_from(entries, lo, hi, y);
                    assert(kvs[y] == stream_kv(entries[m]));
                    assert(touches(ops[m], uk));
                    assert(m <= i);
                    if m < i {
                        lemma_newer_sorts_first(b[k].key, b[j].key);
                    } else {
                        assert(b[j] == b[k]);
                        if j < k {
                            assert(ikey_before(b[j].key, b[k].key));
                        } else if k < j {
                            assert(ikey_before(b[k].key, b[j].key));
                        }
                    }
                } else {
                    assert(a.contains(b[j]));
                    lemma_newer_sorts_first(b[k].key, b[j].key);
                }
            }
            lemma_find_by_order(b, uk, snap, k);
            lemma_entry_ikey(entries[i].key@, entries[i].seqno, entries[i].kind);
            if let Op::Put { key, value } = ops[i] {
                lemma_repr_roundtrip(Repr::Inline(value));
            }
        }
    }
    if (forall|i: int| 0 <= i < ops.len() ==> !touches(#[trigger] ops[i], uk)) || !between(
        uk,
        Some(lo),
        hi,
    ) {
        assert forall|y: int| 0 <= y < kvs.len() implies ukey_of((#[trigger] kvs[y]).key) != uk by {
            let m = taken_from(entries, lo, hi, y);
            assert(kvs[y] == stream_kv(entries[m]));
            assert(touches(ops[m], entries[m].key@));
        }
        assert forall|x: Kv| ukey_of(x.key) == uk implies (#[trigger] b.contains(x) <==> a.contains(
            x,
        )) by {
            if latest_of(kvs, x) {
                let y = choose|y: int| 0 <= y < kvs.len() && #[trigger] kvs[y] == x;
            }
            assert forall|y: int| 0 <= y < kvs.len() implies (#[trigger] kvs[y]).key != x.key by {}
        }
        lemma_same_versions(b, a, uk, snap);
    }
}

/// What occurs has a last occurrence, where no other entry has its key.
proof fn lemma_last_of(kvs: Seq<Kv>, kv: Kv, x: int) -> (y: int)
    requires
        0 <= x < kvs.len(),
        kvs[x] == kv,
        forall|z: int| 0 <= z < kvs.len() && (#[trigger] kvs[z]).key == kv.key ==> kvs[z] == kv,
    ensures
        x <= y < kvs.len(),
        kvs[y] == kv,
        latest_of(kvs, kv),
    decreases kvs.len() - x,
{
    if exists|z: int| x < z < kvs.len() && (#[trigger] kvs[z]).key == kv.key {
        let z = choose|z: int| x < z < kvs.len() && (#[trigger] kvs[z]).key == kv.key;
        lemma_last_of(kvs, kv, z)
    } else {
        assert(kvs[x] == kv);
        x
    }
}

/// The place in the stream of what was taken of it.
spec fn taken_from(entries: Seq<StreamEntry>, lo: Seq<u8>, hi: Option<Seq<u8>>, x: int) -> int {
    choose|i: int|
        0 <= i < entries.len() && in_scope_of((#[trigger] entries[i]).key@, lo, hi) && stream_kvs(
            entries,
            lo,
            hi,
            entries.len() as int,
        )[x] == stream_kv(entries[i])
}

proof fn lemma_taken_from(entries: Seq<StreamEntry>, lo: Seq<u8>, hi: Option<Seq<u8>>, x: int)
    requires
        0 <= x < stream_kvs(entries, lo, hi, entries.len() as int).len(),
    ensures
        ({
            let i = taken_from(entries, lo, hi, x);
            0 <= i < entries.len() && in_scope_of(entries[i].key@, lo, hi) && stream_kvs(
                entries,
                lo,
                hi,
                entries.len() as int,
            )[x] == stream_kv(entries[i])
        }),
{
    let i = lemma_streamed_from(entries, lo, hi, entries.len() as int, x);
    assert(in_scope_of(entries[i].key@, lo, hi));
}

/// The frontier is the highest seqno that was delivered within the scope, and
/// never falls.
pub proof fn lemma_frontier_is_the_highest(
    entries: Seq<StreamEntry>,
    lo: Seq<u8>,
    hi: Option<Seq<u8>>,
    least: u64,
    n: int,
)
    requires
        0 <= n <= entries.len(),
    ensures
        stream_top(entries, lo, hi, least, n) >= least,
        forall|i: int|
            0 <= i < n && between((#[trigger] entries[i]).key@, Some(lo), hi) ==> entries[i].seqno
                <= stream_top(entries, lo, hi, least, n),
        stream_top(entries, lo, hi, least, n) == least || exists|i: int|
            0 <= i < n && between((#[trigger] entries[i]).key@, Some(lo), hi) && entries[i].seqno
                == stream_top(entries, lo, hi, least, n),
    decreases n,
{
    if n > 0 {
        lemma_frontier_is_the_highest(entries, lo, hi, least, n - 1);
        assert(entries[n - 1].seqno == entries[n - 1].seqno);
    }
}

// ---------------------------------------------------------------------------
// The slice
// ---------------------------------------------------------------------------

/// A slice is installed only if every fragment is what the master said: its file
/// was fetched, has the size that was advertised, opens as a table, and holds
/// keys from the advertised least to the advertised greatest one.
pub proof fn lemma_installed_is_advertised(fs: Seq<(u64, Seq<u8>)>, s: SliceManifest)
    ensures
        slice_advertised(fs, s) <==> forall|l: int, r: int, k: int|
            0 <= l < s.levels@.len() && 0 <= r < s.levels@[l]@.len() && 0 <= k
                < s.levels@[l]@[r].tables@.len() ==> {
                let t = #[trigger] s.levels@[l]@[r].tables@[k];
                &&& fetched(fs, t.id) matches Some(data) && data.len() == t.size && (p_table(
                    data,
                ) matches Some(m) && ukey_of(m.stats.first_ikey) == t.min_ukey@ && ukey_of(
                    m.stats.last_ikey,
                ) == t.max_ukey@)
            },
{
    if slice_advertised(fs, s) {
        assert forall|l: int, r: int, k: int|
            0 <= l < s.levels@.len() && 0 <= r < s.levels@[l]@.len() && 0 <= k
                < s.levels@[l]@[r].tables@.len() implies {
            let t = #[trigger] s.levels@[l]@[r].tables@[k];
            &&& fetched(fs, t.id) matches Some(data) && data.len() == t.size && (p_table(
                data,
            ) matches Some(m) && ukey_of(m.stats.first_ikey) == t.min_ukey@ && ukey_of(
                m.stats.last_ikey,
            ) == t.max_ukey@)
        } by {
            assert(level_advertised(fs, s.levels@[l]@));
            assert(run_advertised(fs, s.levels@[l]@[r]));
            assert(as_advertised(fs, s.levels@[l]@[r].tables@[k]));
        }
    } else {
        let l = choose|l: int|
            0 <= l < s.levels@.len() && !level_advertised(fs, (#[trigger] s.levels@[l])@);
        let r = choose|r: int|
            0 <= r < s.levels@[l]@.len() && !run_advertised(fs, #[trigger] s.levels@[l]@[r]);
        let k = choose|k: int|
            0 <= k < s.levels@[l]@[r].tables@.len() && !as_advertised(
                fs,
                #[trigger] s.levels@[l]@[r].tables@[k],
            );
        assert(!as_advertised(fs, s.levels@[l]@[r].tables@[k]));
    }
}

/// Installing a slice loses no write that is newer than it: where the newest
/// version that the stream delivered of a key was committed after the slice was
/// cut, reads of the key still give it; and nothing older than the slice stays
/// in front of it.
pub proof fn lemma_install_keeps_what_is_newer(
    before: EdgeState,
    after: EdgeState,
    flushed: SeqNo,
    uk: Seq<u8>,
    kv: Kv,
)
    requires
        sorted(before.overlay.entries()),
        past_watermark(before.overlay.entries(), flushed, after.overlay.entries()),
    ensures
        find_newest(before.overlay.entries(), uk, MAX_SEQNO as nat) == Some(kv) && seqno_of(kv.key)
            > flushed ==> after.lookup(uk) == Some(Some(kv)),
        after.overlay.entries().contains(kv) ==> seqno_of(kv.key) > flushed,
{
    let a = before.overlay.entries();
    let b = after.overlay.entries();
    let snap = MAX_SEQNO as nat;
    lemma_one_source(b, uk, snap);
    if find_newest(a, uk, snap) == Some(kv) && seqno_of(kv.key) > flushed {
        let i = choose|i: int| found_at(a, uk, snap, i);
        assert(found_at(a, uk, snap, i));
        assert(a.contains(a[i]));
        assert(b.contains(kv));
        let k = choose|k: int| 0 <= k < b.len() && b[k] == kv;
        assert forall|j: int|
            0 <= j < b.len() && ukey_of(#[trigger] b[j].key) == uk && visible(b[j], snap) implies j
            == k || ikey_before(b[k].key, b[j].key) by {
            assert(b.contains(b[j]));
            assert(a.contains(b[j]));
            let m = choose|m: int| 0 <= m < a.len() && a[m] == b[j];
            if m < i {
                assert(!visible(a[m], snap));
            } else if m > i {
                assert(ikey_before(a[i].key, a[m].key));
            } else if j < k {
                assert(ikey_before(b[j].key, b[k].key));
            } else if k < j {
                assert(ikey_before(b[k].key, b[j].key));
            }
        }
        lemma_find_by_order(b, uk, snap, k);
    }
}

/// A fragment is still needed exactly where some run of the slice names it.
pub proof fn lemma_needed_is_named(s: SliceManifest, l: int, r: int, k: int)
    requires
        0 <= l < s.levels@.len(),
        0 <= r < s.levels@[l]@.len(),
        0 <= k < s.levels@[l]@[r].tables@.len(),
    ensures
        references(s, s.levels@[l]@[r].tables@[k].id),
{
    assert(s.levels@[l]@[r].tables@[k].id == s.levels@[l]@[r].tables@[k].id);
}

// ---------------------------------------------------------------------------
// Pages
// ---------------------------------------------------------------------------

/// A page of an edge holds only keys that are in the caller's range and in the
/// scope, each with the newest version that the edge has of it and that is a
/// value; they come in the order of the scan, each once, no more than the limit;
/// and where the page says that there are no more, no such key is missing.
#[verifier::rlimit(50)]
pub proof fn lemma_page_is_the_range(
    cfg: EdgeConfig,
    lo: Option<Seq<u8>>,
    hi: Option<Seq<u8>>,
    es: Seq<Kv>,
    out: Seq<(Vec<u8>, Vec<u8>)>,
    more: bool,
    reverse: bool,
    limit: int,
)
    requires
        sorted(es),
        0 <= limit,
        ({
            let (l, h) = cfg.narrowed(lo, hi);
            let pairs = crate::mvcc::scan(es, MAX_SEQNO as nat, l, h);
            is_page(
                out,
                more,
                if reverse {
                    pairs.reverse()
                } else {
                    pairs
                },
                limit,
            )
        }),
    ensures
        out.len() <= limit,
        more ==> out.len() == limit,
        forall|i: int|
            0 <= i < out.len() ==> {
                let k = (#[trigger] out[i]).0@;
                &&& between(k, lo, hi)
                &&& between(k, Some(cfg.scope_lo@), hi_view(cfg.scope_hi))
                &&& value_of(find_newest(es, k, MAX_SEQNO as nat)) == Some(out[i].1@)
            },
        forall|i: int, j: int|
            0 <= i < j < out.len() ==> if reverse {
                lex_lt((#[trigger] out[j]).0@, (#[trigger] out[i]).0@)
            } else {
                lex_lt(out[i].0@, out[j].0@)
            },
        !more ==> forall|uk: Seq<u8>|
            between(uk, lo, hi) && between(uk, Some(cfg.scope_lo@), hi_view(cfg.scope_hi))
                && value_of(#[trigger] find_newest(es, uk, MAX_SEQNO as nat)) is Some ==> exists|
                i: int,
            |
                0 <= i < out.len() && (#[trigger] out[i]).0@ == uk,
{
    let at = MAX_SEQNO as nat;
    let (l, h) = cfg.narrowed(lo, hi);
    let pairs = crate::mvcc::scan(es, at, l, h);
    let n = pairs.len() as int;
    let ps = if reverse {
        pairs.reverse()
    } else {
        pairs
    };
    assert forall|i: int| 0 <= i < out.len() implies {
        let k = (#[trigger] out[i]).0@;
        &&& between(k, lo, hi)
        &&& between(k, Some(cfg.scope_lo@), hi_view(cfg.scope_hi))
        &&& value_of(find_newest(es, k, MAX_SEQNO as nat)) == Some(out[i].1@)
    } by {
        let p = ps[i];
        assert(p == (out[i].0@, out[i].1@));
        assert(pairs.contains(p)) by {
            if reverse {
                assert(pairs[n - 1 - i] == p);
            } else {
                assert(pairs[i] == p);
            }
        }
        lemma_scan_is_exact(es, at, l, h, p.0, p.1);
        let k = choose|k: int| #[trigger]
            live(es, at, k) && ukey_of(es[k].key) == p.0 && es[k].repr == p.1;
        assert(found_at(es, p.0, at, k));
        crate::mvcc::lemma_found_unique(es, p.0, at, k);
        lemma_narrowed_is_both(cfg, lo, hi, p.0);
    }
    assert forall|i: int, j: int| 0 <= i < j < out.len() implies if reverse {
        lex_lt((#[trigger] out[j]).0@, (#[trigger] out[i]).0@)
    } else {
        lex_lt(out[i].0@, out[j].0@)
    } by {
        assert(ps[i].0 == out[i].0@ && ps[j].0 == out[j].0@);
        if reverse {
            lemma_scan_ascends(es, at, l, h, n - 1 - j, n - 1 - i);
        } else {
            lemma_scan_ascends(es, at, l, h, i, j);
        }
    }
    if !more {
        assert forall|uk: Seq<u8>|
            between(uk, lo, hi) && between(uk, Some(cfg.scope_lo@), hi_view(cfg.scope_hi))
                && value_of(#[trigger] find_newest(es, uk, MAX_SEQNO as nat)) is Some implies exists|
            i: int,
        |
            0 <= i < out.len() && (#[trigger] out[i]).0@ == uk by {
            lemma_narrowed_is_both(cfg, lo, hi, uk);
            let k = choose|k: int| found_at(es, uk, at, k);
            assert(exists|k: int| found_at(es, uk, at, k));
            assert(live(es, at, k));
            lemma_scan_is_exact(es, at, l, h, uk, es[k].repr);
            let x = choose|x: int| 0 <= x < pairs.len() && pairs[x] == (uk, es[k].repr);
            if reverse {
                assert(ps[n - 1 - x] == pairs[x]);
                assert(out[n - 1 - x].0@ == uk);
            } else {
                assert(out[x].0@ == uk);
            }
        }
    }
}

/// The stream is taken up to the first write that cannot be: a put in scope that
/// came without its value.
pub proof fn lemma_stream_is_taken(entries: Seq<StreamEntry>, lo: Seq<u8>, hi: Option<Seq<u8>>, n: int)
    requires
        0 <= n <= entries.len(),
    ensures
        ({
            let e = stream_end(entries, lo, hi, n);
            &&& n <= e <= entries.len()
            &&& forall|i: int|
                n <= i < e ==> !between((#[trigger] entries[i]).key@, Some(lo), hi)
                    || entries[i].kind is Delete || entries[i].value is Some
            &&& e < entries.len() ==> between(entries[e].key@, Some(lo), hi) && entries[e].kind is Put
                && entries[e].value is None
        }),
    decreases entries.len() - n,
{
    if n < entries.len() && (!in_scope_of(entries[n].key@, lo, hi) || streamable(entries[n])) {
        lemma_stream_is_taken(entries, lo, hi, n + 1);
    }
}

/// Only what the master wrote is served: whatever the master's answer is, a value
/// is given only where the answer is as long as the pointer says and is a whole
/// record of the key; and where it is the record that was written, its value is
/// given.
pub proof fn lemma_only_written_values_are_served(
    got: Result<Vec<u8>>,
    len: u32,
    key: Seq<u8>,
    value: Seq<u8>,
    r: Result<(Vec<u8>, Vec<u8>)>,
)
    requires
        is_reached(got, len, key, r),
        key.len() <= u64::MAX,
        value.len() <= u64::MAX,
    ensures
        r matches Ok((v, record)) ==> got == Ok::<Vec<u8>, Error>(record) && record@.len() == len
            && p_record(record@) == Some((key, v@)),
        got matches Ok(record) ==> (record@ == enc_record(key, value) && record@.len() == len ==> (
        r matches Ok((v, _)) && v@ == value)),
        got is Err ==> r is Err,
{
    lemma_record_roundtrip(key, value);
}

/// A page of a range holds only keys of the range, in the order of the scan, each
/// once, and no more than the limit.
proof fn lemma_page_in_range(
    es: Seq<Kv>,
    l: Seq<u8>,
    h: Option<Seq<u8>>,
    out: Seq<(Vec<u8>, Vec<u8>)>,
    more: bool,
    reverse: bool,
    limit: int,
)
    requires
        sorted(es),
        0 <= limit,
        ({
            let pairs = crate::mvcc::scan(es, MAX_SEQNO as nat, l, h);
            is_page(
                out,
                more,
                if reverse {
                    pairs.reverse()
                } else {
                    pairs
                },
                limit,
            )
        }),
    ensures
        out.len() <= limit,
        forall|i: int| 0 <= i < out.len() ==> between((#[trigger] out[i]).0@, Some(l), h),
        forall|i: int, j: int|
            0 <= i < j < out.len() ==> if reverse {
                lex_lt((#[trigger] out[j]).0@, (#[trigger] out[i]).0@)
            } else {
                lex_lt(out[i].0@, out[j].0@)
            },
{
    let at = MAX_SEQNO as nat;
    let pairs = crate::mvcc::scan(es, at, l, h);
    let n = pairs.len() as int;
    let ps = if reverse {
        pairs.reverse()
    } else {
        pairs
    };
    assert forall|i: int| 0 <= i < out.len() implies between(
        (#[trigger] out[i]).0@,
        Some(l),
        h,
    ) by {
        let p = ps[i];
        assert(p == (out[i].0@, out[i].1@));
        assert(pairs.contains(p)) by {
            if reverse {
                assert(pairs[n - 1 - i] == p);
            } else {
                assert(pairs[i] == p);
            }
        }
        lemma_scan_is_exact(es, at, l, h, p.0, p.1);
    }
    assert forall|i: int, j: int| 0 <= i < j < out.len() implies if reverse {
        lex_lt((#[trigger] out[j]).0@, (#[trigger] out[i]).0@)
    } else {
        lex_lt(out[i].0@, out[j].0@)
    } by {
        assert(ps[i].0 == out[i].0@ && ps[j].0 == out[j].0@);
        if reverse {
            lemma_scan_ascends(es, at, l, h, n - 1 - j, n - 1 - i);
        } else {
            lemma_scan_ascends(es, at, l, h, i, j);
        }
    }
}

/// The part of a range that is read before its damage lies within the range.
proof fn lemma_cut_is_within(
    state: EdgeState,
    l: Seq<u8>,
    h: Option<Seq<u8>>,
    reverse: bool,
    c: Seq<u8>,
    key: Seq<u8>,
)
    requires
        stops_at(state, l, h, reverse, c),
        between(key, Some(cut_lo(l, reverse, c)), cut_hi(h, reverse, c)),
    ensures
        between(key, Some(l), h),
{
    let v = state.version;
    if reverse {
        let (a, b, p) = choose|a: int, b: int, p: crate::range::Place| #[trigger]
            crate::range::damaged_at(v, a, b, p, l, h) && crate::range::place_ceiling(
                v.levels@[a]@[b].tables@,
                p,
            ) == c;
        assert(!lex_lt(c, l));
        lemma_lex_total(c, l);
        assert(lex_lt(c, crate::range::behind(c))) by {
            crate::range::lemma_behind(c);
        }
        lemma_lt_chain(c, crate::range::behind(c), key);
        lemma_le_chain(l, c, key);
    } else {
        let (a, b, p) = choose|a: int, b: int, p: crate::range::Place| #[trigger]
            crate::range::damaged_at(v, a, b, p, l, h) && crate::range::place_floor(
                v.levels@[a]@[b].tables@,
                p,
            ) == c;
        if let Some(x) = h {
            assert(lex_lt(c, x));
            lemma_lex_transitive(key, c, x);
        }
    }
}

/// An edge's scan stays in range and in scope, damage or not: every key of a page
/// is one that the caller asked for and that the edge is there for; the keys come
/// in the order of the scan, each once, no more than the limit.
pub proof fn lemma_edge_scan_stays_in_scope(
    cfg: EdgeConfig,
    state: EdgeState,
    lo: Option<Seq<u8>>,
    hi: Option<Seq<u8>>,
    r: Result<(Vec<(Vec<u8>, Vec<u8>)>, bool)>,
    reverse: bool,
    limit: int,
)
    requires
        0 <= limit,
        ({
            let (l, h) = cfg.narrowed(lo, hi);
            if edge_kvs(state, l, h) is Some {
                is_range_page(r, state, l, h, reverse, limit)
            } else {
                is_page_to_damage(r, state, l, h, reverse, limit)
            }
        }),
    ensures
        r matches Ok((out, more)) ==> {
            &&& out@.len() <= limit
            &&& forall|i: int|
                0 <= i < out@.len() ==> between((#[trigger] out@[i]).0@, lo, hi) && between(
                    out@[i].0@,
                    Some(cfg.scope_lo@),
                    hi_view(cfg.scope_hi),
                )
            &&& forall|i: int, j: int|
                0 <= i < j < out@.len() ==> if reverse {
                    lex_lt((#[trigger] out@[j]).0@, (#[trigger] out@[i]).0@)
                } else {
                    lex_lt(out@[i].0@, out@[j].0@)
                }
        },
{
    let (l, h) = cfg.narrowed(lo, hi);
    if let Ok((out, more)) = r {
        if edge_kvs(state, l, h) is Some {
            let kvs = edge_kvs(state, l, h)->Some_0;
            let es = choose|es: Seq<Kv>| #[trigger]
                holds_latest(kvs, es) && is_edge_page(r, es, l, h, reverse, limit);
            lemma_page_in_range(es, l, h, out@, more, reverse, limit);
        } else {
            let c = choose|c: Seq<u8>| #[trigger]
                stops_at(state, l, h, reverse, c) && is_range_page(
                    r,
                    state,
                    cut_lo(l, reverse, c),
                    cut_hi(h, reverse, c),
                    reverse,
                    limit,
                );
            let cl = cut_lo(l, reverse, c);
            let ch = cut_hi(h, reverse, c);
            let kvs = edge_kvs(state, cl, ch)->Some_0;
            let es = choose|es: Seq<Kv>| #[trigger]
                holds_latest(kvs, es) && is_edge_page(r, es, cl, ch, reverse, limit);
            lemma_page_in_range(es, cl, ch, out@, more, reverse, limit);
            assert forall|i: int| 0 <= i < out@.len() implies between(
                (#[trigger] out@[i]).0@,
                Some(l),
                h,
            ) by {
                lemma_cut_is_within(state, l, h, reverse, c, out@[i].0@);
            }
        }
        assert forall|i: int| 0 <= i < out@.len() implies between(
            (#[trigger] out@[i]).0@,
            lo,
            hi,
        ) && between(out@[i].0@, Some(cfg.scope_lo@), hi_view(cfg.scope_hi)) by {
            lemma_narrowed_is_both(cfg, lo, hi, out@[i].0@);
        }
    }
}

} // verus!
