//! Background structure maintenance: lazy-leveling compaction, value-log GC
//! decisions, and retired-victim reclamation.
//!
//! Lazy leveling: levels 0..last are tiered: when a level accumulates
//! `tier_width` runs (l0 has its own trigger) ALL of its runs merge into one
//! run placed at the FRONT (newest position) of the next level. The last
//! level is leveled, maintained INCREMENTALLY: one newer run at a time
//! merges into the base run, touching only the base tables its key range
//! overlaps; untouched fragments are spliced through by identity. When the
//! bottom outgrows its byte budget the tree deepens: a new level is created
//! below and the old bottom tier-merges into it.

use std::sync::Arc;

use vstd::prelude::*;

use crate::block::Block;
use crate::counts::add_count;
use crate::error::{Error, Result};
use crate::iter::{InternalIterator, MergeIterator};
use crate::order::{bytes_eq, to_bytes};
use crate::memtable::Memtable;
use crate::table::builder::TableBuilder;
use crate::table::TableStats;
use crate::types::{decode_repr, ikey_kind, ikey_seqno, ikey_ukey, ReprRef, SeqNo, ValueKind};
use crate::version::{Run, RunIter, TableHandle};

verus! {

use crate::counts::{ascending, count_of, counts_id, sat_add};
use crate::iter::{
    dir_before, flat, in_some, kinds_ok, lemma_merged, mergeable, merged, sorted, Kv,
};
use crate::mvcc::{
    find_newest, found_at, lemma_found_unique, lemma_ukeys_ascend, newest, visible,
};
use crate::order::{lemma_lex_asymmetric, lemma_lex_irreflexive, lemma_lex_transitive, lex_lt};
use crate::table::builder::{
    block_unfit, lemma_unfit, lemma_unfit_entry, lemma_unfit_push, table_fits, table_size,
};
use crate::table::{block_reads, p_table, payload_at, table_entries, table_sound};
use crate::types::{
    ikey_before, is_ikey, kind_byte_of, kind_of_byte, lemma_ikey_asymmetric,
    lemma_ikey_irreflexive, p_repr, seqno_of, ukey_of, Repr,
};
use crate::version::{
    first_hit, fragments, fragments_open, fragments_sound, lemma_first_hit_is_newest, lemma_first_hit_split,
    lemma_visible_is_found, newest_first, run_admits, runs_entries,
};

// ---------------------------------------------------------------------------
// What a merge keeps
// ---------------------------------------------------------------------------

pub open spec fn is_delete(kv: Kv) -> bool {
    kind_of_byte(kind_byte_of(kv.key)) == Some(ValueKind::Delete)
}

pub open spec fn is_put(kv: Kv) -> bool {
    kind_of_byte(kind_byte_of(kv.key)) == Some(ValueKind::Put)
}

/// A merge at watermark `w` keeps entry `i`: some possible snapshot may still
/// see past it, or it is the newest version at or below the watermark, unless
/// that is a tombstone whose key no older run may hold.
pub open spec fn kept(
    es: Seq<Kv>,
    w: nat,
    older: spec_fn(Seq<u8>) -> bool,
    i: int,
) -> bool {
    !visible(es[i], w) || (newest(es, w, i) && !(is_delete(es[i]) && !older(ukey_of(es[i].key))))
}

/// What a merge keeps of the first `n` entries.
pub open spec fn keep_upto(
    es: Seq<Kv>,
    w: nat,
    older: spec_fn(Seq<u8>) -> bool,
    n: int,
) -> Seq<Kv>
    decreases n,
{
    if n <= 0 {
        Seq::empty()
    } else {
        let before = keep_upto(es, w, older, n - 1);
        if kept(es, w, older, n - 1) {
            before.push(es[n - 1])
        } else {
            before
        }
    }
}

/// What a merge at watermark `w` makes of its input.
pub open spec fn compacted(es: Seq<Kv>, w: nat, older: spec_fn(Seq<u8>) -> bool) -> Seq<Kv> {
    keep_upto(es, w, older, es.len() as int)
}

/// Entry `i` is a value that every live snapshot sees overwritten.
pub open spec fn dropped_put(es: Seq<Kv>, w: nat, i: int) -> bool {
    visible(es[i], w) && !newest(es, w, i) && is_put(es[i])
}

/// The dead bytes that dropping entry `i` leaves in value-log file `f`.
pub open spec fn dead_at(es: Seq<Kv>, w: nat, i: int, f: u64) -> Option<u32> {
    if dropped_put(es, w, i) {
        match p_repr(es[i].repr) {
            Some(Repr::Ptr(p)) => if p.file == f {
                Some(p.len)
            } else {
                None
            },
            _ => None,
        }
    } else {
        None
    }
}

/// Dead bytes that the first `n` entries leave in file `f`.
pub open spec fn dead_bytes(es: Seq<Kv>, w: nat, n: int, f: u64) -> u64
    decreases n,
{
    if n <= 0 {
        0
    } else {
        match dead_at(es, w, n - 1, f) {
            Some(len) => sat_add(dead_bytes(es, w, n - 1, f), len as u64),
            None => dead_bytes(es, w, n - 1, f),
        }
    }
}

/// Every dropped value's representation can be read.
pub open spec fn dropped_reprs_ok(es: Seq<Kv>, w: nat) -> bool {
    forall|i: int|
        0 <= i < es.len() && #[trigger] dropped_put(es, w, i) ==> p_repr(es[i].repr) is Some
}

pub proof fn lemma_keep_members(
    es: Seq<Kv>,
    w: nat,
    older: spec_fn(Seq<u8>) -> bool,
    n: int,
    kv: Kv,
)
    requires
        0 <= n <= es.len(),
    ensures
        keep_upto(es, w, older, n).contains(kv) <==> exists|i: int|
            0 <= i < n && #[trigger] kept(es, w, older, i) && es[i] == kv,
    decreases n,
{
    let s = keep_upto(es, w, older, n);
    if n > 0 {
        lemma_keep_members(es, w, older, n - 1, kv);
        let before = keep_upto(es, w, older, n - 1);
        if s.contains(kv) {
            let x = choose|x: int| 0 <= x < s.len() && s[x] == kv;
            if x < before.len() {
                assert(before[x] == kv);
                assert(before.contains(kv));
            } else {
                assert(kept(es, w, older, n - 1));
            }
        }
        if exists|i: int| 0 <= i < n && #[trigger] kept(es, w, older, i) && es[i] == kv {
            let i = choose|i: int| 0 <= i < n && #[trigger] kept(es, w, older, i) && es[i] == kv;
            if i < n - 1 {
                assert(before.contains(kv));
                let x = choose|x: int| 0 <= x < before.len() && before[x] == kv;
                assert(s[x] == kv);
            } else {
                assert(s[s.len() - 1] == kv);
            }
        }
    }
}

/// What a merge keeps of sorted entries is sorted, and ends at or before the
/// last entry looked at.
pub proof fn lemma_keep_sorted(es: Seq<Kv>, w: nat, older: spec_fn(Seq<u8>) -> bool, n: int)
    requires
        sorted(es),
        0 <= n <= es.len(),
    ensures
        sorted(keep_upto(es, w, older, n)),
        keep_upto(es, w, older, n).len() <= n,
        forall|x: int|
            #![trigger keep_upto(es, w, older, n)[x]]
            0 <= x < keep_upto(es, w, older, n).len() ==> exists|i: int|
                0 <= i < n && #[trigger] es[i] == keep_upto(es, w, older, n)[x],
    decreases n,
{
    if n > 0 {
        lemma_keep_sorted(es, w, older, n - 1);
        let before = keep_upto(es, w, older, n - 1);
        let s = keep_upto(es, w, older, n);
        assert(es.take(n).drop_last() =~= es.take(n - 1));
        if kept(es, w, older, n - 1) {
            assert(s.drop_last() =~= before);
            if before.len() > 0 {
                let x = before.len() - 1;
                let i = choose|i: int| 0 <= i < n - 1 && #[trigger] es[i] == before[x];
                assert(ikey_before(es[i].key, es[n - 1].key));
            }
            crate::iter::lemma_sorted_push(before, es[n - 1]);
        }
        assert forall|x: int| #![trigger s[x]] 0 <= x < s.len() implies exists|i: int|
            0 <= i < n && #[trigger] es[i] == s[x] by {
            if x < before.len() {
                let i = choose|i: int| 0 <= i < n - 1 && #[trigger] es[i] == before[x];
                assert(es[i] == s[x]);
            } else {
                assert(es[n - 1] == s[x]);
            }
        }
    } else {
        assert(es.take(0) =~= Seq::<Kv>::empty());
    }
}

/// A version in a sorted sequence is what a read finds where every other
/// visible version of its key sorts after it.
pub proof fn lemma_find_by_order(es: Seq<Kv>, uk: Seq<u8>, snap: nat, i: int)
    requires
        sorted(es),
        0 <= i < es.len(),
        ukey_of(es[i].key) == uk,
        visible(es[i], snap),
        forall|j: int|
            0 <= j < es.len() && ukey_of(#[trigger] es[j].key) == uk && visible(es[j], snap)
                ==> j == i || ikey_before(es[i].key, es[j].key),
    ensures
        find_newest(es, uk, snap) == Some(es[i]),
{
    assert forall|j: int|
        0 <= j < i && ukey_of(#[trigger] es[j].key) == ukey_of(es[i].key) implies !visible(
        es[j],
        snap,
    ) by {
        assert(ikey_before(es[j].key, es[i].key));
        lemma_ikey_asymmetric(es[j].key, es[i].key);
    }
    assert(found_at(es, uk, snap, i));
    lemma_found_unique(es, uk, snap, i);
}

/// Later versions of one key in a sorted sequence have lower or equal seqnos.
proof fn lemma_seqnos_descend(es: Seq<Kv>, i: int, j: int)
    requires
        sorted(es),
        0 <= i < j < es.len(),
        ukey_of(es[i].key) == ukey_of(es[j].key),
    ensures
        seqno_of(es[j].key) <= seqno_of(es[i].key),
{
    assert(ikey_before(es[i].key, es[j].key));
    lemma_lex_irreflexive(ukey_of(es[i].key));
}

/// Merging preserves every read at or above the watermark: it finds the same
/// version as before, or nothing in place of a tombstone whose key no older
/// run may hold.
pub proof fn lemma_compaction_preserves_reads(
    es: Seq<Kv>,
    w: nat,
    older: spec_fn(Seq<u8>) -> bool,
    uk: Seq<u8>,
    snap: nat,
)
    requires
        sorted(es),
        w <= snap,
    ensures
        ({
            let a = find_newest(es, uk, snap);
            let b = find_newest(compacted(es, w, older), uk, snap);
            a == b || (a matches Some(kv) && is_delete(kv) && visible(kv, w) && !older(uk) && b
                is None)
        }),
{
    let ks = compacted(es, w, older);
    let n = es.len() as int;
    lemma_keep_sorted(es, w, older, n);
    if exists|i: int| found_at(es, uk, snap, i) {
        let i = choose|i: int| found_at(es, uk, snap, i);
        assert(found_at(es, uk, snap, i));
        lemma_found_unique(es, uk, snap, i);
        if visible(es[i], w) {
            assert forall|j: int|
                0 <= j < i && ukey_of(#[trigger] es[j].key) == ukey_of(es[i].key) implies !visible(
                es[j],
                w,
            ) by {
                assert(!visible(es[j], snap));
            }
            assert(newest(es, w, i));
        }
        if kept(es, w, older, i) {
            lemma_keep_members(es, w, older, n, es[i]);
            let x = choose|x: int| 0 <= x < ks.len() && ks[x] == es[i];
            assert forall|y: int|
                0 <= y < ks.len() && ukey_of(#[trigger] ks[y].key) == uk && visible(
                    ks[y],
                    snap,
                ) implies y == x || ikey_before(ks[x].key, ks[y].key) by {
                let j = choose|j: int| 0 <= j < n && #[trigger] es[j] == ks[y];
                if j < i {
                    assert(!visible(es[j], snap));
                } else if j > i {
                    assert(ikey_before(es[i].key, es[j].key));
                } else if y != x {
                    if y < x {
                        assert(ikey_before(ks[y].key, ks[x].key));
                    } else {
                        assert(ikey_before(ks[x].key, ks[y].key));
                    }
                    lemma_ikey_irreflexive(es[i].key);
                }
            }
            lemma_find_by_order(ks, uk, snap, x);
        } else {
            assert(is_delete(es[i]) && !older(uk));
            if exists|y: int| found_at(ks, uk, snap, y) {
                let y = choose|y: int| found_at(ks, uk, snap, y);
                assert(found_at(ks, uk, snap, y));
                assert(ks.contains(ks[y]));
                lemma_keep_members(es, w, older, n, ks[y]);
                let j = choose|j: int|
                    0 <= j < n && #[trigger] kept(es, w, older, j) && es[j] == ks[y];
                if j < i {
                    assert(!visible(es[j], snap));
                } else if j > i {
                    lemma_seqnos_descend(es, i, j);
                    assert(!newest(es, w, j));
                }
                assert(false);
            }
        }
    } else if exists|y: int| found_at(ks, uk, snap, y) {
        let y = choose|y: int| found_at(ks, uk, snap, y);
        assert(found_at(ks, uk, snap, y));
        let j = choose|j: int| 0 <= j < n && #[trigger] es[j] == ks[y];
        lemma_visible_is_found(es, uk, snap, j);
        assert(false);
    }
}

/// What a read makes of what it found: a value, or nothing.
pub open spec fn value_of(hit: Option<Kv>) -> Option<Seq<u8>> {
    match hit {
        Some(kv) => if is_put(kv) {
            Some(kv.repr)
        } else {
            None
        },
        None => None,
    }
}

/// Looking through sources newest first finds what the merge of them holds.
pub proof fn lemma_first_hit_is_merged(srcs: Seq<Seq<Kv>>, uk: Seq<u8>, snap: nat)
    requires
        newest_first(srcs),
        forall|l: int| 0 <= l < srcs.len() ==> sorted(#[trigger] srcs[l]),
        mergeable(srcs, false),
    ensures
        first_hit(srcs, uk, snap) == find_newest(merged(srcs, false), uk, snap),
{
    let es = merged(srcs, false);
    lemma_merged(srcs, false);
    assert(sorted(es)) by {
        assert forall|i: int, j: int| 0 <= i < j < es.len() implies ikey_before(
            #[trigger] es[i].key,
            #[trigger] es[j].key,
        ) by {
            assert(dir_before(es[i].key, es[j].key, false));
        }
    }
    match first_hit(srcs, uk, snap) {
        Some(kv) => {
            let (k, i) = lemma_first_hit_source(srcs, uk, snap);
            assert(srcs[k][i] == kv);
            assert(in_some(srcs, kv));
            assert(es.contains(kv));
            let x = choose|x: int| 0 <= x < es.len() && es[x] == kv;
            assert forall|y: int|
                0 <= y < es.len() && ukey_of(#[trigger] es[y].key) == uk && visible(
                    es[y],
                    snap,
                ) implies y == x || ikey_before(es[x].key, es[y].key) by {
                if y < x {
                    assert(ikey_before(es[y].key, es[x].key));
                    assert(es.contains(es[y]));
                    assert(in_some(srcs, es[y]));
                    let (l, j) = choose|l: int, j: int|
                        0 <= l < srcs.len() && 0 <= j < srcs[l].len() && #[trigger] srcs[l][j]
                            == es[y];
                    lemma_first_hit_is_newest(srcs, uk, snap, l, j);
                    lemma_seqnos_descend(es, y, x);
                    if l != k {
                        if l < k {
                            assert(seqno_of(srcs[l][j].key) > seqno_of(srcs[k][i].key));
                        } else {
                            assert(seqno_of(srcs[k][i].key) > seqno_of(srcs[l][j].key));
                        }
                    } else {
                        // in one source the found version is the first visible
                        assert(sorted(srcs[k]));
                        if j < i {
                            assert(!visible(srcs[k][j], snap));
                        } else if j > i {
                            assert(ikey_before(srcs[k][i].key, srcs[k][j].key));
                            lemma_ikey_asymmetric(es[y].key, es[x].key);
                        }
                    }
                }
            }
            lemma_find_by_order(es, uk, snap, x);
        },
        None => {
            if exists|x: int| found_at(es, uk, snap, x) {
                let x = choose|x: int| found_at(es, uk, snap, x);
                assert(found_at(es, uk, snap, x));
                assert(es.contains(es[x]));
                assert(in_some(srcs, es[x]));
                let (l, j) = choose|l: int, j: int|
                    0 <= l < srcs.len() && 0 <= j < srcs[l].len() && #[trigger] srcs[l][j]
                        == es[x];
                lemma_first_hit_is_newest(srcs, uk, snap, l, j);
            }
        },
    }
}

/// Where the first hit stands.
pub proof fn lemma_first_hit_source(srcs: Seq<Seq<Kv>>, uk: Seq<u8>, snap: nat) -> (r: (int, int))
    requires
        first_hit(srcs, uk, snap) is Some,
    ensures
        0 <= r.0 < srcs.len(),
        found_at(srcs[r.0], uk, snap, r.1),
        first_hit(srcs, uk, snap) == Some(srcs[r.0][r.1]),
    decreases srcs.len(),
{
    match find_newest(srcs[0], uk, snap) {
        Some(kv) => {
            let i = choose|i: int| found_at(srcs[0], uk, snap, i);
            assert(found_at(srcs[0], uk, snap, i));
            (0, i)
        },
        None => {
            let (k, i) = lemma_first_hit_source(srcs.skip(1), uk, snap);
            assert(srcs.skip(1)[k] == srcs[k + 1]);
            (k + 1, i)
        },
    }
}

/// Replacing consecutive sources by what a merge makes of them changes no
/// value that a snapshot at or above the watermark reads: no stale value
/// surfaces, and nothing deleted comes back.
pub proof fn lemma_replace_preserves_values(
    newer: Seq<Seq<Kv>>,
    inputs: Seq<Seq<Kv>>,
    behind: Seq<Seq<Kv>>,
    w: nat,
    older: spec_fn(Seq<u8>) -> bool,
    uk: Seq<u8>,
    snap: nat,
)
    requires
        newest_first(inputs),
        forall|l: int| 0 <= l < inputs.len() ==> sorted(#[trigger] inputs[l]),
        mergeable(inputs, false),
        w <= snap,
        !older(uk) ==> forall|l: int, i: int|
            0 <= l < behind.len() && 0 <= i < behind[l].len() ==> ukey_of(
                (#[trigger] behind[l][i]).key,
            ) != uk,
    ensures
        value_of(first_hit(newer + inputs + behind, uk, snap)) == value_of(
            first_hit(
                newer + seq![compacted(merged(inputs, false), w, older)] + behind,
                uk,
                snap,
            ),
        ),
{
    let es = merged(inputs, false);
    let ks = compacted(es, w, older);
    lemma_merged(inputs, false);
    assert(sorted(es)) by {
        assert forall|i: int, j: int| 0 <= i < j < es.len() implies ikey_before(
            #[trigger] es[i].key,
            #[trigger] es[j].key,
        ) by {
            assert(dir_before(es[i].key, es[j].key, false));
        }
    }
    lemma_first_hit_split(newer + inputs, behind, uk, snap);
    lemma_first_hit_split(newer, inputs, uk, snap);
    lemma_first_hit_split(newer + seq![ks], behind, uk, snap);
    lemma_first_hit_split(newer, seq![ks], uk, snap);
    assert(seq![ks].skip(1) =~= Seq::<Seq<Kv>>::empty());
    reveal_with_fuel(first_hit, 3);
    lemma_first_hit_is_merged(inputs, uk, snap);
    lemma_compaction_preserves_reads(es, w, older, uk, snap);
    if !older(uk) && first_hit(behind, uk, snap) is Some {
        let (k, i) = lemma_first_hit_source(behind, uk, snap);
        assert(ukey_of(behind[k][i].key) != uk);
    }
}

// ---------------------------------------------------------------------------
// The merge
// ---------------------------------------------------------------------------

/// One finished output file of a merge.
pub struct Fragment {
    pub stats: TableStats,
    pub bytes: Vec<u8>,
}

/// The entries of a fragment's file.
pub open spec fn fragment_entries(f: Fragment) -> Seq<Kv> {
    table_entries(f.bytes@, p_table(f.bytes@)->Some_0)
}

pub open spec fn fragments_entries(fs: Seq<Fragment>) -> Seq<Seq<Kv>> {
    fs.map_values(|f: Fragment| fragment_entries(f))
}

/// The file is a sound table with these statistics, and not empty.
pub open spec fn fragment_sound(f: Fragment) -> bool {
    &&& p_table(f.bytes@) matches Some(m) && table_sound(f.bytes@, m) && m.stats == f.stats@
    &&& fragment_entries(f).len() > 0
}

/// Pieces that no user key straddles, in ascending order.
pub open spec fn split_between_keys(parts: Seq<Seq<Kv>>) -> bool {
    forall|k: int, l: int|
        0 <= k < l < parts.len() ==> lex_lt(
            ukey_of((#[trigger] parts[k]).last().key),
            ukey_of((#[trigger] parts[l])[0].key),
        )
}

/// What a merge leaves: the output files, and the bytes it found dead per
/// value-log file.
pub struct JobOutput {
    pub tables: Vec<Fragment>,
    pub discard: Vec<(u64, u64)>,
}

pub struct MergeOptions {
    pub block_size: usize,
    pub bloom_bits_per_key: usize,
    pub target_file_size: u64,
}

/// Some of the runs may hold the key.
pub open spec fn some_admits(older: Seq<Run>) -> spec_fn(Seq<u8>) -> bool {
    |uk: Seq<u8>| exists|r: int| 0 <= r < older.len() && run_admits((#[trigger] older[r]).tables@, uk)
}

/// The runs' tables can be read; nothing is asked of their data blocks.
pub open spec fn runs_open(rs: Seq<Run>) -> bool {
    forall|r: int| 0 <= r < rs.len() ==> fragments_open((#[trigger] rs[r]).tables@)
}

/// The runs can be read, and are intact.
pub open spec fn runs_intact(rs: Seq<Run>) -> bool {
    forall|r: int|
        0 <= r < rs.len() ==> fragments_open((#[trigger] rs[r]).tables@) && rs[r].intact()
}

/// How the entries go into files: those that are closed, and the one in
/// progress. A file is closed where it has reached the target size and the
/// next entry has another user key.
pub open spec fn split(es: Seq<Kv>, o: MergeOptions) -> (Seq<Seq<Kv>>, Seq<Kv>)
    decreases es.len(),
{
    if es.len() == 0 {
        (Seq::empty(), Seq::empty())
    } else {
        let c = split(es.drop_last(), o);
        if c.1.len() > 0 && ukey_of(c.1.last().key) != ukey_of(es.last().key) && table_size(
            c.1,
            o.block_size as nat,
        ) >= o.target_file_size {
            (c.0.push(c.1), seq![es.last()])
        } else {
            (c.0, c.1.push(es.last()))
        }
    }
}

/// The files that the entries go into.
pub open spec fn files(es: Seq<Kv>, o: MergeOptions) -> Seq<Seq<Kv>> {
    let c = split(es, o);
    if c.1.len() == 0 {
        c.0
    } else {
        c.0.push(c.1)
    }
}

/// The file format can hold a file over the entries.
pub open spec fn file_fits(es: Seq<Kv>, o: MergeOptions) -> bool {
    table_fits(es, o.block_size as nat, o.bloom_bits_per_key as nat)
}

/// The file format can hold each of the files that the entries go into.
pub open spec fn fits_format(es: Seq<Kv>, o: MergeOptions) -> bool {
    let fs = files(es, o);
    forall|k: int| 0 <= k < fs.len() ==> file_fits(#[trigger] fs[k], o)
}

/// A file is closed that the format cannot hold, or a block of the file in
/// progress is too long.
spec fn stuck(es: Seq<Kv>, o: MergeOptions) -> bool {
    let c = split(es, o);
    ||| exists|k: int| 0 <= k < c.0.len() && !file_fits(#[trigger] c.0[k], o)
    ||| block_unfit(c.1, o.block_size as nat)
}

/// What is stuck stays so, whatever follows.
proof fn lemma_stuck_push(es: Seq<Kv>, kv: Kv, o: MergeOptions)
    requires
        stuck(es, o),
    ensures
        stuck(es.push(kv), o),
{
    let es2 = es.push(kv);
    assert(es2.drop_last() =~= es);
    let c = split(es, o);
    let c2 = split(es2, o);
    if exists|k: int| 0 <= k < c.0.len() && !file_fits(#[trigger] c.0[k], o) {
        let k = choose|k: int| 0 <= k < c.0.len() && !file_fits(#[trigger] c.0[k], o);
        assert(c2.0[k] == c.0[k]);
    } else if c2.0 == c.0 {
        lemma_unfit_push(c.1, kv, o.block_size as nat);
    } else {
        lemma_unfit(c.1, o.block_size as nat, o.bloom_bits_per_key as nat);
        assert(c2.0[c.0.len() as int] == c.1);
        assert(!file_fits(c2.0[c.0.len() as int], o));
    }
}

proof fn lemma_stuck(es: Seq<Kv>, o: MergeOptions)
    requires
        stuck(es, o),
    ensures
        !fits_format(es, o),
{
    let c = split(es, o);
    let fs = files(es, o);
    if exists|k: int| 0 <= k < c.0.len() && !file_fits(#[trigger] c.0[k], o) {
        let k = choose|k: int| 0 <= k < c.0.len() && !file_fits(#[trigger] c.0[k], o);
        assert(fs[k] == c.0[k]);
    } else {
        lemma_unfit(c.1, o.block_size as nat, o.bloom_bits_per_key as nat);
        assert(fs[c.0.len() as int] == c.1);
    }
}

/// An output that is stuck after its first entries is stuck for good.
proof fn lemma_stuck_prefix(
    es: Seq<Kv>,
    w: nat,
    older: spec_fn(Seq<u8>) -> bool,
    n: int,
    o: MergeOptions,
)
    requires
        0 <= n <= es.len(),
        stuck(keep_upto(es, w, older, n), o),
    ensures
        !fits_format(compacted(es, w, older), o),
    decreases es.len() - n,
{
    if n < es.len() {
        if kept(es, w, older, n) {
            lemma_stuck_push(keep_upto(es, w, older, n), es[n], o);
        }
        lemma_stuck_prefix(es, w, older, n + 1, o);
    } else {
        lemma_stuck(keep_upto(es, w, older, n), o);
    }
}

proof fn lemma_stuck_take(es: Seq<Kv>, n: int, o: MergeOptions)
    requires
        0 <= n <= es.len(),
        stuck(es.take(n), o),
    ensures
        !fits_format(es, o),
    decreases es.len() - n,
{
    if n < es.len() {
        lemma_stuck_push(es.take(n), es[n], o);
        assert(es.take(n + 1) =~= es.take(n).push(es[n]));
        lemma_stuck_take(es, n + 1, o);
    } else {
        assert(es.take(n) =~= es);
        lemma_stuck(es, o);
    }
}

/// Whether any of the runs may hold the key.
fn any_may_contain(older: &Vec<Run>, ukey: &[u8]) -> (b: bool)
    requires
        runs_open(older@),
    ensures
        b == some_admits(older@)(ukey@),
{
    let mut i: usize = 0;
    while i < older.len()
        invariant
            i <= older@.len(),
            runs_open(older@),
            forall|r: int|
                0 <= r < i ==> !run_admits((#[trigger] older@[r]).tables@, ukey@),
        decreases older@.len() - i,
    {
        assert(fragments_open(older@[i as int].tables@));
        if older[i].may_contain_ukey(ukey) {
            assert(run_admits(older@[i as int].tables@, ukey@));
            return true;
        }
        i += 1;
    }
    false
}

/// What is known of a merge that has looked at the first `p` entries.
struct MergeState {
    tables: Vec<Fragment>,
    builder: Option<TableBuilder>,
    discard: Vec<(u64, u64)>,
    cur_ukey: Vec<u8>,
    have_key: bool,
    kept_le_w: bool,
}

spec fn building(b: Option<TableBuilder>) -> Seq<Kv> {
    match b {
        Some(b) => b.entries(),
        None => Seq::empty(),
    }
}

spec fn builder_ok(b: Option<TableBuilder>, o: MergeOptions) -> bool {
    b matches Some(b) ==> b.inv() && b.entries().len() > 0 && b.block_size() == o.block_size
        && b.bits_per_key() == o.bloom_bits_per_key
}

/// The user key last seen, and whether a version of it at or below the
/// watermark was met.
spec fn key_state(st: MergeState, es: Seq<Kv>, w: nat, p: int) -> bool {
    if st.have_key {
        &&& p > 0
        &&& st.cur_ukey@ == ukey_of(es[p - 1].key)
        &&& st.kept_le_w <==> exists|j: int|
            0 <= j < p && ukey_of(#[trigger] es[j].key) == st.cur_ukey@ && visible(es[j], w)
    } else {
        p == 0
    }
}

/// The tables are the files, in order, and each fits the format.
spec fn tables_of(tables: Seq<Fragment>, fs: Seq<Seq<Kv>>, o: MergeOptions) -> bool {
    &&& fragments_entries(tables) == fs
    &&& forall|k: int| 0 <= k < tables.len() ==> fragment_sound(#[trigger] tables[k])
    &&& forall|k: int| 0 <= k < fs.len() ==> file_fits(#[trigger] fs[k], o)
}

spec fn all_full(tables: Seq<Fragment>, o: MergeOptions) -> bool {
    forall|k: int|
        0 <= k < tables.len() ==> (#[trigger] tables[k]).bytes@.len() >= o.target_file_size
}

/// The tables are the closed files of the output, and the builder holds the
/// one in progress.
#[verifier::opaque]
spec fn output_state(
    tables: Seq<Fragment>,
    builder: Option<TableBuilder>,
    kept_es: Seq<Kv>,
    o: MergeOptions,
) -> bool {
    &&& builder_ok(builder, o)
    &&& tables_of(tables, split(kept_es, o).0, o)
    &&& all_full(tables, o)
    &&& building(builder) == split(kept_es, o).1
}

/// Every piece ends below the key.
spec fn keys_below(parts: Seq<Seq<Kv>>, key: Seq<u8>) -> bool {
    forall|k: int|
        0 <= k < parts.len() ==> lex_lt(ukey_of((#[trigger] parts[k]).last().key), ukey_of(key))
}

/// A file closed before another user key ends below that key.
proof fn lemma_boundary(parts: Seq<Seq<Kv>>, cur: Seq<Kv>, es: Seq<Kv>, kv: Kv)
    requires
        flat(parts) + cur == es,
        cur.len() > 0,
        keys_below(parts, cur[0].key),
        sorted(es.push(kv)),
        ukey_of(cur.last().key) != ukey_of(kv.key),
    ensures
        keys_below(parts.push(cur), kv.key),
{
    let es2 = es.push(kv);
    let parts1 = parts.push(cur);
    lemma_last_of_concat(flat(parts), cur);
    assert(es2[es.len() - 1] == cur.last());
    assert(ikey_before(es2[es.len() - 1].key, es2[es.len() as int].key));
    assert(flat(parts) + cur.push(kv) =~= es2);
    lemma_sorted_suffix(flat(parts), cur.push(kv));
    lemma_ukeys_ascend(cur.push(kv), 0, cur.len() - 1);
    assert(cur.push(kv)[0] == cur[0]);
    assert(cur.push(kv)[cur.len() - 1] == cur.last());
    assert forall|k: int| 0 <= k < parts1.len() implies lex_lt(
        ukey_of((#[trigger] parts1[k]).last().key),
        ukey_of(kv.key),
    ) by {
        if k < parts.len() {
            assert(parts1[k] == parts[k]);
            let a = ukey_of(parts[k].last().key);
            if ukey_of(cur[0].key) != ukey_of(cur.last().key) {
                lemma_lex_transitive(a, ukey_of(cur[0].key), ukey_of(cur.last().key));
            }
            lemma_lex_transitive(a, ukey_of(cur.last().key), ukey_of(kv.key));
        }
    }
}

#[verifier::opaque]
spec fn discard_state(d: Seq<(u64, u64)>, es: Seq<Kv>, w: nat, p: int) -> bool {
    &&& ascending(d)
    &&& forall|f: u64| #[trigger] count_of(d, f) == dead_bytes(es, w, p, f)
    &&& forall|f: u64| #[trigger]
        counts_id(d, f) <==> exists|i: int| 0 <= i < p && #[trigger] dead_at(es, w, i, f) is Some
}

proof fn lemma_last_of_concat(a: Seq<Kv>, b: Seq<Kv>)
    requires
        b.len() > 0,
    ensures
        (a + b).len() > 0,
        (a + b).last() == b.last(),
{
}

proof fn lemma_sorted_suffix(a: Seq<Kv>, b: Seq<Kv>)
    requires
        sorted(a + b),
    ensures
        sorted(b),
{
    let s = a + b;
    assert forall|i: int| 0 <= i < b.len() implies is_ikey(#[trigger] b[i].key) by {
        assert(s[a.len() + i] == b[i]);
        assert(is_ikey(s[a.len() + i].key));
    }
    assert forall|i: int, j: int| 0 <= i < j < b.len() implies ikey_before(
        #[trigger] b[i].key,
        #[trigger] b[j].key,
    ) by {
        assert(s[a.len() + i] == b[i] && s[a.len() + j] == b[j]);
        assert(ikey_before(s[a.len() + i].key, s[a.len() + j].key));
    }
}

/// A piece that starts above all others may be put behind them.
proof fn lemma_split_push(parts: Seq<Seq<Kv>>, cur: Seq<Kv>)
    requires
        split_between_keys(parts),
        keys_below(parts, cur[0].key),
    ensures
        split_between_keys(parts.push(cur)),
{
    let parts1 = parts.push(cur);
    assert forall|k: int, l: int| 0 <= k < l < parts1.len() implies lex_lt(
        ukey_of((#[trigger] parts1[k]).last().key),
        ukey_of((#[trigger] parts1[l])[0].key),
    ) by {
        assert(parts1[k] == parts[k]);
        if l < parts.len() {
            assert(parts1[l] == parts[l]);
        }
    }
}

/// The files hold the entries, all of them, in order; none is empty, and no
/// user key straddles two of them.
proof fn lemma_split(es: Seq<Kv>, o: MergeOptions)
    requires
        sorted(es),
    ensures
        flat(split(es, o).0) + split(es, o).1 == es,
        split_between_keys(split(es, o).0),
        es.len() > 0 ==> split(es, o).1.len() > 0 && keys_below(
            split(es, o).0,
            split(es, o).1[0].key,
        ),
    decreases es.len(),
{
    let c = split(es, o);
    if es.len() > 0 {
        let init = es.drop_last();
        let kv = es.last();
        assert(es =~= init.push(kv));
        assert(init + seq![kv] =~= es);
        lemma_sorted_prefix(init, seq![kv]);
        lemma_split(init, o);
        let c0 = split(init, o);
        if c0.1.len() == 0 {
            assert(init.len() == 0);
            assert(c0.1.push(kv)[0] == kv);
        } else if c.0 == c0.0 {
            assert(c.1[0] == c0.1[0]);
        } else {
            lemma_boundary(c0.0, c0.1, init, kv);
            lemma_split_push(c0.0, c0.1);
            assert(c.0.drop_last() =~= c0.0);
        }
        assert(flat(c.0) + c.1 =~= es);
    } else {
        assert(flat(c.0) + c.1 =~= es);
    }
}

/// The same of all files.
pub proof fn lemma_files(es: Seq<Kv>, o: MergeOptions)
    requires
        sorted(es),
    ensures
        flat(files(es, o)) == es,
        split_between_keys(files(es, o)),
        files(es, o).len() <= es.len(),
{
    lemma_split(es, o);
    lemma_split_count(es, o);
    let c = split(es, o);
    if c.1.len() == 0 {
        assert(flat(c.0) + c.1 =~= flat(c.0));
    } else {
        assert(c.0.push(c.1).drop_last() =~= c.0);
        lemma_split_push(c.0, c.1);
    }
}

proof fn lemma_split_count(es: Seq<Kv>, o: MergeOptions)
    ensures
        es.len() > 0 ==> split(es, o).0.len() + 1 <= es.len(),
        es.len() == 0 ==> files(es, o).len() == 0,
    decreases es.len(),
{
    if es.len() > 0 {
        lemma_split_count(es.drop_last(), o);
    }
}

proof fn lemma_sorted_prefix(a: Seq<Kv>, b: Seq<Kv>)
    requires
        sorted(a + b),
    ensures
        sorted(a),
{
    let s = a + b;
    assert forall|i: int| 0 <= i < a.len() implies is_ikey(#[trigger] a[i].key) by {
        assert(is_ikey(s[i].key));
    }
    assert forall|i: int, j: int| 0 <= i < j < a.len() implies ikey_before(
        #[trigger] a[i].key,
        #[trigger] a[j].key,
    ) by {
        assert(ikey_before(s[i].key, s[j].key));
    }
}

/// The tables of a finished output.
proof fn lemma_all_files(t: Seq<Fragment>, es: Seq<Kv>, o: MergeOptions)
    requires
        sorted(es),
        tables_of(t, files(es, o), o),
    ensures
        fits_format(es, o),
        is_run_over(t, es, o) <==> forall|k: int|
            0 <= k < t.len() - 1 ==> (#[trigger] t[k]).bytes@.len() >= o.target_file_size,
{
    lemma_files(es, o);
}

/// Whether the file in progress is full and the next key is another one.
fn at_boundary(builder: &Option<TableBuilder>, ikey: &[u8], o: &MergeOptions) -> (b: bool)
    requires
        builder_ok(*builder, *o),
        is_ikey(ikey@),
    ensures
        b <==> (builder matches Some(b) && b.size() >= o.target_file_size && ukey_of(
            b.entries().last().key,
        ) != ukey_of(ikey@)),
{
    match builder {
        Some(b) => {
            b.estimated_size() >= o.target_file_size && match b.last_ukey() {
                Some(u) => !bytes_eq(ikey_ukey(ikey), u),
                None => true,
            }
        },
        None => false,
    }
}

impl MergeState {
    /// Take note of the entry's key; gives whether it is the newest version of
    /// its key at or below the watermark, given that it is at or below it.
    fn see_key(&mut self, uk: &[u8], Ghost(es): Ghost<Seq<Kv>>, Ghost(w): Ghost<nat>, Ghost(p): Ghost<int>)
        requires
            sorted(es),
            0 <= p < es.len(),
            uk@ == ukey_of(es[p].key),
            key_state(*old(self), es, w, p),
        ensures
            final(self).tables == old(self).tables,
            final(self).builder == old(self).builder,
            final(self).discard == old(self).discard,
            final(self).have_key,
            final(self).cur_ukey@ == uk@,
            final(self).kept_le_w <==> exists|j: int|
                0 <= j < p && ukey_of(#[trigger] es[j].key) == uk@ && visible(es[j], w),
    {
        let same: bool = self.have_key && bytes_eq(uk, self.cur_ukey.as_slice());
        if !same {
            proof {
                assert forall|j: int| 0 <= j < p && ukey_of(#[trigger] es[j].key) == uk@ implies false by {
                    if self.have_key {
                        lemma_ukeys_ascend(es, j, p - 1);
                        lemma_ukeys_ascend(es, p - 1, p);
                        lemma_lex_asymmetric(ukey_of(es[p - 1].key), uk@);
                    }
                }
            }
            self.cur_ukey = to_bytes(uk);
            self.have_key = true;
            self.kept_le_w = false;
        }
    }

    /// What becomes of the entry: kept or not, and where not, whether it is a
    /// value that a newer version shadows for every live snapshot.
    fn decide(
        &mut self,
        ik: &[u8],
        watermark: SeqNo,
        older: &Vec<Run>,
        Ghost(es): Ghost<Seq<Kv>>,
        Ghost(p): Ghost<int>,
    ) -> (r: Result<(bool, bool)>)
        requires
            sorted(es),
            0 <= p < es.len(),
            ik@ == es[p].key,
            runs_open(older@),
            key_state(*old(self), es, watermark as nat, p),
        ensures
            final(self).tables == old(self).tables,
            final(self).builder == old(self).builder,
            final(self).discard == old(self).discard,
            match r {
                Ok((keep, dead_put)) => {
                    &&& kind_of_byte(kind_byte_of(ik@)) is Some
                    &&& keep == kept(es, watermark as nat, some_admits(older@), p)
                    &&& dead_put == dropped_put(es, watermark as nat, p)
                    &&& key_state(*final(self), es, watermark as nat, p + 1)
                },
                Err(e) => kind_of_byte(kind_byte_of(ik@)) is None && e is Corruption,
            },
    {
        let ghost w = watermark as nat;
        let ghost adm = some_admits(older@);
        proof {
            assert(is_ikey(es[p].key));
        }
        self.see_key(ikey_ukey(ik), Ghost(es), Ghost(w), Ghost(p));
        let seq: u64 = ikey_seqno(ik);
        let kind = ikey_kind(ik)?;
        let ghost first = !self.kept_le_w;
        let mut keep: bool = true;
        let mut dead_put: bool = false;
        if seq > watermark {
            // still visible to some possible snapshot: keep verbatim
        } else if !self.kept_le_w {
            self.kept_le_w = true;
            // the newest version at or below the watermark: keep, unless it is
            // a tombstone provably shadowing nothing older
            if matches!(kind, ValueKind::Delete) && !any_may_contain(older, self.cur_ukey.as_slice()) {
                keep = false;
            }
        } else {
            // shadowed by a newer version for every live snapshot
            keep = false;
            dead_put = matches!(kind, ValueKind::Put);
        }
        proof {
            assert(visible(es[p], w) ==> (newest(es, w, p) <==> first));
            assert(keep == kept(es, w, adm, p));
            assert(dead_put == dropped_put(es, w, p));
        }
        Ok((keep, dead_put))
    }

    /// Finish the file in progress.
    #[verifier::spinoff_prover]
    #[verifier::rlimit(100)]
    fn seal(&mut self, o: &MergeOptions, Ghost(fs): Ghost<Seq<Seq<Kv>>>) -> (r: Result<()>)
        requires
            old(self).builder is Some,
            builder_ok(old(self).builder, *o),
            tables_of(old(self).tables@, fs, *o),
        ensures
            final(self).cur_ukey == old(self).cur_ukey,
            final(self).have_key == old(self).have_key,
            final(self).kept_le_w == old(self).kept_le_w,
            final(self).discard == old(self).discard,
            match r {
                Ok(_) => {
                    &&& final(self).builder is None
                    &&& tables_of(final(self).tables@, fs.push(building(old(self).builder)), *o)
                    &&& final(self).tables@.len() == old(self).tables@.len() + 1
                    &&& final(self).tables@.drop_last() == old(self).tables@
                    &&& final(self).tables@.last().bytes@.len() >= old(
                        self,
                    ).builder->Some_0.size()
                },
                Err(e) => e is InvalidArgument && !file_fits(building(old(self).builder), *o),
            },
    {
        let b = match self.builder.take() {
            Some(b) => b,
            None => {
                return Ok(());
            },
        };
        let ghost cur = b.entries();
        let ghost t0 = self.tables@;
        let (stats, bytes) = match b.finish() {
            Ok(t) => t,
            Err(e) => {
                return Err(e);
            },
        };
        let f = Fragment { stats, bytes };
        self.tables.push(f);
        proof {
            let t1 = t0.push(f);
            assert(self.tables@ == t1);
            assert(fragment_entries(f) == cur);
            assert(fragments_entries(t1) =~= fs.push(cur));
            assert(t1.drop_last() =~= t0);
        }
        Ok(())
    }

    /// Close the file in progress where it has reached the target size and the
    /// next entry has another user key: no user key straddles two files.
    #[verifier::spinoff_prover]
    #[verifier::rlimit(100)]
    fn roll(
        &mut self,
        ikey: &[u8],
        o: &MergeOptions,
        Ghost(es): Ghost<Seq<Kv>>,
        Ghost(kv): Ghost<Kv>,
    ) -> (r: Result<()>)
        requires
            output_state(old(self).tables@, old(self).builder, es, *o),
            is_ikey(kv.key),
            ikey@ == kv.key,
        ensures
            final(self).cur_ukey == old(self).cur_ukey,
            final(self).have_key == old(self).have_key,
            final(self).kept_le_w == old(self).kept_le_w,
            final(self).discard == old(self).discard,
            match r {
                Ok(_) => rolled(final(self).tables@, final(self).builder, es, kv, *o),
                Err(e) => e is InvalidArgument && stuck(es.push(kv), *o),
            },
    {
        let ghost es2 = es.push(kv);
        let ghost c = split(es, *o);
        let ghost c2 = split(es2, *o);
        let ghost t0 = self.tables@;
        proof {
            reveal(output_state);
            reveal(rolled);
            assert(es2.drop_last() =~= es);
        }
        let boundary: bool = at_boundary(&self.builder, ikey, o);
        if boundary {
            match self.seal(o, Ghost(c.0)) {
                Ok(()) => {},
                Err(e) => {
                    assert(c2.0[c.0.len() as int] == c.1);
                    return Err(e);
                },
            }
            proof {
                assert(building(self.builder).push(kv) =~= seq![kv]);
                assert forall|k: int| 0 <= k < self.tables@.len() implies (
                #[trigger] self.tables@[k]).bytes@.len() >= o.target_file_size by {
                    if k < t0.len() {
                        assert(self.tables@.drop_last()[k] == t0[k]);
                    }
                }
            }
        }
        Ok(())
    }

    /// Add an entry to the output.
    #[verifier::spinoff_prover]
    fn keep(&mut self, ikey: &[u8], repr: &[u8], o: &MergeOptions, Ghost(es): Ghost<Seq<Kv>>) -> (r: Result<()>)
        requires
            output_state(old(self).tables@, old(self).builder, es, *o),
            sorted(es.push(Kv { key: ikey@, repr: repr@ })),
            kind_of_byte(kind_byte_of(ikey@)) is Some,
        ensures
            final(self).cur_ukey == old(self).cur_ukey,
            final(self).have_key == old(self).have_key,
            final(self).kept_le_w == old(self).kept_le_w,
            final(self).discard == old(self).discard,
            match r {
                Ok(_) => output_state(
                    final(self).tables@,
                    final(self).builder,
                    es.push(Kv { key: ikey@, repr: repr@ }),
                    *o,
                ),
                Err(e) => e is InvalidArgument && stuck(
                    es.push(Kv { key: ikey@, repr: repr@ }),
                    *o,
                ),
            },
    {
        let ghost kv = Kv { key: ikey@, repr: repr@ };
        let ghost es2 = es.push(kv);
        assert(is_ikey(es2[es.len() as int].key));
        self.roll(ikey, o, Ghost(es), Ghost(kv))?;
        let ghost cur1 = building(self.builder);
        let ghost t1 = self.tables@;
        let ghost b0 = self.builder;
        proof {
            lemma_rolled(t1, self.builder, es, kv, *o);
        }
        let mut b = match self.builder.take() {
            Some(b) => b,
            None => TableBuilder::new(o.block_size, o.bloom_bits_per_key),
        };
        match b.add(ikey, repr) {
            Ok(()) => {},
            Err(e) => {
                proof {
                    lemma_unfit_entry(cur1, kv, o.block_size as nat);
                }
                return Err(e);
            },
        }
        self.builder = Some(b);
        proof {
            assert(rolled(t1, b0, es, kv, *o));
            lemma_added(t1, self.builder, es, kv, *o);
        }
        Ok(())
    }
}

/// The files before the one that takes the next entry are closed.
#[verifier::opaque]
spec fn rolled(
    tables: Seq<Fragment>,
    builder: Option<TableBuilder>,
    es: Seq<Kv>,
    kv: Kv,
    o: MergeOptions,
) -> bool {
    let c = split(es.push(kv), o);
    &&& builder_ok(builder, o)
    &&& tables_of(tables, c.0, o)
    &&& all_full(tables, o)
    &&& building(builder).push(kv) == c.1
}

proof fn lemma_rolled(
    t: Seq<Fragment>,
    b: Option<TableBuilder>,
    es: Seq<Kv>,
    kv: Kv,
    o: MergeOptions,
)
    requires
        rolled(t, b, es, kv, o),
        sorted(es.push(kv)),
    ensures
        builder_ok(b, o),
        building(b).len() > 0 ==> ikey_before(building(b).last().key, kv.key),
        block_unfit(building(b).push(kv), o.block_size as nat) ==> stuck(es.push(kv), o),
{
    reveal(rolled);
    let es2 = es.push(kv);
    let c = split(es2, o);
    let cur = building(b);
    lemma_split(es2, o);
    if cur.len() > 0 {
        let s = flat(c.0) + c.1;
        let n = flat(c.0).len() + cur.len();
        assert(s[n - 1] == cur.last());
        assert(s[n as int] == kv);
        assert(ikey_before(es2[n - 1].key, es2[n as int].key));
    }
}

proof fn lemma_added(
    t: Seq<Fragment>,
    b: Option<TableBuilder>,
    es: Seq<Kv>,
    kv: Kv,
    o: MergeOptions,
)
    requires
        exists|b0: Option<TableBuilder>| #[trigger]
            rolled(t, b0, es, kv, o) && building(b) == building(b0).push(kv),
        builder_ok(b, o),
    ensures
        output_state(t, b, es.push(kv), o),
{
    reveal(rolled);
    reveal(output_state);
}

/// What a merge of the entries delivers.
pub open spec fn is_output(
    out: JobOutput,
    es: Seq<Kv>,
    w: nat,
    older: spec_fn(Seq<u8>) -> bool,
    o: MergeOptions,
) -> bool {
    &&& is_run_over(out.tables@, compacted(es, w, older), o)
    &&& ascending(out.discard@)
    &&& forall|f: u64| #[trigger]
        count_of(out.discard@, f) == dead_bytes(es, w, es.len() as int, f)
    &&& forall|f: u64| #[trigger]
        counts_id(out.discard@, f) <==> exists|i: int|
            0 <= i < es.len() && #[trigger] dead_at(es, w, i, f) is Some
}

/// Note the dead bytes of entry `p`, a value that is dropped.
fn note_dead(
    d: &mut Vec<(u64, u64)>,
    repr: &[u8],
    Ghost(es): Ghost<Seq<Kv>>,
    Ghost(w): Ghost<nat>,
    Ghost(p): Ghost<int>,
) -> (r: Result<()>)
    requires
        0 <= p < es.len(),
        repr@ == es[p].repr,
        dropped_put(es, w, p),
        discard_state(old(d)@, es, w, p),
    ensures
        match p_repr(repr@) {
            Some(_) => r is Ok && discard_state(final(d)@, es, w, p + 1),
            None => r matches Err(Error::Corruption(_)),
        },
{
    let ghost d0 = d@;
    proof {
        reveal(discard_state);
    }
    match decode_repr(repr)? {
        ReprRef::Ptr(ptr) => {
            add_count(d, ptr.file, ptr.len as u64);
            proof {
                assert(dead_at(es, w, p, ptr.file) == Some(ptr.len));
                assert forall|f: u64| #[trigger] count_of(d@, f) == dead_bytes(es, w, p + 1, f) by {
                    assert(count_of(d0, f) == dead_bytes(es, w, p, f));
                    if f != ptr.file {
                        assert(dead_at(es, w, p, f) is None);
                    }
                }
                lemma_dead_noted(d0, d@, es, w, p, ptr.file);
            }
        },
        ReprRef::Inline(_) => {
            proof {
                lemma_discard_same(d@, es, w, p);
            }
        },
    }
    Ok(())
}

proof fn lemma_dead_noted(d0: Seq<(u64, u64)>, d: Seq<(u64, u64)>, es: Seq<Kv>, w: nat, p: int, g: u64)
    requires
        discard_state(d0, es, w, p),
        counts_id(d, g),
        forall|f: u64|
            f != g ==> #[trigger] count_of(d, f) == count_of(d0, f) && counts_id(d, f)
                == counts_id(d0, f),
        forall|f: u64| #[trigger] dead_at(es, w, p, f) is Some <==> f == g,
        0 <= p,
    ensures
        forall|f: u64| #[trigger]
            counts_id(d, f) <==> exists|i: int|
                0 <= i < p + 1 && #[trigger] dead_at(es, w, i, f) is Some,
{
    reveal(discard_state);
    assert forall|f: u64| #[trigger]
        counts_id(d, f) <==> exists|i: int|
            0 <= i < p + 1 && #[trigger] dead_at(es, w, i, f) is Some by {
        if f == g {
            assert(dead_at(es, w, p, f) is Some);
        } else {
            assert(dead_at(es, w, p, f) is None);
            assert(count_of(d, f) == count_of(d0, f));
            assert(counts_id(d0, f) <==> exists|i: int|
                0 <= i < p && #[trigger] dead_at(es, w, i, f) is Some);
        }
    }
}

/// An entry that leaves nothing dead changes no count.
proof fn lemma_discard_same(d: Seq<(u64, u64)>, es: Seq<Kv>, w: nat, p: int)
    requires
        0 <= p < es.len(),
        discard_state(d, es, w, p),
        forall|f: u64| dead_at(es, w, p, f) is None,
    ensures
        discard_state(d, es, w, p + 1),
{
    reveal(discard_state);
    assert forall|f: u64| #[trigger] count_of(d, f) == dead_bytes(es, w, p + 1, f) by {
        assert(count_of(d, f) == dead_bytes(es, w, p, f));
        assert(dead_at(es, w, p, f) is None);
    }
    assert forall|f: u64| #[trigger]
        counts_id(d, f) <==> exists|i: int|
            0 <= i < p + 1 && #[trigger] dead_at(es, w, i, f) is Some by {
        assert(counts_id(d, f) <==> exists|i: int|
            0 <= i < p && #[trigger] dead_at(es, w, i, f) is Some);
        assert(dead_at(es, w, p, f) is None);
    }
}

/// Merge the children, drop what no snapshot at or above the watermark can
/// see, and write the rest into tables. Versions above the watermark stay as
/// they are; of those at or below it the newest of each key stays, unless it
/// is a tombstone whose key no older run may hold. Corruption comes out of an
/// unknown kind, or of a dropped value whose representation cannot be read.
#[verifier::spinoff_prover]
#[verifier::rlimit(100)]
pub fn merge_children<I: InternalIterator>(
    children: Vec<I>,
    watermark: SeqNo,
    older: &Vec<Run>,
    opts: &MergeOptions,
) -> (r: Result<JobOutput>)
    requires
        forall|k: int| 0 <= k < children@.len() ==> (#[trigger] children@[k]).inv(),
        mergeable(children@.map_values(|c: I| c.entries()), false),
        runs_open(older@),
    ensures
        ({
            let es = merged(children@.map_values(|c: I| c.entries()), false);
            let w = watermark as nat;
            match r {
                Ok(out) => kinds_ok(es) && dropped_reprs_ok(es, w) && fits_format(
                    compacted(es, w, some_admits(older@)),
                    *opts,
                ) && is_output(
                    out,
                    es,
                    w,
                    some_admits(older@),
                    *opts,
                ),
                Err(Error::Corruption(_)) => !kinds_ok(es) || !dropped_reprs_ok(es, w),
                Err(Error::InvalidArgument(_)) => !fits_format(
                    compacted(es, w, some_admits(older@)),
                    *opts,
                ),
                Err(_) => false,
            }
        }),
{
    let ghost es = merged(children@.map_values(|c: I| c.entries()), false);
    let ghost w = watermark as nat;
    let ghost adm = some_admits(older@);
    let mut merge = MergeIterator::new(children, false);
    merge.seek_to_first();
    let mut st = MergeState {
        tables: Vec::new(),
        builder: None,
        discard: Vec::new(),
        cur_ukey: Vec::new(),
        have_key: false,
        kept_le_w: false,
    };
    let ghost mut p: int = 0;
    proof {
        assert(merge.rest() == es);
        assert(es.skip(0) =~= es);
        lemma_merged(children@.map_values(|c: I| c.entries()), false);
        assert(sorted(es)) by {
            assert forall|i: int, j: int| 0 <= i < j < es.len() implies ikey_before(
                #[trigger] es[i].key,
                #[trigger] es[j].key,
            ) by {
                assert(dir_before(es[i].key, es[j].key, false));
            }
        }
        assert(fragments_entries(st.tables@) =~= Seq::<Seq<Kv>>::empty());
        reveal(output_state);
        reveal(discard_state);
        assert(output_state(st.tables@, st.builder, keep_upto(es, w, adm, 0), *opts));
        assert(discard_state(st.discard@, es, w, 0));
    }
    while merge.valid()
        invariant
            merge.inv(),
            !merge.reverse,
            0 <= p <= es.len(),
            es == merged(children@.map_values(|c: I| c.entries()), false),
            merge.rest() == es.skip(p),
            sorted(es),
            w == watermark,
            adm == some_admits(older@),
            runs_open(older@),
            key_state(st, es, w, p),
            output_state(st.tables@, st.builder, keep_upto(es, w, adm, p), *opts),
            discard_state(st.discard@, es, w, p),
            forall|i: int|
                0 <= i < p ==> kind_of_byte(kind_byte_of((#[trigger] es[i]).key)) is Some,
            forall|i: int|
                0 <= i < p && #[trigger] dropped_put(es, w, i) ==> p_repr(es[i].repr) is Some,
        decreases es.len() - p,
    {
        let ghost kv = es[p];
        proof {
            assert(es.skip(p)[0] == kv);
            assert(is_ikey(es[p].key));
            lemma_keep_sorted(es, w, adm, p + 1);
        }
        let ik = merge.ikey();
        let (keep, dead_put) = match st.decide(ik, watermark, older, Ghost(es), Ghost(p)) {
            Ok(d) => d,
            Err(e) => {
                assert(!kinds_ok(es));
                return Err(e);
            },
        };
        if keep {
            proof {
                assert(keep_upto(es, w, adm, p + 1) == keep_upto(es, w, adm, p).push(kv));
                assert(!dropped_put(es, w, p));
                lemma_discard_same(st.discard@, es, w, p);
            }
            match st.keep(ik, merge.value(), opts, Ghost(keep_upto(es, w, adm, p))) {
                Ok(()) => {},
                Err(e) => {
                    proof {
                        lemma_stuck_prefix(es, w, adm, p + 1, *opts);
                    }
                    return Err(e);
                },
            }
        } else if dead_put {
            match note_dead(&mut st.discard, merge.value(), Ghost(es), Ghost(w), Ghost(p)) {
                Ok(()) => {},
                Err(e) => {
                    assert(!dropped_reprs_ok(es, w));
                    return Err(e);
                },
            }
        } else {
            proof {
                lemma_discard_same(st.discard@, es, w, p);
            }
        }
        merge.next();
        proof {
            assert(es.skip(p).skip(1) =~= es.skip(p + 1));
            p = p + 1;
        }
    }
    proof {
        reveal(output_state);
        reveal(discard_state);
        assert(p == es.len());
        lemma_keep_sorted(es, w, adm, p);
    }
    let ghost out = compacted(es, w, adm);
    let ghost tables0 = st.tables@;
    if st.builder.is_some() {
        match st.seal(opts, Ghost(split(out, *opts).0)) {
            Ok(()) => {},
            Err(e) => {
                proof {
                    let c = split(out, *opts);
                    assert(files(out, *opts)[c.0.len() as int] == c.1);
                }
                return Err(e);
            },
        }
        proof {
            assert forall|k: int| 0 <= k < st.tables@.len() - 1 implies (
            #[trigger] st.tables@[k]).bytes@.len() >= opts.target_file_size by {
                assert(st.tables@.drop_last()[k] == tables0[k]);
            }
        }
    }
    proof {
        lemma_all_files(st.tables@, out, *opts);
    }
    Ok(JobOutput { tables: st.tables, discard: st.discard })
}

pub open spec fn all_sound(rs: Seq<Run>) -> bool {
    forall|k: int| 0 <= k < rs.len() ==> (#[trigger] rs[k]).sound()
}

/// An intact run whose blocks all load is sound.
pub proof fn lemma_loaded_is_sound(r: Run, bs: Seq<Vec<Block>>)
    requires
        r.intact(),
        r.holds_blocks(bs),
    ensures
        r.sound(),
{
    let ts = r.tables@;
    assert forall|k: int| 0 <= k < ts.len() implies (#[trigger] ts[k]).table.sound() by {
        let t = ts[k];
        assert(ts[k].table.intact());
        assert(ts[k].table.holds_blocks(bs[k]@));
        assert forall|b: int| 0 <= b < t.table.model().index.len() implies #[trigger] block_reads(
            t.table.bytes(),
            t.table.model(),
            b,
        ) by {
            assert(payload_at(t.table.bytes(), t.table.model().index[b].at) is Some);
        }
        t.table.lemma_read_is_sound();
    }
}

/// Merge the input runs of a job. A damaged input block fails the job with
/// nothing written; otherwise the outcome is that of `merge_children` on the
/// runs' entries.
pub fn run_job(
    inputs: &Vec<Run>,
    older: &Vec<Run>,
    watermark: SeqNo,
    opts: &MergeOptions,
) -> (r: Result<JobOutput>)
    requires
        runs_intact(inputs@),
        all_sound(inputs@) ==> mergeable(runs_entries(inputs@), false),
        runs_open(older@),
    ensures
        !all_sound(inputs@) ==> (r matches Err(e) && (e is Corruption || e is Io)),
        all_sound(inputs@) ==> {
            let es = merged(runs_entries(inputs@), false);
            let w = watermark as nat;
            match r {
                Ok(out) => kinds_ok(es) && dropped_reprs_ok(es, w) && fits_format(
                    compacted(es, w, some_admits(older@)),
                    *opts,
                ) && is_output(
                    out,
                    es,
                    w,
                    some_admits(older@),
                    *opts,
                ),
                Err(Error::Corruption(_)) => !kinds_ok(es) || !dropped_reprs_ok(es, w),
                Err(Error::InvalidArgument(_)) => !fits_format(
                    compacted(es, w, some_admits(older@)),
                    *opts,
                ),
                Err(_) => false,
            }
        },
{
    let mut blocks: Vec<Vec<Vec<Block>>> = Vec::new();
    let mut i: usize = 0;
    while i < inputs.len()
        invariant
            i <= inputs@.len(),
            blocks@.len() == i,
            runs_intact(inputs@),
            forall|k: int|
                0 <= k < i ==> (#[trigger] inputs@[k]).sound() && inputs@[k].holds_blocks(
                    blocks@[k]@,
                ),
        decreases inputs@.len() - i,
    {
        assert(inputs@[i as int].intact());
        match inputs[i].load_blocks() {
            Ok(b) => {
                proof {
                    lemma_loaded_is_sound(inputs@[i as int], b@);
                }
                blocks.push(b);
            },
            Err(e) => {
                assert(!inputs@[i as int].sound());
                return Err(e);
            },
        }
        i += 1;
    }
    let mut children: Vec<RunIter<'_>> = Vec::new();
    let mut j: usize = 0;
    while j < inputs.len()
        invariant
            j <= inputs@.len(),
            blocks@.len() == inputs@.len(),
            children@.len() == j,
            forall|k: int|
                0 <= k < inputs@.len() ==> (#[trigger] inputs@[k]).sound()
                    && inputs@[k].holds_blocks(blocks@[k]@),
            forall|k: int|
                0 <= k < j ==> (#[trigger] children@[k]).inv() && children@[k].entries()
                    == inputs@[k].entries(),
        decreases inputs@.len() - j,
    {
        assert(inputs@[j as int].sound());
        children.push(inputs[j].iter(&blocks[j]));
        j += 1;
    }
    assert(children@.map_values(|c: RunIter<'_>| c.entries()) =~= runs_entries(inputs@));
    merge_children(children, watermark, older, opts)
}

// ---------------------------------------------------------------------------
// Flush
// ---------------------------------------------------------------------------

/// The highest seqno of the first `n` entries.
pub open spec fn top_seq(es: Seq<Kv>, n: int) -> nat
    decreases n,
{
    if n <= 0 {
        0
    } else {
        let m = top_seq(es, n - 1);
        if seqno_of(es[n - 1].key) > m {
            seqno_of(es[n - 1].key)
        } else {
            m
        }
    }
}

/// The tables are the files that the entries go into: they hold the entries,
/// all of them, in order, and no user key straddles two of them.
pub open spec fn is_run_over(tables: Seq<Fragment>, es: Seq<Kv>, o: MergeOptions) -> bool {
    &&& fragments_entries(tables) == files(es, o)
    &&& flat(fragments_entries(tables)) == es
    &&& forall|k: int| 0 <= k < tables.len() ==> fragment_sound(#[trigger] tables[k])
    &&& split_between_keys(fragments_entries(tables))
    &&& forall|k: int|
        0 <= k < tables.len() - 1 ==> (#[trigger] tables[k]).bytes@.len() >= o.target_file_size
}

/// Write one memtable out as a (possibly multi-fragment) run. Gives the tables
/// and the highest seqno in them.
pub fn build_run_from_mem(mem: &Memtable, opts: &MergeOptions) -> (r: Result<(Vec<Fragment>, SeqNo)>)
    requires
        mem.inv(),
    ensures
        match r {
            Ok((tables, max_seq)) => kinds_ok(mem.entries()) && fits_format(
                mem.entries(),
                *opts,
            ) && is_run_over(
                tables@,
                mem.entries(),
                *opts,
            ) && max_seq == top_seq(mem.entries(), mem.entries().len() as int),
            Err(Error::Corruption(_)) => !kinds_ok(mem.entries()),
            Err(Error::InvalidArgument(_)) => !fits_format(mem.entries(), *opts),
            Err(_) => false,
        },
{
    let ghost es = mem.entries();
    let mut it = mem.iter();
    it.seek_to_first();
    let mut st = MergeState {
        tables: Vec::new(),
        builder: None,
        discard: Vec::new(),
        cur_ukey: Vec::new(),
        have_key: false,
        kept_le_w: false,
    };
    let mut max_seq: u64 = 0;
    let ghost mut p: int = 0;
    proof {
        mem.lemma_sorted();
        it.lemma_inv();
        assert(fragments_entries(st.tables@) =~= Seq::<Seq<Kv>>::empty());
        assert(es.take(0) =~= Seq::<Kv>::empty());
        reveal(output_state);
        assert(output_state(st.tables@, st.builder, es.take(0), *opts));
    }
    while it.valid()
        invariant
            it.inv(),
            it.entries() == es,
            es == mem.entries(),
            0 <= p <= es.len(),
            it.pos() == p,
            sorted(es),
            output_state(st.tables@, st.builder, es.take(p), *opts),
            max_seq == top_seq(es, p),
            forall|i: int|
                0 <= i < p ==> kind_of_byte(kind_byte_of((#[trigger] es[i]).key)) is Some,
        decreases es.len() - p,
    {
        let ik = it.ikey();
        let ghost kv = es[p];
        proof {
            assert(is_ikey(es[p].key));
            assert(es.take(p + 1) =~= es.take(p).push(kv));
            assert(sorted(es.take(p + 1))) by {
                let t = es.take(p + 1);
                assert forall|i: int| 0 <= i < t.len() implies is_ikey(#[trigger] t[i].key) by {
                    assert(is_ikey(es[i].key));
                }
                assert forall|i: int, j: int| 0 <= i < j < t.len() implies ikey_before(
                    #[trigger] t[i].key,
                    #[trigger] t[j].key,
                ) by {
                    assert(ikey_before(es[i].key, es[j].key));
                }
            }
        }
        match ikey_kind(ik) {
            Ok(_) => {},
            Err(e) => {
                assert(!kinds_ok(es));
                return Err(e);
            },
        }
        let seq: u64 = ikey_seqno(ik);
        if seq > max_seq {
            max_seq = seq;
        }
        match st.keep(ik, it.value(), opts, Ghost(es.take(p))) {
            Ok(()) => {},
            Err(e) => {
                proof {
                    lemma_stuck_take(es, p + 1, *opts);
                }
                return Err(e);
            },
        }
        it.next();
        proof {
            p = p + 1;
        }
    }
    proof {
        assert(p == es.len());
        assert(es.take(p) =~= es);
        reveal(output_state);
    }
    let ghost tables0 = st.tables@;
    if st.builder.is_some() {
        match st.seal(opts, Ghost(split(es, *opts).0)) {
            Ok(()) => {},
            Err(e) => {
                proof {
                    let c = split(es, *opts);
                    assert(files(es, *opts)[c.0.len() as int] == c.1);
                }
                return Err(e);
            },
        }
        proof {
            assert forall|k: int| 0 <= k < st.tables@.len() - 1 implies (
            #[trigger] st.tables@[k]).bytes@.len() >= opts.target_file_size by {
                assert(st.tables@.drop_last()[k] == tables0[k]);
            }
        }
    }
    proof {
        lemma_all_files(st.tables@, es, *opts);
    }
    Ok((st.tables, max_seq))
}

/// A run that was written out and opened again holds the entries that it was
/// written from.
pub proof fn lemma_written_run_reads_back(
    tables: Seq<Fragment>,
    ts: Seq<Arc<TableHandle>>,
)
    requires
        forall|k: int| 0 <= k < tables.len() ==> fragment_sound(#[trigger] tables[k]),
        split_between_keys(fragments_entries(tables)),
        ts.len() == tables.len(),
        forall|k: int|
            0 <= k < ts.len() ==> {
                &&& (#[trigger] ts[k]).table.inv()
                &&& ts[k].table.bytes() == tables[k].bytes@
                &&& p_table(tables[k].bytes@) == Some(ts[k].table.model())
                &&& ts[k].table.sound() == table_sound(tables[k].bytes@, ts[k].table.model())
            },
    ensures
        fragments_sound(ts),
        fragments(ts) == fragments_entries(tables),
{
    let parts = fragments_entries(tables);
    assert forall|k: int| 0 <= k < ts.len() implies (#[trigger] ts[k]).table.sound()
        && ts[k].table.entries() == parts[k] by {
        assert(fragment_sound(tables[k]));
    }
    assert(fragments(ts) =~= parts);
    assert forall|k: int, l: int| 0 <= k < l < ts.len() implies lex_lt(
        ukey_of((#[trigger] ts[k]).table.model().stats.last_ikey),
        ukey_of((#[trigger] ts[l]).table.model().stats.first_ikey),
    ) by {
        ts[k].table.lemma_sound();
        ts[l].table.lemma_sound();
        assert(ts[k].table.entries() == parts[k]);
        assert(ts[l].table.entries() == parts[l]);
    }
}

/// A merge reclaims what no reader can see: of the versions of a key at or below
/// the watermark only the newest is kept, and not even that where it is a
/// tombstone with nothing older to hide.
pub proof fn lemma_shadowed_is_dropped(
    es: Seq<Kv>,
    w: nat,
    older: spec_fn(Seq<u8>) -> bool,
    i: int,
    j: int,
)
    requires
        0 <= i < j < es.len(),
        ukey_of(es[i].key) == ukey_of(es[j].key),
        seqno_of(es[i].key) <= w,
    ensures
        seqno_of(es[j].key) <= w ==> !kept(es, w, older, j),
        kind_of_byte(kind_byte_of(es[i].key)) == Some(ValueKind::Delete) && !older(
            ukey_of(es[i].key),
        ) ==> !kept(es, w, older, i),
{
    assert(visible(es[i], w));
}

/// What is newer than the watermark is kept, and so is the newest version below
/// it where it is a value.
pub proof fn lemma_readable_is_kept(
    es: Seq<Kv>,
    w: nat,
    older: spec_fn(Seq<u8>) -> bool,
    i: int,
)
    requires
        0 <= i < es.len(),
    ensures
        seqno_of(es[i].key) > w ==> kept(es, w, older, i),
        seqno_of(es[i].key) <= w && (forall|j: int|
            0 <= j < i && ukey_of((#[trigger] es[j]).key) == ukey_of(es[i].key) ==> seqno_of(
                es[j].key,
            ) > w) && kind_of_byte(kind_byte_of(es[i].key)) == Some(ValueKind::Put) ==> kept(
            es,
            w,
            older,
            i,
        ),
{
    if forall|j: int|
        0 <= j < i && ukey_of((#[trigger] es[j]).key) == ukey_of(es[i].key) ==> seqno_of(es[j].key)
            > w {
        assert forall|j: int|
            0 <= j < i && ukey_of(#[trigger] es[j].key) == ukey_of(es[i].key) implies !visible(
            es[j],
            w,
        ) by {
            assert(seqno_of(es[j].key) > w);
        }
    }
}

/// What a merge counts as dead in the value log is what the values take that it
/// drops: of a value that lies in a file, its length where the merge does not
/// keep it, and nothing where it does.
pub proof fn lemma_dropped_values_are_dead(
    es: Seq<Kv>,
    w: nat,
    older: spec_fn(Seq<u8>) -> bool,
    i: int,
    f: u64,
)
    requires
        0 <= i < es.len(),
        kind_of_byte(kind_byte_of(es[i].key)) == Some(ValueKind::Put),
    ensures
        p_repr(es[i].repr) matches Some(Repr::Ptr(p)) && p.file == f ==> dead_at(es, w, i, f) == (
        if kept(es, w, older, i) {
            None
        } else {
            Some((p_repr(es[i].repr)->Some_0)->Ptr_0.len)
        }),
        !(p_repr(es[i].repr) matches Some(Repr::Ptr(p)) && p.file == f) ==> dead_at(es, w, i, f)
            is None,
{
}

/// The seqno that a flush reports is the highest among what it wrote.
pub proof fn lemma_top_is_the_highest(es: Seq<Kv>, n: int)
    requires
        0 <= n <= es.len(),
    ensures
        forall|i: int| 0 <= i < n ==> seqno_of((#[trigger] es[i]).key) <= top_seq(es, n),
        top_seq(es, n) == 0 || exists|i: int|
            0 <= i < n && seqno_of((#[trigger] es[i]).key) == top_seq(es, n),
    decreases n,
{
    if n > 0 {
        lemma_top_is_the_highest(es, n - 1);
        assert(seqno_of(es[n - 1].key) == seqno_of(es[n - 1].key));
    }
}

} // verus!
