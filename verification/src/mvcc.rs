//! MVCC visibility: which of the merged entries a snapshot sees.

use vstd::prelude::*;

use crate::error::Result;
use crate::iter::{InternalIterator, MergeIterator};
use crate::order::{bytes_eq, bytes_lt, to_bytes};
use crate::types::{
    ikey_kind, ikey_seqno, ikey_ukey, make_seek_ikey, SeqNo, ValueKind, MAX_SEQNO,
};

verus! {

use crate::iter::{
    ahead, aheads, dir_before, dir_sorted, in_some, is_lower_bound, is_upper_bound, kinds_ok,
    lemma_merged, mergeable, merged, sorted, Kv,
};
use crate::order::{
    lemma_lex_asymmetric, lemma_lex_irreflexive, lemma_lex_total, lemma_lex_transitive, lex_le,
    lex_lt,
};
use crate::types::{
    ikey_before, ikey_upto, is_ikey, kind_byte_of, kind_of_byte, lemma_ikey_asymmetric,
    lemma_ikey_from, lemma_ikey_irreflexive, lemma_ikey_total, lemma_ikey_transitive,
    lemma_trailer_bound, seek_ikey, seqno_of, ukey_of,
};

// ---------------------------------------------------------------------------
// What a snapshot sees
// ---------------------------------------------------------------------------

/// The snapshot is at or past the entry's commit.
pub open spec fn visible(kv: Kv, snap: nat) -> bool {
    seqno_of(kv.key) <= snap
}

/// Entry `i` is the newest version of its key that the snapshot sees.
pub open spec fn newest(es: Seq<Kv>, snap: nat, i: int) -> bool {
    &&& 0 <= i < es.len()
    &&& visible(es[i], snap)
    &&& forall|j: int|
        0 <= j < i && ukey_of(#[trigger] es[j].key) == ukey_of(es[i].key) ==> !visible(es[j], snap)
}

/// Entry `i` is what a read of its key gives: the newest visible version, and
/// no tombstone.
pub open spec fn live(es: Seq<Kv>, snap: nat, i: int) -> bool {
    newest(es, snap, i) && kind_of_byte(kind_byte_of(es[i].key)) == Some(ValueKind::Put)
}

/// `uk` lies in `[lo, hi)`, without an upper end where `hi` is none.
pub open spec fn in_range(uk: Seq<u8>, lo: Seq<u8>, hi: Option<Seq<u8>>) -> bool {
    lex_le(lo, uk) && (hi matches Some(h) ==> lex_lt(uk, h))
}

/// The user key and the representation of an entry.
pub open spec fn pair_of(kv: Kv) -> (Seq<u8>, Seq<u8>) {
    (ukey_of(kv.key), kv.repr)
}

/// What a scan of `[lo, hi)` at `snap` gives of the first `n` entries.
pub open spec fn scan_upto(
    es: Seq<Kv>,
    snap: nat,
    lo: Seq<u8>,
    hi: Option<Seq<u8>>,
    n: int,
) -> Seq<(Seq<u8>, Seq<u8>)>
    decreases n,
{
    if n <= 0 {
        Seq::empty()
    } else {
        let before = scan_upto(es, snap, lo, hi, n - 1);
        if live(es, snap, n - 1) && in_range(ukey_of(es[n - 1].key), lo, hi) {
            before.push(pair_of(es[n - 1]))
        } else {
            before
        }
    }
}

/// What a scan of `[lo, hi)` at `snap` gives, in key order.
pub open spec fn scan(es: Seq<Kv>, snap: nat, lo: Seq<u8>, hi: Option<Seq<u8>>) -> Seq<
    (Seq<u8>, Seq<u8>),
> {
    scan_upto(es, snap, lo, hi, es.len() as int)
}

proof fn lemma_scan_grows(
    es: Seq<Kv>,
    snap: nat,
    lo: Seq<u8>,
    hi: Option<Seq<u8>>,
    n: int,
    m: int,
)
    requires
        0 <= n <= m,
    ensures
        scan_upto(es, snap, lo, hi, n).is_prefix_of(scan_upto(es, snap, lo, hi, m)),
    decreases m,
{
    if n < m {
        lemma_scan_grows(es, snap, lo, hi, n, m - 1);
        let a = scan_upto(es, snap, lo, hi, n);
        let b = scan_upto(es, snap, lo, hi, m - 1);
        let c = scan_upto(es, snap, lo, hi, m);
        assert(c.take(a.len() as int) =~= b.take(a.len() as int));
        assert(a =~= c.take(a.len() as int));
    } else {
        let a = scan_upto(es, snap, lo, hi, n);
        assert(a =~= a.take(a.len() as int));
    }
}

/// Where no entry from `n` to `m` is live and in range, a scan gives nothing
/// of them.
proof fn lemma_scan_still(
    es: Seq<Kv>,
    snap: nat,
    lo: Seq<u8>,
    hi: Option<Seq<u8>>,
    n: int,
    m: int,
)
    requires
        0 <= n <= m,
        forall|i: int|
            n <= i < m ==> !(#[trigger] live(es, snap, i) && in_range(ukey_of(es[i].key), lo, hi)),
    ensures
        scan_upto(es, snap, lo, hi, m) == scan_upto(es, snap, lo, hi, n),
    decreases m,
{
    if n < m {
        lemma_scan_still(es, snap, lo, hi, n, m - 1);
        assert(!(live(es, snap, m - 1) && in_range(ukey_of(es[m - 1].key), lo, hi)));
    }
}

/// A later entry of a sorted sequence has the same user key or a greater one.
pub proof fn lemma_ukeys_ascend(es: Seq<Kv>, i: int, j: int)
    requires
        sorted(es),
        0 <= i <= j < es.len(),
    ensures
        lex_le(ukey_of(es[i].key), ukey_of(es[j].key)),
{
    if i < j {
        assert(ikey_before(es[i].key, es[j].key));
    }
}

proof fn lemma_scan_members(
    es: Seq<Kv>,
    snap: nat,
    lo: Seq<u8>,
    hi: Option<Seq<u8>>,
    n: int,
    q: (Seq<u8>, Seq<u8>),
)
    requires
        0 <= n <= es.len(),
    ensures
        scan_upto(es, snap, lo, hi, n).contains(q) <==> exists|i: int|
            0 <= i < n && #[trigger] live(es, snap, i) && in_range(q.0, lo, hi) && pair_of(es[i])
                == q,
    decreases n,
{
    let s = scan_upto(es, snap, lo, hi, n);
    if n > 0 {
        lemma_scan_members(es, snap, lo, hi, n - 1, q);
        let before = scan_upto(es, snap, lo, hi, n - 1);
        if s.contains(q) {
            let x = choose|x: int| 0 <= x < s.len() && s[x] == q;
            if x < before.len() {
                assert(before[x] == q);
                assert(before.contains(q));
            } else {
                assert(live(es, snap, n - 1));
            }
        }
        if exists|i: int|
            0 <= i < n && #[trigger] live(es, snap, i) && in_range(q.0, lo, hi) && pair_of(es[i])
                == q {
            let i = choose|i: int|
                0 <= i < n && #[trigger] live(es, snap, i) && in_range(q.0, lo, hi) && pair_of(es[i])
                    == q;
            if i < n - 1 {
                assert(before.contains(q));
                let x = choose|x: int| 0 <= x < before.len() && before[x] == q;
                assert(s[x] == q);
            } else {
                assert(s[s.len() - 1] == q);
            }
        }
    }
}

/// A scan gives a pair exactly where the key is in range and its newest
/// visible version is a put of that representation: tombstones hide what they
/// deleted, and commits after the snapshot do not show.
pub proof fn lemma_scan_is_exact(
    es: Seq<Kv>,
    snap: nat,
    lo: Seq<u8>,
    hi: Option<Seq<u8>>,
    uk: Seq<u8>,
    repr: Seq<u8>,
)
    ensures
        scan(es, snap, lo, hi).contains((uk, repr)) <==> in_range(uk, lo, hi) && exists|i: int|
            #[trigger] live(es, snap, i) && ukey_of(es[i].key) == uk && es[i].repr == repr,
{
    lemma_scan_members(es, snap, lo, hi, es.len() as int, (uk, repr));
    if scan(es, snap, lo, hi).contains((uk, repr)) {
        let i = choose|i: int|
            0 <= i < es.len() && #[trigger] live(es, snap, i) && in_range(uk, lo, hi) && pair_of(
                es[i],
            ) == (uk, repr);
        assert(live(es, snap, i) && ukey_of(es[i].key) == uk && es[i].repr == repr);
    }
    if in_range(uk, lo, hi) && exists|i: int|
        #[trigger] live(es, snap, i) && ukey_of(es[i].key) == uk && es[i].repr == repr {
        let i = choose|i: int|
            #[trigger] live(es, snap, i) && ukey_of(es[i].key) == uk && es[i].repr == repr;
        assert(live(es, snap, i) && pair_of(es[i]) == (uk, repr));
    }
}

proof fn lemma_scan_below(
    es: Seq<Kv>,
    snap: nat,
    lo: Seq<u8>,
    hi: Option<Seq<u8>>,
    n: int,
    x: int,
)
    requires
        sorted(es),
        0 <= n < es.len(),
        live(es, snap, n),
        0 <= x < scan_upto(es, snap, lo, hi, n).len(),
    ensures
        lex_lt(scan_upto(es, snap, lo, hi, n)[x].0, ukey_of(es[n].key)),
{
    let q = scan_upto(es, snap, lo, hi, n)[x];
    assert(scan_upto(es, snap, lo, hi, n).contains(q));
    lemma_scan_members(es, snap, lo, hi, n, q);
    let i = choose|i: int|
        0 <= i < n && #[trigger] live(es, snap, i) && in_range(q.0, lo, hi) && pair_of(es[i]) == q;
    lemma_ukeys_ascend(es, i, n);
    if ukey_of(es[i].key) == ukey_of(es[n].key) {
        assert(!visible(es[i], snap));
    }
}

proof fn lemma_scan_ascends_upto(
    es: Seq<Kv>,
    snap: nat,
    lo: Seq<u8>,
    hi: Option<Seq<u8>>,
    n: int,
    x: int,
    y: int,
)
    requires
        sorted(es),
        0 <= n <= es.len(),
        0 <= x < y < scan_upto(es, snap, lo, hi, n).len(),
    ensures
        lex_lt(scan_upto(es, snap, lo, hi, n)[x].0, scan_upto(es, snap, lo, hi, n)[y].0),
    decreases n,
{
    if n > 0 {
        let before = scan_upto(es, snap, lo, hi, n - 1);
        if y < before.len() {
            lemma_scan_ascends_upto(es, snap, lo, hi, n - 1, x, y);
        } else {
            lemma_scan_below(es, snap, lo, hi, n - 1, x);
        }
    }
}

/// A scan gives its pairs in strictly ascending key order: each key once.
pub proof fn lemma_scan_ascends(
    es: Seq<Kv>,
    snap: nat,
    lo: Seq<u8>,
    hi: Option<Seq<u8>>,
    x: int,
    y: int,
)
    requires
        sorted(es),
        0 <= x < y < scan(es, snap, lo, hi).len(),
    ensures
        lex_lt(scan(es, snap, lo, hi)[x].0, scan(es, snap, lo, hi)[y].0),
{
    lemma_scan_ascends_upto(es, snap, lo, hi, es.len() as int, x, y);
}

// ---------------------------------------------------------------------------
// Point lookups
// ---------------------------------------------------------------------------

/// Entry `i` is the newest version of `uk` that a read at `seq` sees.
pub open spec fn found_at(es: Seq<Kv>, uk: Seq<u8>, seq: nat, i: int) -> bool {
    newest(es, seq, i) && ukey_of(es[i].key) == uk
}

/// The newest version of `uk` that a read at `seq` sees, tombstones included.
pub open spec fn find_newest(es: Seq<Kv>, uk: Seq<u8>, seq: nat) -> Option<Kv> {
    if exists|i: int| found_at(es, uk, seq, i) {
        Some(es[choose|i: int| found_at(es, uk, seq, i)])
    } else {
        None
    }
}

/// What a point read returns of an entry: its kind, its seqno and its
/// representation.
pub open spec fn hit_is(r: (ValueKind, SeqNo, Vec<u8>), kv: Kv) -> bool {
    &&& kind_of_byte(kind_byte_of(kv.key)) == Some(r.0)
    &&& r.1 == seqno_of(kv.key)
    &&& r.2@ == kv.repr
}

/// There is one newest version at most.
pub proof fn lemma_found_unique(es: Seq<Kv>, uk: Seq<u8>, seq: nat, i: int)
    requires
        found_at(es, uk, seq, i),
    ensures
        find_newest(es, uk, seq) == Some(es[i]),
{
    let j = choose|j: int| found_at(es, uk, seq, j);
    assert(found_at(es, uk, seq, j));
    if i < j {
        assert(!visible(es[i], seq));
    } else if j < i {
        assert(!visible(es[j], seq));
    }
}

/// Whether an entry of `uk` sorts before the seek target of `(uk, seq)` is
/// whether its seqno is above `seq`.
pub proof fn lemma_seek_splits(k: Seq<u8>, uk: Seq<u8>, seq: SeqNo)
    requires
        is_ikey(k),
        seq <= MAX_SEQNO,
        ukey_of(k) == uk,
    ensures
        ikey_before(k, seek_ikey(uk, seq)) <==> seqno_of(k) > seq,
{
    lemma_ikey_from(uk, seq as nat * 256 + 255);
    lemma_trailer_bound(k);
    lemma_lex_irreflexive(uk);
}

/// The lower bound of a seek target is the newest visible version of its key,
/// or there is none.
pub proof fn lemma_lookup(es: Seq<Kv>, uk: Seq<u8>, seq: SeqNo, n: int)
    requires
        sorted(es),
        seq <= MAX_SEQNO,
        is_lower_bound(es, seek_ikey(uk, seq), n),
    ensures
        n < es.len() && ukey_of(es[n].key) == uk ==> find_newest(es, uk, seq as nat) == Some(es[n])
            && found_at(es, uk, seq as nat, n),
        !(n < es.len() && ukey_of(es[n].key) == uk) ==> find_newest(es, uk, seq as nat) is None,
{
    let t = seek_ikey(uk, seq);
    lemma_ikey_from(uk, seq as nat * 256 + 255);
    if n < es.len() && ukey_of(es[n].key) == uk {
        lemma_seek_splits(es[n].key, uk, seq);
        assert forall|j: int|
            0 <= j < n && ukey_of(#[trigger] es[j].key) == ukey_of(es[n].key) implies !visible(
            es[j],
            seq as nat,
        ) by {
            lemma_seek_splits(es[j].key, uk, seq);
        }
        assert(found_at(es, uk, seq as nat, n));
        lemma_found_unique(es, uk, seq as nat, n);
    } else if exists|i: int| found_at(es, uk, seq as nat, i) {
        let i = choose|i: int| found_at(es, uk, seq as nat, i);
        assert(found_at(es, uk, seq as nat, i));
        lemma_seek_splits(es[i].key, uk, seq);
        assert(n <= i);
        // the lower bound's key lies between uk's seek target and entry i
        lemma_ukeys_ascend(es, n, i);
        assert(!ikey_before(es[n].key, t));
        lemma_lex_total(ukey_of(es[n].key), uk);
        if lex_lt(uk, ukey_of(es[n].key)) {
            lemma_lex_asymmetric(uk, ukey_of(es[n].key));
        }
        assert(false);
    }
}

// ---------------------------------------------------------------------------
// Sorted sequences with the same entries are the same
// ---------------------------------------------------------------------------

pub proof fn lemma_same_members(a: Seq<Kv>, b: Seq<Kv>, reverse: bool)
    requires
        dir_sorted(a, reverse),
        dir_sorted(b, reverse),
        forall|kv: Kv| a.contains(kv) <==> b.contains(kv),
    ensures
        a == b,
    decreases a.len(),
{
    if a.len() == 0 {
        if b.len() > 0 {
            assert(b.contains(b[0]));
        }
        assert(a =~= b);
    } else {
        assert(a.contains(a[0]));
        let x = choose|x: int| 0 <= x < b.len() && b[x] == a[0];
        assert(b.contains(b[0]));
        let y = choose|y: int| 0 <= y < a.len() && a[y] == b[0];
        if x > 0 && y > 0 {
            assert(dir_before(b[0].key, b[x].key, reverse));
            assert(dir_before(a[0].key, a[y].key, reverse));
            if reverse {
                lemma_ikey_asymmetric(a[0].key, b[0].key);
            } else {
                lemma_ikey_asymmetric(b[0].key, a[0].key);
            }
        }
        assert(a[0] == b[0]);
        let a1 = a.skip(1);
        let b1 = b.skip(1);
        lemma_ikey_irreflexive(a[0].key);
        assert forall|kv: Kv| a1.contains(kv) <==> b1.contains(kv) by {
            if a1.contains(kv) {
                let i = choose|i: int| 0 <= i < a1.len() && a1[i] == kv;
                assert(a[i + 1] == kv);
                assert(a.contains(kv));
                assert(dir_before(a[0].key, a[i + 1].key, reverse));
                let j = choose|j: int| 0 <= j < b.len() && b[j] == kv;
                assert(j > 0);
                assert(b1[j - 1] == kv);
            }
            if b1.contains(kv) {
                let i = choose|i: int| 0 <= i < b1.len() && b1[i] == kv;
                assert(b[i + 1] == kv);
                assert(b.contains(kv));
                assert(dir_before(b[0].key, b[i + 1].key, reverse));
                let j = choose|j: int| 0 <= j < a.len() && a[j] == kv;
                assert(j > 0);
                assert(a1[j - 1] == kv);
            }
        }
        assert(dir_sorted(a1, reverse)) by {
            assert forall|i: int| 0 <= i < a1.len() implies is_ikey(#[trigger] a1[i].key) by {
                assert(a1[i] == a[i + 1]);
            }
            assert forall|i: int, j: int| 0 <= i < j < a1.len() implies dir_before(
                #[trigger] a1[i].key,
                #[trigger] a1[j].key,
                reverse,
            ) by {
                assert(dir_before(a[i + 1].key, a[j + 1].key, reverse));
            }
        }
        assert(dir_sorted(b1, reverse)) by {
            assert forall|i: int| 0 <= i < b1.len() implies is_ikey(#[trigger] b1[i].key) by {
                assert(b1[i] == b[i + 1]);
            }
            assert forall|i: int, j: int| 0 <= i < j < b1.len() implies dir_before(
                #[trigger] b1[i].key,
                #[trigger] b1[j].key,
                reverse,
            ) by {
                assert(dir_before(b[i + 1].key, b[j + 1].key, reverse));
            }
        }
        lemma_same_members(a1, b1, reverse);
        assert(a =~= seq![a[0]] + a1);
        assert(b =~= seq![b[0]] + b1);
    }
}

pub proof fn lemma_bound_exists(es: Seq<Kv>, ikey: Seq<u8>) -> (n: int)
    requires
        sorted(es),
        is_ikey(ikey),
    ensures
        is_lower_bound(es, ikey, n),
    decreases es.len(),
{
    if es.len() == 0 {
        0
    } else {
        let init = es.drop_last();
        assert(sorted(init));
        if ikey_before(es.last().key, ikey) {
            assert forall|i: int| 0 <= i < es.len() implies ikey_before(
                #[trigger] es[i].key,
                ikey,
            ) by {
                if i < es.len() - 1 {
                    assert(ikey_before(es[i].key, es[es.len() - 1].key));
                    lemma_ikey_transitive(es[i].key, es.last().key, ikey);
                }
            }
            es.len() as int
        } else {
            let n = lemma_bound_exists(init, ikey);
            assert forall|i: int| 0 <= i < n implies ikey_before(#[trigger] es[i].key, ikey) by {
                assert(es[i] == init[i]);
            }
            assert forall|i: int| n <= i < es.len() implies !ikey_before(
                #[trigger] es[i].key,
                ikey,
            ) by {
                if i < es.len() - 1 {
                    assert(es[i] == init[i]);
                }
            }
            n
        }
    }
}

/// The merge of what is ahead of each source's lower bound is the merge of
/// the sources from its own lower bound on.
proof fn lemma_merge_of_suffixes(
    srcs: Seq<Seq<Kv>>,
    rs: Seq<Seq<Kv>>,
    ps: Seq<int>,
    ikey: Seq<u8>,
    n: int,
)
    requires
        mergeable(srcs, false),
        is_ikey(ikey),
        rs.len() == srcs.len(),
        ps.len() == srcs.len(),
        forall|k: int|
            0 <= k < srcs.len() ==> is_lower_bound(#[trigger] srcs[k], ikey, ps[k]) && rs[k]
                == srcs[k].skip(ps[k]),
        is_lower_bound(merged(srcs, false), ikey, n),
    ensures
        merged(rs, false) == merged(srcs, false).skip(n),
{
    let full = merged(srcs, false);
    lemma_merged(srcs, false);
    assert(mergeable(rs, false)) by {
        assert forall|k: int| 0 <= k < rs.len() implies dir_sorted(#[trigger] rs[k], false) by {
            assert(dir_sorted(srcs[k], false));
            assert(is_lower_bound(srcs[k], ikey, ps[k]));
            assert forall|i: int| 0 <= i < rs[k].len() implies is_ikey(#[trigger] rs[k][i].key) by {
                assert(rs[k][i] == srcs[k][i + ps[k]]);
            }
            assert forall|i: int, j: int| 0 <= i < j < rs[k].len() implies dir_before(
                #[trigger] rs[k][i].key,
                #[trigger] rs[k][j].key,
                false,
            ) by {
                assert(dir_before(srcs[k][i + ps[k]].key, srcs[k][j + ps[k]].key, false));
            }
        }
        assert forall|k: int, l: int, i: int, j: int|
            0 <= k < rs.len() && 0 <= l < rs.len() && k != l && 0 <= i < rs[k].len() && 0 <= j
                < rs[l].len() implies (#[trigger] rs[k][i]).key != (#[trigger] rs[l][j]).key by {
            assert(is_lower_bound(srcs[k], ikey, ps[k]));
            assert(is_lower_bound(srcs[l], ikey, ps[l]));
            assert(rs[k][i] == srcs[k][i + ps[k]]);
            assert(rs[l][j] == srcs[l][j + ps[l]]);
        }
    }
    lemma_merged(rs, false);
    let a = merged(rs, false);
    let b = full.skip(n);
    assert(dir_sorted(b, false)) by {
        assert forall|i: int| 0 <= i < b.len() implies is_ikey(#[trigger] b[i].key) by {
            assert(b[i] == full[i + n]);
        }
        assert forall|i: int, j: int| 0 <= i < j < b.len() implies dir_before(
            #[trigger] b[i].key,
            #[trigger] b[j].key,
            false,
        ) by {
            assert(dir_before(full[i + n].key, full[j + n].key, false));
        }
    }
    assert forall|kv: Kv| a.contains(kv) <==> b.contains(kv) by {
        if a.contains(kv) {
            assert(in_some(rs, kv));
            let (k, i) = choose|k: int, i: int|
                0 <= k < rs.len() && 0 <= i < rs[k].len() && #[trigger] rs[k][i] == kv;
            assert(is_lower_bound(srcs[k], ikey, ps[k]));
            assert(srcs[k][i + ps[k]] == kv);
            assert(!ikey_before(kv.key, ikey));
            assert(in_some(srcs, kv));
            let x = choose|x: int| 0 <= x < full.len() && full[x] == kv;
            assert(x >= n);
            assert(b[x - n] == kv);
        }
        if b.contains(kv) {
            let x = choose|x: int| 0 <= x < b.len() && b[x] == kv;
            assert(full[x + n] == kv);
            assert(full.contains(kv));
            assert(in_some(srcs, kv));
            let (k, i) = choose|k: int, i: int|
                0 <= k < srcs.len() && 0 <= i < srcs[k].len() && #[trigger] srcs[k][i] == kv;
            assert(!ikey_before(full[x + n].key, ikey));
            assert(is_lower_bound(srcs[k], ikey, ps[k]));
            if i < ps[k] {
                assert(ikey_before(srcs[k][i].key, ikey));
            }
            assert(i >= ps[k]);
            assert(rs[k][i - ps[k]] == kv);
            assert(in_some(rs, kv));
        }
    }
    lemma_same_members(a, b, false);
}

/// The merge, backwards, of what each source holds up to its upper bound is
/// the merge of the sources up to its own upper bound, reversed.
proof fn lemma_merge_of_prefixes(
    srcs: Seq<Seq<Kv>>,
    rs: Seq<Seq<Kv>>,
    ps: Seq<int>,
    n: int,
)
    requires
        mergeable(srcs, false),
        rs.len() == srcs.len(),
        ps.len() == srcs.len(),
        forall|k: int|
            0 <= k < srcs.len() ==> 0 <= ps[k] <= (#[trigger] srcs[k]).len() && rs[k]
                == srcs[k].take(ps[k]).reverse(),
        0 <= n <= merged(srcs, false).len(),
        forall|k: int, i: int, x: int|
            0 <= k < srcs.len() && 0 <= i < srcs[k].len() && 0 <= x < merged(srcs, false).len()
                && #[trigger] srcs[k][i] == #[trigger] merged(srcs, false)[x] ==> (i < ps[k] <==> x
                < n),
    ensures
        merged(rs, true) == merged(srcs, false).take(n).reverse(),
{
    let full = merged(srcs, false);
    lemma_merged(srcs, false);
    assert(mergeable(rs, true)) by {
        assert forall|k: int| 0 <= k < rs.len() implies dir_sorted(#[trigger] rs[k], true) by {
            assert(dir_sorted(srcs[k], false));
            assert(ps[k] <= srcs[k].len());
            assert forall|i: int| 0 <= i < rs[k].len() implies is_ikey(#[trigger] rs[k][i].key) by {
                assert(rs[k][i] == srcs[k][ps[k] - 1 - i]);
            }
            assert forall|i: int, j: int| 0 <= i < j < rs[k].len() implies dir_before(
                #[trigger] rs[k][i].key,
                #[trigger] rs[k][j].key,
                true,
            ) by {
                assert(dir_before(srcs[k][ps[k] - 1 - j].key, srcs[k][ps[k] - 1 - i].key, false));
            }
        }
        assert forall|k: int, l: int, i: int, j: int|
            0 <= k < rs.len() && 0 <= l < rs.len() && k != l && 0 <= i < rs[k].len() && 0 <= j
                < rs[l].len() implies (#[trigger] rs[k][i]).key != (#[trigger] rs[l][j]).key by {
            assert(ps[k] <= srcs[k].len());
            assert(ps[l] <= srcs[l].len());
            assert(rs[k][i] == srcs[k][ps[k] - 1 - i]);
            assert(rs[l][j] == srcs[l][ps[l] - 1 - j]);
        }
    }
    lemma_merged(rs, true);
    let a = merged(rs, true);
    let b = full.take(n).reverse();
    assert(dir_sorted(b, true)) by {
        assert forall|i: int| 0 <= i < b.len() implies is_ikey(#[trigger] b[i].key) by {
            assert(b[i] == full[n - 1 - i]);
        }
        assert forall|i: int, j: int| 0 <= i < j < b.len() implies dir_before(
            #[trigger] b[i].key,
            #[trigger] b[j].key,
            true,
        ) by {
            assert(dir_before(full[n - 1 - j].key, full[n - 1 - i].key, false));
        }
    }
    assert forall|kv: Kv| a.contains(kv) <==> b.contains(kv) by {
        if a.contains(kv) {
            assert(in_some(rs, kv));
            let (k, i) = choose|k: int, i: int|
                0 <= k < rs.len() && 0 <= i < rs[k].len() && #[trigger] rs[k][i] == kv;
            assert(ps[k] <= srcs[k].len());
            let i2 = ps[k] - 1 - i;
            assert(srcs[k][i2] == kv);
            assert(in_some(srcs, kv));
            let x = choose|x: int| 0 <= x < full.len() && full[x] == kv;
            assert(srcs[k][i2] == full[x]);
            assert(x < n);
            assert(b[n - 1 - x] == kv);
        }
        if b.contains(kv) {
            let y = choose|y: int| 0 <= y < b.len() && b[y] == kv;
            let x = n - 1 - y;
            assert(full[x] == kv);
            assert(full.contains(kv));
            assert(in_some(srcs, kv));
            let (k, i) = choose|k: int, i: int|
                0 <= k < srcs.len() && 0 <= i < srcs[k].len() && #[trigger] srcs[k][i] == kv;
            assert(srcs[k][i] == full[x]);
            assert(i < ps[k]);
            assert(rs[k][ps[k] - 1 - i] == kv);
            assert(in_some(rs, kv));
        }
    }
    lemma_same_members(a, b, true);
}

/// An entry sorts before the first seek target of `uk` exactly where its user
/// key does.
pub proof fn lemma_before_seek(k: Seq<u8>, uk: Seq<u8>)
    requires
        is_ikey(k),
    ensures
        ikey_before(k, seek_ikey(uk, MAX_SEQNO)) <==> lex_lt(ukey_of(k), uk),
{
    lemma_ikey_from(uk, MAX_SEQNO as nat * 256 + 255);
    lemma_trailer_bound(k);
}

// ---------------------------------------------------------------------------
// Forward
// ---------------------------------------------------------------------------

pub open spec fn opt_view(v: Option<Vec<u8>>) -> Option<Seq<u8>> {
    match v {
        Some(b) => Some(b@),
        None => None,
    }
}

/// What `next_visible` returns for what is still to come: the next pair, or
/// the end.
pub open spec fn gives(r: Option<(Vec<u8>, Vec<u8>)>, pending: Seq<(Seq<u8>, Seq<u8>)>) -> bool {
    if pending.len() == 0 {
        r is None
    } else {
        r matches Some((k, v)) && (k@, v@) == pending[0]
    }
}

/// Forward stream of the newest visible Put per user key within
/// `[lo, hi)` at snapshot `snap`.
pub struct MvccForward<I> {
    it: MergeIterator<I>,
    snap: SeqNo,
    hi: Option<Vec<u8>>,
    last_ukey: Option<Vec<u8>>,
    done: bool,
    lo: Ghost<Seq<u8>>,
    all: Ghost<Seq<Kv>>,
    at: Ghost<int>,
}

impl<I: InternalIterator> MvccForward<I> {
    /// All entries of all sources, merged.
    pub closed spec fn all(self) -> Seq<Kv> {
        self.all@
    }

    pub closed spec fn inv(self) -> bool {
        let es = self.all@;
        let p = self.at@;
        &&& self.it.inv()
        &&& !self.it.reverse
        &&& sorted(es)
        &&& 0 <= p <= es.len()
        &&& self.it.rest() == es.skip(p)
        &&& forall|j: int| p <= j < es.len() ==> lex_le(self.lo@, ukey_of(#[trigger] es[j].key))
        &&& self.last_ukey matches Some(u) ==> exists|j: int|
            0 <= j < p && ukey_of(#[trigger] es[j].key) == u@ && visible(es[j], self.snap as nat)
        &&& forall|j: int|
            0 <= j < p && #[trigger] visible(es[j], self.snap as nat) ==> lex_lt(
                ukey_of(es[j].key),
                self.lo@,
            ) || (self.last_ukey matches Some(u) && lex_le(ukey_of(es[j].key), u@))
        &&& self.done ==> self.pending().len() == 0
    }

    /// The pairs still to come.
    pub closed spec fn pending(self) -> Seq<(Seq<u8>, Seq<u8>)> {
        let whole = scan(self.all@, self.snap as nat, self.lo@, opt_view(self.hi));
        whole.skip(
            scan_upto(
                self.all@,
                self.snap as nat,
                self.lo@,
                opt_view(self.hi),
                self.at@,
            ).len() as int,
        )
    }

    /// Start a scan of `[lo, hi)` at `snap`.
    pub fn new(it: MergeIterator<I>, snap: SeqNo, lo: &[u8], hi: Option<Vec<u8>>) -> (f: Self)
        requires
            !it.reverse,
            forall|k: int| 0 <= k < it.children@.len() ==> (#[trigger] it.children@[k]).inv(),
            mergeable(it.sources(), false),
        ensures
            f.inv(),
            f.all() == merged(it.sources(), false),
            f.pending() == scan(
                merged(it.sources(), false),
                snap as nat,
                lo@,
                opt_view(hi),
            ),
    {
        let mut it = it;
        let target = make_seek_ikey(lo, MAX_SEQNO);
        let ghost srcs = it.sources();
        let ghost es = merged(srcs, false);
        proof {
            lemma_merged(srcs, false);
            assert(sorted(es)) by {
                assert forall|i: int, j: int| 0 <= i < j < es.len() implies ikey_before(
                    #[trigger] es[i].key,
                    #[trigger] es[j].key,
                ) by {
                    assert(dir_before(es[i].key, es[j].key, false));
                }
            }
            lemma_ikey_from(lo@, MAX_SEQNO as nat * 256 + 255);
        }
        let ghost n = lemma_bound_exists(es, target@);
        it.seek(target.as_slice());
        proof {
            let rs = aheads(it.children@, false);
            let ps = it.children@.map_values(|c: I| c.pos());
            assert forall|k: int| 0 <= k < srcs.len() implies is_lower_bound(
                #[trigger] srcs[k],
                target@,
                ps[k],
            ) && rs[k] == srcs[k].skip(ps[k]) by {
                assert(it.sources()[k] == it.children@[k].entries());
            }
            lemma_merge_of_suffixes(srcs, rs, ps, target@, n);
            assert forall|j: int| n <= j < es.len() implies lex_le(
                lo@,
                ukey_of(#[trigger] es[j].key),
            ) by {
                lemma_before_seek(es[j].key, lo@);
                lemma_lex_total(lo@, ukey_of(es[j].key));
            }
            assert forall|j: int| 0 <= j < n implies lex_lt(ukey_of(#[trigger] es[j].key), lo@) by {
                lemma_before_seek(es[j].key, lo@);
            }
            assert forall|i: int| 0 <= i < n implies !(#[trigger] live(es, snap as nat, i)
                && in_range(ukey_of(es[i].key), lo@, opt_view(hi))) by {
                assert(lex_lt(ukey_of(es[i].key), lo@));
                lemma_lex_asymmetric(ukey_of(es[i].key), lo@);
            }
            lemma_scan_still(es, snap as nat, lo@, opt_view(hi), 0, n);
        }
        let f = MvccForward {
            it,
            snap,
            hi,
            last_ukey: None,
            done: false,
            lo: Ghost(lo@),
            all: Ghost(es),
            at: Ghost(n),
        };
        proof {
            assert(f.pending() =~= scan(es, snap as nat, lo@, opt_view(hi)));
        }
        f
    }

    /// Next visible (user key, repr) pair; an unknown kind byte is corruption.
    pub fn next_visible(&mut self) -> (r: Result<Option<(Vec<u8>, Vec<u8>)>>)
        requires
            old(self).inv(),
        ensures
            final(self).inv(),
            final(self).all() == old(self).all(),
            match r {
                Ok(x) => gives(x, old(self).pending()) && final(self).pending() == old(
                    self,
                ).pending().skip(
                    if old(self).pending().len() == 0 {
                        0
                    } else {
                        1
                    },
                ),
                Err(e) => e is Corruption && !kinds_ok(old(self).all())
                    && final(self).pending() == old(self).pending(),
            },
    {
        let ghost pend0 = self.pending();
        assert(pend0.skip(0) =~= pend0);
        if self.done {
            return Ok(None);
        }
        loop
            invariant
                self.inv(),
                !self.done,
                self.all@ == old(self).all@,
                self.pending() == old(self).pending(),
                pend0 == old(self).pending(),
                pend0.skip(0) == pend0,
            decreases self.all@.len() - self.at@,
        {
            let ghost es = self.all@;
            let ghost p = self.at@;
            let ghost snap = self.snap as nat;
            let ghost hi = opt_view(self.hi);
            let ghost lo = self.lo@;
            if !self.it.valid() {
                assert(p == es.len());
                self.done = true;
                return Ok(None);
            }
            let ghost cur = es[p];
            assert(self.it.rest()[0] == cur);
            proof {
                lemma_scan_grows(es, snap, lo, hi, p, es.len() as int);
                lemma_scan_grows(es, snap, lo, hi, p + 1, es.len() as int);
            }
            let ik = self.it.ikey();
            let uk = to_bytes(ikey_ukey(ik));
            let over: bool = match &self.hi {
                Some(h) => !bytes_lt(uk.as_slice(), h.as_slice()),
                None => false,
            };
            if over {
                proof {
                    assert forall|i: int| p <= i < es.len() implies !(#[trigger] live(es, snap, i)
                        && in_range(ukey_of(es[i].key), lo, hi)) by {
                        lemma_ukeys_ascend(es, p, i);
                        let h = hi->Some_0;
                        if lex_lt(ukey_of(es[i].key), h) && ukey_of(es[i].key) != uk@ {
                            lemma_lex_transitive(uk@, ukey_of(es[i].key), h);
                        }
                    }
                    lemma_scan_still(es, snap, lo, hi, p, es.len() as int);
                }
                self.done = true;
                return Ok(None);
            }
            let seen: bool = match &self.last_ukey {
                Some(u) => bytes_eq(u.as_slice(), uk.as_slice()),
                None => false,
            };
            proof {
                // a visible version of this key stands before it exactly
                // where the last visible key is this one
                if self.last_ukey is Some {
                    let u = self.last_ukey->Some_0@;
                    let j = choose|j: int|
                        0 <= j < p && ukey_of(#[trigger] es[j].key) == u && visible(es[j], snap);
                    lemma_ukeys_ascend(es, j, p);
                    if u == uk@ {
                        assert(!newest(es, snap, p));
                    }
                }
                if !seen && !newest(es, snap, p) && visible(es[p], snap) {
                    let j = choose|j: int|
                        0 <= j < p && ukey_of(#[trigger] es[j].key) == ukey_of(es[p].key)
                            && visible(es[j], snap);
                    assert(visible(es[j], snap));
                    assert(lex_le(lo, uk@));
                    if lex_lt(uk@, lo) {
                        lemma_lex_irreflexive(lo);
                        lemma_lex_transitive(uk@, lo, uk@);
                        lemma_lex_irreflexive(uk@);
                    }
                    let u = self.last_ukey->Some_0@;
                    let j2 = choose|j2: int|
                        0 <= j2 < p && ukey_of(#[trigger] es[j2].key) == u && visible(es[j2], snap);
                    lemma_ukeys_ascend(es, j2, p);
                    lemma_lex_asymmetric(u, uk@);
                    assert(false);
                }
                assert(es.skip(p).skip(1) =~= es.skip(p + 1));
            }
            if seen || ikey_seqno(ik) > self.snap {
                assert(!live(es, snap, p));
                self.it.next();
                self.at = Ghost(p + 1);
                continue;
            }
            assert(newest(es, snap, p));
            let kind = match ikey_kind(ik) {
                Ok(k) => k,
                Err(e) => return Err(e),
            };
            let value = to_bytes(self.it.value());
            let out_key = to_bytes(uk.as_slice());
            let ghost before_last = self.last_ukey;
            self.it.next();
            self.last_ukey = Some(uk);
            self.at = Ghost(p + 1);
            proof {
                assert(ukey_of(es[p].key) == uk@ && visible(es[p], snap));
                assert forall|j: int| 0 <= j < p + 1 && #[trigger] visible(es[j], snap) implies
                    lex_lt(ukey_of(es[j].key), lo) || lex_le(ukey_of(es[j].key), uk@) by {
                    lemma_ukeys_ascend(es, j, p);
                }
            }
            if kind == ValueKind::Delete {
                assert(!live(es, snap, p));
                continue;
            }
            proof {
                assert(live(es, snap, p));
                assert(in_range(uk@, lo, hi));
                let s0 = scan_upto(es, snap, lo, hi, p);
                let s1 = scan_upto(es, snap, lo, hi, p + 1);
                let whole = scan(es, snap, lo, hi);
                assert(s1 == s0.push(pair_of(es[p])));
                assert(whole.take(s1.len() as int) == s1);
                assert(whole[s0.len() as int] == whole.take(s1.len() as int)[s0.len() as int]);
                assert(whole.skip(s0.len() as int).skip(1) =~= whole.skip(s1.len() as int));
            }
            return Ok(Some((out_key, value)));
        }
    }
}

// ---------------------------------------------------------------------------
// Reverse
// ---------------------------------------------------------------------------

pub proof fn lemma_upper_exists(es: Seq<Kv>, ikey: Seq<u8>) -> (n: int)
    requires
        sorted(es),
        is_ikey(ikey),
    ensures
        is_upper_bound(es, ikey, n),
    decreases es.len(),
{
    if es.len() == 0 {
        0
    } else {
        let init = es.drop_last();
        assert(sorted(init));
        lemma_ikey_total(es.last().key, ikey);
        if ikey_before(ikey, es.last().key) {
            let n = lemma_upper_exists(init, ikey);
            assert forall|i: int| 0 <= i < n implies ikey_upto(#[trigger] es[i].key, ikey) by {
                assert(es[i] == init[i]);
            }
            assert forall|i: int| n <= i < es.len() implies ikey_before(
                ikey,
                #[trigger] es[i].key,
            ) by {
                if i < es.len() - 1 {
                    assert(es[i] == init[i]);
                }
            }
            n
        } else {
            assert forall|i: int| 0 <= i < es.len() implies ikey_upto(
                #[trigger] es[i].key,
                ikey,
            ) by {
                if i < es.len() - 1 {
                    assert(ikey_before(es[i].key, es[es.len() - 1].key));
                    if ikey_before(es.last().key, ikey) {
                        lemma_ikey_transitive(es[i].key, es.last().key, ikey);
                    }
                }
            }
            es.len() as int
        }
    }
}

/// Entry `i` is the first visible one from `p` to `e`.
pub open spec fn first_visible(es: Seq<Kv>, snap: nat, p: int, e: int, i: int) -> bool {
    &&& p <= i < e
    &&& visible(es[i], snap)
    &&& forall|j: int| p <= j < i ==> !visible(#[trigger] es[j], snap)
}

/// No entry from `p` to `e` is visible.
pub open spec fn none_visible(es: Seq<Kv>, snap: nat, p: int, e: int) -> bool {
    forall|j: int| p <= j < e ==> !visible(#[trigger] es[j], snap)
}

/// What a reverse scan keeps of a version: its representation, or that it is a
/// tombstone.
pub open spec fn keeps(c: Option<Vec<u8>>, kv: Kv) -> bool {
    match c {
        Some(v) => kind_of_byte(kind_byte_of(kv.key)) == Some(ValueKind::Put) && v@ == kv.repr,
        None => kind_of_byte(kind_byte_of(kv.key)) == Some(ValueKind::Delete),
    }
}

/// `cand` is what a reverse scan keeps of the entries from `p` to `e`.
pub open spec fn keeps_newest(
    cand: Option<Option<Vec<u8>>>,
    es: Seq<Kv>,
    snap: nat,
    p: int,
    e: int,
) -> bool {
    match cand {
        None => none_visible(es, snap, p, e),
        Some(c) => exists|i: int| #[trigger] first_visible(es, snap, p, e, i) && keeps(c, es[i]),
    }
}

/// Of all versions of one key, a scan gives at most the first visible one.
proof fn lemma_group(
    es: Seq<Kv>,
    snap: nat,
    lo: Seq<u8>,
    hi: Option<Seq<u8>>,
    p: int,
    e: int,
    g: Seq<u8>,
)
    requires
        sorted(es),
        0 <= p <= e <= es.len(),
        forall|j: int| p <= j < e ==> ukey_of(#[trigger] es[j].key) == g,
        forall|j: int| 0 <= j < p ==> ukey_of(#[trigger] es[j].key) != g,
    ensures
        none_visible(es, snap, p, e) ==> scan_upto(es, snap, lo, hi, e) == scan_upto(
            es,
            snap,
            lo,
            hi,
            p,
        ),
        forall|i: int| #[trigger]
            first_visible(es, snap, p, e, i) ==> newest(es, snap, i) && scan_upto(
                es,
                snap,
                lo,
                hi,
                e,
            ) == (if live(es, snap, i) && in_range(g, lo, hi) {
                scan_upto(es, snap, lo, hi, p).push((g, es[i].repr))
            } else {
                scan_upto(es, snap, lo, hi, p)
            }),
{
    if none_visible(es, snap, p, e) {
        assert forall|i: int| p <= i < e implies !(#[trigger] live(es, snap, i) && in_range(
            ukey_of(es[i].key),
            lo,
            hi,
        )) by {
            assert(!visible(es[i], snap));
        }
        lemma_scan_still(es, snap, lo, hi, p, e);
    }
    assert forall|i: int| #[trigger] first_visible(es, snap, p, e, i) implies newest(es, snap, i)
        && scan_upto(es, snap, lo, hi, e) == (if live(es, snap, i) && in_range(g, lo, hi) {
        scan_upto(es, snap, lo, hi, p).push((g, es[i].repr))
    } else {
        scan_upto(es, snap, lo, hi, p)
    }) by {
        assert(ukey_of(es[i].key) == g);
        assert forall|j: int| p <= j < i implies !(#[trigger] live(es, snap, j) && in_range(
            ukey_of(es[j].key),
            lo,
            hi,
        )) by {
            assert(!visible(es[j], snap));
        }
        assert forall|j: int| i + 1 <= j < e implies !(#[trigger] live(es, snap, j) && in_range(
            ukey_of(es[j].key),
            lo,
            hi,
        )) by {
            assert(ukey_of(es[j].key) == ukey_of(es[i].key));
        }
        lemma_scan_still(es, snap, lo, hi, p, i);
        lemma_scan_still(es, snap, lo, hi, i + 1, e);
    }
}

/// Reverse stream: newest visible Put per user key, descending user keys,
/// within `[lo, hi)`.
///
/// In reverse internal order a key's versions arrive oldest-first, so we keep
/// overwriting a candidate while `seqno <= snap` and emit it when the user
/// key changes underneath us.
pub struct MvccReverse<I> {
    it: MergeIterator<I>,
    snap: SeqNo,
    lo: Vec<u8>,
    group: Option<Vec<u8>>,
    /// Some(Some(v)) = visible Put; Some(None) = visible tombstone.
    cand: Option<Option<Vec<u8>>>,
    done: bool,
    hi: Ghost<Option<Seq<u8>>>,
    all: Ghost<Seq<Kv>>,
    at: Ghost<int>,
    end: Ghost<int>,
}

impl<I: InternalIterator> MvccReverse<I> {
    /// All entries of all sources, merged.
    pub closed spec fn all(self) -> Seq<Kv> {
        self.all@
    }

    closed spec fn cand_ok(self) -> bool {
        keeps_newest(self.cand, self.all@, self.snap as nat, self.at@, self.end@)
    }

    pub closed spec fn inv(self) -> bool {
        let es = self.all@;
        let p = self.at@;
        let e = self.end@;
        &&& self.it.inv()
        &&& self.it.reverse
        &&& sorted(es)
        &&& 0 <= p <= e <= es.len()
        &&& self.it.rest() == es.take(p).reverse()
        &&& forall|j: int|
            0 <= j < e && kind_of_byte(kind_byte_of(#[trigger] es[j].key)) is Some ==> (
            self.hi@ matches Some(h) ==> lex_lt(ukey_of(es[j].key), h))
        &&& self.done || match self.group {
            None => p == e && self.cand is None,
            Some(g) => {
                &&& lex_le(self.lo@, g@)
                &&& forall|j: int| p <= j < e ==> ukey_of(#[trigger] es[j].key) == g@
                &&& p == e ==> p > 0 && ukey_of(es[p - 1].key) == g@
                &&& self.cand_ok()
            },
        }
    }

    /// The pairs still to come.
    pub closed spec fn pending(self) -> Seq<(Seq<u8>, Seq<u8>)> {
        if self.done {
            Seq::empty()
        } else {
            scan_upto(self.all@, self.snap as nat, self.lo@, self.hi@, self.end@).reverse()
        }
    }

    /// Start a backward scan of `[lo, hi)` at `snap`.
    pub fn new(it: MergeIterator<I>, snap: SeqNo, lo: Vec<u8>, hi: Option<&[u8]>) -> (f: Self)
        requires
            it.reverse,
            forall|k: int| 0 <= k < it.children@.len() ==> (#[trigger] it.children@[k]).inv(),
            mergeable(it.sources(), false),
        ensures
            f.inv(),
            f.all() == merged(it.sources(), false),
            f.pending() == scan(
                merged(it.sources(), false),
                snap as nat,
                lo@,
                (match hi {
                    Some(h) => Some(h@),
                    None => None,
                }),
            ).reverse(),
    {
        let mut it = it;
        let ghost srcs = it.sources();
        let ghost es = merged(srcs, false);
        let ghost mut n: int = es.len() as int;
        let ghost hi_v: Option<Seq<u8>> = match hi {
            Some(h) => Some(h@),
            None => None,
        };
        proof {
            lemma_merged(srcs, false);
            assert(sorted(es)) by {
                assert forall|i: int, j: int| 0 <= i < j < es.len() implies ikey_before(
                    #[trigger] es[i].key,
                    #[trigger] es[j].key,
                ) by {
                    assert(dir_before(es[i].key, es[j].key, false));
                }
            }
        }
        match hi {
            Some(h) => {
                let target = make_seek_ikey(h, MAX_SEQNO);
                proof {
                    lemma_ikey_from(h@, MAX_SEQNO as nat * 256 + 255);
                    n = lemma_upper_exists(es, target@);
                }
                it.seek_for_prev(target.as_slice());
                proof {
                    let rs = aheads(it.children@, true);
                    let ps = it.children@.map_values(|c: I| c.pos() + 1);
                    assert forall|k: int| 0 <= k < srcs.len() implies 0 <= ps[k] <= (
                    #[trigger] srcs[k]).len() && rs[k] == srcs[k].take(ps[k]).reverse() by {
                        assert(it.sources()[k] == it.children@[k].entries());
                    }
                    assert forall|k: int, i: int, x: int|
                        0 <= k < srcs.len() && 0 <= i < srcs[k].len() && 0 <= x < es.len()
                            && #[trigger] srcs[k][i] == #[trigger] es[x] implies (i < ps[k] <==> x
                        < n) by {
                        assert(it.sources()[k] == it.children@[k].entries());
                        assert(is_upper_bound(srcs[k], target@, ps[k]));
                        if i >= ps[k] {
                            lemma_ikey_asymmetric(target@, srcs[k][i].key);
                        }
                        if x >= n {
                            lemma_ikey_asymmetric(target@, es[x].key);
                        }
                    }
                    lemma_merge_of_prefixes(srcs, rs, ps, n);
                    assert forall|i: int| n <= i < es.len() implies !(#[trigger] live(
                        es,
                        snap as nat,
                        i,
                    ) && in_range(ukey_of(es[i].key), lo@, hi_v)) by {
                        lemma_ikey_asymmetric(target@, es[i].key);
                        lemma_before_seek(es[i].key, h@);
                    }
                    lemma_scan_still(es, snap as nat, lo@, hi_v, n, es.len() as int);
                    assert forall|j: int|
                        0 <= j < n && kind_of_byte(kind_byte_of(#[trigger] es[j].key)) is Some implies lex_lt(
                        ukey_of(es[j].key),
                        h@,
                    ) by {
                        lemma_before_seek(es[j].key, h@);
                        if es[j].key == target@ {
                            assert(kind_byte_of(target@) == 255);
                        }
                    }
                }
            },
            None => {
                it.seek_to_last();
                proof {
                    let rs = aheads(it.children@, true);
                    let ps = it.children@.map_values(|c: I| c.entries().len() as int);
                    assert forall|k: int| 0 <= k < srcs.len() implies 0 <= ps[k] <= (
                    #[trigger] srcs[k]).len() && rs[k] == srcs[k].take(ps[k]).reverse() by {
                        assert(it.sources()[k] == it.children@[k].entries());
                        assert(srcs[k].take(ps[k]) =~= srcs[k]);
                    }
                    assert forall|k: int, i: int, x: int|
                        0 <= k < srcs.len() && 0 <= i < srcs[k].len() && 0 <= x < es.len()
                            && #[trigger] srcs[k][i] == #[trigger] es[x] implies (i < ps[k] <==> x
                        < n) by {
                        assert(it.sources()[k] == it.children@[k].entries());
                    }
                    lemma_merge_of_prefixes(srcs, rs, ps, n);
                }
            },
        }
        MvccReverse {
            it,
            snap,
            lo,
            group: None,
            cand: None,
            done: false,
            hi: Ghost(hi_v),
            all: Ghost(es),
            at: Ghost(n),
            end: Ghost(n),
        }
    }

    /// The finished group's pair, if its newest visible version is a Put.
    fn take_emittable(&mut self) -> (r: Option<(Vec<u8>, Vec<u8>)>)
        ensures
            final(self).group is None,
            final(self).cand is None || old(self).group is None,
            old(self).group is None ==> final(self).cand == old(self).cand,
            final(self).it == old(self).it,
            final(self).snap == old(self).snap,
            final(self).lo == old(self).lo,
            final(self).done == old(self).done,
            final(self).hi == old(self).hi,
            final(self).all == old(self).all,
            final(self).at == old(self).at,
            final(self).end == old(self).end,
            match (old(self).group, old(self).cand) {
                (Some(g), Some(Some(v))) => r == Some((g, v)),
                _ => r is None,
            },
    {
        let g = match self.group.take() {
            Some(g) => g,
            None => return None,
        };
        match self.cand.take() {
            Some(Some(v)) => Some((g, v)),
            _ => None,
        }
    }

    /// Where the group is complete, what has been collected of it is what a
    /// scan gives of it.
    proof fn lemma_group_complete(self)
        requires
            self.inv(),
            !self.done,
            self.group matches Some(g) ==> (self.at@ > 0 ==> ukey_of(
                self.all@[self.at@ - 1].key,
            ) != g@),
        ensures
            ({
                let es = self.all@;
                let snap = self.snap as nat;
                let whole = scan_upto(es, snap, self.lo@, self.hi@, self.end@);
                let part = scan_upto(es, snap, self.lo@, self.hi@, self.at@);
                match (self.group, self.cand) {
                    (Some(g), Some(Some(v))) => whole == part.push((g@, v@)),
                    _ => whole == part,
                }
            }),
    {
        let es = self.all@;
        let snap = self.snap as nat;
        let p = self.at@;
        let e = self.end@;
        if let Some(g) = self.group {
            assert forall|j: int| 0 <= j < p implies ukey_of(#[trigger] es[j].key) != g@ by {
                lemma_ukeys_ascend(es, j, p - 1);
                if p < e {
                    lemma_ukeys_ascend(es, p - 1, p);
                    assert(ukey_of(es[p].key) == g@);
                    if ukey_of(es[j].key) == g@ {
                        lemma_lex_asymmetric(g@, ukey_of(es[p - 1].key));
                    }
                }
            }
            lemma_group(es, snap, self.lo@, self.hi@, p, e, g@);
            if let Some(c) = self.cand {
                let i = choose|i: int|
                    #[trigger] first_visible(es, snap, p, e, i) && keeps(c, es[i]);
                assert(first_visible(es, snap, p, e, i));
                assert(ukey_of(es[i].key) == g@);
                assert(in_range(g@, self.lo@, self.hi@));
            }
        }
    }

    /// Next visible (user key, repr) pair, from the greatest key down; an
    /// unknown kind byte is corruption.
    #[verifier::rlimit(60)]
    pub fn next_visible(&mut self) -> (r: Result<Option<(Vec<u8>, Vec<u8>)>>)
        requires
            old(self).inv(),
        ensures
            final(self).inv(),
            final(self).all() == old(self).all(),
            match r {
                Ok(x) => gives(x, old(self).pending()) && final(self).pending() == old(
                    self,
                ).pending().skip(
                    if old(self).pending().len() == 0 {
                        0
                    } else {
                        1
                    },
                ),
                Err(e) => e is Corruption && !kinds_ok(old(self).all())
                    && final(self).pending() == old(self).pending(),
            },
    {
        let ghost pend0 = self.pending();
        assert(pend0.skip(0) =~= pend0);
        if self.done {
            return Ok(None);
        }
        loop
            invariant
                self.inv(),
                !self.done,
                self.all@ == old(self).all@,
                self.pending() == old(self).pending(),
                pend0 == old(self).pending(),
                pend0.skip(0) == pend0,
            decreases self.at@,
        {
            let ghost es = self.all@;
            let ghost p = self.at@;
            let ghost e = self.end@;
            let ghost snap = self.snap as nat;
            let ghost hi = self.hi@;
            let ghost lo = self.lo@;
            let ghost part = scan_upto(es, snap, lo, hi, p);
            let ghost whole = scan_upto(es, snap, lo, hi, e);
            if !self.it.valid() {
                proof {
                    assert(p == 0);
                    self.lemma_group_complete();
                    assert(part =~= Seq::empty());
                    assert(whole.reverse().len() <= 1);
                    assert(whole.reverse().skip(whole.len() as int) =~= Seq::empty());
                }
                self.done = true;
                return Ok(self.take_emittable());
            }
            proof {
                assert(self.it.rest()[0] == es[p - 1]);
                assert(es.take(p).reverse().skip(1) =~= es.take(p - 1).reverse());
            }
            let ik = self.it.ikey();
            let uk = to_bytes(ikey_ukey(ik));
            let seq: u64 = ikey_seqno(ik);
            let ghost ukv = uk@;
            if bytes_lt(uk.as_slice(), self.lo.as_slice()) {
                proof {
                    assert forall|i: int| 0 <= i < p implies !(#[trigger] live(es, snap, i)
                        && in_range(ukey_of(es[i].key), lo, hi)) by {
                        lemma_ukeys_ascend(es, i, p - 1);
                        if lex_le(lo, ukey_of(es[i].key)) {
                            if lo != ukey_of(es[i].key) && ukey_of(es[i].key) != uk@ {
                                lemma_lex_transitive(lo, ukey_of(es[i].key), uk@);
                            }
                            lemma_lex_asymmetric(uk@, lo);
                        }
                    }
                    lemma_scan_still(es, snap, lo, hi, 0, p);
                    if self.group is Some {
                        lemma_lex_irreflexive(lo);
                        if uk@ == self.group->Some_0@ {
                            lemma_lex_asymmetric(uk@, lo);
                        }
                    }
                    self.lemma_group_complete();
                    assert(part =~= Seq::empty());
                    assert(whole.reverse().skip(whole.len() as int) =~= Seq::empty());
                }
                self.done = true;
                return Ok(self.take_emittable());
            }
            let same: bool = match &self.group {
                Some(g) => bytes_eq(g.as_slice(), uk.as_slice()),
                None => false,
            };
            if !same {
                // crossing into a new (smaller) user key; flush the previous
                // group first if it produced a visible Put. The current entry
                // belongs to the new group and is processed on the next call.
                proof {
                    self.lemma_group_complete();
                    lemma_lex_total(lo, uk@);
                }
                let emit = self.take_emittable();
                self.group = Some(uk);
                self.cand = None;
                self.end = Ghost(p);
                if emit.is_some() {
                    proof {
                        assert(whole.reverse()[0] == whole.last());
                        assert(whole.reverse().skip(1) =~= part.reverse());
                    }
                    return Ok(emit);
                }
            }
            let ghost e2 = self.end@;
            if seq <= self.snap {
                let kind = match ikey_kind(self.it.ikey()) {
                    Ok(k) => k,
                    Err(err) => return Err(err),
                };
                let c = if kind == ValueKind::Put {
                    Some(to_bytes(self.it.value()))
                } else {
                    None
                };
                assert(keeps(c, es[p - 1]));
                assert(first_visible(es, snap, p - 1, e2, p - 1));
                self.cand = Some(c);
                assert(keeps_newest(self.cand, es, snap, p - 1, e2));
            } else {
                proof {
                    assert(!visible(es[p - 1], snap));
                    if self.cand is None {
                        assert(none_visible(es, snap, p - 1, e2));
                    }
                    if self.cand is Some {
                        let c = self.cand->Some_0;
                        let i = choose|i: int|
                            #[trigger] first_visible(es, snap, p, e2, i) && keeps(c, es[i]);
                        assert(first_visible(es, snap, p - 1, e2, i));
                    }
                    assert(keeps_newest(self.cand, es, snap, p - 1, e2));
                }
            }
            self.it.prev();
            self.at = Ghost(p - 1);
            proof {
                assert(self.group is Some && self.group->Some_0@ == ukv);
                assert forall|j: int| p - 1 <= j < e2 implies ukey_of(#[trigger] es[j].key)
                    == ukv by {}
                assert(self.cand_ok());
            }
        }
    }
}

/// A stream of visible pairs in either direction.
pub enum MvccIter<I> {
    Fwd(MvccForward<I>),
    Rev(MvccReverse<I>),
}

impl<I: InternalIterator> MvccIter<I> {
    pub open spec fn inv(self) -> bool {
        match self {
            MvccIter::Fwd(f) => f.inv(),
            MvccIter::Rev(r) => r.inv(),
        }
    }

    pub open spec fn all(self) -> Seq<Kv> {
        match self {
            MvccIter::Fwd(f) => f.all(),
            MvccIter::Rev(r) => r.all(),
        }
    }

    pub open spec fn pending(self) -> Seq<(Seq<u8>, Seq<u8>)> {
        match self {
            MvccIter::Fwd(f) => f.pending(),
            MvccIter::Rev(r) => r.pending(),
        }
    }

    pub fn next_visible(&mut self) -> (r: Result<Option<(Vec<u8>, Vec<u8>)>>)
        requires
            old(self).inv(),
        ensures
            final(self).inv(),
            final(self).all() == old(self).all(),
            match r {
                Ok(x) => gives(x, old(self).pending()) && final(self).pending() == old(
                    self,
                ).pending().skip(
                    if old(self).pending().len() == 0 {
                        0
                    } else {
                        1
                    },
                ),
                Err(e) => e is Corruption && !kinds_ok(old(self).all())
                    && final(self).pending() == old(self).pending(),
            },
    {
        match self {
            MvccIter::Fwd(f) => f.next_visible(),
            MvccIter::Rev(r) => r.next_visible(),
        }
    }
}

} // verus!
