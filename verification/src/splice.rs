//! How the tables of a base run lie around a merged key range.

use std::sync::Arc;

use vstd::prelude::*;

use crate::version::TableHandle;

verus! {

use crate::iter::{flat, lemma_flat_at, lemma_flat_find, part_start, Kv};
use crate::order::{lemma_lex_irreflexive, lemma_lex_total, lemma_lex_transitive, lex_le, lex_lt};
use crate::shape::{highest, left_of, lowest, max_of, min_of, overlapping, right_of};
use crate::tree::disjoint;
use crate::types::ukey_of;
use crate::version::{fragments, fragments_intact};

pub open spec fn entries_of(t: Arc<TableHandle>) -> Seq<Kv> {
    t.table.entries()
}

pub proof fn lemma_le_lt(a: Seq<u8>, b: Seq<u8>, c: Seq<u8>)
    requires
        lex_le(a, b),
        lex_lt(b, c),
    ensures
        lex_lt(a, c),
{
    if a != b {
        lemma_lex_transitive(a, b, c);
    }
}

pub proof fn lemma_lt_le(a: Seq<u8>, b: Seq<u8>, c: Seq<u8>)
    requires
        lex_lt(a, b),
        lex_le(b, c),
    ensures
        lex_lt(a, c),
{
    if b != c {
        lemma_lex_transitive(a, b, c);
    }
}

pub proof fn lemma_le_le(a: Seq<u8>, b: Seq<u8>, c: Seq<u8>)
    requires
        lex_le(a, b),
        lex_le(b, c),
    ensures
        lex_le(a, c),
{
    if a != b && b != c {
        lemma_lex_transitive(a, b, c);
    }
}

/// A sound table's keys lie between its bounds.
pub proof fn lemma_table_range(t: Arc<TableHandle>, i: int)
    requires
        t.table.intact(),
        0 <= i < t.table.entries().len(),
    ensures
        lex_le(min_of(t), ukey_of(t.table.entries()[i].key)),
        lex_le(ukey_of(t.table.entries()[i].key), max_of(t)),
{
    t.table.lemma_intact();
}

pub proof fn lemma_min_le_max(t: Arc<TableHandle>)
    requires
        t.table.intact(),
    ensures
        lex_le(min_of(t), max_of(t)),
{
    t.table.lemma_intact();
}

/// The lowest and the highest key bound every table.
pub proof fn lemma_bounds(ts: Seq<Arc<TableHandle>>, k: int)
    requires
        0 <= k < ts.len(),
    ensures
        lex_le(lowest(ts), min_of(ts[k])),
        lex_le(max_of(ts[k]), highest(ts)),
    decreases ts.len(),
{
    if ts.len() > 1 {
        let t = ts.drop_last();
        let lo = lowest(t);
        let hi = highest(t);
        lemma_lex_total(min_of(ts.last()), lo);
        lemma_lex_total(hi, max_of(ts.last()));
        if k < ts.len() - 1 {
            lemma_bounds(t, k);
            assert(t[k] == ts[k]);
            if lex_lt(min_of(ts.last()), lo) {
                lemma_le_le(lowest(ts), lo, min_of(ts[k]));
            }
            if lex_lt(hi, max_of(ts.last())) {
                lemma_le_le(max_of(ts[k]), hi, highest(ts));
            }
        }
    }
}

/// Where an entry of a run stands.
pub proof fn lemma_in_tables(ts: Seq<Arc<TableHandle>>, x: int) -> (r: (int, int))
    requires
        0 <= x < flat(fragments(ts)).len(),
    ensures
        0 <= r.0 < ts.len(),
        0 <= r.1 < ts[r.0].table.entries().len(),
        ts[r.0].table.entries()[r.1] == flat(fragments(ts))[x],
{
    let parts = fragments(ts);
    let l = lemma_flat_find(parts, x);
    lemma_flat_at(parts, l);
    (l, x - part_start(parts, l))
}

pub proof fn lemma_flat_concat(a: Seq<Seq<Kv>>, b: Seq<Seq<Kv>>)
    ensures
        flat(a + b) == flat(a) + flat(b),
    decreases b.len(),
{
    if b.len() == 0 {
        assert(a + b =~= a);
        assert(flat(a) + flat(b) =~= flat(a));
    } else {
        lemma_flat_concat(a, b.drop_last());
        assert((a + b).drop_last() =~= a + b.drop_last());
        assert((a + b).last() == b.last());
        assert(flat(a + b) =~= flat(a) + flat(b));
    }
}

pub proof fn lemma_tables_concat(a: Seq<Arc<TableHandle>>, b: Seq<Arc<TableHandle>>, c: Seq<Arc<TableHandle>>)
    ensures
        flat(fragments(a + b + c)) == flat(fragments(a)) + flat(fragments(b)) + flat(fragments(c)),
{
    assert(fragments(a + b + c) =~= fragments(a) + fragments(b) + fragments(c));
    lemma_flat_concat(fragments(a) + fragments(b), fragments(c));
    lemma_flat_concat(fragments(a), fragments(b));
}

/// Filtering for what stands at `a` up to `b` gives that part.
proof fn lemma_filter_range<T>(ts: Seq<T>, q: spec_fn(T) -> bool, a: int, b: int)
    requires
        0 <= a <= b <= ts.len(),
        forall|i: int| 0 <= i < ts.len() ==> (q(#[trigger] ts[i]) <==> a <= i < b),
    ensures
        ts.filter(q) == ts.subrange(a, b),
    decreases ts.len(),
{
    reveal(Seq::filter);
    let n = ts.len() as int;
    if n > 0 {
        let t = ts.drop_last();
        assert(q(ts[n - 1]) <==> a <= n - 1 < b);
        let (c, d) = if b < n {
            (a, b)
        } else if a < n {
            (a, n - 1)
        } else {
            (n - 1, n - 1)
        };
        assert forall|i: int| 0 <= i < t.len() implies (q(#[trigger] t[i]) <==> c <= i < d) by {
            assert(t[i] == ts[i]);
        }
        lemma_filter_range(t, q, c, d);
        if b == n && a < n {
            assert(ts.subrange(a, b) =~= t.subrange(a, n - 1).push(ts[n - 1]));
        } else if b < n {
            assert(ts.subrange(a, b) =~= t.subrange(a, b));
        } else {
            assert(ts.subrange(a, b) =~= t.subrange(n - 1, n - 1));
        }
    } else {
        assert(ts.subrange(a, b) =~= ts.filter(q));
    }
}

/// Where what holds of one holds of all before it, it holds up to some place.
proof fn lemma_cut<T>(ts: Seq<T>, p: spec_fn(T) -> bool) -> (a: int)
    requires
        forall|i: int, j: int|
            #![trigger p(ts[i]), p(ts[j])]
            0 <= i < j < ts.len() && p(ts[j]) ==> p(ts[i]),
    ensures
        0 <= a <= ts.len(),
        forall|i: int| 0 <= i < ts.len() ==> (p(#[trigger] ts[i]) <==> i < a),
    decreases ts.len(),
{
    let n = ts.len() as int;
    if n == 0 {
        0
    } else if p(ts[n - 1]) {
        assert forall|i: int| 0 <= i < ts.len() implies (p(#[trigger] ts[i]) <==> i < n) by {}
        n
    } else {
        let t = ts.drop_last();
        assert forall|i: int, j: int|
            #![trigger p(t[i]), p(t[j])]
            0 <= i < j < t.len() && p(t[j]) implies p(t[i]) by {
            assert(t[i] == ts[i] && t[j] == ts[j]);
        }
        let a = lemma_cut(t, p);
        assert forall|i: int| 0 <= i < ts.len() implies (p(#[trigger] ts[i]) <==> i < a) by {
            if i < n - 1 {
                assert(t[i] == ts[i]);
            }
        }
        a
    }
}

pub open spec fn all_left(l: Seq<Arc<TableHandle>>, lo: Seq<u8>) -> bool {
    forall|k: int| 0 <= k < l.len() ==> lex_lt(max_of(#[trigger] l[k]), lo)
}

pub open spec fn all_right(r: Seq<Arc<TableHandle>>, hi: Seq<u8>) -> bool {
    forall|k: int| 0 <= k < r.len() ==> lex_lt(hi, min_of(#[trigger] r[k]))
}

proof fn lemma_in_order(ts: Seq<Arc<TableHandle>>, i: int, j: int)
    requires
        fragments_intact(ts),
        0 <= i < j < ts.len(),
    ensures
        lex_lt(max_of(ts[i]), max_of(ts[j])),
        lex_lt(min_of(ts[i]), min_of(ts[j])),
{
    assert(ts[i].table.intact());
    assert(ts[j].table.intact());
    lemma_min_le_max(ts[i]);
    lemma_min_le_max(ts[j]);
    lemma_lt_le(max_of(ts[i]), min_of(ts[j]), max_of(ts[j]));
    lemma_le_lt(min_of(ts[i]), max_of(ts[i]), min_of(ts[j]));
}

/// A table of which some before it are left of the range, or not right of it,
/// says so of them.
proof fn lemma_sides_ordered(ts: Seq<Arc<TableHandle>>, lo: Seq<u8>, hi: Seq<u8>, i: int, j: int)
    requires
        fragments_intact(ts),
        0 <= i < j < ts.len(),
    ensures
        lex_lt(max_of(ts[j]), lo) ==> lex_lt(max_of(ts[i]), lo),
        (lex_lt(max_of(ts[j]), lo) || !lex_lt(hi, min_of(ts[j]))) ==> (lex_lt(max_of(ts[i]), lo)
            || !lex_lt(hi, min_of(ts[i]))),
{
    lemma_in_order(ts, i, j);
    if lex_lt(max_of(ts[j]), lo) {
        lemma_lex_transitive(max_of(ts[i]), max_of(ts[j]), lo);
    }
    if lex_lt(hi, min_of(ts[i])) {
        lemma_lex_transitive(hi, min_of(ts[i]), min_of(ts[j]));
    }
}

/// Up to where the tables are left of the range, and up to where they are not
/// right of it.
proof fn lemma_cuts(ts: Seq<Arc<TableHandle>>, lo: Seq<u8>, hi: Seq<u8>) -> (r: (int, int))
    requires
        fragments_intact(ts),
    ensures
        0 <= r.0 <= r.1 <= ts.len(),
        forall|i: int|
            #![trigger ts[i]]
            0 <= i < ts.len() ==> (lex_lt(max_of(ts[i]), lo) <==> i < r.0) && ((lex_lt(
                max_of(ts[i]),
                lo,
            ) || !lex_lt(hi, min_of(ts[i]))) <==> i < r.1),
{
    let p = |t: Arc<TableHandle>| lex_lt(max_of(t), lo);
    let pq = |t: Arc<TableHandle>| lex_lt(max_of(t), lo) || !lex_lt(hi, min_of(t));
    assert forall|i: int, j: int|
        #![trigger p(ts[i]), p(ts[j])]
        0 <= i < j < ts.len() && p(ts[j]) implies p(ts[i]) by {
        lemma_sides_ordered(ts, lo, hi, i, j);
    }
    assert forall|i: int, j: int|
        #![trigger pq(ts[i]), pq(ts[j])]
        0 <= i < j < ts.len() && pq(ts[j]) implies pq(ts[i]) by {
        lemma_sides_ordered(ts, lo, hi, i, j);
    }
    let a = lemma_cut(ts, p);
    let b = lemma_cut(ts, pq);
    if b < a {
        assert(p(ts[b]));
        assert(pq(ts[b]));
    }
    assert forall|i: int|
        #![trigger ts[i]]
        0 <= i < ts.len() implies (lex_lt(max_of(ts[i]), lo) <==> i < a) && ((lex_lt(
        max_of(ts[i]),
        lo,
    ) || !lex_lt(hi, min_of(ts[i]))) <==> i < b) by {
        assert(p(ts[i]) <==> i < a);
        assert(pq(ts[i]) <==> i < b);
    }
    (a, b)
}

/// The base's tables fall into those left of the range, those that overlap it
/// and those right of it, in this order.
pub proof fn lemma_partition(ts: Seq<Arc<TableHandle>>, lo: Seq<u8>, hi: Seq<u8>)
    requires
        fragments_intact(ts),
    ensures
        ts == left_of(ts, lo) + overlapping(ts, lo, hi) + right_of(ts, lo, hi),
        all_left(left_of(ts, lo), lo),
        all_right(right_of(ts, lo, hi), hi),
{
    let (a, b) = lemma_cuts(ts, lo, hi);
    lemma_partition_at(ts, lo, hi, a, b);
}

proof fn lemma_partition_at(
    ts: Seq<Arc<TableHandle>>,
    lo: Seq<u8>,
    hi: Seq<u8>,
    a: int,
    b: int,
)
    requires
        0 <= a <= b <= ts.len(),
        forall|i: int|
            #![trigger ts[i]]
            0 <= i < ts.len() ==> (lex_lt(max_of(ts[i]), lo) <==> i < a) && ((lex_lt(
                max_of(ts[i]),
                lo,
            ) || !lex_lt(hi, min_of(ts[i]))) <==> i < b),
    ensures
        ts == left_of(ts, lo) + overlapping(ts, lo, hi) + right_of(ts, lo, hi),
        all_left(left_of(ts, lo), lo),
        all_right(right_of(ts, lo, hi), hi),
{
    lemma_left_part(ts, lo, a);
    lemma_mid_part(ts, lo, hi, a, b);
    lemma_right_part(ts, lo, hi, b);
    lemma_three_parts(ts, a, b);
}

proof fn lemma_three_parts<T>(ts: Seq<T>, a: int, b: int)
    requires
        0 <= a <= b <= ts.len(),
    ensures
        ts == ts.subrange(0, a) + ts.subrange(a, b) + ts.subrange(b, ts.len() as int),
{
    assert(ts =~= ts.subrange(0, a) + ts.subrange(a, b) + ts.subrange(b, ts.len() as int));
}

proof fn lemma_left_part(ts: Seq<Arc<TableHandle>>, lo: Seq<u8>, a: int)
    requires
        0 <= a <= ts.len(),
        forall|i: int|
            #![trigger ts[i]]
            0 <= i < ts.len() ==> (lex_lt(max_of(ts[i]), lo) <==> i < a),
    ensures
        left_of(ts, lo) == ts.subrange(0, a),
        all_left(left_of(ts, lo), lo),
{
    let p = |t: Arc<TableHandle>| lex_lt(max_of(t), lo);
    lemma_filter_range(ts, p, 0, a);
    let x = ts.subrange(0, a);
    assert forall|k: int| 0 <= k < x.len() implies lex_lt(max_of(#[trigger] x[k]), lo) by {
        assert(x[k] == ts[k]);
    }
}

proof fn lemma_mid_part(ts: Seq<Arc<TableHandle>>, lo: Seq<u8>, hi: Seq<u8>, a: int, b: int)
    requires
        0 <= a <= b <= ts.len(),
        forall|i: int|
            #![trigger ts[i]]
            0 <= i < ts.len() ==> (lex_lt(max_of(ts[i]), lo) <==> i < a) && ((lex_lt(
                max_of(ts[i]),
                lo,
            ) || !lex_lt(hi, min_of(ts[i]))) <==> i < b),
    ensures
        overlapping(ts, lo, hi) == ts.subrange(a, b),
{
    let q = |t: Arc<TableHandle>| !lex_lt(max_of(t), lo) && !lex_lt(hi, min_of(t));
    lemma_filter_range(ts, q, a, b);
}

proof fn lemma_right_part(ts: Seq<Arc<TableHandle>>, lo: Seq<u8>, hi: Seq<u8>, b: int)
    requires
        0 <= b <= ts.len(),
        forall|i: int|
            #![trigger ts[i]]
            0 <= i < ts.len() ==> ((lex_lt(max_of(ts[i]), lo) || !lex_lt(hi, min_of(ts[i])))
                <==> i < b),
    ensures
        right_of(ts, lo, hi) == ts.subrange(b, ts.len() as int),
        all_right(right_of(ts, lo, hi), hi),
{
    let n = ts.len() as int;
    let r = |t: Arc<TableHandle>| !lex_lt(max_of(t), lo) && lex_lt(hi, min_of(t));
    lemma_filter_range(ts, r, b, n);
    let z = ts.subrange(b, n);
    assert forall|k: int| 0 <= k < z.len() implies lex_lt(hi, min_of(#[trigger] z[k])) by {
        assert(z[k] == ts[b + k]);
    }
}

/// A run of tables, all below another's.
pub open spec fn tables_below(a: Seq<Arc<TableHandle>>, b: Seq<Arc<TableHandle>>) -> bool {
    forall|k: int, l: int|
        0 <= k < a.len() && 0 <= l < b.len() ==> lex_lt(max_of(#[trigger] a[k]), min_of(#[trigger] b[l]))
}

/// Parts of a sound run are sound, and each lies below the next.
pub proof fn lemma_parts_sound(
    a: Seq<Arc<TableHandle>>,
    b: Seq<Arc<TableHandle>>,
    c: Seq<Arc<TableHandle>>,
)
    requires
        fragments_intact(a + b + c),
    ensures
        fragments_intact(a),
        fragments_intact(b),
        fragments_intact(c),
        tables_below(a, b),
        tables_below(a, c),
        tables_below(b, c),
{
    let s = a + b + c;
    let n = a.len() as int;
    let m = (a.len() + b.len()) as int;
    assert forall|k: int| 0 <= k < a.len() implies s[k] == #[trigger] a[k] by {}
    assert forall|k: int| 0 <= k < b.len() implies s[n + k] == #[trigger] b[k] by {}
    assert forall|k: int| 0 <= k < c.len() implies s[m + k] == #[trigger] c[k] by {}
    assert forall|k: int| 0 <= k < b.len() implies (#[trigger] b[k]).table.intact() by {
        assert(s[n + k].table.intact());
    }
    assert forall|k: int| 0 <= k < c.len() implies (#[trigger] c[k]).table.intact() by {
        assert(s[m + k].table.intact());
    }
    assert forall|k: int| 0 <= k < a.len() implies (#[trigger] a[k]).table.intact() by {
        assert(s[k].table.intact());
    }
    assert forall|k: int, l: int| 0 <= k < l < b.len() implies lex_lt(
        ukey_of((#[trigger] b[k]).table.model().stats.last_ikey),
        ukey_of((#[trigger] b[l]).table.model().stats.first_ikey),
    ) by {
        assert(lex_lt(max_of(s[n + k]), min_of(s[n + l])));
    }
    assert forall|k: int, l: int| 0 <= k < l < c.len() implies lex_lt(
        ukey_of((#[trigger] c[k]).table.model().stats.last_ikey),
        ukey_of((#[trigger] c[l]).table.model().stats.first_ikey),
    ) by {
        assert(lex_lt(max_of(s[m + k]), min_of(s[m + l])));
    }
    assert forall|k: int, l: int| 0 <= k < l < a.len() implies lex_lt(
        ukey_of((#[trigger] a[k]).table.model().stats.last_ikey),
        ukey_of((#[trigger] a[l]).table.model().stats.first_ikey),
    ) by {
        assert(lex_lt(max_of(s[k]), min_of(s[l])));
    }
    assert forall|k: int, l: int| 0 <= k < a.len() && 0 <= l < b.len() implies lex_lt(
        max_of(#[trigger] a[k]),
        min_of(#[trigger] b[l]),
    ) by {
        assert(lex_lt(max_of(s[k]), min_of(s[n + l])));
    }
    assert forall|k: int, l: int| 0 <= k < a.len() && 0 <= l < c.len() implies lex_lt(
        max_of(#[trigger] a[k]),
        min_of(#[trigger] c[l]),
    ) by {
        assert(lex_lt(max_of(s[k]), min_of(s[m + l])));
    }
    assert forall|k: int, l: int| 0 <= k < b.len() && 0 <= l < c.len() implies lex_lt(
        max_of(#[trigger] b[k]),
        min_of(#[trigger] c[l]),
    ) by {
        assert(lex_lt(max_of(s[n + k]), min_of(s[m + l])));
    }
}

/// Intact runs of tables, each below the next, make one intact run.
pub proof fn lemma_joined_sound(
    a: Seq<Arc<TableHandle>>,
    b: Seq<Arc<TableHandle>>,
    c: Seq<Arc<TableHandle>>,
)
    requires
        fragments_intact(a),
        fragments_intact(b),
        fragments_intact(c),
        tables_below(a, b),
        tables_below(a, c),
        tables_below(b, c),
    ensures
        fragments_intact(a + b + c),
{
    let s = a + b + c;
    let n = a.len() as int;
    let m = (a.len() + b.len()) as int;
    assert forall|k: int| 0 <= k < s.len() implies (#[trigger] s[k]).table.intact() by {
        if k < n {
            assert(s[k] == a[k]);
        } else if k < m {
            assert(s[k] == b[k - n]);
        } else {
            assert(s[k] == c[k - m]);
        }
    }
    assert forall|k: int, l: int| 0 <= k < l < s.len() implies lex_lt(
        ukey_of((#[trigger] s[k]).table.model().stats.last_ikey),
        ukey_of((#[trigger] s[l]).table.model().stats.first_ikey),
    ) by {
        if l < n {
            assert(s[k] == a[k] && s[l] == a[l]);
        } else if l < m {
            assert(s[l] == b[l - n]);
            if k < n {
                assert(s[k] == a[k]);
                assert(lex_lt(max_of(a[k]), min_of(b[l - n])));
            } else {
                assert(s[k] == b[k - n]);
            }
        } else {
            assert(s[l] == c[l - m]);
            if k < n {
                assert(s[k] == a[k]);
                assert(lex_lt(max_of(a[k]), min_of(c[l - m])));
            } else if k < m {
                assert(s[k] == b[k - n]);
                assert(lex_lt(max_of(b[k - n]), min_of(c[l - m])));
            } else {
                assert(s[k] == c[k - m]);
            }
        }
    }
}

/// Tables below others hold none of their keys.
pub proof fn lemma_below_disjoint(a: Seq<Arc<TableHandle>>, b: Seq<Arc<TableHandle>>)
    requires
        fragments_intact(a),
        fragments_intact(b),
        tables_below(a, b),
    ensures
        disjoint(flat(fragments(a)), flat(fragments(b))),
        disjoint(flat(fragments(b)), flat(fragments(a))),
{
    let x = flat(fragments(a));
    let y = flat(fragments(b));
    assert forall|i: int, j: int| 0 <= i < x.len() && 0 <= j < y.len() implies ukey_of(
        (#[trigger] x[i]).key,
    ) != ukey_of((#[trigger] y[j]).key) by {
        let (k, p) = lemma_in_tables(a, i);
        let (l, q) = lemma_in_tables(b, j);
        lemma_table_range(a[k], p);
        lemma_table_range(b[l], q);
        assert(lex_lt(max_of(a[k]), min_of(b[l])));
        lemma_le_lt(ukey_of(x[i].key), max_of(a[k]), min_of(b[l]));
        lemma_lt_le(ukey_of(x[i].key), min_of(b[l]), ukey_of(y[j].key));
        lemma_lex_irreflexive(ukey_of(x[i].key));
    }
}

} // verus!
