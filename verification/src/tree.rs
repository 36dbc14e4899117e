//! What flushes, merges and writes leave to read: the laws of the tree as a
//! whole.

use std::sync::Arc;

use vstd::prelude::*;

use crate::types::MAX_SEQNO;
use crate::version::{Run, TableHandle};

verus! {

use crate::batch::Entry;
use crate::commit::{applied, batch_kvs, last_on, lemma_batch_is_atomic};
use crate::compaction::{
    compacted, kept, lemma_keep_members, lemma_replace_preserves_values, value_of,
};
use crate::install::{
    installed, levels_over, runs_over, unlisted, Change, RunOver, SpliceOver,
};
use crate::iter::{
    flat, in_some, lemma_flat_at, lemma_flat_find, lemma_merged, mergeable, merged, part_start,
    sorted, Kv,
};
use crate::mvcc::{find_newest, found_at, lemma_found_unique, newest, visible};
use crate::order::{lex_le, lex_lt};
use crate::types::{is_user_key, seqno_of, ukey_of};
use crate::version::{
    first_hit, fragments, lemma_first_hit_split, lemma_run_not_admitted, level_entries,
    newest_first, run_admits,
    runs_entries,
};

/// A run of the tree in memory.
pub type TreeRun = RunOver<Arc<TableHandle>>;

/// No entry of the source has the key.
pub open spec fn lacks(es: Seq<Kv>, uk: Seq<u8>) -> bool {
    forall|i: int| 0 <= i < es.len() ==> ukey_of((#[trigger] es[i]).key) != uk
}

/// No user key is in both.
pub open spec fn disjoint(a: Seq<Kv>, b: Seq<Kv>) -> bool {
    forall|i: int, j: int|
        0 <= i < a.len() && 0 <= j < b.len() ==> ukey_of((#[trigger] a[i]).key) != ukey_of(
            (#[trigger] b[j]).key,
        )
}

pub proof fn lemma_lacks_finds_nothing(es: Seq<Kv>, uk: Seq<u8>, snap: nat)
    requires
        lacks(es, uk),
    ensures
        find_newest(es, uk, snap) is None,
{
    if exists|i: int| found_at(es, uk, snap, i) {
        let i = choose|i: int| found_at(es, uk, snap, i);
        assert(found_at(es, uk, snap, i));
        assert(ukey_of(es[i].key) != uk);
    }
}

/// One source or two: reading through a concatenation finds what reading
/// through its parts in order finds.
pub proof fn lemma_find_in_concat(a: Seq<Kv>, b: Seq<Kv>, uk: Seq<u8>, snap: nat)
    ensures
        find_newest(a + b, uk, snap) == match find_newest(a, uk, snap) {
            Some(kv) => Some(kv),
            None => find_newest(b, uk, snap),
        },
{
    let s = a + b;
    if exists|i: int| found_at(a, uk, snap, i) {
        let i = choose|i: int| found_at(a, uk, snap, i);
        assert(found_at(a, uk, snap, i));
        assert(s[i] == a[i]);
        assert forall|j: int| 0 <= j < i && ukey_of(#[trigger] s[j].key) == ukey_of(s[i].key) implies
            !visible(s[j], snap) by {
            assert(s[j] == a[j]);
        }
        assert(found_at(s, uk, snap, i));
        lemma_found_unique(s, uk, snap, i);
    } else {
        lemma_none_visible(a, uk, snap);
        if exists|j: int| found_at(b, uk, snap, j) {
            let j = choose|j: int| found_at(b, uk, snap, j);
            assert(found_at(b, uk, snap, j));
            let x = a.len() + j;
            assert(s[x] == b[j]);
            assert forall|k: int| 0 <= k < x && ukey_of(#[trigger] s[k].key) == ukey_of(
                s[x].key,
            ) implies !visible(s[k], snap) by {
                if k < a.len() {
                    assert(s[k] == a[k]);
                } else {
                    assert(s[k] == b[k - a.len()]);
                }
            }
            assert(found_at(s, uk, snap, x));
            lemma_found_unique(s, uk, snap, x);
        } else if exists|x: int| found_at(s, uk, snap, x) {
            let x = choose|x: int| found_at(s, uk, snap, x);
            assert(found_at(s, uk, snap, x));
            if x < a.len() {
                assert(s[x] == a[x]);
            } else {
                lemma_none_visible(b, uk, snap);
                assert(s[x] == b[x - a.len()]);
            }
        }
    }
}

/// Where a read finds nothing, nothing of the key is visible.
proof fn lemma_none_visible(es: Seq<Kv>, uk: Seq<u8>, snap: nat)
    requires
        !exists|i: int| found_at(es, uk, snap, i),
    ensures
        forall|i: int|
            0 <= i < es.len() && ukey_of((#[trigger] es[i]).key) == uk ==> !visible(es[i], snap),
{
    assert forall|i: int| 0 <= i < es.len() && ukey_of((#[trigger] es[i]).key) == uk implies !visible(
        es[i],
        snap,
    ) by {
        if visible(es[i], snap) {
            lemma_first_visible(es, uk, snap, i);
        }
    }
}

proof fn lemma_first_visible(es: Seq<Kv>, uk: Seq<u8>, snap: nat, i: int)
    requires
        0 <= i < es.len(),
        ukey_of(es[i].key) == uk,
        visible(es[i], snap),
    ensures
        exists|j: int| found_at(es, uk, snap, j),
    decreases i,
{
    if exists|j: int| 0 <= j < i && ukey_of((#[trigger] es[j]).key) == uk && visible(es[j], snap) {
        let j = choose|j: int|
            0 <= j < i && ukey_of((#[trigger] es[j]).key) == uk && visible(es[j], snap);
        lemma_first_visible(es, uk, snap, j);
    } else {
        assert(newest(es, snap, i));
        assert(found_at(es, uk, snap, i));
    }
}

pub proof fn lemma_one_source(es: Seq<Kv>, uk: Seq<u8>, snap: nat)
    ensures
        first_hit(seq![es], uk, snap) == find_newest(es, uk, snap),
{
    assert(seq![es].skip(1) =~= Seq::<Seq<Kv>>::empty());
    reveal_with_fuel(first_hit, 3);
}

// ---------------------------------------------------------------------------
// Writes
// ---------------------------------------------------------------------------

/// A write is read back: once a batch is published, a read of a key that it
/// touched gives the batch's last operation on it, and every other read gives
/// what it gave before. A snapshot taken earlier sees nothing of the batch.
pub proof fn lemma_write_is_read_back(
    mem: Seq<Kv>,
    mem2: Seq<Kv>,
    rest: Seq<Seq<Kv>>,
    base: u64,
    es: Seq<Entry>,
    uk: Seq<u8>,
    snap: nat,
)
    requires
        sorted(mem),
        base + es.len() <= MAX_SEQNO,
        applied(mem, batch_kvs(base, es), mem2),
        forall|i: int| 0 <= i < mem.len() ==> seqno_of((#[trigger] mem[i]).key) < base,
    ensures
        snap < base ==> first_hit(seq![mem2] + rest, uk, snap) == first_hit(
            seq![mem] + rest,
            uk,
            snap,
        ),
        snap >= base + es.len() - 1 ==> first_hit(seq![mem2] + rest, uk, snap) == match last_on(
            es,
            uk,
            es.len() as int,
        ) {
            Some(i) => Some(batch_kvs(base, es)[i]),
            None => first_hit(seq![mem] + rest, uk, snap),
        },
{
    lemma_batch_is_atomic(mem, mem2, base, es, uk, snap);
    lemma_first_hit_split(seq![mem], rest, uk, snap);
    lemma_first_hit_split(seq![mem2], rest, uk, snap);
    lemma_one_source(mem, uk, snap);
    lemma_one_source(mem2, uk, snap);
}

/// Freezing the memtable and starting an empty one changes no read.
pub proof fn lemma_rotation_preserves_reads(
    mem: Seq<Kv>,
    rest: Seq<Seq<Kv>>,
    uk: Seq<u8>,
    snap: nat,
)
    ensures
        first_hit(seq![Seq::<Kv>::empty(), mem] + rest, uk, snap) == first_hit(
            seq![mem] + rest,
            uk,
            snap,
        ),
{
    let e = Seq::<Kv>::empty();
    assert(seq![e, mem] + rest =~= seq![e] + (seq![mem] + rest));
    lemma_first_hit_split(seq![e], seq![mem] + rest, uk, snap);
    lemma_one_source(e, uk, snap);
    assert(lacks(e, uk));
    lemma_lacks_finds_nothing(e, uk, snap);
}

// ---------------------------------------------------------------------------
// Merges
// ---------------------------------------------------------------------------

/// Splicing a bottom run into the base keeps every value that a snapshot at or
/// above the watermark reads: the base's untouched tables stay around the
/// merged ones, and nothing older lies behind.
pub proof fn lemma_splice_preserves_values(
    newer: Seq<Seq<Kv>>,
    upper: Seq<Kv>,
    left: Seq<Kv>,
    mid: Seq<Kv>,
    right: Seq<Kv>,
    w: nat,
    uk: Seq<u8>,
    snap: nat,
)
    requires
        sorted(upper),
        sorted(mid),
        newest_first(seq![upper, mid]),
        mergeable(seq![upper, mid], false),
        w <= snap,
        disjoint(upper, left),
        disjoint(upper, right),
        disjoint(mid, right),
    ensures
        ({
            let out = compacted(merged(seq![upper, mid], false), w, |k: Seq<u8>| false);
            value_of(first_hit(newer + seq![upper, left + mid + right], uk, snap)) == value_of(
                first_hit(newer + seq![left + out + right], uk, snap),
            )
        }),
{
    let none = |k: Seq<u8>| false;
    let inputs = seq![upper, mid];
    let es = merged(inputs, false);
    let out = compacted(es, w, none);
    // read both through their parts in order
    lemma_find_in_concat(left + mid, right, uk, snap);
    lemma_find_in_concat(left, mid, uk, snap);
    lemma_find_in_concat(left + out, right, uk, snap);
    lemma_find_in_concat(left, out, uk, snap);
    let base = left + mid + right;
    let nbase = left + out + right;
    assert(newer + seq![upper, base] =~= newer + seq![upper] + seq![base]);
    lemma_first_hit_split(newer + seq![upper], seq![base], uk, snap);
    lemma_first_hit_split(newer, seq![upper], uk, snap);
    lemma_first_hit_split(newer, seq![nbase], uk, snap);
    lemma_one_source(upper, uk, snap);
    lemma_one_source(base, uk, snap);
    lemma_one_source(nbase, uk, snap);
    // a hit in the left part is no hit in the merged run
    if find_newest(left, uk, snap) is Some {
        let i = choose|i: int| found_at(left, uk, snap, i);
        assert(found_at(left, uk, snap, i));
        assert forall|j: int| 0 <= j < upper.len() implies ukey_of((#[trigger] upper[j]).key)
            != uk by {
            assert(ukey_of(upper[j].key) != ukey_of(left[i].key));
        }
        lemma_lacks_finds_nothing(upper, uk, snap);
    }
    assert(newer + inputs + Seq::<Seq<Kv>>::empty() =~= newer + inputs);
    assert(newer + seq![out] + Seq::<Seq<Kv>>::empty() =~= newer + seq![out]);
    assert forall|l: int| 0 <= l < inputs.len() implies sorted(#[trigger] inputs[l]) by {}
    // the merge itself, with nothing behind it
    lemma_replace_preserves_values(
        Seq::empty(),
        inputs,
        Seq::empty(),
        w,
        none,
        uk,
        snap,
    );
    assert(Seq::<Seq<Kv>>::empty() + inputs + Seq::<Seq<Kv>>::empty() =~= inputs);
    assert(Seq::<Seq<Kv>>::empty() + seq![out] + Seq::<Seq<Kv>>::empty() =~= seq![out]);
    lemma_one_source(out, uk, snap);
    assert(inputs =~= seq![upper] + seq![mid]);
    lemma_first_hit_split(seq![upper], seq![mid], uk, snap);
    lemma_one_source(mid, uk, snap);
    // what the merge leaves out of a key that the right part has
    if find_newest(right, uk, snap) is Some {
        let i = choose|i: int| found_at(right, uk, snap, i);
        assert(found_at(right, uk, snap, i));
        assert forall|j: int| 0 <= j < upper.len() implies ukey_of((#[trigger] upper[j]).key)
            != uk by {
            assert(ukey_of(upper[j].key) != ukey_of(right[i].key));
        }
        assert forall|j: int| 0 <= j < mid.len() implies ukey_of((#[trigger] mid[j]).key) != uk by {
            assert(ukey_of(mid[j].key) != ukey_of(right[i].key));
        }
        lemma_lacks_finds_nothing(upper, uk, snap);
        lemma_lacks_finds_nothing(mid, uk, snap);
        lemma_merged(inputs, false);
        assert(lacks(out, uk)) by {
            assert forall|x: int| 0 <= x < out.len() implies ukey_of((#[trigger] out[x]).key)
                != uk by {
                assert(out.contains(out[x]));
                lemma_keep_members(es, w, none, es.len() as int, out[x]);
                let k = choose|k: int|
                    0 <= k < es.len() && #[trigger] kept(es, w, none, k) && es[k] == out[x];
                assert(es.contains(es[k]));
                assert(in_some(inputs, es[k]));
                let (a, b) = choose|a: int, b: int|
                    0 <= a < inputs.len() && 0 <= b < inputs[a].len() && #[trigger] inputs[a][b]
                        == es[k];
                if a == 0 {
                    assert(ukey_of(upper[b].key) != uk);
                } else {
                    assert(ukey_of(mid[b].key) != uk);
                }
            }
        }
        lemma_lacks_finds_nothing(out, uk, snap);
    }
}

/// The entries of a run.
pub open spec fn run_es(r: TreeRun) -> Seq<Kv> {
    flat(fragments(r.tables))
}

pub open spec fn level_es(rs: Seq<TreeRun>) -> Seq<Seq<Kv>> {
    rs.map_values(|r: TreeRun| run_es(r))
}

/// The sources of the first `n` levels, newest first.
pub open spec fn tree_es(ls: Seq<Seq<TreeRun>>, n: nat) -> Seq<Seq<Kv>>
    decreases n,
{
    if n == 0 {
        Seq::empty()
    } else {
        tree_es(ls, (n - 1) as nat) + level_es(ls[n - 1])
    }
}

/// The sources of the levels from `i` up to `n`.
pub open spec fn deeper(ls: Seq<Seq<TreeRun>>, i: int, n: int) -> Seq<Seq<Kv>>
    decreases n - i,
{
    if n <= i {
        Seq::empty()
    } else {
        deeper(ls, i, n - 1) + level_es(ls[n - 1])
    }
}

pub proof fn lemma_level_es(rs: Seq<Run>)
    ensures
        level_es(runs_over(rs)) == runs_entries(rs),
{
    assert(level_es(runs_over(rs)) =~= runs_entries(rs));
}

/// The sources of a version are those of its tree.
pub proof fn lemma_tree_is_levels(levels: Seq<Vec<Run>>, n: nat)
    requires
        n <= levels.len(),
    ensures
        level_entries(levels, n) == tree_es(levels_over(levels), n),
    decreases n,
{
    if n > 0 {
        lemma_tree_is_levels(levels, (n - 1) as nat);
        lemma_level_es(levels[n - 1]@);
        assert(levels_over(levels)[n - 1] == runs_over(levels[n - 1]@));
    }
}

pub proof fn lemma_levels_split(ls: Seq<Seq<TreeRun>>, i: int, n: int)
    requires
        0 <= i <= n <= ls.len(),
    ensures
        tree_es(ls, n as nat) == tree_es(ls, i as nat) + deeper(ls, i, n),
    decreases n - i,
{
    if i < n {
        lemma_levels_split(ls, i, n - 1);
        assert(tree_es(ls, n as nat) =~= tree_es(ls, i as nat) + deeper(ls, i, n));
    } else {
        assert(tree_es(ls, n as nat) + Seq::<Seq<Kv>>::empty() =~= tree_es(ls, n as nat));
    }
}

pub proof fn lemma_split_one(ls: Seq<Seq<TreeRun>>, i: int, n: int)
    requires
        0 <= i < n <= ls.len(),
    ensures
        deeper(ls, i, n) == level_es(ls[i]) + deeper(ls, i + 1, n),
    decreases n - i,
{
    if i + 1 < n {
        lemma_split_one(ls, i, n - 1);
        assert(deeper(ls, i, n) =~= level_es(ls[i]) + deeper(ls, i + 1, n));
    } else {
        assert(deeper(ls, i, i) =~= Seq::<Seq<Kv>>::empty());
        assert(deeper(ls, i, n) =~= level_es(ls[i]) + deeper(ls, i + 1, n));
    }
}

proof fn lemma_same_deeper(a: Seq<Seq<TreeRun>>, b: Seq<Seq<TreeRun>>, i: int, n: int)
    requires
        0 <= i <= n,
        n <= a.len(),
        n <= b.len(),
        forall|l: int| i <= l < n ==> #[trigger] a[l] == b[l],
    ensures
        deeper(a, i, n) == deeper(b, i, n),
    decreases n - i,
{
    if i < n {
        lemma_same_deeper(a, b, i, n - 1);
        assert(a[n - 1] == b[n - 1]);
    }
}

pub proof fn lemma_same_front(a: Seq<Seq<TreeRun>>, b: Seq<Seq<TreeRun>>, n: int)
    requires
        0 <= n,
        n <= a.len(),
        n <= b.len(),
        forall|l: int| 0 <= l < n ==> #[trigger] a[l] == b[l],
    ensures
        tree_es(a, n as nat) == tree_es(b, n as nat),
    decreases n,
{
    if n > 0 {
        lemma_same_front(a, b, n - 1);
        assert(a[n - 1] == b[n - 1]);
    }
}

/// A run that may not hold the key has no version of it.
pub proof fn lemma_not_admitted(r: Run, uk: Seq<u8>)
    requires
        r.intact(),
        !run_admits(r.tables@, uk),
    ensures
        lacks(r.entries(), uk),
{
    let ts = r.tables@;
    let parts = fragments(ts);
    assert forall|x: int| 0 <= x < r.entries().len() implies ukey_of((#[trigger] r.entries()[x]).key)
        != uk by {
        let l = lemma_flat_find(parts, x);
        lemma_flat_at(parts, l);
        let i = x - part_start(parts, l);
        assert(parts[l][i] == r.entries()[x]);
        assert(ts[l].table.intact());
        ts[l].table.lemma_holds_admits(i);
        lemma_run_not_admitted(ts, uk, l);
    }
}

/// The source that the output of a merge is.
pub open spec fn output_es(output: Option<TreeRun>) -> Seq<Seq<Kv>> {
    match output {
        Some(r) => seq![run_es(r)],
        None => Seq::empty(),
    }
}

/// A tiered merge replaces its inputs by its output, between what is newer and
/// what is older than they. `fresh` are runs that came in since the job was
/// picked.
#[verifier::spinoff_prover]
#[verifier::rlimit(60)]
pub proof fn lemma_tier_sources(
    before: Seq<Seq<TreeRun>>,
    c: Change<Arc<TableHandle>>,
    fresh: Seq<TreeRun>,
    inputs: Seq<TreeRun>,
)
    requires
        0 <= c.level < before.len(),
        c.target == c.level + 1,
        c.splice is None,
        before[c.level] == fresh + inputs,
        unlisted(before[c.level], c.input_ids) == fresh,
    ensures
        ({
            let n = before.len() as int;
            let after = installed(before, c);
            let newer = tree_es(before, c.level as nat) + level_es(fresh);
            let behind = deeper(before, c.level + 1, n);
            &&& tree_es(before, before.len()) == newer + level_es(inputs) + behind
            &&& tree_es(after, after.len()) == newer + output_es(c.output) + behind
            &&& after.len() >= before.len()
        }),
{
    let i = c.level;
    let n = before.len() as int;
    let after = installed(before, c);
    let m = after.len() as int;
    let front = tree_es(before, i as nat);
    let f = level_es(fresh);
    let ins = level_es(inputs);
    let behind = deeper(before, i + 1, n);
    let o = output_es(c.output);
    lemma_levels_split(before, i, n);
    lemma_split_one(before, i, n);
    assert(level_es(fresh + inputs) =~= f + ins);
    lemma_regroup4(front, f, ins, behind);
    lemma_tier_shape(before, c, fresh, inputs);
    let next = if i + 1 < n {
        before[i + 1]
    } else {
        Seq::empty()
    };
    lemma_same_front(before, after, i);
    lemma_levels_split(after, i, m);
    lemma_split_one(after, i, m);
    lemma_split_one(after, i + 1, m);
    let nx = level_es(next);
    let dd = deeper(after, i + 2, m);
    assert(level_es(after[i + 1]) == o + nx) by {
        match c.output {
            Some(r) => {
                assert(level_es(seq![r] + next) =~= o + nx);
            },
            None => {
                assert(o + nx =~= nx);
            },
        }
    }
    assert(behind == nx + dd) by {
        if i + 1 < n {
            lemma_split_one(before, i + 1, n);
            lemma_same_deeper(before, after, i + 2, n);
        } else {
            assert(nx =~= Seq::<Seq<Kv>>::empty());
            assert(dd =~= Seq::<Seq<Kv>>::empty());
            assert(behind =~= Seq::<Seq<Kv>>::empty());
            assert(nx + dd =~= Seq::<Seq<Kv>>::empty());
        }
    }
    lemma_regroup5(front, f, o, nx, dd);
}

proof fn lemma_regroup4(a: Seq<Seq<Kv>>, b: Seq<Seq<Kv>>, c: Seq<Seq<Kv>>, d: Seq<Seq<Kv>>)
    ensures
        a + ((b + c) + d) == (a + b) + c + d,
{
    assert(a + ((b + c) + d) =~= (a + b) + c + d);
}

proof fn lemma_regroup5(
    a: Seq<Seq<Kv>>,
    b: Seq<Seq<Kv>>,
    c: Seq<Seq<Kv>>,
    d: Seq<Seq<Kv>>,
    e: Seq<Seq<Kv>>,
)
    ensures
        a + (b + ((c + d) + e)) == (a + b) + c + (d + e),
{
    assert(a + (b + ((c + d) + e)) =~= (a + b) + c + (d + e));
}

pub proof fn lemma_regroup_first(a: Seq<Seq<Kv>>, b: Seq<Seq<Kv>>, c: Seq<Seq<Kv>>, d: Seq<Seq<Kv>>)
    ensures
        a + (b + c + d) == (a + b) + c + d,
{
    assert(a + (b + c + d) =~= (a + b) + c + d);
}

/// The levels that a tiered merge leaves.
pub proof fn lemma_tier_shape(
    before: Seq<Seq<TreeRun>>,
    c: Change<Arc<TableHandle>>,
    fresh: Seq<TreeRun>,
    inputs: Seq<TreeRun>,
)
    requires
        0 <= c.level < before.len(),
        c.target == c.level + 1,
        c.splice is None,
        unlisted(before[c.level], c.input_ids) == fresh,
    ensures
        ({
            let i = c.level;
            let n = before.len() as int;
            let after = installed(before, c);
            let next = if i + 1 < n {
                before[i + 1]
            } else {
                Seq::empty()
            };
            &&& after.len() == (if i + 1 < n {
                n
            } else {
                n + 1
            })
            &&& forall|l: int| 0 <= l < i ==> #[trigger] after[l] == before[l]
            &&& after[i] == fresh
            &&& after[i + 1] == (match c.output {
                Some(r) => seq![r] + next,
                None => next,
            })
            &&& forall|l: int| i + 2 <= l < n ==> #[trigger] after[l] == before[l]
        }),
{
}

/// Tier-merging a level into the next keeps every value that a snapshot at or
/// above the watermark reads, whatever else the store reads first.
pub proof fn lemma_tier_preserves_values(
    first: Seq<Seq<Kv>>,
    before: Seq<Seq<TreeRun>>,
    c: Change<Arc<TableHandle>>,
    fresh: Seq<TreeRun>,
    inputs: Seq<TreeRun>,
    older: spec_fn(Seq<u8>) -> bool,
    w: nat,
    uk: Seq<u8>,
    snap: nat,
)
    requires
        0 <= c.level < before.len(),
        c.target == c.level + 1,
        c.splice is None,
        before[c.level] == fresh + inputs,
        unlisted(before[c.level], c.input_ids) == fresh,
        newest_first(level_es(inputs)),
        forall|l: int| 0 <= l < inputs.len() ==> sorted(#[trigger] level_es(inputs)[l]),
        mergeable(level_es(inputs), false),
        !older(uk) ==> forall|l: int|
            0 <= l < deeper(before, c.level + 1, before.len() as int).len() ==> lacks(
                #[trigger] deeper(before, c.level + 1, before.len() as int)[l],
                uk,
            ),
        match c.output {
            Some(r) => run_es(r) == compacted(merged(level_es(inputs), false), w, older),
            None => compacted(merged(level_es(inputs), false), w, older).len() == 0,
        },
        w <= snap,
    ensures
        value_of(first_hit(first + tree_es(before, before.len()), uk, snap)) == value_of(
            first_hit(
                first + tree_es(installed(before, c), installed(before, c).len()),
                uk,
                snap,
            ),
        ),
{
    let n = before.len() as int;
    let newer = tree_es(before, c.level as nat) + level_es(fresh);
    let behind = deeper(before, c.level + 1, n);
    let ins = level_es(inputs);
    let out = compacted(merged(ins, false), w, older);
    let o = output_es(c.output);
    lemma_tier_sources(before, c, fresh, inputs);
    lemma_regroup_first(first, newer, ins, behind);
    lemma_regroup_first(first, newer, o, behind);
    match c.output {
        Some(r) => {
            assert(o =~= seq![out]);
        },
        None => {
            assert(out =~= Seq::<Kv>::empty());
        },
    }
    lemma_merge_preserves_values(first + newer, ins, behind, o, w, older, uk, snap);
}

/// Replacing the inputs of a merge by its output, which may be nothing at all.
proof fn lemma_merge_preserves_values(
    newer: Seq<Seq<Kv>>,
    ins: Seq<Seq<Kv>>,
    behind: Seq<Seq<Kv>>,
    o: Seq<Seq<Kv>>,
    w: nat,
    older: spec_fn(Seq<u8>) -> bool,
    uk: Seq<u8>,
    snap: nat,
)
    requires
        newest_first(ins),
        forall|l: int| 0 <= l < ins.len() ==> sorted(#[trigger] ins[l]),
        mergeable(ins, false),
        !older(uk) ==> forall|l: int| 0 <= l < behind.len() ==> lacks(#[trigger] behind[l], uk),
        o == seq![compacted(merged(ins, false), w, older)] || (o.len() == 0 && compacted(
            merged(ins, false),
            w,
            older,
        ).len() == 0),
        w <= snap,
    ensures
        value_of(first_hit(newer + ins + behind, uk, snap)) == value_of(
            first_hit(newer + o + behind, uk, snap),
        ),
{
    let out = compacted(merged(ins, false), w, older);
    if !older(uk) {
        assert forall|l: int, k: int| 0 <= l < behind.len() && 0 <= k < behind[l].len() implies ukey_of(
            (#[trigger] behind[l][k]).key,
        ) != uk by {
            assert(lacks(behind[l], uk));
        }
    }
    lemma_replace_preserves_values(newer, ins, behind, w, older, uk, snap);
    if o.len() == 0 {
        assert(newer + o + behind =~= newer + behind);
        lemma_first_hit_split(newer + seq![out], behind, uk, snap);
        lemma_first_hit_split(newer, seq![out], uk, snap);
        lemma_first_hit_split(newer, behind, uk, snap);
        lemma_one_source(out, uk, snap);
        assert(lacks(out, uk));
        lemma_lacks_finds_nothing(out, uk, snap);
    }
}

/// A splice replaces the bottom's last two runs by the new base.
pub proof fn lemma_splice_sources(
    before: Seq<Seq<TreeRun>>,
    c: Change<Arc<TableHandle>>,
    s: SpliceOver<Arc<TableHandle>>,
    newer: Seq<TreeRun>,
    upper: TreeRun,
    base: TreeRun,
)
    requires
        before.len() > 0,
        c.level == before.len() - 1,
        c.splice == Some(s),
        before[c.level] == newer.push(upper).push(base),
        unlisted(unlisted(before[c.level], c.input_ids), seq![s.base_id]) == newer,
    ensures
        ({
            let after = installed(before, c);
            let front = tree_es(before, c.level as nat) + level_es(newer);
            let tables = s.left + (match c.output {
                Some(run) => run.tables,
                None => Seq::empty(),
            }) + s.right;
            &&& after.len() == before.len()
            &&& tree_es(before, before.len()) == front + seq![run_es(upper), run_es(base)]
            &&& tree_es(after, after.len()) == front + (if tables.len() == 0 {
                Seq::empty()
            } else {
                seq![flat(fragments(tables))]
            })
        }),
{
    let i = c.level;
    let after = installed(before, c);
    let front = tree_es(before, i as nat) + level_es(newer);
    let tables = s.left + (match c.output {
        Some(run) => run.tables,
        None => Seq::empty(),
    }) + s.right;
    assert(level_es(before[i]) =~= level_es(newer) + seq![run_es(upper), run_es(base)]);
    assert(tree_es(before, before.len()) =~= front + seq![run_es(upper), run_es(base)]);
    lemma_same_front(before, after, i);
    if tables.len() == 0 {
        assert(after[i] == newer);
        assert(tree_es(after, after.len()) =~= front + Seq::<Seq<Kv>>::empty());
    } else {
        let r = RunOver { id: s.new_id, tables };
        assert(after[i] == newer.push(r));
        assert(level_es(newer.push(r)) =~= level_es(newer) + seq![flat(fragments(tables))]);
        assert(tree_es(after, after.len()) =~= front + seq![flat(fragments(tables))]);
    }
}

/// Every entry of the sources is one of the others'.
pub open spec fn drawn_from(after: Seq<Seq<Kv>>, before: Seq<Seq<Kv>>) -> bool {
    forall|l: int, i: int|
        0 <= l < after.len() && 0 <= i < after[l].len() ==> in_some(before, #[trigger] after[l][i])
}

/// Replacing neighbouring sources by one that is drawn from them keeps the
/// order of ages, and adds nothing.
pub proof fn lemma_replaced(
    newer: Seq<Seq<Kv>>,
    ins: Seq<Seq<Kv>>,
    behind: Seq<Seq<Kv>>,
    outs: Seq<Seq<Kv>>,
)
    requires
        newest_first(newer + ins + behind),
        outs.len() <= 1,
        drawn_from(outs, ins),
    ensures
        newest_first(newer + outs + behind),
        drawn_from(newer + outs + behind, newer + ins + behind),
{
    let b = newer + ins + behind;
    let a = newer + outs + behind;
    let p = newer.len() as int;
    // each entry of the new sources stands somewhere in the old ones, in the
    // same part
    assert forall|l: int, i: int| 0 <= l < a.len() && 0 <= i < a[l].len() implies in_some(
        b,
        #[trigger] a[l][i],
    ) by {
        let (x, y) = lemma_replaced_at(newer, ins, behind, outs, l, i);
        assert(b[x][y] == a[l][i]);
    }
    assert forall|k: int, l: int, i: int, j: int|
        0 <= k < l < a.len() && 0 <= i < a[k].len() && 0 <= j < a[l].len() && ukey_of(
            (#[trigger] a[k][i]).key,
        ) == ukey_of((#[trigger] a[l][j]).key) implies seqno_of(a[k][i].key) > seqno_of(
        a[l][j].key,
    ) by {
        let (x, y) = lemma_replaced_at(newer, ins, behind, outs, k, i);
        let (u, v) = lemma_replaced_at(newer, ins, behind, outs, l, j);
        assert(x < u);
        assert(b[x][y] == a[k][i]);
        assert(b[u][v] == a[l][j]);
        assert(seqno_of(b[x][y].key) > seqno_of(b[u][v].key));
    }
}

proof fn lemma_replaced_at(
    newer: Seq<Seq<Kv>>,
    ins: Seq<Seq<Kv>>,
    behind: Seq<Seq<Kv>>,
    outs: Seq<Seq<Kv>>,
    l: int,
    i: int,
) -> (r: (int, int))
    requires
        outs.len() <= 1,
        drawn_from(outs, ins),
        0 <= l < (newer + outs + behind).len(),
        0 <= i < (newer + outs + behind)[l].len(),
    ensures
        0 <= r.0 < (newer + ins + behind).len(),
        0 <= r.1 < (newer + ins + behind)[r.0].len(),
        (newer + ins + behind)[r.0][r.1] == (newer + outs + behind)[l][i],
        l < newer.len() ==> r.0 == l,
        newer.len() <= l < newer.len() + outs.len() ==> newer.len() <= r.0 < newer.len()
            + ins.len(),
        l >= newer.len() + outs.len() ==> r.0 == l - outs.len() + ins.len(),
{
    let b = newer + ins + behind;
    let a = newer + outs + behind;
    let p = newer.len() as int;
    if l < p {
        assert(a[l] == newer[l] && b[l] == newer[l]);
        (l, i)
    } else if l < p + outs.len() {
        assert(a[l] == outs[l - p]);
        assert(in_some(ins, outs[l - p][i]));
        let (x, y) = choose|x: int, y: int|
            0 <= x < ins.len() && 0 <= y < ins[x].len() && #[trigger] ins[x][y] == outs[l - p][i];
        assert(b[p + x] == ins[x]);
        (p + x, y)
    } else {
        let x = l - outs.len() + ins.len();
        assert(a[l] == behind[l - p - outs.len()]);
        assert(b[x] == behind[l - p - outs.len()]);
        (x, i)
    }
}

/// What a merge keeps is drawn from its inputs.
pub proof fn lemma_compacted_drawn(
    ins: Seq<Seq<Kv>>,
    w: nat,
    older: spec_fn(Seq<u8>) -> bool,
)
    requires
        mergeable(ins, false),
    ensures
        drawn_from(seq![compacted(merged(ins, false), w, older)], ins),
{
    let es = merged(ins, false);
    let out = compacted(es, w, older);
    lemma_merged(ins, false);
    let one = seq![out];
    assert forall|l: int, i: int| 0 <= l < one.len() && 0 <= i < one[l].len() implies in_some(
        ins,
        #[trigger] one[l][i],
    ) by {
        assert(out.contains(out[i]));
        lemma_keep_members(es, w, older, es.len() as int, out[i]);
        let k = choose|k: int|
            0 <= k < es.len() && #[trigger] kept(es, w, older, k) && es[k] == out[i];
        assert(es.contains(es[k]));
    }
}

/// Sources ordered by age can be merged: no two hold the same version.
pub proof fn lemma_newest_first_mergeable(srcs: Seq<Seq<Kv>>)
    requires
        newest_first(srcs),
        forall|l: int| 0 <= l < srcs.len() ==> sorted(#[trigger] srcs[l]),
    ensures
        mergeable(srcs, false),
{
    assert forall|k: int| 0 <= k < srcs.len() implies crate::iter::dir_sorted(
        #[trigger] srcs[k],
        false,
    ) by {
        assert(sorted(srcs[k]));
    }
    assert forall|k: int, l: int, i: int, j: int|
        0 <= k < srcs.len() && 0 <= l < srcs.len() && k != l && 0 <= i < srcs[k].len() && 0 <= j
            < srcs[l].len() implies (#[trigger] srcs[k][i]).key != (#[trigger] srcs[l][j]).key by {
        if srcs[k][i].key == srcs[l][j].key {
            if k < l {
                assert(seqno_of(srcs[k][i].key) > seqno_of(srcs[l][j].key));
            } else {
                assert(seqno_of(srcs[l][j].key) > seqno_of(srcs[k][i].key));
            }
        }
    }
}

// ---------------------------------------------------------------------------
// Scans
// ---------------------------------------------------------------------------

/// A user's scan never shows a reserved key.
pub proof fn lemma_user_scan_hides_reserved(
    es: Seq<Kv>,
    snap: nat,
    lo: Option<Seq<u8>>,
    hi: Option<Seq<u8>>,
    i: int,
)
    requires
        0 <= i < crate::mvcc::scan(es, snap, crate::scan::user_lo(lo), hi).len(),
    ensures
        is_user_key(crate::mvcc::scan(es, snap, crate::scan::user_lo(lo), hi)[i].0),
{
    let l = crate::scan::user_lo(lo);
    let ps = crate::mvcc::scan(es, snap, l, hi);
    let (k, r) = ps[i];
    assert(ps.contains((k, r)));
    crate::mvcc::lemma_scan_is_exact(es, snap, l, hi, k, r);
    let start = crate::types::USER_KEYSPACE_START@;
    assert(start.len() == 1 && start[0] == 1);
    assert(lex_le(start, l));
    lemma_at_least_start(l);
    if k != l {
        lemma_above_start(l, k);
    }
}

proof fn lemma_at_least_start(k: Seq<u8>)
    requires
        lex_le(crate::types::USER_KEYSPACE_START@, k),
    ensures
        k.len() > 0,
        k[0] >= 1,
{
    let start = crate::types::USER_KEYSPACE_START@;
    assert(start.len() == 1 && start[0] == 1);
    if k.len() > 0 && lex_lt(start, k) && start[0] != k[0] {
        assert(start[0] < k[0]);
    }
}

proof fn lemma_above_start(a: Seq<u8>, b: Seq<u8>)
    requires
        a.len() > 0,
        a[0] >= 1,
        lex_lt(a, b),
    ensures
        b.len() > 0,
        b[0] >= 1,
{
}

} // verus!
