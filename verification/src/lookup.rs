//! Lookups across merges: what a merge leaves is looked up in as what it
//! replaced, also where blocks elsewhere in the tree are damaged.

use std::sync::Arc;

use vstd::prelude::*;

use crate::error::Result;
use crate::scan::Pending;
use crate::shape::Job;
use crate::types::{SeqNo, MAX_SEQNO};
use crate::version::{Run, TableHandle};

verus! {

use crate::compaction::{
    all_sound, compacted, keep_upto, kept, lemma_compaction_preserves_reads,
    lemma_first_hit_is_merged, some_admits, value_of,
};
use crate::db::point_answer;
use crate::gc::tellable;
use crate::install::{
    change_of, installed, levels_over, run_over, runs_over, unlisted, Change, RunOver, SpliceOver,
};
use crate::iter::{flat, lemma_merged, mergeable, merged, sorted, Kv};
use crate::mvcc::{find_newest, newest, visible};
use crate::order::{lemma_lex_irreflexive, lex_le, lex_lt};
use crate::shape::{is_tier_job, max_of, min_of, runs_from, same_run};
use crate::splice::{lemma_le_lt, lemma_lt_le, tables_below};
use crate::tree::{lemma_tier_shape, TreeRun};
use crate::types::ikey_before;
use crate::version::{
    first_hit, fragment_of, fragments, fragments_sound, in_fragment, lemma_first_hit_split,
    lemma_fragment_of, lemma_sound_run_lookup, lemma_sound_runs_lookup, levels_lookup, look_on,
    newest_first, ranges_ordered, run_admits, run_lookup, runs_entries, runs_lookup,
};

/// The value that a lookup comes to: nothing at all where something on its
/// path cannot be read, and no value to speak of where the version that it finds
/// cannot be.
pub open spec fn look_value(look: Option<Option<Kv>>) -> Option<Option<Option<Seq<u8>>>> {
    match look {
        Some(hit) => Some(
            if tellable(hit) {
                Some(value_of(hit))
            } else {
                None
            },
        ),
        None => None,
    }
}

/// Lookups that come to the same value are answered alike.
pub proof fn lemma_same_answer(
    a: Option<Option<Kv>>,
    b: Option<Option<Kv>>,
    vlogs: Seq<u64>,
    r: Result<Option<Pending>>,
)
    requires
        look_value(a) == look_value(b),
    ensures
        point_answer(r, a, vlogs) == point_answer(r, b, vlogs),
{
}

/// What a lookup finds in the first `n` runs.
pub open spec fn level_look(rs: Seq<TreeRun>, n: int, uk: Seq<u8>, seq: SeqNo) -> Option<Option<Kv>>
    decreases n,
{
    if n <= 0 {
        Some(None)
    } else {
        look_on(level_look(rs, n - 1, uk, seq), run_lookup(rs[n - 1].tables, uk, seq))
    }
}

/// What a lookup finds in the levels from `i` up to `n`.
pub open spec fn tree_look(ls: Seq<Seq<TreeRun>>, i: int, n: int, uk: Seq<u8>, seq: SeqNo) -> Option<
    Option<Kv>,
>
    decreases n - i,
{
    if n <= i {
        Some(None)
    } else {
        look_on(
            tree_look(ls, i, n - 1, uk, seq),
            level_look(ls[n - 1], ls[n - 1].len() as int, uk, seq),
        )
    }
}

proof fn lemma_level_is_runs(rs: Seq<Run>, n: int, uk: Seq<u8>, seq: SeqNo)
    requires
        0 <= n <= rs.len(),
    ensures
        level_look(runs_over(rs), n, uk, seq) == runs_lookup(rs, n, uk, seq),
    decreases n,
{
    if n > 0 {
        lemma_level_is_runs(rs, n - 1, uk, seq);
        assert(runs_over(rs)[n - 1] == run_over(rs[n - 1]));
    }
}

proof fn lemma_tree_is_levels(levels: Seq<Vec<Run>>, n: int, uk: Seq<u8>, seq: SeqNo)
    requires
        0 <= n <= levels.len(),
    ensures
        tree_look(levels_over(levels), 0, n, uk, seq) == levels_lookup(levels, n, uk, seq),
    decreases n,
{
    if n > 0 {
        lemma_tree_is_levels(levels, n - 1, uk, seq);
        assert(levels_over(levels)[n - 1] == runs_over(levels[n - 1]@));
        lemma_level_is_runs(levels[n - 1]@, levels[n - 1]@.len() as int, uk, seq);
    }
}

proof fn lemma_tree_split(ls: Seq<Seq<TreeRun>>, i: int, n: int, uk: Seq<u8>, seq: SeqNo)
    requires
        0 <= i <= n <= ls.len(),
    ensures
        tree_look(ls, 0, n, uk, seq) == look_on(
            tree_look(ls, 0, i, uk, seq),
            tree_look(ls, i, n, uk, seq),
        ),
    decreases n - i,
{
    if i < n {
        lemma_tree_split(ls, i, n - 1, uk, seq);
    }
}

proof fn lemma_tree_one(ls: Seq<Seq<TreeRun>>, i: int, n: int, uk: Seq<u8>, seq: SeqNo)
    requires
        0 <= i < n <= ls.len(),
    ensures
        tree_look(ls, i, n, uk, seq) == look_on(
            level_look(ls[i], ls[i].len() as int, uk, seq),
            tree_look(ls, i + 1, n, uk, seq),
        ),
    decreases n - i,
{
    if i + 1 < n {
        lemma_tree_one(ls, i, n - 1, uk, seq);
    } else {
        assert(tree_look(ls, i, i, uk, seq) == Some(None::<Kv>));
        assert(tree_look(ls, i + 1, n, uk, seq) == Some(None::<Kv>));
    }
}

proof fn lemma_same_tree(
    a: Seq<Seq<TreeRun>>,
    b: Seq<Seq<TreeRun>>,
    i: int,
    n: int,
    uk: Seq<u8>,
    seq: SeqNo,
)
    requires
        0 <= i <= n,
        n <= a.len(),
        n <= b.len(),
        forall|l: int| i <= l < n ==> #[trigger] a[l] == b[l],
    ensures
        tree_look(a, i, n, uk, seq) == tree_look(b, i, n, uk, seq),
    decreases n - i,
{
    if i < n {
        lemma_same_tree(a, b, i, n - 1, uk, seq);
        assert(a[n - 1] == b[n - 1]);
    }
}

proof fn lemma_level_concat(a: Seq<TreeRun>, b: Seq<TreeRun>, n: int, uk: Seq<u8>, seq: SeqNo)
    requires
        0 <= n <= b.len(),
    ensures
        level_look(a + b, a.len() + n, uk, seq) == look_on(
            level_look(a, a.len() as int, uk, seq),
            level_look(b, n, uk, seq),
        ),
    decreases n,
{
    let s = a + b;
    if n > 0 {
        lemma_level_concat(a, b, n - 1, uk, seq);
        assert(s[a.len() + n - 1] == b[n - 1]);
    } else {
        lemma_level_prefix(a, s, a.len() as int, uk, seq);
    }
}

proof fn lemma_level_prefix(a: Seq<TreeRun>, b: Seq<TreeRun>, n: int, uk: Seq<u8>, seq: SeqNo)
    requires
        0 <= n <= a.len(),
        n <= b.len(),
        forall|k: int| 0 <= k < n ==> #[trigger] a[k] == b[k],
    ensures
        level_look(a, n, uk, seq) == level_look(b, n, uk, seq),
    decreases n,
{
    if n > 0 {
        lemma_level_prefix(a, b, n - 1, uk, seq);
        assert(a[n - 1] == b[n - 1]);
    }
}

/// Runs of which none admits the key are looked up in for nothing.
proof fn lemma_not_admitted_look(levels: Seq<Vec<Run>>, i: int, uk: Seq<u8>, seq: SeqNo)
    requires
        0 <= i <= levels.len(),
        forall|r: int|
            0 <= r < runs_from(levels, i).len() ==> !run_admits(
                (#[trigger] runs_from(levels, i)[r]).tables@,
                uk,
            ),
    ensures
        tree_look(levels_over(levels), i, levels.len() as int, uk, seq) == Some(None::<Kv>),
    decreases levels.len() - i,
{
    if i < levels.len() {
        let n = levels.len() as int;
        let ls = levels_over(levels);
        let rs = levels[i]@;
        let all = runs_from(levels, i);
        let rest = runs_from(levels, i + 1);
        assert(all == rs + rest);
        assert forall|r: int| 0 <= r < rest.len() implies !run_admits(
            (#[trigger] rest[r]).tables@,
            uk,
        ) by {
            assert(all[rs.len() + r] == rest[r]);
        }
        lemma_not_admitted_look(levels, i + 1, uk, seq);
        lemma_tree_one(ls, i, n, uk, seq);
        assert(ls[i] == runs_over(rs));
        assert forall|r: int| 0 <= r < rs.len() implies !run_admits(
            (#[trigger] rs[r]).tables@,
            uk,
        ) by {
            assert(all[r] == rs[r]);
        }
        lemma_runs_not_admitted(rs, rs.len() as int, uk, seq);
        lemma_level_is_runs(rs, rs.len() as int, uk, seq);
    }
}

proof fn lemma_runs_not_admitted(rs: Seq<Run>, n: int, uk: Seq<u8>, seq: SeqNo)
    requires
        0 <= n <= rs.len(),
        forall|r: int| 0 <= r < rs.len() ==> !run_admits((#[trigger] rs[r]).tables@, uk),
    ensures
        runs_lookup(rs, n, uk, seq) == Some(None::<Kv>),
    decreases n,
{
    if n > 0 {
        lemma_runs_not_admitted(rs, n - 1, uk, seq);
        assert(!run_admits(rs[n - 1].tables@, uk));
        lemma_run_not_admitted_look(rs[n - 1].tables@, uk, seq);
    }
}

proof fn lemma_run_not_admitted_look(ts: Seq<Arc<TableHandle>>, uk: Seq<u8>, seq: SeqNo)
    requires
        !run_admits(ts, uk),
    ensures
        run_lookup(ts, uk, seq) == Some(None::<Kv>),
{
}

/// Watermarks that no version tells apart keep the same.
pub proof fn lemma_same_watermark(
    es: Seq<Kv>,
    w: nat,
    v: nat,
    older: spec_fn(Seq<u8>) -> bool,
    n: int,
)
    requires
        0 <= n <= es.len(),
        forall|i: int| 0 <= i < es.len() ==> visible(#[trigger] es[i], w) == visible(es[i], v),
    ensures
        keep_upto(es, w, older, n) == keep_upto(es, v, older, n),
    decreases n,
{
    if n > 0 {
        lemma_same_watermark(es, w, v, older, n - 1);
        assert(newest(es, w, n - 1) == newest(es, v, n - 1));
        assert(visible(es[n - 1], w) == visible(es[n - 1], v));
        assert(kept(es, w, older, n - 1) == kept(es, v, older, n - 1));
    }
}

/// What stands in for the inputs of a merge in a lookup: the same version, or
/// nothing in place of a tombstone that nothing older can answer for.
proof fn lemma_output_look(
    ins: Seq<Seq<Kv>>,
    w: nat,
    older: spec_fn(Seq<u8>) -> bool,
    uk: Seq<u8>,
    snap: nat,
)
    requires
        newest_first(ins),
        forall|l: int| 0 <= l < ins.len() ==> sorted(#[trigger] ins[l]),
        mergeable(ins, false),
        w <= snap,
    ensures
        ({
            let a = first_hit(ins, uk, snap);
            let b = find_newest(compacted(merged(ins, false), w, older), uk, snap);
            a == b || (value_of(a) is None && tellable(a) && a is Some && b is None && !older(uk))
        }),
{
    let es = merged(ins, false);
    lemma_merged(ins, false);
    assert(sorted(es)) by {
        assert forall|i: int, j: int| 0 <= i < j < es.len() implies ikey_before(
            #[trigger] es[i].key,
            #[trigger] es[j].key,
        ) by {
            assert(crate::iter::dir_before(es[i].key, es[j].key, false));
        }
    }
    lemma_first_hit_is_merged(ins, uk, snap);
    lemma_compaction_preserves_reads(es, w, older, uk, snap);
}

/// The output of a merge, where there is one, holds what was kept.
pub open spec fn output_holds(output: Option<Run>, out: Seq<Kv>) -> bool {
    match output {
        Some(r) => r.sound() && r.entries() == out,
        None => out.len() == 0,
    }
}

proof fn lemma_output_run_look(output: Option<Run>, out: Seq<Kv>, uk: Seq<u8>, seq: SeqNo)
    requires
        output_holds(output, out),
        seq <= MAX_SEQNO,
    ensures
        match output {
            Some(r) => run_lookup(r.tables@, uk, seq) == Some(find_newest(out, uk, seq as nat)),
            None => find_newest(out, uk, seq as nat) is None,
        },
{
    match output {
        Some(r) => {
            lemma_sound_run_lookup(r, uk, seq);
        },
        None => {
            crate::tree::lemma_lacks_finds_nothing(out, uk, seq as nat);
        },
    }
}

/// A tiered merge keeps what every lookup at or above the watermark comes to,
/// whatever is damaged elsewhere.
#[verifier::spinoff_prover]
#[verifier::rlimit(40)]
pub proof fn lemma_tier_lookup(
    before: Seq<Vec<Run>>,
    after: Seq<Vec<Run>>,
    i: int,
    job: Job,
    output: Option<Run>,
    w: nat,
    uk: Seq<u8>,
    seq: SeqNo,
)
    requires
        0 <= i < before.len(),
        is_tier_job(job, before, i),
        all_sound(job.inputs@),
        newest_first(runs_entries(job.inputs@)),
        forall|l: int|
            0 <= l < job.inputs@.len() ==> sorted(#[trigger] runs_entries(job.inputs@)[l]),
        mergeable(runs_entries(job.inputs@), false),
        unlisted(levels_over(before)[i], change_of(job, output).input_ids) == Seq::<TreeRun>::empty(),
        levels_over(after) == installed(levels_over(before), change_of(job, output)),
        output_holds(
            output,
            compacted(merged(runs_entries(job.inputs@), false), w, some_admits(job.older@)),
        ),
        w <= seq <= MAX_SEQNO,
    ensures
        look_value(levels_lookup(after, after.len() as int, uk, seq)) == look_value(
            levels_lookup(before, before.len() as int, uk, seq),
        ),
{
    let n = before.len() as int;
    let ls = levels_over(before);
    let la = levels_over(after);
    let c = change_of(job, output);
    let none = Seq::<TreeRun>::empty();
    let rs = before[i]@;
    let ins = runs_entries(job.inputs@);
    let older = some_admits(job.older@);
    let out = compacted(merged(ins, false), w, older);
    assert(la.len() == after.len());
    assert(ls.len() == before.len());
    assert(ls[i] == runs_over(rs));
    lemma_tier_shape(ls, c, none, ls[i]);
    let m = la.len() as int;
    lemma_tree_is_levels(before, n, uk, seq);
    lemma_tree_is_levels(after, m, uk, seq);
    // before
    lemma_tree_split(ls, i, n, uk, seq);
    lemma_tree_one(ls, i, n, uk, seq);
    lemma_level_is_runs(rs, rs.len() as int, uk, seq);
    assert forall|k: int| 0 <= k < rs.len() implies (#[trigger] rs[k]).sound() by {
        assert(same_run(job.inputs@[k], rs[k]));
        assert(job.inputs@[k].sound());
    }
    lemma_sound_runs_lookup(rs, rs.len() as int, uk, seq);
    assert(runs_entries(rs) =~= ins) by {
        assert forall|k: int| 0 <= k < rs.len() implies runs_entries(rs)[k] == ins[k] by {
            assert(same_run(job.inputs@[k], rs[k]));
        }
    }
    assert(ins.take(rs.len() as int) =~= ins);
    // after
    lemma_tree_split(la, i, m, uk, seq);
    lemma_tree_one(la, i, m, uk, seq);
    lemma_tree_one(la, i + 1, m, uk, seq);
    lemma_same_tree(ls, la, 0, i, uk, seq);
    assert(level_look(la[i], 0, uk, seq) == Some(None::<Kv>));
    let next = if i + 1 < n {
        ls[i + 1]
    } else {
        none
    };
    let nx = level_look(next, next.len() as int, uk, seq);
    let behind = tree_look(ls, i + 1, n, uk, seq);
    assert(behind == look_on(nx, tree_look(la, i + 2, m, uk, seq))) by {
        if i + 1 < n {
            lemma_tree_one(ls, i + 1, n, uk, seq);
            lemma_same_tree(ls, la, i + 2, n, uk, seq);
        } else {
            assert(tree_look(la, i + 2, m, uk, seq) == Some(None::<Kv>));
            assert(nx == Some(None::<Kv>));
        }
    }
    let fo = find_newest(out, uk, seq as nat);
    lemma_output_run_look(output, out, uk, seq);
    assert(level_look(la[i + 1], la[i + 1].len() as int, uk, seq) == look_on(Some(fo), nx)) by {
        match c.output {
            Some(r) => {
                let one = seq![r];
                lemma_level_concat(one, next, next.len() as int, uk, seq);
                assert(one[0] == r);
                assert(level_look(one, 0, uk, seq) == Some(None::<Kv>));
                assert(level_look(one, 1, uk, seq) == run_lookup(r.tables, uk, seq));
            },
            None => {},
        }
    }
    lemma_output_look(ins, w, older, uk, seq as nat);
    if !older(uk) {
        let deep = runs_from(before, i + 1);
        assert forall|r: int| 0 <= r < deep.len() implies !run_admits(
            (#[trigger] deep[r]).tables@,
            uk,
        ) by {
            assert(same_run(job.older@[r], deep[r]));
            assert(!run_admits(job.older@[r].tables@, uk));
        }
        lemma_not_admitted_look(before, i + 1, uk, seq);
    }
}

// ---------------------------------------------------------------------------
// Splices
// ---------------------------------------------------------------------------

/// A key that no table of the run covers is looked up for nothing.
proof fn lemma_outside(ts: Seq<Arc<TableHandle>>, uk: Seq<u8>, seq: SeqNo)
    requires
        ranges_ordered(ts),
        forall|k: int| 0 <= k < ts.len() ==> !#[trigger] in_fragment(ts, k, uk),
    ensures
        run_lookup(ts, uk, seq) == Some(None::<Kv>),
        fragment_of(ts, uk) is None,
{
    lemma_fragment_of(ts, uk);
    if let Some(k) = fragment_of(ts, uk) {
        assert(in_fragment(ts, k, uk));
    }
}

/// In a run of three parts a lookup is one in the part that covers the key.
proof fn lemma_parts_lookup(
    a: Seq<Arc<TableHandle>>,
    b: Seq<Arc<TableHandle>>,
    c: Seq<Arc<TableHandle>>,
    uk: Seq<u8>,
    seq: SeqNo,
)
    requires
        ranges_ordered(a),
        ranges_ordered(b),
        ranges_ordered(c),
        ranges_ordered(a + b + c),
    ensures
        run_lookup(a + b + c, uk, seq) == if fragment_of(a, uk) is Some {
            run_lookup(a, uk, seq)
        } else if fragment_of(c, uk) is Some {
            run_lookup(c, uk, seq)
        } else {
            run_lookup(b, uk, seq)
        },
{
    let s = a + b + c;
    let n = a.len() as int;
    let m = (a.len() + b.len()) as int;
    lemma_fragment_of(a, uk);
    lemma_fragment_of(b, uk);
    lemma_fragment_of(c, uk);
    lemma_fragment_of(s, uk);
    assert forall|k: int| 0 <= k < a.len() implies in_fragment(s, k, uk) == #[trigger] in_fragment(
        a,
        k,
        uk,
    ) by {
        assert(s[k] == a[k]);
    }
    assert forall|k: int| 0 <= k < b.len() implies in_fragment(s, n + k, uk)
        == #[trigger] in_fragment(b, k, uk) by {
        assert(s[n + k] == b[k]);
    }
    assert forall|k: int| 0 <= k < c.len() implies in_fragment(s, m + k, uk)
        == #[trigger] in_fragment(c, k, uk) by {
        assert(s[m + k] == c[k]);
    }
    if let Some(k) = fragment_of(a, uk) {
        assert(in_fragment(a, k, uk));
        assert(in_fragment(s, k, uk));
        assert(s[k] == a[k]);
    } else if let Some(k) = fragment_of(c, uk) {
        assert(in_fragment(c, k, uk));
        assert(in_fragment(s, m + k, uk));
        assert(s[m + k] == c[k]);
    } else if let Some(k) = fragment_of(b, uk) {
        assert(in_fragment(b, k, uk));
        assert(in_fragment(s, n + k, uk));
        assert(s[n + k] == b[k]);
    } else {
        assert forall|k: int| 0 <= k < s.len() implies !#[trigger] in_fragment(s, k, uk) by {
            if k < n {
                assert(!in_fragment(a, k, uk));
            } else if k < m {
                assert(!in_fragment(b, k - n, uk));
            } else {
                assert(!in_fragment(c, k - m, uk));
            }
        }
        lemma_outside(s, uk, seq);
    }
}

/// A key that a table covers, none of a run above or below it covers.
proof fn lemma_apart_lookup(
    a: Seq<Arc<TableHandle>>,
    b: Seq<Arc<TableHandle>>,
    uk: Seq<u8>,
    seq: SeqNo,
)
    requires
        ranges_ordered(a),
        ranges_ordered(b),
        tables_below(a, b),
    ensures
        fragment_of(a, uk) is Some ==> run_lookup(b, uk, seq) == Some(None::<Kv>),
        fragment_of(b, uk) is Some ==> run_lookup(a, uk, seq) == Some(None::<Kv>),
{
    lemma_fragment_of(a, uk);
    lemma_fragment_of(b, uk);
    assert forall|k: int, l: int|
        0 <= k < a.len() && 0 <= l < b.len() && #[trigger] in_fragment(
            a,
            k,
            uk,
        ) implies !#[trigger] in_fragment(b, l, uk) by {
        assert(lex_lt(max_of(a[k]), min_of(b[l])));
        lemma_le_lt(uk, max_of(a[k]), min_of(b[l]));
        if lex_le(min_of(b[l]), uk) {
            lemma_lt_le(uk, min_of(b[l]), uk);
            lemma_lex_irreflexive(uk);
        }
    }
    if let Some(k) = fragment_of(a, uk) {
        assert(in_fragment(a, k, uk));
        lemma_outside(b, uk, seq);
    }
    if let Some(l) = fragment_of(b, uk) {
        assert(in_fragment(b, l, uk));
        assert forall|k: int| 0 <= k < a.len() implies !#[trigger] in_fragment(a, k, uk) by {}
        lemma_outside(a, uk, seq);
    }
}

/// The parts of a splice: what is read and what is written is sound, and their
/// ranges lie to those of the untouched tables as the run needs it.
#[verifier::opaque]
pub open spec fn splice_parts(
    upper: Seq<Arc<TableHandle>>,
    base: Seq<Arc<TableHandle>>,
    left: Seq<Arc<TableHandle>>,
    mid: Seq<Arc<TableHandle>>,
    right: Seq<Arc<TableHandle>>,
    ots: Seq<Arc<TableHandle>>,
) -> bool {
    &&& base == left + mid + right
    &&& fragments_sound(upper)
    &&& fragments_sound(mid)
    &&& fragments_sound(ots)
    &&& ranges_ordered(left + mid + right)
    &&& ranges_ordered(left + ots + right)
    &&& ranges_ordered(left)
    &&& ranges_ordered(right)
    &&& tables_below(left, upper)
    &&& tables_below(upper, right)
}

/// What is written is what the merge of the two inputs keeps, at the bottom.
#[verifier::opaque]
pub open spec fn splice_output(u: Seq<Kv>, m: Seq<Kv>, out: Seq<Kv>, w: nat) -> bool {
    let ins = seq![u, m];
    &&& newest_first(ins)
    &&& sorted(u) && sorted(m)
    &&& mergeable(ins, false)
    &&& out == compacted(merged(ins, false), w, |k: Seq<u8>| false)
}

/// What the runs that a splice replaces come to in a lookup, the new base comes
/// to.
#[verifier::spinoff_prover]
proof fn lemma_base_lookup(
    upper: Seq<Arc<TableHandle>>,
    base: Seq<Arc<TableHandle>>,
    left: Seq<Arc<TableHandle>>,
    mid: Seq<Arc<TableHandle>>,
    right: Seq<Arc<TableHandle>>,
    ots: Seq<Arc<TableHandle>>,
    w: nat,
    uk: Seq<u8>,
    seq: SeqNo,
)
    requires
        splice_parts(upper, base, left, mid, right, ots),
        splice_output(
            flat(fragments(upper)),
            flat(fragments(mid)),
            flat(fragments(ots)),
            w,
        ),
        w <= seq <= MAX_SEQNO,
    ensures
        look_value(run_lookup(left + ots + right, uk, seq)) == look_value(
            look_on(run_lookup(upper, uk, seq), run_lookup(base, uk, seq)),
        ),
{
    reveal(splice_parts);
    lemma_parts_lookup(left, mid, right, uk, seq);
    lemma_parts_lookup(left, ots, right, uk, seq);
    lemma_apart_lookup(left, upper, uk, seq);
    lemma_apart_lookup(upper, right, uk, seq);
    if fragment_of(left, uk) is None && fragment_of(right, uk) is None {
        lemma_tables_look(upper, uk, seq);
        lemma_tables_look(mid, uk, seq);
        lemma_tables_look(ots, uk, seq);
        lemma_splice_out_look(
            flat(fragments(upper)),
            flat(fragments(mid)),
            flat(fragments(ots)),
            w,
            uk,
            seq as nat,
        );
    }
}

proof fn lemma_splice_out_look(
    u: Seq<Kv>,
    m: Seq<Kv>,
    out: Seq<Kv>,
    w: nat,
    uk: Seq<u8>,
    snap: nat,
)
    requires
        splice_output(u, m, out, w),
        w <= snap,
    ensures
        look_value(Some(find_newest(out, uk, snap))) == look_value(
            Some(
                match find_newest(u, uk, snap) {
                    Some(kv) => Some(kv),
                    None => find_newest(m, uk, snap),
                },
            ),
        ),
{
    reveal(splice_output);
    let ins = seq![u, m];
    assert(ins =~= seq![u] + seq![m]);
    lemma_first_hit_split(seq![u], seq![m], uk, snap);
    crate::tree::lemma_one_source(u, uk, snap);
    crate::tree::lemma_one_source(m, uk, snap);
    assert forall|l: int| 0 <= l < ins.len() implies sorted(#[trigger] ins[l]) by {}
    lemma_output_look(ins, w, |k: Seq<u8>| false, uk, snap);
}

proof fn lemma_tables_look(ts: Seq<Arc<TableHandle>>, uk: Seq<u8>, seq: SeqNo)
    requires
        fragments_sound(ts),
        seq <= MAX_SEQNO,
    ensures
        run_lookup(ts, uk, seq) == Some(find_newest(flat(fragments(ts)), uk, seq as nat)),
{
    crate::version::lemma_sound_tables_lookup(ts, uk, seq);
}

/// A splice keeps what every lookup at or above the watermark comes to,
/// whatever is damaged elsewhere.
#[verifier::spinoff_prover]
#[verifier::rlimit(40)]
pub proof fn lemma_splice_lookup(
    ls: Seq<Seq<TreeRun>>,
    c: Change<Arc<TableHandle>>,
    s: SpliceOver<Arc<TableHandle>>,
    newer: Seq<TreeRun>,
    upper: TreeRun,
    base: TreeRun,
    mid: Seq<Arc<TableHandle>>,
    ots: Seq<Arc<TableHandle>>,
    w: nat,
    uk: Seq<u8>,
    seq: SeqNo,
)
    requires
        ls.len() > 0,
        c.level == ls.len() - 1,
        c.splice == Some(s),
        ls[c.level] == newer.push(upper).push(base),
        unlisted(unlisted(ls[c.level], c.input_ids), seq![s.base_id]) == newer,
        ots == (match c.output {
            Some(run) => run.tables,
            None => Seq::empty(),
        }),
        splice_parts(upper.tables, base.tables, s.left, mid, s.right, ots),
        splice_output(
            flat(fragments(upper.tables)),
            flat(fragments(mid)),
            flat(fragments(ots)),
            w,
        ),
        w <= seq <= MAX_SEQNO,
    ensures
        ({
            let la = installed(ls, c);
            look_value(tree_look(la, 0, la.len() as int, uk, seq)) == look_value(
                tree_look(ls, 0, ls.len() as int, uk, seq),
            )
        }),
{
    let i = c.level;
    let n = ls.len() as int;
    let la = installed(ls, c);
    let tables = s.left + ots + s.right;
    lemma_base_lookup(upper.tables, base.tables, s.left, mid, s.right, ots, w, uk, seq);
    assert(la.len() == n);
    lemma_same_tree(ls, la, 0, i, uk, seq);
    let z = newer.len() as int;
    let nw = level_look(newer, z, uk, seq);
    // before
    let two = newer.push(upper).push(base);
    lemma_level_prefix(newer, two, z, uk, seq);
    assert(two[z] == upper && two[z + 1] == base);
    assert(level_look(two, z + 1, uk, seq) == look_on(
        nw,
        run_lookup(upper.tables, uk, seq),
    ));
    assert(level_look(two, z + 2, uk, seq) == look_on(
        look_on(nw, run_lookup(upper.tables, uk, seq)),
        run_lookup(base.tables, uk, seq),
    ));
    // after
    if tables.len() == 0 {
        assert(la[i] == newer);
        lemma_empty_look(tables, uk, seq);
    } else {
        let r = RunOver { id: s.new_id, tables };
        let one = newer.push(r);
        assert(la[i] == one);
        lemma_level_prefix(newer, one, z, uk, seq);
        assert(one[z] == r);
        assert(level_look(one, z + 1, uk, seq) == look_on(
            nw,
            run_lookup(tables, uk, seq),
        ));
    }
}

proof fn lemma_empty_look(ts: Seq<Arc<TableHandle>>, uk: Seq<u8>, seq: SeqNo)
    requires
        ts.len() == 0,
    ensures
        run_lookup(ts, uk, seq) == Some(None::<Kv>),
{
}

/// The same, of the levels in memory.
pub proof fn lemma_levels_look(levels: Seq<Vec<Run>>, uk: Seq<u8>, seq: SeqNo)
    ensures
        tree_look(levels_over(levels), 0, levels_over(levels).len() as int, uk, seq)
            == levels_lookup(levels, levels.len() as int, uk, seq),
{
    lemma_tree_is_levels(levels, levels.len() as int, uk, seq);
}

} // verus!
