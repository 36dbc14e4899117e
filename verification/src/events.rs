//! Trigger events of a commit group: each batch carries the events that its
//! operations fire, under the seqnos that they commit at.

use vstd::prelude::*;

use crate::batch::BatchOp;
use crate::commit::{batch_approx, BATCH_LIMIT};
use crate::trigger::{capture_ops, TriggerDef, TriggerLimits};
use crate::types::{SeqNo, MAX_SEQNO};

verus! {

use crate::batch::{ops_view, Op};
use crate::commit::{admissible, batches_view, next_base};
use crate::feeds::{is_told, lemma_capture_is_complete, tells_of_batch, watches};
use crate::trigger::{all_changes, defs_view, inline_cap, is_touched_list, key_events, Def};

/// The events that the operations fire where the first commits at `base`.
pub open spec fn are_events(ds: Seq<Def>, ops: Seq<Op>, base: nat, cap: nat, evs: Seq<Op>) -> bool {
    exists|ks: Seq<Seq<u8>>| #[trigger]
        is_touched_list(ks, ds, ops, ops.len() as int) && evs == key_events(ks) + all_changes(
            ds,
            ops,
            base,
            cap,
            ops.len() as int,
        )
}

/// The batch with its events behind it. A batch that is refused has none.
pub open spec fn has_events(ds: Seq<Def>, cap: nat, ops: Seq<Op>, base: nat, out: Seq<Op>) -> bool {
    if admissible(ops, base) {
        exists|evs: Seq<Op>| #[trigger] are_events(ds, ops, base, cap, evs) && out == ops + evs
    } else {
        out == ops
    }
}

/// Every batch has its events, each by the seqno that the group commits it at.
pub open spec fn group_has_events(
    ds: Seq<Def>,
    cap: nat,
    seen: nat,
    before: Seq<Seq<Op>>,
    after: Seq<Seq<Op>>,
) -> bool {
    &&& after.len() == before.len()
    &&& forall|i: int|
        0 <= i < before.len() ==> has_events(
            ds,
            cap,
            before[i],
            next_base(after, seen, i),
            #[trigger] after[i],
        )
}

/// Whether a batch is admitted at this seqno.
fn is_admissible(ops: &Vec<BatchOp>, base: u64) -> (b: bool)
    ensures
        b == admissible(ops_view(ops@), base as nat),
{
    batch_approx(ops) < BATCH_LIMIT && base < MAX_SEQNO && (ops.len() as u64) < MAX_SEQNO - base
}

/// The next base depends on the batches before it alone.
proof fn lemma_next_base_prefix(a: Seq<Seq<Op>>, more: Seq<Op>, seen: nat, n: int)
    requires
        0 <= n <= a.len(),
    ensures
        next_base(a.push(more), seen, n) == next_base(a, seen, n),
    decreases n,
{
    if n > 0 {
        lemma_next_base_prefix(a, more, seen, n - 1);
        assert(a.push(more)[n - 1] == a[n - 1]);
    }
}

/// Append to each batch of a group the events that it fires.
pub fn fire_group(
    defs: &Vec<TriggerDef>,
    batches: Vec<Vec<BatchOp>>,
    seen: SeqNo,
    limits: &TriggerLimits,
) -> (out: Vec<Vec<BatchOp>>)
    requires
        seen < MAX_SEQNO,
    ensures
        group_has_events(
            defs_view(defs@),
            inline_cap(*limits),
            seen as nat,
            batches_view(batches@),
            batches_view(out@),
        ),
{
    let ghost ds = defs_view(defs@);
    let ghost cap = inline_cap(*limits);
    let ghost before = batches_view(batches@);
    let ghost all = batches@;
    let mut rest = batches;
    let mut out: Vec<Vec<BatchOp>> = Vec::new();
    let mut next: u64 = seen + 1;
    assert(rest@ =~= all.skip(0));
    while rest.len() > 0
        invariant
            ds == defs_view(defs@),
            cap == inline_cap(*limits),
            before == batches_view(all),
            out@.len() <= all.len(),
            rest@ == all.skip(out@.len() as int),
            next <= MAX_SEQNO,
            next == next_base(batches_view(out@), seen as nat, out@.len() as int),
            forall|i: int|
                0 <= i < out@.len() ==> has_events(
                    ds,
                    cap,
                    before[i],
                    next_base(batches_view(out@), seen as nat, i),
                    #[trigger] batches_view(out@)[i],
                ),
        decreases rest@.len(),
    {
        let ghost n = out@.len() as int;
        let ghost done = batches_view(out@);
        let mut ops = rest.remove(0);
        let ghost ov = ops_view(ops@);
        proof {
            assert(ops == all[n]);
            assert(before[n] == ov);
            assert(rest@ =~= all.skip(n + 1));
        }
        if is_admissible(&ops, next) {
            let mut events = capture_ops(defs, &ops, next, limits);
            let ghost ev = ops_view(events@);
            let ghost o0 = ops@;
            let ghost e0 = events@;
            ops.append(&mut events);
            proof {
                assert(are_events(ds, ov, next as nat, cap, ev));
                assert(ops@ =~= o0 + e0);
                assert(ops_view(ops@) =~= ov + ev);
            }
        }
        let fits: bool = is_admissible(&ops, next);
        let count: usize = ops.len();
        let ghost cur = ops_view(ops@);
        out.push(ops);
        proof {
            let after = batches_view(out@);
            assert(after =~= done.push(cur));
            assert forall|i: int| 0 <= i <= n implies next_base(after, seen as nat, i)
                == next_base(done, seen as nat, i) by {
                lemma_next_base_prefix(done, cur, seen as nat, i);
            }
            assert(after[n] == cur);
            assert forall|i: int| 0 <= i < out@.len() implies has_events(
                ds,
                cap,
                before[i],
                next_base(after, seen as nat, i),
                #[trigger] after[i],
            ) by {
                if i < n {
                    assert(after[i] == done[i]);
                }
            }
        }
        if fits {
            next = next + count as u64;
        }
    }
    out
}

/// A committed batch carries its events: the operations come first, as they
/// were, and behind them every trigger is told of each of them on a key that it
/// watches, at the seqno that it commits at; nothing else is added. A batch that
/// is refused is left as it is.
pub proof fn lemma_batch_carries_its_events(
    ds: Seq<Def>,
    cap: nat,
    ops: Seq<Op>,
    base: nat,
    out: Seq<Op>,
)
    requires
        has_events(ds, cap, ops, base, out),
        forall|i: int| 0 <= i < ops.len() ==> (#[trigger] ops[i]).key().len() <= u64::MAX,
    ensures
        !admissible(ops, base) ==> out == ops,
        admissible(ops, base) ==> {
            let evs = out.skip(ops.len() as int);
            &&& ops.is_prefix_of(out)
            &&& forall|x: int|
                0 <= x < evs.len() ==> tells_of_batch(ds, ops, base, cap, #[trigger] evs[x])
            &&& forall|i: int, j: int|
                0 <= i < ops.len() && 0 <= j < ds.len() && watches(
                    #[trigger] ds[j],
                    (#[trigger] ops[i]).key(),
                ) ==> is_told(evs, ds[j], ops[i], (base + i) as nat, cap)
        },
{
    if admissible(ops, base) {
        let evs = choose|evs: Seq<Op>| #[trigger]
            are_events(ds, ops, base, cap, evs) && out == ops + evs;
        let ks = choose|ks: Seq<Seq<u8>>| #[trigger]
            is_touched_list(ks, ds, ops, ops.len() as int) && evs == key_events(ks) + all_changes(
                ds,
                ops,
                base,
                cap,
                ops.len() as int,
            );
        assert(out.skip(ops.len() as int) =~= evs);
        assert(out.take(ops.len() as int) =~= ops);
        lemma_capture_is_complete(ds, ops, base, cap, ks, evs);
    }
}

/// Every batch of a group carries its events, under the seqnos that it commits at
/// with the events of those before it.
pub proof fn lemma_group_carries_its_events(
    ds: Seq<Def>,
    cap: nat,
    seen: nat,
    before: Seq<Seq<Op>>,
    after: Seq<Seq<Op>>,
    i: int,
)
    requires
        group_has_events(ds, cap, seen, before, after),
        0 <= i < before.len(),
    ensures
        after.len() == before.len(),
        before[i].is_prefix_of(after[i]),
        has_events(ds, cap, before[i], next_base(after, seen, i), after[i]),
{
    let base = next_base(after, seen, i);
    assert(has_events(ds, cap, before[i], base, after[i]));
    assert(after[i].take(before[i].len() as int) =~= before[i]) by {
        if admissible(before[i], base) {
            let evs = choose|evs: Seq<Op>| #[trigger]
                are_events(ds, before[i], base, cap, evs) && after[i] == before[i] + evs;
        }
    }
}

} // verus!
