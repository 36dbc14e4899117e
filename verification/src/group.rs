//! The end of a group commit: what became durable is published, in order and as
//! one.

use vstd::prelude::*;

use crate::batch::BatchOp;
use crate::commit::{settle, Fate, GroupIo, GroupPlan, Placing};
use crate::engine::Db;

verus! {

use crate::batch::{entries_view, Entry};
use crate::commit::{
    admitted, batch_kvs, batches_view, bytes_after, fate_of, head_at, is_plan, last_on, lemma_admitted,
    lemma_bases_contiguous, place_end, placed, placed_entry, survivors,
};
use crate::engine::{batch_look, batch_read_back, lemma_placed_entry};
use crate::types::{p_repr, SeqNo};

/// The entries of the plan's first `n` batches, one after the other.
pub open spec fn group_entries(plan: GroupPlan, n: int) -> Seq<Entry>
    decreases n,
{
    if n <= 0 {
        Seq::empty()
    } else {
        group_entries(plan, n - 1) + entries_view(plan.placed@[n - 1].entries@)
    }
}

proof fn lemma_last_on_concat(a: Seq<Entry>, b: Seq<Entry>, uk: Seq<u8>, n: int)
    requires
        0 <= n <= b.len(),
    ensures
        last_on(a + b, uk, a.len() + n) == (match last_on(b, uk, n) {
            Some(i) => Some(a.len() + i),
            None => last_on(a, uk, a.len() as int),
        }),
    decreases n,
{
    if n > 0 {
        assert((a + b)[a.len() + n - 1] == b[n - 1]);
        lemma_last_on_concat(a, b, uk, n - 1);
    } else {
        lemma_last_on_front(a, b, uk, a.len() as int);
    }
}

proof fn lemma_last_on_front(a: Seq<Entry>, b: Seq<Entry>, uk: Seq<u8>, n: int)
    requires
        0 <= n <= a.len(),
    ensures
        last_on(a + b, uk, n) == last_on(a, uk, n),
    decreases n,
{
    if n > 0 {
        assert((a + b)[n - 1] == a[n - 1]);
        lemma_last_on_front(a, b, uk, n - 1);
    }
}

proof fn lemma_last_on_range(es: Seq<Entry>, uk: Seq<u8>, n: int)
    requires
        0 <= n <= es.len(),
    ensures
        last_on(es, uk, n) matches Some(i) ==> 0 <= i < n,
    decreases n,
{
    if n > 0 {
        lemma_last_on_range(es, uk, n - 1);
    }
}

/// Two batches are counted one after the other as one.
proof fn lemma_bytes_concat(n: usize, a: Seq<Entry>, b: Seq<Entry>, k: int)
    requires
        0 <= k <= b.len(),
    ensures
        bytes_after(n, a + b, a.len() + k) == bytes_after(
            bytes_after(n, a, a.len() as int),
            b,
            k,
        ),
    decreases k,
{
    if k > 0 {
        lemma_bytes_concat(n, a, b, k - 1);
        assert((a + b)[a.len() + k - 1] == b[k - 1]);
    } else {
        lemma_bytes_prefix(n, a, a + b, a.len() as int);
    }
}

proof fn lemma_bytes_prefix(n: usize, a: Seq<Entry>, b: Seq<Entry>, k: int)
    requires
        0 <= k <= a.len(),
        k <= b.len(),
        forall|i: int| 0 <= i < k ==> #[trigger] a[i] == b[i],
    ensures
        bytes_after(n, a, k) == bytes_after(n, b, k),
    decreases k,
{
    if k > 0 {
        lemma_bytes_prefix(n, a, b, k - 1);
        assert(a[k - 1] == b[k - 1]);
    }
}

/// Two batches published one after the other read back as one.
proof fn lemma_read_back_as_one(
    s0: Db,
    s1: Db,
    s2: Db,
    base: u64,
    a: Seq<Entry>,
    b: Seq<Entry>,
)
    requires
        base >= 1,
        base + a.len() + b.len() <= u64::MAX,
        batch_read_back(s0, s1, base, a),
        batch_read_back(s1, s2, (base + a.len()) as u64, b),
    ensures
        batch_read_back(s0, s2, base, a + b),
{
    let mid = (base + a.len()) as u64;
    let ab = a + b;
    assert forall|uk: Seq<u8>, snap: SeqNo|
        (snap < base ==> #[trigger] s2.lookup(uk, snap) == s0.lookup(uk, snap)) && (snap
            >= base + ab.len() - 1 ==> s2.lookup(uk, snap) == batch_look(
            s0,
            base,
            ab,
            uk,
            snap,
        )) by {
        assert(snap < mid ==> s2.lookup(uk, snap) == s1.lookup(uk, snap));
        assert(snap < base ==> s1.lookup(uk, snap) == s0.lookup(uk, snap));
        if snap >= base + ab.len() - 1 {
            lemma_last_on_concat(a, b, uk, b.len() as int);
            lemma_last_on_range(a, uk, a.len() as int);
            lemma_last_on_range(b, uk, b.len() as int);
            assert(s2.lookup(uk, snap) == batch_look(s1, mid, b, uk, snap));
            match last_on(b, uk, b.len() as int) {
                Some(i) => {
                    assert(batch_kvs(mid, b)[i] == batch_kvs(base, ab)[a.len() + i]);
                },
                None => {
                    assert(s1.lookup(uk, snap) == batch_look(s0, base, a, uk, snap));
                    if let Some(i) = last_on(a, uk, a.len() as int) {
                        assert(batch_kvs(base, a)[i] == batch_kvs(base, ab)[i]);
                    }
                },
            }
        }
    }
}

impl Db {
    /// Finish a group commit by what came of writing it: the batches before the
    /// first that failed are published, together, and no other.
    #[verifier::rlimit(40)]
    pub fn finish_group(
        &mut self,
        batches: &Vec<Vec<BatchOp>>,
        pl: Placing,
        off: u64,
        plan: &GroupPlan,
        io: &GroupIo,
    ) -> (r: (Vec<Fate>, usize))
        requires
            old(self).inv(),
            is_plan(
                *plan,
                batches_view(batches@),
                old(self).visible as nat,
                pl,
                off as nat,
                batches@.len() as int,
            ),
        ensures
            final(self).inv(),
            r.0@.len() == plan.placed@.len(),
            forall|g: int|
                0 <= g < r.0@.len() ==> #[trigger] r.0@[g] == fate_of(
                    *io,
                    plan.placed@.len(),
                    g,
                ),
            r.1 == survivors(*io, plan.placed@.len()),
            r.1 <= plan.placed@.len(),
            final(self).visible == old(self).visible + group_entries(*plan, r.1 as int).len(),
            r.1 > 0 ==> batch_read_back(
                *old(self),
                *final(self),
                (old(self).visible + 1) as u64,
                group_entries(*plan, r.1 as int),
            ),
            r.1 == 0 ==> *final(self) == *old(self),
            final(self).mem.wal() == old(self).mem.wal(),
            final(self).mem.bytes() == bytes_after(
                old(self).mem.bytes(),
                group_entries(*plan, r.1 as int),
                group_entries(*plan, r.1 as int).len() as int,
            ),
            final(self).imms == old(self).imms,
            final(self).version == old(self).version,
            final(self).snapshots == old(self).snapshots,
            final(self).next_file_id == old(self).next_file_id,
    {
        let (fates, n) = settle(io, plan.placed.len());
        let ghost m = batches_view(batches@);
        let ghost seen = old(self).visible as nat;
        let ghost acc = admitted(m, seen, m.len() as int);
        let ghost base = (old(self).visible + 1) as u64;
        proof {
            lemma_admitted(m, seen, m.len() as int);
            assert(m.len() == batches@.len());
        }
        let mut g: usize = 0;
        while g < n
            invariant
                g <= n <= plan.placed@.len(),
                self.inv(),
                m == batches_view(batches@),
                seen == old(self).visible,
                old(self).inv(),
                base == seen + 1,
                acc == admitted(m, seen, m.len() as int),
                is_plan(*plan, m, seen, pl, off as nat, m.len() as int),
                self.visible == seen + group_entries(*plan, g as int).len(),
                g > 0 ==> acc[g - 1].1 + m[acc[g - 1].0].len() == self.visible + 1,
                g > 0 ==> batch_read_back(
                    *old(self),
                    *self,
                    base,
                    group_entries(*plan, g as int),
                ),
                g == 0 ==> *self == *old(self),
                self.mem.wal() == old(self).mem.wal(),
                self.mem.bytes() == bytes_after(
                    old(self).mem.bytes(),
                    group_entries(*plan, g as int),
                    group_entries(*plan, g as int).len() as int,
                ),
                self.imms == old(self).imms,
                self.version == old(self).version,
                self.snapshots == old(self).snapshots,
                self.next_file_id == old(self).next_file_id,
            decreases n - g,
        {
            let b = &plan.placed[g];
            let ghost es = entries_view(b.entries@);
            let ghost ops = m[acc[g as int].0];
            let ghost at = head_at(m, acc, pl, off as nat, g as int);
            let ghost before = group_entries(*plan, g as int);
            let ghost s1 = *self;
            proof {
                lemma_admitted(m, seen, m.len() as int);
                lemma_bases_contiguous(m, seen, m.len() as int, g as int);
                assert(plan.placed@[g as int].base == acc[g as int].1);
                assert(es == placed(ops, pl, at));
                assert(es.len() == b.entries@.len());
                assert forall|i: int| 0 <= i < b.entries@.len() implies (
                #[trigger] b.entries@[i]).key@.len() + b.entries@[i].repr@.len() + 128
                    <= usize::MAX && (b.entries@[i].kind is Put ==> p_repr(
                    b.entries@[i].repr@,
                ) is Some) by {
                    assert(es[i] == b.entries@[i]@);
                    assert(es[i] == placed_entry(ops[i], pl, place_end(ops, pl, at, i)));
                    lemma_placed_entry(ops, pl, at, i);
                }
            }
            self.publish(&b.entries);
            proof {
                if g == 0 {
                    assert(before + es =~= es);
                } else {
                    lemma_read_back_as_one(
                        *old(self),
                        s1,
                        *self,
                        base,
                        before,
                        es,
                    );
                }
                assert(group_entries(*plan, g + 1) == before + es);
                lemma_bytes_concat(old(self).mem.bytes(), before, es, es.len() as int);
            }
            g += 1;
        }
        (fates, n)
    }
}

} // verus!
