//! Iterator stack: cursors over sorted entries, concatenation and merge of
//! sources in internal-key order, and MVCC visibility on top.

use vstd::prelude::*;

use crate::types::ikey_lt;

verus! {

use crate::types::{
    ikey_before, ikey_upto, is_ikey, kind_byte_of, kind_of_byte, lemma_ikey_total,
    lemma_ikey_transitive,
};

/// One stored entry: an internal key and the representation of its value.
pub struct Kv {
    pub key: Seq<u8>,
    pub repr: Seq<u8>,
}

/// Entries in strictly ascending internal-key order.
pub open spec fn sorted(es: Seq<Kv>) -> bool {
    &&& forall|i: int| 0 <= i < es.len() ==> is_ikey(#[trigger] es[i].key)
    &&& forall|i: int, j: int|
        0 <= i < j < es.len() ==> ikey_before(#[trigger] es[i].key, #[trigger] es[j].key)
}

/// An entry that sorts after the last one can be appended.
pub proof fn lemma_sorted_push(es: Seq<Kv>, kv: Kv)
    requires
        sorted(es),
        is_ikey(kv.key),
        es.len() > 0 ==> ikey_before(es.last().key, kv.key),
    ensures
        sorted(es.push(kv)),
{
    let es2 = es.push(kv);
    assert forall|i: int, j: int| 0 <= i < j < es2.len() implies ikey_before(
        #[trigger] es2[i].key,
        #[trigger] es2[j].key,
    ) by {
        if j == es.len() && i < es.len() - 1 {
            assert(ikey_before(es[i].key, es[es.len() - 1].key));
            lemma_ikey_transitive(es[i].key, es.last().key, kv.key);
        }
    }
}

/// Every entry's kind byte is one of the known kinds.
pub open spec fn kinds_ok(es: Seq<Kv>) -> bool {
    forall|i: int| 0 <= i < es.len() ==> kind_of_byte(kind_byte_of(#[trigger] es[i].key)) is Some
}

/// `n` entries of `es` sort before `ikey`, and they are the first ones.
pub open spec fn is_lower_bound(es: Seq<Kv>, ikey: Seq<u8>, n: int) -> bool {
    &&& 0 <= n <= es.len()
    &&& forall|i: int| 0 <= i < n ==> ikey_before(#[trigger] es[i].key, ikey)
    &&& forall|i: int| n <= i < es.len() ==> !ikey_before(#[trigger] es[i].key, ikey)
}

/// `n` entries of `es` sort at or before `ikey`, and they are the first ones.
pub open spec fn is_upper_bound(es: Seq<Kv>, ikey: Seq<u8>, n: int) -> bool {
    &&& 0 <= n <= es.len()
    &&& forall|i: int| 0 <= i < n ==> ikey_upto(#[trigger] es[i].key, ikey)
    &&& forall|i: int| n <= i < es.len() ==> ikey_before(ikey, #[trigger] es[i].key)
}

/// Cursor over internal-key/repr entries. All sources (memtable, SST block,
/// SST table, run) speak this.
pub trait InternalIterator: Sized {
    /// The entries that the cursor moves over.
    spec fn entries(&self) -> Seq<Kv>;

    /// Where the cursor stands; outside the entries it is invalid.
    spec fn pos(&self) -> int;

    /// What every operation keeps; implies that the entries are sorted.
    spec fn inv(&self) -> bool;

    proof fn lemma_inv(&self)
        requires
            self.inv(),
        ensures
            sorted(self.entries()),
    ;

    fn seek_to_first(&mut self)
        requires
            old(self).inv(),
        ensures
            final(self).inv(),
            final(self).entries() == old(self).entries(),
            final(self).pos() == 0,
    ;

    fn seek_to_last(&mut self)
        requires
            old(self).inv(),
        ensures
            final(self).inv(),
            final(self).entries() == old(self).entries(),
            final(self).pos() == final(self).entries().len() - 1,
    ;

    /// Position at the first entry `>= ikey`.
    fn seek(&mut self, ikey: &[u8])
        requires
            old(self).inv(),
            is_ikey(ikey@),
        ensures
            final(self).inv(),
            final(self).entries() == old(self).entries(),
            is_lower_bound(final(self).entries(), ikey@, final(self).pos()),
    ;

    /// Position at the last entry `<= ikey`.
    fn seek_for_prev(&mut self, ikey: &[u8])
        requires
            old(self).inv(),
            is_ikey(ikey@),
        ensures
            final(self).inv(),
            final(self).entries() == old(self).entries(),
            is_upper_bound(final(self).entries(), ikey@, final(self).pos() + 1),
    ;

    fn valid(&self) -> (b: bool)
        requires
            self.inv(),
        ensures
            b == (0 <= self.pos() < self.entries().len()),
    ;

    fn next(&mut self)
        requires
            old(self).inv(),
            0 <= old(self).pos() < old(self).entries().len(),
        ensures
            final(self).inv(),
            final(self).entries() == old(self).entries(),
            final(self).pos() == old(self).pos() + 1,
    ;

    fn prev(&mut self)
        requires
            old(self).inv(),
            0 <= old(self).pos() < old(self).entries().len(),
        ensures
            final(self).inv(),
            final(self).entries() == old(self).entries(),
            final(self).pos() == old(self).pos() - 1,
    ;

    fn ikey(&self) -> (k: &[u8])
        requires
            self.inv(),
            0 <= self.pos() < self.entries().len(),
        ensures
            k@ == self.entries()[self.pos()].key,
    ;

    fn value(&self) -> (v: &[u8])
        requires
            self.inv(),
            0 <= self.pos() < self.entries().len(),
        ensures
            v@ == self.entries()[self.pos()].repr,
    ;
}

// ---------------------------------------------------------------------------
// Merge
// ---------------------------------------------------------------------------

/// `a` comes strictly before `b` in the direction of travel.
pub open spec fn dir_before(a: Seq<u8>, b: Seq<u8>, reverse: bool) -> bool {
    if reverse {
        ikey_before(b, a)
    } else {
        ikey_before(a, b)
    }
}

/// Entries in strict order along the direction of travel.
pub open spec fn dir_sorted(es: Seq<Kv>, reverse: bool) -> bool {
    &&& forall|i: int| 0 <= i < es.len() ==> is_ikey(#[trigger] es[i].key)
    &&& forall|i: int, j: int|
        0 <= i < j < es.len() ==> dir_before(#[trigger] es[i].key, #[trigger] es[j].key, reverse)
}

/// What a cursor still has to give in the direction of travel, the entry it
/// stands on first.
pub open spec fn ahead(es: Seq<Kv>, pos: int, reverse: bool) -> Seq<Kv> {
    if reverse {
        es.take(pos + 1).reverse()
    } else {
        es.skip(pos)
    }
}

/// Which of the first `n` sources has the entry that comes first; of equal
/// ones the first.
pub open spec fn best_of(rs: Seq<Seq<Kv>>, n: nat, reverse: bool) -> Option<int>
    decreases n,
{
    if n == 0 {
        None
    } else {
        let b = best_of(rs, (n - 1) as nat, reverse);
        if rs[n - 1].len() == 0 {
            b
        } else {
            match b {
                None => Some(n - 1),
                Some(i) => if dir_before(rs[n - 1][0].key, rs[i][0].key, reverse) {
                    Some(n - 1)
                } else {
                    Some(i)
                },
            }
        }
    }
}

pub open spec fn total_len(rs: Seq<Seq<Kv>>) -> nat
    decreases rs.len(),
{
    if rs.len() == 0 {
        0
    } else {
        total_len(rs.drop_last()) + rs.last().len()
    }
}

/// The sources without the entry at the head of the `i`-th.
pub open spec fn advance(rs: Seq<Seq<Kv>>, i: int) -> Seq<Seq<Kv>> {
    rs.update(i, rs[i].skip(1))
}

/// The merge of the sources: repeatedly the entry that comes first.
pub open spec fn merged(rs: Seq<Seq<Kv>>, reverse: bool) -> Seq<Kv>
    decreases total_len(rs),
    via merged_terminates
{
    match best_of(rs, rs.len(), reverse) {
        None => Seq::empty(),
        Some(i) => seq![rs[i][0]] + merged(advance(rs, i), reverse),
    }
}

proof fn lemma_best_of(rs: Seq<Seq<Kv>>, n: nat, reverse: bool)
    requires
        n <= rs.len(),
    ensures
        best_of(rs, n, reverse) matches Some(i) ==> 0 <= i < n && rs[i].len() > 0,
        best_of(rs, n, reverse) is None <==> forall|k: int| 0 <= k < n ==> (#[trigger] rs[k]).len() == 0,
    decreases n,
{
    if n > 0 {
        lemma_best_of(rs, (n - 1) as nat, reverse);
    }
}

proof fn lemma_advance_len(rs: Seq<Seq<Kv>>, i: int)
    requires
        0 <= i < rs.len(),
        rs[i].len() > 0,
    ensures
        total_len(advance(rs, i)) == total_len(rs) - 1,
    decreases rs.len(),
{
    let a = advance(rs, i);
    if i == rs.len() - 1 {
        assert(a.drop_last() =~= rs.drop_last());
    } else {
        lemma_advance_len(rs.drop_last(), i);
        assert(a.drop_last() =~= advance(rs.drop_last(), i));
    }
}

#[via_fn]
proof fn merged_terminates(rs: Seq<Seq<Kv>>, reverse: bool) {
    lemma_best_of(rs, rs.len(), reverse);
    if let Some(i) = best_of(rs, rs.len(), reverse) {
        lemma_advance_len(rs, i);
    }
}

/// Sources that are each in order and share no key.
pub open spec fn mergeable(rs: Seq<Seq<Kv>>, reverse: bool) -> bool {
    &&& forall|k: int| 0 <= k < rs.len() ==> dir_sorted(#[trigger] rs[k], reverse)
    &&& forall|k: int, l: int, i: int, j: int|
        0 <= k < rs.len() && 0 <= l < rs.len() && k != l && 0 <= i < rs[k].len() && 0 <= j
            < rs[l].len() ==> (#[trigger] rs[k][i]).key != (#[trigger] rs[l][j]).key
}

/// `kv` is an entry of one of the sources.
pub open spec fn in_some(rs: Seq<Seq<Kv>>, kv: Kv) -> bool {
    exists|k: int, i: int| 0 <= k < rs.len() && 0 <= i < rs[k].len() && #[trigger] rs[k][i] == kv
}

proof fn lemma_best_is_first(rs: Seq<Seq<Kv>>, n: nat, reverse: bool, k: int)
    requires
        n <= rs.len(),
        mergeable(rs, reverse),
        0 <= k < n,
        rs[k].len() > 0,
    ensures
        best_of(rs, n, reverse) matches Some(b) && (b == k || dir_before(
            rs[b][0].key,
            rs[k][0].key,
            reverse,
        )),
    decreases n,
{
    lemma_best_of(rs, n, reverse);
    lemma_best_of(rs, (n - 1) as nat, reverse);
    let prev = best_of(rs, (n - 1) as nat, reverse);
    let b = best_of(rs, n, reverse)->Some_0;
    if k < n - 1 {
        lemma_best_is_first(rs, (n - 1) as nat, reverse, k);
        let p = prev->Some_0;
        if b != p {
            assert(b == n - 1);
            if p != k {
                if reverse {
                    lemma_ikey_transitive(rs[k][0].key, rs[p][0].key, rs[b][0].key);
                } else {
                    lemma_ikey_transitive(rs[b][0].key, rs[p][0].key, rs[k][0].key);
                }
            }
        }
    } else {
        if b != k {
            assert(prev == Some(b));
            assert(rs[b][0].key != rs[k][0].key);
            assert(dir_sorted(rs[b], reverse));
            assert(dir_sorted(rs[k], reverse));
            lemma_ikey_total(rs[b][0].key, rs[k][0].key);
        }
    }
}

proof fn lemma_advance_mergeable(rs: Seq<Seq<Kv>>, i: int, reverse: bool)
    requires
        mergeable(rs, reverse),
        0 <= i < rs.len(),
        rs[i].len() > 0,
    ensures
        mergeable(advance(rs, i), reverse),
{
    let a = advance(rs, i);
    assert forall|k: int| 0 <= k < a.len() implies dir_sorted(#[trigger] a[k], reverse) by {
        assert(dir_sorted(rs[k], reverse));
        if k == i {
            assert forall|x: int| 0 <= x < a[k].len() implies is_ikey(#[trigger] a[k][x].key) by {
                assert(a[k][x] == rs[k][x + 1]);
            }
            assert forall|x: int, y: int| 0 <= x < y < a[k].len() implies dir_before(
                #[trigger] a[k][x].key,
                #[trigger] a[k][y].key,
                reverse,
            ) by {
                assert(a[k][x] == rs[k][x + 1]);
                assert(a[k][y] == rs[k][y + 1]);
            }
        }
    }
    assert forall|k: int, l: int, x: int, y: int|
        0 <= k < a.len() && 0 <= l < a.len() && k != l && 0 <= x < a[k].len() && 0 <= y
            < a[l].len() implies (#[trigger] a[k][x]).key != (#[trigger] a[l][y]).key by {
        let x2 = if k == i { x + 1 } else { x };
        let y2 = if l == i { y + 1 } else { y };
        assert(a[k][x] == rs[k][x2]);
        assert(a[l][y] == rs[l][y2]);
    }
}

/// The merge is in order and holds exactly the entries of its sources.
pub proof fn lemma_merged(rs: Seq<Seq<Kv>>, reverse: bool)
    requires
        mergeable(rs, reverse),
    ensures
        dir_sorted(merged(rs, reverse), reverse),
        forall|kv: Kv| merged(rs, reverse).contains(kv) <==> in_some(rs, kv),
    decreases total_len(rs),
{
    lemma_best_of(rs, rs.len(), reverse);
    let m = merged(rs, reverse);
    match best_of(rs, rs.len(), reverse) {
        None => {
            assert(forall|kv: Kv| !m.contains(kv));
        },
        Some(b) => {
            let a = advance(rs, b);
            let tail = merged(a, reverse);
            lemma_advance_len(rs, b);
            lemma_advance_mergeable(rs, b, reverse);
            lemma_merged(a, reverse);
            let first = rs[b][0];
            assert(dir_sorted(rs[b], reverse));
            assert(m == seq![first] + tail);
            assert forall|kv: Kv| in_some(a, kv) implies dir_before(first.key, kv.key, reverse)
                && in_some(rs, kv) by {
                let (k, x) = choose|k: int, x: int|
                    0 <= k < a.len() && 0 <= x < a[k].len() && #[trigger] a[k][x] == kv;
                if k == b {
                    assert(kv == rs[b][x + 1]);
                    assert(dir_before(rs[b][0].key, rs[b][x + 1].key, reverse));
                } else {
                    assert(kv == rs[k][x]);
                    lemma_best_is_first(rs, rs.len(), reverse, k);
                    assert(dir_sorted(rs[k], reverse));
                    if x > 0 {
                        assert(dir_before(rs[k][0].key, rs[k][x].key, reverse));
                        if reverse {
                            lemma_ikey_transitive(rs[k][x].key, rs[k][0].key, first.key);
                        } else {
                            lemma_ikey_transitive(first.key, rs[k][0].key, rs[k][x].key);
                        }
                    }
                }
            }
            assert forall|i: int| 0 <= i < m.len() implies is_ikey(#[trigger] m[i].key) by {
                if i > 0 {
                    assert(m[i] == tail[i - 1]);
                }
            }
            assert forall|i: int, j: int| 0 <= i < j < m.len() implies dir_before(
                #[trigger] m[i].key,
                #[trigger] m[j].key,
                reverse,
            ) by {
                assert(m[j] == tail[j - 1]);
                if i == 0 {
                    assert(m[i] == first);
                    assert(tail.contains(m[j]));
                    assert(in_some(a, m[j]));
                } else {
                    assert(m[i] == tail[i - 1]);
                    assert(dir_before(tail[i - 1].key, tail[j - 1].key, reverse));
                }
            }
            assert forall|kv: Kv| m.contains(kv) <==> in_some(rs, kv) by {
                if m.contains(kv) {
                    let i = choose|i: int| 0 <= i < m.len() && m[i] == kv;
                    if i == 0 {
                        assert(rs[b][0] == kv);
                    } else {
                        assert(tail[i - 1] == kv);
                        assert(tail.contains(kv));
                    }
                }
                if in_some(rs, kv) {
                    let (k, x) = choose|k: int, x: int|
                        0 <= k < rs.len() && 0 <= x < rs[k].len() && #[trigger] rs[k][x] == kv;
                    if k == b && x == 0 {
                        assert(m[0] == kv);
                    } else {
                        if k == b {
                            assert(a[k][x - 1] == kv);
                        } else {
                            assert(a[k][x] == kv);
                        }
                        assert(in_some(a, kv));
                        assert(tail.contains(kv));
                        let y = choose|y: int| 0 <= y < tail.len() && tail[y] == kv;
                        assert(m[y + 1] == kv);
                    }
                }
            }
        },
    }
}

/// What each source still has to give.
pub open spec fn aheads<I: InternalIterator>(cs: Seq<I>, reverse: bool) -> Seq<Seq<Kv>> {
    cs.map_values(|c: I| ahead(c.entries(), c.pos(), reverse))
}

/// Every source keeps its own invariant and stands within reach of its entries.
pub open spec fn all_inv<I: InternalIterator>(cs: Seq<I>, reverse: bool) -> bool {
    forall|k: int|
        0 <= k < cs.len() ==> (#[trigger] cs[k]).inv() && -1 <= cs[k].pos() <= cs[k].entries().len()
            && (if reverse {
            cs[k].pos() < cs[k].entries().len()
        } else {
            cs[k].pos() >= 0
        })
}

/// K-way merge by linear scan over children: K is small (memtables + runs). A
/// given instance is used in one direction only.
pub struct MergeIterator<I> {
    pub children: Vec<I>,
    pub cur: Option<usize>,
    pub reverse: bool,
}

impl<I: InternalIterator> MergeIterator<I> {
    /// The children are sound, and the current one is the one that comes first.
    pub open spec fn inv(self) -> bool {
        &&& all_inv(self.children@, self.reverse)
        &&& self.cur == (match best_of(
            aheads(self.children@, self.reverse),
            self.children@.len(),
            self.reverse,
        ) {
            Some(i) => Some(i as usize),
            None => None::<usize>,
        })
    }

    /// What the merge still has to give.
    pub open spec fn rest(self) -> Seq<Kv> {
        merged(aheads(self.children@, self.reverse), self.reverse)
    }

    /// The entries of each child.
    pub open spec fn sources(self) -> Seq<Seq<Kv>> {
        self.children@.map_values(|c: I| c.entries())
    }

    pub fn new(children: Vec<I>, reverse: bool) -> (m: Self)
        ensures
            m.children == children,
            m.reverse == reverse,
            m.cur is None,
    {
        MergeIterator { children, cur: None, reverse }
    }

    fn pick(&mut self)
        requires
            all_inv(old(self).children@, old(self).reverse),
        ensures
            final(self).inv(),
            final(self).children == old(self).children,
            final(self).reverse == old(self).reverse,
    {
        let mut best: Option<usize> = None;
        let ghost rs = aheads(self.children@, self.reverse);
        let ghost rev = self.reverse;
        let mut i: usize = 0;
        while i < self.children.len()
            invariant
                i <= self.children@.len(),
                all_inv(self.children@, self.reverse),
                rs == aheads(self.children@, self.reverse),
                rev == self.reverse,
                self.children == old(self).children,
                self.reverse == old(self).reverse,
                best == (match best_of(rs, i as nat, rev) {
                    Some(b) => Some(b as usize),
                    None => None::<usize>,
                }),
            decreases self.children@.len() - i,
        {
            proof {
                lemma_best_of(rs, i as nat, rev);
                lemma_best_of(rs, (i + 1) as nat, rev);
                self.children@[i as int].lemma_inv();
                assert(rs[i as int] == ahead(
                    self.children@[i as int].entries(),
                    self.children@[i as int].pos(),
                    rev,
                ));
            }
            if self.children[i].valid() {
                best = match best {
                    None => Some(i),
                    Some(b) => {
                        proof {
                            self.children@[b as int].lemma_inv();
                            assert(rs[b as int] == ahead(
                                self.children@[b as int].entries(),
                                self.children@[b as int].pos(),
                                rev,
                            ));
                        }
                        let better: bool = if self.reverse {
                            ikey_lt(self.children[b].ikey(), self.children[i].ikey())
                        } else {
                            ikey_lt(self.children[i].ikey(), self.children[b].ikey())
                        };
                        if better {
                            Some(i)
                        } else {
                            Some(b)
                        }
                    },
                };
            }
            i += 1;
        }
        self.cur = best;
    }

    /// Every child at its first entry.
    pub fn seek_to_first(&mut self)
        requires
            !old(self).reverse,
            forall|k: int| 0 <= k < old(self).children@.len() ==> (#[trigger] old(self).children@[k]).inv(),
        ensures
            final(self).inv(),
            !final(self).reverse,
            final(self).sources() == old(self).sources(),
            aheads(final(self).children@, false) == old(self).sources(),
    {
        let mut i: usize = 0;
        while i < self.children.len()
            invariant
                i <= self.children@.len(),
                self.children@.len() == old(self).children@.len(),
                !self.reverse,
                forall|k: int| 0 <= k < self.children@.len() ==> (#[trigger] self.children@[k]).inv(),
                forall|k: int|
                    0 <= k < self.children@.len() ==> (#[trigger] self.children@[k]).entries() == old(
                        self,
                    ).children@[k].entries(),
                forall|k: int| 0 <= k < i ==> (#[trigger] self.children@[k]).pos() == 0,
            decreases self.children@.len() - i,
        {
            self.children[i].seek_to_first();
            i += 1;
        }
        proof {
            let cs = self.children@;
            assert(self.sources() =~= old(self).sources());
            assert forall|k: int| 0 <= k < cs.len() implies aheads(cs, false)[k] == old(
                self,
            ).sources()[k] by {
                assert(cs[k].entries().skip(0) =~= cs[k].entries());
            }
            assert(aheads(cs, false) =~= old(self).sources());
        }
        self.pick();
    }

    /// Every child at its last entry.
    pub fn seek_to_last(&mut self)
        requires
            old(self).reverse,
            forall|k: int| 0 <= k < old(self).children@.len() ==> (#[trigger] old(self).children@[k]).inv(),
        ensures
            final(self).inv(),
            final(self).reverse,
            final(self).sources() == old(self).sources(),
            aheads(final(self).children@, true) == old(self).sources().map_values(
                |es: Seq<Kv>| es.reverse(),
            ),
    {
        let mut i: usize = 0;
        while i < self.children.len()
            invariant
                i <= self.children@.len(),
                self.children@.len() == old(self).children@.len(),
                self.reverse,
                forall|k: int| 0 <= k < self.children@.len() ==> (#[trigger] self.children@[k]).inv(),
                forall|k: int|
                    0 <= k < self.children@.len() ==> (#[trigger] self.children@[k]).entries() == old(
                        self,
                    ).children@[k].entries(),
                forall|k: int|
                    0 <= k < i ==> (#[trigger] self.children@[k]).pos()
                        == self.children@[k].entries().len() - 1,
            decreases self.children@.len() - i,
        {
            self.children[i].seek_to_last();
            i += 1;
        }
        proof {
            let cs = self.children@;
            let want = old(self).sources().map_values(|es: Seq<Kv>| es.reverse());
            assert(self.sources() =~= old(self).sources());
            assert forall|k: int| 0 <= k < cs.len() implies aheads(cs, true)[k] == want[k] by {
                let es = cs[k].entries();
                assert(es.take(es.len() as int) =~= es);
            }
            assert(aheads(cs, true) =~= want);
        }
        self.pick();
    }

    /// Every child at its first entry `>= ikey`.
    pub fn seek(&mut self, ikey: &[u8])
        requires
            !old(self).reverse,
            is_ikey(ikey@),
            forall|k: int| 0 <= k < old(self).children@.len() ==> (#[trigger] old(self).children@[k]).inv(),
        ensures
            final(self).inv(),
            !final(self).reverse,
            final(self).sources() == old(self).sources(),
            forall|k: int|
                0 <= k < final(self).children@.len() ==> is_lower_bound(
                    (#[trigger] final(self).children@[k]).entries(),
                    ikey@,
                    final(self).children@[k].pos(),
                ),
    {
        let mut i: usize = 0;
        while i < self.children.len()
            invariant
                i <= self.children@.len(),
                self.children@.len() == old(self).children@.len(),
                !self.reverse,
                is_ikey(ikey@),
                forall|k: int| 0 <= k < self.children@.len() ==> (#[trigger] self.children@[k]).inv(),
                forall|k: int|
                    0 <= k < self.children@.len() ==> (#[trigger] self.children@[k]).entries() == old(
                        self,
                    ).children@[k].entries(),
                forall|k: int|
                    0 <= k < i ==> is_lower_bound(
                        (#[trigger] self.children@[k]).entries(),
                        ikey@,
                        self.children@[k].pos(),
                    ),
            decreases self.children@.len() - i,
        {
            self.children[i].seek(ikey);
            i += 1;
        }
        assert(self.sources() =~= old(self).sources());
        self.pick();
    }

    /// Every child at its last entry `<= ikey`.
    pub fn seek_for_prev(&mut self, ikey: &[u8])
        requires
            old(self).reverse,
            is_ikey(ikey@),
            forall|k: int| 0 <= k < old(self).children@.len() ==> (#[trigger] old(self).children@[k]).inv(),
        ensures
            final(self).inv(),
            final(self).reverse,
            final(self).sources() == old(self).sources(),
            forall|k: int|
                0 <= k < final(self).children@.len() ==> is_upper_bound(
                    (#[trigger] final(self).children@[k]).entries(),
                    ikey@,
                    final(self).children@[k].pos() + 1,
                ),
    {
        let mut i: usize = 0;
        while i < self.children.len()
            invariant
                i <= self.children@.len(),
                self.children@.len() == old(self).children@.len(),
                self.reverse,
                is_ikey(ikey@),
                forall|k: int| 0 <= k < self.children@.len() ==> (#[trigger] self.children@[k]).inv(),
                forall|k: int|
                    0 <= k < self.children@.len() ==> (#[trigger] self.children@[k]).entries() == old(
                        self,
                    ).children@[k].entries(),
                forall|k: int|
                    0 <= k < i ==> is_upper_bound(
                        (#[trigger] self.children@[k]).entries(),
                        ikey@,
                        self.children@[k].pos() + 1,
                    ),
            decreases self.children@.len() - i,
        {
            self.children[i].seek_for_prev(ikey);
            i += 1;
        }
        assert(self.sources() =~= old(self).sources());
        self.pick();
    }

    /// Whether anything is left.
    pub fn valid(&self) -> (b: bool)
        requires
            self.inv(),
        ensures
            b == (self.rest().len() > 0),
    {
        proof {
            lemma_best_of(
                aheads(self.children@, self.reverse),
                self.children@.len(),
                self.reverse,
            );
        }
        self.cur.is_some()
    }

    proof fn lemma_current(self)
        requires
            self.inv(),
            self.rest().len() > 0,
        ensures
            self.cur matches Some(i) && i < self.children@.len() && 0 <= self.children@[i as int].pos()
                < self.children@[i as int].entries().len() && self.rest()[0]
                == self.children@[i as int].entries()[self.children@[i as int].pos()]
                && self.rest().skip(1) == merged(
                advance(aheads(self.children@, self.reverse), i as int),
                self.reverse,
            ),
    {
        let rs = aheads(self.children@, self.reverse);
        lemma_best_of(rs, rs.len(), self.reverse);
        assert(self.children.len() == rs.len());
        let i = self.cur->Some_0 as int;
        let c = self.children@[i];
        assert(rs[i] == ahead(c.entries(), c.pos(), self.reverse));
        assert(self.rest().skip(1) =~= merged(advance(rs, i), self.reverse));
    }

    /// Step the current child in the direction of travel.
    pub fn advance(&mut self)
        requires
            old(self).inv(),
            old(self).rest().len() > 0,
        ensures
            final(self).inv(),
            final(self).reverse == old(self).reverse,
            final(self).sources() == old(self).sources(),
            final(self).rest() == old(self).rest().skip(1),
    {
        proof {
            self.lemma_current();
        }
        let ghost before = self.children@;
        let i: usize = match self.cur {
            Some(i) => i,
            None => 0,
        };
        if self.reverse {
            self.children[i].prev();
        } else {
            self.children[i].next();
        }
        proof {
            let cs = self.children@;
            let rev = self.reverse;
            assert(cs =~= before.update(i as int, cs[i as int]));
            let es = cs[i as int].entries();
            let p = before[i as int].pos();
            if rev {
                assert(es.take(p).reverse() =~= es.take(p + 1).reverse().skip(1));
            } else {
                assert(es.skip(p + 1) =~= es.skip(p).skip(1));
            }
            assert(aheads(cs, rev) =~= advance(aheads(before, rev), i as int));
            assert(self.sources() =~= old(self).sources());
        }
        self.pick();
    }

    /// Step forward.
    pub fn next(&mut self)
        requires
            old(self).inv(),
            !old(self).reverse,
            old(self).rest().len() > 0,
        ensures
            final(self).inv(),
            !final(self).reverse,
            final(self).sources() == old(self).sources(),
            final(self).rest() == old(self).rest().skip(1),
    {
        self.advance();
    }

    /// Step backward.
    pub fn prev(&mut self)
        requires
            old(self).inv(),
            old(self).reverse,
            old(self).rest().len() > 0,
        ensures
            final(self).inv(),
            final(self).reverse,
            final(self).sources() == old(self).sources(),
            final(self).rest() == old(self).rest().skip(1),
    {
        self.advance();
    }

    pub fn ikey(&self) -> (k: &[u8])
        requires
            self.inv(),
            self.rest().len() > 0,
        ensures
            k@ == self.rest()[0].key,
    {
        proof {
            self.lemma_current();
        }
        let i: usize = match self.cur {
            Some(i) => i,
            None => 0,
        };
        self.children[i].ikey()
    }

    pub fn value(&self) -> (v: &[u8])
        requires
            self.inv(),
            self.rest().len() > 0,
        ensures
            v@ == self.rest()[0].repr,
    {
        proof {
            self.lemma_current();
        }
        let i: usize = match self.cur {
            Some(i) => i,
            None => 0,
        };
        self.children[i].value()
    }
}

// ---------------------------------------------------------------------------
// Concatenation
// ---------------------------------------------------------------------------

/// The entries of key-ordered pieces, one piece after the other.
pub open spec fn flat(parts: Seq<Seq<Kv>>) -> Seq<Kv>
    decreases parts.len(),
{
    if parts.len() == 0 {
        Seq::empty()
    } else {
        flat(parts.drop_last()) + parts.last()
    }
}

/// How many entries stand before piece `k`.
pub open spec fn part_start(parts: Seq<Seq<Kv>>, k: int) -> int {
    flat(parts.take(k)).len() as int
}

/// Entry `i` of piece `k` stands `i` after the piece's start, and a piece
/// begins where the one before it ends.
pub proof fn lemma_flat_at(parts: Seq<Seq<Kv>>, k: int)
    requires
        0 <= k < parts.len(),
    ensures
        part_start(parts, k) + parts[k].len() == part_start(parts, k + 1),
        part_start(parts, k + 1) <= flat(parts).len(),
        k + 1 == parts.len() ==> part_start(parts, k + 1) == flat(parts).len(),
        part_start(parts, 0) == 0,
        forall|i: int|
            0 <= i < parts[k].len() ==> flat(parts)[part_start(parts, k) + i] == #[trigger] parts[k][i],
    decreases parts.len(),
{
    let init = parts.drop_last();
    assert(parts.take(k + 1).drop_last() =~= parts.take(k));
    assert(parts.take(0) =~= Seq::<Seq<Kv>>::empty());
    if k == parts.len() - 1 {
        assert(parts.take(k) =~= init);
        assert(parts.take(k + 1) =~= parts);
    } else {
        lemma_flat_at(init, k);
        assert(init.take(k) =~= parts.take(k));
        assert(init.take(k + 1) =~= parts.take(k + 1));
    }
}

pub proof fn lemma_part_start_monotone(parts: Seq<Seq<Kv>>, k: int, l: int)
    requires
        0 <= k <= l <= parts.len(),
    ensures
        part_start(parts, k) <= part_start(parts, l),
        part_start(parts, l) <= flat(parts).len(),
    decreases l - k,
{
    if k < l {
        lemma_flat_at(parts, l - 1);
        lemma_part_start_monotone(parts, k, l - 1);
    } else if l > 0 {
        lemma_flat_at(parts, l - 1);
    } else {
        assert(parts.take(0) =~= Seq::<Seq<Kv>>::empty());
    }
}

/// Every entry stands in some piece.
pub proof fn lemma_flat_find(parts: Seq<Seq<Kv>>, x: int) -> (k: int)
    requires
        0 <= x < flat(parts).len(),
    ensures
        0 <= k < parts.len(),
        part_start(parts, k) <= x < part_start(parts, k + 1),
        flat(parts)[x] == parts[k][x - part_start(parts, k)],
    decreases parts.len(),
{
    let init = parts.drop_last();
    let n = parts.len() as int;
    lemma_flat_at(parts, n - 1);
    assert(parts.take(n - 1) =~= init);
    if x < flat(init).len() {
        let k = lemma_flat_find(init, x);
        lemma_flat_at(parts, k);
        assert(init.take(k) =~= parts.take(k));
        assert(init.take(k + 1) =~= parts.take(k + 1));
        k
    } else {
        assert(parts.take(n) =~= parts);
        n - 1
    }
}

/// The last keys of the pieces ascend.
pub proof fn lemma_part_lasts_ascend(parts: Seq<Seq<Kv>>, i: int, j: int)
    requires
        sorted(flat(parts)),
        0 <= i < j < parts.len(),
        parts[i].len() > 0,
        parts[j].len() > 0,
    ensures
        ikey_before(parts[i].last().key, parts[j].last().key),
{
    lemma_flat_at(parts, i);
    lemma_flat_at(parts, j);
    lemma_part_start_monotone(parts, i + 1, j);
    let x = part_start(parts, i) + parts[i].len() - 1;
    let y = part_start(parts, j) + parts[j].len() - 1;
    assert(flat(parts)[x] == parts[i][parts[i].len() - 1]);
    assert(flat(parts)[y] == parts[j][parts[j].len() - 1]);
    assert(ikey_before(flat(parts)[x].key, flat(parts)[y].key));
}

pub open spec fn parts_of<I: InternalIterator>(cs: Seq<I>) -> Seq<Seq<Kv>> {
    cs.map_values(|c: I| c.entries())
}

/// Cursor over pieces that follow one another in key order: the blocks of a
/// table, or the tables of a run. A piece is found by its last key.
pub struct ConcatIter<I> {
    children: Vec<I>,
    lasts: Vec<Vec<u8>>,
    idx: usize,
}

impl<I: InternalIterator> ConcatIter<I> {
    pub closed spec fn parts(self) -> Seq<Seq<Kv>> {
        parts_of(self.children@)
    }

    spec fn shape(self) -> bool {
        let parts = parts_of(self.children@);
        &&& forall|k: int| 0 <= k < self.children@.len() ==> (#[trigger] self.children@[k]).inv()
        &&& forall|k: int| 0 <= k < parts.len() ==> (#[trigger] parts[k]).len() > 0
        &&& sorted(flat(parts))
        &&& self.lasts@.len() == parts.len()
        &&& forall|k: int|
            0 <= k < parts.len() ==> (#[trigger] self.lasts@[k])@ == parts[k].last().key
    }

    spec fn placed(self) -> bool {
        if self.children@.len() == 0 {
            self.idx <= 1
        } else {
            let c = self.children@[self.idx as int];
            &&& self.idx < self.children@.len()
            &&& -1 <= c.pos() <= c.entries().len()
            &&& c.pos() == -1 ==> self.idx == 0
            &&& c.pos() == c.entries().len() ==> self.idx == self.children@.len() - 1
        }
    }

    /// A cursor over non-empty pieces, given with their last keys.
    pub fn new(children: Vec<I>, lasts: Vec<Vec<u8>>) -> (it: Self)
        requires
            forall|k: int| 0 <= k < children@.len() ==> (#[trigger] children@[k]).inv(),
            forall|k: int|
                0 <= k < children@.len() ==> (#[trigger] children@[k]).entries().len() > 0
                    && children@[k].pos() == -1,
            sorted(flat(parts_of(children@))),
            lasts@.len() == children@.len(),
            forall|k: int|
                0 <= k < children@.len() ==> (#[trigger] lasts@[k])@
                    == children@[k].entries().last().key,
        ensures
            it.inv(),
            it.entries() == flat(parts_of(children@)),
            it.pos() == -1,
    {
        let it = ConcatIter { children, lasts, idx: 0 };
        proof {
            assert(parts_of(children@).take(0) =~= Seq::<Seq<Kv>>::empty());
            assert forall|k: int| 0 <= k < parts_of(children@).len() implies (
            #[trigger] parts_of(children@)[k]).len() > 0 by {
                assert(children@[k].entries().len() > 0);
            }
        }
        it
    }

    /// The first piece whose last key is `>= ikey`.
    fn part_for(&self, ikey: &[u8]) -> (n: usize)
        requires
            self.shape(),
            is_ikey(ikey@),
        ensures
            n <= self.children@.len(),
            forall|k: int| 0 <= k < n ==> ikey_before((#[trigger] self.lasts@[k])@, ikey@),
            n < self.children@.len() ==> !ikey_before(self.lasts@[n as int]@, ikey@),
    {
        let mut n: usize = 0;
        while n < self.lasts.len()
            invariant
                self.shape(),
                is_ikey(ikey@),
                n <= self.children@.len(),
                forall|k: int| 0 <= k < n ==> ikey_before((#[trigger] self.lasts@[k])@, ikey@),
            decreases self.lasts@.len() - n,
        {
            proof {
                let parts = parts_of(self.children@);
                assert(parts[n as int].len() > 0);
                self.children@[n as int].lemma_inv();
            }
            if !ikey_lt(self.lasts[n].as_slice(), ikey) {
                return n;
            }
            n += 1;
        }
        n
    }

    /// Entries of the pieces before piece `n` sort before `ikey` where the
    /// last key of the last of them does.
    proof fn lemma_before_part(self, ikey: Seq<u8>, n: int, x: int)
        requires
            self.shape(),
            0 <= n <= self.children@.len(),
            forall|k: int| 0 <= k < n ==> ikey_before((#[trigger] self.lasts@[k])@, ikey),
            0 <= x < part_start(parts_of(self.children@), n),
        ensures
            ikey_before(flat(parts_of(self.children@))[x].key, ikey),
    {
        let parts = parts_of(self.children@);
        let es = flat(parts);
        lemma_part_start_monotone(parts, n, n);
        let k = lemma_flat_find(parts, x);
        if k >= n {
            lemma_part_start_monotone(parts, n, k);
        }
        lemma_flat_at(parts, k);
        let last = part_start(parts, k) + parts[k].len() - 1;
        assert(es[last] == parts[k][parts[k].len() - 1]);
        assert(ikey_before(self.lasts@[k]@, ikey));
        if x < last {
            assert(ikey_before(es[x].key, es[last].key));
            lemma_ikey_transitive(es[x].key, es[last].key, ikey);
        }
    }

    /// Entries after entry `y` sort after `ikey` where it does.
    proof fn lemma_after(self, ikey: Seq<u8>, y: int, x: int)
        requires
            self.shape(),
            0 <= y <= x < flat(parts_of(self.children@)).len(),
            ikey_before(ikey, flat(parts_of(self.children@))[y].key),
        ensures
            ikey_before(ikey, flat(parts_of(self.children@))[x].key),
    {
        let es = flat(parts_of(self.children@));
        if y < x {
            assert(ikey_before(es[y].key, es[x].key));
            lemma_ikey_transitive(ikey, es[y].key, es[x].key);
        }
    }
}

impl<I: InternalIterator> InternalIterator for ConcatIter<I> {
    closed spec fn entries(&self) -> Seq<Kv> {
        flat(parts_of(self.children@))
    }

    closed spec fn pos(&self) -> int {
        if self.children@.len() == 0 {
            self.idx - 1
        } else {
            part_start(parts_of(self.children@), self.idx as int)
                + self.children@[self.idx as int].pos()
        }
    }

    closed spec fn inv(&self) -> bool {
        self.shape() && self.placed()
    }

    proof fn lemma_inv(&self) {
    }

    fn seek_to_first(&mut self) {
        if self.children.len() == 0 {
            self.idx = 1;
            return ;
        }
        let ghost before = self.children@;
        self.idx = 0;
        self.children[0].seek_to_first();
        proof {
            assert(parts_of(self.children@) =~= parts_of(before));
            lemma_flat_at(parts_of(before), 0);
            assert(parts_of(before)[0].len() > 0);
        }
    }

    fn seek_to_last(&mut self) {
        if self.children.len() == 0 {
            self.idx = 0;
            return ;
        }
        let ghost before = self.children@;
        let last: usize = self.children.len() - 1;
        self.idx = last;
        self.children[last].seek_to_last();
        proof {
            assert(parts_of(self.children@) =~= parts_of(before));
            lemma_flat_at(parts_of(before), last as int);
            assert(parts_of(before)[last as int].len() > 0);
        }
    }

    fn seek(&mut self, ikey: &[u8]) {
        if self.children.len() == 0 {
            self.idx = 1;
            return ;
        }
        let ghost before = self.children@;
        let ghost parts = parts_of(self.children@);
        let ghost es = flat(parts);
        let n: usize = self.part_for(ikey);
        let i: usize = if n < self.children.len() { n } else { self.children.len() - 1 };
        let ghost i0 = i as int;
        let ghost me = *self;
        proof {
            lemma_flat_at(parts, i0);
            assert(parts[i0].len() > 0);
            before[i0].lemma_inv();
        }
        self.idx = i;
        self.children[i].seek(ikey);
        proof {
            assert(parts_of(self.children@) =~= parts);
            let c = self.children@[i0];
            let q = c.pos();
            let start = part_start(parts, i0);
            assert(c.entries() == parts[i0]);
            let last = parts[i0].len() - 1;
            assert(self.lasts@[i0]@ == parts[i0].last().key);
            if n < self.children@.len() {
                assert(q <= last) by {
                    if q > last {
                        assert(ikey_before(c.entries()[last].key, ikey@));
                    }
                }
            } else {
                assert(ikey_before(self.lasts@[i0]@, ikey@));
                assert(q == parts[i0].len()) by {
                    if q <= last {
                        assert(!ikey_before(c.entries()[q].key, ikey@));
                        if q < last {
                            assert(ikey_before(es[start + q].key, es[start + last].key));
                            assert(es[start + q] == parts[i0][q]);
                            assert(es[start + last] == parts[i0][last]);
                            lemma_ikey_transitive(
                                es[start + q].key,
                                es[start + last].key,
                                ikey@,
                            );
                        }
                    }
                }
            }
            assert forall|x: int| 0 <= x < start + q implies ikey_before(
                #[trigger] es[x].key,
                ikey@,
            ) by {
                if x < start {
                    me.lemma_before_part(ikey@, i0, x);
                } else {
                    assert(es[start + (x - start)] == parts[i0][x - start]);
                    assert(ikey_before(c.entries()[x - start].key, ikey@));
                }
            }
            assert forall|x: int| start + q <= x < es.len() implies !ikey_before(
                #[trigger] es[x].key,
                ikey@,
            ) by {
                // the piece's lower bound stands at start + q
                assert(q <= last);
                assert(!ikey_before(c.entries()[q].key, ikey@));
                assert(es[start + q] == parts[i0][q]);
                if x > start + q && ikey_before(es[x].key, ikey@) {
                    assert(ikey_before(es[start + q].key, es[x].key));
                    lemma_ikey_transitive(es[start + q].key, es[x].key, ikey@);
                }
            }
            assert(is_lower_bound(self.entries(), ikey@, self.pos()));
        }
    }

    fn seek_for_prev(&mut self, ikey: &[u8]) {
        if self.children.len() == 0 {
            self.idx = 0;
            return ;
        }
        let ghost before = self.children@;
        let ghost parts = parts_of(self.children@);
        let ghost es = flat(parts);
        let ghost me = *self;
        let n: usize = self.part_for(ikey);
        if n >= self.children.len() {
            // every entry < ikey: last entry of all
            proof {
                lemma_flat_at(parts, parts.len() - 1);
                assert forall|x: int| 0 <= x < es.len() implies ikey_upto(
                    #[trigger] es[x].key,
                    ikey@,
                ) by {
                    me.lemma_before_part(ikey@, n as int, x);
                }
            }
            self.seek_to_last();
            return ;
        }
        let ghost n0 = n as int;
        let ghost start = part_start(parts, n0);
        proof {
            lemma_flat_at(parts, n0);
            assert(parts[n0].len() > 0);
        }
        self.idx = n;
        self.children[n].seek_for_prev(ikey);
        let ghost c = self.children@[n0];
        let ghost q = c.pos();
        proof {
            assert(parts_of(self.children@) =~= parts);
            assert(c.entries() == parts[n0]);
            let len = parts[n0].len() as int;
            // what follows piece n sorts after its last key, which is >= ikey
            assert(es[start + len - 1] == parts[n0][len - 1]);
            assert(self.lasts@[n0]@ == parts[n0].last().key);
            assert forall|x: int| 0 <= x < start + q + 1 implies ikey_upto(
                #[trigger] es[x].key,
                ikey@,
            ) by {
                if x < start {
                    me.lemma_before_part(ikey@, n0, x);
                } else {
                    assert(es[start + (x - start)] == parts[n0][x - start]);
                    assert(ikey_upto(c.entries()[x - start].key, ikey@));
                }
            }
            assert forall|x: int| start + q + 1 <= x < es.len() implies ikey_before(
                ikey@,
                #[trigger] es[x].key,
            ) by {
                if q + 1 < len {
                    assert(ikey_before(ikey@, c.entries()[q + 1].key));
                    assert(es[start + (q + 1)] == parts[n0][q + 1]);
                    me.lemma_after(ikey@, start + q + 1, x);
                } else {
                    // the whole piece sorts at or before ikey, and its last
                    // key at or after it
                    assert(ikey_upto(c.entries()[len - 1].key, ikey@));
                    assert(parts[n0][len - 1].key == ikey@);
                    assert(ikey_before(es[start + len - 1].key, es[x].key));
                }
            }
            assert(is_upper_bound(es, ikey@, start + q + 1));
        }
        if !self.children[n].valid() && n > 0 {
            // every entry of this piece > ikey; the piece before it is
            // entirely <= ikey
            proof {
                lemma_flat_at(parts, n0 - 1);
                assert(parts[n0 - 1].len() > 0);
                assert(q == -1);
            }
            let ghost mid = self.children@;
            self.idx = n - 1;
            self.children[n - 1].seek_to_last();
            proof {
                assert(parts_of(self.children@) =~= parts);
            }
        }
    }

    fn valid(&self) -> bool {
        if self.children.len() == 0 {
            return false;
        }
        proof {
            let parts = parts_of(self.children@);
            lemma_flat_at(parts, self.idx as int);
            lemma_part_start_monotone(parts, 0, self.idx as int);
            lemma_flat_at(parts, 0);
            assert(parts[self.idx as int].len() > 0);
            lemma_flat_at(parts, parts.len() - 1);
        }
        self.children[self.idx].valid()
    }

    fn next(&mut self) {
        let ghost parts = parts_of(self.children@);
        let i: usize = self.idx;
        proof {
            lemma_flat_at(parts, i as int);
            assert(parts[i as int].len() > 0);
            lemma_part_start_monotone(parts, 0, i as int);
            lemma_flat_at(parts, 0);
            lemma_flat_at(parts, parts.len() - 1);
        }
        self.children[i].next();
        assert(parts_of(self.children@) =~= parts);
        let last: usize = self.children.len() - 1;
        if !self.children[i].valid() && i < last {
            proof {
                lemma_flat_at(parts, i + 1);
                assert(parts[i + 1].len() > 0);
            }
            self.idx = i + 1;
            self.children[i + 1].seek_to_first();
            assert(parts_of(self.children@) =~= parts);
        }
    }

    fn prev(&mut self) {
        let ghost parts = parts_of(self.children@);
        let i: usize = self.idx;
        proof {
            lemma_flat_at(parts, i as int);
            assert(parts[i as int].len() > 0);
            lemma_part_start_monotone(parts, 0, i as int);
            lemma_flat_at(parts, 0);
            lemma_flat_at(parts, parts.len() - 1);
        }
        self.children[i].prev();
        assert(parts_of(self.children@) =~= parts);
        if !self.children[i].valid() && i > 0 {
            proof {
                lemma_flat_at(parts, i - 1);
                assert(parts[i - 1].len() > 0);
            }
            self.idx = i - 1;
            self.children[i - 1].seek_to_last();
            assert(parts_of(self.children@) =~= parts);
        }
    }

    fn ikey(&self) -> &[u8] {
        proof {
            let parts = parts_of(self.children@);
            lemma_flat_at(parts, self.idx as int);
            assert(parts[self.idx as int].len() > 0);
            lemma_part_start_monotone(parts, 0, self.idx as int);
            lemma_flat_at(parts, 0);
            lemma_flat_at(parts, parts.len() - 1);
        }
        self.children[self.idx].ikey()
    }

    fn value(&self) -> &[u8] {
        proof {
            let parts = parts_of(self.children@);
            lemma_flat_at(parts, self.idx as int);
            assert(parts[self.idx as int].len() > 0);
            lemma_part_start_monotone(parts, 0, self.idx as int);
            lemma_flat_at(parts, 0);
            lemma_flat_at(parts, parts.len() - 1);
        }
        self.children[self.idx].value()
    }
}

} // verus!
