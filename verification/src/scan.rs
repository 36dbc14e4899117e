//! Range scans: the visible pairs of a read view, delivered in windows whose
//! value-log pointers are resolved together.

use vstd::prelude::*;

use crate::error::{Error, Result};
use crate::iter::{InternalIterator, MergeIterator};
use crate::mvcc::{MvccForward, MvccIter, MvccReverse};
use crate::order::{bytes_le, to_bytes};
use crate::types::{decode_repr, ReprRef, SeqNo, ValuePtr, USER_KEYSPACE_START};
use crate::vlog::record_value_for;

verus! {

use crate::iter::{kinds_ok, mergeable, merged, Kv};
use crate::mvcc::{opt_view, scan};
use crate::order::lex_le;
use crate::types::{p_repr, Repr};
use crate::vlog::p_record;

/// Entries of one window at most.
pub const PREFETCH_ENTRIES: usize = 32;

/// A window takes no more once it holds this many bytes.
pub const PREFETCH_BYTES: usize = 262_144;

/// The value of a pair: at hand, or still in the value log.
pub enum Pending {
    Ready(Vec<u8>),
    Ptr(ValuePtr),
}

pub open spec fn pending_is(p: Pending, r: Repr) -> bool {
    match r {
        Repr::Inline(v) => p matches Pending::Ready(x) && x@ == v,
        Repr::Ptr(q) => p matches Pending::Ptr(x) && x == q,
    }
}

/// What a pair counts for in a window.
pub open spec fn pair_cost(kv: (Seq<u8>, Seq<u8>)) -> nat {
    match p_repr(kv.1) {
        Some(Repr::Inline(v)) => kv.0.len() + v.len(),
        Some(Repr::Ptr(p)) => kv.0.len() + p.len as nat,
        None => 0,
    }
}

/// Where a window ends that has taken `i` pairs, `bytes` in all.
pub open spec fn window_end(ps: Seq<(Seq<u8>, Seq<u8>)>, i: int, bytes: nat) -> int
    decreases ps.len() - i,
{
    if 0 <= i < ps.len() && i < PREFETCH_ENTRIES && bytes < PREFETCH_BYTES {
        window_end(ps, i + 1, bytes + pair_cost(ps[i]))
    } else {
        i
    }
}

/// The first `n` representations can be read.
pub open spec fn readable(ps: Seq<(Seq<u8>, Seq<u8>)>, n: int) -> bool {
    forall|i: int| 0 <= i < n ==> p_repr((#[trigger] ps[i]).1) is Some
}

/// The window holds the first `n` pairs.
pub open spec fn is_window(w: Seq<(Vec<u8>, Pending)>, ps: Seq<(Seq<u8>, Seq<u8>)>, n: int) -> bool {
    &&& w.len() == n
    &&& forall|i: int|
        0 <= i < n ==> (#[trigger] w[i]).0@ == ps[i].0 && (p_repr(ps[i].1) matches Some(r)
            && pending_is(w[i].1, r))
}

pub proof fn lemma_window_grows(ps: Seq<(Seq<u8>, Seq<u8>)>, i: int, bytes: nat)
    requires
        0 <= i <= ps.len(),
    ensures
        i <= window_end(ps, i, bytes) <= ps.len(),
    decreases ps.len() - i,
{
    if i < ps.len() && i < PREFETCH_ENTRIES && bytes < PREFETCH_BYTES {
        lemma_window_grows(ps, i + 1, bytes + pair_cost(ps[i]));
    }
}

/// An iterator over the visible pairs of a range.
pub struct DbIterator<I> {
    pub mvcc: MvccIter<I>,
    pub exhausted: bool,
}

impl<I: InternalIterator> DbIterator<I> {
    pub open spec fn inv(self) -> bool {
        &&& self.mvcc.inv()
        &&& self.exhausted ==> self.mvcc.pending().len() == 0
    }

    /// The pairs still to come: each key with its stored representation.
    pub open spec fn pending(self) -> Seq<(Seq<u8>, Seq<u8>)> {
        self.mvcc.pending()
    }

    pub open spec fn all(self) -> Seq<Kv> {
        self.mvcc.all()
    }

    /// Iterate over `[lo, hi)` at a snapshot, in either direction.
    pub fn new(children: Vec<I>, snap: SeqNo, lo: &[u8], hi: Option<Vec<u8>>, reverse: bool) -> (it:
        Self)
        requires
            forall|k: int| 0 <= k < children@.len() ==> (#[trigger] children@[k]).inv(),
            mergeable(children@.map_values(|c: I| c.entries()), false),
        ensures
            it.inv(),
            ({
                let es = merged(children@.map_values(|c: I| c.entries()), false);
                let pairs = scan(es, snap as nat, lo@, opt_view(hi));
                &&& it.all() == es
                &&& it.pending() == if reverse {
                    pairs.reverse()
                } else {
                    pairs
                }
            }),
    {
        let merge = MergeIterator::new(children, reverse);
        let mvcc = if reverse {
            let lo_v = to_bytes(lo);
            match &hi {
                Some(h) => MvccIter::Rev(MvccReverse::new(merge, snap, lo_v, Some(h.as_slice()))),
                None => MvccIter::Rev(MvccReverse::new(merge, snap, lo_v, None)),
            }
        } else {
            MvccIter::Fwd(MvccForward::new(merge, snap, lo, hi))
        };
        DbIterator { mvcc, exhausted: false }
    }

    /// The next window of pairs: as many as the limits allow. An empty window
    /// means the end. A kind or representation that cannot be read is
    /// corruption.
    #[verifier::rlimit(40)]
    pub fn next_window(&mut self) -> (r: Result<Vec<(Vec<u8>, Pending)>>)
        requires
            old(self).inv(),
        ensures
            final(self).all() == old(self).all(),
            ({
                let ps = old(self).pending();
                let n = window_end(ps, 0, 0);
                match r {
                    Ok(w) => final(self).inv() && readable(ps, n) && is_window(w@, ps, n)
                        && final(self).pending() == ps.skip(n),
                    Err(e) => e is Corruption && (!readable(ps, n) || !kinds_ok(old(self).all())),
                }
            }),
    {
        let mut window: Vec<(Vec<u8>, Pending)> = Vec::new();
        let ghost ps = self.pending();
        let ghost all = self.all();
        if self.exhausted {
            assert(ps.skip(0) =~= ps);
            return Ok(window);
        }
        let mut bytes: usize = 0;
        let ghost mut total: nat = 0;
        let ghost mut i: int = 0;
        let mut done: bool = false;
        assert(ps.skip(0) =~= ps);
        while !done && window.len() < PREFETCH_ENTRIES && bytes < PREFETCH_BYTES
            invariant
                self.mvcc.inv(),
                self.mvcc.all() == all,
                window@.len() <= PREFETCH_ENTRIES,
                !done ==> !self.exhausted,
                done ==> self.exhausted,
                i == window@.len(),
                0 <= i <= ps.len(),
                self.mvcc.pending() == ps.skip(i),
                is_window(window@, ps, i),
                readable(ps, i),
                window_end(ps, 0, 0) == window_end(ps, i, total),
                done ==> i == ps.len(),
                bytes == (if total <= usize::MAX {
                    total as int
                } else {
                    usize::MAX as int
                }),
                all == old(self).all(),
                ps == old(self).pending(),
            decreases PREFETCH_ENTRIES - window@.len(), (if done {
                0int
            } else {
                1int
            }),
        {
            proof {
                lemma_window_grows(ps, i, total);
            }
            match self.mvcc.next_visible() {
                Err(e) => {
                    return Err(e);
                },
                Ok(None) => {
                    self.exhausted = true;
                    done = true;
                },
                Ok(Some((key, repr))) => {
                    let pending = match decode_repr(repr.as_slice()) {
                        Err(e) => {
                            proof {
                                assert(ps.skip(i)[0] == ps[i]);
                                lemma_window_grows(ps, i + 1, total + pair_cost(ps[i]));
                                assert(p_repr(ps[i].1) is None);
                            }
                            return Err(e);
                        },
                        Ok(ReprRef::Inline(v)) => {
                            bytes = bytes.saturating_add(key.len()).saturating_add(v.len());
                            Pending::Ready(to_bytes(v))
                        },
                        Ok(ReprRef::Ptr(p)) => {
                            bytes = bytes.saturating_add(key.len()).saturating_add(
                                p.len as usize,
                            );
                            Pending::Ptr(p)
                        },
                    };
                    let ghost w0 = window@;
                    window.push((key, pending));
                    proof {
                        total = total + pair_cost((key@, repr@));
                        assert(ps.skip(i)[0] == ps[i]);
                        assert(ps.skip(i).skip(1) =~= ps.skip(i + 1));
                        assert forall|k: int| 0 <= k < i + 1 implies (#[trigger] window@[k]).0@
                            == ps[k].0 && (p_repr(ps[k].1) matches Some(r) && pending_is(
                            window@[k].1,
                            r,
                        )) by {
                            if k < i {
                                assert(window@[k] == w0[k]);
                            }
                        }
                        i = i + 1;
                    }
                },
            }
        }
        assert(window_end(ps, i, total) == i);
        Ok(window)
    }
}

/// What a pair counts for that waits to be delivered.
pub open spec fn pending_cost(kv: (Vec<u8>, Pending)) -> nat {
    kv.0@.len() + match kv.1 {
        Pending::Ready(v) => v@.len(),
        Pending::Ptr(p) => p.len as nat,
    }
}

/// Where a window over pairs from `from` on ends that has come to `i` and holds
/// `bytes`.
pub open spec fn batch_end(ps: Seq<(Vec<u8>, Pending)>, from: int, i: int, bytes: nat) -> int
    decreases ps.len() - i,
{
    if 0 <= i < ps.len() && i - from < PREFETCH_ENTRIES && bytes < PREFETCH_BYTES {
        batch_end(ps, from, i + 1, bytes + pending_cost(ps[i]))
    } else {
        i
    }
}

/// Where the window that starts at pair `from` ends: it holds as many pairs as
/// the limits allow.
pub fn window_from(pairs: &Vec<(Vec<u8>, Pending)>, from: usize) -> (end: usize)
    requires
        from <= pairs@.len(),
    ensures
        end == batch_end(pairs@, from as int, from as int, 0),
        from <= end <= pairs@.len(),
        from < pairs@.len() ==> from < end,
        end - from <= PREFETCH_ENTRIES,
{
    let mut i: usize = from;
    let mut bytes: usize = 0;
    let ghost mut total: nat = 0;
    while i < pairs.len() && i - from < PREFETCH_ENTRIES && bytes < PREFETCH_BYTES
        invariant
            from <= i <= pairs@.len(),
            i - from <= PREFETCH_ENTRIES,
            i == from ==> bytes == 0,
            bytes == (if total <= usize::MAX {
                total as int
            } else {
                usize::MAX as int
            }),
            batch_end(pairs@, from as int, from as int, 0) == batch_end(
                pairs@,
                from as int,
                i as int,
                total,
            ),
        decreases pairs@.len() - i,
    {
        let v: usize = match &pairs[i].1 {
            Pending::Ready(v) => v.len(),
            Pending::Ptr(p) => p.len as usize,
        };
        bytes = bytes.saturating_add(pairs[i].0.len()).saturating_add(v);
        proof {
            total = total + pending_cost(pairs@[i as int]);
        }
        i += 1;
    }
    i
}

/// The pairs of a window whose value lies in the given file, in order.
pub open spec fn in_file(w: Seq<(Vec<u8>, Pending)>, f: u64, i: int) -> bool {
    w[i].1 matches Pending::Ptr(p) && p.file == f
}

/// The numbers of the pairs that wait for a value of the file, ascending.
pub fn waiting_on(window: &Vec<(Vec<u8>, Pending)>, f: u64) -> (out: Vec<usize>)
    ensures
        are_waiting(window@, f, out@),
        forall|x: int|
            0 <= x < out@.len() ==> #[trigger] out@[x] < window@.len() && in_file(
                window@,
                f,
                out@[x] as int,
            ),
        forall|x: int, y: int|
            0 <= x < y < out@.len() ==> #[trigger] out@[x] < #[trigger] out@[y],
        forall|i: int|
            0 <= i < window@.len() && in_file(window@, f, i) ==> out@.contains(i as usize),
{
    let mut out: Vec<usize> = Vec::new();
    let mut i: usize = 0;
    while i < window.len()
        invariant
            i <= window@.len(),
            forall|x: int|
                0 <= x < out@.len() ==> #[trigger] out@[x] < i && in_file(
                    window@,
                    f,
                    out@[x] as int,
                ),
            forall|x: int, y: int|
                0 <= x < y < out@.len() ==> #[trigger] out@[x] < #[trigger] out@[y],
            forall|k: int| 0 <= k < i && in_file(window@, f, k) ==> out@.contains(k as usize),
        decreases window@.len() - i,
    {
        let hit: bool = match &window[i].1 {
            Pending::Ptr(p) => p.file == f,
            Pending::Ready(_) => false,
        };
        let ghost o0 = out@;
        if hit {
            out.push(i);
            assert(out@[o0.len() as int] == i);
        }
        proof {
            assert forall|k: int| 0 <= k < i + 1 && in_file(window@, f, k) implies out@.contains(
                k as usize,
            ) by {
                if k < i {
                    assert(o0.contains(k as usize));
                    let x = choose|x: int| 0 <= x < o0.len() && o0[x] == k as usize;
                    assert(out@[x] == k as usize);
                } else {
                    assert(out@[o0.len() as int] == i);
                }
            }
        }
        i += 1;
    }
    proof {
        assert forall|k: usize| #[trigger] out@.contains(k) <==> k < window@.len() && (
        window@[k as int].1 matches Pending::Ptr(p) && p.file == f) by {
            if out@.contains(k) {
                let x = choose|x: int| 0 <= x < out@.len() && out@[x] == k;
                assert(in_file(window@, f, out@[x] as int));
            }
            if k < window@.len() && in_file(window@, f, k as int) {
                assert(out@.contains(k as int as usize));
            }
        }
    }
    out
}

/// The record of pair `i` was read: its value is at hand. A record of another
/// key is corruption.
pub fn resolve(window: &mut Vec<(Vec<u8>, Pending)>, i: usize, record: &[u8]) -> (r: Result<()>)
    requires
        i < old(window)@.len(),
    ensures
        is_resolved(old(window)@, final(window)@, i as int, record@, r is Ok),
        match p_record(record@) {
            Some((k, v)) => if k == old(window)@[i as int].0@ {
                &&& r is Ok
                &&& final(window)@.len() == old(window)@.len()
                &&& final(window)@[i as int].0@ == k
                &&& final(window)@[i as int].1 matches Pending::Ready(x) && x@ == v
                &&& forall|j: int|
                    0 <= j < old(window)@.len() && j != i ==> #[trigger] final(window)@[j] == old(
                        window,
                    )@[j]
            } else {
                r matches Err(Error::Corruption(_)) && final(window)@ == old(window)@
            },
            None => r matches Err(Error::Corruption(_)) && final(window)@ == old(window)@,
        },
{
    let key = to_bytes(window[i].0.as_slice());
    match record_value_for(record, key.as_slice()) {
        Ok(v) => {
            window.set(i, (key, Pending::Ready(v)));
            Ok(())
        },
        Err(e) => Err(e),
    }
}

/// Hand out a window whose values are all at hand.
pub fn deliver(window: Vec<(Vec<u8>, Pending)>) -> (out: Vec<(Vec<u8>, Vec<u8>)>)
    requires
        forall|i: int| 0 <= i < window@.len() ==> (#[trigger] window@[i]).1 is Ready,
    ensures
        is_delivered(window@, out@),
        out@.len() == window@.len(),
        forall|i: int|
            0 <= i < out@.len() ==> (#[trigger] out@[i]).0@ == window@[i].0@ && (
            window@[i].1 matches Pending::Ready(x) && out@[i].1@ == x@),
{
    let mut out: Vec<(Vec<u8>, Vec<u8>)> = Vec::new();
    let mut i: usize = 0;
    while i < window.len()
        invariant
            i <= window@.len(),
            out@.len() == i,
            forall|k: int| 0 <= k < window@.len() ==> (#[trigger] window@[k]).1 is Ready,
            forall|k: int|
                0 <= k < i ==> (#[trigger] out@[k]).0@ == window@[k].0@ && (
                window@[k].1 matches Pending::Ready(x) && out@[k].1@ == x@),
        decreases window@.len() - i,
    {
        assert(window@[i as int].1 is Ready);
        let v = match &window[i].1 {
            Pending::Ready(v) => to_bytes(v.as_slice()),
            Pending::Ptr(_) => Vec::new(),
        };
        out.push((to_bytes(window[i].0.as_slice()), v));
        i += 1;
    }
    out
}

/// The lower bound of a user's scan: never below the user keyspace, so that
/// reserved keys stay invisible.
pub open spec fn user_lo(lo: Option<Seq<u8>>) -> Seq<u8> {
    match lo {
        Some(l) => if lex_le(USER_KEYSPACE_START@, l) {
            l
        } else {
            USER_KEYSPACE_START@
        },
        None => USER_KEYSPACE_START@,
    }
}

pub fn clamp_lo(lo: Option<&[u8]>) -> (r: Vec<u8>)
    ensures
        forall|uk: Seq<u8>| #[trigger]
            lex_le(r@, uk) <==> uk.len() > 0 && uk[0] != 0 && (lo matches Some(l) ==> lex_le(
                l@,
                uk,
            )),
        r@ == user_lo(
            match lo {
                Some(l) => Some(l@),
                None => None,
            },
        ),
{
    let start: [u8; 1] = USER_KEYSPACE_START;
    let s = vstd::array::array_as_slice(&start);
    proof {
        let given = crate::txn::opt(lo);
        assert forall|uk: Seq<u8>| #[trigger]
            lex_le(user_lo(given), uk) <==> uk.len() > 0 && uk[0] != 0 && (lo matches Some(l)
                ==> lex_le(l@, uk)) by {
            crate::ranges::lemma_user_range(given, uk);
        }
    }
    let r = match lo {
        Some(l) => if bytes_le(s, l) {
            to_bytes(l)
        } else {
            to_bytes(s)
        },
        None => to_bytes(s),
    };
    assert(r@ == user_lo(crate::txn::opt(lo)));
    r
}

// ---------------------------------------------------------------------------
// Values out of the log
// ---------------------------------------------------------------------------

/// The numbers of the pairs that wait for a value of the file, each once.
pub open spec fn are_waiting(w: Seq<(Vec<u8>, Pending)>, f: u64, out: Seq<usize>) -> bool {
    &&& forall|i: usize| #[trigger]
        out.contains(i) <==> i < w.len() && (w[i as int].1 matches Pending::Ptr(p) && p.file == f)
    &&& forall|x: int, y: int| 0 <= x < y < out.len() ==> #[trigger] out[x] < #[trigger] out[y]
}

/// The pair has the value of the record that was read for it, if that is one of
/// its key; nothing else changes.
pub open spec fn is_resolved(
    before: Seq<(Vec<u8>, Pending)>,
    after: Seq<(Vec<u8>, Pending)>,
    i: int,
    record: Seq<u8>,
    ok: bool,
) -> bool {
    &&& ok <==> (p_record(record) matches Some((k, _)) && k == before[i].0@)
    &&& !ok ==> after == before
    &&& ok ==> after.len() == before.len() && after[i].0@ == before[i].0@ && (
    after[i].1 matches Pending::Ready(x) && Some((before[i].0@, x@)) == p_record(record))
        && forall|j: int|
        0 <= j < before.len() && j != i ==> #[trigger] after[j] == before[j]
}

/// The pairs are handed out as they are.
pub open spec fn is_delivered(w: Seq<(Vec<u8>, Pending)>, out: Seq<(Vec<u8>, Vec<u8>)>) -> bool {
    &&& out.len() == w.len()
    &&& forall|i: int|
        0 <= i < w.len() ==> (#[trigger] out[i]).0@ == w[i].0@ && (w[i].1 matches Pending::Ready(x)
            && out[i].1@ == x@)
}

/// A separated value comes back as it was put: where the record that was read for
/// a pair is the one that was written for its key, the pair is handed out with
/// that value; and where it is one of another key, it is refused.
pub proof fn lemma_separated_value_comes_back(
    before: Seq<(Vec<u8>, Pending)>,
    after: Seq<(Vec<u8>, Pending)>,
    out: Seq<(Vec<u8>, Vec<u8>)>,
    i: int,
    key: Seq<u8>,
    value: Seq<u8>,
    ok: bool,
)
    requires
        0 <= i < before.len(),
        key.len() <= u64::MAX,
        value.len() <= u64::MAX,
        is_resolved(before, after, i, crate::vlog::enc_record(key, value), ok),
        ok ==> is_delivered(after, out),
    ensures
        ok <==> before[i].0@ == key,
        ok ==> out[i].0@ == key && out[i].1@ == value,
        !ok ==> after == before,
{
    crate::vlog::lemma_record_roundtrip(key, value);
}

/// Every pair that waits is read for: it is in the list of the file that its value
/// lies in, and in no other.
pub proof fn lemma_every_waiting_pair_is_read_for(
    w: Seq<(Vec<u8>, Pending)>,
    f: u64,
    out: Seq<usize>,
    i: usize,
)
    requires
        are_waiting(w, f, out),
        i < w.len(),
    ensures
        w[i as int].1 is Ready ==> !out.contains(i),
        w[i as int].1 matches Pending::Ptr(p) ==> (out.contains(i) <==> p.file == f),
{
}

} // verus!
