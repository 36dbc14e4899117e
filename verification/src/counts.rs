//! Byte counts by file id, kept in ascending order of the id.

use vstd::prelude::*;

verus! {

/// Ids in strictly ascending order.
pub open spec fn ascending(v: Seq<(u64, u64)>) -> bool {
    forall|i: int, j: int| 0 <= i < j < v.len() ==> (#[trigger] v[i]).0 < (#[trigger] v[j]).0
}

/// The count of id `f`, zero where it has none.
pub open spec fn count_of(v: Seq<(u64, u64)>, f: u64) -> u64
    decreases v.len(),
{
    if v.len() == 0 {
        0
    } else if v.last().0 == f {
        v.last().1
    } else {
        count_of(v.drop_last(), f)
    }
}

pub open spec fn counts_id(v: Seq<(u64, u64)>, f: u64) -> bool {
    exists|i: int| 0 <= i < v.len() && (#[trigger] v[i]).0 == f
}

/// The sum, at most what 64 bits hold.
pub open spec fn sat_add(a: u64, b: u64) -> u64 {
    if a + b <= u64::MAX {
        (a + b) as u64
    } else {
        u64::MAX
    }
}

pub proof fn lemma_count_at(v: Seq<(u64, u64)>, i: int)
    requires
        ascending(v),
        0 <= i < v.len(),
    ensures
        count_of(v, v[i].0) == v[i].1,
    decreases v.len(),
{
    if i < v.len() - 1 {
        assert(v[i].0 < v[v.len() - 1].0);
        let t = v.drop_last();
        assert forall|a: int, b: int| 0 <= a < b < t.len() implies (#[trigger] t[a]).0 < (
        #[trigger] t[b]).0 by {
            assert(v[a].0 < v[b].0);
        }
        lemma_count_at(t, i);
    }
}

pub proof fn lemma_count_none(v: Seq<(u64, u64)>, f: u64)
    requires
        !counts_id(v, f),
    ensures
        count_of(v, f) == 0,
    decreases v.len(),
{
    if v.len() > 0 {
        assert(v[v.len() - 1].0 != f);
        let t = v.drop_last();
        assert(!counts_id(t, f)) by {
            if counts_id(t, f) {
                let i = choose|i: int| 0 <= i < t.len() && (#[trigger] t[i]).0 == f;
                assert(v[i].0 == f);
            }
        }
        lemma_count_none(t, f);
    }
}

/// `new` counts `n` for `f` and otherwise what `old` counts.
pub open spec fn updated(old_v: Seq<(u64, u64)>, f: u64, n: u64, new_v: Seq<(u64, u64)>) -> bool {
    &&& ascending(new_v)
    &&& counts_id(new_v, f)
    &&& count_of(new_v, f) == n
    &&& forall|g: u64|
        g != f ==> #[trigger] count_of(new_v, g) == count_of(old_v, g) && counts_id(new_v, g) == counts_id(
            old_v,
            g,
        )
}

/// Where id `f` stands or belongs.
fn place_of(v: &Vec<(u64, u64)>, f: u64) -> (n: usize)
    requires
        ascending(v@),
    ensures
        n <= v@.len(),
        forall|i: int| 0 <= i < n ==> (#[trigger] v@[i]).0 < f,
        forall|i: int| n <= i < v@.len() ==> (#[trigger] v@[i]).0 >= f,
{
    let mut n: usize = 0;
    while n < v.len()
        invariant
            ascending(v@),
            n <= v@.len(),
            forall|i: int| 0 <= i < n ==> (#[trigger] v@[i]).0 < f,
        decreases v@.len() - n,
    {
        if v[n].0 >= f {
            assert forall|i: int| n <= i < v@.len() implies (#[trigger] v@[i]).0 >= f by {
                if i > n {
                    assert(v@[n as int].0 < v@[i].0);
                }
            }
            return n;
        }
        n += 1;
    }
    n
}

/// Count exactly `n` for `f`.
pub fn set_count(v: &mut Vec<(u64, u64)>, f: u64, n: u64)
    requires
        ascending(old(v)@),
    ensures
        updated(old(v)@, f, n, final(v)@),
{
    let at: usize = place_of(v, f);
    let ghost a = v@;
    if at < v.len() && v[at].0 == f {
        v.set(at, (f, n));
    } else {
        v.insert(at, (f, n));
    }
    proof {
        let b = v@;
        let same = a.len() == b.len();
        let from = |i: int| -> int { if same || i < at { i } else { i - 1 } };
        assert forall|i: int, j: int| 0 <= i < j < b.len() implies (#[trigger] b[i]).0 < (
        #[trigger] b[j]).0 by {
            if i != at {
                assert(b[i] == a[from(i)]);
            }
            if j != at {
                assert(b[j] == a[from(j)]);
            }
        }
        assert(b[at as int] == (f, n));
        lemma_count_at(b, at as int);
        assert forall|g: u64| g != f implies #[trigger] count_of(b, g) == count_of(a, g) && counts_id(
            b,
            g,
        ) == counts_id(a, g) by {
            if counts_id(a, g) {
                let i = choose|i: int| 0 <= i < a.len() && (#[trigger] a[i]).0 == g;
                let j = if same || i < at { i } else { i + 1 };
                assert(b[j] == a[i]);
                lemma_count_at(a, i);
                lemma_count_at(b, j);
            } else {
                if counts_id(b, g) {
                    let j = choose|j: int| 0 <= j < b.len() && (#[trigger] b[j]).0 == g;
                    assert(b[j] == a[from(j)]);
                    assert(false);
                }
                lemma_count_none(a, g);
                lemma_count_none(b, g);
            }
        }
    }
}

/// The count of `f`.
pub fn get_count(v: &Vec<(u64, u64)>, f: u64) -> (n: Option<u64>)
    requires
        ascending(v@),
    ensures
        match n {
            Some(x) => counts_id(v@, f) && x == count_of(v@, f),
            None => !counts_id(v@, f) && count_of(v@, f) == 0,
        },
{
    let at: usize = place_of(v, f);
    if at < v.len() && v[at].0 == f {
        proof {
            lemma_count_at(v@, at as int);
        }
        Some(v[at].1)
    } else {
        proof {
            assert(!counts_id(v@, f)) by {
                if counts_id(v@, f) {
                    let i = choose|i: int| 0 <= i < v@.len() && (#[trigger] v@[i]).0 == f;
                    if i > at {
                        assert(v@[at as int].0 < v@[i].0);
                    }
                }
            }
            lemma_count_none(v@, f);
        }
        None
    }
}

/// Count `n` more for `f`.
pub fn add_count(v: &mut Vec<(u64, u64)>, f: u64, n: u64)
    requires
        ascending(old(v)@),
    ensures
        updated(old(v)@, f, sat_add(count_of(old(v)@, f), n), final(v)@),
{
    let before: u64 = match get_count(v, f) {
        Some(x) => x,
        None => 0,
    };
    set_count(v, f, before.saturating_add(n));
}

} // verus!
