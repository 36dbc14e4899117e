//! Byte strings in lexicographic order.

use vstd::prelude::*;

verus! {

/// `a` sorts strictly before `b`: the first differing byte decides, and a
/// proper prefix sorts before what it is a prefix of.
pub open spec fn lex_lt(a: Seq<u8>, b: Seq<u8>) -> bool
    decreases a.len(),
{
    if b.len() == 0 {
        false
    } else if a.len() == 0 {
        true
    } else if a[0] != b[0] {
        a[0] < b[0]
    } else {
        lex_lt(a.skip(1), b.skip(1))
    }
}

/// `a` sorts before `b` or equals it.
pub open spec fn lex_le(a: Seq<u8>, b: Seq<u8>) -> bool {
    lex_lt(a, b) || a == b
}

/// No byte string sorts before itself.
pub proof fn lemma_lex_irreflexive(a: Seq<u8>)
    ensures
        !lex_lt(a, a),
    decreases a.len(),
{
    if a.len() > 0 {
        lemma_lex_irreflexive(a.skip(1));
    }
}

/// Any two byte strings are equal or one sorts before the other.
pub proof fn lemma_lex_total(a: Seq<u8>, b: Seq<u8>)
    ensures
        lex_lt(a, b) || a == b || lex_lt(b, a),
    decreases a.len(),
{
    if a.len() == 0 && b.len() == 0 {
        assert(a =~= b);
    } else if a.len() > 0 && b.len() > 0 && a[0] == b[0] {
        lemma_lex_total(a.skip(1), b.skip(1));
        if a.skip(1) == b.skip(1) {
            assert(a =~= seq![a[0]] + a.skip(1));
            assert(b =~= seq![b[0]] + b.skip(1));
        }
    }
}

/// The order is transitive.
pub proof fn lemma_lex_transitive(a: Seq<u8>, b: Seq<u8>, c: Seq<u8>)
    requires
        lex_lt(a, b),
        lex_lt(b, c),
    ensures
        lex_lt(a, c),
    decreases a.len(),
{
    if a.len() > 0 && a[0] == b[0] && b[0] == c[0] {
        lemma_lex_transitive(a.skip(1), b.skip(1), c.skip(1));
    }
}

/// The order is asymmetric.
pub proof fn lemma_lex_asymmetric(a: Seq<u8>, b: Seq<u8>)
    requires
        lex_lt(a, b),
    ensures
        !lex_lt(b, a),
        a != b,
{
    lemma_lex_irreflexive(a);
    if lex_lt(b, a) {
        lemma_lex_transitive(a, b, a);
    }
}

/// Where two byte strings agree on their first `n` bytes, the rest decides.
pub proof fn lemma_lex_skip_common(a: Seq<u8>, b: Seq<u8>, n: int)
    requires
        0 <= n <= a.len(),
        n <= b.len(),
        a.take(n) == b.take(n),
    ensures
        lex_lt(a, b) == lex_lt(a.skip(n), b.skip(n)),
    decreases n,
{
    if n == 0 {
        assert(a.skip(0) =~= a);
        assert(b.skip(0) =~= b);
    } else {
        assert(a[0] == a.take(n)[0]);
        assert(b[0] == b.take(n)[0]);
        assert(a.skip(1).take(n - 1) =~= a.take(n).skip(1));
        assert(b.skip(1).take(n - 1) =~= b.take(n).skip(1));
        lemma_lex_skip_common(a.skip(1), b.skip(1), n - 1);
        assert(a.skip(1).skip(n - 1) =~= a.skip(n));
        assert(b.skip(1).skip(n - 1) =~= b.skip(n));
    }
}

/// What follows two strings of one length does not change how they sort.
pub proof fn lemma_lex_extend(a: Seq<u8>, b: Seq<u8>, x: Seq<u8>, y: Seq<u8>)
    requires
        lex_lt(a, b),
        a.len() == b.len(),
    ensures
        lex_lt(a + x, b + y),
    decreases a.len(),
{
    if a.len() > 0 && a[0] == b[0] {
        lemma_lex_extend(a.skip(1), b.skip(1), x, y);
        assert((a + x).skip(1) =~= a.skip(1) + x);
        assert((b + y).skip(1) =~= b.skip(1) + y);
    }
}

/// Nothing sorts between a string and that string with a zero byte after it.
pub proof fn lemma_lex_successor(a: Seq<u8>, b: Seq<u8>)
    ensures
        lex_lt(a, b) <==> lex_le(a.push(0), b),
    decreases a.len(),
{
    let s = a.push(0);
    reveal_with_fuel(lex_lt, 3);
    if a.len() == 0 {
        if b.len() > 0 {
            assert(s.skip(1) =~= Seq::<u8>::empty());
            if b[0] == 0 {
                if b.skip(1).len() == 0 {
                    assert(b =~= s);
                }
            }
        }
    } else if b.len() > 0 && a[0] == b[0] {
        lemma_lex_successor(a.skip(1), b.skip(1));
        assert(s.skip(1) =~= a.skip(1).push(0));
        if s.skip(1) == b.skip(1) {
            assert(s =~= seq![s[0]] + s.skip(1));
            assert(b =~= seq![b[0]] + b.skip(1));
        }
    }
}

/// Length of the longest common prefix of two byte strings.
fn common_prefix(a: &[u8], b: &[u8]) -> (n: usize)
    ensures
        n <= a@.len(),
        n <= b@.len(),
        a@.take(n as int) == b@.take(n as int),
        n < a@.len() && n < b@.len() ==> a@[n as int] != b@[n as int],
{
    let mut i: usize = 0;
    while i < a.len() && i < b.len() && a[i] == b[i]
        invariant
            i <= a@.len(),
            i <= b@.len(),
            a@.take(i as int) == b@.take(i as int),
        decreases a@.len() - i,
    {
        assert(a@.take(i + 1) =~= a@.take(i as int).push(a@[i as int]));
        assert(b@.take(i + 1) =~= b@.take(i as int).push(b@[i as int]));
        i += 1;
    }
    i
}

/// Whether `a` sorts strictly before `b`.
pub fn bytes_lt(a: &[u8], b: &[u8]) -> (r: bool)
    ensures
        r == lex_lt(a@, b@),
{
    let n: usize = common_prefix(a, b);
    proof {
        lemma_lex_skip_common(a@, b@, n as int);
    }
    if n == b.len() {
        false
    } else if n == a.len() {
        true
    } else {
        a[n] < b[n]
    }
}

/// Whether `a` sorts before `b` or equals it.
pub fn bytes_le(a: &[u8], b: &[u8]) -> (r: bool)
    ensures
        r == lex_le(a@, b@),
{
    proof {
        lemma_lex_total(a@, b@);
        if lex_lt(b@, a@) {
            lemma_lex_asymmetric(b@, a@);
        }
    }
    !bytes_lt(b, a)
}

/// Whether two byte strings are equal.
pub fn bytes_eq(a: &[u8], b: &[u8]) -> (r: bool)
    ensures
        r == (a@ == b@),
{
    let n: usize = common_prefix(a, b);
    if n == a.len() && n == b.len() {
        assert(a@ =~= a@.take(n as int));
        assert(b@ =~= b@.take(n as int));
        true
    } else {
        false
    }
}

/// An owned copy of a byte string.
pub fn to_bytes(s: &[u8]) -> (v: Vec<u8>)
    ensures
        v@ == s@,
{
    let mut v: Vec<u8> = Vec::new();
    v.extend_from_slice(s);
    assert(v@ =~= s@);
    v
}

// ---------------------------------------------------------------------------
// Binary search
// ---------------------------------------------------------------------------

/// Where halving `[lo, hi)` ends: each place looked at lies before the target or
/// not, or cannot be read, which ends the search without a result.
pub open spec fn bisect(before: spec_fn(int) -> Option<bool>, lo: int, hi: int) -> Option<int>
    decreases hi - lo,
{
    if lo >= hi {
        Some(lo)
    } else {
        let mid = (lo + hi) / 2;
        match before(mid) {
            None => None,
            Some(true) => bisect(before, mid + 1, hi),
            Some(false) => bisect(before, lo, mid),
        }
    }
}

/// Where every place can be read, the search gives one in range.
pub proof fn lemma_bisect_range(before: spec_fn(int) -> Option<bool>, lo: int, hi: int)
    requires
        lo <= hi,
    ensures
        bisect(before, lo, hi) matches Some(n) ==> lo <= n <= hi,
    decreases hi - lo,
{
    if lo < hi {
        let mid = (lo + hi) / 2;
        lemma_bisect_range(before, mid + 1, hi);
        lemma_bisect_range(before, lo, mid);
    }
}

/// Where the places before the target come first, the search parts them from
/// the others.
pub proof fn lemma_bisect_parts(before: spec_fn(int) -> Option<bool>, lo: int, hi: int, n: int)
    requires
        lo <= n <= hi,
        forall|i: int| lo <= i < n ==> #[trigger] before(i) == Some(true),
        forall|i: int| n <= i < hi ==> #[trigger] before(i) == Some(false),
    ensures
        bisect(before, lo, hi) == Some(n),
    decreases hi - lo,
{
    if lo < hi {
        let mid = (lo + hi) / 2;
        if mid < n {
            assert(before(mid) == Some(true));
            lemma_bisect_parts(before, mid + 1, hi, n);
        } else {
            assert(before(mid) == Some(false));
            lemma_bisect_parts(before, lo, mid, n);
        }
    }
}

} // verus!
