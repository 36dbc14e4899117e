//! What a scan gives back: the visible pairs of the caller's range, and no
//! others.

use vstd::prelude::*;

use crate::scan::Pending;

verus! {

use crate::compaction::{lemma_first_hit_is_merged, value_of};
use crate::engine::{is_scan, sources_ok};
use crate::iter::{dir_before, lemma_merged, merged, sorted, Kv};
use crate::mvcc::{
    find_newest, found_at, lemma_found_unique, lemma_scan_ascends, lemma_scan_is_exact, live,
};
use crate::order::{lemma_lex_total, lemma_lex_transitive, lex_le, lex_lt};
use crate::scan::{pending_is, user_lo};
use crate::tree::lemma_newest_first_mergeable;
use crate::types::{ikey_before, p_repr, ukey_of};
use crate::version::first_hit;

/// The pair is the newest visible version of its key, and that is a value.
pub open spec fn is_visible_pair(
    pair: (Vec<u8>, Pending),
    srcs: Seq<Seq<Kv>>,
    at: nat,
) -> bool {
    value_of(first_hit(srcs, pair.0@, at)) matches Some(repr) && (p_repr(repr) matches Some(x)
        && pending_is(pair.1, x))
}

proof fn lemma_merged_sorted(srcs: Seq<Seq<Kv>>, visible: nat)
    requires
        sources_ok(srcs, visible),
        forall|l: int| 0 <= l < srcs.len() ==> sorted(#[trigger] srcs[l]),
    ensures
        sorted(merged(srcs, false)),
        forall|uk: Seq<u8>, at: nat| #[trigger]
            first_hit(srcs, uk, at) == find_newest(merged(srcs, false), uk, at),
{
    let es = merged(srcs, false);
    lemma_newest_first_mergeable(srcs);
    lemma_merged(srcs, false);
    assert forall|i: int, j: int| 0 <= i < j < es.len() implies ikey_before(
        #[trigger] es[i].key,
        #[trigger] es[j].key,
    ) by {
        assert(dir_before(es[i].key, es[j].key, false));
    }
    assert forall|uk: Seq<u8>, at: nat| #[trigger]
        first_hit(srcs, uk, at) == find_newest(es, uk, at) by {
        lemma_first_hit_is_merged(srcs, uk, at);
    }
}

/// A scan is exact: each pair's key lies in `[lo, hi)` and the pair is what a
/// read of the key gives; every key of the range that a read gives a value is
/// among them; and they come in the order of the scan, each once.
#[verifier::rlimit(50)]
pub proof fn lemma_scan_is_the_range(
    out: Seq<(Vec<u8>, Pending)>,
    srcs: Seq<Seq<Kv>>,
    visible: nat,
    at: nat,
    lo: Seq<u8>,
    hi: Option<Seq<u8>>,
    reverse: bool,
)
    requires
        sources_ok(srcs, visible),
        forall|l: int| 0 <= l < srcs.len() ==> sorted(#[trigger] srcs[l]),
        is_scan(out, srcs, at, lo, hi, reverse),
    ensures
        forall|i: int|
            0 <= i < out.len() ==> lex_le(lo, (#[trigger] out[i]).0@) && (hi matches Some(h)
                ==> lex_lt(out[i].0@, h)) && is_visible_pair(out[i], srcs, at),
        forall|uk: Seq<u8>|
            lex_le(lo, uk) && (hi matches Some(h) ==> lex_lt(uk, h)) && value_of(
                #[trigger] first_hit(srcs, uk, at),
            ) is Some ==> exists|i: int| 0 <= i < out.len() && (#[trigger] out[i]).0@ == uk,
        forall|i: int, j: int|
            0 <= i < j < out.len() ==> if reverse {
                lex_lt((#[trigger] out[j]).0@, (#[trigger] out[i]).0@)
            } else {
                lex_lt(out[i].0@, out[j].0@)
            },
{
    let es = merged(srcs, false);
    lemma_merged_sorted(srcs, visible);
    let pairs = crate::mvcc::scan(es, at, lo, hi);
    let n = pairs.len() as int;
    assert(out.len() == n);
    assert forall|i: int| 0 <= i < out.len() implies lex_le(lo, (#[trigger] out[i]).0@) && (
    hi matches Some(h) ==> lex_lt(out[i].0@, h)) && is_visible_pair(out[i], srcs, at) by {
        let p = if reverse {
            pairs[n - 1 - i]
        } else {
            pairs[i]
        };
        assert(pairs.contains(p));
        lemma_scan_is_exact(es, at, lo, hi, p.0, p.1);
        let k = choose|k: int| #[trigger]
            live(es, at, k) && ukey_of(es[k].key) == p.0 && es[k].repr == p.1;
        assert(found_at(es, p.0, at, k));
        lemma_found_unique(es, p.0, at, k);
        assert(first_hit(srcs, p.0, at) == Some(es[k]));
        if reverse {
            assert(pairs.reverse()[i] == p);
        }
    }
    assert forall|uk: Seq<u8>|
        lex_le(lo, uk) && (hi matches Some(h) ==> lex_lt(uk, h)) && value_of(
            #[trigger] first_hit(srcs, uk, at),
        ) is Some implies exists|i: int| 0 <= i < out.len() && (#[trigger] out[i]).0@ == uk by {
        let k = choose|k: int| found_at(es, uk, at, k);
        assert(exists|k: int| found_at(es, uk, at, k));
        assert(live(es, at, k));
        lemma_scan_is_exact(es, at, lo, hi, uk, es[k].repr);
        let x = choose|x: int| 0 <= x < pairs.len() && pairs[x] == (uk, es[k].repr);
        if reverse {
            assert(pairs.reverse()[n - 1 - x] == pairs[x]);
            assert(out[n - 1 - x].0@ == uk);
        } else {
            assert(out[x].0@ == uk);
        }
    }
    assert forall|i: int, j: int| 0 <= i < j < out.len() implies if reverse {
        lex_lt((#[trigger] out[j]).0@, (#[trigger] out[i]).0@)
    } else {
        lex_lt(out[i].0@, out[j].0@)
    } by {
        if reverse {
            assert(pairs.reverse()[i] == pairs[n - 1 - i]);
            assert(pairs.reverse()[j] == pairs[n - 1 - j]);
            lemma_scan_ascends(es, at, lo, hi, n - 1 - j, n - 1 - i);
        } else {
            lemma_scan_ascends(es, at, lo, hi, i, j);
        }
    }
}

/// What is at or above the lower bound of a user's scan: the user keys at or
/// above the bound that the caller gave.
pub proof fn lemma_user_range(lo: Option<Seq<u8>>, uk: Seq<u8>)
    ensures
        lex_le(user_lo(lo), uk) <==> uk.len() > 0 && uk[0] != 0 && (lo matches Some(l) ==> lex_le(
            l,
            uk,
        )),
{
    let start = crate::types::USER_KEYSPACE_START@;
    assert(start.len() == 1 && start[0] == 1);
    assert(lex_le(start, uk) <==> uk.len() > 0 && uk[0] != 0) by {
        if uk.len() > 0 && uk[0] == 1 {
            assert(start.skip(1) =~= Seq::empty());
            if uk.len() == 1 {
                assert(uk =~= start);
            } else {
                assert(lex_lt(start.skip(1), uk.skip(1)));
                assert(lex_lt(start, uk));
            }
        }
    }
    if let Some(l) = lo {
        lemma_lex_total(start, l);
        if lex_le(l, uk) && lex_le(start, l) {
            lemma_le_chain(start, l, uk);
        }
        if !lex_le(start, l) && lex_le(start, uk) {
            lemma_le_chain(l, start, uk);
        }
    }
}

proof fn lemma_le_chain(a: Seq<u8>, b: Seq<u8>, c: Seq<u8>)
    requires
        lex_le(a, b),
        lex_le(b, c),
    ensures
        lex_le(a, c),
{
    if a != b && b != c {
        lemma_lex_transitive(a, b, c);
    }
}

/// A user's scan is exact: each key is a user key at or above the caller's own
/// bound and below the upper one, with what a read of it gives; every such key
/// that a read gives a value is among them; and they come in order, each once.
pub proof fn lemma_user_scan_is_the_range(
    out: Seq<(Vec<u8>, Pending)>,
    srcs: Seq<Seq<Kv>>,
    visible: nat,
    at: nat,
    lo: Option<Seq<u8>>,
    hi: Option<Seq<u8>>,
    reverse: bool,
)
    requires
        sources_ok(srcs, visible),
        forall|l: int| 0 <= l < srcs.len() ==> sorted(#[trigger] srcs[l]),
        is_scan(out, srcs, at, user_lo(lo), hi, reverse),
    ensures
        forall|i: int|
            0 <= i < out.len() ==> {
                let k = (#[trigger] out[i]).0@;
                &&& k.len() > 0 && k[0] != 0
                &&& lo matches Some(l) ==> lex_le(l, k)
                &&& hi matches Some(h) ==> lex_lt(k, h)
                &&& is_visible_pair(out[i], srcs, at)
            },
        forall|uk: Seq<u8>|
            uk.len() > 0 && uk[0] != 0 && (lo matches Some(l) ==> lex_le(l, uk)) && (
            hi matches Some(h) ==> lex_lt(uk, h)) && value_of(
                #[trigger] first_hit(srcs, uk, at),
            ) is Some ==> exists|i: int| 0 <= i < out.len() && (#[trigger] out[i]).0@ == uk,
        forall|i: int, j: int|
            0 <= i < j < out.len() ==> if reverse {
                lex_lt((#[trigger] out[j]).0@, (#[trigger] out[i]).0@)
            } else {
                lex_lt(out[i].0@, out[j].0@)
            },
{
    lemma_scan_is_the_range(out, srcs, visible, at, user_lo(lo), hi, reverse);
    assert forall|i: int| 0 <= i < out.len() implies {
        let k = (#[trigger] out[i]).0@;
        &&& k.len() > 0 && k[0] != 0
        &&& lo matches Some(l) ==> lex_le(l, k)
        &&& hi matches Some(h) ==> lex_lt(k, h)
        &&& is_visible_pair(out[i], srcs, at)
    } by {
        lemma_user_range(lo, out[i].0@);
    }
    assert forall|uk: Seq<u8>|
        uk.len() > 0 && uk[0] != 0 && (lo matches Some(l) ==> lex_le(l, uk)) && (
        hi matches Some(h) ==> lex_lt(uk, h)) && value_of(
            #[trigger] first_hit(srcs, uk, at),
        ) is Some implies exists|i: int| 0 <= i < out.len() && (#[trigger] out[i]).0@ == uk by {
        lemma_user_range(lo, uk);
    }
}

} // verus!
