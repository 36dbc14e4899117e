//! In-memory write buffer: a skiplist ordered by internal key.

use std::ops::Bound;

use vstd::prelude::*;

use crate::coding::put_u64_be;
use crate::iter::InternalIterator;
use crate::order::{bytes_eq, to_bytes};
use crate::types::{ikey_kind, ikey_seqno, ikey_trailer, ikey_ukey, make_seek_ikey, SeqNo, ValueKind, MAX_SEQNO};

verus! {

use crate::iter::{is_lower_bound, sorted, Kv};
use crate::mvcc::{find_newest, hit_is, lemma_bound_exists, lemma_lookup, lemma_upper_exists};
use crate::order::{
    lemma_lex_asymmetric, lemma_lex_irreflexive, lemma_lex_successor, lemma_lex_total, lex_lt,
};
use crate::types::{
    ikey_before, ikey_from, is_ikey, kind_byte_of, kind_of_byte, lemma_ikey_asymmetric,
    lemma_ikey_from, lemma_ikey_irreflexive, lemma_ikey_parts, lemma_ikey_total,
    lemma_trailer_bound, trailer_of, ukey_of,
};

/// The skiplist type of `crossbeam_skiplist`.
#[verifier::external_type_specification]
#[verifier::external_body]
#[verifier::reject_recursive_types(K)]
#[verifier::reject_recursive_types(V)]
pub struct ExSkipMap<K, V>(crossbeam_skiplist::SkipMap<K, V>);

/// What a skiplist holds.
pub uninterp spec fn skip_contents(
    m: crossbeam_skiplist::SkipMap<(Vec<u8>, u64), Vec<u8>>,
) -> Map<(Seq<u8>, u64), Seq<u8>>;

/// The order of skiplist keys: the byte strings lexicographically, then the
/// numbers, as std orders a pair.
pub open spec fn skip_before(a: (Seq<u8>, u64), b: (Seq<u8>, u64)) -> bool {
    lex_lt(a.0, b.0) || (a.0 == b.0 && a.1 < b.1)
}

/// `SkipMap::new`: an empty map.
#[verifier::external_body]
fn skip_new() -> (m: crossbeam_skiplist::SkipMap<(Vec<u8>, u64), Vec<u8>>)
    ensures
        forall|x: (Seq<u8>, u64)| !#[trigger] skip_contents(m).contains_key(x),
{
    crossbeam_skiplist::SkipMap::new()
}

/// `SkipMap::insert`: the key maps to the value, whatever it mapped to before,
/// and nothing else changes.
#[verifier::external_body]
fn skip_insert(
    m: &mut crossbeam_skiplist::SkipMap<(Vec<u8>, u64), Vec<u8>>,
    key: Vec<u8>,
    rank: u64,
    value: Vec<u8>,
)
    ensures
        skip_contents(*final(m)) == skip_contents(*old(m)).insert((key@, rank), value@),
{
    m.insert((key, rank), value);
}

/// `SkipMap::is_empty`: whether nothing is held.
#[verifier::external_body]
fn skip_is_empty(m: &crossbeam_skiplist::SkipMap<(Vec<u8>, u64), Vec<u8>>) -> (b: bool)
    ensures
        b == (forall|x: (Seq<u8>, u64)| !#[trigger] skip_contents(*m).contains_key(x)),
{
    m.is_empty()
}

/// `SkipMap::lower_bound` at an included bound: the item with the lowest key
/// that is not below the bound, if there is one. Keys are pairs, ordered as
/// `skip_before` says.
#[verifier::external_body]
fn skip_lower_bound(
    m: &crossbeam_skiplist::SkipMap<(Vec<u8>, u64), Vec<u8>>,
    key: Vec<u8>,
    rank: u64,
) -> (r: Option<(Vec<u8>, u64, Vec<u8>)>)
    ensures
        match r {
            Some((k, n, v)) => {
                &&& skip_contents(*m).contains_key((k@, n))
                &&& skip_contents(*m)[(k@, n)] == v@
                &&& !skip_before((k@, n), (key@, rank))
                &&& forall|x: (Seq<u8>, u64)| #[trigger]
                    skip_contents(*m).contains_key(x) && !skip_before(x, (key@, rank))
                        ==> !skip_before(x, (k@, n))
            },
            None => forall|x: (Seq<u8>, u64)| #[trigger]
                skip_contents(*m).contains_key(x) ==> skip_before(x, (key@, rank)),
        },
{
    let found = m.lower_bound(Bound::Included(&(key, rank)));
    found.map(|e| (e.key().0.clone(), e.key().1, e.value().clone()))
}

/// `SkipMap::upper_bound` at an excluded bound: the item with the highest key
/// below the bound, if there is one. Keys are pairs, ordered as `skip_before`
/// says.
#[verifier::external_body]
fn skip_upper_bound(
    m: &crossbeam_skiplist::SkipMap<(Vec<u8>, u64), Vec<u8>>,
    key: Vec<u8>,
    rank: u64,
) -> (r: Option<(Vec<u8>, u64, Vec<u8>)>)
    ensures
        match r {
            Some((k, n, v)) => {
                &&& skip_contents(*m).contains_key((k@, n))
                &&& skip_contents(*m)[(k@, n)] == v@
                &&& skip_before((k@, n), (key@, rank))
                &&& forall|x: (Seq<u8>, u64)| #[trigger]
                    skip_contents(*m).contains_key(x) && skip_before(x, (key@, rank))
                        ==> !skip_before((k@, n), x)
            },
            None => forall|x: (Seq<u8>, u64)| #[trigger]
                skip_contents(*m).contains_key(x) ==> !skip_before(x, (key@, rank)),
        },
{
    let found = m.upper_bound(Bound::Excluded(&(key, rank)));
    found.map(|e| (e.key().0.clone(), e.key().1, e.value().clone()))
}

/// `SkipMap::back`: the item with the highest key, if there is one. Keys are
/// pairs, ordered as `skip_before` says.
#[verifier::external_body]
fn skip_back(m: &crossbeam_skiplist::SkipMap<(Vec<u8>, u64), Vec<u8>>) -> (r: Option<
    (Vec<u8>, u64, Vec<u8>),
>)
    ensures
        match r {
            Some((k, n, v)) => {
                &&& skip_contents(*m).contains_key((k@, n))
                &&& skip_contents(*m)[(k@, n)] == v@
                &&& forall|x: (Seq<u8>, u64)| #[trigger]
                    skip_contents(*m).contains_key(x) ==> !skip_before((k@, n), x)
            },
            None => forall|x: (Seq<u8>, u64)| !#[trigger] skip_contents(*m).contains_key(x),
        },
{
    m.back().map(|e| (e.key().0.clone(), e.key().1, e.value().clone()))
}

/// The skiplist key of an internal key: the trailer counts down, so that the
/// pairs sort as the internal keys do.
pub open spec fn skip_key(ikey: Seq<u8>) -> (Seq<u8>, u64) {
    (ukey_of(ikey), (u64::MAX - trailer_of(ikey)) as u64)
}

/// Skiplist keys sort as internal keys do, and are equal where those are.
pub proof fn lemma_skip_key(a: Seq<u8>, b: Seq<u8>)
    requires
        is_ikey(a),
        is_ikey(b),
    ensures
        skip_before(skip_key(a), skip_key(b)) <==> ikey_before(a, b),
        skip_key(a) == skip_key(b) <==> a == b,
{
    lemma_trailer_bound(a);
    lemma_trailer_bound(b);
    if skip_key(a) == skip_key(b) {
        lemma_ikey_parts(a, b);
    }
}

/// Rough per-entry bookkeeping overhead added to key+value bytes when
/// tracking memtable size.
pub const ENTRY_OVERHEAD: usize = 64;

/// `new` is `old` with `kv` put in, replacing what was stored under its key.
pub open spec fn upserted(old_es: Seq<Kv>, kv: Kv, new_es: Seq<Kv>) -> bool {
    &&& sorted(new_es)
    &&& forall|x: Kv| #[trigger]
        new_es.contains(x) <==> x == kv || (old_es.contains(x) && x.key != kv.key)
}

pub struct Memtable {
    map: crossbeam_skiplist::SkipMap<(Vec<u8>, u64), Vec<u8>>,
    bytes: usize,
    /// The WAL file backing this memtable (1:1).
    pub wal_id: u64,
    es: Ghost<Seq<Kv>>,
}

impl Memtable {
    /// The entries, in internal-key order.
    pub closed spec fn entries(self) -> Seq<Kv> {
        self.es@
    }

    /// The running size.
    pub closed spec fn bytes(self) -> usize {
        self.bytes
    }

    pub closed spec fn wal(self) -> u64 {
        self.wal_id
    }

    pub closed spec fn inv(self) -> bool {
        let m = skip_contents(self.map);
        let es = self.es@;
        &&& sorted(es)
        &&& forall|i: int|
            0 <= i < es.len() ==> m.contains_key(skip_key(#[trigger] es[i].key)) && m[skip_key(
                es[i].key,
            )] == es[i].repr
        &&& forall|x: (Seq<u8>, u64)| #[trigger]
            m.contains_key(x) ==> exists|i: int|
                0 <= i < es.len() && skip_key(#[trigger] es[i].key) == x
    }

    /// The entries are sorted.
    pub proof fn lemma_sorted(self)
        requires
            self.inv(),
        ensures
            sorted(self.entries()),
    {
    }

    pub fn new(wal_id: u64) -> (m: Self)
        ensures
            m.inv(),
            m.entries() == Seq::<Kv>::empty(),
            m.bytes() == 0,
            m.wal() == wal_id,
    {
        Memtable { map: skip_new(), bytes: 0, wal_id, es: Ghost(Seq::empty()) }
    }

    pub fn insert(&mut self, ikey: Vec<u8>, repr: Vec<u8>)
        requires
            old(self).inv(),
            is_ikey(ikey@),
            ikey@.len() + repr@.len() + ENTRY_OVERHEAD <= usize::MAX,
        ensures
            final(self).inv(),
            upserted(old(self).entries(), Kv { key: ikey@, repr: repr@ }, final(self).entries()),
            final(self).bytes() == old(self).bytes().wrapping_add(
                (ikey@.len() + repr@.len() + ENTRY_OVERHEAD) as usize,
            ),
            final(self).wal() == old(self).wal(),
    {
        let sz: usize = ikey.len() + repr.len() + ENTRY_OVERHEAD;
        let ghost es = self.es@;
        let ghost kv = Kv { key: ikey@, repr: repr@ };
        let ghost m0 = skip_contents(self.map);
        let ukey = to_bytes(ikey_ukey(ikey.as_slice()));
        proof {
            lemma_trailer_bound(ikey@);
        }
        let rank: u64 = u64::MAX - ikey_trailer(ikey.as_slice());
        skip_insert(&mut self.map, ukey, rank, repr);
        self.bytes = self.bytes.wrapping_add(sz);
        proof {
            let n = lemma_bound_exists(es, ikey@);
            let same = n < es.len() && es[n].key == ikey@;
            let es2 = if same {
                es.update(n, kv)
            } else {
                es.insert(n, kv)
            };
            self.es = Ghost(es2);
            lemma_upsert(es, kv, n);
            let m = skip_contents(self.map);
            assert(m == m0.insert(skip_key(ikey@), repr@));
            assert forall|i: int| 0 <= i < es2.len() implies m.contains_key(
                skip_key(#[trigger] es2[i].key),
            ) && m[skip_key(es2[i].key)] == es2[i].repr by {
                assert(es2.contains(es2[i]));
                lemma_skip_key(es2[i].key, ikey@);
                if es2[i] != kv {
                    assert(es.contains(es2[i]));
                    let j = choose|j: int| 0 <= j < es.len() && es[j] == es2[i];
                    assert(m0.contains_key(skip_key(es[j].key)));
                }
            }
            assert forall|x: (Seq<u8>, u64)| #[trigger] m.contains_key(x) implies exists|i: int|
                0 <= i < es2.len() && skip_key(#[trigger] es2[i].key) == x by {
                if x == skip_key(ikey@) {
                    assert(es2.contains(kv));
                    let i = choose|i: int| 0 <= i < es2.len() && es2[i] == kv;
                    assert(skip_key(es2[i].key) == x);
                } else {
                    assert(m0.contains_key(x));
                    let j = choose|j: int| 0 <= j < es.len() && skip_key(#[trigger] es[j].key) == x;
                    assert(es.contains(es[j]));
                    assert(es[j].key != ikey@);
                    assert(es2.contains(es[j]));
                    let i = choose|i: int| 0 <= i < es2.len() && es2[i] == es[j];
                    assert(skip_key(es2[i].key) == x);
                }
            }
            assert(sorted(es2));
            assert(m == skip_contents(self.map) && self.es@ == es2);
            assert(self.inv());
        }
    }

    /// The log that holds what this memtable holds.
    pub fn log_id(&self) -> (n: u64)
        ensures
            n == self.wal(),
    {
        self.wal_id
    }

    /// Size as tracked by insertions.
    pub fn approximate_bytes(&self) -> (n: usize)
        ensures
            n == self.bytes(),
    {
        self.bytes
    }

    pub fn is_empty(&self) -> (b: bool)
        requires
            self.inv(),
        ensures
            b == (self.entries().len() == 0),
    {
        proof {
            let m = skip_contents(self.map);
            if self.es@.len() > 0 {
                assert(m.contains_key(skip_key(self.es@[0].key)));
            }
        }
        skip_is_empty(&self.map)
    }

    /// The entry found by the skiplist's lower bound is the lower bound among
    /// the entries.
    fn lower(&self, ikey: &[u8]) -> (r: (Option<(Vec<u8>, Vec<u8>)>, Ghost<int>))
        requires
            self.inv(),
            is_ikey(ikey@),
        ensures
            is_lower_bound(self.entries(), ikey@, r.1@),
            match r.0 {
                Some((k, v)) => r.1@ < self.entries().len() && k@ == self.entries()[r.1@].key && v@
                    == self.entries()[r.1@].repr,
                None => r.1@ == self.entries().len(),
            },
    {
        let ghost es = self.es@;
        let ghost m = skip_contents(self.map);
        proof {
            lemma_trailer_bound(ikey@);
        }
        let found = skip_lower_bound(
            &self.map,
            to_bytes(ikey_ukey(ikey)),
            u64::MAX - ikey_trailer(ikey),
        );
        let ghost n = lemma_bound_exists(es, ikey@);
        match found {
            Some((k, rank, v)) => {
                let mut key: Vec<u8> = k;
                let ghost x = (key@, rank);
                put_u64_be(&mut key, u64::MAX - rank);
                proof {
                    let i = choose|i: int| 0 <= i < es.len() && skip_key(#[trigger] es[i].key) == x;
                    lemma_skip_key(es[i].key, ikey@);
                    lemma_trailer_bound(es[i].key);
                    lemma_ikey_from(x.0, (u64::MAX - rank) as nat);
                    assert(key@ == ikey_from(x.0, (u64::MAX - rank) as nat));
                    lemma_ikey_parts(key@, es[i].key);
                    assert(n <= i);
                    if n < i {
                        lemma_skip_key(es[n].key, ikey@);
                        lemma_skip_key(es[n].key, es[i].key);
                        assert(m.contains_key(skip_key(es[n].key)));
                        assert(ikey_before(es[n].key, es[i].key));
                    }
                }
                (Some((key, v)), Ghost(n))
            },
            None => {
                proof {
                    if n < es.len() {
                        lemma_skip_key(es[n].key, ikey@);
                        assert(m.contains_key(skip_key(es[n].key)));
                    }
                }
                (None, Ghost(n))
            },
        }
    }

    /// The item below a skiplist key, and how many entries stand below it.
    fn below(&self, key: Vec<u8>, rank: u64, n: Ghost<int>) -> (r: Option<(Vec<u8>, Vec<u8>)>)
        requires
            self.inv(),
            0 <= n@ <= self.entries().len(),
            forall|i: int|
                0 <= i < self.entries().len() ==> (skip_before(
                    skip_key(#[trigger] self.entries()[i].key),
                    (key@, rank),
                ) <==> i < n@),
        ensures
            match r {
                Some((k, v)) => n@ > 0 && k@ == self.entries()[n@ - 1].key && v@
                    == self.entries()[n@ - 1].repr,
                None => n@ == 0,
            },
    {
        let ghost es = self.es@;
        let ghost m = skip_contents(self.map);
        let ghost bound = (key@, rank);
        match skip_upper_bound(&self.map, key, rank) {
            Some((k, rank2, v)) => {
                let mut out: Vec<u8> = k;
                let ghost x = (out@, rank2);
                put_u64_be(&mut out, u64::MAX - rank2);
                proof {
                    let i = choose|i: int| 0 <= i < es.len() && skip_key(#[trigger] es[i].key) == x;
                    lemma_trailer_bound(es[i].key);
                    lemma_ikey_from(x.0, (u64::MAX - rank2) as nat);
                    assert(out@ == ikey_from(x.0, (u64::MAX - rank2) as nat));
                    lemma_ikey_parts(out@, es[i].key);
                    assert(i < n@);
                    if i < n@ - 1 {
                        let j = n@ - 1;
                        assert(m.contains_key(skip_key(es[j].key)));
                        assert(skip_before(skip_key(es[j].key), bound));
                        lemma_skip_key(es[i].key, es[j].key);
                        assert(ikey_before(es[i].key, es[j].key));
                    }
                }
                Some((out, v))
            },
            None => {
                proof {
                    if n@ > 0 {
                        assert(m.contains_key(skip_key(es[n@ - 1].key)));
                    }
                }
                None
            },
        }
    }

    /// Newest version of `ukey` with `seqno <= seq`, if any; a version of an
    /// unknown kind reads as none.
    pub fn get(&self, ukey: &[u8], seq: SeqNo) -> (r: Option<(ValueKind, SeqNo, Vec<u8>)>)
        requires
            self.inv(),
            seq <= MAX_SEQNO,
        ensures
            match find_newest(self.entries(), ukey@, seq as nat) {
                Some(kv) => if kind_of_byte(kind_byte_of(kv.key)) is Some {
                    r matches Some(h) && hit_is(h, kv)
                } else {
                    r is None
                },
                None => r is None,
            },
    {
        let target = make_seek_ikey(ukey, seq);
        proof {
            lemma_ikey_from(ukey@, seq as nat * 256 + 255);
        }
        let (found, at) = self.lower(target.as_slice());
        proof {
            lemma_lookup(self.es@, ukey@, seq, at@);
        }
        match found {
            Some((k, v)) => {
                if !bytes_eq(ikey_ukey(k.as_slice()), ukey) {
                    return None;
                }
                match ikey_kind(k.as_slice()) {
                    Ok(kind) => Some((kind, ikey_seqno(k.as_slice()), v)),
                    Err(_) => None,
                }
            },
            None => None,
        }
    }

    /// A cursor that is not positioned yet.
    pub fn iter(&self) -> (it: MemIter<'_>)
        requires
            self.inv(),
        ensures
            it.inv(),
            it.entries() == self.entries(),
            it.pos() == -1,
    {
        MemIter { cur: None, mt: self, at: Ghost(-1) }
    }
}

/// Putting an entry in at its lower bound keeps the order.
proof fn lemma_upsert(es: Seq<Kv>, kv: Kv, n: int)
    requires
        sorted(es),
        is_ikey(kv.key),
        is_lower_bound(es, kv.key, n),
    ensures
        upserted(
            es,
            kv,
            (if n < es.len() && es[n].key == kv.key {
                es.update(n, kv)
            } else {
                es.insert(n, kv)
            }),
        ),
{
    let same = n < es.len() && es[n].key == kv.key;
    let es2 = if same {
        es.update(n, kv)
    } else {
        es.insert(n, kv)
    };
    lemma_ikey_irreflexive(kv.key);
    assert forall|i: int| n <= i < es.len() && !(same && i == n) implies ikey_before(
        kv.key,
        #[trigger] es[i].key,
    ) by {
        lemma_ikey_total(kv.key, es[i].key);
        if es[i].key == kv.key && i > n {
            assert(ikey_before(es[n].key, es[i].key));
        }
        if same {
            assert(ikey_before(es[n].key, es[i].key));
        }
    }
    // where each new entry comes from
    let shift = |i: int| -> int { if same || i < n { i } else { i - 1 } };
    assert forall|i: int| 0 <= i < es2.len() implies is_ikey(#[trigger] es2[i].key) by {
        if i != n {
            assert(es2[i] == es[shift(i)]);
        }
    }
    assert forall|i: int, j: int| 0 <= i < j < es2.len() implies ikey_before(
        #[trigger] es2[i].key,
        #[trigger] es2[j].key,
    ) by {
        if i != n {
            assert(es2[i] == es[shift(i)]);
        }
        if j != n {
            assert(es2[j] == es[shift(j)]);
        }
    }
    assert forall|x: Kv| #[trigger] es2.contains(x) <==> x == kv || (es.contains(x) && x.key
        != kv.key) by {
        if es2.contains(x) {
            let i = choose|i: int| 0 <= i < es2.len() && es2[i] == x;
            if i != n {
                assert(es2[i] == es[shift(i)]);
                if shift(i) < n {
                    assert(ikey_before(es[shift(i)].key, kv.key));
                } else {
                    assert(ikey_before(kv.key, es[shift(i)].key));
                }
            }
        }
        if x == kv {
            assert(es2[n] == kv);
        } else if es.contains(x) && x.key != kv.key {
            let j = choose|j: int| 0 <= j < es.len() && es[j] == x;
            if same || j < n {
                assert(es2[j] == x);
            } else {
                assert(es2[j + 1] == x);
            }
        }
    }
}

/// Memtable cursor: the current entry, held by value.
pub struct MemIter<'a> {
    cur: Option<(Vec<u8>, Vec<u8>)>,
    mt: &'a Memtable,
    at: Ghost<int>,
}

impl<'a> InternalIterator for MemIter<'a> {
    closed spec fn entries(&self) -> Seq<Kv> {
        self.mt.entries()
    }

    closed spec fn pos(&self) -> int {
        self.at@
    }

    closed spec fn inv(&self) -> bool {
        let es = self.mt.entries();
        &&& self.mt.inv()
        &&& match self.cur {
            Some((k, v)) => 0 <= self.at@ < es.len() && k@ == es[self.at@].key && v@
                == es[self.at@].repr,
            None => !(0 <= self.at@ < es.len()),
        }
    }

    proof fn lemma_inv(&self) {
    }

    fn seek_to_first(&mut self) {
        let lowest: Vec<u8> = vec![0xff, 0xff, 0xff, 0xff, 0xff, 0xff, 0xff, 0xff];
        let ghost es = self.mt.entries();
        let (cur, at) = self.mt.lower(lowest.as_slice());
        proof {
            // nothing sorts before the empty key with the greatest trailer
            if at@ > 0 {
                let k = es[0].key;
                assert(ikey_before(k, lowest@));
                assert(lowest@.take(0).len() == 0);
                lemma_trailer_bound(k);
                assert(trailer_of(lowest@) == u64::MAX) by {
                    assert(lowest@.skip(0) =~= lowest@);
                    reveal_with_fuel(crate::coding::be_value, 9);
                }
                assert(ukey_of(lowest@) =~= Seq::<u8>::empty());
                assert(false);
            }
        }
        self.cur = cur;
        self.at = Ghost(0);
    }

    fn seek_to_last(&mut self) {
        let ghost es = self.mt.entries();
        let ghost m = skip_contents(self.mt.map);
        match skip_back(&self.mt.map) {
            Some((k, rank, v)) => {
                let mut key: Vec<u8> = k;
                let ghost x = (key@, rank);
                put_u64_be(&mut key, u64::MAX - rank);
                proof {
                    let i = choose|i: int| 0 <= i < es.len() && skip_key(#[trigger] es[i].key) == x;
                    lemma_trailer_bound(es[i].key);
                    lemma_ikey_from(x.0, (u64::MAX - rank) as nat);
                    assert(key@ == ikey_from(x.0, (u64::MAX - rank) as nat));
                    lemma_ikey_parts(key@, es[i].key);
                    let last = es.len() - 1;
                    if i < last {
                        assert(m.contains_key(skip_key(es[last].key)));
                        lemma_skip_key(es[i].key, es[last].key);
                        assert(ikey_before(es[i].key, es[last].key));
                    }
                }
                self.cur = Some((key, v));
            },
            None => {
                proof {
                    if es.len() > 0 {
                        assert(m.contains_key(skip_key(es[0].key)));
                    }
                }
                self.cur = None;
            },
        }
        self.at = Ghost(es.len() - 1);
    }

    fn seek(&mut self, ikey: &[u8]) {
        let (cur, at) = self.mt.lower(ikey);
        self.cur = cur;
        self.at = at;
    }

    fn seek_for_prev(&mut self, ikey: &[u8]) {
        let ghost es = self.mt.entries();
        let ghost n = lemma_upper_exists(es, ikey@);
        proof {
            lemma_trailer_bound(ikey@);
        }
        let ukey = to_bytes(ikey_ukey(ikey));
        let rank: u64 = u64::MAX - ikey_trailer(ikey);
        // the least key above ikey's
        let ghost x = (ukey@, rank);
        let mut bound = ukey;
        let mut bound_rank: u64 = 0;
        if rank < u64::MAX {
            bound_rank = rank + 1;
        } else {
            bound.push(0);
        }
        proof {
            assert forall|i: int| 0 <= i < es.len() implies (skip_before(
                skip_key(#[trigger] es[i].key),
                (bound@, bound_rank),
            ) <==> i < n) by {
                lemma_skip_key(es[i].key, ikey@);
                lemma_skip_key(ikey@, es[i].key);
                lemma_ikey_total(es[i].key, ikey@);
                if i >= n {
                    lemma_ikey_asymmetric(ikey@, es[i].key);
                }
                let y = skip_key(es[i].key);
                lemma_lex_irreflexive(x.0);
                lemma_lex_total(x.0, y.0);
                if rank == u64::MAX {
                    lemma_lex_successor(x.0, y.0);
                    lemma_lex_total(y.0, bound@);
                    lemma_lex_irreflexive(bound@);
                    if lex_lt(y.0, bound@) {
                        lemma_lex_asymmetric(y.0, bound@);
                    }
                    if lex_lt(bound@, y.0) {
                        lemma_lex_asymmetric(bound@, y.0);
                    }
                    if lex_lt(x.0, y.0) {
                        lemma_lex_asymmetric(x.0, y.0);
                    }
                }
            }
        }
        self.cur = self.mt.below(bound, bound_rank, Ghost(n));
        self.at = Ghost(n - 1);
    }

    fn valid(&self) -> bool {
        self.cur.is_some()
    }

    fn next(&mut self) {
        let ghost es = self.mt.entries();
        let ghost p = self.at@;
        if let Some((k, _)) = &self.cur {
            proof {
                self.mt.lemma_sorted();
                lemma_trailer_bound(k@);
            }
            let mut bound = to_bytes(ikey_ukey(k.as_slice()));
            let trailer: u64 = ikey_trailer(k.as_slice());
            let ghost x = ukey_of(k@);
            // the least internal key above the current one
            let target: Vec<u8> = if trailer > 0 {
                put_u64_be(&mut bound, trailer - 1);
                proof {
                    lemma_ikey_from(x, (trailer - 1) as nat);
                    assert(bound@ == ikey_from(x, (trailer - 1) as nat));
                }
                bound
            } else {
                bound.push(0);
                let ghost x0 = bound@;
                put_u64_be(&mut bound, u64::MAX);
                proof {
                    lemma_ikey_from(x0, u64::MAX as nat);
                    assert(bound@ == ikey_from(x0, u64::MAX as nat));
                }
                bound
            };
            let (cur, at) = self.mt.lower(target.as_slice());
            proof {
                assert forall|i: int| 0 <= i < es.len() implies (ikey_before(
                    #[trigger] es[i].key,
                    target@,
                ) <==> i <= p) by {
                    let y = ukey_of(es[i].key);
                    lemma_trailer_bound(es[i].key);
                    lemma_ikey_total(es[i].key, k@);
                    lemma_lex_irreflexive(x);
                    lemma_lex_total(x, y);
                    if lex_lt(x, y) {
                        lemma_lex_asymmetric(x, y);
                    }
                    if lex_lt(y, x) {
                        lemma_lex_asymmetric(y, x);
                    }
                    if i > p {
                        assert(ikey_before(es[p].key, es[i].key));
                        lemma_ikey_asymmetric(es[p].key, es[i].key);
                    }
                    if i < p {
                        assert(ikey_before(es[i].key, es[p].key));
                    }
                    if trailer == 0 {
                        lemma_lex_successor(x, y);
                        let b = x.push(0);
                        lemma_lex_total(y, b);
                        lemma_lex_irreflexive(b);
                        if lex_lt(y, b) {
                            lemma_lex_asymmetric(y, b);
                        }
                        if lex_lt(b, y) {
                            lemma_lex_asymmetric(b, y);
                        }
                    }
                }
                let n = at@;
                if n <= p {
                    assert(ikey_before(es[n].key, target@));
                    assert(false);
                }
                if n > p + 1 {
                    assert(ikey_before(es[p + 1].key, target@));
                    assert(false);
                }
            }
            self.cur = cur;
            self.at = Ghost(p + 1);
        }
    }

    fn prev(&mut self) {
        let ghost es = self.mt.entries();
        let ghost p = self.at@;
        let mut found: Option<(Vec<u8>, Vec<u8>)> = None;
        if let Some((k, _)) = &self.cur {
            proof {
                self.mt.lemma_sorted();
                lemma_trailer_bound(k@);
                assert forall|i: int| 0 <= i < es.len() implies (skip_before(
                    skip_key(#[trigger] es[i].key),
                    skip_key(k@),
                ) <==> i < p) by {
                    lemma_skip_key(es[i].key, k@);
                    lemma_ikey_irreflexive(k@);
                    if i < p {
                        assert(ikey_before(es[i].key, es[p].key));
                    }
                    if i > p {
                        assert(ikey_before(es[p].key, es[i].key));
                        lemma_ikey_asymmetric(es[p].key, es[i].key);
                    }
                }
            }
            let ukey = to_bytes(ikey_ukey(k.as_slice()));
            let rank: u64 = u64::MAX - ikey_trailer(k.as_slice());
            found = self.mt.below(ukey, rank, Ghost(p));
        }
        self.cur = found;
        self.at = Ghost(p - 1);
    }

    fn ikey(&self) -> &[u8] {
        match &self.cur {
            Some((k, _)) => k.as_slice(),
            None => {
                assert(false);
                &[]
            },
        }
    }

    fn value(&self) -> &[u8] {
        match &self.cur {
            Some((_, v)) => v.as_slice(),
            None => {
                assert(false);
                &[]
            },
        }
    }
}

} // verus!
