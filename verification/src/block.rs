//! SST data block: a flat run of entries plus an offset array enabling
//! in-block binary search.
//!
//! Payload layout:
//! `([iklen varint][rlen varint][ikey][repr])*  [u32 entry_off]* [u32 count]`

use vstd::prelude::*;

use crate::coding::{le_u64, put_bytes, put_u32, put_uvarint, Reader};
use crate::error::{corrupt, Error, Result};
use crate::iter::InternalIterator;
use crate::order::bytes_eq;
use crate::types::ikey_lt;

verus! {

use crate::coding::{
    enc_list, enc_u32, enc_uvarint, le_value, lemma_bytes_roundtrip, lemma_le_bound, lemma_le_len,
    lemma_le_roundtrip, lemma_pow256_values, lemma_uvarint_roundtrip, p_bytes, p_uvarint,
};
use crate::iter::{is_lower_bound, sorted, Kv};
use crate::mvcc::lemma_bound_exists;
use crate::order::{bisect, lemma_bisect_parts};
use crate::types::{ikey_before, is_ikey, lemma_ikey_total, lemma_ikey_transitive};

/// The bytes of one entry.
pub open spec fn enc_kv(kv: Kv) -> Seq<u8> {
    enc_uvarint(kv.key.len() as u64) + enc_uvarint(kv.repr.len() as u64) + kv.key + kv.repr
}

pub open spec fn enc_kvs(es: Seq<Kv>) -> Seq<u8> {
    enc_list(es, |kv: Kv| enc_kv(kv))
}

/// Where entry `i` begins in the entry region.
pub open spec fn kv_offset(es: Seq<Kv>, i: int) -> nat {
    enc_kvs(es.take(i)).len()
}

pub open spec fn enc_offsets(es: Seq<Kv>, n: nat) -> Seq<u8>
    decreases n,
{
    if n == 0 {
        Seq::empty()
    } else {
        enc_offsets(es, (n - 1) as nat) + enc_u32(kv_offset(es, n - 1) as u32)
    }
}

/// The payload of a block.
pub open spec fn enc_block(es: Seq<Kv>) -> Seq<u8> {
    enc_kvs(es) + enc_offsets(es, es.len()) + enc_u32(es.len() as u32)
}

/// The entry count that a payload announces.
pub open spec fn count_of(d: Seq<u8>) -> nat {
    le_value(d.skip(d.len() - 4))
}

/// The payload is long enough for its count and its offset array.
pub open spec fn header_ok(d: Seq<u8>) -> bool {
    d.len() >= 4 && 4 * count_of(d) + 4 <= d.len()
}

/// Where the entry region ends.
pub open spec fn entries_end_of(d: Seq<u8>) -> int {
    d.len() - (4 * count_of(d) + 4)
}

/// The stored offset of entry `i`.
pub open spec fn offset_of(d: Seq<u8>, i: int) -> nat {
    le_value(d.subrange(entries_end_of(d) + 4 * i, entries_end_of(d) + 4 * i + 4))
}

pub open spec fn p_kv(s: Seq<u8>) -> Option<(Kv, Seq<u8>)> {
    match p_uvarint(s) {
        Some((iklen, s1)) => match p_uvarint(s1) {
            Some((rlen, s2)) => if iklen < 8 {
                None
            } else {
                match p_bytes(s2, iklen as nat) {
                    Some((key, s3)) => match p_bytes(s3, rlen as nat) {
                        Some((repr, s4)) => Some((Kv { key, repr }, s4)),
                        None => None,
                    },
                    None => None,
                }
            },
            None => None,
        },
        None => None,
    }
}

/// Entry `i` of a payload.
pub open spec fn p_block_entry(d: Seq<u8>, i: int) -> Option<Kv> {
    if offset_of(d, i) >= entries_end_of(d) {
        None
    } else {
        match p_kv(d.subrange(offset_of(d, i) as int, entries_end_of(d))) {
            Some((kv, _)) => Some(kv),
            None => None,
        }
    }
}

/// Every entry of a payload can be read.
pub open spec fn block_parses(d: Seq<u8>) -> bool {
    forall|i: int| 0 <= i < count_of(d) ==> (#[trigger] p_block_entry(d, i)) is Some
}

/// The entries of a payload.
pub open spec fn block_entries(d: Seq<u8>) -> Seq<Kv> {
    Seq::new(count_of(d), |i: int| p_block_entry(d, i)->Some_0)
}

/// A payload whose entries can all be read and stand in order.
pub open spec fn block_ok(d: Seq<u8>) -> bool {
    header_ok(d) && block_parses(d) && sorted(block_entries(d))
}

proof fn lemma_kv_roundtrip(kv: Kv, tail: Seq<u8>)
    requires
        is_ikey(kv.key),
        kv.key.len() <= u64::MAX,
        kv.repr.len() <= u64::MAX,
    ensures
        p_kv(enc_kv(kv) + tail) == Some((kv, tail)),
{
    let s3 = kv.repr + tail;
    let s2 = kv.key + s3;
    let s1 = enc_uvarint(kv.repr.len() as u64) + s2;
    assert(enc_kv(kv) + tail =~= enc_uvarint(kv.key.len() as u64) + s1);
    lemma_uvarint_roundtrip(kv.key.len() as u64, s1);
    lemma_uvarint_roundtrip(kv.repr.len() as u64, s2);
    lemma_bytes_roundtrip(kv.key, s3);
    lemma_bytes_roundtrip(kv.repr, tail);
}

proof fn lemma_kvs_split(es: Seq<Kv>, i: int)
    requires
        0 <= i < es.len(),
    ensures
        kv_offset(es, i) < enc_kvs(es).len(),
        exists|tail: Seq<u8>|
            #![trigger enc_kv(es[i]) + tail]
            enc_kvs(es).skip(kv_offset(es, i) as int) == enc_kv(es[i]) + tail,
    decreases es.len(),
{
    let init = es.drop_last();
    let f = |kv: Kv| enc_kv(kv);
    assert(enc_kvs(es) == enc_kvs(init) + enc_kv(es.last()));
    if i == es.len() - 1 {
        assert(es.take(i) =~= init);
        lemma_uvarint_roundtrip(es[i].key.len() as u64, Seq::empty());
        assert(enc_kvs(es).skip(kv_offset(es, i) as int) =~= enc_kv(es[i]) + Seq::<u8>::empty());
    } else {
        lemma_kvs_split(init, i);
        assert(init.take(i) =~= es.take(i));
        let t = choose|tail: Seq<u8>|
            #![trigger enc_kv(init[i]) + tail]
            enc_kvs(init).skip(kv_offset(init, i) as int) == enc_kv(init[i]) + tail;
        let tail = t + enc_kv(es.last());
        assert(enc_kvs(es).skip(kv_offset(es, i) as int) =~= enc_kv(es[i]) + tail) by {
            assert(enc_kvs(es).skip(kv_offset(es, i) as int) =~= enc_kvs(init).skip(
                kv_offset(init, i) as int,
            ) + enc_kv(es.last()));
        }
    }
}

proof fn lemma_offsets_at(es: Seq<Kv>, n: nat, i: int)
    requires
        0 <= i < n,
    ensures
        enc_offsets(es, n).len() == 4 * n,
        enc_offsets(es, n).subrange(4 * i, 4 * i + 4) == enc_u32(kv_offset(es, i) as u32),
    decreases n,
{
    lemma_le_len(kv_offset(es, n - 1) as u32 as nat, 4);
    if n > 1 {
        lemma_offsets_at(es, (n - 1) as nat, if i < n - 1 { i } else { 0 });
    }
    let a = enc_offsets(es, (n - 1) as nat);
    let b = enc_u32(kv_offset(es, n - 1) as u32);
    if i == n - 1 {
        assert((a + b).subrange(4 * i, 4 * i + 4) =~= b);
    } else {
        assert((a + b).subrange(4 * i, 4 * i + 4) =~= a.subrange(4 * i, 4 * i + 4));
    }
}

/// What one more entry adds to a block.
pub proof fn lemma_enc_block_push(es: Seq<Kv>, kv: Kv)
    ensures
        enc_block(es).len() == enc_kvs(es).len() + 4 * es.len() + 4,
        enc_block(es.push(kv)).len() == enc_block(es).len() + enc_kv(kv).len() + 4,
        enc_kvs(es.push(kv)).len() == enc_kvs(es).len() + enc_kv(kv).len(),
        enc_kv(kv).len() > 0,
{
    let es2 = es.push(kv);
    assert(es2.drop_last() =~= es);
    assert(enc_kvs(es2) == enc_kvs(es) + enc_kv(kv));
    lemma_uvarint_roundtrip(kv.key.len() as u64, Seq::empty());
    lemma_uvarint_roundtrip(kv.repr.len() as u64, Seq::empty());
    lemma_le_len(es.len() as u32 as nat, 4);
    lemma_le_len(es2.len() as u32 as nat, 4);
    lemma_offsets_at(es2, es2.len(), 0);
    if es.len() > 0 {
        lemma_offsets_at(es, es.len(), 0);
    }
}

/// How many bytes an entry takes, without its place in the offset array.
pub fn entry_len(ikey: &[u8], repr: &[u8]) -> (n: u128)
    ensures
        n == enc_kv(Kv { key: ikey@, repr: repr@ }).len(),
        n <= 2 * usize::MAX + 20,
{
    let mut lens: Vec<u8> = Vec::new();
    put_uvarint(&mut lens, ikey.len() as u64);
    put_uvarint(&mut lens, repr.len() as u64);
    proof {
        lemma_uvarint_roundtrip(ikey@.len() as u64, Seq::empty());
        lemma_uvarint_roundtrip(repr@.len() as u64, Seq::empty());
    }
    lens.len() as u128 + ikey.len() as u128 + repr.len() as u128
}

/// Entries that a block can hold: each carries a trailer, and positions fit
/// the offset array.
pub open spec fn block_fits(es: Seq<Kv>) -> bool {
    &&& es.len() <= u32::MAX
    &&& enc_kvs(es).len() <= u32::MAX
    &&& forall|i: int| 0 <= i < es.len() ==> is_ikey(#[trigger] es[i].key)
    &&& forall|i: int|
        0 <= i < es.len() ==> (#[trigger] es[i]).key.len() <= u64::MAX && es[i].repr.len()
            <= u64::MAX
}

/// A block gives back exactly the entries that it was built from.
pub proof fn lemma_block_roundtrip(es: Seq<Kv>)
    requires
        block_fits(es),
    ensures
        header_ok(enc_block(es)),
        block_parses(enc_block(es)),
        block_entries(enc_block(es)) == es,
{
    let d = enc_block(es);
    let n = es.len();
    let a = enc_kvs(es);
    let b = enc_offsets(es, n);
    let c = enc_u32(n as u32);
    lemma_pow256_values();
    lemma_le_roundtrip(n, 4);
    if n > 0 {
        lemma_offsets_at(es, n, 0);
    }
    assert(b.len() == 4 * n);
    assert(d.skip(d.len() - 4) =~= c);
    assert(count_of(d) == n);
    assert(entries_end_of(d) == a.len());
    assert forall|i: int| 0 <= i < n implies #[trigger] p_block_entry(d, i) == Some(es[i]) by {
        lemma_offsets_at(es, n, i);
        lemma_kvs_split(es, i);
        let off = kv_offset(es, i);
        let e = a.len() as int;
        assert(d.subrange(e + 4 * i, e + 4 * i + 4) =~= b.subrange(4 * i, 4 * i + 4));
        lemma_le_roundtrip(off, 4);
        assert(offset_of(d, i) == off);
        assert(d.subrange(off as int, e) =~= a.skip(off as int));
        let tail = choose|tail: Seq<u8>|
            #![trigger enc_kv(es[i]) + tail]
            a.skip(off as int) == enc_kv(es[i]) + tail;
        lemma_kv_roundtrip(es[i], tail);
    }
    assert(block_entries(d) =~= es);
}

/// Collects entries into a block payload.
pub struct BlockBuilder {
    buf: Vec<u8>,
    offsets: Vec<u32>,
    es: Ghost<Seq<Kv>>,
}

impl BlockBuilder {
    /// The entries added since the last `finish`.
    pub closed spec fn entries(self) -> Seq<Kv> {
        self.es@
    }

    pub closed spec fn inv(self) -> bool {
        &&& self.buf@ == enc_kvs(self.es@)
        &&& self.offsets@.len() == self.es@.len()
        &&& forall|i: int|
            0 <= i < self.es@.len() ==> #[trigger] self.offsets@[i] == kv_offset(
                self.es@,
                i,
            ) as u32
        &&& self.es@.len() <= enc_kvs(self.es@).len()
    }

    pub fn new() -> (b: Self)
        ensures
            b.inv(),
            b.entries() == Seq::<Kv>::empty(),
    {
        let b = BlockBuilder { buf: Vec::new(), offsets: Vec::new(), es: Ghost(Seq::empty()) };
        assert(b.buf@ =~= enc_kvs(b.es@));
        b
    }

    pub fn add(&mut self, ikey: &[u8], repr: &[u8])
        requires
            old(self).inv(),
        ensures
            final(self).inv(),
            final(self).entries() == old(self).entries().push(Kv { key: ikey@, repr: repr@ }),
    {
        let ghost es = self.es@;
        let ghost kv = Kv { key: ikey@, repr: repr@ };
        let ghost before = self.buf@;
        #[verifier::truncate]
        let off: u32 = self.buf.len() as u32;
        self.offsets.push(off);
        put_uvarint(&mut self.buf, ikey.len() as u64);
        put_uvarint(&mut self.buf, repr.len() as u64);
        put_bytes(&mut self.buf, ikey);
        put_bytes(&mut self.buf, repr);
        self.es = Ghost(es.push(kv));
        proof {
            let es2 = es.push(kv);
            assert(es2.drop_last() =~= es);
            assert(enc_kvs(es2) == enc_kvs(es) + enc_kv(kv));
            assert(self.buf@ =~= enc_kvs(es2));
            lemma_uvarint_roundtrip(ikey@.len() as u64, Seq::empty());
            assert forall|i: int| 0 <= i < es2.len() implies #[trigger] self.offsets@[i]
                == kv_offset(es2, i) as u32 by {
                assert(es2.take(i) =~= es.take(i));
                if i == es.len() {
                    assert(es.take(i) =~= es);
                }
            }
        }
    }

    pub fn is_empty(&self) -> (b: bool)
        requires
            self.inv(),
        ensures
            b == (self.entries().len() == 0),
    {
        self.offsets.len() == 0
    }

    /// Length of the payload that `finish` would give.
    pub fn size_estimate(&self) -> (n: usize)
        requires
            self.inv(),
            enc_block(self.entries()).len() <= usize::MAX,
        ensures
            n == enc_block(self.entries()).len(),
    {
        proof {
            let es = self.es@;
            lemma_le_len(es.len() as u32 as nat, 4);
            if es.len() > 0 {
                lemma_offsets_at(es, es.len(), 0);
            }
        }
        self.buf.len() + self.offsets.len() * 4 + 4
    }

    /// The payload; the builder starts over.
    pub fn finish(&mut self) -> (out: Vec<u8>)
        requires
            old(self).inv(),
        ensures
            final(self).inv(),
            final(self).entries() == Seq::<Kv>::empty(),
            out@ == enc_block(old(self).entries()),
    {
        let ghost es = self.es@;
        let mut out: Vec<u8> = Vec::new();
        put_bytes(&mut out, self.buf.as_slice());
        let mut i: usize = 0;
        assert(out@ =~= enc_kvs(es) + enc_offsets(es, 0));
        while i < self.offsets.len()
            invariant
                i <= self.offsets@.len(),
                self.offsets@.len() == es.len(),
                forall|k: int|
                    0 <= k < es.len() ==> #[trigger] self.offsets@[k] == kv_offset(es, k) as u32,
                out@ == enc_kvs(es) + enc_offsets(es, i as nat),
            decreases self.offsets@.len() - i,
        {
            put_u32(&mut out, self.offsets[i]);
            assert(out@ =~= enc_kvs(es) + enc_offsets(es, (i + 1) as nat));
            i += 1;
        }
        #[verifier::truncate]
        let count: u32 = self.offsets.len() as u32;
        put_u32(&mut out, count);
        self.buf.clear();
        self.offsets.clear();
        self.es = Ghost(Seq::empty());
        proof {
            assert(out@ =~= enc_block(es));
            assert(self.buf@ =~= enc_kvs(self.es@));
        }
        out
    }
}

impl Default for BlockBuilder {
    fn default() -> (b: Self)
        ensures
            b.inv(),
            b.entries() == Seq::<Kv>::empty(),
    {
        BlockBuilder::new()
    }
}

/// Whether entry `i` sorts before the target, where it can be read.
pub open spec fn block_probe(d: Seq<u8>, target: Seq<u8>) -> spec_fn(int) -> Option<bool> {
    |i: int|
        match p_block_entry(d, i) {
            Some(kv) => Some(ikey_before(kv.key, target)),
            None => None,
        }
}

/// Where the search for the target ends in a payload; nothing where it meets an
/// entry that cannot be read.
pub open spec fn block_search(d: Seq<u8>, target: Seq<u8>) -> Option<int> {
    bisect(block_probe(d, target), 0, count_of(d) as int)
}

/// In a payload whose entries stand in order, the search ends at the first entry
/// that does not sort before the target.
pub proof fn lemma_block_search(d: Seq<u8>, target: Seq<u8>)
    requires
        block_ok(d),
        is_ikey(target),
    ensures
        block_search(d, target) matches Some(n) && is_lower_bound(block_entries(d), target, n),
{
    let es = block_entries(d);
    let n = lemma_bound_exists(es, target);
    assert forall|i: int| 0 <= i < es.len() implies #[trigger] block_probe(d, target)(i) == Some(
        i < n,
    ) by {
        assert(p_block_entry(d, i) is Some);
        assert(es[i] == p_block_entry(d, i)->Some_0);
    }
    lemma_bisect_parts(block_probe(d, target), 0, count_of(d) as int, n);
}

/// Parsed view over an immutable block payload.
pub struct Block {
    data: Vec<u8>,
    entries_end: usize,
    count: usize,
}

impl Block {
    /// The payload.
    pub closed spec fn payload(self) -> Seq<u8> {
        self.data@
    }

    #[verifier::type_invariant]
    spec fn parsed(self) -> bool {
        &&& header_ok(self.data@)
        &&& self.count == count_of(self.data@)
        &&& self.entries_end == entries_end_of(self.data@)
    }

    pub fn new(data: Vec<u8>) -> (r: Result<Self>)
        ensures
            match r {
                Ok(b) => header_ok(data@) && b.payload() == data@,
                Err(e) => e is Corruption && !header_ok(data@),
            },
    {
        if data.len() < 4 {
            return Err(corrupt("block too small"));
        }
        let tail = vstd::slice::slice_subrange(data.as_slice(), data.len() - 4, data.len());
        proof {
            assert(tail@ =~= data@.skip(data@.len() - 4));
            lemma_le_bound(tail@);
            lemma_pow256_values();
        }
        let count64: u64 = le_u64(tail);
        let array_len: u64 = count64 * 4 + 4;
        if array_len > data.len() as u64 {
            return Err(corrupt("block offset array beyond payload"));
        }
        let count: usize = count64 as usize;
        let entries_end: usize = data.len() - array_len as usize;
        Ok(Block { data, entries_end, count })
    }

    pub fn count(&self) -> (n: usize)
        ensures
            n == count_of(self.payload()),
            header_ok(self.payload()),
            n <= usize::MAX / 4,
    {
        proof {
            use_type_invariant(self);
            assert(self.data.len() == self.data@.len());
        }
        self.count
    }

    fn entry_off(&self, i: usize) -> (n: usize)
        requires
            i < count_of(self.payload()),
        ensures
            n == offset_of(self.payload(), i as int),
    {
        proof {
            use_type_invariant(self);
            assert(self.data.len() == self.data@.len());
        }
        let at: usize = self.entries_end + i * 4;
        let s = vstd::slice::slice_subrange(self.data.as_slice(), at, at + 4);
        proof {
            lemma_le_bound(s@);
            lemma_pow256_values();
        }
        le_u64(s) as usize
    }

    /// (internal_key, repr) of entry `i`.
    pub fn entry(&self, i: usize) -> (r: Result<(&[u8], &[u8])>)
        requires
            i < count_of(self.payload()),
        ensures
            match p_block_entry(self.payload(), i as int) {
                Some(kv) => r matches Ok((k, v)) && k@ == kv.key && v@ == kv.repr && is_ikey(k@),
                None => r matches Err(Error::Corruption(_)),
            },
    {
        proof {
            use_type_invariant(self);
        }
        let off: usize = self.entry_off(i);
        if off >= self.entries_end {
            return Err(corrupt("entry offset beyond entry region"));
        }
        let mut r = Reader::new(
            vstd::slice::slice_subrange(self.data.as_slice(), off, self.entries_end),
        );
        let iklen: u64 = r.uvarint()?;
        let rlen: u64 = r.uvarint()?;
        if iklen < 8 {
            return Err(corrupt("internal key shorter than trailer"));
        }
        if iklen > r.remaining() as u64 {
            return Err(corrupt("short read while decoding"));
        }
        let ikey = r.bytes(iklen as usize)?;
        if rlen > r.remaining() as u64 {
            return Err(corrupt("short read while decoding"));
        }
        let repr = r.bytes(rlen as usize)?;
        Ok((ikey, repr))
    }

    /// Index of the first entry with `ikey >= target` (== count when none).
    /// A block with an unreadable entry may fail instead.
    pub fn lower_bound(&self, target: &[u8]) -> (r: Result<usize>)
        requires
            is_ikey(target@),
        ensures
            r matches Ok(n) ==> n <= count_of(self.payload()),
            r matches Err(e) ==> e is Corruption && !block_parses(self.payload()),
            block_ok(self.payload()) ==> (r matches Ok(n) && is_lower_bound(
                block_entries(self.payload()),
                target@,
                n as int,
            )),
            match block_search(self.payload(), target@) {
                Some(n) => r matches Ok(x) && x == n,
                None => r is Err,
            },
    {
        let ghost d = self.payload();
        let ghost es = block_entries(d);
        let mut lo: usize = 0;
        let mut hi: usize = self.count();
        while lo < hi
            invariant
                is_ikey(target@),
                d == self.payload(),
                es == block_entries(d),
                lo <= hi <= count_of(d),
                count_of(d) <= usize::MAX / 4,
                block_search(d, target@) == bisect(
                    block_probe(d, target@),
                    lo as int,
                    hi as int,
                ),
                block_ok(d) ==> forall|i: int|
                    0 <= i < lo ==> ikey_before(#[trigger] es[i].key, target@),
                block_ok(d) ==> forall|i: int|
                    hi <= i < es.len() ==> !ikey_before(#[trigger] es[i].key, target@),
            decreases hi - lo,
        {
            let mid: usize = (lo + hi) / 2;
            let (k, _) = self.entry(mid)?;
            proof {
                assert(es[mid as int] == p_block_entry(d, mid as int)->Some_0);
                if block_ok(d) {
                    assert forall|i: int| 0 <= i < es.len() && i != mid implies (i < mid ==> (
                    ikey_before(es[mid as int].key, target@) ==> ikey_before(
                        #[trigger] es[i].key,
                        target@,
                    ))) && (i > mid ==> (!ikey_before(es[mid as int].key, target@)
                        ==> !ikey_before(es[i].key, target@))) by {
                        if i < mid {
                            if ikey_before(es[mid as int].key, target@) {
                                lemma_ikey_transitive(es[i].key, es[mid as int].key, target@);
                            }
                        } else {
                            if ikey_before(es[i].key, target@) {
                                lemma_ikey_transitive(es[mid as int].key, es[i].key, target@);
                            }
                        }
                    }
                }
            }
            if ikey_lt(k, target) {
                lo = mid + 1;
            } else {
                hi = mid;
            }
        }
        Ok(lo)
    }
}

/// Iterator over one block whose entries are readable and in order.
pub struct BlockIter<'a> {
    block: &'a Block,
    /// One more than the index of the current entry.
    slot: usize,
}

impl<'a> BlockIter<'a> {
    /// A cursor that is not positioned yet.
    pub fn new(block: &'a Block) -> (it: Self)
        requires
            block_ok(block.payload()),
        ensures
            it.inv(),
            it.entries() == block_entries(block.payload()),
            it.pos() == -1,
    {
        BlockIter { block, slot: 0 }
    }

    fn current(&self) -> (kv: (&'a [u8], &'a [u8]))
        requires
            self.inv(),
            0 <= self.pos() < self.entries().len(),
        ensures
            kv.0@ == self.entries()[self.pos()].key,
            kv.1@ == self.entries()[self.pos()].repr,
    {
        let ghost d = self.block.payload();
        assert(p_block_entry(d, self.slot - 1) is Some);
        match self.block.entry(self.slot - 1) {
            Ok(kv) => kv,
            Err(_) => {
                assert(false);
                (&[], &[])
            },
        }
    }
}

impl<'a> InternalIterator for BlockIter<'a> {
    closed spec fn entries(&self) -> Seq<Kv> {
        block_entries(self.block.payload())
    }

    closed spec fn pos(&self) -> int {
        self.slot - 1
    }

    closed spec fn inv(&self) -> bool {
        block_ok(self.block.payload()) && self.slot <= count_of(self.block.payload()) + 1
    }

    proof fn lemma_inv(&self) {
    }

    fn seek_to_first(&mut self) {
        self.slot = 1;
    }

    fn seek_to_last(&mut self) {
        self.slot = self.block.count();
    }

    fn seek(&mut self, ikey: &[u8]) {
        let lb: usize = match self.block.lower_bound(ikey) {
            Ok(n) => n,
            Err(_) => 0,
        };
        let n: usize = self.block.count();
        assert(lb <= n);
        self.slot = lb + 1;
    }

    fn seek_for_prev(&mut self, ikey: &[u8]) {
        // last entry <= ikey: the lower bound itself where it equals ikey,
        // else the entry before it
        let lb: usize = match self.block.lower_bound(ikey) {
            Ok(n) => n,
            Err(_) => 0,
        };
        let ghost es = self.entries();
        let n: usize = self.block.count();
        if lb < n {
            assert(p_block_entry(self.block.payload(), lb as int) is Some);
            let equal: bool = match self.block.entry(lb) {
                Ok((k, _)) => bytes_eq(k, ikey),
                Err(_) => false,
            };
            if equal {
                proof {
                    assert forall|i: int| lb + 1 <= i < es.len() implies ikey_before(
                        ikey@,
                        #[trigger] es[i].key,
                    ) by {
                        assert(ikey_before(es[lb as int].key, es[i].key));
                    }
                }
                self.slot = lb + 1;
                return ;
            }
        }
        proof {
            assert forall|i: int| lb <= i < es.len() implies ikey_before(
                ikey@,
                #[trigger] es[i].key,
            ) by {
                lemma_ikey_total(ikey@, es[i].key);
                if es[i].key == ikey@ && i > lb {
                    assert(ikey_before(es[lb as int].key, es[i].key));
                }
            }
        }
        self.slot = lb;
    }

    fn valid(&self) -> bool {
        self.slot > 0 && self.slot <= self.block.count()
    }

    fn next(&mut self) {
        let n: usize = self.block.count();
        assert(self.slot <= n);
        self.slot = self.slot + 1;
    }

    fn prev(&mut self) {
        self.slot = self.slot - 1;
    }

    fn ikey(&self) -> &[u8] {
        self.current().0
    }

    fn value(&self) -> &[u8] {
        self.current().1
    }
}

} // verus!
