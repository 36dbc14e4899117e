//! SSTable writer. Entries must arrive in internal-key order.

use vstd::prelude::*;

use super::{seal_block, BlockRef, Footer, TableStats};
use crate::block::{entry_len, BlockBuilder};
use crate::bloom;
use crate::coding::{put_bytes, put_len_prefixed, put_uvarint};
use crate::error::{invalid, Result};
use crate::order::{bytes_eq, to_bytes};
use crate::types::{ikey_kind, ikey_seqno, ikey_ukey, ValueKind};

verus! {

use super::{
    bytes_at, enc_index, enc_index_entry, enc_stats, enc_stored, lemma_footer_roundtrip,
    lemma_index_roundtrip, lemma_stats_roundtrip, lemma_stored_roundtrip, p_table, payload_at,
    table_entries, table_parts, table_sound, IndexEntry, Stats,
};
use crate::block::{
    block_entries, block_fits, block_ok, enc_block, enc_kvs, lemma_block_roundtrip,
    lemma_enc_block_push,
};
use crate::bloom::{bitmap_len, filter_admits, hash_of, is_filter_over, lemma_no_false_negatives};
use crate::coding::lemma_le_len;
use crate::iter::{flat, lemma_sorted_push, sorted, Kv};
use crate::types::{
    ikey_before, is_ikey, kind_byte_of, kind_of_byte, lemma_trailer_bound, seqno_of, ukey_of,
};

/// Statistics before the first entry.
pub open spec fn stats_empty() -> Stats {
    Stats {
        entries: 0,
        tombstones: 0,
        min_seq: u64::MAX,
        max_seq: 0,
        first_ikey: Seq::empty(),
        last_ikey: Seq::empty(),
    }
}

/// Statistics after one more entry.
pub open spec fn stats_push(t: Stats, k: Seq<u8>) -> Stats {
    let s = seqno_of(k);
    Stats {
        entries: (t.entries + 1) as u64,
        tombstones: if kind_of_byte(kind_byte_of(k)) == Some(ValueKind::Delete) {
            (t.tombstones + 1) as u64
        } else {
            t.tombstones
        },
        min_seq: if s < t.min_seq {
            s as u64
        } else {
            t.min_seq
        },
        max_seq: if s > t.max_seq {
            s as u64
        } else {
            t.max_seq
        },
        first_ikey: if t.entries == 0 {
            k
        } else {
            t.first_ikey
        },
        last_ikey: k,
    }
}

/// The statistics of a table over `es`.
pub open spec fn stats_of(es: Seq<Kv>) -> Stats
    decreases es.len(),
{
    if es.len() == 0 {
        stats_empty()
    } else {
        stats_push(stats_of(es.drop_last()), es.last().key)
    }
}

/// The blocks that are cut from the entries, and the entries of the block in
/// progress behind them: a block is closed as soon as its payload has reached
/// the block size.
pub open spec fn cut(es: Seq<Kv>, block_size: nat) -> (Seq<Seq<Kv>>, Seq<Kv>)
    decreases es.len(),
{
    if es.len() == 0 {
        (Seq::empty(), Seq::empty())
    } else {
        let c = cut(es.drop_last(), block_size);
        let open = c.1.push(es.last());
        if enc_block(open).len() >= block_size {
            (c.0.push(open), Seq::empty())
        } else {
            (c.0, open)
        }
    }
}

/// The blocks of a finished table over the entries.
pub open spec fn data_blocks(es: Seq<Kv>, block_size: nat) -> Seq<Seq<Kv>> {
    let c = cut(es, block_size);
    if c.1.len() == 0 {
        c.0
    } else {
        c.0.push(c.1)
    }
}

/// The blocks as they lie in the file, one behind the other.
pub open spec fn blocks_bytes(parts: Seq<Seq<Kv>>) -> Seq<u8>
    decreases parts.len(),
{
    if parts.len() == 0 {
        Seq::empty()
    } else {
        blocks_bytes(parts.drop_last()) + enc_stored(enc_block(parts.last()))
    }
}

/// The index of the blocks: the last key of each, and where it lies.
pub open spec fn blocks_index(parts: Seq<Seq<Kv>>) -> Seq<IndexEntry>
    decreases parts.len(),
{
    if parts.len() == 0 {
        Seq::empty()
    } else {
        blocks_index(parts.drop_last()).push(
            IndexEntry {
                last: parts.last().last().key,
                at: BlockRef {
                    off: blocks_bytes(parts.drop_last()).len() as u64,
                    len: enc_stored(enc_block(parts.last())).len() as u32,
                },
            },
        )
    }
}

/// The hashes that go into the filter: one per run of equal user keys.
pub open spec fn ukey_hashes(es: Seq<Kv>) -> Seq<u64>
    decreases es.len(),
{
    if es.len() == 0 {
        Seq::empty()
    } else if es.len() > 1 && ukey_of(es[es.len() - 2].key) == ukey_of(es.last().key) {
        ukey_hashes(es.drop_last())
    } else {
        ukey_hashes(es.drop_last()).push(hash_of(ukey_of(es.last().key)))
    }
}

/// Bytes of the closed blocks and of the payload of the block in progress.
pub open spec fn table_size(es: Seq<Kv>, block_size: nat) -> nat {
    blocks_bytes(cut(es, block_size).0).len() + enc_block(cut(es, block_size).1).len()
}

/// A payload whose stored form has a length of 32 bits.
pub open spec fn storable(payload: Seq<u8>) -> bool {
    payload.len() + 5 <= u32::MAX
}

/// A filter over `n` keys is storable, and its bits can be counted.
pub open spec fn filter_fits(n: nat, bits_per_key: nat) -> bool {
    &&& bitmap_len(n, bits_per_key) + 6 <= u32::MAX
    &&& n * bits_per_key + 8 <= usize::MAX
    &&& bits_per_key + 8 <= usize::MAX
}

/// The format can hold a table over the entries: every block of the file has
/// a length of 32 bits.
#[verifier::opaque]
pub open spec fn table_fits(es: Seq<Kv>, block_size: nat, bits_per_key: nat) -> bool {
    let parts = data_blocks(es, block_size);
    &&& es.len() <= u64::MAX
    &&& forall|k: int| 0 <= k < parts.len() ==> storable(enc_block(#[trigger] parts[k]))
    &&& storable(enc_index(blocks_index(parts)))
    &&& storable(enc_stats(stats_of(es)))
    &&& filter_fits(ukey_hashes(es).len(), bits_per_key)
}

/// The block in progress can take one more entry.
pub open spec fn entry_fits(es: Seq<Kv>, kv: Kv, block_size: nat) -> bool {
    es.len() < u64::MAX && storable(enc_block(cut(es, block_size).1.push(kv)))
}

/// The file of a table: the data blocks, the filter, the index, the statistics
/// and the footer that says where the last three lie.
pub open spec fn table_file(es: Seq<Kv>, block_size: nat, filter: Seq<u8>) -> Seq<u8> {
    let parts = data_blocks(es, block_size);
    let data = blocks_bytes(parts);
    let f = enc_stored(filter);
    let i = enc_stored(enc_index(blocks_index(parts)));
    let s = enc_stored(enc_stats(stats_of(es)));
    let footer = Footer {
        filter: BlockRef { off: data.len() as u64, len: f.len() as u32 },
        index: BlockRef { off: (data + f).len() as u64, len: i.len() as u32 },
        stats: BlockRef { off: (data + f + i).len() as u64, len: s.len() as u32 },
    };
    data + f + i + s + super::enc_footer(footer)
}

/// `n`, at most what 64 bits hold.
pub open spec fn capped(n: nat) -> nat {
    if n <= u64::MAX {
        n
    } else {
        u64::MAX as nat
    }
}

/// The hash of each entry's user key is among `hashes`.
pub open spec fn covered(hashes: Seq<u64>, es: Seq<Kv>) -> bool {
    forall|i: int|
        0 <= i < es.len() ==> hashes.contains(hash_of(ukey_of(#[trigger] es[i].key)))
}

/// An empty block is four bytes long.
proof fn lemma_empty_block()
    ensures
        enc_block(Seq::<Kv>::empty()).len() == 4,
{
    lemma_le_len(0, 4);
    assert(enc_kvs(Seq::<Kv>::empty()) =~= Seq::<u8>::empty());
}

/// The size starts at the four bytes of an empty block, and every entry makes
/// it greater, also the one that closes a block.
pub proof fn lemma_size_grows(es: Seq<Kv>, kv: Kv, block_size: nat)
    ensures
        table_size(Seq::empty(), block_size) == 4,
        table_size(es.push(kv), block_size) > table_size(es, block_size),
{
    lemma_empty_block();
    let es2 = es.push(kv);
    assert(es2.drop_last() =~= es);
    let c = cut(es, block_size);
    let open = c.1.push(kv);
    lemma_enc_block_push(c.1, kv);
    lemma_stored_roundtrip(enc_block(open));
    assert(c.0.push(open).drop_last() =~= c.0);
}

/// The size of the first entries is at most that of all of them.
proof fn lemma_size_of_prefix(es: Seq<Kv>, n: int, block_size: nat)
    requires
        0 <= n <= es.len(),
    ensures
        table_size(es.take(n), block_size) <= table_size(es, block_size),
    decreases es.len() - n,
{
    if n < es.len() {
        lemma_size_of_prefix(es, n + 1, block_size);
        lemma_size_grows(es.take(n), es[n], block_size);
        assert(es.take(n + 1) =~= es.take(n).push(es[n]));
    } else {
        assert(es.take(n) =~= es);
    }
}

/// No size on the way is greater than the finished file.
pub proof fn lemma_size_within_file(es: Seq<Kv>, n: int, block_size: nat, filter: Seq<u8>)
    requires
        0 <= n <= es.len(),
    ensures
        table_size(es.take(n), block_size) <= table_file(es, block_size, filter).len(),
{
    lemma_size_of_prefix(es, n, block_size);
    lemma_empty_block();
    let c = cut(es, block_size);
    let parts = data_blocks(es, block_size);
    if c.1.len() == 0 {
        assert(c.1 =~= Seq::<Kv>::empty());
    } else {
        assert(parts.drop_last() =~= c.0);
        lemma_stored_roundtrip(enc_block(c.1));
    }
    lemma_stored_roundtrip(filter);
    lemma_stored_roundtrip(enc_index(blocks_index(parts)));
}

/// The statistics are exact: the count of entries and of tombstones among
/// them, the least and the greatest sequence number, the first and the last
/// key.
pub open spec fn stats_exact(t: Stats, es: Seq<Kv>) -> bool {
    &&& t.entries == es.len()
    &&& t.tombstones == es.filter(|kv: Kv| is_tombstone(kv)).len()
    &&& forall|i: int|
        0 <= i < es.len() ==> t.min_seq <= seqno_of((#[trigger] es[i]).key) <= t.max_seq
    &&& exists|i: int| 0 <= i < es.len() && t.min_seq == seqno_of((#[trigger] es[i]).key)
    &&& exists|i: int| 0 <= i < es.len() && t.max_seq == seqno_of((#[trigger] es[i]).key)
    &&& t.first_ikey == es[0].key
    &&& t.last_ikey == es.last().key
}

/// The statistics that are kept along the way are exact.
pub proof fn lemma_stats_exact(es: Seq<Kv>)
    requires
        0 < es.len() <= u64::MAX,
        forall|i: int| 0 <= i < es.len() ==> is_ikey(#[trigger] es[i].key),
    ensures
        stats_exact(stats_of(es), es),
    decreases es.len(),
{
    let init = es.drop_last();
    let f = |kv: Kv| is_tombstone(kv);
    lemma_stats_counts(es);
    lemma_stats_counts(init);
    assert(es =~= init.push(es.last()));
    assert(is_ikey(es.last().key));
    lemma_trailer_bound(es.last().key);
    reveal(Seq::filter);
    assert(es.filter(f) == if f(es.last()) {
        init.filter(f).push(es.last())
    } else {
        init.filter(f)
    });
    let n = es.len() - 1;
    assert(es[n] == es.last());
    if init.len() > 0 {
        assert forall|i: int| 0 <= i < init.len() implies is_ikey(#[trigger] init[i].key) by {
            assert(is_ikey(es[i].key));
        }
        lemma_stats_exact(init);
        let a = choose|i: int|
            0 <= i < init.len() && stats_of(init).min_seq == seqno_of((#[trigger] init[i]).key);
        let b = choose|i: int|
            0 <= i < init.len() && stats_of(init).max_seq == seqno_of((#[trigger] init[i]).key);
        assert(es[a] == init[a] && es[b] == init[b]);
        assert forall|i: int| 0 <= i < es.len() implies stats_of(es).min_seq <= seqno_of(
            (#[trigger] es[i]).key,
        ) <= stats_of(es).max_seq by {
            if i < n {
                assert(es[i] == init[i]);
            }
        }
    } else {
        assert(init.filter(f).len() == 0);
    }
}

/// There are more entries than can be counted, or a block of them is longer
/// than the format can say.
#[verifier::opaque]
pub open spec fn block_unfit(es: Seq<Kv>, block_size: nat) -> bool {
    let parts = data_blocks(es, block_size);
    es.len() > u64::MAX || exists|k: int|
        0 <= k < parts.len() && !storable(enc_block(#[trigger] parts[k]))
}

pub proof fn lemma_unfit(es: Seq<Kv>, block_size: nat, bits_per_key: nat)
    requires
        block_unfit(es, block_size),
    ensures
        es.len() > 0,
        !table_fits(es, block_size, bits_per_key),
{
    reveal(block_unfit);
    reveal(table_fits);
    if es.len() == 0 {
        assert(data_blocks(es, block_size).len() == 0);
    }
}

/// An entry that does not fit the block in progress leaves a table that does
/// not fit.
pub proof fn lemma_unfit_entry(es: Seq<Kv>, kv: Kv, block_size: nat)
    requires
        !entry_fits(es, kv, block_size),
    ensures
        block_unfit(es.push(kv), block_size),
{
    reveal(block_unfit);
    let es2 = es.push(kv);
    assert(es2.drop_last() =~= es);
    let parts = data_blocks(es2, block_size);
    if es.len() < u64::MAX {
        assert(parts.last() == cut(es, block_size).1.push(kv));
        assert(!storable(enc_block(parts[parts.len() - 1])));
    }
}

/// What does not fit does not fit with one more entry either.
pub proof fn lemma_unfit_push(es: Seq<Kv>, kv: Kv, block_size: nat)
    requires
        block_unfit(es, block_size),
    ensures
        block_unfit(es.push(kv), block_size),
{
    reveal(block_unfit);
    let es2 = es.push(kv);
    assert(es2.drop_last() =~= es);
    let parts = data_blocks(es, block_size);
    let parts2 = data_blocks(es2, block_size);
    let c = cut(es, block_size);
    if es.len() <= u64::MAX {
        let k = choose|k: int| 0 <= k < parts.len() && !storable(enc_block(#[trigger] parts[k]));
        if k < c.0.len() {
            assert(parts2[k] == parts[k]);
        } else {
            lemma_enc_block_push(c.1, kv);
            assert(parts2[k] == c.1.push(kv));
        }
    }
}

proof fn lemma_stats_counts(es: Seq<Kv>)
    requires
        es.len() <= u64::MAX,
    ensures
        stats_of(es).entries == es.len(),
        stats_of(es).tombstones <= es.len(),
        es.len() > 0 ==> stats_of(es).first_ikey == es[0].key && stats_of(es).last_ikey
            == es.last().key,
    decreases es.len(),
{
    if es.len() > 0 {
        lemma_stats_counts(es.drop_last());
    }
}

/// The hash of every user key is among the hashes of the filter.
proof fn lemma_hashes_cover(es: Seq<Kv>)
    ensures
        covered(ukey_hashes(es), es),
        es.len() > 0 ==> ukey_hashes(es).len() > 0 && ukey_hashes(es).last() == hash_of(
            ukey_of(es.last().key),
        ),
        ukey_hashes(es).len() <= es.len(),
    decreases es.len(),
{
    if es.len() > 0 {
        let init = es.drop_last();
        let hs = ukey_hashes(es);
        let hs0 = ukey_hashes(init);
        lemma_hashes_cover(init);
        assert(hs.last() == hash_of(ukey_of(es.last().key)));
        assert forall|i: int| 0 <= i < es.len() implies hs.contains(
            hash_of(ukey_of(#[trigger] es[i].key)),
        ) by {
            let h = hash_of(ukey_of(es[i].key));
            if i < init.len() {
                assert(es[i] == init[i]);
                assert(hs0.contains(h));
                let a = choose|a: int| 0 <= a < hs0.len() && hs0[a] == h;
                assert(hs[a] == h);
            } else {
                assert(hs[hs.len() - 1] == h);
            }
        }
    }
}

proof fn lemma_fits_push(es: Seq<Kv>, kv: Kv)
    requires
        block_fits(es),
        is_ikey(kv.key),
        kv.key.len() <= u64::MAX,
        kv.repr.len() <= u64::MAX,
        es.len() < u32::MAX,
        enc_kvs(es.push(kv)).len() <= u32::MAX,
    ensures
        block_fits(es.push(kv)),
{
    let es2 = es.push(kv);
    assert forall|i: int| 0 <= i < es2.len() implies is_ikey(#[trigger] es2[i].key) by {
        if i < es.len() {
            assert(is_ikey(es[i].key));
        }
    }
    assert forall|i: int| 0 <= i < es2.len() implies (#[trigger] es2[i]).key.len() <= u64::MAX
        && es2[i].repr.len() <= u64::MAX by {
        if i < es.len() {
            assert(es[i].key.len() <= u64::MAX);
        }
    }
}

pub open spec fn is_tombstone(kv: Kv) -> bool {
    kind_of_byte(kind_byte_of(kv.key)) == Some(ValueKind::Delete)
}

/// Count an entry.
fn count_entry(stats: &mut TableStats, ikey: &[u8], kind: ValueKind)
    requires
        is_ikey(ikey@),
        kind_of_byte(kind_byte_of(ikey@)) == Some(kind),
        old(stats).entries < u64::MAX,
        old(stats).tombstones < u64::MAX,
    ensures
        final(stats)@ == stats_push(old(stats)@, ikey@),
{
    if stats.entries == 0 {
        stats.first_ikey = to_bytes(ikey);
    }
    stats.last_ikey = to_bytes(ikey);
    stats.entries = stats.entries + 1;
    if kind == ValueKind::Delete {
        stats.tombstones = stats.tombstones + 1;
    }
    let seq: u64 = ikey_seqno(ikey);
    if seq < stats.min_seq {
        stats.min_seq = seq;
    }
    if seq > stats.max_seq {
        stats.max_seq = seq;
    }
}

/// Hash a user key for the filter, once per run of equal ones.
fn hash_ukey(hashes: &mut Vec<u64>, last: &mut Vec<u8>, ukey: &[u8])
    ensures
        final(hashes)@ == if old(hashes)@.len() == 0 || old(last)@ != ukey@ {
            old(hashes)@.push(hash_of(ukey@))
        } else {
            old(hashes)@
        },
        final(last)@ == ukey@,
{
    if hashes.len() == 0 || !bytes_eq(last.as_slice(), ukey) {
        hashes.push(bloom::hash64(ukey));
        *last = to_bytes(ukey);
    }
}

/// Whether a filter over `n` keys is storable.
fn check_filter(n: usize, bits_per_key: usize) -> (b: bool)
    ensures
        b == filter_fits(n as nat, bits_per_key as nat),
{
    let m: u128 = if n == 0 { 1 } else { n as u128 };
    let bits: u128 = bits_per_key as u128;
    proof {
        assert(m * bits <= 0xffff_ffff_ffff_ffff * 0xffff_ffff_ffff_ffff) by (nonlinear_arith)
            requires
                0 <= m <= 0xffff_ffff_ffff_ffff,
                0 <= bits <= 0xffff_ffff_ffff_ffff,
        ;
        assert(m * bits >= bits) by (nonlinear_arith)
            requires
                m >= 1,
                bits >= 0,
        ;
        if n == 0 {
            assert(m * bits == bits) by (nonlinear_arith)
                requires
                    m == 1,
            ;
            assert(n * bits_per_key == 0) by (nonlinear_arith)
                requires
                    n == 0,
            ;
        }
    }
    let want: u128 = m * bits;
    let nbits: u128 = if want < 64 { 64 } else { want };
    (nbits + 7) / 8 + 6 <= u32::MAX as u128 && want + 8 <= usize::MAX as u128
}

/// The payload of the index block.
fn encode_index(index: &Vec<(Vec<u8>, BlockRef)>) -> (payload: Vec<u8>)
    ensures
        payload@ == enc_index(index_model(index@)),
{
    let mut payload: Vec<u8> = Vec::new();
    let ghost im = index_model(index@);
    let mut i: usize = 0;
    assert(im.take(0) =~= Seq::<IndexEntry>::empty());
    assert(payload@ =~= enc_index(im.take(0)));
    while i < index.len()
        invariant
            i <= index@.len(),
            im == index_model(index@),
            payload@ == enc_index(im.take(i as int)),
        decreases index@.len() - i,
    {
        let last = index[i].0.as_slice();
        let r: BlockRef = index[i].1;
        put_len_prefixed(&mut payload, last);
        put_uvarint(&mut payload, r.off);
        put_uvarint(&mut payload, r.len as u64);
        proof {
            let e = im[i as int];
            assert(im.take(i + 1) =~= im.take(i as int).push(e));
            lemma_enc_index_push(im.take(i as int), e);
            assert(payload@ =~= enc_index(im.take(i as int)) + enc_index_entry(e));
        }
        i += 1;
    }
    assert(im.take(i as int) =~= im);
    payload
}

/// Block `k` stands in the file: what the builder keeps of each.
pub open spec fn stands(
    parts: Seq<Seq<Kv>>,
    index: Seq<(Vec<u8>, BlockRef)>,
    out: Seq<u8>,
    k: int,
) -> bool {
    &&& parts[k].len() > 0
    &&& index[k].0@ == parts[k].last().key
    &&& is_ikey(parts[k].last().key)
    &&& block_fits(parts[k])
    &&& bytes_at(out, index[k].1) == Some(enc_stored(enc_block(parts[k])))
}

pub open spec fn all_stand(
    parts: Seq<Seq<Kv>>,
    index: Seq<(Vec<u8>, BlockRef)>,
    out: Seq<u8>,
) -> bool {
    &&& index.len() == parts.len()
    &&& forall|k: int| 0 <= k < parts.len() ==> #[trigger] stands(parts, index, out, k)
}

proof fn lemma_all_stand_append(
    parts: Seq<Seq<Kv>>,
    index: Seq<(Vec<u8>, BlockRef)>,
    out: Seq<u8>,
    tail: Seq<u8>,
)
    requires
        all_stand(parts, index, out),
    ensures
        all_stand(parts, index, out + tail),
{
    assert forall|k: int| 0 <= k < parts.len() implies #[trigger] stands(
        parts,
        index,
        out + tail,
        k,
    ) by {
        assert(stands(parts, index, out, k));
        lemma_bytes_at_append(out, tail, index[k].1);
    }
}

/// A file made of standing blocks, a filter that covers them, their index,
/// their statistics and the footer opens as a sound table over their entries.
#[verifier::spinoff_prover]
#[verifier::rlimit(60)]
proof fn lemma_finished(
    parts: Seq<Seq<Kv>>,
    index: Seq<(Vec<u8>, BlockRef)>,
    d: Seq<u8>,
    footer: Footer,
    fv: Seq<u8>,
    hashes: Seq<u64>,
    bits: nat,
    t: Stats,
)
    requires
        all_stand(parts, index, d),
        parts.len() > 0,
        sorted(flat(parts)),
        covered(hashes, flat(parts)),
        is_filter_over(fv, hashes, bits),
        t == stats_of(flat(parts)),
        flat(parts).len() <= u64::MAX,
        t.first_ikey.len() <= u64::MAX,
        t.last_ikey.len() <= u64::MAX,
        forall|k: int| 0 <= k < index.len() ==> (#[trigger] index[k]).0@.len() <= u64::MAX,
        d.len() >= 48,
        d.skip(d.len() - 48) == super::enc_footer(footer),
        bytes_at(d, footer.filter) == Some(enc_stored(fv)),
        bytes_at(d, footer.index) == Some(enc_stored(enc_index(index_model(index)))),
        bytes_at(d, footer.stats) == Some(enc_stored(enc_stats(t))),
        enc_index(index_model(index)).len() <= u32::MAX,
    ensures
        p_table(d) matches Some(m) && table_sound(d, m) && table_entries(d, m) == flat(parts)
            && m.stats == t,
{
    let es = flat(parts);
    let im = index_model(index);
    crate::iter::lemma_flat_at(parts, 0);
    assert(stands(parts, index, d, 0));
    lemma_stats_counts(es);
    lemma_footer_roundtrip(footer);
    lemma_stored_roundtrip(fv);
    lemma_stored_roundtrip(enc_index(im));
    lemma_stored_roundtrip(enc_stats(t));
    lemma_stats_roundtrip(t);
    assert forall|k: int| 0 <= k < im.len() implies is_ikey((#[trigger] im[k]).last)
        && im[k].last.len() <= u64::MAX by {
        assert(stands(parts, index, d, k));
        assert(index[k].0@.len() <= u64::MAX);
    }
    lemma_index_roundtrip(im);
    assert(p_table(d) is Some);
    let m = p_table(d)->Some_0;
    assert(m.index == im && m.filter == fv && m.stats == t);
    assert forall|k: int| 0 <= k < m.index.len() implies {
        &&& (#[trigger] payload_at(d, m.index[k].at)) matches Some(b)
        &&& block_ok(b)
        &&& block_entries(b) == parts[k]
    } by {
        assert(stands(parts, index, d, k));
        lemma_stored_roundtrip(enc_block(parts[k]));
        lemma_block_roundtrip(parts[k]);
        lemma_part_sorted(parts, k);
    }
    assert(table_parts(d, m) =~= parts) by {
        assert forall|k: int| 0 <= k < parts.len() implies table_parts(d, m)[k] == parts[k] by {
            assert(payload_at(d, m.index[k].at) is Some);
        }
    }
    assert forall|k: int| 0 <= k < m.index.len() implies {
        &&& (#[trigger] payload_at(d, m.index[k].at)) matches Some(b)
        &&& block_ok(b)
        &&& block_entries(b).len() > 0
        &&& block_entries(b).last().key == m.index[k].last
    } by {
        assert(stands(parts, index, d, k));
    }
    assert forall|x: int| 0 <= x < es.len() implies filter_admits(
        m.filter,
        hash_of(ukey_of(#[trigger] es[x].key)),
    ) by {
        let h = hash_of(ukey_of(es[x].key));
        assert(hashes.contains(h));
        let a = choose|a: int| 0 <= a < hashes.len() && hashes[a] == h;
        lemma_no_false_negatives(fv, hashes, bits, a);
    }
}

proof fn lemma_enc_index_push(es: Seq<IndexEntry>, e: IndexEntry)
    ensures
        enc_index(es.push(e)) == enc_index(es) + enc_index_entry(e),
    decreases es.len(),
{
    let es2 = es.push(e);
    reveal_with_fuel(enc_index, 2);
    if es.len() == 0 {
        assert(es2.skip(1) =~= Seq::<IndexEntry>::empty());
        assert(enc_index(es2) =~= enc_index(es) + enc_index_entry(e));
    } else {
        assert(es2.skip(1) =~= es.skip(1).push(e));
        lemma_enc_index_push(es.skip(1), e);
        assert(enc_index(es2) =~= enc_index(es) + enc_index_entry(e));
    }
}

/// What lies in a file stays where it is when bytes are appended.
proof fn lemma_bytes_at_append(data: Seq<u8>, tail: Seq<u8>, r: BlockRef)
    requires
        bytes_at(data, r) is Some,
    ensures
        bytes_at(data + tail, r) == bytes_at(data, r),
{
    assert((data + tail).subrange(r.off as int, r.off + r.len) =~= data.subrange(
        r.off as int,
        r.off + r.len,
    ));
}

pub open spec fn ref_at(data: Seq<u8>, stored: Seq<u8>) -> BlockRef {
    BlockRef { off: data.len() as u64, len: stored.len() as u32 }
}

/// Blocks that are appended one after the other all stand in the file.
proof fn lemma_laid_out(
    parts: Seq<Seq<Kv>>,
    index: Seq<(Vec<u8>, BlockRef)>,
    out0: Seq<u8>,
    fv: Seq<u8>,
    iv: Seq<u8>,
    sv: Seq<u8>,
    fb: Seq<u8>,
)
    requires
        all_stand(parts, index, out0),
        fb.len() == 48,
        bytes_at(out0 + enc_stored(fv), ref_at(out0, enc_stored(fv))) == Some(enc_stored(fv)),
        bytes_at(
            out0 + enc_stored(fv) + enc_stored(iv),
            ref_at(out0 + enc_stored(fv), enc_stored(iv)),
        ) == Some(enc_stored(iv)),
        bytes_at(
            out0 + enc_stored(fv) + enc_stored(iv) + enc_stored(sv),
            ref_at(out0 + enc_stored(fv) + enc_stored(iv), enc_stored(sv)),
        ) == Some(enc_stored(sv)),
    ensures
        ({
            let out1 = out0 + enc_stored(fv);
            let out2 = out1 + enc_stored(iv);
            let d = out2 + enc_stored(sv) + fb;
            &&& all_stand(parts, index, d)
            &&& d.skip(d.len() - 48) == fb
            &&& bytes_at(d, ref_at(out0, enc_stored(fv))) == Some(enc_stored(fv))
            &&& bytes_at(d, ref_at(out1, enc_stored(iv))) == Some(enc_stored(iv))
            &&& bytes_at(d, ref_at(out2, enc_stored(sv))) == Some(enc_stored(sv))
        }),
{
    let out1 = out0 + enc_stored(fv);
    let out2 = out1 + enc_stored(iv);
    let out3 = out2 + enc_stored(sv);
    let d = out3 + fb;
    let filter_ref = ref_at(out0, enc_stored(fv));
    let index_ref = ref_at(out1, enc_stored(iv));
    let stats_ref = ref_at(out2, enc_stored(sv));
    assert(d.skip(d.len() - 48) =~= fb);
    lemma_bytes_at_append(out1, enc_stored(iv), filter_ref);
    lemma_bytes_at_append(out2, enc_stored(sv), filter_ref);
    lemma_bytes_at_append(out3, fb, filter_ref);
    lemma_bytes_at_append(out2, enc_stored(sv), index_ref);
    lemma_bytes_at_append(out3, fb, index_ref);
    lemma_bytes_at_append(out3, fb, stats_ref);
    lemma_all_stand_append(parts, index, out0, enc_stored(fv));
    lemma_all_stand_append(parts, index, out1, enc_stored(iv));
    lemma_all_stand_append(parts, index, out2, enc_stored(sv));
    lemma_all_stand_append(parts, index, out3, fb);
}

fn write_block(out: &mut Vec<u8>, payload: Vec<u8>) -> (r: BlockRef)
    requires
        payload@.len() + 5 <= u32::MAX,
    ensures
        final(out)@ == old(out)@ + enc_stored(payload@),
        r == ref_at(old(out)@, enc_stored(payload@)),
        bytes_at(final(out)@, r) == Some(enc_stored(payload@)),
{
    proof {
        lemma_stored_roundtrip(payload@);
    }
    let off: u64 = out.len() as u64;
    let stored = seal_block(payload);
    let len: u32 = stored.len() as u32;
    put_bytes(out, stored.as_slice());
    let r = BlockRef { off, len };
    assert(out@.subrange(r.off as int, r.off + r.len) =~= stored@);
    r
}

pub open spec fn index_model(v: Seq<(Vec<u8>, BlockRef)>) -> Seq<IndexEntry> {
    v.map_values(|e: (Vec<u8>, BlockRef)| IndexEntry { last: e.0@, at: e.1 })
}

/// Builds one table file.
pub struct TableBuilder {
    out: Vec<u8>,
    block_size: usize,
    bloom_bits_per_key: usize,
    block: BlockBuilder,
    /// (last internal key of block, block ref)
    index: Vec<(Vec<u8>, BlockRef)>,
    key_hashes: Vec<u64>,
    last_hashed_ukey: Vec<u8>,
    stats: TableStats,
    parts: Ghost<Seq<Seq<Kv>>>,
}

impl TableBuilder {
    /// The entries added so far.
    pub closed spec fn entries(self) -> Seq<Kv> {
        flat(self.parts@) + self.block.entries()
    }

    pub closed spec fn block_size(self) -> usize {
        self.block_size
    }

    pub closed spec fn bits_per_key(self) -> usize {
        self.bloom_bits_per_key
    }

    /// The file so far: the blocks that were closed.
    pub open spec fn written(self) -> Seq<u8> {
        blocks_bytes(cut(self.entries(), self.block_size() as nat).0)
    }

    /// The entries since the last block was closed.
    pub open spec fn in_progress(self) -> Seq<Kv> {
        cut(self.entries(), self.block_size() as nat).1
    }

    /// Bytes of finished blocks and of the block in progress.
    pub open spec fn size(self) -> nat {
        table_size(self.entries(), self.block_size() as nat)
    }

    /// The format can hold the table.
    pub open spec fn fits(self) -> bool {
        table_fits(self.entries(), self.block_size() as nat, self.bits_per_key() as nat)
    }

    /// What the builder keeps of the closed blocks.
    spec fn blocks_kept(self) -> bool {
        &&& self.out@ == blocks_bytes(self.parts@)
        &&& index_model(self.index@) == blocks_index(self.parts@)
        &&& all_stand(self.parts@, self.index@, self.out@)
        &&& forall|k: int|
            0 <= k < self.parts@.len() ==> storable(enc_block(#[trigger] self.parts@[k]))
    }

    /// All of the invariant but where the blocks are cut.
    spec fn inv_but_cut(self) -> bool {
        let es = self.entries();
        &&& self.block.inv()
        &&& block_fits(self.block.entries())
        &&& storable(enc_block(self.block.entries()))
        &&& self.blocks_kept()
        &&& sorted(es)
        &&& self.stats@ == stats_of(es)
        &&& self.key_hashes@ == ukey_hashes(es)
        &&& es.len() > 0 ==> self.last_hashed_ukey@ == ukey_of(es.last().key)
        &&& es.len() <= u64::MAX
    }

    pub closed spec fn inv(self) -> bool {
        &&& self.inv_but_cut()
        &&& cut(self.entries(), self.block_size as nat) == (self.parts@, self.block.entries())
    }

    pub fn new(block_size: usize, bloom_bits_per_key: usize) -> (b: Self)
        ensures
            b.inv(),
            b.entries() == Seq::<Kv>::empty(),
            b.block_size() == block_size,
            b.bits_per_key() == bloom_bits_per_key,
            b.size() == 4,
    {
        let b = TableBuilder {
            out: Vec::new(),
            block_size,
            bloom_bits_per_key,
            block: BlockBuilder::new(),
            index: Vec::new(),
            key_hashes: Vec::new(),
            last_hashed_ukey: Vec::new(),
            stats: TableStats {
                entries: 0,
                tombstones: 0,
                min_seq: u64::MAX,
                max_seq: 0,
                first_ikey: Vec::new(),
                last_ikey: Vec::new(),
            },
            parts: Ghost(Seq::empty()),
        };
        proof {
            let es = b.entries();
            assert(es =~= Seq::<Kv>::empty());
            lemma_empty_block();
            assert(enc_kvs(Seq::<Kv>::empty()) =~= Seq::<u8>::empty());
            assert(b.stats@.first_ikey =~= stats_of(es).first_ikey);
            assert(b.stats@.last_ikey =~= stats_of(es).last_ikey);
            assert(index_model(b.index@) =~= Seq::<IndexEntry>::empty());
            assert(b.out@ =~= Seq::<u8>::empty());
            assert(b.key_hashes@ =~= Seq::<u64>::empty());
        }
        b
    }

    /// Bytes written so far plus the in-progress block: used by compaction to
    /// split output into bounded fragments.
    pub fn estimated_size(&self) -> (n: u64)
        requires
            self.inv(),
        ensures
            n == capped(self.written().len() + enc_block(self.in_progress()).len()),
            n == capped(self.size()),
    {
        (self.out.len() as u64).saturating_add(self.block.size_estimate() as u64)
    }

    /// User key of the most recently added entry, if there is one. Compaction
    /// splits fragments only at user-key boundaries.
    pub fn last_ukey(&self) -> (k: Option<&[u8]>)
        requires
            self.inv(),
        ensures
            match k {
                Some(u) => self.entries().len() > 0 && u@ == ukey_of(self.entries().last().key),
                None => self.entries().len() == 0,
            },
    {
        proof {
            lemma_stats_counts(self.entries());
        }
        if self.stats.entries > 0 {
            Some(ikey_ukey(self.stats.last_ikey.as_slice()))
        } else {
            None
        }
    }

    /// Add an entry; the block in progress is closed, and its stored form put
    /// behind the file so far, as soon as its payload has reached the block
    /// size. An entry of an unknown kind is refused, and so is one that would
    /// make the block longer than the format can say; neither changes anything.
    #[verifier::rlimit(40)]
    pub fn add(&mut self, ikey: &[u8], repr: &[u8]) -> (r: Result<()>)
        requires
            old(self).inv(),
            is_ikey(ikey@),
            old(self).entries().len() > 0 ==> ikey_before(
                old(self).entries().last().key,
                ikey@,
            ),
        ensures
            final(self).inv(),
            final(self).block_size() == old(self).block_size(),
            final(self).bits_per_key() == old(self).bits_per_key(),
            ({
                let kv = Kv { key: ikey@, repr: repr@ };
                let bs = old(self).block_size() as nat;
                match r {
                    Ok(_) => {
                        let payload = enc_block(old(self).in_progress().push(kv));
                        &&& kind_of_byte(kind_byte_of(ikey@)) is Some
                        &&& entry_fits(old(self).entries(), kv, bs)
                        &&& final(self).entries() == old(self).entries().push(kv)
                        &&& payload.len() >= bs ==> final(self).written() == old(self).written()
                            + enc_stored(payload) && final(self).in_progress().len() == 0
                        &&& payload.len() < bs ==> final(self).written() == old(self).written()
                            && final(self).in_progress() == old(self).in_progress().push(kv)
                        &&& final(self).size() > old(self).size()
                    },
                    Err(e) => {
                        &&& match kind_of_byte(kind_byte_of(ikey@)) {
                            Some(_) => e is InvalidArgument && !entry_fits(
                                old(self).entries(),
                                kv,
                                bs,
                            ),
                            None => e is Corruption,
                        }
                        &&& final(self).entries() == old(self).entries()
                    },
                }
            }),
    {
        let ghost es = self.entries();
        let ghost blk = self.block.entries();
        let ghost kv = Kv { key: ikey@, repr: repr@ };
        let ghost es2 = es.push(kv);
        let kind = ikey_kind(ikey)?;
        proof {
            lemma_stats_counts(es);
            lemma_enc_block_push(blk, kv);
        }
        if self.stats.entries == u64::MAX || self.block.size_estimate() as u128 + entry_len(
            ikey,
            repr,
        ) + 9 > u32::MAX as u128 {
            return Err(invalid("entry exceeds the limits of the table format"));
        }
        proof {
            assert(es2.drop_last() =~= es);
            assert(flat(self.parts@) + blk.push(kv) =~= es2);
            lemma_sorted_push(es, kv);
            lemma_fits_push(blk, kv);
            lemma_size_grows(es, kv, self.block_size as nat);
            lemma_hashes_cover(es);
            assert(cut(es, self.block_size as nat).0.push(blk.push(kv)).drop_last() =~= cut(
                es,
                self.block_size as nat,
            ).0);
            if es.len() > 0 {
                assert(es2[es2.len() - 2] == es.last());
            }
        }
        count_entry(&mut self.stats, ikey, kind);
        hash_ukey(&mut self.key_hashes, &mut self.last_hashed_ukey, ikey_ukey(ikey));
        self.block.add(ikey, repr);
        assert(self.entries() == es2);
        assert(self.inv_but_cut());
        if self.block.size_estimate() >= self.block_size {
            self.flush_block();
        }
        Ok(())
    }

    #[verifier::rlimit(40)]
    fn flush_block(&mut self)
        requires
            old(self).inv_but_cut(),
        ensures
            final(self).inv_but_cut(),
            final(self).block.entries() == Seq::<Kv>::empty(),
            final(self).parts@ == if old(self).block.entries().len() == 0 {
                old(self).parts@
            } else {
                old(self).parts@.push(old(self).block.entries())
            },
            final(self).entries() == old(self).entries(),
            final(self).block_size == old(self).block_size,
            final(self).bloom_bits_per_key == old(self).bloom_bits_per_key,
    {
        if self.block.is_empty() {
            assert(self.block.entries() =~= Seq::<Kv>::empty());
            return ;
        }
        let ghost part = self.block.entries();
        let ghost es = self.entries();
        let ghost parts0 = self.parts@;
        let ghost out0 = self.out@;
        let ghost index0 = self.index@;
        let last_ikey = to_bytes(self.stats.last_ikey.as_slice());
        proof {
            assert(es.last() == part.last());
            lemma_stats_counts(es);
        }
        let payload = self.block.finish();
        let ghost pv = payload@;
        let r = write_block(&mut self.out, payload);
        let ghost lv = last_ikey@;
        self.index.push((last_ikey, r));
        self.parts = Ghost(parts0.push(part));
        proof {
            let parts2 = parts0.push(part);
            let index2 = self.index@;
            assert(parts2.drop_last() =~= parts0);
            assert(flat(parts2) == flat(parts0) + part);
            assert(self.entries() =~= es);
            lemma_all_stand_append(parts0, index0, out0, enc_stored(pv));
            assert forall|k: int| 0 <= k < parts2.len() implies #[trigger] stands(
                parts2,
                index2,
                self.out@,
                k,
            ) by {
                if k < parts0.len() {
                    assert(stands(parts0, index0, self.out@, k));
                } else {
                    assert(is_ikey(part[part.len() - 1].key));
                }
            }
            let e = IndexEntry { last: lv, at: r };
            assert(index_model(index2) =~= index_model(index0).push(e));
            assert(index_model(index2) =~= blocks_index(parts2));
            lemma_empty_block();
            assert(enc_kvs(Seq::<Kv>::empty()) =~= Seq::<u8>::empty());
            assert(self.blocks_kept());
        }
    }

    /// Finalize: filter + index + stats + footer. Gives the statistics and the
    /// file's bytes, which open as a sound table over the entries added, or an
    /// error where the format cannot hold the table. The table must hold at
    /// least one entry.
    #[verifier::spinoff_prover]
    #[verifier::rlimit(80)]
    pub fn finish(self) -> (r: Result<(TableStats, Vec<u8>)>)
        requires
            self.inv(),
            self.entries().len() > 0,
        ensures
            match r {
                Ok((stats, bytes)) => {
                    &&& self.fits()
                    &&& stats@ == stats_of(self.entries())
                    &&& stats_exact(stats@, self.entries())
                    &&& exists|f: Seq<u8>|
                        is_filter_over(
                            f,
                            ukey_hashes(self.entries()),
                            self.bits_per_key() as nat,
                        ) && bytes@ == #[trigger] table_file(
                            self.entries(),
                            self.block_size() as nat,
                            f,
                        )
                    &&& p_table(bytes@) matches Some(m) && table_sound(bytes@, m) && table_entries(
                        bytes@,
                        m,
                    ) == self.entries() && m.stats == stats@
                    &&& bytes@.len() >= self.size()
                },
                Err(e) => e is InvalidArgument && !self.fits(),
            },
    {
        let mut me = self;
        let ghost es = self.entries();
        proof {
            reveal(table_fits);
        }
        let ghost bs = self.block_size as nat;
        me.flush_block();
        let ghost parts = me.parts@;
        let ghost index = me.index@;
        proof {
            assert(flat(parts) + Seq::<Kv>::empty() =~= flat(parts));
            assert(flat(parts) == es);
            assert(parts == data_blocks(es, bs));
            lemma_stats_counts(es);
            lemma_hashes_cover(es);
        }
        let ghost hashes = me.key_hashes@;
        let bits: usize = me.bloom_bits_per_key;
        let index_payload = encode_index(&me.index);
        let stats_payload = me.stats.encode();
        if !check_filter(me.key_hashes.len(), bits) || index_payload.len() as u128 + 5
            > u32::MAX as u128 || stats_payload.len() as u128 + 5 > u32::MAX as u128 {
            return Err(invalid("table exceeds the limits of its format"));
        }
        let filter = bloom::build(me.key_hashes.as_slice(), bits);
        let ghost fv = filter@;
        let ghost out0 = me.out@;
        let filter_ref = write_block(&mut me.out, filter);
        let ghost out1 = me.out@;
        let ghost iv = index_payload@;
        let index_ref = write_block(&mut me.out, index_payload);
        let ghost out2 = me.out@;
        let ghost sv = stats_payload@;
        let ghost t = me.stats@;
        let stats_ref = write_block(&mut me.out, stats_payload);
        let ghost out3 = me.out@;
        let footer = Footer { filter: filter_ref, index: index_ref, stats: stats_ref };
        let footer_bytes = footer.encode();
        let ghost fb = footer_bytes@;
        put_bytes(&mut me.out, footer_bytes.as_slice());
        let ghost d = me.out@;
        proof {
            lemma_laid_out(parts, index, out0, fv, iv, sv, fb);
            assert(parts.len() > 0) by {
                if parts.len() == 0 {
                    assert(flat(parts).len() == 0);
                }
            }
            assert forall|k: int| 0 <= k < index.len() implies (#[trigger] index[k]).0@.len()
                <= u64::MAX by {
                assert(index[k].0.len() <= u64::MAX);
            }
            assert(me.stats.first_ikey.len() <= u64::MAX);
            assert(me.stats.last_ikey.len() <= u64::MAX);
            lemma_finished(parts, index, d, footer, fv, hashes, bits as nat, t);
            assert(d == table_file(es, bs, fv));
            lemma_size_within_file(es, es.len() as int, bs, fv);
            lemma_stats_exact(es);
            assert(es.take(es.len() as int) =~= es);
        }
        Ok((me.stats, me.out))
    }
}

/// A piece of sorted entries is sorted.
proof fn lemma_part_sorted(parts: Seq<Seq<Kv>>, k: int)
    requires
        sorted(flat(parts)),
        0 <= k < parts.len(),
    ensures
        sorted(parts[k]),
{
    crate::iter::lemma_flat_at(parts, k);
    let start = crate::iter::part_start(parts, k);
    assert forall|i: int| 0 <= i < parts[k].len() implies is_ikey(#[trigger] parts[k][i].key) by {
        assert(flat(parts)[start + i] == parts[k][i]);
        assert(is_ikey(flat(parts)[start + i].key));
    }
    assert forall|i: int, j: int| 0 <= i < j < parts[k].len() implies ikey_before(
        #[trigger] parts[k][i].key,
        #[trigger] parts[k][j].key,
    ) by {
        assert(flat(parts)[start + i] == parts[k][i]);
        assert(flat(parts)[start + j] == parts[k][j]);
        assert(ikey_before(flat(parts)[start + i].key, flat(parts)[start + j].key));
    }
}

} // verus!
