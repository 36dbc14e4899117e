//! Sorted-run table files.
//!
//! Layout: `[data block]* [filter block] [index block] [stats block] [footer]`
//! Every block carries a trailer `[compression u8 = 0][crc32 u32]` where the
//! CRC covers payload + compression byte. The footer is fixed-width:
//!
//! `[filter_off u64][filter_len u32][index_off u64][index_len u32]
//!  [stats_off u64][stats_len u32][format u32][magic u64]` (48 bytes)

use vstd::prelude::*;

use crate::coding::{crc32, le_u64, put_len_prefixed, put_u32, put_u64, Reader};
use crate::error::{corrupt, Error, Result};
use crate::order::to_bytes;
use crate::types::ikey_ukey;

pub mod builder;
pub mod reader;

verus! {

use crate::block::{block_entries, block_ok, header_ok};
use crate::bloom::{filter_admits, hash_of};
use crate::coding::{
    crc32_of, enc_len_prefixed, enc_u32, enc_u64, enc_uvarint, le_value, lemma_le_bound,
    lemma_le_roundtrip, lemma_len_prefixed_roundtrip, lemma_pow256_values, lemma_u32_roundtrip,
    lemma_u64_roundtrip, lemma_uvarint_consumes, lemma_uvarint_roundtrip, p_len_prefixed, p_u32,
    p_u64, p_uvarint,
};
use crate::iter::{flat, sorted, Kv};
use crate::order::lex_le;
use crate::types::{ikey_before, is_ikey, ukey_of};

pub const MAGIC: u64 = 0xf115e731ab1e0001;

pub const FORMAT: u32 = 1;

pub const FOOTER_LEN: usize = 48;

pub const BLOCK_TRAILER_LEN: usize = 5;

/// Where a stored block lies in its file.
#[derive(Debug, Clone, Copy, PartialEq, Eq, Structural)]
pub struct BlockRef {
    pub off: u64,
    /// Stored length including the 5-byte trailer.
    pub len: u32,
}

#[derive(Debug, Clone, Copy, PartialEq, Eq, Structural)]
pub struct Footer {
    pub filter: BlockRef,
    pub index: BlockRef,
    pub stats: BlockRef,
}

pub open spec fn enc_ref(r: BlockRef) -> Seq<u8> {
    enc_u64(r.off) + enc_u32(r.len)
}

pub open spec fn p_ref(s: Seq<u8>) -> Option<(BlockRef, Seq<u8>)> {
    match p_u64(s) {
        Some((off, s1)) => match p_u32(s1) {
            Some((len, s2)) => Some((BlockRef { off, len }, s2)),
            None => None,
        },
        None => None,
    }
}

pub open spec fn enc_footer(f: Footer) -> Seq<u8> {
    enc_ref(f.filter) + enc_ref(f.index) + enc_ref(f.stats) + enc_u32(FORMAT) + enc_u64(MAGIC)
}

pub open spec fn p_footer(s: Seq<u8>) -> Option<Footer> {
    match p_ref(s) {
        Some((filter, s1)) => match p_ref(s1) {
            Some((index, s2)) => match p_ref(s2) {
                Some((stats, s3)) => match p_u32(s3) {
                    Some((format, s4)) => match p_u64(s4) {
                        Some((magic, _)) => if magic == MAGIC && format == FORMAT {
                            Some(Footer { filter, index, stats })
                        } else {
                            None
                        },
                        None => None,
                    },
                    None => None,
                },
                None => None,
            },
            None => None,
        },
        None => None,
    }
}

pub proof fn lemma_ref_roundtrip(r: BlockRef, tail: Seq<u8>)
    ensures
        p_ref(enc_ref(r) + tail) == Some((r, tail)),
        enc_ref(r).len() == 12,
{
    assert(enc_ref(r) + tail =~= enc_u64(r.off) + (enc_u32(r.len) + tail));
    lemma_u64_roundtrip(r.off, enc_u32(r.len) + tail);
    lemma_u32_roundtrip(r.len, tail);
}

/// A footer reads back as it was written, in its fixed width.
pub proof fn lemma_footer_roundtrip(f: Footer)
    ensures
        p_footer(enc_footer(f)) == Some(f),
        enc_footer(f).len() == 48,
{
    let s4 = enc_u64(MAGIC);
    let s3 = enc_u32(FORMAT) + s4;
    let s2 = enc_ref(f.stats) + s3;
    let s1 = enc_ref(f.index) + s2;
    assert(enc_footer(f) =~= enc_ref(f.filter) + s1);
    lemma_ref_roundtrip(f.filter, s1);
    lemma_ref_roundtrip(f.index, s2);
    lemma_ref_roundtrip(f.stats, s3);
    lemma_u32_roundtrip(FORMAT, s4);
    lemma_u64_roundtrip(MAGIC, Seq::empty());
    assert(s4 + Seq::<u8>::empty() =~= s4);
}

fn put_ref(out: &mut Vec<u8>, r: BlockRef)
    ensures
        final(out)@ == old(out)@ + enc_ref(r),
{
    put_u64(out, r.off);
    put_u32(out, r.len);
    assert(out@ =~= old(out)@ + enc_ref(r));
}

fn read_ref(r: &mut Reader<'_>) -> (x: Result<BlockRef>)
    ensures
        match p_ref(old(r).rest()) {
            Some((v, rest)) => x == Ok::<BlockRef, Error>(v) && final(r).rest() == rest,
            None => x matches Err(Error::Corruption(_)),
        },
{
    let off: u64 = r.u64()?;
    let len: u32 = r.u32()?;
    Ok(BlockRef { off, len })
}

impl Footer {
    pub fn encode(&self) -> (out: Vec<u8>)
        ensures
            out@ == enc_footer(*self),
            out@.len() == 48,
    {
        let mut out: Vec<u8> = Vec::new();
        put_ref(&mut out, self.filter);
        put_ref(&mut out, self.index);
        put_ref(&mut out, self.stats);
        put_u32(&mut out, FORMAT);
        put_u64(&mut out, MAGIC);
        proof {
            lemma_footer_roundtrip(*self);
            assert(out@ =~= enc_footer(*self));
        }
        out
    }

    /// Read a footer; a wrong magic or an unknown format is corruption.
    pub fn decode(buf: &[u8]) -> (r: Result<Footer>)
        ensures
            match p_footer(buf@) {
                Some(f) => r == Ok::<Footer, Error>(f),
                None => r matches Err(Error::Corruption(_)),
            },
    {
        let mut r = Reader::new(buf);
        let filter = read_ref(&mut r)?;
        let index = read_ref(&mut r)?;
        let stats = read_ref(&mut r)?;
        let format: u32 = r.u32()?;
        let magic: u64 = r.u64()?;
        if magic != MAGIC {
            return Err(corrupt("bad table magic"));
        }
        if format != FORMAT {
            return Err(corrupt("unsupported table format"));
        }
        Ok(Footer { filter, index, stats })
    }
}

// ---------------------------------------------------------------------------
// Stored blocks
// ---------------------------------------------------------------------------

/// A payload with its trailer.
pub open spec fn enc_stored(payload: Seq<u8>) -> Seq<u8> {
    payload.push(0) + enc_u32(crc32_of(payload.push(0)))
}

/// The payload of a stored block, if its checksum holds and it is not
/// compressed.
pub open spec fn p_stored(s: Seq<u8>) -> Option<Seq<u8>> {
    if s.len() < 5 || crc32_of(s.take(s.len() - 4)) != le_value(s.skip(s.len() - 4)) || s[s.len()
        - 5] != 0 {
        None
    } else {
        Some(s.take(s.len() - 5))
    }
}

/// A stored block gives back its payload.
pub proof fn lemma_stored_roundtrip(payload: Seq<u8>)
    ensures
        p_stored(enc_stored(payload)) == Some(payload),
        enc_stored(payload).len() == payload.len() + 5,
{
    let s = enc_stored(payload);
    let c = crc32_of(payload.push(0));
    lemma_pow256_values();
    lemma_le_roundtrip(c as nat, 4);
    assert(s.take(s.len() - 4) =~= payload.push(0));
    assert(s.skip(s.len() - 4) =~= enc_u32(c));
    assert(s.take(s.len() - 5) =~= payload);
}

/// Append the trailer to a payload.
pub fn seal_block(payload: Vec<u8>) -> (out: Vec<u8>)
    ensures
        out@ == enc_stored(payload@),
{
    let mut out = payload;
    out.push(0);
    let crc: u32 = crc32(out.as_slice());
    put_u32(&mut out, crc);
    out
}

/// Verify a stored block's bytes and give the payload without the trailer.
pub fn read_block_verified(stored: &[u8]) -> (r: Result<Vec<u8>>)
    ensures
        match p_stored(stored@) {
            Some(p) => r matches Ok(v) && v@ == p,
            None => r matches Err(Error::Corruption(_)),
        },
{
    if stored.len() < BLOCK_TRAILER_LEN {
        return Err(corrupt("block shorter than trailer"));
    }
    let payload_end: usize = stored.len() - 4;
    let covered = vstd::slice::slice_subrange(stored, 0, payload_end);
    let tail = vstd::slice::slice_subrange(stored, payload_end, stored.len());
    proof {
        assert(covered@ =~= stored@.take(payload_end as int));
        assert(tail@ =~= stored@.skip(payload_end as int));
        lemma_le_bound(tail@);
        lemma_pow256_values();
    }
    let stored_crc: u32 = le_u64(tail) as u32;
    if crc32(covered) != stored_crc {
        return Err(corrupt("block crc mismatch"));
    }
    if stored[payload_end - 1] != 0 {
        return Err(corrupt("unsupported compression"));
    }
    let payload = vstd::slice::slice_subrange(stored, 0, payload_end - 1);
    assert(payload@ =~= stored@.take(stored@.len() - 5));
    Ok(to_bytes(payload))
}

// ---------------------------------------------------------------------------
// Statistics
// ---------------------------------------------------------------------------

/// Per-table statistics persisted in the stats block.
#[derive(Debug)]
pub struct TableStats {
    pub entries: u64,
    pub tombstones: u64,
    pub min_seq: u64,
    pub max_seq: u64,
    pub first_ikey: Vec<u8>,
    pub last_ikey: Vec<u8>,
}

/// Per-table statistics, over plain values.
pub struct Stats {
    pub entries: u64,
    pub tombstones: u64,
    pub min_seq: u64,
    pub max_seq: u64,
    pub first_ikey: Seq<u8>,
    pub last_ikey: Seq<u8>,
}

impl View for TableStats {
    type V = Stats;

    open spec fn view(&self) -> Stats {
        Stats {
            entries: self.entries,
            tombstones: self.tombstones,
            min_seq: self.min_seq,
            max_seq: self.max_seq,
            first_ikey: self.first_ikey@,
            last_ikey: self.last_ikey@,
        }
    }
}

pub open spec fn enc_stats(t: Stats) -> Seq<u8> {
    enc_u64(t.entries) + enc_u64(t.tombstones) + enc_u64(t.min_seq) + enc_u64(t.max_seq)
        + enc_len_prefixed(t.first_ikey) + enc_len_prefixed(t.last_ikey)
}

pub open spec fn p_stats(s: Seq<u8>) -> Option<Stats> {
    match p_u64(s) {
        Some((entries, s1)) => match p_u64(s1) {
            Some((tombstones, s2)) => match p_u64(s2) {
                Some((min_seq, s3)) => match p_u64(s3) {
                    Some((max_seq, s4)) => match p_len_prefixed(s4) {
                        Some((first_ikey, s5)) => match p_len_prefixed(s5) {
                            Some((last_ikey, _)) => if is_ikey(first_ikey) && is_ikey(last_ikey) {
                                Some(
                                    Stats {
                                        entries,
                                        tombstones,
                                        min_seq,
                                        max_seq,
                                        first_ikey,
                                        last_ikey,
                                    },
                                )
                            } else {
                                None
                            },
                            None => None,
                        },
                        None => None,
                    },
                    None => None,
                },
                None => None,
            },
            None => None,
        },
        None => None,
    }
}

/// Statistics read back as they were written.
pub proof fn lemma_stats_roundtrip(t: Stats)
    requires
        is_ikey(t.first_ikey),
        is_ikey(t.last_ikey),
        t.first_ikey.len() <= u64::MAX,
        t.last_ikey.len() <= u64::MAX,
    ensures
        p_stats(enc_stats(t)) == Some(t),
{
    let s5 = enc_len_prefixed(t.last_ikey);
    let s4 = enc_len_prefixed(t.first_ikey) + s5;
    let s3 = enc_u64(t.max_seq) + s4;
    let s2 = enc_u64(t.min_seq) + s3;
    let s1 = enc_u64(t.tombstones) + s2;
    assert(enc_stats(t) =~= enc_u64(t.entries) + s1);
    lemma_u64_roundtrip(t.entries, s1);
    lemma_u64_roundtrip(t.tombstones, s2);
    lemma_u64_roundtrip(t.min_seq, s3);
    lemma_u64_roundtrip(t.max_seq, s4);
    lemma_len_prefixed_roundtrip(t.first_ikey, s5);
    lemma_len_prefixed_roundtrip(t.last_ikey, Seq::empty());
    assert(s5 + Seq::<u8>::empty() =~= s5);
}

impl TableStats {
    pub fn encode(&self) -> (out: Vec<u8>)
        ensures
            out@ == enc_stats(self@),
    {
        let mut out: Vec<u8> = Vec::new();
        put_u64(&mut out, self.entries);
        put_u64(&mut out, self.tombstones);
        put_u64(&mut out, self.min_seq);
        put_u64(&mut out, self.max_seq);
        put_len_prefixed(&mut out, self.first_ikey.as_slice());
        put_len_prefixed(&mut out, self.last_ikey.as_slice());
        assert(out@ =~= enc_stats(self@));
        out
    }

    pub fn decode(buf: &[u8]) -> (r: Result<TableStats>)
        ensures
            match p_stats(buf@) {
                Some(t) => r matches Ok(s) && s@ == t && is_ikey(t.first_ikey) && is_ikey(
                    t.last_ikey,
                ),
                None => r matches Err(Error::Corruption(_)),
            },
    {
        let mut r = Reader::new(buf);
        let entries: u64 = r.u64()?;
        let tombstones: u64 = r.u64()?;
        let min_seq: u64 = r.u64()?;
        let max_seq: u64 = r.u64()?;
        let first_ikey = to_bytes(r.len_prefixed()?);
        let last_ikey = to_bytes(r.len_prefixed()?);
        if first_ikey.len() < 8 || last_ikey.len() < 8 {
            return Err(corrupt("stats keys shorter than trailer"));
        }
        Ok(TableStats { entries, tombstones, min_seq, max_seq, first_ikey, last_ikey })
    }

    /// The least user key.
    pub fn min_ukey(&self) -> (k: &[u8])
        requires
            is_ikey(self.first_ikey@),
        ensures
            k@ == ukey_of(self@.first_ikey),
    {
        ikey_ukey(self.first_ikey.as_slice())
    }

    /// The greatest user key.
    pub fn max_ukey(&self) -> (k: &[u8])
        requires
            is_ikey(self.last_ikey@),
        ensures
            k@ == ukey_of(self@.last_ikey),
    {
        ikey_ukey(self.last_ikey.as_slice())
    }
}

// ---------------------------------------------------------------------------
// Index and file
// ---------------------------------------------------------------------------

/// One index entry: the last internal key of a block, and where it lies.
pub struct IndexEntry {
    pub last: Seq<u8>,
    pub at: BlockRef,
}

pub open spec fn enc_index_entry(e: IndexEntry) -> Seq<u8> {
    enc_len_prefixed(e.last) + enc_uvarint(e.at.off) + enc_uvarint(e.at.len as u64)
}

pub open spec fn enc_index(es: Seq<IndexEntry>) -> Seq<u8>
    decreases es.len(),
{
    if es.len() == 0 {
        Seq::empty()
    } else {
        enc_index_entry(es[0]) + enc_index(es.skip(1))
    }
}

pub open spec fn p_index_entry(s: Seq<u8>) -> Option<(IndexEntry, Seq<u8>)> {
    match p_len_prefixed(s) {
        Some((last, s1)) => if !is_ikey(last) {
            None
        } else {
            match p_uvarint(s1) {
                Some((off, s2)) => match p_uvarint(s2) {
                    Some((len, s3)) => Some(
                        (IndexEntry { last, at: BlockRef { off, len: len as u32 } }, s3),
                    ),
                    None => None,
                },
                None => None,
            }
        },
        None => None,
    }
}

/// The index entries of an index payload: as many as fill it exactly.
pub open spec fn p_index(s: Seq<u8>) -> Option<Seq<IndexEntry>>
    decreases s.len(),
{
    if s.len() == 0 {
        Some(Seq::empty())
    } else {
        match p_index_entry(s) {
            Some((e, rest)) => if rest.len() < s.len() {
                match p_index(rest) {
                    Some(es) => Some(seq![e] + es),
                    None => None,
                }
            } else {
                None
            },
            None => None,
        }
    }
}

/// Bytes of all keys of an index.
pub open spec fn index_key_bytes(es: Seq<IndexEntry>) -> nat
    decreases es.len(),
{
    if es.len() == 0 {
        0
    } else {
        es[0].last.len() + index_key_bytes(es.skip(1))
    }
}

pub proof fn lemma_index_entry_consumes(s: Seq<u8>)
    ensures
        p_index_entry(s) matches Some((_, rest)) ==> rest.len() < s.len(),
{
    if let Some((last, s1)) = p_len_prefixed(s) {
        lemma_uvarint_consumes(s);
        lemma_uvarint_consumes(s1);
        if let Some((off, s2)) = p_uvarint(s1) {
            lemma_uvarint_consumes(s2);
        }
    }
}

/// An index reads back as it was written.
pub proof fn lemma_index_roundtrip(es: Seq<IndexEntry>)
    requires
        forall|i: int|
            0 <= i < es.len() ==> is_ikey((#[trigger] es[i]).last) && es[i].last.len()
                <= u64::MAX,
    ensures
        p_index(enc_index(es)) == Some(es),
        index_key_bytes(es) <= enc_index(es).len(),
    decreases es.len(),
{
    let s = enc_index(es);
    if es.len() > 0 {
        let e = es[0];
        let tail = enc_index(es.skip(1));
        assert forall|i: int| 0 <= i < es.skip(1).len() implies is_ikey(
            (#[trigger] es.skip(1)[i]).last,
        ) && es.skip(1)[i].last.len() <= u64::MAX by {
            assert(is_ikey(es[i + 1].last));
        }
        lemma_index_roundtrip(es.skip(1));
        let s2 = enc_uvarint(e.at.len as u64) + tail;
        let s1 = enc_uvarint(e.at.off) + s2;
        assert(s =~= enc_len_prefixed(e.last) + s1);
        lemma_len_prefixed_roundtrip(e.last, s1);
        lemma_uvarint_roundtrip(e.at.off, s2);
        lemma_uvarint_roundtrip(e.at.len as u64, tail);
        lemma_index_entry_consumes(s);
        assert(es =~= seq![e] + es.skip(1));
    } else {
        assert(es =~= Seq::empty());
    }
}

/// The stored bytes that a reference points at, if they lie in the file.
pub open spec fn bytes_at(data: Seq<u8>, r: BlockRef) -> Option<Seq<u8>> {
    if r.off + r.len <= data.len() {
        Some(data.subrange(r.off as int, r.off + r.len))
    } else {
        None
    }
}

/// The payload of the block that a reference points at.
pub open spec fn payload_at(data: Seq<u8>, r: BlockRef) -> Option<Seq<u8>> {
    match bytes_at(data, r) {
        Some(s) => p_stored(s),
        None => None,
    }
}

/// What opening a table file reads: index, filter and statistics.
pub struct TableModel {
    pub index: Seq<IndexEntry>,
    pub filter: Seq<u8>,
    pub filter_at: BlockRef,
    pub stats: Stats,
}

pub open spec fn p_table(data: Seq<u8>) -> Option<TableModel> {
    if data.len() < 48 {
        None
    } else {
        match p_footer(data.skip(data.len() - 48)) {
            Some(f) => match payload_at(data, f.filter) {
                Some(filter) => match payload_at(data, f.stats) {
                    Some(sb) => match p_stats(sb) {
                        Some(stats) => match payload_at(data, f.index) {
                            Some(ib) => match p_index(ib) {
                                Some(index) => if index.len() > 0 && index_key_bytes(index)
                                    <= u32::MAX {
                                    Some(TableModel { index, filter, filter_at: f.filter, stats })
                                } else {
                                    None
                                },
                                None => None,
                            },
                            None => None,
                        },
                        None => None,
                    },
                    None => None,
                },
                None => None,
            },
            None => None,
        }
    }
}

/// Block `k` can be read: its checksum holds, and it has room for what it
/// announces.
pub open spec fn block_reads(data: Seq<u8>, m: TableModel, k: int) -> bool {
    payload_at(data, m.index[k].at) matches Some(d) && header_ok(d)
}

/// The entries of block `k`; none where it cannot be read.
pub open spec fn part_at(data: Seq<u8>, m: TableModel, k: int) -> Seq<Kv> {
    if block_reads(data, m, k) {
        block_entries(payload_at(data, m.index[k].at)->Some_0)
    } else {
        Seq::empty()
    }
}

pub open spec fn table_parts(data: Seq<u8>, m: TableModel) -> Seq<Seq<Kv>> {
    Seq::new(m.index.len(), |k: int| part_at(data, m, k))
}

/// All entries of a table that can be read.
pub open spec fn table_entries(data: Seq<u8>, m: TableModel) -> Seq<Kv> {
    flat(table_parts(data, m))
}

/// A table as the builder writes it: every block readable, not empty and
/// under its last key in the index, the entries in order, the statistics'
/// key range theirs, and the filter admitting each of their keys.
pub open spec fn table_sound(data: Seq<u8>, m: TableModel) -> bool {
    let es = table_entries(data, m);
    &&& m.index.len() > 0
    &&& forall|k: int|
        0 <= k < m.index.len() ==> {
            &&& (#[trigger] payload_at(data, m.index[k].at)) matches Some(d)
            &&& block_ok(d)
            &&& block_entries(d).len() > 0
            &&& block_entries(d).last().key == m.index[k].last
        }
    &&& sorted(es)
    &&& es.len() > 0
    &&& m.stats.first_ikey == es[0].key
    &&& m.stats.last_ikey == es.last().key
    &&& forall|i: int|
        0 <= i < es.len() ==> filter_admits(m.filter, hash_of(ukey_of(#[trigger] es[i].key)))
}

/// Block `k`, if it can be read, is what the builder wrote: in order, under its
/// last key in the index and above that of the block before, and admitted by the
/// filter.
pub open spec fn block_intact(data: Seq<u8>, m: TableModel, k: int) -> bool {
    block_reads(data, m, k) ==> {
        let es = part_at(data, m, k);
        &&& block_ok(payload_at(data, m.index[k].at)->Some_0)
        &&& es.len() > 0
        &&& es.last().key == m.index[k].last
        &&& k == 0 ==> es[0].key == m.stats.first_ikey
        &&& k > 0 ==> ikey_before(m.index[k - 1].last, es[0].key)
        &&& forall|i: int|
            0 <= i < es.len() ==> filter_admits(m.filter, hash_of(ukey_of(#[trigger] es[i].key)))
    }
}

/// A table of which every block that can be read is what the builder wrote.
#[verifier::opaque]
pub open spec fn table_intact(data: Seq<u8>, m: TableModel) -> bool {
    &&& m.index.len() > 0
    &&& forall|k: int| 0 <= k < m.index.len() ==> is_ikey((#[trigger] m.index[k]).last)
    &&& forall|k: int, l: int|
        0 <= k < l < m.index.len() ==> ikey_before(
            (#[trigger] m.index[k]).last,
            (#[trigger] m.index[l]).last,
        )
    &&& lex_le(ukey_of(m.stats.first_ikey), ukey_of(m.index[0].last))
    &&& m.index.last().last == m.stats.last_ikey
    &&& forall|k: int| 0 <= k < m.index.len() ==> #[trigger] block_intact(data, m, k)
}

} // verus!
