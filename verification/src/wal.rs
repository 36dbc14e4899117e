//! Write-ahead log: length + CRC framed records, one file per memtable
//! generation.
//!
//! Framing: `[len u32][crc32(payload) u32][payload]`.
//!
//! Recovery semantics: a truncated or CRC-invalid record is *torn-tail loss*
//! only in the newest WAL; sealed WALs were synced at rotation, so damage
//! there is real corruption and recovery must fail loudly rather than
//! resurrect a non-prefix history.

use vstd::prelude::*;

use crate::coding::{crc32, le_u64, put_bytes, put_u32};
use crate::order::to_bytes;

verus! {

use crate::coding::{
    crc32_of, enc_u32, le_value, lemma_le_bound, lemma_le_len, lemma_le_roundtrip,
    lemma_pow256_values,
};

pub const HEADER_LEN: usize = 8;

/// Sanity bound; a record is one encoded write batch and batches are size-
/// capped well below this at the write path.
pub const MAX_RECORD: u32 = 0x4000_0000;

/// How a log file ends.
#[derive(Debug, PartialEq, Eq, Structural)]
pub enum WalTail {
    /// File ended exactly on a record boundary.
    Clean,
    /// Trailing bytes did not form a valid record; `valid_len` is the byte
    /// length of the valid prefix.
    Torn { valid_len: u64 },
}

/// The bytes that log one payload.
pub open spec fn wal_frame(payload: Seq<u8>) -> Seq<u8> {
    enc_u32(payload.len() as u32) + enc_u32(crc32_of(payload)) + payload
}

/// The bytes that log several payloads, in order.
pub open spec fn wal_frames(payloads: Seq<Seq<u8>>) -> Seq<u8>
    decreases payloads.len(),
{
    if payloads.len() == 0 {
        Seq::empty()
    } else {
        wal_frame(payloads[0]) + wal_frames(payloads.skip(1))
    }
}

/// Length that a record header at the head of `s` announces.
pub open spec fn announced_len(s: Seq<u8>) -> nat {
    le_value(s.take(4))
}

/// Checksum that a record header at the head of `s` announces.
pub open spec fn announced_crc(s: Seq<u8>) -> nat {
    le_value(s.subrange(4, 8))
}

/// `s` begins with a valid record. An all-zero header is none, though the
/// checksum of nothing is zero: the engine never writes an empty record, and
/// a zero-filled region is a torn tail.
pub open spec fn wal_head_valid(s: Seq<u8>) -> bool {
    &&& s.len() >= 8
    &&& !(announced_len(s) == 0 && announced_crc(s) == 0)
    &&& announced_len(s) <= MAX_RECORD
    &&& s.len() >= 8 + announced_len(s)
    &&& crc32_of(s.subrange(8, 8 + announced_len(s) as int)) == announced_crc(s)
}

/// The payloads of the valid records at the head of `s`.
pub open spec fn wal_records(s: Seq<u8>) -> Seq<Seq<u8>>
    decreases s.len(),
{
    if wal_head_valid(s) {
        seq![s.subrange(8, 8 + announced_len(s) as int)] + wal_records(s.skip(8 + announced_len(s) as int))
    } else {
        Seq::empty()
    }
}

/// How many bytes the valid records at the head of `s` take.
pub open spec fn wal_valid_len(s: Seq<u8>) -> nat
    decreases s.len(),
{
    if wal_head_valid(s) {
        8 + announced_len(s) + wal_valid_len(s.skip(8 + announced_len(s) as int))
    } else {
        0
    }
}

/// Payloads that the log gives back: not empty, and within the size bound.
pub open spec fn loggable(payload: Seq<u8>) -> bool {
    0 < payload.len() <= MAX_RECORD
}

proof fn lemma_frame_head(payload: Seq<u8>, tail: Seq<u8>)
    requires
        loggable(payload),
    ensures
        wal_head_valid(wal_frame(payload) + tail),
        announced_len(wal_frame(payload) + tail) == payload.len(),
        (wal_frame(payload) + tail).subrange(8, 8 + payload.len() as int) == payload,
        (wal_frame(payload) + tail).skip(8 + payload.len() as int) == tail,
{
    let s = wal_frame(payload) + tail;
    let n = payload.len() as u32;
    let c = crc32_of(payload);
    lemma_pow256_values();
    lemma_le_roundtrip(n as nat, 4);
    lemma_le_roundtrip(c as nat, 4);
    assert(s.take(4) =~= enc_u32(n));
    assert(s.subrange(4, 8) =~= enc_u32(c));
    assert(s.subrange(8, 8 + payload.len() as int) =~= payload);
    assert(s.skip(8 + payload.len() as int) =~= tail);
}

/// A log gives back every payload written to it, in order, and then whatever
/// its tail holds.
pub proof fn lemma_wal_roundtrip(payloads: Seq<Seq<u8>>, tail: Seq<u8>)
    requires
        forall|i: int| 0 <= i < payloads.len() ==> loggable(#[trigger] payloads[i]),
    ensures
        wal_records(wal_frames(payloads) + tail) == payloads + wal_records(tail),
        wal_valid_len(wal_frames(payloads) + tail) == wal_frames(payloads).len() + wal_valid_len(
            tail,
        ),
    decreases payloads.len(),
{
    let s = wal_frames(payloads) + tail;
    if payloads.len() == 0 {
        assert(s =~= tail);
        assert(payloads + wal_records(tail) =~= wal_records(tail));
    } else {
        let rest = wal_frames(payloads.skip(1)) + tail;
        assert(s =~= wal_frame(payloads[0]) + rest);
        lemma_frame_head(payloads[0], rest);
        assert forall|i: int| 0 <= i < payloads.skip(1).len() implies loggable(
            #[trigger] payloads.skip(1)[i],
        ) by {
            assert(loggable(payloads[i + 1]));
        }
        lemma_wal_roundtrip(payloads.skip(1), tail);
        assert(wal_records(s) =~= payloads + wal_records(tail));
        lemma_le_len(payloads[0].len() as u32 as nat, 4);
        lemma_le_len(crc32_of(payloads[0]) as nat, 4);
    }
}

/// Cutting a log short, wherever, loses only records from its end: what is
/// still read is a prefix of what was read before.
pub proof fn lemma_torn_tail_keeps_prefix(s: Seq<u8>, n: int)
    requires
        0 <= n <= s.len(),
    ensures
        wal_records(s.take(n)).is_prefix_of(wal_records(s)),
    decreases s.len(),
{
    let t = s.take(n);
    if wal_head_valid(t) {
        let m = 8 + announced_len(t);
        assert(s.take(4) =~= t.take(4));
        assert(s.subrange(4, 8) =~= t.subrange(4, 8));
        assert(s.subrange(8, m as int) =~= t.subrange(8, m as int));
        assert(t.skip(m as int) =~= s.skip(m as int).take(n - m));
        lemma_torn_tail_keeps_prefix(s.skip(m as int), n - m);
        let a = wal_records(t.skip(m as int));
        let b = wal_records(s.skip(m as int));
        let head = seq![s.subrange(8, m as int)];
        assert(head + a =~= (head + b).take(1 + a.len() as int));
    } else {
        assert(wal_records(t) =~= wal_records(s).take(0));
    }
}

/// Frame one payload for the log.
pub fn frame_record(payload: &[u8]) -> (rec: Vec<u8>)
    requires
        payload@.len() < MAX_RECORD,
    ensures
        rec@ == wal_frame(payload@),
{
    let mut rec: Vec<u8> = Vec::new();
    put_u32(&mut rec, payload.len() as u32);
    put_u32(&mut rec, crc32(payload));
    put_bytes(&mut rec, payload);
    assert(rec@ =~= wal_frame(payload@));
    rec
}

pub open spec fn payloads_view(v: Seq<Vec<u8>>) -> Seq<Seq<u8>> {
    v.map_values(|p: Vec<u8>| p@)
}

/// Whether `s` begins with a valid record, and its payload length.
fn read_head(s: &[u8]) -> (r: Option<usize>)
    ensures
        r is Some <==> wal_head_valid(s@),
        r matches Some(n) ==> n == announced_len(s@),
{
    if s.len() < HEADER_LEN {
        return None;
    }
    let a = vstd::slice::slice_subrange(s, 0, 4);
    let b = vstd::slice::slice_subrange(s, 4, 8);
    assert(a@ =~= s@.take(4));
    proof {
        lemma_le_bound(a@);
        lemma_le_bound(b@);
        lemma_pow256_values();
    }
    let rec_len: u32 = le_u64(a) as u32;
    let crc: u32 = le_u64(b) as u32;
    if rec_len == 0 && crc == 0 {
        return None;
    }
    if rec_len > MAX_RECORD || s.len() - HEADER_LEN < rec_len as usize {
        return None;
    }
    let n: usize = rec_len as usize;
    let payload = vstd::slice::slice_subrange(s, HEADER_LEN, HEADER_LEN + n);
    if crc32(payload) != crc {
        return None;
    }
    Some(n)
}

/// Read every valid record from the head of a log file's bytes. Never fails
/// on a bad tail: whether `Torn` is fine or corruption is the caller's call
/// (it depends on whether this is the newest WAL).
pub fn read_wal(buf: &[u8]) -> (r: (Vec<Vec<u8>>, WalTail))
    ensures
        payloads_view(r.0@) == wal_records(buf@),
        r.1 == (if wal_valid_len(buf@) == buf@.len() {
            WalTail::Clean
        } else {
            WalTail::Torn { valid_len: wal_valid_len(buf@) as u64 }
        }),
{
    let mut records: Vec<Vec<u8>> = Vec::new();
    let mut pos: usize = 0;
    assert(buf@.skip(0) =~= buf@);
    assert(payloads_view(records@) + wal_records(buf@) =~= wal_records(buf@));
    while pos < buf.len()
        invariant
            pos <= buf@.len(),
            payloads_view(records@) + wal_records(buf@.skip(pos as int)) == wal_records(buf@),
            pos + wal_valid_len(buf@.skip(pos as int)) == wal_valid_len(buf@),
        decreases buf@.len() - pos,
    {
        let rest = vstd::slice::slice_subrange(buf, pos, buf.len());
        assert(rest@ =~= buf@.skip(pos as int));
        match read_head(rest) {
            None => {
                assert(payloads_view(records@) =~= wal_records(buf@));
                return (records, WalTail::Torn { valid_len: pos as u64 });
            },
            Some(n) => {
                let payload = vstd::slice::slice_subrange(rest, HEADER_LEN, HEADER_LEN + n);
                let ghost before = payloads_view(records@);
                records.push(to_bytes(payload));
                proof {
                    assert(payloads_view(records@) =~= before.push(payload@));
                    assert(buf@.skip(pos as int).skip(8 + n) =~= buf@.skip(pos + 8 + n));
                    assert(before.push(payload@) + wal_records(buf@.skip(pos + 8 + n)) =~= before
                        + wal_records(buf@.skip(pos as int)));
                }
                pos = pos + HEADER_LEN + n;
            },
        }
    }
    assert(payloads_view(records@) =~= wal_records(buf@));
    (records, WalTail::Clean)
}

/// The append side of a log file: how much was handed out to be written, and
/// how much of it is durable.
pub struct WalWriter {
    pub written: u64,
    pub synced: u64,
}

impl WalWriter {
    /// A fresh, empty log.
    pub fn new() -> (w: Self)
        ensures
            w.written == 0,
            w.synced == 0,
    {
        WalWriter { written: 0, synced: 0 }
    }

    /// The bytes to append for a record.
    pub fn append_record(&mut self, payload: &[u8]) -> (rec: Vec<u8>)
        requires
            payload@.len() < MAX_RECORD,
            old(self).written + payload@.len() + 8 <= u64::MAX,
        ensures
            rec@ == wal_frame(payload@),
            final(self).written == old(self).written + rec@.len(),
            final(self).synced == old(self).synced,
    {
        let rec = frame_record(payload);
        proof {
            lemma_le_len(payload@.len() as u32 as nat, 4);
            lemma_le_len(crc32_of(payload@) as nat, 4);
        }
        self.written = self.written + rec.len() as u64;
        rec
    }

    /// Everything written so far is durable.
    pub fn sync(&mut self)
        ensures
            final(self).written == old(self).written,
            final(self).synced == old(self).written,
    {
        self.synced = self.written;
    }
}

} // verus!
