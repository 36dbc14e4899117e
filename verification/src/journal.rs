//! Opt-in append-only mutation journal: a catastrophe-recovery safety net.
//!
//! The journal is a separate, independent record of every logical mutation
//! from which a fresh database can be rebuilt from zero. Its log holds a header
//! with the source store's instance id, base snapshots (a checkpoint record,
//! the pairs, a base-end record) and the deltas that follow. Rebuild anchors on
//! the last *complete* base snapshot. It records the user keyspace only.

use vstd::prelude::*;

use crate::batch::BatchOp;
use crate::coding::{crc32, put_bytes, put_len_prefixed, put_u32, put_u64, Reader};
use crate::config::parse_file_id;
use crate::error::{corrupt, invalid, Error, Result};
use crate::identity::{id_from, InstanceId};
use crate::order::to_bytes;
use crate::types::{SeqNo, ValueKind};

verus! {

use crate::batch::{ops_view, Op};
use crate::coding::{
    crc32_of, enc_len_prefixed, enc_u32, enc_u64, le_value, lemma_le_len, lemma_le_roundtrip,
    lemma_len_prefixed_roundtrip, lemma_pow256_values, lemma_u64_roundtrip, p_bytes,
    p_len_prefixed, p_u64, p_u8,
};
use crate::config::p_file_id;
use crate::types::kind_of_byte;
use crate::wal::payloads_view;

pub const MAGIC: u64 = 0xf115_e731_10c7_0001;

pub const FORMAT: u8 = 1;

pub const TAG_HEADER: u8 = 0;

pub const TAG_CHECKPOINT: u8 = 1;

pub const TAG_BASE: u8 = 2;

pub const TAG_BASE_END: u8 = 3;

pub const TAG_DELTA: u8 = 4;

/// Rotate the active log file once it passes this size.
pub const DEFAULT_ROTATE_BYTES: u64 = 134_217_728;

/// Snapshot of a running journal's progress.
pub struct JournalStats {
    /// Delta records appended since attach.
    pub deltas_written: u64,
    /// Base-snapshot records written (across all checkpoints).
    pub base_records_written: u64,
    /// Highest committed seqno durably appended to the log.
    pub last_seqno: SeqNo,
    /// Times the stream lagged and forced a fresh base snapshot.
    pub rebaselines: u64,
    /// Set if the drainer stopped on an error; the journal is then stale.
    pub last_error: Option<String>,
}

impl JournalStats {
    /// Deltas were appended, the last of them at `last`.
    pub fn note_deltas(&mut self, count: u64, last: SeqNo)
        ensures
            final(self).deltas_written == crate::counts::sat_add(old(self).deltas_written, count),
            final(self).last_seqno == higher(old(self).last_seqno, last),
            final(self).base_records_written == old(self).base_records_written,
            final(self).rebaselines == old(self).rebaselines,
            final(self).last_error == old(self).last_error,
    {
        self.deltas_written = self.deltas_written.saturating_add(count);
        if last > self.last_seqno {
            self.last_seqno = last;
        }
    }

    /// A fresh base snapshot healed a hole in the stream.
    pub fn note_rebaseline(&mut self, records: u64, seq: SeqNo)
        ensures
            final(self).rebaselines == crate::counts::sat_add(old(self).rebaselines, 1),
            final(self).base_records_written == crate::counts::sat_add(
                old(self).base_records_written,
                records,
            ),
            final(self).last_seqno == higher(old(self).last_seqno, seq),
            final(self).deltas_written == old(self).deltas_written,
            final(self).last_error == old(self).last_error,
    {
        self.rebaselines = self.rebaselines.saturating_add(1);
        self.base_records_written = self.base_records_written.saturating_add(records);
        if seq > self.last_seqno {
            self.last_seqno = seq;
        }
    }
}

pub open spec fn higher(a: u64, b: u64) -> u64 {
    if b > a {
        b
    } else {
        a
    }
}

// ---------------------------------------------------------------------------
// Records
// ---------------------------------------------------------------------------

pub open spec fn enc_header(source: Seq<u8>) -> Seq<u8> {
    seq![TAG_HEADER, FORMAT] + enc_u64(MAGIC) + source
}

pub open spec fn enc_checkpoint(seq: u64) -> Seq<u8> {
    seq![TAG_CHECKPOINT] + enc_u64(seq)
}

pub open spec fn enc_base(key: Seq<u8>, value: Seq<u8>) -> Seq<u8> {
    seq![TAG_BASE] + enc_len_prefixed(key) + enc_len_prefixed(value)
}

pub open spec fn enc_base_end(seq: u64) -> Seq<u8> {
    seq![TAG_BASE_END] + enc_u64(seq)
}

pub open spec fn enc_delta(seq: u64, kind: ValueKind, key: Seq<u8>, value: Option<Seq<u8>>) -> Seq<
    u8,
> {
    seq![TAG_DELTA] + enc_u64(seq) + seq![kind.byte()] + enc_len_prefixed(key) + (match value {
        Some(v) => enc_len_prefixed(v),
        None => Seq::empty(),
    })
}

pub fn encode_header(source: &InstanceId) -> (p: Vec<u8>)
    ensures
        p@ == enc_header(source@),
{
    let mut p: Vec<u8> = Vec::new();
    p.push(TAG_HEADER);
    p.push(FORMAT);
    put_u64(&mut p, MAGIC);
    put_bytes(&mut p, vstd::array::array_as_slice(source));
    assert(p@ =~= enc_header(source@));
    p
}

pub fn encode_checkpoint(seq: SeqNo) -> (p: Vec<u8>)
    ensures
        p@ == enc_checkpoint(seq),
{
    let mut p: Vec<u8> = Vec::new();
    p.push(TAG_CHECKPOINT);
    put_u64(&mut p, seq);
    assert(p@ =~= enc_checkpoint(seq));
    p
}

pub fn encode_base(key: &[u8], value: &[u8]) -> (p: Vec<u8>)
    ensures
        p@ == enc_base(key@, value@),
{
    let mut p: Vec<u8> = Vec::new();
    p.push(TAG_BASE);
    put_len_prefixed(&mut p, key);
    put_len_prefixed(&mut p, value);
    assert(p@ =~= enc_base(key@, value@));
    p
}

pub fn encode_base_end(seq: SeqNo) -> (p: Vec<u8>)
    ensures
        p@ == enc_base_end(seq),
{
    let mut p: Vec<u8> = Vec::new();
    p.push(TAG_BASE_END);
    put_u64(&mut p, seq);
    assert(p@ =~= enc_base_end(seq));
    p
}

pub fn encode_delta(seq: SeqNo, kind: ValueKind, key: &[u8], value: Option<&[u8]>) -> (p: Vec<u8>)
    ensures
        p@ == enc_delta(
            seq,
            kind,
            key@,
            match value {
                Some(v) => Some(v@),
                None => None,
            },
        ),
{
    let mut p: Vec<u8> = Vec::new();
    p.push(TAG_DELTA);
    put_u64(&mut p, seq);
    p.push(kind.to_u8());
    put_len_prefixed(&mut p, key);
    if let Some(v) = value {
        put_len_prefixed(&mut p, v);
    }
    proof {
        let vv = match value {
            Some(v) => Some(v@),
            None => None,
        };
        assert(p@ =~= enc_delta(seq, kind, key@, vv));
    }
    p
}

/// The instance id in a header record. The format byte is compared only where
/// `strict`.
pub open spec fn p_header(s: Seq<u8>, strict: bool) -> Option<Seq<u8>> {
    match p_u8(s) {
        Some((tag, s1)) => if tag != TAG_HEADER {
            None
        } else {
            match p_u8(s1) {
                Some((format, s2)) => if strict && format != FORMAT {
                    None
                } else {
                    match p_u64(s2) {
                        Some((magic, s3)) => if magic != MAGIC {
                            None
                        } else {
                            match p_bytes(s3, 16) {
                                Some((id, _)) => Some(id),
                                None => None,
                            }
                        },
                        None => None,
                    }
                },
                None => None,
            }
        },
        None => None,
    }
}

fn parse_header(rec: &[u8], strict: bool) -> (r: Result<InstanceId>)
    ensures
        match p_header(rec@, strict) {
            Some(id) => r matches Ok(x) && x@ == id,
            None => r matches Err(Error::Corruption(_)),
        },
{
    let mut r = Reader::new(rec);
    let tag: u8 = r.u8()?;
    if tag != TAG_HEADER {
        return Err(corrupt("journal does not start with a header"));
    }
    let format: u8 = r.u8()?;
    if strict && format != FORMAT {
        return Err(corrupt("unsupported journal format"));
    }
    let magic: u64 = r.u64()?;
    if magic != MAGIC {
        return Err(corrupt("bad journal magic"));
    }
    let id = r.bytes(16)?;
    Ok(id_from(id))
}

// ---------------------------------------------------------------------------
// Framing
// ---------------------------------------------------------------------------

/// A record in the log: its length, its checksum, its bytes.
pub open spec fn frame(payload: Seq<u8>) -> Seq<u8> {
    enc_u32(payload.len() as u32) + enc_u32(crc32_of(payload)) + payload
}

pub open spec fn frame_len(s: Seq<u8>) -> nat {
    le_value(s.take(4))
}

/// The bytes begin with a whole record.
pub open spec fn head_valid(s: Seq<u8>) -> bool {
    &&& s.len() >= 8
    &&& frame_len(s) > 0
    &&& 8 + frame_len(s) <= s.len()
    &&& crc32_of(s.subrange(8, 8 + frame_len(s) as int)) == le_value(s.subrange(4, 8))
}

/// The records up to the first that is torn or fails its checksum.
pub open spec fn records_of(s: Seq<u8>) -> Seq<Seq<u8>>
    decreases s.len(),
{
    if head_valid(s) {
        seq![s.subrange(8, 8 + frame_len(s) as int)] + records_of(s.skip(8 + frame_len(s) as int))
    } else {
        Seq::empty()
    }
}

/// How many bytes those records take.
pub open spec fn clean_len(s: Seq<u8>) -> nat
    decreases s.len(),
{
    if head_valid(s) {
        8 + frame_len(s) + clean_len(s.skip(8 + frame_len(s) as int))
    } else {
        0
    }
}

/// Parse framed records from one file's bytes, stopping at the first torn or
/// checksum-invalid record (a journal crash tail). Gives the records and
/// whether the file ends on a record's boundary.
pub fn read_records(bytes: &[u8]) -> (r: (Vec<Vec<u8>>, bool))
    ensures
        payloads_view(r.0@) == records_of(bytes@),
        r.1 == (clean_len(bytes@) == bytes@.len()),
{
    let mut records: Vec<Vec<u8>> = Vec::new();
    let mut pos: usize = 0;
    proof {
        assert(bytes@.skip(0) =~= bytes@);
        assert(payloads_view(records@) + records_of(bytes@) =~= records_of(bytes@));
    }
    while bytes.len() - pos >= 8
        invariant
            pos <= bytes@.len(),
            payloads_view(records@) + records_of(bytes@.skip(pos as int)) == records_of(bytes@),
            pos + clean_len(bytes@.skip(pos as int)) == clean_len(bytes@),
        decreases bytes@.len() - pos,
    {
        let rest = vstd::slice::slice_subrange(bytes, pos, bytes.len());
        assert(rest@ =~= bytes@.skip(pos as int));
        let mut r = Reader::new(rest);
        let (n, crc): (u32, u32) = match (r.u32(), r.u32()) {
            (Ok(n), Ok(c)) => (n, c),
            _ => (0, 0),
        };
        proof {
            assert(rest@.skip(4).take(4) =~= rest@.subrange(4, 8));
            lemma_pow256_values();
            crate::coding::lemma_le_bound(rest@.take(4));
            crate::coding::lemma_le_bound(rest@.subrange(4, 8));
            assert(n == frame_len(rest@));
            assert(crc == le_value(rest@.subrange(4, 8)));
        }
        let left: usize = rest.len() - 8;
        if n == 0 || n as u64 > left as u64 {
            assert(payloads_view(records@) =~= records_of(bytes@));
            return (records, false);
        }
        let body = vstd::slice::slice_subrange(rest, 8, 8 + n as usize);
        if crc32(body) != crc {
            assert(payloads_view(records@) =~= records_of(bytes@));
            return (records, false);
        }
        let ghost before = payloads_view(records@);
        records.push(to_bytes(body));
        proof {
            assert(payloads_view(records@) =~= before.push(body@));
            assert(rest@.skip(8 + n) =~= bytes@.skip(pos + 8 + n));
            assert(before.push(body@) + records_of(bytes@.skip(pos + 8 + n)) =~= before
                + records_of(bytes@.skip(pos as int)));
        }
        pos = pos + 8 + n as usize;
    }
    assert(payloads_view(records@) =~= records_of(bytes@));
    (records, pos == bytes.len())
}

/// Read and validate the header record of a journal file: the source store's
/// instance id.
pub fn read_header(bytes: &[u8]) -> (r: Result<InstanceId>)
    ensures
        if records_of(bytes@).len() > 0 && p_header(records_of(bytes@)[0], true) is Some {
            r matches Ok(id) && Some(id@) == p_header(records_of(bytes@)[0], true)
        } else {
            r matches Err(Error::Corruption(_))
        },
{
    let (records, _) = read_records(bytes);
    assert(payloads_view(records@).len() == records@.len());
    if records.len() == 0 {
        return Err(corrupt("journal file has no header"));
    }
    assert(payloads_view(records@)[0] == records@[0]@);
    parse_header(records[0].as_slice(), true)
}

/// A journal directory takes one store's mutations only.
pub fn check_source(recorded: &InstanceId, source: &InstanceId) -> (r: Result<()>)
    ensures
        r is Ok <==> recorded@ == source@,
        r matches Err(e) ==> e is InvalidArgument,
{
    if !crate::order::bytes_eq(
        vstd::array::array_as_slice(recorded),
        vstd::array::array_as_slice(source),
    ) {
        return Err(invalid("journal dir belongs to another store"));
    }
    Ok(())
}

/// The append side of the log: the active file, and how much it holds.
pub struct LogWriter {
    pub file_id: u64,
    pub bytes_in_file: u64,
    pub rotate_at: u64,
}

impl LogWriter {
    /// Go on with the newest file of an existing log.
    pub fn resume(file_id: u64, bytes_in_file: u64) -> (w: Self)
        ensures
            w.file_id == file_id,
            w.bytes_in_file == bytes_in_file,
            w.rotate_at == DEFAULT_ROTATE_BYTES,
    {
        LogWriter { file_id, bytes_in_file, rotate_at: DEFAULT_ROTATE_BYTES }
    }

    /// The bytes to append for a record, and whether the file is then full: it
    /// is synced, and the next id opened.
    pub fn append(&mut self, payload: &[u8]) -> (r: (Vec<u8>, bool))
        requires
            payload@.len() <= u32::MAX,
            old(self).bytes_in_file + payload@.len() + 8 <= u64::MAX,
            old(self).file_id < u64::MAX,
        ensures
            r.0@ == frame(payload@),
            final(self).rotate_at == old(self).rotate_at,
            ({
                let n = old(self).bytes_in_file + payload@.len() + 8;
                &&& r.1 == (n >= old(self).rotate_at)
                &&& if r.1 {
                    final(self).file_id == old(self).file_id + 1 && final(self).bytes_in_file == 0
                } else {
                    final(self).file_id == old(self).file_id && final(self).bytes_in_file == n
                }
            }),
    {
        let mut rec: Vec<u8> = Vec::new();
        put_u32(&mut rec, payload.len() as u32);
        put_u32(&mut rec, crc32(payload));
        put_bytes(&mut rec, payload);
        proof {
            assert(rec@ =~= frame(payload@));
        }
        self.bytes_in_file = self.bytes_in_file + 8 + payload.len() as u64;
        let full: bool = self.bytes_in_file >= self.rotate_at;
        if full {
            self.file_id = self.file_id + 1;
            self.bytes_in_file = 0;
        }
        (rec, full)
    }
}

pub open spec fn log_affixes() -> (Seq<u8>, Seq<u8>) {
    (
        seq![0x6au8, 0x6f, 0x75, 0x72, 0x6e, 0x61, 0x6c, 0x2d],
        seq![0x2eu8, 0x6c, 0x6f, 0x67],
    )
}

/// The id of a journal file's name.
pub fn log_id_of(name: &[u8]) -> (r: Option<u64>)
    ensures
        r == p_file_id(name@, log_affixes().0, log_affixes().1),
{
    let prefix: [u8; 8] = [0x6a, 0x6f, 0x75, 0x72, 0x6e, 0x61, 0x6c, 0x2d];
    let suffix: [u8; 4] = [0x2e, 0x6c, 0x6f, 0x67];
    assert(prefix@ =~= log_affixes().0);
    assert(suffix@ =~= log_affixes().1);
    parse_file_id(
        name,
        vstd::array::array_as_slice(&prefix),
        vstd::array::array_as_slice(&suffix),
    )
}

/// The records of all files, in order; `None` where one that is not the newest
/// ends torn.
pub open spec fn all_records(files: Seq<Seq<u8>>, n: int) -> Option<Seq<Seq<u8>>>
    decreases n,
{
    if n <= 0 {
        Some(Seq::empty())
    } else {
        match all_records(files, n - 1) {
            Some(before) => if clean_len(files[n - 1]) != files[n - 1].len() && n != files.len() {
                None
            } else {
                Some(before + records_of(files[n - 1]))
            },
            None => None,
        }
    }
}

proof fn lemma_all_records_fails(files: Seq<Seq<u8>>, n: int, m: int)
    requires
        0 <= n <= m,
        all_records(files, n) is None,
    ensures
        all_records(files, m) is None,
    decreases m - n,
{
    if n < m {
        lemma_all_records_fails(files, n, m - 1);
    }
}

/// Concatenate the records of the files, given in id order.
pub fn read_all_records(files: &Vec<Vec<u8>>) -> (r: Result<Vec<Vec<u8>>>)
    ensures
        ({
            let fs = payloads_view(files@);
            if fs.len() == 0 {
                r matches Err(Error::Corruption(_))
            } else {
                match all_records(fs, fs.len() as int) {
                    Some(recs) => r matches Ok(v) && payloads_view(v@) == recs,
                    None => r matches Err(Error::Corruption(_)),
                }
            }
        }),
{
    let ghost fs = payloads_view(files@);
    assert(fs.len() == files@.len());
    if files.len() == 0 {
        return Err(corrupt("no journal files found"));
    }
    let mut out: Vec<Vec<u8>> = Vec::new();
    let mut i: usize = 0;
    assert(payloads_view(out@) =~= Seq::<Seq<u8>>::empty());
    while i < files.len()
        invariant
            i <= files@.len(),
            fs == payloads_view(files@),
            fs.len() == files@.len(),
            fs.len() > 0,
            all_records(fs, i as int) == Some(payloads_view(out@)),
        decreases files@.len() - i,
    {
        assert(fs[i as int] == files@[i as int]@);
        let (mut recs, clean) = read_records(files[i].as_slice());
        if !clean && i != files.len() - 1 {
            proof {
                assert(all_records(fs, i + 1) is None);
                lemma_all_records_fails(fs, i + 1, fs.len() as int);
            }
            return Err(corrupt("journal file ends torn but is not the newest"));
        }
        let ghost o0 = payloads_view(out@);
        let ghost rv = payloads_view(recs@);
        out.append(&mut recs);
        assert(payloads_view(out@) =~= o0 + rv);
        i += 1;
    }
    Ok(out)
}

// ---------------------------------------------------------------------------
// Rebuild
// ---------------------------------------------------------------------------

/// A complete base snapshot: its seqno, the index of its first base record and
/// that of its end record.
#[derive(Clone, Copy)]
pub struct Anchor {
    pub base_seqno: SeqNo,
    pub base_start: usize,
    pub base_end: usize,
}

/// How the search for the last complete base snapshot stands.
pub struct Search {
    /// The checkpoint whose end is still to come: its index and its seqno.
    pub open: Option<(int, u64)>,
    pub best: Option<(u64, int, int)>,
}

/// The seqno behind the tag byte of a record.
pub open spec fn seq_of(rec: Seq<u8>) -> Option<u64> {
    match p_u64(rec.skip(1)) {
        Some((v, _)) => Some(v),
        None => None,
    }
}

/// One more record; `None` where its seqno cannot be read.
pub open spec fn search_step(st: Search, rec: Seq<u8>, i: int) -> Option<Search> {
    if rec.len() > 0 && rec[0] == TAG_CHECKPOINT {
        match seq_of(rec) {
            Some(q) => Some(Search { open: Some((i, q)), best: st.best }),
            None => None,
        }
    } else if rec.len() > 0 && rec[0] == TAG_BASE_END {
        match st.open {
            Some((ci, cseq)) => match seq_of(rec) {
                Some(q) => Some(Search { open: None, best: Some((higher(cseq, q), ci + 1, i)) }),
                None => None,
            },
            None => Some(st),
        }
    } else {
        Some(st)
    }
}

pub open spec fn search(recs: Seq<Seq<u8>>, n: int) -> Option<Search>
    decreases n,
{
    if n <= 0 {
        Some(Search { open: None, best: None })
    } else {
        match search(recs, n - 1) {
            Some(st) => search_step(st, recs[n - 1], n - 1),
            None => None,
        }
    }
}

/// The last base snapshot that is complete.
pub open spec fn last_anchor(recs: Seq<Seq<u8>>) -> Option<(u64, int, int)> {
    match search(recs, recs.len() as int) {
        Some(st) => st.best,
        None => None,
    }
}

proof fn lemma_search_fails(recs: Seq<Seq<u8>>, n: int, m: int)
    requires
        0 <= n <= m,
        search(recs, n) is None,
    ensures
        search(recs, m) is None,
    decreases m - n,
{
    if n < m {
        lemma_search_fails(recs, n, m - 1);
    }
}

/// The last checkpoint that is followed by its base end. A base snapshot that
/// a crash cut short is passed over.
pub fn find_last_complete_checkpoint(records: &Vec<Vec<u8>>) -> (r: Result<Anchor>)
    ensures
        match last_anchor(payloads_view(records@)) {
            Some((q, from, to)) => r matches Ok(a) && a.base_seqno == q && a.base_start == from
                && a.base_end == to && a.base_start <= a.base_end < records@.len(),
            None => r matches Err(Error::Corruption(_)),
        },
{
    let ghost recs = payloads_view(records@);
    let mut cur: Option<(usize, SeqNo)> = None;
    let mut best: Option<Anchor> = None;
    let mut i: usize = 0;
    while i < records.len()
        invariant
            i <= records@.len(),
            recs == payloads_view(records@),
            search(recs, i as int) matches Some(st) && (match cur {
                Some((ci, q)) => st.open == Some((ci as int, q)) && ci < i,
                None => st.open is None,
            }) && (match best {
                Some(a) => st.best == Some((a.base_seqno, a.base_start as int, a.base_end as int))
                    && a.base_start <= a.base_end < i,
                None => st.best is None,
            }),
        decreases records@.len() - i,
    {
        let rec = records[i].as_slice();
        proof {
            assert(recs[i as int] == rec@);
            if search_step(search(recs, i as int)->Some_0, recs[i as int], i as int) is None {
                assert(search(recs, i + 1) is None);
                lemma_search_fails(recs, i + 1, recs.len() as int);
            }
        }
        if rec.len() > 0 {
            let tag: u8 = rec[0];
            if tag == TAG_CHECKPOINT {
                let mut r = Reader::new(rec);
                r.u8()?;
                let q: u64 = r.u64()?;
                cur = Some((i, q));
            } else if tag == TAG_BASE_END {
                match cur {
                    Some((ci, cseq)) => {
                        let mut r = Reader::new(rec);
                        r.u8()?;
                        let q: u64 = r.u64()?;
                        best = Some(
                            Anchor {
                                base_seqno: if q > cseq {
                                    q
                                } else {
                                    cseq
                                },
                                base_start: ci + 1,
                                base_end: i,
                            },
                        );
                        cur = None;
                    },
                    None => {},
                }
            }
        }
        i += 1;
    }
    match best {
        Some(a) => Ok(a),
        None => Err(corrupt("journal has no complete base snapshot")),
    }
}

/// The pair of a base record.
pub open spec fn p_base(rec: Seq<u8>) -> Option<Op> {
    match p_u8(rec) {
        Some((tag, s1)) => if tag != TAG_BASE {
            None
        } else {
            match p_len_prefixed(s1) {
                Some((key, s2)) => match p_len_prefixed(s2) {
                    Some((value, _)) => Some(Op::Put { key, value }),
                    None => None,
                },
                None => None,
            }
        },
        None => None,
    }
}

/// What a record after the base does: its seqno and operation, or nothing for
/// the scaffolding of a base that was not completed.
pub enum After {
    Delta(u64, Op),
    Skip,
}

pub open spec fn p_after(rec: Seq<u8>) -> Option<After> {
    match p_u8(rec) {
        None => None,
        Some((tag, s1)) => if tag == TAG_DELTA {
            match p_u64(s1) {
                None => None,
                Some((seq, s2)) => match p_u8(s2) {
                    None => None,
                    Some((b, s3)) => match kind_of_byte(b) {
                        None => None,
                        Some(kind) => match p_len_prefixed(s3) {
                            None => None,
                            Some((key, s4)) => match kind {
                                ValueKind::Put => match p_len_prefixed(s4) {
                                    None => None,
                                    Some((value, _)) => Some(
                                        After::Delta(seq, Op::Put { key, value }),
                                    ),
                                },
                                ValueKind::Delete => Some(After::Delta(seq, Op::Delete { key })),
                            },
                        },
                    },
                },
            }
        } else if tag == TAG_CHECKPOINT || tag == TAG_BASE || tag == TAG_BASE_END {
            Some(After::Skip)
        } else {
            None
        },
    }
}

/// The writes of the base records from `from` up to `n`.
pub open spec fn base_ops(recs: Seq<Seq<u8>>, from: int, n: int) -> Option<Seq<Op>>
    decreases n - from,
{
    if n <= from {
        Some(Seq::empty())
    } else {
        match base_ops(recs, from, n - 1) {
            Some(ops) => match p_base(recs[n - 1]) {
                Some(op) => Some(ops.push(op)),
                None => None,
            },
            None => None,
        }
    }
}

/// The deltas from `from` up to `n`, and the highest seqno of them, at least
/// `least`.
pub open spec fn delta_ops(recs: Seq<Seq<u8>>, from: int, n: int, least: u64) -> Option<
    (Seq<Op>, u64),
>
    decreases n - from,
{
    if n <= from {
        Some((Seq::empty(), least))
    } else {
        match delta_ops(recs, from, n - 1, least) {
            Some((ops, last)) => match p_after(recs[n - 1]) {
                Some(After::Delta(seq, op)) => Some((ops.push(op), higher(last, seq))),
                Some(After::Skip) => Some((ops, last)),
                None => None,
            },
            None => None,
        }
    }
}

/// What a rebuild reconstructs.
pub struct Rebuild {
    /// Source store instance id recorded in the journal header.
    pub source: InstanceId,
    /// The writes that make the fresh database, in order: the base, then the
    /// deltas.
    pub ops: Vec<BatchOp>,
    pub report: RebuildReport,
}

/// What a rebuild reconstructed.
#[derive(Clone, Copy)]
pub struct RebuildReport {
    /// Keys written from the anchoring base snapshot.
    pub base_keys: u64,
    /// Delta records applied after the base.
    pub deltas_applied: u64,
    /// Highest seqno reflected in the rebuilt database.
    pub last_seqno: SeqNo,
}

/// The same over plain values.
pub struct Rebuilt {
    pub source: Seq<u8>,
    pub base: Seq<Op>,
    pub deltas: Seq<Op>,
    pub last_seqno: u64,
}

/// What the records of a journal rebuild.
pub open spec fn rebuilt(recs: Seq<Seq<u8>>) -> Option<Rebuilt> {
    if recs.len() == 0 {
        None
    } else {
        match p_header(recs[0], false) {
            None => None,
            Some(source) => match last_anchor(recs) {
                None => None,
                Some((q, from, to)) => match base_ops(recs, from, to) {
                    None => None,
                    Some(base) => match delta_ops(recs, to + 1, recs.len() as int, q) {
                        None => None,
                        Some((deltas, last)) => Some(
                            Rebuilt { source, base, deltas, last_seqno: last },
                        ),
                    },
                },
            },
        }
    }
}

fn parse_base(rec: &[u8]) -> (r: Result<BatchOp>)
    ensures
        match p_base(rec@) {
            Some(op) => r matches Ok(x) && x@ == op,
            None => r matches Err(Error::Corruption(_)),
        },
{
    let mut r = Reader::new(rec);
    let tag: u8 = r.u8()?;
    if tag != TAG_BASE {
        return Err(corrupt("expected base record in base span"));
    }
    let key = r.len_prefixed()?;
    let value = r.len_prefixed()?;
    Ok(BatchOp::Put { key: to_bytes(key), value: to_bytes(value) })
}

fn parse_after(rec: &[u8]) -> (r: Result<Option<(SeqNo, BatchOp)>>)
    ensures
        match p_after(rec@) {
            Some(After::Delta(seq, op)) => r matches Ok(Some((q, x))) && q == seq && x@ == op,
            Some(After::Skip) => r matches Ok(None),
            None => r matches Err(Error::Corruption(_)),
        },
{
    let mut r = Reader::new(rec);
    let tag: u8 = r.u8()?;
    if tag == TAG_DELTA {
        let seq: u64 = r.u64()?;
        let b: u8 = r.u8()?;
        let kind = ValueKind::from_u8(b)?;
        let key = r.len_prefixed()?;
        match kind {
            ValueKind::Put => {
                let value = r.len_prefixed()?;
                Ok(Some((seq, BatchOp::Put { key: to_bytes(key), value: to_bytes(value) })))
            },
            ValueKind::Delete => Ok(Some((seq, BatchOp::Delete { key: to_bytes(key) }))),
        }
    } else if tag == TAG_CHECKPOINT || tag == TAG_BASE || tag == TAG_BASE_END {
        Ok(None)
    } else {
        Err(corrupt("unexpected journal record tag"))
    }
}

proof fn lemma_base_fails(recs: Seq<Seq<u8>>, from: int, n: int, m: int)
    requires
        n <= m,
        base_ops(recs, from, n) is None,
    ensures
        base_ops(recs, from, m) is None,
    decreases m - n,
{
    if n < m {
        lemma_base_fails(recs, from, n, m - 1);
    }
}

proof fn lemma_delta_fails(recs: Seq<Seq<u8>>, from: int, n: int, m: int, least: u64)
    requires
        n <= m,
        delta_ops(recs, from, n, least) is None,
    ensures
        delta_ops(recs, from, m, least) is None,
    decreases m - n,
{
    if n < m {
        lemma_delta_fails(recs, from, n, m - 1, least);
    }
}

/// Rebuild from the journal's records: anchor on the last complete base
/// snapshot and replay every delta after it.
#[verifier::rlimit(40)]
pub fn rebuild(records: &Vec<Vec<u8>>) -> (r: Result<Rebuild>)
    ensures
        match rebuilt(payloads_view(records@)) {
            Some(m) => r matches Ok(b) && b.source@ == m.source && ops_view(b.ops@) == m.base
                + m.deltas && b.report.base_keys == m.base.len() && b.report.deltas_applied
                == m.deltas.len() && b.report.last_seqno == m.last_seqno,
            None => r matches Err(Error::Corruption(_)),
        },
{
    let ghost recs = payloads_view(records@);
    assert(recs.len() == records@.len());
    if records.len() == 0 {
        return Err(corrupt("journal is empty"));
    }
    assert(recs[0] == records@[0]@);
    let source = parse_header(records[0].as_slice(), false)?;
    let anchor = find_last_complete_checkpoint(records)?;
    let mut ops: Vec<BatchOp> = Vec::new();
    let from: usize = anchor.base_start;
    let to: usize = anchor.base_end;
    let mut i: usize = from;
    assert(ops_view(ops@) =~= Seq::<Op>::empty());
    while i < to
        invariant
            from <= i <= to < records@.len(),
            recs == payloads_view(records@),
            base_ops(recs, from as int, i as int) == Some(ops_view(ops@)),
            ops@.len() == i - from,
            rebuilt(recs) is Some ==> base_ops(recs, from as int, to as int) is Some,
        decreases to - i,
    {
        proof {
            assert(recs[i as int] == records@[i as int]@);
            if p_base(recs[i as int]) is None {
                assert(base_ops(recs, from as int, i + 1) is None);
                lemma_base_fails(recs, from as int, i + 1, to as int);
            }
        }
        let op = parse_base(records[i].as_slice())?;
        let ghost o0 = ops_view(ops@);
        ops.push(op);
        assert(ops_view(ops@) =~= o0.push(op@));
        i += 1;
    }
    let ghost base = ops_view(ops@);
    let base_keys: u64 = ops.len() as u64;
    let mut last: u64 = anchor.base_seqno;
    let mut deltas: u64 = 0;
    let mut j: usize = to + 1;
    assert(base + Seq::<Op>::empty() =~= base);
    while j < records.len()
        invariant
            to + 1 <= j <= records@.len(),
            recs == payloads_view(records@),
            recs.len() == records@.len(),
            delta_ops(recs, to + 1, j as int, anchor.base_seqno) matches Some((d, l)) && l == last
                && ops_view(ops@) == base + d && deltas == d.len() && deltas <= j,
            rebuilt(recs) is Some ==> delta_ops(
                recs,
                to + 1,
                recs.len() as int,
                anchor.base_seqno,
            ) is Some,
        decreases records@.len() - j,
    {
        let ghost d0 = delta_ops(recs, to + 1, j as int, anchor.base_seqno)->Some_0.0;
        proof {
            assert(recs[j as int] == records@[j as int]@);
            if p_after(recs[j as int]) is None {
                assert(delta_ops(recs, to + 1, j + 1, anchor.base_seqno) is None);
                lemma_delta_fails(recs, to + 1, j + 1, recs.len() as int, anchor.base_seqno);
            }
        }
        if let Some((seq, op)) = parse_after(records[j].as_slice())? {
            let ghost o0 = ops_view(ops@);
            ops.push(op);
            proof {
                assert(ops_view(ops@) =~= o0.push(op@));
                assert(base + d0.push(op@) =~= (base + d0).push(op@));
            }
            deltas = deltas + 1;
            if seq > last {
                last = seq;
            }
        }
        j += 1;
    }
    Ok(
        Rebuild {
            source,
            ops,
            report: RebuildReport { base_keys, deltas_applied: deltas, last_seqno: last },
        },
    )
}

// ---------------------------------------------------------------------------
// What a journal gives back
// ---------------------------------------------------------------------------

/// The records of a base snapshot of pairs.
pub open spec fn base_records(pairs: Seq<(Seq<u8>, Seq<u8>)>) -> Seq<Seq<u8>> {
    pairs.map_values(|p: (Seq<u8>, Seq<u8>)| enc_base(p.0, p.1))
}

pub open spec fn op_delta(d: (u64, Op)) -> Seq<u8> {
    match d.1 {
        Op::Put { key, value } => enc_delta(d.0, ValueKind::Put, key, Some(value)),
        Op::Delete { key } => enc_delta(d.0, ValueKind::Delete, key, None),
    }
}

pub open spec fn delta_records(ds: Seq<(u64, Op)>) -> Seq<Seq<u8>> {
    ds.map_values(|d: (u64, Op)| op_delta(d))
}

/// A journal: header, one base snapshot at `seq`, and the deltas after it.
pub open spec fn journal_of(
    source: Seq<u8>,
    seq: u64,
    pairs: Seq<(Seq<u8>, Seq<u8>)>,
    ds: Seq<(u64, Op)>,
) -> Seq<Seq<u8>> {
    seq![enc_header(source), enc_checkpoint(seq)] + base_records(pairs) + seq![enc_base_end(seq)]
        + delta_records(ds)
}

pub open spec fn pair_ops(pairs: Seq<(Seq<u8>, Seq<u8>)>) -> Seq<Op> {
    pairs.map_values(|p: (Seq<u8>, Seq<u8>)| Op::Put { key: p.0, value: p.1 })
}

pub open spec fn delta_only(ds: Seq<(u64, Op)>) -> Seq<Op> {
    ds.map_values(|d: (u64, Op)| d.1)
}

pub open spec fn delta_last(ds: Seq<(u64, Op)>, least: u64, n: int) -> u64
    decreases n,
{
    if n <= 0 {
        least
    } else {
        higher(delta_last(ds, least, n - 1), ds[n - 1].0)
    }
}

pub open spec fn op_fits(op: Op) -> bool {
    match op {
        Op::Put { key, value } => key.len() <= u64::MAX && value.len() <= u64::MAX,
        Op::Delete { key } => key.len() <= u64::MAX,
    }
}

proof fn lemma_header_roundtrip(source: Seq<u8>)
    requires
        source.len() == 16,
    ensures
        p_header(enc_header(source), true) == Some(source),
        p_header(enc_header(source), false) == Some(source),
{
    let s = enc_header(source);
    assert(s.skip(1).skip(1) =~= enc_u64(MAGIC) + source);
    lemma_u64_roundtrip(MAGIC, source);
    assert(source.take(16) =~= source);
}

proof fn lemma_tagged_seq(tag: u8, seq: u64)
    ensures
        seq_of(seq![tag] + enc_u64(seq)) == Some(seq),
        (seq![tag] + enc_u64(seq))[0] == tag,
        (seq![tag] + enc_u64(seq)).len() > 0,
{
    let s = seq![tag] + enc_u64(seq);
    assert(s.skip(1) =~= enc_u64(seq) + Seq::<u8>::empty());
    lemma_u64_roundtrip(seq, Seq::empty());
}

proof fn lemma_base_roundtrip(key: Seq<u8>, value: Seq<u8>)
    requires
        key.len() <= u64::MAX,
        value.len() <= u64::MAX,
    ensures
        p_base(enc_base(key, value)) == Some(Op::Put { key, value }),
        enc_base(key, value)[0] == TAG_BASE,
{
    let s = enc_base(key, value);
    assert(s.skip(1) =~= enc_len_prefixed(key) + (enc_len_prefixed(value) + Seq::<u8>::empty()));
    lemma_len_prefixed_roundtrip(key, enc_len_prefixed(value) + Seq::<u8>::empty());
    lemma_len_prefixed_roundtrip(value, Seq::empty());
}

proof fn lemma_delta_roundtrip(d: (u64, Op))
    requires
        op_fits(d.1),
    ensures
        p_after(op_delta(d)) == Some(After::Delta(d.0, d.1)),
        op_delta(d)[0] == TAG_DELTA,
{
    let s = op_delta(d);
    let key = d.1.key();
    let (kind, tail) = match d.1 {
        Op::Put { key, value } => (
            ValueKind::Put,
            enc_len_prefixed(value) + Seq::<u8>::empty(),
        ),
        Op::Delete { key } => (ValueKind::Delete, Seq::<u8>::empty()),
    };
    let s3 = enc_len_prefixed(key) + tail;
    let s2 = seq![kind.byte()] + s3;
    assert(s.skip(1) =~= enc_u64(d.0) + s2);
    lemma_u64_roundtrip(d.0, s2);
    assert(s2.skip(1) =~= s3);
    lemma_len_prefixed_roundtrip(key, tail);
    if let Op::Put { key, value } = d.1 {
        lemma_len_prefixed_roundtrip(value, Seq::empty());
    }
}

proof fn lemma_search_quiet(recs: Seq<Seq<u8>>, n: int, m: int)
    requires
        0 <= n <= m <= recs.len(),
        search(recs, n) is Some,
        forall|i: int|
            n <= i < m ==> (#[trigger] recs[i]).len() > 0 && recs[i][0] != TAG_CHECKPOINT
                && recs[i][0] != TAG_BASE_END,
    ensures
        search(recs, m) == search(recs, n),
    decreases m - n,
{
    if n < m {
        lemma_search_quiet(recs, n, m - 1);
    }
}

proof fn lemma_base_ops(recs: Seq<Seq<u8>>, pairs: Seq<(Seq<u8>, Seq<u8>)>, from: int, n: int)
    requires
        0 <= n <= pairs.len(),
        0 <= from,
        from + pairs.len() <= recs.len(),
        forall|i: int| 0 <= i < pairs.len() ==> op_fits(#[trigger] pair_ops(pairs)[i]),
        forall|i: int|
            0 <= i < pairs.len() ==> recs[from + i] == #[trigger] base_records(pairs)[i],
    ensures
        base_ops(recs, from, from + n) == Some(pair_ops(pairs).take(n)),
    decreases n,
{
    let ops = pair_ops(pairs);
    if n > 0 {
        lemma_base_ops(recs, pairs, from, n - 1);
        assert(recs[from + (n - 1)] == base_records(pairs)[n - 1]);
        assert(op_fits(ops[n - 1]));
        lemma_base_roundtrip(pairs[n - 1].0, pairs[n - 1].1);
        assert(ops.take(n) =~= ops.take(n - 1).push(ops[n - 1]));
    } else {
        assert(ops.take(0) =~= Seq::empty());
    }
}

proof fn lemma_delta_ops(recs: Seq<Seq<u8>>, ds: Seq<(u64, Op)>, from: int, n: int, least: u64)
    requires
        0 <= n <= ds.len(),
        0 <= from,
        from + ds.len() <= recs.len(),
        forall|i: int| 0 <= i < ds.len() ==> op_fits((#[trigger] ds[i]).1),
        forall|i: int| 0 <= i < ds.len() ==> recs[from + i] == #[trigger] delta_records(ds)[i],
    ensures
        delta_ops(recs, from, from + n, least) == Some(
            (delta_only(ds).take(n), delta_last(ds, least, n)),
        ),
    decreases n,
{
    let ops = delta_only(ds);
    if n > 0 {
        lemma_delta_ops(recs, ds, from, n - 1, least);
        assert(recs[from + (n - 1)] == delta_records(ds)[n - 1]);
        lemma_delta_roundtrip(ds[n - 1]);
        assert(ops.take(n) =~= ops.take(n - 1).push(ops[n - 1]));
    } else {
        assert(ops.take(0) =~= Seq::empty());
    }
}

/// A journal rebuilds what was journaled: the pairs of its base snapshot, then
/// every delta in order, and the highest seqno among them.
#[verifier::rlimit(40)]
pub proof fn lemma_rebuild_gives_back_the_journal(
    source: Seq<u8>,
    seq: u64,
    pairs: Seq<(Seq<u8>, Seq<u8>)>,
    ds: Seq<(u64, Op)>,
)
    requires
        source.len() == 16,
        forall|i: int| 0 <= i < pairs.len() ==> op_fits(#[trigger] pair_ops(pairs)[i]),
        forall|i: int| 0 <= i < ds.len() ==> op_fits((#[trigger] ds[i]).1),
    ensures
        rebuilt(journal_of(source, seq, pairs, ds)) == Some(
            Rebuilt {
                source,
                base: pair_ops(pairs),
                deltas: delta_only(ds),
                last_seqno: delta_last(ds, seq, ds.len() as int),
            },
        ),
{
    let recs = journal_of(source, seq, pairs, ds);
    let n = pairs.len() as int;
    let end = 2 + n;
    lemma_header_roundtrip(source);
    lemma_tagged_seq(TAG_CHECKPOINT, seq);
    lemma_tagged_seq(TAG_BASE_END, seq);
    assert(recs[0] == enc_header(source));
    assert(recs[1] == enc_checkpoint(seq));
    assert(recs[end] == enc_base_end(seq));
    assert(enc_header(source)[0] == TAG_HEADER);
    reveal_with_fuel(search, 3);
    assert(search(recs, 1) == Some(Search { open: None, best: None }));
    let opened = Search { open: Some((1int, seq)), best: None };
    assert(search(recs, 2) == Some(opened));
    assert forall|i: int| 2 <= i < end implies (#[trigger] recs[i]).len() > 0 && recs[i][0]
        != TAG_CHECKPOINT && recs[i][0] != TAG_BASE_END by {
        assert(recs[i] == base_records(pairs)[i - 2]);
        assert(op_fits(pair_ops(pairs)[i - 2]));
        lemma_base_roundtrip(pairs[i - 2].0, pairs[i - 2].1);
    }
    lemma_search_quiet(recs, 2, end);
    let closed_ = Search { open: None, best: Some((seq, 2int, end)) };
    assert(search(recs, end + 1) == Some(closed_));
    assert forall|i: int| end + 1 <= i < recs.len() implies (#[trigger] recs[i]).len() > 0
        && recs[i][0] != TAG_CHECKPOINT && recs[i][0] != TAG_BASE_END by {
        assert(recs[i] == delta_records(ds)[i - end - 1]);
        lemma_delta_roundtrip(ds[i - end - 1]);
    }
    lemma_search_quiet(recs, end + 1, recs.len() as int);
    assert forall|i: int| 0 <= i < pairs.len() implies recs[2 + i] == #[trigger] base_records(
        pairs,
    )[i] by {}
    lemma_base_ops(recs, pairs, 2, n);
    assert(pair_ops(pairs).take(n) =~= pair_ops(pairs));
    assert forall|i: int| 0 <= i < ds.len() implies recs[end + 1 + i] == #[trigger] delta_records(
        ds,
    )[i] by {}
    lemma_delta_ops(recs, ds, end + 1, ds.len() as int, seq);
    assert(delta_only(ds).take(ds.len() as int) =~= delta_only(ds));
}

/// Framed records read back whatever follows them.
pub proof fn lemma_frames_read_back(payload: Seq<u8>, tail: Seq<u8>)
    requires
        0 < payload.len() <= u32::MAX,
    ensures
        records_of(frame(payload) + tail) == seq![payload] + records_of(tail),
        clean_len(frame(payload) + tail) == frame(payload).len() + clean_len(tail),
{
    let s = frame(payload) + tail;
    let n = payload.len() as u32;
    let c = crc32_of(payload);
    lemma_pow256_values();
    lemma_le_roundtrip(n as nat, 4);
    lemma_le_roundtrip(c as nat, 4);
    lemma_le_len(n as nat, 4);
    lemma_le_len(c as nat, 4);
    assert(s.take(4) =~= enc_u32(n));
    assert(s.subrange(4, 8) =~= enc_u32(c));
    assert(s.subrange(8, 8 + payload.len() as int) =~= payload);
    assert(s.skip(8 + payload.len() as int) =~= tail);
}

/// The record begins a base snapshot.
pub open spec fn begins_base(rec: Seq<u8>) -> bool {
    rec.len() > 0 && rec[0] == TAG_CHECKPOINT
}

/// The record ends a base snapshot.
pub open spec fn ends_base(rec: Seq<u8>) -> bool {
    rec.len() > 0 && rec[0] == TAG_BASE_END
}

/// No base snapshot begins, or none ends, at the records from `from` up to `to`.
pub open spec fn none_begins(recs: Seq<Seq<u8>>, from: int, to: int) -> bool {
    forall|i: int| from <= i < to && 0 <= i < recs.len() ==> !begins_base(#[trigger] recs[i])
}

pub open spec fn none_ends(recs: Seq<Seq<u8>>, from: int, to: int) -> bool {
    forall|i: int| from <= i < to && 0 <= i < recs.len() ==> !ends_base(#[trigger] recs[i])
}

/// The snapshot `best` is whole, and of those that are whole among the first `n`
/// records it is the last.
pub open spec fn is_last_whole(recs: Seq<Seq<u8>>, n: int, from: int, to: int) -> bool {
    &&& 0 < from <= to < n
    &&& begins_base(recs[from - 1])
    &&& ends_base(recs[to])
    &&& none_begins(recs, from, to)
    &&& none_ends(recs, from, to)
    &&& forall|j: int|
        to < j < n && ends_base(#[trigger] recs[j]) ==> none_begins(recs, to + 1, j)
}

proof fn lemma_searched(recs: Seq<Seq<u8>>, n: int)
    requires
        0 <= n <= recs.len(),
        search(recs, n) is Some,
    ensures
        ({
            let st = search(recs, n)->Some_0;
            &&& st.open matches Some((c, q)) ==> 0 <= c < n && begins_base(recs[c]) && seq_of(
                recs[c],
            ) == Some(q) && none_begins(recs, c + 1, n) && none_ends(recs, c, n) && (
            st.best matches Some((_, _, to)) ==> to < c)
            &&& st.best matches Some((q, from, to)) ==> is_last_whole(recs, n, from, to) && (
            seq_of(recs[from - 1]) matches Some(a) && (seq_of(recs[to]) matches Some(b) && q
                == higher(a, b)))
            &&& st.open is None ==> match st.best {
                Some((_, _, to)) => none_begins(recs, to + 1, n),
                None => none_begins(recs, 0, n),
            }
            &&& st.best is None ==> forall|j: int|
                0 <= j < n && ends_base(#[trigger] recs[j]) ==> none_begins(recs, 0, j)
        }),
    decreases n,
{
    if n > 0 {
        lemma_searched(recs, n - 1);
        let before = search(recs, n - 1)->Some_0;
        let st = search(recs, n)->Some_0;
        let rec = recs[n - 1];
        if begins_base(rec) {
            assert(!ends_base(rec));
            assert(none_ends(recs, n - 1, n));
        } else if ends_base(rec) {
            if let Some((c, q)) = before.open {
                assert(is_last_whole(recs, n, c + 1, n - 1));
            } else {
                if let Some((_, from, to)) = before.best {
                    assert(is_last_whole(recs, n, from, to));
                }
            }
        }
    }
}

/// A journal is rebuilt from its last whole base snapshot: one that was begun
/// and not ended is passed over, and where none is whole there is nothing to
/// rebuild from.
pub proof fn lemma_last_whole_base_counts(recs: Seq<Seq<u8>>)
    requires
        search(recs, recs.len() as int) is Some,
    ensures
        match last_anchor(recs) {
            Some((q, from, to)) => {
                &&& is_last_whole(recs, recs.len() as int, from, to)
                &&& seq_of(recs[from - 1]) matches Some(a) && (seq_of(recs[to]) matches Some(b)
                    && a <= q && b <= q && (q == a || q == b))
            },
            None => forall|j: int|
                0 <= j < recs.len() && ends_base(#[trigger] recs[j]) ==> none_begins(recs, 0, j),
        },
{
    lemma_searched(recs, recs.len() as int);
}

} // verus!
