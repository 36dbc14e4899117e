//! Value log: large values kept apart from the keys.
//!
//! Record: `[crc32 u32][klen varint][vlen varint][key][value]`, the CRC
//! covering everything after itself. Records embed their key so that (a) GC can
//! interrogate the LSM for liveness and (b) **every dereference verifies the
//! key**, which converts cross-file or cross-offset aliasing after crashes into
//! a clean corruption error instead of silently returning another key's value.

use vstd::prelude::*;

use crate::coding::{crc32, put_bytes, put_u32, put_uvarint, Reader};
use crate::error::{corrupt, invalid, Error, Result};
use crate::order::{bytes_eq, to_bytes};
use crate::types::ValuePtr;

verus! {

use crate::coding::{
    crc32_of, enc_u32, enc_uvarint, le_value, lemma_le_bound, lemma_le_len, lemma_le_roundtrip,
    lemma_pow256_values, lemma_u32_roundtrip, lemma_uvarint_consumes, lemma_uvarint_roundtrip,
    p_u32, p_uvarint,
};

/// Records above this size are not cached: huge values would thrash the cache.
pub const CACHE_RECORD_MAX: usize = 65536;

/// What a record's checksum covers.
pub open spec fn record_body(key: Seq<u8>, value: Seq<u8>) -> Seq<u8> {
    enc_uvarint(key.len() as u64) + enc_uvarint(value.len() as u64) + key + value
}

/// The bytes of a record.
pub open spec fn enc_record(key: Seq<u8>, value: Seq<u8>) -> Seq<u8> {
    enc_u32(crc32_of(record_body(key, value))) + record_body(key, value)
}

/// A record's two lengths, with the bytes after them.
pub open spec fn p_lens(s: Seq<u8>) -> Option<(u64, u64, Seq<u8>)> {
    match p_u32(s) {
        Some((_, s1)) => match p_uvarint(s1) {
            Some((klen, s2)) => match p_uvarint(s2) {
                Some((vlen, s3)) => Some((klen, vlen, s3)),
                None => None,
            },
            None => None,
        },
        None => None,
    }
}

/// The key and value of a whole record.
pub open spec fn p_record(s: Seq<u8>) -> Option<(Seq<u8>, Seq<u8>)> {
    if s.len() < 4 || crc32_of(s.skip(4)) != le_value(s.take(4)) {
        None
    } else {
        match p_lens(s) {
            Some((klen, vlen, body)) => if body.len() == klen + vlen {
                Some((body.take(klen as int), body.skip(klen as int)))
            } else {
                None
            },
            None => None,
        }
    }
}

proof fn lemma_lens_roundtrip(key: Seq<u8>, value: Seq<u8>, tail: Seq<u8>)
    requires
        key.len() <= u64::MAX,
        value.len() <= u64::MAX,
    ensures
        p_lens(enc_record(key, value) + tail) == Some(
            (key.len() as u64, value.len() as u64, key + value + tail),
        ),
        enc_record(key, value).len() == 4 + record_body(key, value).len(),
{
    let c = crc32_of(record_body(key, value));
    let kv = key + value + tail;
    let s2 = enc_uvarint(value.len() as u64) + kv;
    let s1 = enc_uvarint(key.len() as u64) + s2;
    assert(enc_record(key, value) + tail =~= enc_u32(c) + s1);
    lemma_u32_roundtrip(c, s1);
    lemma_uvarint_roundtrip(key.len() as u64, s2);
    lemma_uvarint_roundtrip(value.len() as u64, kv);
    lemma_le_len(c as nat, 4);
}

/// A record gives back the key and the value that it was made from.
pub proof fn lemma_record_roundtrip(key: Seq<u8>, value: Seq<u8>)
    requires
        key.len() <= u64::MAX,
        value.len() <= u64::MAX,
    ensures
        p_record(enc_record(key, value)) == Some((key, value)),
{
    let s = enc_record(key, value);
    let c = crc32_of(record_body(key, value));
    lemma_lens_roundtrip(key, value, Seq::empty());
    assert(s + Seq::<u8>::empty() =~= s);
    assert(key + value + Seq::<u8>::empty() =~= key + value);
    assert(s.skip(4) =~= record_body(key, value));
    lemma_pow256_values();
    lemma_le_roundtrip(c as nat, 4);
    assert(s.take(4) =~= enc_u32(c));
    assert((key + value).take(key.len() as int) =~= key);
    assert((key + value).skip(key.len() as int) =~= value);
}

/// Encode one record.
pub fn encode_record(key: &[u8], value: &[u8]) -> (out: Vec<u8>)
    ensures
        out@ == enc_record(key@, value@),
{
    let mut body: Vec<u8> = Vec::new();
    put_uvarint(&mut body, key.len() as u64);
    put_uvarint(&mut body, value.len() as u64);
    put_bytes(&mut body, key);
    put_bytes(&mut body, value);
    assert(body@ =~= record_body(key@, value@));
    let mut out: Vec<u8> = Vec::new();
    put_u32(&mut out, crc32(body.as_slice()));
    put_bytes(&mut out, body.as_slice());
    assert(out@ =~= enc_record(key@, value@));
    out
}

/// Parse a full record buffer; verifies the checksum. Gives (key, value).
pub fn parse_record(bytes: &[u8]) -> (r: Result<(Vec<u8>, Vec<u8>)>)
    ensures
        match p_record(bytes@) {
            Some((k, v)) => r matches Ok((key, value)) && key@ == k && value@ == v,
            None => r matches Err(Error::Corruption(_)),
        },
{
    let mut r = Reader::new(bytes);
    let crc: u32 = r.u32()?;
    let covered = vstd::slice::slice_subrange(bytes, 4, bytes.len());
    proof {
        assert(covered@ =~= bytes@.skip(4));
        lemma_le_bound(bytes@.take(4));
        lemma_pow256_values();
    }
    if crc32(covered) != crc {
        return Err(corrupt("vlog record crc mismatch"));
    }
    let klen: u64 = r.uvarint()?;
    let vlen: u64 = r.uvarint()?;
    let ghost body = r.rest();
    if klen > r.remaining() as u64 {
        return Err(corrupt("short read while decoding"));
    }
    let key = to_bytes(r.bytes(klen as usize)?);
    if vlen > r.remaining() as u64 {
        return Err(corrupt("short read while decoding"));
    }
    let value = to_bytes(r.bytes(vlen as usize)?);
    if !r.is_empty() {
        return Err(corrupt("vlog record trailing bytes"));
    }
    assert(value@ =~= body.skip(klen as int));
    Ok((key, value))
}

/// Extract the value for `expect_key`, failing on key mismatch (dangling or
/// aliased pointer: another key's bytes never surface).
pub fn record_value_for(bytes: &[u8], expect_key: &[u8]) -> (r: Result<Vec<u8>>)
    ensures
        match p_record(bytes@) {
            Some((k, v)) => if k == expect_key@ {
                r matches Ok(value) && value@ == v
            } else {
                r matches Err(Error::Corruption(_))
            },
            None => r matches Err(Error::Corruption(_)),
        },
{
    let (key, value) = parse_record(bytes)?;
    if !bytes_eq(key.as_slice(), expect_key) {
        return Err(corrupt("vlog record key mismatch (dangling pointer)"));
    }
    Ok(value)
}

/// What to do with a record just read: the value, and whether the record's
/// bytes go into the block cache (never those of a failed read).
pub fn finish_read(bytes: &[u8], expect_key: &[u8]) -> (r: Result<(Vec<u8>, bool)>)
    ensures
        match p_record(bytes@) {
            Some((k, v)) => if k == expect_key@ {
                r matches Ok((value, cache)) && value@ == v && cache == (bytes@.len()
                    <= CACHE_RECORD_MAX)
            } else {
                r matches Err(Error::Corruption(_))
            },
            None => r matches Err(Error::Corruption(_)),
        },
{
    let value = record_value_for(bytes, expect_key)?;
    Ok((value, bytes.len() <= CACHE_RECORD_MAX))
}

/// One scanned record.
pub struct ScannedRecord {
    pub offset: u64,
    pub len: u32,
    pub key: Vec<u8>,
    pub vlen: u32,
}

/// One scanned record, over plain values.
pub struct Scanned {
    pub offset: nat,
    pub len: nat,
    pub key: Seq<u8>,
    pub vlen: nat,
}

impl View for ScannedRecord {
    type V = Scanned;

    open spec fn view(&self) -> Scanned {
        Scanned {
            offset: self.offset as nat,
            len: self.len as nat,
            key: self.key@,
            vlen: self.vlen as nat,
        }
    }
}

pub open spec fn scanned_view(v: Seq<ScannedRecord>) -> Seq<Scanned> {
    v.map_values(|r: ScannedRecord| r@)
}

/// The record at the head of `s`, if a whole valid one of a length that a
/// pointer can hold stands there: its key, its value length and its length.
pub open spec fn scan_head(s: Seq<u8>) -> Option<(Seq<u8>, nat, nat)> {
    match p_lens(s) {
        Some((klen, vlen, body)) => {
            let header = s.len() - body.len();
            let total = header + klen + vlen;
            if total <= s.len() && total <= u32::MAX && crc32_of(s.subrange(4, total)) == le_value(
                s.take(4),
            ) {
                Some((body.take(klen as int), vlen as nat, total as nat))
            } else {
                None
            }
        },
        None => None,
    }
}

pub proof fn lemma_lens_consume(s: Seq<u8>)
    ensures
        p_lens(s) matches Some((_, _, body)) ==> body.len() + 6 <= s.len(),
{
    if s.len() >= 4 {
        lemma_uvarint_consumes(s.skip(4));
        if let Some((_, s2)) = p_uvarint(s.skip(4)) {
            lemma_uvarint_consumes(s2);
        }
    }
}

/// Every valid record from the head of `s` on, `at` being where `s` begins in
/// its file.
pub open spec fn scan_from(s: Seq<u8>, at: nat) -> Seq<Scanned>
    decreases s.len(),
{
    match scan_head(s) {
        Some((key, vlen, total)) => if 0 < total <= s.len() {
            seq![Scanned { offset: at, len: total, key, vlen }] + scan_from(
                s.skip(total as int),
                at + total,
            )
        } else {
            Seq::empty()
        },
        None => Seq::empty(),
    }
}

/// How many bytes the valid records at the head of `s` take.
pub open spec fn scan_len(s: Seq<u8>) -> nat
    decreases s.len(),
{
    match scan_head(s) {
        Some((key, vlen, total)) => if 0 < total <= s.len() {
            total + scan_len(s.skip(total as int))
        } else {
            0
        },
        None => 0,
    }
}

/// Scanning finds a record where one was appended, whatever follows it.
pub proof fn lemma_scan_finds_record(key: Seq<u8>, value: Seq<u8>, tail: Seq<u8>, at: nat)
    requires
        enc_record(key, value).len() <= u32::MAX,
    ensures
        scan_from(enc_record(key, value) + tail, at) == seq![
            Scanned {
                offset: at,
                len: enc_record(key, value).len(),
                key,
                vlen: value.len(),
            },
        ] + scan_from(tail, at + enc_record(key, value).len()),
{
    let rec = enc_record(key, value);
    let s = rec + tail;
    let c = crc32_of(record_body(key, value));
    lemma_le_len(c as nat, 4);
    lemma_lens_roundtrip(key, value, tail);
    lemma_lens_consume(s);
    let n = rec.len() as int;
    assert(s.subrange(4, n) =~= record_body(key, value));
    lemma_pow256_values();
    lemma_le_roundtrip(c as nat, 4);
    assert(s.take(4) =~= enc_u32(c));
    assert((key + value + tail).take(key.len() as int) =~= key);
    assert(s.skip(n) =~= tail);
}

/// The record at the head of `s`, if a whole valid one stands there.
fn read_scan_head(s: &[u8]) -> (r: Option<(Vec<u8>, u32, u32)>)
    ensures
        match scan_head(s@) {
            Some((key, vlen, total)) => r matches Some((k, v, t)) && k@ == key && v == vlen && t
                == total && 0 < t <= s@.len(),
            None => r is None,
        },
{
    let mut r = Reader::new(s);
    proof {
        lemma_lens_consume(s@);
        if s@.len() >= 4 {
            lemma_le_bound(s@.take(4));
            lemma_pow256_values();
        }
    }
    let crc: u32 = match r.u32() {
        Ok(c) => c,
        Err(_) => return None,
    };
    let klen: u64 = match r.uvarint() {
        Ok(n) => n,
        Err(_) => return None,
    };
    let vlen: u64 = match r.uvarint() {
        Ok(n) => n,
        Err(_) => return None,
    };
    let ghost body = r.rest();
    let left: usize = r.remaining();
    let header: usize = s.len() - left;
    // corruption-controlled varints: checked math so that a wrapped sum stops
    // the scan cleanly
    if klen > left as u64 || vlen > left as u64 - klen {
        return None;
    }
    let total: usize = header + klen as usize + vlen as usize;
    if total > u32::MAX as usize {
        return None;
    }
    let covered = vstd::slice::slice_subrange(s, 4, total);
    if crc32(covered) != crc {
        return None;
    }
    let key = match r.bytes(klen as usize) {
        Ok(k) => to_bytes(k),
        Err(_) => return None,
    };
    Some((key, vlen as u32, total as u32))
}

/// Scan a vlog file's bytes from the start, giving every valid record and the
/// length of the valid prefix; stops cleanly at the first invalid record. Used
/// by GC (liveness scan) and recovery (valid prefix of young files).
pub fn scan_records(buf: &[u8]) -> (r: (Vec<ScannedRecord>, u64))
    ensures
        scanned_view(r.0@) == scan_from(buf@, 0),
        r.1 == scan_len(buf@),
{
    let mut out: Vec<ScannedRecord> = Vec::new();
    let mut pos: usize = 0;
    let mut done: bool = false;
    assert(buf@.skip(0) =~= buf@);
    assert(scanned_view(out@) + scan_from(buf@, 0) =~= scan_from(buf@, 0));
    while pos < buf.len() && !done
        invariant
            pos <= buf@.len(),
            scanned_view(out@) + scan_from(buf@.skip(pos as int), pos as nat) == scan_from(
                buf@,
                0,
            ),
            pos + scan_len(buf@.skip(pos as int)) == scan_len(buf@),
            done ==> scan_head(buf@.skip(pos as int)) is None,
        decreases buf@.len() - pos, (if done {
            0int
        } else {
            1int
        }),
    {
        let rest = vstd::slice::slice_subrange(buf, pos, buf.len());
        assert(rest@ =~= buf@.skip(pos as int));
        match read_scan_head(rest) {
            None => {
                done = true;
            },
            Some((key, vlen, total)) => {
                let ghost before = scanned_view(out@);
                let ghost item = Scanned {
                    offset: pos as nat,
                    len: total as nat,
                    key: key@,
                    vlen: vlen as nat,
                };
                out.push(ScannedRecord { offset: pos as u64, len: total, key, vlen });
                proof {
                    let next = (pos + total) as int;
                    assert(scanned_view(out@) =~= before.push(item));
                    assert(buf@.skip(pos as int).skip(total as int) =~= buf@.skip(next));
                    assert(before.push(item) + scan_from(buf@.skip(next), next as nat) =~= before
                        + scan_from(buf@.skip(pos as int), pos as nat));
                }
                pos = pos + total as usize;
            },
        }
    }
    proof {
        let rest = buf@.skip(pos as int);
        if pos == buf@.len() {
            assert(rest.len() == 0);
        }
        assert(scan_from(rest, pos as nat) =~= Seq::empty());
        assert(scanned_view(out@) =~= scan_from(buf@, 0));
    }
    (out, pos as u64)
}

/// One value-log file as the engine tracks it.
pub struct VlogFileHandle {
    pub id: u64,
    pub path: String,
    pub obsolete: bool,
}

impl VlogFileHandle {
    pub fn new(id: u64, path: String) -> (h: Self)
        ensures
            h.id == id,
            h.path@ == path@,
            !h.obsolete,
    {
        VlogFileHandle { id, path, obsolete: false }
    }

    /// The file is deleted when the last user lets go of it.
    pub fn mark_obsolete(&mut self)
        ensures
            final(self).obsolete,
            final(self).id == old(self).id,
            final(self).path == old(self).path,
    {
        self.obsolete = true;
    }

    /// Whether dropping the last handle deletes the file.
    pub fn delete_on_drop(&self) -> (b: bool)
        ensures
            b == self.obsolete,
    {
        self.obsolete
    }
}

/// Append side of the value log: which file is the head, how much of it has
/// been written and how much of that is durable.
pub struct Vlog {
    pub head: u64,
    pub written: u64,
    pub synced: u64,
}

impl Vlog {
    /// Nothing is durable that was not written.
    pub open spec fn wf(self) -> bool {
        self.synced <= self.written
    }

    pub fn new(head: u64, written: u64) -> (v: Self)
        ensures
            v.wf(),
            v.head == head,
            v.written == written,
            v.synced == written,
    {
        Vlog { head, written, synced: written }
    }

    /// The bytes to append for a value; a record that no pointer could
    /// describe is refused.
    pub fn prepare(key: &[u8], value: &[u8]) -> (r: Result<Vec<u8>>)
        ensures
            match r {
                Ok(rec) => rec@ == enc_record(key@, value@) && rec@.len() <= u32::MAX,
                Err(e) => e is InvalidArgument && enc_record(key@, value@).len() > u32::MAX,
            },
    {
        let rec = encode_record(key, value);
        if rec.len() as u64 > u32::MAX as u64 {
            return Err(invalid("vlog record exceeds 4 GiB pointer limit"));
        }
        Ok(rec)
    }

    /// A record of `rec_len` bytes landed at `off` of the head file.
    pub fn append(&mut self, off: u64, rec_len: u32) -> (p: ValuePtr)
        requires
            old(self).wf(),
            old(self).written <= off,
            off + rec_len <= u64::MAX,
        ensures
            final(self).wf(),
            final(self).head == old(self).head,
            final(self).synced == old(self).synced,
            final(self).written == off + rec_len,
            p == (ValuePtr { file: old(self).head, offset: off, len: rec_len }),
    {
        self.written = off + rec_len as u64;
        ValuePtr { file: self.head, offset: off, len: rec_len }
    }

    /// Whether the head has appends that are not durable yet.
    pub fn needs_sync(&self) -> (b: bool)
        ensures
            b == (self.synced < self.written),
    {
        self.synced < self.written
    }

    /// The head file was synced. Gives the durable length.
    pub fn sync_head(&mut self) -> (n: u64)
        requires
            old(self).wf(),
        ensures
            final(self).wf(),
            n == old(self).written,
            final(self).synced == n,
            final(self).written == old(self).written,
            final(self).head == old(self).head,
    {
        self.synced = self.written;
        self.synced
    }

    /// (head file, written length, durable length)
    pub fn head_state(&self) -> (s: (u64, u64, u64))
        ensures
            s == (self.head, self.written, self.synced),
    {
        (self.head, self.written, self.synced)
    }

    /// Seal the current head, which must be durable, and start a fresh one.
    /// Gives the sealed file's id.
    pub fn rotate(&mut self, new_id: u64) -> (sealed: u64)
        requires
            old(self).synced == old(self).written,
        ensures
            final(self).wf(),
            sealed == old(self).head,
            final(self).head == new_id,
            final(self).written == 0,
            final(self).synced == 0,
    {
        let sealed: u64 = self.head;
        self.head = new_id;
        self.written = 0;
        self.synced = 0;
        sealed
    }
}

} // verus!
