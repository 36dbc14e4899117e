//! Write batches: the public mutation unit and its WAL payload encoding.
//!
//! WAL payload: `[base_seqno u64][count u32]` then per entry
//! `[kind u8][klen varint][key][rlen varint][repr]` where `repr` is the
//! already-placed value representation (inline bytes or vlog pointer): the
//! vlog placement happens *before* WAL encoding so recovery replays pointers
//! verbatim.

use vstd::prelude::*;

use crate::coding::{put_len_prefixed, put_u32, put_u64, Reader};
use crate::error::{Error, Result};
use crate::order::to_bytes;
use crate::types::{SeqNo, ValueKind};

verus! {

use crate::coding::{
    enc_len_prefixed, enc_list, enc_u32, enc_u64, lemma_len_prefixed_roundtrip,
    lemma_list_prefix_fails, lemma_list_roundtrip, lemma_u32_roundtrip, lemma_u64_roundtrip,
    p_len_prefixed, p_list, p_u32, p_u64, p_u8, reads_back,
};
use crate::types::kind_of_byte;

/// One operation of a batch.
#[derive(Clone)]
pub enum BatchOp {
    Put { key: Vec<u8>, value: Vec<u8> },
    Delete { key: Vec<u8> },
}

/// One operation of a batch, over plain bytes.
pub enum Op {
    Put { key: Seq<u8>, value: Seq<u8> },
    Delete { key: Seq<u8> },
}

impl Op {
    pub open spec fn key(self) -> Seq<u8> {
        match self {
            Op::Put { key, .. } => key,
            Op::Delete { key } => key,
        }
    }

    /// Key and value bytes.
    pub open spec fn size(self) -> nat {
        match self {
            Op::Put { key, value } => key.len() + value.len(),
            Op::Delete { key } => key.len(),
        }
    }
}

impl View for BatchOp {
    type V = Op;

    open spec fn view(&self) -> Op {
        match self {
            BatchOp::Put { key, value } => Op::Put { key: key@, value: value@ },
            BatchOp::Delete { key } => Op::Delete { key: key@ },
        }
    }
}

impl BatchOp {
    /// The key that the operation writes.
    pub fn key(&self) -> (k: &[u8])
        ensures
            k@ == self@.key(),
    {
        match self {
            BatchOp::Put { key, .. } => key.as_slice(),
            BatchOp::Delete { key } => key.as_slice(),
        }
    }
}

/// The operations of a batch, over plain bytes.
pub open spec fn ops_view(ops: Seq<BatchOp>) -> Seq<Op> {
    ops.map_values(|o: BatchOp| o@)
}

/// Key and value bytes of all operations.
pub open spec fn ops_size(ops: Seq<Op>) -> nat
    decreases ops.len(),
{
    if ops.len() == 0 {
        0
    } else {
        ops_size(ops.drop_last()) + ops.last().size()
    }
}

/// A set of writes applied atomically (all-or-nothing in WAL and memtable,
/// single seqno range).
#[derive(Clone)]
pub struct WriteBatch {
    pub ops: Vec<BatchOp>,
    pub bytes: usize,
}

impl View for WriteBatch {
    type V = Seq<Op>;

    open spec fn view(&self) -> Seq<Op> {
        ops_view(self.ops@)
    }
}

impl WriteBatch {
    /// The running byte count is that of the operations.
    pub open spec fn wf(self) -> bool {
        self.bytes == ops_size(self@)
    }

    pub fn new() -> (b: Self)
        ensures
            b.wf(),
            b@ == Seq::<Op>::empty(),
    {
        let b = WriteBatch { ops: Vec::new(), bytes: 0 };
        assert(b@ =~= Seq::<Op>::empty());
        b
    }

    pub fn put(&mut self, key: Vec<u8>, value: Vec<u8>)
        requires
            old(self).wf(),
            ops_size(old(self)@) + key@.len() + value@.len() <= usize::MAX,
        ensures
            final(self).wf(),
            final(self)@ == old(self)@.push(Op::Put { key: key@, value: value@ }),
    {
        let ghost before = self@;
        let added: usize = key.len() + value.len();
        let total: usize = self.bytes + added;
        self.bytes = total;
        self.ops.push(BatchOp::Put { key, value });
        assert(self@ =~= before.push(Op::Put { key: key@, value: value@ }));
        assert(self@.drop_last() =~= before);
    }

    pub fn delete(&mut self, key: Vec<u8>)
        requires
            old(self).wf(),
            ops_size(old(self)@) + key@.len() <= usize::MAX,
        ensures
            final(self).wf(),
            final(self)@ == old(self)@.push(Op::Delete { key: key@ }),
    {
        let ghost before = self@;
        let total: usize = self.bytes + key.len();
        self.bytes = total;
        self.ops.push(BatchOp::Delete { key });
        assert(self@ =~= before.push(Op::Delete { key: key@ }));
        assert(self@.drop_last() =~= before);
    }

    pub fn len(&self) -> (n: usize)
        ensures
            n == self@.len(),
    {
        self.ops.len()
    }

    pub fn is_empty(&self) -> (b: bool)
        ensures
            b == (self@.len() == 0),
    {
        self.ops.len() == 0
    }

    /// Payload size (keys + values), used for stall accounting and size caps.
    pub fn byte_size(&self) -> (n: usize)
        requires
            self.wf(),
        ensures
            n == ops_size(self@),
    {
        self.bytes
    }
}

impl Default for WriteBatch {
    fn default() -> (b: Self)
        ensures
            b.wf(),
            b@ == Seq::<Op>::empty(),
    {
        WriteBatch::new()
    }
}

/// An entry after value placement: what actually lands in WAL + memtable.
pub struct EncEntry {
    pub kind: ValueKind,
    pub key: Vec<u8>,
    /// Encoded value representation; empty for deletes.
    pub repr: Vec<u8>,
}

/// An entry after value placement, over plain bytes.
pub struct Entry {
    pub kind: ValueKind,
    pub key: Seq<u8>,
    pub repr: Seq<u8>,
}

impl View for EncEntry {
    type V = Entry;

    open spec fn view(&self) -> Entry {
        Entry { kind: self.kind, key: self.key@, repr: self.repr@ }
    }
}

pub open spec fn entries_view(es: Seq<EncEntry>) -> Seq<Entry> {
    es.map_values(|e: EncEntry| e@)
}

pub open spec fn enc_entry(e: Entry) -> Seq<u8> {
    seq![e.kind.byte()] + enc_len_prefixed(e.key) + enc_len_prefixed(e.repr)
}

/// The WAL payload of a batch.
pub open spec fn enc_batch(base: u64, es: Seq<Entry>) -> Seq<u8> {
    enc_u64(base) + enc_u32(es.len() as u32) + enc_list(es, |e: Entry| enc_entry(e))
}

pub open spec fn p_entry(s: Seq<u8>) -> Option<(Entry, Seq<u8>)> {
    match p_u8(s) {
        Some((b, s1)) => match kind_of_byte(b) {
            Some(kind) => match p_len_prefixed(s1) {
                Some((key, s2)) => match p_len_prefixed(s2) {
                    Some((repr, s3)) => Some((Entry { kind, key, repr }, s3)),
                    None => None,
                },
                None => None,
            },
            None => None,
        },
        None => None,
    }
}

/// The batch that a WAL payload holds.
pub open spec fn p_batch(s: Seq<u8>) -> Option<(u64, Seq<Entry>)> {
    match p_u64(s) {
        Some((base, s1)) => match p_u32(s1) {
            Some((count, s2)) => match p_list(s2, count as nat, |t: Seq<u8>| p_entry(t)) {
                Some((es, _)) => Some((base, es)),
                None => None,
            },
            None => None,
        },
        None => None,
    }
}

proof fn lemma_entry_roundtrip(e: Entry, tail: Seq<u8>)
    requires
        e.key.len() <= u64::MAX,
        e.repr.len() <= u64::MAX,
    ensures
        p_entry(enc_entry(e) + tail) == Some((e, tail)),
{
    let s = enc_entry(e) + tail;
    let r2 = enc_len_prefixed(e.repr) + tail;
    assert(s.skip(1) =~= enc_len_prefixed(e.key) + r2);
    lemma_len_prefixed_roundtrip(e.key, r2);
    lemma_len_prefixed_roundtrip(e.repr, tail);
}

/// Recovery reads back exactly the batch that was logged.
pub proof fn lemma_batch_roundtrip(base: u64, es: Seq<Entry>)
    requires
        es.len() <= u32::MAX,
        forall|i: int| 0 <= i < es.len() ==> (#[trigger] es[i]).key.len() <= u64::MAX,
        forall|i: int| 0 <= i < es.len() ==> (#[trigger] es[i]).repr.len() <= u64::MAX,
    ensures
        p_batch(enc_batch(base, es)) == Some((base, es)),
{
    let enc = |e: Entry| enc_entry(e);
    let p = |t: Seq<u8>| p_entry(t);
    let body = enc_list(es, enc);
    let s1 = enc_u32(es.len() as u32) + body;
    assert(enc_batch(base, es) =~= enc_u64(base) + s1);
    lemma_u64_roundtrip(base, s1);
    lemma_u32_roundtrip(es.len() as u32, body);
    assert forall|i: int, tail: Seq<u8>| 0 <= i < es.len() implies p(
        #[trigger] (enc(es[i]) + tail),
    ) == Some((es[i], tail)) by {
        lemma_entry_roundtrip(es[i], tail);
    }
    assert(reads_back(es, enc, p));
    lemma_list_roundtrip(es, enc, p, Seq::empty());
    assert(body + Seq::<u8>::empty() =~= body);
}

/// Encode a batch as a WAL payload.
pub fn encode_batch(base_seqno: SeqNo, entries: &[EncEntry]) -> (out: Vec<u8>)
    ensures
        out@ == enc_batch(base_seqno, entries_view(entries@)),
{
    let mut out: Vec<u8> = Vec::new();
    put_u64(&mut out, base_seqno);
    #[verifier::truncate]
    let count: u32 = entries.len() as u32;
    put_u32(&mut out, count);
    let ghost head = out@;
    let ghost enc = |e: Entry| enc_entry(e);
    let ghost es = entries_view(entries@);
    let mut i: usize = 0;
    assert(out@ =~= head + enc_list(es.take(0), enc));
    while i < entries.len()
        invariant
            i <= entries@.len(),
            es == entries_view(entries@),
            enc == (|e: Entry| enc_entry(e)),
            out@ == head + enc_list(es.take(i as int), enc),
        decreases entries@.len() - i,
    {
        let e = &entries[i];
        out.push(e.kind.to_u8());
        put_len_prefixed(&mut out, e.key.as_slice());
        put_len_prefixed(&mut out, e.repr.as_slice());
        proof {
            let next = es.take(i + 1);
            assert(next.drop_last() =~= es.take(i as int));
            assert(next.last() == e@);
            assert(enc(e@) == enc_entry(e@));
            assert(out@ =~= head + enc_list(next, enc));
        }
        i += 1;
    }
    assert(es.take(i as int) =~= es);
    assert(out@ =~= enc_batch(base_seqno, es));
    out
}

/// Decode a WAL payload; every malformed payload is a corruption error.
pub fn decode_batch(payload: &[u8]) -> (r: Result<(SeqNo, Vec<EncEntry>)>)
    ensures
        match p_batch(payload@) {
            Some((base, es)) => r matches Ok((b, v)) && b == base && entries_view(v@) == es,
            None => r matches Err(Error::Corruption(_)),
        },
{
    let mut r = Reader::new(payload);
    let base: u64 = r.u64()?;
    let count: u32 = r.u32()?;
    let ghost body = r.rest();
    let ghost p = |t: Seq<u8>| p_entry(t);
    let mut entries: Vec<EncEntry> = Vec::new();
    let mut i: u32 = 0;
    assert(entries_view(entries@) =~= Seq::<Entry>::empty());
    while i < count
        invariant
            i <= count,
            p == (|t: Seq<u8>| p_entry(t)),
            p_batch(payload@) == match p_list(body, count as nat, p) {
                Some((es, _)) => Some((base, es)),
                None => None,
            },
            p_list(body, i as nat, p) == Some((entries_view(entries@), r.rest())),
        decreases count - i,
    {
        let ghost here = r.rest();
        let ghost before = entries_view(entries@);
        proof {
            if p(here) is None {
                lemma_list_prefix_fails(body, (i + 1) as nat, count as nat, p);
            }
        }
        let tag: u8 = r.u8()?;
        let kind = ValueKind::from_u8(tag)?;
        let key = to_bytes(r.len_prefixed()?);
        let repr = to_bytes(r.len_prefixed()?);
        entries.push(EncEntry { kind, key, repr });
        assert(entries_view(entries@) =~= before.push(entries@.last()@));
        i += 1;
    }
    Ok((base, entries))
}

proof fn lemma_entries_bounded(s: Seq<u8>, n: nat)
    ensures
        p_list(s, n, |t: Seq<u8>| p_entry(t)) matches Some((es, rest)) ==> es.len() == n
            && rest.len() <= s.len() && forall|i: int|
            0 <= i < es.len() ==> (#[trigger] es[i]).key.len() + es[i].repr.len() <= s.len(),
    decreases n,
{
    if n > 0 {
        lemma_entries_bounded(s, (n - 1) as nat);
        if let Some((xs, rest)) = p_list(s, (n - 1) as nat, |t: Seq<u8>| p_entry(t)) {
            if let Some((b, s1)) = p_u8(rest) {
                crate::coding::lemma_uvarint_consumes(s1);
                if let Some((key, s2)) = p_len_prefixed(s1) {
                    crate::coding::lemma_uvarint_consumes(s2);
                }
            }
        }
    }
}

/// No key or representation is longer than the record it stands in.
pub proof fn lemma_batch_bounded(s: Seq<u8>)
    ensures
        p_batch(s) matches Some((base, es)) ==> es.len() <= u32::MAX && forall|i: int|
            0 <= i < es.len() ==> (#[trigger] es[i]).key.len() + es[i].repr.len() <= s.len(),
{
    if let Some((base, s1)) = p_u64(s) {
        if let Some((count, s2)) = p_u32(s1) {
            lemma_entries_bounded(s2, count as nat);
        }
    }
}

/// A batch's size is the bytes of its keys and values.
pub proof fn lemma_size_adds_up(ops: Seq<Op>, op: Op)
    ensures
        ops_size(Seq::empty()) == 0,
        ops_size(ops.push(op)) == ops_size(ops) + match op {
            Op::Put { key, value } => key.len() + value.len(),
            Op::Delete { key } => key.len(),
        },
{
    assert(ops.push(op).drop_last() =~= ops);
}

} // verus!
