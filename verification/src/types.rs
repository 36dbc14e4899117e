//! Internal key encoding and MVCC value representation.
//!
//! An *internal key* is `user_key ++ trailer` where the 8-byte big-endian
//! trailer packs `(seqno << 8) | kind`. Ordering is `(user_key asc, seqno
//! desc, kind desc)` so that seeking `(k, s)` lands on the newest version of
//! `k` with `seqno <= s`.

use std::cmp::Ordering;

use vstd::prelude::*;

use crate::coding::{be_u64, put_bytes, put_u64_be, put_uvarint, Reader};
use crate::error::{corrupt, invalid, Error, Result};
use crate::order::{bytes_eq, bytes_lt};
use vstd::string::StringSliceAdditionalSpecFns;

verus! {

use crate::coding::{
    be_value, enc_be, enc_uvarint, lemma_be_bound, lemma_be_injective, lemma_be_roundtrip,
    lemma_pow256_values, lemma_uvarint_roundtrip, p_uvarint,
};
use crate::order::{lemma_lex_irreflexive, lemma_lex_total, lemma_lex_transitive, lex_lt};

pub type SeqNo = u64;

/// Seqnos must leave 8 bits for the kind byte in the trailer.
pub const MAX_SEQNO: u64 = 0xff_ffff_ffff_ffff;

pub const TRAILER_LEN: usize = 8;

/// Kind byte used only in seek targets; sorts before every real kind at the
/// same seqno (trailer compares descending), so the lower bound of a seek
/// target is the newest real entry of its key at or below its seqno.
pub const SEEK_KIND: u8 = 0xff;

#[derive(Debug, Clone, Copy, PartialEq, Eq, Structural)]
pub enum ValueKind {
    Delete,
    Put,
}

impl ValueKind {
    /// The byte that stands for the kind in a trailer.
    pub open spec fn byte(self) -> u8 {
        match self {
            ValueKind::Delete => 0,
            ValueKind::Put => 1,
        }
    }

    pub fn to_u8(self) -> (b: u8)
        ensures
            b == self.byte(),
    {
        match self {
            ValueKind::Delete => 0,
            ValueKind::Put => 1,
        }
    }

    pub fn from_u8(b: u8) -> (r: Result<ValueKind>)
        ensures
            match kind_of_byte(b) {
                Some(k) => r == Ok::<ValueKind, Error>(k),
                None => r matches Err(Error::Corruption(_)),
            },
    {
        match b {
            0 => Ok(ValueKind::Delete),
            1 => Ok(ValueKind::Put),
            _ => Err(corrupt("bad value kind")),
        }
    }
}

/// The kind that a trailer byte stands for, if it is one.
pub open spec fn kind_of_byte(b: u8) -> Option<ValueKind> {
    if b == 0 {
        Some(ValueKind::Delete)
    } else if b == 1 {
        Some(ValueKind::Put)
    } else {
        None
    }
}

/// Long enough to carry a trailer.
pub open spec fn is_ikey(k: Seq<u8>) -> bool {
    k.len() >= 8
}

/// The user key of an internal key.
pub open spec fn ukey_of(k: Seq<u8>) -> Seq<u8> {
    k.take(k.len() - 8)
}

/// The trailer of an internal key, as a number.
pub open spec fn trailer_of(k: Seq<u8>) -> nat {
    be_value(k.skip(k.len() - 8))
}

pub open spec fn seqno_of(k: Seq<u8>) -> nat {
    trailer_of(k) / 256
}

pub open spec fn kind_byte_of(k: Seq<u8>) -> u8 {
    (trailer_of(k) % 256) as u8
}

/// The internal key with this user key and this trailer.
pub open spec fn ikey_from(ukey: Seq<u8>, trailer: nat) -> Seq<u8> {
    ukey + enc_be(trailer, 8)
}

/// The internal key of a real entry.
pub open spec fn entry_ikey(ukey: Seq<u8>, seq: u64, kind: ValueKind) -> Seq<u8> {
    ikey_from(ukey, seq as nat * 256 + kind.byte() as nat)
}

/// The seek target for the newest version of a key at or below a seqno.
pub open spec fn seek_ikey(ukey: Seq<u8>, seq: u64) -> Seq<u8> {
    ikey_from(ukey, seq as nat * 256 + 255)
}

/// The order of internal keys: user key ascending, then trailer descending
/// (newest seqno first).
pub open spec fn ikey_before(a: Seq<u8>, b: Seq<u8>) -> bool {
    lex_lt(ukey_of(a), ukey_of(b)) || (ukey_of(a) == ukey_of(b) && trailer_of(a) > trailer_of(b))
}

/// `a` sorts before `b` or is equal to it.
pub open spec fn ikey_upto(a: Seq<u8>, b: Seq<u8>) -> bool {
    ikey_before(a, b) || a == b
}

/// An internal key has the user key and the trailer that it was built from.
pub proof fn lemma_ikey_from(ukey: Seq<u8>, trailer: nat)
    requires
        trailer < 0x1_0000_0000_0000_0000,
    ensures
        is_ikey(ikey_from(ukey, trailer)),
        ikey_from(ukey, trailer).len() == ukey.len() + 8,
        ukey_of(ikey_from(ukey, trailer)) == ukey,
        trailer_of(ikey_from(ukey, trailer)) == trailer,
{
    lemma_pow256_values();
    lemma_be_roundtrip(trailer, 8);
    let k = ikey_from(ukey, trailer);
    assert(k.take(k.len() - 8) =~= ukey);
    assert(k.skip(k.len() - 8) =~= enc_be(trailer, 8));
}

/// An entry's internal key gives back the user key, the seqno and the kind.
pub proof fn lemma_entry_ikey(ukey: Seq<u8>, seq: u64, kind: ValueKind)
    requires
        seq <= MAX_SEQNO,
    ensures
        is_ikey(entry_ikey(ukey, seq, kind)),
        ukey_of(entry_ikey(ukey, seq, kind)) == ukey,
        seqno_of(entry_ikey(ukey, seq, kind)) == seq,
        kind_of_byte(kind_byte_of(entry_ikey(ukey, seq, kind))) == Some(kind),
{
    lemma_ikey_from(ukey, seq as nat * 256 + kind.byte() as nat);
}

pub proof fn lemma_trailer_bound(k: Seq<u8>)
    requires
        is_ikey(k),
    ensures
        trailer_of(k) < 0x1_0000_0000_0000_0000,
{
    lemma_pow256_values();
    lemma_be_bound(k.skip(k.len() - 8));
}

/// Two internal keys with the same user key and trailer are the same bytes.
pub proof fn lemma_ikey_parts(a: Seq<u8>, b: Seq<u8>)
    requires
        is_ikey(a),
        is_ikey(b),
        ukey_of(a) == ukey_of(b),
        trailer_of(a) == trailer_of(b),
    ensures
        a == b,
{
    lemma_be_injective(a.skip(a.len() - 8), b.skip(b.len() - 8));
    assert(a =~= ukey_of(a) + a.skip(a.len() - 8));
    assert(b =~= ukey_of(b) + b.skip(b.len() - 8));
}

/// No internal key sorts before itself.
pub proof fn lemma_ikey_irreflexive(a: Seq<u8>)
    ensures
        !ikey_before(a, a),
{
    lemma_lex_irreflexive(ukey_of(a));
}

/// The internal-key order is transitive.
pub proof fn lemma_ikey_transitive(a: Seq<u8>, b: Seq<u8>, c: Seq<u8>)
    requires
        ikey_before(a, b),
        ikey_before(b, c),
    ensures
        ikey_before(a, c),
{
    if lex_lt(ukey_of(a), ukey_of(b)) && lex_lt(ukey_of(b), ukey_of(c)) {
        lemma_lex_transitive(ukey_of(a), ukey_of(b), ukey_of(c));
    }
}

/// Any two internal keys are the same bytes or one sorts before the other.
pub proof fn lemma_ikey_total(a: Seq<u8>, b: Seq<u8>)
    requires
        is_ikey(a),
        is_ikey(b),
    ensures
        ikey_before(a, b) || a == b || ikey_before(b, a),
{
    lemma_lex_total(ukey_of(a), ukey_of(b));
    if ukey_of(a) == ukey_of(b) && trailer_of(a) == trailer_of(b) {
        lemma_ikey_parts(a, b);
    }
}

/// The internal-key order is asymmetric.
pub proof fn lemma_ikey_asymmetric(a: Seq<u8>, b: Seq<u8>)
    requires
        ikey_before(a, b),
    ensures
        !ikey_before(b, a),
        a != b,
{
    lemma_ikey_irreflexive(a);
    if ikey_before(b, a) {
        lemma_ikey_transitive(a, b, a);
    }
}

/// A seek target for `(ukey, seq)` sorts at or before exactly those entries of
/// `ukey` whose seqno is at most `seq`, and before every entry of a later key.
pub proof fn lemma_seek_lands_on_newest_visible(ukey: Seq<u8>, seq: u64, k: Seq<u8>)
    requires
        seq <= MAX_SEQNO,
        is_ikey(k),
        ukey_of(k) == ukey,
        kind_of_byte(kind_byte_of(k)) is Some,
    ensures
        ikey_before(seek_ikey(ukey, seq), k) <==> seqno_of(k) <= seq,
        ikey_before(k, seek_ikey(ukey, seq)) <==> seqno_of(k) > seq,
{
    lemma_ikey_from(ukey, seq as nat * 256 + 255);
    lemma_lex_irreflexive(ukey);
    lemma_trailer_bound(k);
}

/// Of two entries of one key, the one with the higher seqno sorts first.
pub proof fn lemma_newer_sorts_first(a: Seq<u8>, b: Seq<u8>)
    requires
        ukey_of(a) == ukey_of(b),
        seqno_of(a) > seqno_of(b),
    ensures
        ikey_before(a, b),
{
}

/// Build an internal key for a real entry.
pub fn make_ikey(user_key: &[u8], seq: SeqNo, kind: ValueKind) -> (k: Vec<u8>)
    requires
        seq <= MAX_SEQNO,
    ensures
        k@ == entry_ikey(user_key@, seq, kind),
{
    let mut out: Vec<u8> = Vec::new();
    put_bytes(&mut out, user_key);
    put_u64_be(&mut out, seq * 256 + kind.to_u8() as u64);
    assert(out@ =~= entry_ikey(user_key@, seq, kind));
    out
}

/// Build a seek target: positions at the newest version of `user_key` with
/// `seqno <= seq` (or the next user key if none qualifies).
pub fn make_seek_ikey(user_key: &[u8], seq: SeqNo) -> (k: Vec<u8>)
    requires
        seq <= MAX_SEQNO,
    ensures
        k@ == seek_ikey(user_key@, seq),
{
    let mut out: Vec<u8> = Vec::new();
    put_bytes(&mut out, user_key);
    put_u64_be(&mut out, seq * 256 + SEEK_KIND as u64);
    assert(out@ =~= seek_ikey(user_key@, seq));
    out
}

/// The user key of an internal key.
pub fn ikey_ukey(ikey: &[u8]) -> (u: &[u8])
    requires
        is_ikey(ikey@),
    ensures
        u@ == ukey_of(ikey@),
{
    vstd::slice::slice_subrange(ikey, 0, ikey.len() - TRAILER_LEN)
}

/// The trailer of an internal key.
pub fn ikey_trailer(ikey: &[u8]) -> (t: u64)
    requires
        is_ikey(ikey@),
    ensures
        t == trailer_of(ikey@),
{
    let s = vstd::slice::slice_subrange(ikey, ikey.len() - TRAILER_LEN, ikey.len());
    assert(s@ =~= ikey@.skip(ikey@.len() - 8));
    be_u64(s)
}

/// The seqno of an internal key.
pub fn ikey_seqno(ikey: &[u8]) -> (s: SeqNo)
    requires
        is_ikey(ikey@),
    ensures
        s == seqno_of(ikey@),
        s <= MAX_SEQNO,
{
    ikey_trailer(ikey) / 256
}

/// The kind of an internal key.
pub fn ikey_kind(ikey: &[u8]) -> (r: Result<ValueKind>)
    requires
        is_ikey(ikey@),
    ensures
        match kind_of_byte(kind_byte_of(ikey@)) {
            Some(k) => r == Ok::<ValueKind, Error>(k),
            None => r matches Err(Error::Corruption(_)),
        },
{
    ValueKind::from_u8((ikey_trailer(ikey) % 256) as u8)
}

/// Whether `a` sorts strictly before `b` as internal keys.
pub fn ikey_lt(a: &[u8], b: &[u8]) -> (r: bool)
    requires
        is_ikey(a@),
        is_ikey(b@),
    ensures
        r == ikey_before(a@, b@),
{
    let ua = ikey_ukey(a);
    let ub = ikey_ukey(b);
    if bytes_lt(ua, ub) {
        true
    } else if bytes_eq(ua, ub) {
        ikey_trailer(a) > ikey_trailer(b)
    } else {
        false
    }
}

/// The internal-key comparator: user key ascending, then trailer descending
/// (newest seqno first).
pub fn cmp_ikey(a: &[u8], b: &[u8]) -> (r: Ordering)
    requires
        is_ikey(a@),
        is_ikey(b@),
    ensures
        r == Ordering::Less <==> ikey_before(a@, b@),
        r == Ordering::Equal <==> a@ == b@,
        r == Ordering::Greater <==> ikey_before(b@, a@),
{
    proof {
        lemma_ikey_total(a@, b@);
        lemma_ikey_irreflexive(a@);
        if ikey_before(a@, b@) {
            lemma_ikey_asymmetric(a@, b@);
        }
        if ikey_before(b@, a@) {
            lemma_ikey_asymmetric(b@, a@);
        }
    }
    if ikey_lt(a, b) {
        Ordering::Less
    } else if ikey_lt(b, a) {
        Ordering::Greater
    } else {
        Ordering::Equal
    }
}

/// Owned internal key; what the write buffer is keyed by.
#[derive(Debug, Clone, PartialEq, Eq)]
pub struct InternalKey(pub Vec<u8>);

impl View for InternalKey {
    type V = Seq<u8>;

    open spec fn view(&self) -> Seq<u8> {
        self.0@
    }
}

// ---------------------------------------------------------------------------
// Value representation (inline vs value-log pointer)
// ---------------------------------------------------------------------------

pub const REPR_INLINE: u8 = 0;

pub const REPR_PTR: u8 = 1;

/// Location of a whole record inside a value-log file.
#[derive(Debug, Clone, Copy, PartialEq, Eq, Structural)]
pub struct ValuePtr {
    pub file: u64,
    /// Byte offset of the record header within the file.
    pub offset: u64,
    /// Total record length (header + key + value).
    pub len: u32,
}

/// What an LSM `Put` actually stores.
#[derive(Debug, Clone, Copy, PartialEq, Eq)]
pub enum ReprRef<'a> {
    Inline(&'a [u8]),
    Ptr(ValuePtr),
}

/// The stored representation of a value, over plain bytes.
pub enum Repr {
    Inline(Seq<u8>),
    Ptr(ValuePtr),
}

impl<'a> View for ReprRef<'a> {
    type V = Repr;

    open spec fn view(&self) -> Repr {
        match self {
            ReprRef::Inline(s) => Repr::Inline(s@),
            ReprRef::Ptr(p) => Repr::Ptr(*p),
        }
    }
}

/// The bytes that store a representation.
pub open spec fn enc_repr(r: Repr) -> Seq<u8> {
    match r {
        Repr::Inline(v) => seq![0u8] + v,
        Repr::Ptr(p) => seq![1u8] + enc_uvarint(p.file) + enc_uvarint(p.offset) + enc_uvarint(
            p.len as u64,
        ),
    }
}

/// The representation that bytes store.
pub open spec fn p_repr(s: Seq<u8>) -> Option<Repr> {
    if s.len() == 0 {
        None
    } else if s[0] == 0 {
        Some(Repr::Inline(s.skip(1)))
    } else if s[0] == 1 {
        match p_uvarint(s.skip(1)) {
            Some((file, s1)) => match p_uvarint(s1) {
                Some((offset, s2)) => match p_uvarint(s2) {
                    Some((len, _)) => if len <= u32::MAX {
                        Some(Repr::Ptr(ValuePtr { file, offset, len: len as u32 }))
                    } else {
                        None
                    },
                    None => None,
                },
                None => None,
            },
            None => None,
        }
    } else {
        None
    }
}

/// How long a representation is.
pub proof fn lemma_repr_len(r: Repr)
    ensures
        match r {
            Repr::Inline(v) => enc_repr(r).len() == v.len() + 1,
            Repr::Ptr(_) => enc_repr(r).len() <= 31,
        },
{
    if let Repr::Ptr(p) = r {
        lemma_uvarint_roundtrip(p.file, Seq::empty());
        lemma_uvarint_roundtrip(p.offset, Seq::empty());
        lemma_uvarint_roundtrip(p.len as u64, Seq::empty());
    }
}

/// Decoding gives back what was encoded.
pub proof fn lemma_repr_roundtrip(r: Repr)
    ensures
        p_repr(enc_repr(r)) == Some(r),
{
    let s = enc_repr(r);
    match r {
        Repr::Inline(v) => {
            assert(s.skip(1) =~= v);
        },
        Repr::Ptr(p) => {
            let c = enc_uvarint(p.len as u64);
            let b = enc_uvarint(p.offset) + c;
            assert(s.skip(1) =~= enc_uvarint(p.file) + b);
            lemma_uvarint_roundtrip(p.file, b);
            lemma_uvarint_roundtrip(p.offset, c);
            assert(c =~= c + Seq::<u8>::empty());
            lemma_uvarint_roundtrip(p.len as u64, Seq::empty());
        },
    }
}

/// Store a value inline.
pub fn encode_inline(value: &[u8]) -> (out: Vec<u8>)
    ensures
        out@ == enc_repr(Repr::Inline(value@)),
{
    let mut out: Vec<u8> = Vec::new();
    out.push(REPR_INLINE);
    put_bytes(&mut out, value);
    assert(out@ =~= enc_repr(Repr::Inline(value@)));
    out
}

/// Store a pointer into the value log.
pub fn encode_ptr(ptr: ValuePtr) -> (out: Vec<u8>)
    ensures
        out@ == enc_repr(Repr::Ptr(ptr)),
{
    let mut out: Vec<u8> = Vec::new();
    out.push(REPR_PTR);
    put_uvarint(&mut out, ptr.file);
    put_uvarint(&mut out, ptr.offset);
    put_uvarint(&mut out, ptr.len as u64);
    assert(out@ =~= enc_repr(Repr::Ptr(ptr)));
    out
}

/// Read a stored representation.
pub fn decode_repr(repr: &[u8]) -> (r: Result<ReprRef<'_>>)
    ensures
        match p_repr(repr@) {
            Some(v) => r matches Ok(x) && x@ == v,
            None => r matches Err(Error::Corruption(_)),
        },
{
    let mut r = Reader::new(repr);
    let tag: u8 = r.u8()?;
    match tag {
        0 => {
            let body = vstd::slice::slice_subrange(repr, 1, repr.len());
            assert(body@ =~= repr@.skip(1));
            Ok(ReprRef::Inline(body))
        },
        1 => {
            let file: u64 = r.uvarint()?;
            let offset: u64 = r.uvarint()?;
            let len: u64 = r.uvarint()?;
            if len > u32::MAX as u64 {
                return Err(corrupt("vlog pointer length overflow"));
            }
            Ok(ReprRef::Ptr(ValuePtr { file, offset, len: len as u32 }))
        },
        _ => Err(corrupt("bad value repr tag")),
    }
}

// ---------------------------------------------------------------------------
// Reserved keyspace
// ---------------------------------------------------------------------------

/// Every key beginning with 0x00 belongs to the engine (installed WASM
/// modules live at `\x00wasm\x00<name>`).
pub const SYS_PREFIX: u8 = 0x00;

/// First possible user key; user-facing unbounded iteration starts here.
pub const USER_KEYSPACE_START: [u8; 1] = [0x01];

/// A key that callers may write: not empty, and outside the engine's keyspace.
pub open spec fn is_user_key(key: Seq<u8>) -> bool {
    key.len() > 0 && key[0] != SYS_PREFIX
}

pub fn validate_user_key(key: &[u8]) -> (r: Result<()>)
    ensures
        r is Ok <==> is_user_key(key@),
        r matches Err(e) ==> e is InvalidArgument,
{
    if key.len() == 0 {
        return Err(invalid("empty keys are not allowed"));
    }
    if key[0] == SYS_PREFIX {
        return Err(invalid("keys starting with 0x00 are reserved for the engine"));
    }
    Ok(())
}

/// `\x00wasm\x00`
pub open spec fn wasm_prefix() -> Seq<u8> {
    seq![0u8, 0x77, 0x61, 0x73, 0x6d, 0u8]
}

/// `\x00trg\x00`
pub open spec fn trigger_prefix() -> Seq<u8> {
    seq![0u8, 0x74, 0x72, 0x67, 0u8]
}

/// `\x00trgq\x00<name>\x00`
pub open spec fn queue_prefix_of(name: Seq<u8>) -> Seq<u8> {
    seq![0u8, 0x74, 0x72, 0x67, 0x71, 0u8] + name + seq![0u8]
}

/// Installed module record: `\x00wasm\x00<name>`.
pub fn sys_wasm_key(name: &str) -> (k: Vec<u8>)
    ensures
        k@ == wasm_prefix() + name.spec_bytes(),
{
    let mut k: Vec<u8> = vec![SYS_PREFIX, 0x77, 0x61, 0x73, 0x6d, 0];
    assert(k@ =~= wasm_prefix());
    put_bytes(&mut k, name.as_bytes());
    k
}

/// Registered trigger definition record: `\x00trg\x00<name>`.
pub fn sys_trigger_key(name: &str) -> (k: Vec<u8>)
    ensures
        k@ == trigger_prefix() + name.spec_bytes(),
{
    let mut k: Vec<u8> = vec![SYS_PREFIX, 0x74, 0x72, 0x67, 0];
    assert(k@ =~= trigger_prefix());
    put_bytes(&mut k, name.as_bytes());
    k
}

/// The prefix of a trigger's pending-event records.
pub fn sys_trigger_queue_prefix(name: &str) -> (k: Vec<u8>)
    ensures
        k@ == queue_prefix_of(name.spec_bytes()),
{
    let mut k: Vec<u8> = vec![SYS_PREFIX, 0x74, 0x72, 0x67, 0x71, 0];
    put_bytes(&mut k, name.as_bytes());
    k.push(0);
    assert(k@ =~= queue_prefix_of(name.spec_bytes()));
    k
}

/// Keys-mode pending-event record: `\x00trgq\x00<name>\x00<user key>`. The
/// touched user key IS the queue key, so re-touches coalesce to one pending
/// event. (Trigger names cannot contain 0x00, so the layout is unambiguous.)
pub fn sys_trigger_event_key(name: &str, user_key: &[u8]) -> (k: Vec<u8>)
    ensures
        k@ == queue_prefix_of(name.spec_bytes()) + user_key@,
{
    let mut k = sys_trigger_queue_prefix(name);
    put_bytes(&mut k, user_key);
    k
}

/// Changes-mode pending-event record: `\x00trgq\x00<name>\x00<be64 seqno>`.
/// The queue key is the triggering op's commit seqno, so events are unique
/// per committed op and iterate in commit order.
pub fn sys_trigger_change_key(name: &str, seqno: SeqNo) -> (k: Vec<u8>)
    ensures
        k@ == queue_prefix_of(name.spec_bytes()) + enc_be(seqno as nat, 8),
{
    let mut k = sys_trigger_queue_prefix(name);
    put_u64_be(&mut k, seqno);
    k
}

/// Reserved records stand where no user's key does, and the kinds of them stand
/// apart: modules, triggers, and what waits for a trigger. Every key but the
/// empty one is a user's that does not start with a zero byte.
pub proof fn lemma_reserved_keys_apart(a: Seq<u8>, b: Seq<u8>, name: Seq<u8>)
    ensures
        !is_user_key(wasm_prefix() + a),
        !is_user_key(trigger_prefix() + a),
        !is_user_key(queue_prefix_of(name) + a),
        wasm_prefix() + a != trigger_prefix() + b,
        wasm_prefix() + a != queue_prefix_of(name) + b,
        trigger_prefix() + a != queue_prefix_of(name) + b,
        is_user_key(a) <==> a.len() > 0 && a[0] != 0,
{
    let w = wasm_prefix() + a;
    let t = trigger_prefix() + b;
    let t2 = trigger_prefix() + a;
    let q = queue_prefix_of(name) + b;
    let q2 = queue_prefix_of(name) + a;
    assert(w[0] == 0 && t2[0] == 0 && q2[0] == 0);
    assert(w[1] == 0x77 && t[1] == 0x74 && q[1] == 0x74);
    assert(t2[4] == 0 && q[4] == 0x71);
}

} // verus!
