//! Durable metadata: a full-snapshot manifest per change, flipped via
//! CURRENT.
//!
//! `MANIFEST-<gen>`: `[magic u64][format u32][payload][crc32 u32]`.
//!
//! Format 2 appends the optional store identity + pending-fork sections;
//! a manifest carrying neither is written as format 1, so unnamed stores
//! stay readable by binaries that do not know them. Format 3 appends the pin
//! list; a manifest with no pins is written as format 2 (or 1) for the same
//! reason.

use vstd::prelude::*;
use vstd::string::StringSliceAdditionalSpecFns;

use crate::coding::{
    crc32, le_u64, put_bytes, put_len_prefixed, put_u32, put_u64, put_uvarint, Reader,
};
use crate::error::{corrupt, Error, Result};
use crate::identity::{id_from, InstanceId, PendingFork, StoreIdentity};
use crate::order::to_bytes;
use crate::types::SeqNo;

verus! {

use crate::coding::{
    crc32_of, enc_len_prefixed, enc_list, enc_u32, enc_u64, enc_uvarint, le_value,
    lemma_bytes_roundtrip, lemma_le_bound, lemma_le_roundtrip, lemma_len_prefixed_roundtrip,
    lemma_list_prefix_fails, lemma_list_roundtrip, lemma_pow256_values, lemma_u32_roundtrip,
    lemma_u64_roundtrip, lemma_uvarint_roundtrip, p_bytes, p_len_prefixed, p_list, p_u32, p_u64,
    p_u8, p_uvarint, reads_back,
};
use vstd::utf8::{encode_utf8, valid_utf8};

pub const MANIFEST_MAGIC: u64 = 0xf115e7313aa10001;

/// Base format: structure only.
pub const MANIFEST_FORMAT: u32 = 1;

/// Adds the identity + pending-fork sections after the discard list.
pub const MANIFEST_FORMAT_IDENTITY: u32 = 2;

/// Adds the pin list after the identity sections.
pub const MANIFEST_FORMAT_PINS: u32 = 3;

/// A durable named pin: a GC hold at `seqno`, persisted in the manifest and
/// re-registered on every open, so the state at that seqno stays
/// materializable (fork-able) until the pin is deleted.
#[derive(Debug, Clone, PartialEq, Eq)]
pub struct PinInfo {
    pub name: String,
    /// The sequence number the pin holds.
    pub seqno: SeqNo,
    pub created_unix_ms: u64,
}

#[derive(Debug, Clone, PartialEq, Eq)]
pub struct RunMeta {
    pub id: u64,
    pub table_ids: Vec<u64>,
}

/// Everything the engine must know to reopen the directory. Table metadata
/// lives in the (self-describing) table files; the manifest only carries
/// structure.
#[derive(Debug, Clone, PartialEq, Eq)]
pub struct ManifestData {
    pub next_file_id: u64,
    /// Highest seqno guaranteed present in the tables (flush watermark).
    pub last_flushed_seqno: u64,
    /// WAL files with id >= wal_floor are live and must be replayed in id
    /// order at recovery; ids below are flushed and deletable.
    pub wal_floor: u64,
    /// Levels, runs newest-first, fragments key-ordered.
    pub levels: Vec<Vec<RunMeta>>,
    /// Live vlog files (sealed + head).
    pub vlog_live: Vec<u64>,
    pub vlog_head: u64,
    /// GC victims awaiting physical deletion: (file_id, retired_at_seqno).
    pub vlog_retired: Vec<(u64, u64)>,
    /// Discard stats: (vlog_file_id, dead_bytes).
    pub discard: Vec<(u64, u64)>,
    /// Store identity (name, instance id, lineage); `None` for an unnamed
    /// store. Immutable once set except through a pending fork.
    pub identity: Option<StoreIdentity>,
    /// A fork recorded by fork creation or restore, consumed (minted into
    /// `identity`) by the first read-write open.
    pub pending_fork: Option<PendingFork>,
    /// Durable named pins, re-registered as snapshots on open.
    pub pins: Vec<PinInfo>,
}

// ---------------------------------------------------------------------------
// The same, over plain values
// ---------------------------------------------------------------------------

pub struct RunM {
    pub id: u64,
    pub table_ids: Seq<u64>,
}

pub struct PinM {
    pub name: Seq<u8>,
    pub seqno: u64,
    pub created_unix_ms: u64,
}

pub struct IdentityM {
    pub name: Seq<u8>,
    pub instance_id: Seq<u8>,
    pub parent: Option<(Seq<u8>, u64)>,
}

pub struct ForkM {
    pub parent: Seq<u8>,
    pub cut: u64,
    pub name: Seq<u8>,
}

pub struct Manifest {
    pub next_file_id: u64,
    pub last_flushed_seqno: u64,
    pub wal_floor: u64,
    pub levels: Seq<Seq<RunM>>,
    pub vlog_live: Seq<u64>,
    pub vlog_head: u64,
    pub vlog_retired: Seq<(u64, u64)>,
    pub discard: Seq<(u64, u64)>,
    pub identity: Option<IdentityM>,
    pub pending_fork: Option<ForkM>,
    pub pins: Seq<PinM>,
}

impl View for RunMeta {
    type V = RunM;

    open spec fn view(&self) -> RunM {
        RunM { id: self.id, table_ids: self.table_ids@ }
    }
}

impl View for PinInfo {
    type V = PinM;

    open spec fn view(&self) -> PinM {
        PinM {
            name: encode_utf8(self.name@),
            seqno: self.seqno,
            created_unix_ms: self.created_unix_ms,
        }
    }
}

pub open spec fn identity_view(s: StoreIdentity) -> IdentityM {
    IdentityM {
        name: encode_utf8(s.name@),
        instance_id: s.instance_id@,
        parent: match s.parent {
            Some((id, cut)) => Some((id@, cut)),
            None => None,
        },
    }
}

pub open spec fn fork_view(f: PendingFork) -> ForkM {
    ForkM { parent: f.parent_instance_id@, cut: f.cut_seqno, name: encode_utf8(f.name@) }
}

pub open spec fn level_view(rs: Seq<RunMeta>) -> Seq<RunM> {
    rs.map_values(|r: RunMeta| r@)
}

pub open spec fn levels_view(ls: Seq<Vec<RunMeta>>) -> Seq<Seq<RunM>> {
    ls.map_values(|l: Vec<RunMeta>| level_view(l@))
}

pub open spec fn pins_view(ps: Seq<PinInfo>) -> Seq<PinM> {
    ps.map_values(|p: PinInfo| p@)
}

impl View for ManifestData {
    type V = Manifest;

    open spec fn view(&self) -> Manifest {
        Manifest {
            next_file_id: self.next_file_id,
            last_flushed_seqno: self.last_flushed_seqno,
            wal_floor: self.wal_floor,
            levels: levels_view(self.levels@),
            vlog_live: self.vlog_live@,
            vlog_head: self.vlog_head,
            vlog_retired: self.vlog_retired@,
            discard: self.discard@,
            identity: match self.identity {
                Some(s) => Some(identity_view(s)),
                None => None,
            },
            pending_fork: match self.pending_fork {
                Some(f) => Some(fork_view(f)),
                None => None,
            },
            pins: pins_view(self.pins@),
        }
    }
}

// ---------------------------------------------------------------------------
// Encoding
// ---------------------------------------------------------------------------

/// A list behind its length.
pub open spec fn enc_vec<T>(xs: Seq<T>, enc: spec_fn(T) -> Seq<u8>) -> Seq<u8> {
    enc_uvarint(xs.len() as u64) + enc_list(xs, enc)
}

pub open spec fn p_vec<T>(s: Seq<u8>, p: spec_fn(Seq<u8>) -> Option<(T, Seq<u8>)>) -> Option<
    (Seq<T>, Seq<u8>),
> {
    match p_uvarint(s) {
        Some((n, s1)) => p_list(s1, n as nat, p),
        None => None,
    }
}

pub proof fn lemma_vec_roundtrip<T>(
    xs: Seq<T>,
    enc: spec_fn(T) -> Seq<u8>,
    p: spec_fn(Seq<u8>) -> Option<(T, Seq<u8>)>,
    tail: Seq<u8>,
)
    requires
        xs.len() <= u64::MAX,
        reads_back(xs, enc, p),
    ensures
        p_vec(enc_vec(xs, enc) + tail, p) == Some((xs, tail)),
{
    let s1 = enc_list(xs, enc) + tail;
    assert(enc_vec(xs, enc) + tail =~= enc_uvarint(xs.len() as u64) + s1);
    lemma_uvarint_roundtrip(xs.len() as u64, s1);
    lemma_list_roundtrip(xs, enc, p, tail);
}

pub open spec fn enc_ids(xs: Seq<u64>) -> Seq<u8> {
    enc_vec(xs, |x: u64| enc_u64(x))
}

pub open spec fn p_ids(s: Seq<u8>) -> Option<(Seq<u64>, Seq<u8>)> {
    p_vec(s, |t: Seq<u8>| p_u64(t))
}

pub open spec fn enc_pair(x: (u64, u64)) -> Seq<u8> {
    enc_u64(x.0) + enc_u64(x.1)
}

pub open spec fn p_pair(s: Seq<u8>) -> Option<((u64, u64), Seq<u8>)> {
    match p_u64(s) {
        Some((a, s1)) => match p_u64(s1) {
            Some((b, s2)) => Some(((a, b), s2)),
            None => None,
        },
        None => None,
    }
}

pub open spec fn enc_pairs(xs: Seq<(u64, u64)>) -> Seq<u8> {
    enc_vec(xs, |x: (u64, u64)| enc_pair(x))
}

pub open spec fn p_pairs(s: Seq<u8>) -> Option<(Seq<(u64, u64)>, Seq<u8>)> {
    p_vec(s, |t: Seq<u8>| p_pair(t))
}

pub open spec fn enc_run(r: RunM) -> Seq<u8> {
    enc_u64(r.id) + enc_ids(r.table_ids)
}

pub open spec fn p_run(s: Seq<u8>) -> Option<(RunM, Seq<u8>)> {
    match p_u64(s) {
        Some((id, s1)) => match p_ids(s1) {
            Some((table_ids, s2)) => Some((RunM { id, table_ids }, s2)),
            None => None,
        },
        None => None,
    }
}

pub open spec fn enc_level(rs: Seq<RunM>) -> Seq<u8> {
    enc_vec(rs, |r: RunM| enc_run(r))
}

pub open spec fn p_level(s: Seq<u8>) -> Option<(Seq<RunM>, Seq<u8>)> {
    p_vec(s, |t: Seq<u8>| p_run(t))
}

pub open spec fn enc_levels(ls: Seq<Seq<RunM>>) -> Seq<u8> {
    enc_vec(ls, |l: Seq<RunM>| enc_level(l))
}

pub open spec fn p_levels(s: Seq<u8>) -> Option<(Seq<Seq<RunM>>, Seq<u8>)> {
    p_vec(s, |t: Seq<u8>| p_level(t))
}

pub open spec fn enc_identity(i: Option<IdentityM>) -> Seq<u8> {
    match i {
        Some(id) => seq![1u8] + enc_len_prefixed(id.name) + id.instance_id + (match id.parent {
            Some((pid, cut)) => seq![1u8] + pid + enc_u64(cut),
            None => seq![0u8],
        }),
        None => seq![0u8],
    }
}

pub open spec fn p_parent(s: Seq<u8>) -> Option<(Option<(Seq<u8>, u64)>, Seq<u8>)> {
    match p_u8(s) {
        Some((tag, s1)) => if tag == 0 {
            Some((None, s1))
        } else {
            match p_bytes(s1, 16) {
                Some((pid, s2)) => match p_u64(s2) {
                    Some((cut, s3)) => Some((Some((pid, cut)), s3)),
                    None => None,
                },
                None => None,
            }
        },
        None => None,
    }
}

/// A length-prefixed name that is UTF-8.
pub open spec fn p_name(s: Seq<u8>) -> Option<(Seq<u8>, Seq<u8>)> {
    match p_len_prefixed(s) {
        Some((name, s1)) => if valid_utf8(name) {
            Some((name, s1))
        } else {
            None
        },
        None => None,
    }
}

pub open spec fn p_identity(s: Seq<u8>) -> Option<(Option<IdentityM>, Seq<u8>)> {
    match p_u8(s) {
        Some((tag, s1)) => if tag != 1 {
            Some((None, s1))
        } else {
            match p_name(s1) {
                Some((name, s2)) => match p_bytes(s2, 16) {
                    Some((instance_id, s3)) => match p_parent(s3) {
                        Some((parent, s4)) => Some(
                            (Some(IdentityM { name, instance_id, parent }), s4),
                        ),
                        None => None,
                    },
                    None => None,
                },
                None => None,
            }
        },
        None => None,
    }
}

pub open spec fn enc_fork(f: Option<ForkM>) -> Seq<u8> {
    match f {
        Some(x) => seq![1u8] + enc_len_prefixed(x.name) + x.parent + enc_u64(x.cut),
        None => seq![0u8],
    }
}

pub open spec fn p_fork(s: Seq<u8>) -> Option<(Option<ForkM>, Seq<u8>)> {
    match p_u8(s) {
        Some((tag, s1)) => if tag != 1 {
            Some((None, s1))
        } else {
            match p_name(s1) {
                Some((name, s2)) => match p_bytes(s2, 16) {
                    Some((parent, s3)) => match p_u64(s3) {
                        Some((cut, s4)) => Some((Some(ForkM { parent, cut, name }), s4)),
                        None => None,
                    },
                    None => None,
                },
                None => None,
            }
        },
        None => None,
    }
}

pub open spec fn enc_pin(p: PinM) -> Seq<u8> {
    enc_len_prefixed(p.name) + enc_u64(p.seqno) + enc_u64(p.created_unix_ms)
}

pub open spec fn p_pin(s: Seq<u8>) -> Option<(PinM, Seq<u8>)> {
    match p_name(s) {
        Some((name, s1)) => match p_u64(s1) {
            Some((seqno, s2)) => match p_u64(s2) {
                Some((created_unix_ms, s3)) => Some((PinM { name, seqno, created_unix_ms }, s3)),
                None => None,
            },
            None => None,
        },
        None => None,
    }
}

pub open spec fn enc_pins(ps: Seq<PinM>) -> Seq<u8> {
    enc_vec(ps, |p: PinM| enc_pin(p))
}

pub open spec fn p_pins(s: Seq<u8>) -> Option<(Seq<PinM>, Seq<u8>)> {
    p_vec(s, |t: Seq<u8>| p_pin(t))
}

/// The lowest format that carries a manifest's data.
pub open spec fn format_of(m: Manifest) -> u32 {
    if m.pins.len() > 0 {
        MANIFEST_FORMAT_PINS
    } else if m.identity is Some || m.pending_fork is Some {
        MANIFEST_FORMAT_IDENTITY
    } else {
        MANIFEST_FORMAT
    }
}

/// The sections that every format has.
pub open spec fn enc_structure(m: Manifest) -> Seq<u8> {
    enc_u64(m.next_file_id) + enc_u64(m.last_flushed_seqno) + enc_u64(m.wal_floor) + enc_levels(
        m.levels,
    ) + enc_ids(m.vlog_live) + enc_u64(m.vlog_head) + enc_pairs(m.vlog_retired) + enc_pairs(
        m.discard,
    )
}

/// The sections that only later formats have.
pub open spec fn enc_sections(m: Manifest) -> Seq<u8> {
    (if format_of(m) >= MANIFEST_FORMAT_IDENTITY {
        enc_identity(m.identity) + enc_fork(m.pending_fork)
    } else {
        Seq::empty()
    }) + (if format_of(m) >= MANIFEST_FORMAT_PINS {
        enc_pins(m.pins)
    } else {
        Seq::empty()
    })
}

/// A manifest file without its checksum.
pub open spec fn enc_body(m: Manifest) -> Seq<u8> {
    enc_u64(MANIFEST_MAGIC) + enc_u32(format_of(m)) + enc_structure(m) + enc_sections(m)
}

/// A manifest file.
pub open spec fn enc_manifest(m: Manifest) -> Seq<u8> {
    enc_body(m) + enc_u32(crc32_of(enc_body(m)))
}

/// The structure sections, the rest of them left empty.
pub open spec fn p_structure(s: Seq<u8>) -> Option<(Manifest, Seq<u8>)> {
    match p_u64(s) {
        Some((next_file_id, s1)) => match p_u64(s1) {
            Some((last_flushed_seqno, s2)) => match p_u64(s2) {
                Some((wal_floor, s3)) => match p_levels(s3) {
                    Some((levels, s4)) => match p_ids(s4) {
                        Some((vlog_live, s5)) => match p_u64(s5) {
                            Some((vlog_head, s6)) => match p_pairs(s6) {
                                Some((vlog_retired, s7)) => match p_pairs(s7) {
                                    Some((discard, s8)) => Some(
                                        (
                                            Manifest {
                                                next_file_id,
                                                last_flushed_seqno,
                                                wal_floor,
                                                levels,
                                                vlog_live,
                                                vlog_head,
                                                vlog_retired,
                                                discard,
                                                identity: None,
                                                pending_fork: None,
                                                pins: Seq::empty(),
                                            },
                                            s8,
                                        ),
                                    ),
                                    None => None,
                                },
                                None => None,
                            },
                            None => None,
                        },
                        None => None,
                    },
                    None => None,
                },
                None => None,
            },
            None => None,
        },
        None => None,
    }
}

pub open spec fn p_identities(s: Seq<u8>, format: u32) -> Option<
    (Option<IdentityM>, Option<ForkM>, Seq<u8>),
> {
    if format >= MANIFEST_FORMAT_IDENTITY {
        match p_identity(s) {
            Some((identity, s1)) => match p_fork(s1) {
                Some((fork, s2)) => Some((identity, fork, s2)),
                None => None,
            },
            None => None,
        }
    } else {
        Some((None, None, s))
    }
}

pub open spec fn p_pin_section(s: Seq<u8>, format: u32) -> Option<Seq<PinM>> {
    if format >= MANIFEST_FORMAT_PINS {
        match p_pins(s) {
            Some((pins, _)) => Some(pins),
            None => None,
        }
    } else {
        Some(Seq::empty())
    }
}

/// A manifest body behind magic and format.
pub open spec fn p_sections(s: Seq<u8>, format: u32) -> Option<Manifest> {
    match p_structure(s) {
        Some((m, s1)) => match p_identities(s1, format) {
            Some((identity, pending_fork, s2)) => match p_pin_section(s2, format) {
                Some(pins) => Some(Manifest { identity, pending_fork, pins, ..m }),
                None => None,
            },
            None => None,
        },
        None => None,
    }
}

/// The manifest that a file's bytes hold.
pub open spec fn p_manifest(s: Seq<u8>) -> Option<Manifest> {
    if s.len() < 16 || crc32_of(s.take(s.len() - 4)) != le_value(s.skip(s.len() - 4)) {
        None
    } else {
        match p_u64(s.take(s.len() - 4)) {
            Some((magic, s1)) => if magic != MANIFEST_MAGIC {
                None
            } else {
                match p_u32(s1) {
                    Some((format, s2)) => if MANIFEST_FORMAT <= format <= MANIFEST_FORMAT_PINS {
                        p_sections(s2, format)
                    } else {
                        None
                    },
                    None => None,
                }
            },
            None => None,
        }
    }
}

// ---------------------------------------------------------------------------
// Round trip
// ---------------------------------------------------------------------------

/// A manifest as memory can hold it: lengths within 64 bits, ids of their
/// length, names in UTF-8.
pub open spec fn storable(m: Manifest) -> bool {
    &&& m.levels.len() <= u64::MAX
    &&& forall|i: int| 0 <= i < m.levels.len() ==> (#[trigger] m.levels[i]).len() <= u64::MAX
    &&& forall|i: int, j: int|
        0 <= i < m.levels.len() && 0 <= j < m.levels[i].len() ==> (
        #[trigger] m.levels[i][j]).table_ids.len() <= u64::MAX
    &&& m.vlog_live.len() <= u64::MAX
    &&& m.vlog_retired.len() <= u64::MAX
    &&& m.discard.len() <= u64::MAX
    &&& m.identity matches Some(i) ==> i.name.len() <= u64::MAX && valid_utf8(i.name)
        && i.instance_id.len() == 16 && (i.parent matches Some(p) ==> p.0.len() == 16)
    &&& m.pending_fork matches Some(f) ==> f.name.len() <= u64::MAX && valid_utf8(f.name)
        && f.parent.len() == 16
    &&& m.pins.len() <= u64::MAX
    &&& forall|i: int|
        0 <= i < m.pins.len() ==> (#[trigger] m.pins[i]).name.len() <= u64::MAX && valid_utf8(
            m.pins[i].name,
        )
}

proof fn lemma_ids_roundtrip(xs: Seq<u64>, tail: Seq<u8>)
    requires
        xs.len() <= u64::MAX,
    ensures
        p_ids(enc_ids(xs) + tail) == Some((xs, tail)),
{
    let enc = |x: u64| enc_u64(x);
    let p = |t: Seq<u8>| p_u64(t);
    assert forall|i: int, t: Seq<u8>| 0 <= i < xs.len() implies p(#[trigger] (enc(xs[i]) + t))
        == Some((xs[i], t)) by {
        lemma_u64_roundtrip(xs[i], t);
    }
    lemma_vec_roundtrip(xs, enc, p, tail);
}

proof fn lemma_pairs_roundtrip(xs: Seq<(u64, u64)>, tail: Seq<u8>)
    requires
        xs.len() <= u64::MAX,
    ensures
        p_pairs(enc_pairs(xs) + tail) == Some((xs, tail)),
{
    let enc = |x: (u64, u64)| enc_pair(x);
    let p = |t: Seq<u8>| p_pair(t);
    assert forall|i: int, t: Seq<u8>| 0 <= i < xs.len() implies p(#[trigger] (enc(xs[i]) + t))
        == Some((xs[i], t)) by {
        assert(enc(xs[i]) + t =~= enc_u64(xs[i].0) + (enc_u64(xs[i].1) + t));
        lemma_u64_roundtrip(xs[i].0, enc_u64(xs[i].1) + t);
        lemma_u64_roundtrip(xs[i].1, t);
    }
    lemma_vec_roundtrip(xs, enc, p, tail);
}

proof fn lemma_levels_roundtrip(ls: Seq<Seq<RunM>>, tail: Seq<u8>)
    requires
        ls.len() <= u64::MAX,
        forall|i: int| 0 <= i < ls.len() ==> (#[trigger] ls[i]).len() <= u64::MAX,
        forall|i: int, j: int|
            0 <= i < ls.len() && 0 <= j < ls[i].len() ==> (#[trigger] ls[i][j]).table_ids.len()
                <= u64::MAX,
    ensures
        p_levels(enc_levels(ls) + tail) == Some((ls, tail)),
{
    let enc = |l: Seq<RunM>| enc_level(l);
    let p = |t: Seq<u8>| p_level(t);
    assert forall|i: int, t: Seq<u8>| 0 <= i < ls.len() implies p(#[trigger] (enc(ls[i]) + t))
        == Some((ls[i], t)) by {
        let rs = ls[i];
        let enc2 = |r: RunM| enc_run(r);
        let p2 = |u: Seq<u8>| p_run(u);
        assert forall|j: int, u: Seq<u8>| 0 <= j < rs.len() implies p2(
            #[trigger] (enc2(rs[j]) + u),
        ) == Some((rs[j], u)) by {
            assert(ls[i][j].table_ids.len() <= u64::MAX);
            let r = rs[j];
            assert(enc2(r) + u =~= enc_u64(r.id) + (enc_ids(r.table_ids) + u));
            lemma_u64_roundtrip(r.id, enc_ids(r.table_ids) + u);
            lemma_ids_roundtrip(r.table_ids, u);
        }
        lemma_vec_roundtrip(rs, enc2, p2, t);
    }
    lemma_vec_roundtrip(ls, enc, p, tail);
}

proof fn lemma_pins_roundtrip(ps: Seq<PinM>, tail: Seq<u8>)
    requires
        ps.len() <= u64::MAX,
        forall|i: int|
            0 <= i < ps.len() ==> (#[trigger] ps[i]).name.len() <= u64::MAX && valid_utf8(
                ps[i].name,
            ),
    ensures
        p_pins(enc_pins(ps) + tail) == Some((ps, tail)),
{
    let enc = |x: PinM| enc_pin(x);
    let p = |t: Seq<u8>| p_pin(t);
    assert forall|i: int, t: Seq<u8>| 0 <= i < ps.len() implies p(#[trigger] (enc(ps[i]) + t))
        == Some((ps[i], t)) by {
        let x = ps[i];
        let s2 = enc_u64(x.created_unix_ms) + t;
        let s1 = enc_u64(x.seqno) + s2;
        assert(enc(x) + t =~= enc_len_prefixed(x.name) + s1);
        lemma_len_prefixed_roundtrip(x.name, s1);
        lemma_u64_roundtrip(x.seqno, s2);
        lemma_u64_roundtrip(x.created_unix_ms, t);
    }
    lemma_vec_roundtrip(ps, enc, p, tail);
}

proof fn lemma_identity_roundtrip(i: Option<IdentityM>, tail: Seq<u8>)
    requires
        i matches Some(x) ==> x.name.len() <= u64::MAX && valid_utf8(x.name)
            && x.instance_id.len() == 16 && (x.parent matches Some(p) ==> p.0.len() == 16),
    ensures
        p_identity(enc_identity(i) + tail) == Some((i, tail)),
{
    let s = enc_identity(i) + tail;
    match i {
        None => {
            assert(s.skip(1) =~= tail);
        },
        Some(x) => {
            let par = match x.parent {
                Some((pid, cut)) => seq![1u8] + pid + enc_u64(cut),
                None => seq![0u8],
            };
            let s3 = par + tail;
            let s2 = x.instance_id + s3;
            assert(s.skip(1) =~= enc_len_prefixed(x.name) + s2);
            lemma_len_prefixed_roundtrip(x.name, s2);
            lemma_bytes_roundtrip(x.instance_id, s3);
            match x.parent {
                None => {
                    assert(s3.skip(1) =~= tail);
                },
                Some((pid, cut)) => {
                    assert(s3.skip(1) =~= pid + (enc_u64(cut) + tail));
                    lemma_bytes_roundtrip(pid, enc_u64(cut) + tail);
                    lemma_u64_roundtrip(cut, tail);
                },
            }
        },
    }
}

proof fn lemma_fork_roundtrip(f: Option<ForkM>, tail: Seq<u8>)
    requires
        f matches Some(x) ==> x.name.len() <= u64::MAX && valid_utf8(x.name) && x.parent.len()
            == 16,
    ensures
        p_fork(enc_fork(f) + tail) == Some((f, tail)),
{
    let s = enc_fork(f) + tail;
    match f {
        None => {
            assert(s.skip(1) =~= tail);
        },
        Some(x) => {
            let s3 = enc_u64(x.cut) + tail;
            let s2 = x.parent + s3;
            assert(s.skip(1) =~= enc_len_prefixed(x.name) + s2);
            lemma_len_prefixed_roundtrip(x.name, s2);
            lemma_bytes_roundtrip(x.parent, s3);
            lemma_u64_roundtrip(x.cut, tail);
        },
    }
}

proof fn lemma_regroup(
    a: Seq<u8>,
    b: Seq<u8>,
    c: Seq<u8>,
    d: Seq<u8>,
    e: Seq<u8>,
    f: Seq<u8>,
    g: Seq<u8>,
    h: Seq<u8>,
    t: Seq<u8>,
)
    ensures
        a + b + c + d + e + f + g + h + t == a + (b + (c + (d + (e + (f + (g + (h + t))))))),
{
    assert(a + b + c + d + e + f + g + h + t =~= a + (b + (c + (d + (e + (f + (g + (h + t))))))));
}

proof fn lemma_body(a: Seq<u8>, b: Seq<u8>, c: Seq<u8>, d: Seq<u8>)
    ensures
        a + b + c + d == a + (b + (c + d)),
{
    assert(a + b + c + d =~= a + (b + (c + d)));
}

/// The checksum stands in the last four bytes.
proof fn lemma_trailer(b: Seq<u8>, c: u32)
    ensures
        ({
            let s = b + enc_u32(c);
            &&& s.len() == b.len() + 4
            &&& s.take(s.len() - 4) == b
            &&& le_value(s.skip(s.len() - 4)) == c
        }),
{
    let s = b + enc_u32(c);
    lemma_pow256_values();
    lemma_le_roundtrip(c as nat, 4);
    assert(s.take(s.len() - 4) =~= b);
    assert(s.skip(s.len() - 4) =~= enc_u32(c));
}

#[verifier::spinoff_prover]
#[verifier::rlimit(60)]
proof fn lemma_structure_roundtrip(m: Manifest, tail: Seq<u8>)
    requires
        storable(m),
    ensures
        p_structure(enc_structure(m) + tail) == Some(
            (Manifest { identity: None, pending_fork: None, pins: Seq::empty(), ..m }, tail),
        ),
{
    let s8 = tail;
    let s7 = enc_pairs(m.discard) + s8;
    let s6 = enc_pairs(m.vlog_retired) + s7;
    let s5 = enc_u64(m.vlog_head) + s6;
    let s4 = enc_ids(m.vlog_live) + s5;
    let s3 = enc_levels(m.levels) + s4;
    let s2 = enc_u64(m.wal_floor) + s3;
    let s1 = enc_u64(m.last_flushed_seqno) + s2;
    lemma_regroup(
        enc_u64(m.next_file_id),
        enc_u64(m.last_flushed_seqno),
        enc_u64(m.wal_floor),
        enc_levels(m.levels),
        enc_ids(m.vlog_live),
        enc_u64(m.vlog_head),
        enc_pairs(m.vlog_retired),
        enc_pairs(m.discard),
        tail,
    );
    assert(enc_structure(m) + tail == enc_u64(m.next_file_id) + s1);
    lemma_u64_roundtrip(m.next_file_id, s1);
    lemma_u64_roundtrip(m.last_flushed_seqno, s2);
    lemma_u64_roundtrip(m.wal_floor, s3);
    lemma_levels_roundtrip(m.levels, s4);
    lemma_ids_roundtrip(m.vlog_live, s5);
    lemma_u64_roundtrip(m.vlog_head, s6);
    lemma_pairs_roundtrip(m.vlog_retired, s7);
    lemma_pairs_roundtrip(m.discard, s8);
}

proof fn lemma_identities_roundtrip(i: Option<IdentityM>, f: Option<ForkM>, tail: Seq<u8>)
    requires
        i matches Some(x) ==> x.name.len() <= u64::MAX && valid_utf8(x.name)
            && x.instance_id.len() == 16 && (x.parent matches Some(p) ==> p.0.len() == 16),
        f matches Some(x) ==> x.name.len() <= u64::MAX && valid_utf8(x.name) && x.parent.len()
            == 16,
    ensures
        p_identities(enc_identity(i) + enc_fork(f) + tail, 2) == Some((i, f, tail)),
        p_identities(enc_identity(i) + enc_fork(f) + tail, 3) == Some((i, f, tail)),
{
    let s = enc_identity(i) + enc_fork(f) + tail;
    assert(s =~= enc_identity(i) + (enc_fork(f) + tail));
    lemma_identity_roundtrip(i, enc_fork(f) + tail);
    lemma_fork_roundtrip(f, tail);
}

proof fn lemma_pin_section_roundtrip(ps: Seq<PinM>)
    requires
        ps.len() <= u64::MAX,
        forall|i: int|
            0 <= i < ps.len() ==> (#[trigger] ps[i]).name.len() <= u64::MAX && valid_utf8(
                ps[i].name,
            ),
    ensures
        p_pin_section(enc_pins(ps), 3) == Some(ps),
{
    lemma_pins_roundtrip(ps, Seq::empty());
    assert(enc_pins(ps) + Seq::<u8>::empty() =~= enc_pins(ps));
}

#[verifier::spinoff_prover]
#[verifier::rlimit(60)]
proof fn lemma_sections_roundtrip(m: Manifest)
    requires
        storable(m),
    ensures
        p_sections(enc_structure(m) + enc_sections(m), format_of(m)) == Some(m),
{
    let f = format_of(m);
    let sec = enc_sections(m);
    lemma_structure_roundtrip(m, sec);
    if f == 3 {
        lemma_pin_section_roundtrip(m.pins);
        lemma_identities_roundtrip(m.identity, m.pending_fork, enc_pins(m.pins));
        assert(sec == enc_identity(m.identity) + enc_fork(m.pending_fork) + enc_pins(m.pins));
    } else {
        assert(m.pins =~= Seq::empty());
        if f == 2 {
            lemma_identities_roundtrip(m.identity, m.pending_fork, Seq::empty());
            assert(sec == enc_identity(m.identity) + enc_fork(m.pending_fork) + Seq::<
                u8,
            >::empty());
        } else {
            assert(sec =~= Seq::<u8>::empty());
        }
    }
}

/// Opening reads back exactly the manifest that was saved, in whichever of
/// the formats it was written.
#[verifier::spinoff_prover]
#[verifier::rlimit(60)]
pub proof fn lemma_manifest_roundtrip(m: Manifest)
    requires
        storable(m),
    ensures
        p_manifest(enc_manifest(m)) == Some(m),
{
    let s = enc_manifest(m);
    let b = enc_body(m);
    let c = crc32_of(b);
    let f = format_of(m);
    lemma_trailer(b, c);
    let sec = enc_sections(m);
    let s2 = enc_structure(m) + sec;
    let s1 = enc_u32(f) + s2;
    lemma_body(enc_u64(MANIFEST_MAGIC), enc_u32(f), enc_structure(m), sec);
    lemma_u64_roundtrip(MANIFEST_MAGIC, s1);
    assert(b == enc_u64(MANIFEST_MAGIC) + s1);
    lemma_u32_roundtrip(f, s2);
    lemma_sections_roundtrip(m);
}

// ---------------------------------------------------------------------------
// Executable encoders
// ---------------------------------------------------------------------------

fn put_ids(p: &mut Vec<u8>, xs: &Vec<u64>)
    ensures
        final(p)@ == old(p)@ + enc_ids(xs@),
{
    put_uvarint(p, xs.len() as u64);
    let ghost base = p@;
    let ghost enc = |x: u64| enc_u64(x);
    let mut i: usize = 0;
    assert(p@ =~= base + enc_list(xs@.take(0), enc));
    while i < xs.len()
        invariant
            i <= xs@.len(),
            enc == (|x: u64| enc_u64(x)),
            p@ == base + enc_list(xs@.take(i as int), enc),
        decreases xs@.len() - i,
    {
        put_u64(p, xs[i]);
        proof {
            assert(xs@.take(i + 1).drop_last() =~= xs@.take(i as int));
            assert(enc(xs@[i as int]) == enc_u64(xs@[i as int]));
            assert(p@ =~= base + enc_list(xs@.take(i + 1), enc));
        }
        i += 1;
    }
    assert(xs@.take(i as int) =~= xs@);
    assert(p@ =~= old(p)@ + enc_ids(xs@));
}

fn put_pairs(p: &mut Vec<u8>, xs: &Vec<(u64, u64)>)
    ensures
        final(p)@ == old(p)@ + enc_pairs(xs@),
{
    put_uvarint(p, xs.len() as u64);
    let ghost base = p@;
    let ghost enc = |x: (u64, u64)| enc_pair(x);
    let mut i: usize = 0;
    assert(p@ =~= base + enc_list(xs@.take(0), enc));
    while i < xs.len()
        invariant
            i <= xs@.len(),
            enc == (|x: (u64, u64)| enc_pair(x)),
            p@ == base + enc_list(xs@.take(i as int), enc),
        decreases xs@.len() - i,
    {
        put_u64(p, xs[i].0);
        put_u64(p, xs[i].1);
        proof {
            assert(xs@.take(i + 1).drop_last() =~= xs@.take(i as int));
            assert(enc(xs@[i as int]) == enc_pair(xs@[i as int]));
            assert(p@ =~= base + enc_list(xs@.take(i + 1), enc));
        }
        i += 1;
    }
    assert(xs@.take(i as int) =~= xs@);
    assert(p@ =~= old(p)@ + enc_pairs(xs@));
}

fn put_run(p: &mut Vec<u8>, r: &RunMeta)
    ensures
        final(p)@ == old(p)@ + enc_run(r@),
{
    put_u64(p, r.id);
    put_ids(p, &r.table_ids);
    assert(p@ =~= old(p)@ + enc_run(r@));
}

fn put_level(p: &mut Vec<u8>, rs: &Vec<RunMeta>)
    ensures
        final(p)@ == old(p)@ + enc_level(level_view(rs@)),
{
    put_uvarint(p, rs.len() as u64);
    let ghost base = p@;
    let ghost enc = |r: RunM| enc_run(r);
    let ghost xs = level_view(rs@);
    let mut i: usize = 0;
    assert(p@ =~= base + enc_list(xs.take(0), enc));
    while i < rs.len()
        invariant
            i <= rs@.len(),
            xs == level_view(rs@),
            enc == (|r: RunM| enc_run(r)),
            p@ == base + enc_list(xs.take(i as int), enc),
        decreases rs@.len() - i,
    {
        put_run(p, &rs[i]);
        proof {
            assert(xs.take(i + 1).drop_last() =~= xs.take(i as int));
            assert(enc(xs[i as int]) == enc_run(xs[i as int]));
            assert(p@ =~= base + enc_list(xs.take(i + 1), enc));
        }
        i += 1;
    }
    assert(xs.take(i as int) =~= xs);
    assert(p@ =~= old(p)@ + enc_level(xs));
}

fn put_levels(p: &mut Vec<u8>, ls: &Vec<Vec<RunMeta>>)
    ensures
        final(p)@ == old(p)@ + enc_levels(levels_view(ls@)),
{
    put_uvarint(p, ls.len() as u64);
    let ghost base = p@;
    let ghost enc = |l: Seq<RunM>| enc_level(l);
    let ghost xs = levels_view(ls@);
    let mut i: usize = 0;
    assert(p@ =~= base + enc_list(xs.take(0), enc));
    while i < ls.len()
        invariant
            i <= ls@.len(),
            xs == levels_view(ls@),
            enc == (|l: Seq<RunM>| enc_level(l)),
            p@ == base + enc_list(xs.take(i as int), enc),
        decreases ls@.len() - i,
    {
        put_level(p, &ls[i]);
        proof {
            assert(xs.take(i + 1).drop_last() =~= xs.take(i as int));
            assert(enc(xs[i as int]) == enc_level(xs[i as int]));
            assert(p@ =~= base + enc_list(xs.take(i + 1), enc));
        }
        i += 1;
    }
    assert(xs.take(i as int) =~= xs);
    assert(p@ =~= old(p)@ + enc_levels(xs));
}

fn put_identity(p: &mut Vec<u8>, identity: &Option<StoreIdentity>)
    ensures
        final(p)@ == old(p)@ + enc_identity(
            (match *identity {
                Some(s) => Some(identity_view(s)),
                None => None,
            }),
        ),
{
    match identity {
        Some(id) => {
            p.push(1);
            put_len_prefixed(p, id.name.as_str().as_bytes());
            put_bytes(p, vstd::array::array_as_slice(&id.instance_id));
            match &id.parent {
                Some((pid, cut)) => {
                    p.push(1);
                    put_bytes(p, vstd::array::array_as_slice(pid));
                    put_u64(p, *cut);
                },
                None => {
                    p.push(0);
                },
            }
            assert(p@ =~= old(p)@ + enc_identity(Some(identity_view(*id))));
        },
        None => {
            p.push(0);
            assert(p@ =~= old(p)@ + enc_identity(None));
        },
    }
}

fn put_fork(p: &mut Vec<u8>, fork: &Option<PendingFork>)
    ensures
        final(p)@ == old(p)@ + enc_fork(
            (match *fork {
                Some(f) => Some(fork_view(f)),
                None => None,
            }),
        ),
{
    match fork {
        Some(f) => {
            p.push(1);
            put_len_prefixed(p, f.name.as_str().as_bytes());
            put_bytes(p, vstd::array::array_as_slice(&f.parent_instance_id));
            put_u64(p, f.cut_seqno);
            assert(p@ =~= old(p)@ + enc_fork(Some(fork_view(*f))));
        },
        None => {
            p.push(0);
            assert(p@ =~= old(p)@ + enc_fork(None));
        },
    }
}

fn put_pins(p: &mut Vec<u8>, ps: &Vec<PinInfo>)
    ensures
        final(p)@ == old(p)@ + enc_pins(pins_view(ps@)),
{
    put_uvarint(p, ps.len() as u64);
    let ghost base = p@;
    let ghost enc = |x: PinM| enc_pin(x);
    let ghost xs = pins_view(ps@);
    let mut i: usize = 0;
    assert(p@ =~= base + enc_list(xs.take(0), enc));
    while i < ps.len()
        invariant
            i <= ps@.len(),
            xs == pins_view(ps@),
            enc == (|x: PinM| enc_pin(x)),
            p@ == base + enc_list(xs.take(i as int), enc),
        decreases ps@.len() - i,
    {
        let pin = &ps[i];
        put_len_prefixed(p, pin.name.as_str().as_bytes());
        put_u64(p, pin.seqno);
        put_u64(p, pin.created_unix_ms);
        proof {
            assert(xs.take(i + 1).drop_last() =~= xs.take(i as int));
            assert(enc(xs[i as int]) == enc_pin(xs[i as int]));
            assert(p@ =~= base + enc_list(xs.take(i + 1), enc));
        }
        i += 1;
    }
    assert(xs.take(i as int) =~= xs);
    assert(p@ =~= old(p)@ + enc_pins(xs));
}

// ---------------------------------------------------------------------------
// Executable decoders
// ---------------------------------------------------------------------------

fn read_ids(r: &mut Reader<'_>) -> (out: Result<Vec<u64>>)
    ensures
        match p_ids(old(r).rest()) {
            Some((xs, rest)) => out matches Ok(v) && v@ == xs && final(r).rest() == rest,
            None => out matches Err(Error::Corruption(_)),
        },
{
    let n: u64 = r.uvarint()?;
    let ghost body = r.rest();
    let ghost p = |t: Seq<u8>| p_u64(t);
    let mut v: Vec<u64> = Vec::new();
    let mut i: u64 = 0;
    assert(v@ =~= Seq::<u64>::empty());
    while i < n
        invariant
            i <= n,
            p == (|t: Seq<u8>| p_u64(t)),
            p_ids(old(r).rest()) == p_list(body, n as nat, p),
            p_list(body, i as nat, p) == Some((v@, r.rest())),
        decreases n - i,
    {
        proof {
            if p(r.rest()) is None {
                lemma_list_prefix_fails(body, (i + 1) as nat, n as nat, p);
            }
        }
        let x: u64 = r.u64()?;
        v.push(x);
        i += 1;
    }
    Ok(v)
}

fn read_pairs(r: &mut Reader<'_>) -> (out: Result<Vec<(u64, u64)>>)
    ensures
        match p_pairs(old(r).rest()) {
            Some((xs, rest)) => out matches Ok(v) && v@ == xs && final(r).rest() == rest,
            None => out matches Err(Error::Corruption(_)),
        },
{
    let n: u64 = r.uvarint()?;
    let ghost body = r.rest();
    let ghost p = |t: Seq<u8>| p_pair(t);
    let mut v: Vec<(u64, u64)> = Vec::new();
    let mut i: u64 = 0;
    assert(v@ =~= Seq::<(u64, u64)>::empty());
    while i < n
        invariant
            i <= n,
            p == (|t: Seq<u8>| p_pair(t)),
            p_pairs(old(r).rest()) == p_list(body, n as nat, p),
            p_list(body, i as nat, p) == Some((v@, r.rest())),
        decreases n - i,
    {
        proof {
            if p(r.rest()) is None {
                lemma_list_prefix_fails(body, (i + 1) as nat, n as nat, p);
            }
        }
        let a: u64 = r.u64()?;
        let b: u64 = r.u64()?;
        v.push((a, b));
        i += 1;
    }
    Ok(v)
}

fn read_level(r: &mut Reader<'_>) -> (out: Result<Vec<RunMeta>>)
    ensures
        match p_level(old(r).rest()) {
            Some((xs, rest)) => out matches Ok(v) && level_view(v@) == xs && final(r).rest()
                == rest,
            None => out matches Err(Error::Corruption(_)),
        },
{
    let n: u64 = r.uvarint()?;
    let ghost body = r.rest();
    let ghost p = |t: Seq<u8>| p_run(t);
    let mut v: Vec<RunMeta> = Vec::new();
    let mut i: u64 = 0;
    assert(level_view(v@) =~= Seq::<RunM>::empty());
    while i < n
        invariant
            i <= n,
            p == (|t: Seq<u8>| p_run(t)),
            p_level(old(r).rest()) == p_list(body, n as nat, p),
            p_list(body, i as nat, p) == Some((level_view(v@), r.rest())),
        decreases n - i,
    {
        let ghost before = level_view(v@);
        proof {
            if p(r.rest()) is None {
                lemma_list_prefix_fails(body, (i + 1) as nat, n as nat, p);
            }
        }
        let id: u64 = r.u64()?;
        let table_ids = read_ids(r)?;
        v.push(RunMeta { id, table_ids });
        assert(level_view(v@) =~= before.push(v@.last()@));
        i += 1;
    }
    Ok(v)
}

fn read_levels(r: &mut Reader<'_>) -> (out: Result<Vec<Vec<RunMeta>>>)
    ensures
        match p_levels(old(r).rest()) {
            Some((xs, rest)) => out matches Ok(v) && levels_view(v@) == xs && final(r).rest()
                == rest,
            None => out matches Err(Error::Corruption(_)),
        },
{
    let n: u64 = r.uvarint()?;
    let ghost body = r.rest();
    let ghost p = |t: Seq<u8>| p_level(t);
    let mut v: Vec<Vec<RunMeta>> = Vec::new();
    let mut i: u64 = 0;
    assert(levels_view(v@) =~= Seq::<Seq<RunM>>::empty());
    while i < n
        invariant
            i <= n,
            p == (|t: Seq<u8>| p_level(t)),
            p_levels(old(r).rest()) == p_list(body, n as nat, p),
            p_list(body, i as nat, p) == Some((levels_view(v@), r.rest())),
        decreases n - i,
    {
        let ghost before = levels_view(v@);
        proof {
            if p(r.rest()) is None {
                lemma_list_prefix_fails(body, (i + 1) as nat, n as nat, p);
            }
        }
        let level = read_level(r)?;
        v.push(level);
        assert(levels_view(v@) =~= before.push(level_view(v@.last()@)));
        i += 1;
    }
    Ok(v)
}

/// `String::from_utf8`: succeeds exactly on valid UTF-8, giving the string
/// with those bytes.
#[verifier::external_body]
pub(crate) fn utf8_string(bytes: Vec<u8>) -> (r: Option<String>)
    ensures
        match r {
            Some(s) => valid_utf8(bytes@) && encode_utf8(s@) == bytes@,
            None => !valid_utf8(bytes@),
        },
{
    String::from_utf8(bytes).ok()
}

/// A length-prefixed UTF-8 name.
pub fn read_name(r: &mut Reader<'_>) -> (out: Result<String>)
    ensures
        match p_name(old(r).rest()) {
            Some((name, rest)) => out matches Ok(s) && encode_utf8(s@) == name && final(r).rest()
                == rest,
            None => out matches Err(Error::Corruption(_)),
        },
{
    let bytes = to_bytes(r.len_prefixed()?);
    match utf8_string(bytes) {
        Some(s) => Ok(s),
        None => Err(corrupt("name is not UTF-8")),
    }
}

fn read_id(r: &mut Reader<'_>) -> (out: Result<InstanceId>)
    ensures
        match p_bytes(old(r).rest(), 16) {
            Some((id, rest)) => out matches Ok(x) && x@ == id && final(r).rest() == rest,
            None => out matches Err(Error::Corruption(_)),
        },
{
    let b = r.bytes(16)?;
    Ok(id_from(b))
}

fn read_identity(r: &mut Reader<'_>) -> (out: Result<Option<StoreIdentity>>)
    ensures
        match p_identity(old(r).rest()) {
            Some((i, rest)) => out matches Ok(x) && final(r).rest() == rest && i == (match x {
                Some(s) => Some(identity_view(s)),
                None => None,
            }),
            None => out matches Err(Error::Corruption(_)),
        },
{
    let tag: u8 = r.u8()?;
    if tag != 1 {
        return Ok(None);
    }
    let name = read_name(r)?;
    let instance_id = read_id(r)?;
    let parent_tag: u8 = r.u8()?;
    let parent = if parent_tag == 0 {
        None
    } else {
        let pid = read_id(r)?;
        let cut: u64 = r.u64()?;
        Some((pid, cut))
    };
    Ok(Some(StoreIdentity { name, instance_id, parent }))
}

fn read_fork(r: &mut Reader<'_>) -> (out: Result<Option<PendingFork>>)
    ensures
        match p_fork(old(r).rest()) {
            Some((f, rest)) => out matches Ok(x) && final(r).rest() == rest && f == (match x {
                Some(s) => Some(fork_view(s)),
                None => None,
            }),
            None => out matches Err(Error::Corruption(_)),
        },
{
    let tag: u8 = r.u8()?;
    if tag != 1 {
        return Ok(None);
    }
    let name = read_name(r)?;
    let parent_instance_id = read_id(r)?;
    let cut_seqno: u64 = r.u64()?;
    Ok(Some(PendingFork { parent_instance_id, cut_seqno, name }))
}

fn read_pins(r: &mut Reader<'_>) -> (out: Result<Vec<PinInfo>>)
    ensures
        match p_pins(old(r).rest()) {
            Some((xs, rest)) => out matches Ok(v) && pins_view(v@) == xs && final(r).rest() == rest,
            None => out matches Err(Error::Corruption(_)),
        },
{
    let n: u64 = r.uvarint()?;
    let ghost body = r.rest();
    let ghost p = |t: Seq<u8>| p_pin(t);
    let mut v: Vec<PinInfo> = Vec::new();
    let mut i: u64 = 0;
    assert(pins_view(v@) =~= Seq::<PinM>::empty());
    while i < n
        invariant
            i <= n,
            p == (|t: Seq<u8>| p_pin(t)),
            p_pins(old(r).rest()) == p_list(body, n as nat, p),
            p_list(body, i as nat, p) == Some((pins_view(v@), r.rest())),
        decreases n - i,
    {
        let ghost before = pins_view(v@);
        proof {
            if p(r.rest()) is None {
                lemma_list_prefix_fails(body, (i + 1) as nat, n as nat, p);
            }
        }
        let name = read_name(r)?;
        let seqno: u64 = r.u64()?;
        let created_unix_ms: u64 = r.u64()?;
        v.push(PinInfo { name, seqno, created_unix_ms });
        assert(pins_view(v@) =~= before.push(v@.last()@));
        i += 1;
    }
    Ok(v)
}

impl ManifestData {
    /// A manifest of an empty store.
    pub fn empty() -> (m: Self)
        ensures
            m@.levels == Seq::<Seq<RunM>>::empty(),
            m.next_file_id == 0,
            m.last_flushed_seqno == 0,
            m.wal_floor == 0,
            m.vlog_live@ == Seq::<u64>::empty(),
            m.vlog_head == 0,
            m.vlog_retired@ == Seq::<(u64, u64)>::empty(),
            m.discard@ == Seq::<(u64, u64)>::empty(),
            m.identity is None,
            m.pending_fork is None,
            m.pins@ == Seq::<PinInfo>::empty(),
    {
        let m = ManifestData {
            next_file_id: 0,
            last_flushed_seqno: 0,
            wal_floor: 0,
            levels: Vec::new(),
            vlog_live: Vec::new(),
            vlog_head: 0,
            vlog_retired: Vec::new(),
            discard: Vec::new(),
            identity: None,
            pending_fork: None,
            pins: Vec::new(),
        };
        assert(m@.levels =~= Seq::<Seq<RunM>>::empty());
        m
    }

    #[verifier::rlimit(50)]
    fn put_structure(&self, out: &mut Vec<u8>)
        ensures
            final(out)@ == old(out)@ + enc_structure(self@),
    {
        let ghost base = out@;
        put_u64(out, self.next_file_id);
        put_u64(out, self.last_flushed_seqno);
        put_u64(out, self.wal_floor);
        let ghost a = enc_u64(self.next_file_id) + enc_u64(self.last_flushed_seqno) + enc_u64(
            self.wal_floor,
        );
        assert(out@ =~= base + a);
        put_levels(out, &self.levels);
        let ghost b = a + enc_levels(levels_view(self.levels@));
        assert(out@ =~= base + b);
        put_ids(out, &self.vlog_live);
        put_u64(out, self.vlog_head);
        let ghost c = b + enc_ids(self.vlog_live@) + enc_u64(self.vlog_head);
        assert(out@ =~= base + c);
        put_pairs(out, &self.vlog_retired);
        put_pairs(out, &self.discard);
        assert(out@ =~= base + (c + enc_pairs(self.vlog_retired@) + enc_pairs(self.discard@)));
    }

    fn put_sections(&self, out: &mut Vec<u8>, format: u32)
        requires
            format == format_of(self@),
        ensures
            final(out)@ == old(out)@ + enc_sections(self@),
    {
        let ghost base = out@;
        if format >= MANIFEST_FORMAT_IDENTITY {
            put_identity(out, &self.identity);
            put_fork(out, &self.pending_fork);
            assert(out@ =~= base + (enc_identity(self@.identity) + enc_fork(
                self@.pending_fork,
            )));
        }
        let ghost mid = out@;
        if format >= MANIFEST_FORMAT_PINS {
            put_pins(out, &self.pins);
        }
        assert(out@ =~= base + enc_sections(self@));
    }

    pub fn encode(&self) -> (out: Vec<u8>)
        ensures
            out@ == enc_manifest(self@),
    {
        // each format's sections only exist from that format on; a manifest
        // not using them is written at the lowest format that carries its
        // data, so older binaries keep opening stores that never used them
        let format: u32 = if self.pins.len() > 0 {
            MANIFEST_FORMAT_PINS
        } else if self.identity.is_some() || self.pending_fork.is_some() {
            MANIFEST_FORMAT_IDENTITY
        } else {
            MANIFEST_FORMAT
        };
        let ghost m = self@;
        assert(format == format_of(m));
        let mut out: Vec<u8> = Vec::new();
        put_u64(&mut out, MANIFEST_MAGIC);
        put_u32(&mut out, format);
        self.put_structure(&mut out);
        self.put_sections(&mut out, format);
        assert(out@ =~= enc_body(m));
        let crc: u32 = crc32(out.as_slice());
        put_u32(&mut out, crc);
        out
    }

    /// Read a manifest file; anything malformed is corruption.
    pub fn decode(buf: &[u8]) -> (r: Result<ManifestData>)
        ensures
            match p_manifest(buf@) {
                Some(m) => r matches Ok(d) && d@ == m,
                None => r matches Err(Error::Corruption(_)),
            },
    {
        if buf.len() < 16 {
            return Err(corrupt("manifest too small"));
        }
        let body_end: usize = buf.len() - 4;
        let body = vstd::slice::slice_subrange(buf, 0, body_end);
        let tail = vstd::slice::slice_subrange(buf, body_end, buf.len());
        proof {
            assert(body@ =~= buf@.take(body_end as int));
            assert(tail@ =~= buf@.skip(body_end as int));
            lemma_le_bound(tail@);
            lemma_pow256_values();
        }
        let stored: u32 = le_u64(tail) as u32;
        if crc32(body) != stored {
            return Err(corrupt("manifest crc mismatch"));
        }
        let mut r = Reader::new(body);
        let magic: u64 = r.u64()?;
        if magic != MANIFEST_MAGIC {
            return Err(corrupt("bad manifest magic"));
        }
        let format: u32 = r.u32()?;
        if format < MANIFEST_FORMAT || format > MANIFEST_FORMAT_PINS {
            return Err(corrupt("unsupported manifest format"));
        }
        let next_file_id: u64 = r.u64()?;
        let last_flushed_seqno: u64 = r.u64()?;
        let wal_floor: u64 = r.u64()?;
        let levels = read_levels(&mut r)?;
        let vlog_live = read_ids(&mut r)?;
        let vlog_head: u64 = r.u64()?;
        let vlog_retired = read_pairs(&mut r)?;
        let discard = read_pairs(&mut r)?;
        let mut identity: Option<StoreIdentity> = None;
        let mut pending_fork: Option<PendingFork> = None;
        if format >= MANIFEST_FORMAT_IDENTITY {
            identity = read_identity(&mut r)?;
            pending_fork = read_fork(&mut r)?;
        }
        let mut pins: Vec<PinInfo> = Vec::new();
        assert(pins_view(pins@) =~= Seq::<PinM>::empty());
        if format >= MANIFEST_FORMAT_PINS {
            pins = read_pins(&mut r)?;
        }
        Ok(
            ManifestData {
                next_file_id,
                last_flushed_seqno,
                wal_floor,
                levels,
                vlog_live,
                vlog_head,
                vlog_retired,
                discard,
                identity,
                pending_fork,
                pins,
            },
        )
    }
}

} // verus!
