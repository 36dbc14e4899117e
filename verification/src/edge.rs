//! Edge replica store: a scoped, read-only, ephemeral cache of one remote
//! master instance.
//!
//! An edge holds the slice of a master's flushed tree that overlaps its key
//! scope `[lo, hi)`, an in-memory overlay fed by the master's replication
//! stream, and a local cache of fetched value-log records. Values resolve
//! inline, then from the local cache, then from the master. Fetched records
//! re-verify their checksum and embedded key on every read, fragment files
//! their advertised size and key bounds at install.

use std::collections::HashMap;
use std::sync::Arc;

use vstd::prelude::*;

use crate::config::IoBackend;
use crate::error::{corrupt, invalid, Error, Result};
use crate::identity::StoreIdentity;
use crate::iter::InternalIterator;
use crate::memtable::{MemIter, Memtable};
use crate::order::{bytes_eq, bytes_le, bytes_lt, to_bytes};
use crate::mvcc::MvccIter;
use crate::reopen::find_fetched;
use crate::gather::{gather, gather_memtable};
use crate::range::damage_of;
use crate::scan::DbIterator;
use crate::table::reader::Table;
use crate::types::{
    encode_inline, ikey_seqno, make_ikey, validate_user_key, SeqNo, ValueKind, MAX_SEQNO,
    USER_KEYSPACE_START,
};
use crate::version::{ReadView, Run, TableHandle, Version};
use crate::vlog::record_value_for;

verus! {

use crate::iter::{
    dir_before, dir_sorted, in_some, kinds_ok, lemma_merged, mergeable, merged, sorted, Kv,
};
use crate::gather::{and_then, levels_kvs, takes};
use crate::mvcc::{lemma_same_members, opt_view};
use crate::range::{
    behind, is_first_damage, is_last_damage, lemma_one_damage, lemma_sound_has_no_damage, within,
};
use crate::recovery::holds_latest;
use crate::memtable::upserted;
use crate::order::{lex_le, lex_lt};
use crate::recovery::latest_of;
use crate::reopen::{fetched, files_view};
use crate::table::{p_table, table_sound};
use crate::types::{
    enc_repr, entry_ikey, ikey_before, is_ikey, is_user_key, kind_byte_of, kind_of_byte,
    lemma_entry_ikey,
    lemma_ikey_irreflexive, seqno_of, ukey_of, Repr,
};
use crate::version::{fragments_open, sources_lookup};
use crate::vlog::p_record;

/// Fetches raw vlog record bytes (`[crc][klen][vlen][key][value]`) from the
/// master. Implementations own transport; the store verifies checksum and key
/// of every returned record before serving or caching it.
pub trait ValueFetcher {
    fn fetch_record(&self, file: u64, offset: u64, len: u32) -> Result<Vec<u8>>;
}

pub struct EdgeConfig {
    /// Local cache directory (wiped on attach).
    pub dir: String,
    /// The master instance this attachment is bound to.
    pub master: StoreIdentity,
    /// Scope `[lo, hi)`; `hi = None` = unbounded above.
    pub scope_lo: Vec<u8>,
    pub scope_hi: Option<Vec<u8>>,
    pub io_backend: IoBackend,
    /// Shared block cache for fragment data blocks.
    pub block_cache_size: usize,
    /// Cap on the local value-cache file; exceeding it resets the cache.
    pub value_cache_bytes: u64,
}

pub open spec fn hi_view(hi: Option<Vec<u8>>) -> Option<Seq<u8>> {
    match hi {
        Some(h) => Some(h@),
        None => None,
    }
}

/// The key is in `[lo, hi)`.
pub open spec fn in_scope_of(key: Seq<u8>, lo: Seq<u8>, hi: Option<Seq<u8>>) -> bool {
    lex_le(lo, key) && (hi matches Some(h) ==> lex_lt(key, h))
}

/// No key lies in the range.
pub open spec fn is_empty_range(lo: Seq<u8>, hi: Option<Seq<u8>>) -> bool {
    hi matches Some(x) && lex_le(x, lo)
}

impl EdgeConfig {
    pub fn new(dir: String, master: StoreIdentity, scope_lo: Vec<u8>, scope_hi: Option<Vec<u8>>) -> (c:
        EdgeConfig)
        ensures
            c.dir == dir,
            c.master == master,
            c.scope_lo == scope_lo,
            c.scope_hi == scope_hi,
            c.io_backend == IoBackend::Auto,
            c.block_cache_size == 32 * 1024 * 1024,
            c.value_cache_bytes == 256 * 1024 * 1024,
    {
        EdgeConfig {
            dir,
            master,
            scope_lo,
            scope_hi,
            io_backend: IoBackend::Auto,
            block_cache_size: 32 * 1024 * 1024,
            value_cache_bytes: 256 * 1024 * 1024,
        }
    }

    /// Fit the scope to the user keyspace; an empty scope is refused.
    pub fn check_scope(&mut self) -> (r: Result<()>)
        ensures
            final(self).scope_lo@ == (if lex_lt(old(self).scope_lo@, USER_KEYSPACE_START@) {
                USER_KEYSPACE_START@
            } else {
                old(self).scope_lo@
            }),
            final(self).scope_hi == old(self).scope_hi,
            final(self).dir == old(self).dir,
            final(self).master == old(self).master,
            final(self).io_backend == old(self).io_backend,
            final(self).block_cache_size == old(self).block_cache_size,
            final(self).value_cache_bytes == old(self).value_cache_bytes,
            r is Ok <==> (old(self).scope_hi matches Some(h) ==> !lex_le(
                h@,
                final(self).scope_lo@,
            )),
            r matches Err(e) ==> e is InvalidArgument,
    {
        let start: [u8; 1] = USER_KEYSPACE_START;
        let s = vstd::array::array_as_slice(&start);
        if bytes_lt(self.scope_lo.as_slice(), s) {
            self.scope_lo = to_bytes(s);
        }
        if let Some(h) = &self.scope_hi {
            if bytes_le(h.as_slice(), self.scope_lo.as_slice()) {
                return Err(invalid("empty edge scope [lo, hi)"));
            }
        }
        Ok(())
    }

    pub fn in_scope(&self, key: &[u8]) -> (b: bool)
        ensures
            b == in_scope_of(key@, self.scope_lo@, hi_view(self.scope_hi)),
    {
        if !bytes_le(self.scope_lo.as_slice(), key) {
            return false;
        }
        match &self.scope_hi {
            Some(h) => bytes_lt(key, h.as_slice()),
            None => true,
        }
    }

    /// The range within the scope.
    pub open spec fn narrowed(self, lo: Option<Seq<u8>>, hi: Option<Seq<u8>>) -> (Seq<u8>, Option<
        Seq<u8>,
    >) {
        (
            match lo {
                Some(l) => if lex_lt(self.scope_lo@, l) {
                    l
                } else {
                    self.scope_lo@
                },
                None => self.scope_lo@,
            },
            match (hi, hi_view(self.scope_hi)) {
                (Some(h), Some(s)) => if lex_le(h, s) {
                    Some(h)
                } else {
                    Some(s)
                },
                (Some(h), None) => Some(h),
                (None, s) => s,
            },
        )
    }

    /// The part of `[lo, hi)` that lies in the scope; nothing where that is
    /// empty.
    pub fn narrow(&self, lo: Option<&[u8]>, hi: Option<&[u8]>) -> (r: Option<
        (Vec<u8>, Option<Vec<u8>>),
    >)
        ensures
            ({
                let (l, h) = self.narrowed(crate::txn::opt(lo), crate::txn::opt(hi));
                match r {
                    Some((a, b)) => a@ == l && hi_view(b) == h && !is_empty_range(l, h),
                    None => is_empty_range(l, h),
                }
            }),
    {
        let l: Vec<u8> = match lo {
            Some(l) => if bytes_lt(self.scope_lo.as_slice(), l) {
                to_bytes(l)
            } else {
                to_bytes(self.scope_lo.as_slice())
            },
            None => to_bytes(self.scope_lo.as_slice()),
        };
        let h: Option<Vec<u8>> = match hi {
            Some(h) => match &self.scope_hi {
                Some(s) => if bytes_le(h, s.as_slice()) {
                    Some(to_bytes(h))
                } else {
                    Some(to_bytes(s.as_slice()))
                },
                None => Some(to_bytes(h)),
            },
            None => match &self.scope_hi {
                Some(s) => Some(to_bytes(s.as_slice())),
                None => None,
            },
        };
        let empty: bool = match &h {
            Some(x) => bytes_le(x.as_slice(), l.as_slice()),
            None => false,
        };
        if empty {
            None
        } else {
            Some((l, h))
        }
    }
}

pub struct EdgeStats {
    /// Slice watermark: everything at or below is in local fragments.
    pub flushed_seqno: SeqNo,
    /// Highest seqno visible on this edge (slice or stream).
    pub frontier_seqno: SeqNo,
    pub fragments: usize,
    pub overlay_bytes: usize,
    pub value_cache_bytes: u64,
}

/// A fragment as the master advertises it.
pub struct SliceTable {
    pub id: u64,
    pub size: u64,
    pub min_ukey: Vec<u8>,
    pub max_ukey: Vec<u8>,
}

pub struct SliceRun {
    pub id: u64,
    pub tables: Vec<SliceTable>,
}

/// The part of a master's flushed tree that overlaps a scope.
pub struct SliceManifest {
    pub levels: Vec<Vec<SliceRun>>,
    pub flushed_seqno: SeqNo,
}

/// A committed write as the replication stream delivers it.
pub struct StreamEntry {
    pub seqno: SeqNo,
    pub kind: ValueKind,
    pub key: Vec<u8>,
    /// The resolved value of a put.
    pub value: Option<Vec<u8>>,
}

/// What an edge serves.
pub struct EdgeState {
    pub version: Version,
    pub overlay: Memtable,
    pub flushed: SeqNo,
    pub frontier: SeqNo,
}

/// An entry of a known kind, of a size that a memtable can take.
pub open spec fn entry_fits(kv: Kv) -> bool {
    &&& crate::types::kind_of_byte(crate::types::kind_byte_of(kv.key)) is Some
    &&& kv.key.len() + kv.repr.len() + 64 <= usize::MAX
}

pub open spec fn entries_fit(es: Seq<Kv>) -> bool {
    forall|i: int| 0 <= i < es.len() ==> entry_fits(#[trigger] es[i])
}

impl EdgeState {
    pub open spec fn wf(self) -> bool {
        &&& self.overlay.inv()
        &&& entries_fit(self.overlay.entries())
        &&& self.version.open_runs()
    }

    /// What a lookup finds: the overlay first, then the fragments.
    pub open spec fn lookup(self, uk: Seq<u8>) -> Option<Option<Kv>> {
        sources_lookup(seq![self.overlay.entries()], self.version.levels@, uk, MAX_SEQNO)
    }

    /// An edge that has nothing yet.
    pub fn new() -> (s: Self)
        ensures
            s.wf(),
            s.overlay.entries().len() == 0,
            s.version.levels@.len() == 1,
            s.version.levels@[0]@.len() == 0,
            s.flushed == 0,
            s.frontier == 0,
    {
        EdgeState { version: Version::empty(1), overlay: Memtable::new(0), flushed: 0, frontier: 0 }
    }
}

/// What is drawn from fitting entries fits.
proof fn lemma_drawn_fits(es: Seq<Kv>, kv: Kv, out: Seq<Kv>)
    requires
        entries_fit(es),
        entry_fits(kv),
        forall|x: Kv| #[trigger] out.contains(x) ==> x == kv || es.contains(x),
    ensures
        entries_fit(out),
{
    assert forall|i: int| 0 <= i < out.len() implies entry_fits(#[trigger] out[i]) by {
        assert(out.contains(out[i]));
        if out[i] != kv {
            let j = choose|j: int| 0 <= j < es.len() && es[j] == out[i];
            assert(entry_fits(es[j]));
        }
    }
}

// ---------------------------------------------------------------------------
// The stream
// ---------------------------------------------------------------------------

pub open spec fn streamable(e: StreamEntry) -> bool {
    e.kind is Delete || e.value is Some
}

/// The version that a streamed write makes.
pub open spec fn stream_kv(e: StreamEntry) -> Kv {
    Kv {
        key: entry_ikey(e.key@, e.seqno, e.kind),
        repr: match e.kind {
            ValueKind::Put => match e.value {
                Some(v) => enc_repr(Repr::Inline(v@)),
                None => Seq::empty(),
            },
            ValueKind::Delete => Seq::empty(),
        },
    }
}

/// The versions that the first `n` streamed writes within the scope make.
pub open spec fn stream_kvs(
    es: Seq<StreamEntry>,
    lo: Seq<u8>,
    hi: Option<Seq<u8>>,
    n: int,
) -> Seq<Kv>
    decreases n,
{
    if n <= 0 {
        Seq::empty()
    } else {
        let before = stream_kvs(es, lo, hi, n - 1);
        if in_scope_of(es[n - 1].key@, lo, hi) {
            before.push(stream_kv(es[n - 1]))
        } else {
            before
        }
    }
}

/// The highest seqno of the first `n` streamed writes within the scope, at
/// least `least`.
pub open spec fn stream_top(
    es: Seq<StreamEntry>,
    lo: Seq<u8>,
    hi: Option<Seq<u8>>,
    least: u64,
    n: int,
) -> u64
    decreases n,
{
    if n <= 0 {
        least
    } else {
        let m = stream_top(es, lo, hi, least, n - 1);
        if in_scope_of(es[n - 1].key@, lo, hi) && es[n - 1].seqno > m {
            es[n - 1].seqno
        } else {
            m
        }
    }
}

/// Where applying a stream batch ends: before the first put within the scope
/// that carries no value.
pub open spec fn stream_end(es: Seq<StreamEntry>, lo: Seq<u8>, hi: Option<Seq<u8>>, n: int) -> int
    decreases es.len() - n,
{
    if 0 <= n < es.len() && (!in_scope_of(es[n].key@, lo, hi) || streamable(es[n])) {
        stream_end(es, lo, hi, n + 1)
    } else {
        n
    }
}

/// `new_es` is what inserting `kvs` in order into `old_es` leaves.
pub open spec fn upserts(old_es: Seq<Kv>, kvs: Seq<Kv>, new_es: Seq<Kv>) -> bool {
    &&& sorted(new_es)
    &&& forall|x: Kv| #[trigger]
        new_es.contains(x) <==> latest_of(kvs, x) || (old_es.contains(x) && forall|i: int|
            0 <= i < kvs.len() ==> (#[trigger] kvs[i]).key != x.key)
}

proof fn lemma_upsert_one(old_es: Seq<Kv>, kvs: Seq<Kv>, kv: Kv, es: Seq<Kv>, es2: Seq<Kv>)
    requires
        upserts(old_es, kvs, es),
        upserted(es, kv, es2),
    ensures
        upserts(old_es, kvs.push(kv), es2),
{
    let ks = kvs.push(kv);
    let n = kvs.len() as int;
    assert(ks[n] == kv);
    assert forall|x: Kv| #[trigger]
        es2.contains(x) <==> latest_of(ks, x) || (old_es.contains(x) && forall|i: int|
            0 <= i < ks.len() ==> (#[trigger] ks[i]).key != x.key) by {
        assert(es2.contains(x) <==> x == kv || (es.contains(x) && x.key != kv.key));
        assert(es.contains(x) <==> latest_of(kvs, x) || (old_es.contains(x) && forall|i: int|
            0 <= i < kvs.len() ==> (#[trigger] kvs[i]).key != x.key));
        if x == kv {
            assert(ks[n] == x);
        }
        if latest_of(kvs, x) && x.key != kv.key {
            let i = choose|i: int|
                0 <= i < kvs.len() && #[trigger] kvs[i] == x && forall|j: int|
                    i < j < kvs.len() ==> (#[trigger] kvs[j]).key != x.key;
            assert(ks[i] == x);
            assert forall|j: int| i < j < ks.len() implies (#[trigger] ks[j]).key != x.key by {
                if j < n {
                    assert(ks[j] == kvs[j]);
                }
            }
        }
        if latest_of(ks, x) && x != kv {
            let i = choose|i: int|
                0 <= i < ks.len() && #[trigger] ks[i] == x && forall|j: int|
                    i < j < ks.len() ==> (#[trigger] ks[j]).key != x.key;
            assert(ks[n].key != x.key);
            assert(kvs[i] == x);
            assert forall|j: int| i < j < kvs.len() implies (#[trigger] kvs[j]).key != x.key by {
                assert(ks[j] == kvs[j]);
            }
            assert(latest_of(kvs, x));
        }
        if x.key != kv.key && forall|i: int| 0 <= i < kvs.len() ==> (#[trigger] kvs[i]).key
            != x.key {
            assert forall|i: int| 0 <= i < ks.len() implies (#[trigger] ks[i]).key != x.key by {
                if i < n {
                    assert(ks[i] == kvs[i]);
                }
            }
        }
        if forall|i: int| 0 <= i < ks.len() ==> (#[trigger] ks[i]).key != x.key {
            assert(ks[n].key != x.key);
            assert forall|i: int| 0 <= i < kvs.len() implies (#[trigger] kvs[i]).key != x.key by {
                assert(ks[i] == kvs[i]);
            }
        }
    }
}

/// Apply a batch from the master's replication stream. Writes outside the
/// scope are passed over; a put without its value is corruption, and what came
/// before it stays applied.
pub fn apply_stream(state: &mut EdgeState, cfg: &EdgeConfig, entries: &Vec<StreamEntry>) -> (r:
    Result<()>)
    requires
        old(state).wf(),
        forall|i: int|
            0 <= i < entries@.len() ==> (#[trigger] entries@[i]).seqno <= MAX_SEQNO
                && entries@[i].key@.len() + (match entries@[i].value {
                Some(v) => v@.len(),
                None => 0,
            }) + 128 <= usize::MAX,
    ensures
        final(state).wf(),
        final(state).version == old(state).version,
        final(state).flushed == old(state).flushed,
        ({
            let lo = cfg.scope_lo@;
            let hi = hi_view(cfg.scope_hi);
            let n = stream_end(entries@, lo, hi, 0);
            &&& upserts(
                old(state).overlay.entries(),
                stream_kvs(entries@, lo, hi, n),
                final(state).overlay.entries(),
            )
            &&& final(state).frontier == stream_top(entries@, lo, hi, old(state).frontier, n)
            &&& r is Ok <==> n == entries@.len()
            &&& r matches Err(e) ==> e is Corruption
        }),
{
    let ghost lo = cfg.scope_lo@;
    let ghost hi = hi_view(cfg.scope_hi);
    let ghost es0 = state.overlay.entries();
    let ghost all = stream_end(entries@, lo, hi, 0);
    let mut i: usize = 0;
    proof {
        state.overlay.lemma_sorted();
        assert(forall|x: Kv| !latest_of(Seq::<Kv>::empty(), x));
    }
    while i < entries.len()
        invariant
            i <= entries@.len(),
            state.wf(),
            state.version == old(state).version,
            state.flushed == old(state).flushed,
            lo == cfg.scope_lo@,
            hi == hi_view(cfg.scope_hi),
            all == stream_end(entries@, lo, hi, 0),
            all == stream_end(entries@, lo, hi, i as int),
            upserts(es0, stream_kvs(entries@, lo, hi, i as int), state.overlay.entries()),
            es0 == old(state).overlay.entries(),
            state.frontier == stream_top(entries@, lo, hi, old(state).frontier, i as int),
            forall|i: int|
                0 <= i < entries@.len() ==> (#[trigger] entries@[i]).seqno <= MAX_SEQNO
                    && entries@[i].key@.len() + (match entries@[i].value {
                    Some(v) => v@.len(),
                    None => 0,
                }) + 128 <= usize::MAX,
        decreases entries@.len() - i,
    {
        let e = &entries[i];
        assert(entries@[i as int].seqno <= MAX_SEQNO);
        if cfg.in_scope(e.key.as_slice()) {
            let repr: Vec<u8> = match e.kind {
                ValueKind::Put => match &e.value {
                    Some(v) => encode_inline(v.as_slice()),
                    None => {
                        return Err(corrupt("streamed Put without a resolved value"));
                    },
                },
                ValueKind::Delete => Vec::new(),
            };
            let ghost cur = state.overlay.entries();
            let ghost kvs = stream_kvs(entries@, lo, hi, i as int);
            let ik = make_ikey(e.key.as_slice(), e.seqno, e.kind);
            proof {
                lemma_entry_ikey(e.key@, e.seqno, e.kind);
                crate::commit::lemma_entry_len(e.key@, e.seqno, e.kind);
                if e.kind is Delete {
                    assert(repr@ =~= Seq::<u8>::empty());
                }
                assert((Kv { key: ik@, repr: repr@ }) == stream_kv(*e));
            }
            state.overlay.insert(ik, repr);
            proof {
                lemma_upsert_one(es0, kvs, stream_kv(*e), cur, state.overlay.entries());
                lemma_drawn_fits(cur, stream_kv(*e), state.overlay.entries());
            }
            if e.seqno > state.frontier {
                state.frontier = e.seqno;
            }
        }
        i += 1;
    }
    Ok(())
}

// ---------------------------------------------------------------------------
// Slices
// ---------------------------------------------------------------------------

/// The fragment's file opens, and is what the master advertised.
pub open spec fn as_advertised(fs: Seq<(u64, Seq<u8>)>, t: SliceTable) -> bool {
    fetched(fs, t.id) matches Some(data) && (p_table(data) matches Some(m) && data.len() == t.size
        && ukey_of(m.stats.first_ikey) == t.min_ukey@ && ukey_of(m.stats.last_ikey)
        == t.max_ukey@)
}

/// The handle is open on the fragment's file.
pub open spec fn opened(fs: Seq<(u64, Seq<u8>)>, t: SliceTable, h: TableHandle) -> bool {
    &&& h.id == t.id
    &&& h.size == t.size
    &&& h.table.inv()
    &&& fetched(fs, t.id) == Some(h.table.bytes())
    &&& p_table(h.table.bytes()) == Some(h.table.model())
    &&& h.table.sound() == table_sound(h.table.bytes(), h.table.model())
}

pub open spec fn run_opened(fs: Seq<(u64, Seq<u8>)>, r: SliceRun, x: Run) -> bool {
    &&& x.id == r.id
    &&& x.tables@.len() == r.tables@.len()
    &&& forall|k: int|
        0 <= k < r.tables@.len() ==> opened(fs, r.tables@[k], *#[trigger] x.tables@[k])
}

pub open spec fn level_opened(fs: Seq<(u64, Seq<u8>)>, rs: Seq<SliceRun>, xs: Seq<Run>) -> bool {
    &&& xs.len() == rs.len()
    &&& forall|k: int| 0 <= k < rs.len() ==> run_opened(fs, rs[k], #[trigger] xs[k])
}

pub open spec fn run_advertised(fs: Seq<(u64, Seq<u8>)>, r: SliceRun) -> bool {
    forall|k: int| 0 <= k < r.tables@.len() ==> as_advertised(fs, #[trigger] r.tables@[k])
}

pub open spec fn level_advertised(fs: Seq<(u64, Seq<u8>)>, rs: Seq<SliceRun>) -> bool {
    forall|k: int| 0 <= k < rs.len() ==> run_advertised(fs, #[trigger] rs[k])
}

pub open spec fn slice_advertised(fs: Seq<(u64, Seq<u8>)>, s: SliceManifest) -> bool {
    forall|k: int| 0 <= k < s.levels@.len() ==> level_advertised(fs, (#[trigger] s.levels@[k])@)
}

/// Why a fragment is refused: it was not fetched, or what was fetched is not
/// what was advertised.
pub open spec fn fault_is(fs: Seq<(u64, Seq<u8>)>, t: SliceTable, e: Error) -> bool {
    match fetched(fs, t.id) {
        None => e is InvalidArgument,
        Some(_) => !as_advertised(fs, t) && (e is Corruption || e is Io),
    }
}

/// The error is that of the first fragment that is refused.
pub open spec fn run_fault(fs: Seq<(u64, Seq<u8>)>, r: SliceRun, e: Error) -> bool {
    exists|k: int|
        0 <= k < r.tables@.len() && run_good_upto(fs, r, k) && fault_is(
            fs,
            #[trigger] r.tables@[k],
            e,
        )
}

pub open spec fn run_good_upto(fs: Seq<(u64, Seq<u8>)>, r: SliceRun, n: int) -> bool {
    forall|k: int| 0 <= k < n ==> as_advertised(fs, #[trigger] r.tables@[k])
}

pub open spec fn level_fault(fs: Seq<(u64, Seq<u8>)>, rs: Seq<SliceRun>, e: Error) -> bool {
    exists|k: int|
        0 <= k < rs.len() && (forall|j: int| 0 <= j < k ==> run_advertised(fs, #[trigger] rs[j]))
            && run_fault(fs, #[trigger] rs[k], e)
}

pub open spec fn slice_fault(fs: Seq<(u64, Seq<u8>)>, s: SliceManifest, e: Error) -> bool {
    exists|k: int|
        0 <= k < s.levels@.len() && (forall|j: int|
            0 <= j < k ==> level_advertised(fs, (#[trigger] s.levels@[j])@)) && level_fault(
            fs,
            (#[trigger] s.levels@[k])@,
            e,
        )
}

/// Open one fragment, holding it to its advertised size and bounds.
fn open_fragment(t: &SliceTable, files: &Vec<(u64, Vec<u8>)>) -> (r: Result<TableHandle>)
    ensures
        match r {
            Ok(h) => as_advertised(files_view(files@), *t) && opened(files_view(files@), *t, h),
            Err(e) => !as_advertised(files_view(files@), *t) && fault_is(files_view(files@), *t, e),
        },
{
    let data = match find_fetched(files, t.id) {
        Some(d) => d,
        None => {
            return Err(invalid("fragment not fetched before install"));
        },
    };
    let ghost dv = data@;
    let size: u64 = data.len() as u64;
    let table = match Table::open(data, t.id) {
        Ok(t) => t,
        Err(e) => {
            return Err(e);
        },
    };
    if size != t.size || !bytes_eq(table.min_ukey(), t.min_ukey.as_slice()) || !bytes_eq(
        table.max_ukey(),
        t.max_ukey.as_slice(),
    ) {
        return Err(corrupt("fragment does not match its advertised size/bounds"));
    }
    Ok(TableHandle::new(t.id, String::new(), size, table))
}

fn open_run(r: &SliceRun, files: &Vec<(u64, Vec<u8>)>) -> (out: Result<Run>)
    ensures
        match out {
            Ok(x) => run_advertised(files_view(files@), *r) && run_opened(
                files_view(files@),
                *r,
                x,
            ),
            Err(e) => !run_advertised(files_view(files@), *r) && run_fault(
                files_view(files@),
                *r,
                e,
            ),
        },
{
    let ghost fs = files_view(files@);
    let mut tables: Vec<Arc<TableHandle>> = Vec::new();
    let mut i: usize = 0;
    while i < r.tables.len()
        invariant
            i <= r.tables@.len(),
            fs == files_view(files@),
            tables@.len() == i,
            forall|k: int| 0 <= k < i ==> opened(fs, r.tables@[k], *#[trigger] tables@[k]),
            forall|k: int| 0 <= k < i ==> as_advertised(fs, #[trigger] r.tables@[k]),
        decreases r.tables@.len() - i,
    {
        match open_fragment(&r.tables[i], files) {
            Ok(h) => {
                tables.push(Arc::new(h));
            },
            Err(e) => {
                assert(!as_advertised(fs, r.tables@[i as int]));
                assert(run_good_upto(fs, *r, i as int));
                return Err(e);
            },
        }
        i += 1;
    }
    Ok(Run { id: r.id, tables })
}

fn open_level(rs: &Vec<SliceRun>, files: &Vec<(u64, Vec<u8>)>) -> (out: Result<Vec<Run>>)
    ensures
        match out {
            Ok(x) => level_advertised(files_view(files@), rs@) && level_opened(
                files_view(files@),
                rs@,
                x@,
            ),
            Err(e) => !level_advertised(files_view(files@), rs@) && level_fault(
                files_view(files@),
                rs@,
                e,
            ),
        },
{
    let ghost fs = files_view(files@);
    let mut runs: Vec<Run> = Vec::new();
    let mut i: usize = 0;
    while i < rs.len()
        invariant
            i <= rs@.len(),
            fs == files_view(files@),
            runs@.len() == i,
            forall|k: int| 0 <= k < i ==> run_opened(fs, rs@[k], #[trigger] runs@[k]),
            forall|k: int| 0 <= k < i ==> run_advertised(fs, #[trigger] rs@[k]),
        decreases rs@.len() - i,
    {
        match open_run(&rs[i], files) {
            Ok(x) => {
                runs.push(x);
            },
            Err(e) => {
                assert(!run_advertised(fs, rs@[i as int]));
                return Err(e);
            },
        }
        i += 1;
    }
    Ok(runs)
}

/// The versions past the watermark.
pub open spec fn past_watermark(es: Seq<Kv>, flushed: u64, out: Seq<Kv>) -> bool {
    &&& sorted(out)
    &&& forall|x: Kv| #[trigger]
        out.contains(x) <==> es.contains(x) && seqno_of(x.key) > flushed
}

/// Keep only the overlay's tail past the watermark: what a slice covers is
/// served from its fragments.
fn prune_overlay(overlay: &Memtable, flushed: SeqNo) -> (out: Memtable)
    requires
        overlay.inv(),
        forall|i: int|
            0 <= i < overlay.entries().len() ==> (#[trigger] overlay.entries()[i]).key.len()
                + overlay.entries()[i].repr.len() + 64 <= usize::MAX,
    ensures
        out.inv(),
        past_watermark(overlay.entries(), flushed, out.entries()),
{
    let ghost es = overlay.entries();
    let mut out = Memtable::new(0);
    let mut it = overlay.iter();
    it.seek_to_first();
    let ghost mut p: int = 0;
    proof {
        overlay.lemma_sorted();
        assert(es.take(0) =~= Seq::<Kv>::empty());
        assert(past_watermark(es.take(0), flushed, out.entries()));
    }
    while it.valid()
        invariant
            it.inv(),
            it.entries() == es,
            es == overlay.entries(),
            sorted(es),
            0 <= p <= es.len(),
            it.pos() == p,
            out.inv(),
            past_watermark(es.take(p), flushed, out.entries()),
            forall|i: int|
                0 <= i < overlay.entries().len() ==> (#[trigger] overlay.entries()[i]).key.len()
                    + overlay.entries()[i].repr.len() + 64 <= usize::MAX,
        decreases es.len() - p,
    {
        let ghost kv = es[p];
        let ghost a = es.take(p);
        let ghost b = es.take(p + 1);
        let ghost cur = out.entries();
        proof {
            assert(is_ikey(es[p].key));
            assert(b =~= a.push(kv));
            assert forall|x: Kv| b.contains(x) <==> a.contains(x) || x == kv by {
                if b.contains(x) {
                    let i = choose|i: int| 0 <= i < b.len() && b[i] == x;
                    if i < p {
                        assert(a[i] == x);
                    }
                }
                if a.contains(x) {
                    let i = choose|i: int| 0 <= i < a.len() && a[i] == x;
                    assert(b[i] == x);
                }
                assert(b[p] == kv);
            }
        }
        if ikey_seqno(it.ikey()) > flushed {
            assert(overlay.entries()[p].key.len() + overlay.entries()[p].repr.len() + 64
                <= usize::MAX);
            out.insert(to_bytes(it.ikey()), to_bytes(it.value()));
            proof {
                assert forall|x: Kv| #[trigger]
                    out.entries().contains(x) <==> b.contains(x) && seqno_of(x.key) > flushed by {
                    assert(out.entries().contains(x) <==> x == kv || (cur.contains(x) && x.key
                        != kv.key));
                    assert(cur.contains(x) <==> a.contains(x) && seqno_of(x.key) > flushed);
                    if a.contains(x) {
                        let i = choose|i: int| 0 <= i < a.len() && a[i] == x;
                        assert(ikey_before(es[i].key, es[p].key));
                        lemma_ikey_irreflexive(es[p].key);
                    }
                }
            }
        } else {
            proof {
                assert forall|x: Kv| #[trigger]
                    out.entries().contains(x) <==> b.contains(x) && seqno_of(x.key) > flushed by {
                    assert(cur.contains(x) <==> a.contains(x) && seqno_of(x.key) > flushed);
                }
            }
        }
        it.next();
        proof {
            p = p + 1;
        }
    }
    assert(es.take(p) =~= es);
    out
}

/// Install a freshly pulled slice: open every referenced fragment, hold it to
/// what was advertised, swap the tree, prune overlay entries the slice now
/// covers. Where a fragment is missing or differs, nothing changes.
pub fn install_slice(state: &mut EdgeState, slice: &SliceManifest, files: &Vec<(u64, Vec<u8>)>) -> (r:
    Result<()>)
    requires
        old(state).wf(),
    ensures
        final(state).wf(),
        r is Ok <==> slice_advertised(files_view(files@), *slice),
        r matches Err(e) ==> slice_fault(files_view(files@), *slice, e) && *final(state) == *old(
            state,
        ),
        r is Ok ==> {
            &&& past_watermark(
                old(state).overlay.entries(),
                slice.flushed_seqno,
                final(state).overlay.entries(),
            )
            &&& final(state).flushed == slice.flushed_seqno
            &&& final(state).frontier == (if slice.flushed_seqno > old(state).frontier {
                slice.flushed_seqno
            } else {
                old(state).frontier
            })
            &&& final(state).version.vlogs@.len() == 0
            &&& final(state).version.vlog_head_id == 0
            &&& final(state).version.levels@.len() == slice.levels@.len()
            &&& forall|l: int|
                0 <= l < slice.levels@.len() ==> level_opened(
                    files_view(files@),
                    slice.levels@[l]@,
                    (#[trigger] final(state).version.levels@[l])@,
                )
        },
{
    let ghost fs = files_view(files@);
    let mut levels: Vec<Vec<Run>> = Vec::new();
    let mut l: usize = 0;
    while l < slice.levels.len()
        invariant
            l <= slice.levels@.len(),
            *state == *old(state),
            old(state).wf(),
            fs == files_view(files@),
            levels@.len() == l,
            forall|k: int|
                0 <= k < l ==> level_opened(fs, slice.levels@[k]@, (#[trigger] levels@[k])@),
            forall|k: int| 0 <= k < l ==> level_advertised(fs, (#[trigger] slice.levels@[k])@),
        decreases slice.levels@.len() - l,
    {
        match open_level(&slice.levels[l], files) {
            Ok(x) => {
                levels.push(x);
            },
            Err(e) => {
                assert(!level_advertised(fs, slice.levels@[l as int]@));
                return Err(e);
            },
        }
        l += 1;
    }
    let overlay = prune_overlay(&state.overlay, slice.flushed_seqno);
    proof {
        let es = state.overlay.entries();
        let out = overlay.entries();
        if out.len() > 0 {
            assert(out.contains(out[0]));
            let j = choose|j: int| 0 <= j < es.len() && es[j] == out[0];
            assert(entry_fits(es[j]));
            lemma_drawn_fits(es, es[j], out);
        }
    }
    state.version = Version { levels, vlogs: Vec::new(), vlog_head_id: 0 };
    state.overlay = overlay;
    state.flushed = slice.flushed_seqno;
    if slice.flushed_seqno > state.frontier {
        state.frontier = slice.flushed_seqno;
    }
    proof {
        let ls = state.version.levels@;
        assert forall|a: int, k: int| 0 <= a < ls.len() && 0 <= k < ls[a]@.len() implies
            crate::version::fragments_open((#[trigger] ls[a]@[k]).tables@) by {
            assert(level_opened(fs, slice.levels@[a]@, ls[a]@));
            assert(run_opened(fs, slice.levels@[a]@[k], ls[a]@[k]));
            assert forall|t: int| 0 <= t < ls[a]@[k].tables@.len() implies (
            #[trigger] ls[a]@[k].tables@[t]).table.inv() by {
                assert(opened(fs, slice.levels@[a]@[k].tables@[t], *ls[a]@[k].tables@[t]));
            }
        }
    }
    Ok(())
}

/// Some run of the slice has the fragment.
pub open spec fn references(s: SliceManifest, id: u64) -> bool {
    exists|l: int, r: int, k: int|
        0 <= l < s.levels@.len() && 0 <= r < s.levels@[l]@.len() && 0 <= k
            < s.levels@[l]@[r].tables@.len() && (#[trigger] s.levels@[l]@[r].tables@[k]).id == id
}

/// Whether a local fragment is still wanted; the others may go.
pub fn is_referenced(s: &SliceManifest, id: u64) -> (b: bool)
    ensures
        b == references(*s, id),
{
    let mut l: usize = 0;
    while l < s.levels.len()
        invariant
            l <= s.levels@.len(),
            forall|a: int, r: int, k: int|
                0 <= a < l && 0 <= r < s.levels@[a]@.len() && 0 <= k
                    < s.levels@[a]@[r].tables@.len() ==> (
                #[trigger] s.levels@[a]@[r].tables@[k]).id != id,
        decreases s.levels@.len() - l,
    {
        let mut r: usize = 0;
        while r < s.levels[l].len()
            invariant
                l < s.levels@.len(),
                r <= s.levels@[l as int]@.len(),
                forall|c: int, k: int|
                    0 <= c < r && 0 <= k < s.levels@[l as int]@[c].tables@.len() ==> (
                    #[trigger] s.levels@[l as int]@[c].tables@[k]).id != id,
            decreases s.levels@[l as int]@.len() - r,
        {
            let mut k: usize = 0;
            while k < s.levels[l][r].tables.len()
                invariant
                    l < s.levels@.len(),
                    r < s.levels@[l as int]@.len(),
                    k <= s.levels@[l as int]@[r as int].tables@.len(),
                    forall|d: int|
                        0 <= d < k ==> (
                        #[trigger] s.levels@[l as int]@[r as int].tables@[d]).id != id,
                decreases s.levels@[l as int]@[r as int].tables@.len() - k,
            {
                if s.levels[l][r].tables[k].id == id {
                    return true;
                }
                k += 1;
            }
            r += 1;
        }
        proof {
            assert forall|a: int, r: int, k: int|
                0 <= a < l + 1 && 0 <= r < s.levels@[a]@.len() && 0 <= k
                    < s.levels@[a]@[r].tables@.len() implies (
            #[trigger] s.levels@[a]@[r].tables@[k]).id != id by {
                if a == l {
                    assert(s.levels@[l as int]@[r].tables@[k].id != id);
                }
            }
        }
        l += 1;
    }
    false
}

// ---------------------------------------------------------------------------
// Reads
// ---------------------------------------------------------------------------

/// Read a key of the scope: the newest version among the overlay and the
/// fragments.
pub fn get(state: &EdgeState, cfg: &EdgeConfig, key: &[u8]) -> (r: Result<Option<Vec<u8>>>)
    requires
        state.wf(),
    ensures
        !is_user_key(key@) || !in_scope_of(key@, cfg.scope_lo@, hi_view(cfg.scope_hi))
            ==> r matches Err(Error::InvalidArgument(_)),
        is_user_key(key@) && in_scope_of(key@, cfg.scope_lo@, hi_view(cfg.scope_hi)) ==> match (
        state.lookup(key@)) {
            None => r matches Err(e) && (e is Corruption || e is Io),
            Some(Some(kv)) => match crate::types::kind_of_byte(
                crate::types::kind_byte_of(kv.key),
            ) {
                Some(ValueKind::Put) => r matches Ok(Some(repr)) && repr@ == kv.repr,
                Some(ValueKind::Delete) => r matches Ok(None),
                None => r matches Err(Error::Corruption(_)),
            },
            Some(None) => r matches Ok(None),
        },
{
    validate_user_key(key)?;
    if !cfg.in_scope(key) {
        return Err(invalid("key outside this replica's scope"));
    }
    let view = ReadView {
        mem: &state.overlay,
        imms: Vec::new(),
        version: &state.version,
        visible: MAX_SEQNO,
    };
    proof {
        assert(crate::version::mems_entries(view.imms@) =~= Seq::<Seq<Kv>>::empty());
        assert(view.memtables() =~= seq![state.overlay.entries()]);
    }
    match view.get_versioned(key, MAX_SEQNO)? {
        None => Ok(None),
        Some((ValueKind::Delete, _, _)) => Ok(None),
        Some((ValueKind::Put, _, repr)) => Ok(Some(repr)),
    }
}

/// The pairs of a page are the first of these.
pub open spec fn is_page(
    out: Seq<(Vec<u8>, Vec<u8>)>,
    more: bool,
    ps: Seq<(Seq<u8>, Seq<u8>)>,
    limit: int,
) -> bool {
    let n = if limit < ps.len() {
        limit
    } else {
        ps.len() as int
    };
    &&& out.len() == n
    &&& forall|i: int| 0 <= i < n ==> ((#[trigger] out[i]).0@, out[i].1@) == ps[i]
    &&& more == (ps.len() > limit)
}

/// A page of a scan: the first `limit` pairs still to come, each key with its
/// stored representation, and whether there are more.
pub fn page<I: InternalIterator>(it: &mut MvccIter<I>, limit: usize) -> (r: Result<
    (Vec<(Vec<u8>, Vec<u8>)>, bool),
>)
    requires
        old(it).inv(),
    ensures
        match r {
            Ok((out, more)) => is_page(out@, more, old(it).pending(), limit as int)
                && final(it).inv() && final(it).pending() == old(it).pending().skip(
                out@.len() + if more {
                    1int
                } else {
                    0
                },
            ),
            Err(e) => e is Corruption && !kinds_ok(old(it).all()),
        },
        final(it).all() == old(it).all(),
{
    let ghost ps = it.pending();
    let ghost all = it.all();
    let mut out: Vec<(Vec<u8>, Vec<u8>)> = Vec::new();
    let mut done: bool = false;
    assert(ps.skip(0) =~= ps);
    while !done && out.len() < limit
        invariant
            it.inv(),
            it.all() == all,
            all == old(it).all(),
            out@.len() <= limit,
            out@.len() <= ps.len(),
            it.pending() == ps.skip(out@.len() as int),
            forall|i: int|
                0 <= i < out@.len() ==> ((#[trigger] out@[i]).0@, out@[i].1@) == ps[i],
            done ==> out@.len() == ps.len(),
        decreases limit - out@.len(), (if done {
            0int
        } else {
            1int
        }),
    {
        let ghost n = out@.len() as int;
        match it.next_visible()? {
            None => {
                done = true;
            },
            Some((k, v)) => {
                let ghost o0 = out@;
                out.push((k, v));
                proof {
                    assert(ps.skip(n)[0] == ps[n]);
                    assert(ps.skip(n).skip(1) =~= ps.skip(n + 1));
                    assert forall|i: int| 0 <= i < out@.len() implies ((
                    #[trigger] out@[i]).0@, out@[i].1@) == ps[i] by {
                        if i < n {
                            assert(out@[i] == o0[i]);
                        }
                    }
                }
            },
        }
    }
    if done {
        return Ok((out, false));
    }
    let more: bool = it.next_visible()?.is_some();
    Ok((out, more))
}

// ---------------------------------------------------------------------------
// The local value cache
// ---------------------------------------------------------------------------

/// One number for a master-side place: the value-log file and the offset.
pub open spec fn place_key(file: u64, offset: u64) -> u128 {
    (file as u128 * 0x1_0000_0000_0000_0000 + offset as u128) as u128
}

fn place_of(file: u64, offset: u64) -> (k: u128)
    ensures
        k == place_key(file, offset),
{
    file as u128 * 0x1_0000_0000_0000_0000 + offset as u128
}

/// Different places have different numbers.
pub proof fn lemma_place_key_injective(f: u64, o: u64, g: u64, p: u64)
    requires
        place_key(f, o) == place_key(g, p),
    ensures
        f == g && o == p,
{
}

/// What an edge holds of a range: the entries of its fragments, those of newer
/// runs behind those of older ones, and then those of the overlay; nothing at
/// all where a block that may hold keys of the range cannot be read.
pub open spec fn edge_kvs(state: EdgeState, lo: Seq<u8>, hi: Option<Seq<u8>>) -> Option<Seq<Kv>> {
    and_then(
        levels_kvs(state.version.levels@, 0, lo, hi),
        Some(within(state.overlay.entries(), lo, hi)),
    )
}

/// A single source is its own merge.
proof fn lemma_merged_one(es: Seq<Kv>)
    requires
        sorted(es),
    ensures
        mergeable(seq![es], false),
        merged(seq![es], false) == es,
{
    let one = seq![es];
    assert(dir_sorted(es, false)) by {
        assert forall|i: int, j: int| 0 <= i < j < es.len() implies dir_before(
            #[trigger] es[i].key,
            #[trigger] es[j].key,
            false,
        ) by {
            assert(ikey_before(es[i].key, es[j].key));
        }
    }
    assert(mergeable(one, false));
    lemma_merged(one, false);
    let m = merged(one, false);
    assert forall|kv: Kv| m.contains(kv) <==> es.contains(kv) by {
        assert(m.contains(kv) <==> in_some(one, kv));
        if es.contains(kv) {
            let i = choose|i: int| 0 <= i < es.len() && es[i] == kv;
            assert(one[0][i] == kv);
        }
        if in_some(one, kv) {
            let (k, i) = choose|k: int, i: int|
                0 <= k < one.len() && 0 <= i < one[k].len() && #[trigger] one[k][i] == kv;
            assert(es[i] == kv);
        }
    }
    lemma_same_members(m, es, false);
}

/// A page of a range, of what the fragments hold of it, and the overlay on top.
#[verifier::rlimit(40)]
fn page_over(
    state: &EdgeState,
    below: Memtable,
    lo: &[u8],
    hi: Option<Vec<u8>>,
    reverse: bool,
    limit: usize,
) -> (r: Result<(Vec<(Vec<u8>, Vec<u8>)>, bool)>)
    requires
        state.wf(),
        below.inv(),
        levels_kvs(state.version.levels@, 0, lo@, opt_view(hi)) matches Some(kvs) && holds_latest(
            kvs,
            below.entries(),
        ),
    ensures
        is_range_page(r, *state, lo@, opt_view(hi), reverse, limit as int),
{
    let ghost hi_v = opt_view(hi);
    let ghost kvs0 = levels_kvs(state.version.levels@, 0, lo@, hi_v)->Some_0;
    let mut mem = below;
    proof {
        let es = state.overlay.entries();
        assert forall|i: int| 0 <= i < es.len() implies takes(#[trigger] es[i]) by {
            assert(entry_fits(es[i]));
        }
    }
    gather_memtable(&mut mem, &state.overlay, lo, &hi, Ghost(kvs0));
    let ghost kvs = kvs0 + within(state.overlay.entries(), lo@, hi_v);
    let ghost es = mem.entries();
    let mut children: Vec<MemIter<'_>> = Vec::new();
    children.push(mem.iter());
    proof {
        lemma_merged_one(es);
        assert(children@.map_values(|c: MemIter<'_>| c.entries()) =~= seq![es]);
    }
    let mut it = DbIterator::new(children, MAX_SEQNO, lo, hi, reverse);
    let r = page(&mut it.mvcc, limit);
    assert(edge_kvs(*state, lo@, hi_v) == Some(kvs));
    assert(holds_latest(kvs, es));
    assert(is_edge_page(r, es, lo@, hi_v, reverse, limit as int));
    proof {
        lemma_is_range_page(r, *state, kvs, es, lo@, hi_v, reverse, limit as int);
    }
    r
}

proof fn lemma_is_range_page(
    r: Result<(Vec<(Vec<u8>, Vec<u8>)>, bool)>,
    state: EdgeState,
    kvs: Seq<Kv>,
    es: Seq<Kv>,
    lo: Seq<u8>,
    hi: Option<Seq<u8>>,
    reverse: bool,
    limit: int,
)
    requires
        edge_kvs(state, lo, hi) == Some(kvs),
        holds_latest(kvs, es),
        is_edge_page(r, es, lo, hi, reverse, limit),
    ensures
        is_range_page(r, state, lo, hi, reverse, limit),
{
    let got = edge_kvs(state, lo, hi)->Some_0;
    assert(holds_latest(got, es));
    assert(exists|x: Seq<Kv>| #[trigger]
        holds_latest(got, x) && is_edge_page(r, x, lo, hi, reverse, limit));
}

/// A page of the range within the scope: up to `limit` visible pairs, each key
/// with its stored representation, and whether there are more. A range outside
/// the scope gives an empty page. A block that may hold keys of the range and
/// cannot be read gives an error, unless the page is full before the scan comes
/// to it; so does an entry of an unknown kind. Nothing is asked of what the
/// fragments hold: of versions with one internal key, that of the newest source
/// counts.
pub fn scan(
    state: &EdgeState,
    cfg: &EdgeConfig,
    lo: Option<&[u8]>,
    hi: Option<&[u8]>,
    reverse: bool,
    limit: usize,
) -> (r: Result<(Vec<(Vec<u8>, Vec<u8>)>, bool)>)
    requires
        state.wf(),
    ensures
        ({
            let (l, h) = cfg.narrowed(crate::txn::opt(lo), crate::txn::opt(hi));
            if is_empty_range(l, h) {
                r matches Ok((out, more)) && out@.len() == 0 && !more
            } else if edge_kvs(*state, l, h) is Some {
                is_range_page(r, *state, l, h, reverse, limit as int)
            } else {
                is_page_to_damage(r, *state, l, h, reverse, limit as int)
            }
        }),
{
    let (lo_b, hi_b) = match cfg.narrow(lo, hi) {
        Some(x) => x,
        None => {
            return Ok((Vec::new(), false));
        },
    };
    let ghost hi_v = opt_view(hi_b);
    assert(hi_v == hi_view(hi_b));
    assert(cfg.narrowed(crate::txn::opt(lo), crate::txn::opt(hi)) == (lo_b@, hi_v));
    assert(!is_empty_range(lo_b@, hi_v));
    match gather(&state.version, lo_b.as_slice(), &hi_b) {
        Ok(mem) => page_over(state, mem, lo_b.as_slice(), hi_b, reverse, limit),
        Err(e) => page_to_damage(state, lo_b.as_slice(), hi_b, reverse, limit, e),
    }
}

/// The page of a range with damage: it has to be full before the scan comes to
/// the damage.
fn page_to_damage(
    state: &EdgeState,
    lo: &[u8],
    hi: Option<Vec<u8>>,
    reverse: bool,
    limit: usize,
    e: Error,
) -> (r: Result<(Vec<(Vec<u8>, Vec<u8>)>, bool)>)
    requires
        state.wf(),
        e is Corruption || e is Io,
    ensures
        is_page_to_damage(r, *state, lo@, opt_view(hi), reverse, limit as int),
{
    let ghost hi_v = opt_view(hi);
    let (first, last) = match damage_of(&state.version, lo, &hi) {
        Some(d) => d,
        None => {
            proof {
                lemma_sound_has_no_damage(state.version, lo@, hi_v);
            }
            return Err(e);
        },
    };
    let ghost c = if reverse {
        last@
    } else {
        first@
    };
    let (from, to): (Vec<u8>, Option<Vec<u8>>) = if reverse {
        let mut from = last;
        from.push(0);
        (from, hi)
    } else {
        (to_bytes(lo), Some(first))
    };
    let ghost cl = cut_lo(lo@, reverse, c);
    let ghost ch = cut_hi(hi_v, reverse, c);
    assert(from@ == cl && opt_view(to) == ch);
    assert(stops_at(*state, lo@, hi_v, reverse, c));
    let part = match gather(&state.version, from.as_slice(), &to) {
        Ok(mem) => page_over(state, mem, from.as_slice(), to, reverse, limit),
        Err(e) => Err(e),
    };
    let r = match part {
        Ok((out, more)) => if more {
            Ok((out, true))
        } else {
            Err(e)
        },
        Err(_) => Err(e),
    };
    proof {
        assert(is_range_page(part, *state, cl, ch, reverse, limit as int));
        if r is Ok {
            assert(part == r);
        } else {
            assert forall|d: Seq<u8>| #[trigger]
                stops_at(*state, lo@, hi_v, reverse, d) implies !fills(
                *state,
                cut_lo(lo@, reverse, d),
                cut_hi(hi_v, reverse, d),
                limit as int,
            ) by {
                lemma_one_damage(state.version, lo@, hi_v, c, d);
                lemma_not_filled(part, *state, cl, ch, reverse, limit as int);
            }
        }
    }
    r
}

/// A page that has no more behind it does not fill up.
proof fn lemma_not_filled(
    r: Result<(Vec<(Vec<u8>, Vec<u8>)>, bool)>,
    state: EdgeState,
    lo: Seq<u8>,
    hi: Option<Seq<u8>>,
    reverse: bool,
    limit: int,
)
    requires
        is_range_page(r, state, lo, hi, reverse, limit),
        r matches Ok((_, more)) ==> !more,
    ensures
        !fills(state, lo, hi, limit),
{
    if let Some(kvs) = edge_kvs(state, lo, hi) {
        let es = choose|es: Seq<Kv>| #[trigger]
            holds_latest(kvs, es) && is_edge_page(r, es, lo, hi, reverse, limit);
        assert forall|fs: Seq<Kv>| #[trigger] holds_latest(kvs, fs) implies !(kinds_ok(fs)
            && crate::mvcc::scan(fs, MAX_SEQNO as nat, lo, hi).len() > limit) by {
            assert forall|x: Kv| es.contains(x) <==> fs.contains(x) by {
                assert(es.contains(x) <==> latest_of(kvs, x));
                assert(fs.contains(x) <==> latest_of(kvs, x));
            }
            lemma_same_members(es, fs, false);
            let pairs = crate::mvcc::scan(es, MAX_SEQNO as nat, lo, hi);
            assert(pairs.reverse().len() == pairs.len());
        }
    }
}

/// Where a scan of the range comes to the damage.
pub open spec fn stops_at(
    state: EdgeState,
    lo: Seq<u8>,
    hi: Option<Seq<u8>>,
    reverse: bool,
    c: Seq<u8>,
) -> bool {
    if reverse {
        is_last_damage(state.version, lo, hi, c)
    } else {
        is_first_damage(state.version, lo, hi, c)
    }
}

/// The part of the range that a scan comes to before.
pub open spec fn cut_lo(lo: Seq<u8>, reverse: bool, c: Seq<u8>) -> Seq<u8> {
    if reverse {
        behind(c)
    } else {
        lo
    }
}

pub open spec fn cut_hi(hi: Option<Seq<u8>>, reverse: bool, c: Seq<u8>) -> Option<Seq<u8>> {
    if reverse {
        hi
    } else {
        Some(c)
    }
}

/// The range can be read and holds more than `limit` visible pairs.
pub open spec fn fills(state: EdgeState, lo: Seq<u8>, hi: Option<Seq<u8>>, limit: int) -> bool {
    edge_kvs(state, lo, hi) matches Some(kvs) && exists|es: Seq<Kv>| #[trigger]
        holds_latest(kvs, es) && kinds_ok(es) && crate::mvcc::scan(
            es,
            MAX_SEQNO as nat,
            lo,
            hi,
        ).len() > limit
}

/// The page of what an edge holds of the range, or an error where a block of it
/// cannot be read.
pub open spec fn is_range_page(
    r: Result<(Vec<(Vec<u8>, Vec<u8>)>, bool)>,
    state: EdgeState,
    lo: Seq<u8>,
    hi: Option<Seq<u8>>,
    reverse: bool,
    limit: int,
) -> bool {
    match edge_kvs(state, lo, hi) {
        None => r matches Err(e) && (e is Corruption || e is Io),
        Some(kvs) => exists|es: Seq<Kv>| #[trigger]
            holds_latest(kvs, es) && is_edge_page(r, es, lo, hi, reverse, limit),
    }
}

/// A full page of the part before the damage, with more behind it; an error where
/// that part does not fill one.
pub open spec fn is_page_to_damage(
    r: Result<(Vec<(Vec<u8>, Vec<u8>)>, bool)>,
    state: EdgeState,
    lo: Seq<u8>,
    hi: Option<Seq<u8>>,
    reverse: bool,
    limit: int,
) -> bool {
    match r {
        Ok((_, more)) => more && exists|c: Seq<u8>| #[trigger]
            stops_at(state, lo, hi, reverse, c) && is_range_page(
                r,
                state,
                cut_lo(lo, reverse, c),
                cut_hi(hi, reverse, c),
                reverse,
                limit,
            ),
        Err(e) => (e is Corruption || e is Io) && forall|c: Seq<u8>| #[trigger]
            stops_at(state, lo, hi, reverse, c) ==> !fills(
                state,
                cut_lo(lo, reverse, c),
                cut_hi(hi, reverse, c),
                limit,
            ),
    }
}

/// The page of a scan over the entries, or corruption where one of them is of an
/// unknown kind.
pub open spec fn is_edge_page(
    r: Result<(Vec<(Vec<u8>, Vec<u8>)>, bool)>,
    es: Seq<Kv>,
    lo: Seq<u8>,
    hi: Option<Seq<u8>>,
    reverse: bool,
    limit: int,
) -> bool {
    let pairs = crate::mvcc::scan(es, MAX_SEQNO as nat, lo, hi);
    match r {
        Ok((out, more)) => is_page(
            out@,
            more,
            if reverse {
                pairs.reverse()
            } else {
                pairs
            },
            limit,
        ),
        Err(e) => e is Corruption && !kinds_ok(es),
    }
}

/// Where the local copies of fetched records lie. The records themselves are
/// in one append-only file, started afresh when it would grow past its cap.
pub struct ValueCache {
    pub written: u64,
    pub cap: u64,
    pub index: HashMap<u128, (u64, u32)>,
}

impl ValueCache {
    /// Every copy lies within what was written.
    pub open spec fn wf(self) -> bool {
        forall|k: u128| #[trigger]
            self.index@.contains_key(k) ==> self.index@[k].0 + self.index@[k].1 <= self.written
    }

    pub open spec fn at(self, file: u64, offset: u64) -> Option<(u64, u32)> {
        if self.index@.contains_key(place_key(file, offset)) {
            Some(self.index@[place_key(file, offset)])
        } else {
            None
        }
    }

    pub fn new(cap: u64) -> (c: Self)
        ensures
            c.wf(),
            c.cap == cap,
            c.written == 0,
            forall|f: u64, o: u64| #[trigger] c.at(f, o) is None,
    {
        broadcast use vstd::std_specs::hash::group_hash_axioms;

        ValueCache { written: 0, cap, index: HashMap::new() }
    }

    /// Where the local copy of a record lies.
    pub fn find(&self, file: u64, offset: u64) -> (r: Option<(u64, u32)>)
        ensures
            r == self.at(file, offset),
    {
        broadcast use vstd::std_specs::hash::group_hash_axioms;

        match self.index.get(&place_of(file, offset)) {
            Some(p) => Some(*p),
            None => None,
        }
    }

    /// Make room for a record of `len` bytes: where it would pass the cap, the
    /// cache starts over. Gives whether it did.
    pub fn make_room(&mut self, len: u32) -> (reset: bool)
        requires
            old(self).wf(),
        ensures
            final(self).wf(),
            final(self).cap == old(self).cap,
            reset == (old(self).written + len > old(self).cap),
            if reset {
                final(self).written == 0 && forall|f: u64, o: u64| #[trigger]
                    final(self).at(f, o) is None
            } else {
                *final(self) == *old(self)
            },
    {
        broadcast use vstd::std_specs::hash::group_hash_axioms;

        if self.written as u128 + len as u128 > self.cap as u128 {
            self.index.clear();
            self.written = 0;
            true
        } else {
            false
        }
    }

    /// A record of `len` bytes landed at `local` of the cache file.
    pub fn insert(&mut self, file: u64, offset: u64, local: u64, len: u32)
        requires
            old(self).wf(),
            old(self).written <= local,
            local + len <= u64::MAX,
        ensures
            final(self).wf(),
            final(self).cap == old(self).cap,
            final(self).written == local + len,
            final(self).at(file, offset) == Some((local, len)),
            forall|f: u64, o: u64|
                !(f == file && o == offset) ==> #[trigger] final(self).at(f, o) == old(self).at(
                    f,
                    o,
                ),
    {
        broadcast use vstd::std_specs::hash::group_hash_axioms;

        self.index.insert(place_of(file, offset), (local, len));
        self.written = local + len as u64;
        proof {
            assert forall|f: u64, o: u64| !(f == file && o == offset) implies #[trigger] self.at(
                f,
                o,
            ) == old(self).at(f, o) by {
                if place_key(f, o) == place_key(file, offset) {
                    lemma_place_key_injective(f, o, file, offset);
                }
            }
        }
    }
}

/// Check a record that the master returned for a pointer of `len` bytes, before
/// it is served or cached: its length, its checksum and its key.
pub fn check_fetched(record: &[u8], len: u32, key: &[u8]) -> (r: Result<Vec<u8>>)
    ensures
        if record@.len() == len && (p_record(record@) matches Some((k, v)) && k == key@) {
            r matches Ok(x) && Some((key@, x@)) == p_record(record@)
        } else {
            r matches Err(Error::Corruption(_))
        },
{
    if record.len() as u64 != len as u64 {
        return Err(corrupt("master returned a record of another length"));
    }
    record_value_for(record, key)
}

/// What a reach-back gives for the fetcher's answer: the answer's own error, or
/// the value with the record it was read from, where the record passes.
pub open spec fn is_reached(
    got: Result<Vec<u8>>,
    len: u32,
    key: Seq<u8>,
    r: Result<(Vec<u8>, Vec<u8>)>,
) -> bool {
    match got {
        Err(e) => r == Err::<(Vec<u8>, Vec<u8>), Error>(e),
        Ok(rec) => if rec@.len() == len && (p_record(rec@) matches Some((k, v)) && k == key) {
            r matches Ok((value, record)) && record == rec && Some((key, value@)) == p_record(rec@)
        } else {
            r matches Err(Error::Corruption(_))
        },
    }
}

/// Settle a reach-back by the fetcher's answer.
pub fn settle_fetch(got: Result<Vec<u8>>, len: u32, key: &[u8]) -> (r: Result<(Vec<u8>, Vec<u8>)>)
    ensures
        is_reached(got, len, key@, r),
{
    match got {
        Err(e) => Err(e),
        Ok(record) => match check_fetched(record.as_slice(), len, key) {
            Ok(value) => Ok((value, record)),
            Err(e) => Err(e),
        },
    }
}

/// Reach back to the master for a value that no local copy has: the fetcher is
/// asked for the pointer's bytes, and its answer is settled. Whatever it
/// returns, only a record of the pointer's length with a matching checksum and
/// key is served.
pub fn resolve_remote<F: ValueFetcher>(
    fetcher: &F,
    file: u64,
    offset: u64,
    len: u32,
    key: &[u8],
) -> (r: Result<(Vec<u8>, Vec<u8>)>)
    ensures
        exists|got: Result<Vec<u8>>| #[trigger]
            call_ensures(F::fetch_record, (fetcher, file, offset, len), got) && is_reached(
                got,
                len,
                key@,
                r,
            ),
        r matches Ok((value, record)) ==> record@.len() == len && p_record(record@) == Some(
            (key@, value@),
        ),
{
    let got = fetcher.fetch_record(file, offset, len);
    settle_fetch(got, len, key)
}

} // verus!
