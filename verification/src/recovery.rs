//! Opening a store: which files count, what the write-ahead logs give back,
//! and what the manifest says once recovery is done.

use vstd::prelude::*;
use vstd::string::StringSliceAdditionalSpecFns;

use crate::batch::{decode_batch, EncEntry};
use crate::config::{manifest_gen_of, table_id_of, vlog_id_of, wal_id_of};
use crate::error::{corrupt, invalid, Error, Result};
use crate::gc::RetiredVlog;
use crate::identity::{validate_store_name, StoreIdentity};
use crate::install::{contains_id, retired_holds};
use crate::manifest::{ManifestData, RunMeta};
use crate::memtable::Memtable;
use crate::order::{bytes_eq, to_bytes};
use crate::types::{decode_repr, make_ikey, ReprRef, SeqNo, ValueKind, ValuePtr, MAX_SEQNO};
use crate::vlog::ScannedRecord;
use crate::wal::{read_wal, WalTail};

verus! {

use crate::batch::{enc_batch, entries_view, p_batch, Entry, lemma_batch_roundtrip};
use crate::commit::batch_kvs;
use crate::config::{
    current_file, lemma_names_apart, manifest_file, p_manifest_name, p_table_name, p_vlog_name,
    p_wal_name, table_file, vlog_file, wal_file,
};
use crate::identity::{fork_id, name_ok, root_id};
use crate::install::is_retired;
use crate::iter::{sorted, Kv};
use crate::memtable::upserted;
use crate::types::{lemma_entry_ikey, p_repr, Repr};
use crate::vlog::{scanned_view, Scanned};
use vstd::utf8::encode_utf8;
use crate::wal::{loggable, payloads_view, wal_records, wal_valid_len};

// ---------------------------------------------------------------------------
// Replay
// ---------------------------------------------------------------------------

/// A value-log file that may have been written to since the manifest was
/// saved, with the records of its valid prefix.
pub struct YoungFile {
    pub id: u64,
    pub records: Vec<ScannedRecord>,
}

/// The same over plain values.
pub struct Young {
    pub id: u64,
    pub records: Seq<Scanned>,
}

pub open spec fn young_view(ys: Seq<YoungFile>) -> Seq<Young> {
    ys.map_values(|y: YoungFile| Young { id: y.id, records: scanned_view(y.records@) })
}

/// What is known of the value log: the young files, and the ids of all files
/// that pointers may lead to.
pub struct Known {
    pub young: Seq<Young>,
    pub ids: Seq<u64>,
}

pub open spec fn young_holds(ys: Seq<Young>, f: u64) -> bool {
    exists|i: int| 0 <= i < ys.len() && (#[trigger] ys[i]).id == f
}

/// The record that the pointer names is in the valid prefix of the young file.
pub open spec fn record_there(ys: Seq<Young>, p: ValuePtr, key: Seq<u8>) -> bool {
    exists|i: int, j: int|
        0 <= i < ys.len() && 0 <= j < ys[i].records.len() && ys[i].id == p.file && (
        #[trigger] ys[i].records[j]).offset == p.offset && ys[i].records[j].len == p.len
            && ys[i].records[j].key == key
}

/// What replay makes of an entry.
pub enum Seen {
    /// It can be applied.
    Fine,
    /// It points at a payload that never became durable.
    Lost,
    /// It cannot be read, or points into a file that is not there.
    Bad,
}

pub open spec fn entry_seen(k: Known, e: Entry) -> Seen {
    match e.kind {
        ValueKind::Delete => Seen::Fine,
        ValueKind::Put => match p_repr(e.repr) {
            None => Seen::Bad,
            Some(Repr::Inline(_)) => Seen::Fine,
            Some(Repr::Ptr(p)) => if young_holds(k.young, p.file) {
                if record_there(k.young, p, e.key) {
                    Seen::Fine
                } else {
                    Seen::Lost
                }
            } else if k.ids.contains(p.file) {
                Seen::Fine
            } else {
                Seen::Bad
            },
        },
    }
}

/// The first of the entries that is not fine decides.
pub open spec fn entries_seen(k: Known, es: Seq<Entry>, n: int) -> Seen
    decreases n,
{
    if n <= 0 {
        Seen::Fine
    } else {
        match entries_seen(k, es, n - 1) {
            Seen::Fine => entry_seen(k, es[n - 1]),
            other => other,
        }
    }
}

/// How replay stands: it goes on, it stopped for good, or the log is damaged.
pub enum Stand {
    Goes,
    /// Everything from here on is torn-tail loss.
    Cut,
    /// The newest log ends in a torn record: its valid length.
    Torn { id: u64, valid_len: nat },
    Damaged,
}

/// The batches replay has taken, and how it stands.
pub struct Replayed {
    pub batches: Seq<(u64, Seq<Entry>)>,
    pub stand: Stand,
}

/// One more record.
pub open spec fn replay_record(k: Known, r: Replayed, payload: Seq<u8>) -> Replayed {
    match p_batch(payload) {
        None => Replayed { batches: r.batches, stand: Stand::Damaged },
        Some((base, es)) => if base + es.len() > MAX_SEQNO {
            Replayed { batches: r.batches, stand: Stand::Damaged }
        } else {
            match entries_seen(k, es, es.len() as int) {
                Seen::Fine => Replayed { batches: r.batches.push((base, es)), stand: Stand::Goes },
                Seen::Lost => Replayed { batches: r.batches, stand: Stand::Cut },
                Seen::Bad => Replayed { batches: r.batches, stand: Stand::Damaged },
            }
        },
    }
}

/// The first `n` records of one log.
pub open spec fn replay_records(k: Known, r: Replayed, recs: Seq<Seq<u8>>, n: int) -> Replayed
    decreases n,
{
    if n <= 0 {
        r
    } else {
        let before = replay_records(k, r, recs, n - 1);
        if before.stand is Goes {
            replay_record(k, before, recs[n - 1])
        } else {
            before
        }
    }
}

/// One log: its records, then its tail. A torn tail is legitimate in the newest
/// log only; a sealed one was synced whole.
pub open spec fn replay_wal(k: Known, r: Replayed, id: u64, bytes: Seq<u8>, newest: bool) -> Replayed {
    let recs = wal_records(bytes);
    let done = replay_records(k, r, recs, recs.len() as int);
    if !(done.stand is Goes) {
        done
    } else if wal_valid_len(bytes) == bytes.len() {
        done
    } else if newest {
        Replayed {
            batches: done.batches,
            stand: Stand::Torn { id, valid_len: wal_valid_len(bytes) },
        }
    } else {
        Replayed { batches: done.batches, stand: Stand::Damaged }
    }
}

/// The first `n` logs, oldest first.
pub open spec fn replay_wals(k: Known, wals: Seq<(u64, Seq<u8>)>, n: int) -> Replayed
    decreases n,
{
    if n <= 0 {
        Replayed { batches: Seq::empty(), stand: Stand::Goes }
    } else {
        let before = replay_wals(k, wals, n - 1);
        if before.stand is Goes {
            replay_wal(k, before, wals[n - 1].0, wals[n - 1].1, n == wals.len())
        } else {
            before
        }
    }
}

/// The versions of the batches, in order.
pub open spec fn all_kvs(batches: Seq<(u64, Seq<Entry>)>) -> Seq<Kv>
    decreases batches.len(),
{
    if batches.len() == 0 {
        Seq::empty()
    } else {
        all_kvs(batches.drop_last()) + batch_kvs(batches.last().0, batches.last().1)
    }
}

/// `x` is among `kvs`, and nothing after it has its key.
pub open spec fn latest_of(kvs: Seq<Kv>, x: Kv) -> bool {
    exists|i: int|
        0 <= i < kvs.len() && #[trigger] kvs[i] == x && forall|j: int|
            i < j < kvs.len() ==> (#[trigger] kvs[j]).key != x.key
}

/// `es` is what inserting `kvs` in order leaves.
pub open spec fn holds_latest(kvs: Seq<Kv>, es: Seq<Kv>) -> bool {
    &&& sorted(es)
    &&& forall|x: Kv| #[trigger] es.contains(x) <==> latest_of(kvs, x)
}

/// The highest seqno of the batches, or `least` where that is higher.
pub open spec fn highest_seq(batches: Seq<(u64, Seq<Entry>)>, least: u64) -> u64
    decreases batches.len(),
{
    if batches.len() == 0 {
        least
    } else {
        let m = highest_seq(batches.drop_last(), least);
        let b = batches.last();
        if b.1.len() > 0 && b.0 + b.1.len() - 1 > m {
            (b.0 + b.1.len() - 1) as u64
        } else {
            m
        }
    }
}

pub proof fn lemma_insert_latest(kvs: Seq<Kv>, kv: Kv, es: Seq<Kv>, es2: Seq<Kv>)
    requires
        holds_latest(kvs, es),
        upserted(es, kv, es2),
    ensures
        holds_latest(kvs.push(kv), es2),
{
    let ks = kvs.push(kv);
    assert forall|x: Kv| #[trigger] es2.contains(x) <==> latest_of(ks, x) by {
        assert(es2.contains(x) <==> x == kv || (es.contains(x) && x.key != kv.key));
        if x == kv {
            assert(ks[kvs.len() as int] == x);
        }
        if es.contains(x) && x.key != kv.key {
            assert(latest_of(kvs, x));
            let i = choose|i: int|
                0 <= i < kvs.len() && #[trigger] kvs[i] == x && forall|j: int|
                    i < j < kvs.len() ==> (#[trigger] kvs[j]).key != x.key;
            assert(ks[i] == x);
            assert forall|j: int| i < j < ks.len() implies (#[trigger] ks[j]).key != x.key by {
                if j < kvs.len() {
                    assert(ks[j] == kvs[j]);
                }
            }
        }
        if latest_of(ks, x) && x != kv {
            let i = choose|i: int|
                0 <= i < ks.len() && #[trigger] ks[i] == x && forall|j: int|
                    i < j < ks.len() ==> (#[trigger] ks[j]).key != x.key;
            assert(i < kvs.len());
            assert(ks[kvs.len() as int].key != x.key);
            assert(kvs[i] == x);
            assert forall|j: int| i < j < kvs.len() implies (#[trigger] kvs[j]).key != x.key by {
                assert(ks[j] == kvs[j]);
            }
            assert(latest_of(kvs, x));
        }
    }
}

fn young_index(young: &Vec<YoungFile>, f: u64) -> (b: bool)
    ensures
        b == young_holds(young_view(young@), f),
{
    let mut i: usize = 0;
    let ghost ys = young_view(young@);
    while i < young.len()
        invariant
            i <= young@.len(),
            ys == young_view(young@),
            forall|k: int| 0 <= k < i ==> (#[trigger] ys[k]).id != f,
        decreases young@.len() - i,
    {
        assert(ys[i as int].id == young@[i as int].id);
        if young[i].id == f {
            return true;
        }
        i += 1;
    }
    false
}

fn find_record(young: &Vec<YoungFile>, p: &ValuePtr, key: &[u8]) -> (b: bool)
    ensures
        b == record_there(young_view(young@), *p, key@),
{
    let mut i: usize = 0;
    let ghost ys = young_view(young@);
    while i < young.len()
        invariant
            i <= young@.len(),
            ys == young_view(young@),
            forall|a: int, c: int|
                0 <= a < i && 0 <= c < ys[a].records.len() ==> !(ys[a].id == p.file && (
                #[trigger] ys[a].records[c]).offset == p.offset && ys[a].records[c].len == p.len
                    && ys[a].records[c].key == key@),
        decreases young@.len() - i,
    {
        let y = &young[i];
        assert(ys[i as int].id == y.id);
        assert(ys[i as int].records == scanned_view(y.records@));
        if y.id == p.file {
            let mut j: usize = 0;
            while j < y.records.len()
                invariant
                    i < young@.len(),
                    j <= y.records@.len(),
                    ys == young_view(young@),
                    *y == young@[i as int],
                    y.id == p.file,
                    ys[i as int].id == y.id,
                    ys[i as int].records == scanned_view(y.records@),
                    forall|c: int|
                        0 <= c < j ==> !((#[trigger] ys[i as int].records[c]).offset == p.offset
                            && ys[i as int].records[c].len == p.len && ys[i as int].records[c].key
                            == key@),
                decreases y.records@.len() - j,
            {
                let r = &y.records[j];
                assert(ys[i as int].records[j as int] == r@);
                if r.offset == p.offset && r.len == p.len && bytes_eq(r.key.as_slice(), key) {
                    return true;
                }
                j += 1;
            }
        }
        i += 1;
    }
    false
}

/// Check the entries of a batch.
fn check_entries(entries: &Vec<EncEntry>, young: &Vec<YoungFile>, ids: &Vec<u64>) -> (r: Result<
    bool,
>)
    ensures
        ({
            let k = Known { young: young_view(young@), ids: ids@ };
            match entries_seen(k, entries_view(entries@), entries@.len() as int) {
                Seen::Fine => r matches Ok(true),
                Seen::Lost => r matches Ok(false),
                Seen::Bad => r matches Err(Error::Corruption(_)),
            }
        }),
{
    let ghost k = Known { young: young_view(young@), ids: ids@ };
    let ghost es = entries_view(entries@);
    let mut i: usize = 0;
    while i < entries.len()
        invariant
            i <= entries@.len(),
            es == entries_view(entries@),
            k == (Known { young: young_view(young@), ids: ids@ }),
            entries_seen(k, es, i as int) is Fine,
        decreases entries@.len() - i,
    {
        let e = &entries[i];
        proof {
            assert(es[i as int] == e@);
            if !(entry_seen(k, e@) is Fine) {
                lemma_seen_decided(k, es, i + 1, es.len() as int);
            }
        }
        if matches!(e.kind, ValueKind::Put) {
            match decode_repr(e.repr.as_slice())? {
                ReprRef::Inline(_) => {},
                ReprRef::Ptr(p) => {
                    if young_index(young, p.file) {
                        if !find_record(young, &p, e.key.as_slice()) {
                            return Ok(false);
                        }
                    } else if !contains_id(ids, p.file) {
                        return Err(corrupt("wal references unknown vlog file"));
                    }
                },
            }
        }
        i += 1;
    }
    Ok(true)
}

proof fn lemma_seen_decided(k: Known, es: Seq<Entry>, n: int, m: int)
    requires
        0 <= n <= m,
        !(entries_seen(k, es, n) is Fine),
    ensures
        entries_seen(k, es, m) == entries_seen(k, es, n),
    decreases m - n,
{
    if n < m {
        lemma_seen_decided(k, es, n, m - 1);
    }
}

/// Insert the entries of a replayed batch.
fn replay_entries(mem: &mut Memtable, base: SeqNo, entries: &Vec<EncEntry>, Ghost(kvs): Ghost<Seq<Kv>>)
    requires
        old(mem).inv(),
        holds_latest(kvs, old(mem).entries()),
        base + entries@.len() <= MAX_SEQNO,
        forall|i: int|
            0 <= i < entries@.len() ==> (#[trigger] entries@[i]).key@.len()
                + entries@[i].repr@.len() + 128 <= usize::MAX,
    ensures
        final(mem).inv(),
        final(mem).wal() == old(mem).wal(),
        holds_latest(kvs + batch_kvs(base, entries_view(entries@)), final(mem).entries()),
{
    let ghost es = entries_view(entries@);
    let ghost bk = batch_kvs(base, es);
    let mut i: usize = 0;
    assert(kvs + bk.take(0) =~= kvs);
    while i < entries.len()
        invariant
            i <= entries@.len(),
            es == entries_view(entries@),
            bk == batch_kvs(base, es),
            mem.inv(),
            mem.wal() == old(mem).wal(),
            base + entries@.len() <= MAX_SEQNO,
            forall|i: int|
                0 <= i < entries@.len() ==> (#[trigger] entries@[i]).key@.len()
                    + entries@[i].repr@.len() + 128 <= usize::MAX,
            holds_latest(kvs + bk.take(i as int), mem.entries()),
        decreases entries@.len() - i,
    {
        let ghost cur = mem.entries();
        let ik = make_ikey(entries[i].key.as_slice(), base + i as u64, entries[i].kind);
        let repr = to_bytes(entries[i].repr.as_slice());
        proof {
            assert(es[i as int] == entries@[i as int]@);
            lemma_entry_ikey(es[i as int].key, (base + i) as u64, es[i as int].kind);
            crate::commit::lemma_entry_len(
                es[i as int].key,
                (base + i) as u64,
                es[i as int].kind,
            );
        }
        mem.insert(ik, repr);
        proof {
            lemma_insert_latest(kvs + bk.take(i as int), bk[i as int], cur, mem.entries());
            assert(kvs + bk.take(i + 1) =~= (kvs + bk.take(i as int)).push(bk[i as int]));
        }
        i += 1;
    }
    assert(bk.take(i as int) =~= bk);
}

/// What replay gives back.
pub struct Recovered {
    /// Holds everything that was replayed; tagged with the newest log's id, so
    /// that flushing it moves the floor past every replayed log at once.
    pub mem: Memtable,
    pub max_seq: SeqNo,
    /// A log to cut to its valid prefix before a newer one exists: as soon as
    /// it is no longer the newest, a torn tail would count as damage.
    pub truncate: Option<(u64, u64)>,
}

pub open spec fn wals_view(ws: Seq<(u64, Vec<u8>)>) -> Seq<(u64, Seq<u8>)> {
    ws.map_values(|w: (u64, Vec<u8>)| (w.0, w.1@))
}

proof fn lemma_records_bounded(s: Seq<u8>)
    ensures
        forall|i: int|
            0 <= i < wal_records(s).len() ==> (#[trigger] wal_records(s)[i]).len()
                <= crate::wal::MAX_RECORD,
    decreases s.len(),
{
    if crate::wal::wal_head_valid(s) {
        let n = crate::wal::announced_len(s) as int;
        let t = wal_records(s.skip(8 + n));
        lemma_records_bounded(s.skip(8 + n));
        assert forall|i: int| 0 <= i < wal_records(s).len() implies (
        #[trigger] wal_records(s)[i]).len() <= crate::wal::MAX_RECORD by {
            if i > 0 {
                assert(wal_records(s)[i] == t[i - 1]);
            }
        }
    }
}

proof fn lemma_all_kvs_push(batches: Seq<(u64, Seq<Entry>)>, b: (u64, Seq<Entry>))
    ensures
        all_kvs(batches.push(b)) == all_kvs(batches) + batch_kvs(b.0, b.1),
{
    assert(batches.push(b).drop_last() =~= batches);
}

/// Once replay has stopped, no later record changes anything.
proof fn lemma_records_decided(k: Known, r: Replayed, recs: Seq<Seq<u8>>, n: int, m: int)
    requires
        0 <= n <= m,
        !(replay_records(k, r, recs, n).stand is Goes),
    ensures
        replay_records(k, r, recs, m) == replay_records(k, r, recs, n),
    decreases m - n,
{
    if n < m {
        lemma_records_decided(k, r, recs, n, m - 1);
    }
}

proof fn lemma_wals_decided(k: Known, wals: Seq<(u64, Seq<u8>)>, n: int, m: int)
    requires
        0 <= n <= m,
        !(replay_wals(k, wals, n).stand is Goes),
    ensures
        replay_wals(k, wals, m) == replay_wals(k, wals, n),
    decreases m - n,
{
    if n < m {
        lemma_wals_decided(k, wals, n, m - 1);
    }
}

/// Replay one log into the memtable. Gives whether to go on.
#[verifier::rlimit(40)]
fn replay_one(
    mem: &mut Memtable,
    max_seq: &mut SeqNo,
    payloads: &Vec<Vec<u8>>,
    young: &Vec<YoungFile>,
    ids: &Vec<u64>,
    Ghost(r): Ghost<Replayed>,
    Ghost(least): Ghost<u64>,
) -> (out: Result<bool>)
    requires
        old(mem).inv(),
        r.stand is Goes,
        holds_latest(all_kvs(r.batches), old(mem).entries()),
        *old(max_seq) == highest_seq(r.batches, least),
        forall|i: int|
            0 <= i < payloads@.len() ==> (#[trigger] payloads@[i])@.len()
                <= crate::wal::MAX_RECORD,
    ensures
        final(mem).inv(),
        final(mem).wal() == old(mem).wal(),
        ({
            let k = Known { young: young_view(young@), ids: ids@ };
            let done = replay_records(k, r, payloads_view(payloads@), payloads@.len() as int);
            match out {
                Ok(goes) => {
                    &&& goes == (done.stand is Goes)
                    &&& !goes ==> done.stand is Cut
                    &&& holds_latest(all_kvs(done.batches), final(mem).entries())
                    &&& *final(max_seq) == highest_seq(done.batches, least)
                },
                Err(e) => e is Corruption && done.stand is Damaged,
            }
        }),
{
    let ghost k = Known { young: young_view(young@), ids: ids@ };
    let ghost recs = payloads_view(payloads@);
    let mut i: usize = 0;
    while i < payloads.len()
        invariant
            i <= payloads@.len(),
            k == (Known { young: young_view(young@), ids: ids@ }),
            recs == payloads_view(payloads@),
            r.stand is Goes,
            replay_records(k, r, recs, i as int).stand is Goes,
            mem.inv(),
            mem.wal() == old(mem).wal(),
            holds_latest(all_kvs(replay_records(k, r, recs, i as int).batches), mem.entries()),
            *max_seq == highest_seq(replay_records(k, r, recs, i as int).batches, least),
            forall|i: int|
                0 <= i < payloads@.len() ==> (#[trigger] payloads@[i])@.len()
                    <= crate::wal::MAX_RECORD,
        decreases payloads@.len() - i,
    {
        let ghost before = replay_records(k, r, recs, i as int);
        let ghost after = replay_records(k, r, recs, i + 1);
        proof {
            assert(recs[i as int] == payloads@[i as int]@);
            assert(after == replay_record(k, before, recs[i as int]));
            if !(after.stand is Goes) {
                lemma_records_decided(k, r, recs, i + 1, recs.len() as int);
            }
            crate::batch::lemma_batch_bounded(recs[i as int]);
        }
        let (base, entries) = match decode_batch(payloads[i].as_slice()) {
            Ok(b) => b,
            Err(e) => {
                return Err(e);
            },
        };
        let ghost es = entries_view(entries@);
        proof {
            assert(es.len() == entries@.len());
            assert forall|x: int| 0 <= x < entries@.len() implies (#[trigger] entries@[x]).key@.len()
                + entries@[x].repr@.len() + 128 <= usize::MAX by {
                assert(es[x] == entries@[x]@);
            }
        }
        let count: usize = entries.len();
        if base > MAX_SEQNO || count as u64 > MAX_SEQNO - base {
            return Err(corrupt("wal batch runs past the last seqno"));
        }
        match check_entries(&entries, young, ids) {
            Ok(true) => {},
            Ok(false) => {
                return Ok(false);
            },
            Err(e) => {
                return Err(e);
            },
        }
        replay_entries(mem, base, &entries, Ghost(all_kvs(before.batches)));
        if count > 0 && base + (count as u64 - 1) > *max_seq {
            *max_seq = base + (count as u64 - 1);
        }
        proof {
            lemma_all_kvs_push(before.batches, (base, es));
            assert(after.batches.drop_last() =~= before.batches);
        }
        i += 1;
    }
    Ok(true)
}

/// Replay the logs, oldest first, into a fresh memtable. A pointer whose
/// payload never became durable ends replay there: what follows is torn-tail
/// loss. A torn tail of the newest log is cut off. Anything else that cannot be
/// read is corruption, and nothing is recovered.
pub fn replay(
    wals: &Vec<(u64, Vec<u8>)>,
    young: &Vec<YoungFile>,
    ids: &Vec<u64>,
    last_flushed: SeqNo,
) -> (out: Result<Recovered>)
    ensures
        ({
            let k = Known { young: young_view(young@), ids: ids@ };
            let done = replay_wals(k, wals_view(wals@), wals@.len() as int);
            match out {
                Ok(rec) => {
                    &&& !(done.stand is Damaged)
                    &&& rec.mem.inv()
                    &&& rec.mem.wal() == (if wals@.len() > 0 {
                        wals@.last().0
                    } else {
                        0
                    })
                    &&& holds_latest(all_kvs(done.batches), rec.mem.entries())
                    &&& rec.max_seq == highest_seq(done.batches, last_flushed)
                    &&& match done.stand {
                        Stand::Torn { id, valid_len } => rec.truncate matches Some((i, n)) && i == id
                            && n == valid_len,
                        _ => rec.truncate is None,
                    }
                },
                Err(e) => e is Corruption && done.stand is Damaged,
            }
        }),
{
    let ghost k = Known { young: young_view(young@), ids: ids@ };
    let ghost ws = wals_view(wals@);
    let tag: u64 = if wals.len() > 0 {
        wals[wals.len() - 1].0
    } else {
        0
    };
    let mut mem = Memtable::new(tag);
    let mut max_seq: u64 = last_flushed;
    let mut i: usize = 0;
    proof {
        assert forall|x: Kv| #[trigger] mem.entries().contains(x) <==> latest_of(Seq::<Kv>::empty(), x) by {}
    }
    while i < wals.len()
        invariant
            i <= wals@.len(),
            k == (Known { young: young_view(young@), ids: ids@ }),
            ws == wals_view(wals@),
            tag == (if wals@.len() > 0 {
                wals@.last().0
            } else {
                0
            }),
            replay_wals(k, ws, i as int).stand is Goes,
            mem.inv(),
            mem.wal() == tag,
            holds_latest(all_kvs(replay_wals(k, ws, i as int).batches), mem.entries()),
            max_seq == highest_seq(replay_wals(k, ws, i as int).batches, last_flushed),
        decreases wals@.len() - i,
    {
        let ghost before = replay_wals(k, ws, i as int);
        let ghost after = replay_wals(k, ws, i + 1);
        let ghost bytes = wals@[i as int].1@;
        proof {
            assert(ws[i as int] == (wals@[i as int].0, bytes));
            assert(ws.len() == wals@.len());
            lemma_records_bounded(bytes);
            if !(after.stand is Goes) {
                lemma_wals_decided(k, ws, i + 1, ws.len() as int);
            }
        }
        let (payloads, tail) = read_wal(wals[i].1.as_slice());
        proof {
            assert forall|x: int| 0 <= x < payloads@.len() implies (#[trigger] payloads@[x])@.len()
                <= crate::wal::MAX_RECORD by {
                assert(wal_records(bytes)[x] == payloads@[x]@);
            }
            assert(wal_records(bytes).len() == payloads@.len());
            lemma_valid_len(bytes);
            assert(wals@[i as int].1.len() == bytes.len());
        }
        match replay_one(
            &mut mem,
            &mut max_seq,
            &payloads,
            young,
            ids,
            Ghost(before),
            Ghost(last_flushed),
        ) {
            Ok(true) => {},
            Ok(false) => {
                return Ok(Recovered { mem, max_seq, truncate: None });
            },
            Err(e) => {
                return Err(e);
            },
        }
        match tail {
            WalTail::Clean => {},
            WalTail::Torn { valid_len } => {
                if i == wals.len() - 1 {
                    return Ok(Recovered { mem, max_seq, truncate: Some((wals[i].0, valid_len)) });
                }
                return Err(corrupt("sealed wal damaged"));
            },
        }
        i += 1;
    }
    Ok(Recovered { mem, max_seq, truncate: None })
}

proof fn lemma_valid_len(s: Seq<u8>)
    ensures
        wal_valid_len(s) <= s.len(),
    decreases s.len(),
{
    if crate::wal::wal_head_valid(s) {
        lemma_valid_len(s.skip(8 + crate::wal::announced_len(s) as int));
    }
}

/// The log records of batches.
pub open spec fn batch_records(batches: Seq<(u64, Seq<Entry>)>) -> Seq<Seq<u8>> {
    batches.map_values(|b: (u64, Seq<Entry>)| enc_batch(b.0, b.1))
}

/// A batch that the write path may have logged, and whose payloads are there.
pub open spec fn recoverable(k: Known, b: (u64, Seq<Entry>)) -> bool {
    &&& b.1.len() <= u32::MAX
    &&& b.0 + b.1.len() <= MAX_SEQNO
    &&& loggable(enc_batch(b.0, b.1))
    &&& forall|i: int|
        0 <= i < b.1.len() ==> (#[trigger] b.1[i]).key.len() <= u64::MAX && b.1[i].repr.len()
            <= u64::MAX
    &&& entries_seen(k, b.1, b.1.len() as int) is Fine
}

pub proof fn lemma_replay_takes(k: Known, r: Replayed, batches: Seq<(u64, Seq<Entry>)>, n: int)
    requires
        r.stand is Goes,
        forall|i: int| 0 <= i < batches.len() ==> recoverable(k, #[trigger] batches[i]),
        0 <= n <= batches.len(),
    ensures
        replay_records(k, r, batch_records(batches), n).stand is Goes,
        replay_records(k, r, batch_records(batches), n).batches == r.batches + batches.take(n),
    decreases n,
{
    if n > 0 {
        lemma_replay_takes(k, r, batches, n - 1);
        let b = batches[n - 1];
        assert(recoverable(k, batches[n - 1]));
        lemma_batch_roundtrip(b.0, b.1);
        assert(batch_records(batches)[n - 1] == enc_batch(b.0, b.1));
        assert(batches.take(n) =~= batches.take(n - 1).push(b));
        assert(r.batches + batches.take(n) =~= (r.batches + batches.take(n - 1)).push(b));
    } else {
        assert(r.batches + batches.take(0) =~= r.batches);
    }
}

// ---------------------------------------------------------------------------
// The directory
// ---------------------------------------------------------------------------

/// A file of the directory that the store knows by its name.
#[derive(Clone, Copy, PartialEq, Eq, Structural)]
pub enum FileKind {
    Wal(u64),
    Table(u64),
    Vlog(u64),
    Manifest(u64),
    Other,
}

/// What a name stands for.
pub open spec fn kind_of_name(name: Seq<u8>) -> FileKind {
    if p_table_name(name) is Some {
        FileKind::Table(p_table_name(name)->Some_0)
    } else if p_vlog_name(name) is Some {
        FileKind::Vlog(p_vlog_name(name)->Some_0)
    } else if p_wal_name(name) is Some {
        FileKind::Wal(p_wal_name(name)->Some_0)
    } else if p_manifest_name(name) is Some {
        FileKind::Manifest(p_manifest_name(name)->Some_0)
    } else {
        FileKind::Other
    }
}

pub fn classify(name: &[u8]) -> (k: FileKind)
    ensures
        k == kind_of_name(name@),
{
    if let Some(id) = table_id_of(name) {
        return FileKind::Table(id);
    }
    if let Some(id) = vlog_id_of(name) {
        return FileKind::Vlog(id);
    }
    if let Some(id) = wal_id_of(name) {
        return FileKind::Wal(id);
    }
    if let Some(gen) = manifest_gen_of(name) {
        return FileKind::Manifest(gen);
    }
    FileKind::Other
}

/// Some run of the manifest has the table.
pub open spec fn table_listed(levels: Seq<Vec<RunMeta>>, id: u64) -> bool {
    exists|l: int, r: int|
        0 <= l < levels.len() && 0 <= r < levels[l]@.len() && (
        #[trigger] levels[l]@[r]).table_ids@.contains(id)
}

fn lists_table(data: &ManifestData, id: u64) -> (b: bool)
    ensures
        b == table_listed(data.levels@, id),
{
    let mut l: usize = 0;
    while l < data.levels.len()
        invariant
            l <= data.levels@.len(),
            forall|a: int, r: int|
                0 <= a < l && 0 <= r < data.levels@[a]@.len() ==> !(
                #[trigger] data.levels@[a]@[r]).table_ids@.contains(id),
        decreases data.levels@.len() - l,
    {
        let mut r: usize = 0;
        while r < data.levels[l].len()
            invariant
                l < data.levels@.len(),
                r <= data.levels@[l as int]@.len(),
                forall|c: int|
                    0 <= c < r ==> !(#[trigger] data.levels@[l as int]@[c]).table_ids@.contains(id),
            decreases data.levels@[l as int]@.len() - r,
        {
            if contains_id(&data.levels[l][r].table_ids, id) {
                assert(data.levels@[l as int]@[r as int].table_ids@.contains(id));
                return true;
            }
            r += 1;
        }
        l += 1;
    }
    false
}

/// A file that nothing durable refers to.
pub open spec fn is_garbage(data: ManifestData, gen: u64, k: FileKind) -> bool {
    match k {
        FileKind::Table(id) => !table_listed(data.levels@, id),
        FileKind::Vlog(id) => !data.vlog_live@.contains(id) && !is_retired(
            data.vlog_retired@,
            id,
        ),
        FileKind::Wal(id) => id < data.wal_floor,
        FileKind::Manifest(g) => g != gen,
        FileKind::Other => false,
    }
}

/// What opening deletes, by the files' names and the manifest's lists: of the
/// tables those that no run names, of the value log those that are neither live
/// nor retired, of the logs those below the floor, and of the manifests all but
/// the current one.
#[verifier::rlimit(50)]
pub proof fn lemma_startup_deletes(data: ManifestData, gen: u64, name: Seq<u8>)
    ensures
        ({
            let b = is_garbage(data, gen, kind_of_name(name));
            &&& forall|id: u64|
                name == #[trigger] table_file(id) ==> (b <==> forall|l: int, r: int|
                    0 <= l < data.levels@.len() && 0 <= r < data.levels@[l]@.len() ==> !(
                    #[trigger] data.levels@[l]@[r]).table_ids@.contains(id))
            &&& forall|id: u64|
                name == #[trigger] vlog_file(id) ==> (b <==> !data.vlog_live@.contains(id)
                    && forall|i: int|
                    0 <= i < data.vlog_retired@.len() ==> (#[trigger] data.vlog_retired@[i]).0
                        != id)
            &&& forall|id: u64| name == #[trigger] wal_file(id) ==> (b <==> id < data.wal_floor)
            &&& forall|g: u64| name == #[trigger] manifest_file(g) ==> (b <==> g != gen)
            &&& name == current_file() ==> !b
        }),
{
    let b = is_garbage(data, gen, kind_of_name(name));
    assert forall|id: u64| name == #[trigger] table_file(id) implies (b <==> forall|l: int, r: int|
        0 <= l < data.levels@.len() && 0 <= r < data.levels@[l]@.len() ==> !(
        #[trigger] data.levels@[l]@[r]).table_ids@.contains(id)) by {
        lemma_names_apart(id);
    }
    assert forall|id: u64| name == #[trigger] vlog_file(id) implies (b
        <==> !data.vlog_live@.contains(id) && forall|i: int|
        0 <= i < data.vlog_retired@.len() ==> (#[trigger] data.vlog_retired@[i]).0 != id) by {
        lemma_names_apart(id);
    }
    assert forall|id: u64| name == #[trigger] wal_file(id) implies (b <==> id < data.wal_floor) by {
        lemma_names_apart(id);
    }
    assert forall|g: u64| name == #[trigger] manifest_file(g) implies (b <==> g != gen) by {
        lemma_names_apart(g);
    }
    lemma_names_apart(0);
}

/// Whether opening deletes the file: tables and value-log files the manifest
/// does not list, logs below the floor, manifests other than the current one.
#[verifier::rlimit(50)]
pub fn startup_gc(data: &ManifestData, gen: u64, name: &[u8]) -> (b: bool)
    ensures
        b == is_garbage(*data, gen, kind_of_name(name@)),
        forall|id: u64|
            name@ == #[trigger] table_file(id) ==> (b <==> forall|l: int, r: int|
                0 <= l < data.levels@.len() && 0 <= r < data.levels@[l]@.len() ==> !(
                #[trigger] data.levels@[l]@[r]).table_ids@.contains(id)),
        forall|id: u64|
            name@ == #[trigger] vlog_file(id) ==> (b <==> !data.vlog_live@.contains(id)
                && forall|i: int|
                0 <= i < data.vlog_retired@.len() ==> (#[trigger] data.vlog_retired@[i]).0 != id),
        forall|id: u64| name@ == #[trigger] wal_file(id) ==> (b <==> id < data.wal_floor),
        forall|g: u64| name@ == #[trigger] manifest_file(g) ==> (b <==> g != gen),
        name@ == current_file() ==> !b,
{
    proof {
        lemma_startup_deletes(*data, gen, name@);
    }
    match classify(name) {
        FileKind::Table(id) => !lists_table(data, id),
        FileKind::Vlog(id) => !contains_id(&data.vlog_live, id) && !retired_holds(
            &data.vlog_retired,
            id,
        ),
        FileKind::Wal(id) => id < data.wal_floor,
        FileKind::Manifest(g) => g != gen,
        FileKind::Other => false,
    }
}

#[verifier::rlimit(50)]
proof fn lemma_only_logs(name: Seq<u8>)
    ensures
        forall|id: u64| name == #[trigger] wal_file(id) ==> p_wal_name(name) == Some(id),
        forall|id: u64| name == #[trigger] table_file(id) ==> p_wal_name(name) is None,
        forall|id: u64| name == #[trigger] vlog_file(id) ==> p_wal_name(name) is None,
        forall|id: u64| name == #[trigger] manifest_file(id) ==> p_wal_name(name) is None,
{
    assert forall|id: u64| name == #[trigger] wal_file(id) implies p_wal_name(name) == Some(
        id,
    ) by {
        lemma_names_apart(id);
    }
    assert forall|id: u64| name == #[trigger] table_file(id) implies p_wal_name(name) is None by {
        lemma_names_apart(id);
    }
    assert forall|id: u64| name == #[trigger] vlog_file(id) implies p_wal_name(name) is None by {
        lemma_names_apart(id);
    }
    assert forall|id: u64| name == #[trigger] manifest_file(id) implies p_wal_name(name) is None by {
        lemma_names_apart(id);
    }
}

/// Whether the log is wholly covered by tables once the floor stands here.
#[verifier::rlimit(50)]
pub fn wal_is_old(name: &[u8], floor: u64) -> (b: bool)
    ensures
        b == (p_wal_name(name@) matches Some(id) && id < floor),
        forall|id: u64| name@ == #[trigger] wal_file(id) ==> (b <==> id < floor),
        forall|id: u64| name@ == #[trigger] table_file(id) ==> !b,
        forall|id: u64| name@ == #[trigger] vlog_file(id) ==> !b,
        forall|id: u64| name@ == #[trigger] manifest_file(id) ==> !b,
{
    proof {
        lemma_only_logs(name@);
    }
    match wal_id_of(name) {
        Some(id) => id < floor,
        None => false,
    }
}

/// The manifest records a flush: its run in front of level 0, how far the tables
/// reach, and that the log behind it is no longer needed.
pub open spec fn flush_recorded(
    before: ManifestData,
    after: ManifestData,
    run: Option<RunMeta>,
    max_seq: SeqNo,
    wal_id: u64,
) -> bool {
    &&& after.levels@.len() == before.levels@.len()
    &&& after.levels@[0]@ == (match run {
        Some(r) => seq![r] + before.levels@[0]@,
        None => before.levels@[0]@,
    })
    &&& forall|l: int| 1 <= l < before.levels@.len() ==> #[trigger] after.levels@[l] == before.levels@[l]
    &&& after.last_flushed_seqno >= before.last_flushed_seqno
    &&& run is Some ==> after.last_flushed_seqno >= max_seq
    &&& after.last_flushed_seqno == before.last_flushed_seqno || (run is Some
        && after.last_flushed_seqno == max_seq)
    &&& after.wal_floor >= before.wal_floor
    &&& after.wal_floor > wal_id
    &&& after.wal_floor == before.wal_floor || after.wal_floor == wal_id + 1
    &&& after.vlog_live == before.vlog_live
    &&& after.vlog_retired == before.vlog_retired
}

/// The manifest of a store that was opened: its logs start anew, and every
/// value-log file that reads may go to is live or was retired.
pub open spec fn completed(before: ManifestData, after: ManifestData, ids: Seq<u64>, wal_id: u64) -> bool {
    &&& after.wal_floor == wal_id
    &&& after.vlog_live@ == ids.filter(|id: u64| !is_retired(before.vlog_retired@, id))
    &&& after.vlog_retired == before.vlog_retired
    &&& after.levels == before.levels
    &&& after.last_flushed_seqno == before.last_flushed_seqno
}

/// A flush frees exactly the logs that it covers: at the next open the log of the
/// memtable and those before it go, every newer one stays, and so do the run that
/// was written and all tables and value-log files that were there before.
#[verifier::spinoff_prover]
#[verifier::rlimit(60)]
pub proof fn lemma_flush_frees_its_log(
    before: ManifestData,
    after: ManifestData,
    run: Option<RunMeta>,
    max_seq: SeqNo,
    wal_id: u64,
    gen: u64,
    id: u64,
)
    requires
        before.levels@.len() > 0,
        flush_recorded(before, after, run, max_seq, wal_id),
    ensures
        id <= wal_id ==> is_garbage(after, gen, kind_of_name(wal_file(id))),
        id > wal_id && !is_garbage(before, gen, kind_of_name(wal_file(id))) ==> !is_garbage(
            after,
            gen,
            kind_of_name(wal_file(id)),
        ),
        run matches Some(r) ==> (r.table_ids@.contains(id) ==> !is_garbage(
            after,
            gen,
            kind_of_name(table_file(id)),
        )),
        !is_garbage(before, gen, kind_of_name(table_file(id))) ==> !is_garbage(
            after,
            gen,
            kind_of_name(table_file(id)),
        ),
        is_garbage(before, gen, kind_of_name(vlog_file(id))) == is_garbage(
            after,
            gen,
            kind_of_name(vlog_file(id)),
        ),
        after.last_flushed_seqno == (if run is Some && max_seq > before.last_flushed_seqno {
            max_seq
        } else {
            before.last_flushed_seqno
        }),
{
    lemma_startup_deletes(before, gen, wal_file(id));
    lemma_startup_deletes(after, gen, wal_file(id));
    lemma_startup_deletes(before, gen, table_file(id));
    lemma_startup_deletes(after, gen, table_file(id));
    lemma_startup_deletes(before, gen, vlog_file(id));
    lemma_startup_deletes(after, gen, vlog_file(id));
    lemma_flushed_lists(before, after, run, max_seq, wal_id, id);
}

proof fn lemma_flushed_lists(
    before: ManifestData,
    after: ManifestData,
    run: Option<RunMeta>,
    max_seq: SeqNo,
    wal_id: u64,
    id: u64,
)
    requires
        before.levels@.len() > 0,
        flush_recorded(before, after, run, max_seq, wal_id),
    ensures
        run matches Some(r) ==> (r.table_ids@.contains(id) ==> table_listed(after.levels@, id)),
        table_listed(before.levels@, id) ==> table_listed(after.levels@, id),
{
    let b = before.levels@;
    let a = after.levels@;
    if let Some(r) = run {
        if r.table_ids@.contains(id) {
            assert(a[0]@[0] == r);
            assert(a[0]@[0].table_ids@.contains(id));
        }
    }
    if table_listed(b, id) {
        let (l, k) = choose|l: int, k: int|
            0 <= l < b.len() && 0 <= k < b[l]@.len() && (#[trigger] b[l]@[k]).table_ids@.contains(
                id,
            );
        let m = if l == 0 && run is Some {
            k + 1
        } else {
            k
        };
        if l > 0 {
            assert(a[l] == b[l]);
        }
        assert(a[l]@[m] == b[l]@[k]);
        assert(a[l]@[m].table_ids@.contains(id));
    }
}

/// The levels of a freshly loaded manifest are at least as many as the options
/// ask for, and at least one: flushes and merges index them directly.
pub fn normalize_levels(data: &mut ManifestData, max_levels: usize)
    ensures
        final(data).levels@.len() == (if old(data).levels@.len() > max_levels {
            if old(data).levels@.len() > 1 {
                old(data).levels@.len() as int
            } else {
                1
            }
        } else if max_levels > 1 {
            max_levels as int
        } else {
            1
        }),
        forall|l: int|
            0 <= l < final(data).levels@.len() ==> #[trigger] final(data).levels@[l]@ == (if l
                < old(data).levels@.len() {
                old(data).levels@[l]@
            } else {
                Seq::<RunMeta>::empty()
            }),
        final(data).next_file_id == old(data).next_file_id,
        final(data).last_flushed_seqno == old(data).last_flushed_seqno,
        final(data).wal_floor == old(data).wal_floor,
        final(data).vlog_live == old(data).vlog_live,
        final(data).vlog_head == old(data).vlog_head,
        final(data).vlog_retired == old(data).vlog_retired,
        final(data).discard == old(data).discard,
        final(data).identity == old(data).identity,
        final(data).pending_fork == old(data).pending_fork,
        final(data).pins == old(data).pins,
{
    let ghost before = data.levels@;
    while data.levels.len() < max_levels || data.levels.len() < 1
        invariant
            before == old(data).levels@,
            data.levels@.len() >= before.len(),
            data.levels@.len() <= max_levels || data.levels@.len() <= 1 || data.levels@.len()
                == before.len(),
            forall|l: int|
                0 <= l < data.levels@.len() ==> #[trigger] data.levels@[l]@ == (if l
                    < before.len() {
                    before[l]@
                } else {
                    Seq::<RunMeta>::empty()
                }),
            data.next_file_id == old(data).next_file_id,
            data.last_flushed_seqno == old(data).last_flushed_seqno,
            data.wal_floor == old(data).wal_floor,
            data.vlog_live == old(data).vlog_live,
            data.vlog_head == old(data).vlog_head,
            data.vlog_retired == old(data).vlog_retired,
            data.discard == old(data).discard,
            data.identity == old(data).identity,
            data.pending_fork == old(data).pending_fork,
            data.pins == old(data).pins,
        decreases max_levels + 1 - data.levels@.len(),
    {
        let fresh: Vec<RunMeta> = Vec::new();
        assert(fresh@ =~= Seq::<RunMeta>::empty());
        data.levels.push(fresh);
    }
}

/// A file found on disk was written to after the manifest was saved: its id is
/// not below the head's, and it is neither live nor retired. A retired id is
/// never young: taking it back would leave a dangling live entry behind.
pub open spec fn is_young(data: ManifestData, id: u64) -> bool {
    id >= data.vlog_head && !data.vlog_live@.contains(id) && !is_retired(data.vlog_retired@, id)
}

/// The retired files that are still there, still resolvable until their
/// deletion gates pass.
pub open spec fn retired_there(data: ManifestData, disk: Seq<u64>) -> Seq<(u64, u64)> {
    data.vlog_retired@.filter(|e: (u64, u64)| disk.contains(e.0))
}

/// What opening makes of the value-log files.
pub struct VlogSet {
    /// Files that pointers may lead to.
    pub ids: Vec<u64>,
    pub retired: Vec<RetiredVlog>,
    /// Files to scan for the records that are really there.
    pub young: Vec<u64>,
}

pub open spec fn retired_list_view(v: Seq<RetiredVlog>) -> Seq<(u64, u64)> {
    v.map_values(|r: RetiredVlog| (r.id, r.retired_at))
}

/// The value-log files of a store: those the manifest lists as live, the
/// retired ones that are still on disk, and the young ones, which a rotation
/// made without saving the manifest. They are adopted, never deleted before
/// replay.
#[verifier::rlimit(40)]
pub fn vlog_set(data: &ManifestData, disk: &Vec<u64>) -> (s: VlogSet)
    ensures
        s.ids@ == data.vlog_live@ + retired_there(*data, disk@).map_values(|e: (u64, u64)| e.0)
            + disk@.filter(|id: u64| is_young(*data, id)),
        retired_list_view(s.retired@) == retired_there(*data, disk@),
        s.young@ == s.ids@.filter(
            |id: u64| id >= data.vlog_head && !is_retired(data.vlog_retired@, id),
        ),
{
    let mut ids: Vec<u64> = Vec::new();
    let mut retired: Vec<RetiredVlog> = Vec::new();
    let ghost live = data.vlog_live@;
    let mut i: usize = 0;
    while i < data.vlog_live.len()
        invariant
            i <= data.vlog_live@.len(),
            ids@ =~= data.vlog_live@.take(i as int),
        decreases data.vlog_live@.len() - i,
    {
        ids.push(data.vlog_live[i]);
        i += 1;
    }
    assert(ids@ =~= live);
    let ghost all = data.vlog_retired@;
    let ghost there = |e: (u64, u64)| disk@.contains(e.0);
    let mut j: usize = 0;
    proof {
        reveal(Seq::filter);
        assert(all.take(0) =~= Seq::empty());
        assert(live + all.take(0).filter(there).map_values(|e: (u64, u64)| e.0) =~= live);
        assert(retired_list_view(retired@) =~= all.take(0).filter(there));
    }
    while j < data.vlog_retired.len()
        invariant
            j <= all.len(),
            all == data.vlog_retired@,
            there == |e: (u64, u64)| disk@.contains(e.0),
            ids@ == live + all.take(j as int).filter(there).map_values(|e: (u64, u64)| e.0),
            retired_list_view(retired@) == all.take(j as int).filter(there),
        decreases all.len() - j,
    {
        let (id, at) = data.vlog_retired[j];
        let ghost f0 = all.take(j as int).filter(there);
        proof {
            reveal(Seq::filter);
            assert(all.take(j + 1).drop_last() =~= all.take(j as int));
            assert(all.take(j + 1).last() == (id, at));
        }
        if contains_id(disk, id) {
            let ghost r0 = retired_list_view(retired@);
            let ghost ids0 = ids@;
            ids.push(id);
            let r = RetiredVlog { id, retired_at: at };
            retired.push(r);
            proof {
                assert(there((id, at)));
                assert(retired_list_view(retired@) =~= r0.push((id, at)));
                assert(f0.push((id, at)).map_values(|e: (u64, u64)| e.0) =~= f0.map_values(
                    |e: (u64, u64)| e.0,
                ).push(id));
                assert(ids@ =~= live + f0.push((id, at)).map_values(|e: (u64, u64)| e.0));
            }
        }
        j += 1;
    }
    assert(all.take(j as int) =~= all);
    let ghost base = ids@;
    let ghost young_p = |id: u64| is_young(*data, id);
    let mut d: usize = 0;
    proof {
        reveal(Seq::filter);
        assert(disk@.take(0) =~= Seq::empty());
        assert(base + disk@.take(0).filter(young_p) =~= base);
    }
    while d < disk.len()
        invariant
            d <= disk@.len(),
            young_p == |id: u64| is_young(*data, id),
            ids@ == base + disk@.take(d as int).filter(young_p),
        decreases disk@.len() - d,
    {
        let id: u64 = disk[d];
        let ghost f0 = disk@.take(d as int).filter(young_p);
        proof {
            reveal(Seq::filter);
            assert(disk@.take(d + 1).drop_last() =~= disk@.take(d as int));
            assert(disk@.take(d + 1).last() == id);
        }
        if id >= data.vlog_head && !contains_id(&data.vlog_live, id) && !retired_holds(
            &data.vlog_retired,
            id,
        ) {
            assert(young_p(id));
            ids.push(id);
            assert(ids@ =~= base + f0.push(id));
        }
        d += 1;
    }
    assert(disk@.take(d as int) =~= disk@);
    let mut young: Vec<u64> = Vec::new();
    let ghost scan_p = |id: u64| id >= data.vlog_head && !is_retired(data.vlog_retired@, id);
    let mut y: usize = 0;
    proof {
        reveal(Seq::filter);
        assert(ids@.take(0) =~= Seq::empty());
    }
    while y < ids.len()
        invariant
            y <= ids@.len(),
            scan_p == |id: u64| id >= data.vlog_head && !is_retired(data.vlog_retired@, id),
            young@ == ids@.take(y as int).filter(scan_p),
        decreases ids@.len() - y,
    {
        let id: u64 = ids[y];
        proof {
            reveal(Seq::filter);
            assert(ids@.take(y + 1).drop_last() =~= ids@.take(y as int));
            assert(ids@.take(y + 1).last() == id);
        }
        if id >= data.vlog_head && !retired_holds(&data.vlog_retired, id) {
            assert(scan_p(id));
            young.push(id);
        }
        y += 1;
    }
    assert(ids@.take(y as int) =~= ids@);
    VlogSet { ids, retired, young }
}

/// The first file id that nothing on disk has: above the manifest's counter,
/// every young value-log file, every log and every table, orphans included.
pub open spec fn past_all(start: u64, ids: Seq<u64>) -> nat
    decreases ids.len(),
{
    if ids.len() == 0 {
        if start > 1 {
            start as nat
        } else {
            1
        }
    } else {
        let m = past_all(start, ids.drop_last());
        if ids.last() + 1 > m {
            (ids.last() + 1) as nat
        } else {
            m
        }
    }
}

/// The next free file id.
pub fn next_free_id(start: u64, ids: &Vec<u64>) -> (n: u64)
    requires
        forall|i: int| 0 <= i < ids@.len() ==> #[trigger] ids@[i] < u64::MAX,
    ensures
        n == past_all(start, ids@),
        n >= 1,
        n >= start,
        forall|i: int| 0 <= i < ids@.len() ==> #[trigger] ids@[i] < n,
{
    let mut n: u64 = if start > 1 {
        start
    } else {
        1
    };
    let mut i: usize = 0;
    assert(ids@.take(0) =~= Seq::empty());
    while i < ids.len()
        invariant
            i <= ids@.len(),
            n == past_all(start, ids@.take(i as int)),
            n >= 1,
            n >= start,
            forall|k: int| 0 <= k < ids@.len() ==> #[trigger] ids@[k] < u64::MAX,
            forall|k: int| 0 <= k < i ==> #[trigger] ids@[k] < n,
        decreases ids@.len() - i,
    {
        proof {
            assert(ids@.take(i + 1).drop_last() =~= ids@.take(i as int));
            assert(ids@.take(i + 1).last() == ids@[i as int]);
        }
        if ids[i] + 1 > n {
            n = ids[i] + 1;
        }
        i += 1;
    }
    assert(ids@.take(i as int) =~= ids@);
    n
}

/// The manifest that completes an open: the fresh log is the floor, the
/// resolvable files that are not retired are live, the fresh head is the head.
/// Nothing else changes.
pub fn complete_open(data: &mut ManifestData, ids: &Vec<u64>, wal_id: u64, head_id: u64, next_file_id: u64)
    ensures
        completed(*old(data), *final(data), ids@, wal_id),
        final(data).wal_floor == wal_id,
        final(data).vlog_live@ == ids@.filter(|id: u64| !is_retired(old(data).vlog_retired@, id)),
        final(data).vlog_head == head_id,
        final(data).next_file_id == next_file_id,
        final(data).last_flushed_seqno == old(data).last_flushed_seqno,
        final(data).levels == old(data).levels,
        final(data).vlog_retired == old(data).vlog_retired,
        final(data).discard == old(data).discard,
        final(data).identity == old(data).identity,
        final(data).pending_fork == old(data).pending_fork,
        final(data).pins == old(data).pins,
{
    let mut live: Vec<u64> = Vec::new();
    let mut i: usize = 0;
    let ghost p = |id: u64| !is_retired(old(data).vlog_retired@, id);
    proof {
        reveal(Seq::filter);
        assert(ids@.take(0) =~= Seq::empty());
    }
    while i < ids.len()
        invariant
            i <= ids@.len(),
            *data == *old(data),
            p == |id: u64| !is_retired(old(data).vlog_retired@, id),
            live@ == ids@.take(i as int).filter(p),
        decreases ids@.len() - i,
    {
        proof {
            reveal(Seq::filter);
            assert(ids@.take(i + 1).drop_last() =~= ids@.take(i as int));
            assert(ids@.take(i + 1).last() == ids@[i as int]);
        }
        if !retired_holds(&data.vlog_retired, ids[i]) {
            assert(p(ids@[i as int]));
            live.push(ids[i]);
        }
        i += 1;
    }
    assert(ids@.take(i as int) =~= ids@);
    data.wal_floor = wal_id;
    data.vlog_live = live;
    data.vlog_head = head_id;
    data.next_file_id = next_file_id;
}

/// The manifest after a flush: the new run, if the memtable held anything, is
/// the newest of level 0; the floor passes the memtable's log. Nothing else
/// changes.
pub fn record_flush(
    data: &mut ManifestData,
    run: Option<RunMeta>,
    max_seq: SeqNo,
    wal_id: u64,
    next_file_id: u64,
)
    requires
        old(data).levels@.len() > 0,
        wal_id < u64::MAX,
    ensures
        flush_recorded(*old(data), *final(data), run, max_seq, wal_id),
        match run {
            Some(r) => {
                &&& final(data).levels@.len() == old(data).levels@.len()
                &&& final(data).levels@[0]@ == seq![r] + old(data).levels@[0]@
                &&& forall|l: int|
                    1 <= l < old(data).levels@.len() ==> #[trigger] final(data).levels@[l]
                        == old(data).levels@[l]
                &&& final(data).last_flushed_seqno == (if max_seq > old(data).last_flushed_seqno {
                    max_seq
                } else {
                    old(data).last_flushed_seqno
                })
            },
            None => final(data).levels == old(data).levels && final(data).last_flushed_seqno
                == old(data).last_flushed_seqno,
        },
        final(data).wal_floor == (if wal_id + 1 > old(data).wal_floor {
            wal_id + 1
        } else {
            old(data).wal_floor as int
        }),
        final(data).next_file_id == next_file_id,
        final(data).vlog_live == old(data).vlog_live,
        final(data).vlog_head == old(data).vlog_head,
        final(data).vlog_retired == old(data).vlog_retired,
        final(data).discard == old(data).discard,
        final(data).identity == old(data).identity,
        final(data).pending_fork == old(data).pending_fork,
        final(data).pins == old(data).pins,
{
    if let Some(r) = run {
        let ghost at = data.levels@[0]@;
        data.levels[0].insert(0, r);
        assert(data.levels@[0]@ =~= seq![r] + at);
        if max_seq > data.last_flushed_seqno {
            data.last_flushed_seqno = max_seq;
        }
    }
    if wal_id + 1 > data.wal_floor {
        data.wal_floor = wal_id + 1;
    }
    data.next_file_id = next_file_id;
}

/// The manifest of a new store.
pub fn init_fresh() -> (m: ManifestData)
    ensures
        m.next_file_id == 1,
        m.last_flushed_seqno == 0,
        m.wal_floor == 0,
        m.levels@.len() == 0,
        m.vlog_live@.len() == 0,
        m.vlog_head == 0,
        m.vlog_retired@.len() == 0,
        m.discard@.len() == 0,
        m.identity is None,
        m.pending_fork is None,
        m.pins@.len() == 0,
{
    let mut m = ManifestData::empty();
    m.next_file_id = 1;
    assert(m@.levels.len() == m.levels@.len());
    m
}

// ---------------------------------------------------------------------------
// Identity
// ---------------------------------------------------------------------------

/// The identity that the manifest holds or is about to mint: the fork it was
/// cut as, if that was not opened yet.
pub open spec fn held_identity(data: ManifestData) -> Option<(Seq<u8>, Seq<u8>, Option<(
    Seq<u8>,
    u64,
)>)> {
    match (data.identity, data.pending_fork) {
        (_, Some(f)) => Some(
            (
                encode_utf8(f.name@),
                fork_id(f.parent_instance_id@, f.cut_seqno, encode_utf8(f.name@)),
                Some((f.parent_instance_id@, f.cut_seqno)),
            ),
        ),
        (Some(id), None) => Some(
            (
                encode_utf8(id.name@),
                id.instance_id@,
                match id.parent {
                    Some((p, c)) => Some((p@, c)),
                    None => None,
                },
            ),
        ),
        (None, None) => None,
    }
}

/// Open a store under the configured name: a fork that was not opened yet mints
/// its identity, a name must match the one the store has, and an unnamed store
/// adopts it.
pub fn settle_identity(data: &mut ManifestData, store_name: Option<&str>) -> (r: Result<()>)
    ensures
        r is Ok <==> (store_name matches Some(n) ==> match held_identity(*old(data)) {
            Some((name, _, _)) => n.spec_bytes() == name,
            None => name_ok(n.spec_bytes()),
        }),
        r matches Err(e) ==> e is InvalidArgument && *final(data) == *old(data),
        r is Ok ==> {
            &&& final(data).pending_fork is None
            &&& held_identity(*final(data)) == (match (held_identity(*old(data)), store_name) {
                (None, Some(n)) => Some((n.spec_bytes(), root_id(n.spec_bytes()), None)),
                (h, _) => h,
            })
            &&& final(data).next_file_id == old(data).next_file_id
            &&& final(data).last_flushed_seqno == old(data).last_flushed_seqno
            &&& final(data).wal_floor == old(data).wal_floor
            &&& final(data).levels == old(data).levels
            &&& final(data).vlog_live == old(data).vlog_live
            &&& final(data).vlog_head == old(data).vlog_head
            &&& final(data).vlog_retired == old(data).vlog_retired
            &&& final(data).discard == old(data).discard
            &&& final(data).pins == old(data).pins
        },
{
    let minted: Option<StoreIdentity> = match &data.pending_fork {
        Some(f) => Some(f.mint()),
        None => None,
    };
    let held: Option<&StoreIdentity> = match &minted {
        Some(id) => Some(id),
        None => data.identity.as_ref(),
    };
    if let Some(n) = store_name {
        if let Some(id) = held {
            if !bytes_eq(id.name.as_str().as_bytes(), n.as_bytes()) {
                return Err(invalid("store is named otherwise"));
            }
        } else {
            validate_store_name(n)?;
            data.identity = Some(StoreIdentity::root(n));
            return Ok(());
        }
    }
    if let Some(id) = minted {
        data.identity = Some(id);
        data.pending_fork = None;
    }
    Ok(())
}

/// Who a store is: what a fork was opened as comes before what is on record, and
/// its identity is drawn from its parent, its cut and its name.
pub proof fn lemma_identity_on_record(data: ManifestData)
    ensures
        data.pending_fork matches Some(f) ==> held_identity(data) == Some(
            (
                encode_utf8(f.name@),
                fork_id(f.parent_instance_id@, f.cut_seqno, encode_utf8(f.name@)),
                Some((f.parent_instance_id@, f.cut_seqno)),
            ),
        ),
        data.pending_fork is None ==> (data.identity matches Some(id) ==> (held_identity(
            data,
        ) matches Some(h) && h.0 == encode_utf8(id.name@) && h.1 == id.instance_id@ && (h.2 is Some
            <==> id.parent is Some) && (id.parent matches Some(p) ==> h.2 == Some((p.0@, p.1))))),
        data.pending_fork is None && data.identity is None ==> held_identity(data) is None,
{
}

/// The next file's id is the least that is above all ids in use.
pub proof fn lemma_next_id_is_the_least(start: u64, ids: Seq<u64>)
    ensures
        past_all(start, ids) >= 1,
        past_all(start, ids) >= start,
        forall|i: int| 0 <= i < ids.len() ==> (#[trigger] ids[i]) < past_all(start, ids),
        past_all(start, ids) <= 1 || past_all(start, ids) == start || exists|i: int|
            0 <= i < ids.len() && (#[trigger] ids[i]) + 1 == past_all(start, ids),
    decreases ids.len(),
{
    if ids.len() > 0 {
        let init = ids.drop_last();
        lemma_next_id_is_the_least(start, init);
        let n = past_all(start, ids);
        assert forall|i: int| 0 <= i < ids.len() implies (#[trigger] ids[i]) < n by {
            if i < init.len() {
                assert(init[i] == ids[i]);
            }
        }
        if n == past_all(start, init) {
            if !(n <= 1 || n == start) {
                let i = choose|i: int|
                    0 <= i < init.len() && (#[trigger] init[i]) + 1 == past_all(start, init);
                assert(ids[i] + 1 == n);
            }
        } else {
            assert(ids[ids.len() - 1] + 1 == n);
        }
    }
}

} // verus!
