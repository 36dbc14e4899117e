//! What opening a store relies on and leaves: which logged batches count, which
//! value-log files reads may go to, and which seqnos are taken.

use vstd::prelude::*;

use crate::manifest::ManifestData;

verus! {

use crate::batch::{p_batch, Entry};
use crate::config::vlog_file;
use crate::gc::lemma_filtered;
use crate::install::is_retired;
use crate::recovery::{
    entries_seen, entry_seen, highest_seq, is_garbage, is_young, kind_of_name,
    lemma_startup_deletes, record_there, replay_records, replay_wals, retired_there, young_holds,
    Known, Replayed, Stand, Young,
};
use crate::types::{p_repr, Repr};
use crate::wal::{wal_records, wal_valid_len};

/// A young file has the record that the pointer names, and it is one of the key.
pub open spec fn has_record(ys: Seq<Young>, p: crate::types::ValuePtr, key: Seq<u8>) -> bool {
    exists|i: int, j: int|
        0 <= i < ys.len() && ys[i].id == p.file && 0 <= j < ys[i].records.len() && (
        #[trigger] ys[i].records[j]).key == key && ys[i].records[j].offset == p.offset
            && ys[i].records[j].len == p.len
}

/// The value of a logged entry can be had: it is a delete, it has its value in
/// place, its record is in the young file that it names, or it names an older
/// file of the store.
pub open spec fn resolves(k: Known, e: Entry) -> bool {
    e.kind is Put ==> match p_repr(e.repr) {
        None => false,
        Some(Repr::Inline(_)) => true,
        Some(Repr::Ptr(p)) => has_record(k.young, p, e.key) || (k.ids.contains(p.file) && forall|
            i: int,
        |
            0 <= i < k.young.len() ==> (#[trigger] k.young[i]).id != p.file),
    }
}

/// The entry names a record that a young file should have and does not.
pub open spec fn lost(k: Known, e: Entry) -> bool {
    e.kind is Put && (p_repr(e.repr) matches Some(Repr::Ptr(p)) && !has_record(
        k.young,
        p,
        e.key,
    ) && exists|i: int| 0 <= i < k.young.len() && (#[trigger] k.young[i]).id == p.file)
}

proof fn lemma_entry_seen(k: Known, e: Entry)
    ensures
        entry_seen(k, e) is Fine <==> resolves(k, e),
        entry_seen(k, e) is Lost <==> lost(k, e),
{
    if let Some(Repr::Ptr(p)) = p_repr(e.repr) {
        if has_record(k.young, p, e.key) {
            let (i, j) = choose|i: int, j: int|
                0 <= i < k.young.len() && k.young[i].id == p.file && 0 <= j
                    < k.young[i].records.len() && (#[trigger] k.young[i].records[j]).key == e.key
                    && k.young[i].records[j].offset == p.offset && k.young[i].records[j].len
                    == p.len;
            assert(record_there(k.young, p, e.key));
            assert(k.young[i].id == p.file);
            assert(young_holds(k.young, p.file));
        }
        if record_there(k.young, p, e.key) {
            let (i, j) = choose|i: int, j: int|
                0 <= i < k.young.len() && 0 <= j < k.young[i].records.len() && k.young[i].id
                    == p.file && (#[trigger] k.young[i].records[j]).offset == p.offset
                    && k.young[i].records[j].len == p.len && k.young[i].records[j].key == e.key;
            assert(k.young[i].records[j].key == e.key);
            assert(has_record(k.young, p, e.key));
        }
    }
}

/// A logged batch is taken exactly where every value of it can be had; it ends
/// the replay, without an error, exactly where the first value that cannot is a
/// record that a young file lost.
pub proof fn lemma_batch_is_seen(k: Known, es: Seq<Entry>, n: int)
    requires
        0 <= n <= es.len(),
    ensures
        entries_seen(k, es, n) is Fine <==> forall|i: int|
            0 <= i < n ==> resolves(k, #[trigger] es[i]),
        entries_seen(k, es, n) is Lost ==> exists|i: int|
            0 <= i < n && lost(k, #[trigger] es[i]) && forall|j: int|
                0 <= j < i ==> resolves(k, #[trigger] es[j]),
        entries_seen(k, es, n) is Bad ==> exists|i: int|
            0 <= i < n && !lost(k, #[trigger] es[i]) && !resolves(k, es[i]),
    decreases n,
{
    if n > 0 {
        lemma_batch_is_seen(k, es, n - 1);
        lemma_entry_seen(k, es[n - 1]);
        if entries_seen(k, es, n - 1) is Fine {
            if entry_seen(k, es[n - 1]) is Lost {
                assert(lost(k, es[n - 1]));
            }
            if entry_seen(k, es[n - 1]) is Bad {
                assert(!lost(k, es[n - 1]) && !resolves(k, es[n - 1]));
            }
        }
    }
}

/// Every value of the batches can be had.
pub open spec fn all_resolve(k: Known, batches: Seq<(u64, Seq<Entry>)>) -> bool {
    forall|b: int, i: int|
        0 <= b < batches.len() && 0 <= i < batches[b].1.len() ==> resolves(
            k,
            #[trigger] batches[b].1[i],
        )
}

proof fn lemma_records_resolve(k: Known, r: Replayed, recs: Seq<Seq<u8>>, n: int)
    requires
        0 <= n <= recs.len(),
        all_resolve(k, r.batches),
    ensures
        all_resolve(k, replay_records(k, r, recs, n).batches),
    decreases n,
{
    if n > 0 {
        lemma_records_resolve(k, r, recs, n - 1);
        let before = replay_records(k, r, recs, n - 1);
        if let Some((base, es)) = p_batch(recs[n - 1]) {
            lemma_batch_is_seen(k, es, es.len() as int);
        }
        let after = replay_records(k, r, recs, n);
        assert forall|b: int, i: int|
            0 <= b < after.batches.len() && 0 <= i < after.batches[b].1.len() implies resolves(
            k,
            #[trigger] after.batches[b].1[i],
        ) by {
            if b < before.batches.len() {
                assert(after.batches[b] == before.batches[b]);
                assert(resolves(k, before.batches[b].1[i]));
            }
        }
    }
}

/// No batch comes back with a value that cannot be read.
pub proof fn lemma_recovered_values_resolve(k: Known, wals: Seq<(u64, Seq<u8>)>, n: int)
    requires
        0 <= n <= wals.len(),
    ensures
        all_resolve(k, replay_wals(k, wals, n).batches),
    decreases n,
{
    if n > 0 {
        lemma_recovered_values_resolve(k, wals, n - 1);
        let before = replay_wals(k, wals, n - 1);
        let recs = wal_records(wals[n - 1].1);
        lemma_records_resolve(k, before, recs, recs.len() as int);
    }
}

proof fn lemma_records_stand(k: Known, r: Replayed, recs: Seq<Seq<u8>>, n: int)
    requires
        0 <= n <= recs.len(),
        r.stand is Goes,
    ensures
        !(replay_records(k, r, recs, n).stand is Torn),
    decreases n,
{
    if n > 0 {
        lemma_records_stand(k, r, recs, n - 1);
    }
}

/// Only the newest log may end in the middle of a record: where the replay gets
/// through, every older log was read to its end, and so was the newest, or it is
/// to be cut to what could be read of it.
pub proof fn lemma_only_newest_log_is_torn(k: Known, wals: Seq<(u64, Seq<u8>)>, n: int)
    requires
        0 <= n <= wals.len(),
        replay_wals(k, wals, n).stand is Goes || replay_wals(k, wals, n).stand is Torn,
    ensures
        forall|i: int|
            0 <= i < n && i < wals.len() - 1 ==> wal_valid_len((#[trigger] wals[i]).1)
                == wals[i].1.len(),
        match replay_wals(k, wals, n).stand {
            Stand::Torn { id, valid_len } => n == wals.len() && n > 0 && id == wals.last().0
                && valid_len == wal_valid_len(wals.last().1) && valid_len != wals.last().1.len(),
            _ => forall|i: int|
                0 <= i < n ==> wal_valid_len((#[trigger] wals[i]).1) == wals[i].1.len(),
        },
    decreases n,
{
    if n > 0 {
        let before = replay_wals(k, wals, n - 1);
        if !(before.stand is Goes) {
            assert(before.stand is Torn);
            lemma_only_newest_log_is_torn(k, wals, n - 1);
        } else {
            lemma_only_newest_log_is_torn(k, wals, n - 1);
            let recs = wal_records(wals[n - 1].1);
            lemma_records_stand(k, before, recs, recs.len() as int);
        }
    }
}

/// No seqno is given out twice: the highest that recovery reports is at or above
/// every recovered one and whatever was flushed, and it is one of these.
pub proof fn lemma_highest_is_above_all(batches: Seq<(u64, Seq<Entry>)>, least: u64)
    requires
        forall|b: int|
            0 <= b < batches.len() ==> (#[trigger] batches[b]).0 + batches[b].1.len() <= u64::MAX,
    ensures
        highest_seq(batches, least) >= least,
        forall|b: int|
            0 <= b < batches.len() && (#[trigger] batches[b]).1.len() > 0 ==> batches[b].0
                + batches[b].1.len() - 1 <= highest_seq(batches, least),
        highest_seq(batches, least) == least || exists|b: int|
            0 <= b < batches.len() && (#[trigger] batches[b]).1.len() > 0 && highest_seq(
                batches,
                least,
            ) == batches[b].0 + batches[b].1.len() - 1,
    decreases batches.len(),
{
    if batches.len() > 0 {
        let init = batches.drop_last();
        assert forall|b: int| 0 <= b < init.len() implies (#[trigger] init[b]).0 + init[b].1.len()
            <= u64::MAX by {
            assert(batches[b].0 + batches[b].1.len() <= u64::MAX);
        }
        lemma_highest_is_above_all(init, least);
        let last = batches[batches.len() - 1];
        assert(last.0 + last.1.len() <= u64::MAX);
        let m = highest_seq(init, least);
        let h = highest_seq(batches, least);
        assert forall|b: int|
            0 <= b < batches.len() && (#[trigger] batches[b]).1.len() > 0 implies batches[b].0
            + batches[b].1.len() - 1 <= h by {
            if b < init.len() {
                assert(init[b] == batches[b]);
            }
        }
        if h != least {
            if h == m {
                let b = choose|b: int|
                    0 <= b < init.len() && (#[trigger] init[b]).1.len() > 0 && m == init[b].0
                        + init[b].1.len() - 1;
                assert(batches[b] == init[b]);
            } else {
                assert(batches[batches.len() - 1].1.len() > 0);
            }
        }
    }
}

/// The value-log files that reads may go to: the live ones, the retired ones
/// that are still on disk, and whatever was begun since the manifest was saved.
#[verifier::rlimit(50)]
pub proof fn lemma_vlog_files(data: ManifestData, disk: Seq<u64>, id: u64)
    ensures
        ({
            let ids = data.vlog_live@ + retired_there(data, disk).map_values(
                |e: (u64, u64)| e.0,
            ) + disk.filter(|i: u64| is_young(data, i));
            let was_retired = exists|i: int|
                0 <= i < data.vlog_retired@.len() && (#[trigger] data.vlog_retired@[i]).0 == id;
            ids.contains(id) <==> data.vlog_live@.contains(id) || (disk.contains(id) && (
            was_retired || id >= data.vlog_head))
        }),
{
    let young = |i: u64| is_young(data, i);
    let a = data.vlog_live@;
    let there = |e: (u64, u64)| disk.contains(e.0);
    let r = retired_there(data, disk);
    let b = r.map_values(|e: (u64, u64)| e.0);
    let c = disk.filter(young);
    let ids = a + b + c;
    lemma_filtered(disk, young, id);
    if ids.contains(id) {
        let x = choose|x: int| 0 <= x < ids.len() && ids[x] == id;
        if x < a.len() {
            assert(a[x] == id);
        } else if x < a.len() + b.len() {
            let y = x - a.len();
            assert(b[y] == id);
            lemma_filtered(data.vlog_retired@, there, r[y]);
            assert(r.contains(r[y]));
            let i = choose|i: int|
                0 <= i < data.vlog_retired@.len() && data.vlog_retired@[i] == r[y];
            assert(data.vlog_retired@[i].0 == id);
        } else {
            assert(c[x - a.len() - b.len()] == id);
            assert(c.contains(id));
        }
    }
    if a.contains(id) {
        let x = choose|x: int| 0 <= x < a.len() && a[x] == id;
        assert(ids[x] == id);
    } else if disk.contains(id) {
        if is_retired(data.vlog_retired@, id) {
            let i = choose|i: int|
                0 <= i < data.vlog_retired@.len() && (#[trigger] data.vlog_retired@[i]).0 == id;
            let e = data.vlog_retired@[i];
            lemma_filtered(data.vlog_retired@, there, e);
            let y = choose|y: int| 0 <= y < r.len() && r[y] == e;
            assert(b[y] == id);
            assert(ids[a.len() + y] == id);
        } else if id >= data.vlog_head {
            assert(c.contains(id));
            let z = choose|z: int| 0 <= z < c.len() && c[z] == id;
            assert(ids[a.len() + b.len() + z] == id);
        }
    }
}

/// Opening deletes no value-log file that reads may go to: once the manifest is
/// completed, each of them is live or retired.
#[verifier::rlimit(50)]
pub proof fn lemma_opening_keeps_values(
    before: ManifestData,
    after: ManifestData,
    ids: Seq<u64>,
    wal_id: u64,
    gen: u64,
    id: u64,
)
    requires
        crate::recovery::completed(before, after, ids, wal_id),
        ids.contains(id),
    ensures
        !is_garbage(after, gen, kind_of_name(vlog_file(id))),
        after.levels == before.levels,
{
    let keep = |i: u64| !is_retired(before.vlog_retired@, i);
    lemma_filtered(ids, keep, id);
    lemma_startup_deletes(after, gen, vlog_file(id));
    if is_retired(before.vlog_retired@, id) {
        let i = choose|i: int|
            0 <= i < before.vlog_retired@.len() && (#[trigger] before.vlog_retired@[i]).0 == id;
        assert(after.vlog_retired@[i].0 == id);
    }
}

} // verus!
