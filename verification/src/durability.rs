//! What was logged is there again after a restart: the logs replay into a
//! memtable from which every read finds what it found before.

use vstd::prelude::*;

use crate::types::MAX_SEQNO;

verus! {

use crate::batch::Entry;
use crate::commit::{applied, batch_kvs, lemma_batch_kv};
use crate::compaction::lemma_first_hit_is_merged;
use crate::iter::{in_some, lemma_merged, merged, sorted, Kv};
use crate::mvcc::lemma_same_members;
use crate::recovery::{
    all_kvs, batch_records, holds_latest, latest_of, lemma_replay_takes, recoverable,
    replay_wal, replay_wals, Known, Replayed, Stand,
};
use crate::tree::{lemma_newest_first_mergeable, lemma_one_source};
use crate::types::{seqno_of, ukey_of};
use crate::version::{first_hit, lemma_first_hit_split, newest_first};
use crate::wal::{lemma_wal_roundtrip, loggable, wal_frames, wal_records, wal_valid_len};

/// The batches of one log.
pub type Batches = Seq<(u64, Seq<Entry>)>;

/// The files of the logs, oldest first. The newest may end in a torn record.
pub open spec fn log_files(logs: Seq<(u64, Batches)>, tail: Seq<u8>) -> Seq<(u64, Seq<u8>)> {
    Seq::new(
        logs.len(),
        |i: int|
            (
                logs[i].0,
                wal_frames(batch_records(logs[i].1)) + (if i == logs.len() - 1 {
                    tail
                } else {
                    Seq::empty()
                }),
            ),
    )
}

/// The batches of the first `n` logs.
pub open spec fn logged(logs: Seq<(u64, Batches)>, n: int) -> Batches
    decreases n,
{
    if n <= 0 {
        Seq::empty()
    } else {
        logged(logs, n - 1) + logs[n - 1].1
    }
}

proof fn lemma_one_log(
    k: Known,
    r: Replayed,
    id: u64,
    batches: Batches,
    tail: Seq<u8>,
    newest: bool,
)
    requires
        r.stand is Goes,
        forall|i: int| 0 <= i < batches.len() ==> recoverable(k, #[trigger] batches[i]),
        wal_records(tail).len() == 0,
        newest || tail.len() == 0,
    ensures
        ({
            let frames = wal_frames(batch_records(batches));
            let done = replay_wal(k, r, id, frames + tail, newest);
            &&& done.batches == r.batches + batches
            &&& tail.len() == 0 ==> done.stand is Goes
            &&& tail.len() > 0 ==> done.stand == (Stand::Torn { id, valid_len: frames.len() })
        }),
{
    let recs = batch_records(batches);
    let bytes = wal_frames(recs) + tail;
    assert forall|i: int| 0 <= i < recs.len() implies loggable(#[trigger] recs[i]) by {
        assert(recoverable(k, batches[i]));
    }
    lemma_wal_roundtrip(recs, tail);
    assert(wal_records(bytes) =~= recs);
    assert(wal_valid_len(tail) == 0) by {
        if crate::wal::wal_head_valid(tail) {
            assert(wal_records(tail).len() > 0);
        }
    }
    lemma_replay_takes(k, r, batches, batches.len() as int);
    assert(r.batches + batches.take(batches.len() as int) =~= r.batches + batches);
}

proof fn lemma_sealed_logs(k: Known, logs: Seq<(u64, Batches)>, tail: Seq<u8>, n: int)
    requires
        0 <= n < logs.len(),
        forall|i: int, j: int|
            0 <= i < logs.len() && 0 <= j < logs[i].1.len() ==> recoverable(
                k,
                #[trigger] logs[i].1[j],
            ),
    ensures
        replay_wals(k, log_files(logs, tail), n).stand is Goes,
        replay_wals(k, log_files(logs, tail), n).batches == logged(logs, n),
    decreases n,
{
    if n > 0 {
        lemma_sealed_logs(k, logs, tail, n - 1);
        let files = log_files(logs, tail);
        let before = replay_wals(k, files, n - 1);
        let none = Seq::<u8>::empty();
        assert(files[n - 1] == (logs[n - 1].0, wal_frames(batch_records(logs[n - 1].1)) + none));
        assert(wal_records(none).len() == 0);
        lemma_one_log(k, before, logs[n - 1].0, logs[n - 1].1, none, false);
    }
}

/// Recovery gives back what was logged: the batches of all logs come back, in
/// order, where their payloads are durable, whatever torn record stands behind
/// the newest.
pub proof fn lemma_recovery_gives_back_the_logs(
    k: Known,
    logs: Seq<(u64, Batches)>,
    tail: Seq<u8>,
)
    requires
        logs.len() > 0,
        forall|i: int, j: int|
            0 <= i < logs.len() && 0 <= j < logs[i].1.len() ==> recoverable(
                k,
                #[trigger] logs[i].1[j],
            ),
        wal_records(tail).len() == 0,
    ensures
        ({
            let done = replay_wals(k, log_files(logs, tail), logs.len() as int);
            let last = logs.last();
            &&& done.batches == logged(logs, logs.len() as int)
            &&& tail.len() == 0 ==> done.stand is Goes
            &&& tail.len() > 0 ==> done.stand == (Stand::Torn {
                id: last.0,
                valid_len: wal_frames(batch_records(last.1)).len(),
            })
        }),
{
    let n = logs.len() as int;
    let files = log_files(logs, tail);
    lemma_sealed_logs(k, logs, tail, n - 1);
    let before = replay_wals(k, files, n - 1);
    assert(files[n - 1] == (logs[n - 1].0, wal_frames(batch_records(logs[n - 1].1)) + tail));
    lemma_one_log(k, before, logs[n - 1].0, logs[n - 1].1, tail, true);
}

// ---------------------------------------------------------------------------
// Memtables
// ---------------------------------------------------------------------------

proof fn lemma_latest_concat(a: Seq<Kv>, b: Seq<Kv>, x: Kv)
    ensures
        latest_of(a + b, x) <==> latest_of(b, x) || (latest_of(a, x) && forall|j: int|
            0 <= j < b.len() ==> (#[trigger] b[j]).key != x.key),
{
    let c = a + b;
    let n = a.len() as int;
    if latest_of(b, x) {
        let i = choose|i: int|
            0 <= i < b.len() && #[trigger] b[i] == x && forall|j: int|
                i < j < b.len() ==> (#[trigger] b[j]).key != x.key;
        assert(c[n + i] == x);
        assert forall|j: int| n + i < j < c.len() implies (#[trigger] c[j]).key != x.key by {
            assert(c[j] == b[j - n]);
        }
    }
    if latest_of(a, x) && (forall|j: int| 0 <= j < b.len() ==> (#[trigger] b[j]).key != x.key) {
        let i = choose|i: int|
            0 <= i < a.len() && #[trigger] a[i] == x && forall|j: int|
                i < j < a.len() ==> (#[trigger] a[j]).key != x.key;
        assert(c[i] == x);
        assert forall|j: int| i < j < c.len() implies (#[trigger] c[j]).key != x.key by {
            if j < n {
                assert(c[j] == a[j]);
            } else {
                assert(c[j] == b[j - n]);
            }
        }
    }
    if latest_of(c, x) {
        let i = choose|i: int|
            0 <= i < c.len() && #[trigger] c[i] == x && forall|j: int|
                i < j < c.len() ==> (#[trigger] c[j]).key != x.key;
        if i < n {
            assert(a[i] == x);
            assert forall|j: int| i < j < a.len() implies (#[trigger] a[j]).key != x.key by {
                assert(c[j] == a[j]);
            }
            assert forall|j: int| 0 <= j < b.len() implies (#[trigger] b[j]).key != x.key by {
                assert(c[n + j] == b[j]);
            }
        } else {
            assert(b[i - n] == x);
            assert forall|j: int| i - n < j < b.len() implies (#[trigger] b[j]).key != x.key by {
                assert(c[n + j] == b[j]);
            }
        }
    }
}

/// A memtable keeps in step with its log: where it holds what the log's batches
/// leave, it does so after one more batch is logged and published.
pub proof fn lemma_memtable_follows_log(
    batches: Batches,
    mem: Seq<Kv>,
    base: u64,
    es: Seq<Entry>,
    mem2: Seq<Kv>,
)
    requires
        holds_latest(all_kvs(batches), mem),
        base + es.len() <= MAX_SEQNO,
        applied(mem, batch_kvs(base, es), mem2),
    ensures
        holds_latest(all_kvs(batches.push((base, es))), mem2),
{
    let a = all_kvs(batches);
    let b = batch_kvs(base, es);
    assert(batches.push((base, es)).drop_last() =~= batches);
    assert(all_kvs(batches.push((base, es))) == a + b);
    assert forall|x: Kv| #[trigger] mem2.contains(x) <==> latest_of(a + b, x) by {
        lemma_latest_concat(a, b, x);
        assert(mem.contains(x) <==> latest_of(a, x));
        if b.contains(x) {
            let i = choose|i: int| 0 <= i < b.len() && b[i] == x;
            assert forall|j: int| i < j < b.len() implies (#[trigger] b[j]).key != x.key by {
                lemma_batch_kv(base, es, i);
                lemma_batch_kv(base, es, j);
            }
            assert(latest_of(b, x));
        }
        if latest_of(b, x) {
            assert(b.contains(x));
        }
    }
}

proof fn lemma_all_kvs_concat(a: Batches, b: Batches)
    ensures
        all_kvs(a + b) == all_kvs(a) + all_kvs(b),
    decreases b.len(),
{
    if b.len() == 0 {
        assert(a + b =~= a);
        assert(all_kvs(a) + all_kvs(b) =~= all_kvs(a));
    } else {
        assert((a + b).drop_last() =~= a + b.drop_last());
        lemma_all_kvs_concat(a, b.drop_last());
        let last = batch_kvs(b.last().0, b.last().1);
        assert(all_kvs(a) + all_kvs(b.drop_last()) + last =~= all_kvs(a) + (all_kvs(b.drop_last())
            + last));
    }
}

/// A key that stands in the sequence has a latest version there.
proof fn lemma_has_latest(kvs: Seq<Kv>, j: int) -> (y: Kv)
    requires
        0 <= j < kvs.len(),
    ensures
        latest_of(kvs, y),
        y.key == kvs[j].key,
    decreases kvs.len() - j,
{
    if exists|l: int| j < l < kvs.len() && (#[trigger] kvs[l]).key == kvs[j].key {
        let l = choose|l: int| j < l < kvs.len() && (#[trigger] kvs[l]).key == kvs[j].key;
        lemma_has_latest(kvs, l)
    } else {
        assert(kvs[j] == kvs[j]);
        kvs[j]
    }
}

/// The memtables, newest first, hold what their logs' batches leave.
pub open spec fn memtables_follow(mems: Seq<Seq<Kv>>, logs: Seq<(u64, Batches)>) -> bool {
    &&& mems.len() == logs.len()
    &&& forall|i: int|
        0 <= i < logs.len() ==> holds_latest(
            all_kvs((#[trigger] logs[i]).1),
            mems[logs.len() - 1 - i],
        )
}

/// The entry stands in one of the memtables of the first `m` logs.
spec fn in_oldest(mems: Seq<Seq<Kv>>, m: int, x: Kv) -> bool {
    exists|i: int| 0 <= i < m && (#[trigger] mems[mems.len() - 1 - i]).contains(x)
}

proof fn lemma_logs_union(mems: Seq<Seq<Kv>>, logs: Seq<(u64, Batches)>, m: int, x: Kv)
    requires
        memtables_follow(mems, logs),
        newest_first(mems),
        0 <= m <= logs.len(),
    ensures
        latest_of(all_kvs(logged(logs, m)), x) <==> in_oldest(mems, m, x),
    decreases m,
{
    let n = mems.len() as int;
    if m > 0 {
        lemma_logs_union(mems, logs, m - 1, x);
        let a = all_kvs(logged(logs, m - 1));
        let b = all_kvs(logs[m - 1].1);
        let mem = mems[n - m];
        lemma_all_kvs_concat(logged(logs, m - 1), logs[m - 1].1);
        lemma_latest_concat(a, b, x);
        assert(holds_latest(b, mem));
        assert(mem == mems[n - 1 - (m - 1)]);
        assert(mem.contains(x) <==> latest_of(b, x));
        if in_oldest(mems, m - 1, x) {
            let i = choose|i: int| 0 <= i < m - 1 && (#[trigger] mems[n - 1 - i]).contains(x);
            assert(0 <= i < m);
            assert forall|j: int| 0 <= j < b.len() implies (#[trigger] b[j]).key != x.key by {
                if b[j].key == x.key {
                    let y = lemma_has_latest(b, j);
                    assert(mem.contains(y));
                    let p = choose|p: int| 0 <= p < mem.len() && mem[p] == y;
                    let older = mems[n - 1 - i];
                    let q = choose|q: int| 0 <= q < older.len() && older[q] == x;
                    assert(ukey_of(mems[n - m][p].key) == ukey_of(mems[n - 1 - i][q].key));
                    assert(seqno_of(mems[n - m][p].key) > seqno_of(mems[n - 1 - i][q].key));
                }
            }
        }
        if in_oldest(mems, m, x) && !mem.contains(x) {
            let i = choose|i: int| 0 <= i < m && (#[trigger] mems[n - 1 - i]).contains(x);
            assert(i < m - 1);
        }
    }
}

pub proof fn lemma_front_newest_first(mems: Seq<Seq<Kv>>, tree: Seq<Seq<Kv>>)
    requires
        newest_first(mems + tree),
    ensures
        newest_first(mems),
{
    assert forall|k: int, l: int, i: int, j: int|
        0 <= k < l < mems.len() && 0 <= i < mems[k].len() && 0 <= j < mems[l].len() && ukey_of(
            (#[trigger] mems[k][i]).key,
        ) == ukey_of((#[trigger] mems[l][j]).key) implies seqno_of(mems[k][i].key) > seqno_of(
        mems[l][j].key,
    ) by {
        assert((mems + tree)[k][i] == mems[k][i]);
        assert((mems + tree)[l][j] == mems[l][j]);
    }
}

/// Recovery brings back the entries of all memtables, and no others.
pub proof fn lemma_recovered_is_union(
    mems: Seq<Seq<Kv>>,
    logs: Seq<(u64, Batches)>,
    tree: Seq<Seq<Kv>>,
    recovered: Seq<Kv>,
    x: Kv,
)
    requires
        memtables_follow(mems, logs),
        newest_first(mems + tree),
        holds_latest(all_kvs(logged(logs, logs.len() as int)), recovered),
    ensures
        recovered.contains(x) <==> in_some(mems, x),
{
    let n = mems.len() as int;
    lemma_front_newest_first(mems, tree);
    lemma_logs_union(mems, logs, n, x);
    if in_some(mems, x) {
        let (k, i) = choose|k: int, i: int|
            0 <= k < mems.len() && 0 <= i < mems[k].len() && #[trigger] mems[k][i] == x;
        assert(mems[n - 1 - (n - 1 - k)].contains(x));
    }
    if in_oldest(mems, n, x) {
        let i = choose|i: int| 0 <= i < n && (#[trigger] mems[n - 1 - i]).contains(x);
        let src = mems[n - 1 - i];
        let j = choose|j: int| 0 <= j < src.len() && src[j] == x;
        assert(mems[n - 1 - i][j] == x);
    }
}

/// A reopened store reads the same: the memtable that recovery makes of the
/// logs gives every read what the memtables gave it that were lost with the
/// process.
pub proof fn lemma_reopened_store_reads_the_same(
    mems: Seq<Seq<Kv>>,
    logs: Seq<(u64, Batches)>,
    tree: Seq<Seq<Kv>>,
    recovered: Seq<Kv>,
    uk: Seq<u8>,
    snap: nat,
)
    requires
        memtables_follow(mems, logs),
        newest_first(mems + tree),
        holds_latest(all_kvs(logged(logs, logs.len() as int)), recovered),
    ensures
        first_hit(seq![recovered] + tree, uk, snap) == first_hit(mems + tree, uk, snap),
{
    let n = mems.len() as int;
    lemma_front_newest_first(mems, tree);
    assert forall|l: int| 0 <= l < mems.len() implies sorted(#[trigger] mems[l]) by {
        assert(holds_latest(all_kvs(logs[n - 1 - l].1), mems[n - 1 - (n - 1 - l)]));
    }
    lemma_newest_first_mergeable(mems);
    lemma_merged(mems, false);
    let m = merged(mems, false);
    assert forall|x: Kv| m.contains(x) <==> recovered.contains(x) by {
        lemma_recovered_is_union(mems, logs, tree, recovered, x);
    }
    lemma_same_members(m, recovered, false);
    lemma_first_hit_is_merged(mems, uk, snap);
    lemma_one_source(recovered, uk, snap);
    lemma_first_hit_split(mems, tree, uk, snap);
    lemma_first_hit_split(seq![recovered], tree, uk, snap);
}

} // verus!
