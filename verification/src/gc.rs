//! Value-log garbage collection: which records of a file are still live, what
//! relocating them writes, and when a collected file may be deleted.

use vstd::prelude::*;

use crate::commit::Placing;
use crate::engine::Db;
use crate::batch::BatchOp;
use crate::error::{corrupt, Error, Result};
use crate::install::retired_holds;
use crate::manifest::ManifestData;
use crate::order::to_bytes;
use crate::types::{decode_repr, ReprRef, SeqNo, ValueKind, MAX_SEQNO};
use crate::version::ReadView;
use crate::vlog::{record_value_for, ScannedRecord};

verus! {

use crate::commit::{
    last_on, lemma_batch_kv, lemma_last_on, place_end, placed, placed_entry, separated,
};
use crate::engine::{batch_look, batch_read_back, sources_ok};
use crate::lookup::look_value;
use crate::maintain::{is_watermark, lemma_all_visible};

use crate::batch::{ops_view, Op};
use crate::compaction::{is_put, value_of};
use crate::install::is_retired;
use crate::iter::Kv;
use crate::table::builder::capped;
use crate::types::{kind_byte_of, kind_of_byte, p_repr, Repr};
use crate::vlog::{p_record, scanned_view, Scanned};

/// Bytes of each vlog file to sample when estimating liveness.
pub const GC_SAMPLE_BYTES: u64 = 1_048_576;

/// Skip files smaller than this: relocating them wholesale is cheap enough
/// that sampling adds nothing.
pub const GC_SAMPLE_MIN_FILE: u64 = 4_194_304;

/// Don't resample a below-ratio file until this many new writes have happened:
/// its dead ratio can only change with writes. A vlog head rotation also
/// expires the cooldown.
pub const GC_RESAMPLE_SEQ_DELTA: u64 = 10_000;

/// A collected file that waits for its last possible reader.
#[derive(Clone, Copy)]
pub struct RetiredVlog {
    pub id: u64,
    pub retired_at: SeqNo,
}

/// Both gates pass: no snapshot can resolve a version that points into the
/// file, and the relocations are durable in tables, so that recovery never
/// brings back pointers into it.
pub open spec fn deletable(r: RetiredVlog, watermark: u64, flushed: u64) -> bool {
    watermark > r.retired_at && flushed >= r.retired_at
}

/// Part the retired files into those that may be deleted and those that wait,
/// each in order.
pub fn split_retired(list: &Vec<RetiredVlog>, watermark: SeqNo, flushed: SeqNo) -> (r: (
    Vec<RetiredVlog>,
    Vec<RetiredVlog>,
))
    ensures
        r.0@ == list@.filter(|v: RetiredVlog| deletable(v, watermark, flushed)),
        r.1@ == list@.filter(|v: RetiredVlog| !deletable(v, watermark, flushed)),
        forall|v: RetiredVlog| #[trigger]
            r.0@.contains(v) <==> list@.contains(v) && v.retired_at < watermark && v.retired_at
                <= flushed,
        forall|v: RetiredVlog| #[trigger]
            r.1@.contains(v) <==> list@.contains(v) && (watermark <= v.retired_at || flushed
                < v.retired_at),
{
    let mut ready: Vec<RetiredVlog> = Vec::new();
    let mut keep: Vec<RetiredVlog> = Vec::new();
    let mut i: usize = 0;
    proof {
        reveal(Seq::filter);
        assert(list@.take(0) =~= Seq::empty());
    }
    while i < list.len()
        invariant
            i <= list@.len(),
            ready@ == list@.take(i as int).filter(
                |v: RetiredVlog| deletable(v, watermark, flushed),
            ),
            keep@ == list@.take(i as int).filter(
                |v: RetiredVlog| !deletable(v, watermark, flushed),
            ),
        decreases list@.len() - i,
    {
        proof {
            reveal(Seq::filter);
            assert(list@.take(i + 1).drop_last() =~= list@.take(i as int));
            assert(list@.take(i + 1).last() == list@[i as int]);
        }
        let r = list[i];
        if watermark > r.retired_at && flushed >= r.retired_at {
            ready.push(r);
        } else {
            keep.push(r);
        }
        i += 1;
    }
    assert(list@.take(i as int) =~= list@);
    proof {
        lemma_split(list@, watermark, flushed, ready@, keep@);
    }
    (ready, keep)
}

/// Which retired files are handed out for deletion, and which wait.
proof fn lemma_split(
    list: Seq<RetiredVlog>,
    watermark: SeqNo,
    flushed: SeqNo,
    ready: Seq<RetiredVlog>,
    keep: Seq<RetiredVlog>,
)
    requires
        ready == list.filter(|v: RetiredVlog| deletable(v, watermark, flushed)),
        keep == list.filter(|v: RetiredVlog| !deletable(v, watermark, flushed)),
    ensures
        forall|v: RetiredVlog| #[trigger]
            ready.contains(v) <==> list.contains(v) && v.retired_at < watermark && v.retired_at
                <= flushed,
        forall|v: RetiredVlog| #[trigger]
            keep.contains(v) <==> list.contains(v) && (watermark <= v.retired_at || flushed
                < v.retired_at),
{
    let p = |v: RetiredVlog| deletable(v, watermark, flushed);
    let q = |v: RetiredVlog| !deletable(v, watermark, flushed);
    assert forall|v: RetiredVlog| #[trigger]
        ready.contains(v) <==> list.contains(v) && v.retired_at < watermark && v.retired_at
            <= flushed by {
        lemma_filtered(list, p, v);
    }
    assert forall|v: RetiredVlog| #[trigger]
        keep.contains(v) <==> list.contains(v) && (watermark <= v.retired_at || flushed
            < v.retired_at) by {
        lemma_filtered(list, q, v);
    }
}

/// What passes a filter: what was there and meets the condition.
pub proof fn lemma_filtered<T>(s: Seq<T>, p: spec_fn(T) -> bool, x: T)
    ensures
        s.filter(p).contains(x) <==> s.contains(x) && p(x),
    decreases s.len(),
{
    reveal(Seq::filter);
    if s.len() > 0 {
        let init = s.drop_last();
        lemma_filtered(init, p, x);
        let f = init.filter(p);
        let g = s.filter(p);
        assert(s =~= init.push(s.last()));
        if s.contains(x) {
            let i = choose|i: int| 0 <= i < s.len() && s[i] == x;
            if i < init.len() {
                assert(init[i] == x);
            }
        }
        if init.contains(x) {
            let i = choose|i: int| 0 <= i < init.len() && init[i] == x;
            assert(s[i] == x);
        }
        assert(s[s.len() - 1] == s.last());
        if p(s.last()) {
            assert(g =~= f.push(s.last()));
            assert(g[f.len() as int] == s.last());
            if f.contains(x) {
                let i = choose|i: int| 0 <= i < f.len() && f[i] == x;
                assert(g[i] == x);
            }
            if g.contains(x) {
                let i = choose|i: int| 0 <= i < g.len() && g[i] == x;
                if i < f.len() {
                    assert(f[i] == x);
                }
            }
        }
    }
}

pub open spec fn names(ready: Seq<RetiredVlog>, id: u64) -> bool {
    exists|i: int| 0 <= i < ready.len() && (#[trigger] ready[i]).id == id
}

fn names_id(ready: &Vec<RetiredVlog>, id: u64) -> (b: bool)
    ensures
        b == names(ready@, id),
{
    let mut i: usize = 0;
    while i < ready.len()
        invariant
            i <= ready@.len(),
            forall|k: int| 0 <= k < i ==> (#[trigger] ready@[k]).id != id,
        decreases ready@.len() - i,
    {
        if ready[i].id == id {
            return true;
        }
        i += 1;
    }
    false
}

/// The manifest's list of retired files without those that are deleted.
pub fn forget_retired(list: &Vec<(u64, u64)>, ready: &Vec<RetiredVlog>) -> (out: Vec<(u64, u64)>)
    ensures
        out@ == list@.filter(|e: (u64, u64)| !names(ready@, e.0)),
{
    let mut out: Vec<(u64, u64)> = Vec::new();
    let mut i: usize = 0;
    proof {
        reveal(Seq::filter);
        assert(list@.take(0) =~= Seq::empty());
    }
    while i < list.len()
        invariant
            i <= list@.len(),
            out@ == list@.take(i as int).filter(|e: (u64, u64)| !names(ready@, e.0)),
        decreases list@.len() - i,
    {
        proof {
            reveal(Seq::filter);
            assert(list@.take(i + 1).drop_last() =~= list@.take(i as int));
            assert(list@.take(i + 1).last() == list@[i as int]);
        }
        if !names_id(ready, list[i].0) {
            out.push(list[i]);
        }
        i += 1;
    }
    assert(list@.take(i as int) =~= list@);
    out
}

/// The files that reads may resolve without those that are deleted.
pub fn forget_vlogs(vlogs: &Vec<u64>, ready: &Vec<RetiredVlog>) -> (out: Vec<u64>)
    ensures
        out@ == vlogs@.filter(|id: u64| !names(ready@, id)),
{
    let mut out: Vec<u64> = Vec::new();
    let mut i: usize = 0;
    proof {
        reveal(Seq::filter);
        assert(vlogs@.take(0) =~= Seq::empty());
    }
    while i < vlogs.len()
        invariant
            i <= vlogs@.len(),
            out@ == vlogs@.take(i as int).filter(|id: u64| !names(ready@, id)),
        decreases vlogs@.len() - i,
    {
        proof {
            reveal(Seq::filter);
            assert(vlogs@.take(i + 1).drop_last() =~= vlogs@.take(i as int));
            assert(vlogs@.take(i + 1).last() == vlogs@[i as int]);
        }
        if !names_id(ready, vlogs[i]) {
            out.push(vlogs[i]);
        }
        i += 1;
    }
    assert(vlogs@.take(i as int) =~= vlogs@);
    out
}

/// When a file was last sampled: the visible seqno and the head file then.
#[derive(Clone, Copy)]
pub struct SampledAt {
    pub id: u64,
    pub seq: SeqNo,
    pub head: u64,
}

/// The cooldown of the file's last sample, if it had one, is over.
pub open spec fn rested(sampled: Seq<SampledAt>, id: u64, now_seq: u64, head: u64) -> bool
    decreases sampled.len(),
{
    if sampled.len() == 0 {
        true
    } else if sampled.last().id == id {
        now_seq - sampled.last().seq >= GC_RESAMPLE_SEQ_DELTA || sampled.last().head != head
    } else {
        rested(sampled.drop_last(), id, now_seq, head)
    }
}

fn is_rested(sampled: &Vec<SampledAt>, id: u64, now_seq: u64, head: u64) -> (b: bool)
    ensures
        b == rested(sampled@, id, now_seq, head),
{
    let mut i: usize = sampled.len();
    assert(sampled@.take(i as int) =~= sampled@);
    while i > 0
        invariant
            i <= sampled@.len(),
            rested(sampled@.take(i as int), id, now_seq, head) == rested(
                sampled@,
                id,
                now_seq,
                head,
            ),
        decreases i,
    {
        i -= 1;
        let s = sampled[i];
        proof {
            let t = sampled@.take(i + 1);
            assert(t.last() == s);
            assert(t.drop_last() =~= sampled@.take(i as int));
        }
        if s.id == id {
            return now_seq.saturating_sub(s.seq) >= GC_RESAMPLE_SEQ_DELTA || s.head != head;
        }
    }
    true
}

/// A file that may be collected: sealed, and not retired already (a retired
/// file stays resolvable for old snapshots).
pub open spec fn collectable(id: u64, head: u64, retired: Seq<(u64, u64)>) -> bool {
    id != head && !is_retired(retired, id)
}

/// The files that may be collected.
pub fn gc_candidates(vlogs: &Vec<u64>, head: u64, retired: &Vec<(u64, u64)>) -> (out: Vec<u64>)
    ensures
        out@ == vlogs@.filter(|id: u64| collectable(id, head, retired@)),
{
    let mut out: Vec<u64> = Vec::new();
    let mut i: usize = 0;
    proof {
        reveal(Seq::filter);
        assert(vlogs@.take(0) =~= Seq::empty());
    }
    while i < vlogs.len()
        invariant
            i <= vlogs@.len(),
            out@ == vlogs@.take(i as int).filter(|id: u64| collectable(id, head, retired@)),
        decreases vlogs@.len() - i,
    {
        proof {
            reveal(Seq::filter);
            assert(vlogs@.take(i + 1).drop_last() =~= vlogs@.take(i as int));
            assert(vlogs@.take(i + 1).last() == vlogs@[i as int]);
        }
        if vlogs[i] != head && !retired_holds(retired, vlogs[i]) {
            out.push(vlogs[i]);
        }
        i += 1;
    }
    assert(vlogs@.take(i as int) =~= vlogs@);
    out
}

/// A file worth sampling: collectable, large enough and rested.
pub open spec fn samplable(
    f: (u64, u64),
    head: u64,
    retired: Seq<(u64, u64)>,
    sampled: Seq<SampledAt>,
    now_seq: u64,
) -> bool {
    &&& collectable(f.0, head, retired)
    &&& rested(sampled, f.0, now_seq, head)
    &&& f.1 >= GC_SAMPLE_MIN_FILE
}

/// The file to sample next: of those worth it, the one with the lowest id
/// (the oldest data is the most likely to have died). `files` gives the id and
/// the length of each resolvable file.
pub fn sample_candidate(
    files: &Vec<(u64, u64)>,
    head: u64,
    retired: &Vec<(u64, u64)>,
    sampled: &Vec<SampledAt>,
    now_seq: SeqNo,
) -> (r: Option<u64>)
    ensures
        match r {
            Some(id) => {
                &&& exists|i: int|
                    0 <= i < files@.len() && samplable(
                        #[trigger] files@[i],
                        head,
                        retired@,
                        sampled@,
                        now_seq,
                    ) && files@[i].0 == id
                &&& forall|i: int|
                    0 <= i < files@.len() && samplable(
                        #[trigger] files@[i],
                        head,
                        retired@,
                        sampled@,
                        now_seq,
                    ) ==> id <= files@[i].0
            },
            None => forall|i: int|
                0 <= i < files@.len() ==> !samplable(
                    #[trigger] files@[i],
                    head,
                    retired@,
                    sampled@,
                    now_seq,
                ),
        },
{
    let mut best: Option<u64> = None;
    let mut i: usize = 0;
    while i < files.len()
        invariant
            i <= files@.len(),
            match best {
                Some(id) => {
                    &&& exists|k: int|
                        0 <= k < i && samplable(
                            #[trigger] files@[k],
                            head,
                            retired@,
                            sampled@,
                            now_seq,
                        ) && files@[k].0 == id
                    &&& forall|k: int|
                        0 <= k < i && samplable(
                            #[trigger] files@[k],
                            head,
                            retired@,
                            sampled@,
                            now_seq,
                        ) ==> id <= files@[k].0
                },
                None => forall|k: int|
                    0 <= k < i ==> !samplable(
                        #[trigger] files@[k],
                        head,
                        retired@,
                        sampled@,
                        now_seq,
                    ),
            },
        decreases files@.len() - i,
    {
        let (id, len) = files[i];
        if id != head && !retired_holds(retired, id) && is_rested(sampled, id, now_seq, head) && len
            >= GC_SAMPLE_MIN_FILE {
            assert(samplable(files@[i as int], head, retired@, sampled@, now_seq));
            let lower: bool = match best {
                Some(b) => id < b,
                None => true,
            };
            if lower {
                best = Some(id);
            }
        }
        i += 1;
    }
    best
}

/// What a read found points at exactly this record of the file.
pub open spec fn record_live(hit: Option<Kv>, id: u64, rec: Scanned) -> bool {
    hit matches Some(kv) && is_put(kv) && (p_repr(kv.repr) matches Some(Repr::Ptr(p)) && p.file
        == id && p.offset == rec.offset && p.len == rec.len)
}

/// What a read found can be told live or dead.
pub open spec fn tellable(hit: Option<Kv>) -> bool {
    hit matches Some(kv) ==> kind_of_byte(kind_byte_of(kv.key)) is Some && (is_put(kv) ==> p_repr(
        kv.repr,
    ) is Some)
}

/// Whether the newest version of the record's key points at the record: if
/// not, it was relocated, overwritten or deleted, and the record is garbage.
pub fn probe(view: &ReadView<'_>, rec: &ScannedRecord, id: u64) -> (r: Result<bool>)
    requires
        view.inv(),
    ensures
        match r {
            Ok(b) => told(view.newest()(rec.key@)) && b == record_live(
                view.newest()(rec.key@)->Some_0,
                id,
                rec@,
            ),
            Err(e) => !told(view.newest()(rec.key@)) && (e is Corruption || e is Io),
        },
{
    let hit = view.get_versioned(rec.key.as_slice(), MAX_SEQNO)?;
    match hit {
        Some((ValueKind::Put, _, repr)) => {
            match decode_repr(repr.as_slice())? {
                ReprRef::Ptr(p) => Ok(p.file == id && p.offset == rec.offset && p.len == rec.len),
                ReprRef::Inline(_) => Ok(false),
            }
        },
        _ => Ok(false),
    }
}

/// The lookup could be made, and says what the key has.
pub open spec fn told(look: Option<Option<Kv>>) -> bool {
    look matches Some(hit) && tellable(hit)
}

/// Bytes of the first `n` records that are dead.
pub open spec fn dead_sum(look: spec_fn(Seq<u8>) -> Option<Option<Kv>>, recs: Seq<Scanned>, id: u64, n: int) -> nat
    decreases n,
{
    if n <= 0 {
        0
    } else {
        let hit = look(recs[n - 1].key)->Some_0;
        dead_sum(look, recs, id, n - 1) + if record_live(hit, id, recs[n - 1]) {
            0
        } else {
            recs[n - 1].len
        }
    }
}

pub open spec fn all_tellable(look: spec_fn(Seq<u8>) -> Option<Option<Kv>>, recs: Seq<Scanned>) -> bool {
    forall|i: int|
        0 <= i < recs.len() ==> told(look((#[trigger] recs[i]).key))
}

/// Dead bytes among sampled records, at most what 64 bits hold. The sample is
/// probed oldest first.
pub fn sample_dead(view: &ReadView<'_>, records: &Vec<ScannedRecord>, id: u64) -> (r: Result<u64>)
    requires
        view.inv(),
    ensures
        match r {
            Ok(n) => all_tellable(view.newest(), scanned_view(records@)) && n == capped(
                dead_sum(view.newest(), scanned_view(records@), id, records@.len() as int),
            ),
            Err(e) => (e is Corruption || e is Io) && !all_tellable(view.newest(), scanned_view(records@)),
        },
{
    let mut dead: u64 = 0;
    let mut i: usize = 0;
    let ghost recs = scanned_view(records@);
    let ghost look = view.newest();
    while i < records.len()
        invariant
            view.inv(),
            look == view.newest(),
            recs == scanned_view(records@),
            i <= records@.len(),
            dead == capped(dead_sum(look, recs, id, i as int)),
            forall|k: int|
                0 <= k < i ==> told(look((#[trigger] recs[k]).key)),
        decreases records@.len() - i,
    {
        assert(recs[i as int] == records@[i as int]@);
        match probe(view, &records[i], id) {
            Ok(live) => {
                if !live {
                    dead = dead.saturating_add(records[i].len as u64);
                }
            },
            Err(e) => {
                return Err(e);
            },
        }
        i += 1;
    }
    Ok(dead)
}

/// The value of the record in the file's bytes, where it is there.
pub open spec fn value_in(data: Seq<u8>, rec: Scanned) -> Option<Seq<u8>> {
    if rec.offset + rec.len <= data.len() {
        match p_record(data.subrange(rec.offset as int, (rec.offset + rec.len) as int)) {
            Some((k, v)) => if k == rec.key {
                Some(v)
            } else {
                None
            },
            None => None,
        }
    } else {
        None
    }
}

/// The writes that relocate the live ones of the first `n` records, in order.
pub open spec fn relocation(
    look: spec_fn(Seq<u8>) -> Option<Option<Kv>>,
    recs: Seq<Scanned>,
    id: u64,
    data: Seq<u8>,
    n: int,
) -> Seq<Op>
    decreases n,
{
    if n <= 0 {
        Seq::empty()
    } else {
        let before = relocation(look, recs, id, data, n - 1);
        let rec = recs[n - 1];
        if record_live(look(rec.key)->Some_0, id, rec) {
            before.push(Op::Put { key: rec.key, value: value_in(data, rec)->Some_0 })
        } else {
            before
        }
    }
}

/// Every live record can be read back.
pub open spec fn live_readable(
    look: spec_fn(Seq<u8>) -> Option<Option<Kv>>,
    recs: Seq<Scanned>,
    id: u64,
    data: Seq<u8>,
) -> bool {
    forall|i: int|
        0 <= i < recs.len() && record_live(
            look((#[trigger] recs[i]).key)->Some_0,
            id,
            recs[i],
        ) ==> value_in(data, recs[i]) is Some
}

/// Read the value of a record of the file.
fn value_at(data: &[u8], rec: &ScannedRecord) -> (r: Result<Vec<u8>>)
    ensures
        match value_in(data@, rec@) {
            Some(v) => r matches Ok(x) && x@ == v,
            None => r matches Err(Error::Corruption(_)),
        },
{
    let have: u64 = data.len() as u64;
    if rec.offset > have || rec.len as u64 > have - rec.offset {
        return Err(corrupt("vlog: record past the end of the file"));
    }
    let from: usize = rec.offset as usize;
    let bytes = vstd::slice::slice_subrange(data, from, from + rec.len as usize);
    record_value_for(bytes, rec.key.as_slice())
}

/// The writes that move the live ones of these records of file `id` to the
/// head of the log. They change where values lie, not what is stored: each key
/// gets the value it has.
pub fn relocations(view: &ReadView<'_>, records: &Vec<ScannedRecord>, id: u64, data: &[u8]) -> (r:
    Result<Vec<BatchOp>>)
    requires
        view.inv(),
    ensures
        ({
            let recs = scanned_view(records@);
            let good = all_tellable(view.newest(), recs) && live_readable(
                view.newest(),
                recs,
                id,
                data@,
            );
            match r {
                Ok(ops) => good && ops_view(ops@) == relocation(
                    view.newest(),
                    recs,
                    id,
                    data@,
                    recs.len() as int,
                ),
                Err(e) => !good && (e is Corruption || e is Io),
            }
        }),
{
    let mut ops: Vec<BatchOp> = Vec::new();
    let mut i: usize = 0;
    let ghost recs = scanned_view(records@);
    let ghost look = view.newest();
    assert(ops_view(ops@) =~= Seq::<Op>::empty());
    while i < records.len()
        invariant
            view.inv(),
            look == view.newest(),
            recs == scanned_view(records@),
            i <= records@.len(),
            ops_view(ops@) == relocation(look, recs, id, data@, i as int),
            forall|k: int|
                0 <= k < i ==> told(look((#[trigger] recs[k]).key)) && (record_live(
                    look(recs[k].key)->Some_0,
                    id,
                    recs[k],
                ) ==> value_in(data@, recs[k]) is Some),
        decreases records@.len() - i,
    {
        assert(recs[i as int] == records@[i as int]@);
        let live: bool = match probe(view, &records[i], id) {
            Ok(b) => b,
            Err(e) => {
                return Err(e);
            },
        };
        if live {
            let value = match value_at(data, &records[i]) {
                Ok(v) => v,
                Err(e) => {
                    return Err(e);
                },
            };
            let ghost before = ops_view(ops@);
            let op = BatchOp::Put { key: to_bytes(records[i].key.as_slice()), value };
            ops.push(op);
            assert(ops_view(ops@) =~= before.push(op@));
        }
        i += 1;
    }
    assert(recs.len() == records@.len());
    Ok(ops)
}

/// Each relocating write leaves the value that its key has: what it puts is
/// what the newest version of the key points at.
pub proof fn lemma_relocation_keeps_values(
    look: spec_fn(Seq<u8>) -> Option<Option<Kv>>,
    recs: Seq<Scanned>,
    id: u64,
    data: Seq<u8>,
    n: int,
    k: int,
)
    requires
        0 <= n <= recs.len(),
        live_readable(look, recs, id, data),
        0 <= k < relocation(look, recs, id, data, n).len(),
    ensures
        relocation(look, recs, id, data, n)[k] matches Op::Put { key, value } && (value_of(
            look(key)->Some_0,
        ) matches Some(repr) && (p_repr(repr) matches Some(Repr::Ptr(p)) && p.file == id && p.offset
            + p.len <= data.len() && p_record(
            data.subrange(p.offset as int, p.offset + p.len),
        ) == Some((key, value)))),
    decreases n,
{
    if n > 0 {
        let before = relocation(look, recs, id, data, n - 1);
        if k < before.len() {
            lemma_relocation_keeps_values(look, recs, id, data, n - 1, k);
        } else {
            let rec = recs[n - 1];
            assert(record_live(look(recs[n - 1].key)->Some_0, id, rec));
            assert(value_in(data, recs[n - 1]) is Some);
        }
    }
}

// ---------------------------------------------------------------------------
// A collected file is left
// ---------------------------------------------------------------------------

/// What a lookup finds is a value that lies in the file.
pub open spec fn points_into(look: Option<Option<Kv>>, id: u64) -> bool {
    look matches Some(hit) && (value_of(hit) matches Some(repr) && (p_repr(repr) matches Some(
        Repr::Ptr(p),
    ) && p.file == id))
}

/// Every newest version whose value lies in the file points at one of the
/// records.
pub open spec fn all_listed(
    look: spec_fn(Seq<u8>) -> Option<Option<Kv>>,
    recs: Seq<Scanned>,
    id: u64,
) -> bool {
    forall|uk: Seq<u8>| #[trigger]
        points_into(look(uk), id) ==> exists|i: int|
            0 <= i < recs.len() && (#[trigger] recs[i]).key == uk && record_live(
                look(uk)->Some_0,
                id,
                recs[i],
            )
}

/// A batch that is placed in another file leaves no new value in this one: a
/// key whose newest version lies in it after the batch had it there before, and
/// the batch does not touch the key.
pub proof fn lemma_writes_point_elsewhere(
    before: Db,
    after: Db,
    ops: Seq<Op>,
    pl: Placing,
    off: nat,
    id: u64,
    uk: Seq<u8>,
    snap: SeqNo,
)
    requires
        pl.head != id,
        before.visible + 1 + ops.len() <= MAX_SEQNO,
        snap >= before.visible + ops.len(),
        batch_read_back(before, after, (before.visible + 1) as u64, placed(ops, pl, off)),
        points_into(after.lookup(uk, snap), id),
    ensures
        after.lookup(uk, snap) == before.lookup(uk, snap),
        forall|i: int| 0 <= i < ops.len() ==> op_key(#[trigger] ops[i]) != uk,
{
    let base = (before.visible + 1) as u64;
    let es = placed(ops, pl, off);
    let n = es.len() as int;
    assert(after.lookup(uk, snap) == batch_look(before, base, es, uk, snap));
    lemma_last_on(es, uk, n);
    match last_on(es, uk, n) {
        Some(i) => {
            lemma_batch_kv(base, es, i);
            let e = placed_entry(ops[i], pl, place_end(ops, pl, off, i));
            assert(es[i] == e);
            if let Op::Put { key, value } = ops[i] {
                if separated(ops[i], pl) {
                    let p = crate::types::ValuePtr {
                        file: pl.head,
                        offset: place_end(ops, pl, off, i) as u64,
                        len: crate::commit::op_record(ops[i]).len() as u32,
                    };
                    crate::types::lemma_repr_roundtrip(Repr::Ptr(p));
                } else {
                    crate::types::lemma_repr_roundtrip(Repr::Inline(value));
                }
            }
        },
        None => {
            assert forall|i: int| 0 <= i < ops.len() implies op_key(#[trigger] ops[i]) != uk by {
                assert(es[i].key != uk);
                assert(es[i] == placed_entry(ops[i], pl, place_end(ops, pl, off, i)));
            }
        },
    }
}

pub open spec fn op_key(op: Op) -> Seq<u8> {
    match op {
        Op::Put { key, .. } => key,
        Op::Delete { key } => key,
    }
}

/// A live record among the first `n` is relocated.
proof fn lemma_relocated(
    look: spec_fn(Seq<u8>) -> Option<Option<Kv>>,
    recs: Seq<Scanned>,
    id: u64,
    data: Seq<u8>,
    n: int,
    i: int,
) -> (k: int)
    requires
        0 <= i < n <= recs.len(),
        record_live(look(recs[i].key)->Some_0, id, recs[i]),
    ensures
        0 <= k < relocation(look, recs, id, data, n).len(),
        op_key(relocation(look, recs, id, data, n)[k]) == recs[i].key,
    decreases n,
{
    if i == n - 1 {
        relocation(look, recs, id, data, n - 1).len() as int
    } else {
        lemma_relocated(look, recs, id, data, n - 1, i)
    }
}

/// Relocating some of a file's records leaves only the others: every newest
/// version that still lies in the file points at one of the rest.
pub proof fn lemma_relocated_chunk(
    before: Db,
    after: Db,
    chunk: Seq<Scanned>,
    rest: Seq<Scanned>,
    data: Seq<u8>,
    pl: Placing,
    off: nat,
    id: u64,
)
    requires
        ({
            let look = |k: Seq<u8>| before.lookup(k, MAX_SEQNO);
            let ops = relocation(look, chunk, id, data, chunk.len() as int);
            &&& all_listed(look, chunk + rest, id)
            &&& before.visible + 1 + ops.len() <= MAX_SEQNO
            &&& batch_read_back(before, after, (before.visible + 1) as u64, placed(ops, pl, off))
        }),
        pl.head != id,
    ensures
        all_listed(|k: Seq<u8>| after.lookup(k, MAX_SEQNO), rest, id),
{
    let look = |k: Seq<u8>| before.lookup(k, MAX_SEQNO);
    let later = |k: Seq<u8>| after.lookup(k, MAX_SEQNO);
    let n = chunk.len() as int;
    let recs = chunk + rest;
    let ops = relocation(look, chunk, id, data, n);
    assert forall|uk: Seq<u8>| #[trigger] points_into(later(uk), id) implies exists|i: int|
        0 <= i < rest.len() && (#[trigger] rest[i]).key == uk && record_live(
            later(uk)->Some_0,
            id,
            rest[i],
        ) by {
        lemma_writes_point_elsewhere(before, after, ops, pl, off, id, uk, MAX_SEQNO);
        assert(points_into(look(uk), id));
        let i = choose|i: int|
            0 <= i < recs.len() && (#[trigger] recs[i]).key == uk && record_live(
                look(uk)->Some_0,
                id,
                recs[i],
            );
        if i < n {
            assert(recs[i] == chunk[i]);
            let k = lemma_relocated(look, chunk, id, data, n, i);
            assert(op_key(ops[k]) == uk);
        } else {
            assert(recs[i] == rest[i - n]);
        }
    }
}

/// Once the live records of a file are relocated, no key's newest version lies
/// in the file.
pub proof fn lemma_relocated_file_is_left(
    before: Db,
    after: Db,
    recs: Seq<Scanned>,
    data: Seq<u8>,
    pl: Placing,
    off: nat,
    id: u64,
    uk: Seq<u8>,
)
    requires
        ({
            let look = |k: Seq<u8>| before.lookup(k, MAX_SEQNO);
            let ops = relocation(look, recs, id, data, recs.len() as int);
            &&& all_listed(look, recs, id)
            &&& before.visible + 1 + ops.len() <= MAX_SEQNO
            &&& batch_read_back(before, after, (before.visible + 1) as u64, placed(ops, pl, off))
        }),
        pl.head != id,
    ensures
        !points_into(after.lookup(uk, MAX_SEQNO), id),
{
    let none = Seq::<Scanned>::empty();
    assert(recs + none =~= recs);
    lemma_relocated_chunk(before, after, recs, none, data, pl, off, id);
    let later = |k: Seq<u8>| after.lookup(k, MAX_SEQNO);
    assert(!points_into(later(uk), id));
}

/// Where a key's newest version can be read and does not lie in a file, no read
/// of the key from now on is answered from it.
pub proof fn lemma_no_read_into_left_file(db: Db, id: u64, uk: Seq<u8>, snap: SeqNo)
    requires
        db.inv(),
        db.lookup(uk, MAX_SEQNO) is Some,
        db.visible <= snap <= MAX_SEQNO,
        !points_into(db.lookup(uk, MAX_SEQNO), id),
    ensures
        !points_into(db.lookup(uk, snap), id),
{
    db.lemma_lookup_is_newest(uk, snap);
    db.lemma_lookup_is_newest(uk, MAX_SEQNO);
    assert(sources_ok(db.sources(), db.visible as nat));
    lemma_all_visible(db.sources(), uk, snap as nat, MAX_SEQNO as nat);
}

/// No read at the seqno is answered from the file.
pub open spec fn left_at(db: Db, id: u64, snap: SeqNo) -> bool {
    forall|uk: Seq<u8>| !points_into(#[trigger] db.lookup(uk, snap), id)
}

/// A file is left from its retirement on: where every newest version can be read
/// and none lies in the file, no read from now on is answered from it.
pub proof fn lemma_left_from_retirement_on(db: Db, id: u64, snap: SeqNo)
    requires
        db.inv(),
        db.visible <= snap <= MAX_SEQNO,
        forall|uk: Seq<u8>| #[trigger] db.lookup(uk, MAX_SEQNO) is Some,
        left_at(db, id, MAX_SEQNO),
    ensures
        left_at(db, id, snap),
{
    assert forall|uk: Seq<u8>| !points_into(#[trigger] db.lookup(uk, snap), id) by {
        assert(!points_into(db.lookup(uk, MAX_SEQNO), id));
        lemma_no_read_into_left_file(db, id, uk, snap);
    }
}

/// What is written later goes elsewhere: a file that reads at a seqno do not lead
/// into stays so across a batch, for readers that see all of the batch and for
/// those that see nothing of it.
pub proof fn lemma_write_keeps_file_left(
    before: Db,
    after: Db,
    ops: Seq<Op>,
    pl: Placing,
    off: nat,
    id: u64,
    snap: SeqNo,
)
    requires
        pl.head != id,
        before.visible + 1 + ops.len() <= MAX_SEQNO,
        batch_read_back(before, after, (before.visible + 1) as u64, placed(ops, pl, off)),
        left_at(before, id, snap),
        snap <= before.visible || snap >= before.visible + ops.len(),
    ensures
        left_at(after, id, snap),
{
    assert forall|uk: Seq<u8>| !points_into(#[trigger] after.lookup(uk, snap), id) by {
        assert(!points_into(before.lookup(uk, snap), id));
        if snap <= before.visible {
            assert(after.lookup(uk, snap) == before.lookup(uk, snap));
        } else if points_into(after.lookup(uk, snap), id) {
            lemma_writes_point_elsewhere(before, after, ops, pl, off, id, uk, snap);
        }
    }
}

/// Moving data keeps a file left: what every lookup at the seqno comes to stays, so
/// none leads into the file that led elsewhere before.
pub proof fn lemma_moving_keeps_file_left(before: Db, after: Db, id: u64, snap: SeqNo)
    requires
        left_at(before, id, snap),
        forall|uk: Seq<u8>| look_value(#[trigger] after.lookup(uk, snap)) == look_value(
            before.lookup(uk, snap),
        ),
    ensures
        left_at(after, id, snap),
{
    assert forall|uk: Seq<u8>| !points_into(#[trigger] after.lookup(uk, snap), id) by {
        assert(!points_into(before.lookup(uk, snap), id));
        assert(look_value(after.lookup(uk, snap)) == look_value(before.lookup(uk, snap)));
    }
}

/// No file that is handed out for deletion can be reached by a reader. Where
/// every retired file is left for those who may read at its retirement or later,
/// a file that `split_retired` hands out at the store's watermark is left for every snapshot
/// that is held and for whatever reads from now on; its retirement lies below
/// every snapshot that is held.
pub proof fn lemma_deleted_file_is_unread(
    db: Db,
    list: Seq<RetiredVlog>,
    watermark: SeqNo,
    flushed: SeqNo,
    ready: Seq<RetiredVlog>,
    keep: Seq<RetiredVlog>,
    r: RetiredVlog,
    snap: SeqNo,
)
    requires
        db.inv(),
        is_watermark(db, watermark),
        ready == list.filter(|v: RetiredVlog| deletable(v, watermark, flushed)),
        keep == list.filter(|v: RetiredVlog| !deletable(v, watermark, flushed)),
        ready.contains(r),
        db.snapshots.held(snap) > 0 || db.visible <= snap,
        snap <= MAX_SEQNO,
        forall|v: RetiredVlog, s: SeqNo|
            #![trigger list.contains(v), left_at(db, v.id, s)]
            list.contains(v) && v.retired_at <= s <= MAX_SEQNO && db.may_read(s as nat) ==> left_at(
                db,
                v.id,
                s,
            ),
    ensures
        r.retired_at <= flushed,
        db.snapshots.held(snap) > 0 ==> r.retired_at < snap,
        left_at(db, r.id, snap),
{
    lemma_split(list, watermark, flushed, ready, keep);
    assert(list.contains(r));
    if db.snapshots.held(snap) == 0 {
        if exists|q: u64| #[trigger] db.snapshots.held(q) > 0 {
            assert(db.snapshots.held(watermark) > 0);
        } else {
            assert(watermark == db.visible + 1);
        }
    }
    assert(r.retired_at <= snap);
    assert(db.may_read(snap as nat));
    assert(left_at(db, r.id, snap));
}

/// A record is live exactly where a read of its key is answered from it: the
/// newest version of the key points at the record's place in the file.
pub proof fn lemma_live_is_read(look: Option<Option<Kv>>, id: u64, rec: Scanned)
    requires
        look is Some,
    ensures
        record_live(look->Some_0, id, rec) <==> points_into(look, id) && (value_of(
            look->Some_0,
        ) matches Some(repr) && (p_repr(repr) matches Some(Repr::Ptr(p)) && p.offset == rec.offset
            && p.len == rec.len)),
{
}

/// The bytes of the first `n` records, and of the live ones among them.
pub open spec fn record_bytes(recs: Seq<Scanned>, n: int) -> nat
    decreases n,
{
    if n <= 0 {
        0
    } else {
        record_bytes(recs, n - 1) + recs[n - 1].len
    }
}

pub open spec fn live_bytes(
    look: spec_fn(Seq<u8>) -> Option<Option<Kv>>,
    recs: Seq<Scanned>,
    id: u64,
    n: int,
) -> nat
    decreases n,
{
    if n <= 0 {
        0
    } else {
        let rest = live_bytes(look, recs, id, n - 1);
        let hit = look(recs[n - 1].key);
        if points_into(hit, id) && (value_of(hit->Some_0) matches Some(repr) && (p_repr(
            repr,
        ) matches Some(Repr::Ptr(p)) && p.offset == recs[n - 1].offset && p.len == recs[n
            - 1].len)) {
            rest + recs[n - 1].len
        } else {
            rest
        }
    }
}

/// What a sample counts as dead is all that no read is answered from.
pub proof fn lemma_dead_is_what_is_not_read(
    look: spec_fn(Seq<u8>) -> Option<Option<Kv>>,
    recs: Seq<Scanned>,
    id: u64,
    n: int,
)
    requires
        0 <= n <= recs.len(),
        all_tellable(look, recs),
    ensures
        dead_sum(look, recs, id, n) + live_bytes(look, recs, id, n) == record_bytes(recs, n),
    decreases n,
{
    if n > 0 {
        lemma_dead_is_what_is_not_read(look, recs, id, n - 1);
        assert(told(look(recs[n - 1].key)));
        lemma_live_is_read(look(recs[n - 1].key), id, recs[n - 1]);
    }
}

/// Neither the file that is being written nor one that was collected already is
/// ever collected, and every other one may be.
pub proof fn lemma_candidates(vlogs: Seq<u64>, head: u64, retired: Seq<(u64, u64)>, id: u64)
    ensures
        vlogs.filter(|i: u64| collectable(i, head, retired)).contains(id) <==> vlogs.contains(id)
            && id != head && forall|i: int|
            0 <= i < retired.len() ==> (#[trigger] retired[i]).0 != id,
{
    lemma_filtered(vlogs, |i: u64| collectable(i, head, retired), id);
}

/// A file is sampled anew only after a rest: one that was never sampled may be;
/// of one that was, the last sample counts, and must be old enough or of another
/// head of the log.
pub proof fn lemma_rest(sampled: Seq<SampledAt>, id: u64, now_seq: u64, head: u64, i: int)
    ensures
        (forall|j: int| 0 <= j < sampled.len() ==> (#[trigger] sampled[j]).id != id) ==> rested(
            sampled,
            id,
            now_seq,
            head,
        ),
        0 <= i < sampled.len() && sampled[i].id == id && (forall|j: int|
            i < j < sampled.len() ==> (#[trigger] sampled[j]).id != id) ==> (rested(
            sampled,
            id,
            now_seq,
            head,
        ) <==> sampled[i].head != head || now_seq >= sampled[i].seq + GC_RESAMPLE_SEQ_DELTA),
    decreases sampled.len(),
{
    if sampled.len() > 0 {
        let init = sampled.drop_last();
        lemma_rest(init, id, now_seq, head, i);
        assert(sampled[sampled.len() - 1] == sampled.last());
        if forall|j: int| 0 <= j < sampled.len() ==> (#[trigger] sampled[j]).id != id {
            assert forall|j: int| 0 <= j < init.len() implies (#[trigger] init[j]).id != id by {
                assert(sampled[j].id != id);
            }
        }
        if 0 <= i < init.len() && (forall|j: int|
            i < j < sampled.len() ==> (#[trigger] sampled[j]).id != id) {
            assert forall|j: int| i < j < init.len() implies (#[trigger] init[j]).id != id by {
                assert(sampled[j].id != id);
            }
            assert(init[i] == sampled[i]);
        }
    }
}

/// What is deleted is forgotten, and nothing else is: neither of the lists names
/// a deleted file any more, and each still names every other.
pub proof fn lemma_only_deleted_is_forgotten(
    retired: Seq<(u64, u64)>,
    vlogs: Seq<u64>,
    ready: Seq<RetiredVlog>,
    e: (u64, u64),
    id: u64,
)
    ensures
        retired.filter(|e: (u64, u64)| !names(ready, e.0)).contains(e) <==> retired.contains(e)
            && forall|i: int| 0 <= i < ready.len() ==> (#[trigger] ready[i]).id != e.0,
        vlogs.filter(|id: u64| !names(ready, id)).contains(id) <==> vlogs.contains(id) && forall|
            i: int,
        |
            0 <= i < ready.len() ==> (#[trigger] ready[i]).id != id,
{
    lemma_filtered(retired, |e: (u64, u64)| !names(ready, e.0), e);
    lemma_filtered(vlogs, |id: u64| !names(ready, id), id);
}

/// The manifest records that a file was collected.
pub open spec fn is_retirement(
    before: ManifestData,
    after: ManifestData,
    victim: u64,
    retired_at: SeqNo,
) -> bool {
    &&& forall|id: u64| #[trigger]
        after.vlog_live@.contains(id) <==> before.vlog_live@.contains(id) && id != victim
    &&& after.vlog_retired@ == before.vlog_retired@.push((victim, retired_at))
    &&& after.levels == before.levels
    &&& after.wal_floor == before.wal_floor
}

/// A collected file waits for its last reader: it is no longer live, but a restart
/// keeps it, under the seqno at which it was collected; every other file is kept
/// or not as before.
#[verifier::spinoff_prover]
#[verifier::rlimit(60)]
pub proof fn lemma_retired_file_waits(
    before: ManifestData,
    after: ManifestData,
    victim: u64,
    retired_at: SeqNo,
    gen: u64,
    id: u64,
)
    requires
        is_retirement(before, after, victim, retired_at),
    ensures
        !after.vlog_live@.contains(victim),
        after.vlog_retired@.contains((victim, retired_at)),
        !crate::recovery::is_garbage(
            after,
            gen,
            crate::recovery::kind_of_name(crate::config::vlog_file(victim)),
        ),
        id != victim ==> crate::recovery::is_garbage(
            after,
            gen,
            crate::recovery::kind_of_name(crate::config::vlog_file(id)),
        ) == crate::recovery::is_garbage(
            before,
            gen,
            crate::recovery::kind_of_name(crate::config::vlog_file(id)),
        ),
{
    crate::recovery::lemma_startup_deletes(after, gen, crate::config::vlog_file(id));
    crate::recovery::lemma_startup_deletes(before, gen, crate::config::vlog_file(id));
    crate::recovery::lemma_startup_deletes(after, gen, crate::config::vlog_file(victim));
    let a = after.vlog_retired@;
    let b = before.vlog_retired@;
    assert(a[b.len() as int] == (victim, retired_at));
    assert(a[b.len() as int].0 == victim);
    if is_retired(b, id) {
        let i = choose|i: int| 0 <= i < b.len() && (#[trigger] b[i]).0 == id;
        assert(a[i].0 == id);
    }
    if id != victim && is_retired(a, id) {
        let i = choose|i: int| 0 <= i < a.len() && (#[trigger] a[i]).0 == id;
        assert(b[i].0 == id);
    }
}

/// Record the collected file as retired: it is no longer live, waits for its
/// last reader, and its discard count goes. Nothing else changes.
pub fn retire(data: &mut ManifestData, victim: u64, retired_at: SeqNo)
    ensures
        is_retirement(*old(data), *final(data), victim, retired_at),
        final(data).vlog_live@ == old(data).vlog_live@.filter(|id: u64| id != victim),
        final(data).vlog_retired@ == old(data).vlog_retired@.push((victim, retired_at)),
        final(data).discard@ == old(data).discard@.filter(|e: (u64, u64)| e.0 != victim),
        final(data).next_file_id == old(data).next_file_id,
        final(data).last_flushed_seqno == old(data).last_flushed_seqno,
        final(data).wal_floor == old(data).wal_floor,
        final(data).levels == old(data).levels,
        final(data).vlog_head == old(data).vlog_head,
        final(data).identity == old(data).identity,
        final(data).pending_fork == old(data).pending_fork,
        final(data).pins == old(data).pins,
{
    let mut live: Vec<u64> = Vec::new();
    let mut i: usize = 0;
    let ghost before = data.vlog_live@;
    proof {
        reveal(Seq::filter);
        assert(before.take(0) =~= Seq::empty());
    }
    while i < data.vlog_live.len()
        invariant
            i <= before.len(),
            before == data.vlog_live@,
            live@ == before.take(i as int).filter(|id: u64| id != victim),
        decreases before.len() - i,
    {
        proof {
            reveal(Seq::filter);
            assert(before.take(i + 1).drop_last() =~= before.take(i as int));
            assert(before.take(i + 1).last() == before[i as int]);
        }
        if data.vlog_live[i] != victim {
            live.push(data.vlog_live[i]);
        }
        i += 1;
    }
    assert(before.take(i as int) =~= before);
    let mut left: Vec<(u64, u64)> = Vec::new();
    let mut j: usize = 0;
    let ghost counts = data.discard@;
    proof {
        reveal(Seq::filter);
        assert(counts.take(0) =~= Seq::empty());
    }
    while j < data.discard.len()
        invariant
            j <= counts.len(),
            counts == data.discard@,
            left@ == counts.take(j as int).filter(|e: (u64, u64)| e.0 != victim),
        decreases counts.len() - j,
    {
        proof {
            reveal(Seq::filter);
            assert(counts.take(j + 1).drop_last() =~= counts.take(j as int));
            assert(counts.take(j + 1).last() == counts[j as int]);
        }
        if data.discard[j].0 != victim {
            left.push(data.discard[j]);
        }
        j += 1;
    }
    assert(counts.take(j as int) =~= counts);
    proof {
        assert forall|id: u64| #[trigger] live@.contains(id) <==> before.contains(id) && id
            != victim by {
            lemma_filtered(before, |id: u64| id != victim, id);
        }
    }
    data.vlog_live = live;
    data.vlog_retired.push((victim, retired_at));
    data.discard = left;
}

/// A file is sampled only where that can lead to something: it may be collected,
/// its rest is over, and it is large enough.
pub proof fn lemma_sampled_is_worth_it(
    f: (u64, u64),
    head: u64,
    retired: Seq<(u64, u64)>,
    sampled: Seq<SampledAt>,
    now_seq: u64,
)
    ensures
        samplable(f, head, retired, sampled, now_seq) <==> f.0 != head && (forall|i: int|
            0 <= i < retired.len() ==> (#[trigger] retired[i]).0 != f.0) && rested(
            sampled,
            f.0,
            now_seq,
            head,
        ) && f.1 >= 4 * 1024 * 1024,
{
}

} // verus!
