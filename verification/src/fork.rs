//! Named database forks: MVCC-pinned snapshots materialized as hard links.
//!
//! A fork is a complete database directory under `archive/<name>/`: hard links
//! of the (immutable) tables and sealed vlog files, a bounded copy of the vlog
//! head, and a fresh manifest. It activates with just an open on its path,
//! writable, copy-on-write with respect to the parent.

use vstd::prelude::*;
use vstd::string::StringExecFns;
use vstd::string::StringSliceAdditionalSpecFns;

use crate::coding::put_bytes;
use crate::error::{invalid, Error, Result};
use crate::identity::{hex, name_is_ok, PendingFork, StoreIdentity};
use crate::install::contains_id;
use crate::manifest::{utf8_string, ManifestData, RunMeta};
use crate::order::{bytes_eq, to_bytes};
use crate::text::parse_dec;
use crate::version::{Run, Version};

verus! {

use crate::identity::name_ok;
use crate::install::{
    levels_by_ids, levels_over, meta_levels, meta_over, metas_over, run_by_ids, run_over,
    runs_by_ids, runs_over,
};
use crate::text::{ascii_bytes, dec_digits, digit_char, lemma_padded_roundtrip, p_dec, padded, zeros};
use vstd::utf8::{encode_utf8, valid_utf8};

pub struct ForkInfo {
    pub name: String,
    /// Stable routing handle minted at creation. For a named lineage this
    /// equals the deterministic store identity the fork mints on first
    /// read-write open.
    pub instance_id: String,
    pub created_unix_ms: u64,
    /// Every write with seqno <= this is contained in the archive.
    pub last_seqno: u64,
    pub path: String,
}

/// A fork's name: the shared charset, no leading dot.
pub fn validate_name(name: &str) -> (r: Result<()>)
    ensures
        r is Ok <==> name_ok(name.spec_bytes()),
        r matches Err(e) ==> e is InvalidArgument,
{
    if name_is_ok(name.as_bytes()) {
        Ok(())
    } else {
        Err(invalid("invalid name (use [A-Za-z0-9._-], max 64 chars, no leading dot)"))
    }
}

// ---------------------------------------------------------------------------
// The archive's manifest
// ---------------------------------------------------------------------------

fn table_ids_of(r: &Run) -> (ids: Vec<u64>)
    ensures
        ids@ == crate::install::table_ids(r.tables@),
{
    let mut ids: Vec<u64> = Vec::new();
    crate::install::add_ids(&mut ids, &r.tables);
    assert(ids@ =~= crate::install::table_ids(r.tables@));
    ids
}

/// The levels of a version with each table named by its file id.
pub fn levels_of(levels: &Vec<Vec<Run>>) -> (out: Vec<Vec<RunMeta>>)
    ensures
        meta_levels(out@) == levels_by_ids(levels_over(levels@)),
{
    let ghost want = levels_by_ids(levels_over(levels@));
    let mut out: Vec<Vec<RunMeta>> = Vec::new();
    let mut l: usize = 0;
    assert(meta_levels(out@) =~= want.take(0));
    while l < levels.len()
        invariant
            l <= levels@.len(),
            want == levels_by_ids(levels_over(levels@)),
            want.len() == levels@.len(),
            meta_levels(out@) == want.take(l as int),
        decreases levels@.len() - l,
    {
        let runs = &levels[l];
        let ghost rw = want[l as int];
        let mut level: Vec<RunMeta> = Vec::new();
        let mut r: usize = 0;
        assert(rw == runs_by_ids(runs_over(runs@)));
        assert(metas_over(level@) =~= rw.take(0));
        while r < runs.len()
            invariant
                r <= runs@.len(),
                rw == runs_by_ids(runs_over(runs@)),
                rw.len() == runs@.len(),
                metas_over(level@) == rw.take(r as int),
            decreases runs@.len() - r,
        {
            let ghost l0 = metas_over(level@);
            let m = RunMeta { id: runs[r].id, table_ids: table_ids_of(&runs[r]) };
            level.push(m);
            proof {
                assert(runs_over(runs@)[r as int] == run_over(runs@[r as int]));
                assert(rw[r as int] == run_by_ids(run_over(runs@[r as int])));
                assert(meta_over(m) == rw[r as int]);
                assert(metas_over(level@) =~= l0.push(meta_over(m)));
                assert(rw.take(r + 1) =~= rw.take(r as int).push(rw[r as int]));
            }
            r += 1;
        }
        let ghost o0 = meta_levels(out@);
        assert(rw.take(r as int) =~= rw);
        out.push(level);
        proof {
            assert(meta_levels(out@) =~= o0.push(metas_over(level@)));
            assert(want.take(l + 1) =~= want.take(l as int).push(want[l as int]));
        }
        l += 1;
    }
    assert(want.take(l as int) =~= want);
    out
}

fn copy_ids(v: &Vec<u64>) -> (out: Vec<u64>)
    ensures
        out@ == v@,
{
    let mut out: Vec<u64> = Vec::new();
    let mut i: usize = 0;
    while i < v.len()
        invariant
            i <= v@.len(),
            out@ =~= v@.take(i as int),
        decreases v@.len() - i,
    {
        out.push(v[i]);
        i += 1;
    }
    assert(out@ =~= v@);
    out
}

pub fn copy_name(s: &str) -> (out: String)
    ensures
        out@ == s@,
{
    let mut out = String::from_str("");
    out.append(s);
    proof {
        reveal_strlit("");
        assert(out@ =~= s@);
    }
    out
}

/// The manifest of an archive: the structure of the pinned version at the cut,
/// no logs, no retired files, and the counts of the files it has. An archive is
/// not a store instance until it is opened: it carries no identity of its own,
/// only the fork it would mint, under the archive's name; a nameless parent
/// gives a nameless archive.
pub fn archive_manifest(mdata: &ManifestData, version: &Version, name: &str) -> (a: ManifestData)
    ensures
        archives(*mdata, *version, name@, a),
        a.next_file_id == mdata.next_file_id,
        a.last_flushed_seqno == mdata.last_flushed_seqno,
        a.wal_floor == mdata.next_file_id,
        meta_levels(a.levels@) == levels_by_ids(levels_over(version.levels@)),
        a.vlog_live@ == version.vlogs@,
        a.vlog_head == version.vlog_head_id,
        a.vlog_retired@.len() == 0,
        a.discard@ == mdata.discard@.filter(|e: (u64, u64)| version.vlogs@.contains(e.0)),
        a.identity is None,
        match mdata.identity {
            Some(id) => a.pending_fork matches Some(f) && f.parent_instance_id@ == id.instance_id@
                && f.cut_seqno == mdata.last_flushed_seqno && f.name@ == name@,
            None => a.pending_fork is None,
        },
        a.pins@.len() == 0,
{
    let mut discard: Vec<(u64, u64)> = Vec::new();
    let mut i: usize = 0;
    let ghost d = mdata.discard@;
    let ghost p = |e: (u64, u64)| version.vlogs@.contains(e.0);
    proof {
        reveal(Seq::filter);
        assert(d.take(0) =~= Seq::empty());
    }
    while i < mdata.discard.len()
        invariant
            i <= d.len(),
            d == mdata.discard@,
            p == |e: (u64, u64)| version.vlogs@.contains(e.0),
            discard@ == d.take(i as int).filter(p),
        decreases d.len() - i,
    {
        proof {
            reveal(Seq::filter);
            assert(d.take(i + 1).drop_last() =~= d.take(i as int));
            assert(d.take(i + 1).last() == d[i as int]);
        }
        if contains_id(&version.vlogs, mdata.discard[i].0) {
            assert(p(d[i as int]));
            discard.push(mdata.discard[i]);
        }
        i += 1;
    }
    assert(d.take(i as int) =~= d);
    let pending_fork = match &mdata.identity {
        Some(id) => Some(
            PendingFork {
                parent_instance_id: id.instance_id,
                cut_seqno: mdata.last_flushed_seqno,
                name: copy_name(name),
            },
        ),
        None => None,
    };
    ManifestData {
        next_file_id: mdata.next_file_id,
        last_flushed_seqno: mdata.last_flushed_seqno,
        wal_floor: mdata.next_file_id,
        levels: levels_of(&version.levels),
        vlog_live: copy_ids(&version.vlogs),
        vlog_head: version.vlog_head_id,
        vlog_retired: Vec::new(),
        discard,
        identity: None,
        pending_fork,
        pins: Vec::new(),
    }
}

/// How a value-log file gets into an archive: a sealed one is linked whole
/// (`None`); of the head as many bytes are copied as the view captured, and all
/// of it where it was sealed since.
pub fn head_copy_len(
    id: u64,
    view_head: u64,
    cur_head: u64,
    cur_head_written: u64,
    file_len: u64,
) -> (r: Option<u64>)
    ensures
        r == (if id != view_head {
            None
        } else if id == cur_head {
            Some(cur_head_written)
        } else {
            Some(file_len)
        }),
{
    if id != view_head {
        None
    } else if id == cur_head {
        Some(cur_head_written)
    } else {
        Some(file_len)
    }
}

/// The routing id of a fork of a named store: the identity that it mints on
/// first open, in hexadecimal. A nameless lineage has none.
pub fn routing_id(a: &ManifestData) -> (r: Option<String>)
    ensures
        match a.pending_fork {
            Some(f) => r matches Some(s) && s@ == crate::text::hex_digits(
                crate::identity::fork_id(
                    f.parent_instance_id@,
                    f.cut_seqno,
                    encode_utf8(f.name@),
                ),
            ),
            None => r is None,
        },
{
    match &a.pending_fork {
        Some(f) => {
            let child = f.mint();
            Some(hex(&child.instance_id))
        },
        None => None,
    }
}

// ---------------------------------------------------------------------------
// Restoring
// ---------------------------------------------------------------------------

/// What restoring an archive does to its manifest. A minted identity means the
/// archive is a live store: copying it would give two diverging histories one
/// id. An archive of a named lineage must be given a new name, so that each
/// copy forks uniquely; one of a nameless lineage may be given a name, and is
/// then a root.
pub fn restore_manifest(mdata: &mut ManifestData, new_name: Option<&str>) -> (r: Result<()>)
    ensures
        r is Ok ==> restored(
            *old(mdata),
            *final(mdata),
            match new_name {
                Some(n) => Some(n@),
                None => None,
            },
        ),
        new_name matches Some(n) ==> (!name_ok(n.spec_bytes()) ==> r matches Err(
            Error::InvalidArgument(_),
        )),
        r matches Err(e) ==> e is InvalidArgument && *final(mdata) == *old(mdata),
        r is Ok <==> old(mdata).identity is None && (new_name matches Some(n) ==> name_ok(
            n.spec_bytes(),
        )) && (old(mdata).pending_fork is Some ==> new_name is Some),
        r is Ok ==> {
            &&& match (old(mdata).pending_fork, new_name) {
                (Some(f), Some(n)) => final(mdata).identity is None && (
                final(mdata).pending_fork matches Some(g) && g.parent_instance_id
                    == f.parent_instance_id && g.cut_seqno == f.cut_seqno && g.name@ == n@),
                (None, Some(n)) => final(mdata).pending_fork is None && (
                final(mdata).identity matches Some(id) && id.name@ == n@ && id.instance_id@
                    == crate::identity::root_id(n.spec_bytes()) && id.parent is None),
                _ => final(mdata).identity is None && final(mdata).pending_fork is None,
            }
            &&& final(mdata).next_file_id == old(mdata).next_file_id
            &&& final(mdata).last_flushed_seqno == old(mdata).last_flushed_seqno
            &&& final(mdata).wal_floor == old(mdata).wal_floor
            &&& final(mdata).levels == old(mdata).levels
            &&& final(mdata).vlog_live == old(mdata).vlog_live
            &&& final(mdata).vlog_head == old(mdata).vlog_head
            &&& final(mdata).vlog_retired == old(mdata).vlog_retired
            &&& final(mdata).discard == old(mdata).discard
            &&& final(mdata).pins == old(mdata).pins
        },
{
    if let Some(n) = new_name {
        crate::identity::validate_store_name(n)?;
    }
    if mdata.identity.is_some() {
        return Err(
            invalid("source is a live store, not a pristine archive; fork it and restore that"),
        );
    }
    match new_name {
        Some(n) => {
            match mdata.pending_fork.take() {
                Some(f) => {
                    mdata.pending_fork = Some(
                        PendingFork {
                            parent_instance_id: f.parent_instance_id,
                            cut_seqno: f.cut_seqno,
                            name: copy_name(n),
                        },
                    );
                },
                None => {
                    mdata.identity = Some(StoreIdentity::root(n));
                },
            }
        },
        None => {
            if mdata.pending_fork.is_some() {
                return Err(
                    invalid("archive descends from a named store; restoring it needs a new name"),
                );
            }
        },
    }
    Ok(())
}

pub open spec fn lock_name() -> Seq<u8> {
    seq![0x4cu8, 0x4f, 0x43, 0x4b]
}

pub open spec fn current_name() -> Seq<u8> {
    seq![0x43u8, 0x55, 0x52, 0x52, 0x45, 0x4e, 0x54]
}

/// A file that a restored copy takes over from the archive: all but the lock
/// and the manifest, which is written afresh.
pub open spec fn carried_over(name: Seq<u8>) -> bool {
    &&& name != lock_name()
    &&& name != current_name()
    &&& !crate::config::manifest_prefix().is_prefix_of(name)
}

pub fn is_carried_over(name: &[u8]) -> (b: bool)
    ensures
        b == carried_over(name@),
{
    let lock: [u8; 4] = [0x4c, 0x4f, 0x43, 0x4b];
    let current: [u8; 7] = [0x43, 0x55, 0x52, 0x52, 0x45, 0x4e, 0x54];
    let prefix: [u8; 9] = [0x4d, 0x41, 0x4e, 0x49, 0x46, 0x45, 0x53, 0x54, 0x2d];
    proof {
        assert(lock@ =~= lock_name());
        assert(current@ =~= current_name());
        assert(prefix@ =~= crate::config::manifest_prefix());
    }
    if bytes_eq(name, vstd::array::array_as_slice(&lock)) || bytes_eq(
        name,
        vstd::array::array_as_slice(&current),
    ) {
        return false;
    }
    if name.len() < 9 {
        return true;
    }
    let head = vstd::slice::slice_subrange(name, 0, 9);
    assert(head@ =~= name@.subrange(0, 9));
    let same: bool = bytes_eq(head, vstd::array::array_as_slice(&prefix));
    proof {
        if same {
            assert(crate::config::manifest_prefix() =~= name@.subrange(0, 9));
        } else if crate::config::manifest_prefix().is_prefix_of(name@) {
            assert(head@ =~= crate::config::manifest_prefix());
        }
    }
    !same
}

// ---------------------------------------------------------------------------
// The description file
// ---------------------------------------------------------------------------

pub open spec fn name_field() -> Seq<u8> {
    seq![0x6eu8, 0x61, 0x6d, 0x65, 0x3d]
}

pub open spec fn instance_field() -> Seq<u8> {
    seq![0x69u8, 0x6e, 0x73, 0x74, 0x61, 0x6e, 0x63, 0x65, 0x5f, 0x69, 0x64, 0x3d]
}

pub open spec fn created_field() -> Seq<u8> {
    seq![
        0x63u8,
        0x72,
        0x65,
        0x61,
        0x74,
        0x65,
        0x64,
        0x5f,
        0x75,
        0x6e,
        0x69,
        0x78,
        0x5f,
        0x6d,
        0x73,
        0x3d,
    ]
}

pub open spec fn seqno_field() -> Seq<u8> {
    seq![0x6cu8, 0x61, 0x73, 0x74, 0x5f, 0x73, 0x65, 0x71, 0x6e, 0x6f, 0x3d]
}

/// One field on a line of its own; the field's name ends in `=`.
pub open spec fn meta_line(field: Seq<u8>, value: Seq<u8>) -> Seq<u8> {
    field + value + seq![10u8]
}

/// The digits of a number as bytes.
pub open spec fn dec_bytes(n: u64) -> Seq<u8> {
    ascii_bytes(dec_digits(n as nat))
}

/// Where the first line ends: the place of its line feed.
pub open spec fn line_len(s: Seq<u8>) -> int
    decreases s.len(),
{
    if s.len() == 0 || s[0] == 10 {
        0
    } else {
        1 + line_len(s.skip(1))
    }
}

/// The first line without its ending. A carriage return before the line feed
/// belongs to the ending.
pub open spec fn first_line(s: Seq<u8>) -> Seq<u8> {
    let n = line_len(s);
    if n < s.len() && n > 0 && s[n - 1] == 13 {
        s.take(n - 1)
    } else {
        s.take(n)
    }
}

proof fn lemma_line_len(s: Seq<u8>)
    ensures
        0 <= line_len(s) <= s.len(),
        line_len(s) < s.len() ==> s[line_len(s)] == 10,
        forall|k: int| 0 <= k < line_len(s) ==> #[trigger] s[k] != 10,
    decreases s.len(),
{
    if s.len() > 0 && s[0] != 10 {
        let t = s.skip(1);
        lemma_line_len(t);
        assert forall|k: int| 0 <= k < line_len(s) implies #[trigger] s[k] != 10 by {
            if k > 0 {
                assert(t[k - 1] == s[k]);
            }
        }
        if line_len(s) < s.len() {
            assert(t[line_len(t)] == s[line_len(s)]);
        }
    }
}

proof fn lemma_line_at(s: Seq<u8>, n: int)
    requires
        0 <= n < s.len(),
        s[n] == 10,
        forall|k: int| 0 <= k < n ==> #[trigger] s[k] != 10,
    ensures
        line_len(s) == n,
{
    lemma_line_len(s);
    if line_len(s) < n {
        assert(s[line_len(s)] != 10);
    } else if line_len(s) > n {
        assert(s[n] != 10);
    }
}

/// The value of the first line that starts with the field.
pub open spec fn meta_value(s: Seq<u8>, field: Seq<u8>) -> Option<Seq<u8>>
    decreases s.len(),
    via meta_value_decreases
{
    if s.len() == 0 {
        None
    } else {
        let line = first_line(s);
        if field.len() <= line.len() && line.take(field.len() as int) == field {
            Some(line.skip(field.len() as int))
        } else if line_len(s) < s.len() {
            meta_value(s.skip(line_len(s) + 1), field)
        } else {
            None
        }
    }
}

#[via_fn]
proof fn meta_value_decreases(s: Seq<u8>, field: Seq<u8>) {
    lemma_line_len(s);
}

/// The value of a field in a description file.
pub fn find_field(text: &[u8], field: &[u8]) -> (r: Option<Vec<u8>>)
    ensures
        match meta_value(text@, field@) {
            Some(v) => r matches Some(x) && x@ == v,
            None => r is None,
        },
{
    let mut pos: usize = 0;
    assert(text@.skip(0) =~= text@);
    while pos < text.len()
        invariant
            pos <= text@.len(),
            meta_value(text@, field@) == meta_value(text@.skip(pos as int), field@),
        decreases text@.len() - pos,
    {
        let ghost s = text@.skip(pos as int);
        let mut end: usize = pos;
        while end < text.len() && text[end] != 10
            invariant
                pos <= end <= text@.len(),
                s == text@.skip(pos as int),
                forall|k: int| 0 <= k < end - pos ==> #[trigger] s[k] != 10,
            decreases text@.len() - end,
        {
            assert(s[end - pos] == text@[end as int]);
            end += 1;
        }
        proof {
            lemma_line_len(s);
            if end < text@.len() {
                assert(s[end - pos] == text@[end as int]);
                lemma_line_at(s, end - pos);
            } else if line_len(s) < s.len() {
                assert(s[line_len(s)] != 10);
            }
            assert(line_len(s) == end - pos);
        }
        let stop: usize = if end < text.len() && end > pos && text[end - 1] == 13 {
            end - 1
        } else {
            end
        };
        let line = vstd::slice::slice_subrange(text, pos, stop);
        proof {
            if end > pos {
                assert(s[end - pos - 1] == text@[end - 1]);
            }
            assert(line@ =~= first_line(s));
        }
        if field.len() <= line.len() {
            let head = vstd::slice::slice_subrange(line, 0, field.len());
            assert(head@ =~= line@.take(field@.len() as int));
            if bytes_eq(head, field) {
                let value = vstd::slice::slice_subrange(line, field.len(), line.len());
                assert(value@ =~= line@.skip(field@.len() as int));
                return Some(to_bytes(value));
            }
        }
        if end < text.len() {
            pos = end + 1;
            assert(s.skip(line_len(s) + 1) =~= text@.skip(pos as int));
        } else {
            return None;
        }
    }
    assert(text@.skip(pos as int).len() == 0);
    None
}

/// Append the digits of a number.
fn put_dec(out: &mut Vec<u8>, n: u64)
    ensures
        final(out)@ == old(out)@ + dec_bytes(n),
    decreases n,
{
    if n < 10 {
        let b: u8 = 0x30 + n as u8;
        out.push(b);
        assert(dec_bytes(n) =~= seq![b]);
    } else {
        put_dec(out, n / 10);
        let b: u8 = 0x30 + (n % 10) as u8;
        out.push(b);
        proof {
            assert(dec_digits(n as nat) == dec_digits((n / 10) as nat).push(
                digit_char((n % 10) as int),
            ));
            assert(dec_bytes(n) =~= dec_bytes(n / 10).push(b));
        }
    }
}

/// The description of a fork.
pub open spec fn fork_meta(name: Seq<u8>, instance: Seq<u8>, created: u64, cut: u64) -> Seq<u8> {
    meta_line(name_field(), name) + (meta_line(instance_field(), instance) + (meta_line(
        created_field(),
        dec_bytes(created),
    ) + (meta_line(seqno_field(), dec_bytes(cut)) + Seq::<u8>::empty())))
}

pub fn put_created_and_cut(out: &mut Vec<u8>, created: u64, cut: u64)
    ensures
        final(out)@ == old(out)@ + (meta_line(created_field(), dec_bytes(created)) + (meta_line(
            seqno_field(),
            dec_bytes(cut),
        ) + Seq::<u8>::empty())),
{
    let created_f: [u8; 16] = [
        0x63, 0x72, 0x65, 0x61, 0x74, 0x65, 0x64, 0x5f, 0x75, 0x6e, 0x69, 0x78, 0x5f, 0x6d, 0x73,
        0x3d,
    ];
    let seqno_f: [u8; 11] = [0x6c, 0x61, 0x73, 0x74, 0x5f, 0x73, 0x65, 0x71, 0x6e, 0x6f, 0x3d];
    let ghost before = out@;
    put_bytes(out, vstd::array::array_as_slice(&created_f));
    put_dec(out, created);
    out.push(10);
    put_bytes(out, vstd::array::array_as_slice(&seqno_f));
    put_dec(out, cut);
    out.push(10);
    proof {
        assert(created_f@ =~= created_field());
        assert(seqno_f@ =~= seqno_field());
        assert(out@ =~= before + (meta_line(created_field(), dec_bytes(created)) + (meta_line(
            seqno_field(),
            dec_bytes(cut),
        ) + Seq::<u8>::empty())));
    }
}

/// The bytes of a fork's description file.
pub fn encode_fork_meta(name: &str, instance_id: &str, created_unix_ms: u64, cut: u64) -> (out: Vec<
    u8,
>)
    ensures
        out@ == fork_meta(name.spec_bytes(), instance_id.spec_bytes(), created_unix_ms, cut),
{
    let name_f: [u8; 5] = [0x6e, 0x61, 0x6d, 0x65, 0x3d];
    let instance_f: [u8; 12] = [
        0x69, 0x6e, 0x73, 0x74, 0x61, 0x6e, 0x63, 0x65, 0x5f, 0x69, 0x64, 0x3d,
    ];
    let mut out: Vec<u8> = Vec::new();
    put_bytes(&mut out, vstd::array::array_as_slice(&name_f));
    put_bytes(&mut out, name.as_bytes());
    out.push(10);
    put_bytes(&mut out, vstd::array::array_as_slice(&instance_f));
    put_bytes(&mut out, instance_id.as_bytes());
    out.push(10);
    put_created_and_cut(&mut out, created_unix_ms, cut);
    proof {
        assert(name_f@ =~= name_field());
        assert(instance_f@ =~= instance_field());
        assert(out@ =~= fork_meta(
            name.spec_bytes(),
            instance_id.spec_bytes(),
            created_unix_ms,
            cut,
        ));
    }
    out
}

/// The number of a field, zero where the field is missing or no number.
pub open spec fn meta_number(s: Seq<u8>, field: Seq<u8>) -> u64 {
    match meta_value(s, field) {
        Some(v) => match p_dec(v) {
            Some(n) => n,
            None => 0,
        },
        None => 0,
    }
}

fn field_number(text: &[u8], field: &[u8]) -> (n: u64)
    ensures
        n == meta_number(text@, field@),
{
    match find_field(text, field) {
        Some(v) => match parse_dec(v.as_slice()) {
            Some(n) => n,
            None => 0,
        },
        None => 0,
    }
}

/// When a description says the archive was made, and its cut.
pub fn read_created_and_cut(text: &[u8]) -> (r: (u64, u64))
    ensures
        r.0 == meta_number(text@, created_field()),
        r.1 == meta_number(text@, seqno_field()),
{
    let created_f: [u8; 16] = [
        0x63, 0x72, 0x65, 0x61, 0x74, 0x65, 0x64, 0x5f, 0x75, 0x6e, 0x69, 0x78, 0x5f, 0x6d, 0x73,
        0x3d,
    ];
    let seqno_f: [u8; 11] = [0x6c, 0x61, 0x73, 0x74, 0x5f, 0x73, 0x65, 0x71, 0x6e, 0x6f, 0x3d];
    assert(created_f@ =~= created_field());
    assert(seqno_f@ =~= seqno_field());
    (
        field_number(text, vstd::array::array_as_slice(&created_f)),
        field_number(text, vstd::array::array_as_slice(&seqno_f)),
    )
}

/// What a fork's description file says. A fork without an instance id stays
/// addressable by its name.
pub fn decode_fork_meta(name: &str, text: &[u8], path: String) -> (f: ForkInfo)
    ensures
        f.name@ == name@,
        f.path == path,
        match meta_value(text@, instance_field()) {
            Some(v) => valid_utf8(v) ==> encode_utf8(f.instance_id@) == v,
            None => f.instance_id@ == name@,
        },
        f.created_unix_ms == meta_number(text@, created_field()),
        f.last_seqno == meta_number(text@, seqno_field()),
{
    let instance_f: [u8; 12] = [
        0x69, 0x6e, 0x73, 0x74, 0x61, 0x6e, 0x63, 0x65, 0x5f, 0x69, 0x64, 0x3d,
    ];
    assert(instance_f@ =~= instance_field());
    let instance_id = match find_field(text, vstd::array::array_as_slice(&instance_f)) {
        Some(v) => match utf8_string(v) {
            Some(s) => s,
            None => copy_name(name),
        },
        None => copy_name(name),
    };
    let (created_unix_ms, last_seqno) = read_created_and_cut(text);
    ForkInfo { name: copy_name(name), instance_id, created_unix_ms, last_seqno, path }
}

/// A value that fits on a line: no line feed, and no carriage return at its
/// end.
pub open spec fn line_value(v: Seq<u8>) -> bool {
    &&& forall|i: int| 0 <= i < v.len() ==> #[trigger] v[i] != 10
    &&& v.len() > 0 ==> v.last() != 13
}

/// A field's name fits on a line.
pub open spec fn field_ok(field: Seq<u8>) -> bool {
    &&& field.len() > 0
    &&& field.last() != 13
    &&& forall|i: int| 0 <= i < field.len() ==> #[trigger] field[i] != 10
}

pub proof fn lemma_fields()
    ensures
        field_ok(name_field()),
        field_ok(instance_field()),
        field_ok(created_field()),
        field_ok(seqno_field()),
        name_field()[0] == 0x6e,
        instance_field()[0] == 0x69,
        created_field()[0] == 0x63,
        seqno_field()[0] == 0x6c,
{
}

/// Lines of fields that start differently give back each value.
proof fn lemma_lines(f: Seq<Seq<u8>>, v: Seq<Seq<u8>>, text: Seq<u8>)
    requires
        f.len() == 4,
        v.len() == 4,
        forall|i: int| 0 <= i < 4 ==> field_ok(#[trigger] f[i]) && line_value(v[i]),
        forall|i: int, j: int| 0 <= i < j < 4 ==> (#[trigger] f[i])[0] != (#[trigger] f[j])[0],
        text == meta_line(f[0], v[0]) + (meta_line(f[1], v[1]) + (meta_line(f[2], v[2]) + (
        meta_line(f[3], v[3]) + Seq::<u8>::empty()))),
    ensures
        meta_value(text, f[1]) == Some(v[1]),
        meta_value(text, f[2]) == Some(v[2]),
        meta_value(text, f[3]) == Some(v[3]),
{
    let d = meta_line(f[3], v[3]) + Seq::<u8>::empty();
    let c = meta_line(f[2], v[2]) + d;
    let b = meta_line(f[1], v[1]) + c;
    assert(field_ok(f[0]) && field_ok(f[1]) && field_ok(f[2]) && field_ok(f[3]));
    lemma_field_passed(f[0], v[0], b, f[1]);
    lemma_field_found(f[1], v[1], c);
    lemma_field_passed(f[0], v[0], b, f[2]);
    lemma_field_passed(f[1], v[1], c, f[2]);
    lemma_field_found(f[2], v[2], d);
    lemma_field_passed(f[0], v[0], b, f[3]);
    lemma_field_passed(f[1], v[1], c, f[3]);
    lemma_field_passed(f[2], v[2], d, f[3]);
    lemma_field_found(f[3], v[3], Seq::empty());
}

proof fn lemma_line_split(field: Seq<u8>, v: Seq<u8>, rest: Seq<u8>)
    requires
        line_value(v),
        field_ok(field),
    ensures
        first_line(meta_line(field, v) + rest) == field + v,
        line_len(meta_line(field, v) + rest) == field.len() + v.len(),
        (meta_line(field, v) + rest).skip((field.len() + v.len() + 1) as int) == rest,
{
    let s = meta_line(field, v) + rest;
    let n = (field.len() + v.len()) as int;
    assert(s[n] == 10);
    assert forall|k: int| 0 <= k < n implies #[trigger] s[k] != 10 by {
        if k < field.len() {
            assert(s[k] == field[k]);
        } else {
            assert(s[k] == v[k - field.len()]);
        }
    }
    lemma_line_at(s, n);
    if v.len() > 0 {
        assert(s[n - 1] == v.last());
    } else {
        assert(n == field.len() && n > 0);
        assert(s[n - 1] == field[n - 1]);
    }
    assert(s.take(n) =~= field + v);
    assert(s.skip(n + 1) =~= rest);
}

pub proof fn lemma_field_found(field: Seq<u8>, v: Seq<u8>, rest: Seq<u8>)
    requires
        line_value(v),
        field_ok(field),
    ensures
        meta_value(meta_line(field, v) + rest, field) == Some(v),
{
    lemma_line_split(field, v, rest);
    assert((field + v).take(field.len() as int) =~= field);
    assert((field + v).skip(field.len() as int) =~= v);
}

pub proof fn lemma_field_passed(other: Seq<u8>, v: Seq<u8>, rest: Seq<u8>, field: Seq<u8>)
    requires
        line_value(v),
        field_ok(other),
        field.len() > 0,
        field[0] != other[0],
    ensures
        meta_value(meta_line(other, v) + rest, field) == meta_value(rest, field),
{
    lemma_line_split(other, v, rest);
    let line = other + v;
    if field.len() <= line.len() && line.take(field.len() as int) == field {
        assert(line.take(field.len() as int)[0] == other[0]);
    }
}

pub proof fn lemma_dec_line(n: u64)
    ensures
        line_value(dec_bytes(n)),
        p_dec(dec_bytes(n)) == Some(n),
    decreases n,
{
    lemma_padded_roundtrip(n, 0);
    assert(zeros(0 - dec_digits(n as nat).len() as int) =~= Seq::empty());
    assert(padded(n as nat, 0) =~= dec_digits(n as nat));
    lemma_digits_plain(n as nat);
}

proof fn lemma_digits_plain(n: nat)
    ensures
        forall|i: int|
            0 <= i < dec_digits(n).len() ==> 0x30 <= #[trigger] ascii_bytes(dec_digits(n))[i]
                <= 0x39,
    decreases n,
{
    if n >= 10 {
        lemma_digits_plain(n / 10);
        let a = ascii_bytes(dec_digits(n / 10));
        let b = ascii_bytes(dec_digits(n));
        assert forall|i: int| 0 <= i < b.len() implies 0x30 <= #[trigger] b[i] <= 0x39 by {
            if i < a.len() {
                assert(b[i] == a[i]);
            }
        }
    }
}

/// A fork's description reads back as it was written.
pub proof fn lemma_fork_meta_roundtrip(name: Seq<u8>, instance: Seq<u8>, created: u64, cut: u64)
    requires
        line_value(name),
        line_value(instance),
    ensures
        meta_value(fork_meta(name, instance, created, cut), instance_field()) == Some(instance),
        meta_number(fork_meta(name, instance, created, cut), created_field()) == created,
        meta_number(fork_meta(name, instance, created, cut), seqno_field()) == cut,
{
    lemma_dec_line(created);
    lemma_dec_line(cut);
    lemma_fields();
    let f = seq![name_field(), instance_field(), created_field(), seqno_field()];
    let v = seq![name, instance, dec_bytes(created), dec_bytes(cut)];
    lemma_lines(f, v, fork_meta(name, instance, created, cut));
}

// ---------------------------------------------------------------------------
// Listing
// ---------------------------------------------------------------------------

/// Whether an entry of the archive root is an archive: build directories start
/// with a dot.
pub fn is_archive(name: &[u8]) -> (b: bool)
    ensures
        b == !(name@.len() > 0 && name@[0] == 0x2e),
{
    !(name.len() > 0 && name[0] == 0x2e)
}

/// Made in this order.
pub open spec fn by_creation(v: Seq<ForkInfo>) -> bool {
    forall|i: int, j: int|
        0 <= i < j < v.len() ==> (#[trigger] v[i]).created_unix_ms <= (
        #[trigger] v[j]).created_unix_ms
}

/// Where a fork belongs in the list: behind every one made no later.
pub open spec fn list_place(v: Seq<ForkInfo>, t: u64) -> int
    decreases v.len(),
{
    if v.len() == 0 || v.last().created_unix_ms <= t {
        v.len() as int
    } else {
        list_place(v.drop_last(), t)
    }
}

/// Add a fork to a list ordered by creation; of those made at one time the one
/// added first stays first.
pub fn add_to_list(v: &mut Vec<ForkInfo>, f: ForkInfo)
    requires
        by_creation(old(v)@),
    ensures
        by_creation(final(v)@),
        final(v)@ == old(v)@.insert(list_place(old(v)@, f.created_unix_ms), f),
{
    let ghost before = v@;
    let t: u64 = f.created_unix_ms;
    let mut n: usize = v.len();
    assert(before.take(n as int) =~= before);
    while n > 0 && v[n - 1].created_unix_ms > t
        invariant
            n <= v@.len(),
            v@ == before,
            by_creation(before),
            list_place(before, t) == list_place(before.take(n as int), t),
            forall|i: int| n <= i < before.len() ==> (#[trigger] before[i]).created_unix_ms > t,
        decreases n,
    {
        assert(before.take(n as int).last() == before[n - 1]);
        assert(before.take(n as int).drop_last() =~= before.take(n - 1));
        n -= 1;
    }
    proof {
        if n > 0 {
            assert(before.take(n as int).last() == before[n - 1]);
        }
        assert(list_place(before, t) == n);
    }
    v.insert(n, f);
    proof {
        let a = v@;
        assert forall|i: int, j: int| 0 <= i < j < a.len() implies (
        #[trigger] a[i]).created_unix_ms <= (#[trigger] a[j]).created_unix_ms by {
            let x = if i < n {
                i
            } else {
                i - 1
            };
            let y = if j < n {
                j
            } else {
                j - 1
            };
            if i != n && j != n {
                assert(before[x].created_unix_ms <= before[y].created_unix_ms);
            } else if i == n {
                assert(before[y].created_unix_ms > t);
            } else {
                assert(before[x].created_unix_ms <= before[n - 1].created_unix_ms);
            }
        }
    }
}

/// What a restored store takes over from an archive: its tables, its value log
/// and its logs, but neither its lock, nor its manifests and the file that names
/// the current one, which the restored store writes anew.
#[verifier::rlimit(50)]
pub proof fn lemma_carried_over(id: u64)
    ensures
        carried_over(crate::config::table_file(id)),
        carried_over(crate::config::vlog_file(id)),
        carried_over(crate::config::wal_file(id)),
        !carried_over(crate::config::manifest_file(id)),
        !carried_over(crate::config::current_file()),
        !carried_over(ascii_bytes("LOCK"@)),
{
    reveal_strlit("LOCK");
    reveal_strlit("CURRENT");
    reveal_strlit("wal-");
    reveal_strlit("sst-");
    reveal_strlit("vlog-");
    reveal_strlit("MANIFEST-");
    let t = crate::config::table_file(id);
    let v = crate::config::vlog_file(id);
    let w = crate::config::wal_file(id);
    let m = crate::config::manifest_file(id);
    let p = crate::config::manifest_prefix();
    assert(t[0] == 0x73 && v[0] == 0x76 && w[0] == 0x77);
    assert(p[0] == 0x4d && lock_name()[0] == 0x4c && current_name()[0] == 0x43);
    assert(p.is_prefix_of(m)) by {
        assert(m.take(9) =~= p);
    }
    assert(crate::config::current_file() =~= current_name());
    assert(ascii_bytes("LOCK"@) =~= lock_name());
}

/// An archive is listed behind all that were made no later, and before all that
/// were made later.
pub proof fn lemma_listed_by_creation(v: Seq<ForkInfo>, t: u64)
    requires
        by_creation(v),
    ensures
        0 <= list_place(v, t) <= v.len(),
        forall|i: int| 0 <= i < list_place(v, t) ==> (#[trigger] v[i]).created_unix_ms <= t,
        forall|i: int| list_place(v, t) <= i < v.len() ==> (#[trigger] v[i]).created_unix_ms > t,
    decreases v.len(),
{
    if v.len() > 0 {
        let init = v.drop_last();
        assert(v[v.len() - 1] == v.last());
        if v.last().created_unix_ms > t {
            assert forall|i: int, j: int| 0 <= i < j < init.len() implies (
            #[trigger] init[i]).created_unix_ms <= (#[trigger] init[j]).created_unix_ms by {
                assert(v[i].created_unix_ms <= v[j].created_unix_ms);
            }
            lemma_listed_by_creation(init, t);
            assert forall|i: int| 0 <= i < list_place(v, t) implies (
            #[trigger] v[i]).created_unix_ms <= t by {
                assert(init[i].created_unix_ms <= t);
            }
            assert forall|i: int| list_place(v, t) <= i < v.len() implies (
            #[trigger] v[i]).created_unix_ms > t by {
                if i < init.len() {
                    assert(init[i].created_unix_ms > t);
                }
            }
        }
    }
}

/// The manifest is that of an archive of the version: its tree, its value log and
/// nothing of the logs, and the fork that it would be.
pub open spec fn archives(mdata: ManifestData, version: Version, name: Seq<char>, a: ManifestData) -> bool {
    &&& meta_levels(a.levels@) == levels_by_ids(levels_over(version.levels@))
    &&& a.vlog_live@ == version.vlogs@
    &&& a.wal_floor == a.next_file_id
    &&& a.next_file_id == mdata.next_file_id
    &&& a.last_flushed_seqno == mdata.last_flushed_seqno
    &&& a.identity is None
    &&& match mdata.identity {
        Some(id) => a.pending_fork matches Some(f) && f.parent_instance_id@ == id.instance_id@
            && f.cut_seqno == mdata.last_flushed_seqno && f.name@ == name,
        None => a.pending_fork is None,
    }
}

/// A fork knows where it comes from: opened, its identity is drawn from its
/// parent's, from the seqno that it was cut at and from its own name; and the logs
/// of its parent are none of its own.
#[verifier::rlimit(50)]
pub proof fn lemma_fork_knows_its_parent(
    mdata: ManifestData,
    version: Version,
    name: Seq<char>,
    a: ManifestData,
    gen: u64,
    wal: u64,
)
    requires
        archives(mdata, version, name, a),
    ensures
        mdata.identity matches Some(id) ==> crate::recovery::held_identity(a) == Some(
            (
                encode_utf8(name),
                crate::identity::fork_id(
                    id.instance_id@,
                    mdata.last_flushed_seqno,
                    encode_utf8(name),
                ),
                Some((id.instance_id@, mdata.last_flushed_seqno)),
            ),
        ),
        mdata.identity is None ==> crate::recovery::held_identity(a) is None,
        wal < mdata.next_file_id ==> crate::recovery::is_garbage(
            a,
            gen,
            crate::recovery::kind_of_name(crate::config::wal_file(wal)),
        ),
{
    crate::recovery::lemma_identity_on_record(a);
    crate::recovery::lemma_startup_deletes(a, gen, crate::config::wal_file(wal));
}

/// A fork is the tree that it was cut from: opened from the same files, it gives
/// every read of a table what the parent's tree gives it, and opening it deletes
/// none of the files that the tree or its values lie in.
#[verifier::rlimit(50)]
pub proof fn lemma_fork_is_the_tree(
    mdata: ManifestData,
    name: Seq<char>,
    a: ManifestData,
    version: Version,
    fs: Seq<(u64, Seq<u8>)>,
    opened: Seq<Vec<Run>>,
    gen: u64,
    uk: Seq<u8>,
    seq: crate::types::SeqNo,
)
    requires
        archives(mdata, version, name, a),
        crate::reopen::all_stored(fs, version.levels@),
        crate::reopen::levels_opened(fs, a.levels@, opened),
    ensures
        crate::version::levels_lookup(opened, opened.len() as int, uk, seq)
            == crate::version::levels_lookup(
            version.levels@,
            version.levels@.len() as int,
            uk,
            seq,
        ),
        forall|l: int, r: int, t: int|
            0 <= l < version.levels@.len() && 0 <= r < version.levels@[l]@.len() && 0 <= t
                < version.levels@[l]@[r].tables@.len() ==> !crate::recovery::is_garbage(
                a,
                gen,
                crate::recovery::kind_of_name(
                    crate::config::table_file(
                        (#[trigger] version.levels@[l]@[r].tables@[t]).id,
                    ),
                ),
            ),
        forall|i: int|
            0 <= i < version.vlogs@.len() ==> !crate::recovery::is_garbage(
                a,
                gen,
                crate::recovery::kind_of_name(
                    crate::config::vlog_file(#[trigger] version.vlogs@[i]),
                ),
            ),
{
    let ls = version.levels@;
    crate::reopen::lemma_reopened_lookup(fs, a.levels@, ls, opened, ls.len() as int, uk, seq);
    assert forall|l: int, r: int, t: int|
        0 <= l < ls.len() && 0 <= r < ls[l]@.len() && 0 <= t
            < ls[l]@[r].tables@.len() implies !crate::recovery::is_garbage(
        a,
        gen,
        crate::recovery::kind_of_name(
            crate::config::table_file((#[trigger] ls[l]@[r].tables@[t]).id),
        ),
    ) by {
        let id = ls[l]@[r].tables@[t].id;
        let ms = meta_levels(a.levels@);
        let bs = levels_by_ids(levels_over(ls));
        assert(ms.len() == bs.len() && ms[l] == bs[l]);
        assert(ms[l] == crate::install::metas_over(a.levels@[l]@));
        assert(bs[l] == crate::install::runs_by_ids(crate::install::runs_over(ls[l]@)));
        assert(ms[l].len() == bs[l].len());
        assert(ms[l][r] == crate::install::meta_over(a.levels@[l]@[r]));
        assert(bs[l][r].tables == crate::install::table_ids(ls[l]@[r].tables@));
        assert(a.levels@[l]@[r].table_ids@[t] == id);
        assert(a.levels@[l]@[r].table_ids@.contains(id));
        crate::recovery::lemma_startup_deletes(a, gen, crate::config::table_file(id));
    }
    assert forall|i: int| 0 <= i < version.vlogs@.len() implies !crate::recovery::is_garbage(
        a,
        gen,
        crate::recovery::kind_of_name(crate::config::vlog_file(#[trigger] version.vlogs@[i])),
    ) by {
        let id = version.vlogs@[i];
        assert(a.vlog_live@.contains(id));
        crate::recovery::lemma_startup_deletes(a, gen, crate::config::vlog_file(id));
    }
}

/// The manifest of an archive, made that of a store under a new name.
pub open spec fn restored(before: ManifestData, after: ManifestData, name: Option<Seq<char>>) -> bool {
    &&& before.identity is None
    &&& after.levels == before.levels
    &&& after.vlog_live == before.vlog_live
    &&& after.wal_floor == before.wal_floor
    &&& match (before.pending_fork, name) {
        (Some(f), Some(n)) => after.identity is None && (after.pending_fork matches Some(g)
            && g.parent_instance_id == f.parent_instance_id && g.cut_seqno == f.cut_seqno
            && g.name@ == n),
        (None, Some(n)) => after.pending_fork is None && (after.identity matches Some(id)
            && id.name@ == n && id.parent is None),
        (Some(f), None) => false,
        (None, None) => after.identity is None && after.pending_fork is None,
    }
}

/// A restored fork keeps its parent and its cut and goes by its new name; restored
/// from a nameless archive, a store begins a line of its own. What it holds stays.
pub proof fn lemma_restored_keeps_its_parent(
    before: ManifestData,
    after: ManifestData,
    name: Seq<char>,
)
    requires
        restored(before, after, Some(name)),
    ensures
        after.levels == before.levels && after.vlog_live == before.vlog_live,
        before.pending_fork matches Some(f) ==> crate::recovery::held_identity(after) == Some(
            (
                encode_utf8(name),
                crate::identity::fork_id(
                    f.parent_instance_id@,
                    f.cut_seqno,
                    encode_utf8(name),
                ),
                Some((f.parent_instance_id@, f.cut_seqno)),
            ),
        ),
        before.pending_fork is None ==> (crate::recovery::held_identity(after) matches Some(h)
            && h.0 == encode_utf8(name) && h.2 is None),
{
    crate::recovery::lemma_identity_on_record(after);
}

} // verus!
