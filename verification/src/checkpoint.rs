//! Manual point-in-time checkpoints.
//!
//! A checkpoint is a complete database directory under `archive/<name>/`, made
//! like a fork's; its description file names it, says when it was made and
//! where it was cut.

use vstd::prelude::*;
use vstd::string::StringSliceAdditionalSpecFns;

use crate::coding::put_bytes;
use crate::fork::{copy_name, put_created_and_cut, read_created_and_cut};

verus! {

use crate::fork::{
    created_field, dec_bytes, lemma_dec_line, lemma_field_found, lemma_field_passed, lemma_fields,
    line_value, meta_line, meta_number, name_field, seqno_field,
};

#[derive(Debug)]
pub struct CheckpointInfo {
    pub name: String,
    pub created_unix_ms: u64,
    /// Every write with seqno <= this is contained in the archive.
    pub last_seqno: u64,
    pub path: String,
}

/// The description of a checkpoint.
pub open spec fn checkpoint_meta(name: Seq<u8>, created: u64, cut: u64) -> Seq<u8> {
    meta_line(name_field(), name) + (meta_line(created_field(), dec_bytes(created)) + (meta_line(
        seqno_field(),
        dec_bytes(cut),
    ) + Seq::<u8>::empty()))
}

/// The bytes of a checkpoint's description file.
pub fn encode_checkpoint_meta(name: &str, created_unix_ms: u64, cut: u64) -> (out: Vec<u8>)
    ensures
        out@ == checkpoint_meta(name.spec_bytes(), created_unix_ms, cut),
{
    let name_f: [u8; 5] = [0x6e, 0x61, 0x6d, 0x65, 0x3d];
    let mut out: Vec<u8> = Vec::new();
    put_bytes(&mut out, vstd::array::array_as_slice(&name_f));
    put_bytes(&mut out, name.as_bytes());
    out.push(10);
    put_created_and_cut(&mut out, created_unix_ms, cut);
    proof {
        assert(name_f@ =~= name_field());
        assert(out@ =~= checkpoint_meta(name.spec_bytes(), created_unix_ms, cut));
    }
    out
}

/// What a checkpoint's description file says.
pub fn decode_checkpoint_meta(name: &str, text: &[u8], path: String) -> (c: CheckpointInfo)
    ensures
        c.name@ == name@,
        c.path == path,
        c.created_unix_ms == meta_number(text@, created_field()),
        c.last_seqno == meta_number(text@, seqno_field()),
{
    let (created_unix_ms, last_seqno) = read_created_and_cut(text);
    CheckpointInfo { name: copy_name(name), created_unix_ms, last_seqno, path }
}

/// A checkpoint's description reads back as it was written.
pub proof fn lemma_checkpoint_meta_roundtrip(name: Seq<u8>, created: u64, cut: u64)
    requires
        line_value(name),
    ensures
        meta_number(checkpoint_meta(name, created, cut), created_field()) == created,
        meta_number(checkpoint_meta(name, created, cut), seqno_field()) == cut,
{
    lemma_dec_line(created);
    lemma_dec_line(cut);
    lemma_fields();
    let d = meta_line(seqno_field(), dec_bytes(cut)) + Seq::<u8>::empty();
    let c = meta_line(created_field(), dec_bytes(created)) + d;
    lemma_field_passed(name_field(), name, c, created_field());
    lemma_field_found(created_field(), dec_bytes(created), d);
    lemma_field_passed(name_field(), name, c, seqno_field());
    lemma_field_passed(created_field(), dec_bytes(created), d, seqno_field());
    lemma_field_found(seqno_field(), dec_bytes(cut), Seq::empty());
}

/// Made in this order.
pub open spec fn by_creation(v: Seq<CheckpointInfo>) -> bool {
    forall|i: int, j: int|
        0 <= i < j < v.len() ==> (#[trigger] v[i]).created_unix_ms <= (
        #[trigger] v[j]).created_unix_ms
}

/// Where a checkpoint belongs in the list: behind every one made no later.
pub open spec fn list_place(v: Seq<CheckpointInfo>, t: u64) -> int
    decreases v.len(),
{
    if v.len() == 0 || v.last().created_unix_ms <= t {
        v.len() as int
    } else {
        list_place(v.drop_last(), t)
    }
}

/// Add a checkpoint to a list ordered by creation.
pub fn add_to_list(v: &mut Vec<CheckpointInfo>, c: CheckpointInfo)
    requires
        by_creation(old(v)@),
    ensures
        by_creation(final(v)@),
        final(v)@ == old(v)@.insert(list_place(old(v)@, c.created_unix_ms), c),
{
    let ghost before = v@;
    let t: u64 = c.created_unix_ms;
    let mut n: usize = v.len();
    assert(before.take(n as int) =~= before);
    while n > 0 && v[n - 1].created_unix_ms > t
        invariant
            n <= v@.len(),
            v@ == before,
            by_creation(before),
            list_place(before, t) == list_place(before.take(n as int), t),
            forall|i: int| n <= i < before.len() ==> (#[trigger] before[i]).created_unix_ms > t,
        decreases n,
    {
        assert(before.take(n as int).last() == before[n - 1]);
        assert(before.take(n as int).drop_last() =~= before.take(n - 1));
        n -= 1;
    }
    proof {
        if n > 0 {
            assert(before.take(n as int).last() == before[n - 1]);
        }
        assert(list_place(before, t) == n);
    }
    v.insert(n, c);
    proof {
        let a = v@;
        assert forall|i: int, j: int| 0 <= i < j < a.len() implies (
        #[trigger] a[i]).created_unix_ms <= (#[trigger] a[j]).created_unix_ms by {
            let x = if i < n {
                i
            } else {
                i - 1
            };
            let y = if j < n {
                j
            } else {
                j - 1
            };
            if i != n && j != n {
                assert(before[x].created_unix_ms <= before[y].created_unix_ms);
            } else if i == n {
                assert(before[y].created_unix_ms > t);
            } else {
                assert(before[x].created_unix_ms <= before[n - 1].created_unix_ms);
            }
        }
    }
}

/// A checkpoint is listed behind all that were made no later, and before all that
/// were made later.
pub proof fn lemma_listed_by_creation(v: Seq<CheckpointInfo>, t: u64)
    requires
        by_creation(v),
    ensures
        0 <= list_place(v, t) <= v.len(),
        forall|i: int| 0 <= i < list_place(v, t) ==> (#[trigger] v[i]).created_unix_ms <= t,
        forall|i: int| list_place(v, t) <= i < v.len() ==> (#[trigger] v[i]).created_unix_ms > t,
    decreases v.len(),
{
    if v.len() > 0 {
        let init = v.drop_last();
        assert(v[v.len() - 1] == v.last());
        if v.last().created_unix_ms > t {
            assert forall|i: int, j: int| 0 <= i < j < init.len() implies (
            #[trigger] init[i]).created_unix_ms <= (#[trigger] init[j]).created_unix_ms by {
                assert(v[i].created_unix_ms <= v[j].created_unix_ms);
            }
            lemma_listed_by_creation(init, t);
            assert forall|i: int| 0 <= i < list_place(v, t) implies (
            #[trigger] v[i]).created_unix_ms <= t by {
                assert(init[i].created_unix_ms <= t);
            }
            assert forall|i: int| list_place(v, t) <= i < v.len() implies (
            #[trigger] v[i]).created_unix_ms > t by {
                if i < init.len() {
                    assert(init[i].created_unix_ms > t);
                }
            }
        }
    }
}

} // verus!
