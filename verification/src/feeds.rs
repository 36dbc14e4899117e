//! What a trigger's module is told: every committed write in the trigger's
//! range, and the bytes that it reads them from.

use vstd::prelude::*;

use crate::trigger::{TriggerLimits, TriggerMode, CHANGE_PUT};

verus! {

use crate::batch::Op;
use crate::coding::{
    be_value, enc_be, enc_len_prefixed, enc_u32, enc_u64, lemma_be_roundtrip, lemma_bytes_roundtrip,
    lemma_len_prefixed_roundtrip, lemma_pow256_values, lemma_u32_roundtrip, lemma_u64_roundtrip,
    p_bytes, p_len_prefixed, p_u32, p_u64, p_u8,
};
use crate::order::{lex_le, lex_lt};
use crate::trigger::{
    all_changes, backoff, change_event, changes_taken, inline_cap, is_touched_list, key_events,
    keys_taken, lemma_change_roundtrip, mode_of, op_changes, p_change, packed_change,
    packed_changes, packed_key, packed_keys, queued_change, trigger_name_ok, Def, Packed,
};
use crate::types::queue_prefix_of;

/// A change as a module reads it.
pub struct Change {
    pub seq: u64,
    pub kind: u8,
    pub key: Seq<u8>,
    pub value: Seq<u8>,
}

/// Read one change: `u64` seqno, `u8` kind, `u32` length and key, and for a put
/// `u32` length and value.
pub open spec fn p_packed_change(s: Seq<u8>) -> Option<(Change, Seq<u8>)> {
    match p_u64(s) {
        Some((seq, s1)) => match p_u8(s1) {
            Some((kind, s2)) => match p_u32(s2) {
                Some((klen, s3)) => match p_bytes(s3, klen as nat) {
                    Some((key, s4)) => if kind == 0 {
                        match p_u32(s4) {
                            Some((vlen, s5)) => match p_bytes(s5, vlen as nat) {
                                Some((value, s6)) => Some((Change { seq, kind, key, value }, s6)),
                                None => None,
                            },
                            None => None,
                        }
                    } else {
                        Some((Change { seq, kind, key, value: Seq::empty() }, s4))
                    },
                    None => None,
                },
                None => None,
            },
            None => None,
        },
        None => None,
    }
}

/// Read that many changes, up to the end of the bytes.
pub open spec fn p_packed_changes(s: Seq<u8>, n: nat) -> Option<Seq<Change>>
    decreases n,
{
    if n == 0 {
        if s.len() == 0 {
            Some(Seq::empty())
        } else {
            None
        }
    } else {
        match p_packed_change(s) {
            Some((c, rest)) => match p_packed_changes(rest, (n - 1) as nat) {
                Some(cs) => Some(seq![c] + cs),
                None => None,
            },
            None => None,
        }
    }
}

/// Read a whole changes-mode input: `u32` count, then the changes.
pub open spec fn p_changes_input(s: Seq<u8>) -> Option<Seq<Change>> {
    match p_u32(s) {
        Some((n, rest)) => p_packed_changes(rest, n as nat),
        None => None,
    }
}

/// Read a keys-mode input: keys, each with its length before it, up to the end
/// of the bytes.
pub open spec fn p_keys_input(s: Seq<u8>, n: nat) -> Option<Seq<Seq<u8>>>
    decreases n,
{
    if n == 0 {
        if s.len() == 0 {
            Some(Seq::empty())
        } else {
            None
        }
    } else {
        match p_len_prefixed(s) {
            Some((k, rest)) => match p_keys_input(rest, (n - 1) as nat) {
                Some(ks) => Some(seq![k] + ks),
                None => None,
            },
            None => None,
        }
    }
}

/// The entry of the queue says this: its key ends in the seqno, and its value is
/// a record of the kind, the key and the value.
pub open spec fn says(kv: (Seq<u8>, Seq<u8>), plen: int, c: Change) -> bool {
    &&& kv.0.len() == plen + 8
    &&& be_value(kv.0.skip(plen)) == c.seq
    &&& p_change(kv.1) == Some((c.kind, c.key, c.value))
}

#[verifier::rlimit(50)]
proof fn lemma_packed_change(c: Change, tail: Seq<u8>)
    requires
        c.key.len() <= u32::MAX,
        c.value.len() <= u32::MAX,
        c.kind != 0 ==> c.value.len() == 0,
    ensures
        p_packed_change(packed_change(c.seq as nat, (c.kind, c.key, c.value)) + tail) == Some(
            (c, tail),
        ),
{
    let s = packed_change(c.seq as nat, (c.kind, c.key, c.value)) + tail;
    let v = if c.kind == CHANGE_PUT {
        enc_u32(c.value.len() as u32) + c.value
    } else {
        Seq::empty()
    };
    let s4 = v + tail;
    let s3 = c.key + s4;
    let s2 = enc_u32(c.key.len() as u32) + s3;
    let s1 = seq![c.kind] + s2;
    assert(s =~= enc_u64(c.seq) + s1);
    lemma_u64_roundtrip(c.seq, s1);
    assert(s1.skip(1) =~= s2);
    lemma_u32_roundtrip(c.key.len() as u32, s3);
    lemma_bytes_roundtrip(c.key, s4);
    if c.kind == 0 {
        let s5 = c.value + tail;
        assert(s4 =~= enc_u32(c.value.len() as u32) + s5);
        lemma_u32_roundtrip(c.value.len() as u32, s5);
        lemma_bytes_roundtrip(c.value, tail);
    } else {
        assert(s4 =~= tail);
        assert(c.value =~= Seq::empty());
    }
}

proof fn lemma_says(kv: (Seq<u8>, Seq<u8>), plen: int, c: Change)
    requires
        says(kv, plen, c),
    ensures
        queued_change(kv, plen) == Some((c.seq as nat, (c.kind, c.key, c.value))),
        c.kind != 0 ==> c.value.len() == 0,
{
}

/// Reading what was packed, one change further.
#[verifier::rlimit(50)]
proof fn lemma_packed_from(
    kvs: Seq<(Seq<u8>, Seq<u8>)>,
    plen: int,
    cs: Seq<Change>,
    n: int,
    done: Seq<Change>,
    tail: Seq<u8>,
)
    requires
        0 <= plen,
        0 <= n <= cs.len() <= kvs.len(),
        forall|i: int| 0 <= i < cs.len() ==> says(kvs[i], plen, #[trigger] cs[i]),
        forall|i: int|
            0 <= i < cs.len() ==> (#[trigger] cs[i]).key.len() <= u32::MAX && cs[i].value.len()
                <= u32::MAX,
        p_packed_changes(tail, done.len()) == Some(done),
    ensures
        p_packed_changes(packed_changes(kvs, plen, n) + tail, n as nat + done.len()) == Some(
            cs.take(n) + done,
        ),
    decreases n,
{
    if n > 0 {
        let c = cs[n - 1];
        let one = packed_change(c.seq as nat, (c.kind, c.key, c.value));
        let more = seq![c] + done;
        lemma_says(kvs[n - 1], plen, c);
        lemma_packed_change(c, tail);
        assert(p_packed_changes(one + tail, more.len()) == Some(more)) by {
            assert((more.len() - 1) as nat == done.len());
        }
        lemma_packed_from(kvs, plen, cs, n - 1, more, one + tail);
        assert(packed_changes(kvs, plen, n) + tail =~= packed_changes(kvs, plen, n - 1) + (one
            + tail));
        assert(cs.take(n) + done =~= cs.take(n - 1) + more);
    } else {
        assert(packed_changes(kvs, plen, n) + tail =~= tail);
        assert(cs.take(n) + done =~= done);
    }
}

/// Packed changes read back: a module that reads the documented layout gets the
/// seqno, the kind, the key and the value of every queue entry that the input
/// consumes, in order, and nothing else.
pub proof fn lemma_packed_changes_read_back(
    kvs: Seq<(Seq<u8>, Seq<u8>)>,
    plen: int,
    cs: Seq<Change>,
)
    requires
        0 <= plen,
        cs.len() <= kvs.len(),
        cs.len() <= u32::MAX,
        forall|i: int| 0 <= i < cs.len() ==> says(kvs[i], plen, #[trigger] cs[i]),
        forall|i: int|
            0 <= i < cs.len() ==> (#[trigger] cs[i]).key.len() <= u32::MAX && cs[i].value.len()
                <= u32::MAX,
    ensures
        p_changes_input(enc_u32(cs.len() as u32) + packed_changes(kvs, plen, cs.len() as int))
            == Some(cs),
{
    let none = Seq::<Change>::empty();
    let n = cs.len() as int;
    let body = packed_changes(kvs, plen, n);
    lemma_u32_roundtrip(n as u32, body);
    lemma_packed_from(kvs, plen, cs, n, none, Seq::empty());
    assert(body + Seq::<u8>::empty() =~= body);
    assert(cs.take(n) + none =~= cs);
}

proof fn lemma_keys_from(keys: Seq<Seq<u8>>, plen: int, n: int, done: Seq<Seq<u8>>, tail: Seq<u8>)
    requires
        0 <= n <= keys.len(),
        forall|i: int| 0 <= i < keys.len() ==> plen <= (#[trigger] keys[i]).len() <= u64::MAX,
        0 <= plen,
        p_keys_input(tail, done.len()) == Some(done),
    ensures
        p_keys_input(packed_keys(keys, plen, n) + tail, n as nat + done.len()) == Some(
            Seq::new(n as nat, |i: int| keys[i].skip(plen)) + done,
        ),
    decreases n,
{
    if n > 0 {
        let k = keys[n - 1].skip(plen);
        let one = packed_key(keys[n - 1], plen);
        let more = seq![k] + done;
        assert(keys[n - 1].len() <= u64::MAX);
        assert(one == enc_len_prefixed(k));
        lemma_len_prefixed_roundtrip(k, tail);
        assert(p_keys_input(one + tail, more.len()) == Some(more)) by {
            assert((more.len() - 1) as nat == done.len());
        }
        lemma_keys_from(keys, plen, n - 1, more, one + tail);
        assert(packed_keys(keys, plen, n) + tail =~= packed_keys(keys, plen, n - 1) + (one + tail));
        assert(Seq::new(n as nat, |i: int| keys[i].skip(plen)) + done =~= Seq::new(
            (n - 1) as nat,
            |i: int| keys[i].skip(plen),
        ) + more);
    } else {
        assert(packed_keys(keys, plen, n) + tail =~= tail);
        assert(Seq::new(0, |i: int| keys[i].skip(plen)) + done =~= done);
    }
}

/// Packed keys read back: a module that reads keys with their lengths before
/// them gets the touched key of every queue entry that the input consumes, in
/// order, and nothing else.
pub proof fn lemma_packed_keys_read_back(keys: Seq<Seq<u8>>, plen: int, n: int)
    requires
        0 <= n <= keys.len(),
        0 <= plen,
        forall|i: int| 0 <= i < keys.len() ==> plen <= (#[trigger] keys[i]).len() <= u64::MAX,
    ensures
        p_keys_input(packed_keys(keys, plen, n), n as nat) == Some(
            Seq::new(n as nat, |i: int| keys[i].skip(plen)),
        ),
{
    let none = Seq::<Seq<u8>>::empty();
    lemma_keys_from(keys, plen, n, none, Seq::empty());
    assert(packed_keys(keys, plen, n) + Seq::<u8>::empty() =~= packed_keys(keys, plen, n));
    assert(Seq::new(n as nat, |i: int| keys[i].skip(plen)) + none =~= Seq::new(
        n as nat,
        |i: int| keys[i].skip(plen),
    ));
}

/// The key is one whose writes the trigger is told of: no reserved key, and in
/// the range `[lo, hi)`, an empty bound being none.
pub open spec fn watches(d: Def, key: Seq<u8>) -> bool {
    &&& key.len() == 0 || key[0] != 0
    &&& d.lo.len() == 0 || lex_le(d.lo, key)
    &&& d.hi.len() == 0 || lex_lt(key, d.hi)
}

/// What a module is told of an operation: a put with its value, or without it
/// where the value is longer than travels, or a delete.
pub open spec fn told_of(op: Op, seq: u64, cap: nat) -> Change {
    match op {
        Op::Put { key, value } => if value.len() <= cap {
            Change { seq, kind: 0, key, value }
        } else {
            Change { seq, kind: 2, key, value: Seq::empty() }
        },
        Op::Delete { key } => Change { seq, kind: 1, key, value: Seq::empty() },
    }
}

/// The queue entry of a change says what was done, and when.
pub proof fn lemma_event_says(d: Def, op: Op, seq: u64, cap: nat)
    requires
        op.key().len() <= u64::MAX,
    ensures
        change_event(d, op, seq as nat, cap) matches Op::Put { key, value } && says(
            (key, value),
            queue_prefix_of(d.name).len() as int,
            told_of(op, seq, cap),
        ) && key.take(queue_prefix_of(d.name).len() as int) == queue_prefix_of(d.name),
{
    let p = queue_prefix_of(d.name);
    let b = enc_be(seq as nat, 8);
    lemma_pow256_values();
    lemma_be_roundtrip(seq as nat, 8);
    assert((p + b).skip(p.len() as int) =~= b);
    assert((p + b).take(p.len() as int) =~= p);
    lemma_change_roundtrip(op, cap);
}

/// The operation, at its seqno, put this entry into the queue of a trigger that
/// is told of every change.
pub open spec fn change_entry(d: Def, op: Op, seq: nat, cap: nat, e: Op) -> bool {
    &&& d.mode == TriggerMode::Changes
    &&& watches(d, op.key())
    &&& e matches Op::Put { key, value } && says(
        (key, value),
        queue_prefix_of(d.name).len() as int,
        told_of(op, seq as u64, cap),
    ) && key.take(queue_prefix_of(d.name).len() as int) == queue_prefix_of(d.name)
}

/// Which trigger an entry of an operation is for.
proof fn lemma_change_from(ds: Seq<Def>, op: Op, seq: nat, cap: nat, m: int, x: int) -> (j: int)
    requires
        0 <= m <= ds.len(),
        op.key().len() <= u64::MAX,
        seq <= u64::MAX,
        0 <= x < op_changes(ds, op, seq, cap, m).len(),
    ensures
        0 <= j < m,
        change_entry(ds[j], op, seq, cap, op_changes(ds, op, seq, cap, m)[x]),
    decreases m,
{
    let a = op_changes(ds, op, seq, cap, m - 1);
    if x < a.len() {
        lemma_change_from(ds, op, seq, cap, m - 1, x)
    } else {
        lemma_event_says(ds[m - 1], op, seq as u64, cap);
        m - 1
    }
}

/// Where the entry of an operation for a trigger stands.
proof fn lemma_change_queued(ds: Seq<Def>, op: Op, seq: nat, cap: nat, m: int, j: int) -> (x: int)
    requires
        0 <= j < m <= ds.len(),
        op.key().len() <= u64::MAX,
        seq <= u64::MAX,
        ds[j].mode == TriggerMode::Changes,
        watches(ds[j], op.key()),
    ensures
        0 <= x < op_changes(ds, op, seq, cap, m).len(),
        change_entry(ds[j], op, seq, cap, op_changes(ds, op, seq, cap, m)[x]),
    decreases m,
{
    let a = op_changes(ds, op, seq, cap, m - 1);
    if j < m - 1 {
        lemma_change_queued(ds, op, seq, cap, m - 1, j)
    } else {
        lemma_event_says(ds[j], op, seq as u64, cap);
        a.len() as int
    }
}

proof fn lemma_all_from(ds: Seq<Def>, ops: Seq<Op>, base: nat, cap: nat, n: int, x: int) -> (r: (
    int,
    int,
))
    requires
        0 <= n <= ops.len(),
        forall|i: int| 0 <= i < ops.len() ==> (#[trigger] ops[i]).key().len() <= u64::MAX,
        base + ops.len() <= u64::MAX,
        0 <= x < all_changes(ds, ops, base, cap, n).len(),
    ensures
        0 <= r.0 < n,
        0 <= r.1 < ds.len(),
        change_entry(
            ds[r.1],
            ops[r.0],
            (base + r.0) as nat,
            cap,
            all_changes(ds, ops, base, cap, n)[x],
        ),
    decreases n,
{
    let a = all_changes(ds, ops, base, cap, n - 1);
    if x < a.len() {
        lemma_all_from(ds, ops, base, cap, n - 1, x)
    } else {
        let seq = (base + n - 1) as nat;
        assert(ops[n - 1].key().len() <= u64::MAX);
        let m = ds.len() as int;
        let j = lemma_change_from(ds, ops[n - 1], seq, cap, m, x - a.len());
        (n - 1, j)
    }
}

proof fn lemma_all_queued(
    ds: Seq<Def>,
    ops: Seq<Op>,
    base: nat,
    cap: nat,
    n: int,
    i: int,
    j: int,
) -> (x: int)
    requires
        0 <= i < n <= ops.len(),
        0 <= j < ds.len(),
        forall|i: int| 0 <= i < ops.len() ==> (#[trigger] ops[i]).key().len() <= u64::MAX,
        base + ops.len() <= u64::MAX,
        ds[j].mode == TriggerMode::Changes,
        watches(ds[j], ops[i].key()),
    ensures
        0 <= x < all_changes(ds, ops, base, cap, n).len(),
        change_entry(
            ds[j],
            ops[i],
            (base + i) as nat,
            cap,
            all_changes(ds, ops, base, cap, n)[x],
        ),
    decreases n,
{
    let a = all_changes(ds, ops, base, cap, n - 1);
    if i < n - 1 {
        lemma_all_queued(ds, ops, base, cap, n - 1, i, j)
    } else {
        assert(ops[i].key().len() <= u64::MAX);
        let x = lemma_change_queued(ds, ops[i], (base + i) as nat, cap, ds.len() as int, j);
        a.len() + x
    }
}

/// The queue entry of a touched key.
pub open spec fn key_entry(d: Def, op: Op, e: Op) -> bool {
    &&& d.mode == TriggerMode::Keys
    &&& watches(d, op.key())
    &&& e == (Op::Put { key: queue_prefix_of(d.name) + op.key(), value: Seq::empty() })
}

/// The entry tells the trigger of the operation, in the way of the trigger's mode.
pub open spec fn tells(d: Def, op: Op, seq: nat, cap: nat, e: Op) -> bool {
    change_entry(d, op, seq, cap, e) || key_entry(d, op, e)
}

/// The entry tells some trigger of some operation of the batch.
pub open spec fn tells_of_batch(ds: Seq<Def>, ops: Seq<Op>, base: nat, cap: nat, e: Op) -> bool {
    exists|i: int, j: int|
        0 <= i < ops.len() && 0 <= j < ds.len() && #[trigger] tells(
            ds[j],
            ops[i],
            (base + i) as nat,
            cap,
            e,
        )
}

/// Some entry tells the trigger of the operation.
pub open spec fn is_told(out: Seq<Op>, d: Def, op: Op, seq: nat, cap: nat) -> bool {
    exists|x: int| 0 <= x < out.len() && tells(d, op, seq, cap, #[trigger] out[x])
}

/// Every committed write in a trigger's range is queued for it, and nothing else
/// is: what is captured of a batch holds, for each trigger that is told of
/// changes and each operation on a key that it watches, an entry that says what
/// was done at which seqno; for each trigger that is told of keys, an entry of
/// the key; and no entry besides.
#[verifier::rlimit(50)]
pub proof fn lemma_capture_is_complete(
    ds: Seq<Def>,
    ops: Seq<Op>,
    base: nat,
    cap: nat,
    ks: Seq<Seq<u8>>,
    out: Seq<Op>,
)
    requires
        forall|i: int| 0 <= i < ops.len() ==> (#[trigger] ops[i]).key().len() <= u64::MAX,
        base + ops.len() <= u64::MAX,
        is_touched_list(ks, ds, ops, ops.len() as int),
        out == key_events(ks) + all_changes(ds, ops, base, cap, ops.len() as int),
    ensures
        forall|x: int| 0 <= x < out.len() ==> tells_of_batch(ds, ops, base, cap, #[trigger] out[x]),
        forall|i: int, j: int|
            0 <= i < ops.len() && 0 <= j < ds.len() && watches(
                #[trigger] ds[j],
                (#[trigger] ops[i]).key(),
            ) ==> is_told(out, ds[j], ops[i], (base + i) as nat, cap),
{
    let n = ops.len() as int;
    let a = key_events(ks);
    let b = all_changes(ds, ops, base, cap, n);
    assert forall|x: int| 0 <= x < out.len() implies tells_of_batch(
        ds,
        ops,
        base,
        cap,
        #[trigger] out[x],
    ) by {
        if x < a.len() {
            assert(out[x] == a[x]);
            assert(ks.contains(ks[x]));
            let (i, j) = choose|i: int, j: int|
                0 <= i < n && 0 <= j < ds.len() && #[trigger] crate::trigger::fires(ds[j], ops[i])
                    && ds[j].mode == TriggerMode::Keys && ks[x] == queue_prefix_of(ds[j].name)
                    + ops[i].key();
            assert(key_entry(ds[j], ops[i], out[x]));
            assert(tells(ds[j], ops[i], (base + i) as nat, cap, out[x]));
        } else {
            assert(out[x] == b[x - a.len()]);
            let (i, j) = lemma_all_from(ds, ops, base, cap, n, x - a.len());
            assert(tells(ds[j], ops[i], (base + i) as nat, cap, out[x]));
        }
    }
    assert forall|i: int, j: int|
        0 <= i < ops.len() && 0 <= j < ds.len() && watches(
            #[trigger] ds[j],
            (#[trigger] ops[i]).key(),
        ) implies is_told(out, ds[j], ops[i], (base + i) as nat, cap) by {
        match ds[j].mode {
            TriggerMode::Keys => {
                let k = queue_prefix_of(ds[j].name) + ops[i].key();
                assert(crate::trigger::fires(ds[j], ops[i]));
                assert(crate::trigger::touched(ds, ops, n, k));
                assert(ks.contains(k));
                let x = choose|x: int| 0 <= x < ks.len() && ks[x] == k;
                assert(out[x] == a[x]);
                assert(tells(ds[j], ops[i], (base + i) as nat, cap, out[x]));
            },
            TriggerMode::Changes => {
                let x = lemma_all_queued(ds, ops, base, cap, n, i, j);
                assert(out[a.len() + x] == b[x]);
                assert(tells(ds[j], ops[i], (base + i) as nat, cap, out[a.len() + x]));
            },
        }
    }
}

// ---------------------------------------------------------------------------
// Delivery
// ---------------------------------------------------------------------------

/// Changes are delivered in commit order: of two entries of a trigger's queue,
/// the one that committed first sorts first.
pub proof fn lemma_queue_is_in_commit_order(name: Seq<u8>, a: u64, b: u64)
    requires
        a < b,
    ensures
        lex_lt(
            queue_prefix_of(name) + enc_be(a as nat, 8),
            queue_prefix_of(name) + enc_be(b as nat, 8),
        ),
{
    let p = queue_prefix_of(name);
    let x = enc_be(a as nat, 8);
    let y = enc_be(b as nat, 8);
    lemma_pow256_values();
    lemma_be_roundtrip(a as nat, 8);
    lemma_be_roundtrip(b as nat, 8);
    crate::coding::lemma_be_order(x, y);
    assert((p + x).take(p.len() as int) =~= (p + y).take(p.len() as int));
    assert((p + x).skip(p.len() as int) =~= x);
    assert((p + y).skip(p.len() as int) =~= y);
    crate::order::lemma_lex_skip_common(p + x, p + y, p.len() as int);
}

/// One invocation takes the front of the queue, as much of it as fits: no more
/// keys than the batch size, no more bytes than the input's limit, and where it
/// leaves keys though the batch is not full, the next one would not have fit.
pub proof fn lemma_keys_taken(keys: Seq<Seq<u8>>, plen: int, batch: nat, cap: nat, n: int)
    requires
        0 <= n <= keys.len(),
        n <= batch,
        packed_keys(keys, plen, n).len() <= cap,
    ensures
        ({
            let m = keys_taken(keys, plen, batch, cap, n);
            &&& n <= m <= keys.len()
            &&& m <= batch
            &&& packed_keys(keys, plen, m).len() <= cap
            &&& m < keys.len() && m < batch ==> packed_keys(keys, plen, m + 1).len() > cap
        }),
    decreases keys.len() - n,
{
    if n < keys.len() && n < batch && packed_keys(keys, plen, n + 1).len() <= cap {
        lemma_keys_taken(keys, plen, batch, cap, n + 1);
    }
}

/// The same of changes; and an invocation that takes none where there are some
/// is one that could not take the first.
pub proof fn lemma_changes_taken(
    kvs: Seq<(Seq<u8>, Seq<u8>)>,
    plen: int,
    batch: nat,
    cap: nat,
    n: int,
)
    requires
        0 <= n <= kvs.len(),
        n <= batch,
        n > 0 ==> 4 + packed_changes(kvs, plen, n).len() <= cap,
        forall|i: int| 0 <= i < n ==> queued_change(#[trigger] kvs[i], plen) is Some,
    ensures
        match changes_taken(kvs, plen, batch, cap, n) {
            Packed::Took(m) => {
                &&& n <= m <= kvs.len()
                &&& m <= batch
                &&& m > 0 ==> 4 + packed_changes(kvs, plen, m).len() <= cap
                &&& m < kvs.len() && m < batch ==> m > 0 && 4 + packed_changes(
                    kvs,
                    plen,
                    m + 1,
                ).len() > cap
                &&& forall|i: int| 0 <= i < m ==> queued_change(#[trigger] kvs[i], plen) is Some
            },
            Packed::Unreadable => exists|i: int|
                n <= i < kvs.len() && i < batch && queued_change(#[trigger] kvs[i], plen) is None,
            Packed::TooLarge => n == 0 && kvs.len() > 0 && batch > 0 && 4 + packed_changes(
                kvs,
                plen,
                1,
            ).len() > cap,
        },
    decreases kvs.len() - n,
{
    if n < kvs.len() && n < batch {
        if queued_change(kvs[n], plen) is None {
            assert(queued_change(kvs[n], plen) is None);
        } else if 4 + packed_changes(kvs, plen, n + 1).len() <= cap {
            lemma_changes_taken(kvs, plen, batch, cap, n + 1);
        }
    }
}

/// A value that travels in an event never makes the event undeliverable: one
/// change of an allowed key fits an invocation's input, and no value travels
/// that is longer than the option allows.
pub proof fn lemma_inlined_change_fits(l: TriggerLimits, op: Op, seq: u64)
    requires
        op.key().len() <= l.max_key_size,
        op.key().len() <= u32::MAX,
        l.max_wasm_input >= l.max_key_size + 64,
        l.max_wasm_input <= u32::MAX,
    ensures
        inline_cap(l) <= l.inline_value,
        ({
            let c = told_of(op, seq, inline_cap(l));
            4 + packed_change(seq as nat, (c.kind, c.key, c.value)).len() <= l.max_wasm_input
        }),
{
    let c = told_of(op, seq, inline_cap(l));
    lemma_u64_roundtrip(seq, Seq::empty());
    lemma_u32_roundtrip(c.key.len() as u32, Seq::empty());
    lemma_u32_roundtrip(c.value.len() as u32, Seq::empty());
}

/// A module is told of changes where it asks for them, of keys where it only
/// asks for those, and is no trigger where it asks for neither.
pub proof fn lemma_mode_is_what_is_asked_for(on_apply: bool, on_touch: bool)
    ensures
        mode_of(on_apply, on_touch) == Some(TriggerMode::Changes) <==> on_apply,
        mode_of(on_apply, on_touch) == Some(TriggerMode::Keys) <==> on_touch && !on_apply,
        mode_of(on_apply, on_touch) is None <==> !on_apply && !on_touch,
{
}

/// Retries slow down: the wait starts at a tenth of a second, doubles with each
/// further failure, and never passes 6.4 seconds.
pub proof fn lemma_backoff_doubles(failures: nat)
    ensures
        backoff(0) == 100,
        100 <= backoff(failures) <= 6400,
        backoff(failures + 1) == (if 2 * backoff(failures) <= 6400 {
            2 * backoff(failures)
        } else {
            6400
        }),
{
    reveal_with_fuel(backoff, 9);
}

/// A trigger's name can stand in a queue key: it is not empty, no longer than 64
/// bytes, and has no zero byte, no slash and no space in it.
pub proof fn lemma_trigger_name_is_safe(name: Seq<u8>)
    ensures
        trigger_name_ok(name) ==> 0 < name.len() <= 64 && forall|i: int|
            0 <= i < name.len() ==> #[trigger] name[i] != 0 && name[i] != 0x2f && name[i] != 0x20
                && name[i] < 0x80,
        0 < name.len() <= 64 && (forall|i: int|
            0 <= i < name.len() ==> (0x61 <= #[trigger] name[i] <= 0x7a) || (0x41 <= name[i]
                <= 0x5a) || (0x30 <= name[i] <= 0x39) || name[i] == 0x2e || name[i] == 0x5f
                || name[i] == 0x2d) ==> trigger_name_ok(name),
{
    if trigger_name_ok(name) {
        assert forall|i: int| 0 <= i < name.len() implies #[trigger] name[i] != 0 && name[i]
            != 0x2f && name[i] != 0x20 && name[i] < 0x80 by {
            assert(crate::identity::name_byte(name[i]));
        }
    }
}

/// The entry's key.
pub open spec fn entry_key(e: Op) -> Seq<u8> {
    match e {
        Op::Put { key, .. } => key,
        Op::Delete { key } => key,
    }
}

/// Where a change entry comes from.
proof fn lemma_change_at(ds: Seq<Def>, op: Op, seq: nat, cap: nat, m: int, x: int) -> (j: int)
    requires
        0 <= m <= ds.len(),
        0 <= x < op_changes(ds, op, seq, cap, m).len(),
    ensures
        0 <= j < m,
        entry_key(op_changes(ds, op, seq, cap, m)[x]) == queue_prefix_of(ds[j].name) + enc_be(
            seq,
            8,
        ),
    decreases m,
{
    let a = op_changes(ds, op, seq, cap, m - 1);
    if x < a.len() {
        lemma_change_at(ds, op, seq, cap, m - 1, x)
    } else {
        m - 1
    }
}

/// Triggers have names of their own, and names that are text without a zero byte.
pub open spec fn named_apart(ds: Seq<Def>) -> bool {
    &&& forall|j: int, k: int|
        0 <= j < k < ds.len() ==> (#[trigger] ds[j]).name != (#[trigger] ds[k]).name
    &&& forall|j: int| 0 <= j < ds.len() ==> plain_name((#[trigger] ds[j]).name)
}

pub open spec fn plain_name(s: Seq<u8>) -> bool {
    vstd::utf8::valid_utf8(s) && forall|i: int| 0 <= i < s.len() ==> #[trigger] s[i] != 0
}

proof fn lemma_keys_apart(a: Seq<u8>, b: Seq<u8>, x: Seq<u8>, y: Seq<u8>)
    requires
        plain_name(a),
        plain_name(b),
        queue_prefix_of(a) + x == queue_prefix_of(b) + y,
    ensures
        a == b,
        x == y,
{
    crate::trigger::lemma_event_key_roundtrip(a, x);
    crate::trigger::lemma_event_key_roundtrip(b, y);
}

proof fn lemma_op_changes_once(
    ds: Seq<Def>,
    op: Op,
    seq: nat,
    cap: nat,
    m: int,
    x: int,
    y: int,
)
    requires
        named_apart(ds),
        0 <= m <= ds.len(),
        0 <= x < y < op_changes(ds, op, seq, cap, m).len(),
    ensures
        entry_key(op_changes(ds, op, seq, cap, m)[x]) != entry_key(
            op_changes(ds, op, seq, cap, m)[y],
        ),
    decreases m,
{
    let a = op_changes(ds, op, seq, cap, m - 1);
    if y < a.len() {
        lemma_op_changes_once(ds, op, seq, cap, m - 1, x, y);
    } else {
        let j = lemma_change_at(ds, op, seq, cap, m - 1, x);
        let b = enc_be(seq, 8);
        if queue_prefix_of(ds[j].name) + b == queue_prefix_of(ds[m - 1].name) + b {
            lemma_keys_apart(ds[j].name, ds[m - 1].name, b, b);
        }
    }
}

proof fn lemma_all_changes_at(ds: Seq<Def>, ops: Seq<Op>, base: nat, cap: nat, n: int, x: int) -> (r: (
    int,
    int,
))
    requires
        0 <= n <= ops.len(),
        0 <= x < all_changes(ds, ops, base, cap, n).len(),
    ensures
        0 <= r.0 < n,
        0 <= r.1 < ds.len(),
        entry_key(all_changes(ds, ops, base, cap, n)[x]) == queue_prefix_of(ds[r.1].name) + enc_be(
            (base + r.0) as nat,
            8,
        ),
    decreases n,
{
    let a = all_changes(ds, ops, base, cap, n - 1);
    if x < a.len() {
        lemma_all_changes_at(ds, ops, base, cap, n - 1, x)
    } else {
        let m = ds.len() as int;
        let j = lemma_change_at(ds, ops[n - 1], (base + n - 1) as nat, cap, m, x - a.len());
        (n - 1, j)
    }
}

/// A trigger is told of a change once: no two of the entries that a batch queues
/// for changes have the same key.
#[verifier::rlimit(50)]
pub proof fn lemma_changes_are_told_once(
    ds: Seq<Def>,
    ops: Seq<Op>,
    base: nat,
    cap: nat,
    n: int,
    x: int,
    y: int,
)
    requires
        named_apart(ds),
        0 <= n <= ops.len(),
        base + ops.len() <= u64::MAX,
        0 <= x < y < all_changes(ds, ops, base, cap, n).len(),
    ensures
        entry_key(all_changes(ds, ops, base, cap, n)[x]) != entry_key(
            all_changes(ds, ops, base, cap, n)[y],
        ),
    decreases n,
{
    let a = all_changes(ds, ops, base, cap, n - 1);
    let m = ds.len() as int;
    let seq = (base + n - 1) as nat;
    if y < a.len() {
        lemma_changes_are_told_once(ds, ops, base, cap, n - 1, x, y);
    } else if x >= a.len() {
        lemma_op_changes_once(ds, ops[n - 1], seq, cap, m, x - a.len(), y - a.len());
    } else {
        let (i, j) = lemma_all_changes_at(ds, ops, base, cap, n - 1, x);
        let k = lemma_change_at(ds, ops[n - 1], seq, cap, m, y - a.len());
        let u = enc_be((base + i) as nat, 8);
        let v = enc_be(seq, 8);
        if queue_prefix_of(ds[j].name) + u == queue_prefix_of(ds[k].name) + v {
            lemma_keys_apart(ds[j].name, ds[k].name, u, v);
            lemma_pow256_values();
            lemma_be_roundtrip((base + i) as nat, 8);
            lemma_be_roundtrip(seq, 8);
        }
    }
}

} // verus!
