//! Write-range triggers: durable, async fan-out from committed writes to WASM
//! executor modules.
//!
//! A trigger binds an installed module to a user-key range `[lo, hi)`. A
//! committed write that touches the range appends a compact event record to
//! the trigger's durable queue in the same atomic batch. A runner drains each
//! queue by invoking the module and deleting the consumed entries inside the
//! module's own transaction.
//!
//! Keys mode (module entry `on_touch`): an event means "this key was touched".
//! Queue keys are the touched user keys, so a hot key coalesces to one pending
//! event. Changes mode (module entry `on_apply`): one event per committed
//! operation, keyed by its commit seqno, in commit order.

use vstd::prelude::*;
use vstd::string::StringExecFns;
use vstd::string::StringSliceAdditionalSpecFns;

use crate::batch::BatchOp;
use crate::coding::{
    be_u64, put_bytes, put_len_prefixed, put_u32, put_u64, put_uvarint, Reader,
};
use crate::error::{corrupt, invalid, Error, Result};
use crate::identity::name_byte_ok;
use crate::manifest::{read_name, utf8_string};
use crate::order::{bytes_eq, bytes_le, bytes_lt, to_bytes};
use crate::types::{
    sys_trigger_change_key, sys_trigger_event_key, sys_trigger_queue_prefix, validate_user_key,
    SeqNo, SYS_PREFIX,
};

verus! {

use crate::batch::{ops_view, Op};
use crate::coding::{
    be_value, enc_be, enc_len_prefixed, enc_u32, enc_u64, enc_uvarint,
    lemma_len_prefixed_roundtrip, p_len_prefixed, p_u8,
};
use crate::identity::name_byte;
use crate::manifest::p_name;
use crate::order::{lemma_lex_total, lemma_lex_transitive, lex_le, lex_lt};
use crate::types::{is_user_key, queue_prefix_of, trigger_prefix};
use crate::error::error_text;
use vstd::utf8::{
    decode_utf8, encode_utf8, encode_utf8_decode_utf8, encode_utf8_valid_utf8, is_char_boundary,
    is_char_boundary_iff_not_is_continuation_byte, is_char_boundary_start_end_of_seq,
    is_continuation_byte, valid_utf8, valid_utf8_split,
};

/// How a trigger consumes committed writes.
#[derive(Debug, Clone, Copy, PartialEq, Eq, Structural)]
pub enum TriggerMode {
    /// Coalesced touched-key events delivered to the module's `on_touch`.
    Keys,
    /// Ordered per-op change events delivered to the module's `on_apply`.
    Changes,
}

impl TriggerMode {
    /// The module export a drain invokes for this mode.
    pub fn entry(self) -> (s: &'static str)
        ensures
            s@ == (match self {
                TriggerMode::Keys => "on_touch"@,
                TriggerMode::Changes => "on_apply"@,
            }),
    {
        match self {
            TriggerMode::Keys => "on_touch",
            TriggerMode::Changes => "on_apply",
        }
    }

    pub fn as_str(self) -> (s: &'static str)
        ensures
            s@ == (match self {
                TriggerMode::Keys => "keys"@,
                TriggerMode::Changes => "changes"@,
            }),
    {
        match self {
            TriggerMode::Keys => "keys",
            TriggerMode::Changes => "changes",
        }
    }
}

/// The mode of a module with these exports.
pub open spec fn mode_of(on_apply: bool, on_touch: bool) -> Option<TriggerMode> {
    if on_apply {
        Some(TriggerMode::Changes)
    } else if on_touch {
        Some(TriggerMode::Keys)
    } else {
        None
    }
}

/// The mode a module declares through its exports: `on_apply` is the ordered
/// change feed, `on_touch` coalesced keys; `on_apply` wins where a module has
/// both.
pub fn detect_mode(on_apply: bool, on_touch: bool) -> (m: Option<TriggerMode>)
    ensures
        m == mode_of(on_apply, on_touch),
{
    if on_apply {
        Some(TriggerMode::Changes)
    } else if on_touch {
        Some(TriggerMode::Keys)
    } else {
        None
    }
}

/// A registered trigger, as listed.
pub struct TriggerInfo {
    pub name: String,
    pub module: String,
    /// Inclusive range start; empty = from the start of the user keyspace.
    pub lo: Vec<u8>,
    /// Exclusive range end; empty = unbounded.
    pub hi: Vec<u8>,
    pub mode: TriggerMode,
    /// Queued events not yet consumed by a successful invocation.
    pub pending: u64,
    /// Why the most recent drain attempt failed; None when healthy.
    pub last_error: Option<String>,
}

pub struct TriggerDef {
    pub name: String,
    pub module: String,
    pub lo: Vec<u8>,
    pub hi: Vec<u8>,
    pub mode: TriggerMode,
}

/// A definition over plain bytes.
pub struct Def {
    pub name: Seq<u8>,
    pub module: Seq<u8>,
    pub lo: Seq<u8>,
    pub hi: Seq<u8>,
    pub mode: TriggerMode,
}

impl View for TriggerDef {
    type V = Def;

    open spec fn view(&self) -> Def {
        Def {
            name: encode_utf8(self.name@),
            module: encode_utf8(self.module@),
            lo: self.lo@,
            hi: self.hi@,
            mode: self.mode,
        }
    }
}

pub open spec fn defs_view(ds: Seq<TriggerDef>) -> Seq<Def> {
    ds.map_values(|d: TriggerDef| d@)
}

/// The key is in the trigger's range; an empty bound is no bound.
pub open spec fn in_trigger(d: Def, key: Seq<u8>) -> bool {
    (d.lo.len() == 0 || lex_le(d.lo, key)) && (d.hi.len() == 0 || lex_lt(key, d.hi))
}

impl TriggerDef {
    pub fn matches(&self, key: &[u8]) -> (b: bool)
        ensures
            b == in_trigger(self@, key@),
    {
        (self.lo.len() == 0 || bytes_le(self.lo.as_slice(), key)) && (self.hi.len() == 0 || bytes_lt(
            key,
            self.hi.as_slice(),
        ))
    }
}

// ---------------------------------------------------------------------------
// Definition records
// ---------------------------------------------------------------------------

/// Keys-mode definitions have no mode byte; the others carry one, with room for
/// future modes.
pub open spec fn enc_def(d: Def) -> Seq<u8> {
    let body = enc_len_prefixed(d.name) + enc_len_prefixed(d.module) + enc_len_prefixed(d.lo)
        + enc_len_prefixed(d.hi);
    match d.mode {
        TriggerMode::Keys => seq![1u8] + body,
        TriggerMode::Changes => seq![2u8] + body + seq![1u8],
    }
}

pub open spec fn p_def(s: Seq<u8>) -> Option<Def> {
    match p_u8(s) {
        Some((ver, s1)) => if ver != 1 && ver != 2 {
            None
        } else {
            match p_name(s1) {
                Some((name, s2)) => match p_name(s2) {
                    Some((module, s3)) => match p_len_prefixed(s3) {
                        Some((lo, s4)) => match p_len_prefixed(s4) {
                            Some((hi, s5)) => if ver == 1 {
                                Some(Def { name, module, lo, hi, mode: TriggerMode::Keys })
                            } else {
                                match p_u8(s5) {
                                    Some((m, _)) => if m == 0 {
                                        Some(Def { name, module, lo, hi, mode: TriggerMode::Keys })
                                    } else if m == 1 {
                                        Some(
                                            Def { name, module, lo, hi, mode: TriggerMode::Changes },
                                        )
                                    } else {
                                        None
                                    },
                                    None => None,
                                }
                            },
                            None => None,
                        },
                        None => None,
                    },
                    None => None,
                },
                None => None,
            }
        },
        None => None,
    }
}

pub fn encode_def(d: &TriggerDef) -> (out: Vec<u8>)
    ensures
        out@ == enc_def(d@),
{
    let mut out: Vec<u8> = Vec::new();
    match d.mode {
        TriggerMode::Keys => {
            out.push(1);
        },
        TriggerMode::Changes => {
            out.push(2);
        },
    }
    put_len_prefixed(&mut out, d.name.as_str().as_bytes());
    put_len_prefixed(&mut out, d.module.as_str().as_bytes());
    put_len_prefixed(&mut out, d.lo.as_slice());
    put_len_prefixed(&mut out, d.hi.as_slice());
    if d.mode == TriggerMode::Changes {
        out.push(1);
    }
    assert(out@ =~= enc_def(d@));
    out
}

pub fn decode_def(buf: &[u8]) -> (r: Result<TriggerDef>)
    ensures
        match p_def(buf@) {
            Some(d) => r matches Ok(x) && x@ == d,
            None => r matches Err(Error::Corruption(_)),
        },
{
    let mut r = Reader::new(buf);
    let ver: u8 = r.u8()?;
    if ver != 1 && ver != 2 {
        return Err(corrupt("bad trigger record version"));
    }
    let name = read_name(&mut r)?;
    let module = read_name(&mut r)?;
    let lo = to_bytes(r.len_prefixed()?);
    let hi = to_bytes(r.len_prefixed()?);
    let mode = if ver == 1 {
        TriggerMode::Keys
    } else {
        let m: u8 = r.u8()?;
        match m {
            0 => TriggerMode::Keys,
            1 => TriggerMode::Changes,
            _ => {
                return Err(corrupt("bad trigger mode"));
            },
        }
    };
    Ok(TriggerDef { name, module, lo, hi, mode })
}

/// A definition reads back as it was written.
pub proof fn lemma_def_roundtrip(d: Def)
    requires
        valid_utf8(d.name),
        valid_utf8(d.module),
        d.name.len() <= u64::MAX,
        d.module.len() <= u64::MAX,
        d.lo.len() <= u64::MAX,
        d.hi.len() <= u64::MAX,
    ensures
        p_def(enc_def(d)) == Some(d),
{
    let s = enc_def(d);
    let tail = match d.mode {
        TriggerMode::Keys => Seq::<u8>::empty(),
        TriggerMode::Changes => seq![1u8],
    };
    let s4 = enc_len_prefixed(d.hi) + tail;
    let s3 = enc_len_prefixed(d.lo) + s4;
    let s2 = enc_len_prefixed(d.module) + s3;
    let s1 = enc_len_prefixed(d.name) + s2;
    assert(s.skip(1) =~= s1);
    lemma_len_prefixed_roundtrip(d.name, s2);
    lemma_len_prefixed_roundtrip(d.module, s3);
    lemma_len_prefixed_roundtrip(d.lo, s4);
    lemma_len_prefixed_roundtrip(d.hi, tail);
}

// ---------------------------------------------------------------------------
// Names and the queue keyspace
// ---------------------------------------------------------------------------

/// `[A-Za-z0-9._-]`, 1 to 64 bytes.
pub open spec fn trigger_name_ok(name: Seq<u8>) -> bool {
    0 < name.len() <= 64 && forall|i: int| 0 <= i < name.len() ==> name_byte(#[trigger] name[i])
}

pub fn validate_trigger_name(name: &str) -> (r: Result<()>)
    ensures
        r is Ok <==> trigger_name_ok(name.spec_bytes()),
        r matches Err(e) ==> e is InvalidArgument,
{
    let b = name.as_bytes();
    if b.len() == 0 || b.len() > 64 {
        return Err(invalid("invalid trigger name (use [A-Za-z0-9._-], max 64 chars)"));
    }
    let mut i: usize = 0;
    while i < b.len()
        invariant
            i <= b@.len(),
            b@ == name.spec_bytes(),
            forall|k: int| 0 <= k < i ==> name_byte(#[trigger] b@[k]),
        decreases b@.len() - i,
    {
        if !name_byte_ok(b[i]) {
            assert(!name_byte(b@[i as int]));
            return Err(invalid("invalid trigger name (use [A-Za-z0-9._-], max 64 chars)"));
        }
        i += 1;
    }
    Ok(())
}

/// The bytes with the last one set to 1: the end of the keys that start with
/// them, where the last one is 0.
pub open spec fn space_end(prefix: Seq<u8>) -> Seq<u8> {
    prefix.drop_last().push(1u8)
}

pub open spec fn queue_space() -> Seq<u8> {
    seq![0u8, 0x74, 0x72, 0x67, 0x71, 0u8]
}

pub fn def_space() -> (r: (Vec<u8>, Vec<u8>))
    ensures
        r.0@ == trigger_prefix(),
        r.1@ == space_end(trigger_prefix()),
{
    let lo: Vec<u8> = vec![0u8, 0x74, 0x72, 0x67, 0u8];
    let hi: Vec<u8> = vec![0u8, 0x74, 0x72, 0x67, 1u8];
    assert(lo@ =~= trigger_prefix());
    assert(hi@ =~= space_end(trigger_prefix()));
    (lo, hi)
}

pub fn queue_space_bounds() -> (r: (Vec<u8>, Vec<u8>))
    ensures
        r.0@ == queue_space(),
        r.1@ == space_end(queue_space()),
{
    let lo: Vec<u8> = vec![0u8, 0x74, 0x72, 0x67, 0x71, 0u8];
    let hi: Vec<u8> = vec![0u8, 0x74, 0x72, 0x67, 0x71, 1u8];
    assert(lo@ =~= queue_space());
    assert(hi@ =~= space_end(queue_space()));
    (lo, hi)
}

/// One trigger's queue starts here.
pub fn queue_prefix(name: &str) -> (k: Vec<u8>)
    ensures
        k@ == queue_prefix_of(name.spec_bytes()),
{
    sys_trigger_queue_prefix(name)
}

/// One trigger's queue ends before this.
pub fn queue_prefix_end(name: &str) -> (k: Vec<u8>)
    ensures
        k@ == space_end(queue_prefix_of(name.spec_bytes())),
{
    let mut k = sys_trigger_queue_prefix(name);
    let n: usize = k.len();
    k.set(n - 1, 1);
    assert(k@ =~= space_end(queue_prefix_of(name.spec_bytes())));
    k
}

/// Where the first zero byte stands.
pub open spec fn first_zero(s: Seq<u8>) -> Option<int>
    decreases s.len(),
{
    if s.len() == 0 {
        None
    } else if s[0] == 0 {
        Some(0int)
    } else {
        match first_zero(s.skip(1)) {
            Some(i) => Some(i + 1),
            None => None,
        }
    }
}

/// A queue key split into the trigger's name and the rest.
pub open spec fn p_event_key(key: Seq<u8>) -> Option<(Seq<u8>, Seq<u8>)> {
    if key.len() < 6 || key.take(6) != queue_space() {
        None
    } else {
        let rest = key.skip(6);
        match first_zero(rest) {
            Some(i) => if valid_utf8(rest.take(i)) {
                Some((rest.take(i), rest.skip(i + 1)))
            } else {
                None
            },
            None => None,
        }
    }
}

proof fn lemma_first_zero(s: Seq<u8>)
    ensures
        match first_zero(s) {
            Some(i) => 0 <= i < s.len() && s[i] == 0 && forall|k: int|
                0 <= k < i ==> #[trigger] s[k] != 0,
            None => forall|k: int| 0 <= k < s.len() ==> #[trigger] s[k] != 0,
        },
    decreases s.len(),
{
    if s.len() > 0 && s[0] != 0 {
        let t = s.skip(1);
        lemma_first_zero(t);
        match first_zero(t) {
            Some(i) => {
                assert(t[i] == s[i + 1]);
                assert forall|k: int| 0 <= k < i + 1 implies #[trigger] s[k] != 0 by {
                    if k > 0 {
                        assert(t[k - 1] == s[k]);
                    }
                }
            },
            None => {
                assert forall|k: int| 0 <= k < s.len() implies #[trigger] s[k] != 0 by {
                    if k > 0 {
                        assert(t[k - 1] == s[k]);
                    }
                }
            },
        }
    }
}

proof fn lemma_zero_at(s: Seq<u8>, i: int)
    requires
        0 <= i < s.len(),
        s[i] == 0,
        forall|k: int| 0 <= k < i ==> #[trigger] s[k] != 0,
    ensures
        first_zero(s) == Some(i),
{
    lemma_first_zero(s);
    match first_zero(s) {
        Some(j) => {
            if j < i {
                assert(s[j] != 0);
            } else if j > i {
                assert(s[i] != 0);
            }
        },
        None => {
            assert(s[i] != 0);
        },
    }
}

/// Split a queue key into the trigger's name and the touched user key.
pub fn parse_event_key(key: &[u8]) -> (r: Option<(String, Vec<u8>)>)
    ensures
        match p_event_key(key@) {
            Some((name, rest)) => r matches Some((n, k)) && encode_utf8(n@) == name && k@ == rest,
            None => r is None,
        },
{
    let (space, _) = queue_space_bounds();
    if key.len() < 6 {
        return None;
    }
    let head = vstd::slice::slice_subrange(key, 0, 6);
    assert(head@ =~= key@.take(6));
    if !bytes_eq(head, space.as_slice()) {
        return None;
    }
    let rest = vstd::slice::slice_subrange(key, 6, key.len());
    assert(rest@ =~= key@.skip(6));
    let mut i: usize = 0;
    while i < rest.len()
        invariant
            i <= rest@.len(),
            rest@ == key@.skip(6),
            key@.len() >= 6,
            key@.take(6) == queue_space(),
            forall|k: int| 0 <= k < i ==> #[trigger] rest@[k] != 0,
        decreases rest@.len() - i,
    {
        if rest[i] == 0 {
            proof {
                lemma_zero_at(rest@, i as int);
            }
            let name = vstd::slice::slice_subrange(rest, 0, i);
            let ukey = vstd::slice::slice_subrange(rest, i + 1, rest.len());
            assert(name@ =~= rest@.take(i as int));
            assert(ukey@ =~= rest@.skip(i + 1));
            return match utf8_string(to_bytes(name)) {
                Some(s) => Some((s, to_bytes(ukey))),
                None => None,
            };
        }
        i += 1;
    }
    proof {
        lemma_first_zero(rest@);
        if let Some(j) = first_zero(rest@) {
            assert(rest@[j] != 0);
        }
    }
    None
}

/// A queue key gives back the name and the user key it was made from, and
/// stands inside its trigger's queue.
pub proof fn lemma_event_key_roundtrip(name: Seq<u8>, ukey: Seq<u8>)
    requires
        valid_utf8(name),
        forall|i: int| 0 <= i < name.len() ==> #[trigger] name[i] != 0,
    ensures
        p_event_key(queue_prefix_of(name) + ukey) == Some((name, ukey)),
        lex_le(queue_prefix_of(name), queue_prefix_of(name) + ukey),
        lex_lt(queue_prefix_of(name) + ukey, space_end(queue_prefix_of(name))),
{
    let key = queue_prefix_of(name) + ukey;
    assert(key.take(6) =~= queue_space());
    let rest = key.skip(6);
    assert(rest =~= name + seq![0u8] + ukey);
    assert forall|k: int| 0 <= k < name.len() implies #[trigger] rest[k] != 0 by {
        assert(rest[k] == name[k]);
    }
    lemma_zero_at(rest, name.len() as int);
    assert(rest.take(name.len() as int) =~= name);
    assert(rest.skip(name.len() as int + 1) =~= ukey);
    let p = queue_prefix_of(name);
    lemma_prefix_le(p, ukey);
    let common = p.drop_last();
    assert(p =~= common.push(0u8));
    lemma_below_end(common, ukey);
    assert(common.push(0u8) + ukey =~= key);
}

proof fn lemma_prefix_le(p: Seq<u8>, t: Seq<u8>)
    ensures
        lex_le(p, p + t),
    decreases p.len(),
{
    if p.len() == 0 {
        if t.len() == 0 {
            assert(p + t =~= p);
        }
    } else {
        lemma_prefix_le(p.skip(1), t);
        assert((p + t).skip(1) =~= p.skip(1) + t);
        if p.skip(1) == p.skip(1) + t {
            assert(t.len() == 0);
            assert(p + t =~= p);
        }
    }
}

proof fn lemma_below_end(common: Seq<u8>, t: Seq<u8>)
    ensures
        lex_lt(common.push(0u8) + t, common.push(1u8)),
    decreases common.len(),
{
    let a = common.push(0u8) + t;
    let b = common.push(1u8);
    if common.len() > 0 {
        lemma_below_end(common.skip(1), t);
        assert(a.skip(1) =~= common.skip(1).push(0u8) + t);
        assert(b.skip(1) =~= common.skip(1).push(1u8));
        assert(a[0] == common[0] && b[0] == common[0]);
    } else {
        assert(a[0] == 0 && b[0] == 1);
    }
}

// ---------------------------------------------------------------------------
// Change records
// ---------------------------------------------------------------------------

pub const CHANGE_RECORD_V1: u8 = 1;

pub const CHANGE_PUT: u8 = 0;

pub const CHANGE_DELETE: u8 = 1;

/// A put whose value is too long to travel: the event carries the key only and
/// the module reads the value on demand.
pub const CHANGE_PUT_ELIDED: u8 = 2;

/// What a change record says of an operation.
pub open spec fn change_of(op: Op, cap: nat) -> (u8, Seq<u8>, Seq<u8>) {
    match op {
        Op::Put { key, value } => if value.len() <= cap {
            (CHANGE_PUT, key, value)
        } else {
            (CHANGE_PUT_ELIDED, key, Seq::empty())
        },
        Op::Delete { key } => (CHANGE_DELETE, key, Seq::empty()),
    }
}

pub open spec fn enc_change(c: (u8, Seq<u8>, Seq<u8>)) -> Seq<u8> {
    seq![CHANGE_RECORD_V1, c.0] + enc_uvarint(c.1.len() as u64) + c.1 + c.2
}

pub open spec fn p_change(s: Seq<u8>) -> Option<(u8, Seq<u8>, Seq<u8>)> {
    match p_u8(s) {
        Some((ver, s1)) => if ver != CHANGE_RECORD_V1 {
            None
        } else {
            match p_u8(s1) {
                Some((kind, s2)) => if kind > CHANGE_PUT_ELIDED {
                    None
                } else {
                    match p_len_prefixed(s2) {
                        Some((key, value)) => if kind != CHANGE_PUT && value.len() > 0 {
                            None
                        } else {
                            Some((kind, key, value))
                        },
                        None => None,
                    }
                },
                None => None,
            }
        },
        None => None,
    }
}

/// A change record: the kind of the operation, its key, and its value up to
/// `inline_cap` bytes.
pub fn encode_change_record(op: &BatchOp, inline_cap: usize) -> (out: Vec<u8>)
    ensures
        out@ == enc_change(change_of(op@, inline_cap as nat)),
{
    let mut out: Vec<u8> = Vec::new();
    out.push(CHANGE_RECORD_V1);
    match op {
        BatchOp::Put { key, value } => {
            let inline: bool = value.len() <= inline_cap;
            out.push(
                if inline {
                    CHANGE_PUT
                } else {
                    CHANGE_PUT_ELIDED
                },
            );
            put_uvarint(&mut out, key.len() as u64);
            put_bytes(&mut out, key.as_slice());
            if inline {
                put_bytes(&mut out, value.as_slice());
            }
        },
        BatchOp::Delete { key } => {
            out.push(CHANGE_DELETE);
            put_uvarint(&mut out, key.len() as u64);
            put_bytes(&mut out, key.as_slice());
        },
    }
    assert(out@ =~= enc_change(change_of(op@, inline_cap as nat)));
    out
}

/// Decode a stored change record into (kind, key, inline value).
pub fn decode_change_record(buf: &[u8]) -> (r: Result<(u8, &[u8], &[u8])>)
    ensures
        match p_change(buf@) {
            Some((kind, key, value)) => r matches Ok((k, a, b)) && k == kind && a@ == key && b@
                == value,
            None => r matches Err(Error::Corruption(_)),
        },
{
    let mut r = Reader::new(buf);
    let ver: u8 = r.u8()?;
    if ver != CHANGE_RECORD_V1 {
        return Err(corrupt("bad change record version"));
    }
    let kind: u8 = r.u8()?;
    if kind > CHANGE_PUT_ELIDED {
        return Err(corrupt("bad change record kind"));
    }
    let key = r.len_prefixed()?;
    let n: usize = r.remaining();
    let ghost rest = r.rest();
    let value = r.bytes(n)?;
    assert(rest.take(n as int) =~= rest);
    if kind != CHANGE_PUT && value.len() > 0 {
        return Err(corrupt("change record has a value but no put kind"));
    }
    Ok((kind, key, value))
}

/// A change record reads back as what it says of the operation.
pub proof fn lemma_change_roundtrip(op: Op, cap: nat)
    requires
        op.key().len() <= u64::MAX,
    ensures
        p_change(enc_change(change_of(op, cap))) == Some(change_of(op, cap)),
{
    let c = change_of(op, cap);
    let s = enc_change(c);
    let s2 = enc_uvarint(c.1.len() as u64) + c.1 + c.2;
    assert(s.skip(1).skip(1) =~= enc_len_prefixed(c.1) + c.2);
    lemma_len_prefixed_roundtrip(c.1, c.2);
}

// ---------------------------------------------------------------------------
// Capture
// ---------------------------------------------------------------------------

#[derive(Clone, Copy)]
pub struct TriggerLimits {
    /// Values up to this size travel in change events.
    pub inline_value: usize,
    pub max_wasm_input: usize,
    pub max_key_size: usize,
    /// Events handed to one invocation at most.
    pub trigger_batch: usize,
}

/// The inline cap: an inlined value must never make a single event
/// undeliverable, so one packed change has to fit an invocation's input.
pub open spec fn inline_cap(l: TriggerLimits) -> nat {
    let room = l.max_wasm_input - l.max_key_size - 64;
    let r: nat = if room < 0 {
        0
    } else {
        room as nat
    };
    if l.inline_value < r {
        l.inline_value as nat
    } else {
        r
    }
}

pub fn inline_value_cap(l: &TriggerLimits) -> (n: usize)
    ensures
        n == inline_cap(*l),
{
    let room: usize = l.max_wasm_input.saturating_sub(l.max_key_size.saturating_add(64));
    if l.inline_value < room {
        l.inline_value
    } else {
        room
    }
}

/// Engine-internal writes never fire triggers.
pub open spec fn is_system(key: Seq<u8>) -> bool {
    key.len() > 0 && key[0] == SYS_PREFIX
}

/// The operation fires the trigger.
pub open spec fn fires(d: Def, op: Op) -> bool {
    !is_system(op.key()) && in_trigger(d, op.key())
}

/// The change event of an operation that commits at `seq`.
pub open spec fn change_event(d: Def, op: Op, seq: nat, cap: nat) -> Op {
    Op::Put {
        key: queue_prefix_of(d.name) + enc_be(seq, 8),
        value: enc_change(change_of(op, cap)),
    }
}

/// The change events of one operation, over the first `m` triggers.
pub open spec fn op_changes(ds: Seq<Def>, op: Op, seq: nat, cap: nat, m: int) -> Seq<Op>
    decreases m,
{
    if m <= 0 {
        Seq::empty()
    } else {
        let before = op_changes(ds, op, seq, cap, m - 1);
        if fires(ds[m - 1], op) && ds[m - 1].mode == TriggerMode::Changes {
            before.push(change_event(ds[m - 1], op, seq, cap))
        } else {
            before
        }
    }
}

/// The change events of the first `n` operations: one per operation and
/// trigger, in commit order.
pub open spec fn all_changes(ds: Seq<Def>, ops: Seq<Op>, base: nat, cap: nat, n: int) -> Seq<Op>
    decreases n,
{
    if n <= 0 {
        Seq::empty()
    } else {
        all_changes(ds, ops, base, cap, n - 1) + op_changes(
            ds,
            ops[n - 1],
            (base + n - 1) as nat,
            cap,
            ds.len() as int,
        )
    }
}

/// One of the first `n` operations touches a key that this event key stands
/// for.
pub open spec fn touched(ds: Seq<Def>, ops: Seq<Op>, n: int, k: Seq<u8>) -> bool {
    exists|i: int, j: int|
        0 <= i < n && 0 <= j < ds.len() && #[trigger] fires(ds[j], ops[i]) && ds[j].mode
            == TriggerMode::Keys && k == queue_prefix_of(ds[j].name) + ops[i].key()
}

pub open spec fn strictly_ascending(ks: Seq<Seq<u8>>) -> bool {
    forall|i: int, j: int| 0 <= i < j < ks.len() ==> lex_lt(#[trigger] ks[i], #[trigger] ks[j])
}

/// The touched-key events: each key once, ascending.
pub open spec fn is_touched_list(ks: Seq<Seq<u8>>, ds: Seq<Def>, ops: Seq<Op>, n: int) -> bool {
    &&& strictly_ascending(ks)
    &&& forall|k: Seq<u8>| #[trigger] ks.contains(k) <==> touched(ds, ops, n, k)
}

pub open spec fn key_events(ks: Seq<Seq<u8>>) -> Seq<Op> {
    ks.map_values(|k: Seq<u8>| Op::Put { key: k, value: Seq::<u8>::empty() })
}

pub open spec fn keys_view(ks: Seq<Vec<u8>>) -> Seq<Seq<u8>> {
    ks.map_values(|k: Vec<u8>| k@)
}

/// Add a key to an ascending list, where it is not in it.
fn insert_key(ks: &mut Vec<Vec<u8>>, key: Vec<u8>)
    requires
        strictly_ascending(keys_view(old(ks)@)),
    ensures
        strictly_ascending(keys_view(final(ks)@)),
        forall|k: Seq<u8>| #[trigger]
            keys_view(final(ks)@).contains(k) <==> k == key@ || keys_view(old(ks)@).contains(k),
{
    let mut n: usize = 0;
    let ghost a = keys_view(ks@);
    while n < ks.len() && bytes_lt(ks[n].as_slice(), key.as_slice())
        invariant
            n <= ks@.len(),
            a == keys_view(ks@),
            forall|i: int| 0 <= i < n ==> lex_lt(#[trigger] a[i], key@),
        decreases ks@.len() - n,
    {
        assert(a[n as int] == ks@[n as int]@);
        n += 1;
    }
    if n < ks.len() {
        assert(a[n as int] == ks@[n as int]@);
        if bytes_eq(ks[n].as_slice(), key.as_slice()) {
            assert(a.contains(key@));
            return ;
        }
        proof {
            lemma_lex_total(a[n as int], key@);
        }
    }
    ks.insert(n, key);
    proof {
        let b = keys_view(ks@);
        assert(b =~= a.insert(n as int, key@));
        assert forall|i: int, j: int| 0 <= i < j < b.len() implies lex_lt(
            #[trigger] b[i],
            #[trigger] b[j],
        ) by {
            let x = if i < n {
                i
            } else {
                i - 1
            };
            let y = if j < n {
                j
            } else {
                j - 1
            };
            if i != n && j != n {
                assert(lex_lt(a[x], a[y]));
            } else if i == n {
                assert(lex_lt(key@, a[n as int]));
                if y > n {
                    assert(lex_lt(a[n as int], a[y]));
                    lemma_lex_transitive(key@, a[n as int], a[y]);
                }
            } else {
                assert(lex_lt(a[x], key@));
            }
        }
        assert forall|k: Seq<u8>| #[trigger] b.contains(k) <==> k == key@ || a.contains(k) by {
            if b.contains(k) {
                let i = choose|i: int| 0 <= i < b.len() && b[i] == k;
                let x = if i < n {
                    i
                } else {
                    i - 1
                };
                if i != n {
                    assert(a[x] == k);
                }
            }
            if k == key@ {
                assert(b[n as int] == k);
            }
            if a.contains(k) {
                let i = choose|i: int| 0 <= i < a.len() && a[i] == k;
                let x = if i < n {
                    i
                } else {
                    i + 1
                };
                assert(b[x] == k);
            }
        }
    }
}

/// The events of one operation.
fn capture_one(
    defs: &Vec<TriggerDef>,
    op: &BatchOp,
    seq: SeqNo,
    cap: usize,
    keyed: &mut Vec<Vec<u8>>,
    changes: &mut Vec<BatchOp>,
)
    requires
        strictly_ascending(keys_view(old(keyed)@)),
    ensures
        strictly_ascending(keys_view(final(keyed)@)),
        ops_view(final(changes)@) == ops_view(old(changes)@) + op_changes(
            defs_view(defs@),
            op@,
            seq as nat,
            cap as nat,
            defs@.len() as int,
        ),
        forall|k: Seq<u8>| #[trigger]
            keys_view(final(keyed)@).contains(k) <==> keys_view(old(keyed)@).contains(k)
                || exists|j: int|
                0 <= j < defs@.len() && #[trigger] fires(defs_view(defs@)[j], op@)
                    && defs_view(defs@)[j].mode == TriggerMode::Keys && k == queue_prefix_of(
                    defs_view(defs@)[j].name,
                ) + op@.key(),
{
    let ghost ds = defs_view(defs@);
    let ghost c0 = ops_view(changes@);
    let ghost k0 = keys_view(keyed@);
    let ghost o = op@;
    let key: &[u8] = match op {
        BatchOp::Put { key, .. } => key.as_slice(),
        BatchOp::Delete { key } => key.as_slice(),
    };
    assert(key@ == o.key());
    let sys: bool = key.len() > 0 && key[0] == SYS_PREFIX;
    let mut j: usize = 0;
    assert(c0 + op_changes(ds, o, seq as nat, cap as nat, 0) =~= c0);
    while j < defs.len()
        invariant
            j <= defs@.len(),
            ds == defs_view(defs@),
            o == op@,
            key@ == o.key(),
            sys == is_system(o.key()),
            strictly_ascending(keys_view(keyed@)),
            ops_view(changes@) == c0 + op_changes(ds, o, seq as nat, cap as nat, j as int),
            forall|k: Seq<u8>| #[trigger]
                keys_view(keyed@).contains(k) <==> k0.contains(k) || exists|i: int|
                    0 <= i < j && #[trigger] fires(ds[i], o) && ds[i].mode == TriggerMode::Keys && k
                        == queue_prefix_of(ds[i].name) + o.key(),
        decreases defs@.len() - j,
    {
        let d = &defs[j];
        assert(ds[j as int] == d@);
        let ghost c1 = ops_view(changes@);
        let ghost k1 = keys_view(keyed@);
        if !sys && d.matches(key) {
            assert(fires(ds[j as int], o));
            match d.mode {
                TriggerMode::Keys => {
                    insert_key(keyed, sys_trigger_event_key(d.name.as_str(), key));
                },
                TriggerMode::Changes => {
                    let e = BatchOp::Put {
                        key: sys_trigger_change_key(d.name.as_str(), seq),
                        value: encode_change_record(op, cap),
                    };
                    changes.push(e);
                    proof {
                        assert(e@ == change_event(ds[j as int], o, seq as nat, cap as nat));
                        assert(ops_view(changes@) =~= c1.push(e@));
                        assert(c0 + op_changes(ds, o, seq as nat, cap as nat, j + 1) =~= c1.push(
                            e@,
                        ));
                    }
                },
            }
        }
        proof {
            assert forall|k: Seq<u8>| #[trigger]
                keys_view(keyed@).contains(k) <==> k0.contains(k) || exists|i: int|
                    0 <= i < j + 1 && #[trigger] fires(ds[i], o) && ds[i].mode
                        == TriggerMode::Keys && k == queue_prefix_of(ds[i].name) + o.key() by {
                assert(k1.contains(k) <==> k0.contains(k) || exists|i: int|
                    0 <= i < j && #[trigger] fires(ds[i], o) && ds[i].mode == TriggerMode::Keys && k
                        == queue_prefix_of(ds[i].name) + o.key());
                let hit = fires(ds[j as int], o) && ds[j as int].mode == TriggerMode::Keys && k
                    == queue_prefix_of(ds[j as int].name) + o.key();
                assert(keys_view(keyed@).contains(k) <==> k1.contains(k) || hit);
            }
        }
        j += 1;
    }
}

/// Event operations to append to a batch whose first operation commits at
/// `base`: the touched keys, each once, then one change per operation and
/// trigger in commit order.
pub fn capture_ops(defs: &Vec<TriggerDef>, ops: &Vec<BatchOp>, base: SeqNo, limits: &TriggerLimits) -> (out:
    Vec<BatchOp>)
    requires
        base + ops@.len() <= u64::MAX,
    ensures
        exists|ks: Seq<Seq<u8>>| #[trigger]
            is_touched_list(ks, defs_view(defs@), ops_view(ops@), ops@.len() as int) && ops_view(
                out@,
            ) == key_events(ks) + all_changes(
                defs_view(defs@),
                ops_view(ops@),
                base as nat,
                inline_cap(*limits),
                ops@.len() as int,
            ),
{
    let ghost ds = defs_view(defs@);
    let ghost os = ops_view(ops@);
    let cap: usize = inline_value_cap(limits);
    let mut keyed: Vec<Vec<u8>> = Vec::new();
    let mut changes: Vec<BatchOp> = Vec::new();
    let mut i: usize = 0;
    proof {
        assert(ops_view(changes@) =~= Seq::<Op>::empty());
        assert(is_touched_list(keys_view(keyed@), ds, os, 0));
    }
    while i < ops.len()
        invariant
            i <= ops@.len(),
            base + ops@.len() <= u64::MAX,
            ds == defs_view(defs@),
            os == ops_view(ops@),
            is_touched_list(keys_view(keyed@), ds, os, i as int),
            ops_view(changes@) == all_changes(ds, os, base as nat, cap as nat, i as int),
        decreases ops@.len() - i,
    {
        let ghost k1 = keys_view(keyed@);
        assert(os[i as int] == ops@[i as int]@);
        capture_one(defs, &ops[i], base + i as u64, cap, &mut keyed, &mut changes);
        proof {
            let k2 = keys_view(keyed@);
            assert forall|k: Seq<u8>| #[trigger] k2.contains(k) <==> touched(ds, os, i + 1, k) by {
                assert(k1.contains(k) <==> touched(ds, os, i as int, k));
                if touched(ds, os, i as int, k) {
                    let (a, c) = choose|a: int, c: int|
                        0 <= a < i && 0 <= c < ds.len() && #[trigger] fires(ds[c], os[a])
                            && ds[c].mode == TriggerMode::Keys && k == queue_prefix_of(ds[c].name)
                            + os[a].key();
                    assert(fires(ds[c], os[a]));
                }
                if touched(ds, os, i + 1, k) {
                    let (a, c) = choose|a: int, c: int|
                        0 <= a < i + 1 && 0 <= c < ds.len() && #[trigger] fires(ds[c], os[a])
                            && ds[c].mode == TriggerMode::Keys && k == queue_prefix_of(ds[c].name)
                            + os[a].key();
                    assert(fires(ds[c], os[a]));
                    if a < i {
                        assert(touched(ds, os, i as int, k));
                    }
                }
            }
        }
        i += 1;
    }
    let ghost ks = keys_view(keyed@);
    let mut out: Vec<BatchOp> = Vec::new();
    let mut j: usize = 0;
    assert(ops_view(out@) =~= key_events(ks).take(0));
    while j < keyed.len()
        invariant
            j <= keyed@.len(),
            ks == keys_view(keyed@),
            ops_view(out@) == key_events(ks).take(j as int),
        decreases keyed@.len() - j,
    {
        let ghost o0 = ops_view(out@);
        let none: Vec<u8> = Vec::new();
        assert(none@ =~= Seq::<u8>::empty());
        let e = BatchOp::Put { key: to_bytes(keyed[j].as_slice()), value: none };
        out.push(e);
        proof {
            assert(ks[j as int] == keyed@[j as int]@);
            assert(ops_view(out@) =~= o0.push(e@));
            assert(key_events(ks).take(j + 1) =~= key_events(ks).take(j as int).push(
                key_events(ks)[j as int],
            ));
        }
        j += 1;
    }
    let ghost o1 = ops_view(out@);
    let ghost cs = ops_view(changes@);
    out.append(&mut changes);
    proof {
        assert(key_events(ks).take(j as int) =~= key_events(ks));
        assert(ops_view(out@) =~= o1 + cs);
        assert(is_touched_list(ks, ds, os, ops@.len() as int));
    }
    out
}

/// Trigger invocations cannot cascade: no event, of either mode, fires a
/// trigger.
pub proof fn lemma_events_fire_nothing(d: Def, name: Seq<u8>, rest: Seq<u8>, value: Seq<u8>)
    ensures
        !fires(d, (Op::Put { key: queue_prefix_of(name) + rest, value })),
{
    assert((queue_prefix_of(name) + rest)[0] == 0u8);
}

// ---------------------------------------------------------------------------
// Draining
// ---------------------------------------------------------------------------

/// What a touched key takes in an invocation's input.
pub open spec fn packed_key(key: Seq<u8>, plen: int) -> Seq<u8> {
    enc_len_prefixed(key.skip(plen))
}

/// The first `n` touched keys, packed.
pub open spec fn packed_keys(keys: Seq<Seq<u8>>, plen: int, n: int) -> Seq<u8>
    decreases n,
{
    if n <= 0 {
        Seq::empty()
    } else {
        packed_keys(keys, plen, n - 1) + packed_key(keys[n - 1], plen)
    }
}

/// How many touched keys one invocation takes, having taken `n`: as many as the
/// batch size and the input's size allow.
pub open spec fn keys_taken(keys: Seq<Seq<u8>>, plen: int, batch: nat, cap: nat, n: int) -> int
    decreases keys.len() - n,
{
    if 0 <= n < keys.len() && n < batch && packed_keys(keys, plen, n + 1).len() <= cap {
        keys_taken(keys, plen, batch, cap, n + 1)
    } else {
        n
    }
}

/// Keys-mode input: the touched keys, each with its length before it. Gives the
/// input and how many of the queue's first keys it consumes. An event that no
/// invocation could take is an error.
pub fn pack_touched_keys(keys: &Vec<Vec<u8>>, prefix_len: usize, limits: &TriggerLimits) -> (r:
    Result<(Vec<u8>, usize)>)
    requires
        forall|i: int| 0 <= i < keys@.len() ==> prefix_len <= (#[trigger] keys@[i])@.len(),
    ensures
        ({
            let ks = keys_view(keys@);
            let n = keys_taken(
                ks,
                prefix_len as int,
                limits.trigger_batch as nat,
                limits.max_wasm_input as nat,
                0,
            );
            match r {
                Ok((input, count)) => count == n && input@ == packed_keys(
                    ks,
                    prefix_len as int,
                    n,
                ) && (n > 0 || ks.len() == 0 || limits.trigger_batch == 0),
                Err(e) => e is InvalidArgument && n == 0 && ks.len() > 0 && limits.trigger_batch
                    > 0,
            }
        }),
{
    let ghost ks = keys_view(keys@);
    let ghost p = prefix_len as int;
    let ghost all = keys_taken(
        ks,
        p,
        limits.trigger_batch as nat,
        limits.max_wasm_input as nat,
        0,
    );
    let mut input: Vec<u8> = Vec::new();
    let mut n: usize = 0;
    while n < keys.len() && n < limits.trigger_batch
        invariant
            n <= keys@.len(),
            ks == keys_view(keys@),
            ks.len() == keys@.len(),
            p == prefix_len,
            forall|i: int| 0 <= i < keys@.len() ==> prefix_len <= (#[trigger] keys@[i])@.len(),
            input@ == packed_keys(ks, p, n as int),
            all == keys_taken(
                ks,
                p,
                limits.trigger_batch as nat,
                limits.max_wasm_input as nat,
                n as int,
            ),
            all == keys_taken(
                ks,
                p,
                limits.trigger_batch as nat,
                limits.max_wasm_input as nat,
                0,
            ),
        decreases keys@.len() - n,
    {
        assert(ks[n as int] == keys@[n as int]@);
        assert(prefix_len <= keys@[n as int]@.len());
        let key = keys[n].as_slice();
        let ukey = vstd::slice::slice_subrange(key, prefix_len, key.len());
        assert(ukey@ =~= ks[n as int].skip(p));
        let mut one: Vec<u8> = Vec::new();
        put_len_prefixed(&mut one, ukey);
        proof {
            assert(one@ =~= packed_key(ks[n as int], p));
            assert(input.len() == input@.len());
        }
        if input.len() > limits.max_wasm_input || one.len() > limits.max_wasm_input - input.len() {
            if n == 0 {
                return Err(invalid("pending trigger event exceeds max_wasm_input"));
            }
            return Ok((input, n));
        }
        put_bytes(&mut input, one.as_slice());
        n += 1;
    }
    Ok((input, n))
}

/// A queued change: its commit seqno, and what it says.
pub open spec fn queued_change(kv: (Seq<u8>, Seq<u8>), plen: int) -> Option<
    (nat, (u8, Seq<u8>, Seq<u8>)),
> {
    if kv.0.len() - plen != 8 {
        None
    } else {
        match p_change(kv.1) {
            Some(c) => Some((be_value(kv.0.skip(plen)), c)),
            None => None,
        }
    }
}

/// What a change takes in an invocation's input.
pub open spec fn packed_change(seq: nat, c: (u8, Seq<u8>, Seq<u8>)) -> Seq<u8> {
    enc_u64(seq as u64) + seq![c.0] + enc_u32(c.1.len() as u32) + c.1 + (if c.0 == CHANGE_PUT {
        enc_u32(c.2.len() as u32) + c.2
    } else {
        Seq::empty()
    })
}

pub open spec fn packed_changes(kvs: Seq<(Seq<u8>, Seq<u8>)>, plen: int, n: int) -> Seq<u8>
    decreases n,
{
    if n <= 0 {
        Seq::empty()
    } else {
        match queued_change(kvs[n - 1], plen) {
            Some((seq, c)) => packed_changes(kvs, plen, n - 1) + packed_change(seq, c),
            None => packed_changes(kvs, plen, n - 1),
        }
    }
}

/// How packing changes ends: it took this many, met one that cannot be read,
/// or the first one is too large for any invocation.
pub enum Packed {
    Took(int),
    Unreadable,
    TooLarge,
}

pub open spec fn changes_taken(
    kvs: Seq<(Seq<u8>, Seq<u8>)>,
    plen: int,
    batch: nat,
    cap: nat,
    n: int,
) -> Packed
    decreases kvs.len() - n,
{
    if 0 <= n < kvs.len() && n < batch {
        if queued_change(kvs[n], plen) is None {
            Packed::Unreadable
        } else if 4 + packed_changes(kvs, plen, n + 1).len() <= cap {
            changes_taken(kvs, plen, batch, cap, n + 1)
        } else if n == 0 {
            Packed::TooLarge
        } else {
            Packed::Took(n)
        }
    } else {
        Packed::Took(n)
    }
}

pub open spec fn queue_pairs(kvs: Seq<(Vec<u8>, Vec<u8>)>) -> Seq<(Seq<u8>, Seq<u8>)> {
    kvs.map_values(|p: (Vec<u8>, Vec<u8>)| (p.0@, p.1@))
}

/// One change, packed.
fn pack_change(key: &[u8], value: &[u8], prefix_len: usize) -> (r: Result<Vec<u8>>)
    requires
        prefix_len <= key@.len(),
    ensures
        match queued_change((key@, value@), prefix_len as int) {
            Some((seq, c)) => r matches Ok(v) && v@ == packed_change(seq, c),
            None => r matches Err(Error::Corruption(_)),
        },
{
    if key.len() - prefix_len != 8 {
        return Err(corrupt("change event key is not a seqno"));
    }
    let tail = vstd::slice::slice_subrange(key, prefix_len, key.len());
    assert(tail@ =~= key@.skip(prefix_len as int));
    let seq: u64 = be_u64(tail);
    let (kind, ukey, uval) = decode_change_record(value)?;
    let mut out: Vec<u8> = Vec::new();
    put_u64(&mut out, seq);
    out.push(kind);
    put_u32(&mut out, ukey.len() as u32);
    put_bytes(&mut out, ukey);
    if kind == CHANGE_PUT {
        put_u32(&mut out, uval.len() as u32);
        put_bytes(&mut out, uval);
    }
    proof {
        let c = (kind, ukey@, uval@);
        assert(out@ =~= packed_change(seq as nat, c));
    }
    Ok(out)
}

/// Changes-mode input: the count, then each change with its seqno, its kind,
/// its key and, for a put, its value; in commit order. Gives the input and how
/// many of the queue's first entries it consumes.
#[verifier::rlimit(40)]
pub fn pack_changes(kvs: &Vec<(Vec<u8>, Vec<u8>)>, prefix_len: usize, limits: &TriggerLimits) -> (r:
    Result<(Vec<u8>, usize)>)
    requires
        forall|i: int| 0 <= i < kvs@.len() ==> prefix_len <= (#[trigger] kvs@[i]).0@.len(),
    ensures
        ({
            let ps = queue_pairs(kvs@);
            match changes_taken(
                ps,
                prefix_len as int,
                limits.trigger_batch as nat,
                limits.max_wasm_input as nat,
                0,
            ) {
                Packed::Took(n) => r matches Ok((input, count)) && count == n && input@ == enc_u32(
                    n as u32,
                ) + packed_changes(ps, prefix_len as int, n),
                Packed::Unreadable => r matches Err(Error::Corruption(_)),
                Packed::TooLarge => r matches Err(Error::InvalidArgument(_)),
            }
        }),
{
    let ghost ps = queue_pairs(kvs@);
    let ghost p = prefix_len as int;
    let ghost batch = limits.trigger_batch as nat;
    let ghost cap = limits.max_wasm_input as nat;
    let ghost all = changes_taken(ps, p, batch, cap, 0);
    let mut body: Vec<u8> = Vec::new();
    let mut n: usize = 0;
    let mut full: bool = false;
    while !full && n < kvs.len() && n < limits.trigger_batch
        invariant
            n <= kvs@.len(),
            ps == queue_pairs(kvs@),
            ps.len() == kvs@.len(),
            p == prefix_len,
            batch == limits.trigger_batch,
            cap == limits.max_wasm_input,
            forall|i: int| 0 <= i < kvs@.len() ==> prefix_len <= (#[trigger] kvs@[i]).0@.len(),
            body@ == packed_changes(ps, p, n as int),
            all == changes_taken(ps, p, batch, cap, 0),
            full ==> all == Packed::Took(n as int),
            !full ==> all == changes_taken(ps, p, batch, cap, n as int),
        decreases kvs@.len() - n, (if full {
            0int
        } else {
            1int
        }),
    {
        assert(ps[n as int] == (kvs@[n as int].0@, kvs@[n as int].1@));
        assert(prefix_len <= kvs@[n as int].0@.len());
        let one = pack_change(kvs[n].0.as_slice(), kvs[n].1.as_slice(), prefix_len)?;
        let used: u128 = 4 + body.len() as u128 + one.len() as u128;
        proof {
            assert(packed_changes(ps, p, n + 1) == body@ + one@);
        }
        if used > limits.max_wasm_input as u128 {
            if n == 0 {
                return Err(invalid("pending trigger event exceeds max_wasm_input"));
            }
            full = true;
        } else {
            put_bytes(&mut body, one.as_slice());
            n += 1;
        }
    }
    let mut input: Vec<u8> = Vec::new();
    put_u32(&mut input, n as u32);
    put_bytes(&mut input, body.as_slice());
    assert(input@ =~= enc_u32(n as u32) + body@);
    Ok((input, n))
}

/// How long a failing trigger waits: 100 ms doubling to a 6.4 s ceiling, so
/// transient conflicts retry fast and a persistently failing module cannot
/// busy-spin the runner.
pub open spec fn backoff(failures: nat) -> nat
    decreases failures,
{
    if failures == 0 {
        100
    } else if failures > 6 {
        6400
    } else {
        2 * backoff((failures - 1) as nat)
    }
}

pub fn backoff_ms(failures: u32) -> (ms: u64)
    ensures
        ms == backoff(failures as nat),
{
    let n: u32 = if failures > 6 {
        6
    } else {
        failures
    };
    let mut ms: u64 = 100;
    let mut i: u32 = 0;
    proof {
        reveal_with_fuel(backoff, 8);
    }
    while i < n
        invariant
            i <= n <= 6,
            ms == backoff(i as nat),
            ms <= 6400,
        decreases n - i,
    {
        proof {
            reveal_with_fuel(backoff, 8);
        }
        ms = ms * 2;
        i += 1;
    }
    ms
}

/// The longest message that is kept of a failure, in bytes.
pub const MAX_ERROR_LEN: usize = 500;

/// The last character boundary up to `n`.
pub open spec fn boundary_upto(bytes: Seq<u8>, n: int) -> int
    decreases n,
{
    if n <= 0 || is_char_boundary(bytes, n) {
        n
    } else {
        boundary_upto(bytes, n - 1)
    }
}

/// A message cut to size between characters, with a mark where it was cut.
pub open spec fn shortened(msg: Seq<char>) -> Seq<char> {
    let bytes = encode_utf8(msg);
    if bytes.len() <= MAX_ERROR_LEN {
        msg
    } else {
        decode_utf8(bytes.subrange(0, boundary_upto(bytes, MAX_ERROR_LEN as int))) + "…"@
    }
}

/// Cut a message to size.
pub fn shorten(msg: String) -> (s: String)
    ensures
        s@ == shortened(msg@),
{
    let text = msg.as_str();
    let b = text.as_bytes();
    let ghost bytes = encode_utf8(msg@);
    if b.len() <= MAX_ERROR_LEN {
        return msg;
    }
    let mut cut: usize = MAX_ERROR_LEN;
    proof {
        encode_utf8_valid_utf8(msg@);
        is_char_boundary_start_end_of_seq(bytes);
        is_char_boundary_iff_not_is_continuation_byte(bytes, MAX_ERROR_LEN as int);
    }
    while 0x80 <= b[cut] && b[cut] <= 0xbf
        invariant
            b@ == bytes,
            valid_utf8(bytes),
            cut <= MAX_ERROR_LEN < bytes.len(),
            is_char_boundary(bytes, 0),
            is_char_boundary(bytes, cut as int) <==> !is_continuation_byte(bytes[cut as int]),
            boundary_upto(bytes, cut as int) == boundary_upto(bytes, MAX_ERROR_LEN as int),
        decreases cut,
    {
        proof {
            assert(is_continuation_byte(bytes[cut as int]));
            is_char_boundary_iff_not_is_continuation_byte(bytes, cut - 1);
        }
        cut -= 1;
    }
    let head = to_bytes(vstd::slice::slice_subrange(b, 0, cut));
    proof {
        assert(!is_continuation_byte(bytes[cut as int]));
        valid_utf8_split(bytes, cut as int);
    }
    let mut s = match utf8_string(head) {
        Some(s) => s,
        None => String::new(),
    };
    proof {
        encode_utf8_decode_utf8(s@);
    }
    s.append("…");
    s
}

/// How a trigger that fails is doing.
pub struct RunnerStatus {
    pub failures: u32,
    pub last_error: String,
}

impl RunnerStatus {
    pub fn new() -> (s: Self)
        ensures
            s.failures == 0,
            s.last_error@.len() == 0,
    {
        RunnerStatus { failures: 0, last_error: String::new() }
    }

    /// Note a failure. Gives the time to wait before the next attempt.
    pub fn record_failure(&mut self, err: &Error) -> (ms: u64)
        ensures
            final(self).failures == (if old(self).failures == u32::MAX {
                u32::MAX
            } else {
                (old(self).failures + 1) as u32
            }),
            final(self).last_error@ == shortened(error_text(*err)),
            ms == backoff(final(self).failures as nat),
    {
        self.failures = self.failures.saturating_add(1);
        self.last_error = shorten(err.message());
        backoff_ms(self.failures)
    }
}

pub open spec fn def_named(ds: Seq<Def>, name: Seq<u8>) -> bool {
    exists|i: int| 0 <= i < ds.len() && (#[trigger] ds[i]).name == name
}

/// The trigger of that name.
pub fn lookup(defs: &Vec<TriggerDef>, name: &str) -> (r: Option<usize>)
    ensures
        match r {
            Some(i) => i < defs@.len() && defs_view(defs@)[i as int].name == name.spec_bytes(),
            None => !def_named(defs_view(defs@), name.spec_bytes()),
        },
{
    let ghost ds = defs_view(defs@);
    let mut i: usize = 0;
    while i < defs.len()
        invariant
            i <= defs@.len(),
            ds == defs_view(defs@),
            forall|k: int| 0 <= k < i ==> (#[trigger] ds[k]).name != name.spec_bytes(),
        decreases defs@.len() - i,
    {
        assert(ds[i as int] == defs@[i as int]@);
        if bytes_eq(defs[i].name.as_str().as_bytes(), name.as_bytes()) {
            return Some(i);
        }
        i += 1;
    }
    None
}

/// Where the runner goes from a queue key: past a key that is none of ours,
/// or past the queue of the trigger that it names, which is drained, or
/// collected where the trigger is gone.
pub enum Route {
    Stray { cursor: Vec<u8> },
    Orphan { name: String, cursor: Vec<u8> },
    Trigger { index: usize, cursor: Vec<u8> },
}

pub fn route_event(key: &[u8], defs: &Vec<TriggerDef>) -> (r: Route)
    ensures
        match p_event_key(key@) {
            None => r matches Route::Stray { cursor } && cursor@ == key@.push(0u8),
            Some((name, _)) => if def_named(defs_view(defs@), name) {
                r matches Route::Trigger { index, cursor } && index < defs@.len() && defs_view(
                    defs@,
                )[index as int].name == name && cursor@ == space_end(queue_prefix_of(name))
            } else {
                r matches Route::Orphan { name: n, cursor } && encode_utf8(n@) == name && cursor@
                    == space_end(queue_prefix_of(name))
            },
        },
{
    match parse_event_key(key) {
        None => {
            let mut cursor = to_bytes(key);
            cursor.push(0);
            Route::Stray { cursor }
        },
        Some((name, _)) => {
            let cursor = queue_prefix_end(name.as_str());
            match lookup(defs, name.as_str()) {
                Some(index) => {
                    assert(def_named(
                        defs_view(defs@),
                        defs_view(defs@)[index as int].name,
                    ));
                    Route::Trigger { index, cursor }
                },
                None => Route::Orphan { name, cursor },
            }
        },
    }
}

/// A bound that a trigger's range may have: none, or a user key of allowed
/// length.
pub open spec fn bound_ok(b: Seq<u8>, max_key: nat) -> bool {
    b.len() == 0 || (is_user_key(b) && b.len() <= max_key)
}

fn check_bound(b: &Vec<u8>, max_key_size: usize) -> (r: Result<()>)
    ensures
        r is Ok <==> bound_ok(b@, max_key_size as nat),
        r matches Err(e) ==> e is InvalidArgument,
{
    if b.len() > 0 {
        validate_user_key(b.as_slice())?;
        if b.len() > max_key_size {
            return Err(invalid("trigger range bound exceeds max_key_size"));
        }
    }
    Ok(())
}

/// Check a new trigger's name and range.
pub fn check_trigger(name: &str, lo: &Vec<u8>, hi: &Vec<u8>, defs: &Vec<TriggerDef>, max_key_size: usize) -> (r:
    Result<()>)
    ensures
        r is Ok <==> trigger_name_ok(name.spec_bytes()) && bound_ok(lo@, max_key_size as nat)
            && bound_ok(hi@, max_key_size as nat) && (lo@.len() == 0 || hi@.len() == 0 || lex_lt(
            lo@,
            hi@,
        )) && !def_named(defs_view(defs@), name.spec_bytes()),
        r matches Err(e) ==> e is InvalidArgument,
{
    validate_trigger_name(name)?;
    check_bound(lo, max_key_size)?;
    check_bound(hi, max_key_size)?;
    if lo.len() > 0 && hi.len() > 0 && !bytes_lt(lo.as_slice(), hi.as_slice()) {
        return Err(invalid("trigger range is empty (lo >= hi)"));
    }
    if let Some(i) = lookup(defs, name) {
        assert(def_named(defs_view(defs@), defs_view(defs@)[i as int].name));
        return Err(invalid("trigger already exists (delete it first to change it)"));
    }
    Ok(())
}

/// Take the triggers of that name out of the registry.
pub fn remove_trigger(defs: &mut Vec<TriggerDef>, name: &str)
    ensures
        defs_view(final(defs)@) == defs_view(old(defs)@).filter(
            |d: Def| d.name != name.spec_bytes(),
        ),
{
    let ghost before = defs_view(defs@);
    let ghost f = |d: Def| d.name != name.spec_bytes();
    let ghost mut k: int = 0;
    let mut i: usize = 0;
    proof {
        reveal(Seq::filter);
        assert(before.take(0) =~= Seq::empty());
        assert(defs_view(defs@) =~= before.take(0).filter(f) + before.skip(0));
    }
    while i < defs.len()
        invariant
            0 <= k <= before.len(),
            f == |d: Def| d.name != name.spec_bytes(),
            i == before.take(k).filter(f).len(),
            defs_view(defs@) == before.take(k).filter(f) + before.skip(k),
        decreases defs@.len() - i,
    {
        let ghost done = before.take(k).filter(f);
        let ghost now = defs_view(defs@);
        proof {
            reveal(Seq::filter);
            assert(now.len() == defs@.len());
            assert(now[i as int] == before.skip(k)[0]);
            assert(now[i as int] == defs@[i as int]@);
            assert(before.take(k + 1).drop_last() =~= before.take(k));
            assert(before.take(k + 1).last() == before[k]);
        }
        if bytes_eq(defs[i].name.as_str().as_bytes(), name.as_bytes()) {
            let ghost d0 = defs@;
            defs.remove(i);
            proof {
                assert(!f(before[k]));
                assert(defs@ == d0.remove(i as int));
                assert(defs_view(defs@) =~= now.remove(i as int));
                assert(defs_view(defs@) =~= done + before.skip(k + 1));
            }
        } else {
            i += 1;
            proof {
                assert(f(before[k]));
                assert(defs_view(defs@) =~= done.push(before[k]) + before.skip(k + 1));
            }
        }
        proof {
            k = k + 1;
        }
    }
    proof {
        assert(defs_view(defs@).len() == defs@.len());
        assert(before.skip(k).len() == 0);
        assert(before.take(k) =~= before);
        assert(defs_view(defs@) =~= before.filter(f));
    }
}

/// A space of reserved keys holds exactly the keys that start with its prefix.
#[verifier::rlimit(50)]
pub proof fn lemma_space_is_its_prefix(p: Seq<u8>, k: Seq<u8>)
    requires
        p.len() > 0,
        p.last() == 0,
    ensures
        lex_le(p, k) && lex_lt(k, space_end(p)) <==> p.is_prefix_of(k),
    decreases p.len(),
{
    let c = p.drop_last();
    let e = space_end(p);
    assert(p =~= c.push(0u8));
    if p.is_prefix_of(k) {
        let t = k.skip(p.len() as int);
        assert(k =~= p + t);
        lemma_prefix_le(p, t);
        lemma_below_end(c, t);
    }
    if lex_le(p, k) && lex_lt(k, e) && !p.is_prefix_of(k) {
        if k == p {
            assert(p.is_prefix_of(k));
        } else if p.len() == 1 {
            assert(k.len() > 0);
            assert(e[0] == 1);
            if k[0] == 1 {
                assert(e.skip(1) =~= Seq::empty());
                assert(!lex_lt(k.skip(1), e.skip(1)));
            }
            assert(k[0] == 0);
            assert(k.take(1) =~= p);
        } else {
            assert(e[0] == p[0]);
            assert(k.len() > 0 && k[0] == p[0]);
            assert(e.skip(1) =~= space_end(p.skip(1)));
            assert(p.skip(1).last() == 0);
            lemma_space_is_its_prefix(p.skip(1), k.skip(1));
            assert(lex_le(p.skip(1), k.skip(1)));
            assert(k.take(p.len() as int) =~= seq![k[0]] + k.skip(1).take(p.len() - 1));
            assert(p =~= seq![p[0]] + p.skip(1));
            assert(k.skip(1).take(p.len() - 1) =~= p.skip(1));
        }
    }
}

/// A trigger's range, where it has both bounds, is not empty; each bound is a
/// user's key.
pub proof fn lemma_bound_is_a_key(b: Seq<u8>, max_key: nat)
    ensures
        bound_ok(b, max_key) <==> b.len() == 0 || (b[0] != 0 && b.len() <= max_key),
{
}

/// Removing a trigger removes all of that name, and no other.
pub proof fn lemma_removed_by_name(before: Seq<Def>, name: Seq<u8>, d: Def)
    ensures
        before.filter(|d: Def| d.name != name).contains(d) <==> before.contains(d) && d.name
            != name,
        !def_named(before.filter(|d: Def| d.name != name), name),
{
    let p = |d: Def| d.name != name;
    let after = before.filter(p);
    crate::gc::lemma_filtered(before, p, d);
    if def_named(after, name) {
        let i = choose|i: int| 0 <= i < after.len() && (#[trigger] after[i]).name == name;
        crate::gc::lemma_filtered(before, p, after[i]);
        assert(after.contains(after[i]));
    }
}

} // verus!
