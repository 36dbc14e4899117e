//! What a guest module reads from its host, and which bytes it is compiled from.

use vstd::prelude::*;

verus! {

use crate::bloom::hash_of;
use crate::coding::{
    enc_u64, enc_uvarint, lemma_bytes_roundtrip, lemma_uvarint_roundtrip, p_bytes, p_uvarint,
};
use crate::wasm::{copied, fingerprint, packed_pair};

/// Read one pair of a scan's batch: the lengths of the key and of the value,
/// then both.
pub open spec fn p_packed_pair(s: Seq<u8>) -> Option<((Seq<u8>, Seq<u8>), Seq<u8>)> {
    match p_uvarint(s) {
        Some((klen, s1)) => match p_uvarint(s1) {
            Some((vlen, s2)) => match p_bytes(s2, klen as nat) {
                Some((k, s3)) => match p_bytes(s3, vlen as nat) {
                    Some((v, s4)) => Some(((k, v), s4)),
                    None => None,
                },
                None => None,
            },
            None => None,
        },
        None => None,
    }
}

/// Read that many pairs, up to the end of the bytes.
pub open spec fn p_packed_pairs(s: Seq<u8>, n: nat) -> Option<Seq<(Seq<u8>, Seq<u8>)>>
    decreases n,
{
    if n == 0 {
        if s.len() == 0 {
            Some(Seq::empty())
        } else {
            None
        }
    } else {
        match p_packed_pair(s) {
            Some((p, rest)) => match p_packed_pairs(rest, (n - 1) as nat) {
                Some(ps) => Some(seq![p] + ps),
                None => None,
            },
            None => None,
        }
    }
}

/// Pairs, one packed behind the other.
pub open spec fn packed_pairs(ps: Seq<(Seq<u8>, Seq<u8>)>) -> Seq<u8>
    decreases ps.len(),
{
    if ps.len() == 0 {
        Seq::empty()
    } else {
        packed_pair(ps[0].0, ps[0].1) + packed_pairs(ps.skip(1))
    }
}

/// A scan's batch reads back: a guest that reads the documented layout gets
/// every key with its value, in order, and nothing else.
pub proof fn lemma_scan_batch_reads_back(ps: Seq<(Seq<u8>, Seq<u8>)>)
    requires
        forall|i: int|
            0 <= i < ps.len() ==> (#[trigger] ps[i]).0.len() <= u64::MAX && ps[i].1.len()
                <= u64::MAX,
    ensures
        p_packed_pairs(packed_pairs(ps), ps.len()) == Some(ps),
    decreases ps.len(),
{
    if ps.len() > 0 {
        let rest = ps.skip(1);
        assert forall|i: int| 0 <= i < rest.len() implies (#[trigger] rest[i]).0.len() <= u64::MAX
            && rest[i].1.len() <= u64::MAX by {
            assert(ps[i + 1].0.len() <= u64::MAX);
        }
        lemma_scan_batch_reads_back(rest);
        let (k, v) = ps[0];
        assert(ps[0].0.len() <= u64::MAX);
        let tail = packed_pairs(rest);
        let s3 = v + tail;
        let s2 = k + s3;
        let s1 = enc_uvarint(v.len() as u64) + s2;
        let s = enc_uvarint(k.len() as u64) + s1;
        assert(packed_pair(k, v) + tail =~= s);
        lemma_uvarint_roundtrip(k.len() as u64, s1);
        lemma_uvarint_roundtrip(v.len() as u64, s2);
        lemma_bytes_roundtrip(k, s3);
        lemma_bytes_roundtrip(v, tail);
        assert(packed_pairs(ps) == s);
        assert(seq![(k, v)] + rest =~= ps);
        assert(p_packed_pair(s) == Some(((k, v), tail)));
    } else {
        assert(ps =~= Seq::empty());
    }
}

/// A guest that reads a value piece by piece gets all of it: a read never goes
/// past the end, it fills the guest's buffer unless the end comes first, and so
/// it makes progress for as long as there is anything left.
pub proof fn lemma_chunks_cover_the_value(len: nat, off: nat, cap: nat)
    ensures
        copied(len, off, cap) <= cap,
        off <= len ==> off + copied(len, off, cap) <= len,
        off < len && cap > 0 ==> copied(len, off, cap) > 0,
        off <= len && copied(len, off, cap) < cap ==> off + copied(len, off, cap) == len,
        off >= len ==> copied(len, off, cap) == 0,
{
}

/// Modules are told apart: bytes with the same fingerprint have the same hash,
/// and so have their lengths with what they start with.
pub proof fn lemma_fingerprint_tells_apart(a: Seq<u8>, b: Seq<u8>)
    requires
        fingerprint(a) == fingerprint(b),
    ensures
        hash_of(a) == hash_of(b),
        a.len() < 4096 && b.len() < 4096 ==> hash_of(enc_u64(a.len() as u64) + a) == hash_of(
            enc_u64(b.len() as u64) + b,
        ),
        a.len() >= 4096 && b.len() >= 4096 ==> hash_of(enc_u64(a.len() as u64) + a.take(4096))
            == hash_of(enc_u64(b.len() as u64) + b.take(4096)),
{
    let x = hash_of(a) as nat;
    let y = hash_of(b) as nat;
    let ha = if a.len() < 4096 {
        a
    } else {
        a.take(4096)
    };
    let hb = if b.len() < 4096 {
        b
    } else {
        b.take(4096)
    };
    let u = hash_of(enc_u64(a.len() as u64) + ha) as nat;
    let w = hash_of(enc_u64(b.len() as u64) + hb) as nat;
    assert(x == y && u == w) by (nonlinear_arith)
        requires
            x * 0x1_0000_0000_0000_0000 + u == y * 0x1_0000_0000_0000_0000 + w,
            u < 0x1_0000_0000_0000_0000,
            w < 0x1_0000_0000_0000_0000,
    ;
}

} // verus!
