//! Little-endian fixed-width and LEB128 varint primitives shared by every
//! on-disk format in the engine.
//!
//! Each encoder appends what an `enc_*` spec function names; each decoder
//! follows a `p_*` spec function, which takes the bytes still to be read and
//! gives the value with the bytes after it, or `None` where they are malformed.

use vstd::prelude::*;

use crate::error::{corrupt, Error, Result};

verus! {

/// 256 to the power `n`.
pub open spec fn pow256(n: nat) -> nat
    decreases n,
{
    if n == 0 {
        1
    } else {
        256 * pow256((n - 1) as nat)
    }
}

/// The `n` low-order bytes of `v`, least significant first.
pub open spec fn enc_le(v: nat, n: nat) -> Seq<u8>
    decreases n,
{
    if n == 0 {
        Seq::empty()
    } else {
        seq![(v % 256) as u8] + enc_le(v / 256, (n - 1) as nat)
    }
}

/// The number whose bytes are `s`, least significant first.
pub open spec fn le_value(s: Seq<u8>) -> nat
    decreases s.len(),
{
    if s.len() == 0 {
        0
    } else {
        s[0] as nat + 256 * le_value(s.skip(1))
    }
}

/// The `n` low-order bytes of `v`, most significant first.
pub open spec fn enc_be(v: nat, n: nat) -> Seq<u8>
    decreases n,
{
    if n == 0 {
        Seq::empty()
    } else {
        enc_be(v / 256, (n - 1) as nat).push((v % 256) as u8)
    }
}

/// The number whose bytes are `s`, most significant first.
pub open spec fn be_value(s: Seq<u8>) -> nat
    decreases s.len(),
{
    if s.len() == 0 {
        0
    } else {
        256 * be_value(s.drop_last()) + s.last() as nat
    }
}

pub open spec fn enc_u32(v: u32) -> Seq<u8> {
    enc_le(v as nat, 4)
}

pub open spec fn enc_u64(v: u64) -> Seq<u8> {
    enc_le(v as nat, 8)
}

/// The LEB128 encoding: seven bits per byte, low-order group first, the high
/// bit set on every byte but the last.
pub open spec fn enc_uvarint(v: u64) -> Seq<u8>
    decreases v,
{
    if v < 128 {
        seq![v as u8]
    } else {
        seq![(v % 128 + 128) as u8] + enc_uvarint(v / 128)
    }
}

/// A byte string behind its length.
pub open spec fn enc_len_prefixed(s: Seq<u8>) -> Seq<u8> {
    enc_uvarint(s.len() as u64) + s
}

pub open spec fn p_bytes(s: Seq<u8>, n: nat) -> Option<(Seq<u8>, Seq<u8>)> {
    if s.len() < n {
        None
    } else {
        Some((s.take(n as int), s.skip(n as int)))
    }
}

pub open spec fn p_u8(s: Seq<u8>) -> Option<(u8, Seq<u8>)> {
    if s.len() < 1 {
        None
    } else {
        Some((s[0], s.skip(1)))
    }
}

pub open spec fn p_u32(s: Seq<u8>) -> Option<(u32, Seq<u8>)> {
    if s.len() < 4 {
        None
    } else {
        Some((le_value(s.take(4)) as u32, s.skip(4)))
    }
}

pub open spec fn p_u64(s: Seq<u8>) -> Option<(u64, Seq<u8>)> {
    if s.len() < 8 {
        None
    } else {
        Some((le_value(s.take(8)) as u64, s.skip(8)))
    }
}

/// One more than the largest value that the varint bytes from the `i`-th on
/// can add, in units of the `i`-th group.
pub open spec fn uvarint_cap(i: nat) -> nat
    decreases 9 - i,
{
    if i >= 9 {
        2
    } else {
        128 * uvarint_cap(i + 1)
    }
}

/// A varint whose first `i` bytes have been read: at most ten bytes in all,
/// and the tenth holds a single bit.
pub open spec fn p_uvarint_from(s: Seq<u8>, i: nat) -> Option<(nat, Seq<u8>)>
    decreases 10 - i,
{
    if s.len() < 1 || i > 9 || (i == 9 && s[0] > 1) {
        None
    } else if s[0] < 128 {
        Some((s[0] as nat, s.skip(1)))
    } else {
        match p_uvarint_from(s.skip(1), i + 1) {
            Some((v, rest)) => Some(((s[0] - 128) as nat + 128 * v, rest)),
            None => None,
        }
    }
}

/// Where a read of a varint that does not parse stops: behind the tenth byte
/// where that is too large, else where the bytes end.
pub open spec fn uvarint_stop(s: Seq<u8>, i: nat) -> Seq<u8>
    decreases 10 - i,
{
    if s.len() < 1 || i > 9 {
        s
    } else if i == 9 {
        s.skip(1)
    } else {
        uvarint_stop(s.skip(1), i + 1)
    }
}

pub open spec fn p_uvarint(s: Seq<u8>) -> Option<(u64, Seq<u8>)> {
    match p_uvarint_from(s, 0) {
        Some((v, rest)) => Some((v as u64, rest)),
        None => None,
    }
}

pub open spec fn p_len_prefixed(s: Seq<u8>) -> Option<(Seq<u8>, Seq<u8>)> {
    match p_uvarint(s) {
        Some((n, rest)) => p_bytes(rest, n as nat),
        None => None,
    }
}

/// A list of `n` elements, each read by `p`.
pub open spec fn p_list<T>(
    s: Seq<u8>,
    n: nat,
    p: spec_fn(Seq<u8>) -> Option<(T, Seq<u8>)>,
) -> Option<(Seq<T>, Seq<u8>)>
    decreases n,
{
    if n == 0 {
        Some((Seq::empty(), s))
    } else {
        match p_list(s, (n - 1) as nat, p) {
            Some((xs, rest)) => match p(rest) {
                Some((x, rest2)) => Some((xs.push(x), rest2)),
                None => None,
            },
            None => None,
        }
    }
}

/// The encodings of a list's elements, one after the other.
pub open spec fn enc_list<T>(xs: Seq<T>, enc: spec_fn(T) -> Seq<u8>) -> Seq<u8>
    decreases xs.len(),
{
    if xs.len() == 0 {
        Seq::empty()
    } else {
        enc_list(xs.drop_last(), enc) + enc(xs.last())
    }
}

/// `p` reads back each of `xs` from its encoding, whatever follows.
pub open spec fn reads_back<T>(
    xs: Seq<T>,
    enc: spec_fn(T) -> Seq<u8>,
    p: spec_fn(Seq<u8>) -> Option<(T, Seq<u8>)>,
) -> bool {
    forall|i: int, tail: Seq<u8>|
        0 <= i < xs.len() ==> p(#[trigger] (enc(xs[i]) + tail)) == Some((xs[i], tail))
}

/// A list reads back whole where each of its elements does.
pub proof fn lemma_list_roundtrip<T>(
    xs: Seq<T>,
    enc: spec_fn(T) -> Seq<u8>,
    p: spec_fn(Seq<u8>) -> Option<(T, Seq<u8>)>,
    tail: Seq<u8>,
)
    requires
        reads_back(xs, enc, p),
    ensures
        p_list(enc_list(xs, enc) + tail, xs.len(), p) == Some((xs, tail)),
    decreases xs.len(),
{
    if xs.len() == 0 {
        assert(enc_list(xs, enc) + tail =~= tail);
        assert(xs =~= Seq::empty());
    } else {
        let init = xs.drop_last();
        let mid = enc(xs.last()) + tail;
        assert forall|i: int, t: Seq<u8>| 0 <= i < init.len() implies p(
            #[trigger] (enc(init[i]) + t),
        ) == Some((init[i], t)) by {
            assert(p(enc(xs[i]) + t) == Some((xs[i], t)));
        }
        lemma_list_roundtrip(init, enc, p, mid);
        assert(enc_list(xs, enc) + tail =~= enc_list(init, enc) + mid);
        assert(p(enc(xs[xs.len() - 1]) + tail) == Some((xs[xs.len() - 1], tail)));
        assert(xs =~= init.push(xs.last()));
    }
}

/// A list that fails to parse at some length fails at every greater length.
pub proof fn lemma_list_prefix_fails<T>(
    s: Seq<u8>,
    n: nat,
    m: nat,
    p: spec_fn(Seq<u8>) -> Option<(T, Seq<u8>)>,
)
    requires
        p_list(s, n, p) is None,
        n <= m,
    ensures
        p_list(s, m, p) is None,
    decreases m,
{
    if n < m {
        lemma_list_prefix_fails(s, n, (m - 1) as nat, p);
    }
}

pub proof fn lemma_le_len(v: nat, n: nat)
    ensures
        enc_le(v, n).len() == n,
    decreases n,
{
    if n > 0 {
        lemma_le_len(v / 256, (n - 1) as nat);
    }
}

pub proof fn lemma_be_len(v: nat, n: nat)
    ensures
        enc_be(v, n).len() == n,
    decreases n,
{
    if n > 0 {
        lemma_be_len(v / 256, (n - 1) as nat);
    }
}

/// Fixed-width little-endian bytes give back the number they encode.
pub proof fn lemma_le_roundtrip(v: nat, n: nat)
    requires
        v < pow256(n),
    ensures
        enc_le(v, n).len() == n,
        le_value(enc_le(v, n)) == v,
    decreases n,
{
    if n > 0 {
        lemma_le_roundtrip(v / 256, (n - 1) as nat);
        assert(enc_le(v, n).skip(1) =~= enc_le(v / 256, (n - 1) as nat));
    }
}

/// Fixed-width big-endian bytes give back the number they encode.
pub proof fn lemma_be_roundtrip(v: nat, n: nat)
    requires
        v < pow256(n),
    ensures
        enc_be(v, n).len() == n,
        be_value(enc_be(v, n)) == v,
    decreases n,
{
    if n > 0 {
        lemma_be_roundtrip(v / 256, (n - 1) as nat);
        assert(enc_be(v, n).drop_last() =~= enc_be(v / 256, (n - 1) as nat));
    }
}

pub proof fn lemma_le_bound(s: Seq<u8>)
    ensures
        le_value(s) < pow256(s.len()),
    decreases s.len(),
{
    if s.len() > 0 {
        lemma_le_bound(s.skip(1));
    }
}

pub proof fn lemma_be_bound(s: Seq<u8>)
    ensures
        be_value(s) < pow256(s.len()),
    decreases s.len(),
{
    if s.len() > 0 {
        lemma_be_bound(s.drop_last());
    }
}

/// Big-endian bytes of one length are determined by their number.
pub proof fn lemma_be_injective(a: Seq<u8>, b: Seq<u8>)
    requires
        a.len() == b.len(),
        be_value(a) == be_value(b),
    ensures
        a == b,
    decreases a.len(),
{
    if a.len() > 0 {
        lemma_be_injective(a.drop_last(), b.drop_last());
        assert(a =~= a.drop_last().push(a.last()));
        assert(b =~= b.drop_last().push(b.last()));
    } else {
        assert(a =~= b);
    }
}

/// Big-endian bytes of one length sort as their numbers do.
pub proof fn lemma_be_order(a: Seq<u8>, b: Seq<u8>)
    requires
        a.len() == b.len(),
        be_value(a) < be_value(b),
    ensures
        crate::order::lex_lt(a, b),
    decreases a.len(),
{
    if a.len() > 0 {
        let a0 = a.drop_last();
        let b0 = b.drop_last();
        assert(a =~= a0.push(a.last()));
        assert(b =~= b0.push(b.last()));
        if be_value(a0) == be_value(b0) {
            lemma_be_injective(a0, b0);
            let n = a0.len() as int;
            assert(a.take(n) =~= a0);
            assert(b.take(n) =~= b0);
            crate::order::lemma_lex_skip_common(a, b, n);
            assert(a.skip(n) =~= seq![a.last()]);
            assert(b.skip(n) =~= seq![b.last()]);
        } else {
            assert(be_value(a0) < be_value(b0));
            lemma_be_order(a0, b0);
            crate::order::lemma_lex_extend(a0, b0, seq![a.last()], seq![b.last()]);
            assert(a =~= a0 + seq![a.last()]);
            assert(b =~= b0 + seq![b.last()]);
        }
    }
}

pub proof fn lemma_pow256_values()
    ensures
        pow256(4) == 0x1_0000_0000,
        pow256(8) == 0x1_0000_0000_0000_0000,
{
    reveal_with_fuel(pow256, 9);
}

proof fn lemma_uvarint_cap_zero()
    ensures
        uvarint_cap(0) == 0x1_0000_0000_0000_0000,
{
    reveal_with_fuel(uvarint_cap, 10);
}

proof fn lemma_uvarint_cap_floor(i: nat)
    ensures
        uvarint_cap(i) >= 2,
    decreases 9 - i,
{
    if i < 9 {
        lemma_uvarint_cap_floor(i + 1);
    }
}

proof fn lemma_uvarint_bound(s: Seq<u8>, i: nat)
    ensures
        p_uvarint_from(s, i) matches Some((v, rest)) ==> v < uvarint_cap(i) && rest.len() < s.len(),
    decreases 10 - i,
{
    if s.len() >= 1 && i <= 9 {
        lemma_uvarint_bound(s.skip(1), i + 1);
        if i < 9 {
            lemma_uvarint_cap_floor(i + 1);
        }
    }
}

proof fn lemma_uvarint_roundtrip_from(v: u64, i: nat, tail: Seq<u8>)
    requires
        v < uvarint_cap(i),
        i <= 9,
    ensures
        p_uvarint_from(enc_uvarint(v) + tail, i) == Some((v as nat, tail)),
        1 <= enc_uvarint(v).len() <= 10 - i,
    decreases v,
{
    let s = enc_uvarint(v) + tail;
    if v < 128 {
        assert(s.skip(1) =~= tail);
    } else {
        assert(i < 9);
        lemma_uvarint_roundtrip_from(v / 128, i + 1, tail);
        assert(s.skip(1) =~= enc_uvarint(v / 128) + tail);
    }
}

/// A varint reads back as the number it encodes, whatever follows it.
pub proof fn lemma_uvarint_roundtrip(v: u64, tail: Seq<u8>)
    ensures
        p_uvarint(enc_uvarint(v) + tail) == Some((v, tail)),
        1 <= enc_uvarint(v).len() <= 10,
{
    lemma_uvarint_cap_zero();
    lemma_uvarint_roundtrip_from(v, 0, tail);
}

/// A fixed-width number reads back as the number it encodes.
pub proof fn lemma_u32_roundtrip(v: u32, tail: Seq<u8>)
    ensures
        p_u32(enc_u32(v) + tail) == Some((v, tail)),
        enc_u32(v).len() == 4,
{
    lemma_pow256_values();
    lemma_le_roundtrip(v as nat, 4);
    assert((enc_u32(v) + tail).take(4) =~= enc_u32(v));
    assert((enc_u32(v) + tail).skip(4) =~= tail);
}

/// A fixed-width number reads back as the number it encodes.
pub proof fn lemma_u64_roundtrip(v: u64, tail: Seq<u8>)
    ensures
        p_u64(enc_u64(v) + tail) == Some((v, tail)),
        enc_u64(v).len() == 8,
{
    lemma_pow256_values();
    lemma_le_roundtrip(v as nat, 8);
    assert((enc_u64(v) + tail).take(8) =~= enc_u64(v));
    assert((enc_u64(v) + tail).skip(8) =~= tail);
}

/// A length-prefixed byte string reads back whole, whatever follows it.
pub proof fn lemma_len_prefixed_roundtrip(s: Seq<u8>, tail: Seq<u8>)
    requires
        s.len() <= u64::MAX,
    ensures
        p_len_prefixed(enc_len_prefixed(s) + tail) == Some((s, tail)),
{
    lemma_uvarint_roundtrip(s.len() as u64, s + tail);
    assert(enc_len_prefixed(s) + tail =~= enc_uvarint(s.len() as u64) + (s + tail));
    assert((s + tail).take(s.len() as int) =~= s);
    assert((s + tail).skip(s.len() as int) =~= tail);
}

/// Raw bytes read back, whatever follows them.
pub proof fn lemma_bytes_roundtrip(s: Seq<u8>, tail: Seq<u8>)
    ensures
        p_bytes(s + tail, s.len()) == Some((s, tail)),
{
    assert((s + tail).take(s.len() as int) =~= s);
    assert((s + tail).skip(s.len() as int) =~= tail);
}

/// A varint encoding is determined by its value alone: a decoder that reads
/// one reads strictly fewer bytes than there were.
pub proof fn lemma_uvarint_consumes(s: Seq<u8>)
    ensures
        p_uvarint(s) matches Some((v, rest)) ==> rest.len() < s.len(),
{
    lemma_uvarint_bound(s, 0);
}

/// Append bytes to a buffer.
pub fn put_bytes(dst: &mut Vec<u8>, bytes: &[u8])
    ensures
        final(dst)@ == old(dst)@ + bytes@,
{
    dst.extend_from_slice(bytes);
    assert(dst@ =~= old(dst)@ + bytes@);
}

/// Append a fixed-width little-endian number.
pub fn put_u32(dst: &mut Vec<u8>, v: u32)
    ensures
        final(dst)@ == old(dst)@ + enc_u32(v),
{
    let mut rest: u32 = v;
    let mut i: u8 = 0;
    while i < 4
        invariant
            i <= 4,
            old(dst)@ + enc_u32(v) == dst@ + enc_le(rest as nat, (4 - i) as nat),
        decreases 4 - i,
    {
        let ghost before = dst@;
        dst.push((rest % 256) as u8);
        proof {
            let n = (4 - i) as nat;
            assert(before + enc_le(rest as nat, n) =~= dst@ + enc_le((rest / 256) as nat, (n - 1) as nat));
        }
        rest = rest / 256;
        i += 1;
    }
    assert(dst@ + enc_le(rest as nat, 0) =~= dst@);
}

/// Append a fixed-width little-endian number.
pub fn put_u64(dst: &mut Vec<u8>, v: u64)
    ensures
        final(dst)@ == old(dst)@ + enc_u64(v),
{
    let mut rest: u64 = v;
    let mut i: u8 = 0;
    while i < 8
        invariant
            i <= 8,
            old(dst)@ + enc_u64(v) == dst@ + enc_le(rest as nat, (8 - i) as nat),
        decreases 8 - i,
    {
        let ghost before = dst@;
        dst.push((rest % 256) as u8);
        proof {
            let n = (8 - i) as nat;
            assert(before + enc_le(rest as nat, n) =~= dst@ + enc_le((rest / 256) as nat, (n - 1) as nat));
        }
        rest = rest / 256;
        i += 1;
    }
    assert(dst@ + enc_le(rest as nat, 0) =~= dst@);
}

/// Append the low-order `n` bytes of `v`, most significant first.
fn put_be(dst: &mut Vec<u8>, v: u64, n: u8)
    ensures
        final(dst)@ == old(dst)@ + enc_be(v as nat, n as nat),
    decreases n,
{
    if n == 0 {
        assert(dst@ =~= old(dst)@ + enc_be(v as nat, 0));
    } else {
        put_be(dst, v / 256, n - 1);
        dst.push((v % 256) as u8);
        assert(dst@ =~= old(dst)@ + enc_be(v as nat, n as nat));
    }
}

/// Append a fixed-width big-endian number.
pub fn put_u64_be(dst: &mut Vec<u8>, v: u64)
    ensures
        final(dst)@ == old(dst)@ + enc_be(v as nat, 8),
{
    put_be(dst, v, 8);
}

/// Append a varint.
pub fn put_uvarint(dst: &mut Vec<u8>, v: u64)
    ensures
        final(dst)@ == old(dst)@ + enc_uvarint(v),
{
    let mut rest: u64 = v;
    while rest >= 0x80
        invariant
            old(dst)@ + enc_uvarint(v) == dst@ + enc_uvarint(rest),
        decreases rest,
    {
        let ghost before = dst@;
        dst.push((rest % 128 + 128) as u8);
        assert(before + enc_uvarint(rest) =~= dst@ + enc_uvarint(rest / 128));
        rest = rest / 128;
    }
    let ghost before = dst@;
    dst.push(rest as u8);
    assert(before + enc_uvarint(rest) =~= dst@);
}

/// Append a byte string behind its length.
pub fn put_len_prefixed(dst: &mut Vec<u8>, bytes: &[u8])
    ensures
        final(dst)@ == old(dst)@ + enc_len_prefixed(bytes@),
{
    put_uvarint(dst, bytes.len() as u64);
    put_bytes(dst, bytes);
    assert(dst@ =~= old(dst)@ + enc_len_prefixed(bytes@));
}

/// The number whose bytes are `s`, least significant first.
pub fn le_u64(s: &[u8]) -> (v: u64)
    requires
        s@.len() <= 8,
    ensures
        v == le_value(s@),
    decreases s@.len(),
{
    if s.len() == 0 {
        0
    } else {
        let rest = vstd::slice::slice_subrange(s, 1, s.len());
        proof {
            assert(rest@ =~= s@.skip(1));
            lemma_le_bound(s@.skip(1));
            reveal_with_fuel(pow256, 9);
        }
        let high: u64 = le_u64(rest);
        s[0] as u64 + 256 * high
    }
}

/// The number whose bytes are `s`, most significant first.
pub fn be_u64(s: &[u8]) -> (v: u64)
    requires
        s@.len() <= 8,
    ensures
        v == be_value(s@),
    decreases s@.len(),
{
    if s.len() == 0 {
        0
    } else {
        let rest = vstd::slice::slice_subrange(s, 0, s.len() - 1);
        proof {
            assert(rest@ =~= s@.drop_last());
            lemma_be_bound(s@.drop_last());
            reveal_with_fuel(pow256, 9);
        }
        let high: u64 = be_u64(rest);
        256 * high + s[s.len() - 1] as u64
    }
}

/// The CRC-32 checksum of a byte string.
pub uninterp spec fn crc32_of(data: Seq<u8>) -> u32;

/// Checksum of `data` by `crc32fast::Hasher` (`new`, one `update`, `finalize`).
/// The contract claims that the checksum depends on the bytes alone; which
/// number it is stays unsaid.
#[verifier::external_body]
pub fn crc32(data: &[u8]) -> (c: u32)
    ensures
        c == crc32_of(data@),
{
    let mut h = crc32fast::Hasher::new();
    h.update(data);
    h.finalize()
}

/// Cursor over a byte slice with checked reads; every decoder in the engine
/// funnels through this so truncation always surfaces as `Corruption`.
pub struct Reader<'a> {
    buf: &'a [u8],
    pos: usize,
}

impl<'a> Reader<'a> {
    #[verifier::type_invariant]
    spec fn in_bounds(self) -> bool {
        self.pos <= self.buf@.len()
    }

    /// The bytes still to be read.
    pub closed spec fn rest(self) -> Seq<u8> {
        self.buf@.skip(self.pos as int)
    }

    pub fn new(buf: &'a [u8]) -> (r: Self)
        ensures
            r.rest() == buf@,
    {
        let r = Reader { buf, pos: 0 };
        assert(r.rest() =~= buf@);
        r
    }

    pub fn remaining(&self) -> (n: usize)
        ensures
            n == self.rest().len(),
    {
        proof {
            use_type_invariant(self);
        }
        self.buf.len() - self.pos
    }

    pub fn is_empty(&self) -> (b: bool)
        ensures
            b == (self.rest().len() == 0),
    {
        self.remaining() == 0
    }

    /// The next `n` bytes.
    pub fn bytes(&mut self, n: usize) -> (r: Result<&'a [u8]>)
        ensures
            match p_bytes(old(self).rest(), n as nat) {
                Some((v, rest)) => r matches Ok(s) && s@ == v && final(self).rest() == rest,
                None => r matches Err(Error::Corruption(_)) && final(self).rest() == old(self).rest(),
            },
    {
        proof {
            use_type_invariant(&*self);
        }
        if self.remaining() < n {
            return Err(corrupt("short read while decoding"));
        }
        let start: usize = self.pos;
        assert(start + n <= self.buf.len());
        let out = vstd::slice::slice_subrange(self.buf, start, start + n);
        assert(out@ =~= self.rest().take(n as int));
        self.pos = start + n;
        assert(self.rest() =~= old(self).rest().skip(n as int));
        Ok(out)
    }

    /// The next four bytes as a little-endian number.
    pub fn u32(&mut self) -> (r: Result<u32>)
        ensures
            match p_u32(old(self).rest()) {
                Some((v, rest)) => r == Ok::<u32, Error>(v) && final(self).rest() == rest,
                None => r matches Err(Error::Corruption(_)) && final(self).rest() == old(self).rest(),
            },
    {
        let s = self.bytes(4)?;
        proof {
            lemma_le_bound(s@);
            lemma_pow256_values();
        }
        Ok(le_u64(s) as u32)
    }

    /// The next eight bytes as a little-endian number.
    pub fn u64(&mut self) -> (r: Result<u64>)
        ensures
            match p_u64(old(self).rest()) {
                Some((v, rest)) => r == Ok::<u64, Error>(v) && final(self).rest() == rest,
                None => r matches Err(Error::Corruption(_)) && final(self).rest() == old(self).rest(),
            },
    {
        let s = self.bytes(8)?;
        Ok(le_u64(s))
    }

    /// The next byte.
    pub fn u8(&mut self) -> (r: Result<u8>)
        ensures
            match p_u8(old(self).rest()) {
                Some((v, rest)) => r == Ok::<u8, Error>(v) && final(self).rest() == rest,
                None => r matches Err(Error::Corruption(_)) && final(self).rest() == old(self).rest(),
            },
    {
        let s = self.bytes(1)?;
        Ok(s[0])
    }

    /// The rest of a varint whose first `i` bytes have been read.
    fn uvarint_from(&mut self, i: u8) -> (r: Result<u64>)
        requires
            i <= 9,
        ensures
            match p_uvarint_from(old(self).rest(), i as nat) {
                Some((v, rest)) => r matches Ok(w) && w == v && final(self).rest() == rest,
                None => r matches Err(Error::Corruption(_)) && final(self).rest() == uvarint_stop(
                    old(self).rest(),
                    i as nat,
                ),
            },
        decreases 10 - i,
    {
        let ghost s = self.rest();
        let b: u8 = self.u8()?;
        if i == 9 && b > 1 {
            return Err(corrupt("uvarint overflow"));
        }
        if b < 0x80 {
            return Ok(b as u64);
        }
        let high: u64 = self.uvarint_from(i + 1)?;
        proof {
            lemma_uvarint_bound(s.skip(1), (i + 1) as nat);
            reveal_with_fuel(uvarint_cap, 10);
        }
        Ok((b - 128) as u64 + 128 * high)
    }

    /// The next varint.
    pub fn uvarint(&mut self) -> (r: Result<u64>)
        ensures
            match p_uvarint(old(self).rest()) {
                Some((v, rest)) => r == Ok::<u64, Error>(v) && final(self).rest() == rest,
                None => r matches Err(Error::Corruption(_)) && final(self).rest() == uvarint_stop(
                    old(self).rest(),
                    0,
                ),
            },
    {
        self.uvarint_from(0)
    }

    /// The next length-prefixed byte string.
    pub fn len_prefixed(&mut self) -> (r: Result<&'a [u8]>)
        ensures
            match p_len_prefixed(old(self).rest()) {
                Some((v, rest)) => r matches Ok(s) && s@ == v && final(self).rest() == rest,
                None => r matches Err(Error::Corruption(_)) && final(self).rest() == match p_uvarint(
                    old(self).rest(),
                ) {
                    Some((_, rest)) => rest,
                    None => uvarint_stop(old(self).rest(), 0),
                },
            },
    {
        let n: u64 = self.uvarint()?;
        if n > self.remaining() as u64 {
            return Err(corrupt("length prefix beyond buffer"));
        }
        self.bytes(n as usize)
    }
}

/// How numbers stand in files: fixed widths with the least significant byte
/// first, seqnos in keys with the most significant one first, and varints in
/// groups of seven bits, the least significant first, each but the last with its
/// top bit set.
pub proof fn lemma_number_layout(a: u32, b: u64, v: nat, n: nat)
    ensures
        enc_u32(a).len() == 4,
        enc_u32(a)[0] == a % 256,
        enc_u32(a)[3] == a / 0x100_0000,
        enc_u64(b).len() == 8,
        enc_u64(b)[0] == b % 256,
        n > 0 ==> enc_be(v, n).len() == n && enc_be(v, n).last() == v % 256,
        b < 128 ==> enc_uvarint(b) == seq![b as u8],
        b >= 128 ==> enc_uvarint(b)[0] == 128 + b % 128 && enc_uvarint(b).skip(1) == enc_uvarint(
            b / 128,
        ),
{
    lemma_le_len(a as nat, 4);
    lemma_le_len(b as nat, 8);
    lemma_be_len(v, n);
    reveal_with_fuel(enc_le, 5);
    assert(enc_le(b as nat, 8)[0] == (b as nat % 256) as u8);
    let x = a as nat;
    assert(enc_le(x, 4)[3] == (x / 256 / 256 / 256 % 256) as u8);
    assert(x / 256 / 256 / 256 == x / 0x100_0000 && x / 0x100_0000 < 256);
    if b >= 128 {
        assert(enc_uvarint(b).skip(1) =~= enc_uvarint(b / 128));
    }
}

} // verus!
