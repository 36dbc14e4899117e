//! Per-run bloom filter over user keys, double-hashing scheme.
//!
//! Serialized form: `[k u8][bitmap bytes...]`. The bit count is implied by
//! the bitmap length; `k` is the probe count.

use vstd::prelude::*;

verus! {

/// One step of FNV-1a.
pub open spec fn fnv_step(h: u64, b: u8) -> u64 {
    (h ^ (b as u64)).wrapping_mul(0x100000001b3)
}

/// FNV-1a over a byte string.
pub open spec fn fnv(s: Seq<u8>) -> u64
    decreases s.len(),
{
    if s.len() == 0 {
        0xcbf29ce484222325
    } else {
        fnv_step(fnv(s.drop_last()), s.last())
    }
}

/// The finalizer of murmur3, which spreads a hash across the whole word.
pub open spec fn fmix64(h: u64) -> u64 {
    let a = (h ^ (h >> 33)).wrapping_mul(0xff51afd7ed558ccd);
    let b = (a ^ (a >> 33)).wrapping_mul(0xc4ceb9fe1a85ec53);
    b ^ (b >> 33)
}

/// The hash of a key.
pub open spec fn hash_of(key: Seq<u8>) -> u64 {
    fmix64(fnv(key))
}

/// 64-bit hash for filter probes: FNV-1a folded through the murmur3 finalizer
/// so short keys still spread across the whole word.
pub fn hash64(key: &[u8]) -> (h: u64)
    ensures
        h == hash_of(key@),
{
    let mut h: u64 = 0xcbf29ce484222325;
    let mut i: usize = 0;
    while i < key.len()
        invariant
            i <= key@.len(),
            h == fnv(key@.take(i as int)),
        decreases key@.len() - i,
    {
        assert(key@.take(i + 1).drop_last() =~= key@.take(i as int));
        h = h ^ (key[i] as u64);
        h = h.wrapping_mul(0x100000001b3);
        i += 1;
    }
    assert(key@.take(i as int) =~= key@);
    h = h ^ (h >> 33);
    h = h.wrapping_mul(0xff51afd7ed558ccd);
    h = h ^ (h >> 33);
    h = h.wrapping_mul(0xc4ceb9fe1a85ec53);
    h = h ^ (h >> 33);
    h
}

/// A product by an odd number can be undone: `p` times `q` is one more than `k`
/// times 2^64.
proof fn lemma_mul_undone(x: u64, p: u64, q: u64, k: int)
    requires
        p * q == k * 0x1_0000_0000_0000_0000 + 1,
    ensures
        x.wrapping_mul(p).wrapping_mul(q) == x,
{
    let m = 0x1_0000_0000_0000_0000int;
    let xp = x as int * p as int;
    vstd::arithmetic::div_mod::lemma_mul_mod_noop_left(xp, q as int, m);
    assert(xp * q == m * (x * k) + x) by (nonlinear_arith)
        requires
            xp == x as int * p as int,
            p * q == k * m + 1,
    ;
    vstd::arithmetic::div_mod::lemma_mod_multiples_vanish(x * k, x as int, m);
    vstd::arithmetic::div_mod::lemma_small_mod(x as nat, m as nat);
}

/// A step keeps different hashes apart, and different bytes.
proof fn lemma_step_injective(g: u64, h: u64, b: u8, c: u8)
    ensures
        g != h ==> fnv_step(g, b) != fnv_step(h, b),
        b != c ==> fnv_step(g, b) != fnv_step(g, c),
{
    lemma_mul_undone(g ^ (b as u64), 0x100000001b3, 0xce965057aff6957b, 0xce9650590f);
    lemma_mul_undone(h ^ (b as u64), 0x100000001b3, 0xce965057aff6957b, 0xce9650590f);
    lemma_mul_undone(g ^ (c as u64), 0x100000001b3, 0xce965057aff6957b, 0xce9650590f);
    assert(g != h ==> g ^ (b as u64) != h ^ (b as u64)) by (bit_vector);
    assert(b != c ==> g ^ (b as u64) != g ^ (c as u64)) by (bit_vector);
}

proof fn lemma_fold_injective(g: u64, h: u64)
    ensures
        g != h ==> g ^ (g >> 33) != h ^ (h >> 33),
{
    assert(g != h ==> g ^ (g >> 33) != h ^ (h >> 33)) by (bit_vector);
}

/// The finalizer keeps different hashes apart.
proof fn lemma_fmix64_injective(g: u64, h: u64)
    requires
        g != h,
    ensures
        fmix64(g) != fmix64(h),
{
    let g1 = g ^ (g >> 33);
    let h1 = h ^ (h >> 33);
    lemma_fold_injective(g, h);
    lemma_mul_undone(g1, 0xff51afd7ed558ccd, 0x4f74430c22a54005, 0x4f3e2925cb7c5b4e);
    lemma_mul_undone(h1, 0xff51afd7ed558ccd, 0x4f74430c22a54005, 0x4f3e2925cb7c5b4e);
    let g2 = g1.wrapping_mul(0xff51afd7ed558ccd);
    let h2 = h1.wrapping_mul(0xff51afd7ed558ccd);
    lemma_fold_injective(g2, h2);
    let g3 = g2 ^ (g2 >> 33);
    let h3 = h2 ^ (h2 >> 33);
    lemma_mul_undone(g3, 0xc4ceb9fe1a85ec53, 0x9cb4b2f8129337db, 0x7878e44812b2d581);
    lemma_mul_undone(h3, 0xc4ceb9fe1a85ec53, 0x9cb4b2f8129337db, 0x7878e44812b2d581);
    lemma_fold_injective(
        g3.wrapping_mul(0xc4ceb9fe1a85ec53),
        h3.wrapping_mul(0xc4ceb9fe1a85ec53),
    );
}

/// Keys of one length that differ in exactly one byte never have the same
/// hash.
pub proof fn lemma_one_byte_never_collides(a: Seq<u8>, b: Seq<u8>, i: int)
    requires
        a.len() == b.len(),
        0 <= i < a.len(),
        a[i] != b[i],
        forall|j: int| 0 <= j < a.len() && j != i ==> a[j] == b[j],
    ensures
        hash_of(a) != hash_of(b),
{
    lemma_one_byte_kept(a, b, i);
    lemma_fmix64_injective(fnv(a), fnv(b));
}

proof fn lemma_one_byte_kept(a: Seq<u8>, b: Seq<u8>, i: int)
    requires
        a.len() == b.len(),
        0 <= i < a.len(),
        a[i] != b[i],
        forall|j: int| 0 <= j < a.len() && j != i ==> a[j] == b[j],
    ensures
        fnv(a) != fnv(b),
    decreases a.len(),
{
    let n = a.len() - 1;
    if i < n {
        lemma_one_byte_kept(a.drop_last(), b.drop_last(), i);
        assert(a[n] == b[n]);
        lemma_step_injective(fnv(a.drop_last()), fnv(b.drop_last()), a.last(), a.last());
    } else {
        assert(a.drop_last() =~= b.drop_last());
        lemma_step_injective(fnv(a.drop_last()), fnv(a.drop_last()), a.last(), b.last());
    }
}

/// The odd step between a hash's probes.
pub open spec fn probe_step(h: u64) -> u64 {
    (h >> 33) | 1
}

/// The running value of the `j`-th probe.
pub open spec fn probe_value(h: u64, j: nat) -> u64
    decreases j,
{
    if j == 0 {
        h
    } else {
        probe_value(h, (j - 1) as nat).wrapping_add(probe_step(h))
    }
}

/// The bit that the `j`-th probe of hash `h` looks at.
pub open spec fn probe_bit(h: u64, j: nat, nbits: nat) -> nat {
    probe_value(h, j) as nat % nbits
}

/// Bit `i` of a bitmap is set.
pub open spec fn bit_set(bitmap: Seq<u8>, i: nat) -> bool {
    bitmap[(i / 8) as int] & (1u8 << ((i % 8) as u8)) != 0
}

/// How many probes a filter makes at a given density.
pub open spec fn probe_count(bits_per_key: nat) -> nat {
    let k = bits_per_key * 69 / 100;
    if k < 1 {
        1
    } else if k > 30 {
        30
    } else {
        k
    }
}

/// How many bytes the bitmap of a filter over `n` keys takes.
pub open spec fn bitmap_len(n: nat, bits_per_key: nat) -> nat {
    let m = if n == 0 {
        1
    } else {
        n
    };
    let nbits = if m * bits_per_key < 64 {
        64
    } else {
        m * bits_per_key
    };
    (nbits + 7) / 8
}

/// Some probe of one of the hashes looks at bit `i`.
pub open spec fn probed(hashes: Seq<u64>, k: nat, nbits: nat, i: nat) -> bool {
    exists|a: int, j: nat|
        0 <= a < hashes.len() && j < k && #[trigger] probe_bit(hashes[a], j, nbits) == i
}

/// What a filter answers for a hash: a degenerate filter lets everything
/// through.
pub open spec fn filter_admits(filter: Seq<u8>, h: u64) -> bool {
    filter.len() < 2 || filter[0] > 30 || forall|j: nat|
        j < filter[0] ==> bit_set(
            filter.skip(1),
            #[trigger] probe_bit(h, j, (8 * (filter.len() - 1)) as nat),
        )
}

/// `filter` is the filter over `hashes`: its first byte is the probe count and
/// a bit is set exactly where some probe of some hash looks.
pub open spec fn is_filter_over(filter: Seq<u8>, hashes: Seq<u64>, bits_per_key: nat) -> bool {
    let nbytes = bitmap_len(hashes.len(), bits_per_key);
    &&& filter.len() == 1 + nbytes
    &&& filter[0] == probe_count(bits_per_key)
    &&& forall|i: nat|
        i < 8 * nbytes ==> (#[trigger] bit_set(filter.skip(1), i) <==> probed(
            hashes,
            probe_count(bits_per_key),
            8 * nbytes,
            i,
        ))
}

/// A filter never denies a key that it was built over.
pub proof fn lemma_no_false_negatives(
    filter: Seq<u8>,
    hashes: Seq<u64>,
    bits_per_key: nat,
    a: int,
)
    requires
        is_filter_over(filter, hashes, bits_per_key),
        0 <= a < hashes.len(),
    ensures
        filter_admits(filter, hashes[a]),
{
    let nbytes = bitmap_len(hashes.len(), bits_per_key);
    let nbits = (8 * (filter.len() - 1)) as nat;
    assert forall|j: nat| j < filter[0] implies bit_set(
        filter.skip(1),
        #[trigger] probe_bit(hashes[a], j, nbits),
    ) by {
        let i = probe_bit(hashes[a], j, nbits);
        assert(nbits >= 64);
        assert(i < nbits) by (nonlinear_arith)
            requires
                nbits > 0,
                i == probe_value(hashes[a], j) as nat % nbits,
        ;
        assert(probed(hashes, probe_count(bits_per_key), nbits, i));
    }
}

proof fn lemma_set_bit(b: u8, s: u8, t: u8)
    requires
        s < 8,
        t < 8,
    ensures
        ((b | (1u8 << s)) & (1u8 << t) != 0) <==> (s == t || b & (1u8 << t) != 0),
{
    assert(((b | (1u8 << s)) & (1u8 << t) != 0) <==> (s == t || b & (1u8 << t) != 0))
        by (bit_vector)
        requires
            s < 8,
            t < 8,
    ;
}

/// Setting one bit sets that bit and no other.
proof fn lemma_bitmap_update(bitmap: Seq<u8>, bit: nat, i: nat)
    requires
        bit < 8 * bitmap.len(),
        i < 8 * bitmap.len(),
    ensures
        bit_set(
            bitmap.update(
                (bit / 8) as int,
                bitmap[(bit / 8) as int] | (1u8 << ((bit % 8) as u8)),
            ),
            i,
        ) <==> (i == bit || bit_set(bitmap, i)),
{
    lemma_set_bit(bitmap[(bit / 8) as int], (bit % 8) as u8, (i % 8) as u8);
}

/// Number of probes at a given density.
fn probes_for(bits_per_key: usize) -> (k: u8)
    ensures
        k == probe_count(bits_per_key as nat),
{
    if bits_per_key >= 44 {
        30
    } else {
        let k: usize = bits_per_key * 69 / 100;
        if k < 1 {
            1
        } else {
            k as u8
        }
    }
}

/// Build the filter over `hashes`.
pub fn build(hashes: &[u64], bits_per_key: usize) -> (out: Vec<u8>)
    requires
        hashes@.len() * bits_per_key + 8 <= usize::MAX,
        bits_per_key + 8 <= usize::MAX,
    ensures
        is_filter_over(out@, hashes@, bits_per_key as nat),
{
    let n: usize = if hashes.len() == 0 { 1 } else { hashes.len() };
    assert(n * bits_per_key + 8 <= usize::MAX) by {
        if n == 1 {
            assert(n * bits_per_key == bits_per_key) by (nonlinear_arith)
                requires
                    n == 1,
            ;
        }
    }
    assert(0 <= n * bits_per_key) by (nonlinear_arith);
    let want: usize = n * bits_per_key;
    let nbits0: usize = if want < 64 { 64 } else { want };
    let nbytes: usize = (nbits0 + 7) / 8;
    let ghost nb = (8 * nbytes) as nat;
    assert(nbytes == bitmap_len(hashes@.len(), bits_per_key as nat));
    assert(8 * nbytes <= nbits0 + 7);
    let nbits: usize = nbytes * 8;
    let k: u8 = probes_for(bits_per_key);
    let mut bitmap: Vec<u8> = vec![0u8; nbytes];
    proof {
        assert forall|i: nat| i < nb implies !(#[trigger] bit_set(bitmap@, i)) by {
            let t = (i % 8) as u8;
            assert(0u8 & (1u8 << t) == 0) by (bit_vector);
        }
    }
    let mut a: usize = 0;
    while a < hashes.len()
        invariant
            a <= hashes@.len(),
            bitmap@.len() == nbytes,
            nb == 8 * nbytes,
            nbits == nb,
            nb >= 64,
            k as nat == probe_count(bits_per_key as nat),
            forall|i: nat|
                i < nb ==> (#[trigger] bit_set(bitmap@, i) <==> probed(
                    hashes@.take(a as int),
                    k as nat,
                    nb,
                    i,
                )),
        decreases hashes@.len() - a,
    {
        let h: u64 = hashes[a];
        let delta: u64 = (h >> 33) | 1;
        let mut g: u64 = h;
        let mut j: u8 = 0;
        let ghost done = hashes@.take(a as int);
        let ghost start = bitmap@;
        while j < k
            invariant
                j <= k,
                bitmap@.len() == nbytes,
                nb == 8 * nbytes,
                nbits == nb,
                nb >= 64,
                delta == probe_step(h),
                g == probe_value(h, j as nat),
                forall|i: nat|
                    i < nb ==> (#[trigger] bit_set(bitmap@, i) <==> (bit_set(start, i) || exists|
                        q: nat,
                    |
                        q < j && #[trigger] probe_bit(h, q, nb) == i)),
            decreases k - j,
        {
            let bit: usize = (g % (nbits as u64)) as usize;
            assert(bit == probe_bit(h, j as nat, nb));
            let ghost before = bitmap@;
            let cell: u8 = bitmap[bit / 8] | (1u8 << ((bit % 8) as u8));
            bitmap.set(bit / 8, cell);
            proof {
                assert forall|i: nat| i < nb implies (#[trigger] bit_set(bitmap@, i) <==> (bit_set(
                    start,
                    i,
                ) || exists|q: nat| q < j + 1 && #[trigger] probe_bit(h, q, nb) == i)) by {
                    lemma_bitmap_update(before, bit as nat, i);
                    if i == bit {
                        assert(probe_bit(h, j as nat, nb) == i);
                    }
                    if bit_set(before, i) && !bit_set(start, i) {
                        let q = choose|q: nat| q < j && #[trigger] probe_bit(h, q, nb) == i;
                        assert(q < j + 1 && probe_bit(h, q, nb) == i);
                    }
                    if exists|q: nat| q < j + 1 && #[trigger] probe_bit(h, q, nb) == i {
                        let q = choose|q: nat| q < j + 1 && #[trigger] probe_bit(h, q, nb) == i;
                        if q == j {
                            assert(i == bit);
                        } else {
                            assert(q < j && probe_bit(h, q, nb) == i);
                            assert(bit_set(before, i));
                        }
                    }
                }
            }
            g = g.wrapping_add(delta);
            j += 1;
        }
        proof {
            let next = hashes@.take(a + 1);
            assert forall|i: nat| i < nb implies (#[trigger] bit_set(bitmap@, i) <==> probed(
                next,
                k as nat,
                nb,
                i,
            )) by {
                if bit_set(start, i) {
                    let (b, q) = choose|b: int, q: nat|
                        0 <= b < done.len() && q < k && #[trigger] probe_bit(done[b], q, nb) == i;
                    assert(probe_bit(next[b], q, nb) == i);
                } else if bit_set(bitmap@, i) {
                    let q = choose|q: nat| q < k && #[trigger] probe_bit(h, q, nb) == i;
                    assert(probe_bit(next[a as int], q, nb) == i);
                }
                if probed(next, k as nat, nb, i) {
                    let (b, q) = choose|b: int, q: nat|
                        0 <= b < next.len() && q < k && #[trigger] probe_bit(next[b], q, nb) == i;
                    if b < a {
                        assert(probe_bit(done[b], q, nb) == i);
                        assert(probed(done, k as nat, nb, i));
                    } else {
                        assert(q < k && probe_bit(h, q, nb) == i);
                    }
                }
            }
        }
        a += 1;
    }
    assert(hashes@.take(a as int) =~= hashes@);
    let mut out: Vec<u8> = vec![k];
    crate::coding::put_bytes(&mut out, bitmap.as_slice());
    assert(out@.skip(1) =~= bitmap@);
    out
}

/// Whether a filter lets a hash through: `false` only if no key of that hash
/// is in the run.
pub fn may_contain(filter: &[u8], h: u64) -> (r: bool)
    ensures
        r == filter_admits(filter@, h),
{
    if filter.len() < 2 {
        return true;
    }
    let k: u8 = filter[0];
    if k > 30 {
        return true;
    }
    let bitmap = vstd::slice::slice_subrange(filter, 1, filter.len());
    assert(bitmap@ =~= filter@.skip(1));
    let nbits: u128 = bitmap.len() as u128 * 8;
    let ghost nb = (8 * (filter@.len() - 1)) as nat;
    let delta: u64 = (h >> 33) | 1;
    let mut g: u64 = h;
    let mut j: u8 = 0;
    while j < k
        invariant
            j <= k,
            k == filter@[0],
            k <= 30,
            filter@.len() >= 2,
            bitmap@ == filter@.skip(1),
            nbits == nb,
            nb == 8 * (filter@.len() - 1),
            nb == 8 * bitmap@.len(),
            delta == probe_step(h),
            g == probe_value(h, j as nat),
            forall|q: nat| q < j ==> bit_set(bitmap@, #[trigger] probe_bit(h, q, nb)),
        decreases k - j,
    {
        let bit: u128 = g as u128 % nbits;
        assert(bit == probe_bit(h, j as nat, nb));
        let cell: usize = (bit / 8) as usize;
        if bitmap[cell] & (1u8 << ((bit % 8) as u8)) == 0 {
            assert(!bit_set(filter@.skip(1), probe_bit(h, j as nat, nb)));
            return false;
        }
        g = g.wrapping_add(delta);
        j += 1;
    }
    true
}

} // verus!
