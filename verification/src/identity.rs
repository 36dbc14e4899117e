//! Store identity & lineage: a deterministic 128-bit instance id answering
//! "which database lifetime am I talking to?".
//!
//! Replication copies bytes between machines and names them by
//! `(file id, offset)`: coordinates unique only within one store lifetime.
//! The instance id is the outer qualifier: minted at creation, re-minted at
//! every point where history can diverge (first read-write open of a
//! checkpoint archive, `restore_to`), compared by pure equality. It is
//! *derived*, not random: `H(name)` for a root store, `H(parent, cut, name)`
//! for a fork, so the chain is reproducible from lineage metadata and
//! uniqueness is an operator contract (fleet-unique store names).

use sha2::Digest;

use vstd::prelude::*;
use vstd::string::StringSliceAdditionalSpecFns;

use crate::coding::{put_bytes, put_u64};
use crate::error::{invalid, Result};
use crate::text::hex_string;
use crate::types::SeqNo;

verus! {

use crate::coding::{enc_u64, lemma_u64_roundtrip};
use crate::text::hex_digits;

pub const INSTANCE_ID_LEN: usize = 16;

/// 128-bit store-lifetime identifier (truncated SHA-256 of the lineage).
pub type InstanceId = [u8; 16];

/// The identity a store carries in its manifest once named.
#[derive(Debug, Clone, PartialEq, Eq)]
pub struct StoreIdentity {
    /// Operator-chosen, fleet-unique store name (uniqueness contract).
    pub name: String,
    pub instance_id: InstanceId,
    /// Fork lineage: `(parent instance, cut seqno)` when this store began
    /// as a checkpoint fork or restore; `None` for a root store.
    pub parent: Option<(InstanceId, SeqNo)>,
}

/// A fork recorded by checkpoint/restore but not yet minted. The first
/// read-write open consumes it: derives the child id and persists the new
/// identity, so one archive can fork in place at most once.
#[derive(Debug, Clone, PartialEq, Eq)]
pub struct PendingFork {
    pub parent_instance_id: InstanceId,
    pub cut_seqno: SeqNo,
    /// The child's store name, fixed at checkpoint/restore time.
    pub name: String,
}

/// The SHA-256 digest of a byte string.
pub uninterp spec fn sha256_of(data: Seq<u8>) -> Seq<u8>;

/// `sha2::Sha256::digest`: the contract claims that the digest depends on the
/// bytes alone and is 32 bytes long.
#[verifier::external_body]
fn sha256(data: &[u8]) -> (d: Vec<u8>)
    ensures
        d@ == sha256_of(data@),
        d@.len() == 32,
{
    sha2::Sha256::digest(data).to_vec()
}

/// A part of what is hashed, behind its length.
pub open spec fn framed(part: Seq<u8>) -> Seq<u8> {
    enc_u64(part.len() as u64) + part
}

pub open spec fn framed_all(parts: Seq<Seq<u8>>) -> Seq<u8>
    decreases parts.len(),
{
    if parts.len() == 0 {
        Seq::empty()
    } else {
        framed(parts[0]) + framed_all(parts.skip(1))
    }
}

/// Domain-separated, length-prefixed truncated SHA-256: the first of `parts`
/// is the domain.
pub open spec fn lineage_hash(parts: Seq<Seq<u8>>) -> Seq<u8> {
    sha256_of(framed_all(parts)).take(16)
}

/// `fluent31.identity.v1`
pub open spec fn root_domain() -> Seq<u8> {
    seq![
        0x66u8, 0x6c, 0x75, 0x65, 0x6e, 0x74, 0x33, 0x31, 0x2e, 0x69, 0x64, 0x65, 0x6e, 0x74, 0x69,
        0x74, 0x79, 0x2e, 0x76, 0x31,
    ]
}

/// `fluent31.fork.v1`
pub open spec fn fork_domain() -> Seq<u8> {
    seq![
        0x66u8, 0x6c, 0x75, 0x65, 0x6e, 0x74, 0x33, 0x31, 0x2e, 0x66, 0x6f, 0x72, 0x6b, 0x2e, 0x76,
        0x31,
    ]
}

pub open spec fn root_id(name: Seq<u8>) -> Seq<u8> {
    lineage_hash(seq![root_domain(), name])
}

pub open spec fn fork_id(parent: Seq<u8>, cut: u64, name: Seq<u8>) -> Seq<u8> {
    lineage_hash(seq![fork_domain(), parent, enc_u64(cut), name])
}

/// What is hashed determines the parts: two lineages with different parts
/// never feed the digest the same bytes.
pub proof fn lemma_framing_is_injective(a: Seq<Seq<u8>>, b: Seq<Seq<u8>>)
    requires
        framed_all(a) == framed_all(b),
        forall|i: int| 0 <= i < a.len() ==> (#[trigger] a[i]).len() <= u64::MAX,
        forall|i: int| 0 <= i < b.len() ==> (#[trigger] b[i]).len() <= u64::MAX,
    ensures
        a == b,
    decreases a.len(),
{
    if a.len() > 0 {
        lemma_u64_roundtrip(a[0].len() as u64, a[0] + framed_all(a.skip(1)));
    }
    if b.len() > 0 {
        lemma_u64_roundtrip(b[0].len() as u64, b[0] + framed_all(b.skip(1)));
    }
    if a.len() == 0 || b.len() == 0 {
        assert(framed_all(a).len() == 0 <==> a.len() == 0);
        assert(framed_all(b).len() == 0 <==> b.len() == 0);
        assert(a =~= b);
    } else {
        let ra = a[0] + framed_all(a.skip(1));
        let rb = b[0] + framed_all(b.skip(1));
        assert(framed_all(a) =~= enc_u64(a[0].len() as u64) + ra);
        assert(framed_all(b) =~= enc_u64(b[0].len() as u64) + rb);
        assert(a[0].len() == b[0].len());
        assert(ra == rb);
        assert(a[0] =~= ra.take(a[0].len() as int));
        assert(b[0] =~= rb.take(a[0].len() as int));
        assert(framed_all(a.skip(1)) =~= ra.skip(a[0].len() as int));
        assert(framed_all(b.skip(1)) =~= rb.skip(a[0].len() as int));
        assert forall|i: int| 0 <= i < a.skip(1).len() implies (#[trigger] a.skip(1)[i]).len()
            <= u64::MAX by {
            assert(a[i + 1].len() <= u64::MAX);
        }
        assert forall|i: int| 0 <= i < b.skip(1).len() implies (#[trigger] b.skip(1)[i]).len()
            <= u64::MAX by {
            assert(b[i + 1].len() <= u64::MAX);
        }
        lemma_framing_is_injective(a.skip(1), b.skip(1));
        assert(a =~= seq![a[0]] + a.skip(1));
        assert(b =~= seq![b[0]] + b.skip(1));
    }
}

fn put_framed(out: &mut Vec<u8>, part: &[u8])
    ensures
        final(out)@ == old(out)@ + framed(part@),
{
    put_u64(out, part.len() as u64);
    put_bytes(out, part);
    assert(out@ =~= old(out)@ + framed(part@));
}

/// Sixteen bytes as an id.
pub fn id_from(v: &[u8]) -> (id: InstanceId)
    requires
        v@.len() == 16,
    ensures
        id@ == v@,
{
    let id: [u8; 16] = [
        v[0], v[1], v[2], v[3], v[4], v[5], v[6], v[7], v[8], v[9], v[10], v[11], v[12], v[13],
        v[14], v[15],
    ];
    assert(id@ =~= v@);
    id
}

fn truncated(input: &[u8]) -> (id: InstanceId)
    ensures
        id@ == sha256_of(input@).take(16),
{
    let digest = sha256(input);
    let head = vstd::slice::slice_subrange(digest.as_slice(), 0, 16);
    assert(head@ =~= sha256_of(input@).take(16));
    id_from(head)
}

/// The instance id of a root store.
pub fn derive_root(name: &str) -> (id: InstanceId)
    ensures
        id@ == root_id(name.spec_bytes()),
{
    let domain: Vec<u8> = vec![
        0x66u8, 0x6c, 0x75, 0x65, 0x6e, 0x74, 0x33, 0x31, 0x2e, 0x69, 0x64, 0x65, 0x6e, 0x74, 0x69,
        0x74, 0x79, 0x2e, 0x76, 0x31,
    ];
    let mut input: Vec<u8> = Vec::new();
    put_framed(&mut input, domain.as_slice());
    put_framed(&mut input, name.as_bytes());
    proof {
        let parts = seq![root_domain(), name.spec_bytes()];
        assert(domain@ =~= root_domain());
        assert(parts.skip(1) =~= seq![name.spec_bytes()]);
        assert(parts.skip(1).skip(1) =~= Seq::<Seq<u8>>::empty());
        reveal_with_fuel(framed_all, 4);
        assert(input@ =~= framed_all(parts));
    }
    truncated(input.as_slice())
}

/// The instance id of a fork.
pub fn derive_fork(parent: &InstanceId, cut_seqno: SeqNo, name: &str) -> (id: InstanceId)
    ensures
        id@ == fork_id(parent@, cut_seqno, name.spec_bytes()),
{
    let domain: Vec<u8> = vec![
        0x66u8, 0x6c, 0x75, 0x65, 0x6e, 0x74, 0x33, 0x31, 0x2e, 0x66, 0x6f, 0x72, 0x6b, 0x2e, 0x76,
        0x31,
    ];
    let mut cut: Vec<u8> = Vec::new();
    put_u64(&mut cut, cut_seqno);
    let mut input: Vec<u8> = Vec::new();
    put_framed(&mut input, domain.as_slice());
    put_framed(&mut input, vstd::array::array_as_slice(parent));
    put_framed(&mut input, cut.as_slice());
    put_framed(&mut input, name.as_bytes());
    proof {
        let c = enc_u64(cut_seqno);
        let n = name.spec_bytes();
        let parts = seq![fork_domain(), parent@, c, n];
        assert(domain@ =~= fork_domain());
        assert(cut@ =~= c);
        assert(parts.skip(1) =~= seq![parent@, c, n]);
        assert(parts.skip(1).skip(1) =~= seq![c, n]);
        assert(parts.skip(1).skip(1).skip(1) =~= seq![n]);
        assert(parts.skip(1).skip(1).skip(1).skip(1) =~= Seq::<Seq<u8>>::empty());
        reveal_with_fuel(framed_all, 6);
        assert(input@ =~= framed_all(parts));
    }
    truncated(input.as_slice())
}

/// An id as lower-case hexadecimal.
pub fn hex(id: &InstanceId) -> (s: String)
    ensures
        s@ == hex_digits(id@),
{
    hex_string(vstd::array::array_as_slice(id))
}

impl StoreIdentity {
    pub fn root(name: &str) -> (s: StoreIdentity)
        ensures
            s.name@ == name@,
            s.instance_id@ == root_id(name.spec_bytes()),
            s.parent is None,
    {
        StoreIdentity { name: name.to_string(), instance_id: derive_root(name), parent: None }
    }

    pub fn instance_hex(&self) -> (s: String)
        ensures
            s@ == hex_digits(self.instance_id@),
    {
        hex(&self.instance_id)
    }
}

impl PendingFork {
    /// Derive the child identity this fork mints.
    pub fn mint(&self) -> (s: StoreIdentity)
        ensures
            s.name@ == self.name@,
            s.instance_id@ == fork_id(
                self.parent_instance_id@,
                self.cut_seqno,
                vstd::utf8::encode_utf8(self.name@),
            ),
            s.parent == Some((self.parent_instance_id, self.cut_seqno)),
    {
        StoreIdentity {
            name: self.name.clone(),
            instance_id: derive_fork(
                &self.parent_instance_id,
                self.cut_seqno,
                self.name.as_str(),
            ),
            parent: Some((self.parent_instance_id, self.cut_seqno)),
        }
    }
}

/// A byte that names may hold.
pub open spec fn name_byte(b: u8) -> bool {
    ||| 0x30 <= b <= 0x39
    ||| 0x41 <= b <= 0x5a
    ||| 0x61 <= b <= 0x7a
    ||| b == 0x2e
    ||| b == 0x5f
    ||| b == 0x2d
}

/// Whether a byte may stand in a name.
pub fn name_byte_ok(b: u8) -> (r: bool)
    ensures
        r == name_byte(b),
{
    (0x30 <= b && b <= 0x39) || (0x41 <= b && b <= 0x5a) || (0x61 <= b && b <= 0x7a) || b == 0x2e
        || b == 0x5f || b == 0x2d
}

/// `[A-Za-z0-9._-]`, 1 to 64 bytes, no leading dot.
pub open spec fn name_ok(name: Seq<u8>) -> bool {
    &&& 0 < name.len() <= 64
    &&& forall|i: int| 0 <= i < name.len() ==> name_byte(#[trigger] name[i])
    &&& name[0] != 0x2e
}

/// Whether a name is within the shared charset.
pub fn name_is_ok(name: &[u8]) -> (b: bool)
    ensures
        b == name_ok(name@),
{
    if name.len() == 0 || name.len() > 64 || name[0] == 0x2e {
        return false;
    }
    let mut i: usize = 0;
    while i < name.len()
        invariant
            i <= name@.len(),
            forall|k: int| 0 <= k < i ==> name_byte(#[trigger] name@[k]),
        decreases name@.len() - i,
    {
        let b: u8 = name[i];
        let ok: bool = (b >= 0x30 && b <= 0x39) || (b >= 0x41 && b <= 0x5a) || (b >= 0x61 && b
            <= 0x7a) || b == 0x2e || b == 0x5f || b == 0x2d;
        if !ok {
            assert(!name_byte(name@[i as int]));
            return false;
        }
        i += 1;
    }
    true
}

/// Store names share the checkpoint-name charset: they become fork names
/// for archives (directory names) and travel in replication handshakes.
pub fn validate_store_name(name: &str) -> (r: Result<()>)
    ensures
        r is Ok <==> name_ok(name.spec_bytes()),
        r matches Err(e) ==> e is InvalidArgument,
{
    if name_is_ok(name.as_bytes()) {
        Ok(())
    } else {
        Err(
            invalid(
                "invalid store name (use [A-Za-z0-9._-], max 64 chars, no leading dot)",
            ),
        )
    }
}

/// Identities are told apart by lineage: the bytes that a root's identity is
/// drawn from are never those of a fork's, and two forks draw theirs from the
/// same bytes only where parent, cut and name are all the same.
pub proof fn lemma_lineages_differ(
    name: Seq<u8>,
    parent: Seq<u8>,
    cut: u64,
    fork_name: Seq<u8>,
    parent2: Seq<u8>,
    cut2: u64,
    name2: Seq<u8>,
)
    requires
        name.len() <= u64::MAX,
        parent.len() <= u64::MAX,
        fork_name.len() <= u64::MAX,
        parent2.len() <= u64::MAX,
        name2.len() <= u64::MAX,
    ensures
        ({
            let root = framed_all(seq![root_domain(), name]);
            let a = framed_all(seq![fork_domain(), parent, enc_u64(cut), fork_name]);
            let b = framed_all(seq![fork_domain(), parent2, enc_u64(cut2), name2]);
            &&& root_id(name) == sha256_of(root).take(16)
            &&& fork_id(parent, cut, fork_name) == sha256_of(a).take(16)
            &&& fork_id(parent2, cut2, name2) == sha256_of(b).take(16)
            &&& root != a
            &&& a == b ==> parent == parent2 && cut == cut2 && fork_name == name2
        }),
{
    let r = seq![root_domain(), name];
    let x = seq![fork_domain(), parent, enc_u64(cut), fork_name];
    let y = seq![fork_domain(), parent2, enc_u64(cut2), name2];
    lemma_u64_roundtrip(cut, Seq::empty());
    lemma_u64_roundtrip(cut2, Seq::empty());
    if framed_all(r) == framed_all(x) {
        lemma_framing_is_injective(r, x);
        assert(r.len() == x.len());
    }
    if framed_all(x) == framed_all(y) {
        lemma_framing_is_injective(x, y);
        assert(x[1] == y[1] && x[2] == y[2] && x[3] == y[3]);
        assert(enc_u64(cut) + Seq::<u8>::empty() =~= enc_u64(cut2) + Seq::<u8>::empty());
    }
}

/// A store's name can be a directory's: it is not empty, does not start with a
/// dot, and has no slash and no zero byte in it. Letters, digits, dots, dashes
/// and underscores are all it is made of.
pub proof fn lemma_name_is_safe(name: Seq<u8>)
    ensures
        name_ok(name) ==> 0 < name.len() <= 64 && name[0] != 0x2e && forall|i: int|
            0 <= i < name.len() ==> #[trigger] name[i] != 0x2f && name[i] != 0 && name[i] != 0x0a
                && name[i] < 0x80,
        0 < name.len() <= 64 && (forall|i: int|
            0 <= i < name.len() ==> (0x61 <= #[trigger] name[i] <= 0x7a) || (0x41 <= name[i]
                <= 0x5a) || (0x30 <= name[i] <= 0x39) || (i > 0 && (name[i] == 0x2e || name[i]
                == 0x5f || name[i] == 0x2d))) ==> name_ok(name),
{
    if name_ok(name) {
        assert forall|i: int| 0 <= i < name.len() implies #[trigger] name[i] != 0x2f && name[i]
            != 0 && name[i] != 0x0a && name[i] < 0x80 by {
            assert(name_byte(name[i]));
        }
    }
}

} // verus!
