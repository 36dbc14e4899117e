//! Tunables, and the names of the files in a database directory.

use vstd::prelude::*;
use vstd::string::StringExecFns;
use vstd::string::StringSliceAdditionalSpecFns;

use crate::order::bytes_eq;
use crate::text::{parse_dec, push_padded};

verus! {

use crate::text::{ascii_bytes, lemma_padded_roundtrip, p_dec, padded};

/// When appends are pushed to stable storage.
#[derive(Debug, Clone, Copy, PartialEq, Eq, Structural)]
pub enum SyncMode {
    /// fdatasync the vlog and WAL on every write batch (group-committed:
    /// concurrent writers share one fsync). Durable to the last acked op.
    Always,
    /// Acks at memory speed; a background timer fsyncs the WAL and vlog head
    /// every `every_ms` milliseconds, bounding crash loss to roughly that
    /// window. (Never yields a corrupt store: recovery truncates at the torn
    /// tail.)
    Periodic { every_ms: u64 },
    /// Leave flushing entirely to the OS page cache. Crash may lose recent
    /// tail writes (never corrupt: recovery truncates at the torn tail).
    Never,
}

/// Per-block SST compression codec. Each block records its codec in the
/// trailer, so reads never depend on this option. This library has no LZ4
/// encoder or decoder: tables are written raw whatever is chosen here, and a
/// block whose trailer names another codec is refused on reading.
#[derive(Debug, Clone, Copy, PartialEq, Eq, Structural)]
pub enum Compression {
    /// Store blocks raw.
    Raw,
    /// Accepted, and without effect: blocks are stored raw.
    Lz4,
}

/// IO backend selection.
#[derive(Debug, Clone, Copy, PartialEq, Eq, Structural)]
pub enum IoBackend {
    /// io_uring when the platform/kernel supports it, otherwise portable IO.
    Auto,
    /// Force io_uring; opening fails where unsupported.
    Uring,
    /// Force portable positioned IO (pread/pwrite).
    Std,
}

/// Tunables that the library reads. `Options::default()` is a sane starting
/// point for tests and small workloads.
#[derive(Debug, Clone)]
pub struct Options {
    pub create_if_missing: bool,
    pub sync: SyncMode,
    pub io_backend: IoBackend,
    /// Operator-chosen, fleet-unique store name. Fixes the deterministic store
    /// identity: used at creation to mint it, on reopen it must match the
    /// persisted name, and an existing unnamed store adopts it once.
    pub store_name: Option<String>,
    /// Freeze + flush the memtable once its in-memory footprint passes this.
    pub memtable_size: usize,
    /// Max frozen (unflushed) memtables before writers stall.
    pub max_immutable_memtables: usize,
    /// Target uncompressed data-block size in SSTs.
    pub block_size: usize,
    /// Per-block SST compression codec; has no effect, tables are written raw.
    pub compression: Compression,
    /// Bloom filter budget per key, in bits.
    pub bloom_bits_per_key: usize,
    /// Shared block cache capacity in bytes.
    pub block_cache_size: usize,
    /// Runs in L0 that trigger an L0 -> L1 tier merge.
    pub l0_compaction_trigger: usize,
    /// Runs per level (tier width) that trigger a merge to the next level.
    pub tier_width: usize,
    /// Total number of levels; the last is kept as a single leveled run.
    pub max_levels: usize,
    /// L0 run count at which writers stall until compaction catches up.
    pub l0_stall_trigger: usize,
    /// Compaction output runs split into fragments of roughly this size.
    pub target_file_size: u64,
    /// Values >= this many bytes go to the value log; smaller stay inline in
    /// the LSM tree. 0 separates everything; usize::MAX disables separation.
    pub value_threshold: usize,
    /// Seal + rotate the head vlog file at this size.
    pub vlog_file_size: u64,
    /// Hard cap on a single key.
    pub max_key_size: usize,
    /// Hard cap on a single value.
    pub max_value_size: usize,
    /// Cap on one transaction's buffered write set (also bounds WASM executor
    /// writes).
    pub max_txn_write_bytes: usize,
    /// Cap on buffered, not-yet-consumed bytes per replication subscription.
    pub sub_queue_bytes: usize,
    /// Fuel budget per WASM invocation (roughly: abstract instructions).
    pub wasm_fuel: u64,
    /// Max linear memory a WASM invocation may grow to, in bytes.
    pub wasm_memory_limit: usize,
    /// Automatic re-runs of an executor whose commit hit a conflict.
    pub execute_retries: usize,
    /// Cap on input passed to a WASM invocation (fits in i32 for the ABI).
    pub max_wasm_input: usize,
    /// Cap on bytes a WASM invocation may emit via output_write.
    pub max_wasm_output: usize,
    /// Cap on bytes a WASM invocation may emit via log.
    pub max_wasm_log: usize,
    /// Cap on concurrently open scan handles per WASM invocation.
    pub max_wasm_scans: usize,
    /// Cap on compiled modules kept in the in-memory cache.
    pub wasm_module_cache: usize,
    /// Max touched keys handed to one trigger invocation (the runner drains a
    /// backlog in chunks of this many events).
    pub trigger_batch: usize,
}

impl Default for Options {
    fn default() -> (o: Self)
        ensures
            o.create_if_missing,
            o.sync == SyncMode::Always,
            o.io_backend == IoBackend::Auto,
            o.store_name is None,
            o.memtable_size == 8 * 1024 * 1024,
            o.max_immutable_memtables == 2,
            o.block_size == 8 * 1024,
            o.compression == Compression::Raw,
            o.bloom_bits_per_key == 10,
            o.block_cache_size == 64 * 1024 * 1024,
            o.l0_compaction_trigger == 4,
            o.tier_width == 4,
            o.max_levels == 7,
            o.l0_stall_trigger == 12,
            o.target_file_size == 64 * 1024 * 1024,
            o.value_threshold == 4096,
            o.vlog_file_size == 128 * 1024 * 1024,
            o.max_key_size == 16 * 1024,
            o.max_value_size == 256 * 1024 * 1024,
            o.max_txn_write_bytes == 256 * 1024 * 1024,
            o.sub_queue_bytes == 8 * 1024 * 1024,
            o.wasm_fuel == 1_000_000_000,
            o.wasm_memory_limit == 64 * 1024 * 1024,
            o.execute_retries == 3,
            o.max_wasm_input == 64 * 1024 * 1024,
            o.max_wasm_output == 32 * 1024 * 1024,
            o.max_wasm_log == 1024 * 1024,
            o.max_wasm_scans == 64,
            o.wasm_module_cache == 32,
            o.trigger_batch == 512,
    {
        Options {
            create_if_missing: true,
            sync: SyncMode::Always,
            io_backend: IoBackend::Auto,
            store_name: None,
            memtable_size: 8 * 1024 * 1024,
            max_immutable_memtables: 2,
            block_size: 8 * 1024,
            compression: Compression::Raw,
            bloom_bits_per_key: 10,
            block_cache_size: 64 * 1024 * 1024,
            l0_compaction_trigger: 4,
            tier_width: 4,
            max_levels: 7,
            l0_stall_trigger: 12,
            target_file_size: 64 * 1024 * 1024,
            value_threshold: 4096,
            vlog_file_size: 128 * 1024 * 1024,
            max_key_size: 16 * 1024,
            max_value_size: 256 * 1024 * 1024,
            max_txn_write_bytes: 256 * 1024 * 1024,
            sub_queue_bytes: 8 * 1024 * 1024,
            wasm_fuel: 1_000_000_000,
            wasm_memory_limit: 64 * 1024 * 1024,
            execute_retries: 3,
            max_wasm_input: 64 * 1024 * 1024,
            max_wasm_output: 32 * 1024 * 1024,
            max_wasm_log: 1024 * 1024,
            max_wasm_scans: 64,
            wasm_module_cache: 32,
            trigger_batch: 512,
        }
    }
}

/// A name under a directory: one slash between them, none under the empty
/// directory.
pub open spec fn joined(dir: Seq<char>, name: Seq<char>) -> Seq<char> {
    if dir.len() == 0 || dir.last() == '/' {
        dir + name
    } else {
        dir + seq!['/'] + name
    }
}

/// Resolved paths for a database directory.
#[derive(Debug)]
pub struct DbPaths {
    pub dir: String,
}

fn join(dir: &String, name: &str) -> (p: String)
    ensures
        p@ == joined(dir@, name@),
{
    let mut p = String::from_str("");
    p.append(dir.as_str());
    let n: usize = dir.as_str().unicode_len();
    proof {
        reveal_strlit("");
        reveal_strlit("/");
        assert(p@ =~= dir@);
    }
    if n > 0 && dir.as_str().get_char(n - 1) != '/' {
        p.append("/");
        assert("/"@ =~= seq!['/']);
    }
    p.append(name);
    assert(p@ =~= joined(dir@, name@));
    p
}

/// A file name made of a prefix, a number of at least six digits and a suffix.
fn numbered(prefix: &str, id: u64, suffix: &str) -> (s: String)
    ensures
        s@ == prefix@ + padded(id as nat, 6) + suffix@,
{
    let mut s = String::from_str(prefix);
    push_padded(&mut s, id, 6);
    s.append(suffix);
    s
}

impl DbPaths {
    pub fn new(dir: String) -> (p: Self)
        ensures
            p.dir == dir,
    {
        DbPaths { dir }
    }

    pub fn current(&self) -> (s: String)
        ensures
            s@ == joined(self.dir@, "CURRENT"@),
    {
        join(&self.dir, "CURRENT")
    }

    pub fn manifest(&self, gen: u64) -> (s: String)
        ensures
            s@ == joined(self.dir@, "MANIFEST-"@ + padded(gen as nat, 6) + ""@),
    {
        join(&self.dir, numbered("MANIFEST-", gen, "").as_str())
    }

    pub fn wal(&self, id: u64) -> (s: String)
        ensures
            s@ == joined(self.dir@, "wal-"@ + padded(id as nat, 6) + ".log"@),
    {
        join(&self.dir, numbered("wal-", id, ".log").as_str())
    }

    pub fn table(&self, id: u64) -> (s: String)
        ensures
            s@ == joined(self.dir@, "sst-"@ + padded(id as nat, 6) + ".tbl"@),
    {
        join(&self.dir, numbered("sst-", id, ".tbl").as_str())
    }

    pub fn vlog(&self, id: u64) -> (s: String)
        ensures
            s@ == joined(self.dir@, "vlog-"@ + padded(id as nat, 6) + ".vlog"@),
    {
        join(&self.dir, numbered("vlog-", id, ".vlog").as_str())
    }

    pub fn archive_root(&self) -> (s: String)
        ensures
            s@ == joined(self.dir@, "archive"@),
    {
        join(&self.dir, "archive")
    }

    pub fn archive(&self, name: &str) -> (s: String)
        ensures
            s@ == joined(joined(self.dir@, "archive"@), name@),
    {
        join(&self.archive_root(), name)
    }
}

/// The number between the prefix and the suffix of a file name.
pub open spec fn p_file_id(name: Seq<u8>, prefix: Seq<u8>, suffix: Seq<u8>) -> Option<u64> {
    let n = name.len() as int;
    let p = prefix.len() as int;
    let s = suffix.len() as int;
    if p + s <= n && name.take(p) == prefix && name.skip(n - s) == suffix {
        p_dec(name.subrange(p, n - s))
    } else {
        None
    }
}

/// The id in a file name, where it has the prefix and the suffix and a number
/// between them.
pub fn parse_file_id(name: &[u8], prefix: &[u8], suffix: &[u8]) -> (r: Option<u64>)
    ensures
        r == p_file_id(name@, prefix@, suffix@),
{
    let n: usize = name.len();
    let p: usize = prefix.len();
    let s: usize = suffix.len();
    if p > n || s > n - p {
        return None;
    }
    let head = vstd::slice::slice_subrange(name, 0, p);
    let body = vstd::slice::slice_subrange(name, p, n - s);
    let tail = vstd::slice::slice_subrange(name, n - s, n);
    proof {
        assert(head@ =~= name@.take(p as int));
        assert(tail@ =~= name@.skip(n - s));
    }
    if !bytes_eq(head, prefix) || !bytes_eq(tail, suffix) {
        return None;
    }
    parse_dec(body)
}

/// A file name gives back the id that it was made from.
pub proof fn lemma_file_id_roundtrip(id: u64, prefix: Seq<u8>, suffix: Seq<u8>)
    ensures
        p_file_id(prefix + ascii_bytes(padded(id as nat, 6)) + suffix, prefix, suffix) == Some(id),
{
    lemma_padded_roundtrip(id, 6);
    let d = ascii_bytes(padded(id as nat, 6));
    let name = prefix + d + suffix;
    assert(name.take(prefix.len() as int) =~= prefix);
    assert(name.skip(name.len() - suffix.len()) =~= suffix);
    assert(name.subrange(prefix.len() as int, name.len() - suffix.len()) =~= d);
}

pub open spec fn wal_affixes() -> (Seq<u8>, Seq<u8>) {
    (seq![0x77u8, 0x61, 0x6c, 0x2d], seq![0x2eu8, 0x6c, 0x6f, 0x67])
}

pub open spec fn table_affixes() -> (Seq<u8>, Seq<u8>) {
    (seq![0x73u8, 0x73, 0x74, 0x2d], seq![0x2eu8, 0x74, 0x62, 0x6c])
}

pub open spec fn vlog_affixes() -> (Seq<u8>, Seq<u8>) {
    (seq![0x76u8, 0x6c, 0x6f, 0x67, 0x2d], seq![0x2eu8, 0x76, 0x6c, 0x6f, 0x67])
}

pub open spec fn manifest_prefix() -> Seq<u8> {
    seq![0x4du8, 0x41, 0x4e, 0x49, 0x46, 0x45, 0x53, 0x54, 0x2d]
}

pub open spec fn p_wal_name(name: Seq<u8>) -> Option<u64> {
    p_file_id(name, wal_affixes().0, wal_affixes().1)
}

pub open spec fn p_table_name(name: Seq<u8>) -> Option<u64> {
    p_file_id(name, table_affixes().0, table_affixes().1)
}

pub open spec fn p_vlog_name(name: Seq<u8>) -> Option<u64> {
    p_file_id(name, vlog_affixes().0, vlog_affixes().1)
}

pub open spec fn p_manifest_name(name: Seq<u8>) -> Option<u64> {
    p_file_id(name, manifest_prefix(), Seq::empty())
}

/// The id of a WAL's file name.
pub fn wal_id_of(name: &[u8]) -> (r: Option<u64>)
    ensures
        r == p_wal_name(name@),
{
    let prefix: [u8; 4] = [0x77, 0x61, 0x6c, 0x2d];
    let suffix: [u8; 4] = [0x2e, 0x6c, 0x6f, 0x67];
    assert(prefix@ =~= wal_affixes().0);
    assert(suffix@ =~= wal_affixes().1);
    parse_file_id(
        name,
        vstd::array::array_as_slice(&prefix),
        vstd::array::array_as_slice(&suffix),
    )
}

/// The id of a table's file name.
pub fn table_id_of(name: &[u8]) -> (r: Option<u64>)
    ensures
        r == p_table_name(name@),
{
    let prefix: [u8; 4] = [0x73, 0x73, 0x74, 0x2d];
    let suffix: [u8; 4] = [0x2e, 0x74, 0x62, 0x6c];
    assert(prefix@ =~= table_affixes().0);
    assert(suffix@ =~= table_affixes().1);
    parse_file_id(
        name,
        vstd::array::array_as_slice(&prefix),
        vstd::array::array_as_slice(&suffix),
    )
}

/// The id of a value-log file's name.
pub fn vlog_id_of(name: &[u8]) -> (r: Option<u64>)
    ensures
        r == p_vlog_name(name@),
{
    let prefix: [u8; 5] = [0x76, 0x6c, 0x6f, 0x67, 0x2d];
    let suffix: [u8; 5] = [0x2e, 0x76, 0x6c, 0x6f, 0x67];
    assert(prefix@ =~= vlog_affixes().0);
    assert(suffix@ =~= vlog_affixes().1);
    parse_file_id(
        name,
        vstd::array::array_as_slice(&prefix),
        vstd::array::array_as_slice(&suffix),
    )
}

/// The generation in a manifest's file name, which is also what CURRENT holds.
pub fn manifest_gen_of(name: &[u8]) -> (r: Option<u64>)
    ensures
        r == p_manifest_name(name@),
{
    let prefix: [u8; 9] = [0x4d, 0x41, 0x4e, 0x49, 0x46, 0x45, 0x53, 0x54, 0x2d];
    let suffix: [u8; 0] = [];
    assert(prefix@ =~= manifest_prefix());
    assert(suffix@ =~= Seq::empty());
    parse_file_id(
        name,
        vstd::array::array_as_slice(&prefix),
        vstd::array::array_as_slice(&suffix),
    )
}

/// The name of a table's file, without its directory.
pub open spec fn table_file(id: u64) -> Seq<u8> {
    ascii_bytes("sst-"@ + padded(id as nat, 6) + ".tbl"@)
}

/// The name of a value-log file, without its directory.
pub open spec fn vlog_file(id: u64) -> Seq<u8> {
    ascii_bytes("vlog-"@ + padded(id as nat, 6) + ".vlog"@)
}

/// The name of a write-ahead log, without its directory.
pub open spec fn wal_file(id: u64) -> Seq<u8> {
    ascii_bytes("wal-"@ + padded(id as nat, 6) + ".log"@)
}

/// The name of a manifest, without its directory.
pub open spec fn manifest_file(gen: u64) -> Seq<u8> {
    ascii_bytes("MANIFEST-"@ + padded(gen as nat, 6) + ""@)
}

/// The name of the file that names the manifest, without its directory.
pub open spec fn current_file() -> Seq<u8> {
    ascii_bytes("CURRENT"@)
}

/// A file name is read as what it was made for, and as nothing else.
#[verifier::rlimit(50)]
pub proof fn lemma_names_apart(id: u64)
    ensures
        p_table_name(table_file(id)) == Some(id),
        p_vlog_name(table_file(id)) is None,
        p_wal_name(table_file(id)) is None,
        p_manifest_name(table_file(id)) is None,
        p_vlog_name(vlog_file(id)) == Some(id),
        p_table_name(vlog_file(id)) is None,
        p_wal_name(vlog_file(id)) is None,
        p_manifest_name(vlog_file(id)) is None,
        p_wal_name(wal_file(id)) == Some(id),
        p_table_name(wal_file(id)) is None,
        p_vlog_name(wal_file(id)) is None,
        p_manifest_name(wal_file(id)) is None,
        p_manifest_name(manifest_file(id)) == Some(id),
        p_table_name(manifest_file(id)) is None,
        p_vlog_name(manifest_file(id)) is None,
        p_wal_name(manifest_file(id)) is None,
        p_table_name(current_file()) is None,
        p_vlog_name(current_file()) is None,
        p_wal_name(current_file()) is None,
        p_manifest_name(current_file()) is None,
{
    lemma_names_roundtrip(id);
    reveal_strlit("wal-");
    reveal_strlit("sst-");
    reveal_strlit("vlog-");
    reveal_strlit("MANIFEST-");
    reveal_strlit("CURRENT");
    assert(table_file(id)[0] == 0x73);
    assert(vlog_file(id)[0] == 0x76);
    assert(wal_file(id)[0] == 0x77);
    assert(manifest_file(id)[0] == 0x4d);
    assert(current_file()[0] == 0x43);
    lemma_other_start(table_file(id));
    lemma_other_start(vlog_file(id));
    lemma_other_start(wal_file(id));
    lemma_other_start(manifest_file(id));
    lemma_other_start(current_file());
}

/// A name that is read as some kind of file starts as those names do.
proof fn lemma_other_start(name: Seq<u8>)
    requires
        name.len() > 0,
    ensures
        p_table_name(name) is Some ==> name[0] == 0x73,
        p_vlog_name(name) is Some ==> name[0] == 0x76,
        p_wal_name(name) is Some ==> name[0] == 0x77,
        p_manifest_name(name) is Some ==> name[0] == 0x4d,
{
    assert(name.take(4)[0] == name[0] || name.len() < 4);
    assert(name.take(5)[0] == name[0] || name.len() < 5);
    assert(name.take(9)[0] == name[0] || name.len() < 9);
}

/// Every file name gives back the id that it was made from.
pub proof fn lemma_names_roundtrip(id: u64)
    ensures
        p_wal_name(ascii_bytes("wal-"@ + padded(id as nat, 6) + ".log"@)) == Some(id),
        p_table_name(ascii_bytes("sst-"@ + padded(id as nat, 6) + ".tbl"@)) == Some(id),
        p_vlog_name(ascii_bytes("vlog-"@ + padded(id as nat, 6) + ".vlog"@)) == Some(id),
        p_manifest_name(ascii_bytes("MANIFEST-"@ + padded(id as nat, 6) + ""@)) == Some(id),
{
    reveal_strlit("wal-");
    reveal_strlit(".log");
    reveal_strlit("sst-");
    reveal_strlit(".tbl");
    reveal_strlit("vlog-");
    reveal_strlit(".vlog");
    reveal_strlit("MANIFEST-");
    reveal_strlit("");
    let d = padded(id as nat, 6);
    assert(ascii_bytes("wal-"@ + d + ".log"@) =~= wal_affixes().0 + ascii_bytes(d)
        + wal_affixes().1);
    assert(ascii_bytes("sst-"@ + d + ".tbl"@) =~= table_affixes().0 + ascii_bytes(d)
        + table_affixes().1);
    assert(ascii_bytes("vlog-"@ + d + ".vlog"@) =~= vlog_affixes().0 + ascii_bytes(d)
        + vlog_affixes().1);
    assert(ascii_bytes("MANIFEST-"@ + d + ""@) =~= manifest_prefix() + ascii_bytes(d)
        + Seq::<u8>::empty());
    lemma_file_id_roundtrip(id, wal_affixes().0, wal_affixes().1);
    lemma_file_id_roundtrip(id, table_affixes().0, table_affixes().1);
    lemma_file_id_roundtrip(id, vlog_affixes().0, vlog_affixes().1);
    lemma_file_id_roundtrip(id, manifest_prefix(), Seq::empty());
}

/// A path is the directory, a slash where there is none yet, and the name; so
/// different names in one directory are different paths.
pub proof fn lemma_paths_differ(dir: Seq<char>, a: Seq<char>, b: Seq<char>)
    ensures
        dir.is_prefix_of(joined(dir, a)),
        joined(dir, a).skip(joined(dir, a).len() - a.len()) == a,
        dir.len() > 0 ==> joined(dir, a)[joined(dir, a).len() - a.len() - 1] == '/',
        joined(dir, a) == joined(dir, b) ==> a == b,
{
    let x = joined(dir, a);
    let y = joined(dir, b);
    assert(x.take(dir.len() as int) =~= dir);
    assert(x.skip(x.len() - a.len()) =~= a);
    assert(y.skip(y.len() - b.len()) =~= b);
}

/// Files of different ids have different names, and so have files of different
/// kinds.
pub proof fn lemma_file_names_differ(id: u64, other: u64)
    ensures
        table_file(id) == table_file(other) ==> id == other,
        vlog_file(id) == vlog_file(other) ==> id == other,
        wal_file(id) == wal_file(other) ==> id == other,
        manifest_file(id) == manifest_file(other) ==> id == other,
        table_file(id) != vlog_file(other),
        table_file(id) != wal_file(other),
        vlog_file(id) != wal_file(other),
{
    lemma_names_apart(id);
    lemma_names_apart(other);
}

/// A name is read as a file's only where it is one: it starts and ends as such
/// names do, with a number in between.
pub proof fn lemma_file_id_is_exact(name: Seq<u8>, prefix: Seq<u8>, suffix: Seq<u8>)
    requires
        p_file_id(name, prefix, suffix) is Some,
    ensures
        prefix.is_prefix_of(name),
        name.len() > prefix.len() + suffix.len(),
        name.skip(name.len() - suffix.len()) == suffix,
        p_dec(name.subrange(prefix.len() as int, name.len() - suffix.len())) == p_file_id(
            name,
            prefix,
            suffix,
        ),
{
}

} // verus!
