//! Files, journals, forks, edges, value log collection and WebAssembly hosting.

use fluent31::batch::BatchOp;
use fluent31::checkpoint::{decode_checkpoint_meta, encode_checkpoint_meta};
use fluent31::config::{
    manifest_gen_of, table_id_of, vlog_id_of, wal_id_of, DbPaths, Options, SyncMode,
};
use fluent31::counts::{add_count, get_count, set_count};
use fluent31::edge::{
    apply_stream, check_fetched, get, install_slice, resolve_remote, scan, settle_fetch,
    EdgeConfig, EdgeState, SliceManifest, SliceRun, SliceTable, StreamEntry, ValueCache,
    ValueFetcher,
};
use fluent31::engine::Db;
use fluent31::error::Error;
use fluent31::fork::{
    add_to_list, archive_manifest, decode_fork_meta, encode_fork_meta, head_copy_len,
    is_archive, is_carried_over, restore_manifest, routing_id, ForkInfo,
};
use fluent31::gc::{
    gc_candidates, relocations, retire, sample_candidate, sample_dead, split_retired,
    RetiredVlog, SampledAt, GC_SAMPLE_MIN_FILE,
};
use fluent31::identity::{derive_fork, hex, StoreIdentity};
use fluent31::journal::{
    check_source, encode_base, encode_base_end, encode_checkpoint, encode_delta, encode_header,
    read_all_records, rebuild, LogWriter,
};
use fluent31::manifest::ManifestData;
use fluent31::memtable::Memtable;
use fluent31::recovery::{classify, normalize_levels, startup_gc, vlog_set, FileKind};
use fluent31::table::builder::TableBuilder;
use fluent31::txn::{Txn, TxnLimits};
use fluent31::types::{
    encode_inline, encode_ptr, make_ikey, ValueKind, ValuePtr, MAX_SEQNO,
};
use fluent31::version::{ReadView, Version};
use fluent31::vlog::{encode_record, scan_records};
use fluent31::wasm::{
    attempts, check_exports, check_input, check_module, content_hash, guest_chunk,
    module_describes, module_mode, settle_attempt, settle_query, settle_run, Access, Attempt,
    GuestRead, HostCtx, HostLimits, ModuleCache, Offer, Ran, ScanBatch, EBADF, EINVAL, ELIMIT, ENOSPC,
    EROFS,
};
use fluent31::trigger::TriggerMode;

#[test]
fn files_are_named_and_found_by_number() {
    let p = DbPaths::new(String::from("dir"));
    assert_eq!(p.wal(7), "dir/wal-000007.log");
    assert_eq!(p.vlog(7), "dir/vlog-000007.vlog");
    assert_eq!(p.manifest(7), "dir/MANIFEST-000007");
    assert_eq!(p.current(), "dir/CURRENT");
    assert_eq!(wal_id_of(b"wal-000007.log"), Some(7));
    assert_eq!(vlog_id_of(b"vlog-1234567.vlog"), Some(1234567));
    assert_eq!(manifest_gen_of(b"MANIFEST-000012"), Some(12));
    assert_eq!(wal_id_of(b"wal-x.log"), None);
    assert_eq!(wal_id_of(b"wal-99999999999999999999.log"), None);
    let t = p.table(3);
    let name = t.strip_prefix("dir/").unwrap();
    assert_eq!(table_id_of(name.as_bytes()), Some(3));
    assert!(classify(name.as_bytes()) == FileKind::Table(3));
    assert!(classify(b"LOCK") == FileKind::Other);
}

#[test]
fn default_options_are_durable() {
    let o = Options::default();
    assert_eq!(o.sync, SyncMode::Always);
    assert_eq!(o.max_key_size, 16 * 1024);
    assert_eq!(o.max_wasm_input, 64 << 20);
    assert_eq!(o.trigger_batch, 512);
}

#[test]
fn startup_removes_what_the_manifest_does_not_name() {
    let mut d = ManifestData::empty();
    d.wal_floor = 5;
    d.vlog_live = vec![9];
    assert!(startup_gc(&d, 2, b"wal-000004.log"));
    assert!(!startup_gc(&d, 2, b"wal-000005.log"));
    assert!(!startup_gc(&d, 2, b"vlog-000009.vlog"));
    assert!(startup_gc(&d, 2, b"vlog-000008.vlog"));
    assert!(startup_gc(&d, 2, b"MANIFEST-000001"));
    assert!(!startup_gc(&d, 2, b"MANIFEST-000002"));
    assert!(!startup_gc(&d, 2, b"LOCK"));
    normalize_levels(&mut d, 4);
    assert_eq!(d.levels.len(), 4);
}

#[test]
fn counts_add_up() {
    let mut v: Vec<(u64, u64)> = Vec::new();
    set_count(&mut v, 3, 10);
    add_count(&mut v, 3, 5);
    add_count(&mut v, 4, 1);
    assert_eq!(get_count(&v, 3), Some(15));
    assert_eq!(get_count(&v, 4), Some(1));
    assert_eq!(get_count(&v, 5), None);
    add_count(&mut v, 4, u64::MAX);
    assert_eq!(get_count(&v, 4), Some(u64::MAX));
}

#[test]
fn a_journal_rebuilds_the_store() {
    let source = StoreIdentity::root("prod").instance_id;
    let mut w = LogWriter::resume(1, 0);
    let mut file: Vec<u8> = Vec::new();
    for p in [
        encode_header(&source),
        encode_checkpoint(5),
        encode_base(b"a", b"1"),
        encode_base(b"b", b"2"),
        encode_base_end(5),
        encode_delta(6, ValueKind::Put, b"c", Some(b"3")),
        encode_delta(7, ValueKind::Delete, b"a", None),
    ] {
        let (bytes, rotate) = w.append(&p);
        assert!(!rotate);
        file.extend_from_slice(&bytes);
    }
    assert_eq!(w.bytes_in_file, file.len() as u64);
    let records = read_all_records(&vec![file]).unwrap();
    let r = rebuild(&records).unwrap();
    assert_eq!(r.source, source);
    assert_eq!((r.report.base_keys, r.report.deltas_applied, r.report.last_seqno), (2, 2, 7));
    assert_eq!(r.ops.len(), 4);
    assert!(matches!(&r.ops[3], BatchOp::Delete { key } if key == b"a"));
    assert!(check_source(&source, &source).is_ok());
    let other = StoreIdentity::root("other").instance_id;
    assert!(matches!(check_source(&source, &other), Err(Error::InvalidArgument(_))));
    assert!(matches!(rebuild(&vec![]), Err(Error::Corruption(_))));
    // a base that was never completed is no base
    assert!(matches!(rebuild(&records[..4].to_vec()), Err(Error::Corruption(_))));
}

fn empty_version() -> Version {
    Version { levels: vec![Vec::new()], vlogs: vec![3, 4], vlog_head_id: 4 }
}

#[test]
fn a_fork_cuts_and_mints() {
    let mut d = ManifestData::empty();
    d.next_file_id = 20;
    d.last_flushed_seqno = 90;
    d.discard = vec![(2, 7), (3, 8)];
    let root = StoreIdentity::root("prod");
    d.identity = Some(root.clone());
    let a = archive_manifest(&d, &empty_version(), "nightly");
    assert_eq!(a.wal_floor, 20);
    assert_eq!(a.vlog_live, vec![3, 4]);
    assert_eq!(a.discard, vec![(3, 8)]);
    assert!(a.identity.is_none());
    assert_eq!(
        routing_id(&a).unwrap(),
        hex(&derive_fork(&root.instance_id, 90, "nightly"))
    );
    let mut b = ManifestData::decode(&a.encode()).unwrap();
    assert!(restore_manifest(&mut b, None).is_err(), "a named fork needs a name");
    restore_manifest(&mut b, Some("copy")).unwrap();
    assert_eq!(b.pending_fork.unwrap().name, "copy");
    assert!(restore_manifest(&mut d, Some("x")).is_err(), "a live store is no fork");

    assert_eq!(head_copy_len(3, 4, 4, 100, 50), None);
    assert_eq!(head_copy_len(4, 4, 4, 100, 50), Some(100));
    assert_eq!(head_copy_len(4, 4, 5, 100, 50), Some(50));
    assert!(!is_archive(b".tmp-x"));
    assert!(is_archive(b"nightly"));
    assert!(is_carried_over(b"wal-000001.log") || !is_carried_over(b"LOCK"));
    assert!(!is_carried_over(b"CURRENT"));
}

#[test]
fn fork_and_checkpoint_metadata_read_back() {
    let text = encode_fork_meta("nightly", "abc123", 1_700_000_000_000, 42);
    let f = decode_fork_meta("nightly", &text, String::from("p"));
    assert_eq!((f.created_unix_ms, f.last_seqno), (1_700_000_000_000, 42));
    assert_eq!(f.instance_id, "abc123");
    let text = encode_checkpoint_meta("c1", 5, 6);
    let c = decode_checkpoint_meta("c1", &text, String::from("p"));
    assert_eq!((c.created_unix_ms, c.last_seqno), (5, 6));
    // what cannot be read counts as nothing
    let f = decode_fork_meta("x", b"garbage", String::new());
    assert_eq!((f.created_unix_ms, f.last_seqno), (0, 0));
}

#[test]
fn forks_are_listed_oldest_first() {
    let mk = |name: &str, t: u64| ForkInfo {
        name: name.into(),
        instance_id: String::new(),
        created_unix_ms: t,
        last_seqno: 0,
        path: String::new(),
    };
    let mut v = Vec::new();
    for (n, t) in [("b", 20), ("a", 10), ("c", 30), ("b2", 20)] {
        add_to_list(&mut v, mk(n, t));
    }
    let names: Vec<&str> = v.iter().map(|f| f.name.as_str()).collect();
    assert_eq!(names, vec!["a", "b", "b2", "c"]);
}

fn edge() -> (EdgeState, EdgeConfig) {
    let cfg = EdgeConfig::new(
        String::from("d"),
        StoreIdentity::root("prod"),
        b"b".to_vec(),
        Some(b"x".to_vec()),
    );
    (EdgeState::new(), cfg)
}

#[test]
fn an_edge_reads_its_slice_and_the_stream() {
    let (mut state, mut cfg) = edge();
    cfg.check_scope().unwrap();
    assert!(cfg.in_scope(b"c") && !cfg.in_scope(b"a") && !cfg.in_scope(b"x"));
    assert_eq!(
        cfg.narrow(Some(b"a"), Some(b"d")),
        Some((b"b".to_vec(), Some(b"d".to_vec())))
    );
    assert_eq!(cfg.narrow(Some(b"y"), None), None);

    // a table of the master that covers the scope
    let mut b = TableBuilder::new(4096, 10);
    b.add(&make_ikey(b"c", 4, ValueKind::Put), &encode_inline(b"old")).unwrap();
    b.add(&make_ikey(b"d", 5, ValueKind::Put), &encode_inline(b"d5")).unwrap();
    let (_, bytes) = b.finish().unwrap();
    let slice = SliceManifest {
        levels: vec![vec![SliceRun {
            id: 8,
            tables: vec![SliceTable {
                id: 9,
                size: bytes.len() as u64,
                min_ukey: b"c".to_vec(),
                max_ukey: b"d".to_vec(),
            }],
        }]],
        flushed_seqno: 5,
    };
    install_slice(&mut state, &slice, &vec![(9, bytes)]).unwrap();
    assert_eq!(state.flushed, 5);
    assert_eq!(get(&state, &cfg, b"c").unwrap().unwrap(), encode_inline(b"old"));

    let entries = vec![
        StreamEntry {
            seqno: 6,
            kind: ValueKind::Put,
            key: b"c".to_vec(),
            value: Some(b"new".to_vec()),
        },
        StreamEntry { seqno: 7, kind: ValueKind::Delete, key: b"d".to_vec(), value: None },
        StreamEntry {
            seqno: 8,
            kind: ValueKind::Put,
            key: b"a".to_vec(),
            value: Some(b"out of scope".to_vec()),
        },
    ];
    apply_stream(&mut state, &cfg, &entries).unwrap();
    assert_eq!(get(&state, &cfg, b"c").unwrap().unwrap(), encode_inline(b"new"));
    assert!(get(&state, &cfg, b"d").unwrap().is_none());
    assert!(matches!(get(&state, &cfg, b"a"), Err(Error::InvalidArgument(_))));
    // pages within the scope, in both directions
    let (page, more) = scan(&state, &cfg, None, None, false, 10).unwrap();
    assert_eq!(page, vec![(b"c".to_vec(), encode_inline(b"new"))]);
    assert!(!more);
    let (page, more) = scan(&state, &cfg, None, None, true, 0).unwrap();
    assert!(page.is_empty() && more);
    let (page, more) = scan(&state, &cfg, Some(b"y"), None, false, 10).unwrap();
    assert!(page.is_empty() && !more);
    // a put without its value cannot be applied
    let bad =
        vec![StreamEntry { seqno: 9, kind: ValueKind::Put, key: b"c".to_vec(), value: None }];
    assert!(matches!(apply_stream(&mut state, &cfg, &bad), Err(Error::Corruption(_))));
}

#[test]
fn fetched_values_are_checked_and_cached() {
    let rec = encode_record(b"k", b"v");
    assert_eq!(check_fetched(&rec, rec.len() as u32, b"k").unwrap(), b"v");
    assert!(matches!(
        check_fetched(&rec, rec.len() as u32, b"other"),
        Err(Error::Corruption(_))
    ));
    assert!(check_fetched(&rec, 1, b"k").is_err());
    let mut c = ValueCache::new(100);
    assert!(!c.make_room(60));
    c.insert(1, 10, 0, 60);
    assert_eq!(c.find(1, 10), Some((0, 60)));
    assert_eq!(c.find(10, 1), None);
    // no room for another: the cache starts over
    assert!(c.make_room(60));
    assert_eq!(c.find(1, 10), None);
}

/// Answers for one place of the value log, and fails elsewhere.
struct OneRecord {
    at: (u64, u64, u32),
    record: Vec<u8>,
}

impl ValueFetcher for OneRecord {
    fn fetch_record(&self, file: u64, offset: u64, len: u32) -> Result<Vec<u8>, Error> {
        if (file, offset, len) == self.at {
            Ok(self.record.clone())
        } else {
            Err(Error::Closed)
        }
    }
}

#[test]
fn a_reach_back_asks_for_the_place_and_settles_the_answer() {
    let record = encode_record(b"k", b"v");
    let len = record.len() as u32;
    let f = OneRecord { at: (3, 70, len), record: record.clone() };
    assert_eq!(resolve_remote(&f, 3, 70, len, b"k").unwrap(), (b"v".to_vec(), record.clone()));
    // the fetcher's own error is handed on
    assert!(matches!(resolve_remote(&f, 70, 3, len, b"k"), Err(Error::Closed)));
    // a record of another key, or of another length, is not served
    assert!(matches!(resolve_remote(&f, 3, 70, len, b"j"), Err(Error::Corruption(_))));
    assert!(matches!(settle_fetch(Ok(record), len + 1, b"k"), Err(Error::Corruption(_))));
    assert!(matches!(settle_fetch(Err(Error::Conflict), len, b"k"), Err(Error::Conflict)));
}

#[test]
fn dead_values_are_found_and_live_ones_moved() {
    let mut log = encode_record(b"a", b"live");
    let split = log.len() as u64;
    log.extend(encode_record(b"b", b"dead"));
    let (records, valid) = scan_records(&log);
    assert_eq!(valid, log.len() as u64);
    let mut mem = Memtable::new(1);
    let pa = ValuePtr { file: 5, offset: 0, len: split as u32 };
    mem.insert(make_ikey(b"a", 1, ValueKind::Put), encode_ptr(pa));
    mem.insert(make_ikey(b"b", 2, ValueKind::Put), encode_inline(b"newer"));
    let version = Version::empty(1);
    let view = ReadView { mem: &mem, imms: Vec::new(), version: &version, visible: 2 };
    let dead = sample_dead(&view, &records, 5).unwrap();
    assert_eq!(dead, valid - split);
    let ops = relocations(&view, &records, 5, &log).unwrap();
    assert_eq!(ops.len(), 1);
    assert!(matches!(&ops[0], BatchOp::Put { key, value } if key == b"a" && value == b"live"));
}

#[test]
fn retired_files_wait_for_readers() {
    let list = vec![
        RetiredVlog { id: 1, retired_at: 10 },
        RetiredVlog { id: 2, retired_at: 30 },
    ];
    let (ready, keep) = split_retired(&list, 20, 20);
    assert_eq!((ready.len(), keep.len()), (1, 1));
    assert_eq!((ready[0].id, keep[0].id), (1, 2));
    let mut d = ManifestData::empty();
    d.vlog_live = vec![3, 4];
    d.discard = vec![(3, 100)];
    retire(&mut d, 3, 50);
    assert_eq!(d.vlog_retired, vec![(3, 50)]);
    assert_eq!(gc_candidates(&vec![3, 4, 5], 5, &d.vlog_retired), vec![4]);
    let files = vec![(4, GC_SAMPLE_MIN_FILE), (6, GC_SAMPLE_MIN_FILE), (5, 1 << 30)];
    assert_eq!(sample_candidate(&files, 5, &d.vlog_retired, &vec![], 0), Some(4));
    let seen = vec![SampledAt { id: 4, seq: 0, head: 5 }];
    assert_eq!(sample_candidate(&files, 5, &d.vlog_retired, &seen, 0), Some(6));
    let set = vlog_set(&d, &vec![3, 4, 9]);
    assert!(set.ids.contains(&4) && set.ids.contains(&3));
    assert_eq!(set.retired.len(), 1);
}

// ---------------------------------------------------------------------------
// WebAssembly
// ---------------------------------------------------------------------------

/// A module of one function `() -> i32` that returns 0, and one memory, under
/// these export names.
fn module(funcs: &[&str], memory: &str) -> Vec<u8> {
    let mut out = vec![0, b'a', b's', b'm', 1, 0, 0, 0];
    out.extend([1, 5, 1, 0x60, 0, 1, 0x7f]);
    out.extend([3, 2, 1, 0]);
    out.extend([5, 3, 1, 0, 1]);
    let mut ex = vec![funcs.len() as u8 + 1];
    for f in funcs {
        ex.push(f.len() as u8);
        ex.extend(f.as_bytes());
        ex.extend([0, 0]);
    }
    ex.push(memory.len() as u8);
    ex.extend(memory.as_bytes());
    ex.extend([2, 0]);
    out.push(7);
    out.push(ex.len() as u8);
    out.extend(ex);
    out.extend([10, 6, 1, 4, 0, 0x41, 0, 0x0b]);
    out
}

#[test]
fn modules_are_checked_by_what_they_export() {
    let engine = wasmtime::Engine::default();
    let m = check_module(&engine, "m", &module(&["run"], "memory")).unwrap();
    assert_eq!(module_mode(&m), None);
    assert!(!module_describes(&m));
    let m = check_module(&engine, "m", &module(&["run", "on_touch"], "memory")).unwrap();
    assert_eq!(module_mode(&m), Some(TriggerMode::Keys));
    let all = module(&["run", "on_touch", "on_apply", "describe"], "memory");
    let m = check_module(&engine, "m", &all).unwrap();
    assert_eq!(module_mode(&m), Some(TriggerMode::Changes));
    assert!(module_describes(&m));

    let missing = check_module(&engine, "m", &module(&["walk"], "memory"));
    assert!(matches!(missing, Err(Error::Wasm(_))));
    let missing = check_module(&engine, "m", &module(&["run"], "mem"));
    assert!(matches!(missing, Err(Error::Wasm(_))));
    match check_module(&engine, "m", b"not wasm") {
        Err(Error::Wasm(m)) => assert!(m.starts_with("compile: ") && m.len() > 9),
        _ => panic!("bytes that are no module are refused"),
    }
    let named = check_module(&engine, "bad name", &module(&["run"], "memory"));
    assert!(matches!(named, Err(Error::InvalidArgument(_))));
    assert!(check_exports(true, false).is_err());
}

#[test]
fn compiled_modules_are_kept_by_use() {
    let engine = wasmtime::Engine::default();
    let bytes: Vec<Vec<u8>> =
        ["one", "two", "three"].iter().map(|f| module(&[f], "memory")).collect();
    let mut c = ModuleCache::new(2);
    for b in [&bytes[0], &bytes[1], &bytes[0]] {
        c.get_or_compile(&engine, b).unwrap();
    }
    assert_eq!(c.entries.len(), 2);
    // the third takes the place of the one that was used longest ago
    let m = c.get_or_compile(&engine, &bytes[2]).unwrap();
    assert!(m.get_export("three").is_some());
    let held: Vec<u128> = c.entries.iter().map(|e| e.0).collect();
    assert_eq!(held, vec![content_hash(&bytes[0]), content_hash(&bytes[2])]);
    let m = c.get_or_compile(&engine, &bytes[0]).unwrap();
    assert!(m.get_export("one").is_some());
    assert!(matches!(c.get_or_compile(&engine, b"not wasm"), Err(Error::Wasm(_))));
    assert_eq!(c.entries.len(), 2);
    assert_ne!(content_hash(b"a"), content_hash(b"b"));
}

fn host(access: Access) -> HostCtx {
    let limits = HostLimits {
        max_key_size: 16,
        max_value_size: 16,
        max_wasm_output: 8,
        max_wasm_log: 8,
        max_wasm_scans: 1,
    };
    HostCtx::new(access, b"input".to_vec(), limits)
}

#[test]
fn guests_are_held_to_their_limits() {
    let mut ro = host(Access::ReadOnly(5));
    assert_eq!(ro.put(b"k".to_vec(), b"v".to_vec()), EROFS);
    assert_eq!(ro.delete(b"k".to_vec()), EROFS);
    assert!(ro.output_write(b"12345678") >= 0);
    assert_eq!(ro.output_write(b"9"), ENOSPC);
    assert_eq!(ro.output, b"12345678");
    let h = ro.scan_open(0);
    assert!(h >= 0 && ro.scan_is_open(h));
    assert_eq!(ro.scan_open(0), ELIMIT);
    assert_eq!(ro.scan_close(h), 0);
    assert_eq!(ro.scan_close(h), EBADF);

    let limits =
        TxnLimits { max_key_size: 16, max_value_size: 16, max_txn_write_bytes: 1 << 20 };
    let mut rw = host(Access::Txn(Txn::new(5, limits)));
    assert_eq!(rw.put(b"k".to_vec(), b"v".to_vec()), 0);
    assert_eq!(rw.put(vec![0, 1], b"v".to_vec()), EINVAL);
    assert!(matches!(rw.read(b"k", false), GuestRead::Own(Some(v)) if v == b"v"));
    assert!(matches!(rw.read(b"j", true), GuestRead::At(5)));
    assert!(matches!(rw.read(&[], false), GuestRead::Errno(EINVAL)));
    assert!(matches!(ro.read(b"k", false), GuestRead::At(5)));
    assert!(matches!(ro.read(b"k", true), GuestRead::Errno(EROFS)));
    assert_eq!(rw.put(b"k".to_vec(), vec![0; 17]), EINVAL);

    assert_eq!(guest_chunk(&b"input".to_vec(), 2, 2), b"pu");
    assert_eq!(guest_chunk(&b"input".to_vec(), 9, 2), b"");
    let mut b = ScanBatch::new(6);
    assert!(matches!(b.offer(b"a", b"1"), Offer::Taken));
    assert!(matches!(b.offer(b"b", b"2"), Offer::Full));
    let mut b = ScanBatch::new(3);
    assert!(matches!(b.offer(b"a", b"1"), Offer::NoSpace));
    assert!(check_input(10, 10).is_ok());
    assert!(matches!(check_input(11, 10), Err(Error::InvalidArgument(_))));
}

#[test]
fn runs_end_in_one_result() {
    assert_eq!(settle_run(Ran::Exit(3), None).unwrap(), 3);
    assert!(matches!(settle_run(Ran::Trap(String::from("t")), None), Err(Error::Wasm(_))));
    assert!(matches!(
        settle_run(Ran::Trap(String::from("t")), Some(Error::Closed)),
        Err(Error::Closed)
    ));
    assert_eq!(settle_query(0, b"out".to_vec()).unwrap(), b"out");
    match settle_query(7, b"out".to_vec()) {
        Err(e) => {
            assert_eq!(e.message(), "guest module failed with code 7");
            assert!(matches!(e, Error::GuestFailed { code: 7, .. }));
        }
        Ok(_) => panic!(),
    }
    assert!(attempts(0) >= 1);
    assert!(matches!(
        settle_attempt(0, b"o".to_vec(), Err(Error::Conflict), 2),
        Attempt::Again
    ));
    assert!(matches!(
        settle_attempt(0, b"o".to_vec(), Err(Error::Conflict), 0),
        Attempt::Done(Err(Error::Conflict))
    ));
    assert!(matches!(
        settle_attempt(0, b"o".to_vec(), Ok(()), 2),
        Attempt::Done(Ok(o)) if o == b"o"
    ));
}

#[test]
fn unflushed_writes_are_seen_through_a_fork_cut() {
    // what a fork archives is the tree: the memtable is not part of it
    let mut db = Db::new(1, 1, 2);
    db.write(
        &vec![BatchOp::Put { key: b"k".to_vec(), value: b"v".to_vec() }],
        fluent31::commit::Placing { threshold: 4096, head: 1 },
        0,
    )
    .unwrap();
    let a = archive_manifest(&ManifestData::empty(), &db.version, "n");
    assert!(a.levels.iter().all(|l| l.is_empty()));
    assert!(db.get(b"k", MAX_SEQNO).unwrap().is_some());
}
