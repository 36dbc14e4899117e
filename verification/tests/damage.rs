//! Stores with a damaged block: what can still be read, written and merged.

use fluent31::batch::{BatchOp, WriteBatch};
use fluent31::commit::{validate_group, GroupVerdict, Placing, QueuedEntry};
use fluent31::compaction::MergeOptions;
use fluent31::edge::{
    apply_stream, install_slice, scan, EdgeConfig, EdgeState, SliceManifest, SliceRun, SliceTable,
    StreamEntry,
};
use fluent31::engine::Db;
use fluent31::error::Error;
use fluent31::gc::{relocations, sample_dead};
use fluent31::identity::StoreIdentity;
use fluent31::manifest::{ManifestData, RunMeta};
use fluent31::recovery::replay;
use fluent31::reopen::open_levels;
use fluent31::restart::check_levels;
use fluent31::scan::Pending;
use fluent31::shape::ShapeOptions;
use fluent31::table::builder::TableBuilder;
use fluent31::txn::{Txn, TxnLimits};
use fluent31::types::{encode_inline, ikey_ukey, make_ikey, ValueKind, ValuePtr, MAX_SEQNO};
use fluent31::version::{ReadView, Version};
use fluent31::vlog::{encode_record, scan_records};
use fluent31::wasm::{Access, GuestRead, HostCtx, HostLimits, ENOSPC};

const PLACING: Placing = Placing { threshold: 4096, head: 1 };

fn opts() -> MergeOptions {
    MergeOptions { block_size: 64, bloom_bits_per_key: 10, target_file_size: 64 << 20 }
}

fn shape() -> ShapeOptions {
    ShapeOptions { memtable_size: 32 << 10, l0_compaction_trigger: 2, tier_width: 2 }
}

fn put(db: &mut Db, key: &[u8], value: &[u8]) {
    let mut b = WriteBatch::new();
    b.put(key.to_vec(), value.to_vec());
    db.write(&b.ops, PLACING, 0).unwrap();
}

fn get(db: &Db, key: &[u8]) -> Result<Option<Vec<u8>>, Error> {
    Ok(match db.get(key, MAX_SEQNO)? {
        Some(Pending::Ready(v)) => Some(v),
        Some(Pending::Ptr(_)) => panic!("no value is separated here"),
        None => None,
    })
}

fn is_corruption<T>(r: Result<T, Error>) -> bool {
    matches!(r, Err(Error::Corruption(_)))
}

fn view(db: &Db) -> ReadView<'_> {
    ReadView { mem: &db.mem, imms: Vec::new(), version: &db.version, visible: db.visible }
}

/// Reopen a flushed store from its files, after a change to them.
fn reopened(db: Db, change: impl Fn(&mut Vec<u8>)) -> Db {
    reopened_at(db, 0, change)
}

fn reopened_at(db: Db, n: usize, change: impl Fn(&mut Vec<u8>)) -> Db {
    assert!(db.mem.is_empty() && db.imms.is_empty());
    let mut data = ManifestData::empty();
    data.levels = db
        .version
        .levels
        .iter()
        .map(|l| {
            l.iter()
                .map(|r| RunMeta { id: r.id, table_ids: r.tables.iter().map(|t| t.id).collect() })
                .collect()
        })
        .collect();
    let mut files: Vec<(u64, Vec<u8>)> = Vec::new();
    for r in db.version.levels.iter().flatten() {
        for t in &r.tables {
            files.push((t.id, t.table.data.clone()));
        }
    }
    change(&mut files[n].1);
    let levels = open_levels(&data, &files).unwrap();
    let logs = replay(&vec![], &vec![], &vec![], db.visible).unwrap();
    Db::reopen(levels, logs.mem, vec![1], 1, 1, logs.max_seq, db.next_file_id)
}

/// Ten keys in one run of several blocks, the first of which is damaged.
fn damaged() -> Db {
    let mut db = Db::new(2, 1, 2);
    for i in 0..10 {
        put(&mut db, format!("key{i}").as_bytes(), format!("value {i}").as_bytes());
    }
    db.flush(1, &opts()).unwrap();
    reopened(db, |file| file[3] ^= 0x40)
}

#[test]
fn a_damaged_block_fails_only_the_reads_that_need_it() {
    let db = damaged();
    assert!(is_corruption(get(&db, b"key0")));
    assert_eq!(get(&db, b"key9").unwrap().unwrap(), b"value 9");
    assert_eq!(get(&db, b"absent").unwrap(), None);
    assert!(is_corruption(db.scan(None, None, false, MAX_SEQNO)));
}

/// Eight tables, of which the fourth is damaged.
fn damaged_table() -> Db {
    let mut db = Db::new(1, 1, 2);
    let small = MergeOptions { target_file_size: 1, ..opts() };
    for i in 0..8 {
        put(&mut db, format!("key{i}").as_bytes(), format!("value {i}").as_bytes());
    }
    db.flush(1, &small).unwrap();
    assert_eq!(db.version.levels[0][0].tables.len(), 8);
    reopened_at(db, 3, |file| file[3] ^= 0x40)
}

fn keys(pairs: &[(Vec<u8>, Pending)]) -> Vec<String> {
    pairs.iter().map(|p| String::from_utf8(p.0.clone()).unwrap()).collect()
}

#[test]
fn a_scan_reads_only_the_tables_of_its_range() {
    let db = damaged_table();
    let got = db.scan(Some(b"key4"), None, false, MAX_SEQNO).unwrap();
    assert_eq!(keys(&got), vec!["key4", "key5", "key6", "key7"]);
    let got = db.scan(None, Some(b"key3".to_vec()), true, MAX_SEQNO).unwrap();
    assert_eq!(keys(&got), vec!["key2", "key1", "key0"]);
    assert!(is_corruption(db.scan(None, Some(b"key31".to_vec()), false, MAX_SEQNO)));
    assert!(is_corruption(db.scan(Some(b"key3"), None, true, MAX_SEQNO)));
}

#[test]
fn a_scan_delivers_what_comes_before_the_damage() {
    let db = damaged_table();
    let (got, end) = db.scan_to_damage(b"key1", None, false, MAX_SEQNO);
    assert_eq!(keys(&got), vec!["key1", "key2"]);
    assert!(matches!(end, Some(Error::Corruption(_))));
    let (got, end) = db.scan_to_damage(b"key1", Some(b"key6".to_vec()), true, MAX_SEQNO);
    assert_eq!(keys(&got), vec!["key5", "key4"]);
    assert!(matches!(end, Some(Error::Corruption(_))));
    let (got, end) = db.scan_to_damage(b"key4", None, true, MAX_SEQNO);
    assert_eq!(keys(&got), vec!["key7", "key6", "key5", "key4"]);
    assert!(end.is_none());
}

/// Ten keys in one table of several blocks, of which the one with `key5` is
/// damaged; with it the last keys of the block before and of that block.
fn damaged_in_the_middle() -> (Db, String, String) {
    let mut db = Db::new(2, 1, 2);
    for i in 0..10 {
        put(&mut db, format!("key{i}").as_bytes(), format!("value {i}").as_bytes());
    }
    db.flush(1, &opts()).unwrap();
    let db = reopened(db, |file| {
        let at = file.windows(7).position(|w| w == b"value 5").unwrap();
        file[at] ^= 0x40;
    });
    assert_eq!(db.version.levels[0][0].tables.len(), 1);
    let table = &db.version.levels[0][0].tables[0].table;
    let last = |k: usize| String::from_utf8(ikey_ukey(table.block_last(k)).to_vec()).unwrap();
    let k = (0..table.block_count()).find(|&k| last(k) >= "key5".to_string()).unwrap();
    assert!(k > 0 && k + 1 < table.block_count());
    let (floor, ceiling) = (last(k - 1), last(k));
    (db, floor, ceiling)
}

#[test]
fn a_scan_reads_only_the_blocks_of_its_range() {
    let (db, floor, ceiling) = damaged_in_the_middle();
    let all: Vec<String> = (0..10).map(|i| format!("key{i}")).collect();
    let below: Vec<String> = all.iter().filter(|k| **k < floor).cloned().collect();
    let above: Vec<String> = all.iter().rev().filter(|k| **k > ceiling).cloned().collect();
    assert!(!below.is_empty() && !above.is_empty());
    let got = db.scan(None, Some(floor.clone().into_bytes()), false, MAX_SEQNO).unwrap();
    assert_eq!(keys(&got), below);
    let next = format!("{ceiling}0");
    let got = db.scan(Some(next.as_bytes()), None, true, MAX_SEQNO).unwrap();
    assert_eq!(keys(&got), above);
    assert!(is_corruption(db.scan(Some(b"key5"), Some(b"key6".to_vec()), false, MAX_SEQNO)));
    let (got, end) = db.scan_to_damage(b"key", None, false, MAX_SEQNO);
    assert_eq!(keys(&got), below);
    assert!(matches!(end, Some(Error::Corruption(_))));
    let (got, end) = db.scan_to_damage(b"key", None, true, MAX_SEQNO);
    assert_eq!(keys(&got), above);
    assert!(matches!(end, Some(Error::Corruption(_))));
    // a read that meets no damage finds what the scan delivers
    for k in below.iter().chain(above.iter()) {
        let want = k.replace("key", "value ");
        assert_eq!(get(&db, k.as_bytes()).unwrap().unwrap(), want.as_bytes());
    }
    assert!(is_corruption(get(&db, b"key5")));
}

#[test]
fn tables_must_lie_as_those_of_a_store() {
    let mut db = damaged_table();
    assert!(check_levels(&db.version.levels, db.next_file_id));
    assert!(!check_levels(&db.version.levels, 2));
    assert!(!check_levels(&vec![], 9));
    let r = &mut db.version.levels[0][0];
    r.tables.swap(0, 1);
    assert!(!check_levels(&db.version.levels, db.next_file_id));
    db.version.levels[0][0].tables.clear();
    assert!(!check_levels(&db.version.levels, db.next_file_id));
}

#[test]
fn a_write_is_read_back_from_a_damaged_store() {
    let mut db = damaged();
    put(&mut db, b"key0", b"again");
    assert_eq!(get(&db, b"key0").unwrap().unwrap(), b"again");
    // a flush keeps every read as it was, damage and all
    db.rotate(7);
    let built = db.build_flush(&opts()).unwrap().unwrap();
    assert_eq!(get(&db, b"key0").unwrap().unwrap(), b"again");
    assert_eq!(db.version.levels[0].len(), 1);
    let f = db.install_flush(built);
    assert_eq!(f.max_seq, 11);
    assert_eq!(db.version.levels[0].len(), 2);
    assert_eq!(get(&db, b"key0").unwrap().unwrap(), b"again");
    assert!(is_corruption(get(&db, b"key1")));
    assert_eq!(get(&db, b"key9").unwrap().unwrap(), b"value 9");
}

#[test]
fn a_merge_of_a_damaged_run_fails_and_changes_nothing() {
    let mut db = damaged();
    put(&mut db, b"key9", b"newer");
    db.flush(7, &opts()).unwrap();
    let next = db.next_file_id;
    assert!(is_corruption(db.compact_once(&shape(), &opts(), false)));
    assert_eq!(db.next_file_id, next);
    assert_eq!(db.version.levels[0].len(), 2);
    assert_eq!(get(&db, b"key9").unwrap().unwrap(), b"newer");
}

/// Where the damaged run is not among a merge's inputs, the merge goes through
/// and no read changes.
#[test]
fn a_merge_beside_a_damaged_run_keeps_every_read() {
    let mut db = damaged();
    let old = db.version.levels[0].pop().unwrap();
    db.version.levels[1].push(old);
    for i in 0..2u8 {
        put(&mut db, b"key2", &[b'a' + i]);
        put(&mut db, b"other", &[b'x' + i]);
        db.flush(7, &opts()).unwrap();
    }
    let done = db.compact_once(&shape(), &opts(), false).unwrap().unwrap();
    assert_eq!((done.level, done.target), (0, 1));
    assert_eq!(get(&db, b"key2").unwrap().unwrap(), b"b");
    assert_eq!(get(&db, b"other").unwrap().unwrap(), b"y");
    assert!(is_corruption(get(&db, b"key0")));
    assert_eq!(get(&db, b"key9").unwrap().unwrap(), b"value 9");
}

#[test]
fn validation_reads_only_the_keys_it_needs() {
    let db = damaged();
    let entry = |key: &[u8]| QueuedEntry {
        ops: vec![BatchOp::Put { key: key.to_vec(), value: b"new".to_vec() }],
        validate: Some((db.visible, vec![key.to_vec()])),
    };
    let plain = QueuedEntry {
        ops: vec![BatchOp::Put { key: b"key0".to_vec(), value: b"v".to_vec() }],
        validate: None,
    };
    let got = validate_group(&view(&db), &vec![plain, entry(b"key1"), entry(b"key9")]);
    assert!(matches!(got[0], GroupVerdict::Apply));
    assert!(matches!(&got[1], GroupVerdict::Done(Err(Error::Corruption(_)))));
    assert!(matches!(got[2], GroupVerdict::Apply));
}

#[test]
fn collection_stops_at_a_key_that_cannot_be_read() {
    let db = damaged();
    let file = encode_record(b"key0", b"value 0");
    let (records, _) = scan_records(&file);
    assert!(is_corruption(relocations(&view(&db), &records, 1, &file)));
    assert!(is_corruption(sample_dead(&view(&db), &records, 1)));
    let file = encode_record(b"key9", b"value 9");
    let (records, _) = scan_records(&file);
    assert!(relocations(&view(&db), &records, 1, &file).unwrap().is_empty());
    assert_eq!(sample_dead(&view(&db), &records, 1).unwrap(), file.len() as u64);
}

#[test]
fn an_unreadable_pointer_target_is_told_apart() {
    let mut db = Db::new(1, 1, 2);
    let ptr = ValuePtr { file: 9, offset: 0, len: 4 };
    let mut b = WriteBatch::new();
    b.put(b"big".to_vec(), vec![7; 5000]);
    db.write(&b.ops, Placing { threshold: 4096, head: ptr.file }, 0).unwrap();
    db.version = Version { levels: vec![vec![]], vlogs: vec![], vlog_head_id: 1 };
    assert!(is_corruption(db.get(b"big", MAX_SEQNO)));
}

/// A read for update is never lost to a later write, and a refused write still
/// counts.
#[test]
fn a_guest_keeps_what_it_read_for_update() {
    let limits = TxnLimits { max_key_size: 64, max_value_size: 64, max_txn_write_bytes: 20 };
    let host = HostLimits {
        max_key_size: 64,
        max_value_size: 64,
        max_wasm_output: 8,
        max_wasm_log: 8,
        max_wasm_scans: 2,
    };
    let mut c = HostCtx::new(Access::Txn(Txn::new(7, limits)), b"in".to_vec(), host);
    assert_eq!(c.next_scan, 1);
    assert!(matches!(c.read(b"r", true), GuestRead::At(7)));
    assert_eq!(c.put(b"a".to_vec(), b"12".to_vec()), 0);
    assert_eq!(c.delete(b"b".to_vec()), 0);
    assert_eq!(c.put(b"c".to_vec(), vec![0; 30]), ENOSPC);
    assert_eq!((c.input.as_slice(), c.log_bytes), (b"in".as_slice(), 0));
    let Access::Txn(t) = c.access else { panic!() };
    assert_eq!((t.snap, t.locks.len(), t.writes.len(), t.bytes), (7, 1, 2, 35));
}

/// Full compaction and a flush leave separated values where reads find them.
#[test]
fn moving_data_keeps_the_value_log() {
    let mut db = Db::new(2, 1, 2);
    db.version.vlogs = vec![1];
    db.version.vlog_head_id = 1;
    let mut b = WriteBatch::new();
    b.put(b"big".to_vec(), vec![7; 5000]);
    db.write(&b.ops, PLACING, 0).unwrap();
    let wal = db.mem.wal_id;
    put(&mut db, b"small", b"v");
    assert_eq!(db.mem.wal_id, wal);
    db.flush(5, &opts()).unwrap();
    let next = db.next_file_id;
    let s = db.snapshot();
    db.release(s);
    assert_eq!(db.next_file_id, next);
    put(&mut db, b"small", b"w");
    db.flush(6, &opts()).unwrap();
    let before = db.next_file_id;
    db.compact_all(&shape(), &opts()).unwrap();
    assert!(db.next_file_id > before);
    assert!(db.version.levels.iter().flatten().flat_map(|r| &r.tables).all(|t| t.id
        < db.next_file_id
        && t.size == t.table.data.len() as u64));
    assert_eq!((db.version.vlogs.as_slice(), db.version.vlog_head_id), ([1].as_slice(), 1));
    assert!(matches!(db.get(b"big", MAX_SEQNO), Ok(Some(Pending::Ptr(p))) if p.file == 1));
    assert_eq!(get(&db, b"small").unwrap().unwrap(), b"w");
}

/// Once its live records are written again, nothing points into a file.
#[test]
fn a_collected_file_is_left() {
    let mut db = Db::new(1, 1, 2);
    db.version.vlogs = vec![1, 2];
    let mut b = WriteBatch::new();
    b.put(b"kept".to_vec(), vec![7; 5000]);
    b.put(b"gone".to_vec(), vec![8; 5000]);
    let writes = db.write(&b.ops, PLACING, 0).unwrap();
    let file: Vec<u8> = writes.iter().flat_map(|w| w.bytes.clone()).collect();
    let mut b = WriteBatch::new();
    b.delete(b"gone".to_vec());
    db.write(&b.ops, PLACING, file.len() as u64).unwrap();
    let (records, _) = scan_records(&file);
    assert_eq!(records.len(), 2);
    let ops = relocations(&view(&db), &records, 1, &file).unwrap();
    assert_eq!(ops.len(), 1);
    db.write(&ops, Placing { threshold: 4096, head: 2 }, 0).unwrap();
    assert!(matches!(db.get(b"kept", MAX_SEQNO), Ok(Some(Pending::Ptr(p))) if p.file == 2));
    assert!(db.get(b"gone", MAX_SEQNO).unwrap().is_none());
}

/// An edge reads only the blocks of its range, whatever the fragments hold.
#[test]
fn an_edge_scan_reads_the_blocks_of_its_range() {
    let mut b = TableBuilder::new(64, 10);
    for i in 0..10u32 {
        let key = make_ikey(format!("key{i}").as_bytes(), 4, ValueKind::Put);
        b.add(&key, &encode_inline(format!("value {i}").as_bytes())).unwrap();
    }
    let (stats, mut bytes) = b.finish().unwrap();
    bytes[3] ^= 0x40;
    let slice = SliceManifest {
        levels: vec![vec![SliceRun {
            id: 8,
            tables: vec![SliceTable {
                id: 9,
                size: bytes.len() as u64,
                min_ukey: stats.min_ukey().to_vec(),
                max_ukey: stats.max_ukey().to_vec(),
            }],
        }]],
        flushed_seqno: 5,
    };
    let cfg = EdgeConfig::new("d".to_string(), StoreIdentity::root("prod"), b"k".to_vec(), None);
    let mut state = EdgeState::new();
    install_slice(&mut state, &slice, &vec![(9, bytes)]).unwrap();
    let entry = StreamEntry {
        seqno: 6,
        kind: ValueKind::Put,
        key: b"key8".to_vec(),
        value: Some(b"newer".to_vec()),
    };
    apply_stream(&mut state, &cfg, &vec![entry]).unwrap();
    let (out, more) = scan(&state, &cfg, Some(b"key7"), None, false, 2).unwrap();
    assert_eq!(out[0], (b"key7".to_vec(), encode_inline(b"value 7")));
    assert_eq!(out[1], (b"key8".to_vec(), encode_inline(b"newer")));
    assert!(more);
    assert!(is_corruption(scan(&state, &cfg, None, None, false, 2)));
    assert!(is_corruption(scan(&state, &cfg, Some(b"key1"), Some(b"key2"), true, 2)));
    // from above, a page may be full before the scan comes to the damage
    let (out, more) = scan(&state, &cfg, None, None, true, 2).unwrap();
    assert_eq!(out[0], (b"key9".to_vec(), encode_inline(b"value 9")));
    assert_eq!(out[1], (b"key8".to_vec(), encode_inline(b"newer")));
    assert!(more);
    assert!(is_corruption(scan(&state, &cfg, None, None, true, 9)));
}
