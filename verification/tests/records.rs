//! Internal keys, value representations, logs, identities and manifests.

use std::cmp::Ordering;

use fluent31::config::{manifest_gen_of, DbPaths};
use fluent31::error::Error;
use fluent31::identity::{
    derive_fork, derive_root, validate_store_name, PendingFork, StoreIdentity,
};
use fluent31::manifest::{ManifestData, PinInfo, RunMeta};
use fluent31::types::{
    cmp_ikey, decode_repr, encode_inline, encode_ptr, ikey_kind, make_ikey, make_seek_ikey,
    validate_user_key, ReprRef, ValueKind, ValuePtr,
};
use fluent31::vlog::{
    encode_record, finish_read, parse_record, record_value_for, scan_records, Vlog,
    VlogFileHandle,
};
use fluent31::wal::{frame_record, read_wal, WalTail, WalWriter, HEADER_LEN};

#[test]
fn ordering_user_key_then_seq_desc() {
    let a = make_ikey(b"a", 5, ValueKind::Put);
    let a_newer = make_ikey(b"a", 9, ValueKind::Put);
    let b = make_ikey(b"b", 1, ValueKind::Put);
    assert_eq!(cmp_ikey(&a_newer, &a), Ordering::Less); // newer first
    assert_eq!(cmp_ikey(&a, &b), Ordering::Less);
    assert_eq!(cmp_ikey(&a_newer, &b), Ordering::Less);
    // prefix user keys are ordered by user key, not merged bytes
    let ab = make_ikey(b"ab", 1, ValueKind::Put);
    assert_eq!(cmp_ikey(&a_newer, &ab), Ordering::Less);
    assert_eq!(cmp_ikey(&ab, &b), Ordering::Less);
    assert_eq!(cmp_ikey(&b, &b), Ordering::Equal);
    assert_eq!(cmp_ikey(&b, &ab), Ordering::Greater);
}

#[test]
fn seek_lands_on_newest_visible() {
    // entries for key "k": seq 9, 5, 3 (sorted: 9 first)
    let e9 = make_ikey(b"k", 9, ValueKind::Put);
    let e5 = make_ikey(b"k", 5, ValueKind::Delete);
    let e3 = make_ikey(b"k", 3, ValueKind::Put);
    let seek7 = make_seek_ikey(b"k", 7);
    // seek(7) must sort after e9, before e5 and e3
    assert_eq!(cmp_ikey(&e9, &seek7), Ordering::Less);
    assert_eq!(cmp_ikey(&seek7, &e5), Ordering::Less);
    assert_eq!(cmp_ikey(&seek7, &e3), Ordering::Less);
    // seek at exactly 5 includes the seq-5 entry
    let seek5 = make_seek_ikey(b"k", 5);
    assert_eq!(cmp_ikey(&seek5, &e5), Ordering::Less);
    assert_eq!(cmp_ikey(&e9, &seek5), Ordering::Less);
}

#[test]
fn repr_roundtrip() {
    let inline = encode_inline(b"v");
    assert_eq!(decode_repr(&inline).unwrap(), ReprRef::Inline(b"v"));
    let p = ValuePtr { file: 7, offset: 123456789, len: 4096 };
    let enc = encode_ptr(p);
    assert_eq!(decode_repr(&enc).unwrap(), ReprRef::Ptr(p));
}

#[test]
fn unknown_kinds_and_tags_are_corrupt() {
    assert!(matches!(decode_repr(&[9, 1]), Err(Error::Corruption(_))));
    assert!(matches!(decode_repr(&[]), Err(Error::Corruption(_))));
    let mut k = make_ikey(b"k", 3, ValueKind::Put);
    let n = k.len();
    // the trailer is stored inverted, the kind in its lowest byte
    k[n - 1] = !7u8;
    assert!(matches!(ikey_kind(&k), Err(Error::Corruption(_))));
}

#[test]
fn user_key_validation() {
    assert!(validate_user_key(b"ok").is_ok());
    assert!(validate_user_key(b"").is_err());
    assert!(validate_user_key(&[0x00, b'x']).is_err());
}

#[test]
fn record_roundtrip_and_key_check() {
    let rec = encode_record(b"key", b"value-bytes");
    let (k, v) = parse_record(&rec).unwrap();
    assert_eq!(k, b"key");
    assert_eq!(v, b"value-bytes");
    assert!(record_value_for(&rec, b"key").is_ok());
    assert!(record_value_for(&rec, b"other").is_err());
    let mut bad = rec.clone();
    *bad.last_mut().unwrap() ^= 1;
    assert!(parse_record(&bad).is_err());
}

/// A value log file held in memory.
struct Log {
    vlog: Vlog,
    bytes: Vec<u8>,
}

impl Log {
    fn append(&mut self, key: &[u8], value: &[u8]) -> ValuePtr {
        let rec = Vlog::prepare(key, value).unwrap();
        let p = self.vlog.append(self.bytes.len() as u64, rec.len() as u32);
        self.bytes.extend_from_slice(&rec);
        p
    }

    fn read(&self, p: &ValuePtr, key: &[u8]) -> Result<Vec<u8>, Error> {
        let from = p.offset as usize;
        let (v, _) = finish_read(&self.bytes[from..from + p.len as usize], key)?;
        Ok(v)
    }
}

#[test]
fn append_read_scan() {
    let mut log = Log { vlog: Vlog::new(1, 0), bytes: Vec::new() };
    let p1 = log.append(b"a", &vec![1u8; 100]);
    let p2 = log.append(b"b", &vec![2u8; 200]);
    assert!(log.vlog.needs_sync());
    assert_eq!(log.vlog.sync_head(), p2.offset + p2.len as u64);
    assert!(!log.vlog.needs_sync());

    assert_eq!(log.read(&p1, b"a").unwrap(), vec![1u8; 100]);
    assert_eq!(log.read(&p2, b"b").unwrap(), vec![2u8; 200]);
    // wrong expected key must fail
    assert!(log.read(&p1, b"b").is_err());

    let (recs, valid) = scan_records(&log.bytes);
    assert_eq!(recs.len(), 2);
    assert_eq!(recs[0].key, b"a");
    assert_eq!(recs[1].offset, p2.offset);
    assert_eq!(valid, p2.offset + p2.len as u64);
    assert_eq!((p1.file, p2.file), (1, 1));

    let vals: Vec<Vec<u8>> =
        [(p2, b"b"), (p1, b"a")].iter().map(|(p, k)| log.read(p, *k).unwrap()).collect();
    assert_eq!(vals[0], vec![2u8; 200]);
    assert_eq!(vals[1], vec![1u8; 100]);
}

#[test]
fn scan_stops_at_torn_tail() {
    let mut log = Log { vlog: Vlog::new(1, 0), bytes: Vec::new() };
    log.append(b"a", b"11111");
    let p2 = log.append(b"b", b"22222");
    log.vlog.sync_head();
    // truncate mid-second-record
    log.bytes.truncate(p2.offset as usize + 3);

    let (recs, valid) = scan_records(&log.bytes);
    assert_eq!(recs.len(), 1);
    assert_eq!(valid, p2.offset);
}

#[test]
fn obsolete_handle_deletes_file_on_drop() {
    let mut handle = VlogFileHandle::new(1, String::from("v"));
    assert!(!handle.delete_on_drop());
    handle.mark_obsolete();
    assert!(handle.delete_on_drop());
}

#[test]
fn rotating_the_value_log_starts_an_empty_head() {
    let mut vlog = Vlog::new(4, 10);
    let p = vlog.append(10, 5);
    assert_eq!(p, ValuePtr { file: 4, offset: 10, len: 5 });
    assert_eq!(vlog.rotate(9), 4);
    assert_eq!(vlog.head_state(), (9, 0, 0));
}

#[test]
fn roundtrip_multiple_records() {
    let mut w = WalWriter::new();
    let mut file = w.append_record(b"first");
    file.extend(w.append_record(b"second"));
    file.extend(w.append_record(&vec![7u8; 100_000]));
    w.sync();
    assert_eq!(w.synced, file.len() as u64);

    let (recs, tail) = read_wal(&file);
    assert_eq!(tail, WalTail::Clean);
    assert_eq!(recs.len(), 3);
    assert_eq!(recs[0], b"first");
    assert_eq!(recs[1], b"second");
    assert_eq!(recs[2], vec![7u8; 100_000]);
}

#[test]
fn zero_filled_tail_is_torn_not_empty_record() {
    // an empty record's header is indistinguishable from zero fill, so
    // the reader treats it as a torn tail: the engine never writes
    // empty payloads (a batch always encodes at least its header)
    let mut w = WalWriter::new();
    let mut file = w.append_record(b"real");
    w.sync();
    let valid = file.len() as u64;
    file.extend_from_slice(&[0u8; 32]);
    let (recs, tail) = read_wal(&file);
    assert_eq!(recs.len(), 1);
    assert_eq!(tail, WalTail::Torn { valid_len: valid });
}

#[test]
fn torn_tail_is_detected_and_prefix_kept() {
    let mut w = WalWriter::new();
    let mut file = w.append_record(b"keep-me");
    w.sync();
    let keep_len = file.len() as u64;
    // simulate a torn append: header + partial payload
    file.extend(w.append_record(b"torn-record-payload"));
    let full = file.len();
    file.truncate(full - 5);

    let (recs, tail) = read_wal(&file);
    assert_eq!(recs.len(), 1);
    assert_eq!(recs[0], b"keep-me");
    assert_eq!(tail, WalTail::Torn { valid_len: keep_len });
}

#[test]
fn corrupt_crc_stops_replay() {
    let mut w = WalWriter::new();
    let mut bytes = w.append_record(b"aaaa");
    bytes.extend(w.append_record(b"bbbb"));
    w.sync();
    // flip a payload byte of the first record
    bytes[HEADER_LEN] ^= 0xff;

    let (recs, tail) = read_wal(&bytes);
    assert!(recs.is_empty());
    assert_eq!(tail, WalTail::Torn { valid_len: 0 });
}

#[test]
fn log_frame_is_length_crc_payload() {
    let rec = frame_record(b"123456789");
    assert_eq!(rec.len(), HEADER_LEN + 9);
    assert_eq!(&rec[HEADER_LEN..], b"123456789");
    let header: Vec<u8> = rec[..HEADER_LEN].to_vec();
    assert!(header.windows(4).any(|w| w == 9u32.to_le_bytes()));
    assert!(header.windows(4).any(|w| w == 0xcbf43926u32.to_le_bytes()));
}

#[test]
fn root_is_deterministic_and_name_sensitive() {
    assert_eq!(derive_root("prod"), derive_root("prod"));
    assert_ne!(derive_root("prod"), derive_root("prod2"));
    let id = StoreIdentity::root("prod");
    assert_eq!(id.instance_id, derive_root("prod"));
    assert_eq!(id.instance_hex().len(), 32);
    assert!(id.parent.is_none());
}

#[test]
fn fork_depends_on_every_input() {
    let p1 = derive_root("a");
    let p2 = derive_root("b");
    let f = derive_fork(&p1, 100, "edge");
    assert_eq!(f, derive_fork(&p1, 100, "edge"));
    assert_ne!(f, derive_fork(&p2, 100, "edge"));
    assert_ne!(f, derive_fork(&p1, 101, "edge"));
    assert_ne!(f, derive_fork(&p1, 100, "edge2"));
    // fork and root derivations never collide (domain separation)
    assert_ne!(derive_fork(&p1, 0, "a"), derive_root("a"));
}

#[test]
fn pending_fork_mints_child_with_lineage() {
    let parent = StoreIdentity::root("main");
    let pf = PendingFork {
        parent_instance_id: parent.instance_id,
        cut_seqno: 42,
        name: "nightly".into(),
    };
    let child = pf.mint();
    assert_eq!(child.name, "nightly");
    assert_eq!(child.parent, Some((parent.instance_id, 42)));
    assert_eq!(child.instance_id, derive_fork(&parent.instance_id, 42, "nightly"));
    // the chain is verifiable: recompute from lineage
    let (pid, cut) = child.parent.unwrap();
    assert_eq!(child.instance_id, derive_fork(&pid, cut, &child.name));
}

#[test]
fn store_name_validation() {
    assert!(validate_store_name("prod-eu.1").is_ok());
    assert!(validate_store_name("").is_err());
    assert!(validate_store_name(".hidden").is_err());
    assert!(validate_store_name("has space").is_err());
    assert!(validate_store_name(&"x".repeat(65)).is_err());
}

fn sample() -> ManifestData {
    ManifestData {
        next_file_id: 42,
        last_flushed_seqno: 1000,
        wal_floor: 7,
        levels: vec![
            vec![
                RunMeta { id: 10, table_ids: vec![11, 12] },
                RunMeta { id: 8, table_ids: vec![9] },
            ],
            vec![],
            vec![RunMeta { id: 3, table_ids: vec![4, 5, 6] }],
        ],
        vlog_live: vec![2, 13],
        vlog_head: 13,
        vlog_retired: vec![(1, 900)],
        discard: vec![(2, 4096)],
        identity: None,
        pending_fork: None,
        pins: Vec::new(),
    }
}

fn format_of(enc: &[u8]) -> u32 {
    u32::from_le_bytes(enc[8..12].try_into().unwrap())
}

#[test]
fn manifest_encode_decode_roundtrip() {
    let d = sample();
    let enc = d.encode();
    assert_eq!(ManifestData::decode(&enc).unwrap(), d);
}

/// A manifest without identity stays format 1; identity/fork sections bump it
/// to format 2 and roundtrip.
#[test]
fn identity_sections_roundtrip_and_format_gate() {
    let plain = sample().encode();
    assert_eq!(format_of(&plain), 1);

    let mut d = sample();
    d.identity = Some(StoreIdentity::root("prod"));
    let enc = d.encode();
    assert_eq!(format_of(&enc), 2);
    assert_eq!(ManifestData::decode(&enc).unwrap(), d);

    // fork lineage + pending fork together (a forked store forking again)
    let parent = StoreIdentity::root("main");
    d.identity = Some(
        PendingFork {
            parent_instance_id: parent.instance_id,
            cut_seqno: 7,
            name: "fork1".into(),
        }
        .mint(),
    );
    d.pending_fork = Some(PendingFork {
        parent_instance_id: d.identity.as_ref().unwrap().instance_id,
        cut_seqno: 900,
        name: "fork2".into(),
    });
    let enc = d.encode();
    assert_eq!(ManifestData::decode(&enc).unwrap(), d);
}

/// Pins bump the format to 3 and roundtrip; a manifest without pins keeps its
/// earlier format (1 or 2 as identity dictates).
#[test]
fn pins_roundtrip_and_format_gate() {
    let mut d = sample();
    d.pins = vec![
        PinInfo {
            name: "before-migration".into(),
            seqno: 950,
            created_unix_ms: 1_700_000_000_000,
        },
        PinInfo { name: "nightly".into(), seqno: 990, created_unix_ms: 1_700_000_100_000 },
    ];
    let enc = d.encode();
    assert_eq!(format_of(&enc), 3);
    assert_eq!(ManifestData::decode(&enc).unwrap(), d);

    // pins + identity together
    d.identity = Some(StoreIdentity::root("prod"));
    let enc = d.encode();
    assert_eq!(format_of(&enc), 3);
    assert_eq!(ManifestData::decode(&enc).unwrap(), d);

    // dropping the pins drops the format back down
    d.pins.clear();
    let enc = d.encode();
    assert_eq!(format_of(&enc), 2);
    d.identity = None;
    let enc = d.encode();
    assert_eq!(format_of(&enc), 1);
}

#[test]
fn corruption_detected() {
    let d = sample();
    let mut enc = d.encode();
    let mid = enc.len() / 2;
    enc[mid] ^= 0xff;
    assert!(ManifestData::decode(&enc).is_err());
    assert!(ManifestData::decode(&enc[..enc.len() - 1]).is_err());
}

#[test]
fn manifest_names_that_are_not_utf8_are_corrupt() {
    let mut d = sample();
    d.pins = vec![PinInfo { name: "abc".into(), seqno: 1, created_unix_ms: 2 }];
    let mut enc = d.encode();
    let at = enc.windows(3).position(|w| w == b"abc").unwrap();
    enc[at] = 0xff;
    let n = enc.len();
    // reseal the bytes, so that only the name is wrong
    let crc = fluent31::coding::crc32(&enc[..n - 4]);
    enc[n - 4..].copy_from_slice(&crc.to_le_bytes());
    assert!(matches!(ManifestData::decode(&enc), Err(Error::Corruption(_))));
}

/// Saving writes a numbered manifest file and points CURRENT at it; loading
/// goes by what CURRENT names.
#[test]
fn save_load_flip() {
    let paths = DbPaths::new(String::from("store"));
    let mut files: Vec<(String, Vec<u8>)> = Vec::new();
    let d1 = sample();
    files.push((paths.manifest(1), d1.encode()));
    let mut current = String::from("MANIFEST-000001");
    let gen = manifest_gen_of(current.as_bytes()).unwrap();
    assert_eq!(gen, 1);
    let file = files.iter().find(|f| f.0 == paths.manifest(gen)).unwrap();
    assert_eq!(ManifestData::decode(&file.1).unwrap(), d1);

    let mut d2 = d1.clone();
    d2.last_flushed_seqno = 2000;
    files.push((paths.manifest(2), d2.encode()));
    current = String::from("MANIFEST-000002");
    let gen = manifest_gen_of(current.as_bytes()).unwrap();
    assert_eq!(gen, 2);
    let file = files.iter().find(|f| f.0 == paths.manifest(gen)).unwrap();
    assert_eq!(ManifestData::decode(&file.1).unwrap(), d2);
}
