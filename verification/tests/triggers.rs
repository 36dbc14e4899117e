//! Triggers: definitions, change records, capture and delivery.

use fluent31::batch::BatchOp;
use fluent31::error::Error;
use fluent31::events::fire_group;
use fluent31::trigger::{
    backoff_ms, capture_ops, check_trigger, decode_change_record, decode_def, detect_mode,
    encode_change_record, encode_def, pack_changes, pack_touched_keys, parse_event_key,
    queue_prefix, queue_prefix_end, queue_space_bounds, remove_trigger, route_event, shorten,
    validate_trigger_name, Route, RunnerStatus, TriggerDef, TriggerLimits, TriggerMode, CHANGE_DELETE,
    CHANGE_PUT, CHANGE_PUT_ELIDED,
};
use fluent31::types::{
    sys_trigger_change_key, sys_trigger_event_key, MAX_SEQNO, SYS_PREFIX,
};

fn def(name: &str, lo: &[u8], hi: &[u8]) -> TriggerDef {
    TriggerDef {
        name: name.into(),
        module: "m".into(),
        lo: lo.to_vec(),
        hi: hi.to_vec(),
        mode: TriggerMode::Keys,
    }
}

fn limits() -> TriggerLimits {
    TriggerLimits {
        inline_value: 64 << 10,
        max_wasm_input: 64 << 20,
        max_key_size: 16 << 10,
        trigger_batch: 512,
    }
}

#[test]
fn def_record_roundtrip() {
    let d = def("orders-idx", b"orders/", b"orders0");
    let enc = encode_def(&d);
    assert_eq!(enc[0], 1, "keys-mode defs keep the v1 layout");
    let got = decode_def(&enc).unwrap();
    assert_eq!(got.name, "orders-idx");
    assert_eq!(got.module, "m");
    assert_eq!(got.lo, b"orders/");
    assert_eq!(got.hi, b"orders0");
    assert_eq!(got.mode, TriggerMode::Keys);
    assert!(decode_def(&[9u8, 0, 0, 0, 0]).is_err(), "bad version");

    let d2 = TriggerDef { mode: TriggerMode::Changes, ..def("feed", b"", b"") };
    let enc2 = encode_def(&d2);
    assert_eq!(enc2[0], 2, "changes-mode defs use the v2 layout");
    let got2 = decode_def(&enc2).unwrap();
    assert_eq!(got2.mode, TriggerMode::Changes);
    assert_eq!(got2.name, "feed");
}

#[test]
fn change_record_roundtrip() {
    let put = BatchOp::Put { key: b"orders/1".to_vec(), value: b"hello".to_vec() };
    let (kind, k, v) = {
        let enc = encode_change_record(&put, 64);
        let (kind, k, v) = decode_change_record(&enc).unwrap();
        (kind, k.to_vec(), v.to_vec())
    };
    assert_eq!(
        (kind, k.as_slice(), v.as_slice()),
        (CHANGE_PUT, &b"orders/1"[..], &b"hello"[..])
    );

    // a value above the inline cap is elided, key retained
    let enc = encode_change_record(&put, 4);
    let (kind, k, v) = decode_change_record(&enc).unwrap();
    assert_eq!(kind, CHANGE_PUT_ELIDED);
    assert_eq!(k, b"orders/1");
    assert!(v.is_empty());

    let del = BatchOp::Delete { key: b"orders/1".to_vec() };
    let enc = encode_change_record(&del, 64);
    let (kind, k, v) = decode_change_record(&enc).unwrap();
    assert_eq!(kind, CHANGE_DELETE);
    assert_eq!(k, b"orders/1");
    assert!(v.is_empty());

    assert!(decode_change_record(&[7u8, 0, 0]).is_err(), "bad version");
    assert!(decode_change_record(&[1u8, 9, 0]).is_err(), "bad kind");
    assert!(decode_change_record(&[1u8, 1, 5, b'a']).is_err(), "truncated");
}

fn key_of(op: &BatchOp) -> &[u8] {
    match op {
        BatchOp::Put { key, .. } => key.as_slice(),
        BatchOp::Delete { key } => key.as_slice(),
    }
}

#[test]
fn capture_emits_per_op_seqno_keyed_changes_and_coalesced_keys() {
    let defs = vec![
        TriggerDef { mode: TriggerMode::Changes, ..def("feed", b"orders/", b"orders0") },
        def("idx", b"orders/", b"orders0"),
    ];
    let ops = vec![
        BatchOp::Put { key: b"orders/1".to_vec(), value: b"a".to_vec() },
        BatchOp::Put { key: b"other".to_vec(), value: b"x".to_vec() },
        BatchOp::Put { key: b"orders/1".to_vec(), value: b"b".to_vec() },
        BatchOp::Delete { key: b"orders/1".to_vec() },
    ];
    let events = capture_ops(&defs, &ops, 100, &limits());
    // keys mode coalesces the three orders/1 touches into ONE event;
    // changes mode keeps all three, keyed by their op seqnos
    assert_eq!(events.len(), 1 + 3);
    let keys: Vec<&[u8]> = events.iter().map(key_of).collect();
    assert_eq!(keys[0], sys_trigger_event_key("idx", b"orders/1").as_slice());
    assert_eq!(keys[1], sys_trigger_change_key("feed", 100).as_slice());
    assert_eq!(keys[2], sys_trigger_change_key("feed", 102).as_slice());
    assert_eq!(keys[3], sys_trigger_change_key("feed", 103).as_slice());
    // the change records carry kind + key + inline value
    let BatchOp::Put { value, .. } = &events[1] else { panic!("change events are puts") };
    let (kind, k, v) = decode_change_record(value).unwrap();
    assert_eq!((kind, k, v), (CHANGE_PUT, &b"orders/1"[..], &b"a"[..]));
    let BatchOp::Put { value, .. } = &events[3] else { panic!("change events are puts") };
    let (kind, k, v) = decode_change_record(value).unwrap();
    assert_eq!((kind, k, v), (CHANGE_DELETE, &b"orders/1"[..], &[][..]));
}

#[test]
fn capture_skips_system_keys_and_respects_ranges() {
    let defs = vec![TriggerDef { mode: TriggerMode::Changes, ..def("feed", b"b", b"d") }];
    let ops = vec![
        BatchOp::Put { key: vec![SYS_PREFIX, b'x'], value: b"sys".to_vec() },
        BatchOp::Put { key: b"a".to_vec(), value: b"out".to_vec() },
        BatchOp::Put { key: b"c".to_vec(), value: b"in".to_vec() },
    ];
    let events = capture_ops(&defs, &ops, 7, &limits());
    assert_eq!(events.len(), 1);
    let BatchOp::Put { key, .. } = &events[0] else { panic!() };
    assert_eq!(key.as_slice(), sys_trigger_change_key("feed", 9).as_slice());
}

#[test]
fn a_group_fires_by_the_seqnos_it_commits_at() {
    let defs = vec![TriggerDef { mode: TriggerMode::Changes, ..def("feed", b"", b"") }];
    let put = |k: &[u8]| BatchOp::Put { key: k.to_vec(), value: b"v".to_vec() };
    let group = vec![vec![put(b"a"), put(b"b")], vec![put(b"c")]];
    let out = fire_group(&defs, group, 9, &limits());
    assert_eq!((out[0].len(), out[1].len()), (4, 2));
    assert_eq!(key_of(&out[0][2]), sys_trigger_change_key("feed", 10).as_slice());
    assert_eq!(key_of(&out[0][3]), sys_trigger_change_key("feed", 11).as_slice());
    // the first batch takes four seqnos with its events
    assert_eq!(key_of(&out[1][1]), sys_trigger_change_key("feed", 14).as_slice());
    // a batch for which no seqnos are left is refused, and fires nothing
    let out = fire_group(&defs, vec![vec![put(b"a"), put(b"b")]], MAX_SEQNO - 2, &limits());
    assert_eq!(out[0].len(), 2);
}

#[test]
fn events_do_not_fire_events() {
    let defs = vec![TriggerDef { mode: TriggerMode::Changes, ..def("all", b"", b"") }];
    let ops = vec![BatchOp::Put { key: b"k".to_vec(), value: b"v".to_vec() }];
    let events = capture_ops(&defs, &ops, 1, &limits());
    assert_eq!(events.len(), 1);
    assert!(capture_ops(&defs, &events, 2, &limits()).is_empty());
}

#[test]
fn range_matching_and_unbounded_ends() {
    let d = def("t", b"b", b"d");
    assert!(!d.matches(b"a"));
    assert!(d.matches(b"b"));
    assert!(d.matches(b"c"));
    assert!(!d.matches(b"d"), "hi is exclusive");
    let open = def("t", b"", b"");
    assert!(open.matches(b"a"));
    assert!(open.matches(&[0xff; 4]));
    let from = def("t", b"m", b"");
    assert!(!from.matches(b"a"));
    assert!(from.matches(b"z"));
}

#[test]
fn event_key_layout_roundtrip() {
    let k = sys_trigger_event_key("t1", b"user/key");
    let (name, ukey) = parse_event_key(&k).unwrap();
    assert_eq!(name, "t1");
    assert_eq!(ukey, b"user/key");
    // queue keys sort inside [queue_prefix, queue_prefix_end)
    assert!(k.as_slice() >= queue_prefix("t1").as_slice());
    assert!(k.as_slice() < queue_prefix_end("t1").as_slice());
    assert!(k.as_slice() < queue_space_bounds().1.as_slice());
}

#[test]
fn event_keys_with_unreadable_names_are_strays() {
    let mut k = sys_trigger_event_key("t1", b"x");
    let at = k.windows(2).position(|w| w == b"t1").unwrap();
    k[at] = 0xff;
    assert!(parse_event_key(&k).is_none());
    assert!(matches!(route_event(&k, &vec![]), Route::Stray { .. }));
}

#[test]
fn trigger_names_validate_like_module_names() {
    assert!(validate_trigger_name("orders-idx.v2").is_ok());
    assert!(validate_trigger_name("").is_err());
    assert!(validate_trigger_name("has space").is_err());
    assert!(validate_trigger_name(&"x".repeat(65)).is_err());
}

#[test]
fn triggers_are_routed_and_removed_by_name() {
    let mut defs = vec![def("a", b"", b""), def("b", b"", b"")];
    let k = sys_trigger_event_key("b", b"x");
    assert!(matches!(route_event(&k, &defs), Route::Trigger { index: 1, .. }));
    remove_trigger(&mut defs, "b");
    assert_eq!(defs.len(), 1);
    match route_event(&k, &defs) {
        Route::Orphan { name, cursor } => {
            assert_eq!(name, "b");
            assert_eq!(cursor, queue_prefix_end("b"));
        }
        _ => panic!("an event of a deleted trigger is an orphan"),
    }
    assert!(check_trigger("c", &b"a".to_vec(), &b"b".to_vec(), &defs, 16).is_ok());
    let twice = check_trigger("a", &vec![], &vec![], &defs, 16);
    assert!(matches!(twice, Err(Error::InvalidArgument(_))));
    assert!(check_trigger("c", &b"b".to_vec(), &b"a".to_vec(), &defs, 16).is_err());
    assert!(check_trigger("c", &vec![b'x'; 17], &vec![], &defs, 16).is_err());
}

#[test]
fn modes_follow_exports() {
    assert_eq!(detect_mode(true, true), Some(TriggerMode::Changes));
    assert_eq!(detect_mode(false, true), Some(TriggerMode::Keys));
    assert_eq!(detect_mode(false, false), None);
    assert_eq!(TriggerMode::Keys.entry(), "on_touch");
    assert_eq!(TriggerMode::Changes.entry(), "on_apply");
    assert_eq!(TriggerMode::Keys.as_str(), "keys");
}

#[test]
fn retries_back_off_and_level_out() {
    assert_eq!(backoff_ms(0), 100);
    assert_eq!(backoff_ms(1), 200);
    assert_eq!(backoff_ms(6), 6400);
    assert_eq!(backoff_ms(60), backoff_ms(6));
}

#[test]
fn failures_are_noted_in_brief() {
    let mut s = RunnerStatus::new();
    assert_eq!(s.record_failure(&Error::Wasm(String::from("short"))), 200);
    assert_eq!(s.last_error, "wasm: short");
    // cut between characters, not inside one
    let long = "é".repeat(400);
    assert_eq!(s.record_failure(&Error::Conflict), 400);
    let cut = shorten(format!("x{long}"));
    assert_eq!(cut, format!("x{}…", "é".repeat(249)));
    assert_eq!(shorten("y".repeat(500)), "y".repeat(500));
    s.failures = u32::MAX;
    assert_eq!(s.record_failure(&Error::Closed), 6400);
    assert_eq!(s.failures, u32::MAX);
}

#[test]
fn deliveries_are_packed_up_to_the_limits() {
    let prefix = queue_prefix("t");
    let keys: Vec<Vec<u8>> =
        [&b"a"[..], &b"bb"[..], &b"ccc"[..]].iter().map(|k| sys_trigger_event_key("t", k)).collect();
    let (all, n) = pack_touched_keys(&keys, prefix.len(), &limits()).unwrap();
    assert_eq!(n, 3);
    let two = TriggerLimits { trigger_batch: 2, ..limits() };
    let (some, n) = pack_touched_keys(&keys, prefix.len(), &two).unwrap();
    assert_eq!(n, 2);
    assert!(all.starts_with(&some) && all.len() > some.len());
    let tiny = TriggerLimits { max_wasm_input: 1, ..limits() };
    let r = pack_touched_keys(&keys, prefix.len(), &tiny);
    assert!(matches!(r, Err(Error::InvalidArgument(_))));

    let op = BatchOp::Put { key: b"k".to_vec(), value: b"v".to_vec() };
    let kvs = vec![(sys_trigger_change_key("t", 5), encode_change_record(&op, 10))];
    let (input, n) = pack_changes(&kvs, prefix.len(), &limits()).unwrap();
    assert_eq!(n, 1);
    assert!(!input.is_empty());
    let bad = vec![(sys_trigger_change_key("t", 5), vec![7u8])];
    assert!(pack_changes(&bad, prefix.len(), &limits()).is_err());
}
