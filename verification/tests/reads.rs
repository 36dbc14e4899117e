//! Memtables, tables, merges and visibility.

use std::cmp::Ordering;

use fluent31::error::Error;
use fluent31::iter::{InternalIterator, MergeIterator};
use fluent31::memtable::{MemIter, Memtable};
use fluent31::mvcc::{MvccForward, MvccReverse};
use fluent31::table::builder::TableBuilder;
use fluent31::table::reader::Table;
use fluent31::table::{read_block_verified, seal_block, Footer, FOOTER_LEN};
use fluent31::types::{
    cmp_ikey, decode_repr, encode_inline, ikey_seqno, ikey_ukey, make_ikey, make_seek_ikey,
    ReprRef, SeqNo, ValueKind, MAX_SEQNO,
};

type Row<'a> = (&'a [u8], SeqNo, ValueKind, &'a [u8]);

fn mt_with(entries: &[Row]) -> Memtable {
    let mut mt = Memtable::new(0);
    for (k, s, kind, v) in entries {
        let repr = if *kind == ValueKind::Put { encode_inline(v) } else { Vec::new() };
        mt.insert(make_ikey(k, *s, *kind), repr);
    }
    mt
}

#[test]
fn get_respects_snapshot() {
    let mt = mt_with(&[
        (b"k", 3, ValueKind::Put, b"v3"),
        (b"k", 7, ValueKind::Put, b"v7"),
        (b"k", 9, ValueKind::Delete, b""),
    ]);
    let (kind, seq, repr) = mt.get(b"k", 8).unwrap();
    assert_eq!((kind, seq), (ValueKind::Put, 7));
    assert_eq!(repr, encode_inline(b"v7"));
    let (kind, seq, _) = mt.get(b"k", MAX_SEQNO).unwrap();
    assert_eq!((kind, seq), (ValueKind::Delete, 9));
    let (_, seq, _) = mt.get(b"k", 3).unwrap();
    assert_eq!(seq, 3);
    assert!(mt.get(b"k", 2).is_none());
    assert!(mt.get(b"other", 100).is_none());
}

#[test]
fn iter_orders_by_key_then_seq_desc() {
    let mt = mt_with(&[
        (b"a", 1, ValueKind::Put, b"x"),
        (b"b", 5, ValueKind::Put, b"y1"),
        (b"b", 2, ValueKind::Put, b"y2"),
    ]);
    let mut it = mt.iter();
    it.seek_to_first();
    let mut seen = Vec::new();
    while it.valid() {
        seen.push((ikey_ukey(it.ikey()).to_vec(), ikey_seqno(it.ikey())));
        it.next();
    }
    assert_eq!(seen, vec![(b"a".to_vec(), 1), (b"b".to_vec(), 5), (b"b".to_vec(), 2)]);
    // reverse from the end
    it.seek_to_last();
    assert_eq!(ikey_seqno(it.ikey()), 2);
    it.prev();
    assert_eq!(ikey_seqno(it.ikey()), 5);
}

#[test]
fn seek_for_prev_lands_at_or_before() {
    let mt = mt_with(&[(b"a", 1, ValueKind::Put, b"x"), (b"c", 1, ValueKind::Put, b"z")]);
    let mut it = mt.iter();
    it.seek_for_prev(&make_seek_ikey(b"b", MAX_SEQNO));
    assert!(it.valid());
    assert_eq!(ikey_ukey(it.ikey()), b"a");
}

#[test]
fn memtable_counts_what_it_holds() {
    let mut mt = Memtable::new(17);
    assert!(mt.is_empty());
    assert_eq!(mt.log_id(), 17);
    assert_eq!(mt.approximate_bytes(), 0);
    mt.insert(make_ikey(b"abc", 1, ValueKind::Put), encode_inline(b"v"));
    assert!(!mt.is_empty());
    // key with its trailer, representation, and the fixed charge per entry
    assert_eq!(mt.approximate_bytes(), 3 + 8 + 2 + 64);
}

fn collect_fwd(
    sources: &[&Memtable],
    snap: SeqNo,
    lo: &[u8],
    hi: Option<Vec<u8>>,
) -> Vec<(Vec<u8>, Vec<u8>)> {
    let children: Vec<MemIter> = sources.iter().map(|m| m.iter()).collect();
    let merge = MergeIterator::new(children, false);
    let mut f = MvccForward::new(merge, snap, lo, hi);
    let mut out = Vec::new();
    while let Some((k, r)) = f.next_visible().unwrap() {
        let ReprRef::Inline(v) = decode_repr(&r).unwrap() else { panic!() };
        out.push((k, v.to_vec()));
    }
    out
}

fn collect_rev(
    sources: &[&Memtable],
    snap: SeqNo,
    lo: &[u8],
    hi: Option<&[u8]>,
) -> Vec<(Vec<u8>, Vec<u8>)> {
    let children: Vec<MemIter> = sources.iter().map(|m| m.iter()).collect();
    let merge = MergeIterator::new(children, true);
    let mut f = MvccReverse::new(merge, snap, lo.to_vec(), hi);
    let mut out = Vec::new();
    while let Some((k, r)) = f.next_visible().unwrap() {
        let ReprRef::Inline(v) = decode_repr(&r).unwrap() else { panic!() };
        out.push((k, v.to_vec()));
    }
    out
}

fn keys_of(pairs: &[(Vec<u8>, Vec<u8>)]) -> Vec<Vec<u8>> {
    pairs.iter().map(|(k, _)| k.clone()).collect()
}

#[test]
fn forward_visibility_and_tombstones() {
    let m1 = mt_with(&[
        (b"a", 10, ValueKind::Put, b"a10"),
        (b"b", 12, ValueKind::Delete, b""),
        (b"c", 5, ValueKind::Put, b"c5"),
    ]);
    let m2 = mt_with(&[
        (b"a", 3, ValueKind::Put, b"a3"),
        (b"b", 4, ValueKind::Put, b"b4"),
        (b"d", 20, ValueKind::Put, b"d20"),
    ]);
    // snap 11: a=a10, b=b4 (delete@12 invisible), c=c5; d@20 invisible
    let got = collect_fwd(&[&m1, &m2], 11, b"", None);
    assert_eq!(
        got,
        vec![
            (b"a".to_vec(), b"a10".to_vec()),
            (b"b".to_vec(), b"b4".to_vec()),
            (b"c".to_vec(), b"c5".to_vec()),
        ]
    );
    // snap 12: b deleted
    let got = collect_fwd(&[&m1, &m2], 12, b"", None);
    assert_eq!(keys_of(&got), vec![b"a".to_vec(), b"c".to_vec()]);
    // bounds [b, d)
    let got = collect_fwd(&[&m1, &m2], 11, b"b", Some(b"d".to_vec()));
    assert_eq!(keys_of(&got), vec![b"b".to_vec(), b"c".to_vec()]);
}

#[test]
fn reverse_matches_forward_reversed() {
    let m1 = mt_with(&[
        (b"a", 10, ValueKind::Put, b"a10"),
        (b"a", 2, ValueKind::Put, b"a2"),
        (b"b", 12, ValueKind::Delete, b""),
        (b"b", 4, ValueKind::Put, b"b4"),
        (b"c", 5, ValueKind::Put, b"c5"),
        (b"e", 7, ValueKind::Put, b"e7"),
    ]);
    for snap in [1u64, 3, 4, 5, 9, 11, 12, 100] {
        let mut fwd = collect_fwd(&[&m1], snap, b"", None);
        fwd.reverse();
        let rev = collect_rev(&[&m1], snap, b"", None);
        assert_eq!(fwd, rev, "snap={snap}");
    }
    // bounded reverse [b, e): includes c (and b when visible), not e
    let rev = collect_rev(&[&m1], 11, b"b", Some(b"e"));
    assert_eq!(keys_of(&rev), vec![b"c".to_vec(), b"b".to_vec()]);
}

#[test]
fn newest_source_wins_across_sources() {
    // same key in two sources at different seqnos
    let newer = mt_with(&[(b"k", 9, ValueKind::Put, b"new")]);
    let older = mt_with(&[(b"k", 3, ValueKind::Put, b"old")]);
    let got = collect_fwd(&[&newer, &older], 100, b"", None);
    assert_eq!(got, vec![(b"k".to_vec(), b"new".to_vec())]);
}

fn built(entries: &[Row], block_size: usize) -> Vec<u8> {
    let mut b = TableBuilder::new(block_size, 10);
    for (k, s, kind, v) in entries {
        let repr = if *kind == ValueKind::Put { encode_inline(v) } else { Vec::new() };
        b.add(&make_ikey(k, *s, *kind), &repr).unwrap();
    }
    let (stats, bytes) = b.finish().unwrap();
    assert_eq!(stats.entries as usize, entries.len());
    bytes
}

fn build_table(entries: &[Row], block_size: usize) -> Table {
    Table::open(built(entries, block_size), 1).unwrap()
}

fn many() -> Vec<(Vec<u8>, u64, ValueKind, Vec<u8>)> {
    (0..500u32)
        .map(|i| {
            (
                format!("key{i:05}").into_bytes(),
                (i as u64) + 1,
                if i % 7 == 0 { ValueKind::Delete } else { ValueKind::Put },
                format!("value-{i}").into_bytes(),
            )
        })
        .collect()
}

fn rows(data: &[(Vec<u8>, u64, ValueKind, Vec<u8>)]) -> Vec<Row<'_>> {
    data.iter().map(|(k, s, kind, v)| (k.as_slice(), *s, *kind, v.as_slice())).collect()
}

#[test]
fn build_open_get_small_blocks() {
    let data = many();
    // tiny blocks to force many of them
    let t = build_table(&rows(&data), 256);
    assert!(t.block_count() > 10);

    for (k, s, kind, v) in &data {
        let got = t.get(k, MAX_SEQNO).unwrap().unwrap();
        assert_eq!(got.0, *kind);
        assert_eq!(got.1, *s);
        if *kind == ValueKind::Put {
            assert_eq!(got.2, encode_inline(v));
        }
    }
    assert!(t.get(b"key99999x", MAX_SEQNO).unwrap().is_none());
    // seq-bounded lookup: nothing visible below the entry's seqno
    assert!(t.get(b"key00010", 5).unwrap().is_none());
}

#[test]
fn table_iter_forward_reverse_and_seeks() {
    let data = many();
    let t = build_table(&rows(&data), 256);

    let blocks = t.load_blocks().unwrap();
    let mut it = t.iter(&blocks);
    it.seek_to_first();
    let mut n = 0;
    let mut prev: Option<Vec<u8>> = None;
    while it.valid() {
        let k = it.ikey().to_vec();
        if let Some(p) = &prev {
            assert_eq!(cmp_ikey(p, &k), Ordering::Less);
        }
        prev = Some(k);
        n += 1;
        it.next();
    }
    assert_eq!(n, 500);

    it.seek_to_last();
    let mut m = 0;
    while it.valid() {
        m += 1;
        it.prev();
    }
    assert_eq!(m, 500);

    // seek to a mid key
    it.seek(&make_seek_ikey(b"key00250", MAX_SEQNO));
    assert!(it.valid());
    assert_eq!(ikey_ukey(it.ikey()), b"key00250");

    // seek_for_prev between keys
    it.seek_for_prev(&make_seek_ikey(b"key00250a", MAX_SEQNO));
    assert!(it.valid());
    assert_eq!(ikey_ukey(it.ikey()), b"key00250");

    // seek beyond the end / before the start
    it.seek(&make_seek_ikey(b"zzz", MAX_SEQNO));
    assert!(!it.valid());
    it.seek_for_prev(&make_seek_ikey(b"aaa", MAX_SEQNO));
    assert!(!it.valid());
}

#[test]
fn bloom_filters_absent_keys() {
    let t = build_table(&[(b"only", 1, ValueKind::Put, b"v")], 4096);
    assert!(t.may_contain_ukey(b"only"));
    assert!(!t.may_contain_ukey(b"absent")); // outside key range
}

#[test]
fn table_knows_its_bounds() {
    let data = many();
    let t = build_table(&rows(&data), 256);
    assert_eq!(t.min_ukey(), b"key00000");
    assert_eq!(t.max_ukey(), b"key00499");
    assert_eq!(t.stats.tombstones, 72);
    assert_eq!((t.stats.min_seq, t.stats.max_seq), (1, 500));
}

#[test]
fn entries_of_unknown_kind_are_refused() {
    let mut b = TableBuilder::new(4096, 10);
    b.add(&make_ikey(b"a", 1, ValueKind::Put), &encode_inline(b"v")).unwrap();
    let r = b.add(&make_seek_ikey(b"b", 1), &encode_inline(b"v"));
    assert!(matches!(r, Err(Error::Corruption(_))), "{r:?}");
    let (stats, _) = b.finish().unwrap();
    assert_eq!(stats.entries, 1);
}

#[test]
fn damaged_tables_are_refused() {
    let bytes = built(&[(b"only", 1, ValueKind::Put, b"v")], 4096);
    assert!(matches!(Table::open(bytes[..10].to_vec(), 1), Err(Error::Corruption(_))));
    let n = bytes.len();
    let mut bad = bytes.clone();
    bad[n - 1] ^= 0xff;
    assert!(matches!(Table::open(bad, 1), Err(Error::Corruption(_))));
    // a flipped bit in a data block shows when it is read
    let mut bad = bytes.clone();
    bad[0] ^= 1;
    let t = Table::open(bad, 1).unwrap();
    assert!(matches!(t.get(b"only", MAX_SEQNO), Err(Error::Corruption(_))));
    assert_eq!(Footer::decode(&bytes[n - FOOTER_LEN..]).unwrap().encode(), &bytes[n - FOOTER_LEN..]);
}

#[test]
fn sealed_blocks_read_back() {
    let stored = seal_block(b"payload".to_vec());
    assert_eq!(read_block_verified(&stored).unwrap(), b"payload");
    let mut bad = stored.clone();
    bad[0] ^= 1;
    assert!(matches!(read_block_verified(&bad), Err(Error::Corruption(_))));
}

/// The size starts at an empty block's, grows with every entry, also with the
/// one that closes a block, and never passes the finished file's.
#[test]
fn estimated_size_grows_up_to_the_file() {
    let mut b = TableBuilder::new(128, 10);
    assert_eq!(b.estimated_size(), 4);
    assert!(b.last_ukey().is_none());
    let mut sizes = vec![b.estimated_size()];
    for i in 0..100u32 {
        let key = format!("key{i:05}");
        b.add(&make_ikey(key.as_bytes(), 7, ValueKind::Put), &encode_inline(b"v")).unwrap();
        assert_eq!(b.last_ukey().unwrap(), key.as_bytes());
        sizes.push(b.estimated_size());
    }
    assert!(sizes.windows(2).all(|w| w[0] < w[1]));
    let (stats, bytes) = b.finish().unwrap();
    assert!(sizes.iter().all(|&n| n <= bytes.len() as u64));
    assert_eq!((stats.entries, stats.tombstones), (100, 0));
    assert_eq!((stats.min_seq, stats.max_seq), (7, 7));
    assert_eq!(ikey_ukey(&stats.first_ikey), b"key00000");
    assert_eq!(ikey_ukey(&stats.last_ikey), b"key00099");
    assert_eq!(Table::open(bytes, 3).unwrap().stats.entries, 100);
}

/// A block goes to the file when its payload reaches the block size, sealed.
#[test]
fn a_block_is_cut_at_the_block_size() {
    let entry = |i: u8| (make_ikey(&[b'k', i], 1, ValueKind::Put), encode_inline(&[i; 10]));
    let mut b = TableBuilder::new(50, 10);
    let (k, v) = entry(1);
    b.add(&k, &v).unwrap();
    let one = b.estimated_size();
    assert!(one < 50);
    let (k, v) = entry(2);
    b.add(&k, &v).unwrap();
    // both entries, sealed, and an empty block behind them
    let payload = 2 * (one - 4) + 4;
    assert!(payload >= 50);
    assert_eq!(b.estimated_size(), payload + 5 + 4);
    let (_, bytes) = b.finish().unwrap();
    let stored = &bytes[..(payload + 5) as usize];
    let data = read_block_verified(stored).unwrap();
    assert_eq!(data.len() as u64, payload);
    assert_eq!(seal_block(data), stored);
}
