//! Damage is told: whatever is read from a file carries its own checksum, and
//! what cannot be read ends a log without taking anything with it.

use vstd::prelude::*;

verus! {

use crate::coding::{crc32_of, enc_le, enc_u32, le_value, lemma_le_bound, lemma_pow256_values};
use crate::journal::{all_records, clean_len, frame, frame_len, head_valid, records_of};
use crate::manifest::p_manifest;
use crate::table::{payload_at, BlockRef};
use crate::vlog::{p_record, scan_from, scan_head, scan_len};
use crate::wal::{announced_len, wal_frames, wal_head_valid, wal_records, wal_valid_len};

/// Little-endian bytes are those of their number.
pub proof fn lemma_le_bytes(s: Seq<u8>)
    ensures
        enc_le(le_value(s), s.len()) == s,
    decreases s.len(),
{
    if s.len() > 0 {
        lemma_le_bytes(s.skip(1));
        let v = le_value(s);
        let w = le_value(s.skip(1));
        assert(v == s[0] as nat + 256 * w);
        assert(v % 256 == s[0] as nat);
        assert(v / 256 == w);
        assert(s =~= seq![s[0]] + s.skip(1));
    } else {
        assert(s =~= Seq::empty());
    }
}

proof fn lemma_word(s: Seq<u8>, v: u32)
    requires
        s.len() == 4,
        le_value(s) == v,
    ensures
        s == enc_u32(v),
{
    lemma_le_bytes(s);
}

/// What is read of a log is what was framed: the part of it that can be read is
/// the frames of the records that are read, each with its length and its
/// checksum, and nothing more can be read behind it.
#[verifier::rlimit(50)]
pub proof fn lemma_log_is_its_frames(s: Seq<u8>)
    ensures
        wal_valid_len(s) <= s.len(),
        s.take(wal_valid_len(s) as int) == wal_frames(wal_records(s)),
        wal_records(s.skip(wal_valid_len(s) as int)).len() == 0,
    decreases s.len(),
{
    let n = wal_valid_len(s) as int;
    if wal_head_valid(s) {
        let m = 8 + announced_len(s) as int;
        let rest = s.skip(m);
        lemma_log_is_its_frames(rest);
        let r = s.subrange(8, m);
        let rs = wal_records(s);
        lemma_pow256_values();
        lemma_le_bound(s.take(4));
        lemma_word(s.take(4), r.len() as u32);
        lemma_word(s.subrange(4, 8), crc32_of(r));
        assert(rs[0] == r);
        assert(rs.skip(1) =~= wal_records(rest));
        assert(s.take(n) =~= s.take(4) + s.subrange(4, 8) + r + rest.take(n - m));
        assert(rest.skip(n - m) =~= s.skip(n));
    } else {
        assert(s.take(0) =~= Seq::empty());
        assert(wal_records(s) =~= Seq::empty());
        assert(s.skip(0) =~= s);
    }
}

/// Cutting a log to what could be read of it loses nothing, and leaves a log
/// that is read to its end.
pub proof fn lemma_cut_log_is_whole(s: Seq<u8>)
    ensures
        wal_records(s.take(wal_valid_len(s) as int)) == wal_records(s),
        wal_valid_len(s.take(wal_valid_len(s) as int)) == wal_valid_len(s),
    decreases s.len(),
{
    let n = wal_valid_len(s) as int;
    lemma_log_is_its_frames(s);
    let t = s.take(n);
    if wal_head_valid(s) {
        let m = 8 + announced_len(s) as int;
        let rest = s.skip(m);
        lemma_log_is_its_frames(rest);
        lemma_cut_log_is_whole(rest);
        assert(t.take(4) =~= s.take(4));
        assert(t.subrange(4, 8) =~= s.subrange(4, 8));
        assert(t.subrange(8, m) =~= s.subrange(8, m));
        assert(t.skip(m) =~= rest.take(n - m));
    } else {
        assert(t =~= Seq::empty());
    }
}

/// A value-log record that is read carries the checksum of all that follows it.
pub proof fn lemma_record_is_checked(s: Seq<u8>)
    requires
        p_record(s) is Some,
    ensures
        s.len() >= 4,
        s.take(4) == enc_u32(crc32_of(s.skip(4))),
{
    lemma_word(s.take(4), crc32_of(s.skip(4)));
}

/// A scan of a value-log file takes records one behind the other from the start:
/// each has a checksum that holds, starts where the one before it ends, and the
/// last ends where the part of the file ends that is kept.
#[verifier::rlimit(50)]
pub proof fn lemma_scan_is_gapless(s: Seq<u8>, at: nat)
    ensures
        ({
            let rs = scan_from(s, at);
            &&& scan_len(s) <= s.len()
            &&& rs.len() == 0 ==> scan_len(s) == 0
            &&& rs.len() > 0 ==> rs[0].offset == at && rs.last().offset + rs.last().len == at
                + scan_len(s)
            &&& forall|i: int|
                0 < i < rs.len() ==> (#[trigger] rs[i]).offset == rs[i - 1].offset + rs[i - 1].len
            &&& forall|i: int|
                0 <= i < rs.len() ==> {
                    let from = (#[trigger] rs[i]).offset - at;
                    &&& 4 <= rs[i].len
                    &&& 0 <= from <= from + rs[i].len <= s.len()
                    &&& s.subrange(from, from + 4) == enc_u32(
                        crc32_of(s.subrange(from + 4, from + rs[i].len)),
                    )
                }
        }),
    decreases s.len(),
{
    let rs = scan_from(s, at);
    if let Some((key, vlen, total)) = scan_head(s) {
        if 0 < total <= s.len() {
            let t = total as int;
            let rest = s.skip(t);
            lemma_scan_is_gapless(rest, at + total);
            let more = scan_from(rest, at + total);
            crate::vlog::lemma_lens_consume(s);
            lemma_word(s.take(4), crc32_of(s.subrange(4, t)));
            assert(s.subrange(0, 4) =~= s.take(4));
            assert(rs.len() == 1 + more.len());
            assert forall|i: int| 0 < i < rs.len() implies (#[trigger] rs[i]).offset == rs[i
                - 1].offset + rs[i - 1].len by {
                assert(rs[i] == more[i - 1]);
                if i > 1 {
                    assert(rs[i - 1] == more[i - 2]);
                    assert(more[i - 1].offset == more[i - 2].offset + more[i - 2].len);
                }
            }
            assert forall|i: int| 0 <= i < rs.len() implies {
                let from = (#[trigger] rs[i]).offset - at;
                &&& 4 <= rs[i].len
                &&& 0 <= from <= from + rs[i].len <= s.len()
                &&& s.subrange(from, from + 4) == enc_u32(
                    crc32_of(s.subrange(from + 4, from + rs[i].len)),
                )
            } by {
                if i > 0 {
                    let r = more[i - 1];
                    assert(rs[i] == r);
                    let f = r.offset - (at + total);
                    let n = r.len as int;
                    assert(rest.subrange(f, f + 4) =~= s.subrange(f + t, f + t + 4));
                    assert(rest.subrange(f + 4, f + n) =~= s.subrange(f + t + 4, f + t + n));
                }
            }
            if more.len() > 0 {
                assert(rs.last() == more.last());
            } else {
                assert(rs.last() == rs[0]);
            }
        }
    }
}

/// A block that is read carries the checksum of its payload.
pub proof fn lemma_block_is_checked(data: Seq<u8>, r: BlockRef)
    requires
        payload_at(data, r) is Some,
    ensures
        r.off + r.len <= data.len(),
        r.len >= 5,
        ({
            let s = data.subrange(r.off as int, r.off + r.len);
            let p = payload_at(data, r)->Some_0;
            &&& s == p + seq![0u8] + enc_u32(crc32_of(p + seq![0u8]))
        }),
{
    let s = data.subrange(r.off as int, r.off + r.len);
    let p = payload_at(data, r)->Some_0;
    let n = s.len() as int;
    assert(p + seq![0u8] =~= s.take(n - 4));
    lemma_word(s.skip(n - 4), crc32_of(s.take(n - 4)));
    assert(s =~= s.take(n - 4) + s.skip(n - 4));
}

/// A manifest that is read carries the checksum of all before it.
pub proof fn lemma_manifest_is_checked(s: Seq<u8>)
    requires
        p_manifest(s) is Some,
    ensures
        s.len() >= 16,
        s.skip(s.len() - 4) == enc_u32(crc32_of(s.take(s.len() - 4))),
{
    lemma_word(s.skip(s.len() - 4), crc32_of(s.take(s.len() - 4)));
}

/// Journal records, framed.
pub open spec fn frames(rs: Seq<Seq<u8>>) -> Seq<u8>
    decreases rs.len(),
{
    if rs.len() == 0 {
        Seq::empty()
    } else {
        frame(rs[0]) + frames(rs.skip(1))
    }
}

/// What is read of a journal file is what was framed.
#[verifier::rlimit(50)]
pub proof fn lemma_journal_file_is_its_frames(s: Seq<u8>)
    ensures
        clean_len(s) <= s.len(),
        s.take(clean_len(s) as int) == frames(records_of(s)),
    decreases s.len(),
{
    let n = clean_len(s) as int;
    if head_valid(s) {
        let m = 8 + frame_len(s) as int;
        let rest = s.skip(m);
        lemma_journal_file_is_its_frames(rest);
        let r = s.subrange(8, m);
        let rs = records_of(s);
        lemma_pow256_values();
        lemma_le_bound(s.take(4));
        lemma_word(s.take(4), r.len() as u32);
        lemma_word(s.subrange(4, 8), crc32_of(r));
        assert(rs[0] == r);
        assert(rs.skip(1) =~= records_of(rest));
        assert(s.take(n) =~= s.take(4) + s.subrange(4, 8) + r + rest.take(n - m));
    } else {
        assert(s.take(0) =~= Seq::empty());
        assert(records_of(s) =~= Seq::empty());
    }
}

/// The records of files, one file behind the other.
pub open spec fn joined_records(files: Seq<Seq<u8>>, n: int) -> Seq<Seq<u8>>
    decreases n,
{
    if n <= 0 {
        Seq::empty()
    } else {
        joined_records(files, n - 1) + records_of(files[n - 1])
    }
}

/// Only the last file of a journal may end in the middle of a record: a journal
/// is read exactly where every other file is read to its end, and then all their
/// records come back, file by file.
pub proof fn lemma_only_last_file_is_torn(files: Seq<Seq<u8>>, n: int)
    requires
        0 <= n <= files.len(),
    ensures
        all_records(files, n) is Some <==> forall|i: int|
            0 <= i < n && i < files.len() - 1 ==> clean_len(#[trigger] files[i]) == files[i].len(),
        all_records(files, n) matches Some(rs) ==> rs == joined_records(files, n),
    decreases n,
{
    if n > 0 {
        lemma_only_last_file_is_torn(files, n - 1);
    }
}

} // verus!
