//! SSTable reader over a table file's bytes.

use vstd::prelude::*;

use super::{read_block_verified, BlockRef, Footer, TableStats, FOOTER_LEN};
use crate::block::{Block, BlockIter};
use crate::bloom;
use crate::coding::{put_bytes, Reader};
use crate::error::{corrupt, Error, Result};
use crate::iter::ConcatIter;
use crate::iter::InternalIterator;
use crate::order::{bytes_eq, bytes_lt, to_bytes};
use crate::types::{
    ikey_kind, ikey_lt, ikey_seqno, ikey_ukey, make_seek_ikey, SeqNo, ValueKind, MAX_SEQNO,
};

verus! {

use super::{
    block_intact, block_reads, bytes_at, index_key_bytes, lemma_index_entry_consumes, p_index,
    p_index_entry, p_table, part_at, payload_at, table_entries, table_intact, table_parts,
    table_sound, IndexEntry, TableModel,
};
use crate::block::{
    block_entries, block_ok, block_search, count_of, header_ok, lemma_block_search,
    p_block_entry,
};
use crate::bloom::{filter_admits, hash_of};
use crate::iter::{
    is_lower_bound, lemma_flat_at, lemma_flat_find, lemma_part_lasts_ascend,
    lemma_part_start_monotone, part_start, parts_of, sorted, Kv,
};
use crate::mvcc::{find_newest, found_at, hit_is, lemma_lookup, lemma_ukeys_ascend};
use crate::order::{
    bisect, lemma_bisect_parts, lemma_lex_asymmetric, lemma_lex_irreflexive, lemma_lex_total,
    lex_le, lex_lt,
};
use crate::splice::lemma_le_le;
use crate::types::{
    ikey_before, ikey_upto, is_ikey, kind_byte_of, kind_of_byte, lemma_ikey_from,
    lemma_ikey_transitive,
    seek_ikey, ukey_of,
};

/// The pinned block index, flat: one keys arena + one offsets vector instead
/// of a heap allocation per entry.
pub struct TableIndex {
    /// Concatenated last-ikeys, in index order.
    keys: Vec<u8>,
    /// `ends[i]` = exclusive end of entry i's key in `keys` (entry i starts at
    /// `ends[i-1]`).
    ends: Vec<u32>,
    blocks: Vec<BlockRef>,
}

impl TableIndex {
    spec fn start_of(self, i: int) -> int {
        if i == 0 {
            0
        } else {
            self.ends@[i - 1] as int
        }
    }

    /// The index entries.
    pub closed spec fn model(self) -> Seq<IndexEntry> {
        Seq::new(
            self.blocks@.len(),
            |i: int|
                IndexEntry {
                    last: self.keys@.subrange(self.start_of(i), self.ends@[i] as int),
                    at: self.blocks@[i],
                },
        )
    }

    pub closed spec fn inv(self) -> bool {
        &&& self.ends@.len() == self.blocks@.len()
        &&& forall|i: int|
            0 <= i < self.ends@.len() ==> #[trigger] self.start_of(i) + 8 <= self.ends@[i]
                <= self.keys@.len()
        &&& self.keys@.len() <= u32::MAX
        &&& self.ends@.len() > 0 ==> self.ends@.last() == self.keys@.len()
        &&& self.ends@.len() == 0 ==> self.keys@.len() == 0
    }

    fn new() -> (x: Self)
        ensures
            x.inv(),
            x.model() == Seq::<IndexEntry>::empty(),
            x.keys@.len() == 0,
    {
        let x = TableIndex { keys: Vec::new(), ends: Vec::new(), blocks: Vec::new() };
        assert(x.model() =~= Seq::<IndexEntry>::empty());
        x
    }

    fn push(&mut self, last: &[u8], at: BlockRef)
        requires
            old(self).inv(),
            is_ikey(last@),
            old(self).keys@.len() + last@.len() <= u32::MAX,
        ensures
            final(self).inv(),
            final(self).model() == old(self).model().push(IndexEntry { last: last@, at }),
            final(self).keys@.len() == old(self).keys@.len() + last@.len(),
    {
        let ghost before = *self;
        put_bytes(&mut self.keys, last);
        let end: u32 = self.keys.len() as u32;
        self.ends.push(end);
        self.blocks.push(at);
        proof {
            let want = before.model().push(IndexEntry { last: last@, at });
            let n = before.blocks@.len() as int;
            assert forall|i: int| 0 <= i < self.ends@.len() implies #[trigger] self.start_of(i) + 8
                <= self.ends@[i] <= self.keys@.len() by {
                if i < n {
                    assert(self.start_of(i) == before.start_of(i));
                    assert(before.start_of(i) + 8 <= before.ends@[i] <= before.keys@.len());
                } else if n > 0 {
                    assert(self.ends@[n - 1] == before.ends@[n - 1]);
                }
            }
            assert forall|i: int| 0 <= i < want.len() implies self.model()[i] == want[i] by {
                if i < n {
                    assert(self.start_of(i) == before.start_of(i));
                    assert(before.start_of(i) + 8 <= before.ends@[i] <= before.keys@.len());
                    assert(self.model()[i].last =~= before.model()[i].last);
                } else {
                    assert(self.model()[i].last =~= last@);
                }
            }
            assert(self.model() =~= want);
        }
    }

    pub fn len(&self) -> (n: usize)
        requires
            self.inv(),
        ensures
            n == self.model().len(),
    {
        self.blocks.len()
    }

    /// Last internal key of block `i`.
    pub fn key(&self, i: usize) -> (k: &[u8])
        requires
            self.inv(),
            i < self.model().len(),
        ensures
            k@ == self.model()[i as int].last,
            is_ikey(k@),
    {
        let start: usize = if i == 0 { 0 } else { self.ends[i - 1] as usize };
        assert(self.start_of(i as int) + 8 <= self.ends@[i as int] <= self.keys@.len());
        vstd::slice::slice_subrange(self.keys.as_slice(), start, self.ends[i] as usize)
    }

    /// Where block `i` lies.
    pub fn block(&self, i: usize) -> (r: BlockRef)
        requires
            self.inv(),
            i < self.model().len(),
        ensures
            r == self.model()[i as int].at,
    {
        self.blocks[i]
    }

    /// First entry whose key is `>= target`, where the keys ascend.
    pub fn lower_bound(&self, target: &[u8]) -> (n: usize)
        requires
            self.inv(),
            is_ikey(target@),
        ensures
            n <= self.model().len(),
            n == index_search(self.model(), target@),
    {
        let ghost es = self.model();
        let mut lo: usize = 0;
        let mut hi: usize = self.len();
        while lo < hi
            invariant
                self.inv(),
                is_ikey(target@),
                es == self.model(),
                lo <= hi <= es.len(),
                bisect(index_probe(es, target@), 0, es.len() as int) == bisect(
                    index_probe(es, target@),
                    lo as int,
                    hi as int,
                ),
            decreases hi - lo,
        {
            let mid: usize = lo + (hi - lo) / 2;
            assert(mid == (lo + hi) / 2);
            if ikey_lt(self.key(mid), target) {
                lo = mid + 1;
            } else {
                hi = mid;
            }
        }
        lo
    }
}

/// Whether the block of index entry `i` ends before the target.
pub open spec fn index_probe(es: Seq<IndexEntry>, target: Seq<u8>) -> spec_fn(int) -> Option<bool> {
    |i: int| Some(ikey_before(es[i].last, target))
}

/// The block that a search for the target leads to.
pub open spec fn index_search(es: Seq<IndexEntry>, target: Seq<u8>) -> int {
    bisect(index_probe(es, target), 0, es.len() as int)->Some_0
}

/// What a lookup in a table finds: the newest version of the key at or below the
/// seqno, or none; nothing at all where the block on its path cannot be read.
/// Other blocks play no part.
pub open spec fn table_lookup(bytes: Seq<u8>, m: TableModel, uk: Seq<u8>, seq: SeqNo) -> Option<
    Option<Kv>,
> {
    let n = index_search(m.index, seek_ikey(uk, seq));
    if !table_admits(m, uk) || n >= m.index.len() {
        Some(None)
    } else {
        match payload_at(bytes, m.index[n].at) {
            None => None,
            Some(d) => block_lookup(d, uk, seq),
        }
    }
}

/// The same within a block's payload.
pub open spec fn block_lookup(d: Seq<u8>, uk: Seq<u8>, seq: SeqNo) -> Option<Option<Kv>> {
    if !header_ok(d) {
        None
    } else {
        match block_search(d, seek_ikey(uk, seq)) {
            None => None,
            Some(i) => if i >= count_of(d) {
                Some(None)
            } else {
                match p_block_entry(d, i) {
                    None => None,
                    Some(kv) => Some(
                        if ukey_of(kv.key) == uk {
                            Some(kv)
                        } else {
                            None
                        },
                    ),
                }
            },
        }
    }
}

/// `uk` lies in the table's key range and the filter lets it through.
pub open spec fn table_admits(m: TableModel, uk: Seq<u8>) -> bool {
    lex_le(ukey_of(m.stats.first_ikey), uk) && lex_le(uk, ukey_of(m.stats.last_ikey))
        && filter_admits(m.filter, hash_of(uk))
}

/// What a read returns for what a lookup found: a version of an unknown kind is
/// corruption.
pub open spec fn table_answer(
    r: Result<Option<(ValueKind, SeqNo, Vec<u8>)>>,
    found: Option<Kv>,
) -> bool {
    match found {
        Some(kv) => if kind_of_byte(kind_byte_of(kv.key)) is Some {
            r matches Ok(Some(h)) && hit_is(h, kv)
        } else {
            r matches Err(Error::Corruption(_))
        },
        None => r matches Ok(None),
    }
}

/// What a read returns for a lookup: where something on its path could not be
/// read, an error that says so.
pub open spec fn lookup_answer(
    r: Result<Option<(ValueKind, SeqNo, Vec<u8>)>>,
    look: Option<Option<Kv>>,
) -> bool {
    match look {
        None => r matches Err(e) && (e is Corruption || e is Io),
        Some(found) => table_answer(r, found),
    }
}

/// Index entries in the order of their keys.
#[verifier::opaque]
pub open spec fn keys_ascend(es: Seq<IndexEntry>) -> bool {
    forall|i: int, j: int|
        0 <= i < j < es.len() ==> ikey_before((#[trigger] es[i]).last, (#[trigger] es[j]).last)
}

proof fn lemma_keys_ascend(es: Seq<IndexEntry>, i: int, j: int)
    requires
        keys_ascend(es),
        0 <= i < j < es.len(),
    ensures
        ikey_before(es[i].last, es[j].last),
{
    reveal(keys_ascend);
}

/// Where the index keys ascend, the search leads to the first block that does not
/// end before the target.
proof fn lemma_index_search(es: Seq<IndexEntry>, target: Seq<u8>) -> (n: int)
    requires
        keys_ascend(es),
        is_ikey(target),
    ensures
        0 <= n <= es.len(),
        n == index_search(es, target),
        forall|k: int| 0 <= k < n ==> ikey_before((#[trigger] es[k]).last, target),
        n < es.len() ==> !ikey_before(es[n].last, target),
{
    let n = lemma_index_split(es, target, es.len() as int);
    assert forall|i: int| 0 <= i < es.len() implies #[trigger] index_probe(es, target)(i) == Some(
        i < n,
    ) by {}
    lemma_bisect_parts(index_probe(es, target), 0, es.len() as int, n);
    n
}

proof fn lemma_index_split(es: Seq<IndexEntry>, target: Seq<u8>, m: int) -> (n: int)
    requires
        keys_ascend(es),
        0 <= m <= es.len(),
    ensures
        0 <= n <= m,
        forall|k: int| 0 <= k < n ==> ikey_before((#[trigger] es[k]).last, target),
        forall|k: int| n <= k < m ==> !ikey_before((#[trigger] es[k]).last, target),
    decreases m,
{
    if m == 0 {
        0
    } else if ikey_before(es[m - 1].last, target) {
        assert forall|k: int| 0 <= k < m implies ikey_before((#[trigger] es[k]).last, target) by {
            if k < m - 1 {
                lemma_keys_ascend(es, k, m - 1);
                lemma_ikey_transitive(es[k].last, es[m - 1].last, target);
            }
        }
        m
    } else {
        lemma_index_split(es, target, m - 1)
    }
}

/// An open table: the file's bytes with its pinned index, filter and
/// statistics.
pub struct Table {
    pub id: u64,
    pub data: Vec<u8>,
    pub index: TableIndex,
    pub filter: Vec<u8>,
    pub filter_at: BlockRef,
    pub stats: TableStats,
}

/// What is not after `a` is before what `a` is before.
proof fn lemma_upto_before(a: Seq<u8>, b: Seq<u8>, c: Seq<u8>)
    requires
        ikey_upto(a, b),
        ikey_before(b, c),
    ensures
        ikey_before(a, c),
{
    if a != b {
        lemma_ikey_transitive(a, b, c);
    }
}

proof fn lemma_upto_le(a: Seq<u8>, b: Seq<u8>)
    requires
        ikey_upto(a, b),
    ensures
        lex_le(ukey_of(a), ukey_of(b)),
{
}

fn slice_at<'a>(data: &'a [u8], r: BlockRef) -> (s: Result<&'a [u8]>)
    ensures
        match bytes_at(data@, r) {
            Some(b) => s matches Ok(x) && x@ == b,
            None => s matches Err(Error::Io(_)),
        },
{
    let n: u64 = data.len() as u64;
    if r.off > n || r.len as u64 > n - r.off {
        return Err(Error::Io("read past the end of the table file".to_string()));
    }
    let start: usize = r.off as usize;
    Ok(vstd::slice::slice_subrange(data, start, start + r.len as usize))
}

fn read_at(data: &[u8], r: BlockRef) -> (p: Result<Vec<u8>>)
    ensures
        match payload_at(data@, r) {
            Some(b) => p matches Ok(x) && x@ == b,
            None => p matches Err(e) && (e is Corruption || e is Io),
        },
{
    let s = slice_at(data, r)?;
    read_block_verified(s)
}

fn read_index(payload: &[u8]) -> (r: Result<TableIndex>)
    ensures
        match p_index(payload@) {
            Some(es) => if index_key_bytes(es) <= u32::MAX {
                r matches Ok(x) && x.inv() && x.model() == es
            } else {
                r matches Err(Error::Corruption(_))
            },
            None => r matches Err(Error::Corruption(_)),
        },
{
    let mut index = TableIndex::new();
    let mut r = Reader::new(payload);
    proof {
        let m = index.model();
        if let Some(es) = p_index(payload@) {
            assert(m + es =~= es);
        }
    }
    while !r.is_empty()
        invariant
            index.inv(),
            match (p_index(payload@), p_index(r.rest())) {
                (Some(es), Some(tail)) => es == index.model() + tail && index_key_bytes(es)
                    == index.keys@.len() + index_key_bytes(tail),
                (None, None) => true,
                _ => false,
            },
        decreases r.rest().len(),
    {
        let ghost here = r.rest();
        let ghost m = index.model();
        proof {
            lemma_index_entry_consumes(here);
        }
        let last_ikey = r.len_prefixed()?;
        if last_ikey.len() < 8 {
            return Err(corrupt("index key shorter than trailer"));
        }
        let off: u64 = r.uvarint()?;
        let len: u64 = r.uvarint()?;
        proof {
            if let Some(tail) = p_index(here) {
                let e = p_index_entry(here)->Some_0.0;
                let rest = p_index(r.rest())->Some_0;
                assert(tail =~= seq![e] + rest);
                assert(tail.skip(1) =~= rest);
                assert(m + tail =~= m.push(e) + rest);
            }
        }
        if last_ikey.len() > u32::MAX as usize - index.keys.len() {
            return Err(corrupt("index keys exceed u32 arena"));
        }
        #[verifier::truncate]
        let len32: u32 = len as u32;
        index.push(last_ikey, BlockRef { off, len: len32 });
    }
    proof {
        if let Some(es) = p_index(payload@) {
            assert(index.model() + Seq::<IndexEntry>::empty() =~= index.model());
        }
    }
    Ok(index)
}

impl Table {
    /// The file's bytes.
    pub closed spec fn bytes(self) -> Seq<u8> {
        self.data@
    }

    /// What was read at open.
    pub closed spec fn model(self) -> TableModel {
        TableModel {
            index: self.index.model(),
            filter: self.filter@,
            filter_at: self.filter_at,
            stats: self.stats@,
        }
    }

    pub closed spec fn inv(self) -> bool {
        &&& self.index.inv()
        &&& is_ikey(self.stats.first_ikey@)
        &&& is_ikey(self.stats.last_ikey@)
    }

    /// The table is as the builder writes it.
    pub closed spec fn sound(self) -> bool {
        self.inv() && table_sound(self.bytes(), self.model())
    }

    /// What a sound table's entries are like.
    pub proof fn lemma_sound(&self)
        requires
            self.sound(),
        ensures
            self.inv(),
            sorted(self.entries()),
            self.entries().len() > 0,
            self.model().stats.first_ikey == self.entries()[0].key,
            self.model().stats.last_ikey == self.entries().last().key,
    {
    }

    /// Every block of a sound table can be read.
    pub proof fn lemma_sound_reads(&self, k: int)
        requires
            self.sound(),
            0 <= k < self.model().index.len(),
        ensures
            block_reads(self.bytes(), self.model(), k),
    {
        assert(payload_at(self.bytes(), self.model().index[k].at) is Some);
    }

    /// The table is open, and every block that can be read is what a builder
    /// wrote.
    pub open spec fn intact(self) -> bool {
        self.inv() && table_intact(self.bytes(), self.model())
    }

    /// All entries that can be read.
    pub open spec fn entries(self) -> Seq<Kv> {
        table_entries(self.bytes(), self.model())
    }

    /// Where an entry of an intact table stands: in a block that can be read,
    /// above the block before, and not above its block's last key.
    proof fn lemma_entry_place(&self, x: int) -> (k: int)
        requires
            self.intact(),
            0 <= x < self.entries().len(),
        ensures
            ({
                let parts = self.parts();
                let m = self.model();
                let i = x - part_start(parts, k);
                &&& 0 <= k < m.index.len()
                &&& block_reads(self.bytes(), m, k)
                &&& 0 <= i < parts[k].len()
                &&& self.entries()[x] == parts[k][i]
                &&& part_start(parts, k) <= x < part_start(parts, k + 1)
                &&& is_ikey(parts[k][i].key)
                &&& ikey_upto(parts[k][i].key, m.index[k].last)
                &&& k > 0 ==> ikey_before(m.index[k - 1].last, parts[k][i].key)
                &&& k == 0 ==> ikey_upto(m.stats.first_ikey, parts[k][i].key)
            }),
    {
        reveal(table_intact);
        let parts = self.parts();
        let m = self.model();
        let k = lemma_flat_find(parts, x);
        let i = x - part_start(parts, k);
        lemma_flat_at(parts, k);
        assert(parts[k] == part_at(self.bytes(), m, k));
        assert(block_intact(self.bytes(), m, k));
        let es = parts[k];
        assert(sorted(es));
        assert(is_ikey(es[i].key));
        if i < es.len() - 1 {
            assert(ikey_before(es[i].key, es[es.len() - 1].key));
        }
        if i > 0 {
            assert(ikey_before(es[0].key, es[i].key));
            if k > 0 {
                lemma_ikey_transitive(m.index[k - 1].last, es[0].key, es[i].key);
            }
        }
        k
    }

    /// The entries of an intact table are in order, and lie in its range.
    pub proof fn lemma_intact(&self)
        requires
            self.intact(),
        ensures
            sorted(self.entries()),
            lex_le(ukey_of(self.model().stats.first_ikey), ukey_of(self.model().stats.last_ikey)),
            forall|x: int|
                0 <= x < self.entries().len() ==> lex_le(
                    ukey_of(self.model().stats.first_ikey),
                    ukey_of((#[trigger] self.entries()[x]).key),
                ) && lex_le(
                    ukey_of(self.entries()[x].key),
                    ukey_of(self.model().stats.last_ikey),
                ),
    {
        reveal(table_intact);
        let es = self.entries();
        let m = self.model();
        let n = m.index.len() as int;
        let first = ukey_of(m.stats.first_ikey);
        if n > 1 {
            assert(ikey_before(m.index[0].last, m.index[n - 1].last));
        }
        lemma_upto_le(m.index[0].last, m.index[n - 1].last);
        lemma_le_le(first, ukey_of(m.index[0].last), ukey_of(m.index[n - 1].last));
        assert forall|x: int| 0 <= x < es.len() implies is_ikey(#[trigger] es[x].key) && lex_le(
            first,
            ukey_of(es[x].key),
        ) && lex_le(ukey_of(es[x].key), ukey_of(m.stats.last_ikey)) by {
            let k = self.lemma_entry_place(x);
            lemma_upto_le(es[x].key, m.index[k].last);
            if k < n - 1 {
                assert(ikey_before(m.index[k].last, m.index[n - 1].last));
            }
            lemma_upto_le(m.index[k].last, m.index[n - 1].last);
            lemma_le_le(
                ukey_of(es[x].key),
                ukey_of(m.index[k].last),
                ukey_of(m.index[n - 1].last),
            );
            if k == 0 {
                lemma_upto_le(m.stats.first_ikey, es[x].key);
            } else {
                if k > 1 {
                    assert(ikey_before(m.index[0].last, m.index[k - 1].last));
                }
                lemma_upto_le(m.index[0].last, m.index[k - 1].last);
                lemma_upto_le(m.index[k - 1].last, es[x].key);
                lemma_le_le(first, ukey_of(m.index[0].last), ukey_of(m.index[k - 1].last));
                lemma_le_le(first, ukey_of(m.index[k - 1].last), ukey_of(es[x].key));
            }
        }
        assert forall|x: int, y: int| 0 <= x < y < es.len() implies ikey_before(
            #[trigger] es[x].key,
            #[trigger] es[y].key,
        ) by {
            let parts = self.parts();
            let k = self.lemma_entry_place(x);
            let l = self.lemma_entry_place(y);
            if l < k {
                lemma_part_start_monotone(parts, l + 1, k);
            }
            if k == l {
                assert(block_intact(self.bytes(), m, k));
                assert(sorted(parts[k]));
                assert(ikey_before(
                    parts[k][x - part_start(parts, k)].key,
                    parts[k][y - part_start(parts, k)].key,
                ));
            } else {
                if k < l - 1 {
                    assert(ikey_before(m.index[k].last, m.index[l - 1].last));
                }
                lemma_upto_before(m.index[k].last, m.index[l - 1].last, es[y].key);
                lemma_upto_before(es[x].key, m.index[k].last, es[y].key);
            }
        }
    }

    /// The index of an intact table is in order, and every block that can be
    /// read is as it should be.
    pub proof fn lemma_intact_index(&self)
        requires
            self.intact(),
        ensures
            self.model().index.len() > 0,
            keys_ascend(self.model().index),
            forall|k: int|
                0 <= k < self.model().index.len() ==> is_ikey(
                    (#[trigger] self.model().index[k]).last,
                ),
            forall|k: int|
                0 <= k < self.model().index.len() ==> #[trigger] block_intact(
                    self.bytes(),
                    self.model(),
                    k,
                ),
    {
        reveal(table_intact);
        reveal(keys_ascend);
    }

    proof fn lemma_intact_keys(&self)
        requires
            self.intact(),
        ensures
            keys_ascend(self.model().index),
    {
        self.lemma_intact_index();
    }

    /// What is known of a block that can be read.
    pub proof fn lemma_read_block(&self, k: int)
        requires
            self.intact(),
            0 <= k < self.model().index.len(),
            block_reads(self.bytes(), self.model(), k),
        ensures
            ({
                let d = payload_at(self.bytes(), self.model().index[k].at)->Some_0;
                &&& block_ok(d)
                &&& self.parts()[k] == block_entries(d)
                &&& self.parts()[k].len() > 0
                &&& self.parts()[k].last().key == self.model().index[k].last
            }),
    {
        self.lemma_intact_index();
        assert(block_intact(self.bytes(), self.model(), k));
    }

    /// Where an entry of a block stands among all entries.
    pub proof fn lemma_part_entry(&self, k: int, i: int) -> (y: int)
        requires
            0 <= k < self.model().index.len(),
            0 <= i < part_at(self.bytes(), self.model(), k).len(),
        ensures
            0 <= y < self.entries().len(),
            self.entries()[y] == part_at(self.bytes(), self.model(), k)[i],
    {
        let parts = self.parts();
        assert(parts[k] == part_at(self.bytes(), self.model(), k));
        lemma_flat_at(parts, k);
        lemma_part_start_monotone(parts, k + 1, k + 1);
        part_start(parts, k) + i
    }

    /// The block that an entry stands in, and its place there.
    pub proof fn lemma_entry_bounds(&self, y: int) -> (r: (int, int))
        requires
            self.intact(),
            0 <= y < self.entries().len(),
        ensures
            ({
                let m = self.model();
                let (k, i) = r;
                let uk = ukey_of(self.entries()[y].key);
                &&& 0 <= k < m.index.len()
                &&& 0 <= i < part_at(self.bytes(), m, k).len()
                &&& self.entries()[y] == part_at(self.bytes(), m, k)[i]
                &&& lex_le(uk, ukey_of(m.index[k].last))
                &&& lex_le(
                    if k <= 0 {
                        ukey_of(m.stats.first_ikey)
                    } else {
                        ukey_of(m.index[k - 1].last)
                    },
                    uk,
                )
            }),
    {
        let k = self.lemma_entry_place(y);
        let m = self.model();
        assert(self.parts()[k] == part_at(self.bytes(), m, k));
        lemma_upto_le(self.entries()[y].key, m.index[k].last);
        if k > 0 {
            lemma_upto_le(m.index[k - 1].last, self.entries()[y].key);
        } else {
            lemma_upto_le(m.stats.first_ikey, self.entries()[y].key);
        }
        (k, y - part_start(self.parts(), k))
    }

    /// Entries of earlier blocks, and earlier ones of a block, come first.
    pub proof fn lemma_blocks_ordered(&self, k: int, i: int, l: int, j: int)
        requires
            self.intact(),
            0 <= k <= l < self.model().index.len(),
            0 <= i < part_at(self.bytes(), self.model(), k).len(),
            0 <= j < part_at(self.bytes(), self.model(), l).len(),
            k < l || i < j,
        ensures
            ikey_before(
                part_at(self.bytes(), self.model(), k)[i].key,
                part_at(self.bytes(), self.model(), l)[j].key,
            ),
    {
        let parts = self.parts();
        let es = self.entries();
        assert(parts[k] == part_at(self.bytes(), self.model(), k));
        assert(parts[l] == part_at(self.bytes(), self.model(), l));
        lemma_flat_at(parts, k);
        lemma_flat_at(parts, l);
        let x = part_start(parts, k) + i;
        let y = part_start(parts, l) + j;
        if k < l {
            lemma_part_start_monotone(parts, k + 1, l);
        }
        lemma_part_start_monotone(parts, l + 1, l + 1);
        self.lemma_intact();
        assert(es[x] == parts[k][i] && es[y] == parts[l][j]);
        assert(ikey_before(es[x].key, es[y].key));
    }

    /// An intact table admits every key that it holds.
    pub proof fn lemma_holds_admits(&self, i: int)
        requires
            self.intact(),
            0 <= i < self.entries().len(),
        ensures
            self.admits(ukey_of(self.entries()[i].key)),
    {
        self.lemma_intact();
        let k = self.lemma_entry_place(i);
        self.lemma_intact_index();
        assert(block_intact(self.bytes(), self.model(), k));
        let part = part_at(self.bytes(), self.model(), k);
        assert(self.parts()[k] == part);
        let j = i - part_start(self.parts(), k);
        assert(filter_admits(self.model().filter, hash_of(ukey_of(part[j].key))));
    }

    #[verifier::spinoff_prover]
    #[verifier::rlimit(60)]
    pub proof fn lemma_sound_is_intact(&self)
        requires
            self.sound(),
        ensures
            self.intact(),
    {
        let m = self.model();
        let parts = self.parts();
        let es = self.entries();
        self.lemma_index_ordered();
        reveal(keys_ascend);
        reveal(table_intact);
        assert forall|k: int| 0 <= k < m.index.len() implies is_ikey((#[trigger] m.index[k]).last) by {
            assert(parts[k].last().key == m.index[k].last);
            lemma_flat_at(parts, k);
            let x = part_start(parts, k) + parts[k].len() - 1;
            assert(es[x] == parts[k].last());
            assert(is_ikey(es[x].key));
        }
        lemma_flat_at(parts, 0);
        assert(part_start(parts, 0) == 0) by {
            assert(parts.take(0) =~= Seq::<Seq<Kv>>::empty());
        }
        assert(es[0] == parts[0][0]);
        lemma_ukeys_ascend(es, 0, parts[0].len() - 1);
        assert(es[parts[0].len() - 1] == parts[0].last());
        let n = parts.len() as int;
        lemma_flat_at(parts, n - 1);
        assert(es[part_start(parts, n - 1) + parts[n - 1].len() - 1] == parts[n - 1].last());
        assert(part_start(parts, n) == es.len()) by {
            assert(parts.take(n) =~= parts);
        }
        assert forall|k: int| 0 <= k < m.index.len() implies #[trigger] block_intact(
            self.bytes(),
            m,
            k,
        ) by {
            self.lemma_sound_block(k);
        }
    }

    proof fn lemma_sound_block(&self, k: int)
        requires
            self.sound(),
            0 <= k < self.model().index.len(),
        ensures
            block_intact(self.bytes(), self.model(), k),
    {
        let m = self.model();
        let parts = self.parts();
        let es = self.entries();
        self.lemma_index_ordered();
        assert(payload_at(self.bytes(), m.index[k].at) is Some);
        let part = part_at(self.bytes(), m, k);
        assert(parts[k] == part);
        lemma_flat_at(parts, k);
        let start = part_start(parts, k);
        assert(es[start] == part[0]);
        if k > 0 {
            lemma_flat_at(parts, k - 1);
            assert(es[start - 1] == parts[k - 1].last());
            assert(ikey_before(es[start - 1].key, es[start].key));
        } else {
            assert(parts.take(0) =~= Seq::<Seq<Kv>>::empty());
        }
        assert forall|i: int| 0 <= i < part.len() implies filter_admits(
            m.filter,
            hash_of(ukey_of(#[trigger] part[i].key)),
        ) by {
            assert(es[start + i] == part[i]);
            assert(filter_admits(m.filter, hash_of(ukey_of(es[start + i].key))));
        }
    }

    /// An intact table of which every block can be read is sound.
    pub proof fn lemma_read_is_sound(&self)
        requires
            self.intact(),
            forall|k: int|
                0 <= k < self.model().index.len() ==> #[trigger] block_reads(
                    self.bytes(),
                    self.model(),
                    k,
                ),
        ensures
            self.sound(),
    {
        let m = self.model();
        let parts = self.parts();
        let es = self.entries();
        let n = m.index.len() as int;
        self.lemma_intact();
        reveal(table_intact);
        assert forall|k: int| 0 <= k < m.index.len() implies {
            &&& (#[trigger] payload_at(self.bytes(), m.index[k].at)) matches Some(d)
            &&& block_ok(d)
            &&& block_entries(d).len() > 0
            &&& block_entries(d).last().key == m.index[k].last
        } by {
            assert(block_reads(self.bytes(), m, k));
            assert(block_intact(self.bytes(), m, k));
        }
        assert(block_reads(self.bytes(), m, 0) && block_intact(self.bytes(), m, 0));
        assert(block_reads(self.bytes(), m, n - 1) && block_intact(self.bytes(), m, n - 1));
        assert(parts[0] == part_at(self.bytes(), m, 0));
        assert(parts[n - 1] == part_at(self.bytes(), m, n - 1));
        lemma_flat_at(parts, 0);
        assert(part_start(parts, 0) == 0) by {
            assert(parts.take(0) =~= Seq::<Seq<Kv>>::empty());
        }
        assert(es[0] == parts[0][0]);
        lemma_flat_at(parts, n - 1);
        assert(part_start(parts, n) == es.len()) by {
            assert(parts.take(n) =~= parts);
        }
        assert(es.last() == parts[n - 1].last());
        assert forall|i: int| 0 <= i < es.len() implies filter_admits(
            m.filter,
            hash_of(ukey_of(#[trigger] es[i].key)),
        ) by {
            self.lemma_holds_admits(i);
        }
    }

    pub open spec fn parts(self) -> Seq<Seq<Kv>> {
        table_parts(self.bytes(), self.model())
    }

    /// `uk` lies in the table's key range and the filter lets it through.
    pub open spec fn admits(self, uk: Seq<u8>) -> bool {
        table_admits(self.model(), uk)
    }

    /// Open a table from its file's bytes. Damage to footer, filter, index or
    /// statistics surfaces here; data blocks are read on demand.
    pub fn open(data: Vec<u8>, id: u64) -> (r: Result<Table>)
        ensures
            match p_table(data@) {
                Some(m) => r matches Ok(t) && t.inv() && t.bytes() == data@ && t.model() == m
                    && t.id == id && t.sound() == table_sound(data@, m),
                None => r matches Err(e) && (e is Corruption || e is Io),
            },
    {
        let n: usize = data.len();
        if n < FOOTER_LEN {
            return Err(corrupt("table smaller than footer"));
        }
        let tail = vstd::slice::slice_subrange(data.as_slice(), n - FOOTER_LEN, n);
        assert(tail@ =~= data@.skip(data@.len() - 48));
        let footer = Footer::decode(tail)?;
        let filter = read_at(data.as_slice(), footer.filter)?;
        let stats_payload = read_at(data.as_slice(), footer.stats)?;
        let stats = TableStats::decode(stats_payload.as_slice())?;
        let index_payload = read_at(data.as_slice(), footer.index)?;
        let index = read_index(index_payload.as_slice())?;
        if index.len() == 0 {
            return Err(corrupt("table has no data blocks"));
        }
        Ok(Table { id, data, index, filter, filter_at: footer.filter, stats })
    }

    /// The least user key.
    pub fn min_ukey(&self) -> (k: &[u8])
        requires
            self.inv(),
        ensures
            k@ == ukey_of(self.model().stats.first_ikey),
    {
        self.stats.min_ukey()
    }

    /// The greatest user key.
    pub fn max_ukey(&self) -> (k: &[u8])
        requires
            self.inv(),
        ensures
            k@ == ukey_of(self.model().stats.last_ikey),
    {
        self.stats.max_ukey()
    }

    /// The greatest internal key.
    pub fn last_ikey(&self) -> (k: &[u8])
        requires
            self.inv(),
        ensures
            k@ == self.model().stats.last_ikey,
            is_ikey(k@),
    {
        self.stats.last_ikey.as_slice()
    }

    /// Last internal key of block `i`.
    pub fn block_last(&self, i: usize) -> (k: &[u8])
        requires
            self.inv(),
            i < self.model().index.len(),
        ensures
            k@ == self.model().index[i as int].last,
            is_ikey(k@),
    {
        self.index.key(i)
    }

    pub fn block_count(&self) -> (n: usize)
        requires
            self.inv(),
        ensures
            n == self.model().index.len(),
    {
        self.index.len()
    }

    /// Raw byte range of the table file (replication chunk serving); `len`
    /// is clamped to the file end.
    pub fn read_chunk(&self, off: u64, len: usize) -> (r: Result<Vec<u8>>)
        ensures
            r is Ok <==> off < self.bytes().len(),
            r matches Ok(v) ==> is_chunk(self.bytes(), off as int, len as int, v@),
            if off >= self.bytes().len() {
                r matches Err(Error::Corruption(_))
            } else {
                r matches Ok(v) && v@ == self.bytes().subrange(
                    off as int,
                    (if off + len <= self.bytes().len() {
                        off + len
                    } else {
                        self.bytes().len() as int
                    }),
                )
            },
    {
        let flen: usize = self.data.len();
        if off >= flen as u64 {
            return Err(corrupt("chunk offset beyond table end"));
        }
        let start: usize = off as usize;
        let n: usize = if len <= flen - start { len } else { flen - start };
        Ok(to_bytes(vstd::slice::slice_subrange(self.data.as_slice(), start, start + n)))
    }

    /// Block `idx`, verified and parsed.
    pub fn load_block(&self, idx: usize) -> (r: Result<Block>)
        requires
            self.inv(),
            idx < self.model().index.len(),
        ensures
            match r {
                Ok(b) => payload_at(self.bytes(), self.model().index[idx as int].at) == Some(
                    b.payload(),
                ),
                Err(e) => e is Corruption || e is Io,
            },
            r is Ok <==> (payload_at(self.bytes(), self.model().index[idx as int].at) matches Some(
                d,
            ) && header_ok(d)),
            self.sound() ==> r is Ok,
    {
        let at = self.index.block(idx);
        proof {
            if self.sound() {
                assert(payload_at(self.bytes(), self.model().index[idx as int].at) is Some);
            }
        }
        let payload = read_at(self.data.as_slice(), at)?;
        Block::new(payload)
    }

    /// Whether the table may hold a version of `ukey`; `false` means that it
    /// holds none.
    pub fn may_contain_ukey(&self, ukey: &[u8]) -> (b: bool)
        requires
            self.inv(),
        ensures
            b == self.admits(ukey@),
            self.intact() && !b ==> forall|i: int|
                0 <= i < self.entries().len() ==> ukey_of(#[trigger] self.entries()[i].key)
                    != ukey@,
    {
        let ghost es = self.entries();
        proof {
            let lo = ukey_of(self.model().stats.first_ikey);
            let hi = ukey_of(self.model().stats.last_ikey);
            lemma_lex_total(lo, ukey@);
            lemma_lex_total(ukey@, hi);
            lemma_lex_irreflexive(ukey@);
            if lex_lt(ukey@, lo) {
                lemma_lex_asymmetric(ukey@, lo);
            }
            if lex_lt(hi, ukey@) {
                lemma_lex_asymmetric(hi, ukey@);
            }
            if self.intact() {
                assert forall|i: int| 0 <= i < es.len() && ukey_of(#[trigger] es[i].key)
                    == ukey@ implies lex_le(lo, ukey@) && lex_le(ukey@, hi) && filter_admits(
                    self.model().filter,
                    hash_of(ukey@),
                ) by {
                    self.lemma_holds_admits(i);
                }
            }
        }
        if bytes_lt(ukey, self.stats.min_ukey()) || bytes_lt(self.stats.max_ukey(), ukey) {
            return false;
        }
        bloom::may_contain(self.filter.as_slice(), bloom::hash64(ukey))
    }

    /// In a sound table every piece is under its last key, and the index keys
    /// ascend.
    proof fn lemma_index_ordered(&self)
        requires
            self.sound(),
        ensures
            keys_ascend(self.model().index),
            self.parts().len() == self.model().index.len(),
            forall|k: int|
                0 <= k < self.parts().len() ==> (#[trigger] self.parts()[k]).len() > 0
                    && self.parts()[k].last().key == self.model().index[k].last,
    {
        let parts = self.parts();
        let es = self.model().index;
        assert forall|k: int| 0 <= k < parts.len() implies (#[trigger] parts[k]).len() > 0
            && parts[k].last().key == es[k].last by {
            assert(payload_at(self.bytes(), self.model().index[k].at) is Some);
        }
        assert forall|i: int, j: int| 0 <= i < j < es.len() implies ikey_before(
            (#[trigger] es[i]).last,
            (#[trigger] es[j]).last,
        ) by {
            lemma_part_lasts_ascend(parts, i, j);
        }
        reveal(keys_ascend);
    }

    /// A lookup in an intact table finds what the entries hold, wherever it can
    /// be made.
    pub proof fn lemma_intact_lookup(&self, uk: Seq<u8>, seq: SeqNo)
        requires
            self.intact(),
            seq <= MAX_SEQNO,
        ensures
            table_lookup(self.bytes(), self.model(), uk, seq) matches Some(hit) ==> hit
                == find_newest(self.entries(), uk, seq as nat),
    {
        let m = self.model();
        let bi = index_search(m.index, seek_ikey(uk, seq));
        if !self.admits(uk) {
            self.lemma_not_admitted_lookup(uk, seq);
        } else if bi >= m.index.len() {
            self.lemma_past_lookup(uk, seq);
        } else if block_reads(self.bytes(), m, bi) {
            self.lemma_block_lookup(uk, seq);
        }
    }

    proof fn lemma_not_admitted_lookup(&self, uk: Seq<u8>, seq: SeqNo)
        requires
            self.intact(),
            !self.admits(uk),
        ensures
            find_newest(self.entries(), uk, seq as nat) is None,
    {
        let es = self.entries();
        if exists|i: int| found_at(es, uk, seq as nat, i) {
            let i = choose|i: int| found_at(es, uk, seq as nat, i);
            self.lemma_holds_admits(i);
        }
    }

    /// A search that leads past the last block: nothing is at or behind it.
    proof fn lemma_past_lookup(&self, uk: Seq<u8>, seq: SeqNo)
        requires
            self.intact(),
            seq <= MAX_SEQNO,
            index_search(self.model().index, seek_ikey(uk, seq)) >= self.model().index.len(),
        ensures
            find_newest(self.entries(), uk, seq as nat) is None,
    {
        let es = self.entries();
        let parts = self.parts();
        let target = seek_ikey(uk, seq);
        lemma_ikey_from(uk, seq as nat * 256 + 255);
        self.lemma_intact();
        self.lemma_intact_index();
        let bi = lemma_index_search(self.model().index, target);
        assert(part_start(parts, bi) == es.len()) by {
            assert(parts.take(bi) =~= parts);
        }
        assert forall|x: int| 0 <= x < es.len() implies ikey_before(#[trigger] es[x].key, target) by {
            self.lemma_before_block(target, bi, x);
        }
        assert(is_lower_bound(es, target, es.len() as int));
        lemma_lookup(es, uk, seq, es.len() as int);
    }

    /// A search that leads to a block that can be read.
    #[verifier::spinoff_prover]
    #[verifier::rlimit(60)]
    proof fn lemma_block_lookup(&self, uk: Seq<u8>, seq: SeqNo)
        requires
            self.intact(),
            seq <= MAX_SEQNO,
            ({
                let bi = index_search(self.model().index, seek_ikey(uk, seq));
                bi < self.model().index.len() && block_reads(self.bytes(), self.model(), bi)
            }),
        ensures
            ({
                let bi = index_search(self.model().index, seek_ikey(uk, seq));
                let d = payload_at(self.bytes(), self.model().index[bi].at)->Some_0;
                block_lookup(d, uk, seq) == Some(find_newest(self.entries(), uk, seq as nat))
            }),
    {
        let es = self.entries();
        let parts = self.parts();
        let m = self.model();
        let target = seek_ikey(uk, seq);
        lemma_ikey_from(uk, seq as nat * 256 + 255);
        self.lemma_intact_keys();
        let bi = lemma_index_search(m.index, target);
        self.lemma_read_block(bi);
        let d = payload_at(self.bytes(), m.index[bi].at)->Some_0;
        lemma_block_search(d, target);
        let i = block_search(d, target)->Some_0;
        let last = parts[bi].len() - 1;
        if i > last {
            assert(ikey_before(parts[bi][last].key, target));
        }
        self.lemma_intact_bound(target, bi, i);
        self.lemma_intact();
        assert(p_block_entry(d, i) is Some);
        assert(parts[bi].len() == count_of(d));
        assert(parts[bi][i] == p_block_entry(d, i)->Some_0);
        let x = part_start(parts, bi) + i;
        lemma_flat_at(parts, bi);
        assert(es[x] == parts[bi][i]);
        lemma_lookup(es, uk, seq, x);
        assert(block_lookup(d, uk, seq) == Some(
            if ukey_of(es[x].key) == uk {
                Some(es[x])
            } else {
                None
            },
        ));
    }

    /// An entry of a block whose last key is before the target is before it.
    proof fn lemma_before_block(&self, target: Seq<u8>, bi: int, x: int)
        requires
            self.intact(),
            0 <= bi <= self.model().index.len(),
            forall|k: int|
                0 <= k < bi ==> ikey_before((#[trigger] self.model().index[k]).last, target),
            0 <= x < self.entries().len(),
            x < part_start(self.parts(), bi),
        ensures
            ikey_before(self.entries()[x].key, target),
    {
        let k = self.lemma_entry_place(x);
        if k >= bi {
            lemma_part_start_monotone(self.parts(), bi, k);
        }
        assert(ikey_before(self.model().index[k].last, target));
        lemma_upto_before(self.entries()[x].key, self.model().index[k].last, target);
    }

    /// The place of a target in its block is its place among the entries.
    proof fn lemma_intact_bound(&self, target: Seq<u8>, bi: int, i: int)
        requires
            self.intact(),
            0 <= bi < self.model().index.len(),
            forall|k: int|
                0 <= k < bi ==> ikey_before((#[trigger] self.model().index[k]).last, target),
            0 <= i < self.parts()[bi].len(),
            is_lower_bound(self.parts()[bi], target, i),
        ensures
            is_lower_bound(self.entries(), target, part_start(self.parts(), bi) + i),
            self.entries()[part_start(self.parts(), bi) + i] == self.parts()[bi][i],
    {
        let es = self.entries();
        let parts = self.parts();
        let start = part_start(parts, bi);
        let x = start + i;
        self.lemma_intact();
        lemma_flat_at(parts, bi);
        assert(es[x] == parts[bi][i]);
        assert forall|y: int| 0 <= y < x implies ikey_before(#[trigger] es[y].key, target) by {
            if y < start {
                self.lemma_before_block(target, bi, y);
            } else {
                assert(es[y] == parts[bi][y - start]);
            }
        }
        assert forall|y: int| x <= y < es.len() implies !ikey_before(
            #[trigger] es[y].key,
            target,
        ) by {
            if y > x && ikey_before(es[y].key, target) {
                assert(ikey_before(es[x].key, es[y].key));
                lemma_ikey_transitive(es[x].key, es[y].key, target);
            }
        }
    }

    /// In a table as the builder writes it, a lookup finds what the entries hold.
    pub proof fn lemma_sound_lookup(&self, uk: Seq<u8>, seq: SeqNo)
        requires
            self.sound(),
            seq <= MAX_SEQNO,
        ensures
            table_lookup(self.bytes(), self.model(), uk, seq) == Some(
                find_newest(self.entries(), uk, seq as nat),
            ),
    {
        let m = self.model();
        let target = seek_ikey(uk, seq);
        self.lemma_sound_is_intact();
        self.lemma_intact_lookup(uk, seq);
        lemma_ikey_from(uk, seq as nat * 256 + 255);
        if self.admits(uk) {
            self.lemma_index_ordered();
            let bi = lemma_index_search(m.index, target);
            if bi < m.index.len() {
                assert(payload_at(self.bytes(), m.index[bi].at) is Some);
                let d = payload_at(self.bytes(), m.index[bi].at)->Some_0;
                lemma_block_search(d, target);
                let i = block_search(d, target)->Some_0;
                if i < count_of(d) {
                    assert(p_block_entry(d, i) is Some);
                }
            }
        }
    }

    /// Newest version of `ukey` with `seqno <= seq` in this table.
    pub fn get(&self, ukey: &[u8], seq: SeqNo) -> (r: Result<Option<(ValueKind, SeqNo, Vec<u8>)>>)
        requires
            self.inv(),
            seq <= MAX_SEQNO,
        ensures
            lookup_answer(r, table_lookup(self.bytes(), self.model(), ukey@, seq)),
    {
        if !self.may_contain_ukey(ukey) {
            return Ok(None);
        }
        let target = make_seek_ikey(ukey, seq);
        proof {
            lemma_ikey_from(ukey@, seq as nat * 256 + 255);
        }
        let bi: usize = self.index.lower_bound(target.as_slice());
        if bi >= self.index.len() {
            return Ok(None);
        }
        let block = self.load_block(bi)?;
        let i: usize = block.lower_bound(target.as_slice())?;
        if i >= block.count() {
            return Ok(None);
        }
        let (ik, repr) = block.entry(i)?;
        if !bytes_eq(ikey_ukey(ik), ukey) {
            return Ok(None);
        }
        let kind = ikey_kind(ik)?;
        Ok(Some((kind, ikey_seqno(ik), to_bytes(repr))))
    }

    /// Every block, verified and parsed.
    pub fn load_blocks(&self) -> (r: Result<Vec<Block>>)
        requires
            self.inv(),
        ensures
            r matches Ok(bs) ==> self.holds_blocks(bs@),
            r matches Err(e) ==> e is Corruption || e is Io,
            self.sound() ==> r is Ok,
    {
        let mut out: Vec<Block> = Vec::new();
        let mut i: usize = 0;
        while i < self.index.len()
            invariant
                self.inv(),
                i <= self.model().index.len(),
                out@.len() == i,
                forall|k: int|
                    0 <= k < i ==> payload_at(
                        self.bytes(),
                        #[trigger] self.model().index[k].at,
                    ) == Some(out@[k].payload()) && header_ok(out@[k].payload()),
            decreases self.model().index.len() - i,
        {
            let b = self.load_block(i)?;
            out.push(b);
            i += 1;
        }
        Ok(out)
    }

    /// `bs` are the table's blocks.
    pub open spec fn holds_blocks(self, bs: Seq<Block>) -> bool {
        &&& bs.len() == self.model().index.len()
        &&& forall|k: int|
            0 <= k < bs.len() ==> payload_at(self.bytes(), #[trigger] self.model().index[k].at)
                == Some(bs[k].payload()) && header_ok(bs[k].payload())
    }

    /// A cursor over the table, not positioned yet.
    pub fn iter<'a>(&self, blocks: &'a Vec<Block>) -> (it: TableIter<'a>)
        requires
            self.sound(),
            self.holds_blocks(blocks@),
        ensures
            it.inv(),
            it.entries() == self.entries(),
            it.pos() == -1,
    {
        let mut children: Vec<BlockIter<'a>> = Vec::new();
        let mut lasts: Vec<Vec<u8>> = Vec::new();
        let ghost parts = self.parts();
        let mut i: usize = 0;
        while i < blocks.len()
            invariant
                self.sound(),
                self.holds_blocks(blocks@),
                parts == self.parts(),
                i <= blocks@.len(),
                children@.len() == i,
                lasts@.len() == i,
                forall|k: int|
                    0 <= k < i ==> (#[trigger] children@[k]).inv() && children@[k].entries()
                        == parts[k] && children@[k].pos() == -1,
                forall|k: int| 0 <= k < i ==> (#[trigger] lasts@[k])@ == parts[k].last().key,
            decreases blocks@.len() - i,
        {
            proof {
                assert(payload_at(self.bytes(), self.model().index[i as int].at) is Some);
            }
            children.push(BlockIter::new(&blocks[i]));
            lasts.push(to_bytes(self.index.key(i)));
            i += 1;
        }
        proof {
            assert(parts_of(children@) =~= parts);
            assert forall|k: int| 0 <= k < children@.len() implies (
            #[trigger] children@[k]).entries().len() > 0 by {
                assert(payload_at(self.bytes(), self.model().index[k].at) is Some);
            }
        }
        ConcatIter::new(children, lasts)
    }
}

/// Cursor over one table.
pub type TableIter<'a> = ConcatIter<BlockIter<'a>>;

/// The bytes are those of the file from `off` on, as many as were asked for or as
/// there are.
pub open spec fn is_chunk(file: Seq<u8>, off: int, len: int, out: Seq<u8>) -> bool {
    &&& 0 <= off
    &&& off + out.len() <= file.len()
    &&& out == file.subrange(off, off + out.len())
    &&& out.len() == len || (out.len() < len && off + out.len() == file.len())
}

/// A file that is fetched chunk by chunk arrives whole: each chunk continues where
/// the one before it ended, and one that is shorter than what was asked for is the
/// last.
pub proof fn lemma_chunks_make_the_file(
    file: Seq<u8>,
    off: int,
    n: int,
    m: int,
    a: Seq<u8>,
    b: Seq<u8>,
)
    requires
        is_chunk(file, off, n, a),
        is_chunk(file, off + a.len(), m, b),
    ensures
        a + b == file.subrange(off, off + a.len() + b.len()),
        a.len() < n ==> off + a.len() == file.len(),
        off < file.len() && n > 0 ==> a.len() > 0,
{
    assert(a + b =~= file.subrange(off, off + a.len() + b.len()));
}

} // verus!
