//! The index half of an on-disk chunk.
//!
//! An index file starts with the 32-byte hash of the companion data file,
//! followed by one 24-byte record per entry: timestamp, data offset and
//! payload length, each a big-endian unsigned 64-bit number.

use vstd::prelude::*;

use crate::LogError;

verus! {

/// Size of the hash stored at the start of an index file, in bytes.
pub const HASH_SIZE: u64 = 32;

/// Size of one index record, in bytes.
pub const ENTRY_SIZE: u64 = 24;

/// One record of an index: where a payload lies in the data file and when
/// it was appended.
#[derive(Clone, Copy, Debug, PartialEq, Eq, Structural)]
pub struct IndexEntry {
    pub timestamp: u64,
    pub offset: u64,
    pub len: u64,
}

/// The big-endian bytes of a 64-bit number.
pub open spec fn be64(x: u64) -> Seq<u8> {
    seq![
        ((x >> 56) & 0xff) as u8,
        ((x >> 48) & 0xff) as u8,
        ((x >> 40) & 0xff) as u8,
        ((x >> 32) & 0xff) as u8,
        ((x >> 24) & 0xff) as u8,
        ((x >> 16) & 0xff) as u8,
        ((x >> 8) & 0xff) as u8,
        (x & 0xff) as u8,
    ]
}

/// The 64-bit number read back from 8 big-endian bytes.
pub open spec fn be64_val(s: Seq<u8>) -> u64
    recommends
        s.len() == 8,
{
    (((s[0] as u64) << 56) | ((s[1] as u64) << 48) | ((s[2] as u64) << 40) | ((s[3] as u64) << 32)
        | ((s[4] as u64) << 24) | ((s[5] as u64) << 16) | ((s[6] as u64) << 8) | (s[7] as u64))
}

/// Reading back the big-endian bytes of a number gives the number.
pub proof fn lemma_be64_roundtrip(x: u64)
    ensures
        be64_val(be64(x)) == x,
{
    assert((((((x >> 56) & 0xff) as u8) as u64) << 56) | (((((x >> 48) & 0xff) as u8) as u64)
        << 48) | (((((x >> 40) & 0xff) as u8) as u64) << 40) | (((((x >> 32) & 0xff) as u8) as u64)
        << 32) | (((((x >> 24) & 0xff) as u8) as u64) << 24) | (((((x >> 16) & 0xff) as u8) as u64)
        << 16) | (((((x >> 8) & 0xff) as u8) as u64) << 8) | (((x & 0xff) as u8) as u64) == x)
        by (bit_vector);
}

/// The 24 bytes of one index record.
pub open spec fn entry_bytes(e: IndexEntry) -> Seq<u8> {
    be64(e.timestamp) + be64(e.offset) + be64(e.len)
}

/// The byte encoding of a run of index records.
pub open spec fn entries_bytes(es: Seq<IndexEntry>) -> Seq<u8>
    decreases es.len(),
{
    if es.len() == 0 {
        Seq::empty()
    } else {
        entry_bytes(es[0]) + entries_bytes(es.drop_first())
    }
}

/// The whole index file: the data-file hash, then the records.
pub open spec fn index_file_bytes(hash: Seq<u8>, es: Seq<IndexEntry>) -> Seq<u8> {
    hash + entries_bytes(es)
}

/// The record read back from 24 bytes.
pub open spec fn decode_entry(s: Seq<u8>) -> IndexEntry
    recommends
        s.len() == 24,
{
    IndexEntry {
        timestamp: be64_val(s.subrange(0, 8)),
        offset: be64_val(s.subrange(8, 16)),
        len: be64_val(s.subrange(16, 24)),
    }
}

/// The records read back from the region of an index file after the hash.
pub open spec fn decode_entries(s: Seq<u8>) -> Seq<IndexEntry>
    decreases s.len(),
{
    if s.len() < 24 {
        Seq::empty()
    } else {
        seq![decode_entry(s.take(24))] + decode_entries(s.skip(24))
    }
}

/// Reading one record back from its encoding gives the record.
pub proof fn lemma_entry_roundtrip(e: IndexEntry)
    ensures
        decode_entry(entry_bytes(e)) == e,
{
    lemma_be64_roundtrip(e.timestamp);
    lemma_be64_roundtrip(e.offset);
    lemma_be64_roundtrip(e.len);
    assert(entry_bytes(e).subrange(0, 8) =~= be64(e.timestamp));
    assert(entry_bytes(e).subrange(8, 16) =~= be64(e.offset));
    assert(entry_bytes(e).subrange(16, 24) =~= be64(e.len));
}

/// Reading a run of records back from its encoding gives the run.
pub proof fn lemma_entries_roundtrip(es: Seq<IndexEntry>)
    ensures
        decode_entries(entries_bytes(es)) =~= es,
    decreases es.len(),
{
    if es.len() > 0 {
        let b = entries_bytes(es);
        assert(entry_bytes(es[0]).len() == 24);
        assert(b.take(24) =~= entry_bytes(es[0]));
        assert(b.skip(24) =~= entries_bytes(es.drop_first()));
        lemma_entry_roundtrip(es[0]);
        lemma_entries_roundtrip(es.drop_first());
        assert(decode_entries(b) =~= seq![es[0]] + es.drop_first());
    }
}

/// Each record in a well-sized region, by its position.
pub proof fn lemma_decode_entries_index(s: Seq<u8>, k: int)
    requires
        s.len() % 24 == 0,
        0 <= k < s.len() / 24,
    ensures
        decode_entries(s).len() == s.len() / 24,
        decode_entries(s)[k] == decode_entry(s.subrange(24 * k, 24 * k + 24)),
    decreases k,
{
    lemma_decode_entries_len(s);
    if k == 0 {
        assert(s.take(24) =~= s.subrange(0, 24));
    } else {
        lemma_decode_entries_index(s.skip(24), k - 1);
        assert(s.skip(24).subrange(24 * (k - 1), 24 * (k - 1) + 24) =~= s.subrange(
            24 * k,
            24 * k + 24,
        ));
    }
}

/// The count of decoded records in a well-sized region.
pub proof fn lemma_decode_entries_len(s: Seq<u8>)
    requires
        s.len() % 24 == 0,
    ensures
        decode_entries(s).len() == s.len() / 24,
    decreases s.len(),
{
    if s.len() >= 24 {
        lemma_decode_entries_len(s.skip(24));
    }
}

/// The encoded length of a run of records.
pub proof fn lemma_entries_bytes_len(es: Seq<IndexEntry>)
    ensures
        entries_bytes(es).len() == 24 * es.len(),
    decreases es.len(),
{
    if es.len() > 0 {
        lemma_entries_bytes_len(es.drop_first());
    }
}

/// The total payload length recorded by a run of index records.
pub open spec fn total_len(es: Seq<IndexEntry>) -> int
    decreases es.len(),
{
    if es.len() == 0 {
        0
    } else {
        total_len(es.drop_last()) + es.last().len
    }
}

pub proof fn lemma_total_len_nonneg(es: Seq<IndexEntry>)
    ensures
        total_len(es) >= 0,
    decreases es.len(),
{
    if es.len() > 0 {
        lemma_total_len_nonneg(es.drop_last());
    }
}

pub proof fn lemma_total_len_push(es: Seq<IndexEntry>, e: IndexEntry)
    ensures
        total_len(es.push(e)) == total_len(es) + e.len,
{
    assert(es.push(e).drop_last() =~= es);
    assert(es.push(e).last() == e);
}

/// Every record's offset is the sum of the lengths before it.
pub open spec fn offsets_ok(es: Seq<IndexEntry>) -> bool {
    forall|i: int| 0 <= i < es.len() ==> (#[trigger] es[i]).offset == total_len(es.take(i))
}

/// Timestamps are non-decreasing along the records.
pub open spec fn index_ts_sorted(es: Seq<IndexEntry>) -> bool {
    forall|i: int, j: int|
        0 <= i <= j < es.len() ==> #[trigger] es[i].timestamp <= #[trigger] es[j].timestamp
}

/// In a contiguous run, each record lies inside the total length.
pub proof fn lemma_entry_in_bounds(es: Seq<IndexEntry>, i: int)
    requires
        offsets_ok(es),
        0 <= i < es.len(),
    ensures
        es[i].offset + es[i].len <= total_len(es),
        es[i].offset == total_len(es.take(i)),
    decreases es.len(),
{
    lemma_total_len_nonneg(es);
    if i == es.len() - 1 {
        assert(es.take(i) =~= es.drop_last());
        assert(es.last() == es[i]);
    } else {
        let head = es.drop_last();
        assert forall|j: int| 0 <= j < head.len() implies (#[trigger] head[j]).offset == total_len(
            head.take(j),
        ) by {
            assert(es[j].offset == total_len(es.take(j)));
            assert(head.take(j) =~= es.take(j));
            assert(head[j] == es[j]);
        }
        lemma_entry_in_bounds(head, i);
        assert(head.take(i) =~= es.take(i));
        assert(es.last().len >= 0);
    }
}

/// Wrapper around the records of one index file.  Performs no semantic
/// validation on its own; `consistent` records what a validated index
/// satisfies, and `check_consistent` decides it.
pub struct Index {
    hash: Vec<u8>,
    entries: Vec<IndexEntry>,
    start_time: u64,
    end_time: u64,
}

impl Index {
    /// The stored hash of the companion data file.
    pub closed spec fn hash_spec(&self) -> Seq<u8> {
        self.hash@
    }

    /// The stored records.
    pub closed spec fn entries_spec(&self) -> Seq<IndexEntry> {
        self.entries@
    }

    /// The bookkeeping fields agree with the records.
    pub closed spec fn wf(&self) -> bool {
        &&& self.hash@.len() == 32
        &&& self.start_time == if self.entries@.len() == 0 {
            0
        } else {
            self.entries@[0].timestamp
        }
        &&& self.end_time == if self.entries@.len() == 0 {
            0
        } else {
            self.entries@.last().timestamp
        }
    }

    /// The records describe one contiguous run of payloads, in time order.
    pub open spec fn consistent(&self) -> bool {
        &&& offsets_ok(self.entries_spec())
        &&& index_ts_sorted(self.entries_spec())
        &&& total_len(self.entries_spec()) <= u64::MAX
    }

    /// Build the index for a run of payloads described by `info`, a list of
    /// `(payload length, timestamp)` pairs, against the given data-file
    /// hash.  Offsets are assigned contiguously from 0.
    pub fn new(hash: &[u8], info: Vec<(u64, u64)>) -> (r: Result<Index, LogError>)
        requires
            hash@.len() >= 32,
            info_total(info@) <= u64::MAX,
            info_ts_sorted(info@),
        ensures
            match r {
                Ok(ix) => {
                    &&& ix.wf()
                    &&& ix.consistent()
                    &&& ix.hash_spec() == hash@.subrange(0, 32)
                    &&& ix.entries_spec().len() == info@.len()
                    &&& forall|i: int|
                        0 <= i < info@.len() ==> (#[trigger] ix.entries_spec()[i]).timestamp
                            == info@[i].1 && ix.entries_spec()[i].len == info@[i].0
                },
                Err(_) => false,
            },
    {
        let mut hash_vec: Vec<u8> = Vec::with_capacity(32);
        let mut hi: usize = 0;
        while hi < 32
            invariant
                hash@.len() >= 32,
                hi <= 32,
                hash_vec@ =~= hash@.subrange(0, hi as int),
            decreases 32 - hi,
        {
            hash_vec.push(hash[hi]);
            assert(hash_vec@ =~= hash@.subrange(0, hi + 1));
            hi = hi + 1;
        }
        let mut entries: Vec<IndexEntry> = Vec::with_capacity(info.len());
        let mut offset: u64 = 0;
        let mut i: usize = 0;
        proof {
            assert(entries@.take(0) =~= Seq::<IndexEntry>::empty());
        }
        while i < info.len()
            invariant
                i <= info@.len(),
                info_total(info@) <= u64::MAX,
                info_ts_sorted(info@),
                entries@.len() == i,
                offset == info_total(info@.take(i as int)),
                offsets_ok(entries@),
                index_ts_sorted(entries@),
                forall|k: int|
                    0 <= k < i ==> (#[trigger] entries@[k]).timestamp == info@[k].1
                        && entries@[k].len == info@[k].0,
                total_len(entries@) == info_total(info@.take(i as int)),
            decreases info@.len() - i,
        {
            let (len, ts) = info[i];
            let e = IndexEntry { timestamp: ts, offset, len };
            proof {
                lemma_info_total_prefix(info@, i + 1);
                lemma_info_total_push_take(info@, i as int);
                lemma_info_total_nonneg(info@.take(i as int));
                lemma_total_len_push(entries@, e);
                assert(entries@.push(e).take(i as int) =~= entries@);
                assert forall|k: int| 0 <= k < entries@.push(e).len() implies (
                #[trigger] entries@.push(e)[k]).offset == total_len(entries@.push(e).take(k)) by {
                    if k < i {
                        assert(entries@[k].offset == total_len(entries@.take(k)));
                        assert(entries@.push(e).take(k) =~= entries@.take(k));
                    } else {
                        assert(entries@.push(e).take(k) =~= entries@);
                    }
                }
                assert forall|a: int, b: int| 0 <= a <= b < entries@.push(e).len() implies
                    #[trigger] entries@.push(e)[a].timestamp
                    <= #[trigger] entries@.push(e)[b].timestamp by {
                    if b < i {
                        assert(entries@[a].timestamp <= entries@[b].timestamp);
                    } else if a < i {
                        assert(entries@[a].timestamp == info@[a].1);
                        assert(info@[a].1 <= info@[i as int].1);
                    }
                }
            }
            entries.push(e);
            offset = offset + len;
            i = i + 1;
            proof {
                assert(entries@.take(i as int) =~= entries@);
            }
        }
        let (start_time, end_time) = if info.len() == 0 {
            (0u64, 0u64)
        } else {
            (info[0].1, info[info.len() - 1].1)
        };
        proof {
            assert(info@.take(info@.len() as int) =~= info@);
        }
        Ok(Index { hash: hash_vec, entries, start_time, end_time })
    }

    /// Decode an index from the bytes of an index file.  The file is
    /// rejected when it is shorter than the hash or when the region after
    /// the hash is not a whole number of records.  Returns the index and
    /// its first and last timestamps.
    pub fn open(bytes: &[u8]) -> (r: Result<(Index, u64, u64), LogError>)
        ensures
            match r {
                Ok(p) => {
                    &&& bytes@.len() >= 32
                    &&& (bytes@.len() - 32) % 24 == 0
                    &&& p.0.wf()
                    &&& p.0.hash_spec() == bytes@.subrange(0, 32)
                    &&& p.0.entries_spec() == decode_entries(bytes@.skip(32))
                    &&& p.1 == if p.0.entries_spec().len() == 0 {
                        0
                    } else {
                        p.0.entries_spec()[0].timestamp
                    }
                    &&& p.2 == if p.0.entries_spec().len() == 0 {
                        0
                    } else {
                        p.0.entries_spec().last().timestamp
                    }
                },
                Err(e) => {
                    &&& e == LogError::Corruption
                    &&& (bytes@.len() < 32 || (bytes@.len() - 32) % 24 != 0)
                },
            },
    {
        let n = bytes.len();
        if n < 32 {
            return Err(LogError::Corruption);
        }
        if (n - 32) % 24 != 0 {
            return Err(LogError::Corruption);
        }
        let count = (n - 32) / 24;
        let mut hash_vec: Vec<u8> = Vec::with_capacity(32);
        let mut hi: usize = 0;
        while hi < 32
            invariant
                bytes@.len() >= 32,
                hi <= 32,
                hash_vec@ =~= bytes@.subrange(0, hi as int),
            decreases 32 - hi,
        {
            hash_vec.push(bytes[hi]);
            assert(hash_vec@ =~= bytes@.subrange(0, hi + 1));
            hi = hi + 1;
        }
        let ghost region = bytes@.skip(32);
        proof {
            lemma_decode_entries_len(region);
            assert(24 * ((n - 32) as int / 24) == n - 32);
        }
        let mut entries: Vec<IndexEntry> = Vec::with_capacity(count);
        let mut k: usize = 0;
        while k < count
            invariant
                bytes@.len() >= 32,
                (bytes@.len() - 32) % 24 == 0,
                count == (bytes@.len() - 32) / 24,
                32 + 24 * count <= usize::MAX,
                region == bytes@.skip(32),
                k <= count,
                entries@.len() == k,
                forall|j: int| 0 <= j < k ==> entries@[j] == decode_entries(region)[j],
            decreases count - k,
        {
            let base = 32 + 24 * k;
            let timestamp = read_be64(bytes, base);
            let offs = read_be64(bytes, base + 8);
            let len = read_be64(bytes, base + 16);
            let e = IndexEntry { timestamp, offset: offs, len };
            proof {
                lemma_decode_entries_index(region, k as int);
                assert(region.subrange(24 * (k as int), 24 * (k as int) + 24).subrange(0, 8)
                    =~= bytes@.subrange(base as int, base + 8));
                assert(region.subrange(24 * (k as int), 24 * (k as int) + 24).subrange(8, 16)
                    =~= bytes@.subrange(base + 8, base + 16));
                assert(region.subrange(24 * (k as int), 24 * (k as int) + 24).subrange(16, 24)
                    =~= bytes@.subrange(base + 16, base + 24));
            }
            entries.push(e);
            k = k + 1;
        }
        proof {
            assert(entries@ =~= decode_entries(region));
        }
        let (start_time, end_time) = if entries.len() == 0 {
            (0u64, 0u64)
        } else {
            (entries[0].timestamp, entries[entries.len() - 1].timestamp)
        };
        Ok((Index { hash: hash_vec, entries, start_time, end_time }, start_time, end_time))
    }

    /// The bytes of the index file: the hash, then each record big-endian.
    pub fn file_bytes(&self) -> (r: Vec<u8>)
        requires
            self.wf(),
        ensures
            r@ == index_file_bytes(self.hash_spec(), self.entries_spec()),
    {
        let mut out: Vec<u8> = Vec::new();
        let mut hi: usize = 0;
        while hi < self.hash.len()
            invariant
                hi <= self.hash@.len(),
                out@ =~= self.hash@.subrange(0, hi as int),
            decreases self.hash@.len() - hi,
        {
            out.push(self.hash[hi]);
            assert(out@ =~= self.hash@.subrange(0, hi + 1));
            hi = hi + 1;
        }
        proof {
            assert(out@ =~= self.hash@);
            assert(self.entries@.skip(0) =~= self.entries@);
        }
        let mut k: usize = 0;
        while k < self.entries.len()
            invariant
                k <= self.entries@.len(),
                out@ == self.hash@ + entries_bytes(self.entries@.take(k as int)),
            decreases self.entries@.len() - k,
        {
            let e = self.entries[k];
            push_be64(&mut out, e.timestamp);
            push_be64(&mut out, e.offset);
            push_be64(&mut out, e.len);
            proof {
                lemma_entries_bytes_take(self.entries@, k as int);
                assert(out@ =~= self.hash@ + entries_bytes(self.entries@.take(k as int))
                    + entry_bytes(self.entries@[k as int]));
            }
            k = k + 1;
        }
        proof {
            assert(self.entries@.take(self.entries@.len() as int) =~= self.entries@);
        }
        out
    }

    /// Decide whether the records are contiguous from 0, in time order,
    /// and sum to a length that fits an unsigned 64-bit number.
    pub fn check_consistent(&self) -> (r: bool)
        ensures
            r == self.consistent(),
    {
        let n = self.entries.len();
        let mut expected: u64 = 0;
        let mut i: usize = 0;
        let mut ok = true;
        while i < n
            invariant
                n == self.entries@.len(),
                i <= n,
                ok ==> expected == total_len(self.entries@.take(i as int)),
                ok ==> offsets_ok(self.entries@.take(i as int)),
                ok ==> index_ts_sorted(self.entries@.take(i as int)),
                ok ==> total_len(self.entries@.take(i as int)) <= u64::MAX,
                !ok ==> !(offsets_ok(self.entries@) && index_ts_sorted(self.entries@)
                    && total_len(self.entries@) <= u64::MAX),
            decreases n - i,
        {
            let e = self.entries[i];
            let prev_ts_ok = if i == 0 {
                true
            } else {
                self.entries[i - 1].timestamp <= e.timestamp
            };
            if !ok {
                return false;
            }
            if !prev_ts_ok || e.offset != expected || e.len > u64::MAX - expected {
                proof {
                    let es = self.entries@;
                    if !prev_ts_ok {
                        assert(es[i - 1].timestamp > es[i as int].timestamp);
                        assert(!index_ts_sorted(es));
                    } else if e.offset != expected {
                        assert(!offsets_ok(es)) by {
                            if offsets_ok(es) {
                                assert(es[i as int].offset == total_len(es.take(i as int)));
                            }
                        }
                    } else {
                        assert(!(offsets_ok(es) && total_len(es) <= u64::MAX)) by {
                            if offsets_ok(es) && total_len(es) <= u64::MAX {
                                lemma_entry_in_bounds(es, i as int);
                            }
                        }
                    }
                }
                ok = false;
            } else {
                proof {
                    let es = self.entries@;
                    let t = es.take(i as int);
                    let t1 = es.take(i + 1);
                    assert(t1 =~= t.push(es[i as int]));
                    lemma_total_len_push(t, es[i as int]);
                    assert forall|a: int| 0 <= a < t1.len() implies (#[trigger] t1[a]).offset
                        == total_len(t1.take(a)) by {
                        if a < i {
                            assert(t[a].offset == total_len(t.take(a)));
                            assert(t1.take(a) =~= t.take(a));
                            assert(t1[a] == t[a]);
                        } else {
                            assert(t1.take(a) =~= t);
                        }
                    }
                    assert forall|a: int, b: int| 0 <= a <= b < t1.len() implies
                        #[trigger] t1[a].timestamp <= #[trigger] t1[b].timestamp by {
                        if b < i {
                            assert(es.take(i as int)[a].timestamp <= es.take(
                                i as int,
                            )[b].timestamp);
                        } else if a < i {
                            assert(es.take(i as int)[a].timestamp <= es.take(i as int)[i - 1
                                as int].timestamp);
                        }
                    }
                }
                expected = expected + e.len;
            }
            i = i + 1;
        }
        proof {
            assert(self.entries@.take(n as int) =~= self.entries@);
        }
        ok
    }

    /// The number of records in the index.
    pub fn entries(&self) -> (r: u64)
        ensures
            r == self.entries_spec().len(),
    {
        self.entries.len() as u64
    }

    /// The timestamp of the first record.
    pub fn head_time(&self) -> (r: u64)
        requires
            self.wf(),
        ensures
            r == if self.entries_spec().len() == 0 {
                0u64
            } else {
                self.entries_spec()[0].timestamp
            },
    {
        self.start_time
    }

    /// The timestamp of the last record.
    pub fn tail_time(&self) -> (r: u64)
        requires
            self.wf(),
        ensures
            r == if self.entries_spec().len() == 0 {
                0u64
            } else {
                self.entries_spec().last().timestamp
            },
    {
        self.end_time
    }

    /// The stored hash of the companion data file.
    pub fn read_hash(&self) -> (r: &Vec<u8>)
        ensures
            r@ == self.hash_spec(),
    {
        &self.hash
    }

    /// The offset and length of the record at the given position.
    pub fn read(&self, index: u64) -> (r: Result<(u64, u64), LogError>)
        ensures
            match r {
                Ok(p) => index < self.entries_spec().len() && p == (
                    self.entries_spec()[index as int].offset,
                    self.entries_spec()[index as int].len,
                ),
                Err(e) => index >= self.entries_spec().len() && e == LogError::NotFound,
            },
    {
        if index >= self.entries.len() as u64 {
            Err(LogError::NotFound)
        } else {
            let e = self.entries[index as usize];
            Ok((e.offset, e.len))
        }
    }

    /// The timestamp, offset and length of the record at the given
    /// position.
    pub fn read_with_timestamps(&self, index: u64) -> (r: Result<(u64, u64, u64), LogError>)
        ensures
            match r {
                Ok(p) => index < self.entries_spec().len() && p == (
                    self.entries_spec()[index as int].timestamp,
                    self.entries_spec()[index as int].offset,
                    self.entries_spec()[index as int].len,
                ),
                Err(e) => index >= self.entries_spec().len() && e == LogError::NotFound,
            },
    {
        if index >= self.entries.len() as u64 {
            Err(LogError::NotFound)
        } else {
            let e = self.entries[index as usize];
            Ok((e.timestamp, e.offset, e.len))
        }
    }

    /// Up to `len` records starting at `index`, and the count by which
    /// `len` overshoots the stored records.
    pub fn readv(&self, index: u64, len: u64) -> (r: Result<(Vec<IndexEntry>, u64), LogError>)
        ensures
            match r {
                Ok(p) => {
                    let limit = if index + len > self.entries_spec().len() {
                        self.entries_spec().len() as int
                    } else {
                        index + len
                    };
                    &&& index <= self.entries_spec().len()
                    &&& p.0@ == self.entries_spec().subrange(index as int, limit)
                    &&& p.1 == index + len - limit
                },
                Err(e) => index > self.entries_spec().len() && e == LogError::NotFound,
            },
    {
        let n = self.entries.len();
        if index > n as u64 {
            return Err(LogError::NotFound);
        }
        let idx = index as usize;
        let avail = n - idx;
        let take: usize = if len > avail as u64 {
            avail
        } else {
            len as usize
        };
        let left: u64 = if len > avail as u64 {
            len - avail as u64
        } else {
            0
        };
        let mut out: Vec<IndexEntry> = Vec::with_capacity(take);
        let mut i: usize = 0;
        while i < take
            invariant
                idx + take <= self.entries@.len(),
                idx + take <= usize::MAX,
                i <= take,
                out@ =~= self.entries@.subrange(idx as int, idx + i),
            decreases take - i,
        {
            out.push(self.entries[idx + i]);
            assert(out@ =~= self.entries@.subrange(idx as int, idx + i + 1));
            i = i + 1;
        }
        proof {
            assert(self.entries@.subrange(idx as int, idx + take) =~= self.entries@.subrange(
                index as int,
                if index + len > self.entries@.len() {
                    self.entries@.len() as int
                } else {
                    index + len
                },
            ));
        }
        Ok((out, left))
    }

    /// The position whose timestamp matches the given one, or, when there
    /// is no exact match, the position of the record with the next
    /// timestamp.
    pub fn index_from_timestamp(&self, timestamp: u64) -> (r: Result<u64, LogError>)
        requires
            self.consistent(),
        ensures
            match r {
                Ok(idx) => {
                    &&& idx <= self.entries_spec().len()
                    &&& forall|i: int|
                        0 <= i < idx ==> (#[trigger] self.entries_spec()[i]).timestamp < timestamp
                    &&& forall|i: int|
                        idx <= i < self.entries_spec().len() ==> (
                        #[trigger] self.entries_spec()[i]).timestamp >= timestamp
                },
                Err(_) => false,
            },
    {
        let mut lo: usize = 0;
        let mut hi: usize = self.entries.len();
        while lo < hi
            invariant
                self.consistent(),
                lo <= hi <= self.entries_spec().len(),
                forall|i: int|
                    0 <= i < lo ==> (#[trigger] self.entries_spec()[i]).timestamp < timestamp,
                forall|i: int|
                    hi <= i < self.entries_spec().len() ==> (
                    #[trigger] self.entries_spec()[i]).timestamp >= timestamp,
            decreases hi - lo,
        {
            let mid = lo + (hi - lo) / 2;
            if self.entries[mid].timestamp < timestamp {
                proof {
                    assert forall|i: int| 0 <= i < mid + 1 implies (
                    #[trigger] self.entries_spec()[i]).timestamp < timestamp by {
                        assert(self.entries_spec()[i].timestamp <= self.entries_spec()[mid
                            as int].timestamp);
                    }
                }
                lo = mid + 1;
            } else {
                proof {
                    assert forall|i: int| mid <= i < self.entries_spec().len() implies (
                    #[trigger] self.entries_spec()[i]).timestamp >= timestamp by {
                        assert(self.entries_spec()[mid as int].timestamp
                            <= self.entries_spec()[i].timestamp);
                    }
                }
                hi = mid;
            }
        }
        Ok(lo as u64)
    }

    /// Whether the timestamp lies between the first and last recorded
    /// timestamps.
    pub fn is_timestamp_contained(&self, timestamp: u64) -> (r: bool)
        requires
            self.wf(),
        ensures
            r == {
                let st = if self.entries_spec().len() == 0 {
                    0u64
                } else {
                    self.entries_spec()[0].timestamp
                };
                let et = if self.entries_spec().len() == 0 {
                    0u64
                } else {
                    self.entries_spec().last().timestamp
                };
                st <= timestamp <= et
            },
    {
        self.start_time <= timestamp && timestamp <= self.end_time
    }
}

/// The total payload length of a list of `(length, timestamp)` pairs.
pub open spec fn info_total(info: Seq<(u64, u64)>) -> int
    decreases info.len(),
{
    if info.len() == 0 {
        0
    } else {
        info_total(info.drop_last()) + info.last().0
    }
}

/// Timestamps of a `(length, timestamp)` list are non-decreasing.
pub open spec fn info_ts_sorted(info: Seq<(u64, u64)>) -> bool {
    forall|i: int, j: int| 0 <= i <= j < info.len() ==> #[trigger] info[i].1 <= #[trigger] info[j].1
}

pub proof fn lemma_info_total_nonneg(info: Seq<(u64, u64)>)
    ensures
        info_total(info) >= 0,
    decreases info.len(),
{
    if info.len() > 0 {
        lemma_info_total_nonneg(info.drop_last());
    }
}

/// A prefix records no more than the whole list.
pub proof fn lemma_info_total_prefix(info: Seq<(u64, u64)>, i: int)
    requires
        0 <= i <= info.len(),
    ensures
        info_total(info.take(i)) + info_total_from(info, i) == info_total(info),
        info_total_from(info, i) >= 0,
    decreases info.len() - i,
{
    if i == info.len() {
        assert(info.take(i) =~= info);
    } else {
        lemma_info_total_prefix(info, i + 1);
        assert(info.take(i + 1) =~= info.take(i).push(info[i]));
        assert(info.take(i + 1).drop_last() =~= info.take(i));
        assert(info.take(i + 1).last() == info[i]);
    }
}

/// The total of the suffix starting at `i`.
pub open spec fn info_total_from(info: Seq<(u64, u64)>, i: int) -> int
    recommends
        0 <= i <= info.len(),
    decreases info.len() - i,
{
    if i < 0 || i >= info.len() {
        0
    } else {
        info[i].0 + info_total_from(info, i + 1)
    }
}

pub proof fn lemma_info_total_push_take(info: Seq<(u64, u64)>, i: int)
    requires
        0 <= i < info.len(),
    ensures
        info_total(info.take(i + 1)) == info_total(info.take(i)) + info[i].0,
{
    assert(info.take(i + 1) =~= info.take(i).push(info[i]));
    assert(info.take(i + 1).drop_last() =~= info.take(i));
    assert(info.take(i + 1).last() == info[i]);
}


/// Append the big-endian bytes of a 64-bit number.
fn push_be64(out: &mut Vec<u8>, x: u64)
    ensures
        final(out)@ == old(out)@ + be64(x),
{
    proof {
        lemma_byte_mask(x);
    }
    out.push(((x >> 56) & 0xff) as u8);
    out.push(((x >> 48) & 0xff) as u8);
    out.push(((x >> 40) & 0xff) as u8);
    out.push(((x >> 32) & 0xff) as u8);
    out.push(((x >> 24) & 0xff) as u8);
    out.push(((x >> 16) & 0xff) as u8);
    out.push(((x >> 8) & 0xff) as u8);
    out.push((x & 0xff) as u8);
    proof {
        assert(out@ =~= old(out)@ + be64(x));
    }
}

/// A masked byte fits in 8 bits, whatever the shift.
proof fn lemma_byte_mask(x: u64)
    ensures
        (x >> 56) & 0xff <= 0xff,
        (x >> 48) & 0xff <= 0xff,
        (x >> 40) & 0xff <= 0xff,
        (x >> 32) & 0xff <= 0xff,
        (x >> 24) & 0xff <= 0xff,
        (x >> 16) & 0xff <= 0xff,
        (x >> 8) & 0xff <= 0xff,
        x & 0xff <= 0xff,
{
    assert((x >> 56) & 0xff <= 0xff && (x >> 48) & 0xff <= 0xff && (x >> 40) & 0xff <= 0xff && (x
        >> 32) & 0xff <= 0xff && (x >> 24) & 0xff <= 0xff && (x >> 16) & 0xff <= 0xff && (x >> 8)
        & 0xff <= 0xff && x & 0xff <= 0xff) by (bit_vector);
}

/// Read a big-endian 64-bit number from 8 bytes at `pos`.
fn read_be64(buf: &[u8], pos: usize) -> (r: u64)
    requires
        pos + 8 <= buf@.len(),
    ensures
        r == be64_val(buf@.subrange(pos as int, pos + 8)),
{
    let r = ((buf[pos] as u64) << 56) | ((buf[pos + 1] as u64) << 48) | ((buf[pos + 2] as u64)
        << 40) | ((buf[pos + 3] as u64) << 32) | ((buf[pos + 4] as u64) << 24) | ((buf[pos
        + 5] as u64) << 16) | ((buf[pos + 6] as u64) << 8) | (buf[pos + 7] as u64);
    proof {
        let s = buf@.subrange(pos as int, pos + 8);
        assert(s[0] == buf@[pos as int] && s[1] == buf@[pos + 1] && s[2] == buf@[pos + 2] && s[3]
            == buf@[pos + 3] && s[4] == buf@[pos + 4] && s[5] == buf@[pos + 5] && s[6] == buf@[pos
            + 6] && s[7] == buf@[pos + 7]);
    }
    r
}

/// Encoding a prefix and one more record extends the bytes by that record.
pub proof fn lemma_entries_bytes_take(es: Seq<IndexEntry>, k: int)
    requires
        0 <= k < es.len(),
    ensures
        entries_bytes(es.take(k + 1)) == entries_bytes(es.take(k)) + entry_bytes(es[k]),
    decreases k,
{
    if k == 0 {
        assert(es.take(1).len() == 1);
        assert(es.take(1)[0] == es[0]);
        assert(entries_bytes(es.take(1)) == entry_bytes(es.take(1)[0]) + entries_bytes(
            es.take(1).drop_first(),
        ));
        assert(es.take(1).drop_first() =~= Seq::<IndexEntry>::empty());
        assert(es.take(0) =~= Seq::<IndexEntry>::empty());
        assert(entries_bytes(es.take(1)) =~= entry_bytes(es[0]));
        assert(entries_bytes(es.take(0)) + entry_bytes(es[0]) =~= entry_bytes(es[0]));
    } else {
        lemma_entries_bytes_take(es.drop_first(), k - 1);
        assert(es.take(k + 1)[0] == es[0]);
        assert(es.take(k + 1).drop_first() =~= es.drop_first().take(k));
        assert(es.take(k)[0] == es[0]);
        assert(es.take(k).drop_first() =~= es.drop_first().take(k - 1));
        assert(es.drop_first()[k - 1] == es[k]);
        assert(entries_bytes(es.take(k + 1)) =~= entry_bytes(es[0]) + entries_bytes(
            es.drop_first().take(k),
        ));
        assert(entries_bytes(es.take(k)) =~= entry_bytes(es[0]) + entries_bytes(
            es.drop_first().take(k - 1),
        ));
        assert(entry_bytes(es[0]) + (entries_bytes(es.drop_first().take(k - 1)) + entry_bytes(
            es[k],
        )) =~= (entry_bytes(es[0]) + entries_bytes(es.drop_first().take(k - 1))) + entry_bytes(
            es[k],
        ));
    }
}

/// What a sound index guarantees of its fields: the stored hash is
/// exactly 32 bytes.
pub proof fn lemma_index_wf_facts(ix: Index)
    requires
        ix.wf(),
    ensures
        ix.hash_spec().len() == 32,
{
}

/// Law: an index file written for a hash and a run of records reads
/// back to exactly that hash and those records.
pub proof fn lemma_index_file_roundtrip(hash: Seq<u8>, es: Seq<IndexEntry>)
    requires
        hash.len() == 32,
    ensures
        index_file_bytes(hash, es).len() >= 32,
        (index_file_bytes(hash, es).len() - 32) % 24 == 0,
        index_file_bytes(hash, es).subrange(0, 32) == hash,
        decode_entries(index_file_bytes(hash, es).skip(32)) == es,
{
    let b = index_file_bytes(hash, es);
    lemma_entries_bytes_len(es);
    assert(b.subrange(0, 32) =~= hash);
    assert(b.skip(32) =~= entries_bytes(es));
    lemma_entries_roundtrip(es);
}

} // verus!
