//! One on-disk chunk: the pairing of an index file and a data file.

use vstd::prelude::*;
use bytes::Bytes;

use crate::disk::index::{
    decode_entries, index_ts_sorted, lemma_entry_in_bounds, lemma_total_len_push, offsets_ok,
    total_len, Index, IndexEntry,
};
use crate::disk::segment::Segment;
use crate::hashing::{sha256, sha256_of};
use crate::payload::{payload_as_slice, payload_seq};
use crate::segment::{
    bytes_view, entries_size, entries_view, payloads_of, ts_sorted, EntryV,
};
use crate::LogError;

verus! {

/// A prefix never weighs more than the whole run.
pub proof fn lemma_entries_size_mono(s: Seq<EntryV>, i: int)
    requires
        0 <= i <= s.len(),
    ensures
        entries_size(s.take(i)) <= entries_size(s),
    decreases s.len() - i,
{
    if i == s.len() {
        assert(s.take(i) =~= s);
    } else {
        lemma_entries_size_mono(s, i + 1);
        lemma_entries_size_take_push(s, i);
    }
}

/// One more entry adds its payload length to the prefix weight.
pub proof fn lemma_entries_size_take_push(s: Seq<EntryV>, i: int)
    requires
        0 <= i < s.len(),
    ensures
        entries_size(s.take(i + 1)) == entries_size(s.take(i)) + s[i].0.len(),
{
    assert(s.take(i + 1) =~= s.take(i).push(s[i]));
    assert(s.take(i + 1).drop_last() =~= s.take(i));
    assert(s.take(i + 1).last() == s[i]);
}

/// Index records and payload entries with the same lengths weigh the same.
pub proof fn lemma_sizes_eq(es: Seq<IndexEntry>, ev: Seq<EntryV>, k: int)
    requires
        es.len() == ev.len(),
        forall|j: int| 0 <= j < es.len() ==> (#[trigger] es[j]).len == ev[j].0.len(),
        0 <= k <= es.len(),
    ensures
        total_len(es.take(k)) == entries_size(ev.take(k)),
    decreases k,
{
    if k > 0 {
        lemma_sizes_eq(es, ev, k - 1);
        assert(es.take(k) =~= es.take(k - 1).push(es[k - 1]));
        lemma_total_len_push(es.take(k - 1), es[k - 1]);
        lemma_entries_size_take_push(ev, k - 1);
    }
}

/// Append the bytes of a slice to a byte vector.
fn append_bytes(dst: &mut Vec<u8>, src: &[u8])
    ensures
        final(dst)@ == old(dst)@ + src@,
{
    let n = src.len();
    let mut j: usize = 0;
    while j < n
        invariant
            n == src@.len(),
            j <= n,
            dst@ =~= old(dst)@ + src@.subrange(0, j as int),
        decreases n - j,
    {
        dst.push(src[j]);
        assert(dst@ =~= old(dst)@ + src@.subrange(0, j + 1));
        j = j + 1;
    }
    proof {
        assert(src@.subrange(0, n as int) =~= src@);
    }
}

/// Whether two byte vectors hold the same bytes.
fn bytes_eq(a: &Vec<u8>, b: &Vec<u8>) -> (r: bool)
    ensures
        r == (a@ == b@),
{
    if a.len() != b.len() {
        proof {
            assert(a@ != b@);
        }
        return false;
    }
    let n = a.len();
    let mut j: usize = 0;
    while j < n
        invariant
            n == a@.len() == b@.len(),
            j <= n,
            forall|k: int| 0 <= k < j ==> a@[k] == b@[k],
        decreases n - j,
    {
        if a[j] != b[j] {
            proof {
                assert(a@[j as int] != b@[j as int]);
            }
            return false;
        }
        j = j + 1;
    }
    proof {
        assert(a@ =~= b@);
    }
    true
}

/// An index file decodes against a data file when it is well-sized, its
/// records run contiguously from 0 in time order, and they cover the data
/// file exactly.
pub open spec fn chunk_decodes(index_bytes: Seq<u8>, data: Seq<u8>) -> bool {
    &&& index_bytes.len() >= 32
    &&& (index_bytes.len() - 32) % 24 == 0
    &&& offsets_ok(decode_entries(index_bytes.skip(32)))
    &&& index_ts_sorted(decode_entries(index_bytes.skip(32)))
    &&& total_len(decode_entries(index_bytes.skip(32))) <= u64::MAX
    &&& total_len(decode_entries(index_bytes.skip(32))) == data.len()
}

/// The handler for one data file on the disk and its index file.
pub struct Chunk {
    index: Index,
    segment: Segment,
}

impl Chunk {
    /// The records of the chunk's index.
    pub closed spec fn entries_spec(&self) -> Seq<IndexEntry> {
        self.index.entries_spec()
    }

    /// The bytes of the chunk's data file.
    pub closed spec fn data_spec(&self) -> Seq<u8> {
        self.segment.data_spec()
    }

    /// The hash stored in the chunk's index.
    pub closed spec fn hash_spec(&self) -> Seq<u8> {
        self.index.hash_spec()
    }

    /// Both halves are sound and agree: the records run contiguously and
    /// cover the data file exactly.
    pub closed spec fn wf(&self) -> bool {
        &&& self.index.wf()
        &&& self.index.consistent()
        &&& self.segment.wf()
        &&& total_len(self.entries_spec()) == self.data_spec().len()
    }

    /// The stored hash is the digest of the data file.
    pub open spec fn hash_matches(&self) -> bool {
        self.hash_spec() == sha256_of(self.data_spec())
    }

    /// The chunk's logical entries: each payload sliced out of the data
    /// file, with its timestamp.
    pub open spec fn chunk_entries(&self) -> Seq<EntryV> {
        Seq::new(
            self.entries_spec().len(),
            |i: int|
                (
                    self.data_spec().subrange(
                        self.entries_spec()[i].offset as int,
                        self.entries_spec()[i].offset + self.entries_spec()[i].len,
                    ),
                    self.entries_spec()[i].timestamp,
                ),
        )
    }

    /// Build a new chunk from a sealed segment's entries: the data file is
    /// the payloads run together, the index records them, and the stored
    /// hash is the digest of the data file.
    pub fn new(data: Vec<(Bytes, u64)>) -> (r: Result<Chunk, LogError>)
        requires
            ts_sorted(entries_view(data@)),
            entries_size(entries_view(data@)) <= u64::MAX,
        ensures
            match r {
                Ok(c) => {
                    &&& c.wf()
                    &&& c.hash_matches()
                    &&& c.chunk_entries() == entries_view(data@)
                    &&& c.hash_spec().len() == 32
                    &&& total_len(c.entries_spec()) == c.data_spec().len()
                    &&& c.data_spec().len() <= u64::MAX
                },
                Err(_) => false,
            },
    {
        let ghost ev = entries_view(data@);
        let n = data.len();
        let mut info: Vec<(u64, u64)> = Vec::with_capacity(n);
        let mut buf: Vec<u8> = Vec::new();
        let mut i: usize = 0;
        proof {
            assert(ev.take(0) =~= Seq::<EntryV>::empty());
            assert(info@.take(0) =~= Seq::<(u64, u64)>::empty());
        }
        while i < n
            invariant
                ev == entries_view(data@),
                ts_sorted(ev),
                entries_size(ev) <= u64::MAX,
                n == data@.len(),
                i <= n,
                info@.len() == i,
                forall|k: int|
                    0 <= k < i ==> (#[trigger] info@[k]).0 == ev[k].0.len() && info@[k].1
                        == ev[k].1,
                buf@.len() == entries_size(ev.take(i as int)),
                forall|k: int|
                    0 <= k < i ==> buf@.subrange(
                        entries_size(ev.take(k)),
                        entries_size(ev.take(k)) + ev[k].0.len(),
                    ) == (#[trigger] ev[k]).0,
            decreases n - i,
        {
            proof {
                lemma_entries_size_mono(ev, i + 1);
                lemma_entries_size_take_push(ev, i as int);
                crate::segment::lemma_entries_size_nonneg(ev.take(i as int));
            }
            let ghost buf_before = buf@;
            let s = payload_as_slice(&data[i].0);
            append_bytes(&mut buf, s);
            info.push((s.len() as u64, data[i].1));
            proof {
                assert(ev[i as int].0 == payload_seq(data@[i as int].0));
                assert forall|k: int| 0 <= k < i + 1 implies buf@.subrange(
                    entries_size(ev.take(k)),
                    entries_size(ev.take(k)) + ev[k].0.len(),
                ) == (#[trigger] ev[k]).0 by {
                    crate::segment::lemma_entries_size_nonneg(ev.take(k));
                    if k < i {
                        lemma_entries_size_mono(ev.take(i as int), k + 1);
                        lemma_entries_size_take_push(ev.take(i as int), k);
                        assert(ev.take(i as int).take(k) =~= ev.take(k));
                        assert(ev.take(i as int).take(k + 1) =~= ev.take(k + 1));
                        assert(ev.take(i as int)[k] == ev[k]);
                        assert(buf@.subrange(
                            entries_size(ev.take(k)),
                            entries_size(ev.take(k)) + ev[k].0.len(),
                        ) =~= buf_before.subrange(
                            entries_size(ev.take(k)),
                            entries_size(ev.take(k)) + ev[k].0.len(),
                        ));
                    } else {
                        assert(buf@.subrange(
                            entries_size(ev.take(k)),
                            entries_size(ev.take(k)) + ev[k].0.len(),
                        ) =~= s@);
                    }
                }
            }
            i = i + 1;
        }
        proof {
            assert(ev.take(n as int) =~= ev);
            lemma_info_matches(info@, ev, info@.len() as int);
            assert(info@.take(info@.len() as int) =~= info@);
            assert(crate::disk::index::info_total(info@) == entries_size(ev));
            assert forall|a: int, b: int| 0 <= a <= b < info@.len() implies #[trigger] info@[a].1
                <= #[trigger] info@[b].1 by {
                assert(ev[a].1 <= ev[b].1);
            }
        }
        let hash = sha256(buf.as_slice());
        let ghost buf_seq = buf@;
        let segment = Segment::new(crate::payload::payload_from_vec(buf));
        let index = match Index::new(hash.as_slice(), info) {
            Ok(ix) => ix,
            Err(e) => {
                proof {
                    assert(false);
                }
                return Err(e);
            },
        };
        let c = Chunk { index, segment };
        proof {
            assert(c.hash_spec() =~= sha256_of(buf_seq));
            assert forall|j: int| 0 <= j < c.entries_spec().len() implies (
            #[trigger] c.entries_spec()[j]).len == ev[j].0.len() by {
                assert(c.entries_spec()[j].len == info@[j].0);
            }
            lemma_sizes_eq(c.entries_spec(), ev, ev.len() as int);
            assert(c.entries_spec().take(ev.len() as int) =~= c.entries_spec());
            assert(ev.take(ev.len() as int) =~= ev);
            assert forall|k: int| 0 <= k < ev.len() implies c.chunk_entries()[k] == ev[k] by {
                lemma_sizes_eq(c.entries_spec(), ev, k);
                assert(c.entries_spec()[k].offset == total_len(c.entries_spec().take(k)));
            }
            assert(c.chunk_entries() =~= ev);
            crate::disk::index::lemma_index_wf_facts(c.index);
        }
        Ok(c)
    }

    /// Decode an existing chunk from the bytes of its two files.  The pair
    /// is rejected when the index does not decode, its records are not one
    /// contiguous run in time order, or they do not cover the data file.
    /// Returns the chunk and its first and last timestamps.
    pub fn open(index_bytes: &[u8], data: Bytes) -> (r: Result<(Chunk, u64, u64), LogError>)
        ensures
            match r {
                Ok(p) => {
                    &&& chunk_decodes(index_bytes@, payload_seq(data))
                    &&& p.0.wf()
                    &&& p.0.entries_spec() == decode_entries(index_bytes@.skip(32))
                    &&& p.0.data_spec() == payload_seq(data)
                    &&& p.0.hash_spec() == index_bytes@.subrange(0, 32)
                    &&& p.0.hash_spec().len() == 32
                    &&& total_len(p.0.entries_spec()) == p.0.data_spec().len()
                    &&& p.0.data_spec().len() <= u64::MAX
                    &&& p.1 == if p.0.entries_spec().len() == 0 {
                        0
                    } else {
                        p.0.entries_spec()[0].timestamp
                    }
                    &&& p.2 == if p.0.entries_spec().len() == 0 {
                        0
                    } else {
                        p.0.entries_spec().last().timestamp
                    }
                },
                Err(e) => {
                    &&& e == LogError::Corruption
                    &&& !chunk_decodes(index_bytes@, payload_seq(data))
                },
            },
    {
        let (index, start_time, end_time) = match Index::open(index_bytes) {
            Ok(p) => p,
            Err(_) => {
                return Err(LogError::Corruption);
            },
        };
        if !index.check_consistent() {
            return Err(LogError::Corruption);
        }
        let segment = Segment::open(data);
        let n = index.entries();
        let total: u64 = if n == 0 {
            0
        } else {
            match index.read(n - 1) {
                Ok((offset, len)) => {
                    proof {
                        lemma_entry_in_bounds(index.entries_spec(), n - 1);
                    }
                    offset + len
                },
                Err(_) => {
                    proof {
                        assert(false);
                    }
                    0
                },
            }
        };
        proof {
            let es = index.entries_spec();
            if n > 0 {
                lemma_entry_in_bounds(es, n - 1);
                assert(es.take(n - 1) =~= es.drop_last());
                assert(es.last() == es[n - 1]);
            }
            assert(total == total_len(es));
        }
        if total != segment.size() {
            return Err(LogError::Corruption);
        }
        proof {
            crate::disk::index::lemma_index_wf_facts(index);
        }
        Ok((Chunk { index, segment }, start_time, end_time))
    }

    /// The size of the chunk's data file in bytes.
    pub fn segment_size(&self) -> (r: u64)
        requires
            self.wf(),
        ensures
            r == self.data_spec().len(),
    {
        self.segment.size()
    }

    /// Recompute the digest of the whole data file and compare it with the
    /// hash stored in the index.
    pub fn verify(&self) -> (r: Result<bool, LogError>)
        requires
            self.wf(),
        ensures
            match r {
                Ok(b) => b == self.hash_matches(),
                Err(_) => false,
            },
    {
        let read_hash = self.index.read_hash();
        let data = self.segment.bytes();
        let calculated = sha256(payload_as_slice(&data));
        Ok(bytes_eq(read_hash, &calculated))
    }

    /// Read the payload at the given position.
    pub fn read(&self, index: u64) -> (r: Result<Bytes, LogError>)
        requires
            self.wf(),
        ensures
            match r {
                Ok(b) => index < self.chunk_entries().len() && payload_seq(b)
                    == self.chunk_entries()[index as int].0,
                Err(e) => index >= self.chunk_entries().len() && e == LogError::NotFound,
            },
    {
        match self.index.read(index) {
            Err(e) => Err(e),
            Ok((offset, len)) => {
                proof {
                    lemma_entry_in_bounds(self.entries_spec(), index as int);
                }
                match self.segment.read(offset, len) {
                    Ok(b) => Ok(b),
                    Err(_) => {
                        proof {
                            assert(false);
                        }
                        Err(LogError::NotFound)
                    },
                }
            },
        }
    }

    /// Read the payload and the timestamp at the given position.
    pub fn read_with_timestamps(&self, index: u64) -> (r: Result<(Bytes, u64), LogError>)
        requires
            self.wf(),
        ensures
            match r {
                Ok(p) => index < self.chunk_entries().len() && payload_seq(p.0)
                    == self.chunk_entries()[index as int].0 && p.1 == self.chunk_entries()[
                    index as int].1,
                Err(e) => index >= self.chunk_entries().len() && e == LogError::NotFound,
            },
    {
        match self.index.read_with_timestamps(index) {
            Err(e) => Err(e),
            Ok((timestamp, offset, len)) => {
                proof {
                    lemma_entry_in_bounds(self.entries_spec(), index as int);
                }
                match self.segment.read(offset, len) {
                    Ok(b) => Ok((b, timestamp)),
                    Err(_) => {
                        proof {
                            assert(false);
                        }
                        Err(LogError::NotFound)
                    },
                }
            },
        }
    }

    /// Read up to `len` payloads starting at `index` into `out`; the
    /// result is the count by which `len` overshoots the stored entries.
    pub fn readv(&self, index: u64, len: u64, out: &mut Vec<Bytes>) -> (r: Result<u64, LogError>)
        requires
            self.wf(),
        ensures
            match r {
                Ok(left) => {
                    let limit = if index + len > self.chunk_entries().len() {
                        self.chunk_entries().len() as int
                    } else {
                        index + len
                    };
                    &&& index <= self.chunk_entries().len()
                    &&& left == index + len - limit
                    &&& bytes_view(final(out)@) == bytes_view(old(out)@) + payloads_of(
                        self.chunk_entries().subrange(index as int, limit),
                    )
                },
                Err(e) => {
                    &&& index > self.chunk_entries().len()
                    &&& e == LogError::NotFound
                    &&& final(out)@ == old(out)@
                },
            },
    {
        let (offsets, left) = match self.index.readv(index, len) {
            Err(e) => {
                return Err(e);
            },
            Ok(p) => p,
        };
        proof {
            assert forall|k: int| 0 <= k < offsets@.len() implies (#[trigger] offsets@[k]).offset
                + offsets@[k].len <= self.data_spec().len() by {
                assert(offsets@[k] == self.entries_spec()[index + k]);
                lemma_entry_in_bounds(self.entries_spec(), index + k);
            }
        }
        match self.segment.readv(&offsets, out) {
            Ok(_) => {
                proof {
                    let limit = if index + len > self.chunk_entries().len() {
                        self.chunk_entries().len() as int
                    } else {
                        index + len
                    };
                    assert(bytes_view(out@) =~= bytes_view(old(out)@) + payloads_of(
                        self.chunk_entries().subrange(index as int, limit),
                    ));
                }
                Ok(left)
            },
            Err(_) => {
                proof {
                    assert(false);
                }
                Err(LogError::NotFound)
            },
        }
    }

    /// Read up to `len` entries starting at `index` into `out`, keeping
    /// the timestamps.
    pub fn readv_with_timestamps(&self, index: u64, len: u64, out: &mut Vec<(Bytes, u64)>) -> (r:
        Result<u64, LogError>)
        requires
            self.wf(),
        ensures
            match r {
                Ok(left) => {
                    let limit = if index + len > self.chunk_entries().len() {
                        self.chunk_entries().len() as int
                    } else {
                        index + len
                    };
                    &&& index <= self.chunk_entries().len()
                    &&& left == index + len - limit
                    &&& entries_view(final(out)@) == entries_view(old(out)@)
                        + self.chunk_entries().subrange(index as int, limit)
                },
                Err(e) => {
                    &&& index > self.chunk_entries().len()
                    &&& e == LogError::NotFound
                    &&& final(out)@ == old(out)@
                },
            },
    {
        let (offsets, left) = match self.index.readv(index, len) {
            Err(e) => {
                return Err(e);
            },
            Ok(p) => p,
        };
        proof {
            assert forall|k: int| 0 <= k < offsets@.len() implies (#[trigger] offsets@[k]).offset
                + offsets@[k].len <= self.data_spec().len() by {
                assert(offsets@[k] == self.entries_spec()[index + k]);
                lemma_entry_in_bounds(self.entries_spec(), index + k);
            }
        }
        match self.segment.readv_with_timestamps(&offsets, out) {
            Ok(_) => {
                proof {
                    let limit = if index + len > self.chunk_entries().len() {
                        self.chunk_entries().len() as int
                    } else {
                        index + len
                    };
                    assert(entries_view(out@) =~= entries_view(old(out)@)
                        + self.chunk_entries().subrange(index as int, limit));
                }
                Ok(left)
            },
            Err(_) => {
                proof {
                    assert(false);
                }
                Err(LogError::NotFound)
            },
        }
    }

    /// Total number of payloads stored in the chunk.
    pub fn entries(&self) -> (r: u64)
        ensures
            r == self.chunk_entries().len(),
    {
        self.index.entries()
    }

    /// The timestamp of the chunk's first entry.
    pub fn start_time(&self) -> (r: u64)
        requires
            self.wf(),
        ensures
            r == if self.chunk_entries().len() == 0 {
                0u64
            } else {
                self.chunk_entries()[0].1
            },
    {
        self.index.head_time()
    }

    /// The timestamp of the chunk's last entry.
    pub fn end_time(&self) -> (r: u64)
        requires
            self.wf(),
        ensures
            r == if self.chunk_entries().len() == 0 {
                0u64
            } else {
                self.chunk_entries().last().1
            },
    {
        self.index.tail_time()
    }

    /// Whether the timestamp lies between the chunk's first and last
    /// timestamps.
    pub fn is_timestamp_contained(&self, timestamp: u64) -> (r: bool)
        requires
            self.wf(),
        ensures
            r == {
                let st = if self.chunk_entries().len() == 0 {
                    0u64
                } else {
                    self.chunk_entries()[0].1
                };
                let et = if self.chunk_entries().len() == 0 {
                    0u64
                } else {
                    self.chunk_entries().last().1
                };
                st <= timestamp <= et
            },
    {
        self.index.is_timestamp_contained(timestamp)
    }

    /// The position whose timestamp matches the given one, or the position
    /// of the entry with the next timestamp.
    pub fn index_from_timestamp(&self, timestamp: u64) -> (r: Result<u64, LogError>)
        requires
            self.wf(),
        ensures
            match r {
                Ok(idx) => {
                    &&& idx <= self.chunk_entries().len()
                    &&& forall|i: int|
                        0 <= i < idx ==> (#[trigger] self.chunk_entries()[i]).1 < timestamp
                    &&& forall|i: int|
                        idx <= i < self.chunk_entries().len() ==> (
                        #[trigger] self.chunk_entries()[i]).1 >= timestamp
                },
                Err(_) => false,
            },
    {
        self.index.index_from_timestamp(timestamp)
    }

    /// The bytes of the chunk's index file.
    pub fn index_file_bytes(&self) -> (r: Vec<u8>)
        requires
            self.wf(),
        ensures
            r@ == crate::disk::index::index_file_bytes(self.hash_spec(), self.entries_spec()),
    {
        self.index.file_bytes()
    }

    /// The bytes of the chunk's data file.
    pub fn data_bytes(&self) -> (r: Bytes)
        requires
            self.wf(),
        ensures
            payload_seq(r) == self.data_spec(),
    {
        self.segment.bytes()
    }
}

/// An `info` list copied pointwise from payload entries records the same
/// lengths and is sorted the same way.
proof fn lemma_info_matches(info: Seq<(u64, u64)>, ev: Seq<EntryV>, k: int)
    requires
        0 <= k <= info.len(),
        info.len() <= ev.len(),
        forall|j: int|
            0 <= j < info.len() ==> (#[trigger] info[j]).0 == ev[j].0.len() && info[j].1
                == ev[j].1,
    ensures
        crate::disk::index::info_total(info.take(k)) == entries_size(ev.take(k)),
    decreases k,
{
    if k > 0 {
        lemma_info_matches(info, ev, k - 1);
        assert(info.take(k) =~= info.take(k - 1).push(info[k - 1]));
        assert(info.take(k).drop_last() =~= info.take(k - 1));
        assert(info.take(k).last() == info[k - 1]);
        lemma_entries_size_take_push(ev, k - 1);
    }
}

/// Law: the file images of a sound chunk decode back to the chunk: its
/// index file opens against its data file, and yields the same records,
/// hash and data.  With `Chunk::open`'s contract this makes the
/// create/open/verify round trip derivable by callers.
pub proof fn lemma_chunk_images_decode(c: Chunk)
    requires
        c.wf(),
    ensures
        chunk_decodes(
            crate::disk::index::index_file_bytes(c.hash_spec(), c.entries_spec()),
            c.data_spec(),
        ),
        crate::disk::index::index_file_bytes(c.hash_spec(), c.entries_spec()).subrange(0, 32)
            == c.hash_spec(),
        decode_entries(
            crate::disk::index::index_file_bytes(c.hash_spec(), c.entries_spec()).skip(32),
        ) == c.entries_spec(),
{
    crate::disk::index::lemma_index_wf_facts(c.index);
    crate::disk::index::lemma_index_file_roundtrip(c.hash_spec(), c.entries_spec());
}

/// Law: in a sound chunk, the index and the data file agree: the entry
/// count matches the index records, and the data file's size is exactly
/// the sum of the recorded lengths.
pub proof fn lemma_chunk_consistent(c: Chunk)
    requires
        c.wf(),
    ensures
        c.chunk_entries().len() == c.entries_spec().len(),
        total_len(c.entries_spec()) == c.data_spec().len(),
        offsets_ok(c.entries_spec()),
{
}

/// Law: in a sound chunk, timestamps are non-decreasing along the
/// entries, and the first is no later than the last.
pub proof fn lemma_chunk_times(c: Chunk)
    requires
        c.wf(),
    ensures
        index_ts_sorted(c.entries_spec()),
        c.entries_spec().len() > 0 ==> c.entries_spec()[0].timestamp
            <= c.entries_spec().last().timestamp,
{
    if c.entries_spec().len() > 0 {
        assert(c.entries_spec()[0].timestamp <= c.entries_spec()[c.entries_spec().len()
            - 1].timestamp);
    }
}

} // verus!
