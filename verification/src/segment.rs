//! The in-memory segment: an ordered run of `(payload, timestamp)` entries.
//!
//! A segment is modelled as a sequence of `(byte sequence, timestamp)`
//! pairs.  It tracks its total payload size in bytes and the time bounds of
//! its entries; timestamps are non-decreasing, and the timestamp 0 is the
//! sentinel for "absent".

use vstd::prelude::*;
use bytes::Bytes;

use crate::clock::now_millis;
use crate::payload::{payload_clone, payload_len, payload_seq};
use crate::LogError;

verus! {

/// The model of a stored entry: the payload's bytes and its timestamp.
pub type EntryV = (Seq<u8>, u64);

/// The byte sequences held by a sequence of `Bytes` values.
pub open spec fn bytes_view(v: Seq<Bytes>) -> Seq<Seq<u8>> {
    Seq::new(v.len(), |i: int| payload_seq(v[i]))
}

/// The model of a sequence of `(Bytes, u64)` pairs.
pub open spec fn entries_view(v: Seq<(Bytes, u64)>) -> Seq<EntryV> {
    Seq::new(v.len(), |i: int| (payload_seq(v[i].0), v[i].1))
}

/// The payloads of a sequence of entries, timestamps dropped.
pub open spec fn payloads_of(s: Seq<EntryV>) -> Seq<Seq<u8>> {
    Seq::new(s.len(), |i: int| s[i].0)
}

/// The total payload size, in bytes, of a sequence of entries.
pub open spec fn entries_size(s: Seq<EntryV>) -> int
    decreases s.len(),
{
    if s.len() == 0 {
        0
    } else {
        entries_size(s.drop_last()) + s.last().0.len()
    }
}

/// Timestamps are non-decreasing along the sequence.
pub open spec fn ts_sorted(s: Seq<EntryV>) -> bool {
    forall|i: int, j: int| 0 <= i <= j < s.len() ==> #[trigger] s[i].1 <= #[trigger] s[j].1
}

/// The timestamp of the last entry, or 0 when there is none.
pub open spec fn seg_end_time(s: Seq<EntryV>) -> u64 {
    if s.len() == 0 {
        0
    } else {
        s.last().1
    }
}

/// The first timestamp other than the sentinel 0, or 0 when every entry
/// carries the sentinel.
pub open spec fn first_nonzero_ts(s: Seq<EntryV>) -> u64
    decreases s.len(),
{
    if s.len() == 0 {
        0
    } else if s[0].1 != 0 {
        s[0].1
    } else {
        first_nonzero_ts(s.drop_first())
    }
}

pub proof fn lemma_entries_size_nonneg(s: Seq<EntryV>)
    ensures
        entries_size(s) >= 0,
    decreases s.len(),
{
    if s.len() > 0 {
        lemma_entries_size_nonneg(s.drop_last());
    }
}

pub proof fn lemma_entries_size_push(s: Seq<EntryV>, e: EntryV)
    ensures
        entries_size(s.push(e)) == entries_size(s) + e.0.len(),
{
    assert(s.push(e).drop_last() =~= s);
    assert(s.push(e).last() == e);
}

pub proof fn lemma_first_nonzero_ts_push(s: Seq<EntryV>, e: EntryV)
    ensures
        first_nonzero_ts(s.push(e)) == if first_nonzero_ts(s) != 0 {
            first_nonzero_ts(s)
        } else {
            e.1
        },
    decreases s.len(),
{
    if s.len() == 0 {
        assert(s.push(e)[0] == e);
        if e.1 == 0 {
            assert(s.push(e).drop_first() =~= s);
        }
    } else {
        assert(s.push(e)[0] == s[0]);
        if s[0].1 == 0 {
            assert(s.push(e).drop_first() =~= s.drop_first().push(e));
            lemma_first_nonzero_ts_push(s.drop_first(), e);
        }
    }
}

/// What a sound segment guarantees of its model: timestamps are in
/// order, the byte total fits, and the first timestamp is no later than
/// the last.
pub proof fn lemma_segment_wf_facts(seg: Segment)
    requires
        seg.wf(),
    ensures
        ts_sorted(seg@),
        0 <= entries_size(seg@) <= u64::MAX,
        first_nonzero_ts(seg@) <= seg_end_time(seg@),
{
    lemma_entries_size_nonneg(seg@);
    lemma_first_nonzero_le_end(seg@);
}

/// With timestamps in order, the first timestamp other than the sentinel
/// is no later than the last timestamp.
pub proof fn lemma_first_nonzero_le_end(s: Seq<EntryV>)
    requires
        ts_sorted(s),
    ensures
        first_nonzero_ts(s) <= seg_end_time(s),
    decreases s.len(),
{
    if s.len() > 0 {
        if s[0].1 != 0 {
            assert(s[0].1 <= s.last().1);
        } else {
            let t = s.drop_first();
            assert(forall|i: int| 0 <= i < t.len() ==> t[i] == #[trigger] s[i + 1]);
            assert(ts_sorted(t)) by {
                assert forall|i: int, j: int| 0 <= i <= j < t.len() implies #[trigger] t[i].1
                    <= #[trigger] t[j].1 by {
                    assert(s[i + 1].1 <= s[j + 1].1);
                }
            }
            lemma_first_nonzero_le_end(t);
            if t.len() > 0 {
                assert(t.last() == s.last());
            }
        }
    }
}

/// A struct for keeping payloads in memory.
pub struct Segment {
    data: Vec<(Bytes, u64)>,
    size: u64,
    start_time: u64,
    end_time: u64,
}

impl View for Segment {
    type V = Seq<EntryV>;

    closed spec fn view(&self) -> Seq<EntryV> {
        entries_view(self.data@)
    }
}

impl Segment {
    /// The segment's internal bookkeeping agrees with its entries.
    pub closed spec fn wf(&self) -> bool {
        &&& self.size == entries_size(self@)
        &&& ts_sorted(self@)
        &&& self.end_time == seg_end_time(self@)
        &&& self.start_time == first_nonzero_ts(self@)
    }

    /// Create a new empty segment, reserving room for `capacity` entries.
    pub fn with_capacity(capacity: u64) -> (r: Segment)
        ensures
            r.wf(),
            r@ =~= Seq::<EntryV>::empty(),
    {
        let r = Segment {
            data: Vec::with_capacity(capacity as usize),
            size: 0,
            start_time: 0,
            end_time: 0,
        };
        assert(r@ =~= Seq::<EntryV>::empty());
        r
    }

    /// Create a new segment holding the given payload and timestamp as its
    /// first entry.
    pub fn new(capacity: u64, byte: Bytes, timestamp: u64) -> (r: Segment)
        ensures
            r.wf(),
            r@ =~= seq![(payload_seq(byte), timestamp)],
    {
        let size = payload_len(&byte) as u64;
        let mut data: Vec<(Bytes, u64)> = Vec::with_capacity(capacity as usize);
        data.push((byte, timestamp));
        let r = Segment { data, size, start_time: timestamp, end_time: timestamp };
        proof {
            let e = (payload_seq(byte), timestamp);
            assert(r@ =~= Seq::<EntryV>::empty().push(e));
            lemma_entries_size_push(Seq::<EntryV>::empty(), e);
            lemma_first_nonzero_ts_push(Seq::<EntryV>::empty(), e);
            assert(r@ =~= seq![e]);
        }
        r
    }

    /// Append an entry with the given timestamp.
    pub fn push_with_timestamp(&mut self, byte: Bytes, timestamp: u64)
        requires
            old(self).wf(),
            timestamp >= seg_end_time(old(self)@),
            entries_size(old(self)@) + payload_seq(byte).len() <= u64::MAX,
        ensures
            final(self).wf(),
            final(self)@ == old(self)@.push((payload_seq(byte), timestamp)),
    {
        proof {
            lemma_entries_size_nonneg(old(self)@);
            lemma_entries_size_push(old(self)@, (payload_seq(byte), timestamp));
            lemma_first_nonzero_ts_push(old(self)@, (payload_seq(byte), timestamp));
        }
        if self.start_time == 0 {
            self.start_time = timestamp;
        }
        self.end_time = timestamp;
        let len = payload_len(&byte) as u64;
        self.size = self.size + len;
        self.data.push((byte, timestamp));
        proof {
            assert(self@ =~= old(self)@.push((payload_seq(byte), timestamp)));
            assert forall|i: int, j: int| 0 <= i <= j < self@.len() implies #[trigger] self@[i].1
                <= #[trigger] self@[j].1 by {
                if j < self@.len() - 1 {
                    assert(old(self)@[i].1 <= old(self)@[j].1);
                } else if i < j {
                    assert(old(self)@[i].1 <= seg_end_time(old(self)@));
                }
            }
        }
    }

    /// Append an entry stamped with the current wall-clock time.  A clock
    /// reading older than the newest stored entry is clamped to it, keeping
    /// the timestamps non-decreasing.
    pub fn push(&mut self, byte: Bytes)
        requires
            old(self).wf(),
            entries_size(old(self)@) + payload_seq(byte).len() <= u64::MAX,
        ensures
            final(self).wf(),
            exists|ts: u64| final(self)@ == old(self)@.push((payload_seq(byte), ts)),
    {
        let now = now_millis();
        let ts = if now < self.end_time {
            self.end_time
        } else {
            now
        };
        self.push_with_timestamp(byte, ts);
    }

    /// Get the payload at the given index.
    pub fn at(&self, index: u64) -> (r: Result<Bytes, LogError>)
        ensures
            match r {
                Ok(b) => index < self@.len() && payload_seq(b) == self@[index as int].0,
                Err(e) => index >= self@.len() && e == LogError::NotFound,
            },
    {
        if index >= self.data.len() as u64 {
            Err(LogError::NotFound)
        } else {
            Ok(payload_clone(&self.data[index as usize].0))
        }
    }

    /// Get the payload and the timestamp at the given index.
    pub fn at_with_timestamp(&self, index: u64) -> (r: Result<(Bytes, u64), LogError>)
        ensures
            match r {
                Ok(p) => index < self@.len() && payload_seq(p.0) == self@[index as int].0 && p.1
                    == self@[index as int].1,
                Err(e) => index >= self@.len() && e == LogError::NotFound,
            },
    {
        if index >= self.data.len() as u64 {
            Err(LogError::NotFound)
        } else {
            let entry = &self.data[index as usize];
            Ok((payload_clone(&entry.0), entry.1))
        }
    }

    /// The index whose timestamp matches the given one, or, when there is
    /// no exact match, the index of the entry with the next timestamp.
    pub fn index_from_timestamp(&self, timestamp: u64) -> (r: u64)
        requires
            self.wf(),
        ensures
            r <= self@.len(),
            forall|i: int| 0 <= i < r ==> #[trigger] self@[i].1 < timestamp,
            forall|i: int| r <= i < self@.len() ==> #[trigger] self@[i].1 >= timestamp,
    {
        let mut lo: usize = 0;
        let mut hi: usize = self.data.len();
        while lo < hi
            invariant
                self.wf(),
                lo <= hi <= self@.len(),
                forall|i: int| 0 <= i < lo ==> #[trigger] self@[i].1 < timestamp,
                forall|i: int| hi <= i < self@.len() ==> #[trigger] self@[i].1 >= timestamp,
            decreases hi - lo,
        {
            let mid = lo + (hi - lo) / 2;
            if self.data[mid].1 < timestamp {
                proof {
                    assert forall|i: int| 0 <= i < mid + 1 implies #[trigger] self@[i].1
                        < timestamp by {
                        assert(self@[i].1 <= self@[mid as int].1);
                    }
                }
                lo = mid + 1;
            } else {
                proof {
                    assert forall|i: int| mid <= i < self@.len() implies #[trigger] self@[i].1
                        >= timestamp by {
                        assert(self@[mid as int].1 <= self@[i].1);
                    }
                }
                hi = mid;
            }
        }
        lo as u64
    }

    /// The number of entries in the segment.
    pub fn len(&self) -> (r: u64)
        ensures
            r == self@.len(),
    {
        self.data.len() as u64
    }

    /// The total size in bytes of the payloads in the segment.
    pub fn size(&self) -> (r: u64)
        requires
            self.wf(),
        ensures
            r == entries_size(self@),
    {
        self.size
    }

    /// The first timestamp in the segment other than the sentinel 0.
    pub fn start_time(&self) -> (r: u64)
        requires
            self.wf(),
        ensures
            r == first_nonzero_ts(self@),
    {
        self.start_time
    }

    /// The timestamp of the newest entry, or 0 when the segment is empty.
    pub fn end_time(&self) -> (r: u64)
        requires
            self.wf(),
        ensures
            r == seg_end_time(self@),
    {
        self.end_time
    }

    /// Give up the segment's entries, consuming it.
    pub fn into_data(self) -> (r: Vec<(Bytes, u64)>)
        ensures
            entries_view(r@) == self@,
    {
        self.data
    }

    /// Read up to `len` payloads starting at `index` into `out`; the result
    /// is the count still missing when the segment's end was reached first.
    pub fn readv(&self, index: u64, len: u64, out: &mut Vec<Bytes>) -> (r: Result<
        u64,
        LogError,
    >)
        ensures
            match r {
                Ok(left) => {
                    let limit = if index + len > self@.len() {
                        self@.len() as int
                    } else {
                        index + len
                    };
                    &&& index < self@.len()
                    &&& left == index + len - limit
                    &&& bytes_view(final(out)@) == bytes_view(old(out)@) + payloads_of(
                        self@.subrange(index as int, limit),
                    )
                },
                Err(e) => {
                    &&& index >= self@.len()
                    &&& e == LogError::NotFound
                    &&& final(out)@ == old(out)@
                },
            },
    {
        let seglen = self.data.len();
        if index >= seglen as u64 {
            return Err(LogError::NotFound);
        }
        let idx = index as usize;
        let avail = seglen - idx;
        let take: usize = if len > avail as u64 {
            avail
        } else {
            len as usize
        };
        let left: u64 = if len > avail as u64 {
            len - avail as u64
        } else {
            0
        };
        proof {
            assert(bytes_view(out@) =~= bytes_view(old(out)@) + payloads_of(
                self@.subrange(idx as int, idx as int),
            ));
        }
        let mut i: usize = 0;
        while i < take
            invariant
                idx + take <= self.data@.len(),
                idx + take <= usize::MAX,
                i <= take,
                bytes_view(out@) == bytes_view(old(out)@) + payloads_of(
                    self@.subrange(idx as int, idx + i),
                ),
            decreases take - i,
        {
            let ghost prev = out@;
            out.push(payload_clone(&self.data[idx + i].0));
            proof {
                assert(out@ == prev.push(out@.last()));
                assert(payload_seq(out@.last()) == self@[idx + i].0);
                assert(bytes_view(out@) =~= bytes_view(prev).push(payload_seq(out@.last())));
                assert(bytes_view(out@) =~= bytes_view(old(out)@) + payloads_of(
                    self@.subrange(idx as int, idx + i + 1),
                ));
            }
            i = i + 1;
        }
        proof {
            assert(self@.subrange(idx as int, idx + take) =~= self@.subrange(
                index as int,
                if index + len > self@.len() {
                    self@.len() as int
                } else {
                    index + len
                },
            ));
        }
        Ok(left)
    }

    /// Read up to `len` entries starting at `index` into `out`, keeping the
    /// timestamps.
    pub fn readv_with_timestamps(&self, index: u64, len: u64, out: &mut Vec<(Bytes, u64)>) -> (r:
        Result<u64, LogError>)
        ensures
            match r {
                Ok(left) => {
                    let limit = if index + len > self@.len() {
                        self@.len() as int
                    } else {
                        index + len
                    };
                    &&& index < self@.len()
                    &&& left == index + len - limit
                    &&& entries_view(final(out)@) == entries_view(old(out)@) + self@.subrange(
                        index as int,
                        limit,
                    )
                },
                Err(e) => {
                    &&& index >= self@.len()
                    &&& e == LogError::NotFound
                    &&& final(out)@ == old(out)@
                },
            },
    {
        let seglen = self.data.len();
        if index >= seglen as u64 {
            return Err(LogError::NotFound);
        }
        let idx = index as usize;
        let avail = seglen - idx;
        let take: usize = if len > avail as u64 {
            avail
        } else {
            len as usize
        };
        let left: u64 = if len > avail as u64 {
            len - avail as u64
        } else {
            0
        };
        proof {
            assert(entries_view(out@) =~= entries_view(old(out)@) + self@.subrange(
                idx as int,
                idx as int,
            ));
        }
        let mut i: usize = 0;
        while i < take
            invariant
                idx + take <= self.data@.len(),
                idx + take <= usize::MAX,
                i <= take,
                entries_view(out@) == entries_view(old(out)@) + self@.subrange(
                    idx as int,
                    idx + i,
                ),
            decreases take - i,
        {
            let ghost prev = out@;
            let entry = &self.data[idx + i];
            out.push((payload_clone(&entry.0), entry.1));
            proof {
                assert(out@ == prev.push(out@.last()));
                assert(payload_seq(out@.last().0) == self@[idx + i].0);
                assert(out@.last().1 == self@[idx + i].1);
                assert(entries_view(out@) =~= entries_view(prev).push(
                    (payload_seq(out@.last().0), out@.last().1),
                ));
                assert(entries_view(out@) =~= entries_view(old(out)@) + self@.subrange(
                    idx as int,
                    idx + i + 1,
                ));
            }
            i = i + 1;
        }
        proof {
            assert(self@.subrange(idx as int, idx + take) =~= self@.subrange(
                index as int,
                if index + len > self@.len() {
                    self@.len() as int
                } else {
                    index + len
                },
            ));
        }
        Ok(left)
    }
}

/// Law: when timestamps are strictly increasing and the looked-up
/// timestamp is stored at position `i`, the insertion point returned by
/// a timestamp search is exactly `i`.
pub proof fn lemma_timestamp_search_exact(s: Seq<EntryV>, t: u64, i: int, r: u64)
    requires
        forall|a: int, b: int| 0 <= a < b < s.len() ==> #[trigger] s[a].1 < #[trigger] s[b].1,
        0 <= i < s.len(),
        s[i].1 == t,
        r <= s.len(),
        forall|j: int| 0 <= j < r ==> #[trigger] s[j].1 < t,
        forall|j: int| r <= j < s.len() ==> #[trigger] s[j].1 >= t,
    ensures
        r == i,
{
    if r < i {
        assert(s[r as int].1 < s[i].1);
        assert(s[r as int].1 >= t);
    }
    if r > i {
        assert(s[i].1 < t);
    }
}

} // verus!
