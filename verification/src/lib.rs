//! An append-only commit log for opaque byte payloads, stored in three
//! tiers: one mutable active segment, a bounded queue of frozen in-memory
//! segments, and an unbounded set of checksummed on-disk chunks.
//!
//! Writes go to the active segment; when it reaches the configured size it
//! is sealed and queued, and when the queue reaches its cap the oldest
//! frozen segment is evicted — dropped, or turned into an on-disk chunk
//! when a disk tier is configured.  Reads address entries by
//! `(segment id, offset)` and can run across all three tiers.

mod clock;
pub mod disk;
mod fnv_map;
pub mod hashing;
pub mod memory;
pub mod payload;
pub mod segment;

use vstd::prelude::*;
use bytes::Bytes;
use std::collections::VecDeque;

use disk::{disk_collect, DiskHandler, PendingChunk};
use payload::payload_seq;
use segment::{
    bytes_view, entries_size, entries_view, first_nonzero_ts, payloads_of, seg_end_time, EntryV,
    Segment,
};

verus! {

/// The ways an operation on the log can fail.
#[derive(Debug, Clone, Copy, PartialEq, Eq, Structural)]
pub enum LogError {
    /// An argument was outside the accepted range.
    InvalidInput,
    /// The requested segment, offset or timestamp does not exist in any tier.
    NotFound,
    /// A stored chunk does not decode: a truncated index, inconsistent
    /// entries, or a checksum that does not match.
    Corruption,
    /// The operation needs the disk tier, but none was configured.
    Other,
}

/// The total payload size, in bytes, over a run of segment models.
pub open spec fn sizes_total(v: Seq<Seq<EntryV>>) -> int
    decreases v.len(),
{
    if v.len() == 0 {
        0
    } else {
        sizes_total(v.drop_last()) + entries_size(v.last())
    }
}

pub proof fn lemma_sizes_total_nonneg(v: Seq<Seq<EntryV>>)
    ensures
        sizes_total(v) >= 0,
    decreases v.len(),
{
    if v.len() > 0 {
        lemma_sizes_total_nonneg(v.drop_last());
        crate::segment::lemma_entries_size_nonneg(v.last());
    }
}

pub proof fn lemma_sizes_total_push(v: Seq<Seq<EntryV>>, s: Seq<EntryV>)
    ensures
        sizes_total(v.push(s)) == sizes_total(v) + entries_size(s),
{
    assert(v.push(s).drop_last() =~= v);
    assert(v.push(s).last() == s);
}

pub proof fn lemma_sizes_total_drop_first(v: Seq<Seq<EntryV>>)
    requires
        v.len() > 0,
    ensures
        sizes_total(v) == entries_size(v[0]) + sizes_total(v.drop_first()),
    decreases v.len(),
{
    if v.len() == 1 {
        assert(v.drop_last() =~= Seq::<Seq<EntryV>>::empty());
        assert(v.drop_first() =~= Seq::<Seq<EntryV>>::empty());
        assert(v.last() == v[0]);
    } else {
        lemma_sizes_total_drop_first(v.drop_last());
        assert(v.drop_last()[0] == v[0]);
        assert(v.drop_first().drop_last() =~= v.drop_last().drop_first());
        assert(v.drop_first().last() == v.last());
    }
}

/// What a read over the frozen queue gathers: starting at queue position
/// `i` with the given offset, it takes whole segments until `left` is
/// satisfied or the queue ends.  Returns the entries taken, the count
/// still missing, and the queue position reached.
pub open spec fn frozen_collect(segs: Seq<Seq<EntryV>>, i: int, offset: u64, left: u64) -> (
    Seq<EntryV>,
    u64,
    int,
)
    decreases segs.len() - i,
{
    if left == 0 || i < 0 || i >= segs.len() {
        (Seq::empty(), left, i)
    } else {
        let s = segs[i];
        let limit = if offset + left > s.len() {
            s.len() as int
        } else {
            offset + left
        };
        let taken = s.subrange(offset as int, limit);
        let newleft = (offset + left - limit) as u64;
        let rest = frozen_collect(segs, i + 1, 0, newleft);
        (taken + rest.0, rest.1, rest.2)
    }
}


/// A timestamp lies inside a segment's time window.
pub open spec fn seg_contains_time(s: Seq<EntryV>, t: u64) -> bool {
    first_nonzero_ts(s) <= t <= seg_end_time(s)
}

/// `idx` is the position of the first entry whose timestamp is not below
/// `t`.
pub open spec fn ins_point_ok(s: Seq<EntryV>, t: u64, idx: u64) -> bool {
    &&& idx <= s.len()
    &&& forall|i: int| 0 <= i < idx ==> (#[trigger] s[i]).1 < t
    &&& forall|i: int| idx <= i < s.len() ==> (#[trigger] s[i]).1 >= t
}

/// The log which stores appended payloads in memory and moves sealed
/// segments onto the disk tier, when one is configured.
pub struct CommitLog {
    /// The id of the oldest in-memory segment.
    pub head: u64,
    /// The id of the active segment, the newest in-memory segment.
    pub tail: u64,
    /// Size in bytes at which the active segment is sealed.
    pub max_segment_size: usize,
    /// Largest number of frozen segments kept in memory.
    pub max_segments: usize,
    /// The segment receiving appends.
    pub active_segment: Segment,
    /// The sealed segments, oldest first, with ids `head..tail`.
    pub segments: VecDeque<Segment>,
    /// Total size in bytes of the sealed segments.
    pub segments_size: u64,
    /// The on-disk tier, if one was configured.
    pub disk_handler: Option<DiskHandler>,
}

impl CommitLog {
    pub open spec fn head_spec(&self) -> u64 {
        self.head
    }

    pub open spec fn tail_spec(&self) -> u64 {
        self.tail
    }

    pub open spec fn max_segment_size_spec(&self) -> int {
        self.max_segment_size as int
    }

    pub open spec fn max_segments_spec(&self) -> int {
        self.max_segments as int
    }

    /// The frozen queue's entries, oldest segment first.
    pub open spec fn frozen_view(&self) -> Seq<Seq<EntryV>> {
        Seq::new(self.segments@.len(), |i: int| self.segments@[i]@)
    }

    /// Everything the state promises: the id window matches the queue, the
    /// byte total matches the queue, every segment is sound, the queue
    /// respects its cap, and every disk id lies below the window.
    pub open spec fn wf(&self) -> bool {
        &&& self.head <= self.tail
        &&& self.tail - self.head == self.segments@.len()
        &&& self.active_segment.wf()
        &&& forall|i: int|
            0 <= i < self.segments@.len() ==> (#[trigger] self.segments@[i]).wf()
        &&& forall|i: int|
            0 <= i < self.segments@.len() ==> (#[trigger] self.segments@[i])@.len() > 0
        &&& self.segments_size == sizes_total(self.frozen_view())
        &&& self.max_segment_size >= 1024
        &&& self.segments@.len() <= self.max_segments
        &&& match self.disk_handler {
            Some(h) => {
                &&& h.wf()
                &&& h.head_spec() <= self.head
                &&& forall|id: u64| #[trigger] h.chunks_map().contains_key(id) ==> id < self.head
            },
            None => true,
        }
    }

    /// The entry stored at `(index, offset)`, in whatever tier holds it.
    pub open spec fn lookup(&self, index: u64, offset: u64) -> Option<EntryV> {
        if index > self.tail_spec() {
            None
        } else if index < self.head_spec() {
            match self.disk_handler {
                Some(h) => if h.chunks_map().contains_key(index) && offset
                    < h.chunks_map()[index].chunk_entries().len() {
                    Some(h.chunks_map()[index].chunk_entries()[offset as int])
                } else {
                    None
                },
                None => None,
            }
        } else if index < self.tail_spec() {
            let seg = self.frozen_view()[index - self.head_spec()];
            if offset < seg.len() {
                Some(seg[offset as int])
            } else {
                None
            }
        } else {
            if offset < self.active_segment@.len() {
                Some(self.active_segment@[offset as int])
            } else {
                None
            }
        }
    }

    /// Whether the next append will seal the active segment.
    pub open spec fn seal_pending(&self) -> bool {
        entries_size(self.active_segment@) >= self.max_segment_size_spec()
    }

    /// Whether sealing will also evict a segment: the queue, with the
    /// newly sealed segment in it, would exceed its cap.
    pub open spec fn evict_pending(&self) -> bool {
        self.seal_pending() && self.frozen_view().len() >= self.max_segments_spec()
    }

    /// The frozen queue right after sealing, before any eviction.
    pub open spec fn sealed_queue(&self) -> Seq<Seq<EntryV>> {
        self.frozen_view().push(self.active_segment@)
    }

    /// How one append changes the state: the retention step, then the push
    /// of `(p, ts)` into the active segment.
    pub open spec fn append_transition(pre: CommitLog, post: CommitLog, p: Seq<u8>, ts: u64)
        -> bool {
        let sealed = pre.seal_pending();
        let evict = pre.evict_pending();
        &&& post.tail_spec() == pre.tail_spec() + if sealed {
            1int
        } else {
            0int
        }
        &&& post.head_spec() == pre.head_spec() + if evict {
            1int
        } else {
            0int
        }
        &&& post.frozen_view() == (if !sealed {
            pre.frozen_view()
        } else if evict {
            pre.sealed_queue().drop_first()
        } else {
            pre.sealed_queue()
        })
        &&& post.active_segment@ == (if sealed {
            Seq::<EntryV>::empty()
        } else {
            pre.active_segment@
        }).push((p, ts))
        &&& post.max_segment_size_spec() == pre.max_segment_size_spec()
        &&& post.max_segments_spec() == pre.max_segments_spec()
        &&& match (pre.disk_handler, post.disk_handler) {
            (Some(h), Some(h2)) => if evict {
                &&& h2.chunks_map() == h.chunks_map().insert(
                    pre.head_spec(),
                    h2.chunks_map()[pre.head_spec()],
                )
                &&& h2.chunks_map()[pre.head_spec()].chunk_entries() == pre.sealed_queue()[0]
                &&& h2.pending_spec().len() == h.pending_spec().len() + 1
                &&& h2.pending_spec() == h.pending_spec().push(h2.pending_spec().last())
            } else {
                h2.chunks_map() == h.chunks_map() && h2.pending_spec() == h.pending_spec()
            },
            (None, None) => true,
            _ => false,
        }
    }

    /// Create a new log.  The minimum segment size is 1024 bytes; smaller
    /// values are rejected.  When a disk tier is given, in-memory ids
    /// start right after the largest id on the disk.
    pub fn new(max_segment_size: usize, max_segments: usize, disk: Option<DiskHandler>) -> (r:
        Result<CommitLog, LogError>)
        requires
            match disk {
                Some(h) => {
                    &&& h.wf()
                    &&& (h.chunks_map().dom() == Set::<u64>::empty() ==> h.head_spec() == 0
                        && h.tail_spec() == 0)
                    &&& (h.chunks_map().dom() != Set::<u64>::empty() ==> h.tail_spec()
                        < u64::MAX)
                },
                None => true,
            },
        ensures
            match r {
                Ok(log) => {
                    &&& max_segment_size >= 1024
                    &&& log.wf()
                    &&& log.frozen_view() =~= Seq::<Seq<EntryV>>::empty()
                    &&& log.active_segment@ =~= Seq::<EntryV>::empty()
                    &&& log.max_segment_size_spec() == max_segment_size
                    &&& log.max_segments_spec() == max_segments
                    &&& log.head_spec() == log.tail_spec()
                    &&& match (disk, log.disk_handler) {
                        (Some(h), Some(h2)) => {
                            &&& h2 == h
                            &&& (h.chunks_map().dom() == Set::<u64>::empty() ==> log.tail_spec()
                                == 0)
                            &&& (h.chunks_map().dom() != Set::<u64>::empty() ==> log.tail_spec()
                                == h.tail_spec() + 1)
                        },
                        (None, None) => log.tail_spec() == 0,
                        _ => false,
                    }
                },
                Err(e) => {
                    &&& e == LogError::InvalidInput
                    &&& max_segment_size < 1024
                },
            },
    {
        if max_segment_size < 1024 {
            return Err(LogError::InvalidInput);
        }
        let head: u64 = match &disk {
            Some(h) => {
                if h.len() == 0 {
                    proof {
                        disk::lemma_handler_wf_facts(*h);
                        let hd = h.chunks_map().dom();
                        hd.lemma_len0_is_empty();
                        assert(hd =~= Set::<u64>::empty());
                    }
                    0
                } else {
                    proof {
                        disk::lemma_handler_wf_facts(*h);
                        let hd = h.chunks_map().dom();
                        assert(hd != Set::<u64>::empty()) by {
                            if hd == Set::<u64>::empty() {
                                assert(hd.len() == 0);
                            }
                        }
                        assert(exists|y: u64| h.chunks_map().contains_key(y)) by {
                            if !(exists|y: u64| h.chunks_map().contains_key(y)) {
                                assert(hd =~= Set::<u64>::empty());
                            }
                        }
                        let y = choose|y: u64| h.chunks_map().contains_key(y);
                        assert(h.head_spec() <= y <= h.tail_spec());
                    }
                    h.tail() + 1
                }
            },
            None => 0,
        };
        let log = CommitLog {
            head,
            tail: head,
            max_segment_size,
            max_segments,
            active_segment: Segment::with_capacity(max_segment_size as u64),
            segments: VecDeque::with_capacity(max_segments),
            segments_size: 0,
            disk_handler: disk,
        };
        proof {
            assert(log.frozen_view() =~= Seq::<Seq<EntryV>>::empty());
            if log.disk_handler is Some {
                let h = log.disk_handler->0;
                disk::lemma_handler_wf_facts(h);
                assert forall|id: u64| #[trigger] h.chunks_map().contains_key(id)
                    implies id < log.head_spec() by {
                    assert(h.chunks_map().dom() != Set::<u64>::empty());
                    assert(id <= h.tail_spec());
                }
            }
        }
        Ok(log)
    }

    /// The id and offset at which the next append will land: a byte-full
    /// active segment is about to be sealed, so the next append opens the
    /// segment after it.
    pub fn next_offset(&self) -> (r: (u64, u64))
        requires
            self.wf(),
            self.tail_spec() < u64::MAX,
        ensures
            r == if self.seal_pending() {
                ((self.tail_spec() + 1) as u64, 0u64)
            } else {
                (self.tail_spec(), self.active_segment@.len() as u64)
            },
    {
        if self.active_segment.size() >= self.max_segment_size as u64 {
            (self.tail + 1, 0)
        } else {
            (self.tail, self.active_segment.len())
        }
    }

    /// Get the number of chunks on the disk.
    pub fn disk_len(&self) -> (r: Result<u64, LogError>)
        requires
            self.wf(),
        ensures
            match (r, self.disk_handler) {
                (Ok(n), Some(h)) => n == h.chunks_map().dom().len(),
                (Err(e), None) => e == LogError::Other,
                _ => false,
            },
    {
        match &self.disk_handler {
            Some(h) => Ok(h.len()),
            None => Err(LogError::Other),
        }
    }

    /// The id of the oldest stored segment — on disk when a disk tier
    /// exists — and the id of the active segment.
    pub fn head_and_tail(&self) -> (r: (u64, u64))
        ensures
            r.1 == self.tail_spec(),
            r.0 == match self.disk_handler {
                Some(h) => h.head_spec(),
                None => self.head_spec(),
            },
    {
        (
            match &self.disk_handler {
                Some(handler) => handler.head(),
                None => self.head,
            },
            self.tail,
        )
    }

    /// Seal the active segment when it is full; if the queue then
    /// exceeds its cap, evict its oldest segment — the freshly sealed
    /// one when the cap is zero.
    fn apply_retention(&mut self) -> (r: Result<(), LogError>)
        requires
            old(self).wf(),
            old(self).tail_spec() < u64::MAX,
            sizes_total(old(self).frozen_view()) + entries_size(old(self).active_segment@)
                <= u64::MAX,
        ensures
            match r {
                Ok(_) => {
                    &&& final(self).wf()
                    &&& final(self).tail_spec() == old(self).tail_spec() + if old(self).seal_pending() {
                        1int
                    } else {
                        0int
                    }
                    &&& final(self).head_spec() == old(self).head_spec() + if old(self).evict_pending() {
                        1int
                    } else {
                        0int
                    }
                    &&& final(self).frozen_view() == (if !old(self).seal_pending() {
                        old(self).frozen_view()
                    } else if old(self).evict_pending() {
                        old(self).sealed_queue().drop_first()
                    } else {
                        old(self).sealed_queue()
                    })
                    &&& final(self).active_segment@ == if old(self).seal_pending() {
                        Seq::<EntryV>::empty()
                    } else {
                        old(self).active_segment@
                    }
                    &&& final(self).max_segment_size_spec() == old(self).max_segment_size_spec()
                    &&& final(self).max_segments_spec() == old(self).max_segments_spec()
                    &&& match (old(self).disk_handler, final(self).disk_handler) {
                        (Some(h), Some(h2)) => if old(self).evict_pending() {
                            &&& h2.chunks_map() == h.chunks_map().insert(
                                old(self).head_spec(),
                                h2.chunks_map()[old(self).head_spec()],
                            )
                            &&& h2.chunks_map()[old(self).head_spec()].chunk_entries()
                                == old(self).sealed_queue()[0]
                            &&& h2.pending_spec().len() == h.pending_spec().len() + 1
                            &&& h2.pending_spec() == h.pending_spec().push(
                                h2.pending_spec().last(),
                            )
                        } else {
                            h2.chunks_map() == h.chunks_map() && h2.pending_spec()
                                == h.pending_spec()
                        },
                        (None, None) => true,
                        _ => false,
                    }
                    &&& !old(self).seal_pending() ==> *final(self) == *old(self)
                },
                Err(_) => false,
            },
    {
        if self.active_segment.size() >= self.max_segment_size as u64 {
            let mut sealed = Segment::with_capacity(self.max_segment_size as u64);
            core::mem::swap(&mut sealed, &mut self.active_segment);
            let ghost pre_frozen = self.frozen_view();
            proof {
                crate::segment::lemma_entries_size_nonneg(sealed@);
            }
            self.segments_size = self.segments_size + sealed.size();
            self.segments.push_back(sealed);
            self.tail = self.tail + 1;
            proof {
                assert(self.frozen_view() =~= pre_frozen.push(old(self).active_segment@));
                assert(self.frozen_view() == old(self).sealed_queue());
                lemma_sizes_total_push(pre_frozen, old(self).active_segment@);
                assert(old(self).active_segment@.len() > 0) by {
                    if old(self).active_segment@.len() == 0 {
                        assert(entries_size(old(self).active_segment@) == 0);
                    }
                }
            }
            if self.segments.len() > self.max_segments {
                let ghost queued = self.frozen_view();
                let removed_segment = match self.segments.pop_front() {
                    Some(s) => s,
                    None => {
                        proof {
                            assert(false);
                        }
                        return Err(LogError::NotFound);
                    },
                };
                proof {
                    assert(queued[0] == removed_segment@);
                    lemma_sizes_total_drop_first(queued);
                    lemma_sizes_total_nonneg(queued.drop_first());
                    assert(Seq::new(self.segments@.len(), |i: int| self.segments@[i]@)
                        =~= queued.drop_first());
                    crate::segment::lemma_entries_size_nonneg(removed_segment@);
                    crate::segment::lemma_segment_wf_facts(removed_segment);
                }
                self.segments_size = self.segments_size - removed_segment.size();
                let evicted_head = self.head;
                let mut moved_to_disk = false;
                match self.disk_handler {
                    Some(_) => {
                        moved_to_disk = true;
                    },
                    None => {},
                }
                if moved_to_disk {
                    let data = removed_segment.into_data();
                    match &mut self.disk_handler {
                        Some(files) => {
                            match files.insert(evicted_head, data) {
                                Ok(_) => {},
                                Err(_) => {
                                    proof {
                                        assert(false);
                                    }
                                    return Err(LogError::NotFound);
                                },
                            }
                        },
                        None => {
                            proof {
                                assert(false);
                            }
                            return Err(LogError::NotFound);
                        },
                    }
                }
                self.head = self.head + 1;
            }
        } else {
            proof {
                assert(self.frozen_view() == old(self).frozen_view()) by {
                    assert(self.frozen_view() =~= old(self).frozen_view());
                }
            }
        }
        Ok(())
    }

    /// Append a payload, stamped with the wall clock.  Returns the id of
    /// the segment it landed in and the new count of that segment.
    pub fn append(&mut self, bytes: Bytes) -> (r: Result<(u64, u64), LogError>)
        requires
            old(self).wf(),
            old(self).tail_spec() < u64::MAX,
            sizes_total(old(self).frozen_view()) + entries_size(old(self).active_segment@)
                <= u64::MAX,
            entries_size(old(self).active_segment@) + payload_seq(bytes).len() <= u64::MAX,
        ensures
            match r {
                Ok(p) => {
                    &&& final(self).wf()
                    &&& exists|ts: u64|
                        #[trigger] CommitLog::append_transition(
                            *old(self),
                            *final(self),
                            payload_seq(bytes),
                            ts,
                        )
                    &&& p.0 == final(self).tail_spec()
                    &&& p.1 == final(self).active_segment@.len()
                    &&& p.1 >= 1
                    &&& final(self).active_segment@.last().0 == payload_seq(bytes)
                    &&& entries_size(final(self).active_segment@)
                        < final(self).max_segment_size_spec() + payload_seq(bytes).len()
                    &&& final(self).lookup(p.0, (p.1 - 1) as u64) matches Some(e) && e.0
                        == payload_seq(bytes)
                },
                Err(_) => false,
            },
    {
        match self.apply_retention() {
            Ok(_) => {},
            Err(e) => {
                proof {
                    assert(false);
                }
                return Err(e);
            },
        }
        proof {
            crate::segment::lemma_entries_size_nonneg(self.active_segment@);
        }
        let ghost mid = *self;
        self.active_segment.push(bytes);
        proof {
            let p = payload_seq(bytes);
            let ts = choose|ts: u64|
                self.active_segment@ == mid.active_segment@.push((p, ts));
            crate::segment::lemma_entries_size_push(mid.active_segment@, (p, ts));
            assert(CommitLog::append_transition(*old(self), *self, p, ts));
            self.lemma_lookup_active((self.active_segment@.len() - 1) as u64);
        }
        Ok((self.tail, self.active_segment.len()))
    }

    /// Append a payload with the given timestamp.
    pub fn append_with_timestamp(&mut self, bytes: Bytes, timestamp: u64) -> (r: Result<
        (u64, u64),
        LogError,
    >)
        requires
            old(self).wf(),
            old(self).tail_spec() < u64::MAX,
            timestamp >= seg_end_time(old(self).active_segment@),
            sizes_total(old(self).frozen_view()) + entries_size(old(self).active_segment@)
                <= u64::MAX,
            entries_size(old(self).active_segment@) + payload_seq(bytes).len() <= u64::MAX,
        ensures
            match r {
                Ok(p) => {
                    &&& final(self).wf()
                    &&& CommitLog::append_transition(
                        *old(self),
                        *final(self),
                        payload_seq(bytes),
                        timestamp,
                    )
                    &&& p.0 == final(self).tail_spec()
                    &&& p.1 == final(self).active_segment@.len()
                    &&& p.1 >= 1
                    &&& entries_size(final(self).active_segment@)
                        < final(self).max_segment_size_spec() + payload_seq(bytes).len()
                    &&& final(self).lookup(p.0, (p.1 - 1) as u64) == Some(
                        (payload_seq(bytes), timestamp),
                    )
                },
                Err(_) => false,
            },
    {
        match self.apply_retention() {
            Ok(_) => {},
            Err(e) => {
                proof {
                    assert(false);
                }
                return Err(e);
            },
        }
        proof {
            crate::segment::lemma_entries_size_nonneg(self.active_segment@);
        }
        let ghost mid = *self;
        self.active_segment.push_with_timestamp(bytes, timestamp);
        proof {
            let p = payload_seq(bytes);
            crate::segment::lemma_entries_size_push(mid.active_segment@, (p, timestamp));
            assert(CommitLog::append_transition(*old(self), *self, p, timestamp));
            self.lemma_lookup_active((self.active_segment@.len() - 1) as u64);
        }
        Ok((self.tail, self.active_segment.len()))
    }

    /// The entry at an in-range offset of the active segment is found by
    /// `lookup` under the active id.
    proof fn lemma_lookup_active(&self, offset: u64)
        requires
            self.head_spec() <= self.tail_spec(),
            offset < self.active_segment@.len(),
        ensures
            self.lookup(self.tail_spec(), offset) == Some(self.active_segment@[offset as int]),
    {
    }


    /// What reading gathers from the in-memory tiers: from the frozen
    /// queue starting at `(index, offset)` and then, when more is still
    /// wanted, from the active segment.  `None` is a read that fails.
    pub open spec fn mem_collect(&self, index: u64, offset: u64, left: u64) -> Option<
        (Seq<EntryV>, u64, u64, u64),
    >
        recommends
            self.head_spec() <= index <= self.tail_spec(),
    {
        if left == 0 {
            Some((Seq::empty(), 0, index, offset))
        } else if index < self.tail_spec() {
            let i0 = index - self.head_spec();
            let first = self.frozen_view()[i0];
            if offset >= first.len() {
                None
            } else {
                let fr = frozen_collect(self.frozen_view(), i0, offset, left);
                if fr.1 == 0 {
                    Some((fr.0, 0, (self.head_spec() + fr.2) as u64, 0))
                } else {
                    let a = self.active_segment@;
                    if a.len() == 0 {
                        None
                    } else {
                        let limit = if fr.1 > a.len() {
                            a.len() as int
                        } else {
                            fr.1 as int
                        };
                        Some(
                            (
                                fr.0 + a.subrange(0, limit),
                                (fr.1 - limit) as u64,
                                self.tail_spec(),
                                0,
                            ),
                        )
                    }
                }
            }
        } else {
            let a = self.active_segment@;
            if offset >= a.len() {
                None
            } else {
                let limit = if offset + left > a.len() {
                    a.len() as int
                } else {
                    offset + left
                };
                Some((a.subrange(offset as int, limit), (offset + left - limit) as u64, index, offset))
            }
        }
    }

    /// What a vectored read returns: the entries gathered across the
    /// tiers, the count still missing, and the continuation cursor.
    /// `None` is a read that fails with `NotFound`.
    pub open spec fn readv_spec(&self, index: u64, offset: u64, len: u64) -> Option<
        (Seq<EntryV>, u64, u64, u64),
    > {
        if index > self.tail_spec() {
            None
        } else if index < self.head_spec() {
            match self.disk_handler {
                None => None,
                Some(h) => {
                    if h.chunks_map().contains_key(index) && offset
                        <= h.chunks_map()[index].chunk_entries().len() {
                        let d = disk_collect(h.chunks_map(), h.tail_spec(), index, offset, len);
                        let id1 = if d.2 is Some {
                            d.2->0
                        } else {
                            self.head_spec()
                        };
                        if d.1 == 0 {
                            Some((d.0, 0, id1, 0))
                        } else {
                            match self.mem_collect(self.head_spec(), 0, d.1) {
                                None => None,
                                Some(m) => Some((d.0 + m.0, m.1, m.2, m.3)),
                            }
                        }
                    } else {
                        None
                    }
                },
            }
        } else {
            self.mem_collect(index, offset, len)
        }
    }

    /// Read up to `len` payloads starting at `(index, offset)`, crossing
    /// tier boundaries until satisfied or out of data.  Returns the
    /// payloads, the count still missing, and the cursor to resume at.
    #[verifier::rlimit(80)]
    pub fn readv(&self, index: u64, offset: u64, len: u64) -> (r: Result<
        (Vec<Bytes>, u64, u64, u64),
        LogError,
    >)
        requires
            self.wf(),
        ensures
            match r {
                Ok(t) => self.readv_spec(index, offset, len) matches Some(q) && bytes_view(t.0@)
                    == payloads_of(q.0) && t.1 == q.1 && t.2 == q.2 && t.3 == q.3,
                Err(e) => e == LogError::NotFound && self.readv_spec(index, offset, len) is None,
            },
    {
        if index > self.tail {
            return Err(LogError::NotFound);
        }
        let mut remaining_len = len;
        let mut out: Vec<Bytes> = Vec::new();
        let mut cur_index = index;
        let mut cur_offset = offset;
        let ghost mut disk_part: Seq<EntryV> = Seq::empty();
        if cur_index < self.head {
            match &self.disk_handler {
                Some(handler) => {
                    let (new_len, next_index) = match handler.readv(
                        cur_index,
                        cur_offset,
                        remaining_len,
                        &mut out,
                    ) {
                        Ok(p) => p,
                        Err(_) => {
                            return Err(LogError::NotFound);
                        },
                    };
                    proof {
                        disk_part = disk_collect(
                            handler.chunks_map(),
                            handler.tail_spec(),
                            index,
                            offset,
                            len,
                        ).0;
                        disk::lemma_disk_collect_left(
                            handler.chunks_map(),
                            handler.tail_spec(),
                            index,
                            offset,
                            len,
                        );
                    }
                    remaining_len = new_len;
                    cur_index = match next_index {
                        Some(i) => i,
                        None => self.head,
                    };
                    cur_offset = 0;
                },
                None => {
                    return Err(LogError::NotFound);
                },
            }
        }
        if remaining_len == 0 {
            proof {
                assert(bytes_view(out@) =~= payloads_of(disk_part)) by {
                    if index < self.head_spec() {
                        assert(bytes_view(out@) =~= bytes_view(Seq::<Bytes>::empty())
                            + payloads_of(disk_part));
                    } else {
                        assert(len == 0);
                        assert(bytes_view(out@) =~= Seq::<Seq<u8>>::empty());
                        assert(payloads_of(disk_part) =~= Seq::<Seq<u8>>::empty());
                    }
                }
                if !(index < self.head_spec()) {
                    let m = self.mem_collect(index, offset, len)->0;
                    assert(payloads_of(m.0) =~= Seq::<Seq<u8>>::empty());
                }
            }
            return Ok((out, remaining_len, cur_index, cur_offset));
        }
        let ghost mem_index = cur_index;
        let ghost mem_offset = cur_offset;
        let ghost mem_left = remaining_len;
        let ghost fv = self.frozen_view();
        let ghost mut acc: Seq<EntryV> = Seq::empty();
        let ghost mut started = false;
        proof {
            match self.mem_collect(mem_index, mem_offset, mem_left) {
                Some(m) => {
                    if index >= self.head_spec() {
                        assert(disk_part + m.0 =~= m.0);
                    }
                },
                None => {},
            }
        }
        while remaining_len > 0 && cur_index < self.tail
            invariant
                self.wf(),
                self.head_spec() <= mem_index <= self.tail_spec(),
                self.head_spec() <= cur_index <= self.tail_spec(),
                fv == self.frozen_view(),
                mem_left > 0,
                started ==> cur_offset == 0,
                !started ==> cur_index == mem_index && cur_offset == mem_offset
                    && remaining_len == mem_left && acc =~= Seq::<EntryV>::empty(),
                bytes_view(out@) == payloads_of(disk_part) + payloads_of(acc),
                started ==> mem_index < self.tail_spec() && mem_offset < fv[mem_index
                    - self.head_spec()].len(),
                started ==> frozen_collect(fv, mem_index - self.head_spec(), mem_offset, mem_left)
                    == {
                    let rest = frozen_collect(
                        fv,
                        cur_index - self.head_spec(),
                        0,
                        remaining_len,
                    );
                    (acc + rest.0, rest.1, rest.2)
                },
                match self.mem_collect(mem_index, mem_offset, mem_left) {
                    None => self.readv_spec(index, offset, len) is None,
                    Some(m) => self.readv_spec(index, offset, len) == Some(
                        (disk_part + m.0, m.1, m.2, m.3),
                    ),
                },
            decreases self.tail_spec() - cur_index,
        {
            let seg = &self.segments[(cur_index - self.head) as usize];
            let ghost pre_left = remaining_len;
            let ghost pre_i = cur_index - self.head_spec();
            let ghost off_used = cur_offset;
            let ghost acc_old = acc;
            let ghost was_started = started;
            remaining_len = match seg.readv(cur_offset, remaining_len, &mut out) {
                Ok(l) => l,
                Err(e) => {
                    proof {
                        if started {
                            assert(false);
                        }
                        assert(self.mem_collect(mem_index, mem_offset, mem_left) is None);
                    }
                    return Err(e);
                },
            };
            proof {
                let s = fv[pre_i];
                let limit = if off_used + pre_left > s.len() {
                    s.len() as int
                } else {
                    off_used + pre_left
                };
                let taken = s.subrange(off_used as int, limit);
                let rest_new = frozen_collect(fv, pre_i + 1, 0, remaining_len);
                assert(frozen_collect(fv, pre_i, off_used, pre_left) == (
                    taken + rest_new.0,
                    rest_new.1,
                    rest_new.2,
                ));
                assert(bytes_view(out@) =~= payloads_of(disk_part) + payloads_of(
                    acc_old + taken,
                ));
                acc = acc_old + taken;
                started = true;
                if !was_started {
                    assert(acc =~= taken);
                } else {
                    assert(acc_old + (taken + rest_new.0) =~= acc + rest_new.0);
                }
            }
            cur_index = cur_index + 1;
            cur_offset = 0;
        }
        if remaining_len == 0 {
            proof {
                let fr = frozen_collect(fv, mem_index - self.head_spec(), mem_offset, mem_left);
                assert(started) by {
                    if !started {
                        assert(remaining_len == mem_left);
                    }
                }
                let rest = frozen_collect(fv, cur_index - self.head_spec(), 0, 0u64);
                assert(rest.0 =~= Seq::<EntryV>::empty());
                assert(fr == (acc + rest.0, 0u64, cur_index - self.head_spec()));
                assert(acc + Seq::<EntryV>::empty() =~= acc);
                assert(fr.0 == acc && fr.1 == 0);
                let m = self.mem_collect(mem_index, mem_offset, mem_left)->0;
                assert(m == (fr.0, 0u64, (self.head_spec() + fr.2) as u64, 0u64));
                assert(bytes_view(out@) =~= payloads_of(disk_part + m.0));
            }
            return Ok((out, remaining_len, cur_index, cur_offset));
        }
        let ghost pre_active_left = remaining_len;
        let ghost final_off = cur_offset;
        remaining_len = match self.active_segment.readv(cur_offset, remaining_len, &mut out) {
            Ok(l) => l,
            Err(e) => {
                proof {
                    assert(cur_index == self.tail_spec());
                    if started {
                        let fr = frozen_collect(
                            fv,
                            mem_index - self.head_spec(),
                            mem_offset,
                            mem_left,
                        );
                        let rest = frozen_collect(
                            fv,
                            cur_index - self.head_spec(),
                            0,
                            remaining_len,
                        );
                        assert(cur_index - self.head_spec() >= fv.len());
                        assert(rest == (Seq::<EntryV>::empty(), remaining_len, cur_index
                            - self.head_spec()));
                        assert(fr.1 == remaining_len > 0);
                        assert(final_off == 0);
                        assert(self.active_segment@.len() == 0);
                        assert(self.mem_collect(mem_index, mem_offset, mem_left) is None);
                    } else {
                        assert(mem_index == self.tail_spec());
                        assert(self.mem_collect(mem_index, mem_offset, mem_left) is None);
                    }
                }
                return Err(e);
            },
        };
        proof {
            let a = self.active_segment@;
            let limit = if final_off + pre_active_left > a.len() {
                a.len() as int
            } else {
                final_off + pre_active_left
            };
            let taken = a.subrange(final_off as int, limit);
            assert(bytes_view(out@) =~= payloads_of(disk_part) + payloads_of(acc + taken));
            assert(cur_index == self.tail_spec());
            let m = self.mem_collect(mem_index, mem_offset, mem_left);
            if started {
                let fr = frozen_collect(fv, mem_index - self.head_spec(), mem_offset, mem_left);
                let rest = frozen_collect(fv, cur_index - self.head_spec(), 0, pre_active_left);
                assert(rest == (Seq::<EntryV>::empty(), pre_active_left, cur_index
                    - self.head_spec()));
                assert(acc + Seq::<EntryV>::empty() =~= acc);
                assert(fr.0 == acc && fr.1 == pre_active_left);
                assert(final_off == 0);
                assert(a.len() > 0);
                assert(m is Some);
                let mv = m->0;
                assert(mv.0 == fr.0 + a.subrange(0, limit));
                assert(bytes_view(out@) =~= payloads_of(disk_part + mv.0));
            } else {
                assert(mem_index == self.tail_spec());
                assert(m is Some);
                let mv = m->0;
                assert(acc + taken =~= taken);
                assert(bytes_view(out@) =~= payloads_of(disk_part + mv.0));
            }
        }
        Ok((out, remaining_len, cur_index, cur_offset))
    }

    /// Read up to `len` entries and their timestamps starting at
    /// `(index, offset)`, crossing tier boundaries until satisfied or out
    /// of data.
    #[verifier::rlimit(80)]
    pub fn readv_with_timestamps(&self, index: u64, offset: u64, len: u64) -> (r: Result<
        (Vec<(Bytes, u64)>, u64, u64, u64),
        LogError,
    >)
        requires
            self.wf(),
        ensures
            match r {
                Ok(t) => self.readv_spec(index, offset, len) matches Some(q) && entries_view(t.0@)
                    == q.0 && t.1 == q.1 && t.2 == q.2 && t.3 == q.3,
                Err(e) => e == LogError::NotFound && self.readv_spec(index, offset, len) is None,
            },
    {
        if index > self.tail {
            return Err(LogError::NotFound);
        }
        let mut remaining_len = len;
        let mut out: Vec<(Bytes, u64)> = Vec::new();
        let mut cur_index = index;
        let mut cur_offset = offset;
        let ghost mut disk_part: Seq<EntryV> = Seq::empty();
        if cur_index < self.head {
            match &self.disk_handler {
                Some(handler) => {
                    let (new_len, next_index) = match handler.readv_with_timestamps(
                        cur_index,
                        cur_offset,
                        remaining_len,
                        &mut out,
                    ) {
                        Ok(p) => p,
                        Err(_) => {
                            return Err(LogError::NotFound);
                        },
                    };
                    proof {
                        disk_part = disk_collect(
                            handler.chunks_map(),
                            handler.tail_spec(),
                            index,
                            offset,
                            len,
                        ).0;
                        disk::lemma_disk_collect_left(
                            handler.chunks_map(),
                            handler.tail_spec(),
                            index,
                            offset,
                            len,
                        );
                    }
                    remaining_len = new_len;
                    cur_index = match next_index {
                        Some(i) => i,
                        None => self.head,
                    };
                    cur_offset = 0;
                },
                None => {
                    return Err(LogError::NotFound);
                },
            }
        }
        if remaining_len == 0 {
            proof {
                assert(entries_view(out@) =~= disk_part) by {
                    if index < self.head_spec() {
                        assert(entries_view(out@) =~= entries_view(Seq::<(Bytes, u64)>::empty())
                            + disk_part);
                    } else {
                        assert(len == 0);
                        assert(entries_view(out@) =~= Seq::<EntryV>::empty());
                        assert(disk_part =~= Seq::<EntryV>::empty());
                    }
                }
                if !(index < self.head_spec()) {
                    let m = self.mem_collect(index, offset, len)->0;
                    assert(m.0 =~= Seq::<EntryV>::empty());
                }
            }
            return Ok((out, remaining_len, cur_index, cur_offset));
        }
        let ghost mem_index = cur_index;
        let ghost mem_offset = cur_offset;
        let ghost mem_left = remaining_len;
        let ghost fv = self.frozen_view();
        let ghost mut acc: Seq<EntryV> = Seq::empty();
        let ghost mut started = false;
        proof {
            match self.mem_collect(mem_index, mem_offset, mem_left) {
                Some(m) => {
                    if index >= self.head_spec() {
                        assert(disk_part + m.0 =~= m.0);
                    }
                },
                None => {},
            }
        }
        while remaining_len > 0 && cur_index < self.tail
            invariant
                self.wf(),
                self.head_spec() <= mem_index <= self.tail_spec(),
                self.head_spec() <= cur_index <= self.tail_spec(),
                fv == self.frozen_view(),
                mem_left > 0,
                started ==> cur_offset == 0,
                !started ==> cur_index == mem_index && cur_offset == mem_offset
                    && remaining_len == mem_left && acc =~= Seq::<EntryV>::empty(),
                entries_view(out@) == disk_part + acc,
                started ==> mem_index < self.tail_spec() && mem_offset < fv[mem_index
                    - self.head_spec()].len(),
                started ==> frozen_collect(fv, mem_index - self.head_spec(), mem_offset, mem_left)
                    == {
                    let rest = frozen_collect(
                        fv,
                        cur_index - self.head_spec(),
                        0,
                        remaining_len,
                    );
                    (acc + rest.0, rest.1, rest.2)
                },
                match self.mem_collect(mem_index, mem_offset, mem_left) {
                    None => self.readv_spec(index, offset, len) is None,
                    Some(m) => self.readv_spec(index, offset, len) == Some(
                        (disk_part + m.0, m.1, m.2, m.3),
                    ),
                },
            decreases self.tail_spec() - cur_index,
        {
            let seg = &self.segments[(cur_index - self.head) as usize];
            let ghost pre_left = remaining_len;
            let ghost pre_i = cur_index - self.head_spec();
            let ghost off_used = cur_offset;
            let ghost acc_old = acc;
            let ghost was_started = started;
            remaining_len = match seg.readv_with_timestamps(cur_offset, remaining_len, &mut out) {
                Ok(l) => l,
                Err(e) => {
                    proof {
                        if started {
                            assert(false);
                        }
                        assert(self.mem_collect(mem_index, mem_offset, mem_left) is None);
                    }
                    return Err(e);
                },
            };
            proof {
                let s = fv[pre_i];
                let limit = if off_used + pre_left > s.len() {
                    s.len() as int
                } else {
                    off_used + pre_left
                };
                let taken = s.subrange(off_used as int, limit);
                let rest_new = frozen_collect(fv, pre_i + 1, 0, remaining_len);
                assert(frozen_collect(fv, pre_i, off_used, pre_left) == (
                    taken + rest_new.0,
                    rest_new.1,
                    rest_new.2,
                ));
                assert(entries_view(out@) =~= disk_part + (acc_old + taken));
                acc = acc_old + taken;
                started = true;
                if !was_started {
                    assert(acc =~= taken);
                } else {
                    assert(acc_old + (taken + rest_new.0) =~= acc + rest_new.0);
                }
            }
            cur_index = cur_index + 1;
            cur_offset = 0;
        }
        if remaining_len == 0 {
            proof {
                let fr = frozen_collect(fv, mem_index - self.head_spec(), mem_offset, mem_left);
                assert(started) by {
                    if !started {
                        assert(remaining_len == mem_left);
                    }
                }
                let rest = frozen_collect(fv, cur_index - self.head_spec(), 0, 0u64);
                assert(rest.0 =~= Seq::<EntryV>::empty());
                assert(fr == (acc + rest.0, 0u64, cur_index - self.head_spec()));
                assert(acc + Seq::<EntryV>::empty() =~= acc);
                assert(fr.0 == acc && fr.1 == 0);
                let m = self.mem_collect(mem_index, mem_offset, mem_left)->0;
                assert(m == (fr.0, 0u64, (self.head_spec() + fr.2) as u64, 0u64));
                assert(entries_view(out@) =~= disk_part + m.0);
            }
            return Ok((out, remaining_len, cur_index, cur_offset));
        }
        let ghost pre_active_left = remaining_len;
        let ghost final_off = cur_offset;
        remaining_len = match self.active_segment.readv_with_timestamps(cur_offset, remaining_len, &mut out) {
            Ok(l) => l,
            Err(e) => {
                proof {
                    assert(cur_index == self.tail_spec());
                    if started {
                        let fr = frozen_collect(
                            fv,
                            mem_index - self.head_spec(),
                            mem_offset,
                            mem_left,
                        );
                        let rest = frozen_collect(
                            fv,
                            cur_index - self.head_spec(),
                            0,
                            remaining_len,
                        );
                        assert(cur_index - self.head_spec() >= fv.len());
                        assert(rest == (Seq::<EntryV>::empty(), remaining_len, cur_index
                            - self.head_spec()));
                        assert(fr.1 == remaining_len > 0);
                        assert(final_off == 0);
                        assert(self.active_segment@.len() == 0);
                        assert(self.mem_collect(mem_index, mem_offset, mem_left) is None);
                    } else {
                        assert(mem_index == self.tail_spec());
                        assert(self.mem_collect(mem_index, mem_offset, mem_left) is None);
                    }
                }
                return Err(e);
            },
        };
        proof {
            let a = self.active_segment@;
            let limit = if final_off + pre_active_left > a.len() {
                a.len() as int
            } else {
                final_off + pre_active_left
            };
            let taken = a.subrange(final_off as int, limit);
            assert(entries_view(out@) =~= disk_part + (acc + taken));
            assert(cur_index == self.tail_spec());
            let m = self.mem_collect(mem_index, mem_offset, mem_left);
            if started {
                let fr = frozen_collect(fv, mem_index - self.head_spec(), mem_offset, mem_left);
                let rest = frozen_collect(fv, cur_index - self.head_spec(), 0, pre_active_left);
                assert(rest == (Seq::<EntryV>::empty(), pre_active_left, cur_index
                    - self.head_spec()));
                assert(acc + Seq::<EntryV>::empty() =~= acc);
                assert(fr.0 == acc && fr.1 == pre_active_left);
                assert(final_off == 0);
                assert(a.len() > 0);
                assert(m is Some);
                let mv = m->0;
                assert(mv.0 == fr.0 + a.subrange(0, limit));
                assert(entries_view(out@) =~= disk_part + mv.0);
            } else {
                assert(mem_index == self.tail_spec());
                assert(m is Some);
                let mv = m->0;
                assert(acc + taken =~= taken);
                assert(entries_view(out@) =~= disk_part + mv.0);
            }
        }
        Ok((out, remaining_len, cur_index, cur_offset))
    }


    /// Where a timestamp lookup lands: the tiers are tried in order —
    /// active segment, frozen queue front to back, then the disk.
    pub open spec fn ts_found(&self, t: u64, id: u64, idx: u64) -> bool {
        &&& seg_end_time(self.active_segment@) >= t
        &&& if first_nonzero_ts(self.active_segment@) <= t {
            id == self.tail_spec() && ins_point_ok(self.active_segment@, t, idx)
        } else if self.frozen_view().len() > 0 && first_nonzero_ts(self.frozen_view()[0]) <= t {
            exists|i: int|
                {
                    &&& 0 <= i < self.frozen_view().len()
                    &&& id == self.head_spec() + i
                    &&& seg_contains_time(#[trigger] self.frozen_view()[i], t)
                    &&& forall|j: int|
                        0 <= j < i ==> !seg_contains_time(#[trigger] self.frozen_view()[j], t)
                    &&& ins_point_ok(self.frozen_view()[i], t, idx)
                }
        } else {
            match self.disk_handler {
                Some(h) => {
                    &&& h.head_time_spec() <= t <= h.tail_time_spec()
                    &&& h.chunks_map().contains_key(id)
                    &&& disk::chunk_contains_time(h.chunks_map()[id], t)
                    &&& ins_point_ok(h.chunks_map()[id].chunk_entries(), t, idx)
                },
                None => false,
            }
        }
    }

    /// When a timestamp lookup finds nothing: the timestamp lies beyond
    /// the active segment, or in a gap of whichever tier was tried.
    pub open spec fn ts_miss(&self, t: u64) -> bool {
        ||| seg_end_time(self.active_segment@) < t
        ||| {
            &&& seg_end_time(self.active_segment@) >= t
            &&& first_nonzero_ts(self.active_segment@) > t
            &&& if self.frozen_view().len() > 0 && first_nonzero_ts(self.frozen_view()[0]) <= t {
                forall|i: int|
                    0 <= i < self.frozen_view().len() ==> !seg_contains_time(
                        #[trigger] self.frozen_view()[i],
                        t,
                    )
            } else {
                match self.disk_handler {
                    None => true,
                    Some(h) => !(h.head_time_spec() <= t <= h.tail_time_spec()) || forall|
                        id: u64,
                    |
                        h.chunks_map().contains_key(id) ==> !disk::chunk_contains_time(
                            #[trigger] h.chunks_map()[id],
                            t,
                        ),
                }
            }
        }
    }

    /// Find the segment id and the position inside it whose entry matches
    /// the timestamp, or carries the next one.
    pub fn index_from_timestamp(&self, timestamp: u64) -> (r: Result<(u64, u64), LogError>)
        requires
            self.wf(),
        ensures
            match r {
                Ok(p) => self.ts_found(timestamp, p.0, p.1),
                Err(e) => e == LogError::NotFound && self.ts_miss(timestamp),
            },
    {
        if self.active_segment.end_time() < timestamp {
            return Err(LogError::NotFound);
        }
        if self.active_segment.start_time() <= timestamp {
            return Ok((self.tail, self.active_segment.index_from_timestamp(timestamp)));
        }
        let nseg = self.segments.len();
        if nseg > 0 && self.segments[0].start_time() <= timestamp {
            let mut i: usize = 0;
            while i < nseg
                invariant
                    self.wf(),
                    nseg == self.segments@.len(),
                    i <= nseg,
                    seg_end_time(self.active_segment@) >= timestamp,
                    first_nonzero_ts(self.active_segment@) > timestamp,
                    self.frozen_view().len() > 0,
                    first_nonzero_ts(self.frozen_view()[0]) <= timestamp,
                    forall|j: int|
                        0 <= j < i ==> !seg_contains_time(
                            #[trigger] self.frozen_view()[j],
                            timestamp,
                        ),
                decreases nseg - i,
            {
                let seg = &self.segments[i];
                if seg.start_time() <= timestamp && timestamp <= seg.end_time() {
                    let idx = seg.index_from_timestamp(timestamp);
                    proof {
                        let ii = i as int;
                        assert(self.frozen_view()[ii] == seg@);
                        assert(seg_contains_time(self.frozen_view()[ii], timestamp));
                        assert(ins_point_ok(self.frozen_view()[ii], timestamp, idx));
                        assert((self.head + i as u64) as u64 == self.head_spec() + ii);
                        assert(exists|k: int|
                            {
                                &&& 0 <= k < self.frozen_view().len()
                                &&& (self.head + i as u64) as u64 == self.head_spec() + k
                                &&& seg_contains_time(#[trigger] self.frozen_view()[k], timestamp)
                                &&& forall|j: int|
                                    0 <= j < k ==> !seg_contains_time(
                                        #[trigger] self.frozen_view()[j],
                                        timestamp,
                                    )
                                &&& ins_point_ok(self.frozen_view()[k], timestamp, idx)
                            }) by {
                            assert(seg_contains_time(self.frozen_view()[ii], timestamp));
                        }
                    }
                    return Ok((self.head + i as u64, idx));
                }
                proof {
                    assert(!seg_contains_time(self.frozen_view()[i as int], timestamp));
                }
                i = i + 1;
            }
            return Err(LogError::NotFound);
        }
        match &self.disk_handler {
            Some(handler) => {
                if !handler.is_timestamp_contained(timestamp) {
                    return Err(LogError::NotFound);
                }
                match handler.index_from_timestamp(timestamp) {
                    Ok(p) => Ok(p),
                    Err(e) => Err(e),
                }
            },
            None => Err(LogError::NotFound),
        }
    }

    /// Read a payload by timestamp: look the timestamp up, then read the
    /// entry found.
    pub fn read_from_timestamp(&self, timestamp: u64) -> (r: Result<(Bytes, u64), LogError>)
        requires
            self.wf(),
        ensures
            match r {
                Ok(p) => exists|id: u64, idx: u64|
                    self.ts_found(timestamp, id, idx) && #[trigger] self.lookup(id, idx) == Some(
                        (payload_seq(p.0), p.1),
                    ),
                Err(e) => e == LogError::NotFound && (self.ts_miss(timestamp) || exists|
                    id: u64,
                    idx: u64,
                |
                    self.ts_found(timestamp, id, idx) && #[trigger] self.lookup(
                        id,
                        idx,
                    ) is None),
            },
    {
        match self.index_from_timestamp(timestamp) {
            Ok((id, idx)) => match self.read_with_timestamps(id, idx) {
                Ok(p) => {
                    proof {
                        assert(self.ts_found(timestamp, id, idx) && self.lookup(id, idx)
                            == Some((payload_seq(p.0), p.1)));
                    }
                    Ok(p)
                },
                Err(e) => {
                    proof {
                        assert(self.ts_found(timestamp, id, idx) && self.lookup(
                            id,
                            idx,
                        ) is None);
                    }
                    Err(e)
                },
            },
            Err(e) => Err(e),
        }
    }

    /// Hand out the file images of chunks evicted to the disk tier since
    /// the last call, so that they can be written out.
    pub fn take_pending(&mut self) -> (r: Vec<PendingChunk>)
        requires
            old(self).wf(),
        ensures
            final(self).wf(),
            final(self).head_spec() == old(self).head_spec(),
            final(self).tail_spec() == old(self).tail_spec(),
            final(self).frozen_view() == old(self).frozen_view(),
            final(self).active_segment == old(self).active_segment,
            match (old(self).disk_handler, final(self).disk_handler) {
                (Some(h), Some(h2)) => {
                    &&& h2.chunks_map() == h.chunks_map()
                    &&& h2.pending_spec() =~= Seq::<PendingChunk>::empty()
                    &&& r@ == h.pending_spec()
                },
                (None, None) => r@ =~= Seq::<PendingChunk>::empty(),
                _ => false,
            },
    {
        match &mut self.disk_handler {
            Some(h) => h.take_pending(),
            None => Vec::new(),
        }
    }

    /// Read a single payload from the log.
    pub fn read(&self, index: u64, offset: u64) -> (r: Result<Bytes, LogError>)
        requires
            self.wf(),
        ensures
            match r {
                Ok(b) => self.lookup(index, offset) matches Some(e) && payload_seq(b) == e.0,
                Err(e) => e == LogError::NotFound && self.lookup(index, offset) is None,
            },
    {
        if index > self.tail {
            return Err(LogError::NotFound);
        }
        if index < self.head {
            return match &self.disk_handler {
                Some(handler) => handler.read(index, offset),
                None => Err(LogError::NotFound),
            };
        }
        if index < self.tail {
            let segment = &self.segments[(index - self.head) as usize];
            return segment.at(offset);
        }
        self.active_segment.at(offset)
    }

    /// Read a single payload and its timestamp from the log.
    pub fn read_with_timestamps(&self, index: u64, offset: u64) -> (r: Result<
        (Bytes, u64),
        LogError,
    >)
        requires
            self.wf(),
        ensures
            match r {
                Ok(p) => self.lookup(index, offset) == Some((payload_seq(p.0), p.1)),
                Err(e) => e == LogError::NotFound && self.lookup(index, offset) is None,
            },
    {
        if index > self.tail {
            return Err(LogError::NotFound);
        }
        if index < self.head {
            return match &self.disk_handler {
                Some(handler) => handler.read_with_timestamps(index, offset),
                None => Err(LogError::NotFound),
            };
        }
        if index < self.tail {
            let segment = &self.segments[(index - self.head) as usize];
            return segment.at_with_timestamp(offset);
        }
        self.active_segment.at_with_timestamp(offset)
    }
}


/// Law: in a sound log the id window never inverts: `head <= tail`.
pub proof fn lemma_head_le_tail(log: CommitLog)
    requires
        log.wf(),
    ensures
        log.head_spec() <= log.tail_spec(),
{
}

/// Law: the frozen queue holds exactly one segment per id between `head`
/// and `tail`.
pub proof fn lemma_frozen_len(log: CommitLog)
    requires
        log.wf(),
    ensures
        log.frozen_view().len() == log.tail_spec() - log.head_spec(),
{
}

/// Law: the tracked byte total of the frozen queue is the sum of its
/// segments' sizes.
pub proof fn lemma_frozen_bytes(log: CommitLog)
    requires
        log.wf(),
    ensures
        log.segments_size == sizes_total(log.frozen_view()),
{
}

/// Law: retention keeps the frozen queue within its cap; with a cap of
/// zero a sealed segment is evicted at once.
pub proof fn lemma_frozen_bounded(log: CommitLog)
    requires
        log.wf(),
    ensures
        log.frozen_view().len() <= log.max_segments_spec(),
{
}

/// Law: the tiers hold pairwise distinct ids — the frozen queue covers
/// `head..tail` gap-free, the active segment is `tail`, and every disk
/// id lies strictly below `head`.
pub proof fn lemma_tier_ids_disjoint(log: CommitLog)
    requires
        log.wf(),
    ensures
        log.frozen_view().len() == log.tail_spec() - log.head_spec(),
        match log.disk_handler {
            Some(h) => forall|id: u64|
                #[trigger] h.chunks_map().contains_key(id) ==> id < log.head_spec(),
            None => true,
        },
{
}


} // verus!
