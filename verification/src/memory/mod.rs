//! A generic in-memory commit log which splits records into segments and
//! drops the oldest segment when the retention cap is crossed.

pub mod segment;

use vstd::prelude::*;
use vstd::pervasive::cloned;
use fnv::FnvHashMap;

use crate::fnv_map::{fnv_get, fnv_insert, fnv_new, fnv_remove};
use segment::Segment;

verus! {

/// A finite set holding exactly the ids of an interval has the
/// interval's length.
proof fn lemma_interval_card(dom: Set<u64>, lo: u64, hi: u64)
    requires
        lo <= hi,
        dom.finite(),
        forall|id: u64| #[trigger] dom.contains(id) <==> lo <= id < hi,
    ensures
        dom.len() == hi - lo,
    decreases hi - lo,
{
    if lo == hi {
        assert(dom =~= Set::<u64>::empty());
    } else {
        let prev = dom.remove((hi - 1) as u64);
        assert(dom.contains((hi - 1) as u64));
        assert(forall|id: u64| #[trigger] prev.contains(id) <==> lo <= id < hi - 1);
        lemma_interval_card(prev, lo, (hi - 1) as u64);
    }
}

/// An in-memory commit log over records of any clonable type.  Each
/// segment is identified by its id and base offset, and a new segment is
/// created whenever the current one crosses the size limit.
pub struct MemoryLog<T> {
    /// First segment: id and base offset.
    head: (u64, u64),
    /// Last segment: id and base offset.
    tail: (u64, u64),
    /// Maximum size of a segment, in bytes.
    max_segment_size: usize,
    /// Maximum number of segments, the active one included.
    max_segments: usize,
    /// Current active segment, which receives appends.
    active_segment: Segment<T>,
    /// The sealed segments, keyed by id.
    segments: FnvHashMap<u64, Segment<T>>,
}

impl<T: Clone> MemoryLog<T> {
    pub closed spec fn head_spec(&self) -> (u64, u64) {
        self.head
    }

    pub closed spec fn tail_spec(&self) -> (u64, u64) {
        self.tail
    }

    pub closed spec fn max_segment_size_spec(&self) -> int {
        self.max_segment_size as int
    }

    pub closed spec fn max_segments_spec(&self) -> int {
        self.max_segments as int
    }

    pub closed spec fn active_spec(&self) -> Segment<T> {
        self.active_segment
    }

    pub closed spec fn segments_map(&self) -> Map<u64, Segment<T>> {
        self.segments@
    }

    /// The sealed segments run contiguously from `head` to `tail`, the
    /// active segment starts at the tail's base offset, every segment
    /// ends within the offset space, and the retention cap holds.
    pub closed spec fn wf(&self) -> bool {
        &&& self.head.0 <= self.tail.0
        &&& forall|id: u64|
            #[trigger] self.segments@.contains_key(id) <==> (self.head.0 <= id < self.tail.0)
        &&& self.segments@.dom().finite()
        &&& self.active_segment.base_spec() == self.tail.1
        &&& self.active_segment.base_spec() + self.active_segment.records().len() <= u64::MAX
        &&& forall|id: u64|
            self.segments@.contains_key(id) ==> (#[trigger] self.segments@[id]).base_spec()
                + self.segments@[id].records().len() <= u64::MAX
        &&& self.max_segment_size >= 1024
        &&& (self.max_segments == 0 ==> self.tail.0 == self.head.0)
        &&& (self.max_segments >= 1 ==> self.tail.0 - self.head.0 <= self.max_segments - 1)
    }

    /// Create a new log.  The segment size limit must be at least 1KB.
    pub fn new(max_segment_size: usize, max_segments: usize) -> (r: MemoryLog<T>)
        requires
            max_segment_size >= 1024,
        ensures
            r.wf(),
            r.head_spec() == (0u64, 0u64),
            r.tail_spec() == (0u64, 0u64),
            r.max_segment_size_spec() == max_segment_size,
            r.max_segments_spec() == max_segments,
            r.active_spec().records() =~= Seq::<T>::empty(),
            r.segments_map() =~= Map::<u64, Segment<T>>::empty(),
    {
        let log = MemoryLog {
            head: (0, 0),
            tail: (0, 0),
            max_segment_size,
            max_segments,
            segments: fnv_new(),
            active_segment: Segment::new(0),
        };
        proof {
            assert(log.segments@ =~= Map::<u64, Segment<T>>::empty());
        }
        log
    }

    pub fn head_and_tail(&self) -> (r: (u64, u64))
        ensures
            r == (self.head_spec().0, self.tail_spec().0),
    {
        (self.head.0, self.tail.0)
    }

    /// The id of the active segment and the offset at which the next
    /// record will land.
    pub fn next_offset(&self) -> (r: (u64, u64))
        requires
            self.wf(),
        ensures
            r == (
                self.tail_spec().0,
                (self.active_spec().base_spec() + self.active_spec().records().len()) as u64,
            ),
    {
        let segment_id = self.tail.0;
        let next_offset = self.active_segment.base_offset() + self.active_segment.len() as u64;
        (segment_id, next_offset)
    }

    /// Appends this record to the tail and returns its segment id and the
    /// next offset.  When the active segment is full this first seals it,
    /// and drops the head segment if the cap is crossed.
    pub fn append(&mut self, size: usize, record: T) -> (r: (u64, u64))
        requires
            old(self).wf(),
            old(self).active_spec().size_spec() + size <= usize::MAX,
            old(self).active_spec().base_spec() + old(self).active_spec().records().len() + 1
                <= u64::MAX,
            old(self).tail_spec().0 < u64::MAX,
        ensures
            final(self).wf(),
            ({
                let rotate = old(self).active_spec().size_spec()
                    >= old(self).max_segment_size_spec();
                let evict = rotate && old(self).segments_map().dom().len() + 2
                    > old(self).max_segments_spec();
                &&& final(self).tail_spec().0 == old(self).tail_spec().0 + if rotate {
                    1int
                } else {
                    0int
                }
                &&& final(self).head_spec().0 == old(self).head_spec().0 + if evict {
                    1int
                } else {
                    0int
                }
                &&& final(self).active_spec().records() == (if rotate {
                    Seq::<T>::empty()
                } else {
                    old(self).active_spec().records()
                }).push(record)
                &&& final(self).active_spec().base_spec() == if rotate {
                    (old(self).active_spec().base_spec()
                        + old(self).active_spec().records().len()) as u64
                } else {
                    old(self).active_spec().base_spec()
                }
                &&& final(self).segments_map() == {
                    let mid = if rotate {
                        old(self).segments_map().insert(
                            old(self).tail_spec().0,
                            old(self).active_spec(),
                        )
                    } else {
                        old(self).segments_map()
                    };
                    if evict {
                        mid.remove(old(self).head_spec().0)
                    } else {
                        mid
                    }
                }
                &&& r.0 == final(self).tail_spec().0
                &&& r.1 == final(self).active_spec().base_spec()
                    + final(self).active_spec().records().len()
            }),
    {
        self.apply_retention();
        let segment_id = self.tail.0;
        let offset = self.active_segment.append(record, size);
        (segment_id, offset)
    }

    /// Seal the active segment when it has crossed the size limit, and
    /// drop the head segment when the count cap is crossed.
    fn apply_retention(&mut self) -> (r: bool)
        requires
            old(self).wf(),
            old(self).active_spec().base_spec() + old(self).active_spec().records().len()
                <= u64::MAX,
            old(self).tail_spec().0 < u64::MAX,
        ensures
            final(self).wf(),
            r == (old(self).active_spec().size_spec() >= old(self).max_segment_size_spec()),
            ({
                let rotate = old(self).active_spec().size_spec()
                    >= old(self).max_segment_size_spec();
                let evict = rotate && old(self).segments_map().dom().len() + 2
                    > old(self).max_segments_spec();
                &&& final(self).tail_spec().0 == old(self).tail_spec().0 + if rotate {
                    1int
                } else {
                    0int
                }
                &&& final(self).head_spec().0 == old(self).head_spec().0 + if evict {
                    1int
                } else {
                    0int
                }
                &&& final(self).active_spec().records() == if rotate {
                    Seq::<T>::empty()
                } else {
                    old(self).active_spec().records()
                }
                &&& final(self).active_spec().size_spec() == if rotate {
                    0int
                } else {
                    old(self).active_spec().size_spec()
                }
                &&& final(self).active_spec().base_spec() == if rotate {
                    (old(self).active_spec().base_spec()
                        + old(self).active_spec().records().len()) as u64
                } else {
                    old(self).active_spec().base_spec()
                }
                &&& final(self).segments_map() == {
                    let mid = if rotate {
                        old(self).segments_map().insert(
                            old(self).tail_spec().0,
                            old(self).active_spec(),
                        )
                    } else {
                        old(self).segments_map()
                    };
                    if evict {
                        mid.remove(old(self).head_spec().0)
                    } else {
                        mid
                    }
                }
                &&& final(self).max_segment_size_spec() == old(self).max_segment_size_spec()
                &&& final(self).max_segments_spec() == old(self).max_segments_spec()
            }),
    {
        proof {
            lemma_interval_card(
                old(self).segments@.dom(),
                old(self).head.0,
                old(self).tail.0,
            );
        }
        if self.active_segment.size() >= self.max_segment_size {
            let next_offset = self.active_segment.base_offset()
                + self.active_segment.len() as u64;
            let mut last_active = Segment::new(next_offset);
            core::mem::swap(&mut last_active, &mut self.active_segment);
            fnv_insert(&mut self.segments, self.tail.0, last_active);

            self.tail.0 = self.tail.0 + 1;
            self.tail.1 = next_offset;

            proof {
                let mid = self.segments@;
                assert(mid == old(self).segments@.insert(old(self).tail.0, old(self).active_segment));
                assert(forall|id: u64|
                    #[trigger] mid.contains_key(id) <==> (old(self).head.0 <= id
                        < self.tail.0));
                assert(mid.dom() =~= old(self).segments@.dom().insert(old(self).tail.0));
                lemma_interval_card(mid.dom(), old(self).head.0, self.tail.0);
            }
            let seg_count = crate::fnv_map::fnv_len(&self.segments);
            if seg_count >= self.max_segments {
                let evicted_head = self.head.0;
                match fnv_remove(&mut self.segments, evicted_head) {
                    Some(seg) => {
                        let removed_next = seg.base_offset() + seg.len() as u64;
                        self.head.0 = self.head.0 + 1;
                        self.head.1 = removed_next;
                    },
                    None => {
                        proof {
                            assert(false);
                        }
                    },
                }
            }
            return true;
        }
        false
    }

    /// Read a record at an absolute cursor `(segment id, offset)`.
    pub fn read(&mut self, cursor: (u64, u64)) -> (r: Option<T>)
        requires
            old(self).wf(),
        ensures
            *final(self) == *old(self),
            ({
                let log = *old(self);
                if cursor.0 == log.tail_spec().0 {
                    match r {
                        Some(v) => log.active_spec().base_spec() <= cursor.1 && cursor.1
                            - log.active_spec().base_spec()
                            < log.active_spec().records().len() && cloned::<T>(
                            log.active_spec().records()[cursor.1 - log.active_spec().base_spec()],
                            v,
                        ),
                        None => cursor.1 < log.active_spec().base_spec() || cursor.1
                            - log.active_spec().base_spec()
                            >= log.active_spec().records().len(),
                    }
                } else if log.segments_map().contains_key(cursor.0) {
                    let seg = log.segments_map()[cursor.0];
                    match r {
                        Some(v) => seg.base_spec() <= cursor.1 && cursor.1 - seg.base_spec()
                            < seg.records().len() && cloned::<T>(
                            seg.records()[cursor.1 - seg.base_spec()],
                            v,
                        ),
                        None => cursor.1 < seg.base_spec() || cursor.1 - seg.base_spec()
                            >= seg.records().len(),
                    }
                } else {
                    r is None
                }
            }),
    {
        if cursor.0 == self.tail.0 {
            return self.active_segment.read(cursor.1);
        }
        match fnv_get(&self.segments, cursor.0) {
            Some(segment) => segment.read(cursor.1),
            None => None,
        }
    }

    /// What a vectored read at `(pid, poff)` gathers once inside the
    /// segment walk: the records of the first segment that yields any,
    /// and the cursor past them.
    pub open spec fn readv_walk(&self, pid: u64, poff: u64) -> Option<(Seq<T>, (u64, u64))>
        decreases self.tail_spec().0 + 1 - pid,
    {
        if pid > self.tail_spec().0 {
            None
        } else if pid == self.tail_spec().0 {
            let c = self.active_spec().records();
            if c.len() > 0 {
                Some(
                    (
                        c,
                        (
                            (pid + 1) as u64,
                            (self.active_spec().base_spec() + c.len()) as u64,
                        ),
                    ),
                )
            } else {
                None
            }
        } else if self.segments_map().contains_key(pid) {
            let seg = self.segments_map()[pid];
            let c = seg.slice_from(poff);
            if c.len() > 0 {
                Some((c, ((pid + 1) as u64, (poff + c.len()) as u64)))
            } else {
                self.readv_walk((pid + 1) as u64, poff)
            }
        } else {
            None
        }
    }

    /// What a vectored read returns: reading at the tail takes the active
    /// segment's records past the offset without advancing the id; any
    /// other in-range cursor walks the sealed segments.
    pub open spec fn readv_spec(&self, cursor: (u64, u64)) -> Option<(Seq<T>, (u64, u64))> {
        let start = if cursor.0 < self.head_spec().0 {
            self.head_spec()
        } else {
            cursor
        };
        if start.0 == self.tail_spec().0 {
            let c = self.active_spec().slice_from(start.1);
            if c.len() == 0 {
                None
            } else {
                Some((c, (start.0, (start.1 + c.len()) as u64)))
            }
        } else {
            self.readv_walk(start.0, start.1)
        }
    }

    /// Reads records into `out` from the cursor's segment — jumping to
    /// the head when the cursor points below it — and returns the cursor
    /// to resume at, or `None` when there is nothing more to read.
    pub fn readv(&mut self, cursor: (u64, u64), out: &mut Vec<T>) -> (r: Option<(u64, u64)>)
        requires
            old(self).wf(),
            old(self).tail_spec().0 < u64::MAX,
        ensures
            *final(self) == *old(self),
            ({
                let log = *old(self);
                match log.readv_spec(cursor) {
                    None => r is None && final(out)@ == old(out)@,
                    Some(p) => {
                        &&& r == Some(p.1)
                        &&& final(out)@.len() == old(out)@.len() + p.0.len()
                        &&& (forall|k: int|
                            0 <= k < old(out)@.len() ==> final(out)@[k] == old(out)@[k])
                        &&& (forall|k: int|
                            0 <= k < p.0.len() ==> cloned::<T>(
                                p.0[k],
                                final(out)@[old(out)@.len() + k],
                            ))
                    },
                }
            }),
    {
        let ghost log = *old(self);
        let mut progress = cursor;
        if progress.0 < self.head.0 {
            progress = self.head;
        }
        if progress.0 == self.tail.0 {
            let count = self.active_segment.readv(progress.1, out);
            if count == 0 {
                return None;
            }
            progress.1 = progress.1 + count as u64;
            return Some(progress);
        }
        loop
            invariant
                self.wf(),
                self.tail_spec().0 < u64::MAX,
                *self == log,
                self.head_spec().0 <= progress.0,
                log.readv_spec(cursor) == log.readv_walk(progress.0, progress.1),
                out@ == old(out)@,
            decreases self.tail_spec().0 + 1 - progress.0,
        {
            if progress.0 > self.tail.0 {
                return None;
            }
            if progress.0 == self.tail.0 {
                let base = self.active_segment.base_offset();
                let count = self.active_segment.readv(base, out);
                proof {
                    assert(self.active_spec().slice_from(self.active_spec().base_spec())
                        =~= self.active_spec().records());
                }
                if count > 0 {
                    return Some((progress.0 + 1, base + count as u64));
                }
                return None;
            }
            match fnv_get(&self.segments, progress.0) {
                Some(segment) => {
                    let ghost pre_out = out@;
                    let count = segment.readv(progress.1, out);
                    if count > 0 {
                        proof {
                            assert(progress.1 + count <= u64::MAX) by {
                                assert(segment.slice_from(progress.1).len() == count);
                            }
                        }
                        return Some((progress.0 + 1, progress.1 + count as u64));
                    }
                    proof {
                        assert(out@ =~= pre_out);
                    }
                    progress.0 = progress.0 + 1;
                },
                None => {
                    proof {
                        assert(false);
                    }
                    return None;
                },
            }
        }
    }
}

} // verus!
