//! The data half of an on-disk chunk: a flat run of payload bytes.

use vstd::prelude::*;
use bytes::Bytes;

use crate::disk::index::IndexEntry;
use crate::payload::{payload_clone, payload_len, payload_seq, payload_slice};
use crate::segment::{bytes_view, entries_view};
use crate::LogError;

verus! {

/// Wrapper around the contents of one data file.  Does not enforce any
/// constraint on its own; the chunk holding it checks the index against it.
pub struct Segment {
    data: Bytes,
    size: u64,
}

impl Segment {
    /// The bytes of the data file.
    pub closed spec fn data_spec(&self) -> Seq<u8> {
        payload_seq(self.data)
    }

    /// The tracked size agrees with the bytes held, which fit in memory.
    pub closed spec fn wf(&self) -> bool {
        &&& self.size == self.data_spec().len()
        &&& self.data_spec().len() <= usize::MAX
    }

    /// Take over an existing data file's bytes.
    pub fn open(bytes: Bytes) -> (r: Segment)
        ensures
            r.wf(),
            r.data_spec() == payload_seq(bytes),
    {
        let size = payload_len(&bytes) as u64;
        Segment { data: bytes, size }
    }

    /// Take over the bytes of a freshly written data file.
    pub fn new(bytes: Bytes) -> (r: Segment)
        ensures
            r.wf(),
            r.data_spec() == payload_seq(bytes),
    {
        Segment::open(bytes)
    }

    /// The size of the data file in bytes.
    pub fn size(&self) -> (r: u64)
        requires
            self.wf(),
        ensures
            r == self.data_spec().len(),
    {
        self.size
    }

    /// The whole stored byte run, without copying.
    pub fn bytes(&self) -> (r: Bytes)
        requires
            self.wf(),
        ensures
            payload_seq(r) == self.data_spec(),
    {
        payload_clone(&self.data)
    }

    /// Read `len` bytes from the given offset.
    pub fn read(&self, offset: u64, len: u64) -> (r: Result<Bytes, LogError>)
        requires
            self.wf(),
        ensures
            match r {
                Ok(b) => offset + len <= self.data_spec().len() && payload_seq(b)
                    == self.data_spec().subrange(offset as int, offset + len),
                Err(e) => offset + len > self.data_spec().len() && e == LogError::NotFound,
            },
    {
        if offset > self.size || len > self.size - offset {
            return Err(LogError::NotFound);
        }
        Ok(payload_slice(&self.data, offset as usize, (offset + len) as usize))
    }

    /// Slice out the payloads described by the given records into `out`.
    pub fn readv(&self, offsets: &Vec<IndexEntry>, out: &mut Vec<Bytes>) -> (r: Result<
        (),
        LogError,
    >)
        requires
            self.wf(),
        ensures
            match r {
                Ok(_) => {
                    &&& forall|i: int|
                        0 <= i < offsets@.len() ==> (#[trigger] offsets@[i]).offset + offsets@[i].len
                            <= self.data_spec().len()
                    &&& bytes_view(final(out)@) == bytes_view(old(out)@) + Seq::new(
                        offsets@.len(),
                        |i: int|
                            self.data_spec().subrange(
                                offsets@[i].offset as int,
                                offsets@[i].offset + offsets@[i].len,
                            ),
                    )
                },
                Err(e) => {
                    &&& e == LogError::NotFound
                    &&& !(forall|i: int|
                        0 <= i < offsets@.len() ==> (#[trigger] offsets@[i]).offset + offsets@[i].len
                            <= self.data_spec().len())
                    &&& final(out)@ == old(out)@
                },
            },
    {
        let n = offsets.len();
        let mut i: usize = 0;
        while i < n
            invariant
                self.wf(),
                n == offsets@.len(),
                i <= n,
                forall|k: int|
                    0 <= k < i ==> (#[trigger] offsets@[k]).offset + offsets@[k].len
                        <= self.data_spec().len(),
            decreases n - i,
        {
            let e = offsets[i];
            if e.offset > self.size || e.len > self.size - e.offset {
                return Err(LogError::NotFound);
            }
            i = i + 1;
        }
        let ghost base = out@;
        let mut i: usize = 0;
        while i < n
            invariant
                self.wf(),
                n == offsets@.len(),
                i <= n,
                forall|k: int|
                    0 <= k < n ==> (#[trigger] offsets@[k]).offset + offsets@[k].len
                        <= self.data_spec().len(),
                bytes_view(out@) == bytes_view(base) + Seq::new(
                    i as nat,
                    |k: int|
                        self.data_spec().subrange(
                            offsets@[k].offset as int,
                            offsets@[k].offset + offsets@[k].len,
                        ),
                ),
            decreases n - i,
        {
            let e = offsets[i];
            let ghost prev = out@;
            out.push(payload_slice(&self.data, e.offset as usize, (e.offset + e.len) as usize));
            proof {
                assert(bytes_view(out@) =~= bytes_view(prev).push(payload_seq(out@.last())));
                assert(bytes_view(out@) =~= bytes_view(base) + Seq::new(
                    (i + 1) as nat,
                    |k: int|
                        self.data_spec().subrange(
                            offsets@[k].offset as int,
                            offsets@[k].offset + offsets@[k].len,
                        ),
                ));
            }
            i = i + 1;
        }
        proof {
            assert(bytes_view(out@) =~= bytes_view(base) + Seq::new(
                offsets@.len(),
                |k: int|
                    self.data_spec().subrange(
                        offsets@[k].offset as int,
                        offsets@[k].offset + offsets@[k].len,
                    ),
            ));
        }
        Ok(())
    }

    /// Slice out the payloads described by the given records into `out`,
    /// keeping the timestamps.
    pub fn readv_with_timestamps(&self, offsets: &Vec<IndexEntry>, out: &mut Vec<(Bytes, u64)>)
        -> (r: Result<(), LogError>)
        requires
            self.wf(),
        ensures
            match r {
                Ok(_) => {
                    &&& forall|i: int|
                        0 <= i < offsets@.len() ==> (#[trigger] offsets@[i]).offset + offsets@[i].len
                            <= self.data_spec().len()
                    &&& entries_view(final(out)@) == entries_view(old(out)@) + Seq::new(
                        offsets@.len(),
                        |i: int|
                            (
                                self.data_spec().subrange(
                                    offsets@[i].offset as int,
                                    offsets@[i].offset + offsets@[i].len,
                                ),
                                offsets@[i].timestamp,
                            ),
                    )
                },
                Err(e) => {
                    &&& e == LogError::NotFound
                    &&& !(forall|i: int|
                        0 <= i < offsets@.len() ==> (#[trigger] offsets@[i]).offset + offsets@[i].len
                            <= self.data_spec().len())
                    &&& final(out)@ == old(out)@
                },
            },
    {
        let n = offsets.len();
        let mut i: usize = 0;
        while i < n
            invariant
                self.wf(),
                n == offsets@.len(),
                i <= n,
                forall|k: int|
                    0 <= k < i ==> (#[trigger] offsets@[k]).offset + offsets@[k].len
                        <= self.data_spec().len(),
            decreases n - i,
        {
            let e = offsets[i];
            if e.offset > self.size || e.len > self.size - e.offset {
                return Err(LogError::NotFound);
            }
            i = i + 1;
        }
        let ghost base = out@;
        let mut i: usize = 0;
        while i < n
            invariant
                self.wf(),
                n == offsets@.len(),
                i <= n,
                forall|k: int|
                    0 <= k < n ==> (#[trigger] offsets@[k]).offset + offsets@[k].len
                        <= self.data_spec().len(),
                entries_view(out@) == entries_view(base) + Seq::new(
                    i as nat,
                    |k: int|
                        (
                            self.data_spec().subrange(
                                offsets@[k].offset as int,
                                offsets@[k].offset + offsets@[k].len,
                            ),
                            offsets@[k].timestamp,
                        ),
                ),
            decreases n - i,
        {
            let e = offsets[i];
            let ghost prev = out@;
            let b = payload_slice(&self.data, e.offset as usize, (e.offset + e.len) as usize);
            out.push((b, e.timestamp));
            proof {
                assert(entries_view(out@) =~= entries_view(prev).push(
                    (payload_seq(out@.last().0), out@.last().1),
                ));
                assert(entries_view(out@) =~= entries_view(base) + Seq::new(
                    (i + 1) as nat,
                    |k: int|
                        (
                            self.data_spec().subrange(
                                offsets@[k].offset as int,
                                offsets@[k].offset + offsets@[k].len,
                            ),
                            offsets@[k].timestamp,
                        ),
                ));
            }
            i = i + 1;
        }
        proof {
            assert(entries_view(out@) =~= entries_view(base) + Seq::new(
                offsets@.len(),
                |k: int|
                    (
                        self.data_spec().subrange(
                            offsets@[k].offset as int,
                            offsets@[k].offset + offsets@[k].len,
                        ),
                        offsets@[k].timestamp,
                    ),
            ));
        }
        Ok(())
    }
}

} // verus!
