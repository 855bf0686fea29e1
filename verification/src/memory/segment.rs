//! One segment of the generic in-memory log: records addressed by
//! absolute offsets starting at the segment's base offset.

use vstd::prelude::*;
use vstd::pervasive::cloned;

verus! {

/// A run of records with a base offset and an externally supplied byte
/// size.
pub struct Segment<T> {
    base_offset: u64,
    size: usize,
    file: Vec<T>,
}

impl<T: Clone> Segment<T> {
    pub closed spec fn base_spec(&self) -> u64 {
        self.base_offset
    }

    pub closed spec fn size_spec(&self) -> int {
        self.size as int
    }

    pub closed spec fn records(&self) -> Seq<T> {
        self.file@
    }

    /// The records from an absolute offset to the segment's end; empty
    /// when the offset lies outside the segment.
    pub open spec fn slice_from(&self, offset: u64) -> Seq<T> {
        if offset < self.base_spec() || offset > self.base_spec() + self.records().len() {
            Seq::empty()
        } else {
            self.records().skip(offset - self.base_spec())
        }
    }

    pub fn new(base_offset: u64) -> (r: Segment<T>)
        ensures
            r.base_spec() == base_offset,
            r.size_spec() == 0,
            r.records() =~= Seq::<T>::empty(),
    {
        let file = Vec::with_capacity(10000);
        Segment { base_offset, file, size: 0 }
    }

    pub fn base_offset(&self) -> (r: u64)
        ensures
            r == self.base_spec(),
    {
        self.base_offset
    }

    pub fn size(&self) -> (r: usize)
        ensures
            r == self.size_spec(),
    {
        self.size
    }

    pub fn len(&self) -> (r: usize)
        ensures
            r == self.records().len(),
    {
        self.file.len()
    }

    /// Appends a record and returns the next absolute offset.
    pub fn append(&mut self, record: T, len: usize) -> (r: u64)
        requires
            old(self).size_spec() + len <= usize::MAX,
            old(self).base_spec() + old(self).records().len() + 1 <= u64::MAX,
        ensures
            final(self).records() == old(self).records().push(record),
            final(self).base_spec() == old(self).base_spec(),
            final(self).size_spec() == old(self).size_spec() + len,
            r == final(self).base_spec() + final(self).records().len(),
    {
        self.file.push(record);
        self.size = self.size + len;
        self.base_offset + self.file.len() as u64
    }

    /// Reads the record at an absolute offset.
    pub fn read(&self, offset: u64) -> (r: Option<T>)
        ensures
            match r {
                Some(v) => {
                    &&& self.base_spec() <= offset
                    &&& offset - self.base_spec() < self.records().len()
                    &&& cloned::<T>(self.records()[offset - self.base_spec()], v)
                },
                None => offset < self.base_spec() || offset - self.base_spec()
                    >= self.records().len(),
            },
    {
        if offset < self.base_offset {
            return None;
        }
        let rel = offset - self.base_offset;
        if rel >= self.file.len() as u64 {
            return None;
        }
        Some(self.file[rel as usize].clone())
    }

    /// Reads every record from an absolute offset to the end of the
    /// segment into `out`, and returns how many were read.
    pub fn readv(&self, offset: u64, out: &mut Vec<T>) -> (r: usize)
        requires
            self.base_spec() + self.records().len() <= u64::MAX,
        ensures
            r == self.slice_from(offset).len(),
            final(out)@.len() == old(out)@.len() + r,
            forall|k: int| 0 <= k < old(out)@.len() ==> final(out)@[k] == old(out)@[k],
            forall|k: int|
                0 <= k < r ==> cloned::<T>(
                    self.slice_from(offset)[k],
                    final(out)@[old(out)@.len() + k],
                ),
    {
        if offset < self.base_offset {
            proof {
                assert(self.slice_from(offset) =~= Seq::<T>::empty());
            }
            return 0;
        }
        if offset > self.base_offset + self.file.len() as u64 {
            proof {
                assert(self.slice_from(offset) =~= Seq::<T>::empty());
            }
            return 0;
        }
        let rel = (offset - self.base_offset) as usize;
        let total = self.file.len();
        let n = total - rel;
        proof {
            assert(self.slice_from(offset) =~= self.records().skip(rel as int));
        }
        let mut j: usize = 0;
        while j < n
            invariant
                rel + n == self.records().len(),
                rel + n <= usize::MAX,
                j <= n,
                out@.len() == old(out)@.len() + j,
                forall|k: int| 0 <= k < old(out)@.len() ==> out@[k] == old(out)@[k],
                forall|k: int|
                    0 <= k < j ==> cloned::<T>(
                        self.records().skip(rel as int)[k],
                        out@[old(out)@.len() + k],
                    ),
            decreases n - j,
        {
            out.push(self.file[rel + j].clone());
            j = j + 1;
        }
        n
    }
}

} // verus!
