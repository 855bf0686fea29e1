//! The on-disk tier: a set of chunks, each an index file and a data file
//! pair named by a 20-digit zero-padded decimal id.

use vstd::prelude::*;
use bytes::Bytes;
use fnv::FnvHashMap;

pub mod chunk;
pub mod index;
pub mod names;
pub mod segment;

use crate::fnv_map::{fnv_get, fnv_insert, fnv_len, fnv_new};
use crate::payload::{payload_as_slice, payload_clone, payload_seq};
use crate::segment::{bytes_view, entries_view, payloads_of, ts_sorted, EntryV};
use crate::LogError;
use chunk::{chunk_decodes, Chunk};
use index::decode_entries;
use names::{
    all_digits, data_name_spec, digits_val, index_name_spec, parse_digits,
};

verus! {

/// The ways a file in the log's directory can fail to be half of a chunk.
#[derive(Debug, Clone, PartialEq, Eq)]
pub enum InvalidType {
    /// The file's name is not a decimal id with an `index` or `data`
    /// extension.
    InvalidName(Vec<u8>),
    /// A data file with this id exists, but no index file.
    NoIndex(u64),
    /// An index file with this id exists, but no data file.
    NoSegment(u64),
    /// The pair does not decode, or the stored hash does not match the
    /// data file.
    InvalidChecksum(u64),
}


/// The list holds the given report.
pub open spec fn invalid_contains(s: Seq<InvalidType>, x: InvalidType) -> bool {
    exists|m: int| 0 <= m < s.len() && #[trigger] s[m] == x
}

/// The list holds an invalid-name report for the given name.
pub open spec fn invalid_has_name(s: Seq<InvalidType>, name: Seq<u8>) -> bool {
    exists|m: int|
        0 <= m < s.len() && ((#[trigger] s[m]) matches InvalidType::InvalidName(v) && v@ == name)
}

/// Appending a report keeps every report already listed.
pub proof fn lemma_invalid_push_mono(s: Seq<InvalidType>, y: InvalidType)
    ensures
        forall|x: InvalidType|
            invalid_contains(s, x) ==> #[trigger] invalid_contains(s.push(y), x),
        forall|n: Seq<u8>| invalid_has_name(s, n) ==> #[trigger] invalid_has_name(s.push(y), n),
        invalid_contains(s.push(y), y),
{
    assert forall|x: InvalidType| invalid_contains(s, x) implies #[trigger] invalid_contains(
        s.push(y),
        x,
    ) by {
        let m = choose|m: int| 0 <= m < s.len() && #[trigger] s[m] == x;
        assert(s.push(y)[m] == x);
    }
    assert forall|n: Seq<u8>| invalid_has_name(s, n) implies #[trigger] invalid_has_name(
        s.push(y),
        n,
    ) by {
        let m = choose|m: int|
            0 <= m < s.len() && ((#[trigger] s[m]) matches InvalidType::InvalidName(v) && v@
                == n);
        assert(0 <= m < s.push(y).len() && ((s.push(y)[m]) matches InvalidType::InvalidName(v)
            && v@ == n));
    }
    assert(s.push(y)[s.len() as int] == y);
}

/// One directory entry handed to the scan: a file name and the file's
/// contents.
pub struct ScannedFile {
    pub name: Vec<u8>,
    pub contents: Bytes,
}

/// A chunk waiting to be written out: two file names and their contents.
pub struct PendingChunk {
    pub index_name: Vec<u8>,
    pub index_contents: Vec<u8>,
    pub data_name: Vec<u8>,
    pub data_contents: Bytes,
}

/// What a file name means to the scan.
#[derive(Debug, Clone, Copy, PartialEq, Eq, Structural)]
pub enum FileClass {
    /// The index half of the chunk with this id.
    IndexHalf(u64),
    /// The data half of the chunk with this id.
    DataHalf(u64),
    /// Not part of any chunk.
    Bad,
}

/// The position of the last `.` in a name.
pub open spec fn last_dot(name: Seq<u8>) -> Option<int>
    decreases name.len(),
{
    if name.len() == 0 {
        None
    } else if name.last() == 0x2e {
        Some(name.len() - 1)
    } else {
        last_dot(name.drop_last())
    }
}

pub proof fn lemma_last_dot_points(name: Seq<u8>)
    ensures
        match last_dot(name) {
            Some(p) => 0 <= p < name.len() && name[p] == 0x2e && forall|q: int|
                p < q < name.len() ==> name[q] != 0x2e,
            None => forall|q: int| 0 <= q < name.len() ==> name[q] != 0x2e,
        },
    decreases name.len(),
{
    if name.len() > 0 && name.last() != 0x2e {
        lemma_last_dot_points(name.drop_last());
        assert(forall|q: int|
            0 <= q < name.len() - 1 ==> name.drop_last()[q] == #[trigger] name[q]);
    }
}

pub proof fn lemma_last_dot_unique(name: Seq<u8>, p: int)
    requires
        0 <= p < name.len(),
        name[p] == 0x2e,
        forall|q: int| p < q < name.len() ==> name[q] != 0x2e,
    ensures
        last_dot(name) == Some(p),
    decreases name.len(),
{
    if name.last() != 0x2e {
        assert(p < name.len() - 1);
        assert(forall|q: int|
            0 <= q < name.len() - 1 ==> name.drop_last()[q] == #[trigger] name[q]);
        lemma_last_dot_unique(name.drop_last(), p);
    }
}

/// The `index` extension.
pub open spec fn index_ext() -> Seq<u8> {
    seq![0x69u8, 0x6eu8, 0x64u8, 0x65u8, 0x78u8]
}

/// The `data` extension.
pub open spec fn data_ext() -> Seq<u8> {
    seq![0x64u8, 0x61u8, 0x74u8, 0x61u8]
}

/// What a file name means: the part before the last `.` must be a
/// 20-digit zero-padded id and the part after it `index` or `data`.
pub open spec fn scanned_class(name: Seq<u8>) -> FileClass {
    match last_dot(name) {
        None => FileClass::Bad,
        Some(p) => {
            let stem = name.take(p);
            let ext = name.skip(p + 1);
            if stem.len() == 20 && all_digits(stem) && digits_val(stem) <= u64::MAX {
                if ext == index_ext() {
                    FileClass::IndexHalf(digits_val(stem) as u64)
                } else if ext == data_ext() {
                    FileClass::DataHalf(digits_val(stem) as u64)
                } else {
                    FileClass::Bad
                }
            } else {
                FileClass::Bad
            }
        },
    }
}

/// Decide what a file name means.
pub fn classify_name(name: &Vec<u8>) -> (r: FileClass)
    ensures
        r == scanned_class(name@),
{
    proof {
        lemma_last_dot_points(name@);
    }
    let n = name.len();
    let mut i: usize = n;
    while i > 0
        invariant
            n == name@.len(),
            i <= n,
            forall|q: int| i <= q < n ==> name@[q] != 0x2e,
        decreases i,
    {
        if name[i - 1] == 0x2e {
            proof {
                lemma_last_dot_unique(name@, i - 1);
            }
            let p = i - 1;
            if p != 20 {
                proof {
                    assert(name@.take(p as int).len() != 20);
                }
                return FileClass::Bad;
            }
            let stem_id = match parse_digits(name.as_slice(), 0, p) {
                Some(v) => v,
                None => {
                    proof {
                        assert(name@.subrange(0, p as int) =~= name@.take(p as int));
                    }
                    return FileClass::Bad;
                },
            };
            proof {
                assert(name@.subrange(0, p as int) =~= name@.take(p as int));
            }
            let elen = n - p - 1;
            if elen == 5 && name[p + 1] == 0x69 && name[p + 2] == 0x6e && name[p + 3] == 0x64
                && name[p + 4] == 0x65 && name[p + 5] == 0x78 {
                proof {
                    assert(name@.skip(p + 1) =~= index_ext());
                }
                return FileClass::IndexHalf(stem_id);
            }
            if elen == 4 && name[p + 1] == 0x64 && name[p + 2] == 0x61 && name[p + 3] == 0x74
                && name[p + 4] == 0x61 {
                proof {
                    assert(name@.skip(p + 1) =~= data_ext());
                }
                return FileClass::DataHalf(stem_id);
            }
            proof {
                if name@.skip(p + 1) == index_ext() {
                    assert(name@.skip(p + 1).len() == 5);
                    assert(name@[p + 1] == 0x69 && name@[p + 2] == 0x6e && name@[p + 3] == 0x64
                        && name@[p + 4] == 0x65 && name@[p + 5] == 0x78);
                }
                if name@.skip(p + 1) == data_ext() {
                    assert(name@.skip(p + 1).len() == 4);
                    assert(name@[p + 1] == 0x64 && name@[p + 2] == 0x61 && name@[p + 3] == 0x74
                        && name@[p + 4] == 0x61);
                }
            }
            return FileClass::Bad;
        }
        i = i - 1;
    }
    FileClass::Bad
}

/// The first file with the given name, searching from position `i`.
pub open spec fn find_name_from(files: Seq<ScannedFile>, name: Seq<u8>, i: int) -> Option<int>
    decreases files.len() - i,
{
    if i < 0 || i >= files.len() {
        None
    } else if files[i].name@ == name {
        Some(i)
    } else {
        find_name_from(files, name, i + 1)
    }
}

pub proof fn lemma_find_name_from(files: Seq<ScannedFile>, name: Seq<u8>, i: int)
    requires
        0 <= i <= files.len(),
    ensures
        match find_name_from(files, name, i) {
            Some(j) => i <= j < files.len() && files[j].name@ == name,
            None => forall|k: int| i <= k < files.len() ==> (#[trigger] files[k]).name@ != name,
        },
    decreases files.len() - i,
{
    if i < files.len() && files[i].name@ != name {
        lemma_find_name_from(files, name, i + 1);
    }
}

/// Find the first file with the given name.
fn find_file<'a>(files: &'a Vec<ScannedFile>, name: &Vec<u8>) -> (r: Option<&'a ScannedFile>)
    ensures
        match r {
            Some(f) => find_name_from(files@, name@, 0) matches Some(j) && *f == files@[j],
            None => find_name_from(files@, name@, 0) is None,
        },
{
    let n = files.len();
    let mut i: usize = 0;
    while i < n
        invariant
            n == files@.len(),
            i <= n,
            forall|k: int| 0 <= k < i ==> (#[trigger] files@[k]).name@ != name@,
        decreases n - i,
    {
        if bytes_vec_eq(&files[i].name, name) {
            proof {
                lemma_find_name_eq(files@, name@, i as int);
            }
            return Some(&files[i]);
        }
        i = i + 1;
    }
    proof {
        lemma_find_name_from(files@, name@, 0);
        if find_name_from(files@, name@, 0) is Some {
            lemma_find_name_from(files@, name@, 0);
            assert(false);
        }
    }
    None
}

proof fn lemma_find_name_eq(files: Seq<ScannedFile>, name: Seq<u8>, j: int)
    requires
        0 <= j < files.len(),
        files[j].name@ == name,
        forall|k: int| 0 <= k < j ==> (#[trigger] files[k]).name@ != name,
    ensures
        find_name_from(files, name, 0) == Some(j),
    decreases j,
{
    lemma_find_name_step(files, name, 0, j);
}

proof fn lemma_find_name_step(files: Seq<ScannedFile>, name: Seq<u8>, i: int, j: int)
    requires
        0 <= i <= j < files.len(),
        files[j].name@ == name,
        forall|k: int| i <= k < j ==> (#[trigger] files[k]).name@ != name,
    ensures
        find_name_from(files, name, i) == Some(j),
    decreases j - i,
{
    if i < j {
        lemma_find_name_step(files, name, i + 1, j);
    }
}

/// Whether two byte vectors hold the same bytes.
fn bytes_vec_eq(a: &Vec<u8>, b: &Vec<u8>) -> (r: bool)
    ensures
        r == (a@ == b@),
{
    if a.len() != b.len() {
        proof {
            assert(a@ != b@);
        }
        return false;
    }
    let n = a.len();
    let mut j: usize = 0;
    while j < n
        invariant
            n == a@.len() == b@.len(),
            j <= n,
            forall|k: int| 0 <= k < j ==> a@[k] == b@[k],
        decreases n - j,
    {
        if a[j] != b[j] {
            proof {
                assert(a@[j as int] != b@[j as int]);
            }
            return false;
        }
        j = j + 1;
    }
    proof {
        assert(a@ =~= b@);
    }
    true
}

/// Copy a byte vector.
fn copy_bytes_vec(a: &Vec<u8>) -> (r: Vec<u8>)
    ensures
        r@ == a@,
{
    let n = a.len();
    let mut out: Vec<u8> = Vec::with_capacity(n);
    let mut j: usize = 0;
    while j < n
        invariant
            n == a@.len(),
            j <= n,
            out@ =~= a@.subrange(0, j as int),
        decreases n - j,
    {
        out.push(a[j]);
        assert(out@ =~= a@.subrange(0, j + 1));
        j = j + 1;
    }
    proof {
        assert(a@.subrange(0, n as int) =~= a@);
    }
    out
}


/// Some file before position `n` is the index half with this id.
pub open spec fn has_index_half_upto(files: Seq<ScannedFile>, n: int, id: u64) -> bool {
    exists|k: int|
        0 <= k < n && scanned_class((#[trigger] files[k]).name@) == FileClass::IndexHalf(id)
}

/// Some file before position `n` is the data half with this id.
pub open spec fn has_data_half_upto(files: Seq<ScannedFile>, n: int, id: u64) -> bool {
    exists|k: int|
        0 <= k < n && scanned_class((#[trigger] files[k]).name@) == FileClass::DataHalf(id)
}

pub open spec fn has_index_half(files: Seq<ScannedFile>, id: u64) -> bool {
    has_index_half_upto(files, files.len() as int, id)
}

pub open spec fn has_data_half(files: Seq<ScannedFile>, id: u64) -> bool {
    has_data_half_upto(files, files.len() as int, id)
}

/// A chunk agrees with the canonical pair of files for its id.
pub open spec fn chunk_matches_files(files: Seq<ScannedFile>, id: u64, c: Chunk) -> bool {
    &&& c.wf()
    &&& c.hash_matches()
    &&& find_name_from(files, index_name_spec(id), 0) is Some
    &&& find_name_from(files, data_name_spec(id), 0) is Some
    &&& ({
        let ib = payload_seq(files[find_name_from(files, index_name_spec(id), 0)->0].contents);
        let db = payload_seq(files[find_name_from(files, data_name_spec(id), 0)->0].contents);
        &&& c.entries_spec() == decode_entries(ib.skip(32))
        &&& c.data_spec() == db
        &&& c.hash_spec() == ib.subrange(0, 32)
    })
}

/// Some file is the index half with this id, and some file the data half.
pub open spec fn paired(files: Seq<ScannedFile>, id: u64) -> bool {
    has_index_half(files, id) && has_data_half(files, id)
}

/// A paired id whose two canonically named files exist, decode, and whose
/// stored hash matches the data file.
pub open spec fn good_pair(files: Seq<ScannedFile>, id: u64) -> bool {
    &&& paired(files, id)
    &&& find_name_from(files, index_name_spec(id), 0) is Some
    &&& find_name_from(files, data_name_spec(id), 0) is Some
    &&& {
        let ib = payload_seq(files[find_name_from(files, index_name_spec(id), 0)->0].contents);
        let db = payload_seq(files[find_name_from(files, data_name_spec(id), 0)->0].contents);
        &&& chunk_decodes(ib, db)
        &&& ib.subrange(0, 32) == crate::hashing::sha256_of(db)
    }
}


/// The first id at or after `id`, up to `tail`, that holds a chunk.
pub open spec fn next_present(m: Map<u64, Chunk>, tail: u64, id: int) -> Option<u64>
    decreases tail + 1 - id,
{
    if id < 0 || id > tail {
        None
    } else if m.contains_key(id as u64) {
        Some(id as u64)
    } else {
        next_present(m, tail, id + 1)
    }
}

pub proof fn lemma_next_present(m: Map<u64, Chunk>, tail: u64, id: int)
    ensures
        match next_present(m, tail, id) {
            Some(j) => id <= j <= tail && m.contains_key(j) && forall|k: int|
                id <= k < j ==> !m.contains_key(#[trigger] (k as u64)),
            None => id >= 0 ==> forall|k: int|
                id <= k <= tail ==> !m.contains_key(#[trigger] (k as u64)),
        },
    decreases tail + 1 - id,
{
    if !(id < 0 || id > tail) && !m.contains_key(id as u64) {
        lemma_next_present(m, tail, id + 1);
    }
}

proof fn lemma_next_present_found(m: Map<u64, Chunk>, tail: u64, id: int, j: u64)
    requires
        0 <= id <= j <= tail,
        m.contains_key(j),
        forall|k: int| id <= k < j ==> !m.contains_key(#[trigger] (k as u64)),
    ensures
        next_present(m, tail, id) == Some(j),
    decreases j - id,
{
    if id < j {
        lemma_next_present_found(m, tail, id + 1, j);
    }
}

/// What a continuation read gathers from the chunks at or after `scan`,
/// still needing `left` entries.
pub open spec fn disk_collect_loop(m: Map<u64, Chunk>, tail: u64, scan: int, left: u64) -> (
    Seq<EntryV>,
    u64,
    Option<u64>,
)
    decreases tail + 1 - scan,
    via disk_collect_loop_decreases
{
    match next_present(m, tail, scan) {
        None => (Seq::empty(), left, None),
        Some(j) => {
            let es = m[j].chunk_entries();
            let limit = if left > es.len() {
                es.len() as int
            } else {
                left as int
            };
            let taken = es.subrange(0, limit);
            let newleft = (left - limit) as u64;
            if newleft == 0 {
                (taken, 0, Some(j))
            } else {
                let rest = disk_collect_loop(m, tail, j + 1, newleft);
                (taken + rest.0, rest.1, rest.2)
            }
        },
    }
}

#[via_fn]
proof fn disk_collect_loop_decreases(m: Map<u64, Chunk>, tail: u64, scan: int, left: u64) {
    lemma_next_present(m, tail, scan);
}

/// What a read gathers starting at `offset` inside the chunk at `id`: the
/// entries taken, the count still missing, and the id to resume at.
pub open spec fn disk_collect(m: Map<u64, Chunk>, tail: u64, id: u64, offset: u64, len: u64) -> (
    Seq<EntryV>,
    u64,
    Option<u64>,
)
    recommends
        m.contains_key(id),
        offset <= m[id].chunk_entries().len(),
{
    let es = m[id].chunk_entries();
    let limit = if offset + len > es.len() {
        es.len() as int
    } else {
        offset + len
    };
    let taken = es.subrange(offset as int, limit);
    let left = (offset + len - limit) as u64;
    if left == 0 {
        if offset + len >= es.len() {
            (taken, 0, next_present(m, tail, id + 1))
        } else {
            (taken, 0, Some(id))
        }
    } else {
        let rest = disk_collect_loop(m, tail, id + 1, left);
        (taken + rest.0, rest.1, rest.2)
    }
}

/// A read that still misses entries has no chunk left to resume at.
pub proof fn lemma_disk_collect_left(m: Map<u64, Chunk>, tail: u64, id: u64, offset: u64, len: u64)
    ensures
        disk_collect(m, tail, id, offset, len).1 > 0 ==> disk_collect(
            m,
            tail,
            id,
            offset,
            len,
        ).2 is None,
{
    lemma_disk_collect_loop_left(m, tail, id + 1);
}

/// Same for the continuation over later chunks, whatever is still wanted.
pub proof fn lemma_disk_collect_loop_left(m: Map<u64, Chunk>, tail: u64, scan: int)
    ensures
        forall|left: u64|
            (#[trigger] disk_collect_loop(m, tail, scan, left)).1 > 0 ==> disk_collect_loop(
                m,
                tail,
                scan,
                left,
            ).2 is None,
    decreases tail + 1 - scan,
{
    lemma_next_present(m, tail, scan);
    match next_present(m, tail, scan) {
        None => {},
        Some(j) => {
            lemma_disk_collect_loop_left(m, tail, j + 1);
            assert forall|left: u64|
                (#[trigger] disk_collect_loop(m, tail, scan, left)).1 > 0
                    implies disk_collect_loop(m, tail, scan, left).2 is None by {
                let es = m[j].chunk_entries();
                let limit = if left > es.len() {
                    es.len() as int
                } else {
                    left as int
                };
                let newleft = (left - limit) as u64;
                if newleft != 0 {
                    assert(disk_collect_loop(m, tail, j + 1, newleft).1 > 0
                        ==> disk_collect_loop(m, tail, j + 1, newleft).2 is None);
                }
            }
        },
    }
}

/// The first timestamp of a chunk, 0 when it is empty.
pub open spec fn chunk_start_time(c: Chunk) -> u64 {
    if c.chunk_entries().len() == 0 {
        0u64
    } else {
        c.chunk_entries()[0].1
    }
}

/// The last timestamp of a chunk, 0 when it is empty.
pub open spec fn chunk_end_time(c: Chunk) -> u64 {
    if c.chunk_entries().len() == 0 {
        0u64
    } else {
        c.chunk_entries().last().1
    }
}

/// Whether a timestamp lies between a chunk's first and last timestamps.
pub open spec fn chunk_contains_time(c: Chunk, t: u64) -> bool {
    chunk_start_time(c) <= t <= chunk_end_time(c)
}

/// `head_time` and `tail_time` are the least first-timestamp and the
/// greatest last-timestamp over the nonempty chunks of the map, and both
/// 0 when no nonempty chunk exists.
pub open spec fn time_bounds_of(m: Map<u64, Chunk>, head_time: u64, tail_time: u64) -> bool {
    &&& forall|id: u64|
        m.contains_key(id) && (#[trigger] m[id]).chunk_entries().len() > 0 ==> head_time
            <= chunk_start_time(m[id]) && chunk_end_time(m[id]) <= tail_time
    &&& if exists|id: u64| m.contains_key(id) && (#[trigger] m[id]).chunk_entries().len() > 0 {
        &&& exists|id: u64|
            m.contains_key(id) && (#[trigger] m[id]).chunk_entries().len() > 0 && head_time
                == chunk_start_time(m[id])
        &&& exists|id: u64|
            m.contains_key(id) && (#[trigger] m[id]).chunk_entries().len() > 0 && tail_time
                == chunk_end_time(m[id])
    } else {
        head_time == 0 && tail_time == 0
    }
}


/// Extending the scan by one file adds only that file's class.
proof fn lemma_half_upto_step(files: Seq<ScannedFile>, n: int, id: u64)
    requires
        0 <= n < files.len(),
    ensures
        scanned_class(files[n].name@) != FileClass::IndexHalf(id) ==> has_index_half_upto(
            files,
            n + 1,
            id,
        ) == has_index_half_upto(files, n, id),
        scanned_class(files[n].name@) != FileClass::DataHalf(id) ==> has_data_half_upto(
            files,
            n + 1,
            id,
        ) == has_data_half_upto(files, n, id),
        scanned_class(files[n].name@) == FileClass::IndexHalf(id) ==> has_index_half_upto(
            files,
            n + 1,
            id,
        ),
        scanned_class(files[n].name@) == FileClass::DataHalf(id) ==> has_data_half_upto(
            files,
            n + 1,
            id,
        ),
{
    if has_index_half_upto(files, n, id) {
        let k = choose|k: int|
            0 <= k < n && scanned_class(#[trigger] files[k].name@) == FileClass::IndexHalf(id);
        assert(0 <= k < n + 1 && scanned_class(files[k].name@) == FileClass::IndexHalf(id));
    }
    if has_data_half_upto(files, n, id) {
        let k = choose|k: int|
            0 <= k < n && scanned_class(#[trigger] files[k].name@) == FileClass::DataHalf(id);
        assert(0 <= k < n + 1 && scanned_class(files[k].name@) == FileClass::DataHalf(id));
    }
    if has_index_half_upto(files, n + 1, id) && !has_index_half_upto(files, n, id) {
        let k = choose|k: int|
            0 <= k < n + 1 && scanned_class(#[trigger] files[k].name@) == FileClass::IndexHalf(id);
        assert(k == n);
    }
    if has_data_half_upto(files, n + 1, id) && !has_data_half_upto(files, n, id) {
        let k = choose|k: int|
            0 <= k < n + 1 && scanned_class(#[trigger] files[k].name@) == FileClass::DataHalf(id);
        assert(k == n);
    }
}

/// After recording the index half found at position `n`, the status list
/// again describes the scan up to `n + 1`.
proof fn lemma_statuses_update_index(
    files: Seq<ScannedFile>,
    n: int,
    olds: Seq<(u64, bool, bool)>,
    news: Seq<(u64, bool, bool)>,
    id: u64,
    a: int,
)
    requires
        0 <= n < files.len(),
        scanned_class(files[n].name@) == FileClass::IndexHalf(id),
        forall|x: int, y: int|
            0 <= x < y < olds.len() ==> (#[trigger] olds[x]).0 != (#[trigger] olds[y]).0,
        forall|x: int|
            0 <= x < olds.len() ==> (#[trigger] olds[x]).1 == has_index_half_upto(
                files,
                n,
                olds[x].0,
            ),
        forall|x: int|
            0 <= x < olds.len() ==> (#[trigger] olds[x]).2 == has_data_half_upto(
                files,
                n,
                olds[x].0,
            ),
        forall|q: u64|
            #![trigger has_index_half_upto(files, n, q)]
            #![trigger has_data_half_upto(files, n, q)]
            has_index_half_upto(files, n, q) || has_data_half_upto(files, n, q) ==> exists|x: int|
                0 <= x < olds.len() && (#[trigger] olds[x]).0 == q,
        0 <= a <= olds.len(),
        forall|c: int| 0 <= c < a ==> (#[trigger] olds[c]).0 != id,
        a < olds.len() ==> olds[a].0 == id && news == olds.update(
            a,
            (id, true, olds[a].2),
        ),
        a == olds.len() ==> news == olds.push((id, true, false)),
    ensures
        forall|x: int, y: int|
            0 <= x < y < news.len() ==> (#[trigger] news[x]).0 != (#[trigger] news[y]).0,
        forall|x: int|
            0 <= x < news.len() ==> (#[trigger] news[x]).1 == has_index_half_upto(
                files,
                n + 1,
                news[x].0,
            ),
        forall|x: int|
            0 <= x < news.len() ==> (#[trigger] news[x]).2 == has_data_half_upto(
                files,
                n + 1,
                news[x].0,
            ),
        forall|q: u64|
            #![trigger has_index_half_upto(files, n + 1, q)]
            #![trigger has_data_half_upto(files, n + 1, q)]
            has_index_half_upto(files, n + 1, q) || has_data_half_upto(files, n + 1, q)
                ==> exists|x: int| 0 <= x < news.len() && (#[trigger] news[x]).0 == q,
{
    if a == olds.len() {
        assert forall|q: u64|
            #![trigger has_index_half_upto(files, n, q)]
            #![trigger has_data_half_upto(files, n, q)]
            has_index_half_upto(files, n, q) || has_data_half_upto(files, n, q)
                implies exists|x: int| 0 <= x < news.len() && (#[trigger] news[x]).0 == q by {
            let x = choose|x: int| 0 <= x < olds.len() && (#[trigger] olds[x]).0 == q;
            assert(news[x].0 == q);
        }
        assert(!has_index_half_upto(files, n, id)) by {
            if has_index_half_upto(files, n, id) {
                let x = choose|x: int| 0 <= x < olds.len() && (#[trigger] olds[x]).0 == id;
                assert(false);
            }
        }
    }
    assert forall|x: int| 0 <= x < news.len() implies (#[trigger] news[x]).1
        == has_index_half_upto(files, n + 1, news[x].0) by {
        lemma_half_upto_step(files, n, news[x].0);
        if x < olds.len() && x != a {
            assert(news[x] == olds[x]);
            assert(olds[x].0 != id || a < olds.len());
            if news[x].0 == id {
                assert(x == a || a == olds.len());
            }
        }
    }
    assert forall|x: int| 0 <= x < news.len() implies (#[trigger] news[x]).2
        == has_data_half_upto(files, n + 1, news[x].0) by {
        lemma_half_upto_step(files, n, news[x].0);
    }
    assert forall|q: u64|
        #![trigger has_index_half_upto(files, n + 1, q)]
        #![trigger has_data_half_upto(files, n + 1, q)]
        has_index_half_upto(files, n + 1, q) || has_data_half_upto(files, n + 1, q)
            implies exists|x: int| 0 <= x < news.len() && (#[trigger] news[x]).0 == q by {
        lemma_half_upto_step(files, n, q);
        if q == id {
            if a < olds.len() {
                assert(news[a].0 == q);
            } else {
                assert(news[a].0 == q);
            }
        } else {
            assert(has_index_half_upto(files, n, q) || has_data_half_upto(files, n, q));
            let x = choose|x: int| 0 <= x < olds.len() && (#[trigger] olds[x]).0 == q;
            assert(news[x].0 == q);
        }
    }
}

/// After recording the data half found at position `n`, the status list
/// again describes the scan up to `n + 1`.
proof fn lemma_statuses_update_data(
    files: Seq<ScannedFile>,
    n: int,
    olds: Seq<(u64, bool, bool)>,
    news: Seq<(u64, bool, bool)>,
    id: u64,
    a: int,
)
    requires
        0 <= n < files.len(),
        scanned_class(files[n].name@) == FileClass::DataHalf(id),
        forall|x: int, y: int|
            0 <= x < y < olds.len() ==> (#[trigger] olds[x]).0 != (#[trigger] olds[y]).0,
        forall|x: int|
            0 <= x < olds.len() ==> (#[trigger] olds[x]).1 == has_index_half_upto(
                files,
                n,
                olds[x].0,
            ),
        forall|x: int|
            0 <= x < olds.len() ==> (#[trigger] olds[x]).2 == has_data_half_upto(
                files,
                n,
                olds[x].0,
            ),
        forall|q: u64|
            #![trigger has_index_half_upto(files, n, q)]
            #![trigger has_data_half_upto(files, n, q)]
            has_index_half_upto(files, n, q) || has_data_half_upto(files, n, q) ==> exists|x: int|
                0 <= x < olds.len() && (#[trigger] olds[x]).0 == q,
        0 <= a <= olds.len(),
        forall|c: int| 0 <= c < a ==> (#[trigger] olds[c]).0 != id,
        a < olds.len() ==> olds[a].0 == id && news == olds.update(
            a,
            (id, olds[a].1, true),
        ),
        a == olds.len() ==> news == olds.push((id, false, true)),
    ensures
        forall|x: int, y: int|
            0 <= x < y < news.len() ==> (#[trigger] news[x]).0 != (#[trigger] news[y]).0,
        forall|x: int|
            0 <= x < news.len() ==> (#[trigger] news[x]).1 == has_index_half_upto(
                files,
                n + 1,
                news[x].0,
            ),
        forall|x: int|
            0 <= x < news.len() ==> (#[trigger] news[x]).2 == has_data_half_upto(
                files,
                n + 1,
                news[x].0,
            ),
        forall|q: u64|
            #![trigger has_index_half_upto(files, n + 1, q)]
            #![trigger has_data_half_upto(files, n + 1, q)]
            has_index_half_upto(files, n + 1, q) || has_data_half_upto(files, n + 1, q)
                ==> exists|x: int| 0 <= x < news.len() && (#[trigger] news[x]).0 == q,
{
    if a == olds.len() {
        assert(!has_data_half_upto(files, n, id)) by {
            if has_data_half_upto(files, n, id) {
                let x = choose|x: int| 0 <= x < olds.len() && (#[trigger] olds[x]).0 == id;
                assert(false);
            }
        }
    }
    assert forall|x: int| 0 <= x < news.len() implies (#[trigger] news[x]).1
        == has_index_half_upto(files, n + 1, news[x].0) by {
        lemma_half_upto_step(files, n, news[x].0);
    }
    assert forall|x: int| 0 <= x < news.len() implies (#[trigger] news[x]).2
        == has_data_half_upto(files, n + 1, news[x].0) by {
        lemma_half_upto_step(files, n, news[x].0);
        if x < olds.len() && x != a {
            assert(news[x] == olds[x]);
            if news[x].0 == id {
                assert(x == a || a == olds.len());
            }
        }
    }
    assert forall|q: u64|
        #![trigger has_index_half_upto(files, n + 1, q)]
        #![trigger has_data_half_upto(files, n + 1, q)]
        has_index_half_upto(files, n + 1, q) || has_data_half_upto(files, n + 1, q)
            implies exists|x: int| 0 <= x < news.len() && (#[trigger] news[x]).0 == q by {
        lemma_half_upto_step(files, n, q);
        if q == id {
            assert(news[a].0 == q);
        } else {
            assert(has_index_half_upto(files, n, q) || has_data_half_upto(files, n, q));
            let x = choose|x: int| 0 <= x < olds.len() && (#[trigger] olds[x]).0 == q;
            assert(news[x].0 == q);
        }
    }
}

/// What a sound disk tier guarantees: every held chunk is sound, its
/// stored hash is the digest of its data file, and its id lies between
/// the tier's head and tail.
pub proof fn lemma_handler_wf_facts(h: DiskHandler)
    requires
        h.wf(),
    ensures
        h.chunks_map().dom().finite(),
        forall|id: u64|
            #[trigger] h.chunks_map().contains_key(id) ==> h.head_spec() <= id
                <= h.tail_spec(),
        forall|id: u64|
            #[trigger] h.chunks_map().contains_key(id) ==> h.chunks_map()[id].wf()
                && h.chunks_map()[id].hash_matches(),
{
    assert forall|id: u64| #[trigger] h.chunks_map().contains_key(id) implies h.head_spec() <= id
        <= h.tail_spec() && h.chunks_map()[id].wf() && h.chunks_map()[id].hash_matches() by {
        assert(h.chunks@[id].wf());
    }
}


/// Inserting one fresh chunk keeps the tracked time bounds the least
/// first-timestamp and greatest last-timestamp over the nonempty chunks.
proof fn lemma_time_bounds_insert(
    old_m: Map<u64, Chunk>,
    new_m: Map<u64, Chunk>,
    id: u64,
    c: Chunk,
    pre_ht: u64,
    pre_tt: u64,
    pre_have: bool,
    ht: u64,
    tt: u64,
    have: bool,
)
    requires
        !old_m.contains_key(id),
        new_m == old_m.insert(id, c),
        pre_have == exists|q: u64|
            old_m.contains_key(q) && (#[trigger] old_m[q]).chunk_entries().len() > 0,
        time_bounds_of(old_m, pre_ht, pre_tt),
        c.chunk_entries().len() == 0 ==> ht == pre_ht && tt == pre_tt && have == pre_have,
        c.chunk_entries().len() > 0 ==> have,
        c.chunk_entries().len() > 0 && !pre_have ==> ht == chunk_start_time(c) && tt
            == chunk_end_time(c),
        c.chunk_entries().len() > 0 && pre_have ==> ht == (if chunk_start_time(c) < pre_ht {
            chunk_start_time(c)
        } else {
            pre_ht
        }) && tt == (if chunk_end_time(c) > pre_tt {
            chunk_end_time(c)
        } else {
            pre_tt
        }),
    ensures
        have == exists|q: u64|
            new_m.contains_key(q) && (#[trigger] new_m[q]).chunk_entries().len() > 0,
        time_bounds_of(new_m, ht, tt),
{
    if c.chunk_entries().len() > 0 {
        assert(new_m.contains_key(id) && new_m[id].chunk_entries().len() > 0);
    }
    if c.chunk_entries().len() == 0 && pre_have {
        let w = choose|q: u64|
            old_m.contains_key(q) && (#[trigger] old_m[q]).chunk_entries().len() > 0;
        assert(new_m.contains_key(w) && new_m[w].chunk_entries().len() > 0);
    }
    if c.chunk_entries().len() == 0 && !pre_have {
        assert(!(exists|q: u64|
            new_m.contains_key(q) && (#[trigger] new_m[q]).chunk_entries().len() > 0)) by {
            if exists|q: u64|
                new_m.contains_key(q) && (#[trigger] new_m[q]).chunk_entries().len() > 0 {
                let q = choose|q: u64|
                    new_m.contains_key(q) && (#[trigger] new_m[q]).chunk_entries().len() > 0;
                assert(q != id);
                assert(old_m.contains_key(q) && old_m[q].chunk_entries().len() > 0);
            }
        }
    }
    assert forall|q: u64|
        new_m.contains_key(q) && (#[trigger] new_m[q]).chunk_entries().len() > 0 implies ht
        <= chunk_start_time(new_m[q]) && chunk_end_time(new_m[q]) <= tt by {
        if q != id {
            assert(old_m.contains_key(q) && old_m[q].chunk_entries().len() > 0);
            assert(pre_ht <= chunk_start_time(old_m[q]) && chunk_end_time(old_m[q]) <= pre_tt);
        }
    }
    if have {
        if c.chunk_entries().len() > 0 && !pre_have {
            assert(new_m[id].chunk_entries().len() > 0 && ht == chunk_start_time(new_m[id]));
            assert(new_m[id].chunk_entries().len() > 0 && tt == chunk_end_time(new_m[id]));
        } else if c.chunk_entries().len() > 0 && pre_have {
            if chunk_start_time(c) < pre_ht {
                assert(new_m[id].chunk_entries().len() > 0 && ht == chunk_start_time(
                    new_m[id],
                ));
            } else {
                let w = choose|q: u64|
                    old_m.contains_key(q) && (#[trigger] old_m[q]).chunk_entries().len() > 0
                        && pre_ht == chunk_start_time(old_m[q]);
                assert(new_m.contains_key(w) && new_m[w].chunk_entries().len() > 0 && ht
                    == chunk_start_time(new_m[w]));
            }
            if chunk_end_time(c) > pre_tt {
                assert(new_m[id].chunk_entries().len() > 0 && tt == chunk_end_time(new_m[id]));
            } else {
                let w = choose|q: u64|
                    old_m.contains_key(q) && (#[trigger] old_m[q]).chunk_entries().len() > 0
                        && pre_tt == chunk_end_time(old_m[q]);
                assert(new_m.contains_key(w) && new_m[w].chunk_entries().len() > 0 && tt
                    == chunk_end_time(new_m[w]));
            }
        } else {
            let w = choose|q: u64|
                old_m.contains_key(q) && (#[trigger] old_m[q]).chunk_entries().len() > 0
                    && pre_ht == chunk_start_time(old_m[q]);
            assert(new_m.contains_key(w) && new_m[w].chunk_entries().len() > 0 && ht
                == chunk_start_time(new_m[w]));
            let w2 = choose|q: u64|
                old_m.contains_key(q) && (#[trigger] old_m[q]).chunk_entries().len() > 0
                    && pre_tt == chunk_end_time(old_m[q]);
            assert(new_m.contains_key(w2) && new_m[w2].chunk_entries().len() > 0 && tt
                == chunk_end_time(new_m[w2]));
        }
    }
}

/// A wrapper around all index and data files on the disk.
pub struct DiskHandler {
    /// The opened chunks, keyed by id.
    chunks: FnvHashMap<u64, Chunk>,
    /// Smallest id of any held chunk.
    head: u64,
    /// Largest id of any held chunk.
    tail: u64,
    /// Smallest first-timestamp over nonempty chunks seen.
    head_time: u64,
    /// Largest last-timestamp over nonempty chunks seen.
    tail_time: u64,
    /// Whether any nonempty chunk has contributed to the time bounds.
    have_time: bool,
    /// The files that did not form a verified chunk.
    invalid_files: Vec<InvalidType>,
    /// File images of inserted chunks that still await writing.
    pending: Vec<PendingChunk>,
}

impl DiskHandler {
    /// The held chunks, by id.
    pub closed spec fn chunks_map(&self) -> Map<u64, Chunk> {
        self.chunks@
    }

    pub closed spec fn head_spec(&self) -> u64 {
        self.head
    }

    pub closed spec fn tail_spec(&self) -> u64 {
        self.tail
    }

    pub closed spec fn head_time_spec(&self) -> u64 {
        self.head_time
    }

    pub closed spec fn tail_time_spec(&self) -> u64 {
        self.tail_time
    }

    pub closed spec fn invalid_spec(&self) -> Seq<InvalidType> {
        self.invalid_files@
    }

    pub closed spec fn pending_spec(&self) -> Seq<PendingChunk> {
        self.pending@
    }

    /// Every held chunk is sound, its hash matches its data, and its id
    /// lies between `head` and `tail`.
    pub closed spec fn wf(&self) -> bool {
        &&& self.chunks@.dom().finite()
        &&& forall|id: u64|
            self.chunks@.contains_key(id) ==> {
                &&& (#[trigger] self.chunks@[id]).wf()
                &&& self.chunks@[id].hash_matches()
                &&& self.head <= id <= self.tail
            }
    }


    /// Scan a directory listing: classify every file name, open and verify
    /// each paired chunk, record everything invalid, and return the id at
    /// which in-memory segments should start.
    pub fn new(files: Vec<ScannedFile>) -> (r: Result<(u64, DiskHandler), LogError>)
        ensures
            match r {
                Ok(p) => {
                    &&& p.1.wf()
                    &&& p.1.pending_spec() =~= Seq::<PendingChunk>::empty()
                    &&& forall|id: u64|
                        #[trigger] p.1.chunks_map().contains_key(id) <==> good_pair(files@, id)
                    &&& forall|id: u64|
                        #[trigger] p.1.chunks_map().contains_key(id) ==> chunk_matches_files(
                            files@,
                            id,
                            p.1.chunks_map()[id],
                        )
                    &&& (p.1.chunks_map().dom() == Set::<u64>::empty() ==> p.0 == 0
                        && p.1.head_spec() == 0 && p.1.tail_spec() == 0)
                    &&& (p.1.chunks_map().dom() != Set::<u64>::empty() ==> {
                        &&& p.1.chunks_map().contains_key(p.1.head_spec())
                        &&& p.1.chunks_map().contains_key(p.1.tail_spec())
                        &&& (p.1.tail_spec() < u64::MAX ==> p.0 == p.1.tail_spec() + 1)
                    })
                    &&& forall|k: int|
                        0 <= k < files@.len() && scanned_class(
                            (#[trigger] files@[k]).name@,
                        ) == FileClass::Bad ==> invalid_has_name(
                            p.1.invalid_spec(),
                            files@[k].name@,
                        )
                    &&& forall|id: u64|
                        #[trigger] has_data_half(files@, id) && !has_index_half(files@, id)
                            ==> invalid_contains(p.1.invalid_spec(), InvalidType::NoIndex(id))
                    &&& forall|id: u64|
                        #[trigger] has_index_half(files@, id) && !has_data_half(files@, id)
                            ==> invalid_contains(p.1.invalid_spec(), InvalidType::NoSegment(id))
                    &&& forall|id: u64|
                        #[trigger] paired(files@, id) && find_name_from(
                            files@,
                            index_name_spec(id),
                            0,
                        ) is Some && find_name_from(files@, data_name_spec(id), 0) is Some
                            && !good_pair(files@, id) ==> invalid_contains(
                            p.1.invalid_spec(),
                            InvalidType::InvalidChecksum(id),
                        )
                    &&& time_bounds_of(
                        p.1.chunks_map(),
                        p.1.head_time_spec(),
                        p.1.tail_time_spec(),
                    )
                },
                Err(e) => {
                    &&& e == LogError::NotFound
                    &&& exists|id: u64|
                        #[trigger] paired(files@, id) && (find_name_from(
                            files@,
                            index_name_spec(id),
                            0,
                        ) is None || find_name_from(files@, data_name_spec(id), 0) is None)
                },
            },
    {
        let nf = files.len();
        let mut invalid_files: Vec<InvalidType> = Vec::new();
        let mut statuses: Vec<(u64, bool, bool)> = Vec::new();
        let mut fi: usize = 0;
        while fi < nf
            invariant
                nf == files@.len(),
                fi <= nf,
                forall|a: int, b: int|
                    0 <= a < b < statuses@.len() ==> (#[trigger] statuses@[a]).0 != (
                    #[trigger] statuses@[b]).0,
                forall|a: int|
                    0 <= a < statuses@.len() ==> (#[trigger] statuses@[a]).1
                        == has_index_half_upto(files@, fi as int, statuses@[a].0),
                forall|a: int|
                    0 <= a < statuses@.len() ==> (#[trigger] statuses@[a]).2
                        == has_data_half_upto(files@, fi as int, statuses@[a].0),
                forall|id: u64|
                    #![trigger has_index_half_upto(files@, fi as int, id)]
                    #![trigger has_data_half_upto(files@, fi as int, id)]
                    has_index_half_upto(files@, fi as int, id) || has_data_half_upto(
                        files@,
                        fi as int,
                        id,
                    ) ==> exists|a: int|
                        0 <= a < statuses@.len() && (#[trigger] statuses@[a]).0 == id,
                forall|k: int|
                    0 <= k < fi && scanned_class((#[trigger] files@[k]).name@) == FileClass::Bad
                        ==> invalid_has_name(invalid_files@, files@[k].name@),
            decreases nf - fi,
        {
            let class = classify_name(&files[fi].name);
            match class {
                FileClass::Bad => {
                    let ghost old_inv = invalid_files@;
                    let nv = copy_bytes_vec(&files[fi].name);
                    proof {
                        lemma_invalid_push_mono(old_inv, InvalidType::InvalidName(nv));
                    }
                    invalid_files.push(InvalidType::InvalidName(nv));
                    proof {
                        assert(invalid_files@ == old_inv.push(
                            InvalidType::InvalidName(nv),
                        ));
                        assert(invalid_files@.last() matches InvalidType::InvalidName(v) && v@
                            == files@[fi as int].name@);
                        assert(invalid_has_name(invalid_files@, files@[fi as int].name@));
                        assert forall|id: u64|
                            #![trigger has_index_half_upto(files@, fi + 1, id)]
                            #![trigger has_data_half_upto(files@, fi + 1, id)]
                            has_index_half_upto(files@, fi + 1, id) || has_data_half_upto(
                                files@,
                                fi + 1,
                                id,
                            ) implies exists|a: int|
                            0 <= a < statuses@.len() && (#[trigger] statuses@[a]).0 == id by {
                            assert(has_index_half_upto(files@, fi as int, id)
                                || has_data_half_upto(files@, fi as int, id));
                        }
                        assert forall|a: int| 0 <= a < statuses@.len() implies (
                        #[trigger] statuses@[a]).1 == has_index_half_upto(
                            files@,
                            fi + 1,
                            statuses@[a].0,
                        ) && statuses@[a].2 == has_data_half_upto(
                            files@,
                            fi + 1,
                            statuses@[a].0,
                        ) by {
                            lemma_half_upto_step(files@, fi as int, statuses@[a].0);
                        }
                    }
                },
                FileClass::IndexHalf(id) => {
                    let ns = statuses.len();
                    let mut a: usize = 0;
                    while a < ns && statuses[a].0 != id
                        invariant
                            ns == statuses@.len(),
                            a <= ns,
                            forall|c: int| 0 <= c < a ==> (#[trigger] statuses@[c]).0 != id,
                        decreases ns - a,
                    {
                        a = a + 1;
                    }
                    let ghost old_statuses = statuses@;
                    if a < ns {
                        let s = statuses[a];
                        statuses.set(a, (id, true, s.2));
                    } else {
                        statuses.push((id, true, false));
                    }
                    proof {
                        lemma_statuses_update_index(files@, fi as int, old_statuses, statuses@, id, a as int);
                    }
                },
                FileClass::DataHalf(id) => {
                    let ns = statuses.len();
                    let mut a: usize = 0;
                    while a < ns && statuses[a].0 != id
                        invariant
                            ns == statuses@.len(),
                            a <= ns,
                            forall|c: int| 0 <= c < a ==> (#[trigger] statuses@[c]).0 != id,
                        decreases ns - a,
                    {
                        a = a + 1;
                    }
                    let ghost old_statuses = statuses@;
                    if a < ns {
                        let s = statuses[a];
                        statuses.set(a, (id, s.1, true));
                    } else {
                        statuses.push((id, false, true));
                    }
                    proof {
                        lemma_statuses_update_data(files@, fi as int, old_statuses, statuses@, id, a as int);
                    }
                },
            }
            fi = fi + 1;
        }
        let mut chunks: FnvHashMap<u64, Chunk> = fnv_new();
        let mut head: u64 = 0;
        let mut tail: u64 = 0;
        let mut have_any = false;
        let mut head_time: u64 = 0;
        let mut tail_time: u64 = 0;
        let mut have_time = false;
        let ns = statuses.len();
        let mut si: usize = 0;
        proof {
            assert(!(exists|q: u64|
                chunks@.contains_key(q) && (#[trigger] chunks@[q]).chunk_entries().len() > 0))
                by {
                if exists|q: u64|
                    chunks@.contains_key(q) && (#[trigger] chunks@[q]).chunk_entries().len()
                        > 0 {
                    let q = choose|q: u64|
                        chunks@.contains_key(q) && (#[trigger] chunks@[q]).chunk_entries().len()
                            > 0;
                    assert(chunks@.dom().contains(q));
                }
            }
        }
        while si < ns
            invariant
                nf == files@.len(),
                ns == statuses@.len(),
                si <= ns,
                chunks@.dom().finite(),
                forall|a: int, b: int|
                    0 <= a < b < statuses@.len() ==> (#[trigger] statuses@[a]).0 != (
                    #[trigger] statuses@[b]).0,
                forall|a: int|
                    0 <= a < statuses@.len() ==> (#[trigger] statuses@[a]).1 == has_index_half(
                        files@,
                        statuses@[a].0,
                    ),
                forall|a: int|
                    0 <= a < statuses@.len() ==> (#[trigger] statuses@[a]).2 == has_data_half(
                        files@,
                        statuses@[a].0,
                    ),
                forall|id: u64|
                    #![trigger has_index_half(files@, id)]
                    #![trigger has_data_half(files@, id)]
                    has_index_half(files@, id) || has_data_half(files@, id) ==> exists|a: int|
                        0 <= a < statuses@.len() && (#[trigger] statuses@[a]).0 == id,
                forall|k: int|
                    0 <= k < nf && scanned_class((#[trigger] files@[k]).name@) == FileClass::Bad
                        ==> invalid_has_name(invalid_files@, files@[k].name@),
                forall|id: u64|
                    #[trigger] chunks@.contains_key(id) <==> exists|a: int|
                        0 <= a < si && (#[trigger] statuses@[a]).0 == id && good_pair(files@, id),
                forall|id: u64|
                    #[trigger] chunks@.contains_key(id) ==> chunk_matches_files(
                        files@,
                        id,
                        chunks@[id],
                    ),
                !have_any ==> chunks@.dom() =~= Set::<u64>::empty() && head == 0 && tail == 0,
                have_any ==> chunks@.contains_key(head) && chunks@.contains_key(tail),
                forall|id: u64| #[trigger] chunks@.contains_key(id) ==> head <= id <= tail,
                forall|a: int|
                    0 <= a < si && !(#[trigger] statuses@[a]).1 ==> invalid_contains(
                        invalid_files@,
                        InvalidType::NoIndex(statuses@[a].0),
                    ),
                forall|a: int|
                    0 <= a < si && (#[trigger] statuses@[a]).1 && !statuses@[a].2
                        ==> invalid_contains(
                        invalid_files@,
                        InvalidType::NoSegment(statuses@[a].0),
                    ),
                forall|a: int|
                    0 <= a < si && (#[trigger] statuses@[a]).1 && statuses@[a].2
                        && find_name_from(files@, index_name_spec(statuses@[a].0), 0) is Some
                        && find_name_from(files@, data_name_spec(statuses@[a].0), 0) is Some
                        && !good_pair(files@, statuses@[a].0) ==> invalid_contains(
                        invalid_files@,
                        InvalidType::InvalidChecksum(statuses@[a].0),
                    ),
                have_time == exists|q: u64|
                    chunks@.contains_key(q) && (#[trigger] chunks@[q]).chunk_entries().len() > 0,
                time_bounds_of(chunks@, head_time, tail_time),
            decreases ns - si,
        {
            let (id, has_ix, has_da) = statuses[si];
            if !has_ix {
                proof {
                    lemma_invalid_push_mono(invalid_files@, InvalidType::NoIndex(id));
                }
                invalid_files.push(InvalidType::NoIndex(id));
                proof {
                    assert(!has_index_half(files@, id));
                }
            } else if !has_da {
                proof {
                    lemma_invalid_push_mono(invalid_files@, InvalidType::NoSegment(id));
                }
                invalid_files.push(InvalidType::NoSegment(id));
                proof {
                    assert(!has_data_half(files@, id));
                }
            } else {
                let ixname = names::index_file_name(id);
                let daname = names::data_file_name(id);
                let fix = match find_file(&files, &ixname) {
                    Some(f) => f,
                    None => {
                        proof {
                            assert(paired(files@, id));
                        }
                        return Err(LogError::NotFound);
                    },
                };
                let fda = match find_file(&files, &daname) {
                    Some(f) => f,
                    None => {
                        proof {
                            assert(paired(files@, id));
                        }
                        return Err(LogError::NotFound);
                    },
                };
                let opened = chunk::Chunk::open(
                    payload_as_slice(&fix.contents),
                    payload_clone(&fda.contents),
                );
                let mut ok_chunk: Option<Chunk> = None;
                match opened {
                    Ok((c, _st, _et)) => {
                        match c.verify() {
                            Ok(true) => {
                                ok_chunk = Some(c);
                            },
                            Ok(false) => {
                                proof {
                                    lemma_invalid_push_mono(
                                        invalid_files@,
                                        InvalidType::InvalidChecksum(id),
                                    );
                                }
                                invalid_files.push(InvalidType::InvalidChecksum(id));
                            },
                            Err(_) => {
                                proof {
                                    assert(false);
                                }
                            },
                        }
                    },
                    Err(_) => {
                        proof {
                            lemma_invalid_push_mono(
                                invalid_files@,
                                InvalidType::InvalidChecksum(id),
                            );
                        }
                        invalid_files.push(InvalidType::InvalidChecksum(id));
                    },
                }
                match ok_chunk {
                    Some(c) => {
                        proof {
                            assert(good_pair(files@, id));
                        }
                        let ghost pre_ht = head_time;
                        let ghost pre_tt = tail_time;
                        let ghost pre_have = have_time;
                        let n_entries = c.entries();
                        if n_entries > 0 {
                            let st = c.start_time();
                            let et = c.end_time();
                            if !have_time {
                                head_time = st;
                                tail_time = et;
                                have_time = true;
                            } else {
                                if st < head_time {
                                    head_time = st;
                                }
                                if et > tail_time {
                                    tail_time = et;
                                }
                            }
                        }
                        let ghost old_chunks = chunks@;
                        fnv_insert(&mut chunks, id, c);
                        if !have_any {
                            head = id;
                            tail = id;
                            have_any = true;
                        } else {
                            if id < head {
                                head = id;
                            }
                            if id > tail {
                                tail = id;
                            }
                        }
                        proof {
                            assert(chunks@.dom() =~= old_chunks.dom().insert(id));
                            assert forall|q: u64| #[trigger] chunks@.contains_key(q) implies
                                chunk_matches_files(files@, q, chunks@[q]) by {
                                if q != id {
                                    assert(old_chunks.contains_key(q));
                                }
                            }
                            assert(!old_chunks.contains_key(id));
                            lemma_time_bounds_insert(
                                old_chunks,
                                chunks@,
                                id,
                                c,
                                pre_ht,
                                pre_tt,
                                pre_have,
                                head_time,
                                tail_time,
                                have_time,
                            );
                        }
                    },
                    None => {
                        proof {
                            assert(!good_pair(files@, id));
                        }
                    },
                }
            }
            si = si + 1;
            proof {
                assert forall|id2: u64| #[trigger] chunks@.contains_key(id2) implies exists|a: int|
                    0 <= a < si && (#[trigger] statuses@[a]).0 == id2 && good_pair(
                        files@,
                        id2,
                    ) by {
                }
                assert forall|id2: u64|
                    (exists|a: int|
                        0 <= a < si && (#[trigger] statuses@[a]).0 == id2 && good_pair(
                            files@,
                            id2,
                        )) implies #[trigger] chunks@.contains_key(id2) by {
                }
            }
        }
        let mem_head: u64 = if !have_any {
            0
        } else if tail == u64::MAX {
            u64::MAX
        } else {
            tail + 1
        };
        proof {
            assert forall|id: u64| good_pair(files@, id) implies chunks@.contains_key(id) by {
                assert(has_index_half(files@, id));
            }
            assert forall|id: u64|
                #[trigger] paired(files@, id) && find_name_from(
                    files@,
                    index_name_spec(id),
                    0,
                ) is Some && find_name_from(files@, data_name_spec(id), 0) is Some
                    && !good_pair(files@, id) implies invalid_contains(
                invalid_files@,
                InvalidType::InvalidChecksum(id),
            ) by {
                assert(has_index_half(files@, id));
                let a = choose|a: int|
                    0 <= a < statuses@.len() && (#[trigger] statuses@[a]).0 == id;
                assert(statuses@[a].1 && statuses@[a].2);
            }
        }
        Ok(
            (
                mem_head,
                DiskHandler {
                    chunks,
                    head,
                    tail,
                    head_time,
                    tail_time,
                    have_time,
                    invalid_files,
                    pending: Vec::new(),
                },
            ),
        )
    }

    /// Get the id of the chunk with the lowest id.
    pub fn head(&self) -> (r: u64)
        ensures
            r == self.head_spec(),
    {
        self.head
    }

    /// Get the id of the chunk with the highest id.
    pub fn tail(&self) -> (r: u64)
        ensures
            r == self.tail_spec(),
    {
        self.tail
    }

    /// Returns the total number of chunks.
    pub fn len(&self) -> (r: u64)
        requires
            self.wf(),
        ensures
            r == self.chunks_map().dom().len() && self.chunks_map().dom().finite(),
    {
        fnv_len(&self.chunks) as u64
    }

    /// The smallest first-timestamp over the nonempty chunks seen.
    pub fn head_time(&self) -> (r: u64)
        ensures
            r == self.head_time_spec(),
    {
        self.head_time
    }

    /// Retrieve the files that did not form a verified chunk.
    pub fn invalid_files(&self) -> (r: &Vec<InvalidType>)
        ensures
            r@ == self.invalid_spec(),
    {
        &self.invalid_files
    }

    /// Hand out the file images of chunks inserted since the last call.
    pub fn take_pending(&mut self) -> (r: Vec<PendingChunk>)
        ensures
            final(self).pending_spec() =~= Seq::<PendingChunk>::empty(),
            r@ == old(self).pending_spec(),
            final(self).chunks_map() == old(self).chunks_map(),
            final(self).head_spec() == old(self).head_spec(),
            final(self).tail_spec() == old(self).tail_spec(),
            final(self).head_time_spec() == old(self).head_time_spec(),
            final(self).tail_time_spec() == old(self).tail_time_spec(),
            final(self).invalid_spec() == old(self).invalid_spec(),
            old(self).wf() ==> final(self).wf(),
    {
        let mut out: Vec<PendingChunk> = Vec::new();
        core::mem::swap(&mut out, &mut self.pending);
        out
    }

    /// Read a single payload from the given offset in the chunk at the
    /// given id.
    pub fn read(&self, index: u64, offset: u64) -> (r: Result<Bytes, LogError>)
        requires
            self.wf(),
        ensures
            match r {
                Ok(b) => {
                    &&& self.chunks_map().contains_key(index)
                    &&& offset < self.chunks_map()[index].chunk_entries().len()
                    &&& payload_seq(b) == self.chunks_map()[index].chunk_entries()[
                        offset as int].0
                },
                Err(e) => {
                    &&& e == LogError::NotFound
                    &&& (!self.chunks_map().contains_key(index) || offset
                        >= self.chunks_map()[index].chunk_entries().len())
                },
            },
    {
        match fnv_get(&self.chunks, index) {
            Some(chunk) => chunk.read(offset),
            None => Err(LogError::NotFound),
        }
    }

    /// Read a single payload and its timestamp.
    pub fn read_with_timestamps(&self, index: u64, offset: u64) -> (r: Result<
        (Bytes, u64),
        LogError,
    >)
        requires
            self.wf(),
        ensures
            match r {
                Ok(p) => {
                    &&& self.chunks_map().contains_key(index)
                    &&& offset < self.chunks_map()[index].chunk_entries().len()
                    &&& payload_seq(p.0) == self.chunks_map()[index].chunk_entries()[
                        offset as int].0
                    &&& p.1 == self.chunks_map()[index].chunk_entries()[offset as int].1
                },
                Err(e) => {
                    &&& e == LogError::NotFound
                    &&& (!self.chunks_map().contains_key(index) || offset
                        >= self.chunks_map()[index].chunk_entries().len())
                },
            },
    {
        match fnv_get(&self.chunks, index) {
            Some(chunk) => chunk.read_with_timestamps(offset),
            None => Err(LogError::NotFound),
        }
    }

    /// Whether the timestamp lies between the tier's time bounds.
    pub fn is_timestamp_contained(&self, timestamp: u64) -> (r: bool)
        ensures
            r == (self.head_time_spec() <= timestamp <= self.tail_time_spec()),
    {
        self.head_time <= timestamp && timestamp <= self.tail_time
    }

    /// The id of a chunk whose time range holds the timestamp, and the
    /// position of the matching entry inside it.
    pub fn index_from_timestamp(&self, timestamp: u64) -> (r: Result<(u64, u64), LogError>)
        requires
            self.wf(),
        ensures
            match r {
                Ok(p) => {
                    &&& self.chunks_map().contains_key(p.0)
                    &&& chunk_contains_time(self.chunks_map()[p.0], timestamp)
                    &&& ({
                        let es = self.chunks_map()[p.0].chunk_entries();
                        &&& p.1 <= es.len()
                        &&& forall|i: int| 0 <= i < p.1 ==> (#[trigger] es[i]).1 < timestamp
                        &&& forall|i: int| p.1 <= i < es.len() ==> (#[trigger] es[i]).1 >= timestamp
                    })
                },
                Err(e) => {
                    &&& e == LogError::NotFound
                    &&& forall|id: u64|
                        self.chunks_map().contains_key(id) ==> !chunk_contains_time(
                            #[trigger] self.chunks_map()[id],
                            timestamp,
                        )
                },
            },
    {
        let mut id = self.head;
        while id <= self.tail
            invariant
                self.wf(),
                self.head <= id,
                forall|q: u64|
                    self.chunks_map().contains_key(q) && q < id ==> !chunk_contains_time(
                        #[trigger] self.chunks_map()[q],
                        timestamp,
                    ),
            decreases self.tail - id,
        {
            match fnv_get(&self.chunks, id) {
                Some(chunk) => {
                    if chunk.is_timestamp_contained(timestamp) {
                        match chunk.index_from_timestamp(timestamp) {
                            Ok(idx) => {
                                return Ok((id, idx));
                            },
                            Err(_) => {
                                proof {
                                    assert(false);
                                }
                                return Err(LogError::NotFound);
                            },
                        }
                    }
                },
                None => {},
            }
            if id == self.tail {
                return Err(LogError::NotFound);
            }
            id = id + 1;
        }
        Err(LogError::NotFound)
    }

    /// Find the first chunk after the given id, stepping over missing ids
    /// up to the tier's tail.
    fn next_chunk_after(&self, after: u64) -> (r: Option<u64>)
        requires
            self.wf(),
        ensures
            r == next_present(self.chunks_map(), self.tail_spec(), after + 1),
    {
        if after >= self.tail {
            proof {
                lemma_next_present(self.chunks@, self.tail, after + 1);
                let np = next_present(self.chunks@, self.tail, after + 1);
                match np {
                    Some(jj) => {
                        assert(false);
                    },
                    None => {},
                }
            }
            return None;
        }
        let mut j = after + 1;
        loop
            invariant
                self.wf(),
                after + 1 <= j <= self.tail,
                forall|k: int|
                    after + 1 <= k < j ==> !self.chunks@.contains_key(#[trigger] (k as u64)),
            decreases self.tail - j,
        {
            match fnv_get(&self.chunks, j) {
                Some(_) => {
                    proof {
                        lemma_next_present_found(self.chunks@, self.tail, after + 1, j);
                    }
                    return Some(j);
                },
                None => {
                    if j == self.tail {
                        proof {
                            lemma_next_present(self.chunks@, self.tail, after + 1);
                            let np = next_present(self.chunks@, self.tail, after + 1);
                            match np {
                                Some(jj) => {
                                    if jj == j {
                                        assert(!self.chunks@.contains_key(jj));
                                    } else {
                                        let ki: int = jj as int;
                                        assert(after + 1 <= ki < j);
                                        assert(!self.chunks@.contains_key(ki as u64));
                                        assert(ki as u64 == jj);
                                    }
                                    assert(false);
                                },
                                None => {},
                            }
                        }
                        return None;
                    }
                    j = j + 1;
                },
            }
        }
    }

    /// Read `len` payloads starting from the given offset in the chunk at
    /// the given id, continuing over later chunks and stepping over gaps.
    /// Returns the count still missing and the id to resume at, if any.
    pub fn readv(&self, index: u64, offset: u64, len: u64, out: &mut Vec<Bytes>) -> (r: Result<
        (u64, Option<u64>),
        LogError,
    >)
        requires
            self.wf(),
        ensures
            match r {
                Ok(p) => {
                    &&& self.chunks_map().contains_key(index)
                    &&& offset <= self.chunks_map()[index].chunk_entries().len()
                    &&& ({
                        let c = disk_collect(
                            self.chunks_map(),
                            self.tail_spec(),
                            index,
                            offset,
                            len,
                        );
                        &&& p.0 == c.1
                        &&& p.1 == c.2
                        &&& bytes_view(final(out)@) == bytes_view(old(out)@) + payloads_of(c.0)
                    })
                },
                Err(e) => {
                    &&& e == LogError::NotFound
                    &&& (!self.chunks_map().contains_key(index) || offset
                        > self.chunks_map()[index].chunk_entries().len())
                    &&& final(out)@ == old(out)@
                },
            },
    {
        let ghost m = self.chunks@;
        let ghost goal = disk_collect(self.chunks@, self.tail, index, offset, len);
        let chunk = match fnv_get(&self.chunks, index) {
            Some(c) => c,
            None => {
                return Err(LogError::NotFound);
            },
        };
        let mut left = match chunk.readv(offset, len, out) {
            Ok(l) => l,
            Err(e) => {
                return Err(e);
            },
        };
        let ghost acc = chunk.chunk_entries().subrange(
            offset as int,
            if offset + len > chunk.chunk_entries().len() {
                chunk.chunk_entries().len() as int
            } else {
                offset + len
            },
        );
        let mut segment_idx = index;
        if left == 0 {
            let n = chunk.entries();
            if len >= n - offset {
                let next = self.next_chunk_after(segment_idx);
                proof {
                    assert(goal == (acc, 0u64, next_present(m, self.tail_spec(), index + 1)));
                }
                return Ok((0, next));
            } else {
                proof {
                    assert(goal == (acc, 0u64, Some(index)));
                }
                return Ok((0, Some(segment_idx)));
            }
        }
        proof {
            assert(goal == {
                let rest = disk_collect_loop(m, self.tail_spec(), index + 1, left);
                (acc + rest.0, rest.1, rest.2)
            });
        }
        while left > 0
            invariant
                self.wf(),
                m == self.chunks@,
                m.contains_key(index),
                offset <= m[index].chunk_entries().len(),
                goal == disk_collect(m, self.tail_spec(), index, offset, len),
                index <= segment_idx <= self.tail_spec(),
                bytes_view(out@) == bytes_view(old(out)@) + payloads_of(acc),
                left > 0 ==> goal == {
                    let rest = disk_collect_loop(m, self.tail_spec(), segment_idx + 1, left);
                    (acc + rest.0, rest.1, rest.2)
                },
                left == 0 ==> goal == (acc, 0u64, Some(segment_idx)),
            decreases self.tail_spec() - segment_idx,
        {
            let ghost prev_left = left;
            let ghost prev_acc = acc;
            let next = self.next_chunk_after(segment_idx);
            proof {
                lemma_next_present(m, self.tail_spec(), segment_idx + 1);
            }
            match next {
                None => {
                    proof {
                        let rest = disk_collect_loop(m, self.tail_spec(), segment_idx + 1, left);
                        assert(rest == (Seq::<EntryV>::empty(), left, None::<u64>));
                        assert(goal.0 == acc + rest.0);
                        assert(acc + Seq::<EntryV>::empty() =~= acc);
                        assert(goal.1 == left && goal.2 == None::<u64>);
                        assert(payloads_of(goal.0) =~= payloads_of(acc));
                    }
                    return Ok((left, None));
                },
                Some(j) => {
                    segment_idx = j;
                    let c = match fnv_get(&self.chunks, j) {
                        Some(c) => c,
                        None => {
                            proof {
                                assert(false);
                            }
                            return Err(LogError::NotFound);
                        },
                    };
                    left = match c.readv(0, left, out) {
                        Ok(l) => l,
                        Err(_) => {
                            proof {
                                assert(false);
                            }
                            return Err(LogError::NotFound);
                        },
                    };
                    proof {
                        let es = c.chunk_entries();
                        let limit = if prev_left > es.len() {
                            es.len() as int
                        } else {
                            prev_left as int
                        };
                        acc = prev_acc + es.subrange(0, limit);
                        assert(es.subrange(0, limit) =~= es.subrange(
                            0,
                            if 0 + prev_left > es.len() {
                                es.len() as int
                            } else {
                                0 + prev_left
                            },
                        ));
                        assert(bytes_view(out@) =~= bytes_view(old(out)@) + payloads_of(acc));
                        if left > 0 {
                            assert(goal == {
                                let rest = disk_collect_loop(
                                    m,
                                    self.tail_spec(),
                                    segment_idx + 1,
                                    left,
                                );
                                (acc + rest.0, rest.1, rest.2)
                            }) by {
                                assert(prev_acc + (es.subrange(0, limit) + disk_collect_loop(
                                    m,
                                    self.tail_spec(),
                                    segment_idx + 1,
                                    left,
                                ).0) =~= acc + disk_collect_loop(
                                    m,
                                    self.tail_spec(),
                                    segment_idx + 1,
                                    left,
                                ).0);
                            }
                        }
                    }
                },
            }
        }
        proof {
            assert(payloads_of(acc) =~= payloads_of(goal.0));
        }
        Ok((0, Some(segment_idx)))
    }
    /// Read `len` entries and their timestamps starting from the given
    /// offset in the chunk at the given id, continuing over later chunks
    /// and stepping over gaps.
    pub fn readv_with_timestamps(&self, index: u64, offset: u64, len: u64, out: &mut Vec<(Bytes, u64)>) -> (r: Result<
        (u64, Option<u64>),
        LogError,
    >)
        requires
            self.wf(),
        ensures
            match r {
                Ok(p) => {
                    &&& self.chunks_map().contains_key(index)
                    &&& offset <= self.chunks_map()[index].chunk_entries().len()
                    &&& ({
                        let c = disk_collect(
                            self.chunks_map(),
                            self.tail_spec(),
                            index,
                            offset,
                            len,
                        );
                        &&& p.0 == c.1
                        &&& p.1 == c.2
                        &&& entries_view(final(out)@) == entries_view(old(out)@) + c.0
                    })
                },
                Err(e) => {
                    &&& e == LogError::NotFound
                    &&& (!self.chunks_map().contains_key(index) || offset
                        > self.chunks_map()[index].chunk_entries().len())
                    &&& final(out)@ == old(out)@
                },
            },
    {
        let ghost m = self.chunks@;
        let ghost goal = disk_collect(self.chunks@, self.tail, index, offset, len);
        let chunk = match fnv_get(&self.chunks, index) {
            Some(c) => c,
            None => {
                return Err(LogError::NotFound);
            },
        };
        let mut left = match chunk.readv_with_timestamps(offset, len, out) {
            Ok(l) => l,
            Err(e) => {
                return Err(e);
            },
        };
        let ghost acc = chunk.chunk_entries().subrange(
            offset as int,
            if offset + len > chunk.chunk_entries().len() {
                chunk.chunk_entries().len() as int
            } else {
                offset + len
            },
        );
        let mut segment_idx = index;
        if left == 0 {
            let n = chunk.entries();
            if len >= n - offset {
                let next = self.next_chunk_after(segment_idx);
                proof {
                    assert(goal == (acc, 0u64, next_present(m, self.tail_spec(), index + 1)));
                }
                return Ok((0, next));
            } else {
                proof {
                    assert(goal == (acc, 0u64, Some(index)));
                }
                return Ok((0, Some(segment_idx)));
            }
        }
        proof {
            assert(goal == {
                let rest = disk_collect_loop(m, self.tail_spec(), index + 1, left);
                (acc + rest.0, rest.1, rest.2)
            });
        }
        while left > 0
            invariant
                self.wf(),
                m == self.chunks@,
                m.contains_key(index),
                offset <= m[index].chunk_entries().len(),
                goal == disk_collect(m, self.tail_spec(), index, offset, len),
                index <= segment_idx <= self.tail_spec(),
                entries_view(out@) == entries_view(old(out)@) + acc,
                left > 0 ==> goal == {
                    let rest = disk_collect_loop(m, self.tail_spec(), segment_idx + 1, left);
                    (acc + rest.0, rest.1, rest.2)
                },
                left == 0 ==> goal == (acc, 0u64, Some(segment_idx)),
            decreases self.tail_spec() - segment_idx,
        {
            let ghost prev_left = left;
            let ghost prev_acc = acc;
            let next = self.next_chunk_after(segment_idx);
            proof {
                lemma_next_present(m, self.tail_spec(), segment_idx + 1);
            }
            match next {
                None => {
                    proof {
                        let rest = disk_collect_loop(m, self.tail_spec(), segment_idx + 1, left);
                        assert(rest == (Seq::<EntryV>::empty(), left, None::<u64>));
                        assert(goal.0 == acc + rest.0);
                        assert(acc + Seq::<EntryV>::empty() =~= acc);
                        assert(goal.1 == left && goal.2 == None::<u64>);
                        assert(goal.0 =~= acc);
                    }
                    return Ok((left, None));
                },
                Some(j) => {
                    segment_idx = j;
                    let c = match fnv_get(&self.chunks, j) {
                        Some(c) => c,
                        None => {
                            proof {
                                assert(false);
                            }
                            return Err(LogError::NotFound);
                        },
                    };
                    left = match c.readv_with_timestamps(0, left, out) {
                        Ok(l) => l,
                        Err(_) => {
                            proof {
                                assert(false);
                            }
                            return Err(LogError::NotFound);
                        },
                    };
                    proof {
                        let es = c.chunk_entries();
                        let limit = if prev_left > es.len() {
                            es.len() as int
                        } else {
                            prev_left as int
                        };
                        acc = prev_acc + es.subrange(0, limit);
                        assert(es.subrange(0, limit) =~= es.subrange(
                            0,
                            if 0 + prev_left > es.len() {
                                es.len() as int
                            } else {
                                0 + prev_left
                            },
                        ));
                        assert(entries_view(out@) =~= entries_view(old(out)@) + acc);
                        if left > 0 {
                            assert(goal == {
                                let rest = disk_collect_loop(
                                    m,
                                    self.tail_spec(),
                                    segment_idx + 1,
                                    left,
                                );
                                (acc + rest.0, rest.1, rest.2)
                            }) by {
                                assert(prev_acc + (es.subrange(0, limit) + disk_collect_loop(
                                    m,
                                    self.tail_spec(),
                                    segment_idx + 1,
                                    left,
                                ).0) =~= acc + disk_collect_loop(
                                    m,
                                    self.tail_spec(),
                                    segment_idx + 1,
                                    left,
                                ).0);
                            }
                        }
                    }
                },
            }
        }
        proof {
            assert(goal.0 =~= acc);
        }
        Ok((0, Some(segment_idx)))
    }

    /// Store a sealed segment's entries as a new chunk under the given id,
    /// and queue its two file images for writing.
    #[verifier::rlimit(60)]
    pub fn insert(&mut self, index: u64, data: Vec<(Bytes, u64)>) -> (r: Result<(), LogError>)
        requires
            old(self).wf(),
            old(self).head_spec() <= index,
            ts_sorted(entries_view(data@)),
            crate::segment::entries_size(entries_view(data@)) <= u64::MAX,
        ensures
            match r {
                Ok(_) => {
                    &&& final(self).wf()
                    &&& final(self).chunks_map() =~= old(self).chunks_map().insert(
                        index,
                        final(self).chunks_map()[index],
                    )
                    &&& final(self).chunks_map()[index].chunk_entries() == entries_view(data@)
                    &&& final(self).chunks_map()[index].hash_matches()
                    &&& final(self).head_spec() == old(self).head_spec()
                    &&& final(self).tail_spec() == if index > old(self).tail_spec() {
                        index
                    } else {
                        old(self).tail_spec()
                    }
                    &&& final(self).invalid_spec() == old(self).invalid_spec()
                    &&& ({
                        let p = final(self).pending_spec();
                        &&& p.len() == old(self).pending_spec().len() + 1
                        &&& p =~= old(self).pending_spec().push(p.last())
                        &&& p.last().index_name@ == index_name_spec(index)
                        &&& p.last().data_name@ == data_name_spec(index)
                        &&& p.last().index_contents@ == index::index_file_bytes(
                            final(self).chunks_map()[index].hash_spec(),
                            final(self).chunks_map()[index].entries_spec(),
                        )
                        &&& payload_seq(p.last().data_contents)
                            == final(self).chunks_map()[index].data_spec()
                    })
                },
                Err(_) => false,
            },
    {
        let chunk = match chunk::Chunk::new(data) {
            Ok(c) => c,
            Err(e) => {
                proof {
                    assert(false);
                }
                return Err(e);
            },
        };
        let entries = chunk.entries();
        if entries > 0 {
            let st = chunk.start_time();
            let et = chunk.end_time();
            if !self.have_time {
                self.head_time = st;
                self.tail_time = et;
                self.have_time = true;
            } else {
                if st < self.head_time {
                    self.head_time = st;
                }
                if et > self.tail_time {
                    self.tail_time = et;
                }
            }
        }
        let pc = PendingChunk {
            index_name: names::index_file_name(index),
            index_contents: chunk.index_file_bytes(),
            data_name: names::data_file_name(index),
            data_contents: chunk.data_bytes(),
        };
        self.pending.push(pc);
        fnv_insert(&mut self.chunks, index, chunk);
        if index > self.tail {
            self.tail = index;
        }
        proof {
            assert(self.chunks@.dom() =~= old(self).chunks@.dom().insert(index));
            assert(self.chunks@ =~= old(self).chunks@.insert(index, self.chunks@[index]));
            assert(self.pending@ =~= old(self).pending@.push(self.pending@.last()));
            assert(self.pending@.last().index_name@ == index_name_spec(index));
            assert(self.pending@.last().data_name@ == data_name_spec(index));
            assert(self.pending@.last().index_contents@ == index::index_file_bytes(
                self.chunks@[index].hash_spec(),
                self.chunks@[index].entries_spec(),
            ));
            assert(payload_seq(self.pending@.last().data_contents)
                == self.chunks@[index].data_spec());
            assert(self.chunks@[index].chunk_entries() == entries_view(data@));
            assert forall|id: u64| self.chunks@.contains_key(id) implies (
            #[trigger] self.chunks@[id]).wf() && self.chunks@[id].hash_matches() && self.head
                <= id <= self.tail by {
                if id != index {
                    assert(old(self).chunks@.contains_key(id));
                    assert(old(self).chunks@[id].wf());
                    assert(old(self).head <= id <= old(self).tail);
                }
            }
            assert(self.wf());
        }
        Ok(())
    }
}

} // verus!
