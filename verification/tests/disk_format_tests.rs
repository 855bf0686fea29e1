use bytes::{BufMut, Bytes, BytesMut};

use commitlog::disk::chunk::Chunk;
use commitlog::disk::index::{Index, IndexEntry};
use commitlog::disk::segment::Segment;

#[test]
fn new_and_read_index() {
    let index = Index::new(
        &[2; 32],
        vec![(100,  1), (100,  2), (100,  3), (100,  4), (100,  5), (100,  6), (100,  7), (100,  8), (100,  9), (100, 10),
             (200, 11), (200, 12), (200, 13), (200, 14), (200, 15), (200, 16), (200, 17), (200, 18), (200, 19), (200, 20),]
        ).unwrap();

    assert_eq!(index.entries(), 20);
    assert_eq!(index.read(9).unwrap(), (900, 100));
    assert_eq!(index.read(19).unwrap(), (2800, 200));
    assert_eq!(index.read_hash().as_slice(), &[2; 32]);

    let (v, _) = index.readv(0, 20).unwrap();
    for i in 0..10 {
        assert_eq!(v[i].timestamp as usize, i + 1); // timestamp
        assert_eq!(v[i].offset as usize, 100 * i); // offset
        assert_eq!(v[i].len, 100); // len
    }
    for i in 10..20 {
        assert_eq!(v[i].timestamp as usize, i + 1); // timestamp
        assert_eq!(v[i].offset as usize, 1000 + 200 * (i - 10)); // offset
        assert_eq!(v[i].len, 200); // len
    }
}

#[test]
fn open_and_read_index() {
    let index = Index::new(
        &[2; 32],
        vec![(100,  1), (100,  2), (100,  3), (100,  4), (100,  5), (100,  6), (100,  7), (100,  8), (100,  9), (100, 10),
             (200, 11), (200, 12), (200, 13), (200, 14), (200, 15), (200, 16), (200, 17), (200, 18), (200, 19), (200, 20),]
        ).unwrap();

    assert_eq!(index.entries(), 20);
    assert_eq!(index.read_hash().as_slice(), &[2; 32]);

    let file = index.file_bytes();
    drop(index);

    let (index, _, _) = Index::open(file.as_slice()).unwrap();
    assert_eq!(index.read(19).unwrap(), (2800, 200));
    assert_eq!(index.read_hash().as_slice(), &[2; 32]);

    let (v, _) = index.readv(0, 20).unwrap();
    for i in 0..10 {
        assert_eq!(v[i].timestamp as usize, i + 1); // timestamp
        assert_eq!(v[i].offset as usize, 100 * i); // offset
        assert_eq!(v[i].len, 100); // len
    }
    for i in 10..20 {
        assert_eq!(v[i].timestamp as usize, i + 1); // timestamp
        assert_eq!(v[i].offset as usize, 1000 + 200 * (i - 10)); // offset
        assert_eq!(v[i].len, 200); // len
    }
}

#[test]
fn test_index_from_timestamps() {
    let index = Index::new(
        &[2; 32],
        vec![(100,  10), (100,  20), (100,  30), (100,  40), (100,  50), (100,  60), (100,  70), (100,  80), (100,  90), (100, 100),
             (200, 110), (200, 120), (200, 130), (200, 140), (200, 150), (200, 160), (200, 170), (200, 180), (200, 190), (200, 200),]
        ).unwrap();

    for i in 0..20 {
        assert_eq!(index.index_from_timestamp(i * 10 + 5).unwrap(), i);
    }
}

#[test]
fn new_and_read_segment() {
    let mut buf = BytesMut::new();
    for i in 0..20u8 {
        buf.put(Bytes::from(vec![i; 1024]));
    }
    let segment = Segment::new(buf.freeze());
    assert_eq!(segment.size(), 20 * 1024);

    for i in 0..20u8 {
        let byte = segment.read(i as u64 * 1024, 1024).unwrap();
        assert_eq!(byte.len(), 1024);
        assert_eq!(byte[0], i);
        assert_eq!(byte[1023], i);
    }

    let mut offsets = Vec::with_capacity(20);
    for i in 0..20 {
        offsets.push(IndexEntry {
            timestamp: 0,
            offset: i * 1024,
            len: 1024,
        });
    }
    let mut out = Vec::with_capacity(20);
    segment.readv(&offsets, &mut out).unwrap();
    for (i, byte) in out.into_iter().enumerate() {
        assert_eq!(byte.len(), 1024);
        assert_eq!(byte[0], i as u8);
        assert_eq!(byte[1023], i as u8);
    }
}

#[test]
fn open_and_read_segment() {
    let mut buf = BytesMut::new();
    for i in 0..20u8 {
        buf.put(Bytes::from(vec![i; 1024]));
    }
    let segment = Segment::new(buf.freeze());
    assert_eq!(segment.size(), 20 * 1024);

    for i in 0..20u8 {
        let byte = segment.read(i as u64 * 1024, 1024).unwrap();
        assert_eq!(byte.len(), 1024);
        assert_eq!(byte[0], i);
        assert_eq!(byte[1023], i);
    }

    let contents = segment.bytes();
    drop(segment);

    let segment = Segment::open(contents);
    let mut offsets = Vec::with_capacity(20);
    for i in 0..20 {
        offsets.push(IndexEntry {
            timestamp: 0,
            offset: i * 1024,
            len: 1024,
        });
    }
    let mut out = Vec::with_capacity(20);
    segment.readv(&offsets, &mut out).unwrap();
    for (i, byte) in out.into_iter().enumerate() {
        assert_eq!(byte.len(), 1024);
        assert_eq!(byte[0], i as u8);
        assert_eq!(byte[1023], i as u8);
    }
}

#[test]
fn new_and_read_chunk() {
    let mut v = Vec::with_capacity(20);
    for i in 0..20u8 {
        v.push((Bytes::from(vec![i; 1024]), i as u64 * 100));
    }

    let chunk = Chunk::new(v).unwrap();
    assert!(chunk.verify().unwrap());

    for i in 0..20u8 {
        let byte = chunk.read(i as u64).unwrap();
        assert_eq!(byte.len(), 1024);
        assert_eq!(byte[0], i);
        assert_eq!(byte[1023], i);
    }
}

#[test]
fn open_and_read_chunk() {
    let mut v = Vec::with_capacity(20);
    for i in 0..20u8 {
        v.push((Bytes::from(vec![i; 1024]), i as u64 * 100));
    }

    let chunk = Chunk::new(v).unwrap();
    assert!(chunk.verify().unwrap());

    let index_file = chunk.index_file_bytes();
    let data_file = chunk.data_bytes();
    drop(chunk);

    let (chunk, _, _) = Chunk::open(index_file.as_slice(), data_file).unwrap();
    assert!(chunk.verify().unwrap());

    for i in 0..20u8 {
        let byte = chunk.read(i as u64).unwrap();
        assert_eq!(byte.len(), 1024);
        assert_eq!(byte[0], i);
        assert_eq!(byte[1023], i);
    }
}
