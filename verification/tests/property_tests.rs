use bytes::Bytes;

use commitlog::disk::chunk::Chunk;
use commitlog::disk::index::Index;
use commitlog::disk::{DiskHandler, InvalidType, ScannedFile};
use commitlog::{CommitLog, LogError};

#[test]
fn segment_size_floor_is_enforced() {
    // 1024 is accepted, 1023 is rejected.
    assert!(CommitLog::new(1024, 4, None).is_ok());
    match CommitLog::new(1023, 4, None) {
        Err(LogError::InvalidInput) => {}
        _ => panic!("a segment size below 1024 must be rejected"),
    }
}

#[test]
fn read_at_the_end_of_the_active_segment() {
    let mut log = CommitLog::new(1024, 4, None).unwrap();
    for i in 0..10u8 {
        log.append(Bytes::from(vec![i; 100])).unwrap();
    }
    // One past the last entry is not found; the last entry is.
    assert_eq!(log.read(0, 10).unwrap_err(), LogError::NotFound);
    let last = log.read(0, 9).unwrap();
    assert_eq!(last[0], 9);
    // An id beyond the tail is not found.
    assert_eq!(log.read(1, 0).unwrap_err(), LogError::NotFound);
}

#[test]
fn empty_range_read_returns_the_cursor_unchanged() {
    let mut log = CommitLog::new(1024, 4, None).unwrap();
    for i in 0..10u8 {
        log.append(Bytes::from(vec![i; 100])).unwrap();
    }
    let (data, remaining, id, offset) = log.readv(0, 3, 0).unwrap();
    assert!(data.is_empty());
    assert_eq!(remaining, 0);
    assert_eq!(id, 0);
    assert_eq!(offset, 3);
}

#[test]
fn over_long_range_read_reports_the_shortfall() {
    let mut log = CommitLog::new(1024, 4, None).unwrap();
    for i in 0..10u8 {
        log.append(Bytes::from(vec![i; 100])).unwrap();
    }
    let (data, remaining, id, offset) = log.readv(0, 0, 25).unwrap();
    assert_eq!(data.len(), 10);
    assert_eq!(remaining, 15);
    assert_eq!(id, 0);
    assert_eq!(offset, 0);
}

#[test]
fn append_then_read_returns_the_payload() {
    let mut log = CommitLog::new(1024, 4, None).unwrap();
    for round in 0..50u64 {
        let payload = Bytes::from(vec![round as u8; 64]);
        let (id, count) = log.append(payload.clone()).unwrap();
        let back = log.read(id, count - 1).unwrap();
        assert_eq!(back, payload);
    }
}

#[test]
fn total_stored_bytes_match_across_tiers() {
    let mut log = CommitLog::new(4096, 10, None).unwrap();
    for i in 0..100u8 {
        log.append(Bytes::from(vec![i; 100])).unwrap();
    }
    let total = log.active_segment.size() + log.segments_size;
    assert_eq!(total, 100 * 100);
}

#[test]
fn disk_len_without_disk_is_an_error() {
    let log = CommitLog::new(1024, 4, None).unwrap();
    assert_eq!(log.disk_len().unwrap_err(), LogError::Other);
}

#[test]
fn truncated_index_file_is_corruption() {
    // Shorter than the 32-byte hash.
    match Index::open(&[0u8; 16]) {
        Err(LogError::Corruption) => {}
        _ => panic!("a file shorter than the hash must be rejected"),
    }
    // Region after the hash is not a whole number of records.
    match Index::open(&[0u8; 32 + 25]) {
        Err(LogError::Corruption) => {}
        _ => panic!("a torn record region must be rejected"),
    }
    // A bare hash with no records decodes.
    assert!(Index::open(&[0u8; 32]).is_ok());
}

#[test]
fn tampered_data_file_fails_verification() {
    let mut v = Vec::new();
    for i in 0..4u8 {
        v.push((Bytes::from(vec![i; 256]), i as u64));
    }
    let chunk = Chunk::new(v).unwrap();
    let index_file = chunk.index_file_bytes();
    let good = chunk.data_bytes();
    assert!(chunk.verify().unwrap());

    // Same length, different bytes: decodes, but the checksum must fail.
    let mut tampered: Vec<u8> = good.as_ref().to_vec();
    tampered[100] ^= 0xff;
    let (bad_chunk, _, _) = Chunk::open(index_file.as_slice(), Bytes::from(tampered)).unwrap();
    assert!(!bad_chunk.verify().unwrap());

    // A data file of the wrong length does not even decode.
    let short = good.slice(0..good.len() - 1);
    match Chunk::open(index_file.as_slice(), short) {
        Err(LogError::Corruption) => {}
        _ => panic!("a data file shorter than the index records must be rejected"),
    }
}

#[test]
fn chunk_files_are_named_by_padded_id() {
    let mut handler = DiskHandler::new(Vec::new()).unwrap().1;
    let entries = vec![(Bytes::from(vec![7u8; 100]), 5u64)];
    handler.insert(5, entries).unwrap();
    let pending = handler.take_pending();
    assert_eq!(pending.len(), 1);
    assert_eq!(
        pending[0].index_name,
        b"00000000000000000005.index".to_vec()
    );
    assert_eq!(pending[0].data_name, b"00000000000000000005.data".to_vec());
    assert_eq!(&pending[0].index_contents[32..40], &[0, 0, 0, 0, 0, 0, 0, 5]);
    // Taking again yields nothing new.
    assert!(handler.take_pending().is_empty());
}

#[test]
fn scan_reports_orphans_and_bad_names() {
    let mut source = DiskHandler::new(Vec::new()).unwrap().1;
    source
        .insert(0, vec![(Bytes::from(vec![1u8; 64]), 10u64)])
        .unwrap();
    let pending = source.take_pending();

    let mut files = Vec::new();
    // A valid pair for id 0.
    files.push(ScannedFile {
        name: pending[0].index_name.clone(),
        contents: Bytes::from(pending[0].index_contents.clone()),
    });
    files.push(ScannedFile {
        name: pending[0].data_name.clone(),
        contents: pending[0].data_contents.clone(),
    });
    // An orphan data file for id 1 and an orphan index file for id 2.
    files.push(ScannedFile {
        name: b"00000000000000000001.data".to_vec(),
        contents: Bytes::from(vec![0u8; 8]),
    });
    files.push(ScannedFile {
        name: b"00000000000000000002.index".to_vec(),
        contents: Bytes::from(vec![0u8; 32]),
    });
    // A name that is not part of any chunk.
    files.push(ScannedFile {
        name: b"foo.bar".to_vec(),
        contents: Bytes::from(vec![1u8, 2, 3]),
    });

    let (mem_head, handler) = DiskHandler::new(files).unwrap();
    assert_eq!(mem_head, 1);
    assert_eq!(handler.len(), 1);

    let invalid = handler.invalid_files();
    assert_eq!(invalid.len(), 3);
    assert!(invalid.contains(&InvalidType::NoIndex(1)));
    assert!(invalid.contains(&InvalidType::NoSegment(2)));
    assert!(invalid.contains(&InvalidType::InvalidName(b"foo.bar".to_vec())));
}

#[test]
fn reopened_log_reads_the_first_disk_entry() {
    let mut log = CommitLog::new(
        1024,
        2,
        Some(DiskHandler::new(Vec::new()).unwrap().1),
    )
    .unwrap();
    // Push enough to evict several segments to the disk tier.
    for i in 0..100u8 {
        log.append_with_timestamp(Bytes::from(vec![i; 128]), i as u64).unwrap();
    }
    let disk_chunks = log.disk_len().unwrap();
    assert!(disk_chunks > 0);

    // Rebuild a fresh log from the written file images.
    let mut files = Vec::new();
    for pc in log.take_pending() {
        files.push(ScannedFile {
            name: pc.index_name,
            contents: Bytes::from(pc.index_contents),
        });
        files.push(ScannedFile {
            name: pc.data_name,
            contents: pc.data_contents,
        });
    }
    let (mem_head, handler) = DiskHandler::new(files).unwrap();
    assert_eq!(handler.len(), disk_chunks);
    let reopened = CommitLog::new(1024, 2, Some(handler)).unwrap();
    let (head, tail) = reopened.head_and_tail();
    assert_eq!(head, 0);
    assert_eq!(tail, mem_head);

    // The very first appended payload is still readable from the disk tier.
    let first = reopened.read(0, 0).unwrap();
    assert_eq!(first, Bytes::from(vec![0u8; 128]));
    let (payload, ts) = reopened.read_with_timestamps(0, 1).unwrap();
    assert_eq!(payload, Bytes::from(vec![1u8; 128]));
    assert_eq!(ts, 1);
}

#[test]
fn timestamp_lookup_is_exact_on_distinct_timestamps() {
    let mut log = CommitLog::new(1024, 8, None).unwrap();
    for i in 0..20u64 {
        log.append_with_timestamp(Bytes::from(vec![i as u8; 40]), 100 + 10 * i).unwrap();
    }
    // An exact hit lands on the entry itself.
    for i in 0..20u64 {
        let (id, idx) = log.index_from_timestamp(100 + 10 * i).unwrap();
        assert_eq!((id, idx), (0, i));
    }
    // A timestamp between entries lands on the next entry.
    let (id, idx) = log.index_from_timestamp(105).unwrap();
    assert_eq!((id, idx), (0, 1));
    // A timestamp beyond every entry is not found.
    assert_eq!(log.index_from_timestamp(1000).unwrap_err(), LogError::NotFound);
    // Reading by timestamp returns the entry's payload and timestamp.
    let (payload, ts) = log.read_from_timestamp(145).unwrap();
    assert_eq!(ts, 150);
    assert_eq!(payload[0], 5);
}

#[test]
fn cross_tier_range_read_collects_in_order() {
    let mut log = CommitLog::new(
        1024,
        2,
        Some(DiskHandler::new(Vec::new()).unwrap().1),
    )
    .unwrap();
    // 128-byte payloads, 8 per segment: ids 0.. go to disk once evicted.
    for i in 0..64u8 {
        log.append(Bytes::from(vec![i; 128])).unwrap();
    }
    // Collect everything from the very beginning in one large read.
    let (data, remaining, _, _) = log.readv(0, 0, 64).unwrap();
    assert_eq!(data.len(), 64);
    assert_eq!(remaining, 0);
    for (i, b) in data.iter().enumerate() {
        assert_eq!(b[0], i as u8);
    }
}

#[test]
fn window_invariants_hold_on_a_concrete_run() {
    let mut log = CommitLog::new(1024, 3, None).unwrap();
    for i in 0..40u8 {
        log.append_with_timestamp(Bytes::from(vec![i; 200]), 10 * i as u64).unwrap();
    }
    let (head, tail) = log.head_and_tail();
    // The id window never inverts, and the frozen queue fills it exactly.
    assert!(head <= tail);
    assert_eq!(log.segments.len() as u64, tail - head);
    // The frozen queue respects its cap.
    assert!(log.segments.len() <= 3);
    // The tracked byte total matches the queue.
    let sum: u64 = (0..log.segments.len()).map(|i| log.segments[i].size()).sum();
    assert_eq!(sum, log.segments_size);
    // Timestamps within each stored segment are non-decreasing.
    for seg in 0..log.segments.len() {
        let n = log.segments[seg].len();
        let mut prev = 0;
        for off in 0..n {
            let (_, ts) = log.read_with_timestamps(head + seg as u64, off).unwrap();
            assert!(ts >= prev);
            prev = ts;
        }
    }
}

#[test]
fn chunk_counts_and_sizes_agree() {
    let mut v = Vec::new();
    let mut total = 0u64;
    for i in 0..6u8 {
        let len = 50 + i as u64;
        total += len;
        v.push((Bytes::from(vec![i; len as usize]), i as u64));
    }
    let chunk = Chunk::new(v).unwrap();
    assert_eq!(chunk.entries(), 6);
    assert_eq!(chunk.segment_size(), total);
}

#[test]
fn range_read_with_timestamps_carries_the_stamps() {
    let mut log = CommitLog::new(1024, 10, None).unwrap();
    for i in 0..30u8 {
        log.append_with_timestamp(Bytes::from(vec![i; 150]), 1000 + i as u64).unwrap();
    }
    let (data, remaining, _, _) = log.readv_with_timestamps(0, 0, 30).unwrap();
    assert_eq!(data.len(), 30);
    assert_eq!(remaining, 0);
    for (i, (payload, ts)) in data.iter().enumerate() {
        assert_eq!(payload[0], i as u8);
        assert_eq!(*ts, 1000 + i as u64);
    }
}

#[test]
fn next_offset_follows_the_byte_size_trigger() {
    let mut log = CommitLog::new(1024, 4, None).unwrap();
    // Two 512-byte payloads fill the segment by bytes while holding only
    // two entries, far fewer than the byte limit.
    log.append(Bytes::from(vec![1u8; 512])).unwrap();
    assert_eq!(log.next_offset(), (0, 1));
    log.append(Bytes::from(vec![2u8; 512])).unwrap();
    // The active segment is byte-full: the next append opens segment 1.
    assert_eq!(log.next_offset(), (1, 0));
    let (id, count) = log.append(Bytes::from(vec![3u8; 16])).unwrap();
    assert_eq!((id, count), (1, 1));
}

#[test]
fn zero_cap_evicts_each_sealed_segment_at_once() {
    let mut log = CommitLog::new(
        1024,
        0,
        Some(DiskHandler::new(Vec::new()).unwrap().1),
    )
    .unwrap();
    for i in 0..4u8 {
        log.append_with_timestamp(Bytes::from(vec![i; 1024]), i as u64).unwrap();
    }
    // Every sealed segment went straight to the disk tier.
    assert_eq!(log.segments.len(), 0);
    assert_eq!(log.segments_size, 0);
    assert_eq!(log.disk_len().unwrap(), 3);
    let (head, tail) = log.head_and_tail();
    assert_eq!((head, tail), (0, 3));
    // The evicted entries stay readable from the disk.
    for i in 0..3u8 {
        let back = log.read(i as u64, 0).unwrap();
        assert_eq!(back[0], i);
    }
}

#[test]
fn short_stems_are_invalid_names() {
    let files = vec![
        ScannedFile {
            name: b"7.index".to_vec(),
            contents: Bytes::from(vec![0u8; 32]),
        },
        ScannedFile {
            name: b"7.data".to_vec(),
            contents: Bytes::from(Vec::new()),
        },
    ];
    let (mem_head, handler) = DiskHandler::new(files).unwrap();
    assert_eq!(mem_head, 0);
    assert_eq!(handler.len(), 0);
    let invalid = handler.invalid_files();
    assert_eq!(invalid.len(), 2);
    assert!(invalid.contains(&InvalidType::InvalidName(b"7.index".to_vec())));
    assert!(invalid.contains(&InvalidType::InvalidName(b"7.data".to_vec())));
}
