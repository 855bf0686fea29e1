use commitlog::memory::MemoryLog;

#[test]
fn append_creates_and_deletes_segments_correctly() {
    let mut log = MemoryLog::new(10 * 1024, 10);

    // 200 1K iterations. 10 1K records per file. 20 files ignoring deletes.
    // segments: 0.segment (0 - 9), 1.segment (10 -19) .... 19.segment (190 - 200)
    // considering deletes: 10.segment, 11.segment .. 19.segment
    for i in 0..200 {
        let payload = vec![i; 1024];
        log.append(payload.len(), payload);
    }

    // Semi fill 200.segment. Deletes 100.segment
    // considering deletes: 110.segment .. 190.segment
    for i in 200..205 {
        let payload = vec![i; 1024];
        log.append(payload.len(), payload);
    }

    let data = log.read((9, 0));
    assert!(data.is_none());

    // considering: 10.segment (100-109) .. 19.segment (190-199)
    // read segment with base offset 11
    let segment_id = 11;
    let base_offset = 110;
    for i in 0..10 {
        let data = log.read((segment_id, base_offset + i)).unwrap();
        let d = base_offset as u8 + i as u8;
        assert_eq!(data[0], d);
    }

    // read segment with base offset 190 (1 last segment before
    // semi filled segment)
    let segment_id = 19;
    let base_offset = 190;
    for i in 0..10 {
        let data = log.read((segment_id, base_offset + i)).unwrap();
        let d = base_offset as u8 + i as u8;
        assert_eq!(data[0], d);
    }

    // read 200.segment which is semi filled with 5 records
    let segment_id = 20;
    let base_offset = 200;
    for i in 0..5 {
        let data = log.read((segment_id, base_offset + i)).unwrap();
        let d = base_offset as u8 + i as u8;
        assert_eq!(data[0], d);
    }

    let data = log.read((20, base_offset + 5));
    assert!(data.is_none());
}

#[test]
fn vectored_read_works_as_expected() {
    let mut log = MemoryLog::new(10 * 1024, 10);

    // 90 1K iterations. 10 files
    // 0.segment (data with 0 - 9), 1.segment (10 - 19) .... 8.segment (80 - 89)
    // 10K per segment = 10 records per segment
    for i in 0..90 {
        let payload = vec![i; 1024];
        log.append(payload.len(), payload);
    }

    let mut data = Vec::new();
    // Read a segment from start. This returns full segment
    let next = log.readv((0, 0), &mut data);
    assert_eq!(data.len(), 10);
    assert_eq!(next, Some((1, 10)));
    assert_eq!(data[0][0], 0);
    assert_eq!(data[data.len() - 1][0], 9);

    // Read 5.segment
    let data = log.read((5, 50)).unwrap();
    assert_eq!(data[0], 50);

    // Read a segment from the middle. This returns all the remaining elements
    let mut data = Vec::new();
    let next = log.readv((1, 15), &mut data);
    assert_eq!(data.len(), 5);
    assert_eq!(next, Some((2, 20)));
    assert_eq!(data[0][0], 15);
    assert_eq!(data[data.len() - 1][0], 19);

    // Read a segment from scratch. gets full segment
    let mut data = Vec::new();
    let next = log.readv((1, 10), &mut data);
    assert_eq!(data.len(), 10);
    assert_eq!(next, Some((2, 20)));
}

#[test]
fn vectored_reads_from_active_segment_works_as_expected() {
    let mut log = MemoryLog::new(10 * 1024, 10);

    // 200 1K iterations. 10 1K records per file. 20 files ignoring deletes.
    // segments: 0.segment, 1.segment .... 19.segment
    // considering deletes: 10.segment .. 19.segment
    for i in 0..200 {
        let payload = vec![i; 1024];
        log.append(payload.len(), payload);
    }

    // Read active segment. Next shouldn't jump to next segment
    let mut data = Vec::new();
    let next = log.readv((19, 190), &mut data);
    assert_eq!(data.len(), 10);
    assert_eq!(next, Some((19, 200)));
}

#[test]
fn vectored_reads_from_active_segment_resumes_after_empty_reads_correctly() {
    let mut log = MemoryLog::new(10 * 1024, 10);

    // 85 1K iterations. 10 files
    // 0.segment (data with 0 - 9), 1.segment (10 - 19) .... 8.segment (80 - 84)
    // 10 records per segment (1K each)
    // 8.segment is semi filled
    for i in 0..85 {
        let payload = vec![i; 1024];
        log.append(payload.len(), payload);
    }

    // read active segment
    let mut data = Vec::new();
    let next = log.readv((8, 80), &mut data);
    assert_eq!(data.len(), 5);
    assert_eq!(next, Some((8, 85)));

    // fill active segment more
    for i in 85..90 {
        let payload = vec![i; 1024];
        log.append(payload.len(), payload);
    }

    // read active segment
    let mut data = Vec::new();
    let next = log.readv(next.unwrap(), &mut data);
    assert_eq!(data.len(), 5);
    assert_eq!(next, Some((8, 90)));

    let mut data = Vec::new();
    let next = log.readv(next.unwrap(), &mut data);
    assert_eq!(data.len(), 0);
    assert!(next.is_none());
}

#[test]
fn last_active_segment_read_jumps_to_next_segment_read_correctly() {
    let mut log = MemoryLog::new(10 * 1024, 10);

    // 90 1K iterations. 9 files ignoring deletes.
    // 0.segment (data with 0 - 9), 1.segment .... 8.segment (80 - 89)
    // 10K per segment = 10 records per segment
    for i in 0..90 {
        let payload = vec![i; 1024];
        log.append(payload.len(), payload);
    }

    // read active segment. there's no next segment. so active segment
    // is not done yet
    let mut data = Vec::new();
    let next = log.readv((8, 80), &mut data);
    assert_eq!(data.len(), 10);
    assert_eq!(next, Some((8, 90)));

    // append more which also changes active segment to 100.segment
    for i in 90..110 {
        let payload = vec![i; 1024];
        log.append(payload.len(), payload);
    }

    // read from the next offset of previous active segment
    let mut data = Vec::new();
    let next = log.readv(next.unwrap(), &mut data);
    assert_eq!(data.len(), 10);
    assert_eq!(next, Some((10, 100)));

    // read active segment again
    let mut data = Vec::new();
    let next = log.readv(next.unwrap(), &mut data);
    assert_eq!(data.len(), 10);
    assert_eq!(next, Some((10, 110)));

    // read again when there is no more data
    let mut data = Vec::new();
    let next = log.readv(next.unwrap(), &mut data);
    assert_eq!(data.len(), 0);
    assert!(next.is_none());
}

#[test]
fn vectored_read_works_as_expected_2() {
    let mut log = MemoryLog::new(10 * 1024, 100);

    // 15 1K iterations. 1.5 files
    // 0.segment (data with 0 - 9), 1.segment (10 - 15)
    for i in 0..15 {
        let payload = vec![i; 1024];
        log.append(payload.len(), payload);
    }

    let mut data = Vec::new();

    // Read a segment from start. This returns full segment
    let next = log.readv((0, 0), &mut data).unwrap();
    assert_eq!(next, (1, 10));

    let next = log.readv(next, &mut data).unwrap();
    assert_eq!(next, (1, 15));

    // Write again
    for i in 15..50 {
        let payload = vec![i; 1024];
        log.append(payload.len(), payload);
    }

    let next = log.readv(next, &mut data).unwrap();
    assert_eq!(next, (2, 20));

    let next = log.readv(next, &mut data).unwrap();
    assert_eq!(next, (3, 30));

    let next = log.readv(next, &mut data).unwrap();
    assert_eq!(next, (4, 40));

    let next = log.readv(next, &mut data).unwrap();
    assert_eq!(next, (4, 50));

    let next = log.readv(next, &mut data);
    assert!(next.is_none());
}
