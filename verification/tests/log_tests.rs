use bytes::{Bytes, BytesMut};
use mqttbytes::v4::{read, ConnAck, ConnectReturnCode::Success, Packet, Publish, Subscribe};
use mqttbytes::QoS;

use commitlog::disk::{DiskHandler, ScannedFile};
use commitlog::CommitLog;

// Total size of all packets = 197 bytes
fn random_packets() -> Vec<Packet> {
    vec![
        Packet::Publish  (Publish::new  ("broker1", QoS::AtMostOnce , "ayoad1" )),
        Packet::Publish  (Publish::new  ("brker2" , QoS::AtMostOnce , "pyload2")),
        Packet::Subscribe(Subscribe::new("broker1", QoS::AtMostOnce            )),
        Packet::Publish  (Publish::new  ("brr3"   , QoS::AtMostOnce , "pyload3")),
        Packet::Publish  (Publish::new  ("bruuuu4", QoS::AtMostOnce , "pyload4")),
        Packet::ConnAck  (ConnAck::new  (Success  , true                       )),
        Packet::ConnAck  (ConnAck::new  (Success  , true                       )),
        Packet::Publish  (Publish::new  ("brrrr5" , QoS::AtMostOnce , "paylad5")),
        Packet::ConnAck  (ConnAck::new  (Success  , true                       )),
        Packet::Publish  (Publish::new  ("bro44r6", QoS::AtMostOnce , "aylad6" )),
        Packet::Subscribe(Subscribe::new("broker7", QoS::AtMostOnce            )),
        Packet::Publish  (Publish::new  ("broker7", QoS::AtMostOnce , "paylad7")),
        Packet::Publish  (Publish::new  ("b8"     , QoS::AtMostOnce , "payl8"  )),
        Packet::Subscribe(Subscribe::new("b8"     , QoS::AtMostOnce            )),
        Packet::Subscribe(Subscribe::new("bro44r6", QoS::AtMostOnce            )),
        Packet::ConnAck  (ConnAck::new  (Success  , true                       )),
    ]
}

fn random_packets_as_bytes() -> (Vec<Bytes>, usize) {
    let ranpacks = random_packets();
    let mut bytes = Vec::with_capacity(ranpacks.len());
    let mut total_len = 0;
    for packet in ranpacks.into_iter() {
        let mut byte = BytesMut::default();
        match packet {
            Packet::Publish(p) => {
                p.write(&mut byte).unwrap();
            }
            Packet::Subscribe(p) => {
                p.write(&mut byte).unwrap();
            }
            Packet::ConnAck(p) => {
                p.write(&mut byte).unwrap();
            }
            _ => panic!("unexpected packet type"),
        }
        total_len += byte.len();
        bytes.push(byte.freeze());
    }
    (bytes, total_len)
}

fn verify_bytes_as_random_packets(bytes: Vec<Bytes>, take: usize) {
    let ranpacks = random_packets();
    for (ranpack, byte) in ranpacks.into_iter().zip(bytes.into_iter()).take(take) {
        let readpack = read(&mut BytesMut::from(byte.as_ref()), byte.len()).unwrap();
        assert_eq!(readpack, ranpack);
    }
}

fn empty_handler() -> DiskHandler {
    DiskHandler::new(Vec::new()).unwrap().1
}

fn handler_files(handler: &mut DiskHandler) -> Vec<ScannedFile> {
    let mut files = Vec::new();
    for pc in handler.take_pending() {
        files.push(ScannedFile {
            name: pc.index_name,
            contents: Bytes::from(pc.index_contents),
        });
        files.push(ScannedFile {
            name: pc.data_name,
            contents: pc.data_contents,
        });
    }
    files
}

#[test]
fn active_segment() {
    let (ranpack_bytes, len) = random_packets_as_bytes();
    let mut log = CommitLog::new(len * 10, 10, None).unwrap();

    for _ in 0..5 {
        for byte in ranpack_bytes.clone() {
            log.append(byte).unwrap();
        }
    }

    assert_eq!(log.active_segment.len() as usize, ranpack_bytes.len() * 5);
    assert_eq!(log.active_segment.size() as usize, len * 5);

    for _ in 0..5 {
        for byte in ranpack_bytes.clone() {
            log.append(byte).unwrap();
        }
    }

    assert_eq!(log.active_segment.len() as usize, ranpack_bytes.len() * 10);
    assert_eq!(log.active_segment.size() as usize, len * 10);
}

#[test]
fn memory_segment() {
    let (ranpack_bytes, len) = random_packets_as_bytes();
    let mut log = CommitLog::new(len * 10, 10, None).unwrap();

    for _ in 0..7 {
        for byte in ranpack_bytes.clone() {
            log.append(byte).unwrap();
        }
    }

    assert_eq!(log.active_segment.len() as usize, ranpack_bytes.len() * 7);
    assert_eq!(log.active_segment.size() as usize, len * 7);

    for _ in 0..70 {
        for byte in ranpack_bytes.clone() {
            log.append(byte).unwrap();
        }
    }

    assert_eq!(log.active_segment.len() as usize, ranpack_bytes.len() * 7);
    assert_eq!(log.active_segment.size() as usize, len * 7);
    assert_eq!(log.segments[0].size() as usize, len * 10);
    assert_eq!(log.segments[0].len() as usize, ranpack_bytes.len() * 10);
    assert_eq!(log.segments.len(), 7);
}

#[test]
fn disk_segment() {
    let (ranpack_bytes, len) = random_packets_as_bytes();
    let mut log = CommitLog::new(len * 10, 5, Some(empty_handler())).unwrap();

    for _ in 0..5 {
        for byte in ranpack_bytes.clone() {
            log.append(byte).unwrap();
        }
    }

    assert_eq!(log.active_segment.len() as usize, ranpack_bytes.len() * 5);
    assert_eq!(log.active_segment.size() as usize, len * 5);

    for _ in 0..70 {
        for byte in ranpack_bytes.clone() {
            log.append(byte).unwrap();
        }
    }

    assert_eq!(log.active_segment.size() as usize, 5 * len);
    assert_eq!(log.active_segment.len() as usize, 5 * ranpack_bytes.len());
    assert_eq!(log.segments_size as usize, len * 10 * 5);
    assert_eq!(log.disk_handler.unwrap().len(), 2);
}

#[test]
fn read_from_everywhere() {
    let (ranpack_bytes, len) = random_packets_as_bytes();
    let mut log = CommitLog::new(len * 10, 5, Some(empty_handler())).unwrap();

    // 160 packets in active_segment, 800 packets in segment, 640 packets in disk
    for _ in 0..100 {
        for byte in ranpack_bytes.clone() {
            log.append(byte).unwrap();
        }
    }

    assert_eq!(log.active_segment.len() as usize, ranpack_bytes.len() * 10);
    assert_eq!(log.segments.len(), 5);
    assert_eq!(log.disk_handler.as_ref().unwrap().len(), 4);
    assert_eq!(log.head_and_tail(), (0, 9));

    let mut offset = 0;
    let mut index = 0;
    for _ in 0..100 {
        let v = log.readv(index, offset, 16).unwrap();
        index = v.1;
        offset = v.2;
        verify_bytes_as_random_packets(v.0, 16);
    }
}

#[test]
fn read_and_append_with_timestamps() {
    let (ranpack_bytes, len) = random_packets_as_bytes();
    let mut log = CommitLog::new(len * 10, 5, Some(empty_handler())).unwrap();

    // 160 packets in active_segment, 800 packets in segment, 640 packets in disk = total of
    // 1600 packes.
    // timestamps = segment_id * 1000 + offset * 10;
    for i in 0..100 {
        for (j, byte) in ranpack_bytes.clone().into_iter().enumerate() {
            log.append_with_timestamp(byte, i * 1000 + j as u64 * 10)
                .unwrap();
        }
    }

    assert_eq!(log.active_segment.len() as usize, ranpack_bytes.len() * 10);
    assert_eq!(log.segments.len(), 5);
    let disk_handler = log.disk_handler.as_ref().unwrap();
    assert_eq!(disk_handler.len(), 4);

    // the segment
    for i in 0..10 {
        for j in 0..10 {
            for k in 0..ranpack_bytes.len() as u64 - 1 {
                let idx = log
                    .index_from_timestamp(i * 10000 + j * 1000 + k * 10 + 5)
                    .unwrap();
                assert_eq!(idx.0, i);
                assert_eq!(idx.1, j * 16 + k + 1);
            }
        }
    }
}

#[test]
fn push_and_read_handler() {
    let mut handler = empty_handler();
    let (ranpack_bytes, _) = random_packets_as_bytes();

    // results in:
    // - ( 0, [len] *  1 packets)
    // - ( 1, [len] *  2 packets)
    //   ...
    // - (19, [len] * 20 packets)
    //
    // where [len] = ranpack_bytes.len()
    for i in 0..20 {
        let mut v = Vec::with_capacity((i + 1) * ranpack_bytes.len());
        for _ in 0..=i {
            v.extend(
                ranpack_bytes
                    .clone()
                    .into_iter()
                    .map(|x| (x, i as u64 * 100)),
            );
        }
        handler.insert(i as u64, v).unwrap();
    }

    for i in 0..20 {
        let mut v = Vec::new();
        handler
            .readv(i, 0, ranpack_bytes.len() as u64 * (i + 1), &mut v)
            .unwrap();
        for _ in 0..=i {
            let u = v.split_off(ranpack_bytes.len());
            verify_bytes_as_random_packets(v, ranpack_bytes.len());
            v = u;
        }
    }

    for i in 0..20 {
        let mut v = Vec::new();
        handler
            .readv_with_timestamps(i, 0, ranpack_bytes.len() as u64 * (i + 1), &mut v)
            .unwrap();
        for elem in v {
            assert_eq!(elem.1, i * 100);
        }
    }
}

#[test]
fn push_and_read_handler_after_drop() {
    let mut handler = empty_handler();
    let (ranpack_bytes, _) = random_packets_as_bytes();

    // results in:
    // - ( 0, [len] *  1 packets)
    // - ( 1, [len] *  2 packets)
    //   ...
    // - (19, [len] * 20 packets)
    //
    // where [len] = ranpack_bytes.len()
    for i in 0..20 {
        let mut v = Vec::with_capacity((i + 1) * ranpack_bytes.len());
        for _ in 0..=i {
            v.extend(
                ranpack_bytes
                    .clone()
                    .into_iter()
                    .map(|x| (x, i as u64 * 100)),
            );
        }
        handler.insert(i as u64, v).unwrap();
    }

    let files = handler_files(&mut handler);
    drop(handler);

    let (_, handler) = DiskHandler::new(files).unwrap();
    for i in 0..20 {
        let mut v = Vec::new();
        handler
            .readv(i, 0, ranpack_bytes.len() as u64 * (i + 1), &mut v)
            .unwrap();
        for _ in 0..=i {
            let u = v.split_off(ranpack_bytes.len());
            verify_bytes_as_random_packets(v, ranpack_bytes.len());
            v = u;
        }
    }

    for i in 0..20 {
        let mut v = Vec::new();
        handler
            .readv_with_timestamps(i, 0, ranpack_bytes.len() as u64 * (i + 1), &mut v)
            .unwrap();
        for elem in v {
            assert_eq!(elem.1, i * 100);
        }
    }
}

#[test]
fn read_handler_from_returned_index() {
    let mut handler = empty_handler();
    let (ranpack_bytes, _) = random_packets_as_bytes();

    // results in:
    // - ( 0, [len] *  1 packets)
    // - ( 1, [len] *  2 packets)
    //   ...
    // - (14, [len] * 15 packets)
    //
    // where [len] = ranpack_bytes.len()
    for i in 0..15 {
        let mut v = Vec::with_capacity((i + 1) * ranpack_bytes.len());
        for _ in 0..=i {
            v.extend(
                ranpack_bytes
                    .clone()
                    .into_iter()
                    .map(|x| (x, i as u64 * 100)),
            );
        }
        handler.insert(i as u64, v).unwrap();
    }

    let mut v = Vec::new();
    let (mut left, mut ret) = handler.readv(0, 0, 10, &mut v).unwrap();
    verify_bytes_as_random_packets(v, 10);
    let mut offset = 0;
    let mut v: Vec<Bytes> = Vec::new();

    while let Some(seg) = ret {
        v.clear();
        offset = if left > 0 { 0 } else { offset + 10 };
        let (new_left, new_ret) = handler.readv(seg, offset, 10, &mut v).unwrap();
        left = new_left;
        ret = new_ret;
    }

    assert_eq!(left, 0);
}

#[test]
fn read_using_timestamps() {
    let mut handler = empty_handler();
    let (ranpack_bytes, _) = random_packets_as_bytes();

    // results in:
    // - ( 0, [len] *  1 packets,    0 timestamp)
    // - ( 1, [len] *  2 packets,  100 timestamp)
    //   ...
    // - (14, [len] * 15 packets, 1400 timestamp)
    //
    // where [len] = ranpack_bytes.len()
    for i in 0..15 {
        let mut v = Vec::with_capacity((i + 1) * ranpack_bytes.len());
        for _ in 0..=i {
            v.extend(
                ranpack_bytes
                    .clone()
                    .into_iter()
                    .map(|x| (x, i as u64 * 100)),
            );
        }
        handler.insert(i as u64, v).unwrap();
    }

    for i in 0..15 {
        assert_eq!(handler.index_from_timestamp(i * 100).unwrap().0, i)
    }
}
