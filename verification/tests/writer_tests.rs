use broker::codec::decode_all;
use broker::models::{Message, PartitionInfo, Topic};
use broker::writer::PartitionWriter;

fn info(batch_size: Option<u32>) -> PartitionInfo {
    PartitionInfo::new(
        Topic {
            name: "t".to_string(),
            num_partitions: Some(1),
            replication_factor: None,
            retention_period: None,
            batch_size,
        },
        0,
        "logs".to_string(),
    )
}

fn msg(payload: &str) -> Message {
    Message { payload: payload.as_bytes().to_vec(), key: None, timestamp: None }
}

#[test]
fn unset_batch_size_flushes_every_message() {
    let mut writer = PartitionWriter::new(info(None));
    let mut segment: Vec<u8> = Vec::new();
    for p in ["one", "two", "three"] {
        let bytes = writer.on_message(msg(p)).expect("threshold of 1 flushes each message");
        segment.extend_from_slice(&bytes);
    }
    assert!(writer.drain().is_none());
    let batches = decode_all(&segment).expect("a clean segment");
    assert_eq!(batches.len(), 3);
    assert_eq!(batches[0].records[0], msg("one"));
    assert_eq!(batches[1].records[0], msg("two"));
    assert_eq!(batches[2].records[0], msg("three"));
}

#[test]
fn batch_size_groups_messages_and_drain_flushes_the_rest() {
    let mut writer = PartitionWriter::new(info(Some(3)));
    let mut segment: Vec<u8> = Vec::new();
    for p in ["a", "b", "c", "d", "e"] {
        if let Some(bytes) = writer.on_message(msg(p)) {
            segment.extend_from_slice(&bytes);
        }
    }
    let tail = writer.drain().expect("two messages were pending");
    segment.extend_from_slice(&tail);
    let batches = decode_all(&segment).expect("a clean segment");
    assert_eq!(batches.len(), 2);
    assert_eq!(batches[0].records.len(), 3);
    assert_eq!(batches[1].records.len(), 2);
    assert_eq!(batches[0].records[0], msg("a"));
    assert_eq!(batches[0].records[2], msg("c"));
    assert_eq!(batches[1].records[0], msg("d"));
    assert_eq!(batches[1].records[1], msg("e"));
}

#[test]
fn drain_on_empty_writer_writes_nothing() {
    let mut writer = PartitionWriter::new(info(Some(2)));
    assert!(writer.drain().is_none());
}

#[test]
fn messages_before_cancellation_survive_the_drain() {
    let mut writer = PartitionWriter::new(info(Some(100)));
    let mut segment: Vec<u8> = Vec::new();
    let sent: Vec<Message> = (0..7).map(|i| msg(&format!("payload {}", i))).collect();
    for m in sent.iter() {
        if let Some(bytes) = writer.on_message(m.clone()) {
            segment.extend_from_slice(&bytes);
        }
    }
    // the cancellation signal fires before any threshold was reached
    let tail = writer.drain().expect("pending messages must be flushed");
    segment.extend_from_slice(&tail);
    let batches = decode_all(&segment).expect("a clean segment");
    let flat: Vec<Message> = batches.into_iter().flat_map(|b| b.records).collect();
    assert_eq!(flat, sent);
}

#[test]
fn can_accept_ordinary_messages() {
    let writer = PartitionWriter::new(info(Some(2)));
    assert!(writer.can_accept(&msg("fits easily")));
    let keyed = Message {
        payload: b"p".to_vec(),
        key: Some("k".to_string()),
        timestamp: Some(5),
    };
    assert!(writer.can_accept(&keyed));
}
