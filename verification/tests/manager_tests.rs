use broker::codec::decode_all;
use broker::manager::{TopicManagerCommands, TopicManagerReply, TopicsManager};
use broker::models::{Message, Topic};
use broker::writer::PartitionWriter;

fn topic(name: &str, num_partitions: u32, batch_size: Option<u32>) -> Topic {
    Topic {
        name: name.to_string(),
        num_partitions: Some(num_partitions),
        replication_factor: Some(1),
        retention_period: Some(1),
        batch_size,
    }
}

#[test]
fn create_topic_registers_all_partitions() {
    let mut manager = TopicsManager::new("log_dir_a".to_string());
    let t = topic("orders", 3, None);
    let (record, spawns) = manager.create_topic(t.clone());
    assert_eq!(record, t);
    assert_eq!(spawns.len(), 3);
    for (i, info) in spawns.iter().enumerate() {
        assert_eq!(info.partition_index, i as u32);
        assert_eq!(info.topic, t);
        assert_eq!(info.log_dir_path, "log_dir_a".to_string());
    }
}

#[test]
fn create_topic_is_idempotent() {
    let mut manager = TopicsManager::new("log_dir_b".to_string());
    let t = topic("events", 2, Some(4));
    let (first_record, first_spawns) = manager.create_topic(t.clone());
    let (second_record, second_spawns) = manager.create_topic(t.clone());
    assert_eq!(first_record, t);
    assert_eq!(second_record, first_record);
    assert_eq!(first_spawns.len(), 2);
    assert_eq!(second_spawns.len(), 0);
}

#[test]
fn get_topic_info_returns_catalogued_record() {
    let mut manager = TopicsManager::new("log_dir_c".to_string());
    assert!(manager.get_topic_info(&"missing".to_string()).is_none());
    let t = topic("metrics", 1, None);
    manager.create_topic(t.clone());
    let found = manager.get_topic_info(&"metrics".to_string()).expect("topic was created");
    assert_eq!(found, t);
}

#[test]
fn routing_query_for_unknown_topic_is_absent() {
    let manager = TopicsManager::new("log_dir_d".to_string());
    assert!(manager.get_partition_manager_tx(&"nowhere".to_string(), &None).is_none());
}

#[test]
fn routing_query_without_key_is_partition_zero() {
    let mut manager = TopicsManager::new("log_dir_e".to_string());
    manager.create_topic(topic("plain", 4, None));
    let idx = manager
        .get_partition_manager_tx(&"plain".to_string(), &None)
        .expect("topic exists");
    assert_eq!(idx, 0);
}

#[test]
fn routing_query_with_key_is_stable_and_in_range() {
    let mut manager = TopicsManager::new("log_dir_f".to_string());
    manager.create_topic(topic("keyed", 4, None));
    let name = "keyed".to_string();
    let key = Some("dummy_key".to_string());
    let first = manager.get_partition_manager_tx(&name, &key).expect("topic exists");
    assert!(first < 4);
    for _ in 0..5 {
        assert_eq!(manager.get_partition_manager_tx(&name, &key), Some(first));
    }
}

#[test]
fn handle_command_drives_all_three_operations() {
    let mut manager = TopicsManager::new("log_dir_g".to_string());
    let t = topic("cmds", 2, None);

    let (reply, spawns) =
        manager.handle_command(TopicManagerCommands::CreateTopic { topic: t.clone() });
    match reply {
        TopicManagerReply::TopicRecord(Some(record)) => assert_eq!(record, t),
        _ => panic!("expected the created topic record"),
    }
    assert_eq!(spawns.len(), 2);

    let (reply, spawns) = manager
        .handle_command(TopicManagerCommands::GetTopicInfo { topic_name: "cmds".to_string() });
    match reply {
        TopicManagerReply::TopicRecord(Some(record)) => assert_eq!(record, t),
        _ => panic!("expected a lookup hit"),
    }
    assert_eq!(spawns.len(), 0);

    let (reply, spawns) = manager.handle_command(TopicManagerCommands::GetPartitionManagerTx {
        topic_name: "cmds".to_string(),
        message_key: None,
    });
    match reply {
        TopicManagerReply::PartitionHandle(Some(idx)) => assert_eq!(idx, 0),
        _ => panic!("expected a routing hit"),
    }
    assert_eq!(spawns.len(), 0);
}

#[test]
fn test_topics_manager_should_return_partition_manager() {
    let log_dir_path = "log_dir_".to_string();
    let mut topics_manager = TopicsManager::new(log_dir_path.clone());

    let topic_name = "test_topic".to_string();

    let topic = Topic {
        name: topic_name.clone(),
        num_partitions: Some(1),
        replication_factor: Some(1),
        retention_period: Some(1),
        batch_size: Some(2),
    };

    let (reply, spawns) =
        topics_manager.handle_command(TopicManagerCommands::CreateTopic { topic: topic.clone() });
    let topic_received = match reply {
        TopicManagerReply::TopicRecord(Some(t)) => t,
        _ => panic!("expected the created topic record"),
    };
    assert_eq!(topic_received, topic);
    assert_eq!(topic.name, topic_name.clone());

    let (reply, _) = topics_manager.handle_command(TopicManagerCommands::GetPartitionManagerTx {
        topic_name: topic_name.clone(),
        message_key: None,
    });
    let partition_index = match reply {
        TopicManagerReply::PartitionHandle(Some(idx)) => idx,
        _ => panic!("expected the partition's handle"),
    };
    assert_eq!(partition_index, 0);

    let info = spawns.into_iter().next().expect("one partition was spawned");
    let mut writer = PartitionWriter::new(info);

    let message_1 = Message {
        payload: "Message 1 without timestamp".as_bytes().to_vec(),
        key: Some("dummy_key".to_string()),
        timestamp: None,
    };

    let message_2 = Message {
        payload: "Message 2 with timestamp".as_bytes().to_vec(),
        key: None,
        timestamp: Some(1234567890),
    };

    let message_3 = Message {
        payload: "Message 3 with timestamp".as_bytes().to_vec(),
        key: Some("dummy_key_2".to_string()),
        timestamp: Some(1334567899),
    };

    let mut segment_file: Vec<u8> = Vec::new();
    for m in [message_1.clone(), message_2.clone(), message_3.clone()] {
        assert!(writer.can_accept(&m));
        if let Some(bytes) = writer.on_message(m) {
            segment_file.extend_from_slice(&bytes);
        }
    }
    if let Some(bytes) = writer.drain() {
        segment_file.extend_from_slice(&bytes);
    }

    let decoded_batches = decode_all(&segment_file).expect("a clean segment");
    assert_eq!(decoded_batches.len(), 2);
    assert_eq!(decoded_batches[0].records[0], message_1);
    assert_eq!(decoded_batches[0].records[1], message_2);
    assert_eq!(decoded_batches[1].records[0], message_3);
}
