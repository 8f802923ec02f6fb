use bytes::BytesMut;
use kafka_protocol::records::{
    Compression, Record, RecordBatchEncoder, RecordEncodeOptions, TimestampType,
};
use minikafka::group::{group_topics, TopicWithPartitions};
use minikafka::meta::{decode, decode_record_value, Header, Partition, RecordType, Topic};
use minikafka::DecodeError;

fn topic_record_bytes(name: &[u8], uuid: u128) -> Vec<u8> {
    let mut v = vec![1u8, 2, 0];
    v.push((name.len() + 1) as u8);
    v.extend_from_slice(name);
    v.extend_from_slice(&uuid.to_be_bytes());
    v
}

fn partition_record_bytes(partition_id: u32, topic_uuid: u128, leader: i32) -> Vec<u8> {
    let mut v = vec![1u8, 3, 0];
    v.extend_from_slice(&partition_id.to_be_bytes());
    v.extend_from_slice(&topic_uuid.to_be_bytes());
    v.push(2); // replica array length byte
    v.extend_from_slice(&1i32.to_be_bytes());
    v.push(2); // isr array length byte
    v.extend_from_slice(&1i32.to_be_bytes());
    v.push(1); // removing replicas
    v.push(1); // adding replicas
    v.extend_from_slice(&leader.to_be_bytes());
    v.extend_from_slice(&0i32.to_be_bytes()); // leader epoch
    v.extend_from_slice(&0u32.to_be_bytes()); // partition epoch
    v.push(2); // directories array length byte
    v.extend_from_slice(&0u128.to_be_bytes());
    v.push(0); // tagged fields
    v
}

#[test]
fn topic_record_decodes() {
    let bytes = topic_record_bytes(b"foo", 42);
    match decode_record_value(&bytes) {
        Ok(RecordType::TopicValue(t)) => {
            assert_eq!(t.name, b"foo".to_vec());
            assert_eq!(t.uuid, 42);
            assert_eq!(t.header.record_type, 2);
        },
        other => panic!("unexpected: {:?}", other),
    }
}

#[test]
fn partition_record_decodes() {
    let bytes = partition_record_bytes(5, 42, 1);
    match decode_record_value(&bytes) {
        Ok(RecordType::PartitionValue(p)) => {
            assert_eq!(p.partition_id, 5);
            assert_eq!(p.topic_uuid, 42);
            assert_eq!(p.leader, 1);
            assert_eq!(p.replica, 1);
            assert_eq!(p.isr, 1);
        },
        other => panic!("unexpected: {:?}", other),
    }
}

#[test]
fn feature_record_decodes() {
    let mut bytes = vec![1u8, 12, 0];
    bytes.push(3); // name length + 1
    bytes.extend_from_slice(b"tv");
    bytes.extend_from_slice(&7u16.to_be_bytes());
    bytes.push(0);
    match decode_record_value(&bytes) {
        Ok(RecordType::FeatureValue(f)) => {
            assert_eq!(f.name, b"tv".to_vec());
            assert_eq!(f.feature_level, 7);
        },
        other => panic!("unexpected: {:?}", other),
    }
}

#[test]
fn unknown_record_type_is_ignored() {
    let bytes = vec![1u8, 99, 0];
    assert!(matches!(decode_record_value(&bytes), Ok(RecordType::Unknown)));
}

#[test]
fn truncated_record_is_fatal() {
    let bytes = topic_record_bytes(b"foo", 42);
    let cut = bytes[..bytes.len() - 4].to_vec();
    assert_eq!(decode_record_value(&cut), Err(DecodeError::Truncated));
    assert_eq!(decode_record_value(&vec![1u8]), Err(DecodeError::Truncated));
}

#[test]
fn record_with_zero_length_byte_is_invalid() {
    let bytes = vec![1u8, 2, 0, 0];
    assert_eq!(decode_record_value(&bytes), Err(DecodeError::InvalidLength));
}

fn batch_of(values: Vec<Vec<u8>>) -> Vec<u8> {
    let records: Vec<Record> = values
        .into_iter()
        .enumerate()
        .map(|(i, v)| Record {
            transactional: false,
            control: false,
            delete_horizon: false,
            partition_leader_epoch: 0,
            producer_id: -1,
            producer_epoch: -1,
            timestamp_type: TimestampType::Creation,
            offset: i as i64,
            sequence: i as i32,
            timestamp: 0,
            key: None,
            value: Some(v.into()),
            headers: Default::default(),
        })
        .collect();
    let mut buf = BytesMut::new();
    let options = RecordEncodeOptions { version: 2, compression: Compression::None };
    RecordBatchEncoder::encode(&mut buf, records.iter(), &options).unwrap();
    buf.to_vec()
}

#[test]
fn whole_log_decodes_through_batch_framing() {
    let data = batch_of(vec![topic_record_bytes(b"foo", 42), partition_record_bytes(0, 42, 1)]);
    let records = decode(&data).unwrap();
    assert_eq!(records.len(), 2);
    assert!(matches!(&records[0], RecordType::TopicValue(t) if t.name == b"foo".to_vec()));
    assert!(matches!(&records[1], RecordType::PartitionValue(p) if p.partition_id == 0));
}

#[test]
fn malformed_batch_is_rejected() {
    let garbage = vec![1u8, 2, 3, 4];
    assert_eq!(decode(&garbage).err(), Some(DecodeError::BadBatch));
}

#[test]
fn malformed_record_fails_whole_decode() {
    let data = batch_of(vec![topic_record_bytes(b"foo", 42), vec![1u8, 2, 0, 0]]);
    assert_eq!(decode(&data), Err(DecodeError::InvalidLength));
}

fn topic(name: &[u8], uuid: u128) -> RecordType {
    RecordType::TopicValue(Topic {
        header: Header { frame_version: 1, record_type: 2, version: 0 },
        name: name.to_vec(),
        uuid,
    })
}

fn partition(id: u32, topic_uuid: u128, leader: i32) -> RecordType {
    RecordType::PartitionValue(Partition {
        header: Header { frame_version: 1, record_type: 3, version: 0 },
        partition_id: id,
        topic_uuid,
        replica_array_len: 2,
        replica: 1,
        isr_array_len: 2,
        isr: 1,
        removing_replica_array_len: 1,
        adding_replica_array_len: 1,
        leader,
        leader_epoch: 0,
        partition_epoch: 0,
        directories_array_len: 2,
        directory: 0,
        tagged_fields_count: 0,
    })
}

#[test]
fn grouping_topic_with_partition() {
    // One topic record (name "foo", identifier 42) and one partition record
    // for it: exactly one group with that topic and that partition.
    let grouped: Vec<TopicWithPartitions> = group_topics(vec![topic(b"foo", 42), partition(0, 42, 1)]);
    assert_eq!(grouped.len(), 1);
    assert_eq!(grouped[0].topic.name, b"foo".to_vec());
    assert_eq!(grouped[0].topic.uuid, 42);
    assert_eq!(grouped[0].partitions.len(), 1);
    assert_eq!(grouped[0].partitions[0].partition_id, 0);
    assert_eq!(grouped[0].partitions[0].leader, 1);
}

#[test]
fn orphan_partition_is_excluded() {
    // A partition whose topic identifier matches no topic record vanishes
    // from the grouped result without an error.
    let grouped = group_topics(vec![topic(b"foo", 42), partition(0, 99, 1)]);
    assert_eq!(grouped.len(), 1);
    assert_eq!(grouped[0].topic.uuid, 42);
    assert_eq!(grouped[0].partitions.len(), 0);

    let grouped2 = group_topics(vec![partition(0, 99, 1)]);
    assert_eq!(grouped2.len(), 0);
}

#[test]
fn grouping_order_and_overwrite() {
    // Partition records may precede their topic record; first-seen order of
    // identifiers decides the output order; a later topic record overwrites
    // the slot for its identifier.
    let grouped = group_topics(vec![
        partition(3, 7, 1),
        topic(b"late", 7),
        topic(b"first", 1),
        topic(b"renamed", 1),
        partition(0, 1, 2),
    ]);
    assert_eq!(grouped.len(), 2);
    assert_eq!(grouped[0].topic.name, b"late".to_vec());
    assert_eq!(grouped[0].partitions.len(), 1);
    assert_eq!(grouped[0].partitions[0].partition_id, 3);
    assert_eq!(grouped[1].topic.name, b"renamed".to_vec());
    assert_eq!(grouped[1].partitions.len(), 1);
    assert_eq!(grouped[1].partitions[0].partition_id, 0);
}
