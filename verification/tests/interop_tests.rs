//! Cross-checks: responses built by the verified encoders must parse with
//! the protocol library's own response decoders.

use bytes::Bytes;
use kafka_protocol::messages::{
    ApiVersionsResponse, DescribeTopicPartitionsResponse, FetchResponse, ProduceResponse,
    ResponseHeader,
};
use kafka_protocol::protocol::Decodable;
use minikafka::group::TopicWithPartitions;
use minikafka::handlers::{
    process_api_version, process_describe_topic_partitions, process_fetch, process_produce,
    ProducePartitionData, ProduceTopicData,
};
use minikafka::meta::{Header, Partition, Topic};

fn metadata_foo() -> Vec<TopicWithPartitions> {
    vec![TopicWithPartitions {
        topic: Topic {
            header: Header { frame_version: 1, record_type: 2, version: 0 },
            name: b"foo".to_vec(),
            uuid: 0x42,
        },
        partitions: vec![Partition {
            header: Header { frame_version: 1, record_type: 3, version: 0 },
            partition_id: 0,
            topic_uuid: 0x42,
            replica_array_len: 2,
            replica: 1,
            isr_array_len: 2,
            isr: 1,
            removing_replica_array_len: 1,
            adding_replica_array_len: 1,
            leader: 1,
            leader_epoch: 0,
            partition_epoch: 0,
            directories_array_len: 2,
            directory: 0,
            tagged_fields_count: 0,
        }],
    }]
}

#[test]
fn api_versions_parses_with_protocol_library() {
    for v in 0..=4i16 {
        let r = process_api_version(7, v);
        let mut buf = Bytes::from(r);
        let header = ResponseHeader::decode(&mut buf, 0).unwrap();
        assert_eq!(header.correlation_id, 7);
        let resp = ApiVersionsResponse::decode(&mut buf, v).unwrap();
        assert_eq!(resp.error_code, 0);
        assert_eq!(resp.api_keys.len(), 4);
        let triples: Vec<(i16, i16, i16)> = resp
            .api_keys
            .iter()
            .map(|k| (k.api_key, k.min_version, k.max_version))
            .collect();
        assert_eq!(triples, vec![(18, 0, 4), (75, 0, 0), (1, 0, 16), (0, 0, 11)]);
        assert!(buf.is_empty());
    }
}

#[test]
fn api_versions_fallback_parses_at_version_zero() {
    let r = process_api_version(7, 99);
    let mut buf = Bytes::from(r);
    let _ = ResponseHeader::decode(&mut buf, 0).unwrap();
    let resp = ApiVersionsResponse::decode(&mut buf, 0).unwrap();
    assert_eq!(resp.error_code, 35);
    assert_eq!(resp.api_keys.len(), 0);
    assert!(buf.is_empty());
}

#[test]
fn describe_response_parses_with_protocol_library() {
    let metadata = metadata_foo();
    let r = process_describe_topic_partitions(
        5,
        0,
        vec![b"foo".to_vec(), b"absent".to_vec()],
        &metadata,
    );
    let mut buf = Bytes::from(r);
    let header = ResponseHeader::decode(&mut buf, 1).unwrap();
    assert_eq!(header.correlation_id, 5);
    let resp = DescribeTopicPartitionsResponse::decode(&mut buf, 0).unwrap();
    assert_eq!(resp.topics.len(), 2);
    // Lexicographic: "absent" before "foo".
    assert_eq!(resp.topics[0].name.as_ref().unwrap().as_str(), "absent");
    assert_eq!(resp.topics[0].error_code, 3);
    assert_eq!(resp.topics[1].name.as_ref().unwrap().as_str(), "foo");
    assert_eq!(resp.topics[1].error_code, 0);
    assert_eq!(resp.topics[1].topic_id.as_u128(), 0x42);
    assert_eq!(resp.topics[1].partitions.len(), 1);
    assert_eq!(resp.topics[1].partitions[0].partition_index, 0);
    assert_eq!(resp.topics[1].partitions[0].leader_id, 1);
    assert!(resp.next_cursor.is_none());
    assert!(buf.is_empty());
}

#[test]
fn produce_response_parses_with_protocol_library() {
    let metadata = metadata_foo();
    let request = vec![ProduceTopicData {
        name: b"foo".to_vec(),
        partitions: vec![
            ProducePartitionData { index: 0, records: Some(vec![1, 2, 3]) },
            ProducePartitionData { index: 9, records: None },
        ],
    }];
    let (r, _writes) = process_produce(3, 11, &request, &metadata);
    let mut buf = Bytes::from(r);
    let header = ResponseHeader::decode(&mut buf, 1).unwrap();
    assert_eq!(header.correlation_id, 3);
    let resp = ProduceResponse::decode(&mut buf, 11).unwrap();
    assert_eq!(resp.responses.len(), 1);
    let topic = &resp.responses[0];
    assert_eq!(topic.name.as_str(), "foo");
    assert_eq!(topic.partition_responses.len(), 2);
    assert_eq!(topic.partition_responses[0].index, 0);
    assert_eq!(topic.partition_responses[0].error_code, 0);
    assert_eq!(topic.partition_responses[0].base_offset, 0);
    assert_eq!(topic.partition_responses[1].index, 9);
    assert_eq!(topic.partition_responses[1].error_code, 3);
    assert_eq!(topic.partition_responses[1].base_offset, -1);
    assert!(buf.is_empty());
}

#[test]
fn fetch_response_parses_with_protocol_library() {
    let r = process_fetch(2, 16, &vec![0x42, 0x99], &vec![Some(vec![0xAA, 0xBB]), None]);
    let mut buf = Bytes::from(r);
    let header = ResponseHeader::decode(&mut buf, 1).unwrap();
    assert_eq!(header.correlation_id, 2);
    let resp = FetchResponse::decode(&mut buf, 16).unwrap();
    assert_eq!(resp.error_code, 0);
    assert_eq!(resp.responses.len(), 2);
    assert_eq!(resp.responses[0].topic_id.as_u128(), 0x42);
    assert_eq!(resp.responses[0].partitions.len(), 1);
    assert_eq!(resp.responses[0].partitions[0].error_code, 0);
    assert_eq!(
        resp.responses[0].partitions[0].records.as_ref().unwrap().as_ref(),
        &[0xAA, 0xBB]
    );
    assert_eq!(resp.responses[1].topic_id.as_u128(), 0x99);
    assert_eq!(resp.responses[1].partitions[0].error_code, 100);
    assert!(buf.is_empty());
}
