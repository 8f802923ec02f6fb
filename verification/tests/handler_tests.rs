use minikafka::group::TopicWithPartitions;
use minikafka::handlers::{
    plan_fetch, process_api_version, process_describe_topic_partitions, process_fetch,
    process_produce, ProducePartitionData, ProduceTopicData,
};
use minikafka::meta::{Header, Partition, Topic};

fn metadata_with(name: &[u8], uuid: u128, partition_ids: &[u32]) -> Vec<TopicWithPartitions> {
    let partitions = partition_ids
        .iter()
        .map(|id| Partition {
            header: Header { frame_version: 1, record_type: 3, version: 0 },
            partition_id: *id,
            topic_uuid: uuid,
            replica_array_len: 2,
            replica: 1,
            isr_array_len: 2,
            isr: 1,
            removing_replica_array_len: 1,
            adding_replica_array_len: 1,
            leader: 1,
            leader_epoch: 0,
            partition_epoch: 0,
            directories_array_len: 2,
            directory: 0,
            tagged_fields_count: 0,
        })
        .collect();
    vec![TopicWithPartitions {
        topic: Topic {
            header: Header { frame_version: 1, record_type: 2, version: 0 },
            name: name.to_vec(),
            uuid,
        },
        partitions,
    }]
}

#[test]
fn api_versions_v0_exact_bytes() {
    let r = process_api_version(7, 0);
    let mut expected = vec![0, 0, 0, 7]; // correlation id
    expected.extend_from_slice(&[0, 0]); // error code
    expected.extend_from_slice(&[0, 0, 0, 4]); // array length
    expected.extend_from_slice(&[0, 18, 0, 0, 0, 4]);
    expected.extend_from_slice(&[0, 75, 0, 0, 0, 0]);
    expected.extend_from_slice(&[0, 1, 0, 0, 0, 16]);
    expected.extend_from_slice(&[0, 0, 0, 0, 0, 11]);
    assert_eq!(r, expected);
}

#[test]
fn api_versions_v3_exact_bytes() {
    let r = process_api_version(-1, 3);
    let mut expected = vec![0xFF, 0xFF, 0xFF, 0xFF]; // correlation id -1
    expected.extend_from_slice(&[0, 0]); // error code
    expected.push(5); // compact array length (4 + 1)
    expected.extend_from_slice(&[0, 18, 0, 0, 0, 4, 0]);
    expected.extend_from_slice(&[0, 75, 0, 0, 0, 0, 0]);
    expected.extend_from_slice(&[0, 1, 0, 0, 0, 16, 0]);
    expected.extend_from_slice(&[0, 0, 0, 0, 0, 11, 0]);
    expected.extend_from_slice(&[0, 0, 0, 0]); // throttle
    expected.push(0); // tagged fields
    assert_eq!(r, expected);
}

#[test]
fn api_versions_all_advertised_versions_hold_the_four_ranges() {
    // Whatever the requested version within the advertised range, the four
    // fixed (api key, min, max) triples are in the response.
    for v in 0..=4i16 {
        let r = process_api_version(0, v);
        let flexible = v >= 3;
        let entry_len = if flexible { 7 } else { 6 };
        let start = if flexible { 7 } else { 10 };
        let triples: [(i16, i16, i16); 4] = [(18, 0, 4), (75, 0, 0), (1, 0, 16), (0, 0, 11)];
        for (i, (k, min, max)) in triples.iter().enumerate() {
            let o = start + i * entry_len;
            let f = |x: i16| [(x >> 8) as u8, (x & 0xFF) as u8];
            assert_eq!(&r[o..o + 2], &f(*k));
            assert_eq!(&r[o + 2..o + 4], &f(*min));
            assert_eq!(&r[o + 4..o + 6], &f(*max));
        }
    }
}

#[test]
fn api_versions_unsupported_version_falls_back() {
    // Outside 0..=4 the response is the fixed version-0 error answer.
    for v in [-1i16, 5, 100] {
        let r = process_api_version(7, v);
        assert_eq!(r, vec![0, 0, 0, 7, 0, 35, 0, 0, 0, 0]);
    }
}

#[test]
fn describe_unknown_topic_exact_bytes() {
    // A requested name absent from metadata: one response topic with the
    // unknown-topic-or-partition error and the nil identifier.
    let r = process_describe_topic_partitions(9, 0, vec![b"pax".to_vec()], &Vec::new());
    let mut expected = vec![0, 0, 0, 9]; // correlation id
    expected.push(0); // response header tagged fields
    expected.extend_from_slice(&[0, 0, 0, 0]); // throttle
    expected.push(2); // topics compact array length (1 + 1)
    expected.extend_from_slice(&[0, 3]); // error code
    expected.extend_from_slice(&[4, b'p', b'a', b'x']); // name
    expected.extend_from_slice(&[0u8; 16]); // nil topic id
    expected.push(0); // is_internal
    expected.push(1); // partitions: empty compact array
    expected.extend_from_slice(&[0, 0, 0, 0]); // authorized operations
    expected.push(0); // topic tagged fields
    expected.push(0xFF); // next cursor: null
    expected.push(0); // tagged fields
    assert_eq!(r, expected);
}

#[test]
fn describe_known_topic_carries_its_partitions_sorted() {
    let metadata = metadata_with(b"foo", 0x42, &[1, 0]);
    let r = process_describe_topic_partitions(1, 0, vec![b"foo".to_vec()], &metadata);
    let mut expected = vec![0, 0, 0, 1, 0]; // correlation id + header tag
    expected.extend_from_slice(&[0, 0, 0, 0]); // throttle
    expected.push(2); // one topic
    expected.extend_from_slice(&[0, 0]); // no error
    expected.extend_from_slice(&[4, b'f', b'o', b'o']);
    expected.extend_from_slice(&0x42u128.to_be_bytes());
    expected.push(0); // is_internal
    expected.push(3); // two partitions
    for id in [0u32, 1] {
        // ascending by partition id although metadata held 1 before 0
        expected.extend_from_slice(&[0, 0]); // error code
        expected.extend_from_slice(&id.to_be_bytes());
        expected.extend_from_slice(&1i32.to_be_bytes()); // leader
        expected.extend_from_slice(&0i32.to_be_bytes()); // leader epoch
        expected.push(2); // replica nodes
        expected.extend_from_slice(&1i32.to_be_bytes());
        expected.push(2); // isr nodes
        expected.extend_from_slice(&1i32.to_be_bytes());
        expected.push(0); // eligible leader replicas: null
        expected.push(0); // last known elr: null
        expected.push(1); // offline replicas: empty
        expected.push(0); // tagged fields
    }
    expected.extend_from_slice(&[0, 0, 0, 0]); // authorized operations
    expected.push(0); // topic tagged fields
    expected.push(0xFF); // next cursor
    expected.push(0); // tagged fields
    assert_eq!(r, expected);
}

#[test]
fn describe_orders_topics_lexicographically() {
    // Response order follows the names, not the request order.
    let r = process_describe_topic_partitions(
        0,
        0,
        vec![b"zebra".to_vec(), b"apple".to_vec()],
        &Vec::new(),
    );
    let apple = r.windows(6).position(|w| w == [6, b'a', b'p', b'p', b'l', b'e']);
    let zebra = r.windows(6).position(|w| w == [6, b'z', b'e', b'b', b'r', b'a']);
    assert!(apple.unwrap() < zebra.unwrap());
}

#[test]
fn produce_partitions_judged_independently() {
    // Partition 0 exists, partition 7 does not: the absent one answers
    // with base offset -1 and the unknown-topic-or-partition error, the
    // present one with offset 0, and only the present one is written.
    let metadata = metadata_with(b"foo", 0x42, &[0]);
    let request = vec![ProduceTopicData {
        name: b"foo".to_vec(),
        partitions: vec![
            ProducePartitionData { index: 0, records: Some(vec![1, 2, 3]) },
            ProducePartitionData { index: 7, records: Some(vec![9]) },
        ],
    }];
    let (r, writes) = process_produce(1, 11, &request, &metadata);

    assert_eq!(writes.len(), 1);
    assert_eq!(writes[0].topic, b"foo".to_vec());
    assert_eq!(writes[0].partition, 0);
    assert_eq!(writes[0].bytes, vec![1, 2, 3]);

    let mut expected = vec![0, 0, 0, 1, 0]; // correlation id + header tag
    expected.push(2); // one topic
    expected.extend_from_slice(&[4, b'f', b'o', b'o']);
    expected.push(3); // two partition entries
    // partition 0: present
    expected.extend_from_slice(&0i32.to_be_bytes());
    expected.extend_from_slice(&[0, 0]); // no error
    expected.extend_from_slice(&0i64.to_be_bytes()); // base offset
    expected.extend_from_slice(&(-1i64).to_be_bytes()); // log append time
    expected.extend_from_slice(&0i64.to_be_bytes()); // log start offset
    expected.push(1); // record errors: empty
    expected.push(0); // error message: null
    expected.push(0); // tagged fields
    // partition 7: absent
    expected.extend_from_slice(&7i32.to_be_bytes());
    expected.extend_from_slice(&[0, 3]); // unknown topic or partition
    expected.extend_from_slice(&(-1i64).to_be_bytes());
    expected.extend_from_slice(&(-1i64).to_be_bytes());
    expected.extend_from_slice(&(-1i64).to_be_bytes());
    expected.push(1);
    expected.push(0);
    expected.push(0);
    expected.push(0); // topic tagged fields
    expected.extend_from_slice(&[0, 0, 0, 0]); // throttle
    expected.push(0); // tagged fields
    assert_eq!(r, expected);
}

#[test]
fn produce_unknown_topic_writes_nothing() {
    let request = vec![ProduceTopicData {
        name: b"ghost".to_vec(),
        partitions: vec![ProducePartitionData { index: 0, records: Some(vec![1]) }],
    }];
    let (r, writes) = process_produce(1, 11, &request, &Vec::new());
    assert_eq!(writes.len(), 0);
    // The single partition entry carries error 3 and base offset -1.
    let off = 4 + 1 + 1 + 6 + 1 + 4;
    assert_eq!(&r[off..off + 2], &[0, 3]);
    assert_eq!(&r[off + 2..off + 10], &(-1i64).to_be_bytes());
}

#[test]
fn fetch_plan_names_known_topics() {
    let metadata = metadata_with(b"foo", 0x42, &[0]);
    let plan = plan_fetch(&vec![0x42, 0x99], &metadata);
    assert_eq!(plan, vec![Some(b"foo".to_vec()), None]);
}

#[test]
fn fetch_returns_exact_log_bytes() {
    // A topic id in metadata answers with the exact file content and no
    // error; an absent one with the unknown-topic-id error and no records.
    let r = process_fetch(2, 16, &vec![0x42], &vec![Some(vec![0xAB, 0xCD])]);
    let mut expected = vec![0, 0, 0, 2, 0]; // correlation id + header tag
    expected.extend_from_slice(&[0, 0, 0, 0]); // throttle
    expected.extend_from_slice(&[0, 0]); // error code
    expected.extend_from_slice(&[0, 0, 0, 0]); // session id
    expected.push(2); // one topic
    expected.extend_from_slice(&0x42u128.to_be_bytes());
    expected.push(2); // one partition entry
    expected.extend_from_slice(&0i32.to_be_bytes()); // partition index
    expected.extend_from_slice(&[0, 0]); // no error
    expected.extend_from_slice(&0i64.to_be_bytes()); // high watermark
    expected.extend_from_slice(&0i64.to_be_bytes()); // last stable offset
    expected.extend_from_slice(&0i64.to_be_bytes()); // log start offset
    expected.push(0); // aborted transactions: null
    expected.extend_from_slice(&(-1i32).to_be_bytes()); // preferred read replica
    expected.extend_from_slice(&[3, 0xAB, 0xCD]); // records
    expected.push(0); // partition tagged fields
    expected.push(0); // topic tagged fields
    expected.push(0); // tagged fields
    assert_eq!(r, expected);
}

#[test]
fn fetch_unknown_topic_id() {
    let r = process_fetch(2, 16, &vec![0x99], &vec![None]);
    let off = 4 + 1 + 4 + 2 + 4 + 1 + 16 + 1 + 4;
    assert_eq!(&r[off..off + 2], &[0, 100]); // unknown topic id
    let records_off = off + 2 + 8 + 8 + 8 + 1 + 4;
    assert_eq!(r[records_off], 0); // null records
}
