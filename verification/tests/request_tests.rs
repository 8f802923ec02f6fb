use minikafka::header::parse_kafka_request;
use minikafka::requests::{
    decode_describe_topic_partitions_request, decode_fetch_request, decode_produce_request,
};
use minikafka::DecodeError;

#[test]
fn header_parses_flexible_capability_request() {
    let mut bytes: Vec<u8> = Vec::new();
    bytes.extend_from_slice(&20i32.to_be_bytes()); // declared message size
    bytes.extend_from_slice(&18i16.to_be_bytes()); // api key
    bytes.extend_from_slice(&4i16.to_be_bytes()); // api version
    bytes.extend_from_slice(&42i32.to_be_bytes()); // correlation id
    bytes.extend_from_slice(&[3, b'h', b'i']); // client id (compact string)
    bytes.push(0); // header tagged fields
    bytes.extend_from_slice(&[3, b'a', b'b']); // client software name
    bytes.extend_from_slice(&[2, b'c']); // client software version
    let mut pos: usize = 0;
    let req = parse_kafka_request(&bytes, &mut pos).unwrap();
    assert_eq!(req.message_size, 20);
    assert_eq!(req.api_key, 18);
    assert_eq!(req.api_version, 4);
    assert_eq!(req.correlation_id, 42);
    assert_eq!(req.client_id, Some(b"hi".to_vec()));
    assert_eq!(req.client_software_name, Some(b"ab".to_vec()));
    assert_eq!(req.client_software_version, Some(b"c".to_vec()));
    assert_eq!(pos, bytes.len());
}

#[test]
fn header_parses_legacy_nullable_client_id() {
    // Capability negotiation at version 2 takes request header 1: the
    // client id is a plain nullable string and there is no tag section.
    let mut bytes: Vec<u8> = Vec::new();
    bytes.extend_from_slice(&9i32.to_be_bytes());
    bytes.extend_from_slice(&18i16.to_be_bytes());
    bytes.extend_from_slice(&2i16.to_be_bytes());
    bytes.extend_from_slice(&7i32.to_be_bytes());
    bytes.extend_from_slice(&[0xFF, 0xFF]); // null client id
    let mut pos: usize = 0;
    let req = parse_kafka_request(&bytes, &mut pos).unwrap();
    assert_eq!(req.api_version, 2);
    assert_eq!(req.client_id, None);
    assert_eq!(req.client_software_name, None);
}

#[test]
fn header_rejects_unknown_api_key() {
    let mut bytes: Vec<u8> = Vec::new();
    bytes.extend_from_slice(&4i32.to_be_bytes());
    bytes.extend_from_slice(&999i16.to_be_bytes());
    bytes.extend_from_slice(&0i16.to_be_bytes());
    bytes.extend_from_slice(&1i32.to_be_bytes());
    let mut pos: usize = 0;
    assert_eq!(parse_kafka_request(&bytes, &mut pos).err(), Some(DecodeError::UnknownApiKey));
}

#[test]
fn header_rejects_truncated_frame() {
    let bytes = vec![0u8, 0, 0];
    let mut pos: usize = 0;
    assert_eq!(parse_kafka_request(&bytes, &mut pos).err(), Some(DecodeError::Truncated));
}

#[test]
fn describe_request_decodes() {
    let mut bytes: Vec<u8> = Vec::new();
    bytes.push(3); // two topics
    bytes.extend_from_slice(&[4, b'f', b'o', b'o']);
    bytes.push(0); // topic tagged fields
    bytes.extend_from_slice(&[4, b'b', b'a', b'r']);
    bytes.push(0);
    bytes.extend_from_slice(&100i32.to_be_bytes()); // partition limit
    bytes.push(0xFF); // null cursor
    bytes.push(0); // tagged fields
    let mut pos: usize = 0;
    let req = decode_describe_topic_partitions_request(&bytes, &mut pos).unwrap();
    assert_eq!(req.topics, vec![b"foo".to_vec(), b"bar".to_vec()]);
    assert_eq!(req.response_partition_limit, 100);
    assert!(req.cursor.is_none());
    assert_eq!(pos, bytes.len());
}

#[test]
fn describe_request_with_cursor() {
    let mut bytes: Vec<u8> = Vec::new();
    bytes.push(1); // no topics
    bytes.extend_from_slice(&1i32.to_be_bytes());
    bytes.push(1); // cursor present
    bytes.extend_from_slice(&[3, b'o', b'k']);
    bytes.extend_from_slice(&5i32.to_be_bytes());
    bytes.push(0); // cursor tagged fields
    bytes.push(0); // tagged fields
    let mut pos: usize = 0;
    let req = decode_describe_topic_partitions_request(&bytes, &mut pos).unwrap();
    assert!(req.topics.is_empty());
    let cursor = req.cursor.unwrap();
    assert_eq!(cursor.topic_name, b"ok".to_vec());
    assert_eq!(cursor.partition_index, 5);
}

#[test]
fn produce_request_decodes() {
    let mut bytes: Vec<u8> = Vec::new();
    bytes.push(0); // null transactional id
    bytes.extend_from_slice(&(-1i16).to_be_bytes()); // acks
    bytes.extend_from_slice(&1500i32.to_be_bytes()); // timeout
    bytes.push(2); // one topic
    bytes.extend_from_slice(&[4, b'f', b'o', b'o']);
    bytes.push(2); // one partition
    bytes.extend_from_slice(&0i32.to_be_bytes()); // index
    bytes.extend_from_slice(&[4, 9, 8, 7]); // records (compact bytes)
    bytes.push(0); // partition tagged fields
    bytes.push(0); // topic tagged fields
    bytes.push(0); // tagged fields
    let mut pos: usize = 0;
    let req = decode_produce_request(&bytes, &mut pos).unwrap();
    assert_eq!(req.transactional_id, None);
    assert_eq!(req.acks, -1);
    assert_eq!(req.timeout_ms, 1500);
    assert_eq!(req.topic_data.len(), 1);
    assert_eq!(req.topic_data[0].name, b"foo".to_vec());
    assert_eq!(req.topic_data[0].partitions.len(), 1);
    assert_eq!(req.topic_data[0].partitions[0].index, 0);
    assert_eq!(req.topic_data[0].partitions[0].records, Some(vec![9, 8, 7]));
    assert_eq!(pos, bytes.len());
}

#[test]
fn produce_request_truncated() {
    let bytes = vec![0u8, 0xFF];
    let mut pos: usize = 0;
    assert_eq!(decode_produce_request(&bytes, &mut pos).err(), Some(DecodeError::Truncated));
}

#[test]
fn fetch_request_decodes() {
    let mut bytes: Vec<u8> = Vec::new();
    bytes.extend_from_slice(&500i32.to_be_bytes()); // max wait
    bytes.extend_from_slice(&1i32.to_be_bytes()); // min bytes
    bytes.extend_from_slice(&1048576i32.to_be_bytes()); // max bytes
    bytes.push(0); // isolation level
    bytes.extend_from_slice(&0i32.to_be_bytes()); // session id
    bytes.extend_from_slice(&0i32.to_be_bytes()); // session epoch
    bytes.push(2); // one topic
    bytes.extend_from_slice(&0x42u128.to_be_bytes()); // topic id
    bytes.push(2); // one partition entry
    bytes.extend_from_slice(&0i32.to_be_bytes()); // partition
    bytes.extend_from_slice(&0i32.to_be_bytes()); // current leader epoch
    bytes.extend_from_slice(&0i64.to_be_bytes()); // fetch offset
    bytes.extend_from_slice(&(-1i32).to_be_bytes()); // last fetched epoch
    bytes.extend_from_slice(&0i64.to_be_bytes()); // log start offset
    bytes.extend_from_slice(&1048576i32.to_be_bytes()); // partition max bytes
    bytes.push(0); // partition tagged fields
    bytes.push(0); // topic tagged fields
    bytes.push(1); // forgotten topics: empty
    bytes.extend_from_slice(&[1]); // rack id: empty string
    bytes.push(0); // tagged fields
    let mut pos: usize = 0;
    let req = decode_fetch_request(&bytes, &mut pos).unwrap();
    assert_eq!(req.max_wait_ms, 500);
    assert_eq!(req.min_bytes, 1);
    assert_eq!(req.session_id, 0);
    assert_eq!(req.topic_ids, vec![0x42u128]);
    assert_eq!(req.rack_id, Some(Vec::new()));
    assert_eq!(pos, bytes.len());
}

#[test]
fn fetch_request_truncated() {
    let bytes = vec![0u8; 10];
    let mut pos: usize = 0;
    assert_eq!(decode_fetch_request(&bytes, &mut pos).err(), Some(DecodeError::Truncated));
}
