use topic_broker::protocol::{decode_operation, frame_error_text, topic_data_message, topic_insert_message, BrokerError, Operation};
use topic_broker::wire::{FrameError, Simplify};

fn frame(body: &[u8]) -> Vec<u8> {
    let mut v = (body.len() as u64).to_be_bytes().to_vec();
    v.extend_from_slice(body);
    v
}

fn unpack(message: Vec<u8>) -> (Vec<u8>, Vec<u8>) {
    let (request, rest) = Simplify(message).unwrap();
    assert!(rest.is_empty());
    Simplify(request).unwrap()
}

#[test]
fn topic_insert_message_layout() {
    let m = topic_insert_message("orders", 3);
    let mut body = frame(b"topic_insert");
    body.extend(frame(b"orders"));
    body.extend_from_slice(&3u64.to_be_bytes());
    assert_eq!(m, frame(&body));
}

#[test]
fn topic_data_message_layout() {
    let m = topic_data_message("orders", Some("k1"), "v");
    let mut body = frame(b"topic_data_insert");
    body.extend(frame(b"orders"));
    body.extend(frame(b"k1"));
    body.extend(frame(b"v"));
    assert_eq!(m, frame(&body));
}

#[test]
fn topic_data_message_without_key_sends_empty_key() {
    assert_eq!(topic_data_message("t", None, "v"), topic_data_message("t", Some(""), "v"));
}

#[test]
fn topic_insert_reads_back() {
    let (op, payload) = unpack(topic_insert_message("orders", 3));
    match decode_operation(op, payload) {
        Ok(Operation::TopicInsert { name, partition_no }) => {
            assert_eq!(name, b"orders".to_vec());
            assert_eq!(partition_no, 3);
        }
        _ => panic!("expected a topic insert"),
    }
}

#[test]
fn topic_insert_with_zero_partitions_is_refused() {
    let (op, payload) = unpack(topic_insert_message("orders", 0));
    assert!(matches!(decode_operation(op, payload), Err(BrokerError::ZeroPartitions)));
}

#[test]
fn topic_data_reads_back() {
    let (op, payload) = unpack(topic_data_message("ünïcode", None, "value 1"));
    match decode_operation(op, payload) {
        Ok(Operation::TopicData { topic, key, value }) => {
            assert_eq!(topic, "ünïcode".as_bytes().to_vec());
            assert!(key.is_empty());
            assert_eq!(value, b"value 1".to_vec());
        }
        _ => panic!("expected a data insert"),
    }
}

#[test]
fn operation_name_is_trimmed() {
    let mut payload = frame(b"t");
    payload.extend_from_slice(&5u64.to_be_bytes());
    match decode_operation(b" \ttopic_insert\r\n".to_vec(), payload) {
        Ok(Operation::TopicInsert { name, partition_no }) => {
            assert_eq!(name, b"t".to_vec());
            assert_eq!(partition_no, 5);
        }
        _ => panic!("expected a topic insert"),
    }
}

#[test]
fn invalid_operation_utf8() {
    match decode_operation(vec![0xc3, 0x28], vec![]) {
        Err(BrokerError::InvalidOperationUtf8(b)) => assert_eq!(b, vec![0xc3, 0x28]),
        _ => panic!("expected an UTF-8 error"),
    }
}

#[test]
fn unknown_operation_is_named_trimmed() {
    match decode_operation(b"  delete  ".to_vec(), vec![]) {
        Err(BrokerError::UnknownOperation(name)) => assert_eq!(name, "delete".chars().collect::<Vec<_>>()),
        _ => panic!("expected an unknown operation"),
    }
}

#[test]
fn partition_count_must_be_eight_bytes() {
    let mut payload = frame(b"t");
    payload.extend_from_slice(&[0, 0, 0, 0, 0, 0, 1]);
    assert!(matches!(
        decode_operation(b"topic_insert".to_vec(), payload),
        Err(BrokerError::PartitionPayloadLength(7))
    ));
}

#[test]
fn payload_frame_errors_are_reported() {
    assert!(matches!(
        decode_operation(b"topic_insert".to_vec(), vec![1, 2]),
        Err(BrokerError::Frame(FrameError::TooShort { len: 2 }))
    ));
    let mut payload = frame(b"t");
    payload.extend(frame(b"k"));
    assert!(matches!(
        decode_operation(b"topic_data_insert".to_vec(), payload),
        Err(BrokerError::Frame(FrameError::TooShort { len: 0 }))
    ));
}

#[test]
fn data_payload_ignores_bytes_after_value() {
    let mut payload = frame(b"t");
    payload.extend(frame(b"k"));
    payload.extend(frame(b"v"));
    payload.extend_from_slice(b"junk");
    match decode_operation(b"topic_data_insert".to_vec(), payload) {
        Ok(Operation::TopicData { value, .. }) => assert_eq!(value, b"v".to_vec()),
        _ => panic!("expected a data insert"),
    }
}

#[test]
fn insert_topic_message_splits_into_parts() {
    let w = topic_insert_message("orders", 9);
    let (q, rest) = Simplify(w).unwrap();
    assert!(rest.is_empty());
    let (op, p) = Simplify(q).unwrap();
    assert_eq!(op, b"topic_insert".to_vec());
    assert_eq!(Simplify(p).unwrap(), (b"orders".to_vec(), 9u64.to_be_bytes().to_vec()));
}

fn msg(e: &BrokerError) -> String {
    String::from_utf8(e.message()).unwrap()
}

#[test]
fn error_messages() {
    assert_eq!(msg(&BrokerError::Frame(FrameError::TooShort { len: 3 })), "Buffer too short: 3 bytes, expected at least 8");
    assert_eq!(msg(&BrokerError::Frame(FrameError::LengthOverflow { declared: 5 })), "Length overflow");
    assert_eq!(
        msg(&BrokerError::Frame(FrameError::Truncated { declared: 10, available: 2 })),
        "Invalid buffer length: declared 10, available 2"
    );
    assert_eq!(
        String::from_utf8(frame_error_text(&FrameError::TooShort { len: 0 })).unwrap(),
        "Buffer too short: 0 bytes, expected at least 8"
    );
    let bad = vec![0x61, 0xff];
    let std_text = String::from_utf8(bad.clone()).unwrap_err().to_string();
    assert_eq!(msg(&BrokerError::InvalidOperationUtf8(bad.clone())), format!("Invalid operation UTF-8: {}", std_text));
    assert_eq!(msg(&BrokerError::InvalidTopicName(bad.clone())), format!("Invalid UTF-8 topic name: {}", std_text));
    assert_eq!(
        msg(&BrokerError::PartitionPayloadLength(7)),
        "Invalid partition count payload: expected 8 bytes, got 7"
    );
    assert_eq!(msg(&BrokerError::ZeroPartitions), "Partition count cannot be zero");
    assert_eq!(msg(&BrokerError::UnknownTopic(b"t\xffx".to_vec())), "Topic 't\u{fffd}x' does not exist");
    assert_eq!(msg(&BrokerError::UnknownTopic(b"orders".to_vec())), "Topic 'orders' does not exist");
    assert_eq!(msg(&BrokerError::UnknownOperation("déjà".chars().collect())), "Unknown operation: déjà");
    assert_eq!(msg(&BrokerError::ZeroShards), "Shard count cannot be zero");
}
