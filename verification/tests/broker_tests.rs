use std::collections::hash_map::DefaultHasher;
use std::hash::{Hash, Hasher};

use topic_broker::broker::{make_file_name, Broker, CreatePartitions, Handled, Partition, Topic, TopicMap};
use topic_broker::protocol::{topic_data_message, topic_insert_message, BrokerError};
use topic_broker::wire::Simplify;

fn std_hash(data: &[u8]) -> u64 {
    let mut h = DefaultHasher::new();
    data.hash(&mut h);
    h.finish()
}

fn unpack(message: Vec<u8>) -> (Vec<u8>, Vec<u8>) {
    let (request, _) = Simplify(message).unwrap();
    Simplify(request).unwrap()
}

#[test]
fn broker_needs_a_shard() {
    assert!(matches!(Broker::new(0), Err(BrokerError::ZeroShards)));
    assert_eq!(Broker::new(10).ok().unwrap().shard_count(), 10);
}

#[test]
fn hashing_is_default_hasher() {
    let b = Broker::new(10).ok().unwrap();
    assert_eq!(b.get_hash(b"orders"), std_hash(b"orders"));
    assert_eq!(b.get_shard(b"orders", 10), (std_hash(b"orders") as usize) % 10);
    assert_eq!(b.get_shard(b"orders", 1), 0);
}

#[test]
fn partition_file_names() {
    assert_eq!(make_file_name(b"orders", 0), b"orders_partition_0.log".to_vec());
    assert_eq!(make_file_name(b"t", 12), b"t_partition_12.log".to_vec());
    let ps = CreatePartitions(b"logs", 3).ok().unwrap();
    let names: Vec<Vec<u8>> = ps.iter().map(|p| p.file_name.clone()).collect();
    assert_eq!(
        names,
        vec![b"logs_partition_0.log".to_vec(), b"logs_partition_1.log".to_vec(), b"logs_partition_2.log".to_vec()]
    );
    assert_eq!(ps.iter().map(|p| p.id).collect::<Vec<_>>(), vec![0, 1, 2]);
}

#[test]
fn topic_creation_refusals() {
    assert!(matches!(Topic::new(&vec![0xff], 2), Err(BrokerError::InvalidTopicName(n)) if n == vec![0xff]));
    assert!(matches!(Topic::new(&b"t".to_vec(), 0), Err(BrokerError::ZeroPartitions)));
    let t = Topic::new(&b"t".to_vec(), 4).ok().unwrap();
    assert_eq!(t.partition_no, 4);
    assert_eq!(t.partitions.len(), 4);
}

#[test]
fn topic_map_insert_get_replace() {
    let mut m = TopicMap::new();
    assert!(m.get(&b"a".to_vec()).is_none());
    m.insert(b"a".to_vec(), Topic::new(&b"a".to_vec(), 2).ok().unwrap());
    m.insert(b"b".to_vec(), Topic::new(&b"b".to_vec(), 3).ok().unwrap());
    assert_eq!(m.get(&b"a".to_vec()).unwrap().partition_no, 2);
    m.insert(b"a".to_vec(), Topic::new(&b"a".to_vec(), 5).ok().unwrap());
    assert_eq!(m.get(&b"a".to_vec()).unwrap().partition_no, 5);
    assert_eq!(m.get(&b"b".to_vec()).unwrap().partition_no, 3);
}

#[test]
fn stored_topic_routes_by_key_hash() {
    let mut b = Broker::new(10).ok().unwrap();
    let name = b"orders".to_vec();
    b.insert_topic(name.clone(), Topic::new(&name, 3).ok().unwrap());
    for key in [b"k1".to_vec(), b"".to_vec(), b"another key".to_vec()] {
        let p = b.route(&name, &key).ok().unwrap();
        let id = (std_hash(&key) as usize) % 3;
        assert_eq!(p.id, id);
        assert_eq!(p.file_name, format!("orders_partition_{}.log", id).into_bytes());
    }
}

#[test]
fn unknown_topic_is_refused() {
    let mut b = Broker::new(3).ok().unwrap();
    assert!(matches!(b.route(&b"x".to_vec(), &b"k".to_vec()), Err(BrokerError::UnknownTopic(n)) if n == b"x".to_vec()));
    b.insert_topic(b"y".to_vec(), Topic::new(&b"y".to_vec(), 1).ok().unwrap());
    assert!(matches!(b.route(&b"x".to_vec(), &b"k".to_vec()), Err(BrokerError::UnknownTopic(_))));
    assert_eq!(b.route(&b"y".to_vec(), &b"k".to_vec()).ok().unwrap().id, 0);
}

#[test]
fn replacing_a_topic_changes_its_partition_count() {
    let mut b = Broker::new(2).ok().unwrap();
    let name = b"t".to_vec();
    b.insert_topic(name.clone(), Topic::new(&name, 1).ok().unwrap());
    b.insert_topic(name.clone(), Topic::new(&name, 7).ok().unwrap());
    let key = b"some key".to_vec();
    assert_eq!(b.route(&name, &key).ok().unwrap().id, (std_hash(&key) as usize) % 7);
}

#[test]
fn handle_operation_create_then_append() {
    let mut b = Broker::new(10).ok().unwrap();
    let (op, payload) = unpack(topic_insert_message("orders", 2));
    match b.handle_operation(op, payload) {
        Ok(Handled::CreateTopic { name, topic }) => {
            assert_eq!(name, b"orders".to_vec());
            assert_eq!(topic.partition_no, 2);
            b.insert_topic(name, topic);
        }
        _ => panic!("expected a topic to create"),
    }
    let (op, payload) = unpack(topic_data_message("orders", Some("k"), "hello"));
    match b.handle_operation(op, payload) {
        Ok(Handled::Append { value, partition }) => {
            assert_eq!(value, b"hello".to_vec());
            assert_eq!(partition.id, (std_hash(b"k") as usize) % 2);
        }
        _ => panic!("expected an append"),
    }
}

#[test]
fn handle_operation_refusals() {
    let b = Broker::new(10).ok().unwrap();
    let (op, payload) = unpack(topic_data_message("missing", None, "v"));
    assert!(matches!(b.handle_operation(op, payload), Err(BrokerError::UnknownTopic(_))));
    let mut payload = (1u64).to_be_bytes().to_vec();
    payload.push(0xff);
    payload.extend_from_slice(&4u64.to_be_bytes());
    assert!(matches!(
        b.handle_operation(b"topic_insert".to_vec(), payload),
        Err(BrokerError::InvalidTopicName(n)) if n == vec![0xff]
    ));
}

#[test]
fn log_record_ends_with_newline() {
    assert_eq!(Partition::log_record(b"abc"), b"abc\n".to_vec());
    assert_eq!(Partition::log_record(b""), b"\n".to_vec());
}

#[test]
fn storing_a_topic_leaves_other_topics_alone() {
    let mut b = Broker::new(1).ok().unwrap();
    let a = b"a".to_vec();
    let other = b"other".to_vec();
    b.insert_topic(other.clone(), Topic::new(&other, 5).ok().unwrap());
    let key = b"key".to_vec();
    let before = b.route(&other, &key).ok().unwrap();
    b.insert_topic(a.clone(), Topic::new(&a, 2).ok().unwrap());
    b.insert_topic(a.clone(), Topic::new(&a, 3).ok().unwrap());
    let after = b.route(&other, &key).ok().unwrap();
    assert_eq!(before.id, after.id);
    assert_eq!(before.file_name, after.file_name);
}

#[test]
fn routed_partition_is_within_the_topic() {
    let mut b = Broker::new(4).ok().unwrap();
    let name = b"t".to_vec();
    b.insert_topic(name.clone(), Topic::new(&name, 5).ok().unwrap());
    for i in 0..50u32 {
        let key = i.to_be_bytes().to_vec();
        let p1 = b.route(&name, &key).ok().unwrap();
        let p2 = b.route(&name, &key).ok().unwrap();
        assert!(p1.id < 5);
        assert_eq!(p1.id, p2.id);
    }
}
