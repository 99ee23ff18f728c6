use seglog::cluster::{Broker, TopicPartition};

#[test]
fn broker_addr_joins_host_and_port() {
    let broker = Broker { id: 1, host: String::from("127.0.0.1"), port: 9092 };
    assert_eq!(broker.addr(), "127.0.0.1:9092");
}

#[test]
fn topic_partition_new_lays_out_the_path() {
    let tp = TopicPartition::new(
        String::from("events"),
        String::from("/var/log/broker"),
        3,
        vec![1, 2],
        1,
        1,
    );
    assert_eq!(tp.path, "/var/log/broker/events-3");
    assert_eq!(tp.topic, "events");
    assert_eq!(tp.partition.name, "events");
    assert_eq!(tp.partition.active_segment.newest_offset(), 0);
}

#[test]
fn topic_partition_open_reloads_the_partition() {
    let mut tp = TopicPartition::new(
        String::from("events"),
        String::from("/var/log/broker"),
        0,
        vec![1],
        1,
        1,
    );
    tp.partition.append("YELLOW SUBMARINE".as_bytes()).unwrap();
    let files = tp.partition.dir_files();
    let reopened = TopicPartition::open(
        String::from("events"),
        String::from("/var/log/broker"),
        0,
        vec![1],
        1,
        1,
        &files,
    );
    assert_eq!(reopened.path, "/var/log/broker/events-0");
    // one record at slot 0 is what the zero-prefix heuristic cannot see
    assert_eq!(reopened.partition.active_segment.newest_offset(), 0);
}
