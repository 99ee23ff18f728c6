//! The broker-side sketch around the log core: a broker's address and
//! the pairing of a topic partition with its on-disk path.  These
//! consume only the partition's public contract.
use vstd::prelude::*;
use crate::names::{dec_u64, dec_var};
use crate::partition::{DirFile, Partition};
use crate::segment::MaxBytes;

verus! {

/// One broker of the cluster.
pub struct Broker {
    pub id: u32,
    pub host: String,
    pub port: u16,
}

impl Broker {
    /// The broker's address: host, colon, decimal port.
    pub fn addr(&self) -> (s: String)
        ensures
            s@ == self.host@ + ":"@ + dec_var(self.port as int),
    {
        let mut s = self.host.clone();
        s.append(":");
        let port = dec_u64(self.port as u64);
        s.append(port.as_str());
        s
    }
}

/// One partition of a topic as a broker holds it: replica layout and
/// the partition itself, stored under `<log_path>/<topic>-<id>`.
pub struct TopicPartition {
    pub topic: String,
    pub path: String,
    pub partition_id: u32,
    pub replica_ids: Vec<u32>,
    pub leader_id: u32,
    pub preferred_leader: u32,
    pub partition: Partition,
}

/// The directory a topic partition lives in.
pub open spec fn topic_path(log_path: Seq<char>, topic: Seq<char>, partition_id: u32) -> Seq<char> {
    log_path + "/"@ + topic + "-"@ + dec_var(partition_id as int)
}

fn build_topic_path(log_path: &String, topic: &String, partition_id: u32) -> (s: String)
    ensures
        s@ == topic_path(log_path@, topic@, partition_id),
{
    let mut s = log_path.clone();
    s.append("/");
    s.append(topic.as_str());
    s.append("-");
    let id = dec_u64(partition_id as u64);
    s.append(id.as_str());
    s
}

impl TopicPartition {
    /// Lays out a fresh partition for one topic: the path
    /// `<log_path>/<topic>-<partition_id>` and an empty partition
    /// named after the topic.  The caller creates the directory.
    pub fn new(
        topic: String,
        log_path: String,
        partition_id: u32,
        replicas: Vec<u32>,
        leader_id: u32,
        preferred_leader: u32,
    ) -> (t: TopicPartition)
        ensures
            t.topic == topic,
            t.path@ == topic_path(log_path@, topic@, partition_id),
            t.partition_id == partition_id,
            t.replica_ids == replicas,
            t.leader_id == leader_id,
            t.preferred_leader == preferred_leader,
            t.partition.synced(),
            t.partition.name == topic,
            t.partition.max_bytes == (MaxBytes(1024, 1024)),
            t.partition.next_offset_spec() == 0,
    {
        let path = build_topic_path(&log_path, &topic, partition_id);
        let partition = Partition::create(topic.clone(), MaxBytes(1024, 1024));
        proof {
            assert(partition.name@ == topic@);
        }
        TopicPartition {
            topic,
            path,
            partition_id,
            replica_ids: replicas,
            leader_id,
            preferred_leader,
            partition,
        }
    }

    /// Reopens a topic partition from the files found in its
    /// directory, which the caller has read.
    pub fn open(
        topic: String,
        log_path: String,
        partition_id: u32,
        replicas: Vec<u32>,
        leader_id: u32,
        preferred_leader: u32,
        files: &Vec<DirFile>,
    ) -> (t: TopicPartition)
        ensures
            t.topic == topic,
            t.path@ == topic_path(log_path@, topic@, partition_id),
            t.partition_id == partition_id,
            t.replica_ids == replicas,
            t.leader_id == leader_id,
            t.preferred_leader == preferred_leader,
            t.partition.wf(),
            t.partition.name == topic,
            t.partition.max_bytes == (MaxBytes(1024, 1024)),
    {
        let path = build_topic_path(&log_path, &topic, partition_id);
        let partition = Partition::load(topic.clone(), files, MaxBytes(1024, 1024));
        TopicPartition {
            topic,
            path,
            partition_id,
            replica_ids: replicas,
            leader_id,
            preferred_leader,
            partition,
        }
    }
}

} // verus!
