//! Data model of the broker: topics, partitions, messages and batches.

use vstd::prelude::*;

verus! {

/// A named, partitioned stream of messages. `name` is the identity;
/// `num_partitions` is required (and must be positive) to create the topic's
/// partitions; the remaining fields are advisory metadata.
#[derive(Debug)]
pub struct Topic {
    pub name: String,
    pub num_partitions: Option<u32>,
    pub replication_factor: Option<u32>,
    pub retention_period: Option<u32>,
    pub batch_size: Option<u32>,
}

/// Mathematical model of a [`Topic`].
pub ghost struct TopicView {
    pub name: Seq<char>,
    pub num_partitions: Option<u32>,
    pub replication_factor: Option<u32>,
    pub retention_period: Option<u32>,
    pub batch_size: Option<u32>,
}

impl View for Topic {
    type V = TopicView;

    open spec fn view(&self) -> TopicView {
        TopicView {
            name: self.name@,
            num_partitions: self.num_partitions,
            replication_factor: self.replication_factor,
            retention_period: self.retention_period,
            batch_size: self.batch_size,
        }
    }
}

impl Clone for Topic {
    fn clone(&self) -> (r: Self)
        ensures
            r@ == self@,
    {
        Topic {
            name: self.name.clone(),
            num_partitions: self.num_partitions,
            replication_factor: self.replication_factor,
            retention_period: self.retention_period,
            batch_size: self.batch_size,
        }
    }
}

/// One keyed message. The payload is an opaque byte sequence; the optional
/// key drives partition routing; the optional timestamp is producer-supplied.
#[derive(Debug)]
pub struct Message {
    pub payload: Vec<u8>,
    pub key: Option<String>,
    pub timestamp: Option<u64>,
}

/// Mathematical model of a [`Message`].
pub ghost struct MessageView {
    pub payload: Seq<u8>,
    pub key: Option<Seq<char>>,
    pub timestamp: Option<u64>,
}

impl View for Message {
    type V = MessageView;

    open spec fn view(&self) -> MessageView {
        MessageView {
            payload: self.payload@,
            key: match self.key {
                Option::Some(k) => Option::Some(k@),
                Option::None => Option::None,
            },
            timestamp: self.timestamp,
        }
    }
}

impl Clone for Message {
    fn clone(&self) -> (r: Self)
        ensures
            r@ == self@,
    {
        let payload = clone_bytes(&self.payload);
        let key = match &self.key {
            Option::Some(k) => Option::Some(k.clone()),
            Option::None => Option::None,
        };
        Message { payload, key, timestamp: self.timestamp }
    }
}

/// The sequence of models of a sequence of messages.
pub open spec fn messages_view(ms: Seq<Message>) -> Seq<MessageView> {
    Seq::new(ms.len(), |i: int| ms[i]@)
}

/// An ordered, non-empty group of messages persisted together as one encoded
/// unit.
#[derive(Debug)]
pub struct Batch {
    pub records: Vec<Message>,
}

impl View for Batch {
    type V = Seq<MessageView>;

    open spec fn view(&self) -> Seq<MessageView> {
        messages_view(self.records@)
    }
}

impl Clone for Batch {
    fn clone(&self) -> (r: Self)
        ensures
            r@ == self@,
    {
        let mut records: Vec<Message> = Vec::new();
        let mut i: usize = 0;
        while i < self.records.len()
            invariant
                i <= self.records@.len(),
                records@.len() == i,
                forall|j: int| 0 <= j < i ==> records@[j]@ == self.records@[j]@,
            decreases self.records@.len() - i,
        {
            records.push(self.records[i].clone());
            i = i + 1;
        }
        let r = Batch { records };
        proof {
            assert(r@ =~= self@);
        }
        r
    }
}

/// Identifies one partition of a topic and the on-disk location of its
/// segment: the owning topic, the partition index in `[0, num_partitions)`,
/// and the log-directory root.
pub struct PartitionInfo {
    pub topic: Topic,
    pub partition_index: u32,
    pub log_dir_path: String,
}

impl PartitionInfo {
    pub fn new(topic: Topic, partition_index: u32, log_dir_path: String) -> (r: Self)
        ensures
            r.topic@ == topic@,
            r.partition_index == partition_index,
            r.log_dir_path@ == log_dir_path@,
    {
        PartitionInfo { topic, partition_index, log_dir_path }
    }
}

/// Byte-for-byte copy of a byte vector.
pub fn clone_bytes(v: &Vec<u8>) -> (r: Vec<u8>)
    ensures
        r@ == v@,
{
    let mut r: Vec<u8> = Vec::new();
    let mut i: usize = 0;
    while i < v.len()
        invariant
            i <= v@.len(),
            r@ =~= v@.subrange(0, i as int),
        decreases v@.len() - i,
    {
        r.push(v[i]);
        i = i + 1;
    }
    proof {
        assert(r@ =~= v@);
    }
    r
}

/// Byte-for-byte equality of two byte vectors.
pub fn bytes_eq(a: &Vec<u8>, b: &Vec<u8>) -> (r: bool)
    ensures
        r == (a@ == b@),
{
    if a.len() != b.len() {
        return false;
    }
    let mut i: usize = 0;
    while i < a.len()
        invariant
            i <= a@.len(),
            a@.len() == b@.len(),
            forall|j: int| 0 <= j < i ==> a@[j] == b@[j],
        decreases a@.len() - i,
    {
        if a[i] != b[i] {
            return false;
        }
        i = i + 1;
    }
    proof {
        assert(a@ =~= b@);
    }
    true
}

impl PartialEq for Message {
    fn eq(&self, other: &Self) -> (r: bool) {
        let pe = bytes_eq(&self.payload, &other.payload);
        let ke = match (&self.key, &other.key) {
            (Option::None, Option::None) => true,
            (Option::Some(a), Option::Some(b)) => *a == *b,
            _ => false,
        };
        let te = match (self.timestamp, other.timestamp) {
            (Option::None, Option::None) => true,
            (Option::Some(a), Option::Some(b)) => a == b,
            _ => false,
        };
        pe && ke && te
    }
}

impl vstd::std_specs::cmp::PartialEqSpecImpl for Message {
    open spec fn obeys_eq_spec() -> bool {
        true
    }

    open spec fn eq_spec(&self, other: &Self) -> bool {
        self@ == other@
    }
}

impl PartialEq for Batch {
    fn eq(&self, other: &Self) -> (r: bool) {
        if self.records.len() != other.records.len() {
            proof {
                assert(self@.len() != other@.len());
            }
            return false;
        }
        let mut i: usize = 0;
        while i < self.records.len()
            invariant
                i <= self.records@.len(),
                self.records@.len() == other.records@.len(),
                forall|j: int| 0 <= j < i ==> self.records@[j]@ == other.records@[j]@,
            decreases self.records@.len() - i,
        {
            if self.records[i] == other.records[i] {
                i = i + 1;
            } else {
                proof {
                    assert(self@[i as int] != other@[i as int]);
                }
                return false;
            }
        }
        proof {
            assert(self@ =~= other@);
        }
        true
    }
}

impl vstd::std_specs::cmp::PartialEqSpecImpl for Batch {
    open spec fn obeys_eq_spec() -> bool {
        true
    }

    open spec fn eq_spec(&self, other: &Self) -> bool {
        self@ == other@
    }
}

impl PartialEq for Topic {
    fn eq(&self, other: &Self) -> (r: bool) {
        let ne = self.name == other.name;
        let pe = match (self.num_partitions, other.num_partitions) {
            (Option::None, Option::None) => true,
            (Option::Some(a), Option::Some(b)) => a == b,
            _ => false,
        };
        let re = match (self.replication_factor, other.replication_factor) {
            (Option::None, Option::None) => true,
            (Option::Some(a), Option::Some(b)) => a == b,
            _ => false,
        };
        let te = match (self.retention_period, other.retention_period) {
            (Option::None, Option::None) => true,
            (Option::Some(a), Option::Some(b)) => a == b,
            _ => false,
        };
        let be = match (self.batch_size, other.batch_size) {
            (Option::None, Option::None) => true,
            (Option::Some(a), Option::Some(b)) => a == b,
            _ => false,
        };
        ne && pe && re && te && be
    }
}

impl vstd::std_specs::cmp::PartialEqSpecImpl for Topic {
    open spec fn obeys_eq_spec() -> bool {
        true
    }

    open spec fn eq_spec(&self, other: &Self) -> bool {
        self@ == other@
    }
}

} // verus!
