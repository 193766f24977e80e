//! The topics manager: sole owner of the topic catalog and the partition
//! routing table.
//!
//! All mutation happens through [`TopicsManager::handle_command`], the
//! decision core of the supervisor's command-processing loop. The
//! asynchronous shell around the library delivers commands from a channel,
//! performs the returned actions (spawning one partition writer per
//! [`PartitionInfo`]) and sends the reply back on the command's reply
//! channel.

use vstd::prelude::*;

use crate::models::{PartitionInfo, Topic};
use crate::routing::{partition_index_for_key, spec_partition_index};

verus! {

/// First topic with the given name, searching front to back.
pub open spec fn spec_find_topic(topics: Seq<Topic>, name: Seq<char>) -> Option<Topic>
    decreases topics.len(),
{
    if topics.len() == 0 {
        None
    } else if topics[0]@.name == name {
        Some(topics[0])
    } else {
        spec_find_topic(topics.drop_first(), name)
    }
}

/// The catalog after a create request: unchanged when the name exists,
/// otherwise extended by the new topic.
pub open spec fn spec_create_topics(topics: Seq<Topic>, t: Topic) -> Seq<Topic> {
    if spec_find_topic(topics, t@.name) is Some {
        topics
    } else {
        topics.push(t)
    }
}

/// How many partition writers a create request spawns: none when the name
/// exists, one per partition otherwise.
pub open spec fn spec_spawn_count(topics: Seq<Topic>, t: Topic) -> int {
    if spec_find_topic(topics, t@.name) is Some {
        0
    } else {
        t@.num_partitions->Some_0 as int
    }
}

proof fn lemma_find_skip(topics: Seq<Topic>, name: Seq<char>, i: int)
    requires
        0 <= i <= topics.len(),
        forall|j: int| 0 <= j < i ==> topics[j]@.name != name,
    ensures
        spec_find_topic(topics, name) == spec_find_topic(
            topics.subrange(i, topics.len() as int),
            name,
        ),
    decreases i,
{
    if i > 0 {
        assert(topics.len() > 0);
        assert(topics.drop_first() =~= topics.subrange(1, topics.len() as int));
        lemma_find_skip(topics.drop_first(), name, i - 1);
        assert(topics.drop_first().subrange(i - 1, topics.drop_first().len() as int)
            =~= topics.subrange(i, topics.len() as int));
    } else {
        assert(topics.subrange(0, topics.len() as int) =~= topics);
    }
}

proof fn lemma_find_push(topics: Seq<Topic>, t: Topic, name: Seq<char>)
    ensures
        spec_find_topic(topics.push(t), name) == (match spec_find_topic(topics, name) {
            Some(x) => Some(x),
            None => if t@.name == name {
                Some(t)
            } else {
                None
            },
        }),
    decreases topics.len(),
{
    if topics.len() == 0 {
        reveal_with_fuel(spec_find_topic, 2);
        assert(topics.push(t)[0] == t);
        assert(topics.push(t).drop_first() =~= Seq::<Topic>::empty());
    } else {
        assert(topics.push(t)[0] == topics[0]);
        assert(topics.push(t).drop_first() =~= topics.drop_first().push(t));
        lemma_find_push(topics.drop_first(), t, name);
    }
}

proof fn lemma_find_topic_is_member(topics: Seq<Topic>, name: Seq<char>)
    ensures
        spec_find_topic(topics, name) matches Some(t) ==> exists|i: int|
            0 <= i < topics.len() && topics[i] == t && t@.name == name,
    decreases topics.len(),
{
    if topics.len() > 0 {
        if topics[0]@.name == name {
            assert(topics[0] == spec_find_topic(topics, name)->Some_0);
        } else {
            lemma_find_topic_is_member(topics.drop_first(), name);
            if spec_find_topic(topics.drop_first(), name) is Some {
                let t = spec_find_topic(topics.drop_first(), name)->Some_0;
                let i = choose|i: int|
                    0 <= i < topics.drop_first().len() && topics.drop_first()[i] == t && t@.name
                        == name;
                assert(topics[i + 1] == t);
            }
        }
    }
}

/// Law (idempotent topic creation): creating a topic whose name already
/// stands in the catalog changes nothing and spawns nothing, so two create
/// requests with an identical topic name leave exactly one catalog entry and
/// exactly one round of partition writers — `num_partitions` in total, not
/// twice that.
pub proof fn lemma_idempotent_topic_creation(topics: Seq<Topic>, t: Topic)
    ensures
        spec_create_topics(spec_create_topics(topics, t), t) == spec_create_topics(topics, t),
        spec_spawn_count(spec_create_topics(topics, t), t) == 0,
{
    if spec_find_topic(topics, t@.name) is Some {
    } else {
        lemma_find_push(topics, t, t@.name);
    }
}

/// The commands the topics manager consumes from its inbound channel. Each
/// carries a reply channel in the asynchronous shell; here the reply is the
/// return value of [`TopicsManager::handle_command`].
pub enum TopicManagerCommands {
    CreateTopic { topic: Topic },
    GetTopicInfo { topic_name: String },
    GetPartitionManagerTx { topic_name: String, message_key: Option<String> },
}

/// The reply to one command: the topic record for create/lookup commands, or
/// the routing-table key — the index of the destination partition — for a
/// routing query. The shell maps the index to the partition's channel handle.
pub enum TopicManagerReply {
    TopicRecord(Option<Topic>),
    PartitionHandle(Option<u32>),
}

/// Supervisor state: the topic catalog, the log-directory root handed to new
/// partitions, and the routing table of registered `(topic name, partition
/// index)` entries.
pub struct TopicsManager {
    pub topics: Vec<Topic>,
    pub log_dir_path: String,
    pub partitions: Vec<(String, u32)>,
}

impl TopicsManager {
    /// Whether the routing table holds an entry for this partition.
    pub open spec fn has_entry(self, name: Seq<char>, idx: u32) -> bool {
        exists|j: int|
            0 <= j < self.partitions@.len() && self.partitions@[j].0@ == name
                && self.partitions@[j].1 == idx
    }

    /// Well-formedness: topic names are unique; every topic was created with
    /// a positive partition count; and the routing table holds an entry
    /// exactly for each partition of each catalogued topic.
    pub open spec fn wf(self) -> bool {
        &&& (forall|i: int, j: int|
            0 <= i < j < self.topics@.len() ==> self.topics@[i]@.name != self.topics@[j]@.name)
        &&& (forall|i: int|
            0 <= i < self.topics@.len() ==> ((#[trigger] self.topics@[i]@.num_partitions)
                matches Some(p) && p > 0))
        &&& (forall|n: Seq<char>, k: u32|
            #[trigger] self.has_entry(n, k) <==> (spec_find_topic(self.topics@, n) matches Some(t)
                && k < t@.num_partitions->Some_0))
    }

    /// A fresh manager: empty catalog, empty routing table.
    pub fn new(log_dir_path: String) -> (r: Self)
        ensures
            r.wf(),
            r.topics@.len() == 0,
            r.partitions@.len() == 0,
            r.log_dir_path@ == log_dir_path@,
    {
        let r = TopicsManager { topics: Vec::new(), log_dir_path, partitions: Vec::new() };
        proof {
            assert(forall|n: Seq<char>, k: u32| !r.has_entry(n, k));
        }
        r
    }

    /// Pure catalog lookup; no side effects.
    pub fn get_topic_info(&self, topic_name: &String) -> (r: Option<Topic>)
        ensures
            match spec_find_topic(self.topics@, topic_name@) {
                None => r is None,
                Some(t) => r matches Some(rt) && rt@ == t@,
            },
    {
        let mut i: usize = 0;
        while i < self.topics.len()
            invariant
                i <= self.topics@.len(),
                forall|j: int| 0 <= j < i ==> self.topics@[j]@.name != topic_name@,
            decreases self.topics@.len() - i,
        {
            if self.topics[i].name == *topic_name {
                proof {
                    lemma_find_skip(self.topics@, topic_name@, i as int);
                    assert(self.topics@.subrange(i as int, self.topics@.len() as int)[0]
                        == self.topics@[i as int]);
                }
                return Some(self.topics[i].clone());
            }
            i = i + 1;
        }
        proof {
            lemma_find_skip(self.topics@, topic_name@, i as int);
            assert(self.topics@.subrange(i as int, self.topics@.len() as int).len() == 0);
        }
        None
    }

    /// Whether the routing table holds an entry for this partition.
    fn lookup_entry(&self, name: &String, idx: u32) -> (found: bool)
        ensures
            found == self.has_entry(name@, idx),
    {
        let mut i: usize = 0;
        while i < self.partitions.len()
            invariant
                i <= self.partitions@.len(),
                forall|j: int|
                    0 <= j < i ==> !(self.partitions@[j].0@ == name@ && self.partitions@[j].1
                        == idx),
            decreases self.partitions@.len() - i,
        {
            if self.partitions[i].0 == *name && self.partitions[i].1 == idx {
                return true;
            }
            i = i + 1;
        }
        false
    }

    /// Create a topic, idempotently. When the name is already catalogued the
    /// existing record is returned unchanged and nothing is spawned.
    /// Otherwise the topic is catalogued, one routing-table entry per
    /// partition index in `[0, num_partitions)` is registered, and the
    /// returned list holds one [`PartitionInfo`] per partition, in index
    /// order, for the shell to spawn a writer from.
    #[verifier::loop_isolation(false)]
    #[verifier::rlimit(100)]
    pub fn create_topic(&mut self, topic: Topic) -> (r: (Topic, Vec<PartitionInfo>))
        requires
            old(self).wf(),
            topic@.num_partitions matches Some(p) && p > 0,
        ensures
            final(self).wf(),
            final(self).log_dir_path@ == old(self).log_dir_path@,
            final(self).topics@ == spec_create_topics(old(self).topics@, topic),
            r.1@.len() == spec_spawn_count(old(self).topics@, topic),
            r.0@ == (match spec_find_topic(old(self).topics@, topic@.name) {
                Some(t) => t@,
                None => topic@,
            }),
            forall|k: int|
                0 <= k < r.1@.len() ==> (#[trigger] r.1@[k]).topic@ == topic@ && r.1@[k].partition_index
                    == k && r.1@[k].log_dir_path@ == old(self).log_dir_path@,
    {
        let existing = self.get_topic_info(&topic.name);
        match existing {
            Some(t) => {
                (t, Vec::new())
            },
            None => {
                let np = match topic.num_partitions {
                    Some(p) => p,
                    None => 1,
                };
                let mut infos: Vec<PartitionInfo> = Vec::new();
                let mut idx: u32 = 0;
                while idx < np
                    invariant
                        0 <= idx <= np,
                        infos@.len() == idx as int,
                        forall|k: int|
                            0 <= k < idx as int ==> (#[trigger] infos@[k]).topic@ == topic@
                                && infos@[k].partition_index == k && infos@[k].log_dir_path@
                                == self.log_dir_path@,
                        self.partitions@.len() == old(self).partitions@.len() + idx as int,
                        forall|k: int|
                            0 <= k < old(self).partitions@.len() ==> self.partitions@[k]
                                == old(self).partitions@[k],
                        forall|k: int|
                            old(self).partitions@.len() <= k < self.partitions@.len()
                                ==> (#[trigger] self.partitions@[k]).0@ == topic@.name
                                && self.partitions@[k].1 == k - old(self).partitions@.len(),
                        self.topics@ == old(self).topics@,
                        self.log_dir_path@ == old(self).log_dir_path@,
                    decreases np - idx,
                {
                    let entry_name = topic.name.clone();
                    self.partitions.push((entry_name, idx));
                    let info = PartitionInfo::new(topic.clone(), idx, self.log_dir_path.clone());
                    infos.push(info);
                    idx = idx + 1;
                }
                let record = topic.clone();
                self.topics.push(topic);
                proof {
                    self.lemma_wf_after_create(*old(self), record@.num_partitions->Some_0);
                }
                (record, infos)
            },
        }
    }

    /// After pushing a new topic with `np` partitions and its `np` routing
    /// entries, the manager is well-formed again.
    proof fn lemma_wf_after_create(self, pre: TopicsManager, np: u32)
        requires
            pre.wf(),
            self.topics@.len() > 0,
            self.topics@ == pre.topics@.push(self.topics@.last()),
            self.topics@.last()@.num_partitions == Some(np),
            np > 0,
            spec_find_topic(pre.topics@, self.topics@.last()@.name) is None,
            self.partitions@.len() == pre.partitions@.len() + np as int,
            forall|k: int|
                0 <= k < pre.partitions@.len() ==> self.partitions@[k] == pre.partitions@[k],
            forall|k: int|
                pre.partitions@.len() <= k < self.partitions@.len()
                    ==> (#[trigger] self.partitions@[k]).0@ == self.topics@.last()@.name
                    && self.partitions@[k].1 == k - pre.partitions@.len(),
        ensures
            self.wf(),
    {
        let t = self.topics@.last();
        let name = t@.name;
        lemma_find_push(pre.topics@, t, name);
        assert forall|i: int, j: int| 0 <= i < j < self.topics@.len() implies self.topics@[i]@.name
            != self.topics@[j]@.name by {
            if j < self.topics@.len() - 1 {
                assert(self.topics@[i] == pre.topics@[i]);
                assert(self.topics@[j] == pre.topics@[j]);
            } else {
                assert(self.topics@[j] == t);
                if self.topics@[i]@.name == name {
                    lemma_find_skip(pre.topics@, name, i);
                    assert(pre.topics@.subrange(i, pre.topics@.len() as int)[0]
                        == pre.topics@[i]);
                    assert(spec_find_topic(pre.topics@, name) is Some);
                }
            }
        }
        assert forall|n: Seq<char>, k: u32| #[trigger] self.has_entry(n, k) implies (
        spec_find_topic(self.topics@, n) matches Some(tt) && k < tt@.num_partitions->Some_0) by {
            let j = choose|j: int|
                0 <= j < self.partitions@.len() && self.partitions@[j].0@ == n
                    && self.partitions@[j].1 == k;
            lemma_find_push(pre.topics@, t, n);
            if j < pre.partitions@.len() {
                assert(pre.has_entry(n, k));
            } else {
                assert(n == name);
                assert(k < np);
            }
        }
        assert forall|n: Seq<char>, k: u32|
            (spec_find_topic(self.topics@, n) matches Some(tt) && k
                < tt@.num_partitions->Some_0) implies #[trigger] self.has_entry(n, k) by {
            lemma_find_push(pre.topics@, t, n);
            if spec_find_topic(pre.topics@, n) is Some {
                assert(pre.has_entry(n, k));
                let j = choose|j: int|
                    0 <= j < pre.partitions@.len() && pre.partitions@[j].0@ == n
                        && pre.partitions@[j].1 == k;
                assert(self.partitions@[j].0@ == n && self.partitions@[j].1 == k);
            } else {
                assert(n == name);
                let j = pre.partitions@.len() + k as int;
                assert(self.partitions@[j].0@ == n && self.partitions@[j].1 == k);
            }
        }
    }

    /// Resolve the destination partition for a produce request: the key
    /// routes deterministically to `hash(key) % num_partitions`, an absent
    /// key to partition 0. Returns the routing-table key — the partition
    /// index — when the topic and its entry exist, or nothing for an unknown
    /// topic. A caller supplying a key must have confirmed that the topic
    /// exists.
    pub fn get_partition_manager_tx(&self, topic_name: &String, message_key: &Option<String>) -> (r:
        Option<u32>)
        requires
            self.wf(),
            message_key is Some ==> spec_find_topic(self.topics@, topic_name@) is Some,
        ensures
            match spec_find_topic(self.topics@, topic_name@) {
                None => r is None,
                Some(t) => r == Some(
                    spec_partition_index(
                        match *message_key {
                            Some(k) => Some(k@),
                            None => None,
                        },
                        t@.num_partitions->Some_0,
                    ),
                ),
            },
    {
        let topic = self.get_topic_info(topic_name);
        match topic {
            None => None,
            Some(t) => {
                let np = match t.num_partitions {
                    Some(p) => p,
                    None => 1,
                };
                proof {
                    let tt = spec_find_topic(self.topics@, topic_name@)->Some_0;
                    assert(tt@ == t@);
                    lemma_find_topic_is_member(self.topics@, topic_name@);
                    let i = choose|i: int|
                        0 <= i < self.topics@.len() && self.topics@[i] == tt && tt@.name
                            == topic_name@;
                    assert(self.topics@[i]@.num_partitions matches Some(p) && p > 0);
                }
                let idx = partition_index_for_key(message_key, np);
                let found = self.lookup_entry(topic_name, idx);
                if found {
                    Some(idx)
                } else {
                    proof {
                        assert(self.has_entry(topic_name@, idx));
                        assert(false);
                    }
                    None
                }
            },
        }
    }

    /// One step of the supervisor's command loop: consume a command, mutate
    /// the catalog and routing table as it demands, and return the reply
    /// together with the partitions the shell must spawn writers for.
    pub fn handle_command(&mut self, cmd: TopicManagerCommands) -> (r: (
        TopicManagerReply,
        Vec<PartitionInfo>,
    ))
        requires
            old(self).wf(),
            cmd matches TopicManagerCommands::CreateTopic { topic } ==> topic@.num_partitions
                matches Some(p) && p > 0,
            cmd matches TopicManagerCommands::GetPartitionManagerTx { topic_name, message_key }
                ==> (message_key is Some ==> spec_find_topic(old(self).topics@, topic_name@)
                is Some),
        ensures
            final(self).wf(),
            final(self).log_dir_path@ == old(self).log_dir_path@,
            match cmd {
                TopicManagerCommands::CreateTopic { topic } => {
                    &&& final(self).topics@ == spec_create_topics(old(self).topics@, topic)
                    &&& r.1@.len() == spec_spawn_count(old(self).topics@, topic)
                    &&& r.0 matches TopicManagerReply::TopicRecord(rec) && rec matches Some(rt)
                        && rt@ == (match spec_find_topic(old(self).topics@, topic@.name) {
                        Some(t) => t@,
                        None => topic@,
                    })
                    &&& forall|k: int|
                        0 <= k < r.1@.len() ==> (#[trigger] r.1@[k]).topic@ == topic@
                            && r.1@[k].partition_index == k && r.1@[k].log_dir_path@
                            == old(self).log_dir_path@
                },
                TopicManagerCommands::GetTopicInfo { topic_name } => {
                    &&& *final(self) == *old(self)
                    &&& r.1@.len() == 0
                    &&& r.0 matches TopicManagerReply::TopicRecord(rec)
                        && (match spec_find_topic(old(self).topics@, topic_name@) {
                        None => rec is None,
                        Some(t) => rec matches Some(rt) && rt@ == t@,
                    })
                },
                TopicManagerCommands::GetPartitionManagerTx { topic_name, message_key } => {
                    &&& *final(self) == *old(self)
                    &&& r.1@.len() == 0
                    &&& r.0 matches TopicManagerReply::PartitionHandle(h)
                        && (match spec_find_topic(old(self).topics@, topic_name@) {
                        None => h is None,
                        Some(t) => h == Some(
                            spec_partition_index(
                                match message_key {
                                    Some(k) => Some(k@),
                                    None => None,
                                },
                                t@.num_partitions->Some_0,
                            ),
                        ),
                    })
                },
            },
    {
        match cmd {
            TopicManagerCommands::CreateTopic { topic } => {
                let (record, infos) = self.create_topic(topic);
                (TopicManagerReply::TopicRecord(Some(record)), infos)
            },
            TopicManagerCommands::GetTopicInfo { topic_name } => {
                let rec = self.get_topic_info(&topic_name);
                (TopicManagerReply::TopicRecord(rec), Vec::new())
            },
            TopicManagerCommands::GetPartitionManagerTx { topic_name, message_key } => {
                let h = self.get_partition_manager_tx(&topic_name, &message_key);
                (TopicManagerReply::PartitionHandle(h), Vec::new())
            },
        }
    }
}

} // verus!
