//! The broker's registry: shards of topics, each topic split into numbered
//! partitions with their log files, and how requests are routed to them.

use vstd::prelude::*;
use std::hash::{Hash, Hasher};
use vstd::utf8::valid_utf8;
use crate::wire::{frame, push_bytes};
use crate::seqs::{bytes_equal, copy_all};
use crate::text::{decimal, push_decimal, utf8_str};
use crate::protocol::{
    decode_operation, error_wf, lemma_data_payload_read_back, lemma_read_request_data, name_bytes,
    topic_data_insert_name, read_request, BrokerError, BrokerErrorView, Operation, OperationView,
};

verus! {

/// What `DefaultHasher::new()` yields as the hash of the byte slice `data`.
pub uninterp spec fn default_hash(data: Seq<u8>) -> u64;

/// Hashes `data` as a slice with a fresh `DefaultHasher` (std:
/// `DefaultHasher::new`, `Hash::hash`, `Hasher::finish`). std documents that
/// every `DefaultHasher` made by `new` is the same, so the hash depends on
/// the bytes alone; the algorithm itself is left unstated.
#[verifier::external_body]
fn hash_bytes(data: &[u8]) -> (h: u64)
    ensures
        h == default_hash(data@),
{
    let mut hasher = std::collections::hash_map::DefaultHasher::new();
    data.hash(&mut hasher);
    hasher.finish()
}

/// The shard that holds topic `name` among `shard_count` shards.
pub open spec fn shard_of(name: Seq<u8>, shard_count: usize) -> int {
    (default_hash(name) as usize) as int % (shard_count as int)
}

/// The partition, among `partition_no`, that receives records with `key`.
pub open spec fn partition_of(key: Seq<u8>, partition_no: usize) -> int {
    (default_hash(key) as usize) as int % (partition_no as int)
}

/// The bytes `_partition_`.
pub open spec fn partition_infix() -> Seq<u8> {
    seq![95u8, 112, 97, 114, 116, 105, 116, 105, 111, 110, 95]
}

/// The bytes `.log`.
pub open spec fn log_suffix() -> Seq<u8> {
    seq![46u8, 108, 111, 103]
}

/// The log file of partition `id` of topic `topic`: `<topic>_partition_<id>.log`.
pub open spec fn partition_file_name(topic: Seq<u8>, id: nat) -> Seq<u8> {
    topic + partition_infix() + decimal(id) + log_suffix()
}

/// One partition of a topic: its number and the file its records go to.
pub struct Partition {
    pub id: usize,
    pub file_name: Vec<u8>,
}

/// A topic: its partition count and its partitions, numbered from zero.
pub struct Topic {
    pub partition_no: usize,
    pub partitions: Vec<Partition>,
}

impl Topic {
    /// The topic has `partition_no > 0` partitions, the `i`-th numbered `i`
    /// and logging to the file that `partition_file_name` gives for `name`.
    pub open spec fn wf_for(&self, name: Seq<u8>) -> bool {
        &&& self.partition_no > 0
        &&& self.partitions.len() == self.partition_no
        &&& forall|i: int|
            0 <= i < self.partitions.len() ==> {
                &&& (#[trigger] self.partitions[i]).id == i
                &&& self.partitions[i].file_name@ == partition_file_name(name, i as nat)
            }
    }
}

/// The log file name of partition `id` of topic `topic`.
pub fn make_file_name(topic: &[u8], id: usize) -> (r: Vec<u8>)
    ensures
        r@ == partition_file_name(topic@, id as nat),
        r@.subrange(0, topic@.len() as int) == topic@,
        r@.len() == topic@.len() + 15 + decimal(id as nat).len(),
{
    proof {
        lemma_partition_file_name_shape(topic@, id as nat);
    }
    let mut out: Vec<u8> = Vec::new();
    push_bytes(&mut out, topic);
    let infix: Vec<u8> = vec![95u8, 112, 97, 114, 116, 105, 116, 105, 111, 110, 95];
    push_bytes(&mut out, infix.as_slice());
    push_decimal(&mut out, id);
    let suffix: Vec<u8> = vec![46u8, 108, 111, 103];
    push_bytes(&mut out, suffix.as_slice());
    assert(infix@ =~= partition_infix());
    assert(suffix@ =~= log_suffix());
    assert(out@ =~= partition_file_name(topic@, id as nat));
    out
}

/// The partitions of a new topic: refused when the name is not UTF-8 or
/// the count is zero; otherwise partitions `0..partition_no` with their log
/// file names. (Creating the files is left to the caller.)
#[allow(non_snake_case)]
pub fn CreatePartitions(topic_name: &[u8], partition_no: usize) -> (r: Result<Vec<Partition>, BrokerError>)
    ensures
        r matches Err(e) ==> error_wf(e@),
        !valid_utf8(topic_name@) ==> (r matches Err(e) && e@ == BrokerErrorView::InvalidTopicName(topic_name@)),
        valid_utf8(topic_name@) && partition_no == 0 ==> (r matches Err(e) && e@ == BrokerErrorView::ZeroPartitions),
        valid_utf8(topic_name@) && partition_no > 0 ==> (r matches Ok(ps) && (Topic {
            partition_no,
            partitions: ps,
        }).wf_for(topic_name@)),
{
    if utf8_str(topic_name).is_none() {
        return Err(BrokerError::InvalidTopicName(copy_all(topic_name)));
    }
    if partition_no == 0 {
        return Err(BrokerError::ZeroPartitions);
    }
    let mut partitions: Vec<Partition> = Vec::new();
    let mut i: usize = 0;
    while i < partition_no
        invariant
            i <= partition_no,
            partitions.len() == i,
            forall|j: int|
                0 <= j < i ==> {
                    &&& (#[trigger] partitions[j]).id == j
                    &&& partitions[j].file_name@ == partition_file_name(topic_name@, j as nat)
                },
        decreases partition_no - i,
    {
        let file_name = make_file_name(topic_name, i);
        partitions.push(Partition { id: i, file_name });
        i = i + 1;
    }
    Ok(partitions)
}

impl Topic {
    /// A new topic named `topic_name` with `partition_no` partitions,
    /// refused as `CreatePartitions` says.
    pub fn new(topic_name: &Vec<u8>, partition_no: usize) -> (r: Result<Topic, BrokerError>)
        ensures
            r matches Err(e) ==> error_wf(e@),
            !valid_utf8(topic_name@) ==> (r matches Err(e) && e@ == BrokerErrorView::InvalidTopicName(topic_name@)),
            valid_utf8(topic_name@) && partition_no == 0 ==> (r matches Err(e) && e@ == BrokerErrorView::ZeroPartitions),
            valid_utf8(topic_name@) && partition_no > 0 ==> (r matches Ok(t) && t.partition_no == partition_no
                && t.wf_for(topic_name@)),
    {
        let partitions = CreatePartitions(topic_name.as_slice(), partition_no)?;
        Ok(Topic { partition_no, partitions })
    }
}


impl Partition {
    /// The bytes appended to a partition's log file for one record: the
    /// value and a newline.
    pub fn log_record(value: &[u8]) -> (r: Vec<u8>)
        ensures
            r@ == value@.push(10u8),
    {
        let mut r: Vec<u8> = Vec::new();
        push_bytes(&mut r, value);
        r.push(10u8);
        assert(r@ =~= value@.push(10u8));
        r
    }

    /// A copy of this partition.
    pub fn copy(&self) -> (r: Partition)
        ensures
            r.id == self.id,
            r.file_name@ == self.file_name@,
    {
        Partition { id: self.id, file_name: copy_all(self.file_name.as_slice()) }
    }
}

/// A topic stored under its name.
pub struct TopicEntry {
    pub name: Vec<u8>,
    pub topic: Topic,
}

/// The topics of one shard, by name.
pub struct TopicMap {
    entries: Vec<TopicEntry>,
}

/// The position of the entry named `name` in `entries`.
pub open spec fn entry_index(entries: Seq<TopicEntry>, name: Seq<u8>) -> int {
    choose|i: int| 0 <= i < entries.len() && (#[trigger] entries[i]).name@ == name
}

impl View for TopicMap {
    /// Each topic name mapped to the topic's partition count.
    type V = Map<Seq<u8>, usize>;

    closed spec fn view(&self) -> Map<Seq<u8>, usize> {
        Map::new(
            |name: Seq<u8>| exists|i: int| 0 <= i < self.entries@.len() && (#[trigger] self.entries@[i]).name@ == name,
            |name: Seq<u8>| self.entries@[entry_index(self.entries@, name)].topic.partition_no,
        )
    }
}

impl TopicMap {
    /// No two entries share a name, and every topic is well formed for its
    /// name.
    pub closed spec fn wf(&self) -> bool {
        &&& forall|i: int, j: int|
            0 <= i < self.entries@.len() && 0 <= j < self.entries@.len() && i != j
                ==> (#[trigger] self.entries@[i]).name@ != (#[trigger] self.entries@[j]).name@
        &&& forall|i: int|
            0 <= i < self.entries@.len() ==> (#[trigger] self.entries@[i]).topic.wf_for(self.entries@[i].name@)
    }

    /// An empty map.
    pub fn new() -> (r: TopicMap)
        ensures
            r.wf(),
            r@ == Map::<Seq<u8>, usize>::empty(),
    {
        let r = TopicMap { entries: Vec::new() };
        assert(r@ =~= Map::<Seq<u8>, usize>::empty());
        r
    }

    /// The position of the entry named `name`, if there is one.
    fn find(&self, name: &[u8]) -> (r: Option<usize>)
        requires
            self.wf(),
        ensures
            match r {
                Some(i) => i < self.entries@.len() && self.entries@[i as int].name@ == name@,
                None => forall|j: int| 0 <= j < self.entries@.len() ==> (#[trigger] self.entries@[j]).name@ != name@,
            },
    {
        let mut i: usize = 0;
        while i < self.entries.len()
            invariant
                i <= self.entries@.len(),
                forall|j: int| 0 <= j < i ==> (#[trigger] self.entries@[j]).name@ != name@,
            decreases self.entries@.len() - i,
        {
            if bytes_equal(self.entries[i].name.as_slice(), name) {
                return Some(i);
            }
            i = i + 1;
        }
        None
    }

    /// The entry at position `i` is the one the view finds under its name.
    proof fn lemma_entry_in_view(&self, i: int)
        requires
            self.wf(),
            0 <= i < self.entries@.len(),
        ensures
            self@.contains_key(self.entries@[i].name@),
            entry_index(self.entries@, self.entries@[i].name@) == i,
            self@[self.entries@[i].name@] == self.entries@[i].topic.partition_no,
    {
        let name = self.entries@[i].name@;
        assert(self.entries@[i].name@ == name);
        let k = entry_index(self.entries@, name);
        assert(0 <= k < self.entries@.len() && self.entries@[k].name@ == name);
    }

    /// The topic named `topic_buf`, if there is one.
    pub fn get(&self, topic_buf: &Vec<u8>) -> (r: Option<&Topic>)
        requires
            self.wf(),
        ensures
            match r {
                Some(t) => self@.contains_key(topic_buf@) && t.partition_no == self@[topic_buf@]
                    && t.wf_for(topic_buf@),
                None => !self@.contains_key(topic_buf@),
            },
    {
        match self.find(topic_buf.as_slice()) {
            Some(i) => {
                proof {
                    self.lemma_entry_in_view(i as int);
                }
                Some(&self.entries[i].topic)
            },
            None => None,
        }
    }

    /// Stores `topic` under `topic_buf`, replacing the topic of that name if
    /// there is one.
    pub fn insert(&mut self, topic_buf: Vec<u8>, topic: Topic)
        requires
            old(self).wf(),
            topic.wf_for(topic_buf@),
        ensures
            final(self).wf(),
            final(self)@ == old(self)@.insert(topic_buf@, topic.partition_no),
    {
        let ghost name = topic_buf@;
        let ghost pn = topic.partition_no;
        let ghost old_entries = self.entries@;
        match self.find(topic_buf.as_slice()) {
            Some(i) => {
                self.entries.set(i, TopicEntry { name: topic_buf, topic });
                proof {
                    assert(self.entries@ == old_entries.update(i as int, self.entries@[i as int]));
                    assert forall|k: Seq<u8>| #[trigger] self@.contains_key(k) <==> old(self)@.insert(name, pn).contains_key(k) by {
                        if old(self)@.contains_key(k) {
                            let j = choose|j: int| 0 <= j < old_entries.len() && (#[trigger] old_entries[j]).name@ == k;
                            assert(self.entries@[j].name@ == k);
                        }
                        if self@.contains_key(k) {
                            let j = choose|j: int| 0 <= j < self.entries@.len() && (#[trigger] self.entries@[j]).name@ == k;
                            if j != i {
                                assert(old_entries[j].name@ == k);
                            }
                        }
                        assert(self.entries@[i as int].name@ == name);
                    }
                    assert forall|k: Seq<u8>| #[trigger] self@.contains_key(k) implies self@[k] == old(self)@.insert(name, pn)[k] by {
                        let j = choose|j: int| 0 <= j < self.entries@.len() && (#[trigger] self.entries@[j]).name@ == k;
                        self.lemma_entry_in_view(j);
                        if j != i {
                            old(self).lemma_entry_in_view(j);
                        }
                    }
                    assert(self@ =~= old(self)@.insert(name, pn));
                }
            },
            None => {
                self.entries.push(TopicEntry { name: topic_buf, topic });
                proof {
                    let n = old_entries.len() as int;
                    assert(self.entries@ == old_entries.push(self.entries@[n]));
                    assert forall|k: Seq<u8>| #[trigger] self@.contains_key(k) <==> old(self)@.insert(name, pn).contains_key(k) by {
                        if old(self)@.contains_key(k) {
                            let j = choose|j: int| 0 <= j < old_entries.len() && (#[trigger] old_entries[j]).name@ == k;
                            assert(self.entries@[j].name@ == k);
                        }
                        if self@.contains_key(k) {
                            let j = choose|j: int| 0 <= j < self.entries@.len() && (#[trigger] self.entries@[j]).name@ == k;
                            if j != n {
                                assert(old_entries[j].name@ == k);
                            }
                        }
                        assert(self.entries@[n].name@ == name);
                    }
                    assert forall|k: Seq<u8>| #[trigger] self@.contains_key(k) implies self@[k] == old(self)@.insert(name, pn)[k] by {
                        let j = choose|j: int| 0 <= j < self.entries@.len() && (#[trigger] self.entries@[j]).name@ == k;
                        self.lemma_entry_in_view(j);
                        if j != n {
                            old(self).lemma_entry_in_view(j);
                        }
                    }
                    assert(self@ =~= old(self)@.insert(name, pn));
                }
            },
        }
    }
}


/// The broker's registry: `shard_count` shards, each holding the topics
/// whose name hashes to it.
pub struct Broker {
    shard_count: usize,
    shard_map: Vec<TopicMap>,
}

/// The mathematical value of a `Broker`: its shard count and, for each
/// shard, its topics mapped to their partition counts.
pub struct BrokerView {
    pub shard_count: usize,
    pub shards: Seq<Map<Seq<u8>, usize>>,
}

impl View for Broker {
    type V = BrokerView;

    closed spec fn view(&self) -> BrokerView {
        BrokerView { shard_count: self.shard_count, shards: self.shard_map@.map_values(|m: TopicMap| m@) }
    }
}

impl BrokerView {
    /// At least one shard, one map per shard, every topic in the shard its
    /// name hashes to, and every topic with at least one partition.
    pub open spec fn wf(self) -> bool {
        &&& self.shard_count > 0
        &&& self.shards.len() == self.shard_count
        &&& forall|s: int, name: Seq<u8>|
            0 <= s < self.shards.len() && #[trigger] self.shards[s].contains_key(name)
                ==> shard_of(name, self.shard_count) == s && self.shards[s][name] > 0
    }

    /// The registry after topic `name` is stored with `partition_no`
    /// partitions in its shard.
    pub open spec fn with_topic(self, name: Seq<u8>, partition_no: usize) -> BrokerView {
        let s = shard_of(name, self.shard_count);
        BrokerView { shards: self.shards.update(s, self.shards[s].insert(name, partition_no)), ..self }
    }

    /// The partition that a record with `key` for topic `topic` goes to:
    /// refused when the topic's shard holds no such topic.
    pub open spec fn route(self, topic: Seq<u8>, key: Seq<u8>) -> Result<int, BrokerErrorView> {
        let s = shard_of(topic, self.shard_count);
        if self.shards[s].contains_key(topic) {
            Ok(partition_of(key, self.shards[s][topic]))
        } else {
            Err(BrokerErrorView::UnknownTopic(topic))
        }
    }
}

/// `shard_count` empty shards.
#[allow(non_snake_case)]
pub fn CreateShardMap(shard_count: usize) -> (r: Vec<TopicMap>)
    ensures
        r.len() == shard_count,
        forall|i: int| 0 <= i < shard_count ==> (#[trigger] r[i]).wf() && r[i]@ == Map::<Seq<u8>, usize>::empty(),
{
    let mut shards: Vec<TopicMap> = Vec::new();
    let mut i: usize = 0;
    while i < shard_count
        invariant
            i <= shard_count,
            shards.len() == i,
            forall|j: int| 0 <= j < i ==> (#[trigger] shards[j]).wf() && shards[j]@ == Map::<Seq<u8>, usize>::empty(),
        decreases shard_count - i,
    {
        shards.push(TopicMap::new());
        i = i + 1;
    }
    shards
}

impl Broker {
    /// The registry is well formed: see `BrokerView::wf`; each shard's map
    /// is well formed too.
    pub closed spec fn wf(&self) -> bool {
        &&& self@.wf()
        &&& self.shard_map.len() == self.shard_count
        &&& forall|s: int| 0 <= s < self.shard_map.len() ==> (#[trigger] self.shard_map[s]).wf()
    }

    /// A well-formed registry has a well-formed view: at least one shard,
    /// every topic in the shard its name hashes to, and every topic with at
    /// least one partition.
    pub proof fn lemma_view_wf(&self)
        requires
            self.wf(),
        ensures
            self@.wf(),
    {
    }

    /// A registry of `shard_count` empty shards; refused when there are none.
    pub fn new(shard_count: usize) -> (r: Result<Broker, BrokerError>)
        ensures
            r matches Err(e) ==> error_wf(e@),
            shard_count == 0 ==> (r matches Err(e) && e@ == BrokerErrorView::ZeroShards),
            shard_count > 0 ==> (r matches Ok(b) && b.wf() && b@.shard_count == shard_count
                && b@.shards == Seq::new(shard_count as nat, |i: int| Map::<Seq<u8>, usize>::empty())),
    {
        if shard_count == 0 {
            return Err(BrokerError::ZeroShards);
        }
        let b = Broker { shard_count, shard_map: CreateShardMap(shard_count) };
        assert(b@.shards =~= Seq::new(shard_count as nat, |i: int| Map::<Seq<u8>, usize>::empty()));
        Ok(b)
    }

    /// The number of shards.
    pub fn shard_count(&self) -> (r: usize)
        ensures
            r == self@.shard_count,
    {
        self.shard_count
    }

    /// The hash of `data` that routing uses.
    pub fn get_hash(&self, data: &[u8]) -> (r: u64)
        ensures
            r == default_hash(data@),
    {
        hash_bytes(data)
    }

    /// The shard, among `shard_count`, that holds topic `topic`.
    pub fn get_shard(&self, topic: &[u8], shard_count: usize) -> (r: usize)
        requires
            shard_count > 0,
        ensures
            r == shard_of(topic@, shard_count),
            r as int == (default_hash(topic@) as usize) as int % (shard_count as int),
    {
        (hash_bytes(topic) as usize) % shard_count
    }

    /// Stores `topic` under `name` in the shard the name hashes to,
    /// replacing any topic of that name.
    pub fn insert_topic(&mut self, name: Vec<u8>, topic: Topic)
        requires
            old(self).wf(),
            topic.wf_for(name@),
        ensures
            final(self).wf(),
            final(self)@ == old(self)@.with_topic(name@, topic.partition_no),
    {
        let s = self.get_shard(name.as_slice(), self.shard_count);
        let ghost pn = topic.partition_no;
        let ghost n = name@;
        self.shard_map[s].insert(name, topic);
        proof {
            let v = old(self)@.with_topic(n, pn);
            assert(self@.shards =~= v.shards);
            assert forall|t: int, k: Seq<u8>|
                0 <= t < self@.shards.len() && #[trigger] self@.shards[t].contains_key(k)
                implies shard_of(k, self@.shard_count) == t && self@.shards[t][k] > 0 by {
                if t != s as int {
                    assert(old(self)@.shards[t] == self@.shards[t]);
                } else if k != n {
                    assert(old(self)@.shards[t].contains_key(k));
                }
            }
        }
    }

    /// The partition that a record with key `key` for topic `topic_name`
    /// goes to; refused when no such topic exists.
    pub fn route(&self, topic_name: &Vec<u8>, key: &Vec<u8>) -> (r: Result<Partition, BrokerError>)
        requires
            self.wf(),
        ensures
            r matches Err(e) ==> error_wf(e@),
            match r {
                Ok(p) => self@.route(topic_name@, key@) == Ok::<int, BrokerErrorView>(p.id as int)
                    && p.file_name@ == partition_file_name(topic_name@, p.id as nat)
                    && p.id < self@.shards[shard_of(topic_name@, self@.shard_count)][topic_name@]
                    && p.id as int == (default_hash(key@) as usize) as int % (self@.shards[shard_of(
                    topic_name@,
                    self@.shard_count,
                )][topic_name@] as int),
                Err(e) => self@.route(topic_name@, key@) == Err::<int, BrokerErrorView>(e@),
            },
    {
        let s = self.get_shard(topic_name.as_slice(), self.shard_count);
        match self.shard_map[s].get(topic_name) {
            None => Err(BrokerError::UnknownTopic(copy_all(topic_name.as_slice()))),
            Some(topic) => {
                let h = hash_bytes(key.as_slice());
                let id = (h as usize) % topic.partition_no;
                Ok(topic.partitions[id].copy())
            },
        }
    }
}


/// What the server does next for an accepted request.
pub enum Handled {
    /// Create the log files of `topic`'s partitions, then store it under
    /// `name` with `Broker::insert_topic`; the answer is an empty success.
    CreateTopic { name: Vec<u8>, topic: Topic },
    /// Append `value` to the log file of `partition`.
    Append { value: Vec<u8>, partition: Partition },
}

/// The mathematical value of `Handled`: the topic to create with its
/// partition count, or the value to append with the partition's number.
pub enum HandledView {
    CreateTopic { name: Seq<u8>, partition_no: usize },
    Append { value: Seq<u8>, partition: int },
}

impl View for Handled {
    type V = HandledView;

    open spec fn view(&self) -> HandledView {
        match self {
            Handled::CreateTopic { name, topic } => HandledView::CreateTopic {
                name: name@,
                partition_no: topic.partition_no,
            },
            Handled::Append { value, partition } => HandledView::Append {
                value: value@,
                partition: partition.id as int,
            },
        }
    }
}

impl Handled {
    /// The topic to create is well formed for its name; the partition to
    /// append to logs to its topic's file for its number.
    pub open spec fn wf_for(&self, operation: Seq<u8>, payload: Seq<u8>) -> bool {
        match self {
            Handled::CreateTopic { name, topic } => topic.wf_for(name@),
            Handled::Append { partition, .. } => read_request(operation, payload) matches Ok(
                OperationView::TopicData { topic, .. },
            ) && partition.file_name@ == partition_file_name(topic, partition.id as nat),
        }
    }
}

impl BrokerView {
    /// How the server answers a request with operation `operation` and
    /// payload `payload`: a topic to create (refused unless its name is
    /// UTF-8), or the partition that receives the value.
    pub open spec fn handle(self, operation: Seq<u8>, payload: Seq<u8>) -> Result<HandledView, BrokerErrorView> {
        match read_request(operation, payload) {
            Err(e) => Err(e),
            Ok(OperationView::TopicInsert { name, partition_no }) => if valid_utf8(name) {
                Ok(HandledView::CreateTopic { name, partition_no })
            } else {
                Err(BrokerErrorView::InvalidTopicName(name))
            },
            Ok(OperationView::TopicData { topic, key, value }) => match self.route(topic, key) {
                Ok(id) => Ok(HandledView::Append { value, partition: id }),
                Err(e) => Err(e),
            },
        }
    }
}

impl Broker {
    /// Reads a request and decides what it asks of the server.
    pub fn handle_operation(&self, operation: Vec<u8>, payload: Vec<u8>) -> (r: Result<Handled, BrokerError>)
        requires
            self.wf(),
        ensures
            r matches Err(e) ==> error_wf(e@),
            match r {
                Ok(h) => self@.handle(operation@, payload@) == Ok::<HandledView, BrokerErrorView>(h@)
                    && h.wf_for(operation@, payload@),
                Err(e) => self@.handle(operation@, payload@) == Err::<HandledView, BrokerErrorView>(e@),
            },
    {
        let ghost op = operation@;
        let ghost pl = payload@;
        match decode_operation(operation, payload) {
            Err(e) => Err(e),
            Ok(Operation::TopicInsert { name, partition_no }) => {
                let topic = Topic::new(&name, partition_no)?;
                Ok(Handled::CreateTopic { name, topic })
            },
            Ok(Operation::TopicData { topic, key, value }) => {
                let partition = self.route(&topic, &key)?;
                Ok(Handled::Append { value, partition })
            },
        }
    }
}


/// A stored topic is found again: after topic `name` is stored with
/// `partition_no` partitions, a record with any key is routed to it, to
/// partition `partition_of(key, partition_no)`, which is one of its
/// partitions; and the registry stays well formed.
pub proof fn lemma_route_after_insert(b: BrokerView, name: Seq<u8>, partition_no: usize, key: Seq<u8>)
    requires
        b.wf(),
        partition_no > 0,
    ensures
        b.with_topic(name, partition_no).wf(),
        b.with_topic(name, partition_no).route(name, key) == Ok::<int, BrokerErrorView>(
            partition_of(key, partition_no),
        ),
        0 <= partition_of(key, partition_no) < partition_no,
{
    lemma_with_topic_wf(b, name, partition_no);
}

/// Storing a topic with at least one partition keeps the registry well
/// formed.
pub proof fn lemma_with_topic_wf(b: BrokerView, name: Seq<u8>, partition_no: usize)
    requires
        b.wf(),
        partition_no > 0,
    ensures
        b.with_topic(name, partition_no).wf(),
{
    let v = b.with_topic(name, partition_no);
    let s = shard_of(name, b.shard_count);
    assert forall|t: int, k: Seq<u8>| 0 <= t < v.shards.len() && #[trigger] v.shards[t].contains_key(k)
        implies shard_of(k, v.shard_count) == t && v.shards[t][k] > 0 by {
        if t != s {
            assert(b.shards[t] == v.shards[t]);
        } else if k != name {
            assert(b.shards[t].contains_key(k));
        }
    }
}

/// Storing topic `name` changes the routing of no other topic.
pub proof fn lemma_route_other_topic(b: BrokerView, name: Seq<u8>, partition_no: usize, other: Seq<u8>, key: Seq<u8>)
    requires
        b.wf(),
        other != name,
    ensures
        b.with_topic(name, partition_no).route(other, key) == b.route(other, key),
{
    let s = shard_of(name, b.shard_count);
    let t = shard_of(other, b.shard_count);
    if s == t {
        assert(b.with_topic(name, partition_no).shards[t] == b.shards[t].insert(name, partition_no));
    } else {
        assert(b.with_topic(name, partition_no).shards[t] == b.shards[t]);
    }
}

/// Storing a topic under a name that is already taken replaces it: the
/// registry is as if only the later topic had been stored.
pub proof fn lemma_insert_replaces(b: BrokerView, name: Seq<u8>, first: usize, second: usize)
    requires
        b.wf(),
    ensures
        b.with_topic(name, first).with_topic(name, second) == b.with_topic(name, second),
{
    let s = shard_of(name, b.shard_count);
    assert(b.with_topic(name, first).with_topic(name, second).shards[s] =~= b.with_topic(name, second).shards[s]);
    assert(b.with_topic(name, first).with_topic(name, second).shards =~= b.with_topic(name, second).shards);
}

/// Every accepted record goes to one of its topic's partitions.
pub proof fn lemma_route_in_range(b: BrokerView, topic: Seq<u8>, key: Seq<u8>)
    requires
        b.wf(),
    ensures
        b.route(topic, key) matches Ok(id) ==> 0 <= id < b.shards[shard_of(topic, b.shard_count)][topic],
{
}

/// A registry with no topics refuses every record as naming an unknown
/// topic.
pub proof fn lemma_route_empty(shard_count: usize, topic: Seq<u8>, key: Seq<u8>)
    requires
        shard_count > 0,
    ensures
        (BrokerView {
            shard_count,
            shards: Seq::new(shard_count as nat, |i: int| Map::<Seq<u8>, usize>::empty()),
        }).route(topic, key) == Err::<int, BrokerErrorView>(BrokerErrorView::UnknownTopic(topic)),
{
}


/// Distinct numbers have distinct decimal numerals.
proof fn lemma_decimal_injective(a: nat, b: nat)
    requires
        decimal(a) == decimal(b),
    ensures
        a == b,
    decreases a + b,
{
    lemma_decimal_nonempty(a);
    lemma_decimal_nonempty(b);
    if a < 10 && b < 10 {
        let ca = (48 + a) as u8;
        let cb = (48 + b) as u8;
        assert(decimal(a) == seq![ca]);
        assert(decimal(b) == seq![cb]);
        assert(decimal(a)[0] == ca);
        assert(decimal(b)[0] == cb);
        assert(ca == cb);
        assert(ca as int == 48 + a);
        assert(cb as int == 48 + b);
    } else if a >= 10 && b >= 10 {
        let da = (48 + a % 10) as u8;
        let db = (48 + b % 10) as u8;
        assert(decimal(a) == decimal(a / 10).push(da));
        assert(decimal(b) == decimal(b / 10).push(db));
        assert(decimal(a).drop_last() =~= decimal(a / 10));
        assert(decimal(b).drop_last() =~= decimal(b / 10));
        lemma_decimal_injective(a / 10, b / 10);
        assert(decimal(a).last() == da);
        assert(decimal(b).last() == db);
        assert(da == db);
        assert(a % 10 < 10 && b % 10 < 10);
        assert(da as int == 48 + a % 10);
        assert(db as int == 48 + b % 10);
        assert(a % 10 == b % 10);
        assert(a == b) by (nonlinear_arith)
            requires
                a / 10 == b / 10,
                a % 10 == b % 10,
        ;
    } else if a < 10 {
        lemma_decimal_nonempty(b / 10);
        assert(decimal(b) == decimal(b / 10).push((48 + b % 10) as u8));
        assert(decimal(a).len() == 1);
        assert(false);
    } else {
        lemma_decimal_nonempty(a / 10);
        assert(decimal(a) == decimal(a / 10).push((48 + a % 10) as u8));
        assert(decimal(b).len() == 1);
        assert(false);
    }
}

/// A decimal numeral has at least one digit.
proof fn lemma_decimal_nonempty(n: nat)
    ensures
        decimal(n).len() >= 1,
    decreases n,
{
    if n >= 10 {
        lemma_decimal_nonempty(n / 10);
    }
}

/// Each partition of a topic logs to a file of its own.
pub proof fn lemma_partition_files_distinct(topic: Seq<u8>, i: nat, j: nat)
    requires
        i != j,
    ensures
        partition_file_name(topic, i) != partition_file_name(topic, j),
{
    if partition_file_name(topic, i) == partition_file_name(topic, j) {
        let p = topic + partition_infix();
        let x = partition_file_name(topic, i);
        assert(x.len() == topic.len() + 11 + decimal(i).len() + 4);
        assert(partition_file_name(topic, j).len() == topic.len() + 11 + decimal(j).len() + 4);
        assert(decimal(i).len() == decimal(j).len());
        assert(decimal(i) =~= x.subrange(p.len() as int, (p.len() + decimal(i).len()) as int));
        assert(decimal(j) =~= x.subrange(p.len() as int, (p.len() + decimal(j).len()) as int));
        lemma_decimal_injective(i, j);
    }
}

/// Records are routed by the hash of their whole key: when topic `topic`
/// is stored in the shard its name hashes to, with `n` partitions, a record
/// with key `key` goes to partition `hash(key) mod n`, whatever else the
/// request holds.
pub proof fn lemma_route_by_key_hash(b: BrokerView, topic: Seq<u8>, key: Seq<u8>)
    requires
        b.wf(),
        b.shards[(default_hash(topic) as usize) as int % (b.shard_count as int)].contains_key(topic),
    ensures
        b.route(topic, key) == Ok::<int, BrokerErrorView>(
            (default_hash(key) as usize) as int % (b.shards[(default_hash(topic) as usize) as int % (
            b.shard_count as int)][topic] as int),
        ),
{
}

/// A topic just stored with `n` partitions receives a record with key
/// `key` in partition `hash(key) mod n`; two records with the same key go
/// to the same partition.
pub proof fn lemma_stored_topic_routes_by_key(b: BrokerView, topic: Seq<u8>, n: usize, key: Seq<u8>)
    requires
        b.wf(),
        n > 0,
    ensures
        b.with_topic(topic, n).route(topic, key) == Ok::<int, BrokerErrorView>(
            (default_hash(key) as usize) as int % (n as int),
        ),
{
    lemma_route_after_insert(b, topic, n, key);
}

/// A data request names a topic, a key and a value; when the topic exists
/// with `n` partitions, the server appends the value to partition
/// `hash(key) mod n`: the partition depends on the key alone, never on the
/// value.
pub proof fn lemma_handle_data_routes_by_key(b: BrokerView, topic: Seq<u8>, key: Seq<u8>, value: Seq<u8>)
    requires
        b.wf(),
        b.shards[(default_hash(topic) as usize) as int % (b.shard_count as int)].contains_key(topic),
        topic.len() + key.len() + value.len() + 65 <= usize::MAX,
    ensures
        b.handle(name_bytes(topic_data_insert_name()), frame(topic) + frame(key) + frame(value)) == Ok::<
            HandledView,
            BrokerErrorView,
        >(
            HandledView::Append {
                value,
                partition: (default_hash(key) as usize) as int % (b.shards[(default_hash(topic) as usize) as int
                    % (b.shard_count as int)][topic] as int),
            },
        ),
{
    let payload = frame(topic) + frame(key) + frame(value);
    lemma_data_payload_read_back(topic, key, value);
    lemma_read_request_data(payload);
    lemma_route_by_key_hash(b, topic, key);
}

/// The decimal numeral of a number is made of ASCII digits only.
pub proof fn lemma_decimal_digits(n: nat)
    ensures
        forall|k: int| 0 <= k < decimal(n).len() ==> 48 <= #[trigger] decimal(n)[k] <= 57,
    decreases n,
{
    if n >= 10 {
        lemma_decimal_digits(n / 10);
        let d = (48 + n % 10) as u8;
        assert(d as int == 48 + n % 10);
        assert forall|k: int| 0 <= k < decimal(n).len() implies 48 <= #[trigger] decimal(n)[k] <= 57 by {
            if k < decimal(n / 10).len() {
                assert(decimal(n)[k] == decimal(n / 10)[k]);
            } else {
                assert(decimal(n)[k] == d);
            }
        }
    } else {
        assert(((48 + n) as u8) as int == 48 + n);
    }
}

/// The log file of partition `id` of topic `topic` starts with the whole
/// topic name, then `_partition_`, then the partition number in decimal
/// digits, and ends in `.log`.
pub proof fn lemma_partition_file_name_shape(topic: Seq<u8>, id: nat)
    ensures
        ({
            let f = partition_file_name(topic, id);
            &&& f.len() == topic.len() + 15 + decimal(id).len()
            &&& f.subrange(0, topic.len() as int) == topic
            &&& f.subrange(topic.len() as int, topic.len() + 11int) == seq![95u8, 112, 97, 114, 116, 105, 116, 105, 111, 110, 95]
            &&& f.subrange(topic.len() + 11int, topic.len() + 11int + decimal(id).len()) == decimal(id)
            &&& f.subrange(f.len() - 4, f.len() as int) == seq![46u8, 108, 111, 103]
            &&& forall|k: int| 0 <= k < decimal(id).len() ==> 48 <= #[trigger] decimal(id)[k] <= 57
        }),
{
    let f = partition_file_name(topic, id);
    lemma_decimal_digits(id);
    assert(f.subrange(0, topic.len() as int) =~= topic);
    assert(f.subrange(topic.len() as int, topic.len() + 11int) =~= partition_infix());
    assert(f.subrange(topic.len() + 11int, topic.len() + 11int + decimal(id).len()) =~= decimal(id));
    assert(f.subrange(f.len() - 4, f.len() as int) =~= log_suffix());
}

/// Log file names tell topics and partitions apart: two partitions share a
/// log file only if they are the same partition of the same topic.
pub proof fn lemma_partition_file_names_unique(t1: Seq<u8>, i: nat, t2: Seq<u8>, j: nat)
    requires
        partition_file_name(t1, i) == partition_file_name(t2, j),
    ensures
        t1 == t2,
        i == j,
{
    let f = partition_file_name(t1, i);
    let d1 = decimal(i);
    let d2 = decimal(j);
    lemma_partition_file_name_shape(t1, i);
    lemma_partition_file_name_shape(t2, j);
    let a = t1 + partition_infix() + d1;
    let b = t2 + partition_infix() + d2;
    assert(a =~= f.subrange(0, f.len() - 4));
    assert(b =~= f.subrange(0, f.len() - 4));
    assert(a == b);
    if d1.len() < d2.len() {
        let p = a.len() - 1 - d1.len();
        assert(a[p] == 95u8);
        assert(b[p] == d2[d2.len() - 1 - d1.len()]);
        assert(false);
    }
    if d2.len() < d1.len() {
        let p = b.len() - 1 - d2.len();
        assert(b[p] == 95u8);
        assert(a[p] == d1[d1.len() - 1 - d2.len()]);
        assert(false);
    }
    assert(d1 =~= a.subrange(a.len() - d1.len(), a.len() as int));
    assert(d2 =~= b.subrange(b.len() - d2.len(), b.len() as int));
    lemma_decimal_injective(i, j);
    assert(t1 =~= a.subrange(0, t1.len() as int));
    assert(t2 =~= b.subrange(0, t2.len() as int));
}

} // verus!
