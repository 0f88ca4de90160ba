//! What a broker knows of the topics: their sizes, where their partitions are
//! placed, and which incarnation of each is current.

use vstd::prelude::*;
use crate::keyed;
use crate::keyed::TextMap;
use crate::order;
use crate::text;
use crate::text::int_string;

verus! {

#[derive(Debug, Clone, PartialEq, Eq)]
pub enum ConfigError {
    /// The seed is not understood.
    Json(String),
    /// A topic of the seed has no partitions.
    InvalidPartitions(String),
}

impl ConfigError {
    /// The error in words.
    pub fn message(&self) -> (s: String)
        ensures
            s@ == (match self {
                ConfigError::Json(m) => "topics seed: "@ + m@,
                ConfigError::InvalidPartitions(t) => "topics seed: partitions must be > 0 for topic "@ + t@,
            }),
    {
        let (head, tail): (&str, &str) = match self {
            ConfigError::Json(m) => ("topics seed: ", m.as_str()),
            ConfigError::InvalidPartitions(t) => ("topics seed: partitions must be > 0 for topic ", t.as_str()),
        };
        let mut s = head.to_owned();
        s.push_str(tail);
        s
    }
}

#[derive(Debug, PartialEq, Eq)]
pub struct TopicMeta {
    pub name: String,
    pub partition_count: i32,
    /// All zero where no id is advertised.
    pub topic_id: [u8; 16],
}

impl Clone for TopicMeta {
    fn clone(&self) -> (r: Self)
        ensures
            r == *self,
    {
        TopicMeta { name: self.name.clone(), partition_count: self.partition_count, topic_id: self.topic_id }
    }
}

/// A topic of the seed.
#[derive(Debug, Clone, PartialEq, Eq)]
pub struct TopicSeedEntry {
    pub name: String,
    pub partitions: i32,
}

/// Which incarnation of a topic is current.
#[derive(Debug, Clone, PartialEq, Eq)]
pub enum TopicIncarnation {
    /// Nothing is known: what is on disk counts.
    Unknown,
    /// The topic is known, its id is not yet: wait.
    Pending,
    Known(String),
}

#[verifier::ext_equal]
pub enum Incarnation {
    Unknown,
    Pending,
    Known(Seq<char>),
}

impl View for TopicIncarnation {
    type V = Incarnation;

    open spec fn view(&self) -> Incarnation {
        match self {
            TopicIncarnation::Unknown => Incarnation::Unknown,
            TopicIncarnation::Pending => Incarnation::Pending,
            TopicIncarnation::Known(s) => Incarnation::Known(s@),
        }
    }
}

/// Says where a partition is placed.
pub trait PlacementResolver {
    fn log_dir_of(&self, topic: &str, partition: i32) -> Option<String>;
}

/// Says which incarnation of a topic is current.
pub trait TopicIdentityResolver {
    fn incarnation_of(&self, topic: &str) -> TopicIncarnation;
}

#[verifier::ext_equal]
pub struct RegistryModel {
    pub topics: Map<Seq<char>, TopicMeta>,
    /// Directories by topic and by partition, in decimal.
    pub volumes: Map<Seq<char>, Map<Seq<char>, Seq<char>>>,
    /// Empty where the topic was seen without an id.
    pub ids: Map<Seq<char>, Seq<char>>,
    pub synced: bool,
}

impl RegistryModel {
    pub open spec fn start() -> RegistryModel {
        RegistryModel { topics: Map::empty(), volumes: Map::empty(), ids: Map::empty(), synced: false }
    }

    pub open spec fn inserted(self, m: TopicMeta) -> RegistryModel {
        RegistryModel { topics: self.topics.insert(m.name@, m), ..self }
    }

    pub open spec fn removed(self, name: Seq<char>) -> RegistryModel {
        RegistryModel {
            topics: self.topics.remove(name),
            volumes: self.volumes.remove(name),
            ids: self.ids.remove(name),
            ..self
        }
    }

    pub open spec fn with_volumes(self, topic: Seq<char>, map: Map<Seq<char>, Seq<char>>) -> RegistryModel {
        RegistryModel {
            volumes: if map.dom().len() == 0 {
                self.volumes.remove(topic)
            } else {
                self.volumes.insert(topic, map)
            },
            ..self
        }
    }

    pub open spec fn volumes_of(self, topic: Seq<char>) -> Map<Seq<char>, Seq<char>> {
        if self.volumes.contains_key(topic) {
            self.volumes[topic]
        } else {
            Map::empty()
        }
    }

    pub open spec fn with_volume(self, topic: Seq<char>, partition: int, dir: Seq<char>) -> RegistryModel {
        RegistryModel {
            volumes: self.volumes.insert(topic, self.volumes_of(topic).insert(text::int_text(partition), dir)),
            ..self
        }
    }

    pub open spec fn volume(self, topic: Seq<char>, partition: int) -> Option<Seq<char>> {
        let m = self.volumes_of(topic);
        if m.contains_key(text::int_text(partition)) {
            Some(m[text::int_text(partition)])
        } else {
            None
        }
    }

    pub open spec fn with_id(self, topic: Seq<char>, id: Option<Seq<char>>) -> RegistryModel {
        RegistryModel {
            ids: self.ids.insert(
                topic,
                match id {
                    Some(s) => s,
                    None => Seq::empty(),
                },
            ),
            ..self
        }
    }

    pub open spec fn marked(self) -> RegistryModel {
        RegistryModel { synced: true, ..self }
    }

    pub open spec fn incarnation(self, topic: Seq<char>) -> Incarnation {
        if !self.ids.contains_key(topic) {
            if self.synced {
                Incarnation::Pending
            } else {
                Incarnation::Unknown
            }
        } else if self.ids[topic].len() == 0 {
            Incarnation::Pending
        } else {
            Incarnation::Known(self.ids[topic])
        }
    }

    pub open spec fn wf(self) -> bool {
        forall|k: Seq<char>| #[trigger] self.topics.contains_key(k) ==> self.topics[k].name@ == k
    }
}

#[derive(Debug)]
pub struct TopicRegistry {
    topics: TextMap<TopicMeta>,
    volumes: TextMap<TextMap<String>>,
    ids: TextMap<String>,
    synced: bool,
}

pub open spec fn dirs_view() -> spec_fn(TextMap<String>) -> Map<Seq<char>, Seq<char>> {
    |m: TextMap<String>| m@.map_values(text::string_view())
}

impl View for TopicRegistry {
    type V = RegistryModel;

    closed spec fn view(&self) -> RegistryModel {
        RegistryModel {
            topics: self.topics@,
            volumes: self.volumes@.map_values(dirs_view()),
            ids: self.ids@.map_values(text::string_view()),
            synced: self.synced,
        }
    }
}

/// The first entry of a seed without partitions.
pub open spec fn first_invalid(seed: Seq<TopicSeedEntry>, i: int) -> Option<Seq<char>>
    decreases seed.len() - i,
{
    if i < 0 || i >= seed.len() {
        None
    } else if seed[i].partitions <= 0 {
        Some(seed[i].name@)
    } else {
        first_invalid(seed, i + 1)
    }
}

pub open spec fn seed_meta(e: TopicSeedEntry, m: TopicMeta) -> bool {
    m.name@ == e.name@ && m.partition_count == e.partitions && m.topic_id@ == Seq::new(16, |i: int| 0u8)
}

/// Whether the topics are those of a seed, where the last of two entries of
/// one name counts.
pub open spec fn seeded(seed: Seq<TopicSeedEntry>, topics: Map<Seq<char>, TopicMeta>) -> bool
    decreases seed.len(),
{
    if seed.len() == 0 {
        topics == Map::<Seq<char>, TopicMeta>::empty()
    } else {
        exists|before: Map<Seq<char>, TopicMeta>, m: TopicMeta|
            #![trigger before.insert(seed.last().name@, m)]
            seeded(seed.drop_last(), before) && seed_meta(seed.last(), m) && topics == before.insert(seed.last().name@, m)
    }
}

impl Default for TopicRegistry {
    fn default() -> (r: Self)
        ensures
            r@ == RegistryModel::start(),
    {
        TopicRegistry::new()
    }
}

impl TopicRegistry {
    pub fn new() -> (r: Self)
        ensures
            r@ == RegistryModel::start(),
    {
        let r = TopicRegistry { topics: TextMap::new(), volumes: TextMap::new(), ids: TextMap::new(), synced: false };
        assert(r@ =~= RegistryModel::start());
        r
    }

    /// A registry with the topics of a seed.
    pub fn from_seed(seed: Vec<TopicSeedEntry>) -> (r: Result<Self, ConfigError>)
        ensures
            match r {
                Ok(t) => first_invalid(seed@, 0) is None && seeded(seed@, t@.topics) && t@.wf() && t@ == (RegistryModel {
                    topics: t@.topics,
                    ..RegistryModel::start()
                }),
                Err(e) => e matches ConfigError::InvalidPartitions(name) && first_invalid(seed@, 0) == Some(name@),
            },
    {
        let mut t = TopicRegistry::new();
        let mut i: usize = 0;
        assert(seed@.take(0) =~= Seq::empty());
        while i < seed.len()
            invariant
                i <= seed@.len(),
                first_invalid(seed@, 0) == first_invalid(seed@, i as int),
                seeded(seed@.take(i as int), t@.topics),
                t@.wf(),
                t@ == (RegistryModel { topics: t@.topics, ..RegistryModel::start() }),
            decreases seed.len() - i,
        {
            let e = &seed[i];
            if e.partitions <= 0 {
                return Err(ConfigError::InvalidPartitions(e.name.clone()));
            }
            let m = TopicMeta { name: e.name.clone(), partition_count: e.partitions, topic_id: [0u8; 16] };
            assert(m.topic_id@ =~= Seq::new(16, |i: int| 0u8));
            let ghost before = t@.topics;
            t.insert(m);
            proof {
                let s = seed@.take(i + 1);
                assert(s.drop_last() =~= seed@.take(i as int));
                assert(t@.topics == before.insert(s.last().name@, m));
                assert(seed_meta(s.last(), m));
            }
            i = i + 1;
        }
        assert(seed@.take(i as int) =~= seed@);
        Ok(t)
    }

    pub fn get(&self, name: &str) -> (r: Option<TopicMeta>)
        ensures
            r == (if self@.topics.contains_key(name@) {
                Some(self@.topics[name@])
            } else {
                None
            }),
    {
        match self.topics.get(name) {
            Some(m) => Some(m.clone()),
            None => None,
        }
    }

    /// Every topic, by name.
    pub fn all(&self) -> (out: Vec<TopicMeta>)
        ensures
            out@ == order::in_order(self@.topics.dom()).map_values(|k: Seq<char>| self@.topics[k]),
    {
        let keys = self.topics.sorted_keys();
        let ghost f = |k: Seq<char>| self@.topics[k];
        let ghost names = order::texts(keys@);
        let mut out: Vec<TopicMeta> = Vec::new();
        let mut i: usize = 0;
        while i < keys.len()
            invariant
                i <= keys@.len(),
                names == order::texts(keys@),
                names.to_set() == self@.topics.dom(),
                f == (|k: Seq<char>| self@.topics[k]),
                out@ == names.take(i as int).map_values(f),
            decreases keys.len() - i,
        {
            assert(names[i as int] == keys@[i as int]@);
            assert(names.to_set().contains(names[i as int]));
            match self.topics.get(&keys[i]) {
                Some(m) => {
                    out.push(m.clone());
                },
                None => {},
            }
            assert(out@ =~= names.take(i + 1).map_values(f));
            i = i + 1;
        }
        assert(names.take(i as int) =~= names);
        out
    }

    pub fn insert(&mut self, m: TopicMeta)
        ensures
            final(self)@ == old(self)@.inserted(m),
            old(self)@.wf() ==> final(self)@.wf(),
    {
        self.topics.insert(m.name.clone(), m);
        assert(self@ =~= old(self)@.inserted(m));
    }

    pub fn remove(&mut self, name: &str)
        ensures
            final(self)@ == old(self)@.removed(name@),
            old(self)@.wf() ==> final(self)@.wf(),
    {
        self.topics.remove(name);
        self.volumes.remove(name);
        self.ids.remove(name);
        proof {
            keyed::lemma_mapped(old(self).volumes@, dirs_view(), name@, arbitrary());
            keyed::lemma_mapped(old(self).ids@, text::string_view(), name@, arbitrary());
            assert(self@ =~= old(self)@.removed(name@));
        }
    }

    /// Replaces the placement of a topic; an empty one clears it.
    pub fn set_volume_assignments(&mut self, topic: &str, map: TextMap<String>)
        ensures
            final(self)@ == old(self)@.with_volumes(topic@, map@.map_values(text::string_view())),
    {
        proof {
            keyed::lemma_mapped(self.volumes@, dirs_view(), topic@, map);
            keyed::lemma_mapped(map@, text::string_view(), Seq::empty(), arbitrary());
        }
        if map.len() == 0 {
            self.volumes.remove(topic);
        } else {
            self.volumes.insert(topic.to_owned(), map);
        }
        assert(self@ =~= old(self)@.with_volumes(topic@, map@.map_values(text::string_view())));
    }

    /// Places one partition.
    pub fn set_volume_assignment(&mut self, topic: &str, partition: i32, log_dir: &str)
        ensures
            final(self)@ == old(self)@.with_volume(topic@, partition as int, log_dir@),
    {
        let ghost v0 = self.volumes@;
        let mut m: TextMap<String> = match self.volumes.remove(topic) {
            Some(m) => m,
            None => TextMap::new(),
        };
        let ghost m0 = m@;
        let key = int_string(partition as i64);
        let dir = log_dir.to_owned();
        proof {
            keyed::lemma_mapped(v0, dirs_view(), topic@, m);
            assert(m0.map_values(text::string_view()) =~= old(self)@.volumes_of(topic@));
            keyed::lemma_mapped(m0, text::string_view(), key@, dir);
        }
        m.insert(key, dir);
        proof {
            keyed::lemma_mapped(v0.remove(topic@), dirs_view(), topic@, m);
            keyed::lemma_mapped(v0, dirs_view(), topic@, m);
            assert(v0.remove(topic@).insert(topic@, m) =~= v0.insert(topic@, m));
        }
        self.volumes.insert(topic.to_owned(), m);
        assert(self@ =~= old(self)@.with_volume(topic@, partition as int, log_dir@));
    }

    /// The directory of a partition; none for the default one.
    pub fn volume_assignment(&self, topic: &str, partition: i32) -> (r: Option<String>)
        ensures
            match r {
                Some(s) => self@.volume(topic@, partition as int) == Some(s@),
                None => self@.volume(topic@, partition as int) is None,
            },
    {
        let key = int_string(partition as i64);
        proof {
            keyed::lemma_mapped(self.volumes@, dirs_view(), topic@, arbitrary());
        }
        match self.volumes.get(topic) {
            Some(m) => {
                proof {
                    keyed::lemma_mapped(m@, text::string_view(), key@, arbitrary());
                }
                match m.get(&key) {
                    Some(s) => Some(s.clone()),
                    None => None,
                }
            },
            None => None,
        }
    }

    /// Records the id of a topic, or that it was seen without one.
    pub fn set_topic_id(&mut self, topic: &str, id: Option<&str>)
        ensures
            final(self)@ == old(self)@.with_id(
                topic@,
                match id {
                    Some(s) => Some(s@),
                    None => None,
                },
            ),
    {
        let s: String = match id {
            Some(s) => s.to_owned(),
            None => String::new(),
        };
        proof {
            if id is None {
                assert(s@ =~= Seq::empty());
            }
            keyed::lemma_mapped(self.ids@, text::string_view(), topic@, s);
        }
        self.ids.insert(topic.to_owned(), s);
        assert(self@ =~= old(self)@.with_id(
            topic@,
            match id {
                Some(s) => Some(s@),
                None => None,
            },
        ));
    }

    /// Records that every topic was listed once. It is never taken back.
    pub fn mark_synced(&mut self)
        ensures
            final(self)@ == old(self)@.marked(),
    {
        self.synced = true;
    }

    /// Which incarnation of a topic is current, as far as is known. Before
    /// the topics were listed an absent one is unknown, afterwards it is
    /// pending.
    pub fn incarnation(&self, topic: &str) -> (r: TopicIncarnation)
        ensures
            r@ == self@.incarnation(topic@),
    {
        proof {
            keyed::lemma_mapped(self.ids@, text::string_view(), topic@, arbitrary());
        }
        match self.ids.get(topic) {
            None => if self.synced {
                TopicIncarnation::Pending
            } else {
                TopicIncarnation::Unknown
            },
            Some(id) => if id.as_str().is_empty() {
                TopicIncarnation::Pending
            } else {
                TopicIncarnation::Known(id.clone())
            },
        }
    }

    pub fn len(&self) -> (n: usize)
        ensures
            n == self@.topics.dom().len(),
    {
        self.topics.len()
    }

    pub fn is_empty(&self) -> (r: bool)
        ensures
            r == (self@.topics.dom().len() == 0),
    {
        self.topics.len() == 0
    }
}

impl PlacementResolver for TopicRegistry {
    fn log_dir_of(&self, topic: &str, partition: i32) -> (r: Option<String>)
        ensures
            match r {
                Some(s) => self@.volume(topic@, partition as int) == Some(s@),
                None => self@.volume(topic@, partition as int) is None,
            },
    {
        self.volume_assignment(topic, partition)
    }
}

impl TopicIdentityResolver for TopicRegistry {
    fn incarnation_of(&self, topic: &str) -> (r: TopicIncarnation)
        ensures
            r@ == self@.incarnation(topic@),
    {
        self.incarnation(topic)
    }
}

/// Nothing is known before the topics were listed.
pub proof fn law_nothing_is_known_at_first(topic: Seq<char>)
    ensures
        RegistryModel::start().incarnation(topic) == Incarnation::Unknown,
{
}

/// Once the topics were listed no topic is unknown again, whatever happens.
pub proof fn law_listing_is_not_forgotten(
    r: RegistryModel,
    topic: Seq<char>,
    m: TopicMeta,
    name: Seq<char>,
    dirs: Map<Seq<char>, Seq<char>>,
    partition: int,
    dir: Seq<char>,
    id: Option<Seq<char>>,
)
    requires
        r.synced,
    ensures
        r.incarnation(topic) != Incarnation::Unknown,
        r.inserted(m).synced,
        r.removed(name).synced,
        r.with_volumes(name, dirs).synced,
        r.with_volume(name, partition, dir).synced,
        r.with_id(name, id).synced,
        r.marked().synced,
{
}

/// A topic that was taken out is not there, is placed nowhere and has no id;
/// the others stay as they were.
pub proof fn law_removed_topic_is_gone(r: RegistryModel, name: Seq<char>, partition: int, other: Seq<char>)
    ensures
        !r.removed(name).topics.contains_key(name),
        r.removed(name).volume(name, partition) is None,
        r.removed(name).incarnation(name) == (if r.synced { Incarnation::Pending } else { Incarnation::Unknown }),
        other != name ==> r.removed(name).incarnation(other) == r.incarnation(other) && r.removed(name).volume(other, partition)
            == r.volume(other, partition) && r.removed(name).topics.contains_key(other) == r.topics.contains_key(other),
{
}

/// A placement reads back, and leaves the other partitions where they were.
pub proof fn law_placement_reads_back(r: RegistryModel, topic: Seq<char>, p: int, dir: Seq<char>, other: Seq<char>, q: int)
    ensures
        r.with_volume(topic, p, dir).volume(topic, p) == Some(dir),
        (other, q) != (topic, p) ==> r.with_volume(topic, p, dir).volume(other, q) == r.volume(other, q),
{
    text::lemma_int_text(p);
    text::lemma_int_text(q);
}

/// A topic without an id is pending, before and after the listing; one with
/// an id is known by it.
pub proof fn law_unstamped_is_not_unknown(r: RegistryModel, topic: Seq<char>, id: Seq<char>)
    ensures
        r.with_id(topic, None).incarnation(topic) == Incarnation::Pending,
        id.len() > 0 ==> r.with_id(topic, Some(id)).incarnation(topic) == Incarnation::Known(id),
{
}

} // verus!
