//! The registry of the topics that modules subscribe to.

use vstd::prelude::*;
use vstd::string::StringSliceAdditionalSpecFns;

use super::traits::TopicCollector;

verus! {

/// The longest topic the registry holds, in bytes.
pub const MAX_TOPIC_LEN: usize = 128;

/// The topics collected from the modules, in the order they were added, at
/// most `MAX_TOPICS` of them. Each is copied on insertion.
pub struct TopicRegistry<const MAX_TOPICS: usize> {
    topics: Vec<String>,
    offered: Ghost<Seq<Seq<char>>>,
}

impl<const MAX_TOPICS: usize> View for TopicRegistry<MAX_TOPICS> {
    type V = Seq<Seq<char>>;

    closed spec fn view(&self) -> Seq<Seq<char>> {
        self.topics@.map_values(|s: String| s@)
    }
}

impl<const MAX_TOPICS: usize> TopicRegistry<MAX_TOPICS> {
    /// The most topics the registry holds.
    pub open spec fn capacity() -> nat {
        MAX_TOPICS as nat
    }

    /// An empty registry.
    pub fn new() -> (r: Self)
        ensures
            r@ == Seq::<Seq<char>>::empty(),
            r.offered() == Seq::<Seq<char>>::empty(),
    {
        let r = TopicRegistry { topics: Vec::new(), offered: Ghost(Seq::empty()) };
        assert(r@ =~= Seq::<Seq<char>>::empty());
        r
    }

    /// Copies `topic` in at the end. Refused, with the registry unchanged,
    /// where it is full or the topic is longer than `MAX_TOPIC_LEN` bytes.
    pub fn add_topic(&mut self, topic: &str) -> (r: bool)
        ensures
            r == (old(self)@.len() < MAX_TOPICS && topic.spec_bytes().len() <= MAX_TOPIC_LEN),
            r ==> final(self)@ == old(self)@.push(topic@),
            !r ==> final(self)@ == old(self)@,
            final(self).offered() == old(self).offered().push(topic@),
    {
        self.offered = Ghost(self.offered@.push(topic@));
        if topic.as_bytes().len() > MAX_TOPIC_LEN {
            return false;
        }
        if self.topics.len() >= MAX_TOPICS {
            return false;
        }
        let owned = topic.to_owned();
        let ghost before = self.topics@;
        self.topics.push(owned);
        assert(self@ =~= before.map_values(|s: String| s@).push(topic@));
        true
    }

    /// The topics, in the order they were added.
    pub fn iter(&self) -> (r: Vec<&str>)
        ensures
            r@.len() == self@.len(),
            forall|i: int| 0 <= i < r@.len() ==> (#[trigger] r@[i])@ == self@[i],
    {
        let mut out: Vec<&str> = Vec::new();
        let mut i: usize = 0;
        while i < self.topics.len()
            invariant
                i <= self.topics@.len(),
                out@.len() == i,
                forall|j: int| 0 <= j < i ==> (#[trigger] out@[j])@ == self@[j],
            decreases self.topics@.len() - i,
        {
            out.push(self.topics[i].as_str());
            i = i + 1;
        }
        out
    }

    /// The number of topics.
    pub fn len(&self) -> (r: usize)
        ensures
            r == self@.len(),
    {
        self.topics.len()
    }

    /// Whether there are no topics.
    pub fn is_empty(&self) -> (r: bool)
        ensures
            r == (self@.len() == 0),
    {
        self.topics.len() == 0
    }

    /// Removes every topic.
    pub fn clear(&mut self)
        ensures
            final(self)@ == Seq::<Seq<char>>::empty(),
            final(self).offered() == old(self).offered(),
    {
        self.topics.clear();
        assert(self@ =~= Seq::<Seq<char>>::empty());
    }
}

impl<const MAX_TOPICS: usize> Default for TopicRegistry<MAX_TOPICS> {
    fn default() -> (r: Self)
        ensures
            r@ == Seq::<Seq<char>>::empty(),
            r.offered() == Seq::<Seq<char>>::empty(),
    {
        Self::new()
    }
}

impl<const MAX_TOPICS: usize> TopicCollector for TopicRegistry<MAX_TOPICS> {
    closed spec fn offered(&self) -> Seq<Seq<char>> {
        self.offered@
    }

    fn add(&mut self, topic: &str) -> (r: bool)
        ensures
            r == (old(self)@.len() < MAX_TOPICS && topic.spec_bytes().len() <= MAX_TOPIC_LEN),
            r ==> final(self)@ == old(self)@.push(topic@),
            !r ==> final(self)@ == old(self)@,
    {
        self.add_topic(topic)
    }
}

} // verus!
