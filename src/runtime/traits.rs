//! The interfaces between modules and the runtime, and module composition.
//!
//! Modules never perform I/O: they add topics to a collector when asked,
//! and queue publishes in an outbox from synchronous callbacks; the runtime
//! does the sending afterwards.

use vstd::prelude::*;

use crate::packet::{Publish, PublishView, QoS};
use crate::runtime::publisher::RequestView;
use crate::time::Duration;

verus! {

/// Where a module queues the messages it wants published.
pub trait PublishOutbox {
    /// Every publish asked of this outbox so far, in order, whether it kept
    /// the request or not.
    spec fn requested(&self) -> Seq<RequestView>;

    /// Queues a message; the runtime sends it after the callback returns.
    fn publish(&mut self, topic: &str, payload: &[u8], qos: QoS)
        ensures
            final(self).requested() == old(self).requested().push(
                RequestView { topic: topic@, payload: payload@, qos },
            ),
    ;
}

/// Where a module adds the topics it wants to receive. The topic is copied,
/// so it only needs to live for the call.
pub trait TopicCollector {
    /// Every topic offered to this collector so far, in order, whether it
    /// kept the topic or not.
    spec fn offered(&self) -> Seq<Seq<char>>;

    /// Adds a topic; `false` where the collector refuses it.
    fn add(&mut self, topic: &str) -> (r: bool)
        ensures
            final(self).offered() == old(self).offered().push(topic@),
    ;
}

/// The tick interval of a module that asks for nothing else: sixty seconds.
pub const DEFAULT_TICK_SECS: u64 = 60;

/// An application component driven by the runtime: it registers topics,
/// handles incoming messages and runs periodic work, all synchronously.
///
/// A module is described by what its callbacks do to it: the state a
/// message or a tick leaves it in, the interval it asks for at its next
/// tick, and whether it wants an immediate publish.
pub trait MqttModule: Sized {
    /// The state this module is in after handling `msg`; unless a module
    /// says otherwise, a message leaves it as it was.
    open spec fn handled(&self, msg: PublishView) -> Self {
        *self
    }

    /// The state this module is in after a tick; unless a module says
    /// otherwise, a tick leaves it as it was.
    open spec fn ticked(&self) -> Self {
        *self
    }

    /// The interval, in milliseconds, that a tick from this state asks for;
    /// `DEFAULT_TICK_SECS` seconds unless a module says otherwise.
    open spec fn next_interval(&self) -> u64 {
        (DEFAULT_TICK_SECS * 1000) as u64
    }

    /// Whether this state asks for an immediate publish; never, unless a
    /// module says otherwise.
    open spec fn wants_publish(&self) -> bool {
        false
    }

    /// The topics this module offers when it registers, in order; none
    /// unless a module says otherwise.
    open spec fn topics(&self) -> Seq<Seq<char>> {
        seq![]
    }

    /// The state this module is in after starting; unless a module says
    /// otherwise, starting leaves it as it was.
    open spec fn started(&self) -> Self {
        *self
    }

    /// The publishes this module asks for when it starts, in order; none
    /// unless a module says otherwise.
    open spec fn start_requests(&self) -> Seq<RequestView> {
        seq![]
    }

    /// The publishes a tick from this state asks for, in order; none unless
    /// a module says otherwise.
    open spec fn tick_requests(&self) -> Seq<RequestView> {
        seq![]
    }

    /// Offers the topics this module wants to receive to `collector`;
    /// called once at start-up.
    fn register<C: TopicCollector>(&self, collector: &mut C)
        ensures
            final(collector).offered() == old(collector).offered() + self.topics(),
    ;

    /// Handles an incoming message. The module matches the topic itself.
    fn on_message(&mut self, msg: &Publish<'_>)
        ensures
            *final(self) == old(self).handled(msg@),
    ;

    /// Runs periodic work, queueing publishes in `outbox`, and returns the
    /// time until the next tick.
    fn on_tick<O: PublishOutbox>(&mut self, outbox: &mut O) -> (r: Duration)
        ensures
            r.as_millis_spec() == old(self).next_interval(),
            *final(self) == old(self).ticked(),
            final(outbox).requested() == old(outbox).requested() + old(self).tick_requests(),
    ;

    /// Runs once after the subscriptions are made, queueing publishes in
    /// `outbox`.
    fn on_start<O: PublishOutbox>(&mut self, outbox: &mut O)
        ensures
            *final(self) == old(self).started(),
            final(outbox).requested() == old(outbox).requested() + old(self).start_requests(),
    ;

    /// Whether the last message asks for a tick right away.
    fn needs_immediate_publish(&self) -> (r: bool)
        ensures
            r == self.wants_publish(),
    ;
}

/// A module that does nothing: it ticks every `DEFAULT_TICK_SECS` seconds
/// and never asks for an immediate publish.
pub struct NoopModule;

impl MqttModule for NoopModule {
    fn register<C: TopicCollector>(&self, collector: &mut C) {
        assert(collector.offered() + seq![] =~= collector.offered());
    }

    fn on_message(&mut self, msg: &Publish<'_>) {
    }

    fn on_tick<O: PublishOutbox>(&mut self, outbox: &mut O) -> (r: Duration) {
        assert(outbox.requested() + seq![] =~= outbox.requested());
        Duration::from_secs(DEFAULT_TICK_SECS)
    }

    fn on_start<O: PublishOutbox>(&mut self, outbox: &mut O) {
        assert(outbox.requested() + seq![] =~= outbox.requested());
    }

    fn needs_immediate_publish(&self) -> (r: bool) {
        false
    }
}

/// Two modules run as one: each call goes to the first, then the second.
/// The pair asks for the shorter of their tick intervals and for an
/// immediate publish when either does.
pub struct ModulePair<M1, M2> {
    pub first: M1,
    pub second: M2,
}

impl<M1, M2> ModulePair<M1, M2> {
    /// The pair of `first` and `second`.
    pub fn new(first: M1, second: M2) -> (r: Self)
        ensures
            r.first == first,
            r.second == second,
    {
        ModulePair { first, second }
    }
}

/// The shorter of two intervals.
pub open spec fn shorter(a: u64, b: u64) -> u64 {
    if a <= b {
        a
    } else {
        b
    }
}

impl<M1: MqttModule, M2: MqttModule> MqttModule for ModulePair<M1, M2> {
    open spec fn handled(&self, msg: PublishView) -> Self {
        ModulePair { first: self.first.handled(msg), second: self.second.handled(msg) }
    }

    open spec fn ticked(&self) -> Self {
        ModulePair { first: self.first.ticked(), second: self.second.ticked() }
    }

    open spec fn next_interval(&self) -> u64 {
        shorter(self.first.next_interval(), self.second.next_interval())
    }

    open spec fn wants_publish(&self) -> bool {
        self.first.wants_publish() || self.second.wants_publish()
    }

    open spec fn topics(&self) -> Seq<Seq<char>> {
        self.first.topics() + self.second.topics()
    }

    open spec fn started(&self) -> Self {
        ModulePair { first: self.first.started(), second: self.second.started() }
    }

    open spec fn start_requests(&self) -> Seq<RequestView> {
        self.first.start_requests() + self.second.start_requests()
    }

    open spec fn tick_requests(&self) -> Seq<RequestView> {
        self.first.tick_requests() + self.second.tick_requests()
    }

    fn register<C: TopicCollector>(&self, collector: &mut C) {
        let ghost before = collector.offered();
        self.first.register(collector);
        self.second.register(collector);
        assert(before + self.first.topics() + self.second.topics() =~= before + self.topics());
    }

    fn on_message(&mut self, msg: &Publish<'_>) {
        self.first.on_message(msg);
        self.second.on_message(msg);
    }

    fn on_tick<O: PublishOutbox>(&mut self, outbox: &mut O) -> (r: Duration) {
        let ghost before = outbox.requested();
        let ghost start = *self;
        let d1 = self.first.on_tick(outbox);
        let d2 = self.second.on_tick(outbox);
        assert(before + start.first.tick_requests() + start.second.tick_requests() =~= before
            + start.tick_requests());
        d1.min(d2)
    }

    fn on_start<O: PublishOutbox>(&mut self, outbox: &mut O) {
        let ghost before = outbox.requested();
        let ghost start = *self;
        self.first.on_start(outbox);
        self.second.on_start(outbox);
        assert(before + start.first.start_requests() + start.second.start_requests() =~= before
            + start.start_requests());
    }

    fn needs_immediate_publish(&self) -> (r: bool) {
        self.first.needs_immediate_publish() || self.second.needs_immediate_publish()
    }
}

} // verus!
