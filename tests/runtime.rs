use myrtio_mqtt::error::{ErrorPlaceHolder, MqttError, ProtocolError};
use myrtio_mqtt::packet::{decode, MqttVersion, Publish, QoS};
use myrtio_mqtt::runtime::{after_dispatch, next_action, wake_from_decode, Action, Wake};
use myrtio_mqtt::runtime::{
    BufferedOutbox, ModulePair, MqttModule, NoopModule, PublishOutbox, TickSchedule,
    TopicCollector, TopicRegistry,
};
use myrtio_mqtt::time::Duration;

struct Periodic {
    topic: &'static str,
    interval_secs: u64,
    ticks: u32,
    pending: bool,
}

impl Periodic {
    fn new(topic: &'static str, interval_secs: u64) -> Self {
        Periodic { topic, interval_secs, ticks: 0, pending: false }
    }
}

impl MqttModule for Periodic {
    fn register<C: TopicCollector>(&self, collector: &mut C) {
        collector.add(self.topic);
    }

    fn on_message(&mut self, msg: &Publish<'_>) {
        if msg.topic == self.topic {
            self.pending = true;
        }
    }

    fn on_tick<O: PublishOutbox>(&mut self, outbox: &mut O) -> Duration {
        self.ticks += 1;
        self.pending = false;
        outbox.publish(self.topic, b"state", QoS::AtMostOnce);
        Duration::from_secs(self.interval_secs)
    }

    fn on_start<O: PublishOutbox>(&mut self, outbox: &mut O) {
        outbox.publish(self.topic, b"online", QoS::AtMostOnce);
    }

    fn needs_immediate_publish(&self) -> bool {
        self.pending
    }
}

fn message(topic: &str) -> Publish<'_> {
    Publish { topic, qos: QoS::AtMostOnce, payload: b"go", packet_id: None, properties: Vec::new() }
}

#[test]
fn registry_refuses_beyond_capacity() {
    let mut r = TopicRegistry::<2>::new();
    assert!(r.is_empty());
    assert!(r.add_topic("a"));
    assert!(r.add_topic("b"));
    assert!(!r.add_topic("c"));
    assert_eq!(r.len(), 2);
    assert_eq!(r.iter(), vec!["a", "b"]);
    r.clear();
    assert!(r.is_empty());
}

#[test]
fn registry_refuses_long_topics() {
    let mut r = TopicRegistry::<4>::default();
    let long = "t".repeat(129);
    assert!(!r.add_topic(&long));
    let max = "t".repeat(128);
    assert!(r.add_topic(&max));
    assert!(r.add("x/y"));
    assert_eq!(r.iter(), vec![max.as_str(), "x/y"]);
}

#[test]
fn outbox_drops_beyond_capacity() {
    let mut o = BufferedOutbox::<2, 8, 4>::new();
    o.publish("a", b"1", QoS::AtMostOnce);
    o.publish("b", b"2", QoS::AtLeastOnce);
    assert_eq!(o.len(), 2);
    o.publish("c", b"3", QoS::AtMostOnce);
    assert_eq!(o.len(), 2);
    assert!(!o.try_publish("c", b"3", QoS::AtMostOnce));
    let drained = o.drain();
    assert!(o.is_empty());
    assert_eq!(drained.len(), 2);
    assert_eq!(drained[0].topic, "a");
    assert_eq!(drained[0].payload, b"1");
    assert_eq!(drained[1].topic, "b");
    assert_eq!(drained[1].qos, QoS::AtLeastOnce);
}

#[test]
fn outbox_drops_oversized_requests() {
    let mut o = BufferedOutbox::<4, 3, 2>::default();
    assert!(!o.try_publish("long", b"1", QoS::AtMostOnce));
    assert!(!o.try_publish("a", b"123", QoS::AtMostOnce));
    assert!(o.try_publish("abc", b"12", QoS::AtMostOnce));
    assert_eq!(o.len(), 1);
    o.clear();
    assert!(o.is_empty());
}

#[test]
fn pair_registers_both_modules() {
    let pair = ModulePair::new(Periodic::new("a/cmd", 30), Periodic::new("b/cmd", 60));
    let mut r = TopicRegistry::<8>::new();
    pair.register(&mut r);
    assert_eq!(r.iter(), vec!["a/cmd", "b/cmd"]);
}

#[test]
fn pair_ticks_both_and_takes_shorter_interval() {
    let mut pair = ModulePair::new(Periodic::new("a", 60), Periodic::new("b", 30));
    let mut o = BufferedOutbox::<4, 8, 8>::new();
    let d = pair.on_tick(&mut o);
    assert_eq!(d.as_millis(), 30_000);
    assert_eq!(pair.first.ticks, 1);
    assert_eq!(pair.second.ticks, 1);
    assert_eq!(o.len(), 2);
}

#[test]
fn noop_module_defaults() {
    let mut m = NoopModule;
    let mut o = BufferedOutbox::<1, 1, 1>::new();
    assert_eq!(m.on_tick(&mut o).as_millis(), 60_000);
    m.on_start(&mut o);
    assert!(!m.needs_immediate_publish());
    assert!(o.is_empty());
}

#[test]
fn tick_cadence_follows_busiest_module() {
    let mut modules = [Periodic::new("fast", 30), Periodic::new("slow", 60)];
    let mut outbox = BufferedOutbox::<8, 16, 16>::new();
    let mut schedule = TickSchedule::new(2, 0);
    let mut run = |now: u64, schedule: &mut TickSchedule, modules: &mut [Periodic; 2]| {
        let due = schedule.due_at(now, false);
        for i in 0..modules.len() {
            if due[i] {
                let interval = modules[i].on_tick(&mut outbox);
                schedule.record_tick(i, now, interval);
            }
        }
        due
    };
    assert_eq!(run(0, &mut schedule, &mut modules), vec![true, true]);
    assert_eq!(schedule.next_deadline(), Some(30_000));
    assert_eq!(run(30_000, &mut schedule, &mut modules), vec![true, false]);
    assert_eq!(modules[0].ticks, 2);
    assert_eq!(modules[1].ticks, 1);
    assert_eq!(schedule.next_deadline(), Some(60_000));
    assert_eq!(run(60_000, &mut schedule, &mut modules), vec![true, true]);
    assert_eq!(modules[0].ticks, 3);
    assert_eq!(modules[1].ticks, 2);
}

#[test]
fn immediate_publish_ticks_all_before_deadline() {
    let mut pair = ModulePair::new(Periodic::new("a/cmd", 30), Periodic::new("b/cmd", 60));
    let mut outbox = BufferedOutbox::<8, 16, 16>::new();
    let mut schedule = TickSchedule::new(1, 0);
    let interval = pair.on_tick(&mut outbox);
    schedule.record_tick(0, 0, interval);
    outbox.clear();
    assert_eq!(schedule.next_deadline(), Some(30_000));

    let now = 1_000;
    pair.on_message(&message("a/cmd"));
    let immediate = pair.needs_immediate_publish();
    assert!(immediate);
    assert_eq!(schedule.due_at(now, immediate), vec![true]);
    let interval = pair.on_tick(&mut outbox);
    schedule.record_tick(0, now, interval);
    let sent = outbox.drain();
    assert_eq!(sent.len(), 2);
    assert_eq!(sent[0].topic, "a/cmd");
    assert_eq!(sent[1].topic, "b/cmd");
    assert!(!pair.needs_immediate_publish());
    assert_eq!(schedule.next_deadline(), Some(31_000));
    assert_eq!(schedule.due_at(2_000, false), vec![false]);
}

#[test]
fn schedule_without_modules() {
    let s = TickSchedule::new(0, 5);
    assert_eq!(s.next_deadline(), None);
    assert_eq!(s.len(), 0);
    assert!(s.due_at(5, true).is_empty());
}

#[test]
fn durations() {
    assert_eq!(Duration::from_secs(2).as_millis(), 2_000);
    assert_eq!(Duration::from_millis(5).min(Duration::from_millis(3)).as_millis(), 3);
    assert_eq!(Duration::from_millis(3).min(Duration::from_millis(5)).as_millis(), 3);
}

#[test]
fn loop_decisions() {

    let publish = [0x30u8, 4, 0, 1, b'a', b'x'];
    let w = wake_from_decode(decode::<ErrorPlaceHolder>(&publish, MqttVersion::V311));
    assert_eq!(next_action(&w), Action::Dispatch);

    let ping = [0xD0u8, 0];
    let w = wake_from_decode(decode::<ErrorPlaceHolder>(&ping, MqttVersion::V311));
    assert_eq!(next_action(&w), Action::Wait);

    let bad = [0x36u8, 3, 0, 1, b'a'];
    let w = wake_from_decode(decode::<ErrorPlaceHolder>(&bad, MqttVersion::V311));
    assert!(matches!(w, Wake::Malformed));
    assert_eq!(next_action(&w), Action::Wait);

    let w = wake_from_decode::<ErrorPlaceHolder>(Err(MqttError::Protocol(
        ProtocolError::InvalidPacketType(0),
    )));
    assert_eq!(next_action(&w), Action::Wait);
    assert_eq!(next_action(&Wake::Packet(None)), Action::Wait);
    assert_eq!(next_action(&Wake::Deadline), Action::Tick { all: false });
    assert_eq!(next_action(&Wake::Lost), Action::Stop);
    assert_eq!(after_dispatch(true), Action::Tick { all: true });
    assert_eq!(after_dispatch(false), Action::Wait);
}

#[test]
fn pair_forwards_messages_to_both() {
    let mut pair = ModulePair::new(Periodic::new("a/cmd", 30), Periodic::new("a/cmd", 60));
    assert!(!pair.needs_immediate_publish());
    pair.on_message(&message("a/cmd"));
    assert!(pair.first.pending);
    assert!(pair.second.pending);
    let mut pair = ModulePair::new(Periodic::new("x", 30), Periodic::new("y", 60));
    pair.on_message(&message("y"));
    assert!(!pair.first.pending);
    assert!(pair.second.pending);
    assert!(pair.needs_immediate_publish());
}

#[test]
fn outbox_drain_keeps_order_of_many() {
    let mut o = BufferedOutbox::<8, 8, 8>::new();
    let topics = ["t0", "t1", "t2", "t3", "t4"];
    for t in topics {
        o.publish(t, t.as_bytes(), QoS::AtMostOnce);
    }
    let drained = o.drain();
    assert_eq!(drained.len(), topics.len());
    for (i, r) in drained.iter().enumerate() {
        assert_eq!(r.topic, topics[i]);
        assert_eq!(r.payload, topics[i].as_bytes());
        assert!(r.topic.len() <= 8 && r.payload.len() <= 8);
    }
    assert!(o.is_empty());
}

#[test]
fn pair_starts_both_in_order() {
    let mut pair = ModulePair::new(Periodic::new("a", 30), Periodic::new("b", 60));
    let mut o = BufferedOutbox::<4, 8, 8>::new();
    pair.on_start(&mut o);
    let sent = o.drain();
    assert_eq!(sent.len(), 2);
    assert_eq!(sent[0].topic, "a");
    assert_eq!(sent[1].topic, "b");
    assert_eq!(sent[0].payload, b"online");
}
