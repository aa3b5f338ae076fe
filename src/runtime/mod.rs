//! The module runtime: modules register topics in a registry, queue
//! publishes in an outbox from synchronous callbacks, and are ticked on a
//! schedule that the busiest module sets.

pub mod event;
pub mod publisher;
pub mod registry;
pub mod schedule;
pub mod traits;

pub use crate::packet::Publish;

pub use event::{after_dispatch, next_action, wake_from_decode, Action, Wake};
pub use publisher::{BufferedOutbox, OwnedPublishRequest, PublishRequest};
pub use registry::TopicRegistry;
pub use schedule::TickSchedule;

pub use traits::{ModulePair, MqttModule, NoopModule, PublishOutbox, TopicCollector};
