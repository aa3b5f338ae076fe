//! A client engine for the MQTT publish/subscribe protocol aimed at small
//! devices: a wire codec over byte buffers, the serialization primitives it is
//! built from, the decisions of a session with the broker, and the pieces of a
//! module runtime (topic registry, publish outbox, module composition and tick
//! scheduling). Nothing here performs I/O: transports hand in bytes and
//! outcomes, and carry out what the library decides.

pub mod error;
pub mod packet;
pub mod runtime;
pub mod session;
pub mod time;
pub mod transport;
pub mod util;

pub use packet::QoS;
