//! The decisions of the runtime's loop: what to do when it wakes up, and
//! what to do once a message has been dispatched to the modules.

use vstd::prelude::*;

use crate::error::MqttError;
use crate::packet::MqttPacket;

verus! {

/// What woke the loop.
pub enum Wake<'a> {
    /// A packet arrived and was decoded; `None` for an empty read.
    Packet(Option<MqttPacket<'a>>),
    /// A packet arrived that did not decode.
    Malformed,
    /// The earliest tick deadline passed.
    Deadline,
    /// The transport failed, timed out or was closed.
    Lost,
}

/// What the loop does next.
#[derive(Debug, Clone, Copy, PartialEq, Eq, Structural)]
pub enum Action {
    /// Hand the PUBLISH to every module, in order, then ask `after_dispatch`.
    Dispatch,
    /// Tick the modules that are due, or all of them, then drain the outbox.
    Tick { all: bool },
    /// Nothing to do: wait for the next wake-up.
    Wait,
    /// End the loop and hand the transport's error to the caller.
    Stop,
}

/// The wake-up that a decoding result stands for: a decode error is only a
/// malformed packet, never the end of the loop.
pub fn wake_from_decode<'a, T>(decoded: Result<Option<MqttPacket<'a>>, MqttError<T>>) -> (r: Wake<'a>)
    ensures
        match decoded {
            Ok(p) => r == Wake::Packet(p),
            Err(_) => r is Malformed,
        },
{
    match decoded {
        Ok(p) => Wake::Packet(p),
        Err(_) => Wake::Malformed,
    }
}

/// What the loop does on waking: a PUBLISH goes to the modules; any other
/// packet, an empty read and a malformed packet are passed over; a passed
/// deadline ticks the modules that are due; a lost transport ends the loop.
pub fn next_action<'a>(wake: &Wake<'a>) -> (r: Action)
    ensures
        match wake {
            Wake::Packet(Some(MqttPacket::Publish(_))) => r == Action::Dispatch,
            Wake::Packet(_) => r == Action::Wait,
            Wake::Malformed => r == Action::Wait,
            Wake::Deadline => r == (Action::Tick { all: false }),
            Wake::Lost => r == Action::Stop,
        },
{
    match wake {
        Wake::Packet(Some(MqttPacket::Publish(_))) => Action::Dispatch,
        Wake::Packet(_) => Action::Wait,
        Wake::Malformed => Action::Wait,
        Wake::Deadline => Action::Tick { all: false },
        Wake::Lost => Action::Stop,
    }
}

/// What the loop does once every module has seen a message: where some
/// module asks for an immediate publish, tick all modules now, before the
/// next deadline, and drain the outbox; otherwise wait.
pub fn after_dispatch(immediate: bool) -> (r: Action)
    ensures
        immediate ==> r == (Action::Tick { all: true }),
        !immediate ==> r == Action::Wait,
{
    if immediate {
        Action::Tick { all: true }
    } else {
        Action::Wait
    }
}

} // verus!
