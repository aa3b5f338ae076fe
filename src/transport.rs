//! The transport side of the client: the marker trait for transport errors
//! and the rules that turn the outcome of a timed read into a result.

use vstd::prelude::*;

pub use crate::error::ErrorPlaceHolder;
use crate::error::{MqttError, ProtocolError};

verus! {

/// Marks the error types that a transport may report.
pub trait TransportError: core::fmt::Debug {}

impl TransportError for ErrorPlaceHolder {}

impl<T: core::fmt::Debug> TransportError for MqttError<T> {}


/// How a read that races a deadline ended.
#[derive(Debug)]
pub enum ReadOutcome<E> {
    /// The read finished with this many bytes.
    Data(usize),
    /// The transport failed.
    Failed(E),
    /// The deadline passed first.
    TimedOut,
}

/// The result of a timed read: the byte count, except that zero bytes mean
/// the peer closed the connection; a transport failure is wrapped; a
/// deadline that passed is a timeout, told apart from transport failures.
pub fn read_result<E>(outcome: ReadOutcome<E>) -> (r: Result<usize, MqttError<E>>)
    ensures
        match outcome {
            ReadOutcome::Data(n) => if n == 0 {
                r == Err::<usize, MqttError<E>>(MqttError::Protocol(ProtocolError::ConnectionClosed))
            } else {
                r == Ok::<usize, MqttError<E>>(n)
            },
            ReadOutcome::Failed(e) => r == Err::<usize, MqttError<E>>(MqttError::Transport(e)),
            ReadOutcome::TimedOut => r == Err::<usize, MqttError<E>>(MqttError::Timeout),
        },
{
    match outcome {
        ReadOutcome::Data(n) => if n == 0 {
            Err(MqttError::Protocol(ProtocolError::ConnectionClosed))
        } else {
            Ok(n)
        },
        ReadOutcome::Failed(e) => Err(MqttError::Transport(e)),
        ReadOutcome::TimedOut => Err(MqttError::Timeout),
    }
}

} // verus!
