//! Error types shared by the codec, the transport layer and the runtime.

use vstd::prelude::*;

use crate::transport::TransportError;

verus! {

/// Stands in for a transport error where none can occur: packet encoding and
/// decoding never touch a transport.
#[derive(Debug, Clone, Copy, PartialEq, Eq)]
pub struct ErrorPlaceHolder;

/// The error of every fallible operation, generic over the transport's own
/// error type `T`.
#[derive(Debug, PartialEq, Eq)]
pub enum MqttError<T> {
    /// The underlying transport failed.
    Transport(T),
    /// The peer or a packet broke the protocol.
    Protocol(ProtocolError),
    /// The broker refused the connection, for the given reason.
    ConnectionRefused(ConnectReasonCode),
    /// The client is not connected.
    NotConnected,
    /// A buffer is too small for the operation.
    BufferTooSmall,
    /// An operation did not complete in time.
    Timeout,
}

/// Reason codes of a CONNACK packet.
#[derive(Debug, Clone, Copy, PartialEq, Eq)]
pub enum ConnectReasonCode {
    Success,
    UnacceptableProtocolVersion,
    IdentifierRejected,
    ServerUnavailable,
    BadUserNameOrPassword,
    NotAuthorized,
    /// Any other code, kept as received.
    Other(u8),
}

/// Violations of the protocol.
#[derive(Debug, Clone, Copy, PartialEq, Eq)]
pub enum ProtocolError {
    /// The fixed header names no known packet type; carries the type nibble.
    InvalidPacketType(u8),
    InvalidResponse,
    ConnectionClosed,
    MalformedPacket,
    PayloadTooLarge,
    InvalidUtf8String,
    TooManyProperties,
}

/// The reason code that a CONNACK byte stands for.
pub open spec fn reason_code_of(val: u8) -> ConnectReasonCode {
    if val == 0 {
        ConnectReasonCode::Success
    } else if val == 1 {
        ConnectReasonCode::UnacceptableProtocolVersion
    } else if val == 2 {
        ConnectReasonCode::IdentifierRejected
    } else if val == 3 {
        ConnectReasonCode::ServerUnavailable
    } else if val == 4 {
        ConnectReasonCode::BadUserNameOrPassword
    } else if val == 5 {
        ConnectReasonCode::NotAuthorized
    } else {
        ConnectReasonCode::Other(val)
    }
}

impl From<u8> for ConnectReasonCode {
    fn from(val: u8) -> (r: Self) {
        match val {
            0 => ConnectReasonCode::Success,
            1 => ConnectReasonCode::UnacceptableProtocolVersion,
            2 => ConnectReasonCode::IdentifierRejected,
            3 => ConnectReasonCode::ServerUnavailable,
            4 => ConnectReasonCode::BadUserNameOrPassword,
            5 => ConnectReasonCode::NotAuthorized,
            _ => ConnectReasonCode::Other(val),
        }
    }
}

impl vstd::std_specs::convert::FromSpecImpl<u8> for ConnectReasonCode {
    open spec fn obeys_from_spec() -> bool {
        true
    }

    open spec fn from_spec(val: u8) -> ConnectReasonCode {
        reason_code_of(val)
    }
}

impl<T: TransportError> From<T> for MqttError<T> {
    fn from(err: T) -> (r: Self) {
        MqttError::Transport(err)
    }
}

impl<T: TransportError> vstd::std_specs::convert::FromSpecImpl<T> for MqttError<T> {
    open spec fn obeys_from_spec() -> bool {
        true
    }

    open spec fn from_spec(err: T) -> MqttError<T> {
        MqttError::Transport(err)
    }
}

impl<T> MqttError<T> {
    /// Moves an error that did not come from a transport over to another
    /// transport error type. A transport error cannot be moved, so the caller
    /// must not pass one.
    pub fn cast_transport_error<E>(other: MqttError<E>) -> (r: MqttError<T>)
        requires
            !(other is Transport),
        ensures
            match other {
                MqttError::Protocol(p) => r == MqttError::<T>::Protocol(p),
                MqttError::ConnectionRefused(c) => r == MqttError::<T>::ConnectionRefused(c),
                MqttError::NotConnected => r is NotConnected,
                MqttError::BufferTooSmall => r is BufferTooSmall,
                MqttError::Timeout => r is Timeout,
                MqttError::Transport(_) => false,
            },
    {
        match other {
            MqttError::Protocol(p) => MqttError::Protocol(p),
            MqttError::ConnectionRefused(c) => MqttError::ConnectionRefused(c),
            MqttError::NotConnected => MqttError::NotConnected,
            MqttError::BufferTooSmall => MqttError::BufferTooSmall,
            MqttError::Timeout => MqttError::Timeout,
            MqttError::Transport(_) => {
                proof {
                    assert(false);
                }
                MqttError::Timeout
            },
        }
    }
}

} // verus!
