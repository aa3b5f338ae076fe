use myrtio_mqtt::error::{ConnectReasonCode, ErrorPlaceHolder, MqttError, ProtocolError};
use myrtio_mqtt::transport::{read_result, ReadOutcome, TransportError};

#[derive(Debug, PartialEq, Eq)]
struct LinkDown;

impl TransportError for LinkDown {}

#[test]
fn reason_codes_from_bytes() {
    assert_eq!(ConnectReasonCode::from(0), ConnectReasonCode::Success);
    assert_eq!(ConnectReasonCode::from(1), ConnectReasonCode::UnacceptableProtocolVersion);
    assert_eq!(ConnectReasonCode::from(2), ConnectReasonCode::IdentifierRejected);
    assert_eq!(ConnectReasonCode::from(3), ConnectReasonCode::ServerUnavailable);
    assert_eq!(ConnectReasonCode::from(4), ConnectReasonCode::BadUserNameOrPassword);
    assert_eq!(ConnectReasonCode::from(5), ConnectReasonCode::NotAuthorized);
    assert_eq!(ConnectReasonCode::from(135), ConnectReasonCode::Other(135));
}

#[test]
fn cast_keeps_non_transport_errors() {
    let e: MqttError<LinkDown> = MqttError::cast_transport_error(MqttError::<ErrorPlaceHolder>::Protocol(
        ProtocolError::MalformedPacket,
    ));
    assert_eq!(e, MqttError::Protocol(ProtocolError::MalformedPacket));
    let e: MqttError<LinkDown> = MqttError::cast_transport_error(
        MqttError::<ErrorPlaceHolder>::ConnectionRefused(ConnectReasonCode::NotAuthorized),
    );
    assert_eq!(e, MqttError::ConnectionRefused(ConnectReasonCode::NotAuthorized));
    let e: MqttError<LinkDown> = MqttError::cast_transport_error(MqttError::<ErrorPlaceHolder>::NotConnected);
    assert_eq!(e, MqttError::NotConnected);
    let e: MqttError<LinkDown> = MqttError::cast_transport_error(MqttError::<ErrorPlaceHolder>::BufferTooSmall);
    assert_eq!(e, MqttError::BufferTooSmall);
    let e: MqttError<LinkDown> = MqttError::cast_transport_error(MqttError::<ErrorPlaceHolder>::Timeout);
    assert_eq!(e, MqttError::Timeout);
}

#[test]
fn transport_error_converts() {
    let e: MqttError<LinkDown> = LinkDown.into();
    assert_eq!(e, MqttError::Transport(LinkDown));
}

#[test]
fn timed_read_outcomes() {
    assert_eq!(read_result::<LinkDown>(ReadOutcome::Data(12)), Ok(12));
    assert_eq!(
        read_result::<LinkDown>(ReadOutcome::Data(0)),
        Err(MqttError::Protocol(ProtocolError::ConnectionClosed))
    );
    assert_eq!(read_result(ReadOutcome::Failed(LinkDown)), Err(MqttError::Transport(LinkDown)));
    assert_eq!(read_result::<LinkDown>(ReadOutcome::TimedOut), Err(MqttError::Timeout));
}
