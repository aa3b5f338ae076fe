use myrtio_mqtt::error::{ConnectReasonCode, ErrorPlaceHolder, MqttError, ProtocolError};
use myrtio_mqtt::session::{Session, SessionState};

type E = MqttError<ErrorPlaceHolder>;

#[test]
fn connect_handshake() {
    let mut s = Session::<4>::new(60);
    assert_eq!(s.state(), SessionState::Disconnected);
    assert_eq!(s.ensure_connected::<ErrorPlaceHolder>(), Err(E::NotConnected));
    s.start_connect(10);
    assert_eq!(s.state(), SessionState::Connecting);
    assert_eq!(s.on_connack::<ErrorPlaceHolder>(0), Ok(()));
    assert_eq!(s.state(), SessionState::Connected);
    assert_eq!(s.ensure_connected::<ErrorPlaceHolder>(), Ok(()));
}

#[test]
fn connect_refused() {
    let mut s = Session::<4>::new(60);
    s.start_connect(0);
    assert_eq!(
        s.on_connack::<ErrorPlaceHolder>(5),
        Err(E::ConnectionRefused(ConnectReasonCode::NotAuthorized))
    );
    assert_eq!(s.state(), SessionState::Disconnected);
    s.start_connect(0);
    assert_eq!(
        s.on_connack::<ErrorPlaceHolder>(0x87),
        Err(E::ConnectionRefused(ConnectReasonCode::Other(0x87)))
    );
}

#[test]
fn unexpected_connack() {
    let mut s = Session::<4>::new(60);
    assert_eq!(
        s.on_connack::<ErrorPlaceHolder>(0),
        Err(E::Protocol(ProtocolError::InvalidResponse))
    );
    assert_eq!(s.state(), SessionState::Disconnected);
}

#[test]
fn identifiers_are_unique_in_flight() {
    let mut s = Session::<3>::new(60);
    assert_eq!(s.allocate_id(), Some(1));
    assert_eq!(s.allocate_id(), Some(2));
    assert_eq!(s.allocate_id(), Some(3));
    assert_eq!(s.allocate_id(), None);
    assert_eq!(s.in_flight_count(), 3);
    assert!(s.acknowledge(2));
    assert!(!s.acknowledge(2));
    assert!(!s.acknowledge(9));
    assert_eq!(s.allocate_id(), Some(2));
    assert_eq!(s.in_flight_count(), 3);
    s.disconnect();
    assert_eq!(s.in_flight_count(), 0);
    assert_eq!(s.state(), SessionState::Disconnected);
}

#[test]
fn keep_alive_ping() {
    let mut s = Session::<2>::new(60);
    s.start_connect(0);
    assert!(!s.ping_due(100_000));
    s.on_connack::<ErrorPlaceHolder>(0).unwrap();
    s.record_sent(1_000);
    assert!(!s.ping_due(60_999));
    assert!(s.ping_due(61_000));
    s.record_sent(61_000);
    assert!(!s.ping_due(61_000));
    let mut off = Session::<2>::new(0);
    off.start_connect(0);
    off.on_connack::<ErrorPlaceHolder>(0).unwrap();
    assert!(!off.ping_due(u64::MAX));
}
