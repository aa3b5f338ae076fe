use myrtio_mqtt::error::{ErrorPlaceHolder, MqttError, ProtocolError};
use myrtio_mqtt::packet::{
    decode, ConnAck, Connect, DecodePacket, Disconnect, EncodePacket, MqttPacket, MqttVersion,
    PingReq, PubAck, Publish, QoS, SubAck, Subscribe,
};
use myrtio_mqtt::util::{
    read_properties, read_utf8_string, read_variable_byte_integer, write_properties,
    write_utf8_string, write_variable_byte_integer, write_variable_byte_integer_len, Property,
};

type E = MqttError<ErrorPlaceHolder>;

fn malformed() -> E {
    MqttError::Protocol(ProtocolError::MalformedPacket)
}

#[test]
fn vbi_boundaries() {
    let cases: [(usize, usize); 8] = [
        (0, 1),
        (127, 1),
        (128, 2),
        (16383, 2),
        (16384, 3),
        (2097151, 3),
        (2097152, 4),
        (268435455, 4),
    ];
    for (value, len) in cases {
        let mut buf = [0u8; 8];
        assert_eq!(write_variable_byte_integer_len(&mut buf, value), Ok(len));
        let mut cursor = 0usize;
        assert_eq!(read_variable_byte_integer(&mut cursor, &buf), Ok(value));
        assert_eq!(cursor, len);
    }
}

#[test]
fn vbi_exact_bytes() {
    let mut buf = [0u8; 4];
    assert_eq!(write_variable_byte_integer_len(&mut buf, 128), Ok(2));
    assert_eq!(&buf[..2], &[0x80, 0x01]);
    assert_eq!(write_variable_byte_integer_len(&mut buf, 16383), Ok(2));
    assert_eq!(&buf[..2], &[0xFF, 0x7F]);
    assert_eq!(write_variable_byte_integer_len(&mut buf, 268435455), Ok(4));
    assert_eq!(buf, [0xFF, 0xFF, 0xFF, 0x7F]);
}

#[test]
fn vbi_five_bytes_is_malformed() {
    let buf = [0xFFu8, 0xFF, 0xFF, 0xFF, 0x7F];
    let mut cursor = 0usize;
    assert_eq!(read_variable_byte_integer(&mut cursor, &buf), Err(malformed()));
    assert_eq!(cursor, 0);
}

#[test]
fn vbi_truncated_is_malformed() {
    let buf = [0x80u8, 0x80];
    let mut cursor = 0usize;
    assert_eq!(read_variable_byte_integer(&mut cursor, &buf), Err(malformed()));
    let mut cursor = 5usize;
    assert_eq!(read_variable_byte_integer(&mut cursor, &buf), Err(malformed()));
}

#[test]
fn vbi_reads_at_cursor() {
    let buf = [9u8, 0xC1, 0x02, 7];
    let mut cursor = 1usize;
    assert_eq!(read_variable_byte_integer(&mut cursor, &buf), Ok(0x41 + 2 * 128));
    assert_eq!(cursor, 3);
}

#[test]
fn vbi_too_large() {
    let mut buf = [0u8; 8];
    assert_eq!(
        write_variable_byte_integer_len(&mut buf, 268435456),
        Err(MqttError::Protocol(ProtocolError::PayloadTooLarge))
    );
    assert_eq!(buf, [0u8; 8]);
}

#[test]
fn vbi_buffer_too_small_writes_nothing() {
    let mut buf = [0xAAu8; 1];
    assert_eq!(write_variable_byte_integer_len(&mut buf, 128), Err(MqttError::BufferTooSmall));
    assert_eq!(buf, [0xAA]);
    let mut buf = [0xAAu8; 3];
    let mut cursor = 2usize;
    assert_eq!(
        write_variable_byte_integer(&mut cursor, &mut buf, 200),
        Err(MqttError::BufferTooSmall)
    );
    assert_eq!(cursor, 2);
    assert_eq!(buf, [0xAA; 3]);
}

#[test]
fn vbi_write_at_cursor() {
    let mut buf = [0u8; 4];
    let mut cursor = 1usize;
    assert_eq!(write_variable_byte_integer(&mut cursor, &mut buf, 300), Ok(()));
    assert_eq!(cursor, 3);
    assert_eq!(buf, [0, 0xAC, 0x02, 0]);
}

#[test]
fn string_encodes_to_two_plus_length() {
    let mut buf = [0u8; 16];
    assert_eq!(write_utf8_string(&mut buf, "hello"), Ok(7));
    assert_eq!(&buf[..7], &[0, 5, b'h', b'e', b'l', b'l', b'o']);
    assert_eq!(write_utf8_string(&mut buf, ""), Ok(2));
    assert_eq!(&buf[..2], &[0, 0]);
}

#[test]
fn string_of_65536_bytes_is_too_large() {
    let s = "x".repeat(65536);
    let mut buf = vec![0u8; 70000];
    assert_eq!(
        write_utf8_string(&mut buf, &s),
        Err(MqttError::Protocol(ProtocolError::PayloadTooLarge))
    );
    assert!(buf.iter().all(|b| *b == 0));
    let s = "x".repeat(65535);
    assert_eq!(write_utf8_string(&mut buf, &s), Ok(65537));
    assert_eq!(&buf[..2], &[0xFF, 0xFF]);
}

#[test]
fn string_buffer_too_small() {
    let mut buf = [0u8; 4];
    assert_eq!(write_utf8_string(&mut buf, "abc"), Err(MqttError::BufferTooSmall));
    assert_eq!(buf, [0u8; 4]);
}

#[test]
fn string_read_back() {
    let buf = [0u8, 3, b'a', b'/', b'b', 42];
    let mut cursor = 0usize;
    assert_eq!(read_utf8_string(&mut cursor, &buf), Ok("a/b"));
    assert_eq!(cursor, 5);
}

#[test]
fn string_read_invalid_utf8() {
    let buf = [0u8, 2, 0xC3, 0x28];
    let mut cursor = 0usize;
    assert_eq!(
        read_utf8_string(&mut cursor, &buf),
        Err(MqttError::Protocol(ProtocolError::InvalidUtf8String))
    );
    assert_eq!(cursor, 0);
}

#[test]
fn string_read_multibyte_utf8() {
    let buf = [0u8, 2, 0xC3, 0xA9];
    let mut cursor = 0usize;
    assert_eq!(read_utf8_string(&mut cursor, &buf), Ok("é"));
    assert_eq!(cursor, 4);
}

#[test]
fn string_read_truncated() {
    let buf = [0u8, 5, b'a'];
    let mut cursor = 0usize;
    assert_eq!(read_utf8_string(&mut cursor, &buf), Err(malformed()));
    let buf = [0u8];
    assert_eq!(read_utf8_string(&mut cursor, &buf), Err(malformed()));
}

#[test]
fn properties_round_trip() {
    let d1 = [7u8];
    let d2 = [9u8];
    let props = [Property { id: 1, data: &d1 }, Property { id: 0x24, data: &d2 }];
    let mut buf = [0u8; 8];
    let mut cursor = 1usize;
    assert_eq!(write_properties(&mut cursor, &mut buf, &props), Ok(()));
    assert_eq!(cursor, 6);
    assert_eq!(&buf[..6], &[0, 4, 1, 7, 0x24, 9]);
    let mut cursor = 1usize;
    let read = read_properties(&mut cursor, &buf).unwrap();
    assert_eq!(cursor, 6);
    assert_eq!(read.len(), 2);
    assert_eq!(read[0].id, 1);
    assert_eq!(read[0].data, &[7]);
    assert_eq!(read[1].id, 0x24);
    assert_eq!(read[1].data, &[9]);
}

#[test]
fn properties_errors() {
    let buf = [3u8, 1, 2, 3];
    let mut cursor = 0usize;
    assert_eq!(read_properties(&mut cursor, &buf).unwrap_err(), malformed());
    let buf = [4u8, 1, 2];
    assert_eq!(read_properties(&mut cursor, &buf).unwrap_err(), malformed());
    let mut buf = vec![18u8];
    buf.extend_from_slice(&[1u8; 18]);
    assert_eq!(
        read_properties(&mut cursor, &buf).unwrap_err(),
        MqttError::Protocol(ProtocolError::TooManyProperties)
    );
    assert_eq!(cursor, 0);
    let data = [1u8, 2, 3];
    let props = [Property { id: 5, data: &data }];
    let mut small = [0u8; 4];
    let mut c = 0usize;
    assert_eq!(write_properties(&mut c, &mut small, &props), Err(MqttError::BufferTooSmall));
    assert_eq!(small, [0u8; 4]);
}

fn publish<'a>(topic: &'a str, qos: QoS, payload: &'a [u8], id: Option<u16>) -> Publish<'a> {
    Publish { topic, qos, payload, packet_id: id, properties: Vec::new() }
}

#[test]
fn publish_exact_bytes() {
    let p = publish("a/b", QoS::AtMostOnce, b"hi", None);
    let mut buf = [0u8; 32];
    assert_eq!(p.encode(&mut buf, MqttVersion::V311), Ok(9));
    assert_eq!(&buf[..9], &[0x30, 7, 0, 3, b'a', b'/', b'b', b'h', b'i']);
}

#[test]
fn publish_round_trip_qos0() {
    let p = publish("sensors/temp", QoS::AtMostOnce, b"21.5", None);
    let mut buf = [0u8; 64];
    let n = p.encode(&mut buf, MqttVersion::V311).unwrap();
    let d = Publish::decode(&buf[..n], MqttVersion::V311).unwrap();
    assert_eq!(d.topic, "sensors/temp");
    assert_eq!(d.qos, QoS::AtMostOnce);
    assert_eq!(d.payload, b"21.5");
    assert_eq!(d.packet_id, None);
}

#[test]
fn publish_round_trip_qos1() {
    let p = publish("cmd", QoS::AtLeastOnce, b"on", Some(0x1234));
    let mut buf = [0u8; 64];
    let n = p.encode(&mut buf, MqttVersion::V311).unwrap();
    assert_eq!(&buf[..n], &[0x32, 9, 0, 3, b'c', b'm', b'd', 0x12, 0x34, b'o', b'n']);
    let d = Publish::decode(&buf[..n], MqttVersion::V311).unwrap();
    assert_eq!(d.qos, QoS::AtLeastOnce);
    assert_eq!(d.packet_id, Some(0x1234));
    assert_eq!(d.payload, b"on");
}

#[test]
fn publish_round_trip_v5_with_properties() {
    let d1 = [3u8];
    let mut p = publish("t", QoS::ExactlyOnce, b"xyz", Some(7));
    p.properties.push(Property { id: 1, data: &d1 });
    let mut buf = [0u8; 64];
    let n = p.encode(&mut buf, MqttVersion::V5).unwrap();
    match decode::<ErrorPlaceHolder>(&buf[..n], MqttVersion::V5).unwrap() {
        Some(MqttPacket::Publish(d)) => {
            assert_eq!(d.topic, "t");
            assert_eq!(d.qos, QoS::ExactlyOnce);
            assert_eq!(d.packet_id, Some(7));
            assert_eq!(d.payload, b"xyz");
            assert_eq!(d.properties.len(), 1);
            assert_eq!(d.properties[0].id, 1);
            assert_eq!(d.properties[0].data, &[3]);
        }
        other => panic!("unexpected {:?}", other),
    }
}

#[test]
fn publish_qos_bits_three_is_malformed() {
    let buf = [0x36u8, 3, 0, 1, b'a'];
    assert_eq!(Publish::decode(&buf, MqttVersion::V311).unwrap_err(), malformed());
}

#[test]
fn publish_qos0_has_no_identifier() {
    let buf = [0x30u8, 5, 0, 1, b'a', 0x12, 0x34];
    let d = Publish::decode(&buf, MqttVersion::V311).unwrap();
    assert_eq!(d.packet_id, None);
    assert_eq!(d.payload, &[0x12, 0x34]);
    let buf = [0x32u8, 5, 0, 1, b'a', 0x12, 0x34];
    let d = Publish::decode(&buf, MqttVersion::V311).unwrap();
    assert_eq!(d.packet_id, Some(0x1234));
    assert_eq!(d.payload, b"");
}

#[test]
fn publish_qos1_without_identifier_bytes_is_malformed() {
    let buf = [0x32u8, 4, 0, 1, b'a', 0x12];
    assert_eq!(Publish::decode(&buf, MqttVersion::V311).unwrap_err(), malformed());
}

#[test]
fn publish_decode_short_buffers() {
    assert_eq!(Publish::decode(&[], MqttVersion::V311).unwrap_err(), malformed());
    assert_eq!(Publish::decode(&[0x30], MqttVersion::V311).unwrap_err(), malformed());
    assert_eq!(Publish::decode(&[0x30, 10, 0, 1], MqttVersion::V311).unwrap_err(), malformed());
}

#[test]
fn publish_buffer_too_small_writes_nothing() {
    let p = publish("a/b", QoS::AtMostOnce, b"hi", None);
    // The encoder needs five bytes before the seven bytes of content.
    let mut buf = [0xEEu8; 11];
    assert_eq!(p.encode(&mut buf, MqttVersion::V311), Err(MqttError::BufferTooSmall));
    assert_eq!(buf, [0xEE; 11]);
    let mut buf = [0xEEu8; 12];
    assert_eq!(p.encode(&mut buf, MqttVersion::V311), Ok(9));
    let mut empty: [u8; 0] = [];
    assert_eq!(p.encode(&mut empty, MqttVersion::V311), Err(MqttError::BufferTooSmall));
}

#[test]
fn publish_topic_too_large() {
    let topic = "t".repeat(65536);
    let p = publish(&topic, QoS::AtMostOnce, b"", None);
    let mut buf = [0u8; 8];
    assert_eq!(
        p.encode(&mut buf, MqttVersion::V311),
        Err(MqttError::Protocol(ProtocolError::PayloadTooLarge))
    );
}

#[test]
fn publish_long_payload_uses_two_length_bytes() {
    let payload = vec![0x5Au8; 200];
    let p = publish("x", QoS::AtMostOnce, &payload, None);
    let mut buf = vec![0u8; 300];
    let n = p.encode(&mut buf, MqttVersion::V311).unwrap();
    assert_eq!(n, 1 + 2 + 203);
    assert_eq!(&buf[..5], &[0x30, 0xCB, 0x01, 0, 1]);
    let d = Publish::decode(&buf[..n], MqttVersion::V311).unwrap();
    assert_eq!(d.payload, &payload[..]);
}

#[test]
fn connect_exact_bytes() {
    let c = Connect::new("dev1", 60, true);
    let mut buf = [0u8; 64];
    let n = c.encode(&mut buf, MqttVersion::V311).unwrap();
    assert_eq!(
        &buf[..n],
        &[0x10, 16, 0, 4, b'M', b'Q', b'T', b'T', 4, 2, 0, 60, 0, 4, b'd', b'e', b'v', b'1']
    );
}

#[test]
fn connect_round_trip() {
    for version in [MqttVersion::V311, MqttVersion::V5] {
        let c = Connect::new("client-7", 300, false);
        let mut buf = [0u8; 64];
        let n = c.encode(&mut buf, version).unwrap();
        if version == MqttVersion::V5 {
            assert_eq!(buf[8], 5);
        } else {
            assert_eq!(buf[8], 4);
        }
        match decode::<ErrorPlaceHolder>(&buf[..n], version).unwrap() {
            Some(MqttPacket::Connect(d)) => {
                assert_eq!(d.client_id, "client-7");
                assert_eq!(d.keep_alive, 300);
                assert!(!d.clean_session);
                assert!(d.properties.is_empty());
            }
            other => panic!("unexpected {:?}", other),
        }
    }
    let c = Connect::new("", 0, true);
    let mut buf = [0u8; 32];
    let n = c.encode(&mut buf, MqttVersion::V311).unwrap();
    let d = Connect::decode(&buf[..n], MqttVersion::V311).unwrap();
    assert!(d.clean_session);
    assert_eq!(d.client_id, "");
}

#[test]
fn connect_buffer_too_small() {
    let c = Connect::new("dev1", 60, true);
    let mut buf = [0u8; 20];
    assert_eq!(c.encode(&mut buf, MqttVersion::V311), Err(MqttError::BufferTooSmall));
    assert_eq!(buf, [0u8; 20]);
}

#[test]
fn subscribe_exact_bytes() {
    let s = Subscribe::new(10, "a/#", QoS::AtLeastOnce);
    let mut buf = [0u8; 32];
    let n = s.encode(&mut buf, MqttVersion::V311).unwrap();
    assert_eq!(&buf[..n], &[0x82, 8, 0, 10, 0, 3, b'a', b'/', b'#', 1]);
    match decode::<ErrorPlaceHolder>(&buf[..n], MqttVersion::V311).unwrap() {
        Some(MqttPacket::Subscribe(d)) => {
            assert_eq!(d.packet_id, 0);
            assert!(d.topics.is_empty());
        }
        other => panic!("unexpected {:?}", other),
    }
}

#[test]
fn subscribe_two_topics_v5() {
    let mut s = Subscribe::new(1, "x", QoS::AtMostOnce);
    s.topics.push(("y/z", QoS::ExactlyOnce));
    let mut buf = [0u8; 32];
    let n = s.encode(&mut buf, MqttVersion::V5).unwrap();
    assert_eq!(&buf[..n], &[0x82, 13, 0, 1, 0, 0, 1, b'x', 0, 0, 3, b'y', b'/', b'z', 2]);
}

#[test]
fn suback_decode() {
    let buf = [0x90u8, 4, 0, 10, 1, 0x80];
    let s = SubAck::decode(&buf, MqttVersion::V311).unwrap();
    assert_eq!(s.packet_id, 10);
    assert_eq!(s.reason_codes, vec![1, 0x80]);
    let mut long = vec![0x90u8, 12, 0, 1];
    long.extend_from_slice(&[0u8, 1, 2, 3, 4, 5, 6, 7, 8, 9]);
    let s = SubAck::decode(&long, MqttVersion::V311).unwrap();
    assert_eq!(s.reason_codes, vec![0, 1, 2, 3, 4, 5, 6, 7]);
    assert_eq!(SubAck::decode(&[0x90, 1, 0], MqttVersion::V311).unwrap_err(), malformed());
}

#[test]
fn suback_decode_v5() {
    let buf = [0x90u8, 5, 0, 3, 0, 2, 1];
    let s = SubAck::decode(&buf, MqttVersion::V5).unwrap();
    assert_eq!(s.packet_id, 3);
    assert!(s.properties.is_empty());
    assert_eq!(s.reason_codes, vec![2, 1]);
}

#[test]
fn connack_decode() {
    let buf = [0x20u8, 2, 1, 5];
    let c = ConnAck::decode(&buf, MqttVersion::V311).unwrap();
    assert!(c.session_present);
    assert_eq!(c.reason_code, 5);
    let buf = [0x20u8, 5, 0, 0, 2, 0x11, 4];
    let c = ConnAck::decode(&buf, MqttVersion::V5).unwrap();
    assert!(!c.session_present);
    assert_eq!(c.reason_code, 0);
    assert_eq!(c.properties.len(), 1);
    assert_eq!(c.properties[0].id, 0x11);
    assert_eq!(ConnAck::decode(&[0x20, 1, 0], MqttVersion::V311).unwrap_err(), malformed());
}

#[test]
fn puback_decode() {
    let p = PubAck::decode(&[0x40, 2, 0xAB, 0xCD], MqttVersion::V311).unwrap();
    assert_eq!(p.packet_id, 0xABCD);
    assert_eq!(PubAck::decode(&[0x40, 1, 0xAB], MqttVersion::V311).unwrap_err(), malformed());
}

#[test]
fn ping_and_disconnect() {
    let mut buf = [0u8; 2];
    assert_eq!(PingReq.encode(&mut buf, MqttVersion::V311), Ok(2));
    assert_eq!(buf, [0xC0, 0]);
    assert!(matches!(
        decode::<ErrorPlaceHolder>(&buf, MqttVersion::V311),
        Ok(Some(MqttPacket::PingReq))
    ));
    assert_eq!(Disconnect.encode(&mut buf, MqttVersion::V5), Ok(2));
    assert_eq!(buf, [0xE0, 0]);
    assert!(matches!(
        decode::<ErrorPlaceHolder>(&buf, MqttVersion::V311),
        Ok(Some(MqttPacket::Disconnect(_)))
    ));
    let mut one = [0u8; 1];
    assert_eq!(PingReq.encode(&mut one, MqttVersion::V311), Err(MqttError::BufferTooSmall));
    assert_eq!(Disconnect.encode(&mut one, MqttVersion::V311), Err(MqttError::BufferTooSmall));
    assert!(matches!(
        decode::<ErrorPlaceHolder>(&[0xD0, 0], MqttVersion::V311),
        Ok(Some(MqttPacket::PingResp))
    ));
}

#[test]
fn decode_empty_and_unknown() {
    assert!(matches!(decode::<ErrorPlaceHolder>(&[], MqttVersion::V311), Ok(None)));
    assert_eq!(
        decode::<ErrorPlaceHolder>(&[0x50, 0], MqttVersion::V311).unwrap_err(),
        MqttError::Protocol(ProtocolError::InvalidPacketType(5))
    );
    assert_eq!(
        decode::<ErrorPlaceHolder>(&[0xF0], MqttVersion::V311).unwrap_err(),
        MqttError::Protocol(ProtocolError::InvalidPacketType(15))
    );
    assert_eq!(
        decode::<ErrorPlaceHolder>(&[0x30, 9, 0], MqttVersion::V311).unwrap_err(),
        malformed()
    );
    match decode::<ErrorPlaceHolder>(&[0x40, 2, 0, 9], MqttVersion::V311) {
        Ok(Some(MqttPacket::PubAck(p))) => assert_eq!(p.packet_id, 9),
        other => panic!("unexpected {:?}", other),
    }
}

#[test]
fn qos_levels_are_ordered() {
    assert_eq!(QoS::AtMostOnce.level(), 0);
    assert_eq!(QoS::AtLeastOnce.level(), 1);
    assert_eq!(QoS::ExactlyOnce.level(), 2);
    assert!(QoS::AtMostOnce < QoS::AtLeastOnce);
    assert!(QoS::AtLeastOnce < QoS::ExactlyOnce);
}

#[test]
fn publish_identifier_must_match_qos() {
    let mut buf = [0xEEu8; 32];
    let p = publish("a", QoS::AtLeastOnce, b"x", None);
    assert_eq!(p.encode(&mut buf, MqttVersion::V311), Err(malformed()));
    assert_eq!(buf, [0xEE; 32]);
    let p = publish("a", QoS::AtMostOnce, b"x", Some(3));
    assert_eq!(p.encode(&mut buf, MqttVersion::V311), Ok(6));
    assert_eq!(&buf[..6], &[0x30, 4, 0, 1, b'a', b'x']);
    let mut empty: [u8; 0] = [];
    assert_eq!(p.encode(&mut empty, MqttVersion::V311), Err(MqttError::BufferTooSmall));
}
